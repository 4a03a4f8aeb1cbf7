use crate::access_rights::{rights_ge, AccessRights};
use crate::pointers::{ContractPointer, UPointer};
use core::cmp::Ordering;
use vstd::prelude::*;

verus! {

/// The address of an entity in the global store.
#[derive(Clone, Copy, Debug, Hash)]
pub enum Key {
    /// An account, by its 20-byte address.
    Account([u8; 20]),
    /// Immutable content, by its 32-byte hash.
    Hash([u8; 32]),
    /// Unforgeable state, with the rights this key grants over it.
    URef([u8; 32], AccessRights),
}

/// Rank of the variant in the ordering of keys.
pub open spec fn variant_rank(k: Key) -> int {
    match k {
        Key::Account(_) => 0,
        Key::Hash(_) => 1,
        Key::URef(_, _) => 2,
    }
}

/// The identifier bytes of a key; the access rights are not part of them.
pub open spec fn id_of(k: Key) -> Seq<u8> {
    match k {
        Key::Account(id) => id@,
        Key::Hash(id) => id@,
        Key::URef(id, _) => id@,
    }
}

/// Lexicographic order on byte sequences: `a` comes strictly before `b`
/// when it is a proper prefix of `b` or has the smaller byte at the first
/// position where they differ.
pub open spec fn bytes_lt(a: Seq<u8>, b: Seq<u8>) -> bool {
    bytes_lt_from(a, b, 0)
}

/// `bytes_lt` on what follows the first `i` bytes of both sequences.
pub open spec fn bytes_lt_from(a: Seq<u8>, b: Seq<u8>, i: int) -> bool
    decreases a.len() - i,
{
    if i < 0 || i >= a.len() {
        i >= 0 && i < b.len()
    } else if i >= b.len() {
        false
    } else if a[i] < b[i] {
        true
    } else if a[i] > b[i] {
        false
    } else {
        bytes_lt_from(a, b, i + 1)
    }
}

/// Three-way lexicographic comparison of byte sequences.
pub open spec fn bytes_cmp(a: Seq<u8>, b: Seq<u8>) -> Ordering {
    if bytes_lt(a, b) {
        Ordering::Less
    } else if a == b {
        Ordering::Equal
    } else {
        Ordering::Greater
    }
}

/// The ordering of keys for sorted containers: by variant (`Account`, then
/// `Hash`, then `URef`), then by identifier bytes. Access rights are left
/// out, so two references to the same state with different rights order as
/// equal although they are different keys.
pub open spec fn key_cmp(a: Key, b: Key) -> Ordering {
    if variant_rank(a) < variant_rank(b) {
        Ordering::Less
    } else if variant_rank(a) > variant_rank(b) {
        Ordering::Greater
    } else {
        bytes_cmp(id_of(a), id_of(b))
    }
}

/// Whether a key grants reading the state it addresses.
pub open spec fn readable(k: Key) -> bool {
    match k {
        Key::URef(_, rights) => rights_ge(rights, AccessRights::Read),
        _ => true,
    }
}

/// Whether a key grants overwriting the state it addresses.
pub open spec fn writable(k: Key) -> bool {
    match k {
        Key::URef(_, rights) => rights_ge(rights, AccessRights::Write),
        _ => false,
    }
}

/// Whether a key grants adding to the state it addresses.
pub open spec fn addable(k: Key) -> bool {
    match k {
        Key::URef(_, rights) => rights_ge(rights, AccessRights::Add),
        _ => true,
    }
}

/// The ordering of keys does not see access rights: two references to the
/// same state order as equal, though as values they differ whenever their
/// rights do.
pub proof fn lemma_key_cmp_ignores_rights(id: [u8; 32], r1: AccessRights, r2: AccessRights)
    ensures
        key_cmp(Key::URef(id, r1), Key::URef(id, r2)) == Ordering::Equal,
        r1 != r2 ==> Key::URef(id, r1) != Key::URef(id, r2),
{
    lemma_bytes_lt_strict(id@, id@);
}

proof fn lemma_bytes_lt_from_asym(a: Seq<u8>, b: Seq<u8>, i: int)
    requires
        0 <= i,
    ensures
        bytes_lt_from(a, b, i) ==> !bytes_lt_from(b, a, i),
        !bytes_lt_from(a, b, i) && !bytes_lt_from(b, a, i) && i <= a.len() && i <= b.len()
            && a.subrange(0, i) == b.subrange(0, i) ==> a == b,
    decreases a.len() - i,
{
    if i < a.len() && i < b.len() && a[i] == b[i] {
        assert(a.subrange(0, i + 1) == b.subrange(0, i + 1) <== a.subrange(0, i) == b.subrange(
            0,
            i,
        )) by {
            if a.subrange(0, i) == b.subrange(0, i) {
                assert(a.subrange(0, i + 1) =~= a.subrange(0, i).push(a[i]));
                assert(b.subrange(0, i + 1) =~= b.subrange(0, i).push(b[i]));
            }
        }
        lemma_bytes_lt_from_asym(a, b, i + 1);
    } else if i >= a.len() && i >= b.len() {
        if i <= a.len() && i <= b.len() && a.subrange(0, i) == b.subrange(0, i) {
            assert(a =~= a.subrange(0, i));
            assert(b =~= b.subrange(0, i));
        }
    }
}

/// `bytes_lt` is a strict order: never both ways, and neither way only on
/// equal sequences.
pub proof fn lemma_bytes_lt_strict(a: Seq<u8>, b: Seq<u8>)
    ensures
        bytes_lt(a, b) ==> !bytes_lt(b, a),
        !bytes_lt(a, b) && !bytes_lt(b, a) ==> a == b,
        !bytes_lt(a, a),
{
    lemma_bytes_lt_from_asym(a, b, 0);
    lemma_bytes_lt_from_asym(a, a, 0);
    assert(a.subrange(0, 0) =~= b.subrange(0, 0));
}

proof fn lemma_bytes_lt_from_trans(a: Seq<u8>, b: Seq<u8>, c: Seq<u8>, i: int)
    requires
        0 <= i,
        bytes_lt_from(a, b, i),
        bytes_lt_from(b, c, i),
    ensures
        bytes_lt_from(a, c, i),
    decreases a.len() - i,
{
    if i < a.len() && i < b.len() && i < c.len() && a[i] == b[i] && b[i] == c[i] {
        lemma_bytes_lt_from_trans(a, b, c, i + 1);
    }
}

/// `bytes_lt` is transitive.
pub proof fn lemma_bytes_lt_transitive(a: Seq<u8>, b: Seq<u8>, c: Seq<u8>)
    requires
        bytes_lt(a, b),
        bytes_lt(b, c),
    ensures
        bytes_lt(a, c),
{
    lemma_bytes_lt_from_trans(a, b, c, 0);
}

/// Compares two byte slices lexicographically.
pub fn compare_bytes(a: &[u8], b: &[u8]) -> (r: Ordering)
    ensures
        r == bytes_cmp(a@, b@),
{
    proof {
        lemma_bytes_lt_strict(a@, b@);
    }
    let mut i: usize = 0;
    while i < a.len() && i < b.len()
        invariant
            i <= a@.len(),
            i <= b@.len(),
            a@.subrange(0, i as int) == b@.subrange(0, i as int),
            bytes_lt(a@, b@) == bytes_lt_from(a@, b@, i as int),
            bytes_lt(b@, a@) == bytes_lt_from(b@, a@, i as int),
        decreases a.len() - i,
    {
        if a[i] < b[i] {
            return Ordering::Less;
        } else if a[i] > b[i] {
            return Ordering::Greater;
        }
        assert(a@.subrange(0, i + 1) =~= a@.subrange(0, i as int).push(a@[i as int]));
        assert(b@.subrange(0, i + 1) =~= b@.subrange(0, i as int).push(b@[i as int]));
        i = i + 1;
    }
    proof {
        lemma_bytes_lt_from_asym(a@, b@, i as int);
    }
    if i < b.len() {
        Ordering::Less
    } else if i < a.len() {
        Ordering::Greater
    } else {
        Ordering::Equal
    }
}

impl Key {
    pub fn is_readable(&self) -> (r: bool)
        ensures
            r == readable(*self),
    {
        match self {
            Key::URef(_, access_right) => access_right.includes(AccessRights::Read),
            _ => true,
        }
    }

    pub fn is_writable(&self) -> (r: bool)
        ensures
            r == writable(*self),
    {
        match self {
            Key::URef(_, access_right) => access_right.includes(AccessRights::Write),
            _ => false,
        }
    }

    pub fn is_addable(&self) -> (r: bool)
        ensures
            r == addable(*self),
    {
        match self {
            Key::URef(_, access_right) => access_right.includes(AccessRights::Add),
            // An account may always add new keys to its own table.
            _ => true,
        }
    }

    /// The identifier bytes of this key, without its access rights.
    pub fn id_bytes(&self) -> (r: &[u8])
        ensures
            r@ == id_of(*self),
    {
        match self {
            Key::Account(a) => a.as_slice(),
            Key::Hash(h) => h.as_slice(),
            Key::URef(u, _) => u.as_slice(),
        }
    }

    /// The ordering of keys for sorted containers (see `key_cmp`).
    pub fn cmp(&self, other: &Key) -> (r: Ordering)
        ensures
            r == key_cmp(*self, *other),
    {
        match (self, other) {
            (Key::Account(id_1), Key::Account(id_2)) => compare_bytes(id_1.as_slice(), id_2.as_slice()),
            (Key::Account(_), _) => Ordering::Less,
            (Key::Hash(id_1), Key::Hash(id_2)) => compare_bytes(id_1.as_slice(), id_2.as_slice()),
            (Key::Hash(_), Key::URef(_, _)) => Ordering::Less,
            (Key::Hash(_), Key::Account(_)) => Ordering::Greater,
            (Key::URef(id_1, _), Key::URef(id_2, _)) => compare_bytes(id_1.as_slice(), id_2.as_slice()),
            (Key::URef(_, _), _) => Ordering::Greater,
        }
    }

    /// Narrows an unforgeable reference to a typed handle; other keys give
    /// `None`.
    pub fn to_u_ptr<T>(self) -> (r: Option<UPointer<T>>)
        ensures
            match self {
                Key::URef(id, rights) => r matches Some(p) && p.0 == id && p.1 == rights,
                _ => r is None,
            },
    {
        if let Key::URef(id, access_right) = self {
            Some(UPointer::new(id, access_right))
        } else {
            None
        }
    }

    /// Narrows a key to a handle on contract code: a hash or an unforgeable
    /// reference; an account gives `None`.
    pub fn to_c_ptr(self) -> (r: Option<ContractPointer>)
        ensures
            match self {
                Key::URef(id, rights) => r matches Some(ContractPointer::URef(p)) && p.0 == id
                    && p.1 == rights,
                Key::Hash(id) => r == Some(ContractPointer::Hash(id)),
                Key::Account(_) => r is None,
            },
    {
        match self {
            Key::URef(id, rights) => Some(ContractPointer::URef(UPointer::new(id, rights))),
            Key::Hash(id) => Some(ContractPointer::Hash(id)),
            _ => None,
        }
    }
}

pub proof fn lemma_array_view_injective<const N: usize>(a: [u8; N], b: [u8; N])
    ensures
        a@ == b@ ==> a == b,
{
    broadcast use vstd::array::axiom_array_ext_equal, vstd::array::lemma_array_index;

    if a@ == b@ {
        assert forall|i: int| 0 <= i < N implies a[i] == b[i] by {
            assert(a@[i] == b@[i]);
        }
        assert(a =~= b);
    }
}

impl PartialEq for Key {
    /// Value equality: variant, identifier and access rights all agree.
    fn eq(&self, other: &Key) -> (r: bool) {
        match (self, other) {
            (Key::Account(a), Key::Account(b)) => {
                let c = compare_bytes(a.as_slice(), b.as_slice());
                proof {
                    lemma_bytes_lt_strict(a@, b@);
                    lemma_array_view_injective(*a, *b);
                }
                matches!(c, Ordering::Equal)
            },
            (Key::Hash(a), Key::Hash(b)) => {
                let c = compare_bytes(a.as_slice(), b.as_slice());
                proof {
                    lemma_bytes_lt_strict(a@, b@);
                    lemma_array_view_injective(*a, *b);
                }
                matches!(c, Ordering::Equal)
            },
            (Key::URef(a, ra), Key::URef(b, rb)) => {
                let c = compare_bytes(a.as_slice(), b.as_slice());
                proof {
                    lemma_bytes_lt_strict(a@, b@);
                    lemma_array_view_injective(*a, *b);
                }
                matches!(c, Ordering::Equal) && *ra == *rb
            },
            _ => false,
        }
    }
}

impl vstd::std_specs::cmp::PartialEqSpecImpl for Key {
    open spec fn obeys_eq_spec() -> bool {
        true
    }

    open spec fn eq_spec(&self, other: &Key) -> bool {
        *self == *other
    }
}

impl Eq for Key {

}

impl AsRef<[u8]> for Key {
    fn as_ref(&self) -> &[u8] {
        self.id_bytes()
    }
}

} // verus!
