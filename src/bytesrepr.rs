use crate::access_rights::AccessRights;
use crate::key::Key;
use vstd::prelude::*;
use vstd::slice::slice_subrange;

verus! {

/// The one way decoding fails: the bytes are not a valid encoding (an
/// unknown tag, a length that disagrees with its field, or input that ends
/// before a field does).
#[derive(PartialEq, Eq, Structural, Clone, Copy, Debug)]
pub enum Error {
    MalformedEncoding,
}

/// Little-endian bytes of a `u32`.
pub open spec fn u32_le(n: u32) -> Seq<u8> {
    seq![(n & 0xff) as u8, ((n >> 8u32) & 0xff) as u8, ((n >> 16u32) & 0xff) as u8, ((n >> 24u32) & 0xff) as u8]
}

/// The `u32` whose little-endian bytes begin `b`.
pub open spec fn le_u32(b: Seq<u8>) -> u32
    recommends
        b.len() >= 4,
{
    (b[0] as u32) | ((b[1] as u32) << 8u32) | ((b[2] as u32) << 16u32) | ((b[3] as u32) << 24u32)
}

/// Little-endian bytes of a `u64`.
pub open spec fn u64_le(n: u64) -> Seq<u8> {
    seq![
        (n & 0xff) as u8,
        ((n >> 8u64) & 0xff) as u8,
        ((n >> 16u64) & 0xff) as u8,
        ((n >> 24u64) & 0xff) as u8,
        ((n >> 32u64) & 0xff) as u8,
        ((n >> 40u64) & 0xff) as u8,
        ((n >> 48u64) & 0xff) as u8,
        ((n >> 56u64) & 0xff) as u8,
    ]
}

/// The `u64` whose little-endian bytes begin `b`.
pub open spec fn le_u64(b: Seq<u8>) -> u64
    recommends
        b.len() >= 8,
{
    (b[0] as u64) | ((b[1] as u64) << 8u64) | ((b[2] as u64) << 16u64) | ((b[3] as u64) << 24u64)
        | ((b[4] as u64) << 32u64) | ((b[5] as u64) << 40u64) | ((b[6] as u64) << 48u64) | ((
    b[7] as u64) << 56u64)
}

pub proof fn lemma_u32_round_trip(n: u32, tail: Seq<u8>)
    ensures
        (u32_le(n) + tail).len() >= 4,
        le_u32(u32_le(n) + tail) == n,
{
    let b = u32_le(n) + tail;
    assert(b[0] == (n & 0xff) as u8 && b[1] == ((n >> 8u32) & 0xff) as u8 && b[2] == ((n >> 16u32)
        & 0xff) as u8 && b[3] == ((n >> 24u32) & 0xff) as u8);
    assert(((n & 0xff) as u8 as u32) | ((((n >> 8u32) & 0xff) as u8 as u32) << 8u32) | ((((n
        >> 16u32) & 0xff) as u8 as u32) << 16u32) | ((((n >> 24u32) & 0xff) as u8 as u32) << 24u32)
        == n) by (bit_vector);
}

pub proof fn lemma_u64_round_trip(n: u64, tail: Seq<u8>)
    ensures
        (u64_le(n) + tail).len() >= 8,
        le_u64(u64_le(n) + tail) == n,
{
    let b = u64_le(n) + tail;
    assert(b[0] == (n & 0xff) as u8 && b[1] == ((n >> 8u64) & 0xff) as u8 && b[2] == ((n >> 16u64)
        & 0xff) as u8 && b[3] == ((n >> 24u64) & 0xff) as u8 && b[4] == ((n >> 32u64) & 0xff) as u8
        && b[5] == ((n >> 40u64) & 0xff) as u8 && b[6] == ((n >> 48u64) & 0xff) as u8 && b[7] == ((n
        >> 56u64) & 0xff) as u8);
    assert(((n & 0xff) as u8 as u64) | ((((n >> 8u64) & 0xff) as u8 as u64) << 8u64) | ((((n
        >> 16u64) & 0xff) as u8 as u64) << 16u64) | ((((n >> 24u64) & 0xff) as u8 as u64) << 24u64)
        | ((((n >> 32u64) & 0xff) as u8 as u64) << 32u64) | ((((n >> 40u64) & 0xff) as u8 as u64)
        << 40u64) | ((((n >> 48u64) & 0xff) as u8 as u64) << 48u64) | ((((n >> 56u64) & 0xff) as u8
        as u64) << 56u64) == n) by (bit_vector);
}

/// Appends the little-endian bytes of `n`.
pub fn write_u32(out: &mut Vec<u8>, n: u32)
    ensures
        final(out)@ == old(out)@ + u32_le(n),
{
    out.push((n & 0xff) as u8);
    out.push(((n >> 8u32) & 0xff) as u8);
    out.push(((n >> 16u32) & 0xff) as u8);
    out.push(((n >> 24u32) & 0xff) as u8);
    assert(final(out)@ =~= old(out)@ + u32_le(n));
}

/// Appends the little-endian bytes of `n`.
pub fn write_u64(out: &mut Vec<u8>, n: u64)
    ensures
        final(out)@ == old(out)@ + u64_le(n),
{
    out.push((n & 0xff) as u8);
    out.push(((n >> 8u64) & 0xff) as u8);
    out.push(((n >> 16u64) & 0xff) as u8);
    out.push(((n >> 24u64) & 0xff) as u8);
    out.push(((n >> 32u64) & 0xff) as u8);
    out.push(((n >> 40u64) & 0xff) as u8);
    out.push(((n >> 48u64) & 0xff) as u8);
    out.push(((n >> 56u64) & 0xff) as u8);
    assert(final(out)@ =~= old(out)@ + u64_le(n));
}

/// Appends every byte of `b`.
pub fn write_slice(out: &mut Vec<u8>, b: &[u8])
    ensures
        final(out)@ == old(out)@ + b@,
{
    let mut i: usize = 0;
    while i < b.len()
        invariant
            i <= b@.len(),
            out@ == old(out)@ + b@.subrange(0, i as int),
        decreases b.len() - i,
    {
        out.push(b[i]);
        assert(b@.subrange(0, i + 1) =~= b@.subrange(0, i as int).push(b@[i as int]));
        i = i + 1;
    }
    assert(b@.subrange(0, b@.len() as int) =~= b@);
}

/// Reads a little-endian `u32` from the first four bytes.
pub fn read_u32(b: &[u8]) -> (r: u32)
    requires
        b@.len() >= 4,
    ensures
        r == le_u32(b@),
{
    (b[0] as u32) | ((b[1] as u32) << 8u32) | ((b[2] as u32) << 16u32) | ((b[3] as u32) << 24u32)
}

/// Reads a little-endian `u64` from the first eight bytes.
pub fn read_u64(b: &[u8]) -> (r: u64)
    requires
        b@.len() >= 8,
    ensures
        r == le_u64(b@),
{
    (b[0] as u64) | ((b[1] as u64) << 8u64) | ((b[2] as u64) << 16u64) | ((b[3] as u64) << 24u64)
        | ((b[4] as u64) << 32u64) | ((b[5] as u64) << 40u64) | ((b[6] as u64) << 48u64) | ((
    b[7] as u64) << 56u64)
}

/// Splits off what follows the first `n` bytes.
pub fn skip(b: &[u8], n: usize) -> (r: &[u8])
    requires
        n <= b@.len(),
    ensures
        r@ == b@.skip(n as int),
{
    let r = slice_subrange(b, n, b.len());
    assert(r@ =~= b@.skip(n as int));
    r
}

/// Reads the first `N` bytes into an array.
pub fn read_array<const N: usize>(b: &[u8]) -> (r: [u8; N])
    requires
        b@.len() >= N,
    ensures
        r@ == b@.take(N as int),
{
    let mut a = [0u8; N];
    let mut i: usize = 0;
    while i < N
        invariant
            i <= N,
            b@.len() >= N,
            a@.len() == N,
            forall|j: int| 0 <= j < i ==> a@[j] == b@[j],
        decreases N - i,
    {
        a[i] = b[i];
        i = i + 1;
    }
    assert(a@ =~= b@.take(N as int));
    a
}

/// The array of 20 bytes whose contents are `s`.
pub open spec fn array20(s: Seq<u8>) -> [u8; 20] {
    choose|a: [u8; 20]| a@ == s
}

/// The array of 32 bytes whose contents are `s`.
pub open spec fn array32(s: Seq<u8>) -> [u8; 32] {
    choose|a: [u8; 32]| a@ == s
}

pub proof fn lemma_array20(a: [u8; 20])
    ensures
        array20(a@) == a,
{
    let c = array20(a@);
    assert(c@ == a@);
    crate::key::lemma_array_view_injective(c, a);
}

pub proof fn lemma_array32(a: [u8; 32])
    ensures
        array32(a@) == a,
{
    let c = array32(a@);
    assert(c@ == a@);
    crate::key::lemma_array_view_injective(c, a);
}

/// The byte that encodes access rights: 1 to 7 in the order of declaration.
pub open spec fn rights_byte(r: AccessRights) -> u8 {
    match r {
        AccessRights::Eqv => 1,
        AccessRights::Read => 2,
        AccessRights::Write => 3,
        AccessRights::Add => 4,
        AccessRights::ReadAdd => 5,
        AccessRights::ReadWrite => 6,
        AccessRights::AddWrite => 7,
    }
}

/// Decoding of access rights: the value and what follows its byte.
pub open spec fn parse_rights(b: Seq<u8>) -> Option<(AccessRights, Seq<u8>)> {
    if b.len() == 0 {
        None
    } else {
        let rest = b.skip(1);
        if b[0] == 1 {
            Some((AccessRights::Eqv, rest))
        } else if b[0] == 2 {
            Some((AccessRights::Read, rest))
        } else if b[0] == 3 {
            Some((AccessRights::Write, rest))
        } else if b[0] == 4 {
            Some((AccessRights::Add, rest))
        } else if b[0] == 5 {
            Some((AccessRights::ReadAdd, rest))
        } else if b[0] == 6 {
            Some((AccessRights::ReadWrite, rest))
        } else if b[0] == 7 {
            Some((AccessRights::AddWrite, rest))
        } else {
            None
        }
    }
}

pub const ACCOUNT_ID: u8 = 0;

pub const HASH_ID: u8 = 1;

pub const UREF_ID: u8 = 2;

/// Encoding of a key: its tag, then its fields.
pub open spec fn key_bytes(k: Key) -> Seq<u8> {
    match k {
        Key::Account(id) => seq![ACCOUNT_ID] + u32_le(20) + id@,
        Key::Hash(id) => seq![HASH_ID] + id@,
        Key::URef(id, rights) => seq![UREF_ID] + id@ + seq![rights_byte(rights)],
    }
}

/// Decoding of a key: the value and what follows its encoding.
pub open spec fn parse_key(b: Seq<u8>) -> Option<(Key, Seq<u8>)> {
    if b.len() == 0 {
        None
    } else if b[0] == ACCOUNT_ID {
        if b.len() >= 5 && le_u32(b.skip(1)) == 20 && b.len() >= 25 {
            Some((Key::Account(array20(b.subrange(5, 25))), b.skip(25)))
        } else {
            None
        }
    } else if b[0] == HASH_ID {
        if b.len() >= 33 {
            Some((Key::Hash(array32(b.subrange(1, 33))), b.skip(33)))
        } else {
            None
        }
    } else if b[0] == UREF_ID {
        if b.len() >= 33 {
            match parse_rights(b.skip(33)) {
                Some((rights, rest)) => Some((Key::URef(array32(b.subrange(1, 33)), rights), rest)),
                None => None,
            }
        } else {
            None
        }
    } else {
        None
    }
}

/// Decoding then encoding access rights gives them back, whatever follows.
pub proof fn lemma_rights_round_trip(r: AccessRights, tail: Seq<u8>)
    ensures
        parse_rights(seq![rights_byte(r)] + tail) == Some((r, tail)),
{
    let b = seq![rights_byte(r)] + tail;
    assert(b.skip(1) =~= tail);
}

/// Decoding the encoding of a key gives the key back, whatever follows.
pub proof fn lemma_key_round_trip(k: Key, tail: Seq<u8>)
    ensures
        parse_key(key_bytes(k) + tail) == Some((k, tail)),
{
    let b = key_bytes(k) + tail;
    match k {
        Key::Account(id) => {
            lemma_u32_round_trip(20, id@ + tail);
            assert(b.skip(1) =~= u32_le(20) + (id@ + tail));
            assert(b.subrange(5, 25) =~= id@);
            assert(b.skip(25) =~= tail);
            lemma_array20(id);
        },
        Key::Hash(id) => {
            assert(b.subrange(1, 33) =~= id@);
            assert(b.skip(33) =~= tail);
            lemma_array32(id);
        },
        Key::URef(id, rights) => {
            assert(b.subrange(1, 33) =~= id@);
            assert(b.skip(33) =~= seq![rights_byte(rights)] + tail);
            lemma_rights_round_trip(rights, tail);
            lemma_array32(id);
        },
    }
}

impl AccessRights {
    /// The one-byte encoding of these rights.
    pub fn to_bytes(&self) -> (r: Vec<u8>)
        ensures
            r@ == seq![rights_byte(*self)],
    {
        let b: u8 = match self {
            AccessRights::Eqv => 1,
            AccessRights::Read => 2,
            AccessRights::Write => 3,
            AccessRights::Add => 4,
            AccessRights::ReadAdd => 5,
            AccessRights::ReadWrite => 6,
            AccessRights::AddWrite => 7,
        };
        let mut r: Vec<u8> = Vec::new();
        r.push(b);
        assert(r@ =~= seq![rights_byte(*self)]);
        r
    }

    /// Decodes access rights from the front of `bytes`, returning them and
    /// the bytes that follow.
    pub fn from_bytes(bytes: &[u8]) -> (r: Result<(AccessRights, &[u8]), Error>)
        ensures
            r is Err <==> parse_rights(bytes@) is None,
            r matches Ok((v, rest)) ==> parse_rights(bytes@) == Some((v, rest@)),
    {
        if bytes.len() == 0 {
            return Err(Error::MalformedEncoding);
        }
        let rights = match bytes[0] {
            1 => AccessRights::Eqv,
            2 => AccessRights::Read,
            3 => AccessRights::Write,
            4 => AccessRights::Add,
            5 => AccessRights::ReadAdd,
            6 => AccessRights::ReadWrite,
            7 => AccessRights::AddWrite,
            _ => {
                return Err(Error::MalformedEncoding);
            },
        };
        Ok((rights, skip(bytes, 1)))
    }
}

impl Key {
    /// Appends the encoding of this key.
    pub fn write_bytes(&self, out: &mut Vec<u8>)
        ensures
            final(out)@ == old(out)@ + key_bytes(*self),
    {
        match self {
            Key::Account(addr) => {
                out.push(ACCOUNT_ID);
                write_u32(out, 20);
                write_slice(out, addr.as_slice());
            },
            Key::Hash(hash) => {
                out.push(HASH_ID);
                write_slice(out, hash.as_slice());
            },
            Key::URef(rf, access_rights) => {
                out.push(UREF_ID);
                write_slice(out, rf.as_slice());
                let rb = access_rights.to_bytes();
                write_slice(out, rb.as_slice());
            },
        }
        assert(final(out)@ =~= old(out)@ + key_bytes(*self));
    }

    /// The encoding of this key.
    pub fn to_bytes(&self) -> (r: Vec<u8>)
        ensures
            r@ == key_bytes(*self),
    {
        let mut r: Vec<u8> = Vec::new();
        self.write_bytes(&mut r);
        assert(r@ =~= key_bytes(*self));
        r
    }

    /// Decodes a key from the front of `bytes`, returning it and the bytes
    /// that follow.
    pub fn from_bytes(bytes: &[u8]) -> (r: Result<(Key, &[u8]), Error>)
        ensures
            r is Err <==> parse_key(bytes@) is None,
            r matches Ok((k, rest)) ==> parse_key(bytes@) == Some((k, rest@)),
    {
        if bytes.len() == 0 {
            return Err(Error::MalformedEncoding);
        }
        let id = bytes[0];
        let rest = skip(bytes, 1);
        if id == ACCOUNT_ID {
            if rest.len() < 4 {
                return Err(Error::MalformedEncoding);
            }
            let len = read_u32(rest);
            if len != 20 || rest.len() < 24 {
                return Err(Error::MalformedEncoding);
            }
            let addr: [u8; 20] = read_array(skip(rest, 4));
            proof {
                assert(addr@ =~= bytes@.subrange(5, 25));
                lemma_array20(addr);
                assert(bytes@.skip(25) =~= rest@.skip(24));
            }
            Ok((Key::Account(addr), skip(rest, 24)))
        } else if id == HASH_ID {
            if rest.len() < 32 {
                return Err(Error::MalformedEncoding);
            }
            let hash: [u8; 32] = read_array(rest);
            proof {
                assert(hash@ =~= bytes@.subrange(1, 33));
                lemma_array32(hash);
                assert(bytes@.skip(33) =~= rest@.skip(32));
            }
            Ok((Key::Hash(hash), skip(rest, 32)))
        } else if id == UREF_ID {
            if rest.len() < 32 {
                return Err(Error::MalformedEncoding);
            }
            let rf: [u8; 32] = read_array(rest);
            proof {
                assert(rf@ =~= bytes@.subrange(1, 33));
                lemma_array32(rf);
                assert(bytes@.skip(33) =~= rest@.skip(32));
            }
            match AccessRights::from_bytes(skip(rest, 32)) {
                Ok((access_right, rem)) => Ok((Key::URef(rf, access_right), rem)),
                Err(e) => Err(e),
            }
        } else {
            Err(Error::MalformedEncoding)
        }
    }
}

/// The keys' encodings, one after another.
pub open spec fn keys_concat(s: Seq<Key>) -> Seq<u8>
    decreases s.len(),
{
    if s.len() == 0 {
        Seq::empty()
    } else {
        keys_concat(s.drop_last()) + key_bytes(s.last())
    }
}

/// Encoding of a sequence of keys: its length, then each key in order.
pub open spec fn keys_bytes(s: Seq<Key>) -> Seq<u8> {
    u32_le(s.len() as u32) + keys_concat(s)
}

/// Decoding of `n` keys in a row.
pub open spec fn parse_keys_n(b: Seq<u8>, n: nat) -> Option<(Seq<Key>, Seq<u8>)>
    decreases n,
{
    if n == 0 {
        Some((Seq::empty(), b))
    } else {
        match parse_keys_n(b, (n - 1) as nat) {
            Some((ks, r)) => match parse_key(r) {
                Some((k, r2)) => Some((ks.push(k), r2)),
                None => None,
            },
            None => None,
        }
    }
}

/// Decoding of a sequence of keys: the keys and what follows them.
pub open spec fn parse_keys(b: Seq<u8>) -> Option<(Seq<Key>, Seq<u8>)> {
    if b.len() < 4 {
        None
    } else {
        parse_keys_n(b.skip(4), le_u32(b) as nat)
    }
}

proof fn lemma_parse_keys_n_fails_on(b: Seq<u8>, i: nat, n: nat)
    requires
        i <= n,
        parse_keys_n(b, i) is None,
    ensures
        parse_keys_n(b, n) is None,
    decreases n,
{
    if i < n {
        lemma_parse_keys_n_fails_on(b, i, (n - 1) as nat);
    }
}

proof fn lemma_keys_concat_round_trip(s: Seq<Key>, tail: Seq<u8>)
    ensures
        parse_keys_n(keys_concat(s) + tail, s.len()) == Some((s, tail)),
    decreases s.len(),
{
    if s.len() > 0 {
        let p = s.drop_last();
        let t2 = key_bytes(s.last()) + tail;
        lemma_keys_concat_round_trip(p, t2);
        assert(keys_concat(s) + tail =~= keys_concat(p) + t2);
        lemma_key_round_trip(s.last(), tail);
        assert(p.push(s.last()) =~= s);
    }
}

/// Decoding the encoding of a sequence of keys gives it back, whatever
/// follows.
pub proof fn lemma_keys_round_trip(s: Seq<Key>, tail: Seq<u8>)
    requires
        s.len() <= u32::MAX,
    ensures
        parse_keys(keys_bytes(s) + tail) == Some((s, tail)),
{
    let b = keys_bytes(s) + tail;
    lemma_u32_round_trip(s.len() as u32, keys_concat(s) + tail);
    assert(b =~= u32_le(s.len() as u32) + (keys_concat(s) + tail));
    assert(b.skip(4) =~= keys_concat(s) + tail);
    lemma_keys_concat_round_trip(s, tail);
}

/// The encoding of a sequence of keys.
pub fn keys_to_bytes(keys: &Vec<Key>) -> (r: Vec<u8>)
    requires
        keys@.len() <= u32::MAX,
    ensures
        r@ == keys_bytes(keys@),
{
    let mut r: Vec<u8> = Vec::new();
    write_u32(&mut r, keys.len() as u32);
    let mut i: usize = 0;
    while i < keys.len()
        invariant
            i <= keys@.len(),
            keys@.len() <= u32::MAX,
            r@ == u32_le(keys@.len() as u32) + keys_concat(keys@.take(i as int)),
        decreases keys.len() - i,
    {
        keys[i].write_bytes(&mut r);
        assert(keys@.take(i + 1).drop_last() =~= keys@.take(i as int));
        assert(r@ =~= u32_le(keys@.len() as u32) + keys_concat(keys@.take(i + 1)));
        i = i + 1;
    }
    assert(keys@.take(keys@.len() as int) =~= keys@);
    r
}

/// Decodes a sequence of keys from the front of `bytes`, returning it and
/// the bytes that follow.
pub fn keys_from_bytes(bytes: &[u8]) -> (r: Result<(Vec<Key>, &[u8]), Error>)
    ensures
        r is Err <==> parse_keys(bytes@) is None,
        r matches Ok((ks, rest)) ==> parse_keys(bytes@) == Some((ks@, rest@)),
{
    if bytes.len() < 4 {
        return Err(Error::MalformedEncoding);
    }
    let size = read_u32(bytes);
    let body = skip(bytes, 4);
    let mut result: Vec<Key> = Vec::new();
    let mut stream = body;
    let mut i: u32 = 0;
    assert(result@ =~= Seq::<Key>::empty());
    while i < size
        invariant
            i <= size,
            bytes@.len() >= 4,
            size == le_u32(bytes@),
            body@ == bytes@.skip(4),
            parse_keys_n(body@, i as nat) == Some((result@, stream@)),
        decreases size - i,
    {
        match Key::from_bytes(stream) {
            Ok((t, rem)) => {
                result.push(t);
                stream = rem;
            },
            Err(e) => {
                proof {
                    assert(parse_keys_n(body@, (i + 1) as nat) is None);
                    lemma_parse_keys_n_fails_on(body@, (i + 1) as nat, size as nat);
                }
                return Err(e);
            },
        }
        i = i + 1;
    }
    Ok((result, stream))
}

} // verus!
