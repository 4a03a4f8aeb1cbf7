use crate::bytesrepr::{
    key_bytes, le_u32, le_u64, lemma_key_round_trip, lemma_u32_round_trip, lemma_u64_round_trip,
    parse_key, read_array, read_u32, read_u64, skip, u32_le, u64_le, write_slice, write_u32,
    write_u64, Error,
};
use crate::key::Key;
use crate::named_keys::{entries_map, NamedKeys};
use vstd::prelude::*;
use vstd::utf8::{decode_utf8, encode_utf8, encode_utf8_decode_utf8, encode_utf8_valid_utf8, valid_utf8};

verus! {

/// Encoding of a name: the length of its UTF-8 bytes, then those bytes.
pub open spec fn name_bytes(n: Seq<char>) -> Seq<u8> {
    u32_le(encode_utf8(n).len() as u32) + encode_utf8(n)
}

/// Decoding of a name: it and what follows it. The bytes must be UTF-8.
pub open spec fn parse_name(b: Seq<u8>) -> Option<(Seq<char>, Seq<u8>)> {
    if b.len() < 4 {
        None
    } else {
        let l = le_u32(b) as int;
        if b.len() < 4 + l || !valid_utf8(b.subrange(4, 4 + l)) {
            None
        } else {
            Some((decode_utf8(b.subrange(4, 4 + l)), b.skip(4 + l)))
        }
    }
}

/// Encoding of one entry of a capability table: its name, then its key.
pub open spec fn entry_bytes(e: (Seq<char>, Key)) -> Seq<u8> {
    name_bytes(e.0) + key_bytes(e.1)
}

/// Decoding of one entry of a capability table.
pub open spec fn parse_entry(b: Seq<u8>) -> Option<((Seq<char>, Key), Seq<u8>)> {
    match parse_name(b) {
        Some((n, r)) => match parse_key(r) {
            Some((k, r2)) => Some(((n, k), r2)),
            None => None,
        },
        None => None,
    }
}

/// The entries' encodings, one after another.
pub open spec fn entries_concat(s: Seq<(Seq<char>, Key)>) -> Seq<u8>
    decreases s.len(),
{
    if s.len() == 0 {
        Seq::empty()
    } else {
        entries_concat(s.drop_last()) + entry_bytes(s.last())
    }
}

/// Decoding of `n` entries in a row.
pub open spec fn parse_entries_n(b: Seq<u8>, n: nat) -> Option<(Seq<(Seq<char>, Key)>, Seq<u8>)>
    decreases n,
{
    if n == 0 {
        Some((Seq::empty(), b))
    } else {
        match parse_entries_n(b, (n - 1) as nat) {
            Some((es, r)) => match parse_entry(r) {
                Some((e, r2)) => Some((es.push(e), r2)),
                None => None,
            },
            None => None,
        }
    }
}

/// An account record: 32 bytes of public key, the nonce, then the number of
/// entries of the capability table and each entry in order of name.
pub open spec fn account_bytes(public_key: Seq<u8>, nonce: u64, entries: Seq<(Seq<char>, Key)>) -> Seq<u8> {
    public_key + u64_le(nonce) + u32_le(entries.len() as u32) + entries_concat(entries)
}

/// Decoding of an account record: (public key, nonce, capability table) and
/// what follows it. Entries are taken in the order they come; a later one
/// replaces an earlier one of the same name.
pub open spec fn parse_account(b: Seq<u8>) -> Option<((Seq<u8>, u64, Map<Seq<char>, Key>), Seq<u8>)> {
    if b.len() < 44 {
        None
    } else {
        match parse_entries_n(b.skip(44), le_u32(b.skip(40)) as nat) {
            Some((es, rest)) => Some(((b.take(32), le_u64(b.skip(32)), entries_map(es)), rest)),
            None => None,
        }
    }
}

/// Entries that the record format can hold: their number and each name's
/// UTF-8 length fit in 32 bits.
pub open spec fn encodable_entries(s: Seq<(Seq<char>, Key)>) -> bool {
    &&& s.len() <= u32::MAX
    &&& forall|i: int| 0 <= i < s.len() ==> encode_utf8(#[trigger] s[i].0).len() <= u32::MAX
}

/// Relies on `String::from_utf8`: it succeeds exactly on valid UTF-8, and the
/// string it returns has those bytes as its UTF-8 encoding.
#[verifier::external_body]
fn string_from_utf8(v: Vec<u8>) -> (r: Option<String>)
    ensures
        r is Some <==> valid_utf8(v@),
        r matches Some(s) ==> encode_utf8(s@) == v@,
{
    String::from_utf8(v).ok()
}

proof fn lemma_name_round_trip(n: Seq<char>, tail: Seq<u8>)
    requires
        encode_utf8(n).len() <= u32::MAX,
    ensures
        parse_name(name_bytes(n) + tail) == Some((n, tail)),
{
    let e = encode_utf8(n);
    let b = name_bytes(n) + tail;
    lemma_u32_round_trip(e.len() as u32, e + tail);
    assert(b =~= u32_le(e.len() as u32) + (e + tail));
    assert(b.subrange(4, 4 + e.len() as int) =~= e);
    assert(b.skip(4 + e.len() as int) =~= tail);
    encode_utf8_valid_utf8(n);
    encode_utf8_decode_utf8(n);
}

proof fn lemma_entries_concat_round_trip(s: Seq<(Seq<char>, Key)>, tail: Seq<u8>)
    requires
        encodable_entries(s),
    ensures
        parse_entries_n(entries_concat(s) + tail, s.len()) == Some((s, tail)),
    decreases s.len(),
{
    if s.len() > 0 {
        let p = s.drop_last();
        let e = s.last();
        let t2 = entry_bytes(e) + tail;
        assert(encodable_entries(p)) by {
            assert forall|i: int| 0 <= i < p.len() implies encode_utf8(#[trigger] p[i].0).len()
                <= u32::MAX by {
                assert(p[i] == s[i]);
            }
        }
        lemma_entries_concat_round_trip(p, t2);
        assert(entries_concat(s) + tail =~= entries_concat(p) + t2);
        assert(encode_utf8(s[s.len() - 1].0).len() <= u32::MAX);
        lemma_name_round_trip(e.0, key_bytes(e.1) + tail);
        assert(t2 =~= name_bytes(e.0) + (key_bytes(e.1) + tail));
        lemma_key_round_trip(e.1, tail);
        assert(p.push(e) =~= s);
    }
}

proof fn lemma_parse_entries_n_fails_on(b: Seq<u8>, i: nat, n: nat)
    requires
        i <= n,
        parse_entries_n(b, i) is None,
    ensures
        parse_entries_n(b, n) is None,
    decreases n,
{
    if i < n {
        lemma_parse_entries_n_fails_on(b, i, (n - 1) as nat);
    }
}

/// An on-chain account: its public key, its nonce, and the table of
/// capabilities it has been granted, by name.
#[derive(Clone, Debug, PartialEq, Eq)]
pub struct Account {
    public_key: [u8; 32],
    nonce: u64,
    known_urefs: NamedKeys,
}

impl View for Account {
    type V = (Seq<u8>, u64, Map<Seq<char>, Key>);

    /// Public key, nonce, and capability table.
    closed spec fn view(&self) -> (Seq<u8>, u64, Map<Seq<char>, Key>) {
        (self.public_key@, self.nonce, self.known_urefs@)
    }
}

impl Account {
    pub closed spec fn wf(&self) -> bool {
        self.known_urefs.wf()
    }

    /// The capability table's entries in stored order, that is by name.
    pub closed spec fn entry_seq(&self) -> Seq<(Seq<char>, Key)> {
        self.known_urefs.entry_seq()
    }

    /// The record bytes of this account.
    pub open spec fn spec_bytes(&self) -> Seq<u8> {
        account_bytes(self@.0, self@.1, self.entry_seq())
    }

    pub fn new(public_key: [u8; 32], nonce: u64, known_urefs: NamedKeys) -> (r: Account)
        requires
            known_urefs.wf(),
        ensures
            r.wf(),
            r@ == (public_key@, nonce, known_urefs@),
            r.entry_seq() == known_urefs.entry_seq(),
    {
        Account { public_key, nonce, known_urefs }
    }

    /// Grants the capabilities in `keys`, emptying it; where a name is
    /// already in the table, the new key replaces the old one. The public key
    /// and nonce are left alone.
    pub fn insert_urefs(&mut self, keys: &mut NamedKeys)
        requires
            old(self).wf(),
            old(keys).wf(),
        ensures
            final(self).wf(),
            final(self)@ == (old(self)@.0, old(self)@.1, old(self)@.2.union_prefer_right(old(keys)@)),
            final(keys).wf(),
            final(keys)@ == Map::<Seq<char>, Key>::empty(),
    {
        self.known_urefs.append(keys);
    }

    pub fn urefs_lookup(&self) -> (r: &NamedKeys)
        requires
            self.wf(),
        ensures
            r.wf(),
            r@ == self@.2,
    {
        &self.known_urefs
    }

    pub fn get_urefs_lookup(self) -> (r: NamedKeys)
        requires
            self.wf(),
        ensures
            r.wf(),
            r@ == self@.2,
    {
        self.known_urefs
    }

    pub fn pub_key(&self) -> (r: &[u8])
        ensures
            r@ == self@.0,
    {
        self.public_key.as_slice()
    }

    pub fn nonce(&self) -> (r: u64)
        ensures
            r == self@.1,
    {
        self.nonce
    }

    /// Whether the record format can hold this account's table.
    pub open spec fn encodable(&self) -> bool {
        encodable_entries(self.entry_seq())
    }

    /// The record bytes of this account.
    pub fn to_bytes(&self) -> (r: Vec<u8>)
        requires
            self.wf(),
            self.encodable(),
        ensures
            r@ == self.spec_bytes(),
    {
        let entries = self.known_urefs.entries();
        let ghost s = self.entry_seq();
        let mut result: Vec<u8> = Vec::new();
        write_slice(&mut result, self.public_key.as_slice());
        write_u64(&mut result, self.nonce);
        write_u32(&mut result, entries.len() as u32);
        let ghost head = result@;
        let mut i: usize = 0;
        while i < entries.len()
            invariant
                i <= entries@.len(),
                entries@.len() == s.len(),
                forall|j: int| 0 <= j < s.len() ==> (#[trigger] entries@[j].0@, entries@[j].1) == s[j],
                encodable_entries(s),
                result@ == head + entries_concat(s.take(i as int)),
            decreases entries.len() - i,
        {
            let name_utf8 = entries[i].0.as_str().as_bytes();
            assert(s[i as int].0 == entries@[i as int].0@);
            assert(encode_utf8(s[i as int].0).len() <= u32::MAX);
            write_u32(&mut result, name_utf8.len() as u32);
            write_slice(&mut result, name_utf8);
            entries[i].1.write_bytes(&mut result);
            assert(s.take(i + 1).drop_last() =~= s.take(i as int));
            assert(result@ =~= head + entries_concat(s.take(i + 1)));
            i = i + 1;
        }
        assert(s.take(s.len() as int) =~= s);
        assert(result@ =~= self.spec_bytes());
        result
    }

    /// Decodes an account record from the front of `bytes`, returning it and
    /// the bytes that follow.
    pub fn from_bytes(bytes: &[u8]) -> (r: Result<(Account, &[u8]), Error>)
        ensures
            r is Err <==> parse_account(bytes@) is None,
            r matches Ok((a, rest)) ==> a.wf() && parse_account(bytes@) == Some((a@, rest@)),
    {
        if bytes.len() < 44 {
            return Err(Error::MalformedEncoding);
        }
        let public_key: [u8; 32] = read_array(bytes);
        let nonce = read_u64(skip(bytes, 32));
        let size = read_u32(skip(bytes, 40));
        let body = skip(bytes, 44);
        let mut known_urefs = NamedKeys::new();
        let ghost mut es: Seq<(Seq<char>, Key)> = Seq::empty();
        let mut stream = body;
        let mut i: u32 = 0;
        while i < size
            invariant
                i <= size,
                bytes@.len() >= 44,
                size == le_u32(bytes@.skip(40)),
                body@ == bytes@.skip(44),
                known_urefs.wf(),
                known_urefs@ == entries_map(es),
                parse_entries_n(body@, i as nat) == Some((es, stream@)),
            decreases size - i,
        {
            let parsed = Self::entry_from_bytes(stream);
            match parsed {
                Ok((name, key, rem)) => {
                    proof {
                        assert(es.push((name@, key)).drop_last() =~= es);
                        es = es.push((name@, key));
                    }
                    known_urefs.insert(name, key);
                    stream = rem;
                },
                Err(e) => {
                    proof {
                        assert(parse_entries_n(body@, (i + 1) as nat) is None);
                        lemma_parse_entries_n_fails_on(body@, (i + 1) as nat, size as nat);
                    }
                    return Err(e);
                },
            }
            i = i + 1;
        }
        assert(public_key@ =~= bytes@.take(32));
        Ok((Account { public_key, nonce, known_urefs }, stream))
    }

    fn entry_from_bytes(bytes: &[u8]) -> (r: Result<(String, Key, &[u8]), Error>)
        ensures
            r is Err <==> parse_entry(bytes@) is None,
            r matches Ok((n, k, rest)) ==> parse_entry(bytes@) == Some(((n@, k), rest@)),
    {
        if bytes.len() < 4 {
            return Err(Error::MalformedEncoding);
        }
        let len = read_u32(bytes) as usize;
        let body = skip(bytes, 4);
        if body.len() < len {
            return Err(Error::MalformedEncoding);
        }
        let mut utf8: Vec<u8> = Vec::new();
        write_slice(&mut utf8, vstd::slice::slice_subrange(body, 0, len));
        assert(utf8@ =~= bytes@.subrange(4, 4 + len));
        let name = match string_from_utf8(utf8) {
            Some(s) => s,
            None => {
                return Err(Error::MalformedEncoding);
            },
        };
        proof {
            encode_utf8_decode_utf8(name@);
        }
        let rem = skip(body, len);
        assert(rem@ =~= bytes@.skip(4 + len));
        match Key::from_bytes(rem) {
            Ok((key, rest)) => Ok((name, key, rest)),
            Err(e) => Err(e),
        }
    }
}

/// Decoding the record bytes of an account gives back its public key, nonce
/// and capability table, whatever follows them.
pub proof fn lemma_account_round_trip(a: Account, tail: Seq<u8>)
    requires
        a.wf(),
        a.encodable(),
    ensures
        parse_account(a.spec_bytes() + tail) == Some((a@, tail)),
{
    let s = a.entry_seq();
    let b = a.spec_bytes() + tail;
    let pk = a@.0;
    assert(pk.len() == 32);
    lemma_u64_round_trip(a@.1, u32_le(s.len() as u32) + entries_concat(s) + tail);
    lemma_u32_round_trip(s.len() as u32, entries_concat(s) + tail);
    assert(b.skip(32) =~= u64_le(a@.1) + (u32_le(s.len() as u32) + entries_concat(s) + tail));
    assert(b.skip(40) =~= u32_le(s.len() as u32) + (entries_concat(s) + tail));
    assert(b.skip(44) =~= entries_concat(s) + tail);
    assert(b.take(32) =~= pk);
    lemma_entries_concat_round_trip(s, tail);
    a.known_urefs.lemma_view();
}

} // verus!
