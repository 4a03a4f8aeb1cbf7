use crate::key::{bytes_lt, compare_bytes, lemma_bytes_lt_strict, lemma_bytes_lt_transitive, Key};
use core::cmp::Ordering;
use vstd::prelude::*;
use vstd::utf8::{encode_utf8, encode_utf8_decode_utf8};

verus! {

/// Names order by their UTF-8 bytes, as `str` does.
pub open spec fn name_lt(a: Seq<char>, b: Seq<char>) -> bool {
    bytes_lt(encode_utf8(a), encode_utf8(b))
}

/// Names strictly ascending, hence also unique.
pub open spec fn sorted_entries(s: Seq<(Seq<char>, Key)>) -> bool {
    forall|i: int, j: int| 0 <= i < j < s.len() ==> name_lt(#[trigger] s[i].0, #[trigger] s[j].0)
}

/// The mapping that inserting the entries one by one, in order, into an
/// empty map produces: a later entry overwrites an earlier one of the same
/// name.
pub open spec fn entries_map(s: Seq<(Seq<char>, Key)>) -> Map<Seq<char>, Key>
    decreases s.len(),
{
    if s.len() == 0 {
        Map::empty()
    } else {
        entries_map(s.drop_last()).insert(s.last().0, s.last().1)
    }
}

pub proof fn lemma_name_lt_strict(a: Seq<char>, b: Seq<char>)
    ensures
        name_lt(a, b) ==> !name_lt(b, a),
        !name_lt(a, b) && !name_lt(b, a) ==> a == b,
        !name_lt(a, a),
{
    lemma_bytes_lt_strict(encode_utf8(a), encode_utf8(b));
    lemma_bytes_lt_strict(encode_utf8(a), encode_utf8(a));
    if encode_utf8(a) == encode_utf8(b) {
        encode_utf8_decode_utf8(a);
        encode_utf8_decode_utf8(b);
    }
}

pub proof fn lemma_name_lt_transitive(a: Seq<char>, b: Seq<char>, c: Seq<char>)
    requires
        name_lt(a, b),
        name_lt(b, c),
    ensures
        name_lt(a, c),
{
    lemma_bytes_lt_transitive(encode_utf8(a), encode_utf8(b), encode_utf8(c));
}

/// A name is mapped exactly when some entry carries it.
pub proof fn lemma_entries_map_contains(s: Seq<(Seq<char>, Key)>, k: Seq<char>)
    ensures
        entries_map(s).contains_key(k) <==> exists|i: int| 0 <= i < s.len() && s[i].0 == k,
    decreases s.len(),
{
    if s.len() > 0 {
        lemma_entries_map_contains(s.drop_last(), k);
        if entries_map(s).contains_key(k) && k != s.last().0 {
            let i = choose|i: int| 0 <= i < s.len() - 1 && s.drop_last()[i].0 == k;
            assert(s[i].0 == k);
        }
        if exists|i: int| 0 <= i < s.len() && s[i].0 == k {
            let i = choose|i: int| 0 <= i < s.len() && s[i].0 == k;
            if i < s.len() - 1 {
                assert(s.drop_last()[i].0 == k);
            }
        }
    }
}

/// Where names are unique, each entry's name maps to its key.
pub proof fn lemma_entries_map_index(s: Seq<(Seq<char>, Key)>, i: int)
    requires
        sorted_entries(s),
        0 <= i < s.len(),
    ensures
        entries_map(s).contains_key(s[i].0),
        entries_map(s)[s[i].0] == s[i].1,
    decreases s.len(),
{
    if i < s.len() - 1 {
        assert(name_lt(s[i].0, s[s.len() - 1].0));
        lemma_name_lt_strict(s[i].0, s.last().0);
        assert(s.drop_last()[i] == s[i]);
        lemma_entries_map_index(s.drop_last(), i);
    }
}

/// A table from names to keys, kept sorted by name with each name once.
#[derive(Clone, Debug, PartialEq, Eq)]
pub struct NamedKeys {
    entries: Vec<(String, Key)>,
}

impl NamedKeys {
    /// The entries in stored order, each name by its characters.
    pub closed spec fn entry_seq(&self) -> Seq<(Seq<char>, Key)> {
        self.entries@.map_values(|e: (String, Key)| (e.0@, e.1))
    }

    pub closed spec fn wf(&self) -> bool {
        sorted_entries(self.entry_seq())
    }

    /// The stored entries describe the table.
    pub proof fn lemma_view(&self)
        ensures
            self@ == entries_map(self.entry_seq()),
    {
    }

    pub fn new() -> (r: NamedKeys)
        ensures
            r.wf(),
            r@ == Map::<Seq<char>, Key>::empty(),
            r.entry_seq() == Seq::<(Seq<char>, Key)>::empty(),
    {
        let r = NamedKeys { entries: Vec::new() };
        assert(r.entry_seq() =~= Seq::<(Seq<char>, Key)>::empty());
        r
    }

    /// The entries, sorted by name.
    pub fn entries(&self) -> (r: &Vec<(String, Key)>)
        ensures
            r@.len() == self.entry_seq().len(),
            forall|i: int| 0 <= i < r@.len() ==> (#[trigger] r@[i].0@, r@[i].1) == self.entry_seq()[i],
    {
        &self.entries
    }

    /// Maps `name` to `key`, replacing what `name` mapped to before.
    pub fn insert(&mut self, name: String, key: Key)
        requires
            old(self).wf(),
        ensures
            final(self).wf(),
            final(self)@ == old(self)@.insert(name@, key),
    {
        let ghost s = self.entry_seq();
        let n = self.entries.len();
        let mut i: usize = 0;
        let mut found = false;
        while i < n
            invariant_except_break
                !found,
            invariant
                n == self.entries.len(),
                i <= n,
                *self == *old(self),
                s == self.entry_seq(),
                sorted_entries(s),
                forall|j: int| 0 <= j < i ==> name_lt(#[trigger] s[j].0, name@),
            ensures
                i <= n,
                forall|j: int| 0 <= j < i ==> name_lt(#[trigger] s[j].0, name@),
                found ==> i < n && s[i as int].0 == name@,
                !found && i < n ==> name_lt(name@, s[i as int].0),
            decreases n - i,
        {
            assert(s[i as int].0 == self.entries@[i as int].0@);
            match compare_bytes(self.entries[i].0.as_str().as_bytes(), name.as_str().as_bytes()) {
                Ordering::Less => {
                    i = i + 1;
                },
                Ordering::Equal => {
                    proof {
                        lemma_name_lt_strict(s[i as int].0, name@);
                    }
                    found = true;
                    break ;
                },
                Ordering::Greater => {
                    proof {
                        lemma_name_lt_strict(s[i as int].0, name@);
                    }
                    break ;
                },
            }
        }
        let ghost nm = name@;
        if found {
            self.entries.set(i, (name, key));
            let ghost t = self.entry_seq();
            assert(t =~= s.update(i as int, (nm, key)));
        } else {
            self.entries.insert(i, (name, key));
            let ghost t = self.entry_seq();
            assert(t =~= s.insert(i as int, (nm, key)));
            assert forall|a: int, b: int| 0 <= a < b < t.len() implies name_lt(
                #[trigger] t[a].0,
                #[trigger] t[b].0,
            ) by {
                if a == i && b > i {
                    if b - 1 > i {
                        lemma_name_lt_transitive(nm, s[i as int].0, s[b - 1].0);
                    }
                } else if a > i {
                    assert(t[a] == s[a - 1] && t[b] == s[b - 1]);
                } else if b > i {
                    assert(t[a] == s[a] && t[b] == s[b - 1]);
                }
            }
        }
        let ghost t = self.entry_seq();
        assert(sorted_entries(t));
        assert forall|k: Seq<char>| #[trigger] entries_map(t).contains_key(k)
            <==> old(self)@.insert(nm, key).contains_key(k) by {
            lemma_entries_map_contains(t, k);
            lemma_entries_map_contains(s, k);
            if k == nm {
                assert(t[i as int].0 == nm);
            }
            if exists|j: int| 0 <= j < s.len() && s[j].0 == k {
                let j = choose|j: int| 0 <= j < s.len() && s[j].0 == k;
                if found {
                    if j == i {
                        assert(t[j].0 == k);
                    } else {
                        assert(t[j] == s[j]);
                    }
                } else if j < i {
                    assert(t[j] == s[j]);
                } else {
                    assert(t[j + 1] == s[j]);
                }
            }
            if exists|j: int| 0 <= j < t.len() && t[j].0 == k {
                let j = choose|j: int| 0 <= j < t.len() && t[j].0 == k;
                if j != i {
                    if found || j < i {
                        assert(t[j] == s[j]);
                    } else {
                        assert(t[j] == s[j - 1]);
                    }
                }
            }
        }
        assert forall|k: Seq<char>| #[trigger] entries_map(t).contains_key(k) implies entries_map(
            t,
        )[k] == old(self)@.insert(nm, key)[k] by {
            lemma_entries_map_contains(t, k);
            let j = choose|j: int| 0 <= j < t.len() && t[j].0 == k;
            lemma_entries_map_index(t, j);
            if j != i {
                if j < i {
                    assert(name_lt(t[j].0, t[i as int].0));
                } else {
                    assert(name_lt(t[i as int].0, t[j].0));
                }
                lemma_name_lt_strict(t[j].0, t[i as int].0);
                let oj = if found || j < i { j } else { j - 1 };
                assert(t[j] == s[oj]);
                lemma_entries_map_index(s, oj);
            }
        }
        assert(entries_map(t) =~= old(self)@.insert(nm, key));
    }
}

/// Where names are unique, the table has one name per entry.
pub proof fn lemma_entries_map_len(s: Seq<(Seq<char>, Key)>)
    requires
        sorted_entries(s),
    ensures
        entries_map(s).dom().finite(),
        entries_map(s).len() == s.len(),
    decreases s.len(),
{
    if s.len() > 0 {
        let p = s.drop_last();
        assert(sorted_entries(p));
        lemma_entries_map_len(p);
        lemma_entries_map_contains(p, s.last().0);
        if exists|i: int| 0 <= i < p.len() && p[i].0 == s.last().0 {
            let i = choose|i: int| 0 <= i < p.len() && p[i].0 == s.last().0;
            assert(name_lt(s[i].0, s[s.len() - 1].0));
            lemma_name_lt_strict(s[i].0, s[s.len() - 1].0);
        }
    }
}

impl NamedKeys {
    /// The key that `name` maps to, if any.
    pub fn get(&self, name: &str) -> (r: Option<Key>)
        requires
            self.wf(),
        ensures
            r == (if self@.contains_key(name@) {
                Some(self@[name@])
            } else {
                None
            }),
    {
        let ghost s = self.entry_seq();
        let mut i: usize = 0;
        while i < self.entries.len()
            invariant
                s == self.entry_seq(),
                sorted_entries(s),
                i <= s.len(),
                forall|j: int| 0 <= j < i ==> #[trigger] s[j].0 != name@,
            decreases s.len() - i,
        {
            assert(s[i as int].0 == self.entries@[i as int].0@);
            proof {
                lemma_name_lt_strict(s[i as int].0, name@);
            }
            match compare_bytes(self.entries[i].0.as_str().as_bytes(), name.as_bytes()) {
                Ordering::Equal => {
                    proof {
                        lemma_entries_map_index(s, i as int);
                    }
                    return Some(self.entries[i].1);
                },
                _ => {
                    i = i + 1;
                },
            }
        }
        proof {
            lemma_entries_map_contains(s, name@);
        }
        None
    }

    /// The number of names in the table.
    pub fn len(&self) -> (r: usize)
        requires
            self.wf(),
        ensures
            r == self@.len(),
    {
        proof {
            lemma_entries_map_len(self.entry_seq());
        }
        self.entries.len()
    }

    /// Moves every entry of `other` into this table; where a name is in
    /// both, the entry of `other` wins. `other` is left empty.
    pub fn append(&mut self, other: &mut NamedKeys)
        requires
            old(self).wf(),
            old(other).wf(),
        ensures
            final(self).wf(),
            final(self)@ == old(self)@.union_prefer_right(old(other)@),
            final(other).wf(),
            final(other)@ == Map::<Seq<char>, Key>::empty(),
    {
        let mut taken: Vec<(String, Key)> = Vec::new();
        core::mem::swap(&mut taken, &mut other.entries);
        let ghost ts = old(other).entry_seq();
        let ghost m = old(self)@;
        assert(entries_map(ts.take(0)) =~= Map::<Seq<char>, Key>::empty());
        assert(m.union_prefer_right(entries_map(ts.take(0))) =~= m);
        let mut i: usize = 0;
        while i < taken.len()
            invariant
                self.wf(),
                i <= taken@.len(),
                ts.len() == taken@.len(),
                forall|j: int| 0 <= j < ts.len() ==> #[trigger] ts[j] == (taken@[j].0@, taken@[j].1),
                self@ == m.union_prefer_right(entries_map(ts.take(i as int))),
            decreases taken.len() - i,
        {
            let name = taken[i].0.clone();
            let key = taken[i].1;
            let ghost before = self@;
            self.insert(name, key);
            proof {
                let e = ts[i as int];
                assert(ts.take(i + 1).drop_last() =~= ts.take(i as int));
                assert(entries_map(ts.take(i + 1)) == entries_map(ts.take(i as int)).insert(e.0, e.1));
                assert(self@ =~= m.union_prefer_right(entries_map(ts.take(i + 1))));
            }
            i = i + 1;
        }
        assert(ts.take(ts.len() as int) =~= ts);
        assert(other.entry_seq() =~= Seq::<(Seq<char>, Key)>::empty());
    }
}

impl View for NamedKeys {
    type V = Map<Seq<char>, Key>;

    closed spec fn view(&self) -> Map<Seq<char>, Key> {
        entries_map(self.entry_seq())
    }
}

} // verus!
