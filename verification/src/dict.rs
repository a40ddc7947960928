//! Ordered string-to-string dictionaries with first-match lookup.
//!
//! The rule engine keeps group fragments, rearrange templates and extracted
//! fields in insertion order, so substitution passes are deterministic.

use vstd::prelude::*;

verus! {

/// One key/value pair.
#[derive(Debug)]
pub struct Entry {
    pub key: String,
    pub value: String,
}

impl Entry {
    pub open spec fn view(self) -> (Seq<char>, Seq<char>) {
        (self.key@, self.value@)
    }

    pub fn duplicate(&self) -> (r: Entry)
        ensures
            r@ == self@,
    {
        Entry { key: self.key.clone(), value: self.value.clone() }
    }
}

/// The value bound to `k`, scanning entries front to back.
pub open spec fn lookup(d: Seq<(Seq<char>, Seq<char>)>, k: Seq<char>) -> Option<Seq<char>>
    decreases d.len(),
{
    if d.len() == 0 {
        None
    } else if d[0].0 == k {
        Some(d[0].1)
    } else {
        lookup(d.skip(1), k)
    }
}

/// `d` with `k` bound to `v`: the first entry for `k` is updated in place,
/// or a new entry is appended when `k` is absent.
pub open spec fn dict_put(d: Seq<(Seq<char>, Seq<char>)>, k: Seq<char>, v: Seq<char>) -> Seq<
    (Seq<char>, Seq<char>),
>
    decreases d.len(),
{
    if d.len() == 0 {
        seq![(k, v)]
    } else if d[0].0 == k {
        seq![(k, v)] + d.skip(1)
    } else {
        seq![d[0]] + dict_put(d.skip(1), k, v)
    }
}

/// All keys distinct.
pub open spec fn dict_wf(d: Seq<(Seq<char>, Seq<char>)>) -> bool {
    forall|i: int, j: int| 0 <= i < j < d.len() ==> d[i].0 != d[j].0
}

/// An ordered key/value store; lookups return the first entry with the key.
#[derive(Debug)]
pub struct Dict {
    pub entries: Vec<Entry>,
}

impl Dict {
    pub open spec fn view(self) -> Seq<(Seq<char>, Seq<char>)> {
        Seq::new(self.entries@.len(), |i: int| (self.entries@[i].key@, self.entries@[i].value@))
    }

    pub fn new() -> (r: Dict)
        ensures
            r@ == Seq::<(Seq<char>, Seq<char>)>::empty(),
            r.entries@ == Seq::<Entry>::empty(),
    {
        let r = Dict { entries: Vec::new() };
        proof {
            assert(r@ =~= Seq::<(Seq<char>, Seq<char>)>::empty());
        }
        r
    }

    pub fn len(&self) -> (r: usize)
        ensures
            r == self@.len(),
    {
        self.entries.len()
    }

    pub fn duplicate(&self) -> (r: Dict)
        ensures
            r@ == self@,
    {
        let mut entries: Vec<Entry> = Vec::new();
        let mut i: usize = 0;
        while i < self.entries.len()
            invariant
                i <= self.entries@.len(),
                entries@.len() == i,
                forall|j: int|
                    0 <= j < i ==> #[trigger] entries@[j].key@ == self.entries@[j].key@
                        && entries@[j].value@ == self.entries@[j].value@,
            decreases self.entries@.len() - i,
        {
            entries.push(self.entries[i].duplicate());
            i = i + 1;
        }
        let r = Dict { entries };
        proof {
            assert(r@ =~= self@);
        }
        r
    }

    /// Position of the first entry whose key is `k`, if any.
    fn position(&self, k: &str) -> (r: Option<usize>)
        ensures
            match r {
                Some(i) => i < self@.len() && self@[i as int].0 == k@ && forall|j: int|
                    0 <= j < i ==> self@[j].0 != k@,
                None => forall|j: int| 0 <= j < self@.len() ==> self@[j].0 != k@,
            },
    {
        let mut i: usize = 0;
        while i < self.entries.len()
            invariant
                i <= self@.len(),
                forall|j: int| 0 <= j < i ==> self@[j].0 != k@,
            decreases self@.len() - i,
        {
            if crate::text::str_eq(self.entries[i].key.as_str(), k) {
                return Some(i);
            }
            i = i + 1;
        }
        None
    }

    pub fn get(&self, k: &str) -> (r: Option<&String>)
        ensures
            match r {
                Some(v) => lookup(self@, k@) == Some(v@),
                None => lookup(self@, k@) is None,
            },
    {
        let pos = self.position(k);
        match pos {
            Some(i) => {
                proof {
                    lemma_lookup_at(self@, k@, i as int);
                }
                Some(&self.entries[i].value)
            },
            None => {
                proof {
                    lemma_lookup_absent(self@, k@);
                }
                None
            },
        }
    }

    pub fn contains_key(&self, k: &str) -> (r: bool)
        ensures
            r == (lookup(self@, k@) is Some),
    {
        let pos = self.position(k);
        match pos {
            Some(i) => {
                proof {
                    lemma_lookup_at(self@, k@, i as int);
                }
                true
            },
            None => {
                proof {
                    lemma_lookup_absent(self@, k@);
                }
                false
            },
        }
    }

    pub fn insert(&mut self, k: &str, v: String)
        ensures
            final(self)@ == dict_put(old(self)@, k@, v@),
    {
        let pos = self.position(k);
        match pos {
            Some(i) => {
                proof {
                    lemma_dict_put_at(old(self)@, k@, v@, i as int);
                }
                let key = self.entries[i].key.clone();
                self.entries.set(i, Entry { key, value: v });
                proof {
                    assert(self@ =~= old(self)@.update(i as int, (k@, v@))) by {
                        assert(old(self)@[i as int].0 == k@);
                        assert(self.entries@[i as int].key@ == k@);
                    }
                }
            },
            None => {
                proof {
                    lemma_dict_put_absent(old(self)@, k@, v@);
                }
                self.entries.push(Entry { key: k.to_owned(), value: v });
                proof {
                    assert(self@ =~= old(self)@.push((k@, v@)));
                }
            },
        }
    }
}

/// If the first entry for `k` sits at position `i`, lookup returns its value.
pub proof fn lemma_lookup_at(d: Seq<(Seq<char>, Seq<char>)>, k: Seq<char>, i: int)
    requires
        0 <= i < d.len(),
        d[i].0 == k,
        forall|j: int| 0 <= j < i ==> d[j].0 != k,
    ensures
        lookup(d, k) == Some(d[i].1),
    decreases i,
{
    if i > 0 {
        lemma_lookup_at(d.skip(1), k, i - 1);
    }
}

/// If no entry has key `k`, lookup misses.
pub proof fn lemma_lookup_absent(d: Seq<(Seq<char>, Seq<char>)>, k: Seq<char>)
    requires
        forall|j: int| 0 <= j < d.len() ==> d[j].0 != k,
    ensures
        lookup(d, k) is None,
    decreases d.len(),
{
    if d.len() > 0 {
        lemma_lookup_absent(d.skip(1), k);
    }
}

/// If the first entry for `k` sits at position `i`, `dict_put` updates it in place.
pub proof fn lemma_dict_put_at(d: Seq<(Seq<char>, Seq<char>)>, k: Seq<char>, v: Seq<char>, i: int)
    requires
        0 <= i < d.len(),
        d[i].0 == k,
        forall|j: int| 0 <= j < i ==> d[j].0 != k,
    ensures
        dict_put(d, k, v) == d.update(i, (k, v)),
    decreases i,
{
    if i == 0 {
        assert(dict_put(d, k, v) == seq![(k, v)] + d.skip(1));
        assert(seq![(k, v)] + d.skip(1) =~= d.update(0, (k, v)));
    } else {
        lemma_dict_put_at(d.skip(1), k, v, i - 1);
        assert(dict_put(d, k, v) == seq![d[0]] + dict_put(d.skip(1), k, v));
        assert(seq![d[0]] + d.skip(1).update(i - 1, (k, v)) =~= d.update(i, (k, v)));
    }
}

/// If no entry has key `k`, `dict_put` appends a new entry.
pub proof fn lemma_dict_put_absent(d: Seq<(Seq<char>, Seq<char>)>, k: Seq<char>, v: Seq<char>)
    requires
        forall|j: int| 0 <= j < d.len() ==> d[j].0 != k,
    ensures
        dict_put(d, k, v) == d.push((k, v)),
    decreases d.len(),
{
    if d.len() == 0 {
        assert(seq![(k, v)] =~= d.push((k, v)));
    } else {
        lemma_dict_put_absent(d.skip(1), k, v);
        assert(seq![d[0]] + d.skip(1).push((k, v)) =~= d.push((k, v)));
    }
}

} // verus!
