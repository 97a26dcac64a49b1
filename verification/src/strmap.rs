//! A map keyed by strings, kept in the order of its keys (the order in which a
//! `BTreeMap<String, _>` holds and walks its entries).
use crate::text::{lemma_seq_lt_properties, seq_lt, str_eq, str_lt};
use vstd::prelude::*;

verus! {

/// The keys of `s` are strictly increasing, so no key occurs twice.
pub open spec fn keys_sorted<X>(s: Seq<(Seq<char>, X)>) -> bool {
    forall|i: int, j: int| 0 <= i < j < s.len() ==> seq_lt(#[trigger] s[i].0, #[trigger] s[j].0)
}

/// The value that `s` holds for the key `k`.
pub open spec fn lookup<X>(s: Seq<(Seq<char>, X)>, k: Seq<char>) -> Option<X>
    decreases s.len(),
{
    if s.len() == 0 {
        None
    } else if s.last().0 == k {
        Some(s.last().1)
    } else {
        lookup(s.drop_last(), k)
    }
}

pub proof fn lemma_lookup_at<X>(s: Seq<(Seq<char>, X)>, i: int)
    requires
        keys_sorted(s),
        0 <= i < s.len(),
    ensures
        lookup(s, s[i].0) == Some(s[i].1),
    decreases s.len(),
{
    lemma_seq_lt_properties();
    if i < s.len() - 1 {
        assert(seq_lt(s[i].0, s[s.len() - 1].0));
        assert(s.drop_last()[i] == s[i]);
        lemma_lookup_at(s.drop_last(), i);
    }
}

pub proof fn lemma_lookup_absent<X>(s: Seq<(Seq<char>, X)>, k: Seq<char>)
    requires
        forall|i: int| 0 <= i < s.len() ==> (#[trigger] s[i]).0 != k,
    ensures
        lookup(s, k) is None,
    decreases s.len(),
{
    if s.len() > 0 {
        assert(s[s.len() - 1].0 != k);
        assert forall|i: int| 0 <= i < s.drop_last().len() implies (#[trigger] s.drop_last()[i]).0
            != k by {
            assert(s.drop_last()[i] == s[i]);
        }
        lemma_lookup_absent(s.drop_last(), k);
    }
}

/// What `lookup` finds is the value of some entry with that key.
pub proof fn lemma_lookup_found<X>(s: Seq<(Seq<char>, X)>, k: Seq<char>)
    requires
        lookup(s, k) is Some,
    ensures
        exists|i: int| 0 <= i < s.len() && #[trigger] s[i] == (k, lookup(s, k).unwrap()),
    decreases s.len(),
{
    if s.last().0 != k {
        lemma_lookup_found(s.drop_last(), k);
        let i = choose|i: int|
            0 <= i < s.drop_last().len() && #[trigger] s.drop_last()[i] == (k, lookup(s, k).unwrap());
        assert(s[i] == s.drop_last()[i]);
    } else {
        assert(s[s.len() - 1] == (k, lookup(s, k).unwrap()));
    }
}

/// `lookup` of a key that occurs in a sorted sequence gives the value next to it, and of a key
/// that does not, nothing.
pub proof fn lemma_lookup_sorted<X>(s: Seq<(Seq<char>, X)>)
    requires
        keys_sorted(s),
    ensures
        forall|i: int| 0 <= i < s.len() ==> lookup(s, #[trigger] s[i].0) == Some(s[i].1),
        forall|k: Seq<char>|
            (forall|i: int| 0 <= i < s.len() ==> (#[trigger] s[i]).0 != k) ==> lookup(s, k) is None,
{
    assert forall|i: int| 0 <= i < s.len() implies lookup(s, #[trigger] s[i].0) == Some(
        s[i].1,
    ) by {
        lemma_lookup_at(s, i);
    }
    assert forall|k: Seq<char>|
        (forall|i: int| 0 <= i < s.len() ==> (#[trigger] s[i]).0 != k) implies lookup(
        s,
        k,
    ) is None by {
        lemma_lookup_absent(s, k);
    }
}

/// A string-keyed map whose entries stay sorted by key.
#[derive(Debug, PartialEq, Eq)]
pub struct StrMap<V> {
    pub(crate) entries: Vec<(String, V)>,
}

impl<V: View> View for StrMap<V> {
    type V = Seq<(Seq<char>, V::V)>;

    /// The entries in key order, keys and values by their views.
    closed spec fn view(&self) -> Seq<(Seq<char>, V::V)> {
        self.entries@.map_values(|e: (String, V)| (e.0@, e.1@))
    }
}

impl<V: View> StrMap<V> {
    /// Well-formed: the keys are strictly increasing.
    pub open spec fn wf(&self) -> bool {
        keys_sorted(self@)
    }

    /// An empty map.
    pub fn new() -> (r: Self)
        ensures
            r@ == Seq::<(Seq<char>, V::V)>::empty(),
            r.wf(),
    {
        let r = StrMap { entries: Vec::new() };
        assert(r@ =~= Seq::<(Seq<char>, V::V)>::empty());
        r
    }

    /// The number of entries.
    pub fn len(&self) -> (r: usize)
        ensures
            r == self@.len(),
    {
        self.entries.len()
    }

    /// Whether the map has no entry.
    pub fn is_empty(&self) -> (r: bool)
        ensures
            r == (self@.len() == 0),
    {
        self.entries.len() == 0
    }

    /// The key of the `i`-th entry in key order.
    pub fn key_at(&self, i: usize) -> (r: &String)
        requires
            i < self@.len(),
        ensures
            r@ == self@[i as int].0,
    {
        &self.entries[i].0
    }

    /// The value of the `i`-th entry in key order.
    pub fn value_at(&self, i: usize) -> (r: &V)
        requires
            i < self@.len(),
        ensures
            r@ == self@[i as int].1,
    {
        &self.entries[i].1
    }

    /// The position of the entry with key `k`, if there is one.
    pub fn index_of(&self, k: &str) -> (r: Option<usize>)
        ensures
            match r {
                Some(i) => i < self@.len() && self@[i as int].0 == k@,
                None => forall|i: int| 0 <= i < self@.len() ==> (#[trigger] self@[i]).0 != k@,
            },
    {
        let n = self.entries.len();
        let mut i: usize = 0;
        while i < n
            invariant
                i <= n,
                n == self@.len(),
                forall|j: int| 0 <= j < i ==> (#[trigger] self@[j]).0 != k@,
            decreases n - i,
        {
            if str_eq(self.entries[i].0.as_str(), k) {
                return Some(i);
            }
            i = i + 1;
        }
        None
    }

    /// The value held for the key `k`.
    pub fn get(&self, k: &str) -> (r: Option<&V>)
        requires
            self.wf(),
        ensures
            match r {
                Some(v) => lookup(self@, k@) == Some(v@),
                None => lookup(self@, k@) is None,
            },
    {
        proof {
            lemma_lookup_sorted(self@);
        }
        match self.index_of(k) {
            Some(i) => Some(&self.entries[i].1),
            None => None,
        }
    }

    /// Whether the map holds the key `k`.
    pub fn contains_key(&self, k: &str) -> (r: bool)
        requires
            self.wf(),
        ensures
            r == (lookup(self@, k@) is Some),
    {
        proof {
            lemma_lookup_sorted(self@);
        }
        self.index_of(k).is_some()
    }

    /// Replaces the value of the `i`-th entry; the keys stay as they were.
    pub fn set_value_at(&mut self, i: usize, v: V)
        requires
            i < old(self)@.len(),
        ensures
            final(self)@ == old(self)@.update(i as int, (old(self)@[i as int].0, v@)),
    {
        let k = self.entries[i].0.clone();
        self.entries.set(i, (k, v));
        assert(self@ =~= old(self)@.update(i as int, (old(self)@[i as int].0, v@)));
    }

    /// Whether the keys are strictly increasing (see `wf`).
    pub fn keys_in_order(&self) -> (r: bool)
        ensures
            r == self.wf(),
    {
        proof {
            lemma_seq_lt_properties();
        }
        let ghost s = self@;
        let n = self.entries.len();
        if n == 0 {
            return true;
        }
        let mut i: usize = 1;
        while i < n
            invariant
                1 <= i <= n,
                n == s.len(),
                s == self@,
                keys_sorted(s.take(i as int)),
            decreases n - i,
        {
            assert(s[i - 1] == (self.entries@[i - 1].0@, self.entries@[i - 1].1@));
            assert(s[i as int] == (self.entries@[i as int].0@, self.entries@[i as int].1@));
            if !str_lt(self.entries[i - 1].0.as_str(), self.entries[i].0.as_str()) {
                assert(!keys_sorted(s)) by {
                    assert(!seq_lt(s[i - 1].0, s[i as int].0));
                }
                return false;
            }
            assert(keys_sorted(s.take(i + 1))) by {
                assert forall|a: int, b: int| 0 <= a < b < i + 1 implies seq_lt(
                    #[trigger] s.take(i + 1)[a].0,
                    #[trigger] s.take(i + 1)[b].0,
                ) by {
                    lemma_seq_lt_properties();
                    assert(s.take(i + 1)[a] == s[a]);
                    assert(s.take(i + 1)[b] == s[b]);
                    if b < i {
                        assert(s.take(i as int)[a] == s[a]);
                        assert(s.take(i as int)[b] == s[b]);
                    } else if a < i - 1 {
                        assert(s.take(i as int)[a] == s[a]);
                        assert(s.take(i as int)[i - 1] == s[i - 1]);
                        assert(seq_lt(s[a].0, s[i - 1].0));
                        assert(seq_lt(s[i - 1].0, s[i as int].0));
                    }
                }
            }
            i = i + 1;
        }
        assert(s.take(n as int) =~= s);
        true
    }

    /// Appends an entry, whatever its key.
    pub(crate) fn append_entry(&mut self, k: String, v: V)
        ensures
            final(self)@ == old(self)@.push((k@, v@)),
    {
        let ghost s0 = self@;
        self.entries.push((k, v));
        assert(self@ =~= s0.push((k@, v@)));
    }

    /// Appends an entry whose key comes after every key of the map.
    pub fn push(&mut self, k: String, v: V)
        requires
            old(self).wf(),
            old(self)@.len() > 0 ==> seq_lt(old(self)@.last().0, k@),
        ensures
            final(self)@ == old(self)@.push((k@, v@)),
            final(self).wf(),
    {
        proof {
            lemma_seq_lt_properties();
        }
        let ghost s0 = self@;
        self.entries.push((k, v));
        assert(self@ =~= s0.push((k@, v@)));
        assert forall|i: int, j: int| 0 <= i < j < self@.len() implies seq_lt(
            #[trigger] self@[i].0,
            #[trigger] self@[j].0,
        ) by {
            if j == s0.len() && i < s0.len() - 1 {
                assert(seq_lt(s0[i].0, s0[s0.len() - 1].0));
            }
        }
    }

    /// Inserts `v` under the key `k`, replacing the value held for `k` if there was one.
    pub fn insert(&mut self, k: String, v: V)
        requires
            old(self).wf(),
        ensures
            final(self).wf(),
            forall|q: Seq<char>|
                #![trigger lookup(final(self)@, q)]
                lookup(final(self)@, q) == if q == k@ {
                    Some(v@)
                } else {
                    lookup(old(self)@, q)
                },
            final(self)@.len() == old(self)@.len() + if lookup(old(self)@, k@) is Some {
                0int
            } else {
                1int
            },
    {
        proof {
            lemma_seq_lt_properties();
            lemma_lookup_sorted(old(self)@);
        }
        let ghost s0 = self@;
        let n = self.entries.len();
        let mut pos: usize = 0;
        while pos < n && str_lt(self.entries[pos].0.as_str(), k.as_str())
            invariant
                pos <= n,
                n == self@.len(),
                self@ == s0,
                forall|j: int| 0 <= j < pos ==> seq_lt((#[trigger] s0[j]).0, k@),
            decreases n - pos,
        {
            pos = pos + 1;
        }
        // Every key from `pos` on is at least `k`.
        assert forall|j: int| pos <= j < n implies !seq_lt((#[trigger] s0[j]).0, k@) by {
            if pos < j {
                assert(seq_lt(s0[pos as int].0, s0[j].0));
            }
        }
        if pos < n && str_eq(self.entries[pos].0.as_str(), k.as_str()) {
            self.entries.set(pos, (k, v));
            let ghost s1 = self@;
            assert(s1 =~= s0.update(pos as int, (k@, v@)));
            assert(keys_sorted(s1)) by {
                assert(s0[pos as int].0 == k@);
                assert forall|i: int| 0 <= i < s1.len() implies (#[trigger] s1[i]).0 == s0[i].0 by {
                }
                assert forall|i: int, j: int| 0 <= i < j < s1.len() implies seq_lt(
                    #[trigger] s1[i].0,
                    #[trigger] s1[j].0,
                ) by {
                    assert(s1[i].0 == s0[i].0 && s1[j].0 == s0[j].0);
                }
            }
            proof {
                lemma_lookup_sorted(s1);
                assert forall|q: Seq<char>| #![trigger lookup(s1, q)] lookup(s1, q) == if q == k@ {
                    Some(v@)
                } else {
                    lookup(s0, q)
                } by {
                    if q == k@ {
                        assert(s1[pos as int].0 == q);
                    } else {
                        if exists|i: int| 0 <= i < s0.len() && (#[trigger] s0[i]).0 == q {
                            let i = choose|i: int| 0 <= i < s0.len() && (#[trigger] s0[i]).0 == q;
                            assert(s1[i] == s0[i]);
                        } else {
                            assert forall|i: int| 0 <= i < s1.len() implies (#[trigger] s1[i]).0
                                != q by {
                                if i != pos {
                                    assert(s1[i] == s0[i]);
                                }
                            }
                        }
                    }
                }
                assert(lookup(s0, k@) is Some) by {
                    assert(s0[pos as int].0 == k@);
                }
            }
        } else {
            proof {
                assert forall|j: int| pos <= j < n implies seq_lt(k@, (#[trigger] s0[j]).0) by {
                    if pos < j {
                        assert(seq_lt(s0[pos as int].0, s0[j].0));
                    }
                    if s0[pos as int].0 == k@ {
                    }
                }
            }
            self.entries.insert(pos, (k, v));
            let ghost s1 = self@;
            assert(s1 =~= s0.insert(pos as int, (k@, v@)));
            assert(keys_sorted(s1)) by {
                assert forall|i: int, j: int| 0 <= i < j < s1.len() implies seq_lt(
                    #[trigger] s1[i].0,
                    #[trigger] s1[j].0,
                ) by {
                    if j < pos {
                        assert(s1[i] == s0[i] && s1[j] == s0[j]);
                    } else if j == pos {
                        assert(s1[i] == s0[i]);
                    } else if i < pos {
                        assert(s1[i] == s0[i] && s1[j] == s0[j - 1]);
                        assert(seq_lt(k@, s0[j - 1].0));
                    } else if i == pos {
                        assert(s1[j] == s0[j - 1]);
                    } else {
                        assert(s1[i] == s0[i - 1] && s1[j] == s0[j - 1]);
                    }
                }
            }
            proof {
                lemma_lookup_sorted(s1);
                assert forall|i: int| 0 <= i < s0.len() implies (#[trigger] s0[i]).0 != k@ by {
                    if i < pos {
                        assert(seq_lt(s0[i].0, k@));
                    } else {
                        assert(seq_lt(k@, s0[i].0));
                    }
                }
                assert forall|q: Seq<char>| #![trigger lookup(s1, q)] lookup(s1, q) == if q == k@ {
                    Some(v@)
                } else {
                    lookup(s0, q)
                } by {
                    if q == k@ {
                        assert(s1[pos as int].0 == q);
                    } else {
                        if exists|i: int| 0 <= i < s0.len() && (#[trigger] s0[i]).0 == q {
                            let i = choose|i: int| 0 <= i < s0.len() && (#[trigger] s0[i]).0 == q;
                            if i < pos {
                                assert(s1[i] == s0[i]);
                            } else {
                                assert(s1[i + 1] == s0[i]);
                            }
                        } else {
                            assert forall|i: int| 0 <= i < s1.len() implies (#[trigger] s1[i]).0
                                != q by {
                                if i < pos {
                                    assert(s1[i] == s0[i]);
                                } else if i > pos {
                                    assert(s1[i] == s0[i - 1]);
                                }
                            }
                        }
                    }
                }
            }
        }
    }
    /// Removes the entry of the key `k`; gives back its value if there was one.
    pub fn remove(&mut self, k: &str) -> (r: Option<V>)
        requires
            old(self).wf(),
        ensures
            final(self).wf(),
            forall|q: Seq<char>|
                #![trigger lookup(final(self)@, q)]
                lookup(final(self)@, q) == if q == k@ {
                    None
                } else {
                    lookup(old(self)@, q)
                },
            match r {
                Some(v) => lookup(old(self)@, k@) == Some(v@),
                None => lookup(old(self)@, k@) is None,
            },
    {
        proof {
            lemma_seq_lt_properties();
            lemma_lookup_sorted(old(self)@);
        }
        let ghost s0 = self@;
        match self.index_of(k) {
            None => None,
            Some(i) => {
                let (_, v) = self.entries.remove(i);
                let ghost s1 = self@;
                assert(s1 =~= s0.remove(i as int));
                assert(keys_sorted(s1)) by {
                    assert forall|a: int, b: int| 0 <= a < b < s1.len() implies seq_lt(
                        #[trigger] s1[a].0,
                        #[trigger] s1[b].0,
                    ) by {
                        let a0 = if a < i { a } else { a + 1 };
                        let b0 = if b < i { b } else { b + 1 };
                        assert(s1[a] == s0[a0]);
                        assert(s1[b] == s0[b0]);
                    }
                }
                proof {
                    lemma_lookup_sorted(s1);
                }
                assert forall|q: Seq<char>| #[trigger] lookup(s1, q) == if q == k@ {
                    None
                } else {
                    lookup(s0, q)
                } by {
                    if exists|j: int| 0 <= j < s1.len() && (#[trigger] s1[j]).0 == q {
                        let j = choose|j: int| 0 <= j < s1.len() && (#[trigger] s1[j]).0 == q;
                        let j0 = if j < i { j } else { j + 1 };
                        assert(s1[j] == s0[j0]);
                        if q == k@ {
                            assert(s0[i as int].0 == k@);
                            assert(j0 != i);
                            if j0 < i {
                                assert(seq_lt(s0[j0].0, s0[i as int].0));
                            } else {
                                assert(seq_lt(s0[i as int].0, s0[j0].0));
                            }
                        }
                    } else {
                        assert forall|j: int| 0 <= j < s0.len() && j != i implies (#[trigger] s0[j]).0
                            != q by {
                            let j1 = if j < i { j } else { j - 1 };
                            assert(s1[j1] == s0[j]);
                        }
                        if q != k@ {
                            assert(forall|j: int| 0 <= j < s0.len() ==> (#[trigger] s0[j]).0 != q);
                        }
                    }
                }
                Some(v)
            },
        }
    }
}

} // verus!
