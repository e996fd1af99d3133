//! The in-memory store: every key once, kept in ascending byte order.
use vstd::prelude::*;

use crate::batch::{apply_ops, map_of_pairs, DbOp};
use crate::bytes::{compare_bytes, has_prefix, lex_lt, KeyOrder, lemma_lex_irreflexive, lemma_lex_transitive};

verus! {

/// A stored entry as plain byte strings.
pub open spec fn pair_view(e: (Vec<u8>, Vec<u8>)) -> (Seq<u8>, Seq<u8>) {
    (e.0@, e.1@)
}

/// A list of stored entries as plain byte strings.
pub open spec fn pairs_view(s: Seq<(Vec<u8>, Vec<u8>)>) -> Seq<(Seq<u8>, Seq<u8>)> {
    s.map_values(|e: (Vec<u8>, Vec<u8>)| pair_view(e))
}

/// The keys of `s` ascend strictly.
pub open spec fn sorted_keys(s: Seq<(Seq<u8>, Seq<u8>)>) -> bool {
    forall|i: int, j: int| 0 <= i < j < s.len() ==> lex_lt(#[trigger] s[i].0, #[trigger] s[j].0)
}

/// `s` lists the entries of `m`: each of its pairs is in `m`, and each key
/// of `m` is the key of one of its pairs.
pub open spec fn lists_map(s: Seq<(Seq<u8>, Seq<u8>)>, m: Map<Seq<u8>, Seq<u8>>) -> bool {
    &&& forall|i: int| 0 <= i < s.len() ==> #[trigger] m.contains_key(s[i].0) && m[s[i].0] == s[i].1
    &&& forall|k: Seq<u8>| #[trigger] m.contains_key(k) ==> exists|i: int| 0 <= i < s.len() && s[i].0 == k
}

/// The entries of `m` whose keys begin with `prefix`.
pub open spec fn with_prefix(m: Map<Seq<u8>, Seq<u8>>, prefix: Seq<u8>) -> Map<Seq<u8>, Seq<u8>> {
    Map::new(|k: Seq<u8>| m.contains_key(k) && prefix.is_prefix_of(k), |k: Seq<u8>| m[k])
}

/// `r` is the value under `key` in `m`, if there is one.
pub open spec fn lookup_result(m: Map<Seq<u8>, Seq<u8>>, key: Seq<u8>, r: Option<Vec<u8>>) -> bool {
    match r {
        Some(v) => m.contains_key(key) && v@ == m[key],
        None => !m.contains_key(key),
    }
}

/// Keys in strictly ascending order are distinct.
pub proof fn lemma_sorted_distinct(s: Seq<(Seq<u8>, Seq<u8>)>)
    requires
        sorted_keys(s),
    ensures
        forall|i: int, j: int| 0 <= i < s.len() && 0 <= j < s.len() && i != j ==> #[trigger] s[i].0 != #[trigger] s[j].0,
{
    assert forall|i: int, j: int| 0 <= i < s.len() && 0 <= j < s.len() && i != j implies #[trigger] s[i].0
        != #[trigger] s[j].0 by {
        lemma_lex_irreflexive(s[i].0);
        if i < j {
            assert(lex_lt(s[i].0, s[j].0));
        } else {
            assert(lex_lt(s[j].0, s[i].0));
        }
    }
}

/// A synchronous in-memory map from byte keys to byte values.
pub struct HotStore {
    entries: Vec<(Vec<u8>, Vec<u8>)>,
    contents: Ghost<Map<Seq<u8>, Seq<u8>>>,
}

impl View for HotStore {
    type V = Map<Seq<u8>, Seq<u8>>;

    closed spec fn view(&self) -> Map<Seq<u8>, Seq<u8>> {
        self.contents@
    }
}

/// Copies a byte string.
pub(crate) fn copy_bytes(b: &[u8]) -> (r: Vec<u8>)
    ensures
        r@ == b@,
{
    let mut r: Vec<u8> = Vec::new();
    let mut i: usize = 0;
    while i < b.len()
        invariant
            i <= b@.len(),
            r@ == b@.take(i as int),
        decreases b@.len() - i,
    {
        r.push(b[i]);
        proof {
            assert(b@.take(i + 1) =~= b@.take(i as int).push(b@[i as int]));
        }
        i = i + 1;
    }
    proof {
        assert(b@.take(i as int) =~= b@);
    }
    r
}

impl HotStore {
    /// The entries in their stored order, as plain byte strings.
    pub closed spec fn listing(&self) -> Seq<(Seq<u8>, Seq<u8>)> {
        pairs_view(self.entries@)
    }

    /// Keys ascend strictly, and the entries list exactly the contents.
    pub closed spec fn wf(&self) -> bool {
        &&& sorted_keys(self.listing())
        &&& lists_map(self.listing(), self@)
    }

    /// An empty store.
    pub fn new() -> (r: HotStore)
        ensures
            r.wf(),
            r@ == Map::<Seq<u8>, Seq<u8>>::empty(),
    {
        let r = HotStore { entries: Vec::new(), contents: Ghost(Map::empty()) };
        proof {
            assert(r.listing() =~= Seq::<(Seq<u8>, Seq<u8>)>::empty());
        }
        r
    }

    /// Finds where `key` stands, or would stand, among the sorted keys.
    fn find(&self, key: &[u8]) -> (r: (bool, usize))
        requires
            self.wf(),
        ensures
            r.1 <= self.listing().len(),
            forall|i: int| 0 <= i < r.1 ==> lex_lt(#[trigger] self.listing()[i].0, key@),
            r.0 ==> r.1 < self.listing().len() && self.listing()[r.1 as int].0 == key@,
            !r.0 ==> forall|i: int| r.1 <= i < self.listing().len() ==> lex_lt(key@, #[trigger] self.listing()[i].0),
            r.0 <==> self@.contains_key(key@),
    {
        let n = self.entries.len();
        let mut i: usize = 0;
        while i < n
            invariant
                self.wf(),
                n == self.listing().len(),
                i <= n,
                forall|j: int| 0 <= j < i ==> lex_lt(#[trigger] self.listing()[j].0, key@),
            decreases n - i,
        {
            match compare_bytes(self.entries[i].0.as_slice(), key) {
                KeyOrder::Less => {},
                KeyOrder::Equal => {
                    proof {
                        assert(self.listing()[i as int].0 == key@);
                        assert(self@.contains_key(self.listing()[i as int].0));
                    }
                    return (true, i);
                },
                KeyOrder::Greater => {
                    proof {
                        assert forall|j: int| i <= j < n implies lex_lt(key@, #[trigger] self.listing()[j].0) by {
                            if j > i {
                                lemma_lex_transitive(key@, self.listing()[i as int].0, self.listing()[j].0);
                            }
                        }
                        self.lemma_absent_between(key@, i as int);
                    }
                    return (false, i);
                },
            }
            i = i + 1;
        }
        proof {
            self.lemma_absent_between(key@, i as int);
        }
        (false, i)
    }

    /// The value stored under `key`, if any.
    pub fn get(&self, key: &[u8]) -> (r: Option<Vec<u8>>)
        requires
            self.wf(),
        ensures
            lookup_result(self@, key@, r),
    {
        let (found, p) = self.find(key);
        if found {
            proof {
                self.lemma_value_at(p as int);
            }
            Some(copy_bytes(self.entries[p].1.as_slice()))
        } else {
            None
        }
    }

    /// Stores `value` under `key`, replacing what was there; returns the
    /// value replaced.
    pub fn insert(&mut self, key: &[u8], value: Vec<u8>) -> (r: Option<Vec<u8>>)
        requires
            old(self).wf(),
        ensures
            final(self).wf(),
            final(self)@ == old(self)@.insert(key@, value@),
            lookup_result(old(self)@, key@, r),
    {
        let (found, p) = self.find(key);
        let ghost old_list = self.listing();
        let ghost old_map = self@;
        let k = copy_bytes(key);
        if found {
            proof {
                self.lemma_value_at(p as int);
                lemma_sorted_distinct(self.listing());
            }
            let prev = self.entries.remove(p);
            self.entries.insert(p, (k, value));
            self.contents = Ghost(old_map.insert(key@, value@));
            proof {
                assert(self.listing() =~= old_list.update(p as int, (key@, value@)));
                assert forall|kk: Seq<u8>| #[trigger] self@.contains_key(kk) implies exists|i: int|
                    0 <= i < self.listing().len() && self.listing()[i].0 == kk by {
                    if kk != key@ {
                        let i = choose|i: int| 0 <= i < old_list.len() && old_list[i].0 == kk;
                        assert(self.listing()[i].0 == kk);
                    } else {
                        assert(self.listing()[p as int].0 == kk);
                    }
                }
            }
            Some(prev.1)
        } else {
            self.entries.insert(p, (k, value));
            self.contents = Ghost(old_map.insert(key@, value@));
            proof {
                lemma_lex_irreflexive(key@);
                assert(self.listing() =~= old_list.insert(p as int, (key@, value@)));
                assert forall|i: int, j: int| 0 <= i < j < self.listing().len() implies lex_lt(
                    #[trigger] self.listing()[i].0,
                    #[trigger] self.listing()[j].0,
                ) by {
                    if j < p {
                    } else if j == p {
                    } else if i < p {
                        lemma_lex_transitive(old_list[i].0, key@, old_list[j - 1].0);
                    } else if i == p {
                    } else {
                        assert(lex_lt(old_list[i - 1].0, old_list[j - 1].0));
                    }
                }
                assert forall|i: int| 0 <= i < self.listing().len() implies #[trigger] self@.contains_key(
                    self.listing()[i].0,
                ) && self@[self.listing()[i].0] == self.listing()[i].1 by {
                    if i < p {
                        assert(old_map.contains_key(old_list[i].0));
                    } else if i > p {
                        assert(old_map.contains_key(old_list[i - 1].0));
                    }
                }
                assert forall|kk: Seq<u8>| #[trigger] self@.contains_key(kk) implies exists|i: int|
                    0 <= i < self.listing().len() && self.listing()[i].0 == kk by {
                    if kk != key@ {
                        let i = choose|i: int| 0 <= i < old_list.len() && old_list[i].0 == kk;
                        if i < p {
                            assert(self.listing()[i].0 == kk);
                        } else {
                            assert(self.listing()[i + 1].0 == kk);
                        }
                    } else {
                        assert(self.listing()[p as int].0 == kk);
                    }
                }
            }
            None
        }
    }

    /// Removes the entry under `key`; returns its value, if there was one.
    pub fn remove(&mut self, key: &[u8]) -> (r: Option<Vec<u8>>)
        requires
            old(self).wf(),
        ensures
            final(self).wf(),
            final(self)@ == old(self)@.remove(key@),
            lookup_result(old(self)@, key@, r),
    {
        let (found, p) = self.find(key);
        let ghost old_list = self.listing();
        let ghost old_map = self@;
        if found {
            proof {
                self.lemma_value_at(p as int);
                lemma_sorted_distinct(self.listing());
            }
            let prev = self.entries.remove(p);
            self.contents = Ghost(old_map.remove(key@));
            proof {
                assert(self.listing() =~= old_list.remove(p as int));
                assert forall|i: int, j: int| 0 <= i < j < self.listing().len() implies lex_lt(
                    #[trigger] self.listing()[i].0,
                    #[trigger] self.listing()[j].0,
                ) by {
                    if j < p {
                    } else if i < p {
                        assert(lex_lt(old_list[i].0, old_list[j + 1].0));
                    } else {
                        assert(lex_lt(old_list[i + 1].0, old_list[j + 1].0));
                    }
                }
                assert forall|i: int| 0 <= i < self.listing().len() implies #[trigger] self@.contains_key(
                    self.listing()[i].0,
                ) && self@[self.listing()[i].0] == self.listing()[i].1 by {
                    if i < p {
                        assert(old_map.contains_key(old_list[i].0));
                        assert(old_list[i].0 != old_list[p as int].0);
                    } else {
                        assert(old_map.contains_key(old_list[i + 1].0));
                        assert(old_list[i + 1].0 != old_list[p as int].0);
                    }
                }
                assert forall|kk: Seq<u8>| #[trigger] self@.contains_key(kk) implies exists|i: int|
                    0 <= i < self.listing().len() && self.listing()[i].0 == kk by {
                    let i = choose|i: int| 0 <= i < old_list.len() && old_list[i].0 == kk;
                    if i < p {
                        assert(self.listing()[i].0 == kk);
                    } else {
                        assert(self.listing()[i - 1].0 == kk);
                    }
                }
            }
            Some(prev.1)
        } else {
            proof {
                assert(old_map.remove(key@) =~= old_map);
            }
            self.contents = Ghost(old_map.remove(key@));
            None
        }
    }

    /// The entries whose keys begin with `prefix`, in ascending key order;
    /// an empty prefix gives every entry.
    pub fn scan_by_prefix(&self, prefix: &[u8]) -> (r: Vec<(Vec<u8>, Vec<u8>)>)
        requires
            self.wf(),
        ensures
            sorted_keys(pairs_view(r@)),
            lists_map(pairs_view(r@), with_prefix(self@, prefix@)),
    {
        let ghost list = self.listing();
        let ghost m = with_prefix(self@, prefix@);
        let ghost mut idx: Seq<int> = Seq::empty();
        let mut r: Vec<(Vec<u8>, Vec<u8>)> = Vec::new();
        let n = self.entries.len();
        let mut i: usize = 0;
        while i < n
            invariant
                self.wf(),
                list == self.listing(),
                n == list.len(),
                i <= n,
                idx.len() == r@.len(),
                forall|t: int| 0 <= t < idx.len() ==> 0 <= #[trigger] idx[t] < i,
                forall|t: int| 0 <= t < idx.len() ==> #[trigger] pairs_view(r@)[t] == list[idx[t]],
                forall|t: int| 0 <= t < idx.len() ==> prefix@.is_prefix_of(list[#[trigger] idx[t]].0),
                forall|a: int, b: int| 0 <= a < b < idx.len() ==> #[trigger] idx[a] < #[trigger] idx[b],
                forall|j: int| 0 <= j < i && prefix@.is_prefix_of(#[trigger] list[j].0) ==> exists|t: int|
                    0 <= t < idx.len() && idx[t] == j,
            decreases n - i,
        {
            if has_prefix(self.entries[i].0.as_slice(), prefix) {
                let k = copy_bytes(self.entries[i].0.as_slice());
                let v = copy_bytes(self.entries[i].1.as_slice());
                let ghost old_r = pairs_view(r@);
                let ghost old_idx = idx;
                r.push((k, v));
                proof {
                    idx = idx.push(i as int);
                    assert(pairs_view(r@) =~= old_r.push(list[i as int]));
                    assert forall|j: int| 0 <= j < i + 1 && prefix@.is_prefix_of(#[trigger] list[j].0) implies exists|t: int|
                        0 <= t < idx.len() && idx[t] == j by {
                        if j == i {
                            assert(idx[old_idx.len() as int] == j);
                        } else {
                            let t = choose|t: int| 0 <= t < old_idx.len() && old_idx[t] == j;
                            assert(idx[t] == j);
                        }
                    }
                }
            }
            i = i + 1;
        }
        proof {
            let rv = pairs_view(r@);
            assert forall|a: int, b: int| 0 <= a < b < rv.len() implies lex_lt(#[trigger] rv[a].0, #[trigger] rv[b].0) by {
                assert(idx[a] < idx[b]);
                assert(lex_lt(list[idx[a]].0, list[idx[b]].0));
            }
            assert forall|t: int| 0 <= t < rv.len() implies #[trigger] m.contains_key(rv[t].0) && m[rv[t].0] == rv[t].1 by {
                assert(rv[t] == list[idx[t]]);
                assert(prefix@.is_prefix_of(list[idx[t]].0));
                assert(self@.contains_key(list[idx[t]].0));
            }
            assert forall|k: Seq<u8>| #[trigger] m.contains_key(k) implies exists|t: int| 0 <= t < rv.len() && rv[t].0 == k by {
                let j = choose|j: int| 0 <= j < list.len() && list[j].0 == k;
                assert(prefix@.is_prefix_of(list[j].0));
                let t = choose|t: int| 0 <= t < idx.len() && idx[t] == j;
                assert(rv[t] == list[idx[t]]);
            }
        }
        r
    }

    /// An independent store with the same contents.
    pub fn duplicate(&self) -> (r: HotStore)
        requires
            self.wf(),
        ensures
            r.wf(),
            r@ == self@,
    {
        let mut entries: Vec<(Vec<u8>, Vec<u8>)> = Vec::new();
        let n = self.entries.len();
        let mut i: usize = 0;
        while i < n
            invariant
                n == self.listing().len(),
                i <= n,
                pairs_view(entries@) == self.listing().take(i as int),
            decreases n - i,
        {
            let k = copy_bytes(self.entries[i].0.as_slice());
            let v = copy_bytes(self.entries[i].1.as_slice());
            let ghost before = pairs_view(entries@);
            entries.push((k, v));
            proof {
                assert(pairs_view(entries@) =~= before.push(self.listing()[i as int]));
                assert(self.listing().take(i + 1) =~= self.listing().take(i as int).push(self.listing()[i as int]));
            }
            i = i + 1;
        }
        let r = HotStore { entries, contents: Ghost(self@) };
        proof {
            assert(r.listing() =~= self.listing());
        }
        r
    }

    /// Applies the writes of `batch` in order: a later write to a key
    /// overrides an earlier one.
    pub fn apply_batch(&mut self, batch: &Vec<DbOp>)
        requires
            old(self).wf(),
        ensures
            final(self).wf(),
            final(self)@ == apply_ops(old(self)@, batch@),
    {
        let ghost start = self@;
        let n = batch.len();
        let mut i: usize = 0;
        while i < n
            invariant
                self.wf(),
                n == batch@.len(),
                i <= n,
                self@ == apply_ops(start, batch@.take(i as int)),
            decreases n - i,
        {
            proof {
                assert(batch@.take(i + 1).drop_last() =~= batch@.take(i as int));
            }
            match &batch[i] {
                DbOp::Insert(k, v) => {
                    self.insert(k.as_slice(), copy_bytes(v.as_slice()));
                },
                DbOp::Remove(k) => {
                    self.remove(k.as_slice());
                },
            }
            i = i + 1;
        }
        proof {
            assert(batch@.take(n as int) =~= batch@);
        }
    }

    /// A store filled with `pairs`, stored one after the other.
    pub fn from_pairs(pairs: &Vec<(Vec<u8>, Vec<u8>)>) -> (r: HotStore)
        ensures
            r.wf(),
            r@ == map_of_pairs(pairs_view(pairs@)),
    {
        let mut r = HotStore::new();
        let n = pairs.len();
        let mut i: usize = 0;
        while i < n
            invariant
                r.wf(),
                n == pairs@.len(),
                i <= n,
                r@ == map_of_pairs(pairs_view(pairs@).take(i as int)),
            decreases n - i,
        {
            proof {
                assert(pairs_view(pairs@).take(i + 1).drop_last() =~= pairs_view(pairs@).take(i as int));
            }
            r.insert(pairs[i].0.as_slice(), copy_bytes(pairs[i].1.as_slice()));
            i = i + 1;
        }
        proof {
            assert(pairs_view(pairs@).take(n as int) =~= pairs_view(pairs@));
        }
        r
    }

    /// The entry at position `i` is in the contents.
    proof fn lemma_value_at(&self, i: int)
        requires
            self.wf(),
            0 <= i < self.listing().len(),
        ensures
            self@.contains_key(self.listing()[i].0),
            self@[self.listing()[i].0] == self.listing()[i].1,
            self.listing()[i].1 == self.entries@[i].1@,
            self.listing()[i].0 == self.entries@[i].0@,
    {
    }

    /// A key that lies strictly between the keys before `p` and those from
    /// `p` on is not in the store.
    proof fn lemma_absent_between(&self, key: Seq<u8>, p: int)
        requires
            self.wf(),
            0 <= p <= self.listing().len(),
            forall|i: int| 0 <= i < p ==> lex_lt(#[trigger] self.listing()[i].0, key),
            forall|i: int| p <= i < self.listing().len() ==> lex_lt(key, #[trigger] self.listing()[i].0),
        ensures
            !self@.contains_key(key),
    {
        if self@.contains_key(key) {
            let i = choose|i: int| 0 <= i < self.listing().len() && self.listing()[i].0 == key;
            lemma_lex_irreflexive(key);
            if i < p {
                assert(lex_lt(self.listing()[i].0, key));
            } else {
                assert(lex_lt(key, self.listing()[i].0));
            }
        }
    }
}

} // verus!
