//! What holds across calls: reads after writes, batches, scans, and the
//! save and load cycle through the durable collection.
use vstd::prelude::*;

use crate::batch::{apply_ops, map_of_pairs, DbOp};
use crate::bytes::{lemma_lex_irreflexive, lemma_lex_transitive, lex_lt};
use crate::cold::{durable_after, lemma_replace_ops, ops_view, replace_ops, ColdOp};
use crate::hot_store::{lemma_sorted_distinct, lists_map, lookup_result, sorted_keys, with_prefix};
use crate::mirror::saves;

verus! {

/// Reading a key right after storing `v` under it gives `v`: `r` is what
/// the read returns on the contents left by the store.
pub proof fn law_read_your_write(m: Map<Seq<u8>, Seq<u8>>, k: Seq<u8>, v: Seq<u8>, r: Option<Vec<u8>>)
    requires
        lookup_result(m.insert(k, v), k, r),
    ensures
        r is Some,
        r->0@ == v,
{
}

/// After a key is removed, reading it gives nothing, and the value that
/// the removal returned is the one that was stored just before.
pub proof fn law_remove_clears(
    m: Map<Seq<u8>, Seq<u8>>,
    k: Seq<u8>,
    removed: Option<Vec<u8>>,
    r: Option<Vec<u8>>,
)
    requires
        lookup_result(m, k, removed),
        lookup_result(m.remove(k), k, r),
    ensures
        r is None,
        m.contains_key(k) ==> removed is Some && removed->0@ == m[k],
        !m.contains_key(k) ==> removed is None,
{
}

/// Of two writes of one batch to the same key, the later one is read back.
pub proof fn law_batch_later_wins(
    m: Map<Seq<u8>, Seq<u8>>,
    k1: Vec<u8>,
    v1: Vec<u8>,
    k2: Vec<u8>,
    v2: Vec<u8>,
    r: Option<Vec<u8>>,
)
    requires
        k1@ == k2@,
        lookup_result(apply_ops(m, seq![DbOp::Insert(k1, v1), DbOp::Insert(k2, v2)]), k1@, r),
    ensures
        r is Some,
        r->0@ == v2@,
{
    let ops = seq![DbOp::Insert(k1, v1), DbOp::Insert(k2, v2)];
    assert(ops.drop_last().drop_last() =~= Seq::<DbOp>::empty());
    assert(ops.drop_last().last() == DbOp::Insert(k1, v1));
    assert(ops.last() == DbOp::Insert(k2, v2));
    assert(apply_ops(m, ops.drop_last().drop_last()) == m);
    assert(apply_ops(m, ops.drop_last()) == m.insert(k1@, v1@));
    assert(apply_ops(m, ops) == m.insert(k1@, v1@).insert(k2@, v2@));
}

/// A scan by a prefix that no key begins with yields nothing.
pub proof fn law_scan_without_match(m: Map<Seq<u8>, Seq<u8>>, p: Seq<u8>, s: Seq<(Seq<u8>, Seq<u8>)>)
    requires
        forall|k: Seq<u8>| #[trigger] m.contains_key(k) ==> !p.is_prefix_of(k),
        lists_map(s, with_prefix(m, p)),
    ensures
        s.len() == 0,
{
    if s.len() > 0 {
        assert(with_prefix(m, p).contains_key(s[0].0));
    }
}

/// A scan's result is fixed by its contract: two listings of the same
/// entries, both in ascending key order, are the same sequence.
pub proof fn law_scan_is_determined(
    s1: Seq<(Seq<u8>, Seq<u8>)>,
    s2: Seq<(Seq<u8>, Seq<u8>)>,
    m: Map<Seq<u8>, Seq<u8>>,
)
    requires
        sorted_keys(s1),
        lists_map(s1, m),
        sorted_keys(s2),
        lists_map(s2, m),
    ensures
        s1 == s2,
    decreases s1.len(),
{
    if s1.len() == 0 {
        if s2.len() > 0 {
            assert(m.contains_key(s2[0].0));
        }
        assert(s1 =~= s2);
    } else if s2.len() == 0 {
        assert(m.contains_key(s1[0].0));
    } else {
        let n1 = s1.len() - 1;
        let n2 = s2.len() - 1;
        let a = s1[n1].0;
        let b = s2[n2].0;
        assert(m.contains_key(a));
        assert(m.contains_key(b));
        let i = choose|i: int| 0 <= i < s1.len() && s1[i].0 == b;
        let j = choose|j: int| 0 <= j < s2.len() && s2[j].0 == a;
        if a != b {
            assert(i != n1);
            assert(j != n2);
            assert(lex_lt(s1[i].0, s1[n1].0));
            assert(lex_lt(s2[j].0, s2[n2].0));
            lemma_lex_transitive(a, b, a);
            lemma_lex_irreflexive(a);
        }
        lemma_sorted_distinct(s1);
        lemma_sorted_distinct(s2);
        let mr = m.remove(a);
        let t1 = s1.drop_last();
        let t2 = s2.drop_last();
        assert forall|k: int| 0 <= k < t1.len() implies #[trigger] mr.contains_key(t1[k].0) && mr[t1[k].0] == t1[k].1 by {
            assert(s1[k].0 != s1[n1].0);
            assert(m.contains_key(s1[k].0));
        }
        assert forall|kk: Seq<u8>| #[trigger] mr.contains_key(kk) implies exists|k: int| 0 <= k < t1.len() && t1[k].0 == kk by {
            let k = choose|k: int| 0 <= k < s1.len() && s1[k].0 == kk;
            assert(t1[k].0 == kk);
        }
        assert forall|k: int| 0 <= k < t2.len() implies #[trigger] mr.contains_key(t2[k].0) && mr[t2[k].0] == t2[k].1 by {
            assert(s2[k].0 != s2[n2].0);
            assert(m.contains_key(s2[k].0));
        }
        assert forall|kk: Seq<u8>| #[trigger] mr.contains_key(kk) implies exists|k: int| 0 <= k < t2.len() && t2[k].0 == kk by {
            let k = choose|k: int| 0 <= k < s2.len() && s2[k].0 == kk;
            assert(t2[k].0 == kk);
        }
        law_scan_is_determined(t1, t2, mr);
        assert(s1 =~= t1.push(s1[n1]));
        assert(s2 =~= t2.push(s2[n2]));
    }
}

/// After a save, the durable collection holds exactly the contents that
/// the save was made from, whatever it held before: nothing removed from
/// memory survives there.
pub proof fn law_save_replaces(d: Map<Seq<u8>, Seq<u8>>, plan: Seq<ColdOp>, m: Map<Seq<u8>, Seq<u8>>)
    requires
        saves(plan, m),
    ensures
        durable_after(d, ops_view(plan)) == m,
{
    let s = choose|s: Seq<(Seq<u8>, Seq<u8>)>| sorted_keys(s) && lists_map(s, m) && #[trigger] replace_ops(s) == ops_view(plan);
    lemma_replace_ops(d, s);
    lemma_sorted_distinct(s);
    lemma_map_of_distinct(s, m);
}

/// A save followed by a load of the same collection gives back the saved
/// contents: `stored` is any listing of what the collection then holds,
/// each key once, and loading it yields `map_of_pairs(stored)`.
pub proof fn law_round_trip(
    d: Map<Seq<u8>, Seq<u8>>,
    plan: Seq<ColdOp>,
    m: Map<Seq<u8>, Seq<u8>>,
    stored: Seq<(Seq<u8>, Seq<u8>)>,
)
    requires
        saves(plan, m),
        lists_map(stored, durable_after(d, ops_view(plan))),
        forall|i: int, j: int| 0 <= i < stored.len() && 0 <= j < stored.len() && i != j ==> #[trigger] stored[i].0 != #[trigger] stored[j].0,
    ensures
        map_of_pairs(stored) == m,
{
    law_save_replaces(d, plan, m);
    lemma_map_of_distinct(stored, m);
}

/// Storing the entries of a listing of `m`, each key once, in any order,
/// rebuilds `m`.
pub proof fn lemma_map_of_distinct(s: Seq<(Seq<u8>, Seq<u8>)>, m: Map<Seq<u8>, Seq<u8>>)
    requires
        lists_map(s, m),
        forall|i: int, j: int| 0 <= i < s.len() && 0 <= j < s.len() && i != j ==> #[trigger] s[i].0 != #[trigger] s[j].0,
    ensures
        map_of_pairs(s) == m,
    decreases s.len(),
{
    if s.len() == 0 {
        assert forall|k: Seq<u8>| !#[trigger] m.contains_key(k) by {}
        assert(m =~= Map::<Seq<u8>, Seq<u8>>::empty());
    } else {
        let t = s.drop_last();
        let l = s.last();
        let n = s.len() - 1;
        let mr = m.remove(l.0);
        assert(m.contains_key(s[n].0));
        assert forall|i: int| 0 <= i < t.len() implies #[trigger] mr.contains_key(t[i].0) && mr[t[i].0] == t[i].1 by {
            assert(s[i].0 != s[n].0);
            assert(m.contains_key(s[i].0));
        }
        assert forall|k: Seq<u8>| #[trigger] mr.contains_key(k) implies exists|i: int| 0 <= i < t.len() && t[i].0 == k by {
            let i = choose|i: int| 0 <= i < s.len() && s[i].0 == k;
            assert(t[i].0 == k);
        }
        assert forall|i: int, j: int| 0 <= i < t.len() && 0 <= j < t.len() && i != j implies #[trigger] t[i].0
            != #[trigger] t[j].0 by {
            assert(s[i].0 != s[j].0);
        }
        lemma_map_of_distinct(t, mr);
        assert(mr.insert(l.0, l.1) =~= m);
    }
}

/// Of two saves whose transactions commit one after the other, the durable
/// collection ends with the whole snapshot of the one that committed last,
/// never a mix of the two.
pub proof fn law_last_save_wins(
    d: Map<Seq<u8>, Seq<u8>>,
    first: Seq<ColdOp>,
    m1: Map<Seq<u8>, Seq<u8>>,
    second: Seq<ColdOp>,
    m2: Map<Seq<u8>, Seq<u8>>,
)
    requires
        saves(first, m1),
        saves(second, m2),
    ensures
        durable_after(durable_after(d, ops_view(first)), ops_view(second)) == m2,
{
    law_save_replaces(durable_after(d, ops_view(first)), second, m2);
}

} // verus!
