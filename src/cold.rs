//! The durable collection's side: the writes that replace its whole
//! contents with a snapshot, and what those writes leave behind.
use vstd::prelude::*;

use crate::batch::map_of_pairs;
use crate::hot_store::pairs_view;

verus! {

/// One write against the durable collection, inside a single write
/// transaction.
pub enum ColdOp {
    /// Removes every entry.
    Clear,
    /// Adds an entry under a key.
    Add(Vec<u8>, Vec<u8>),
}

/// A write as plain values: `None` for a clear, the pair for an add.
pub open spec fn op_view(op: ColdOp) -> Option<(Seq<u8>, Seq<u8>)> {
    match op {
        ColdOp::Clear => None,
        ColdOp::Add(k, v) => Some((k@, v@)),
    }
}

/// A list of writes as plain values.
pub open spec fn ops_view(ops: Seq<ColdOp>) -> Seq<Option<(Seq<u8>, Seq<u8>)>> {
    ops.map_values(|op: ColdOp| op_view(op))
}

/// What the durable collection holds after the writes `ops`, first to
/// last, starting from the contents `d`.
pub open spec fn durable_after(
    d: Map<Seq<u8>, Seq<u8>>,
    ops: Seq<Option<(Seq<u8>, Seq<u8>)>>,
) -> Map<Seq<u8>, Seq<u8>>
    decreases ops.len(),
{
    if ops.len() == 0 {
        d
    } else {
        let before = durable_after(d, ops.drop_last());
        match ops.last() {
            None => Map::empty(),
            Some(p) => before.insert(p.0, p.1),
        }
    }
}

/// The writes that replace the collection by `s`: a clear, then one add
/// per entry of `s`, in order.
pub open spec fn replace_ops(s: Seq<(Seq<u8>, Seq<u8>)>) -> Seq<Option<(Seq<u8>, Seq<u8>)>> {
    seq![None].add(s.map_values(|p: (Seq<u8>, Seq<u8>)| Some(p)))
}

/// The writes that replace the durable collection by `entries`: a clear,
/// then one add per entry, in the given order.
pub fn replace_all_plan(entries: &Vec<(Vec<u8>, Vec<u8>)>) -> (r: Vec<ColdOp>)
    ensures
        ops_view(r@) == replace_ops(pairs_view(entries@)),
{
    let mut r: Vec<ColdOp> = Vec::new();
    r.push(ColdOp::Clear);
    let n = entries.len();
    let mut i: usize = 0;
    proof {
        assert(ops_view(r@) =~= replace_ops(pairs_view(entries@).take(0)));
    }
    while i < n
        invariant
            n == entries@.len(),
            i <= n,
            ops_view(r@) == replace_ops(pairs_view(entries@).take(i as int)),
        decreases n - i,
    {
        let k = crate::hot_store::copy_bytes(entries[i].0.as_slice());
        let v = crate::hot_store::copy_bytes(entries[i].1.as_slice());
        let ghost before = ops_view(r@);
        r.push(ColdOp::Add(k, v));
        proof {
            assert(ops_view(r@) =~= before.push(Some(pairs_view(entries@)[i as int])));
            assert(pairs_view(entries@).take(i + 1) =~= pairs_view(entries@).take(i as int).push(
                pairs_view(entries@)[i as int],
            ));
            assert(replace_ops(pairs_view(entries@).take(i + 1)) =~= replace_ops(
                pairs_view(entries@).take(i as int),
            ).push(Some(pairs_view(entries@)[i as int])));
        }
        i = i + 1;
    }
    proof {
        assert(pairs_view(entries@).take(n as int) =~= pairs_view(entries@));
    }
    r
}

/// Replaying a replacement leaves exactly the replacing entries, whatever
/// the collection held before.
pub proof fn lemma_replace_ops(d: Map<Seq<u8>, Seq<u8>>, s: Seq<(Seq<u8>, Seq<u8>)>)
    ensures
        durable_after(d, replace_ops(s)) == map_of_pairs(s),
    decreases s.len(),
{
    if s.len() == 0 {
        assert(replace_ops(s).drop_last() =~= Seq::<Option<(Seq<u8>, Seq<u8>)>>::empty());
        assert(durable_after(d, replace_ops(s)) =~= Map::<Seq<u8>, Seq<u8>>::empty());
    } else {
        lemma_replace_ops(d, s.drop_last());
        assert(replace_ops(s).drop_last() =~= replace_ops(s.drop_last()));
    }
}

} // verus!
