//! Batches of writes, applied in order.
use vstd::prelude::*;

verus! {

/// One write of a batch.
pub enum DbOp {
    /// Stores a value under a key.
    Insert(Vec<u8>, Vec<u8>),
    /// Removes a key.
    Remove(Vec<u8>),
}

/// The contents `m` after one write.
pub open spec fn apply_op(m: Map<Seq<u8>, Seq<u8>>, op: DbOp) -> Map<Seq<u8>, Seq<u8>> {
    match op {
        DbOp::Insert(k, v) => m.insert(k@, v@),
        DbOp::Remove(k) => m.remove(k@),
    }
}

/// The contents `m` after the writes of `ops`, first to last.
pub open spec fn apply_ops(m: Map<Seq<u8>, Seq<u8>>, ops: Seq<DbOp>) -> Map<Seq<u8>, Seq<u8>>
    decreases ops.len(),
{
    if ops.len() == 0 {
        m
    } else {
        apply_op(apply_ops(m, ops.drop_last()), ops.last())
    }
}

/// The contents that a list of entries gives when they are stored one
/// after the other: where a key comes twice, the later value stands.
pub open spec fn map_of_pairs(s: Seq<(Seq<u8>, Seq<u8>)>) -> Map<Seq<u8>, Seq<u8>>
    decreases s.len(),
{
    if s.len() == 0 {
        Map::empty()
    } else {
        map_of_pairs(s.drop_last()).insert(s.last().0, s.last().1)
    }
}

} // verus!
