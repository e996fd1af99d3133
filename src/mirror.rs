//! The mirrored store: an in-memory store tied to a named durable
//! collection, which every write refreshes with a whole snapshot.
use vstd::prelude::*;

use crate::batch::{apply_ops, map_of_pairs, DbOp};
use crate::cold::{ops_view, replace_all_plan, replace_ops, ColdOp};
use crate::hot_store::{lists_map, lookup_result, pairs_view, sorted_keys, with_prefix, HotStore};

verus! {

/// `plan` replaces the durable collection by the contents `m`: a clear,
/// then one add per entry of `m`, in ascending key order.
pub open spec fn saves(plan: Seq<ColdOp>, m: Map<Seq<u8>, Seq<u8>>) -> bool {
    exists|s: Seq<(Seq<u8>, Seq<u8>)>|
        sorted_keys(s) && lists_map(s, m) && #[trigger] replace_ops(s) == ops_view(plan)
}

/// A store whose reads are served from memory, mirrored to the durable
/// collection named `idb_name`.
pub struct WasmDb {
    idb_name: String,
    mem_db: HotStore,
}

impl View for WasmDb {
    type V = Map<Seq<u8>, Seq<u8>>;

    closed spec fn view(&self) -> Map<Seq<u8>, Seq<u8>> {
        self.mem_db@
    }
}

impl WasmDb {
    /// The name of the durable collection.
    pub closed spec fn name(&self) -> Seq<char> {
        self.idb_name@
    }

    /// The in-memory store is well formed.
    pub closed spec fn wf(&self) -> bool {
        self.mem_db.wf()
    }

    /// A store over the collection `idb_name`, filled with the entries
    /// `stored` that were read from it, one after the other.
    pub fn load(idb_name: String, stored: &Vec<(Vec<u8>, Vec<u8>)>) -> (r: WasmDb)
        ensures
            r.wf(),
            r.name() == idb_name@,
            r@ == map_of_pairs(pairs_view(stored@)),
    {
        WasmDb { idb_name, mem_db: HotStore::from_pairs(stored) }
    }

    /// The name of the durable collection.
    pub fn idb_name(&self) -> (r: &String)
        ensures
            r@ == self.name(),
    {
        &self.idb_name
    }

    /// A store over the same collection whose memory starts as a copy of
    /// this one's; the durable collection is not read.
    pub fn clone(&self) -> (r: WasmDb)
        requires
            self.wf(),
        ensures
            r.wf(),
            r.name() == self.name(),
            r@ == self@,
    {
        WasmDb { idb_name: self.idb_name.clone(), mem_db: self.mem_db.duplicate() }
    }

    /// The writes that replace the durable collection by the current
    /// contents.
    pub fn save(&self) -> (r: Vec<ColdOp>)
        requires
            self.wf(),
        ensures
            saves(r@, self@),
    {
        let everything: Vec<u8> = Vec::new();
        let snapshot = self.mem_db.scan_by_prefix(everything.as_slice());
        proof {
            assert(everything@ =~= Seq::<u8>::empty());
            lemma_empty_prefix(self@);
        }
        let r = replace_all_plan(&snapshot);
        proof {
            let s = pairs_view(snapshot@);
            assert(sorted_keys(s) && lists_map(s, self@) && replace_ops(s) == ops_view(r@));
        }
        r
    }

    /// The value stored under `key`, if any.
    pub fn raw_get_value(&self, key: &[u8]) -> (r: Option<Vec<u8>>)
        requires
            self.wf(),
        ensures
            lookup_result(self@, key@, r),
    {
        self.mem_db.get(key)
    }

    /// The entries whose keys begin with `key_prefix`, in ascending key
    /// order.
    pub fn raw_find_by_prefix(&self, key_prefix: &[u8]) -> (r: Vec<(Vec<u8>, Vec<u8>)>)
        requires
            self.wf(),
        ensures
            sorted_keys(pairs_view(r@)),
            lists_map(pairs_view(r@), with_prefix(self@, key_prefix@)),
    {
        self.mem_db.scan_by_prefix(key_prefix)
    }

    /// Stores `value` under `key`; returns the value replaced, and the
    /// writes that persist the new contents.
    pub fn raw_insert_entry(&mut self, key: &[u8], value: Vec<u8>) -> (r: (Option<Vec<u8>>, Vec<ColdOp>))
        requires
            old(self).wf(),
        ensures
            final(self).wf(),
            final(self).name() == old(self).name(),
            final(self)@ == old(self)@.insert(key@, value@),
            lookup_result(old(self)@, key@, r.0),
            saves(r.1@, final(self)@),
    {
        let prev = self.mem_db.insert(key, value);
        let plan = self.save();
        (prev, plan)
    }

    /// Removes the entry under `key`; returns its value, if there was one,
    /// and the writes that persist the new contents.
    pub fn raw_remove_entry(&mut self, key: &[u8]) -> (r: (Option<Vec<u8>>, Vec<ColdOp>))
        requires
            old(self).wf(),
        ensures
            final(self).wf(),
            final(self).name() == old(self).name(),
            final(self)@ == old(self)@.remove(key@),
            lookup_result(old(self)@, key@, r.0),
            saves(r.1@, final(self)@),
    {
        let prev = self.mem_db.remove(key);
        let plan = self.save();
        (prev, plan)
    }

    /// Applies the writes of `batch` in order; returns the writes that
    /// persist the new contents.
    pub fn raw_apply_batch(&mut self, batch: &Vec<DbOp>) -> (r: Vec<ColdOp>)
        requires
            old(self).wf(),
        ensures
            final(self).wf(),
            final(self).name() == old(self).name(),
            final(self)@ == apply_ops(old(self)@, batch@),
            saves(r@, final(self)@),
    {
        self.mem_db.apply_batch(batch);
        self.save()
    }
}

/// The empty prefix selects every entry.
pub proof fn lemma_empty_prefix(m: Map<Seq<u8>, Seq<u8>>)
    ensures
        with_prefix(m, Seq::empty()) == m,
{
    assert forall|k: Seq<u8>| #[trigger] m.contains_key(k) implies Seq::<u8>::empty().is_prefix_of(k) by {
        assert(Seq::<u8>::empty() =~= k.subrange(0, 0));
    }
    assert(with_prefix(m, Seq::empty()) =~= m);
}

} // verus!
