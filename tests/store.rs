use std::collections::BTreeMap;

use minimint_bridge::batch::DbOp;
use minimint_bridge::bytes::{compare_bytes, has_prefix, KeyOrder};
use minimint_bridge::cold::{replace_all_plan, ColdOp};
use minimint_bridge::hot_store::HotStore;
use minimint_bridge::mirror::WasmDb;

fn b(s: &str) -> Vec<u8> {
    s.as_bytes().to_vec()
}

/// A durable collection kept in a test map: runs one transaction's writes.
fn run_plan(durable: &mut BTreeMap<Vec<u8>, Vec<u8>>, plan: &[ColdOp]) {
    for op in plan {
        match op {
            ColdOp::Clear => durable.clear(),
            ColdOp::Add(k, v) => {
                durable.insert(k.clone(), v.clone());
            }
        }
    }
}

fn read_all(durable: &BTreeMap<Vec<u8>, Vec<u8>>) -> Vec<(Vec<u8>, Vec<u8>)> {
    durable.iter().map(|(k, v)| (k.clone(), v.clone())).collect()
}

fn contents(db: &WasmDb) -> Vec<(Vec<u8>, Vec<u8>)> {
    db.raw_find_by_prefix(&[])
}

#[test]
fn read_your_write() {
    let mut h = HotStore::new();
    assert_eq!(h.insert(b"k", b("v1")), None);
    assert_eq!(h.get(b"k"), Some(b("v1")));
    assert_eq!(h.insert(b"k", b("v2")), Some(b("v1")));
    assert_eq!(h.get(b"k"), Some(b("v2")));
    assert_eq!(h.get(b"other"), None);
}

#[test]
fn remove_clears_and_returns_previous() {
    let mut h = HotStore::new();
    h.insert(b"a", b("1"));
    h.insert(b"b", b("2"));
    assert_eq!(h.remove(b"a"), Some(b("1")));
    assert_eq!(h.get(b"a"), None);
    assert_eq!(h.get(b"b"), Some(b("2")));
    assert_eq!(h.remove(b"a"), None);
    assert_eq!(h.remove(b"missing"), None);
}

#[test]
fn batch_later_insert_wins() {
    let mut h = HotStore::new();
    h.apply_batch(&vec![DbOp::Insert(b("k"), b("v1")), DbOp::Insert(b("k"), b("v2"))]);
    assert_eq!(h.get(b"k"), Some(b("v2")));
}

#[test]
fn batch_applies_in_order() {
    let mut h = HotStore::new();
    h.insert(b"x", b("0"));
    h.apply_batch(&vec![
        DbOp::Insert(b("k"), b("v1")),
        DbOp::Remove(b("k")),
        DbOp::Remove(b("x")),
        DbOp::Insert(b("y"), b("9")),
    ]);
    assert_eq!(h.get(b"k"), None);
    assert_eq!(h.get(b"x"), None);
    assert_eq!(h.get(b"y"), Some(b("9")));
}

#[test]
fn scan_by_prefix_filters_and_orders() {
    let mut h = HotStore::new();
    for k in ["pb", "a", "p", "pa", "q", "pab", "o"] {
        h.insert(k.as_bytes(), b(&format!("v{}", k)));
    }
    h.insert(&[b'p', 0xff], b("high"));
    let got = h.scan_by_prefix(b"p");
    let keys: Vec<Vec<u8>> = got.iter().map(|e| e.0.clone()).collect();
    assert_eq!(keys, vec![b("p"), b("pa"), b("pab"), b("pb"), vec![b'p', 0xff]]);
    assert_eq!(got[1], (b("pa"), b("vpa")));
    let got = h.scan_by_prefix(b"pa");
    assert_eq!(got, vec![(b("pa"), b("vpa")), (b("pab"), b("vpab"))]);
}

#[test]
fn scan_without_match_is_empty() {
    let mut h = HotStore::new();
    h.insert(b"abc", b("1"));
    assert!(h.scan_by_prefix(b"b").is_empty());
    assert!(h.scan_by_prefix(b"abcd").is_empty());
    assert!(HotStore::new().scan_by_prefix(b"").is_empty());
}

#[test]
fn scan_empty_prefix_gives_everything() {
    let mut h = HotStore::new();
    h.insert(b"b", b("2"));
    h.insert(b"a", b("1"));
    h.insert(b"", b("0"));
    assert_eq!(
        h.scan_by_prefix(b""),
        vec![(b(""), b("0")), (b("a"), b("1")), (b("b"), b("2"))]
    );
}

#[test]
fn save_plan_clears_then_adds_in_key_order() {
    let db = WasmDb::load("n".to_string(), &vec![(b("b"), b("2")), (b("a"), b("1"))]);
    let plan = db.save();
    assert_eq!(plan.len(), 3);
    assert!(matches!(plan[0], ColdOp::Clear));
    match &plan[1] {
        ColdOp::Add(k, v) => assert_eq!((k.clone(), v.clone()), (b("a"), b("1"))),
        ColdOp::Clear => panic!("expected an add"),
    }
    match &plan[2] {
        ColdOp::Add(k, v) => assert_eq!((k.clone(), v.clone()), (b("b"), b("2"))),
        ColdOp::Clear => panic!("expected an add"),
    }
}

#[test]
fn replace_all_plan_keeps_given_order() {
    let plan = replace_all_plan(&vec![(b("z"), b("1")), (b("a"), b("2"))]);
    assert_eq!(plan.len(), 3);
    assert!(matches!(plan[0], ColdOp::Clear));
    assert!(matches!(&plan[1], ColdOp::Add(k, _) if k == &b("z")));
    assert!(matches!(&plan[2], ColdOp::Add(k, _) if k == &b("a")));
}

#[test]
fn round_trip_through_durable_collection() {
    let mut durable = BTreeMap::new();
    durable.insert(b("stale"), b("old"));
    let mut db = WasmDb::load("store".to_string(), &read_all(&durable));
    db.raw_insert_entry(b"k1", b("v1"));
    db.raw_insert_entry(&[0, 1, 2], vec![3, 4]);
    let before = contents(&db);
    run_plan(&mut durable, &db.save());
    let fresh = WasmDb::load("store".to_string(), &read_all(&durable));
    assert_eq!(contents(&fresh), before);
}

#[test]
fn concrete_save_load_scenario() {
    let mut durable = BTreeMap::new();
    let mut db = WasmDb::load("main".to_string(), &Vec::new());
    db.raw_insert_entry(b"a", b("1"));
    db.raw_insert_entry(b"b", b("2"));
    run_plan(&mut durable, &db.save());
    let fresh = WasmDb::load("main".to_string(), &read_all(&durable));
    assert_eq!(contents(&fresh), vec![(b("a"), b("1")), (b("b"), b("2"))]);

    db.raw_remove_entry(b"a");
    run_plan(&mut durable, &db.save());
    let fresh = WasmDb::load("main".to_string(), &read_all(&durable));
    assert_eq!(contents(&fresh), vec![(b("b"), b("2"))]);
}

#[test]
fn save_leaves_no_removed_entries() {
    let mut durable = BTreeMap::new();
    durable.insert(b("gone"), b("x"));
    durable.insert(b("kept"), b("y"));
    let mut db = WasmDb::load("s".to_string(), &read_all(&durable));
    let (removed, plan) = db.raw_remove_entry(b"gone");
    assert_eq!(removed, Some(b("x")));
    run_plan(&mut durable, &plan);
    assert_eq!(read_all(&durable), vec![(b("kept"), b("y"))]);
}

#[test]
fn overlapping_saves_leave_one_whole_snapshot() {
    let mut db = WasmDb::load("r".to_string(), &Vec::new());
    let (_, first) = db.raw_insert_entry(b"a", b("1"));
    let (_, second) = db.raw_insert_entry(b"b", b("2"));
    let snap_first = vec![(b("a"), b("1"))];
    let snap_second = vec![(b("a"), b("1")), (b("b"), b("2"))];

    let mut in_order = BTreeMap::new();
    run_plan(&mut in_order, &first);
    run_plan(&mut in_order, &second);
    assert_eq!(read_all(&in_order), snap_second);

    let mut reversed = BTreeMap::new();
    run_plan(&mut reversed, &second);
    run_plan(&mut reversed, &first);
    assert_eq!(read_all(&reversed), snap_first);
}

#[test]
fn mutations_return_plan_of_new_contents() {
    let mut db = WasmDb::load("m".to_string(), &vec![(b("a"), b("1"))]);
    let plan = db.raw_apply_batch(&vec![DbOp::Remove(b("a")), DbOp::Insert(b("c"), b("3"))]);
    let mut durable = BTreeMap::new();
    durable.insert(b("zz"), b("leftover"));
    run_plan(&mut durable, &plan);
    assert_eq!(read_all(&durable), vec![(b("c"), b("3"))]);
    assert_eq!(db.raw_get_value(b"c"), Some(b("3")));
    assert_eq!(db.raw_get_value(b"a"), None);
}

#[test]
fn clone_copies_memory_independently() {
    let mut db = WasmDb::load("c".to_string(), &Vec::new());
    db.raw_insert_entry(b"a", b("1"));
    let mut copy = db.clone();
    copy.raw_insert_entry(b"b", b("2"));
    db.raw_remove_entry(b"a");
    assert_eq!(contents(&copy), vec![(b("a"), b("1")), (b("b"), b("2"))]);
    assert!(contents(&db).is_empty());
}

#[test]
fn load_later_duplicate_wins() {
    let db = WasmDb::load("d".to_string(), &vec![(b("k"), b("1")), (b("k"), b("2"))]);
    assert_eq!(contents(&db), vec![(b("k"), b("2"))]);
}

#[test]
fn byte_order_and_prefixes() {
    assert!(matches!(compare_bytes(b"a", b"ab"), KeyOrder::Less));
    assert!(matches!(compare_bytes(b"b", b"ab"), KeyOrder::Greater));
    assert!(matches!(compare_bytes(b"ab", b"ab"), KeyOrder::Equal));
    assert!(matches!(compare_bytes(b"", b""), KeyOrder::Equal));
    assert!(matches!(compare_bytes(&[0x7f], &[0x80]), KeyOrder::Less));
    assert!(has_prefix(b"abc", b"ab"));
    assert!(has_prefix(b"abc", b""));
    assert!(!has_prefix(b"ab", b"abc"));
    assert!(!has_prefix(b"abc", b"b"));
}

#[test]
fn clone_keeps_collection_name() {
    let db = WasmDb::load("wallet".to_string(), &Vec::new());
    assert_eq!(db.idb_name(), "wallet");
    assert_eq!(db.clone().idb_name(), "wallet");
}
