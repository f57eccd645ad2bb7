use std::collections::HashMap;
use asmt::btree::node::{Items, Node};
use asmt::mvcc::gc::{remove_dead_version, retain_active_txd};
use asmt::mvcc::snapshot::fetch_serializable_btree;
use asmt::mvcc::versions::{duplicate_versions, version_equal, Version, VersionInfo, VersionStatus};
use asmt::mvcc::visibility::{fetch_versions_for_key, select_key};
use asmt::transactions::transactions::{TransactionItems, TransactionStatus};

fn ver(value: &str, xmin: u32, xmax: Option<u32>) -> Version {
    Version {
        value: value.to_string(),
        xmin,
        xmax,
        version_info: VersionInfo { version_status: VersionStatus::Active, vid: 0 },
    }
}

fn one_key(key: u32, versions: Vec<Version>) -> Node {
    Node { input: vec![Items { key, rank: 1, version: versions }], rank: 1, children: Vec::new() }
}

fn status(s: TransactionStatus) -> TransactionItems {
    TransactionItems { status: s, last_txd: 0, modified_keys: Vec::new(), visible_max: 0 }
}

#[test]
fn retain_active_txd_drops_versions_ended_before_the_oldest() {
    let mut n = one_key(1, vec![ver("a", 1, Some(2)), ver("b", 2, Some(5)), ver("c", 5, None)]);
    retain_active_txd(&mut n, 4);
    let values: Vec<&str> = n.input[0].version.iter().map(|v| v.value.as_str()).collect();
    assert_eq!(values, vec!["b", "c"]);
}

#[test]
fn remove_dead_version_reaches_every_node() {
    let child = one_key(9, vec![ver("old", 1, Some(1)), ver("new", 1, None)]);
    let mut n = one_key(5, vec![ver("x", 1, Some(2)), ver("y", 2, None)]);
    n.children.push(child);
    remove_dead_version(&mut n, 3);
    assert_eq!(n.input[0].version.len(), 1);
    assert_eq!(n.input[0].version[0].value, "y");
    assert_eq!(n.children[0].input[0].version.len(), 1);
    assert_eq!(n.children[0].input[0].version[0].value, "new");
}

#[test]
fn remove_dead_version_twice_is_the_same_as_once() {
    let mut once = one_key(5, vec![ver("x", 1, Some(2)), ver("y", 2, Some(7)), ver("z", 7, None)]);
    remove_dead_version(&mut once, 3);
    let mut twice = one_key(5, vec![ver("x", 1, Some(2)), ver("y", 2, Some(7)), ver("z", 7, None)]);
    remove_dead_version(&mut twice, 3);
    remove_dead_version(&mut twice, 3);
    assert_eq!(once.input[0].version, twice.input[0].version);
}

#[test]
fn snapshot_forgets_later_ends_and_drops_later_versions() {
    let mut n = one_key(1, vec![ver("a", 1, Some(2)), ver("b", 2, Some(6)), ver("c", 6, None)]);
    fetch_serializable_btree(&mut n, 4);
    let vs = &n.input[0].version;
    assert_eq!(vs.len(), 2);
    assert_eq!((vs[0].value.as_str(), vs[0].xmax), ("a", Some(2)));
    assert_eq!((vs[1].value.as_str(), vs[1].xmax), ("b", None));
}

#[test]
fn snapshot_twice_is_the_same_as_once() {
    let mut once = one_key(1, vec![ver("a", 1, Some(3)), ver("b", 3, Some(9)), ver("c", 9, None)]);
    fetch_serializable_btree(&mut once, 4);
    let mut twice = one_key(1, vec![ver("a", 1, Some(3)), ver("b", 3, Some(9)), ver("c", 9, None)]);
    fetch_serializable_btree(&mut twice, 4);
    fetch_serializable_btree(&mut twice, 4);
    assert_eq!(once.input[0].version, twice.input[0].version);
}

#[test]
fn fetch_finds_keys_in_children() {
    let mut root = one_key(10, vec![ver("ten", 1, None)]);
    root.children.push(Node { input: vec![Items { key: 3, rank: 2, version: vec![ver("three", 1, None)] }], rank: 2, children: Vec::new() });
    root.children.push(Node { input: vec![Items { key: 20, rank: 2, version: vec![ver("twenty", 1, None)] }], rank: 2, children: Vec::new() });
    assert_eq!(fetch_versions_for_key(&root, 3).unwrap()[0].value, "three");
    assert_eq!(fetch_versions_for_key(&root, 20).unwrap()[0].value, "twenty");
    assert_eq!(fetch_versions_for_key(&root, 10).unwrap()[0].value, "ten");
    assert!(fetch_versions_for_key(&root, 11).is_none());
}

#[test]
fn select_prefers_the_readers_own_live_version() {
    let n = one_key(1, vec![ver("committed", 1, Some(3)), ver("mine", 3, None)]);
    let mut st = HashMap::new();
    st.insert(1, status(TransactionStatus::Committed));
    st.insert(3, status(TransactionStatus::Active));
    assert_eq!(select_key(&n, 1, 2, 3, &st), Some("mine".to_string()));
}

#[test]
fn select_gives_the_newest_visible_committed_version() {
    let n = one_key(1, vec![ver("committed", 1, Some(3)), ver("theirs", 3, None)]);
    let mut st = HashMap::new();
    st.insert(1, status(TransactionStatus::Committed));
    st.insert(3, status(TransactionStatus::Active));
    // Reader 4 with snapshot at 2 sees the committed version, whose end by
    // the still active transaction 3 does not count.
    assert_eq!(select_key(&n, 1, 2, 4, &st), Some("committed".to_string()));
}

#[test]
fn select_of_missing_key_is_none() {
    let n = one_key(1, vec![ver("a", 1, None)]);
    let st = HashMap::new();
    assert_eq!(select_key(&n, 2, 1, 1, &st), None);
}

#[test]
fn version_equal_compares_all_fields() {
    assert!(version_equal(&ver("a", 1, None), &ver("a", 1, None)));
    assert!(!version_equal(&ver("a", 1, None), &ver("a", 1, Some(1))));
    assert!(!version_equal(&ver("a", 1, None), &ver("b", 1, None)));
}

#[test]
fn duplicate_versions_copies_every_version() {
    let vs = vec![ver("a", 1, Some(2)), ver("b", 2, None)];
    assert_eq!(duplicate_versions(&vs), vs);
}
