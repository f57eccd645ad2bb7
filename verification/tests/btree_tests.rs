use asmt::btree::node::{Items, Node};
use asmt::mvcc::versions::{Version, VersionInfo, VersionStatus};
use asmt::mvcc::visibility::fetch_versions_for_key;

fn live(value: &str, xmin: u32) -> Version {
    Version {
        value: value.to_string(),
        xmin,
        xmax: None,
        version_info: VersionInfo { version_status: VersionStatus::Active, vid: 0 },
    }
}

fn item(key: u32, rank: u32, versions: Vec<Version>) -> Items {
    Items { key, rank, version: versions }
}

fn leaf(rank: u32, keys: &[u32]) -> Node {
    Node {
        input: keys.iter().map(|k| item(*k, rank, vec![live("v", 1)])).collect(),
        rank,
        children: Vec::new(),
    }
}

#[test]
fn new_node_is_an_empty_root() {
    let n = Node::new();
    assert_eq!(n.rank, 1);
    assert!(n.input.is_empty());
    assert!(n.children.is_empty());
}

#[test]
fn insert_into_empty_tree_adds_one_live_version() {
    let mut n = Node::new();
    let added = Node::insert(&mut n, 5, "a".to_string(), 1, 4);
    assert!(added);
    let vs = fetch_versions_for_key(&n, 5).expect("key present");
    assert_eq!(vs.len(), 1);
    assert_eq!(vs[0].value, "a");
    assert_eq!(vs[0].xmin, 1);
    assert_eq!(vs[0].xmax, None);
}

#[test]
fn insert_of_present_key_writes_a_new_version() {
    let mut n = Node::new();
    assert!(Node::insert(&mut n, 5, "a".to_string(), 1, 4));
    let added = Node::insert(&mut n, 5, "b".to_string(), 2, 4);
    assert!(!added);
    let vs = fetch_versions_for_key(&n, 5).expect("key present");
    assert_eq!(vs.len(), 2);
    assert_eq!((vs[0].value.as_str(), vs[0].xmin, vs[0].xmax), ("a", 1, Some(2)));
    assert_eq!((vs[1].value.as_str(), vs[1].xmin, vs[1].xmax), ("b", 2, None));
}

#[test]
fn several_inserts_keep_every_key_readable() {
    let mut n = Node::new();
    for k in [3u32, 1, 2] {
        assert!(Node::insert(&mut n, k, format!("v{}", k), 1, 4));
    }
    for k in [1u32, 2, 3] {
        let vs = fetch_versions_for_key(&n, k).expect("key present");
        assert_eq!(vs.last().unwrap().value, format!("v{}", k));
    }
    assert_eq!(fetch_versions_for_key(&n, 4).is_none(), true);
}

#[test]
fn delete_ends_the_newest_version_with_its_own_creator() {
    let mut n = Node::new();
    Node::insert(&mut n, 9, "x".to_string(), 3, 4);
    let r = Node::find_and_update_key_version(&mut n, 9, None, 7, true);
    assert_eq!(r, Some(()));
    let vs = fetch_versions_for_key(&n, 9).unwrap();
    assert_eq!(vs.len(), 1);
    assert_eq!(vs[0].xmax, Some(3));
}

#[test]
fn update_of_missing_key_changes_nothing() {
    let mut n = Node::new();
    Node::insert(&mut n, 9, "x".to_string(), 3, 4);
    let r = Node::find_and_update_key_version(&mut n, 10, Some("y".to_string()), 4, false);
    assert_eq!(r, None);
    assert_eq!(n.input.len(), 1);
    assert_eq!(n.input[0].version.len(), 1);
    assert_eq!(n.input[0].version[0].xmax, None);
}

#[test]
fn update_reopens_the_version_before() {
    let mut n = Node::new();
    Node::insert(&mut n, 4, "a".to_string(), 1, 4);
    Node::find_and_update_key_version(&mut n, 4, Some("b".to_string()), 2, false);
    Node::find_and_update_key_version(&mut n, 4, Some("c".to_string()), 3, false);
    let vs = fetch_versions_for_key(&n, 4).unwrap();
    let ends: Vec<Option<u32>> = vs.iter().map(|v| v.xmax).collect();
    // Writing "c" ends "b" and reopens "a".
    assert_eq!(ends, vec![None, Some(3), None]);
}

#[test]
fn sort_main_nodes_orders_keys() {
    let mut n = leaf(1, &[7, 2, 5]);
    Node::sort_main_nodes(&mut n);
    let keys: Vec<u32> = n.input.iter().map(|i| i.key).collect();
    assert_eq!(keys, vec![2, 5, 7]);
}

#[test]
fn sort_children_nodes_orders_children_by_first_key() {
    let mut n = Node { input: vec![item(10, 1, vec![live("r", 1)])], rank: 1, children: vec![leaf(2, &[20]), leaf(2, &[3])] };
    Node::sort_children_nodes(&mut n);
    assert_eq!(n.children[0].input[0].key, 3);
    assert_eq!(n.children[1].input[0].key, 20);
}

#[test]
fn sort_everything_sorts_every_level() {
    let mut n = Node {
        input: vec![item(10, 1, vec![live("r", 1)])],
        rank: 1,
        children: vec![leaf(2, &[30, 20]), leaf(2, &[4, 3])],
    };
    Node::sort_everything(&mut n);
    assert_eq!(n.children[0].input.iter().map(|i| i.key).collect::<Vec<_>>(), vec![3, 4]);
    assert_eq!(n.children[1].input.iter().map(|i| i.key).collect::<Vec<_>>(), vec![20, 30]);
}

#[test]
fn rank_correction_renumbers_levels() {
    let mut n = Node { input: vec![item(10, 9, vec![live("r", 1)])], rank: 1, children: vec![leaf(7, &[3]), leaf(7, &[20])] };
    Node::rank_correction(&mut n);
    assert_eq!(n.children[0].rank, 2);
    assert_eq!(n.children[1].rank, 2);
    assert_eq!(n.children[0].input[0].rank, 2);
}

#[test]
fn split_nodes_keeps_every_key() {
    let mut n = leaf(1, &[1, 2, 3, 4, 5]);
    Node::split_nodes(&mut n);
    let mut keys: Vec<u32> = n.input.iter().map(|i| i.key).collect();
    for c in &n.children {
        keys.extend(c.input.iter().map(|i| i.key));
    }
    keys.sort();
    assert_eq!(keys, vec![1, 2, 3, 4, 5]);
}

#[test]
fn items_equals_compares_every_field() {
    let a = item(1, 1, vec![live("v", 1)]);
    let b = item(1, 1, vec![live("v", 1)]);
    let c = item(1, 1, vec![live("w", 1)]);
    assert!(a.equals(&b));
    assert!(!a.equals(&c));
}

fn keys_of(n: &Node) -> Vec<u32> {
    n.input.iter().map(|i| i.key).collect()
}

#[test]
fn inserting_five_keys_splits_the_root() {
    let mut n = Node::new();
    for k in 1u32..=5 {
        assert!(Node::insert(&mut n, k, "v".to_string(), 1, 4));
    }
    assert_eq!(keys_of(&n), vec![3]);
    assert_eq!(n.children.len(), 2);
    assert_eq!(keys_of(&n.children[0]), vec![1, 2]);
    assert_eq!(keys_of(&n.children[1]), vec![4, 5]);
    assert_eq!(n.children[0].rank, 2);
    for k in 1u32..=5 {
        assert!(fetch_versions_for_key(&n, k).is_some());
    }
}

#[test]
fn inserting_eight_keys_lifts_the_middle_of_the_full_leaf() {
    let mut n = Node::new();
    for k in 1u32..=8 {
        assert!(Node::insert(&mut n, k, "v".to_string(), 1, 4));
    }
    assert_eq!(keys_of(&n), vec![3, 6]);
    assert_eq!(n.children.iter().map(keys_of).collect::<Vec<_>>(), vec![vec![1, 2], vec![4, 5], vec![7, 8]]);
    assert!(n.children.iter().all(|c| c.rank == 2 && c.input.iter().all(|i| i.rank == 2)));
    for k in 1u32..=8 {
        assert!(fetch_versions_for_key(&n, k).is_some());
    }
}

#[test]
fn split_nodes_keeps_the_middle_key() {
    let mut n = leaf(1, &[5, 1, 4, 2, 3]);
    Node::split_nodes(&mut n);
    assert_eq!(keys_of(&n), vec![3]);
    assert_eq!(keys_of(&n.children[0]), vec![1, 2]);
    assert_eq!(keys_of(&n.children[1]), vec![4, 5]);
    assert_eq!(n.children[1].rank, 2);
    assert_eq!(n.children[1].input[0].rank, 2);
}

#[test]
fn overflow_check_splits_only_overfull_nodes() {
    let mut n = leaf(1, &[1, 2, 3, 4]);
    Node::overflow_check(&mut n, 4);
    assert_eq!(keys_of(&n), vec![1, 2, 3, 4]);
    assert!(n.children.is_empty());
    let mut n = leaf(1, &[1, 2, 3, 4, 5]);
    Node::overflow_check(&mut n, 4);
    assert_eq!(keys_of(&n), vec![3]);
    assert_eq!(n.children.len(), 2);
}

#[test]
fn propagate_up_lifts_a_child_into_its_parent() {
    let mut n = Node { input: vec![item(10, 1, vec![live("r", 1)])], rank: 1, children: vec![leaf(2, &[3]), leaf(2, &[20])] };
    Node::propagate_up(&mut n, 0);
    assert_eq!(keys_of(&n), vec![3, 10]);
    assert_eq!(n.input[0].rank, 1);
    assert_eq!(n.children.len(), 1);
    assert_eq!(keys_of(&n.children[0]), vec![20]);
}

#[test]
fn min_size_check_lifts_underfull_children() {
    let mut n = Node { input: vec![item(10, 1, vec![live("r", 1)])], rank: 1, children: vec![leaf(2, &[3]), leaf(2, &[20, 21])] };
    Node::min_size_check(&mut n, 4);
    assert_eq!(keys_of(&n), vec![3, 10]);
    assert_eq!(n.children.len(), 1);
    assert_eq!(keys_of(&n.children[0]), vec![20, 21]);
}

fn pair(a: u32, b: u32) -> Node {
    leaf(2, &[a, b])
}

#[test]
fn fix_child_count_mismatch_regroups_children_under_the_overlapping_ones() {
    let mut n = Node {
        input: vec![item(754, 1, vec![live("r", 1)])],
        rank: 1,
        children: vec![
            pair(7, 9),
            pair(410, 480),
            pair(615, 627),
            pair(786, 809),
            pair(847, 879),
            pair(940, 942),
            pair(365, 577),
            pair(839, 881),
        ],
    };
    Node::fix_child_count_mismatch(&mut n);
    assert_eq!(n.children.iter().map(keys_of).collect::<Vec<_>>(), vec![vec![365, 577], vec![839, 881]]);
    assert_eq!(n.children[0].children.iter().map(keys_of).collect::<Vec<_>>(), vec![vec![7, 9], vec![410, 480], vec![615, 627]]);
    assert_eq!(n.children[1].children.iter().map(keys_of).collect::<Vec<_>>(), vec![vec![786, 809], vec![847, 879], vec![940, 942]]);
}

#[test]
fn child_overflow_repairs_a_node_with_too_many_children() {
    let mut n = Node {
        input: vec![item(754, 1, vec![live("r", 1)])],
        rank: 1,
        children: vec![pair(7, 9), pair(786, 809), pair(365, 577), pair(839, 881)],
    };
    Node::child_overflow(&mut n);
    assert_eq!(n.children.iter().map(keys_of).collect::<Vec<_>>(), vec![vec![365, 577], vec![839, 881]]);
    assert_eq!(n.children[0].children.iter().map(keys_of).collect::<Vec<_>>(), vec![vec![7, 9]]);
    assert_eq!(n.children[1].children.iter().map(keys_of).collect::<Vec<_>>(), vec![vec![786, 809]]);
}

#[test]
fn validate_after_mutation_leaves_a_sound_tree_alone() {
    let mut n = Node { input: vec![item(3, 1, vec![live("r", 1)])], rank: 1, children: vec![leaf(2, &[1, 2]), leaf(2, &[4, 5])] };
    Node::validate_after_mutation(&mut n, 4);
    assert_eq!(keys_of(&n), vec![3]);
    assert_eq!(n.children.iter().map(keys_of).collect::<Vec<_>>(), vec![vec![1, 2], vec![4, 5]]);
}

#[test]
fn duplicate_copies_the_whole_tree() {
    let n = Node { input: vec![item(3, 1, vec![live("r", 1)])], rank: 1, children: vec![leaf(2, &[1, 2]), leaf(2, &[4, 5])] };
    let d = n.duplicate();
    assert_eq!(keys_of(&d), vec![3]);
    assert_eq!(d.children.iter().map(keys_of).collect::<Vec<_>>(), vec![vec![1, 2], vec![4, 5]]);
    assert_eq!(d.input, n.input);
}

#[test]
fn try_insert_reports_a_tree_it_cannot_repair() {
    // A node with children but no keys cannot route the new key.
    let mut n = Node { input: Vec::new(), rank: 1, children: vec![leaf(2, &[1])] };
    assert_eq!(Node::try_insert(&mut n, 5, "v".to_string(), 1, 4), None);
}

#[test]
fn try_insert_on_a_sound_tree_matches_insert() {
    let mut a = Node::new();
    let mut b = Node::new();
    for k in [4u32, 9, 1, 7, 3] {
        let x = Node::try_insert(&mut a, k, "v".to_string(), 2, 4);
        let y = Node::insert(&mut b, k, "v".to_string(), 2, 4);
        assert_eq!(x, Some(y));
    }
    assert_eq!(keys_of(&a), keys_of(&b));
    assert_eq!(a.children.iter().map(keys_of).collect::<Vec<_>>(), b.children.iter().map(keys_of).collect::<Vec<_>>());
}

#[test]
fn can_write_and_can_search_follow_the_path() {
    let n = Node { input: vec![item(10, 1, vec![live("r", 1)])], rank: 1, children: vec![leaf(2, &[3]), leaf(2, &[20])] };
    assert!(n.can_write(3));
    assert!(n.can_search(20));
    let empty_key = Node { input: vec![Items { key: 3, rank: 1, version: Vec::new() }], rank: 1, children: Vec::new() };
    assert!(!empty_key.can_write(3));
    let unsorted = leaf(1, &[5, 2]);
    assert!(!unsorted.can_search(2));
    let no_keys = Node { input: Vec::new(), rank: 1, children: vec![leaf(2, &[1])] };
    assert!(!no_keys.can_search(1));
}

#[test]
fn try_fix_child_count_mismatch_needs_keys_in_every_child() {
    let mut n = Node { input: vec![item(10, 1, vec![live("r", 1)])], rank: 1, children: vec![leaf(2, &[]), leaf(2, &[3]), leaf(2, &[20])] };
    assert!(!Node::try_fix_child_count_mismatch(&mut n));
}

#[test]
fn try_validate_on_a_sound_tree_succeeds() {
    let mut n = leaf(1, &[1, 2, 3, 4, 5]);
    assert!(Node::try_validate_after_mutation(&mut n, 4));
    assert_eq!(keys_of(&n), vec![3]);
}

#[test]
fn overflow_at_the_largest_rank_cannot_be_split() {
    let n = leaf(u32::MAX, &[1, 2, 3, 4, 5]);
    assert!(!asmt::btree::checks::can_check_overflow(&n, 4));
    assert!(asmt::btree::checks::can_check_overflow(&n, 5));
}

#[test]
fn propagate_up_drops_siblings_that_share_the_first_key() {
    // Folding [3] also drops the sibling [3, 4], so key 4 is lost.
    let mut n = Node { input: vec![item(10, 1, vec![live("r", 1)])], rank: 1, children: vec![leaf(2, &[3]), leaf(2, &[3, 4])] };
    Node::propagate_up(&mut n, 0);
    assert_eq!(keys_of(&n), vec![3, 10]);
    assert!(n.children.is_empty());
}

/// Checks the B-tree shape: keys strictly ascending, at most `m` keys, at
/// least `m / 2` below the root, one child more than keys, each child's keys
/// in its gap, ranks one per level from 1, every leaf at one depth.
fn check_btree(n: &Node, depth: u32, lo: Option<u32>, hi: Option<u32>, m: usize, root: bool, leaf_depth: &mut Option<u32>) -> bool {
    let keys = keys_of(n);
    if keys.windows(2).any(|w| w[0] >= w[1]) || keys.len() > m || (!root && keys.len() < m / 2) {
        return false;
    }
    if n.rank != depth + 1 || n.input.iter().any(|i| i.rank != n.rank) {
        return false;
    }
    if keys.iter().any(|k| lo.map_or(false, |l| *k <= l) || hi.map_or(false, |h| *k >= h)) {
        return false;
    }
    if n.children.is_empty() {
        match *leaf_depth {
            None => {
                *leaf_depth = Some(depth);
                return true;
            }
            Some(d) => return d == depth,
        }
    }
    if n.children.len() != keys.len() + 1 {
        return false;
    }
    n.children.iter().enumerate().all(|(i, c)| {
        let l = if i == 0 { lo } else { Some(keys[i - 1]) };
        let h = if i == keys.len() { hi } else { Some(keys[i]) };
        check_btree(c, depth + 1, l, h, m, false, leaf_depth)
    })
}

fn is_valid_btree(n: &Node, m: usize) -> bool {
    check_btree(n, 0, None, None, m, true, &mut None)
}

fn tree_of_inserts(keys: &[u32]) -> Node {
    let mut n = Node::new();
    for k in keys {
        Node::insert(&mut n, *k, "v".to_string(), 1, 4);
    }
    n
}

#[test]
fn insert_into_a_leaf_with_room_keeps_a_valid_btree() {
    let mut n = tree_of_inserts(&[10, 20, 30, 40, 50, 60, 70]);
    assert!(is_valid_btree(&n, 4));
    // 25 goes to a leaf that holds fewer than four keys
    let inserted = Node::insert(&mut n, 25, "w".to_string(), 2, 4);
    assert!(inserted);
    assert!(is_valid_btree(&n, 4));
    assert_eq!(fetch_versions_for_key(&n, 25).unwrap()[0].value, "w");
    for k in [10, 20, 30, 40, 50, 60, 70] {
        assert!(fetch_versions_for_key(&n, k).is_some());
    }
}

#[test]
fn insert_of_a_present_key_keeps_a_valid_btree() {
    let mut n = tree_of_inserts(&[10, 20, 30, 40, 50]);
    assert!(is_valid_btree(&n, 4));
    let inserted = Node::insert(&mut n, 30, "w".to_string(), 2, 4);
    assert!(!inserted);
    assert!(is_valid_btree(&n, 4));
    assert_eq!(fetch_versions_for_key(&n, 30).unwrap().len(), 2);
}

#[test]
fn repair_after_an_overflowing_insert_can_leave_an_uneven_tree() {
    let mut n = tree_of_inserts(&[58, 21, 97, 35, 0, 51, 5, 176, 191, 158, 26, 142, 22, 0, 133, 78, 157, 2, 197, 80, 139]);
    assert!(is_valid_btree(&n, 4));
    assert_eq!(keys_of(&n), vec![21, 35, 97, 158]);
    // 117 falls into the full leaf [133, 139, 142, 157]
    Node::insert(&mut n, 117, "v".to_string(), 1, 4);
    assert_eq!(keys_of(&n), vec![97]);
    assert_eq!(n.children.len(), 3);
    assert!(!is_valid_btree(&n, 4));
}

#[test]
fn insert_into_a_full_leaf_under_a_parent_with_room_keeps_a_valid_btree() {
    let mut n = tree_of_inserts(&[10, 20, 30, 40, 50, 60, 70]);
    assert!(is_valid_btree(&n, 4));
    // 80 goes to the full leaf [40, 50, 60, 70]; the root has room
    Node::insert(&mut n, 80, "v".to_string(), 1, 4);
    assert!(is_valid_btree(&n, 4));
    for k in [10, 20, 30, 40, 50, 60, 70, 80] {
        assert!(fetch_versions_for_key(&n, k).is_some());
    }
}

#[test]
fn insert_into_a_full_root_leaf_keeps_a_valid_btree() {
    let mut n = tree_of_inserts(&[40, 10, 30, 20]);
    assert!(is_valid_btree(&n, 4));
    assert!(n.children.is_empty());
    Node::insert(&mut n, 25, "v".to_string(), 1, 4);
    assert!(is_valid_btree(&n, 4));
    assert_eq!(n.children.len(), 2);
}

fn full_root_of_leaves(first: u32) -> Node {
    Node {
        input: [10, 20, 30, 40].iter().map(|k| item(*k, 1, vec![live("v", 1)])).collect(),
        rank: 1,
        children: vec![
            leaf(2, &[first, 2, 3, 4]),
            leaf(2, &[11, 12]),
            leaf(2, &[21, 22]),
            leaf(2, &[31, 32]),
            leaf(2, &[41, 42]),
        ],
    }
}

#[test]
fn insert_whose_split_climbs_into_a_full_root_regroups_the_leaves() {
    let mut n = full_root_of_leaves(1);
    assert!(is_valid_btree(&n, 4));
    assert!(Node::insert(&mut n, 5, "v".to_string(), 1, 4));
    assert!(is_valid_btree(&n, 4));
    assert_eq!(keys_of(&n), vec![20]);
    assert_eq!(n.children.len(), 2);
    assert_eq!(keys_of(&n.children[0]), vec![3, 10]);
    assert_eq!(keys_of(&n.children[1]), vec![30, 40]);
    let lower: Vec<Vec<u32>> = n.children[0].children.iter().map(keys_of).collect();
    let upper: Vec<Vec<u32>> = n.children[1].children.iter().map(keys_of).collect();
    assert_eq!(lower, vec![vec![1, 2], vec![4, 5], vec![11, 12]]);
    assert_eq!(upper, vec![vec![21, 22], vec![31, 32], vec![41, 42]]);
}

#[test]
fn a_key_zero_in_the_first_leaf_stays_under_the_root_after_the_regrouping() {
    let mut n = full_root_of_leaves(0);
    assert!(is_valid_btree(&n, 4));
    Node::insert(&mut n, 5, "v".to_string(), 1, 4);
    assert_eq!(keys_of(&n), vec![20]);
    assert_eq!(n.children.len(), 3);
    assert!(!is_valid_btree(&n, 4));
}
