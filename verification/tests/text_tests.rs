use asmt::btree::node::{Items, Node};
use asmt::btree::visualizer::stats_text;
use asmt::mvcc::versions::{Version, VersionInfo, VersionStatus};
use asmt::text::{digits_of, push_decimal, push_hex, same_text};

fn ver(value: &str, xmin: u32, xmax: Option<u32>) -> Version {
    Version { value: value.to_string(), xmin, xmax, version_info: VersionInfo { version_status: VersionStatus::Active, vid: 0 } }
}

fn small_tree() -> Node {
    let leaf = |k: u32, v: &str| Node { input: vec![Items { key: k, rank: 2, version: vec![ver(v, 1, None)] }], rank: 2, children: Vec::new() };
    Node {
        input: vec![Items { key: 10, rank: 1, version: vec![ver("x", 1, Some(2))] }],
        rank: 1,
        children: vec![leaf(3, "c"), leaf(20, "d")],
    }
}

#[test]
fn numbers_in_decimal_and_hex() {
    let mut s = String::new();
    push_decimal(&mut s, 0);
    push_decimal(&mut s, 1207);
    push_hex(&mut s, 255);
    push_hex(&mut s, 0);
    assert_eq!(s, "01207FF0");
    assert_eq!(digits_of(u64::MAX as u128, 16).iter().collect::<String>(), "FFFFFFFFFFFFFFFF");
}

#[test]
fn same_text_compares_characters() {
    assert!(same_text("abc", "abc"));
    assert!(!same_text("abc", "abd"));
    assert!(!same_text("abc", "ab"));
}

#[test]
fn format_items_and_versions() {
    let t = small_tree();
    assert_eq!(t.format_items(), "10:[\"x\"[1-2]] (r:1)");
    assert_eq!(t.format_versions(&vec![]), "[]");
    assert_eq!(t.format_versions(&vec![ver("a", 1, Some(2)), ver("b", 2, None)]), "[\"a\"[1-2], \"b\"[2-∞]]");
    assert_eq!(Node::new().format_items(), "empty");
}

#[test]
fn tree_drawing_shows_each_node() {
    let t = small_tree();
    let expected = format!(
        "B-Tree Structure (All Versions)\n{}\nRootNode(rank: 1) [10:[\"x\"[1-2]] (r:1)]\n├── Node(rank: 2) [3:[\"c\"[1-∞]] (r:2)]\n└── Node(rank: 2) [20:[\"d\"[1-∞]] (r:2)]\n\n",
        "=".repeat(50)
    );
    assert_eq!(t.print_tree(), expected);
}

#[test]
fn tree_drawing_indents_grandchildren() {
    let mut t = small_tree();
    let g = Node { input: vec![Items { key: 1, rank: 3, version: vec![ver("g", 1, None)] }], rank: 3, children: Vec::new() };
    t.children[0].children.push(g);
    let text = t.print_tree();
    assert!(text.contains("├── Node(rank: 2) [3:[\"c\"[1-∞]] (r:2)]\n│   └── Node(rank: 3) [1:[\"g\"[1-∞]] (r:3)]\n"));
}

#[test]
fn stats_count_the_tree() {
    let s = small_tree().calculate_stats().unwrap();
    assert_eq!((s.total_nodes, s.height, s.total_keys, s.total_versions, s.leaf_nodes, s.internal_nodes), (3, 2, 3, 3, 2, 1));
    assert_eq!(
        stats_text(&s),
        "Tree Statistics:\n├── Total nodes: 3\n├── Tree height: 2\n├── Total keys: 3\n├── Total versions: 3\n├── Leaf nodes: 2\n└── Internal nodes: 1\n\n"
    );
    assert_eq!(small_tree().print_stats().unwrap(), stats_text(&s));
}

#[test]
fn stats_of_an_empty_tree() {
    let s = Node::new().calculate_stats().unwrap();
    assert_eq!((s.total_nodes, s.height, s.total_keys, s.total_versions, s.leaf_nodes, s.internal_nodes), (1, 1, 0, 0, 1, 0));
}

#[test]
fn push_decimal_wide_writes_numbers_past_u64() {
    let mut s = String::from("n=");
    asmt::text::push_decimal_wide(&mut s, u64::MAX as u128 + 1);
    assert_eq!(s, "n=18446744073709551616");
}
