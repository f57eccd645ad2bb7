use asmt::btree::node::{Items, Node};
use asmt::mvcc::versions::{Version, VersionInfo, VersionStatus};
use asmt::storage::deser::num_or_str::I32OrString;
use asmt::storage::deser::parse::{get_hierarchical_node, get_key_version_node, try_get_key_version_node};
use asmt::storage::deser::raw::{classify_line, decode_line, get_serialized_file_data, parse_i32, LineKind};
use asmt::storage::deser::reconstruct::{deduplicate_children_recursive, get_node, try_deduplicate_children};
use asmt::storage::deser::tree_nodes::{HierarchicalNode, KeyVersionNode};
use asmt::storage::ser::{serialize_text, utf8_byte_len};

fn ver(value: &str, xmin: u32, xmax: Option<u32>) -> Version {
    Version {
        value: value.to_string(),
        xmin,
        xmax,
        version_info: VersionInfo { version_status: VersionStatus::Active, vid: 0 },
    }
}

fn node(rank: u32, keys: &[(u32, &str)]) -> Node {
    Node {
        input: keys.iter().map(|(k, v)| Items { key: *k, rank, version: vec![ver(v, 1, None)] }).collect(),
        rank,
        children: Vec::new(),
    }
}

fn values(v: &[I32OrString]) -> Vec<String> {
    v.iter()
        .map(|x| match x {
            I32OrString::Num(n) => n.to_string(),
            I32OrString::Str(s) => format!("'{}'", s),
        })
        .collect()
}

fn lines(ls: &[&str]) -> Vec<String> {
    ls.iter().map(|s| s.to_string()).collect()
}

#[test]
fn serialize_single_node() {
    let mut n = node(1, &[]);
    n.input.push(Items { key: 5, rank: 1, version: vec![ver("ab", 1, None)] });
    assert_eq!(serialize_text(&n), "[0]\n[1]\n[1]\n[5][1]\n[1][-][2]\n['a', 'b']\n[0]\n");
}

#[test]
fn serialize_writes_ranks_and_counts_in_hex() {
    let mut n = node(26, &[]);
    n.input.push(Items { key: 12, rank: 26, version: vec![ver("z", 3, Some(4))] });
    assert_eq!(serialize_text(&n), "[0]\n[1A]\n[1]\n[12][1]\n[3][4][1]\n['z']\n[0]\n");
}

#[test]
fn serialize_writes_children_after_their_parent() {
    let mut root = Node { input: vec![Items { key: 10, rank: 1, version: vec![ver("x", 1, Some(2))] }], rank: 1, children: Vec::new() };
    root.children.push(node(2, &[(3, "c")]));
    root.children.push(node(2, &[(20, "d")]));
    let expected = "[0]\n[1]\n[1]\n[10][1]\n[1][2][1]\n['x']\n[2]\n\
                    [2]\n[1]\n[3][1]\n[1][-][1]\n['c']\n[0]\n\
                    [2]\n[1]\n[20][1]\n[1][-][1]\n['d']\n[0]\n";
    assert_eq!(serialize_text(&root), expected);
}

#[test]
fn serialize_counts_value_bytes_and_escapes_characters() {
    let mut n = node(1, &[]);
    n.input.push(Items { key: 1, rank: 1, version: vec![ver("é'", 1, None)] });
    assert_eq!(serialize_text(&n), "[0]\n[1]\n[1]\n[1][1]\n[1][-][3]\n['é', '\\'']\n[0]\n");
}

#[test]
fn classify_lines_by_their_patterns() {
    assert_eq!(classify_line("[5]"), Some(LineKind::Numbers));
    assert_eq!(classify_line("[5][7]"), Some(LineKind::Numbers));
    assert_eq!(classify_line("[1][-][3]"), Some(LineKind::Numbers));
    assert_eq!(classify_line("['a', 'b']"), Some(LineKind::Chars));
    assert_eq!(classify_line("hello"), Some(LineKind::Other));
    assert_eq!(classify_line("[1][2][3][4]"), Some(LineKind::Other));
}

#[test]
fn decode_bracketed_numbers() {
    let v = decode_line("[1][-][3]", LineKind::Numbers).unwrap();
    assert_eq!(values(&v), vec!["1", "-1", "3"]);
    let v = decode_line("[12][+4]", LineKind::Numbers).unwrap();
    // '+' is not kept inside brackets, so the second field reads 4.
    assert_eq!(values(&v), vec!["12", "4"]);
}

#[test]
fn decode_more_than_three_numbers_gives_nothing() {
    let v = decode_line("[1][2][3][4]", LineKind::Numbers).unwrap();
    assert!(v.is_empty());
}

#[test]
fn decode_bad_number_fails() {
    assert!(decode_line("[--1]", LineKind::Numbers).is_none());
    assert!(decode_line("[99999999999]", LineKind::Numbers).is_none());
}

#[test]
fn decode_character_list() {
    let v = decode_line("['h', 'i']", LineKind::Chars).unwrap();
    assert_eq!(values(&v), vec!["'hi'"]);
}

#[test]
fn decode_character_list_with_empty_entry_fails() {
    assert!(decode_line("['', 'i']", LineKind::Chars).is_none());
}

#[test]
fn decode_other_line_gives_nothing() {
    assert!(decode_line("anything", LineKind::Other).unwrap().is_empty());
}

#[test]
fn parse_i32_reads_signs_and_bounds() {
    let c = |s: &str| s.chars().collect::<Vec<char>>();
    assert_eq!(parse_i32(&c("-2147483648")), Some(i32::MIN));
    assert_eq!(parse_i32(&c("2147483647")), Some(i32::MAX));
    assert_eq!(parse_i32(&c("2147483648")), None);
    assert_eq!(parse_i32(&c("+12")), Some(12));
    assert_eq!(parse_i32(&c("-")), None);
    assert_eq!(parse_i32(&c("1-2")), None);
    assert_eq!(parse_i32(&c("")), None);
}

fn two_key_root_lines() -> Vec<String> {
    lines(&["[0]", "[1]", "[2]", "[5][1]", "[1][-][1]", "['a']", "[7][1]", "[2][-][1]", "['b']", "[0]"])
}

#[test]
fn saved_lines_read_into_values() {
    let v = get_serialized_file_data(&two_key_root_lines()).unwrap();
    assert_eq!(values(&v), vec!["0", "1", "2", "5", "1", "1", "-1", "1", "'a'", "7", "1", "2", "-1", "1", "'b'", "0"]);
}

#[test]
fn values_read_into_saved_nodes() {
    let v = get_serialized_file_data(&two_key_root_lines()).unwrap();
    let nodes = get_key_version_node(v);
    assert_eq!(nodes.len(), 1);
    assert_eq!(nodes[0].child_count, 0);
    assert_eq!(nodes[0].items.len(), 2);
    assert_eq!(nodes[0].items[0].key, 5);
    assert_eq!(nodes[0].items[0].rank, 1);
    assert_eq!(nodes[0].items[0].version, vec![ver("a", 1, Some(u32::MAX))]);
    assert_eq!(nodes[0].items[1].key, 7);
    assert_eq!(nodes[0].items[1].version, vec![ver("b", 2, Some(u32::MAX))]);
}

#[test]
fn a_single_key_node_is_never_closed() {
    // With one key, the count of all versions equals that of the last key,
    // so the node's end is not recognised and nothing is finished.
    let v = get_serialized_file_data(&lines(&["[0]", "[1]", "[1]", "[5][1]", "[1][-][1]", "['a']", "[0]"])).unwrap();
    let nodes = try_get_key_version_node(&v).unwrap();
    assert!(nodes.is_empty());
    assert!(Node::deserialize(get_serialized_file_data(&lines(&["[0]", "[1]", "[1]", "[5][1]", "[1][-][1]", "['a']", "[0]"])).unwrap()).is_none());
}

#[test]
fn a_text_where_a_number_belongs_fails() {
    let v = vec![I32OrString::Num(0), I32OrString::Num(1), I32OrString::Str("x".to_string())];
    assert!(try_get_key_version_node(&v).is_none());
}

#[test]
fn deserialize_rebuilds_the_root() {
    let v = get_serialized_file_data(&two_key_root_lines()).unwrap();
    let n = Node::deserialize(v).unwrap();
    assert_eq!(n.rank, 1);
    assert_eq!(n.input.iter().map(|i| i.key).collect::<Vec<_>>(), vec![5, 7]);
    assert!(n.children.is_empty());
}

fn kv(rank: u32, key: u32, child_count: u32) -> KeyVersionNode {
    KeyVersionNode { items: vec![Items { key, rank, version: vec![ver("v", 1, None)] }], child_count }
}

#[test]
fn hierarchical_node_takes_children_one_rank_below() {
    let mut all = vec![kv(1, 10, 2), kv(2, 3, 0), kv(2, 20, 0)];
    let root = kv(1, 10, 2);
    let h = get_hierarchical_node(root, &mut all);
    assert_eq!(h.children.len(), 2);
    assert_eq!(h.children[0].parent.items[0].key, 3);
    assert_eq!(h.children[1].parent.items[0].key, 20);
    assert_eq!(all.len(), 1);
    assert_eq!(all[0].items[0].key, 10);
}

#[test]
fn hierarchical_node_appends_grandchildren_after_children() {
    let mut all = vec![kv(1, 10, 1), kv(2, 5, 1), kv(3, 2, 0)];
    let h = get_hierarchical_node(kv(1, 10, 1), &mut all);
    // The child is first taken alone, then again with what lies under it.
    assert_eq!(h.children.len(), 2);
    assert!(h.children[0].children.is_empty());
    assert_eq!(h.children[1].children.len(), 1);
    assert_eq!(h.children[1].children[0].parent.items[0].key, 2);
}

#[test]
fn get_node_builds_ranks_from_first_keys() {
    let h = HierarchicalNode {
        parent: kv(1, 10, 1),
        children: vec![HierarchicalNode { parent: kv(2, 4, 0), children: Vec::new() }],
    };
    let n = get_node(h);
    assert_eq!(n.rank, 1);
    assert_eq!(n.children.len(), 1);
    assert_eq!(n.children[0].rank, 2);
    assert_eq!(n.children[0].input[0].key, 4);
}

#[test]
fn dedup_keeps_the_last_child_of_each_first_key() {
    let root = Node {
        input: vec![Items { key: 10, rank: 1, version: vec![ver("v", 1, None)] }],
        rank: 1,
        children: vec![node(2, &[(1, "v")]), node(2, &[(2, "v")]), node(2, &[(1, "v")])],
    };
    let r = deduplicate_children_recursive(root);
    assert_eq!(r.children.len(), 2);
    assert_eq!(r.children[0].input[0].key, 2);
    assert_eq!(r.children[1].input[0].key, 1);
}

#[test]
fn dedup_fails_on_a_child_without_keys() {
    let root = Node { input: Vec::new(), rank: 1, children: vec![node(2, &[]), node(2, &[(1, "v")])] };
    assert!(try_deduplicate_children(root).is_none());
}

#[test]
fn i32_or_string_accessors() {
    assert_eq!(I32OrString::Num(4).to_i32(), Some(4));
    assert_eq!(I32OrString::Num(4).to_string(), None);
    assert_eq!(I32OrString::Str("s".to_string()).to_i32(), None);
    assert_eq!(I32OrString::Str("s".to_string()).to_string(), Some("s".to_string()));
}

#[test]
fn hierarchy_fails_on_a_parent_without_keys() {
    let mut all = vec![kv(2, 3, 0)];
    let root = KeyVersionNode { items: Vec::new(), child_count: 1 };
    assert!(asmt::storage::deser::parse::try_hierarchical_node(root, &mut all).is_none());
}

#[test]
fn saved_nodes_without_keys_are_found() {
    let good = HierarchicalNode { parent: kv(1, 10, 0), children: Vec::new() };
    assert!(asmt::storage::deser::reconstruct::all_saved_nodes_have_keys(&good));
    let bad = HierarchicalNode {
        parent: kv(1, 10, 1),
        children: vec![HierarchicalNode { parent: KeyVersionNode { items: Vec::new(), child_count: 0 }, children: Vec::new() }],
    };
    assert!(!asmt::storage::deser::reconstruct::all_saved_nodes_have_keys(&bad));
}

#[test]
fn a_node_with_too_few_children_cannot_be_saved() {
    let mut root = node(1, &[(10, "x"), (20, "y")]);
    root.children.push(node(2, &[(3, "c")]));
    root.children.push(node(2, &[(15, "d")]));
    assert!(!asmt::storage::ser::can_serialize(&root));
    root.children.push(node(2, &[(30, "e")]));
    assert!(asmt::storage::ser::can_serialize(&root));
}

#[test]
fn a_saved_node_writes_only_one_more_child_than_keys() {
    let mut root = node(1, &[(10, "x")]);
    root.children.push(node(2, &[(3, "c")]));
    root.children.push(node(2, &[(20, "d")]));
    root.children.push(node(2, &[(30, "e")]));
    let text = serialize_text(&root);
    // The child count says three, but only two children follow.
    assert!(text.contains("[3]\n[2]\n[1]\n[3][1]"));
    assert!(!text.contains("[30]"));
}

#[test]
fn utf8_byte_len_counts_the_bytes_of_each_character() {
    assert_eq!(utf8_byte_len(""), 0);
    assert_eq!(utf8_byte_len("abc"), 3);
    assert_eq!(utf8_byte_len("a\u{e9}\u{20ac}\u{1f600}"), 10);
    assert_eq!(utf8_byte_len("h\u{e9}llo") as usize, "h\u{e9}llo".len());
}

#[test]
fn classify_line_follows_the_stated_line_shapes() {
    assert_eq!(classify_line("['a',\t'b',\u{3000}'c']"), Some(LineKind::Chars));
    assert_eq!(classify_line("[',']"), Some(LineKind::Chars));
    // not a list of quoted characters, but one bracketed field
    assert_eq!(classify_line("['a' ,'b']"), Some(LineKind::Numbers));
    assert_eq!(classify_line("[[x]"), Some(LineKind::Numbers));
    assert_eq!(classify_line("[]"), Some(LineKind::Other));
    assert_eq!(classify_line("[1][2][3][4]"), Some(LineKind::Other));
    assert_eq!(classify_line("[1]\n"), Some(LineKind::Other));
}
