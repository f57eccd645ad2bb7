//! Rebuilding a tree from the values of its saved text.
pub mod num_or_str;
pub mod parse;
pub mod raw;
pub mod tree_nodes;
pub mod reconstruct;

use vstd::prelude::*;
use crate::btree::node::Node;
use crate::btree::tree::Tree;
use crate::storage::deser::num_or_str::I32OrString;
use crate::storage::deser::parse::{hier, spec_key_version_nodes, try_get_key_version_node, try_hierarchical_node};
use crate::storage::deser::reconstruct::{
    all_saved_nodes_have_keys, dedup_ok, get_node, get_node_ok, spec_dedup, spec_get_node,
    try_deduplicate_children,
};

verus! {

/// The tree a list of saved values describes: its saved nodes, the first
/// one with the others hung under it, built into a tree and cleared of
/// repeated children. `None` where a step cannot be carried out.
pub open spec fn spec_deserialize(v: Seq<I32OrString>) -> Option<Tree> {
    match spec_key_version_nodes(v) {
        None => None,
        Some(ns) => if ns.len() == 0 {
            None
        } else {
            match hier(ns[0], ns) {
                None => None,
                Some(h) => if get_node_ok(h.0) && dedup_ok(spec_get_node(h.0)) {
                    Some(spec_dedup(spec_get_node(h.0)))
                } else {
                    None
                },
            }
        },
    }
}

impl Node {
    /// Rebuilds the tree from the values read from its saved text.
    pub fn deserialize(vec: Vec<I32OrString>) -> (r: Option<Node>)
        ensures
            match r {
                Some(n) => spec_deserialize(vec@) == Some(n@),
                None => spec_deserialize(vec@) is None,
            },
    {
        let mut nodes = match try_get_key_version_node(&vec) {
            Some(ns) => ns,
            None => return None,
        };
        if nodes.len() == 0 {
            return None;
        }
        let required = nodes[0].duplicate();
        let ghost nv = crate::storage::deser::tree_nodes::kv_views(nodes@);
        assert(nv[0] == nodes@[0]@);
        let h = match try_hierarchical_node(required, &mut nodes) {
            Some(h) => h,
            None => return None,
        };
        if !all_saved_nodes_have_keys(&h) {
            return None;
        }
        let built = get_node(h);
        try_deduplicate_children(built)
    }
}

} // verus!
