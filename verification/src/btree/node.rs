use vstd::prelude::*;
use crate::mvcc::versions::Version;
use crate::btree::tree::{ItemsView, Tree, tree_of};

verus! {

/// One key of the tree with the rank of the level it sits on and the list of
/// versions of its value, oldest first.
#[derive(Debug, Clone, PartialEq, Eq, PartialOrd, Ord, Hash)]
pub struct Items {
    pub key: u32,
    pub rank: u32,
    pub version: Vec<Version>,
}

/// A node of the B-tree: its keys (`input`), its level (`rank`, 1 at the
/// root) and its children.
#[derive(Debug)]
pub struct Node {
    pub input: Vec<Items>,
    pub rank: u32,
    pub children: Vec<Node>,
}

impl View for Items {
    type V = ItemsView;

    open spec fn view(&self) -> ItemsView {
        ItemsView { key: self.key, rank: self.rank, version: self.version@ }
    }
}

impl View for Node {
    type V = Tree;

    open spec fn view(&self) -> Tree {
        tree_of(*self)
    }
}

/// Two keys agree on the key, the rank and every version.
pub open spec fn items_same(a: ItemsView, b: ItemsView) -> bool {
    &&& a.key == b.key
    &&& a.rank == b.rank
    &&& crate::mvcc::versions::versions_same(a.version, b.version)
}

impl Items {
    /// Compares two keys with their versions.
    pub fn equals(&self, other: &Items) -> (r: bool)
        ensures
            r == items_same(self@, other@),
    {
        self.key == other.key && self.rank == other.rank
            && crate::mvcc::versions::versions_equal(&self.version, &other.version)
    }

    /// A copy of this key with its versions, equal to it.
    pub fn duplicate(&self) -> (r: Items)
        ensures
            r@ == self@,
    {
        Items {
            key: self.key,
            rank: self.rank,
            version: crate::mvcc::versions::duplicate_versions(&self.version),
        }
    }
}

impl Node {
    /// An empty node of rank 1: the root of a new, empty tree.
    pub fn new() -> (r: Node)
        ensures
            r@ == (Tree { input: Seq::empty(), rank: 1, children: Seq::empty() }),
    {
        let r = Node { input: Vec::new(), rank: 1, children: Vec::new() };
        proof {
            crate::btree::tree::lemma_tree_of(r);
        }
        assert(r@.input =~= Seq::<ItemsView>::empty());
        assert(r@.children =~= Seq::<Tree>::empty());
        r
    }
}

impl Node {
    /// A copy of the tree under this node, equal to it.
    pub fn duplicate(&self) -> (r: Node)
        ensures
            r@ == self@,
        decreases self,
    {
        proof {
            crate::btree::tree::lemma_tree_of(*self);
        }
        let mut input: Vec<Items> = Vec::new();
        let mut i: usize = 0;
        while i < self.input.len()
            invariant
                i <= self.input@.len(),
                input@.len() == i,
                forall|k: int| 0 <= k < i ==> #[trigger] input@[k]@ == self.input@[k]@,
            decreases self.input@.len() - i,
        {
            input.push(self.input[i].duplicate());
            i += 1;
        }
        let mut children: Vec<Node> = Vec::new();
        let mut j: usize = 0;
        while j < self.children.len()
            invariant
                j <= self.children@.len(),
                children@.len() == j,
                forall|k: int| 0 <= k < j ==> #[trigger] children@[k]@ == self.children@[k]@,
            decreases self.children@.len() - j,
        {
            proof {
                assert(decreases_to!(self => self.children));
                assert(decreases_to!(self.children => self.children@));
                assert(decreases_to!(self.children@ => self.children@[j as int]));
            }
            children.push(self.children[j].duplicate());
            j += 1;
        }
        let r = Node { input, rank: self.rank, children };
        proof {
            crate::btree::tree::lemma_tree_of(r);
        }
        assert(r@.input =~= self@.input);
        assert(r@.children =~= self@.children);
        r
    }
}

} // verus!
