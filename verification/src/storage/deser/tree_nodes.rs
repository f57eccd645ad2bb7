use vstd::prelude::*;
use crate::btree::node::Items;
use crate::btree::tree::{items_view, ItemsView};

verus! {

/// The keys of one saved node and the number of children it had.
#[derive(Debug)]
pub struct KeyVersionNode {
    pub items: Vec<Items>,
    pub child_count: u32,
}

/// A saved node with the saved nodes under it.
#[derive(Debug)]
pub struct HierarchicalNode {
    pub parent: KeyVersionNode,
    pub children: Vec<HierarchicalNode>,
}

/// The model of a saved node.
pub struct KvView {
    pub items: Seq<ItemsView>,
    pub child_count: u32,
}

/// The model of a saved node with the nodes under it.
pub struct HierView {
    pub parent: KvView,
    pub children: Seq<HierView>,
}

impl View for KeyVersionNode {
    type V = KvView;

    open spec fn view(&self) -> KvView {
        KvView { items: items_view(self.items@), child_count: self.child_count }
    }
}

pub open spec fn hier_of(h: HierarchicalNode) -> HierView
    decreases h,
{
    HierView {
        parent: h.parent@,
        children: Seq::new(
            h.children@.len(),
            |i: int|
                if 0 <= i < h.children@.len() {
                    hier_of(h.children@[i])
                } else {
                    HierView { parent: h.parent@, children: Seq::empty() }
                },
        ),
    }
}

impl View for HierarchicalNode {
    type V = HierView;

    open spec fn view(&self) -> HierView {
        hier_of(*self)
    }
}

pub open spec fn kv_view_fn() -> spec_fn(KeyVersionNode) -> KvView {
    |k: KeyVersionNode| k@
}

pub open spec fn kv_views(s: Seq<KeyVersionNode>) -> Seq<KvView> {
    s.map_values(kv_view_fn())
}

pub open spec fn hier_view_fn() -> spec_fn(HierarchicalNode) -> HierView {
    |h: HierarchicalNode| h@
}

pub open spec fn hier_views(s: Seq<HierarchicalNode>) -> Seq<HierView> {
    s.map_values(hier_view_fn())
}

pub proof fn lemma_hier_of(h: HierarchicalNode)
    ensures
        h@.parent == h.parent@,
        h@.children == hier_views(h.children@),
{
    assert(h@.children =~= hier_views(h.children@));
}

impl KeyVersionNode {
    /// A copy of this saved node, equal to it.
    pub fn duplicate(&self) -> (r: KeyVersionNode)
        ensures
            r@ == self@,
    {
        let mut items: Vec<Items> = Vec::new();
        let mut i: usize = 0;
        while i < self.items.len()
            invariant
                i <= self.items@.len(),
                items_view(items@) == items_view(self.items@).take(i as int),
            decreases self.items@.len() - i,
        {
            let ghost before = items@;
            items.push(self.items[i].duplicate());
            assert(items_view(items@) =~= items_view(before).push(self.items@[i as int]@));
            assert(items_view(self.items@).take(i + 1) =~= items_view(self.items@).take(i as int).push(
                self.items@[i as int]@,
            ));
            i += 1;
        }
        assert(items_view(self.items@).take(self.items@.len() as int) =~= items_view(self.items@));
        KeyVersionNode { items, child_count: self.child_count }
    }
}

} // verus!
