//! Counting what a tree holds: nodes, levels, keys, versions, leaves and
//! inner nodes.
use vstd::prelude::*;
use crate::btree::node::Node;
use crate::btree::tree::{lemma_tree_of, ItemsView, Tree};

verus! {

/// The counts of a tree.
pub struct StatsView {
    pub nodes: nat,
    pub height: nat,
    pub keys: nat,
    pub versions: nat,
    pub leaves: nat,
    pub internals: nat,
}

/// The number of versions of a sequence of keys.
pub open spec fn versions_count(s: Seq<ItemsView>) -> nat
    decreases s.len(),
{
    if s.len() == 0 {
        0
    } else {
        versions_count(s.drop_last()) + s.last().version.len()
    }
}

pub open spec fn no_stats() -> StatsView {
    StatsView { nodes: 0, height: 0, keys: 0, versions: 0, leaves: 0, internals: 0 }
}

pub open spec fn max_nat(a: nat, b: nat) -> nat {
    if a >= b {
        a
    } else {
        b
    }
}

/// The counts of two sets of subtrees side by side: the sums, and the
/// greater height.
pub open spec fn beside(a: StatsView, b: StatsView) -> StatsView {
    StatsView {
        nodes: a.nodes + b.nodes,
        height: max_nat(a.height, b.height),
        keys: a.keys + b.keys,
        versions: a.versions + b.versions,
        leaves: a.leaves + b.leaves,
        internals: a.internals + b.internals,
    }
}

/// The counts of a tree: its own node, and one level more than its highest
/// child.
pub open spec fn tree_stats(t: Tree) -> StatsView
    decreases t,
{
    let c = forest_stats(t.children);
    StatsView {
        nodes: 1 + c.nodes,
        height: 1 + c.height,
        keys: t.input.len() + c.keys,
        versions: versions_count(t.input) + c.versions,
        leaves: (if t.children.len() == 0 {
            1nat
        } else {
            0nat
        }) + c.leaves,
        internals: (if t.children.len() == 0 {
            0nat
        } else {
            1nat
        }) + c.internals,
    }
}

/// The counts of a sequence of trees side by side.
pub open spec fn forest_stats(cs: Seq<Tree>) -> StatsView
    decreases cs,
{
    if cs.len() == 0 {
        no_stats()
    } else {
        beside(forest_stats(cs.drop_last()), tree_stats(cs.last()))
    }
}

/// The counts of a tree and what was counted before, the tree standing at
/// depth `d`: the counts add up, and the height is the deepest level met.
pub open spec fn after_counting(s: StatsView, t: Tree, d: nat) -> StatsView {
    let c = tree_stats(t);
    StatsView {
        nodes: s.nodes + c.nodes,
        height: max_nat(s.height, d + c.height),
        keys: s.keys + c.keys,
        versions: s.versions + c.versions,
        leaves: s.leaves + c.leaves,
        internals: s.internals + c.internals,
    }
}

/// Every count stays within `usize`.
pub open spec fn stats_fit(s: StatsView) -> bool {
    &&& s.nodes <= usize::MAX
    &&& s.height <= usize::MAX
    &&& s.keys <= usize::MAX
    &&& s.versions <= usize::MAX
    &&& s.leaves <= usize::MAX
    &&& s.internals <= usize::MAX
}

/// The counts of a tree.
#[derive(Debug)]
pub struct TreeStats {
    pub total_nodes: usize,
    pub height: usize,
    pub total_keys: usize,
    pub total_versions: usize,
    pub leaf_nodes: usize,
    pub internal_nodes: usize,
}

impl View for TreeStats {
    type V = StatsView;

    open spec fn view(&self) -> StatsView {
        StatsView {
            nodes: self.total_nodes as nat,
            height: self.height as nat,
            keys: self.total_keys as nat,
            versions: self.total_versions as nat,
            leaves: self.leaf_nodes as nat,
            internals: self.internal_nodes as nat,
        }
    }
}

pub proof fn lemma_forest_stats_push(cs: Seq<Tree>, k: int)
    requires
        0 <= k < cs.len(),
    ensures
        forest_stats(cs.take(k + 1)) == beside(forest_stats(cs.take(k)), tree_stats(cs[k])),
{
    assert(cs.take(k + 1).drop_last() =~= cs.take(k));
}

impl Node {
    /// Adds the counts of this node and the nodes under it, the node
    /// standing at depth `depth`. `false`, with the counts left partly
    /// added, where a count would leave `usize`.
    pub fn calculate_stats_recursive(&self, stats: &mut TreeStats, depth: usize) -> (r: bool)
        ensures
            r == stats_fit(after_counting(old(stats)@, self@, depth as nat)),
            r ==> final(stats)@ == after_counting(old(stats)@, self@, depth as nat),
        decreases self,
    {
        proof {
            lemma_tree_of(*self);
        }
        let ghost t = self@;
        let ghost s0 = stats@;
        let ghost fin = after_counting(s0, t, depth as nat);
        let ghost kids = forest_stats(t.children);
        assert(fin.nodes == s0.nodes + 1 + kids.nodes);
        assert(fin.keys == s0.keys + t.input.len() + kids.keys);
        assert(fin.versions == s0.versions + versions_count(t.input) + kids.versions);
        assert(fin.height >= depth + 1);
        if stats.total_nodes == usize::MAX {
            return false;
        }
        stats.total_nodes = stats.total_nodes + 1;
        let keys = stats.total_keys.checked_add(self.input.len());
        match keys {
            Some(k) => stats.total_keys = k,
            None => return false,
        }
        if depth == usize::MAX {
            return false;
        }
        if stats.height < depth + 1 {
            stats.height = depth + 1;
        }
        let mut i: usize = 0;
        while i < self.input.len()
            invariant
                i <= self.input@.len(),
                t == self@,
                t.input.len() == self.input@.len(),
                forall|k: int| 0 <= k < self.input@.len() ==> #[trigger] t.input[k] == self.input@[k]@,
                stats.total_versions == s0.versions + versions_count(t.input.take(i as int)),
                stats.total_nodes == s0.nodes + 1,
                stats.total_keys == s0.keys + t.input.len(),
                stats.height == max_nat(s0.height, (depth + 1) as nat),
                stats.leaf_nodes == s0.leaves,
                stats.internal_nodes == s0.internals,
                fin == after_counting(s0, t, depth as nat),
                s0 == old(stats)@,
                fin.versions == s0.versions + versions_count(t.input) + kids.versions,
                kids == forest_stats(t.children),
            decreases self.input@.len() - i,
        {
            assert(t.input.take(i + 1).drop_last() =~= t.input.take(i as int));
            match stats.total_versions.checked_add(self.input[i].version.len()) {
                Some(v) => stats.total_versions = v,
                None => {
                    proof {
                        lemma_versions_count_prefix(t.input, i + 1);
                    }
                    return false;
                },
            }
            i += 1;
        }
        assert(t.input.take(i as int) =~= t.input);
        if self.children.len() == 0 {
            if stats.leaf_nodes == usize::MAX {
                return false;
            }
            stats.leaf_nodes = stats.leaf_nodes + 1;
            assert(t.children =~= Seq::<Tree>::empty());
            return true;
        }
        if stats.internal_nodes == usize::MAX {
            return false;
        }
        stats.internal_nodes = stats.internal_nodes + 1;
        let ghost s1 = stats@;
        let mut j: usize = 0;
        assert(t.children.take(0) =~= Seq::<Tree>::empty());
        while j < self.children.len()
            invariant
                j <= self.children@.len(),
                t == self@,
                t.children.len() == self.children@.len(),
                t.children.len() > 0,
                forall|k: int| 0 <= k < self.children@.len() ==> #[trigger] t.children[k] == self.children@[k]@,
                depth < usize::MAX,
                s1.height == max_nat(s0.height, (depth + 1) as nat),
                stats@ == (StatsView {
                    nodes: s1.nodes + forest_stats(t.children.take(j as int)).nodes,
                    height: max_nat(s1.height, (depth + 1 + forest_stats(t.children.take(j as int)).height) as nat),
                    keys: s1.keys + forest_stats(t.children.take(j as int)).keys,
                    versions: s1.versions + forest_stats(t.children.take(j as int)).versions,
                    leaves: s1.leaves + forest_stats(t.children.take(j as int)).leaves,
                    internals: s1.internals + forest_stats(t.children.take(j as int)).internals,
                }),
                s1 == (StatsView {
                    nodes: s0.nodes + 1,
                    height: max_nat(s0.height, (depth + 1) as nat),
                    keys: s0.keys + t.input.len(),
                    versions: s0.versions + versions_count(t.input),
                    leaves: s0.leaves,
                    internals: s0.internals + 1,
                }),
                fin == after_counting(s0, t, depth as nat),
                s0 == old(stats)@,
                kids == forest_stats(t.children),
            decreases self.children@.len() - j,
        {
            proof {
                lemma_forest_stats_push(t.children, j as int);
                assert(decreases_to!(self => self.children));
                assert(decreases_to!(self.children => self.children@));
                assert(decreases_to!(self.children@ => self.children@[j as int]));
            }
            let ghost mid = stats@;
            let ok = self.children[j].calculate_stats_recursive(stats, depth + 1);
            if !ok {
                proof {
                    lemma_forest_stats_grow(t.children, j + 1);
                    let a = after_counting(mid, t.children[j as int], (depth + 1) as nat);
                    let f = forest_stats(t.children.take(j + 1));
                    assert(a.nodes == s1.nodes + f.nodes);
                    assert(a.keys == s1.keys + f.keys);
                    assert(a.versions == s1.versions + f.versions);
                    assert(a.leaves == s1.leaves + f.leaves);
                    assert(a.internals == s1.internals + f.internals);
                    assert(a.height <= max_nat(s1.height, (depth + 1 + f.height) as nat));
                    assert(!stats_fit(a));
                    assert(!stats_fit(fin));
                }
                return false;
            }
            j += 1;
        }
        assert(t.children.take(j as int) =~= t.children);
        true
    }

    /// The counts of the tree under this node; `None` where a count would
    /// leave `usize`.
    pub fn calculate_stats(&self) -> (r: Option<TreeStats>)
        ensures
            r is Some <==> stats_fit(tree_stats(self@)),
            r is Some ==> r->0@ == tree_stats(self@),
    {
        let mut stats = TreeStats {
            total_nodes: 0,
            height: 0,
            total_keys: 0,
            total_versions: 0,
            leaf_nodes: 0,
            internal_nodes: 0,
        };
        assert(stats@ == no_stats());
        assert(after_counting(no_stats(), self@, 0) == tree_stats(self@));
        if self.calculate_stats_recursive(&mut stats, 0) {
            Some(stats)
        } else {
            None
        }
    }
}

pub proof fn lemma_versions_count_prefix(s: Seq<ItemsView>, n: int)
    requires
        0 <= n <= s.len(),
    ensures
        versions_count(s.take(n)) <= versions_count(s),
    decreases s.len() - n,
{
    if n < s.len() {
        lemma_versions_count_prefix(s, n + 1);
        assert(s.take(n + 1).drop_last() =~= s.take(n));
    } else {
        assert(s.take(n) =~= s);
    }
}

pub proof fn lemma_forest_stats_grow(cs: Seq<Tree>, n: int)
    requires
        0 <= n <= cs.len(),
    ensures
        forest_stats(cs.take(n)).nodes <= forest_stats(cs).nodes,
        forest_stats(cs.take(n)).height <= forest_stats(cs).height,
        forest_stats(cs.take(n)).keys <= forest_stats(cs).keys,
        forest_stats(cs.take(n)).versions <= forest_stats(cs).versions,
        forest_stats(cs.take(n)).leaves <= forest_stats(cs).leaves,
        forest_stats(cs.take(n)).internals <= forest_stats(cs).internals,
    decreases cs.len() - n,
{
    if n < cs.len() {
        lemma_forest_stats_grow(cs, n + 1);
        lemma_forest_stats_push(cs, n);
    } else {
        assert(cs.take(n) =~= cs);
    }
}

/// Every node of a tree is a leaf or an inner node: the node count is the
/// sum of the two.
pub proof fn law_nodes_are_leaves_or_inner(t: Tree)
    ensures
        tree_stats(t).nodes == tree_stats(t).leaves + tree_stats(t).internals,
    decreases t,
{
    lemma_forest_nodes_split(t.children);
}

proof fn lemma_forest_nodes_split(cs: Seq<Tree>)
    ensures
        forest_stats(cs).nodes == forest_stats(cs).leaves + forest_stats(cs).internals,
    decreases cs,
{
    if cs.len() > 0 {
        lemma_forest_nodes_split(cs.drop_last());
        law_nodes_are_leaves_or_inner(cs.last());
    }
}

} // verus!
