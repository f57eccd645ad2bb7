//! Drawing a tree as text: one line per node, with its rank and its keys
//! with all their versions, and the counts of a tree.
use vstd::prelude::*;
use crate::btree::node::{Items, Node};
use crate::btree::stats::TreeStats;
use crate::btree::tree::{lemma_tree_of, ItemsView, Tree};
use crate::mvcc::versions::Version;
use crate::text::{decimal, push_chars, push_decimal, push_text, string_push};

verus! {

/// The parts joined with `", "` between them.
pub open spec fn join_comma(parts: Seq<Seq<char>>) -> Seq<char>
    decreases parts.len(),
{
    if parts.len() == 0 {
        Seq::empty()
    } else if parts.len() == 1 {
        parts[0]
    } else {
        join_comma(parts.drop_last()) + ", "@ + parts.last()
    }
}

/// One version: its value in quotes, then its creator and its ender (`∞`
/// while live) in brackets.
pub open spec fn version_entry(v: Version) -> Seq<char> {
    "\""@ + v.value@ + "\"["@ + decimal(v.xmin as nat) + "-"@ + match v.xmax {
        Some(x) => decimal(x as nat),
        None => "∞"@,
    } + "]"@
}

/// The versions of a key, in brackets.
pub open spec fn versions_format(vs: Seq<Version>) -> Seq<char> {
    if vs.len() == 0 {
        "[]"@
    } else {
        "["@ + join_comma(vs.map_values(|v: Version| version_entry(v))) + "]"@
    }
}

/// One key: the key, its versions and its rank.
pub open spec fn item_entry(it: ItemsView) -> Seq<char> {
    decimal(it.key as nat) + ":"@ + versions_format(it.version) + " (r:"@ + decimal(it.rank as nat)
        + ")"@
}

/// The keys of a node, or `empty`.
pub open spec fn items_format(s: Seq<ItemsView>) -> Seq<char> {
    if s.len() == 0 {
        "empty"@
    } else {
        join_comma(s.map_values(|it: ItemsView| item_entry(it)))
    }
}

/// Appends the parts written so far joined with `", "`: the next part.
proof fn lemma_join_push(parts: Seq<Seq<char>>, k: int)
    requires
        0 <= k < parts.len(),
    ensures
        join_comma(parts.take(k + 1)) == if k == 0 {
            parts[0]
        } else {
            join_comma(parts.take(k)) + ", "@ + parts[k]
        },
{
    assert(parts.take(k + 1).drop_last() =~= parts.take(k));
    if k == 0 {
        assert(parts.take(1).len() == 1);
    }
}

fn push_version_entry(s: &mut String, v: &Version)
    ensures
        final(s)@ == old(s)@ + version_entry(*v),
{
    push_text(s, "\"");
    push_text(s, v.value.as_str());
    push_text(s, "\"[");
    push_decimal(s, v.xmin as u64);
    push_text(s, "-");
    match v.xmax {
        Some(x) => push_decimal(s, x as u64),
        None => push_text(s, "∞"),
    }
    push_text(s, "]");
    assert(final(s)@ =~= old(s)@ + version_entry(*v));
}

impl Node {
    /// The versions of a key, in brackets (see `versions_format`).
    pub fn format_versions(&self, versions: &Vec<Version>) -> (r: String)
        ensures
            r@ == versions_format(versions@),
    {
        let mut s = String::new();
        if versions.len() == 0 {
            push_text(&mut s, "[]");
            return s;
        }
        push_text(&mut s, "[");
        let ghost parts = versions@.map_values(|v: Version| version_entry(v));
        let ghost start = s@;
        let mut i: usize = 0;
        while i < versions.len()
            invariant
                i <= versions@.len(),
                parts == versions@.map_values(|v: Version| version_entry(v)),
                s@ == start + join_comma(parts.take(i as int)),
            decreases versions@.len() - i,
        {
            proof {
                lemma_join_push(parts, i as int);
            }
            if i > 0 {
                push_text(&mut s, ", ");
            }
            push_version_entry(&mut s, &versions[i]);
            assert(s@ =~= start + join_comma(parts.take(i + 1)));
            i += 1;
        }
        assert(parts.take(i as int) =~= parts);
        push_text(&mut s, "]");
        assert(s@ =~= versions_format(versions@));
        s
    }

    fn push_item_entry(&self, s: &mut String, it: &Items)
        ensures
            final(s)@ == old(s)@ + item_entry(it@),
    {
        push_decimal(s, it.key as u64);
        push_text(s, ":");
        let v = self.format_versions(&it.version);
        push_text(s, v.as_str());
        push_text(s, " (r:");
        push_decimal(s, it.rank as u64);
        push_text(s, ")");
        assert(final(s)@ =~= old(s)@ + item_entry(it@));
    }

    /// The keys of this node with their versions (see `items_format`).
    pub fn format_items(&self) -> (r: String)
        ensures
            r@ == items_format(self@.input),
    {
        proof {
            lemma_tree_of(*self);
        }
        let mut s = String::new();
        if self.input.len() == 0 {
            push_text(&mut s, "empty");
            return s;
        }
        let ghost parts = self@.input.map_values(|it: ItemsView| item_entry(it));
        let mut i: usize = 0;
        assert(s@ =~= join_comma(parts.take(0)));
        while i < self.input.len()
            invariant
                i <= self.input@.len(),
                self@.input.len() == self.input@.len(),
                forall|k: int| 0 <= k < self.input@.len() ==> #[trigger] self@.input[k] == self.input@[k]@,
                parts == self@.input.map_values(|it: ItemsView| item_entry(it)),
                s@ == join_comma(parts.take(i as int)),
            decreases self.input@.len() - i,
        {
            proof {
                lemma_join_push(parts, i as int);
            }
            if i > 0 {
                push_text(&mut s, ", ");
            }
            self.push_item_entry(&mut s, &self.input[i]);
            assert(s@ =~= join_comma(parts.take(i + 1)));
            i += 1;
        }
        assert(parts.take(i as int) =~= parts);
        s
    }
}

/// What stands before a node's line: `Root` at the top, else a branch.
pub open spec fn connector(root: bool, is_last: bool) -> Seq<char> {
    if root {
        "Root"@
    } else if is_last {
        "└── "@
    } else {
        "├── "@
    }
}

/// What stands before the lines of a node's children.
pub open spec fn child_prefix(prefix: Seq<char>, root: bool, is_last: bool) -> Seq<char> {
    if root {
        Seq::empty()
    } else {
        prefix + if is_last {
            "    "@
        } else {
            "│   "@
        }
    }
}

/// The lines of a node and the nodes under it.
pub open spec fn tree_lines(t: Tree, prefix: Seq<char>, is_last: bool, root: bool) -> Seq<char>
    decreases t, t.children.len() + 1int,
{
    prefix + connector(root, is_last) + "Node(rank: "@ + decimal(t.rank as nat) + ") ["@ + items_format(
        t.input,
    ) + "]\n"@ + children_lines(t, child_prefix(prefix, root, is_last), t.children.len() as int)
}

/// The lines of the first `k` children of a node.
pub open spec fn children_lines(t: Tree, cp: Seq<char>, k: int) -> Seq<char>
    decreases t, k,
{
    if k <= 0 || k > t.children.len() {
        Seq::empty()
    } else {
        children_lines(t, cp, k - 1) + tree_lines(
            t.children[k - 1],
            cp,
            k - 1 == t.children.len() - 1,
            false,
        )
    }
}

/// The drawing of a tree: a title, a rule, the lines of the nodes and an
/// empty line.
pub open spec fn tree_drawing(t: Tree) -> Seq<char> {
    "B-Tree Structure (All Versions)\n"@ + Seq::new(50, |i: int| '=') + "\n"@ + tree_lines(
        t,
        Seq::empty(),
        true,
        true,
    ) + "\n"@
}

impl Node {
    /// Appends the lines of this node and the nodes under it (see
    /// `tree_lines`).
    fn push_tree_lines(&self, prefix: &Vec<char>, is_last: bool, root: bool, s: &mut String)
        ensures
            final(s)@ == old(s)@ + tree_lines(self@, prefix@, is_last, root),
        decreases self,
    {
        proof {
            lemma_tree_of(*self);
        }
        push_chars(s, prefix);
        if root {
            push_text(s, "Root");
        } else if is_last {
            push_text(s, "└── ");
        } else {
            push_text(s, "├── ");
        }
        push_text(s, "Node(rank: ");
        push_decimal(s, self.rank as u64);
        push_text(s, ") [");
        let items = self.format_items();
        push_text(s, items.as_str());
        push_text(s, "]\n");
        let mut cp: Vec<char> = Vec::new();
        if !root {
            let mut k: usize = 0;
            assert(cp@ =~= prefix@.take(0));
            while k < prefix.len()
                invariant
                    k <= prefix@.len(),
                    cp@ == prefix@.take(k as int),
                decreases prefix@.len() - k,
            {
                cp.push(prefix[k]);
                assert(prefix@.take(k + 1) =~= prefix@.take(k as int).push(prefix@[k as int]));
                k += 1;
            }
            assert(prefix@.take(prefix@.len() as int) =~= prefix@);
            let tail = if is_last {
                crate::storage::deser::raw::chars_of("    ")
            } else {
                crate::storage::deser::raw::chars_of("│   ")
            };
            let ghost before = cp@;
            let mut k2: usize = 0;
            while k2 < tail.len()
                invariant
                    k2 <= tail@.len(),
                    cp@ == before + tail@.take(k2 as int),
                decreases tail@.len() - k2,
            {
                cp.push(tail[k2]);
                assert(before + tail@.take(k2 + 1) =~= (before + tail@.take(k2 as int)).push(
                    tail@[k2 as int],
                ));
                k2 += 1;
            }
            assert(tail@.take(tail@.len() as int) =~= tail@);
        } else {
            assert(cp@ =~= Seq::<char>::empty());
        }
        assert(cp@ == child_prefix(prefix@, root, is_last));
        let ghost mid = s@;
        let n = self.children.len();
        let mut i: usize = 0;
        while i < n
            invariant
                i <= n,
                n == self.children@.len(),
                self@.children.len() == n,
                forall|k: int| 0 <= k < n ==> #[trigger] self@.children[k] == self.children@[k]@,
                s@ == mid + children_lines(self@, cp@, i as int),
            decreases n - i,
        {
            proof {
                assert(decreases_to!(self => self.children));
                assert(decreases_to!(self.children => self.children@));
                assert(decreases_to!(self.children@ => self.children@[i as int]));
            }
            let last = i == n - 1;
            self.children[i].push_tree_lines(&cp, last, false, s);
            assert(s@ =~= mid + children_lines(self@, cp@, i + 1));
            i += 1;
        }
        assert(final(s)@ =~= old(s)@ + tree_lines(self@, prefix@, is_last, root));
    }

    /// The drawing of the tree under this node (see `tree_drawing`).
    pub fn print_tree(&self) -> (r: String)
        ensures
            r@ == tree_drawing(self@),
    {
        let mut s = String::new();
        push_text(&mut s, "B-Tree Structure (All Versions)\n");
        let mut k: usize = 0;
        let ghost start = s@;
        while k < 50
            invariant
                k <= 50,
                s@ == start + Seq::new(k as nat, |i: int| '='),
            decreases 50 - k,
        {
            string_push(&mut s, '=');
            assert(start + Seq::new((k + 1) as nat, |i: int| '=') =~= (start + Seq::new(
                k as nat,
                |i: int| '=',
            )).push('='));
            k += 1;
        }
        push_text(&mut s, "\n");
        let empty: Vec<char> = Vec::new();
        assert(empty@ =~= Seq::<char>::empty());
        self.push_tree_lines(&empty, true, true, &mut s);
        push_text(&mut s, "\n");
        assert(s@ =~= tree_drawing(self@));
        s
    }
}

/// The counts of a tree as a short report, one count per line.
pub open spec fn stats_report(st: crate::btree::stats::StatsView) -> Seq<char> {
    "Tree Statistics:\n├── Total nodes: "@ + decimal(st.nodes) + "\n├── Tree height: "@ + decimal(
        st.height,
    ) + "\n├── Total keys: "@ + decimal(st.keys) + "\n├── Total versions: "@ + decimal(st.versions)
        + "\n├── Leaf nodes: "@ + decimal(st.leaves) + "\n└── Internal nodes: "@ + decimal(
        st.internals,
    ) + "\n\n"@
}

/// The report of some counts (see `stats_report`).
pub fn stats_text(stats: &TreeStats) -> (r: String)
    ensures
        r@ == stats_report(stats@),
{
    let mut s = String::new();
    push_text(&mut s, "Tree Statistics:\n├── Total nodes: ");
    push_decimal(&mut s, stats.total_nodes as u64);
    push_text(&mut s, "\n├── Tree height: ");
    push_decimal(&mut s, stats.height as u64);
    push_text(&mut s, "\n├── Total keys: ");
    push_decimal(&mut s, stats.total_keys as u64);
    push_text(&mut s, "\n├── Total versions: ");
    push_decimal(&mut s, stats.total_versions as u64);
    push_text(&mut s, "\n├── Leaf nodes: ");
    push_decimal(&mut s, stats.leaf_nodes as u64);
    push_text(&mut s, "\n└── Internal nodes: ");
    push_decimal(&mut s, stats.internal_nodes as u64);
    push_text(&mut s, "\n\n");
    assert(s@ =~= stats_report(stats@));
    s
}

impl Node {
    /// The report of the counts of the tree under this node; `None` where a
    /// count would leave `usize`.
    pub fn print_stats(&self) -> (r: Option<String>)
        ensures
            r is Some <==> crate::btree::stats::stats_fit(crate::btree::stats::tree_stats(self@)),
            r is Some ==> r->0@ == stats_report(crate::btree::stats::tree_stats(self@)),
    {
        match self.calculate_stats() {
            Some(st) => Some(stats_text(&st)),
            None => None,
        }
    }
}

} // verus!
