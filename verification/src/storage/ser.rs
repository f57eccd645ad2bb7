//! The text a tree is saved in: for each node, its rank and number of keys
//! in hexadecimal, each key with its versions, and its number of children in
//! hexadecimal, followed by the children that the keys separate.
use vstd::prelude::*;
use crate::btree::node::Node;
use crate::btree::tree::{lemma_tree_of, ItemsView, Tree};
use crate::mvcc::versions::Version;
use crate::text::{decimal, hex_upper, push_chars, push_hex, push_text};

verus! {

/// How many bytes UTF-8 takes for a character.
pub open spec fn char_utf8_len(c: char) -> nat {
    if (c as u32) < 0x80 {
        1
    } else if (c as u32) < 0x800 {
        2
    } else if (c as u32) < 0x10000 {
        3
    } else {
        4
    }
}

/// How many bytes UTF-8 takes for a text.
pub open spec fn utf8_len(s: Seq<char>) -> nat
    decreases s.len(),
{
    if s.len() == 0 {
        0
    } else {
        utf8_len(s.drop_last()) + char_utf8_len(s.last())
    }
}

/// The length in bytes of a text's UTF-8 encoding, counted character by
/// character.
pub fn utf8_byte_len(s: &str) -> (r: u128)
    ensures
        r == utf8_len(s@),
{
    let cs = crate::storage::deser::raw::chars_of(s);
    let mut n: u128 = 0;
    let mut i: usize = 0;
    while i < cs.len()
        invariant
            i <= cs@.len(),
            cs@ == s@,
            n == utf8_len(cs@.take(i as int)),
            n <= 4 * i,
        decreases cs@.len() - i,
    {
        let c = cs[i];
        let code = c as u32;
        let w: u128 = if code < 0x80 {
            1
        } else if code < 0x800 {
            2
        } else if code < 0x10000 {
            3
        } else {
            4
        };
        assert(cs@.take(i + 1).drop_last() =~= cs@.take(i as int));
        assert(w == char_utf8_len(c));
        n = n + w;
        i += 1;
    }
    assert(cs@.take(cs@.len() as int) =~= cs@);
    n
}

/// How `{:?}` writes a character: quoted, with the standard library's
/// escapes.
pub uninterp spec fn char_debug(c: char) -> Seq<char>;

/// A character written with `{:?}` (its `Debug` impl). The contract claims
/// only that the text depends on the character alone; the escapes are the
/// standard library's and are not stated here.
#[verifier::external_body]
fn debug_char(c: char) -> (r: String)
    ensures
        r@ == char_debug(c),
{
    format!("{:?}", c)
}

/// The list of the characters of a text as `{:?}` writes a list: each
/// character written with `{:?}`, separated by `", "`, in brackets.
pub open spec fn chars_debug(s: Seq<char>) -> Seq<char> {
    seq!['['] + debug_entries(s) + seq![']']
}

pub open spec fn debug_entries(s: Seq<char>) -> Seq<char>
    decreases s.len(),
{
    if s.len() == 0 {
        Seq::empty()
    } else if s.len() == 1 {
        char_debug(s[0])
    } else {
        debug_entries(s.drop_last()) + seq![',', ' '] + char_debug(s.last())
    }
}

/// A field: the text in brackets.
pub open spec fn field(s: Seq<char>) -> Seq<char> {
    seq!['['] + s + seq![']']
}

pub open spec fn nl() -> Seq<char> {
    seq!['\n']
}

/// One version: its creator, its ender (`-` while live) and the byte length
/// of its value on one line, then the characters of the value on the next.
pub open spec fn version_text(v: Version) -> Seq<char> {
    field(decimal(v.xmin as nat)) + match v.xmax {
        Some(x) => field(decimal(x as nat)),
        None => field(seq!['-']),
    } + field(decimal(utf8_len(v.value@))) + nl() + chars_debug(v.value@) + nl()
}

pub open spec fn versions_text(vs: Seq<Version>) -> Seq<char>
    decreases vs.len(),
{
    if vs.len() == 0 {
        Seq::empty()
    } else {
        versions_text(vs.drop_last()) + version_text(vs.last())
    }
}

/// One key: the key and its number of versions on one line, then its
/// versions.
pub open spec fn item_text(it: ItemsView) -> Seq<char> {
    field(decimal(it.key as nat)) + field(decimal(it.version.len())) + nl() + versions_text(it.version)
}

pub open spec fn items_text(s: Seq<ItemsView>) -> Seq<char>
    decreases s.len(),
{
    if s.len() == 0 {
        Seq::empty()
    } else {
        items_text(s.drop_last()) + item_text(s.last())
    }
}

/// One node and, if it has children, the first of them, one more than it has
/// keys.
pub open spec fn node_text(t: Tree) -> Seq<char>
    decreases t, t.input.len() + 2int,
{
    field(hex_upper(t.rank as nat)) + nl() + field(hex_upper(t.input.len())) + nl() + items_text(
        t.input,
    ) + field(hex_upper(t.children.len())) + nl() + if t.children.len() > 0 {
        children_text(t, t.input.len() + 1int)
    } else {
        Seq::empty()
    }
}

/// The texts of the first `k` children, in order.
pub open spec fn children_text(t: Tree, k: int) -> Seq<char>
    decreases t, k,
{
    if k <= 0 || k > t.children.len() || k > t.input.len() + 1 {
        Seq::empty()
    } else {
        children_text(t, k - 1) + node_text(t.children[k - 1])
    }
}

/// Every node that is written has at least one more child than keys, where
/// it has children at all.
pub open spec fn ser_ok(t: Tree) -> bool
    decreases t,
{
    t.children.len() > 0 ==> {
        &&& t.children.len() >= t.input.len() + 1
        &&& forall|j: int| 0 <= j < t.input.len() + 1 ==> ser_ok(#[trigger] t.children[j])
    }
}

/// Tells whether every node that would be written has at least one more
/// child than keys, where it has children at all (see `ser_ok`).
pub fn can_serialize(node: &Node) -> (r: bool)
    ensures
        r == ser_ok(node@),
    decreases node,
{
    proof {
        lemma_tree_of(*node);
    }
    let n = node.children.len();
    if n == 0 {
        return true;
    }
    let l = node.input.len();
    if n <= l {
        return false;
    }
    let mut j: usize = 0;
    while j <= l
        invariant
            j <= l + 1,
            l < n,
            n == node.children@.len(),
            l == node@.input.len(),
            node@.children.len() == n,
            forall|k: int| 0 <= k < n ==> #[trigger] node@.children[k] == node.children@[k]@,
            forall|k: int| 0 <= k < j ==> ser_ok(#[trigger] node@.children[k]),
        decreases l + 1 - j,
    {
        proof {
            assert(decreases_to!(node => node.children));
            assert(decreases_to!(node.children => node.children@));
            assert(decreases_to!(node.children@ => node.children@[j as int]));
        }
        if !can_serialize(&node.children[j]) {
            assert(!ser_ok(node@.children[j as int]));
            assert(node@.children.len() > 0);
            return false;
        }
        j += 1;
    }
    true
}

/// The saved text of a tree.
pub open spec fn saved_text(t: Tree) -> Seq<char> {
    field(seq!['0']) + nl() + node_text(t)
}

fn push_field_decimal(s: &mut String, n: u128)
    ensures
        final(s)@ == old(s)@ + field(decimal(n as nat)),
{
    crate::text::string_push(s, '[');
    crate::text::push_decimal_wide(s, n);
    crate::text::string_push(s, ']');
    assert(final(s)@ =~= old(s)@ + field(decimal(n as nat)));
}

fn push_field_hex(s: &mut String, n: u64)
    ensures
        final(s)@ == old(s)@ + field(hex_upper(n as nat)),
{
    crate::text::string_push(s, '[');
    push_hex(s, n);
    crate::text::string_push(s, ']');
    assert(final(s)@ =~= old(s)@ + field(hex_upper(n as nat)));
}

/// Appends the characters of a text as `{:?}` writes their list.
fn push_chars_debug(s: &mut String, value: &String)
    ensures
        final(s)@ == old(s)@ + chars_debug(value@),
{
    let cs = crate::storage::deser::raw::chars_of(value.as_str());
    crate::text::string_push(s, '[');
    let ghost start = s@;
    let mut i: usize = 0;
    while i < cs.len()
        invariant
            i <= cs@.len(),
            cs@ == value@,
            s@ == start + debug_entries(cs@.take(i as int)),
        decreases cs@.len() - i,
    {
        let ghost before = s@;
        if i > 0 {
            crate::text::string_push(s, ',');
            crate::text::string_push(s, ' ');
        }
        let d = debug_char(cs[i]);
        push_text(s, d.as_str());
        assert(cs@.take(i + 1).drop_last() =~= cs@.take(i as int));
        if i == 0 {
            assert(cs@.take(1) =~= seq![cs@[0]]);
            assert(s@ =~= start + debug_entries(cs@.take(i + 1)));
        } else {
            assert(s@ =~= start + debug_entries(cs@.take(i + 1)));
        }
        i += 1;
    }
    assert(cs@.take(cs@.len() as int) =~= cs@);
    crate::text::string_push(s, ']');
    assert(final(s)@ =~= old(s)@ + chars_debug(value@));
}

fn push_version(s: &mut String, v: &Version)
    ensures
        final(s)@ == old(s)@ + version_text(*v),
{
    push_field_decimal(s, v.xmin as u128);
    match v.xmax {
        Some(x) => push_field_decimal(s, x as u128),
        None => {
            crate::text::string_push(s, '[');
            crate::text::string_push(s, '-');
            crate::text::string_push(s, ']');
        },
    }
    let n = utf8_byte_len(v.value.as_str());
    push_field_decimal(s, n);
    crate::text::string_push(s, '\n');
    push_chars_debug(s, &v.value);
    crate::text::string_push(s, '\n');
    assert(final(s)@ =~= old(s)@ + version_text(*v));
}

fn push_item(s: &mut String, it: &crate::btree::node::Items)
    ensures
        final(s)@ == old(s)@ + item_text(it@),
{
    push_field_decimal(s, it.key as u128);
    push_field_decimal(s, it.version.len() as u128);
    crate::text::string_push(s, '\n');
    let ghost start = s@;
    let mut i: usize = 0;
    while i < it.version.len()
        invariant
            i <= it.version@.len(),
            s@ == start + versions_text(it.version@.take(i as int)),
        decreases it.version@.len() - i,
    {
        push_version(s, &it.version[i]);
        assert(it.version@.take(i + 1).drop_last() =~= it.version@.take(i as int));
        assert(s@ =~= start + versions_text(it.version@.take(i + 1)));
        i += 1;
    }
    assert(it.version@.take(it.version@.len() as int) =~= it.version@);
    assert(final(s)@ =~= old(s)@ + item_text(it@));
}

/// Appends the saved text of a node and the children it writes.
pub fn serialization(node: &Node, s: &mut String)
    requires
        ser_ok(node@),
    ensures
        final(s)@ == old(s)@ + node_text(node@),
    decreases node,
{
    proof {
        lemma_tree_of(*node);
    }
    let l = node.input.len();
    push_field_hex(s, node.rank as u64);
    crate::text::string_push(s, '\n');
    push_field_hex(s, l as u64);
    crate::text::string_push(s, '\n');
    let ghost start = s@;
    let mut i: usize = 0;
    while i < l
        invariant
            i <= l,
            l == node.input@.len(),
            node@.input.len() == l,
            forall|k: int| 0 <= k < l ==> #[trigger] node@.input[k] == node.input@[k]@,
            s@ == start + items_text(node@.input.take(i as int)),
        decreases l - i,
    {
        push_item(s, &node.input[i]);
        assert(node@.input.take(i + 1).drop_last() =~= node@.input.take(i as int));
        assert(s@ =~= start + items_text(node@.input.take(i + 1)));
        i += 1;
    }
    assert(node@.input.take(l as int) =~= node@.input);
    push_field_hex(s, node.children.len() as u64);
    crate::text::string_push(s, '\n');
    let ghost mid = s@;
    let nc = node.children.len();
    if nc > 0 {
        let mut j: usize = 0;
        while j <= l
            invariant
                j <= l + 1,
                nc == node.children@.len(),
                l < node.children@.len(),
                l == node@.input.len(),
                node@.children.len() >= l + 1,
                ser_ok(node@),
                node@.children.len() == node.children@.len(),
                forall|k: int| 0 <= k < node.children@.len() ==> #[trigger] node@.children[k] == node.children@[k]@,
                s@ == mid + children_text(node@, j as int),
            decreases l + 1 - j,
        {
            proof {
                assert(decreases_to!(node => node.children));
                assert(decreases_to!(node.children => node.children@));
                assert(decreases_to!(node.children@ => node.children@[j as int]));
                assert(ser_ok(node@.children[j as int]));
            }
            serialization(&node.children[j], s);
            assert(s@ =~= mid + children_text(node@, j + 1));
            j += 1;
        }
    }
    assert(final(s)@ =~= old(s)@ + node_text(node@));
}

/// The saved text of a tree: a first line `[0]`, then the root and the
/// nodes under it.
pub fn serialize_text(node: &Node) -> (r: String)
    requires
        ser_ok(node@),
    ensures
        r@ == saved_text(node@),
{
    let mut s = String::new();
    crate::text::string_push(&mut s, '[');
    crate::text::string_push(&mut s, '0');
    crate::text::string_push(&mut s, ']');
    crate::text::string_push(&mut s, '\n');
    serialization(node, &mut s);
    assert(s@ =~= saved_text(node@));
    s
}

/// The versions of a key are written one after another in the order they
/// are stored: the text of two runs of versions is the text of the first run
/// followed by the text of the second.
pub proof fn law_versions_text_in_stored_order(vs: Seq<Version>, ws: Seq<Version>)
    ensures
        versions_text(vs + ws) == versions_text(vs) + versions_text(ws),
    decreases ws.len(),
{
    if ws.len() == 0 {
        assert(vs + ws =~= vs);
        assert(versions_text(vs) + versions_text(ws) =~= versions_text(vs));
    } else {
        law_versions_text_in_stored_order(vs, ws.drop_last());
        assert((vs + ws).drop_last() =~= vs + ws.drop_last());
        assert((vs + ws).last() == ws.last());
        assert(versions_text(vs + ws) =~= versions_text(vs) + versions_text(ws));
    }
}

/// The text of a single version is that version's text.
pub proof fn law_versions_text_single(v: Version)
    ensures
        versions_text(seq![v]) == version_text(v),
{
    assert(seq![v].drop_last() =~= Seq::<Version>::empty());
    assert(versions_text(Seq::<Version>::empty()) == Seq::<char>::empty());
    assert(versions_text(seq![v]) == versions_text(seq![v].drop_last()) + version_text(seq![v].last()));
    assert(versions_text(seq![v]) =~= version_text(v));
}

/// A key's saved text starts with its oldest version: the text of its
/// versions is the text of the first stored version followed by the text of
/// the rest.
pub proof fn law_first_version_written_first(vs: Seq<Version>)
    requires
        vs.len() > 0,
    ensures
        versions_text(vs) == version_text(vs[0]) + versions_text(vs.skip(1)),
{
    assert(vs =~= seq![vs[0]] + vs.skip(1));
    law_versions_text_in_stored_order(seq![vs[0]], vs.skip(1));
    law_versions_text_single(vs[0]);
}

} // verus!
