//! The texts the server answers a client with.
use vstd::prelude::*;
use crate::mvcc::versions::Version;
use crate::text::{debug_str, decimal, push_decimal, push_text, str_debug};

verus! {

/// The answer to a command that names nothing known.
pub open spec fn unknown_reply_text(word: Seq<char>) -> Seq<char> {
    "Unknown command: "@ + word + ". Type 'help' for available commands."@
}

/// The answer to a command that names nothing known.
pub fn unknown_command_reply(word: &str) -> (r: String)
    ensures
        r@ == unknown_reply_text(word@),
{
    let mut s = String::new();
    push_text(&mut s, "Unknown command: ");
    push_text(&mut s, word);
    push_text(&mut s, ". Type 'help' for available commands.");
    assert(s@ =~= unknown_reply_text(word@));
    s
}

/// The answer to a read: the visible value as `{:?}` writes it, or that
/// the key was not found.
pub open spec fn select_reply_text(value: Option<Seq<char>>) -> Seq<char> {
    match value {
        Some(v) => "Value: "@ + str_debug(v),
        None => "Key not found"@,
    }
}

/// The answer to a read (see `select_reply_text`).
pub fn select_reply(value: &Option<String>) -> (r: String)
    ensures
        r@ == select_reply_text(
            match value {
                Some(v) => Some(v@),
                None => None,
            },
        ),
{
    let mut s = String::new();
    match value {
        Some(v) => {
            push_text(&mut s, "Value: ");
            let d = debug_str(v.as_str());
            push_text(&mut s, d.as_str());
        },
        None => {
            push_text(&mut s, "Key not found");
        },
    }
    s
}

/// One version in the answer to a dump: its value as `{:?}` writes it, its
/// creator and its ender (`∞` while live).
pub open spec fn dump_entry(v: Version) -> Seq<char> {
    "Value: "@ + str_debug(v.value@) + " [xmin: "@ + decimal(v.xmin as nat) + " -- xmax: "@ + match v.xmax {
        Some(x) => decimal(x as nat),
        None => "∞"@,
    } + "]"@
}

/// The entries joined with spaces between them.
pub open spec fn join_space(parts: Seq<Seq<char>>) -> Seq<char>
    decreases parts.len(),
{
    if parts.len() == 0 {
        Seq::empty()
    } else if parts.len() == 1 {
        parts[0]
    } else {
        join_space(parts.drop_last()) + " "@ + parts.last()
    }
}

/// The answer to a dump: every version of the key, or that the key was not
/// found.
pub open spec fn dump_reply_text(versions: Option<Seq<Version>>) -> Seq<char> {
    match versions {
        Some(vs) => join_space(vs.map_values(|v: Version| dump_entry(v))),
        None => "Key not found"@,
    }
}

/// The answer to a dump (see `dump_reply_text`).
pub fn dump_reply(versions: &Option<Vec<Version>>) -> (r: String)
    ensures
        r@ == dump_reply_text(
            match versions {
                Some(vs) => Some(vs@),
                None => None,
            },
        ),
{
    let mut s = String::new();
    match versions {
        None => {
            push_text(&mut s, "Key not found");
            s
        },
        Some(vs) => {
            let ghost parts = vs@.map_values(|v: Version| dump_entry(v));
            let mut i: usize = 0;
            assert(s@ =~= join_space(parts.take(0)));
            while i < vs.len()
                invariant
                    i <= vs@.len(),
                    parts == vs@.map_values(|v: Version| dump_entry(v)),
                    s@ == join_space(parts.take(i as int)),
                decreases vs@.len() - i,
            {
                assert(parts.take(i + 1).drop_last() =~= parts.take(i as int));
                if i > 0 {
                    push_text(&mut s, " ");
                }
                let v = &vs[i];
                push_text(&mut s, "Value: ");
                let d = debug_str(v.value.as_str());
                push_text(&mut s, d.as_str());
                push_text(&mut s, " [xmin: ");
                push_decimal(&mut s, v.xmin as u64);
                push_text(&mut s, " -- xmax: ");
                match v.xmax {
                    Some(x) => push_decimal(&mut s, x as u64),
                    None => push_text(&mut s, "∞"),
                }
                push_text(&mut s, "]");
                assert(parts[i as int] == dump_entry(vs@[i as int]));
                if i == 0 {
                    assert(parts.take(1).len() == 1);
                }
                assert(s@ =~= join_space(parts.take(i + 1)));
                i += 1;
            }
            assert(parts.take(i as int) =~= parts);
            s
        },
    }
}

/// The list of commands.
pub open spec fn help_text() -> Seq<char> {
    "insert <key> <value>  - Insert a key-value pair\n
                 update <key> <value>  - Update a key-value pair\n
                 select <key>          - Get the visible value for the key\n
                 dump <key>            - Get all the values for the key\n
                 delete <key>          - Delete a key\n
                 begin                 - Start a cycle\n
                 commit                - Push a new version of the key\n
                 abort                 - Abort the current cycle\n
                 tree                  - Show B-Tree in ASCII art form\n
                 stats                 - Show B-Tree Stats\n
                 help                  - List out all the commands\n
                 exit                  - Exit the program"@
}

/// The list of commands.
pub fn help_reply() -> (r: String)
    ensures
        r@ == help_text(),
{
    let mut s = String::new();
    push_text(&mut s, "insert <key> <value>  - Insert a key-value pair\n
                 update <key> <value>  - Update a key-value pair\n
                 select <key>          - Get the visible value for the key\n
                 dump <key>            - Get all the values for the key\n
                 delete <key>          - Delete a key\n
                 begin                 - Start a cycle\n
                 commit                - Push a new version of the key\n
                 abort                 - Abort the current cycle\n
                 tree                  - Show B-Tree in ASCII art form\n
                 stats                 - Show B-Tree Stats\n
                 help                  - List out all the commands\n
                 exit                  - Exit the program");
    s
}

} // verus!
