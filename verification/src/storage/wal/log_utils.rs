//! Turning a log record back into the command it logged.
use vstd::prelude::*;
use crate::storage::wal::record::Payload;
use crate::text::{debug_str, decimal, push_decimal, push_text, str_debug};

verus! {

/// The name of the command a record type stands for.
pub open spec fn command_name(id: u8) -> Seq<char> {
    if id == 0 {
        seq!['b', 'e', 'g', 'i', 'n']
    } else if id == 1 {
        seq!['c', 'o', 'm', 'm', 'i', 't']
    } else if id == 2 {
        seq!['a', 'b', 'o', 'r', 't']
    } else if id == 3 {
        seq!['i', 'n', 's', 'e', 'r', 't']
    } else if id == 4 {
        seq!['u', 'p', 'd', 'a', 't', 'e']
    } else if id == 5 {
        seq!['d', 'e', 'l', 'e', 't', 'e']
    } else {
        seq!['u', 'n', 'k', 'n', 'o', 'w', 'n']
    }
}

/// The name of the command a record type stands for.
pub fn find_command_from_id(id: u8) -> (r: String)
    ensures
        r@ == command_name(id),
{
    let mut s = String::new();
    let name = if id == 0 {
        "begin"
    } else if id == 1 {
        "commit"
    } else if id == 2 {
        "abort"
    } else if id == 3 {
        "insert"
    } else if id == 4 {
        "update"
    } else if id == 5 {
        "delete"
    } else {
        "unknown"
    };
    proof {
        reveal_strlit("begin");
        reveal_strlit("commit");
        reveal_strlit("abort");
        reveal_strlit("insert");
        reveal_strlit("update");
        reveal_strlit("delete");
        reveal_strlit("unknown");
    }
    push_text(&mut s, name);
    assert(s@ =~= command_name(id));
    s
}

/// The text a record logs: with a payload, the command name and the key,
/// and the value where there is one, each as `{:?}` writes it and separated
/// by spaces; without, the bare command name.
pub open spec fn spec_create_command(payload: Option<(u32, Option<Seq<char>>)>, command_type: u8) -> Seq<
    char,
> {
    match payload {
        Some((k, v)) => {
            let head = str_debug(command_name(command_type)) + seq![' '] + decimal(k as nat);
            match v {
                Some(value) => head + seq![' '] + str_debug(value),
                None => head,
            }
        },
        None => command_name(command_type),
    }
}

/// The key and value a payload carries.
pub open spec fn payload_view(p: Option<Payload>) -> Option<(u32, Option<Seq<char>>)> {
    match p {
        Some(pl) => Some(
            (
                pl.k,
                match pl.v {
                    Some(s) => Some(s@),
                    None => None,
                },
            ),
        ),
        None => None,
    }
}

/// The text a record logs (see `spec_create_command`).
pub fn create_command(payload_instance: Option<Payload>, command_type: u8) -> (r: String)
    ensures
        r@ == spec_create_command(payload_view(payload_instance), command_type),
{
    match payload_instance {
        Some(payload) => {
            let name = find_command_from_id(command_type);
            let mut s = debug_str(name.as_str());
            push_text(&mut s, " ");
            push_decimal(&mut s, payload.k as u64);
            proof {
                reveal_strlit(" ");
            }
            match payload.v {
                Some(value) => {
                    push_text(&mut s, " ");
                    let d = debug_str(value.as_str());
                    push_text(&mut s, d.as_str());
                },
                None => {},
            }
            s
        },
        None => find_command_from_id(command_type),
    }
}

} // verus!
