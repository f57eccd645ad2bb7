//! Replaying the log at start-up: each record becomes a command line, as if
//! it came from a fixed local address, and the replay ends with an abort.
use vstd::prelude::*;
use crate::text::string_view_fn;
use crate::storage::deser::raw::{chars_of, trim_chars, trim_set};
use crate::storage::wal::log_utils::{create_command, payload_view, spec_create_command};
use crate::storage::wal::record::RecordStruct;
use crate::text::{debug_str, push_chars, push_text, str_debug, string_from_chars};

verus! {

/// The address replayed commands are taken to come from.
pub open spec fn replay_address() -> Seq<char> {
    seq![' ', '1', '2', '7', '.', '0', '.', '0', '.', '1', ':', '3', '4', '2', '5', '4']
}

/// `s` without its double quotes.
pub open spec fn without_quotes(s: Seq<char>) -> Seq<char> {
    s.filter(|c: char| c != '"')
}

/// The command line a record is replayed as: its logged text without the
/// quotes at its ends, written with `{:?}`, followed by the replay address,
/// with every double quote then removed.
pub open spec fn spec_replay_line(payload: Option<(u32, Option<Seq<char>>)>, command_type: u8) -> Seq<char> {
    without_quotes(
        str_debug(trim_set(spec_create_command(payload, command_type), seq!['"'])) + replay_address(),
    )
}

/// Drops every double quote from a text.
fn drop_quotes(s: &Vec<char>) -> (r: Vec<char>)
    ensures
        r@ == without_quotes(s@),
{
    let mut r: Vec<char> = Vec::new();
    let mut i: usize = 0;
    while i < s.len()
        invariant
            i <= s@.len(),
            r@ == without_quotes(s@.take(i as int)),
        decreases s@.len() - i,
    {
        proof {
            reveal_with_fuel(Seq::<_>::filter, 1);
            assert(s@.take(i + 1).drop_last() =~= s@.take(i as int));
        }
        if s[i] != '"' {
            r.push(s[i]);
        }
        assert(r@ =~= without_quotes(s@.take(i + 1)));
        i += 1;
    }
    assert(s@.take(s@.len() as int) =~= s@);
    r
}

/// The command line a record is replayed as (see `spec_replay_line`).
pub fn replay_line(record: RecordStruct) -> (r: String)
    ensures
        r@ == spec_replay_line(payload_view(record.payload), record.command_type),
{
    let command = create_command(record.payload, record.command_type);
    let cs = chars_of(command.as_str());
    let quote = vec!['"'];
    assert(quote@ =~= seq!['"']);
    let trimmed = trim_chars(&cs, &quote);
    let t = string_from_chars(&trimmed);
    let mut line = debug_str(t.as_str());
    push_text(&mut line, " 127.0.0.1:34254");
    proof {
        reveal_strlit(" 127.0.0.1:34254");
        assert(" 127.0.0.1:34254"@ =~= replay_address());
    }
    let all = chars_of(line.as_str());
    let kept = drop_quotes(&all);
    string_from_chars(&kept)
}

/// The abort that closes a replay.
pub open spec fn replay_abort() -> Seq<char> {
    seq!['a', 'b', 'o', 'r', 't'] + replay_address()
}

/// The command lines a log is replayed as, in order, closed by an abort.
pub fn replay_lines(records: Vec<RecordStruct>) -> (r: Vec<String>)
    ensures
        r@.len() == records@.len() + 1,
        forall|i: int|
            0 <= i < records@.len() ==> #[trigger] r@[i]@ == spec_replay_line(
                payload_view(records@[i].payload),
                records@[i].command_type,
            ),
        r@[records@.len() as int]@ == replay_abort(),
{
    let ghost all = records@;
    let total = records.len();
    let mut rest = records;
    let mut out: Vec<String> = Vec::new();
    let mut newest_command: u8 = 0;
    let mut i: usize = 0;
    assert(rest@ =~= all.skip(0));
    while rest.len() > 0
        invariant
            i <= all.len(),
            total == all.len(),
            rest@ == all.skip(i as int),
            out@.len() == i,
            forall|k: int|
                0 <= k < i ==> #[trigger] out@[k]@ == spec_replay_line(
                    payload_view(all[k].payload),
                    all[k].command_type,
                ),
        decreases rest@.len(),
    {
        let point = rest.remove(0);
        assert(point == all[i as int]) by {
            assert(all.skip(i as int)[0] == all[i as int]);
        }
        assert(rest@ =~= all.skip(i + 1));
        newest_command = point.command_type;
        out.push(replay_line(point));
        i += 1;
    }
    // Every record type differs from commit or from abort, so the replay is
    // always closed by an abort.
    if newest_command != 0x01 || newest_command != 0x02 {
        let mut abort = String::new();
        push_text(&mut abort, "abort 127.0.0.1:34254");
        proof {
            reveal_strlit("abort 127.0.0.1:34254");
            assert("abort 127.0.0.1:34254"@ =~= replay_abort());
        }
        out.push(abort);
    }
    out
}

} // verus!
