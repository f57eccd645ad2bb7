//! Which logged commands are left unfinished: those after the last commit or
//! abort.
use vstd::prelude::*;
use crate::text::string_view_fn;
use crate::storage::wal::log_utils::{create_command, payload_view, spec_create_command};
use crate::storage::wal::record::RecordStruct;

verus! {

/// The record ends a transaction: a commit or an abort.
pub open spec fn ends_transaction(command_type: u8) -> bool {
    command_type == 1 || command_type == 2
}

/// The texts of the commands logged after the last commit or abort among
/// the first `n` records, in order.
pub open spec fn spec_uncommitted(records: Seq<RecordStruct>, n: nat) -> Seq<Seq<char>>
    decreases n,
{
    if n == 0 {
        Seq::empty()
    } else {
        let r = records[n - 1];
        if ends_transaction(r.command_type) {
            Seq::empty()
        } else {
            spec_uncommitted(records, (n - 1) as nat).push(
                spec_create_command(payload_view(r.payload), r.command_type),
            )
        }
    }
}

/// The commands logged after the last commit or abort, as texts, in the
/// order they were logged.
pub fn get_uncommitted_transactions(records: Vec<RecordStruct>) -> (r: Vec<String>)
    ensures
        r@.map_values(string_view_fn()) == spec_uncommitted(records@, records@.len()),
{
    let ghost all = records@;
    let mut rest = records;
    let mut out: Vec<String> = Vec::new();
    let mut i: usize = 0;
    let total = rest.len();
    assert(rest@ =~= all.skip(0));
    assert(out@.map_values(string_view_fn()) =~= Seq::<Seq<char>>::empty());
    while rest.len() > 0
        invariant
            i <= all.len(),
            all.len() <= usize::MAX,
            rest@ == all.skip(i as int),
            out@.map_values(string_view_fn()) == spec_uncommitted(all, i as nat),
        decreases rest@.len(),
    {
        let point = rest.remove(0);
        assert(point == all[i as int]) by {
            assert(all.skip(i as int)[0] == all[i as int]);
        }
        assert(rest@ =~= all.skip(i + 1));
        if point.command_type == 0x01 || point.command_type == 0x02 {
            out.clear();
            assert(out@.map_values(string_view_fn()) =~= Seq::<Seq<char>>::empty());
        } else {
            let ghost before = out@;
            let command = create_command(point.payload, point.command_type);
            out.push(command);
            assert(out@.map_values(string_view_fn()) =~= before.map_values(string_view_fn()).push(
                command@,
            ));
        }
        i += 1;
    }
    assert(all.skip(i as int).len() == 0);
    out
}

/// The records logged after the last commit or abort among the first `n`,
/// in order.
pub open spec fn spec_uncommitted_records(records: Seq<RecordStruct>, n: nat) -> Seq<RecordStruct>
    decreases n,
{
    if n == 0 {
        Seq::empty()
    } else if ends_transaction(records[n - 1].command_type) {
        Seq::empty()
    } else {
        spec_uncommitted_records(records, (n - 1) as nat).push(records[n - 1])
    }
}

/// The records logged after the last commit or abort, in the order they
/// were logged: what a checkpoint writes back to the emptied log.
pub fn uncommitted_records(records: Vec<RecordStruct>) -> (r: Vec<RecordStruct>)
    ensures
        r@ == spec_uncommitted_records(records@, records@.len()),
{
    let ghost all = records@;
    let mut rest = records;
    let mut out: Vec<RecordStruct> = Vec::new();
    let mut i: usize = 0;
    let count: usize = rest.len();
    assert(count == all.len());
    assert(rest@ =~= all.skip(0));
    while rest.len() > 0
        invariant
            i <= all.len(),
            all.len() <= usize::MAX,
            rest@ == all.skip(i as int),
            out@ == spec_uncommitted_records(all, i as nat),
        decreases rest@.len(),
    {
        let point = rest.remove(0);
        assert(point == all[i as int]) by {
            assert(all.skip(i as int)[0] == all[i as int]);
        }
        assert(rest@ =~= all.skip(i + 1));
        if point.command_type == 0x01 || point.command_type == 0x02 {
            out = Vec::new();
            assert(out@ =~= spec_uncommitted_records(all, (i + 1) as nat));
        } else {
            out.push(point);
        }
        i += 1;
    }
    assert(all.skip(i as int).len() == 0);
    out
}

/// The commands left unfinished are the commands of the records left
/// unfinished, one for one.
pub proof fn law_uncommitted_commands_are_those_of_the_records(records: Seq<RecordStruct>, n: nat)
    requires
        n <= records.len(),
    ensures
        spec_uncommitted(records, n) == spec_uncommitted_records(records, n).map_values(
            |r: RecordStruct| spec_create_command(payload_view(r.payload), r.command_type),
        ),
    decreases n,
{
    let f = |r: RecordStruct| spec_create_command(payload_view(r.payload), r.command_type);
    if n == 0 {
        assert(spec_uncommitted_records(records, n).map_values(f) =~= Seq::<Seq<char>>::empty());
    } else if ends_transaction(records[n - 1].command_type) {
        assert(spec_uncommitted_records(records, n).map_values(f) =~= Seq::<Seq<char>>::empty());
    } else {
        law_uncommitted_commands_are_those_of_the_records(records, (n - 1) as nat);
        assert(spec_uncommitted_records(records, n).map_values(f) =~= spec_uncommitted_records(
            records,
            (n - 1) as nat,
        ).map_values(f).push(f(records[n - 1])));
    }
}

/// What a crash leaves unfinished is exactly what was logged after the last
/// commit or abort: the commands of the records after it, in order.
pub proof fn law_uncommitted_after_last_end(records: Seq<RecordStruct>, k: int)
    requires
        0 <= k < records.len(),
        ends_transaction(records[k].command_type),
        forall|j: int| k < j < records.len() ==> !ends_transaction(#[trigger] records[j].command_type),
    ensures
        spec_uncommitted(records, records.len()) == Seq::new(
            (records.len() - k - 1) as nat,
            |i: int|
                spec_create_command(payload_view(records[k + 1 + i].payload), records[k + 1 + i].command_type),
        ),
{
    lemma_uncommitted_from(records, k, records.len());
}

proof fn lemma_uncommitted_from(records: Seq<RecordStruct>, k: int, n: nat)
    requires
        0 <= k < n <= records.len(),
        ends_transaction(records[k].command_type),
        forall|j: int| k < j < records.len() ==> !ends_transaction(#[trigger] records[j].command_type),
    ensures
        spec_uncommitted(records, n) == Seq::new(
            (n - k - 1) as nat,
            |i: int|
                spec_create_command(payload_view(records[k + 1 + i].payload), records[k + 1 + i].command_type),
        ),
    decreases n,
{
    if n == k + 1 {
        assert(spec_uncommitted(records, n) =~= Seq::<Seq<char>>::empty());
    } else {
        lemma_uncommitted_from(records, k, (n - 1) as nat);
        assert(!ends_transaction(records[n - 1].command_type));
        assert(spec_uncommitted(records, n) =~= Seq::new(
            (n - k - 1) as nat,
            |i: int|
                spec_create_command(payload_view(records[k + 1 + i].payload), records[k + 1 + i].command_type),
        ));
    }
}

} // verus!
