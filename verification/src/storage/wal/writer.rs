//! Building a log record for a command and sealing it with its checksum.
use vstd::prelude::*;
use crate::storage::wal::log_utils::command_name;
use crate::storage::wal::record::{Payload, RecordStruct};
use crate::text::same_text;

verus! {

/// The record type of a command: its position in begin, commit, abort,
/// insert, update, delete; 0xFF for anything else.
pub open spec fn spec_find_type(args: Seq<char>) -> u8 {
    if args == command_name(0) {
        0
    } else if args == command_name(1) {
        1
    } else if args == command_name(2) {
        2
    } else if args == command_name(3) {
        3
    } else if args == command_name(4) {
        4
    } else if args == command_name(5) {
        5
    } else {
        0xFF
    }
}

/// The record type of a command (see `spec_find_type`).
pub fn find_type(args: &str) -> (r: u8)
    ensures
        r == spec_find_type(args@),
{
    proof {
        reveal_strlit("begin");
        reveal_strlit("commit");
        reveal_strlit("abort");
        reveal_strlit("insert");
        reveal_strlit("update");
        reveal_strlit("delete");
        assert("begin"@ =~= command_name(0));
        assert("commit"@ =~= command_name(1));
        assert("abort"@ =~= command_name(2));
        assert("insert"@ =~= command_name(3));
        assert("update"@ =~= command_name(4));
        assert("delete"@ =~= command_name(5));
    }
    if same_text(args, "begin") {
        0x00
    } else if same_text(args, "commit") {
        0x01
    } else if same_text(args, "abort") {
        0x02
    } else if same_text(args, "insert") {
        0x03
    } else if same_text(args, "update") {
        0x04
    } else if same_text(args, "delete") {
        0x05
    } else {
        0xFF
    }
}

/// The record of a command before it is sealed: magic 1, format version 1,
/// the command's type, the given lengths and previous position, no checksum
/// and no position yet. The lengths are the in-memory sizes of the record
/// and of its payload, which depend on the machine and are measured by the
/// caller.
pub fn new_record(args: &str, payload: Option<Payload>, prev_lsn: u64, payload_len: u32, total_len: u32) -> (r:
    RecordStruct)
    ensures
        r.magic == 1,
        r.version == 1,
        r.command_type == spec_find_type(args@),
        r.total_len == total_len,
        r.payload_len == payload_len,
        r.crc32c == 0,
        r.lsn == 0,
        r.prev_lsn == prev_lsn,
        r.payload == payload,
{
    RecordStruct {
        magic: 0x01,
        version: 1,
        command_type: find_type(args),
        total_len,
        payload_len,
        crc32c: 0,
        lsn: 0,
        prev_lsn,
        payload,
    }
}

/// The CRC-32C checksum of some bytes.
pub uninterp spec fn crc32c_of(data: Seq<u8>) -> u32;

/// The CRC-32C (Castagnoli) checksum of some bytes, with `crc32c::crc32c`.
/// The contract claims only that the checksum depends on the bytes alone.
#[verifier::external_body]
fn crc32c_checksum(data: &Vec<u8>) -> (r: u32)
    ensures
        r == crc32c_of(data@),
{
    crc32c::crc32c(data.as_slice())
}

/// Seals a record: its checksum is that of `encoded`, the encoding of the
/// record as built (checksum and position zero), and its position is where
/// it will be written. Nothing else changes.
pub fn seal_record(record: &mut RecordStruct, encoded: &Vec<u8>, position: u64)
    ensures
        final(record).crc32c == crc32c_of(encoded@),
        final(record).lsn == position,
        final(record).magic == old(record).magic,
        final(record).version == old(record).version,
        final(record).command_type == old(record).command_type,
        final(record).total_len == old(record).total_len,
        final(record).payload_len == old(record).payload_len,
        final(record).prev_lsn == old(record).prev_lsn,
        final(record).payload == old(record).payload,
{
    record.crc32c = crc32c_checksum(encoded);
    record.lsn = position;
}

} // verus!
