//! The server's decisions between commands: where a command ends in what a
//! client sent, and when the tree is saved.
use vstd::prelude::*;

verus! {

/// The position of the first line break in what a client sent, which ends
/// its first command.
pub fn command_end(buffer: &Vec<u8>) -> (r: Option<usize>)
    ensures
        match r {
            Some(i) => i < buffer@.len() && buffer@[i as int] == 10 && forall|j: int|
                0 <= j < i ==> buffer@[j] != 10,
            None => forall|j: int| 0 <= j < buffer@.len() ==> buffer@[j] != 10,
        },
{
    let mut i: usize = 0;
    while i < buffer.len()
        invariant
            i <= buffer@.len(),
            forall|j: int| 0 <= j < i ==> buffer@[j] != 10,
        decreases buffer@.len() - i,
    {
        if buffer[i] == 10 {
            return Some(i);
        }
        i += 1;
    }
    None
}

/// The tree is saved once a hundred writes have gathered since the last
/// save (a `checkpoint` command counts as a hundred), or once the log has
/// reached 4096 bytes.
pub fn should_checkpoint(write_count: usize, wal_size: u64) -> (r: bool)
    ensures
        r == (write_count >= 100 || wal_size >= 4096),
{
    write_count >= 100 || wal_size >= 4096
}

/// What a client may leave unread before it is cut off.
pub fn buffer_too_long(len: usize) -> (r: bool)
    ensures
        r == (len > 50000),
{
    len > 50000
}

} // verus!
