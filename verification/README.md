# asmt

A multi-version B-tree key/value server. Clients send command lines over TCP
(`begin`, `insert`, `update`, `delete`, `select`, `dump`, `commit`, `abort`,
...); every key keeps a list of versions stamped with the transactions that
created and ended them, and a read sees the versions its transaction may see.
Commands are logged to a write-ahead log; from time to time the tree is
cleared of versions nobody can see any more and saved as text.

## Layout

- `src/` — the library, verified with Verus:
  - `btree/` — the tree, its model (`tree.rs`), search paths, insertion and
    writes (`ops.rs`), the repair passes run after an insertion (`repair.rs`,
    `regroup.rs`, `scan.rs`, `sort.rs`, `validation.rs`), the shape of a
    valid B-tree and what the repairs keep of it (`validity.rs`), the tests a
    caller runs before a search or a write (`checks.rs`), counts and drawings.
  - `mvcc/` — versions, visibility of versions to a transaction, garbage
    collection and the view of the tree as of a transaction.
  - `storage/` — the saved text of a tree (`ser.rs`) and how it is read back
    (`deser/`), and the records of the log (`wal/`).
  - `transactions/` — the table of transactions and client addresses.
  - `cli/` — words of a command line, the command they name, the replies.
  - `engine.rs`, `text.rs` — framing of commands and checkpoint decisions;
    building texts and numbers.
- `tests/` — tests of the library on concrete values.
- `app/` — the server itself: sockets, threads, files, and the encoding of
  log records with bincode.
