use asmt::cli::command::{parse_command, Command};
use asmt::cli::parser::{parse_string, parse_u32, split_words};
use asmt::cli::replies::{dump_reply, help_reply, select_reply, unknown_command_reply};
use asmt::engine::{buffer_too_long, command_end, should_checkpoint};
use asmt::mvcc::versions::{Version, VersionInfo, VersionStatus};

fn words(ws: &[&str]) -> Vec<String> {
    ws.iter().map(|s| s.to_string()).collect()
}

#[test]
fn split_words_on_any_white_space() {
    assert_eq!(split_words("  insert\t5  x\n 1.2.3.4:5 "), words(&["insert", "5", "x", "1.2.3.4:5"]));
    assert_eq!(split_words("a\u{3000}b"), words(&["a", "b"]));
    assert!(split_words("   ").is_empty());
}

#[test]
fn parse_string_takes_the_last_word_as_address() {
    let (addr, args) = parse_string("begin\n 127.0.0.1:9000").unwrap();
    assert_eq!(addr, "127.0.0.1:9000");
    assert_eq!(args, words(&["begin", "127.0.0.1:9000"]));
    assert!(parse_string(" \n").is_none());
}

#[test]
fn parse_u32_like_the_standard_library() {
    assert_eq!(parse_u32("42"), Some(42));
    assert_eq!(parse_u32("+7"), Some(7));
    assert_eq!(parse_u32("4294967295"), Some(u32::MAX));
    assert_eq!(parse_u32("4294967296"), None);
    assert_eq!(parse_u32("-1"), None);
    assert_eq!(parse_u32("+"), None);
    assert_eq!(parse_u32(""), None);
    assert_eq!(parse_u32("1a"), None);
}

#[test]
fn parse_command_checks_word_counts() {
    assert_eq!(parse_command(&words(&["begin", "a"])), Command::Begin);
    assert_eq!(parse_command(&words(&["BeGiN", "a"])), Command::Begin);
    assert_eq!(parse_command(&words(&["begin", "x", "a"])), Command::Invalid);
    assert_eq!(parse_command(&words(&["commit", "a"])), Command::Commit);
    assert_eq!(parse_command(&words(&["abort", "a"])), Command::Abort);
    assert_eq!(
        parse_command(&words(&["insert", "5", "v", "a"])),
        Command::Insert { key: Some(5), value: "v".to_string() }
    );
    assert_eq!(
        parse_command(&words(&["insert", "k", "v", "a"])),
        Command::Insert { key: None, value: "v".to_string() }
    );
    assert_eq!(parse_command(&words(&["update", "5", "a"])), Command::Invalid);
    assert_eq!(parse_command(&words(&["delete", "9", "a"])), Command::Delete { key: Some(9) });
    assert_eq!(parse_command(&words(&["select", "9", "a"])), Command::Select { key: Some(9) });
    assert_eq!(parse_command(&words(&["dump", "9", "a"])), Command::Dump { key: Some(9) });
    assert_eq!(parse_command(&words(&["checkpoint", "a"])), Command::Checkpoint);
    assert_eq!(parse_command(&words(&["tree", "a"])), Command::Tree);
    assert_eq!(parse_command(&words(&["stats", "a"])), Command::Stats);
    assert_eq!(parse_command(&words(&["help", "a"])), Command::Help);
    assert_eq!(parse_command(&words(&["exit", "a"])), Command::Exit);
    assert_eq!(parse_command(&words(&["Frob", "a"])), Command::Unknown("Frob".to_string()));
}

#[test]
fn replies_as_the_server_writes_them() {
    assert_eq!(unknown_command_reply("frob"), "Unknown command: frob. Type 'help' for available commands.");
    assert_eq!(select_reply(&Some("hi".to_string())), "Value: \"hi\"");
    assert_eq!(select_reply(&None), "Key not found");
    assert!(help_reply().starts_with("insert <key> <value>  - Insert a key-value pair\n\n                 update"));
    assert!(help_reply().ends_with("exit                  - Exit the program"));
}

#[test]
fn dump_reply_lists_every_version() {
    let vs = vec![
        Version { value: "a".to_string(), xmin: 1, xmax: Some(2), version_info: VersionInfo { version_status: VersionStatus::Active, vid: 0 } },
        Version { value: "b".to_string(), xmin: 2, xmax: None, version_info: VersionInfo { version_status: VersionStatus::Active, vid: 0 } },
    ];
    assert_eq!(
        dump_reply(&Some(vs)),
        "Value: \"a\" [xmin: 1 -- xmax: 2] Value: \"b\" [xmin: 2 -- xmax: ∞]"
    );
    assert_eq!(dump_reply(&None), "Key not found");
}

#[test]
fn command_end_finds_the_first_line_break() {
    assert_eq!(command_end(&b"begin\nabort\n".to_vec()), Some(5));
    assert_eq!(command_end(&b"partial".to_vec()), None);
}

#[test]
fn checkpoint_after_a_hundred_writes_or_a_full_log() {
    assert!(!should_checkpoint(99, 4095));
    assert!(should_checkpoint(100, 0));
    assert!(should_checkpoint(0, 4096));
}

#[test]
fn long_buffers_are_refused() {
    assert!(!buffer_too_long(50000));
    assert!(buffer_too_long(50001));
}

#[test]
fn numbers_written_in_decimal_read_back() {
    for n in [0u32, 7, 10, 1207, u32::MAX] {
        let mut s = String::new();
        asmt::text::push_decimal(&mut s, n as u64);
        assert_eq!(parse_u32(&s), Some(n));
    }
}
