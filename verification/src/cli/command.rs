//! The command a client's words name, with its arguments; the words end
//! with the client's address.
use vstd::prelude::*;
use crate::cli::parser::{copy_string, parse_u32, spec_parse_u32};
use crate::text::string_view_fn;
use crate::text::same_text;

verus! {

/// The text with every letter lower case, as `str::to_lowercase` gives it.
pub uninterp spec fn lowercase(s: Seq<char>) -> Seq<char>;

/// Every character of the text is ASCII.
pub open spec fn all_ascii(s: Seq<char>) -> bool {
    forall|i: int| 0 <= i < s.len() ==> (#[trigger] s[i] as u32) < 128
}

/// The text with the ASCII capitals `A` to `Z` made small.
pub open spec fn ascii_lowercase(s: Seq<char>) -> Seq<char> {
    Seq::new(
        s.len(),
        |i: int|
            if 'A' <= s[i] && s[i] <= 'Z' {
                ((s[i] as u32) + 32) as char
            } else {
                s[i]
            },
    )
}

/// A text in lower case, with `str::to_lowercase`. The contract claims that
/// the result depends on the text alone and, for a text of ASCII characters
/// only, that the capitals `A` to `Z` become small and every other character
/// stays; the mapping of other characters is Unicode's and is not stated
/// here.
#[verifier::external_body]
fn to_lower(s: &str) -> (r: String)
    ensures
        r@ == lowercase(s@),
        all_ascii(s@) ==> r@ == ascii_lowercase(s@),
{
    s.to_lowercase()
}

/// A command of a client.
#[derive(Debug, PartialEq, Eq)]
pub enum Command {
    Begin,
    Commit,
    Abort,
    /// The key (`None` where it does not read as a number) and the value.
    Insert { key: Option<u32>, value: String },
    Update { key: Option<u32>, value: String },
    Delete { key: Option<u32> },
    Checkpoint,
    Select { key: Option<u32> },
    Dump { key: Option<u32> },
    Tree,
    Stats,
    Help,
    Exit,
    /// A known command with the wrong number of words.
    Invalid,
    /// A word that names no command, as typed.
    Unknown(String),
}

/// The model of a command.
pub enum CommandView {
    Begin,
    Commit,
    Abort,
    Insert(Option<u32>, Seq<char>),
    Update(Option<u32>, Seq<char>),
    Delete(Option<u32>),
    Checkpoint,
    Select(Option<u32>),
    Dump(Option<u32>),
    Tree,
    Stats,
    Help,
    Exit,
    Invalid,
    Unknown(Seq<char>),
}

impl View for Command {
    type V = CommandView;

    open spec fn view(&self) -> CommandView {
        match self {
            Command::Begin => CommandView::Begin,
            Command::Commit => CommandView::Commit,
            Command::Abort => CommandView::Abort,
            Command::Insert { key, value } => CommandView::Insert(*key, value@),
            Command::Update { key, value } => CommandView::Update(*key, value@),
            Command::Delete { key } => CommandView::Delete(*key),
            Command::Checkpoint => CommandView::Checkpoint,
            Command::Select { key } => CommandView::Select(*key),
            Command::Dump { key } => CommandView::Dump(*key),
            Command::Tree => CommandView::Tree,
            Command::Stats => CommandView::Stats,
            Command::Help => CommandView::Help,
            Command::Exit => CommandView::Exit,
            Command::Invalid => CommandView::Invalid,
            Command::Unknown(w) => CommandView::Unknown(w@),
        }
    }
}

/// The command named by `word` (the first word, in lower case) with the
/// words `args` (the first word first, the address last): each command
/// wants a fixed number of words, and anything else is `Invalid`; a word
/// that names no command gives `Unknown` with the first word as typed.
pub open spec fn spec_command(word: Seq<char>, args: Seq<Seq<char>>) -> CommandView {
    let n = args.len();
    if word == "begin"@ {
        if n != 2 { CommandView::Invalid } else { CommandView::Begin }
    } else if word == "commit"@ {
        if n != 2 { CommandView::Invalid } else { CommandView::Commit }
    } else if word == "abort"@ {
        if n != 2 { CommandView::Invalid } else { CommandView::Abort }
    } else if word == "insert"@ {
        if n != 4 { CommandView::Invalid } else { CommandView::Insert(spec_parse_u32(args[1]), args[2]) }
    } else if word == "update"@ {
        if n != 4 { CommandView::Invalid } else { CommandView::Update(spec_parse_u32(args[1]), args[2]) }
    } else if word == "delete"@ {
        if n != 3 { CommandView::Invalid } else { CommandView::Delete(spec_parse_u32(args[1])) }
    } else if word == "checkpoint"@ {
        if n != 2 { CommandView::Invalid } else { CommandView::Checkpoint }
    } else if word == "select"@ {
        if n != 3 { CommandView::Invalid } else { CommandView::Select(spec_parse_u32(args[1])) }
    } else if word == "dump"@ {
        if n != 3 { CommandView::Invalid } else { CommandView::Dump(spec_parse_u32(args[1])) }
    } else if word == "tree"@ {
        if n != 2 { CommandView::Invalid } else { CommandView::Tree }
    } else if word == "stats"@ {
        if n != 2 { CommandView::Invalid } else { CommandView::Stats }
    } else if word == "help"@ {
        if n != 2 { CommandView::Invalid } else { CommandView::Help }
    } else if word == "exit"@ {
        if n != 2 { CommandView::Invalid } else { CommandView::Exit }
    } else {
        CommandView::Unknown(args[0])
    }
}

/// The command named by `word` (the first word in lower case) with the
/// words `args` (see `spec_command`).
pub fn command_from_words(word: &str, args: &Vec<String>) -> (r: Command)
    requires
        args@.len() > 0,
    ensures
        r@ == spec_command(word@, args@.map_values(string_view_fn())),
{
    let ghost a = args@.map_values(string_view_fn());
    let n = args.len();
    if n >= 2 {
        assert(a[1] == args@[1]@);
    }
    if n >= 3 {
        assert(a[2] == args@[2]@);
    }
    assert(a[0] == args@[0]@);
    if same_text(word, "begin") {
        if n != 2 { Command::Invalid } else { Command::Begin }
    } else if same_text(word, "commit") {
        if n != 2 { Command::Invalid } else { Command::Commit }
    } else if same_text(word, "abort") {
        if n != 2 { Command::Invalid } else { Command::Abort }
    } else if same_text(word, "insert") {
        if n != 4 {
            Command::Invalid
        } else {
            Command::Insert { key: parse_u32(args[1].as_str()), value: copy_string(&args[2]) }
        }
    } else if same_text(word, "update") {
        if n != 4 {
            Command::Invalid
        } else {
            Command::Update { key: parse_u32(args[1].as_str()), value: copy_string(&args[2]) }
        }
    } else if same_text(word, "delete") {
        if n != 3 { Command::Invalid } else { Command::Delete { key: parse_u32(args[1].as_str()) } }
    } else if same_text(word, "checkpoint") {
        if n != 2 { Command::Invalid } else { Command::Checkpoint }
    } else if same_text(word, "select") {
        if n != 3 { Command::Invalid } else { Command::Select { key: parse_u32(args[1].as_str()) } }
    } else if same_text(word, "dump") {
        if n != 3 { Command::Invalid } else { Command::Dump { key: parse_u32(args[1].as_str()) } }
    } else if same_text(word, "tree") {
        if n != 2 { Command::Invalid } else { Command::Tree }
    } else if same_text(word, "stats") {
        if n != 2 { Command::Invalid } else { Command::Stats }
    } else if same_text(word, "help") {
        if n != 2 { Command::Invalid } else { Command::Help }
    } else if same_text(word, "exit") {
        if n != 2 { Command::Invalid } else { Command::Exit }
    } else {
        Command::Unknown(copy_string(&args[0]))
    }
}

/// The command a client's words name: the first word, in lower case,
/// decides (see `spec_command`).
pub fn parse_command(args: &Vec<String>) -> (r: Command)
    requires
        args@.len() > 0,
    ensures
        r@ == spec_command(lowercase(args@[0]@), args@.map_values(string_view_fn())),
{
    let word = to_lower(args[0].as_str());
    command_from_words(word.as_str(), args)
}

/// `update` reads its words as `insert` does: for four words, the second is
/// read as the key and the third is the value, for both commands alike.
pub proof fn law_update_reads_words_as_insert(args: Seq<Seq<char>>)
    requires
        args.len() == 4,
    ensures
        spec_command("update"@, args) == CommandView::Update(spec_parse_u32(args[1]), args[2]),
        spec_command("insert"@, args) == CommandView::Insert(spec_parse_u32(args[1]), args[2]),
{
    reveal_strlit("update");
    reveal_strlit("insert");
    reveal_strlit("begin");
    reveal_strlit("commit");
    reveal_strlit("abort");
    assert("update"@[0] != "begin"@[0] && "update"@ != "begin"@);
    assert("update"@[0] != "commit"@[0] && "update"@ != "commit"@);
    assert("update"@[0] != "abort"@[0] && "update"@ != "abort"@);
    assert("update"@[0] != "insert"@[0] && "update"@ != "insert"@);
    assert("insert"@[0] != "begin"@[0] && "insert"@ != "begin"@);
    assert("insert"@[0] != "commit"@[0] && "insert"@ != "commit"@);
    assert("insert"@[0] != "abort"@[0] && "insert"@ != "abort"@);
}

/// `update <n> <value> <address>`, with `n` written in decimal, updates key
/// `n` to the value.
pub proof fn law_update_of_decimal_key(first: Seq<char>, n: u32, value: Seq<char>, addr: Seq<char>)
    ensures
        spec_command("update"@, seq![first, crate::text::decimal(n as nat), value, addr]) == CommandView::Update(
            Some(n),
            value,
        ),
{
    law_update_reads_words_as_insert(seq![first, crate::text::decimal(n as nat), value, addr]);
    crate::cli::parser::law_parse_u32_of_decimal(n);
}

/// Every command that names a key reads it from the second word: `n`
/// written in decimal there is key `n`, and for `insert` and `update` the
/// third word is the value.
pub proof fn law_commands_read_decimal_key(first: Seq<char>, n: u32, value: Seq<char>, addr: Seq<char>)
    ensures
        spec_command("insert"@, seq![first, crate::text::decimal(n as nat), value, addr]) == CommandView::Insert(
            Some(n),
            value,
        ),
        spec_command("update"@, seq![first, crate::text::decimal(n as nat), value, addr]) == CommandView::Update(
            Some(n),
            value,
        ),
        spec_command("delete"@, seq![first, crate::text::decimal(n as nat), addr]) == CommandView::Delete(Some(n)),
        spec_command("select"@, seq![first, crate::text::decimal(n as nat), addr]) == CommandView::Select(Some(n)),
        spec_command("dump"@, seq![first, crate::text::decimal(n as nat), addr]) == CommandView::Dump(Some(n)),
{
    reveal_strlit("begin");
    reveal_strlit("commit");
    reveal_strlit("abort");
    reveal_strlit("insert");
    reveal_strlit("update");
    reveal_strlit("delete");
    reveal_strlit("checkpoint");
    reveal_strlit("select");
    reveal_strlit("dump");
    assert("insert"@.len() != "begin"@.len() && "insert"@ != "begin"@);
    assert("insert"@[0] != "commit"@[0] && "insert"@ != "commit"@);
    assert("insert"@.len() != "abort"@.len() && "insert"@ != "abort"@);
    assert("update"@.len() != "begin"@.len() && "update"@ != "begin"@);
    assert("update"@[0] != "commit"@[0] && "update"@ != "commit"@);
    assert("update"@.len() != "abort"@.len() && "update"@ != "abort"@);
    assert("update"@[0] != "insert"@[0] && "update"@ != "insert"@);
    assert("delete"@.len() != "begin"@.len() && "delete"@ != "begin"@);
    assert("delete"@[0] != "commit"@[0] && "delete"@ != "commit"@);
    assert("delete"@.len() != "abort"@.len() && "delete"@ != "abort"@);
    assert("delete"@[0] != "insert"@[0] && "delete"@ != "insert"@);
    assert("delete"@[0] != "update"@[0] && "delete"@ != "update"@);
    assert("select"@.len() != "begin"@.len() && "select"@ != "begin"@);
    assert("select"@[0] != "commit"@[0] && "select"@ != "commit"@);
    assert("select"@.len() != "abort"@.len() && "select"@ != "abort"@);
    assert("select"@[0] != "insert"@[0] && "select"@ != "insert"@);
    assert("select"@[0] != "update"@[0] && "select"@ != "update"@);
    assert("select"@[0] != "delete"@[0] && "select"@ != "delete"@);
    assert("select"@.len() != "checkpoint"@.len() && "select"@ != "checkpoint"@);
    assert("dump"@.len() != "begin"@.len() && "dump"@ != "begin"@);
    assert("dump"@.len() != "commit"@.len() && "dump"@ != "commit"@);
    assert("dump"@.len() != "abort"@.len() && "dump"@ != "abort"@);
    assert("dump"@.len() != "insert"@.len() && "dump"@ != "insert"@);
    assert("dump"@.len() != "update"@.len() && "dump"@ != "update"@);
    assert("dump"@.len() != "delete"@.len() && "dump"@ != "delete"@);
    assert("dump"@.len() != "checkpoint"@.len() && "dump"@ != "checkpoint"@);
    assert("dump"@.len() != "select"@.len() && "dump"@ != "select"@);
    crate::cli::parser::law_parse_u32_of_decimal(n);
}

} // verus!
