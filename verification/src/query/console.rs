//! The commands of the embedded database's console.

use vstd::prelude::*;
use vstd::utf8::*;
use vstd::string::StringSliceAdditionalSpecFns;
use crate::query::command::Query;
use crate::query::words::{split_words, whitespace_words, word_is};

verus! {

/// A console command.
#[derive(Debug, PartialEq)]
pub enum Cli {
    PrintTree,
    ValidateTree,
    FlushPager,
    Query(Query),
    Stop,
    Help,
    Unknown,
}

/// Which command a console line names.
pub enum CliKind {
    PrintTree,
    ValidateTree,
    FlushPager,
    Stop,
    Help,
    Unknown,
}

/// The console command that the words `ws` make: `print tree`, `validate`,
/// `flush`, `stop`, `help`, and anything else unknown.
pub open spec fn console_of(ws: Seq<Seq<char>>) -> CliKind {
    if ws.len() < 1 {
        CliKind::Unknown
    } else {
        let w = encode_utf8(ws[0]);
        if w == "print".spec_bytes() {
            if ws.len() < 2 {
                CliKind::Unknown
            } else if encode_utf8(ws[1]) == "tree".spec_bytes() {
                CliKind::PrintTree
            } else {
                CliKind::Unknown
            }
        } else if w == "validate".spec_bytes() {
            CliKind::ValidateTree
        } else if w == "flush".spec_bytes() {
            CliKind::FlushPager
        } else if w == "stop".spec_bytes() {
            CliKind::Stop
        } else if w == "help".spec_bytes() {
            CliKind::Help
        } else {
            CliKind::Unknown
        }
    }
}

/// `c` is the command of kind `k`.
pub open spec fn is_kind(c: Cli, k: CliKind) -> bool {
    match k {
        CliKind::PrintTree => c is PrintTree,
        CliKind::ValidateTree => c is ValidateTree,
        CliKind::FlushPager => c is FlushPager,
        CliKind::Stop => c is Stop,
        CliKind::Help => c is Help,
        CliKind::Unknown => c is Unknown,
    }
}

/// The console command on a line, by its words as `str::split_whitespace`
/// finds them.
pub fn parse_cli(input: &str) -> (r: Cli)
    ensures
        is_kind(r, console_of(whitespace_words(input@))),
{
    let args = split_words(input);
    let ghost ws = args@.map_values(|w: String| w@);
    if args.len() < 1 {
        return Cli::Unknown;
    }
    if word_is(&args[0], "print") {
        if args.len() < 2 {
            return Cli::Unknown;
        }
        if word_is(&args[1], "tree") {
            Cli::PrintTree
        } else {
            Cli::Unknown
        }
    } else if word_is(&args[0], "validate") {
        Cli::ValidateTree
    } else if word_is(&args[0], "flush") {
        Cli::FlushPager
    } else if word_is(&args[0], "stop") {
        Cli::Stop
    } else if word_is(&args[0], "help") {
        Cli::Help
    } else {
        Cli::Unknown
    }
}

/// `print tree` prints the tree, `validate` checks it, `flush` writes the
/// pages, `stop` stops and `help` helps, whatever words follow.
pub proof fn lemma_console_kinds(rest: Seq<Seq<char>>)
    ensures
        console_of(seq!["print"@, "tree"@] + rest) is PrintTree,
        console_of(seq!["validate"@] + rest) is ValidateTree,
        console_of(seq!["flush"@] + rest) is FlushPager,
        console_of(seq!["stop"@] + rest) is Stop,
        console_of(seq!["help"@] + rest) is Help,
{
    reveal_strlit("print");
    assert(vstd::string::is_ascii("print"));
    vstd::string::is_ascii_spec_bytes("print");
    reveal_strlit("tree");
    assert(vstd::string::is_ascii("tree"));
    vstd::string::is_ascii_spec_bytes("tree");
    reveal_strlit("validate");
    assert(vstd::string::is_ascii("validate"));
    vstd::string::is_ascii_spec_bytes("validate");
    reveal_strlit("flush");
    assert(vstd::string::is_ascii("flush"));
    vstd::string::is_ascii_spec_bytes("flush");
    reveal_strlit("stop");
    assert(vstd::string::is_ascii("stop"));
    vstd::string::is_ascii_spec_bytes("stop");
    reveal_strlit("help");
    assert(vstd::string::is_ascii("help"));
    vstd::string::is_ascii_spec_bytes("help");
    assert((seq!["print"@, "tree"@] + rest)[0] == "print"@ && (seq!["print"@, "tree"@] + rest)[1] == "tree"@);
    assert((seq!["validate"@] + rest)[0] == "validate"@);
    assert((seq!["flush"@] + rest)[0] == "flush"@);
    assert((seq!["stop"@] + rest)[0] == "stop"@);
    assert((seq!["help"@] + rest)[0] == "help"@);
    assert("validate".spec_bytes()[0] != "print".spec_bytes()[0]);
    assert("flush".spec_bytes()[0] != "print".spec_bytes()[0] && "flush".spec_bytes()[0] != "validate".spec_bytes()[0]);
    assert("stop".spec_bytes()[0] != "print".spec_bytes()[0] && "stop".spec_bytes()[0] != "validate".spec_bytes()[0]
        && "stop".spec_bytes()[0] != "flush".spec_bytes()[0]);
    assert("help".spec_bytes()[0] != "print".spec_bytes()[0] && "help".spec_bytes()[0] != "validate".spec_bytes()[0]
        && "help".spec_bytes()[0] != "flush".spec_bytes()[0] && "help".spec_bytes()[0] != "stop".spec_bytes()[0]);
}

} // verus!
