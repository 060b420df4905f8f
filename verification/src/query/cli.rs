//! The commands that the server's own console takes.

use vstd::prelude::*;
use vstd::utf8::*;
use vstd::string::StringSliceAdditionalSpecFns;
use crate::store::value::{Value, ValueV};
use crate::query::words::{split_words, whitespace_words, word_is};

verus! {

/// A console command.
#[derive(Debug, PartialEq)]
pub enum Cli {
    PrintTree,
    PrintNodes,
    Get(String),
    SetKey { key: String, value: Value },
    Del(String),
    Stop,
    Help,
    Unknown,
}

/// A console command, with its strings taken as character sequences.
pub enum CliV {
    PrintTree,
    PrintNodes,
    Get(Seq<char>),
    SetKey { key: Seq<char>, value: ValueV },
    Del(Seq<char>),
    Stop,
    Help,
    Unknown,
}

impl View for Cli {
    type V = CliV;

    open spec fn view(&self) -> CliV {
        match self {
            Cli::PrintTree => CliV::PrintTree,
            Cli::PrintNodes => CliV::PrintNodes,
            Cli::Get(k) => CliV::Get(k@),
            Cli::SetKey { key, value } => CliV::SetKey { key: key@, value: value@ },
            Cli::Del(k) => CliV::Del(k@),
            Cli::Stop => CliV::Stop,
            Cli::Help => CliV::Help,
            Cli::Unknown => CliV::Unknown,
        }
    }
}

/// The words name a command together with all the arguments it reads:
/// there is a first word, and `print`, `get` and `del` have a second word,
/// `set` a third.
pub open spec fn cli_complete(ws: Seq<Seq<char>>) -> bool {
    &&& ws.len() >= 1
    &&& (encode_utf8(ws[0]) == "print".spec_bytes() || encode_utf8(ws[0]) == "get".spec_bytes()
        || encode_utf8(ws[0]) == "del".spec_bytes()) ==> ws.len() >= 2
    &&& encode_utf8(ws[0]) == "set".spec_bytes() ==> ws.len() >= 3
}

/// The console command that the words `ws` make.
pub open spec fn cli_of(ws: Seq<Seq<char>>) -> CliV {
    let w = encode_utf8(ws[0]);
    if w == "print".spec_bytes() {
        if encode_utf8(ws[1]) == "tree".spec_bytes() {
            CliV::PrintTree
        } else if encode_utf8(ws[1]) == "nodes".spec_bytes() {
            CliV::PrintNodes
        } else {
            CliV::Unknown
        }
    } else if w == "get".spec_bytes() {
        CliV::Get(ws[1])
    } else if w == "set".spec_bytes() {
        CliV::SetKey { key: ws[1], value: ValueV::Text(ws[2]) }
    } else if w == "del".spec_bytes() {
        CliV::Del(ws[1])
    } else if w == "stop".spec_bytes() {
        CliV::Stop
    } else if w == "help".spec_bytes() {
        CliV::Help
    } else {
        CliV::Unknown
    }
}

/// The console command that the words make; extra words are ignored.
pub fn parse_cli_words(args: &Vec<String>) -> (r: Cli)
    requires
        cli_complete(args@.map_values(|w: String| w@)),
    ensures
        r@ == cli_of(args@.map_values(|w: String| w@)),
{
    if word_is(&args[0], "print") {
        if word_is(&args[1], "tree") {
            Cli::PrintTree
        } else if word_is(&args[1], "nodes") {
            Cli::PrintNodes
        } else {
            Cli::Unknown
        }
    } else if word_is(&args[0], "get") {
        Cli::Get(args[1].clone())
    } else if word_is(&args[0], "set") {
        Cli::SetKey { key: args[1].clone(), value: Value::Text(args[2].clone()) }
    } else if word_is(&args[0], "del") {
        Cli::Del(args[1].clone())
    } else if word_is(&args[0], "stop") {
        Cli::Stop
    } else if word_is(&args[0], "help") {
        Cli::Help
    } else {
        Cli::Unknown
    }
}

/// The console command on a line, or none where the line lacks the words
/// that its command reads.
pub fn parse_cli(input: &str) -> (r: Option<Cli>)
    ensures
        cli_complete(whitespace_words(input@)) ==> (r matches Some(c) && c@ == cli_of(whitespace_words(input@))),
        !cli_complete(whitespace_words(input@)) ==> r is None,
{
    let args = split_words(input);
    let n = args.len();
    if n == 0 {
        return None;
    }
    let needs = if word_is(&args[0], "set") {
        3
    } else if word_is(&args[0], "print") || word_is(&args[0], "get") || word_is(&args[0], "del") {
        2
    } else {
        1
    };
    if n < needs {
        return None;
    }
    Some(parse_cli_words(&args))
}

/// `get k` reads `k`, `set k v` stores the text `v` under `k`, `del k`
/// deletes `k`, `print tree` and `print nodes` print, `stop` stops and
/// `help` helps; words after those the command reads are ignored.
pub proof fn lemma_console_table(k: Seq<char>, v: Seq<char>, rest: Seq<Seq<char>>)
    ensures
        cli_of(seq!["get"@, k] + rest) == CliV::Get(k),
        cli_of(seq!["set"@, k, v] + rest) == (CliV::SetKey { key: k, value: ValueV::Text(v) }),
        cli_of(seq!["del"@, k] + rest) == CliV::Del(k),
        cli_of(seq!["print"@, "tree"@] + rest) == CliV::PrintTree,
        cli_of(seq!["print"@, "nodes"@] + rest) == CliV::PrintNodes,
        cli_of(seq!["stop"@] + rest) == CliV::Stop,
        cli_of(seq!["help"@] + rest) == CliV::Help,
{
    reveal_strlit("print");
    assert(vstd::string::is_ascii("print"));
    vstd::string::is_ascii_spec_bytes("print");
    reveal_strlit("tree");
    assert(vstd::string::is_ascii("tree"));
    vstd::string::is_ascii_spec_bytes("tree");
    reveal_strlit("nodes");
    assert(vstd::string::is_ascii("nodes"));
    vstd::string::is_ascii_spec_bytes("nodes");
    reveal_strlit("get");
    assert(vstd::string::is_ascii("get"));
    vstd::string::is_ascii_spec_bytes("get");
    reveal_strlit("set");
    assert(vstd::string::is_ascii("set"));
    vstd::string::is_ascii_spec_bytes("set");
    reveal_strlit("del");
    assert(vstd::string::is_ascii("del"));
    vstd::string::is_ascii_spec_bytes("del");
    reveal_strlit("stop");
    assert(vstd::string::is_ascii("stop"));
    vstd::string::is_ascii_spec_bytes("stop");
    reveal_strlit("help");
    assert(vstd::string::is_ascii("help"));
    vstd::string::is_ascii_spec_bytes("help");
    assert((seq!["get"@, k] + rest)[0] == "get"@ && (seq!["get"@, k] + rest)[1] == k);
    assert((seq!["set"@, k, v] + rest)[0] == "set"@ && (seq!["set"@, k, v] + rest)[1] == k && (seq!["set"@, k, v] + rest)[2] == v);
    assert((seq!["del"@, k] + rest)[0] == "del"@ && (seq!["del"@, k] + rest)[1] == k);
    assert((seq!["print"@, "tree"@] + rest)[0] == "print"@ && (seq!["print"@, "tree"@] + rest)[1] == "tree"@);
    assert((seq!["print"@, "nodes"@] + rest)[0] == "print"@ && (seq!["print"@, "nodes"@] + rest)[1] == "nodes"@);
    assert((seq!["stop"@] + rest)[0] == "stop"@);
    assert((seq!["help"@] + rest)[0] == "help"@);
    assert("get".spec_bytes()[0] != "print".spec_bytes()[0]);
    assert("set".spec_bytes()[0] != "print".spec_bytes()[0] && "set".spec_bytes()[0] != "get".spec_bytes()[0]);
    assert("del".spec_bytes()[0] != "print".spec_bytes()[0] && "del".spec_bytes()[0] != "get".spec_bytes()[0]
        && "del".spec_bytes()[0] != "set".spec_bytes()[0]);
    assert("stop".spec_bytes()[0] != "print".spec_bytes()[0] && "stop".spec_bytes()[0] != "get".spec_bytes()[0]
        && "stop".spec_bytes()[1] != "set".spec_bytes()[1] && "stop".spec_bytes()[0] != "del".spec_bytes()[0]);
    assert("help".spec_bytes()[0] != "print".spec_bytes()[0] && "help".spec_bytes()[0] != "get".spec_bytes()[0]
        && "help".spec_bytes()[0] != "set".spec_bytes()[0] && "help".spec_bytes()[0] != "del".spec_bytes()[0]
        && "help".spec_bytes()[0] != "stop".spec_bytes()[0]);
    assert("nodes".spec_bytes()[0] != "tree".spec_bytes()[0]);
}

} // verus!
