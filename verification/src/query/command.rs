//! The server's command language: `GET key`, `SET key value [type]` and
//! `DEL key`, one command a line.

use vstd::prelude::*;
use vstd::utf8::*;
use vstd::string::StringSliceAdditionalSpecFns;
use crate::errors::UserErr;
use crate::store::value::{Value, ValueV};
use crate::query::words::{split_words, whitespace_words, word_is, isize_of, blob_of, parse_isize, parse_blob};

verus! {

broadcast use vstd::seq::group_seq_axioms;

/// A command.
#[derive(Debug, PartialEq)]
pub enum Query {
    Get(String),
    Put { key: String, value: Value },
    /// A `SET` typed `float`: its value's text, which only the caller can
    /// read as a floating-point number.
    PutFloat { key: String, text: String },
    Del(String),
}

/// A command, with its strings taken as character sequences.
pub enum QueryV {
    Get(Seq<char>),
    Put { key: Seq<char>, value: ValueV },
    PutFloat { key: Seq<char>, text: Seq<char> },
    Del(Seq<char>),
}

impl View for Query {
    type V = QueryV;

    open spec fn view(&self) -> QueryV {
        match self {
            Query::Get(k) => QueryV::Get(k@),
            Query::Put { key, value } => QueryV::Put { key: key@, value: value@ },
            Query::PutFloat { key, text } => QueryV::PutFloat { key: key@, text: text@ },
            Query::Del(k) => QueryV::Del(k@),
        }
    }
}

/// What a line of words means: a command, or the error it earns.
pub enum Parsed {
    Command(QueryV),
    /// A typed `SET` whose value does not read as its type.
    BadVal,
    /// Words that make no command.
    BadCall,
}

/// The command that the words `ws` make.
pub open spec fn query_of(ws: Seq<Seq<char>>) -> Parsed {
    if ws.len() == 2 && encode_utf8(ws[0]) == "GET".spec_bytes() {
        Parsed::Command(QueryV::Get(ws[1]))
    } else if ws.len() == 3 && encode_utf8(ws[0]) == "SET".spec_bytes() {
        Parsed::Command(QueryV::Put { key: ws[1], value: ValueV::Text(ws[2]) })
    } else if ws.len() == 4 && encode_utf8(ws[0]) == "SET".spec_bytes() {
        let t = encode_utf8(ws[3]);
        let v = encode_utf8(ws[2]);
        if t == "int".spec_bytes() {
            match isize_of(v) {
                Some(n) => Parsed::Command(QueryV::Put { key: ws[1], value: ValueV::Int(n) }),
                None => Parsed::BadVal,
            }
        } else if t == "float".spec_bytes() {
            Parsed::Command(QueryV::PutFloat { key: ws[1], text: ws[2] })
        } else if t == "text".spec_bytes() {
            Parsed::Command(QueryV::Put { key: ws[1], value: ValueV::Text(ws[2]) })
        } else if t == "blob".spec_bytes() {
            match blob_of(v) {
                Some(b) => Parsed::Command(QueryV::Put { key: ws[1], value: ValueV::Blob(b) }),
                None => Parsed::BadVal,
            }
        } else {
            Parsed::BadVal
        }
    } else if ws.len() == 2 && encode_utf8(ws[0]) == "DEL".spec_bytes() {
        Parsed::Command(QueryV::Del(ws[1]))
    } else {
        Parsed::BadCall
    }
}

/// `r` is what parsing returns for the outcome `p`.
pub open spec fn parsed_as(p: Parsed, r: Result<Query, UserErr>) -> bool {
    match p {
        Parsed::Command(q) => r matches Ok(x) && x@ == q,
        Parsed::BadVal => r matches Err(UserErr::BadVal),
        Parsed::BadCall => r matches Err(UserErr::BadCall),
    }
}

impl Query {
    /// The command that a line of words makes: `BadVal` for a typed `SET`
    /// whose value does not read as its type, `BadCall` for anything else
    /// that is no command.
    pub fn from_words(words: Vec<String>) -> (r: Result<Query, UserErr>)
        ensures
            parsed_as(query_of(words@.map_values(|w: String| w@)), r),
    {
        let ghost ws = words@.map_values(|w: String| w@);
        let n = words.len();
        if n == 2 && word_is(&words[0], "GET") {
            return Ok(Query::Get(words[1].clone()));
        }
        if n == 3 && word_is(&words[0], "SET") {
            return Ok(Query::Put { key: words[1].clone(), value: Value::Text(words[2].clone()) });
        }
        if n == 4 && word_is(&words[0], "SET") {
            let key = words[1].clone();
            let val = &words[2];
            let tag = &words[3];
            if word_is(tag, "int") {
                return match parse_isize(val.as_str().as_bytes()) {
                    Some(x) => Ok(Query::Put { key, value: Value::Int(x) }),
                    None => Err(UserErr::BadVal),
                };
            } else if word_is(tag, "float") {
                return Ok(Query::PutFloat { key, text: val.clone() });
            } else if word_is(tag, "text") {
                return Ok(Query::Put { key, value: Value::Text(val.clone()) });
            } else if word_is(tag, "blob") {
                return match parse_blob(val.as_str().as_bytes()) {
                    Some(b) => Ok(Query::Put { key, value: Value::Blob(b) }),
                    None => Err(UserErr::BadVal),
                };
            } else {
                return Err(UserErr::BadVal);
            }
        }
        if n == 2 && word_is(&words[0], "DEL") {
            return Ok(Query::Del(words[1].clone()));
        }
        Err(UserErr::BadCall)
    }

    /// The command on a line: its words as `str::split_whitespace` finds
    /// them, read by `from_words`.
    pub fn parse(input: &str) -> (r: Result<Query, UserErr>)
        ensures
            parsed_as(query_of(whitespace_words(input@)), r),
    {
        let words = split_words(input);
        Query::from_words(words)
    }
}

/// `GET k` reads `k`, `DEL k` deletes it, and `SET k v` stores the text
/// `v` under `k`, as does `SET k v text`; `SET k v float` hands on the text
/// of the number.
pub proof fn lemma_command_table(k: Seq<char>, v: Seq<char>)
    ensures
        query_of(seq!["GET"@, k]) == Parsed::Command(QueryV::Get(k)),
        query_of(seq!["DEL"@, k]) == Parsed::Command(QueryV::Del(k)),
        query_of(seq!["SET"@, k, v]) == Parsed::Command(QueryV::Put { key: k, value: ValueV::Text(v) }),
        query_of(seq!["SET"@, k, v, "text"@]) == Parsed::Command(QueryV::Put { key: k, value: ValueV::Text(v) }),
        query_of(seq!["SET"@, k, v, "float"@]) == Parsed::Command(QueryV::PutFloat { key: k, text: v }),
{
    reveal_strlit("GET");
    reveal_strlit("DEL");
    reveal_strlit("SET");
    reveal_strlit("int");
    reveal_strlit("float");
    reveal_strlit("text");
    assert(vstd::string::is_ascii("GET"));
    assert(vstd::string::is_ascii("DEL"));
    assert(vstd::string::is_ascii("int"));
    assert(vstd::string::is_ascii("float"));
    assert(vstd::string::is_ascii("text"));
    vstd::string::is_ascii_spec_bytes("GET");
    vstd::string::is_ascii_spec_bytes("DEL");
    vstd::string::is_ascii_spec_bytes("int");
    vstd::string::is_ascii_spec_bytes("float");
    vstd::string::is_ascii_spec_bytes("text");
    assert("DEL".spec_bytes()[0] != "GET".spec_bytes()[0]);
    assert("text".spec_bytes() != "int".spec_bytes()) by {
        assert("text".spec_bytes().len() != "int".spec_bytes().len());
    }
    assert("float".spec_bytes() != "int".spec_bytes()) by {
        assert("float".spec_bytes().len() != "int".spec_bytes().len());
    }
    assert("text".spec_bytes()[0] != "float".spec_bytes()[0]);
}

/// `SET k w int` with `w` a word of decimal digits stores the number the
/// digits spell, never negative; with a `-` before the digits, its
/// negation.
pub proof fn lemma_set_int(k: Seq<char>, w: Seq<char>)
    requires
        encode_utf8(w).len() > 0,
        crate::query::words::all_digits(encode_utf8(w)),
        crate::query::lexer::digits_value(encode_utf8(w)) <= isize::MAX,
    ensures
        query_of(seq!["SET"@, k, w, "int"@]) == Parsed::Command(QueryV::Put { key: k,
            value: ValueV::Int(crate::query::lexer::digits_value(encode_utf8(w)) as isize) }),
        query_of(seq!["SET"@, k, w, "int"@]) matches Parsed::Command(QueryV::Put { value: ValueV::Int(n), .. }) && n >= 0,
{
    reveal_strlit("SET");
    reveal_strlit("int");
    crate::query::words::lemma_isize_of_digits(encode_utf8(w));
}

} // verus!
