//! Splits query text into tokens.

use vstd::prelude::*;
use vstd::utf8::*;
use crate::errors::{QueryErr, UserErr};

verus! {

broadcast use vstd::seq::group_seq_axioms;

/// One lexical unit of a query.
#[derive(Debug, PartialEq)]
pub enum Token {
    // Keywords
    Select, From, Where, Insert, Into, Values,
    Create, Table, Copy, Stdin, Stdout, Update,
    And, Or, Not, Null, As,
    SetKw, To, With, Format, Header,

    // Literals
    Ident(String),
    IntLiteral(i64),
    StringLiteral(String),
    BoolLiteral(bool),

    // Operators
    Eq, NotEq, Lt, Gt, LtEq, GtEq,

    // Punctuation
    Comma, Semicolon, LParen, RParen, Dot, Star,

    Eof,
}

/// A token with its text taken as characters.
pub enum TokenV {
    Select, From, Where, Insert, Into, Values,
    Create, Table, Copy, Stdin, Stdout, Update,
    And, Or, Not, Null, As,
    SetKw, To, With, Format, Header,
    Ident(Seq<char>),
    IntLiteral(i64),
    StringLiteral(Seq<char>),
    BoolLiteral(bool),
    Eq, NotEq, Lt, Gt, LtEq, GtEq,
    Comma, Semicolon, LParen, RParen, Dot, Star,
    Eof,
}

impl View for Token {
    type V = TokenV;

    open spec fn view(&self) -> TokenV {
        match self {
            Token::Select => TokenV::Select,
            Token::From => TokenV::From,
            Token::Where => TokenV::Where,
            Token::Insert => TokenV::Insert,
            Token::Into => TokenV::Into,
            Token::Values => TokenV::Values,
            Token::Create => TokenV::Create,
            Token::Table => TokenV::Table,
            Token::Copy => TokenV::Copy,
            Token::Stdin => TokenV::Stdin,
            Token::Stdout => TokenV::Stdout,
            Token::Update => TokenV::Update,
            Token::And => TokenV::And,
            Token::Or => TokenV::Or,
            Token::Not => TokenV::Not,
            Token::Null => TokenV::Null,
            Token::As => TokenV::As,
            Token::SetKw => TokenV::SetKw,
            Token::To => TokenV::To,
            Token::With => TokenV::With,
            Token::Format => TokenV::Format,
            Token::Header => TokenV::Header,
            Token::Ident(s) => TokenV::Ident(s@),
            Token::IntLiteral(i) => TokenV::IntLiteral(*i),
            Token::StringLiteral(s) => TokenV::StringLiteral(s@),
            Token::BoolLiteral(b) => TokenV::BoolLiteral(*b),
            Token::Eq => TokenV::Eq,
            Token::NotEq => TokenV::NotEq,
            Token::Lt => TokenV::Lt,
            Token::Gt => TokenV::Gt,
            Token::LtEq => TokenV::LtEq,
            Token::GtEq => TokenV::GtEq,
            Token::Comma => TokenV::Comma,
            Token::Semicolon => TokenV::Semicolon,
            Token::LParen => TokenV::LParen,
            Token::RParen => TokenV::RParen,
            Token::Dot => TokenV::Dot,
            Token::Star => TokenV::Star,
            Token::Eof => TokenV::Eof,
        }
    }
}

/// The view of each token of a sequence.
pub open spec fn tokens_view(ts: Seq<Token>) -> Seq<TokenV> {
    ts.map_values(|t: Token| t@)
}

pub open spec fn is_alpha(b: u8) -> bool {
    (65 <= b <= 90) || (97 <= b <= 122)
}

pub open spec fn is_digit(b: u8) -> bool {
    48 <= b <= 57
}

pub open spec fn is_ident_byte(b: u8) -> bool {
    is_alpha(b) || is_digit(b) || b == 95
}

/// The byte with ASCII lower case letters turned to upper case.
pub open spec fn upper(b: u8) -> u8 {
    if 97 <= b <= 122 { (b - 32) as u8 } else { b }
}

/// The first position at or after `i` that does not continue an identifier.
pub open spec fn ident_end(q: Seq<u8>, i: int) -> int
    decreases q.len() - i,
{
    if 0 <= i < q.len() && is_ident_byte(q[i]) { ident_end(q, i + 1) } else { i }
}

/// The first position at or after `i` that is not a decimal digit.
pub open spec fn digits_end(q: Seq<u8>, i: int) -> int
    decreases q.len() - i,
{
    if 0 <= i < q.len() && is_digit(q[i]) { digits_end(q, i + 1) } else { i }
}

/// The number that a string of decimal digits denotes.
pub open spec fn digits_value(d: Seq<u8>) -> nat
    decreases d.len(),
{
    if d.len() == 0 {
        0
    } else {
        digits_value(d.drop_last()) * 10 + (d.last() - 48) as nat
    }
}

/// `w` spells the keyword `k` in any mix of letter cases.
pub open spec fn spells(w: Seq<u8>, k: Seq<u8>) -> bool {
    w.len() == k.len() && forall|i: int| 0 <= i < w.len() ==> upper(#[trigger] w[i]) == k[i]
}

/// The keyword token that a word spells, if it spells one.
pub open spec fn keyword(w: Seq<u8>) -> Option<TokenV> {
    if spells(w, seq![83u8, 69, 76, 69, 67, 84]) { Some(TokenV::Select) }
    else if spells(w, seq![70u8, 82, 79, 77]) { Some(TokenV::From) }
    else if spells(w, seq![87u8, 72, 69, 82, 69]) { Some(TokenV::Where) }
    else if spells(w, seq![73u8, 78, 83, 69, 82, 84]) { Some(TokenV::Insert) }
    else if spells(w, seq![73u8, 78, 84, 79]) { Some(TokenV::Into) }
    else if spells(w, seq![86u8, 65, 76, 85, 69, 83]) { Some(TokenV::Values) }
    else if spells(w, seq![67u8, 82, 69, 65, 84, 69]) { Some(TokenV::Create) }
    else if spells(w, seq![84u8, 65, 66, 76, 69]) { Some(TokenV::Table) }
    else if spells(w, seq![67u8, 79, 80, 89]) { Some(TokenV::Copy) }
    else if spells(w, seq![83u8, 84, 68, 73, 78]) { Some(TokenV::Stdin) }
    else if spells(w, seq![83u8, 84, 68, 79, 85, 84]) { Some(TokenV::Stdout) }
    else if spells(w, seq![85u8, 80, 68, 65, 84, 69]) { Some(TokenV::Update) }
    else if spells(w, seq![65u8, 78, 68]) { Some(TokenV::And) }
    else if spells(w, seq![79u8, 82]) { Some(TokenV::Or) }
    else if spells(w, seq![78u8, 79, 84]) { Some(TokenV::Not) }
    else if spells(w, seq![78u8, 85, 76, 76]) { Some(TokenV::Null) }
    else if spells(w, seq![65u8, 83]) { Some(TokenV::As) }
    else if spells(w, seq![83u8, 69, 84]) { Some(TokenV::SetKw) }
    else if spells(w, seq![84u8, 79]) { Some(TokenV::To) }
    else if spells(w, seq![87u8, 73, 84, 72]) { Some(TokenV::With) }
    else if spells(w, seq![70u8, 79, 82, 77, 65, 84]) { Some(TokenV::Format) }
    else if spells(w, seq![72u8, 69, 65, 68, 69, 82]) { Some(TokenV::Header) }
    else if spells(w, seq![84u8, 82, 85, 69]) { Some(TokenV::BoolLiteral(true)) }
    else if spells(w, seq![70u8, 65, 76, 83, 69]) { Some(TokenV::BoolLiteral(false)) }
    else { None }
}

/// The token for a maximal word of identifier bytes.
pub open spec fn word_token(w: Seq<u8>) -> TokenV {
    match keyword(w) {
        Some(t) => t,
        None => TokenV::Ident(decode_utf8(w)),
    }
}

/// How scanning the body of a string literal ends.
pub enum StrScan {
    /// The closing quote was found; the literal's bytes and the position after the quote.
    Closed(Seq<u8>, int),
    /// The input ended before the closing quote.
    Unclosed,
    /// A backslash is the last byte of the input: the scan reads past the end.
    PastEnd,
}

/// Scans a string literal body from `i`, with `acc` the bytes taken so far.
/// Two quotes in a row stand for one quote, and so does a backslash before a
/// quote; any other backslash stands for itself.
pub open spec fn scan_str(q: Seq<u8>, i: int, acc: Seq<u8>) -> StrScan
    decreases q.len() - i,
{
    if i < 0 || i >= q.len() {
        StrScan::Unclosed
    } else if q[i] == 39 {
        if i + 1 < q.len() && q[i + 1] == 39 {
            scan_str(q, i + 2, acc.push(39))
        } else {
            StrScan::Closed(acc, i + 1)
        }
    } else if q[i] == 92 {
        if i + 1 >= q.len() {
            StrScan::PastEnd
        } else if q[i + 1] == 39 {
            scan_str(q, i + 2, acc.push(39))
        } else {
            scan_str(q, i + 1, acc.push(92))
        }
    } else {
        scan_str(q, i + 1, acc.push(q[i]))
    }
}

/// The result of scanning a string literal whose opening quote is at `start`.
pub open spec fn string_literal(q: Seq<u8>, start: int) -> (Result<TokenV, QueryErr>, int) {
    match scan_str(q, start + 1, seq![]) {
        StrScan::Closed(bytes, e) => if valid_utf8(bytes) {
            (Ok(TokenV::StringLiteral(decode_utf8(bytes))), e)
        } else {
            (Err(QueryErr::BadUtf8), e)
        },
        _ => (Err(QueryErr::StrLiteralNoClose), q.len() as int),
    }
}

/// The result of scanning an integer literal that starts at `start`.
pub open spec fn int_literal(q: Seq<u8>, start: int) -> Result<TokenV, QueryErr> {
    let d = q.subrange(start, digits_end(q, start));
    if d.len() == 0 || digits_value(d) > i64::MAX {
        Err(QueryErr::BadInt)
    } else {
        Ok(TokenV::IntLiteral(digits_value(d) as i64))
    }
}

/// How tokenizing the rest of a query ends.
pub enum LexOutcome {
    Tokens(Seq<TokenV>),
    Fail(QueryErr),
    /// The input holds a string literal whose last byte is a backslash.
    PastEnd,
}

pub open spec fn prepend(t: TokenV, o: LexOutcome) -> LexOutcome {
    match o {
        LexOutcome::Tokens(ts) => LexOutcome::Tokens(seq![t] + ts),
        other => other,
    }
}

pub open spec fn prepend_all(ts: Seq<TokenV>, o: LexOutcome) -> LexOutcome {
    match o {
        LexOutcome::Tokens(rest) => LexOutcome::Tokens(ts + rest),
        other => other,
    }
}

/// The tokens of `q` from position `i` on, ending with `Eof`. Spaces separate
/// tokens; any other byte that starts no token is an error.
pub open spec fn lex_from(q: Seq<u8>, i: int) -> LexOutcome
    decreases q.len() - i,
{
    if i < 0 || i >= q.len() {
        LexOutcome::Tokens(seq![TokenV::Eof])
    } else {
        let b = q[i];
        if b == 32 {
            lex_from(q, i + 1)
        } else if b == 44 {
            prepend(TokenV::Comma, lex_from(q, i + 1))
        } else if b == 59 {
            prepend(TokenV::Semicolon, lex_from(q, i + 1))
        } else if b == 40 {
            prepend(TokenV::LParen, lex_from(q, i + 1))
        } else if b == 41 {
            prepend(TokenV::RParen, lex_from(q, i + 1))
        } else if b == 46 {
            prepend(TokenV::Dot, lex_from(q, i + 1))
        } else if b == 42 {
            prepend(TokenV::Star, lex_from(q, i + 1))
        } else if b == 33 {
            prepend(TokenV::NotEq, lex_from(q, i + 1))
        } else if b == 61 {
            prepend(TokenV::Eq, lex_from(q, i + 1))
        } else if b == 60 {
            if i + 1 < q.len() && q[i + 1] == 61 {
                prepend(TokenV::LtEq, lex_from(q, i + 2))
            } else {
                prepend(TokenV::Lt, lex_from(q, i + 1))
            }
        } else if b == 62 {
            if i + 1 < q.len() && q[i + 1] == 61 {
                prepend(TokenV::GtEq, lex_from(q, i + 2))
            } else {
                prepend(TokenV::Gt, lex_from(q, i + 1))
            }
        } else if b == 39 {
            match scan_str(q, i + 1, seq![]) {
                StrScan::PastEnd => LexOutcome::PastEnd,
                _ => {
                    let (r, e) = string_literal(q, i);
                    match r {
                        Ok(t) => if i < e <= q.len() { prepend(t, lex_from(q, e)) } else { LexOutcome::PastEnd },
                        Err(err) => LexOutcome::Fail(err),
                    }
                },
            }
        } else if is_alpha(b) || b == 95 {
            proof {
                lemma_ident_end_bounds(q, i + 1);
            }
            prepend(word_token(q.subrange(i, ident_end(q, i))), lex_from(q, ident_end(q, i)))
        } else if is_digit(b) {
            proof {
                lemma_digits_end_bounds(q, i + 1);
            }
            match int_literal(q, i) {
                Ok(t) => prepend(t, lex_from(q, digits_end(q, i))),
                Err(err) => LexOutcome::Fail(err),
            }
        } else {
            LexOutcome::Fail(QueryErr::NonAsciiChar { pos: #[verifier::truncate] (i as usize), byte: b })
        }
    }
}

/// What tokenizing a whole query gives.
pub open spec fn lex(q: Seq<u8>) -> LexOutcome {
    lex_from(q, 0)
}

/// Every successful tokenizing ends with `Eof`, and holds it nowhere else,
/// so what `lexerize` gives can always be handed to the parser.
pub proof fn lemma_lex_ends_with_eof(q: Seq<u8>, i: int)
    ensures
        lex_from(q, i) matches LexOutcome::Tokens(ts) ==> ts.len() > 0 && ts.last() == TokenV::Eof,
        lex_from(q, i) matches LexOutcome::Tokens(ts) ==> forall|j: int| 0 <= j < ts.len() - 1 ==> ts[j] != TokenV::Eof,
    decreases q.len() - i,
{
    if 0 <= i < q.len() {
        let b = q[i];
        if b == 60 || b == 62 {
            lemma_lex_ends_with_eof(q, i + 1);
            if i + 1 < q.len() {
                lemma_lex_ends_with_eof(q, i + 2);
            }
        } else if b == 39 {
            match scan_str(q, i + 1, seq![]) {
                StrScan::PastEnd => {},
                _ => {
                    let (r, e) = string_literal(q, i);
                    if i < e <= q.len() {
                        lemma_lex_ends_with_eof(q, e);
                    }
                },
            }
        } else if is_alpha(b) || b == 95 {
            lemma_ident_end_bounds(q, i + 1);
            lemma_lex_ends_with_eof(q, ident_end(q, i));
        } else if is_digit(b) {
            lemma_digits_end_bounds(q, i + 1);
            lemma_lex_ends_with_eof(q, digits_end(q, i));
        } else {
            lemma_lex_ends_with_eof(q, i + 1);
        }
    }
}

pub proof fn lemma_ident_end_bounds(q: Seq<u8>, i: int)
    requires
        0 <= i <= q.len(),
    ensures
        i <= ident_end(q, i) <= q.len(),
        forall|j: int| i <= j < ident_end(q, i) ==> is_ident_byte(#[trigger] q[j]),
    decreases q.len() - i,
{
    if i < q.len() && is_ident_byte(q[i]) {
        lemma_ident_end_bounds(q, i + 1);
    }
}

pub proof fn lemma_digits_end_bounds(q: Seq<u8>, i: int)
    requires
        0 <= i <= q.len(),
    ensures
        i <= digits_end(q, i) <= q.len(),
        forall|j: int| i <= j < digits_end(q, i) ==> is_digit(#[trigger] q[j]),
    decreases q.len() - i,
{
    if i < q.len() && is_digit(q[i]) {
        lemma_digits_end_bounds(q, i + 1);
    }
}

proof fn lemma_scan_str_closed_after(q: Seq<u8>, i: int, acc: Seq<u8>)
    requires
        0 <= i,
    ensures
        scan_str(q, i, acc) matches StrScan::Closed(_, e) ==> i < e <= q.len(),
    decreases q.len() - i,
{
    if 0 <= i < q.len() {
        if q[i] == 39 {
            if i + 1 < q.len() && q[i + 1] == 39 {
                lemma_scan_str_closed_after(q, i + 2, acc.push(39));
            }
        } else if q[i] == 92 {
            if i + 1 < q.len() {
                if q[i + 1] == 39 {
                    lemma_scan_str_closed_after(q, i + 2, acc.push(39));
                } else {
                    lemma_scan_str_closed_after(q, i + 1, acc.push(92));
                }
            }
        } else {
            lemma_scan_str_closed_after(q, i + 1, acc.push(q[i]));
        }
    }
}

/// Builds a `String` from bytes, as `String::from_utf8` does.
/// Trusted: std documents that `String::from_utf8` succeeds exactly when the
/// bytes are valid UTF-8, and that the string then holds those bytes.
#[verifier::external_body]
pub(crate) fn string_from_utf8(bytes: Vec<u8>) -> (r: Option<String>)
    ensures
        r is Some <==> valid_utf8(bytes@),
        r matches Some(s) ==> s@ == decode_utf8(bytes@),
{
    String::from_utf8(bytes).ok()
}

proof fn lemma_ascii_valid_utf8(w: Seq<u8>)
    requires
        forall|j: int| 0 <= j < w.len() ==> (#[trigger] w[j]) < 128,
    ensures
        valid_utf8(w),
{
    assert forall|j: int| 0 <= 0 <= j < w.len() <= w.len() implies #[trigger] is_leading_byte_width_1(w[j]) by {
        assert(w[j] < 128);
    }
    assert(partial_valid_utf8(w, 0)) by {
        assert(w.subrange(0, 0) =~= Seq::<u8>::empty());
    }
    partial_valid_utf8_extend_ascii_block(w, 0, w.len() as int);
    assert(w.subrange(0, w.len() as int) =~= w);
}

fn is_ascii_alphabetic(b: u8) -> (r: bool)
    ensures
        r == is_alpha(b),
{
    (65 <= b && b <= 90) || (97 <= b && b <= 122)
}

fn is_ascii_digit(b: u8) -> (r: bool)
    ensures
        r == is_digit(b),
{
    48 <= b && b <= 57
}

/// Whether `w` spells the keyword `k`, letter case aside.
fn spells_exec(w: &Vec<u8>, k: &[u8]) -> (r: bool)
    ensures
        r == spells(w@, k@),
{
    if w.len() != k.len() {
        return false;
    }
    let mut i: usize = 0;
    while i < w.len()
        invariant
            w.len() == k.len(),
            i <= w.len(),
            forall|j: int| 0 <= j < i ==> upper(w@[j]) == k@[j],
        decreases w.len() - i,
    {
        let b = w[i];
        let u = if 97 <= b && b <= 122 { b - 32 } else { b };
        if u != k[i] {
            return false;
        }
        i += 1;
    }
    true
}

/// The keyword token that `w` spells, if any.
fn keyword_token(w: &Vec<u8>) -> (r: Option<Token>)
    ensures
        match r {
            Some(t) => keyword(w@) == Some(t@),
            None => keyword(w@) is None,
        },
{
    assert(seq![83u8, 69, 76, 69, 67, 84] =~= [83u8, 69, 76, 69, 67, 84]@);
    if spells_exec(w, &[83u8, 69, 76, 69, 67, 84]) { return Some(Token::Select); }
    assert(seq![70u8, 82, 79, 77] =~= [70u8, 82, 79, 77]@);
    if spells_exec(w, &[70u8, 82, 79, 77]) { return Some(Token::From); }
    assert(seq![87u8, 72, 69, 82, 69] =~= [87u8, 72, 69, 82, 69]@);
    if spells_exec(w, &[87u8, 72, 69, 82, 69]) { return Some(Token::Where); }
    assert(seq![73u8, 78, 83, 69, 82, 84] =~= [73u8, 78, 83, 69, 82, 84]@);
    if spells_exec(w, &[73u8, 78, 83, 69, 82, 84]) { return Some(Token::Insert); }
    assert(seq![73u8, 78, 84, 79] =~= [73u8, 78, 84, 79]@);
    if spells_exec(w, &[73u8, 78, 84, 79]) { return Some(Token::Into); }
    assert(seq![86u8, 65, 76, 85, 69, 83] =~= [86u8, 65, 76, 85, 69, 83]@);
    if spells_exec(w, &[86u8, 65, 76, 85, 69, 83]) { return Some(Token::Values); }
    assert(seq![67u8, 82, 69, 65, 84, 69] =~= [67u8, 82, 69, 65, 84, 69]@);
    if spells_exec(w, &[67u8, 82, 69, 65, 84, 69]) { return Some(Token::Create); }
    assert(seq![84u8, 65, 66, 76, 69] =~= [84u8, 65, 66, 76, 69]@);
    if spells_exec(w, &[84u8, 65, 66, 76, 69]) { return Some(Token::Table); }
    assert(seq![67u8, 79, 80, 89] =~= [67u8, 79, 80, 89]@);
    if spells_exec(w, &[67u8, 79, 80, 89]) { return Some(Token::Copy); }
    assert(seq![83u8, 84, 68, 73, 78] =~= [83u8, 84, 68, 73, 78]@);
    if spells_exec(w, &[83u8, 84, 68, 73, 78]) { return Some(Token::Stdin); }
    assert(seq![83u8, 84, 68, 79, 85, 84] =~= [83u8, 84, 68, 79, 85, 84]@);
    if spells_exec(w, &[83u8, 84, 68, 79, 85, 84]) { return Some(Token::Stdout); }
    assert(seq![85u8, 80, 68, 65, 84, 69] =~= [85u8, 80, 68, 65, 84, 69]@);
    if spells_exec(w, &[85u8, 80, 68, 65, 84, 69]) { return Some(Token::Update); }
    assert(seq![65u8, 78, 68] =~= [65u8, 78, 68]@);
    if spells_exec(w, &[65u8, 78, 68]) { return Some(Token::And); }
    assert(seq![79u8, 82] =~= [79u8, 82]@);
    if spells_exec(w, &[79u8, 82]) { return Some(Token::Or); }
    assert(seq![78u8, 79, 84] =~= [78u8, 79, 84]@);
    if spells_exec(w, &[78u8, 79, 84]) { return Some(Token::Not); }
    assert(seq![78u8, 85, 76, 76] =~= [78u8, 85, 76, 76]@);
    if spells_exec(w, &[78u8, 85, 76, 76]) { return Some(Token::Null); }
    assert(seq![65u8, 83] =~= [65u8, 83]@);
    if spells_exec(w, &[65u8, 83]) { return Some(Token::As); }
    assert(seq![83u8, 69, 84] =~= [83u8, 69, 84]@);
    if spells_exec(w, &[83u8, 69, 84]) { return Some(Token::SetKw); }
    assert(seq![84u8, 79] =~= [84u8, 79]@);
    if spells_exec(w, &[84u8, 79]) { return Some(Token::To); }
    assert(seq![87u8, 73, 84, 72] =~= [87u8, 73, 84, 72]@);
    if spells_exec(w, &[87u8, 73, 84, 72]) { return Some(Token::With); }
    assert(seq![70u8, 79, 82, 77, 65, 84] =~= [70u8, 79, 82, 77, 65, 84]@);
    if spells_exec(w, &[70u8, 79, 82, 77, 65, 84]) { return Some(Token::Format); }
    assert(seq![72u8, 69, 65, 68, 69, 82] =~= [72u8, 69, 65, 68, 69, 82]@);
    if spells_exec(w, &[72u8, 69, 65, 68, 69, 82]) { return Some(Token::Header); }
    assert(seq![84u8, 82, 85, 69] =~= [84u8, 82, 85, 69]@);
    if spells_exec(w, &[84u8, 82, 85, 69]) { return Some(Token::BoolLiteral(true)); }
    assert(seq![70u8, 65, 76, 83, 69] =~= [70u8, 65, 76, 83, 69]@);
    if spells_exec(w, &[70u8, 65, 76, 83, 69]) { return Some(Token::BoolLiteral(false)); }
    None
}


/// The bytes of the word that starts at `i`.
pub open spec fn word_at(q: Seq<u8>, i: int) -> Seq<u8> {
    if 0 <= i <= q.len() { q.subrange(i, ident_end(q, i)) } else { seq![] }
}

/// The digits of the number that starts at `i`.
pub open spec fn digits_at(q: Seq<u8>, i: int) -> Seq<u8> {
    if 0 <= i <= q.len() { q.subrange(i, digits_end(q, i)) } else { seq![] }
}

/// The `i64` that a string of decimal digits denotes, if it is not empty and fits.
fn parse_digits(d: &Vec<u8>) -> (r: Option<i64>)
    requires
        forall|j: int| 0 <= j < d@.len() ==> is_digit(#[trigger] d@[j]),
    ensures
        r == (if d@.len() == 0 || digits_value(d@) > i64::MAX { None::<i64> } else { Some(
            digits_value(d@) as i64,
        ) }),
{
    if d.len() == 0 {
        return None;
    }
    let mut acc: u64 = 0;
    let mut over = false;
    let mut i: usize = 0;
    while i < d.len()
        invariant
            i <= d@.len(),
            forall|j: int| 0 <= j < d@.len() ==> is_digit(#[trigger] d@[j]),
            !over ==> acc == digits_value(d@.subrange(0, i as int)) && acc <= i64::MAX,
            over ==> digits_value(d@.subrange(0, i as int)) > i64::MAX,
        decreases d@.len() - i,
    {
        let dig = (d[i] - 48) as u64;
        let ghost pre = d@.subrange(0, i as int);
        assert(d@.subrange(0, i + 1).drop_last() =~= pre);
        let ghost v = digits_value(pre);
        assert(digits_value(d@.subrange(0, i + 1)) == v * 10 + dig);
        if !over {
            if acc > (9223372036854775807u64 - dig) / 10 {
                over = true;
                assert(acc * 10 + dig > 9223372036854775807) by (nonlinear_arith)
                    requires
                        acc > (9223372036854775807u64 - dig) / 10,
                        dig <= 9,
                ;
            } else {
                assert(acc * 10 + dig <= 9223372036854775807) by (nonlinear_arith)
                    requires
                        acc <= (9223372036854775807u64 - dig) / 10,
                        dig <= 9,
                ;
                acc = acc * 10 + dig;
            }
        } else {
            assert(v * 10 + dig >= v) by (nonlinear_arith)
                requires
                    v >= 0,
                    dig >= 0,
            ;
        }
        i += 1;
    }
    assert(d@.subrange(0, d@.len() as int) =~= d@);
    if over {
        None
    } else {
        Some(acc as i64)
    }
}

/// Scans a string literal whose opening quote is at `*end`, leaving `*end`
/// just past the closing quote.
pub fn scan_string_literal(end: &mut usize, query: &[u8]) -> (r: Result<Token, QueryErr>)
    requires
        *old(end) < usize::MAX,
        !(scan_str(query@, *old(end) + 1, seq![]) is PastEnd),
    ensures
        ({
            let (sr, e) = string_literal(query@, *old(end) as int);
            &&& r is Ok <==> sr is Ok
            &&& r matches Ok(t) ==> sr == Ok::<TokenV, QueryErr>(t@)
            &&& r matches Err(err) ==> sr == Err::<TokenV, QueryErr>(err)
            &&& (r is Ok || (r matches Err(QueryErr::BadUtf8))) ==> *final(end) == e
            &&& r matches Err(QueryErr::StrLiteralNoClose) ==> *final(end) >= query@.len()
        }),
{
    let ghost q = query@;
    let ghost start = *end as int;
    let mut literal: Vec<u8> = Vec::new();

    *end += 1;
    loop
        invariant_except_break
            scan_str(q, start + 1, seq![]) == scan_str(q, *end as int, literal@),
            !(scan_str(q, *end as int, literal@) is PastEnd),
        invariant
            q == query@,
            *end > start,
            start == *old(end),
        ensures
            scan_str(q, start + 1, seq![]) == StrScan::Closed(literal@, *end as int),
        decreases query@.len() - *end,
    {
        if *end >= query.len() {
            assert(scan_str(q, *end as int, literal@) is Unclosed);
            return Err(QueryErr::StrLiteralNoClose);
        }
        let b = query[*end];
        if b == 39 {
            if *end + 1 < query.len() && query[*end + 1] == 39 {
                *end += 1;
                literal.push(39);
            } else {
                *end += 1;
                break;
            }
        } else if b == 92 {
            if query[*end + 1] == 39 {
                *end += 1;
                literal.push(39);
            } else {
                literal.push(92);
            }
        } else {
            literal.push(b);
        }
        *end += 1;
    }

    match string_from_utf8(literal) {
        Some(s) => Ok(Token::StringLiteral(s)),
        None => Err(QueryErr::BadUtf8),
    }
}

/// Scans the word that starts at `*end`: a keyword token if the word spells
/// one in any letter case, else an identifier. Leaves `*end` past the word.
pub fn scan_ident_or_keyword(end: &mut usize, query: &[u8]) -> (r: Result<Token, QueryErr>)
    ensures
        r matches Ok(t) && t@ == word_token(word_at(query@, *old(end) as int)),
        *final(end) == if *old(end) <= query@.len() { ident_end(query@, *old(end) as int) } else {
            *old(end) as int
        },
{
    let ghost q = query@;
    let ghost start = *end as int;
    let mut word: Vec<u8> = Vec::new();
    proof {
        if start <= q.len() {
            lemma_ident_end_bounds(q, start);
        }
    }
    while *end < query.len() && (is_ascii_alphabetic(query[*end]) || is_ascii_digit(query[*end])
        || query[*end] == 95)
        invariant
            q == query@,
            start <= *end,
            start <= q.len() ==> *end <= ident_end(q, start) && ident_end(q, *end as int)
                == ident_end(q, start) && word@ == q.subrange(start, *end as int),
            start > q.len() ==> *end == start && word@.len() == 0,
        decreases query@.len() - *end,
    {
        proof {
            lemma_ident_end_bounds(q, *end as int + 1);
            assert(q.subrange(start, *end as int).push(q[*end as int]) =~= q.subrange(start, *end as int + 1));
        }
        word.push(query[*end]);
        *end += 1;
    }
    proof {
        if start <= q.len() {
            lemma_ident_end_bounds(q, start);
            assert forall|j: int| 0 <= j < word@.len() implies (#[trigger] word@[j]) < 128 by {
                assert(word@[j] == q[start + j]);
            }
        }
        assert(word@ =~= word_at(q, start));
        lemma_ascii_valid_utf8(word@);
    }
    match keyword_token(&word) {
        Some(t) => Ok(t),
        None => {
            let s = string_from_utf8(word);
            Ok(Token::Ident(s.unwrap()))
        },
    }
}

/// Scans the decimal integer that starts at `*end`, leaving `*end` past its
/// digits. Fails when there are no digits or the number exceeds `i64::MAX`.
pub fn scan_int_literal(end: &mut usize, query: &[u8]) -> (r: Result<Token, QueryErr>)
    ensures
        ({
            let d = digits_at(query@, *old(end) as int);
            let spec_r = if d.len() == 0 || digits_value(d) > i64::MAX {
                Err::<TokenV, QueryErr>(QueryErr::BadInt)
            } else {
                Ok::<TokenV, QueryErr>(TokenV::IntLiteral(digits_value(d) as i64))
            };
            &&& r matches Ok(t) ==> spec_r == Ok::<TokenV, QueryErr>(t@)
            &&& r matches Err(e) ==> spec_r == Err::<TokenV, QueryErr>(e)
            &&& r is Ok <==> spec_r is Ok
        }),
        *final(end) == if *old(end) <= query@.len() { digits_end(query@, *old(end) as int) } else {
            *old(end) as int
        },
{
    let ghost q = query@;
    let ghost start = *end as int;
    let mut digits: Vec<u8> = Vec::new();
    proof {
        if start <= q.len() {
            lemma_digits_end_bounds(q, start);
        }
    }
    while *end < query.len() && is_ascii_digit(query[*end])
        invariant
            q == query@,
            start <= *end,
            start <= q.len() ==> *end <= digits_end(q, start) && digits_end(q, *end as int)
                == digits_end(q, start) && digits@ == q.subrange(start, *end as int),
            start > q.len() ==> *end == start && digits@.len() == 0,
            forall|j: int| 0 <= j < digits@.len() ==> is_digit(#[trigger] digits@[j]),
        decreases query@.len() - *end,
    {
        proof {
            lemma_digits_end_bounds(q, *end as int + 1);
            assert(q.subrange(start, *end as int).push(q[*end as int]) =~= q.subrange(start, *end as int + 1));
        }
        digits.push(query[*end]);
        *end += 1;
    }
    assert(digits@ =~= digits_at(q, start));
    match parse_digits(&digits) {
        Some(n) => Ok(Token::IntLiteral(n)),
        None => Err(QueryErr::BadInt),
    }
}


proof fn lemma_prepend_push(ts: Seq<TokenV>, t: TokenV, o: LexOutcome)
    ensures
        prepend_all(ts, prepend(t, o)) == prepend_all(ts.push(t), o),
{
    match o {
        LexOutcome::Tokens(rest) => {
            assert(ts + (seq![t] + rest) =~= ts.push(t) + rest);
        },
        _ => {},
    }
}

/// A string literal's scan reads past the end only where the last byte is
/// a backslash.
proof fn lemma_scan_str_in_bounds(q: Seq<u8>, i: int, acc: Seq<u8>)
    requires
        0 <= i,
        q.len() == 0 || q.last() != 92,
    ensures
        !(scan_str(q, i, acc) is PastEnd),
    decreases q.len() - i,
{
    if i < q.len() {
        if q[i] == 39 {
            if i + 1 < q.len() && q[i + 1] == 39 {
                lemma_scan_str_in_bounds(q, i + 2, acc.push(39));
            }
        } else if q[i] == 92 {
            if i + 1 < q.len() {
                if q[i + 1] == 39 {
                    lemma_scan_str_in_bounds(q, i + 2, acc.push(39));
                } else {
                    lemma_scan_str_in_bounds(q, i + 1, acc.push(92));
                }
            }
        } else {
            lemma_scan_str_in_bounds(q, i + 1, acc.push(q[i]));
        }
    }
}

/// Tokenizing reads past the end only where the last byte is a backslash.
proof fn lemma_lex_in_bounds(q: Seq<u8>, i: int)
    requires
        0 <= i,
        q.len() == 0 || q.last() != 92,
    ensures
        !(lex_from(q, i) is PastEnd),
    decreases q.len() - i,
{
    if i < q.len() {
        let b = q[i];
        if b == 60 || b == 62 {
            lemma_lex_in_bounds(q, i + 1);
            if i + 1 < q.len() {
                lemma_lex_in_bounds(q, i + 2);
            }
        } else if b == 39 {
            lemma_scan_str_in_bounds(q, i + 1, seq![]);
            lemma_scan_str_closed_after(q, i + 1, seq![]);
            let (r, e) = string_literal(q, i);
            if i < e <= q.len() {
                lemma_lex_in_bounds(q, e);
            }
        } else if is_alpha(b) || b == 95 {
            lemma_ident_end_bounds(q, i + 1);
            lemma_lex_in_bounds(q, ident_end(q, i));
        } else if is_digit(b) {
            lemma_digits_end_bounds(q, i + 1);
            lemma_lex_in_bounds(q, digits_end(q, i));
        } else {
            lemma_lex_in_bounds(q, i + 1);
        }
    }
}

/// Whether `lexerize` can take the query: true unless its last byte is a
/// backslash, the one byte after which an escape in a string literal has
/// nothing left to read.
pub fn lexable(query: &[u8]) -> (r: bool)
    ensures
        r == (query@.len() == 0 || query@.last() != 92),
        r ==> !(lex(query@) is PastEnd),
{
    let n = query.len();
    let r = n == 0 || query[n - 1] != 92;
    proof {
        if r {
            lemma_lex_in_bounds(query@, 0);
        }
    }
    r
}

/// Splits a query into tokens, ending with `Eof`.
pub fn lexerize(query: &[u8]) -> (r: Result<Vec<Token>, UserErr>)
    requires
        !(lex(query@) is PastEnd),
    ensures
        match r {
            Ok(ts) => lex(query@) == LexOutcome::Tokens(tokens_view(ts@)),
            Err(UserErr::BadQuery(e)) => lex(query@) == LexOutcome::Fail(e),
            Err(_) => false,
        },
{
    let ghost q = query@;
    let mut tokens: Vec<Token> = Vec::new();
    let mut start: usize = 0;
    let mut end: usize;

    assert(prepend_all(tokens_view(tokens@), lex_from(q, 0)) == lex(q)) by {
        assert(tokens_view(tokens@) =~= Seq::<TokenV>::empty());
        match lex_from(q, 0) {
            LexOutcome::Tokens(rest) => assert(Seq::<TokenV>::empty() + rest =~= rest),
            _ => {},
        }
    }

    loop
        invariant_except_break
            prepend_all(tokens_view(tokens@), lex_from(q, start as int)) == lex(q),
        invariant
            q == query@,
            start <= query@.len(),
            !(lex(q) is PastEnd),
        ensures
            lex(q) == LexOutcome::Tokens(tokens_view(tokens@)),
        decreases query@.len() - start,
    {
        let ghost ts0 = tokens_view(tokens@);
        if start >= query.len() {
            tokens.push(Token::Eof);
            proof {
                assert(tokens_view(tokens@) =~= ts0.push(TokenV::Eof));
                assert(ts0 + seq![TokenV::Eof] =~= ts0.push(TokenV::Eof));
            }
            break;
        }

        end = start;

        if query[start] == 32 {
            start += 1;
            continue;
        }

        let b = query[start];
        let ghost i = start as int;
        if b == 44 || b == 59 || b == 40 || b == 41 || b == 46 || b == 42 || b == 33 || b == 61 {
            let t = if b == 44 {
                Token::Comma
            } else if b == 59 {
                Token::Semicolon
            } else if b == 40 {
                Token::LParen
            } else if b == 41 {
                Token::RParen
            } else if b == 46 {
                Token::Dot
            } else if b == 42 {
                Token::Star
            } else if b == 33 {
                Token::NotEq
            } else {
                Token::Eq
            };
            proof {
                lemma_prepend_push(ts0, t@, lex_from(q, i + 1));
            }
            tokens.push(t);
            start += 1;
            proof {
                assert(tokens_view(tokens@) =~= ts0.push(t@));
            }
        } else if b == 60 || b == 62 {
            let two = start + 1 < query.len() && query[start + 1] == 61;
            let t = if b == 60 {
                if two { Token::LtEq } else { Token::Lt }
            } else {
                if two { Token::GtEq } else { Token::Gt }
            };
            proof {
                lemma_prepend_push(ts0, t@, lex_from(q, if two { i + 2 } else { i + 1 }));
            }
            tokens.push(t);
            start += if two { 2 } else { 1 };
            proof {
                assert(tokens_view(tokens@) =~= ts0.push(t@));
            }
        } else if b == 39 {
            proof {
                lemma_scan_str_closed_after(q, i + 1, seq![]);
            }
            match scan_string_literal(&mut end, query) {
                Ok(t) => {
                    proof {
                        lemma_prepend_push(ts0, t@, lex_from(q, end as int));
                    }
                    tokens.push(t);
                    start = end;
                    proof {
                        assert(tokens_view(tokens@) =~= ts0.push(t@));
                    }
                },
                Err(e) => {
                    return Err(UserErr::BadQuery(e));
                },
            }
        } else if is_ascii_alphabetic(b) || b == 95 {
            proof {
                lemma_ident_end_bounds(q, i);
                lemma_ident_end_bounds(q, i + 1);
            }
            match scan_ident_or_keyword(&mut end, query) {
                Ok(t) => {
                    proof {
                        lemma_prepend_push(ts0, t@, lex_from(q, end as int));
                    }
                    tokens.push(t);
                    start = end;
                    proof {
                        assert(tokens_view(tokens@) =~= ts0.push(t@));
                    }
                },
                Err(e) => {
                    return Err(UserErr::BadQuery(e));
                },
            }
        } else if is_ascii_digit(b) {
            proof {
                lemma_digits_end_bounds(q, i);
                lemma_digits_end_bounds(q, i + 1);
            }
            match scan_int_literal(&mut end, query) {
                Ok(t) => {
                    proof {
                        lemma_prepend_push(ts0, t@, lex_from(q, end as int));
                    }
                    tokens.push(t);
                    start = end;
                    proof {
                        assert(tokens_view(tokens@) =~= ts0.push(t@));
                    }
                },
                Err(e) => {
                    return Err(UserErr::BadQuery(e));
                },
            }
        } else {
            return Err(UserErr::BadQuery(QueryErr::NonAsciiChar { pos: start, byte: b }));
        }
    }

    Ok(tokens)
}

/// Each operator and punctuation spelling gives its token and tokenizing
/// goes on right after it: `,` `;` `(` `)` `.` `*` give `Comma`,
/// `Semicolon`, `LParen`, `RParen`, `Dot`, `Star`; `!` gives `NotEq` and
/// `=` gives `Eq`; `<=` and `>=` give `LtEq` and `GtEq`, two bytes at once;
/// a `<` or `>` not followed by `=` gives `Lt` or `Gt`.
pub proof fn lemma_lex_operator_table(q: Seq<u8>, i: int)
    requires
        0 <= i < q.len(),
    ensures
        q[i] == 44 ==> lex_from(q, i) == prepend(TokenV::Comma, lex_from(q, i + 1)),
        q[i] == 59 ==> lex_from(q, i) == prepend(TokenV::Semicolon, lex_from(q, i + 1)),
        q[i] == 40 ==> lex_from(q, i) == prepend(TokenV::LParen, lex_from(q, i + 1)),
        q[i] == 41 ==> lex_from(q, i) == prepend(TokenV::RParen, lex_from(q, i + 1)),
        q[i] == 46 ==> lex_from(q, i) == prepend(TokenV::Dot, lex_from(q, i + 1)),
        q[i] == 42 ==> lex_from(q, i) == prepend(TokenV::Star, lex_from(q, i + 1)),
        q[i] == 33 ==> lex_from(q, i) == prepend(TokenV::NotEq, lex_from(q, i + 1)),
        q[i] == 61 ==> lex_from(q, i) == prepend(TokenV::Eq, lex_from(q, i + 1)),
        q[i] == 60 && i + 1 < q.len() && q[i + 1] == 61 ==> lex_from(q, i) == prepend(TokenV::LtEq, lex_from(q, i + 2)),
        q[i] == 60 && !(i + 1 < q.len() && q[i + 1] == 61) ==> lex_from(q, i) == prepend(TokenV::Lt, lex_from(q, i + 1)),
        q[i] == 62 && i + 1 < q.len() && q[i + 1] == 61 ==> lex_from(q, i) == prepend(TokenV::GtEq, lex_from(q, i + 2)),
        q[i] == 62 && !(i + 1 < q.len() && q[i + 1] == 61) ==> lex_from(q, i) == prepend(TokenV::Gt, lex_from(q, i + 1)),
        q[i] == 32 ==> lex_from(q, i) == lex_from(q, i + 1),
{
}

/// Where tokenizing from just after an operator succeeds, the tokens from
/// the operator start with the operator's own token: `<=` gives `LtEq`, `<`
/// alone `Lt`, `>=` `GtEq`, `>` alone `Gt`, `=` `Eq`, `!` `NotEq`.
pub proof fn lemma_lex_comparison_first(q: Seq<u8>, i: int)
    requires
        0 <= i < q.len(),
    ensures
        lex_from(q, i) matches LexOutcome::Tokens(ts) ==> ts.len() > 0 && {
            &&& (q[i] == 60 && i + 1 < q.len() && q[i + 1] == 61 ==> ts[0] == TokenV::LtEq)
            &&& (q[i] == 60 && !(i + 1 < q.len() && q[i + 1] == 61) ==> ts[0] == TokenV::Lt)
            &&& (q[i] == 62 && i + 1 < q.len() && q[i + 1] == 61 ==> ts[0] == TokenV::GtEq)
            &&& (q[i] == 62 && !(i + 1 < q.len() && q[i + 1] == 61) ==> ts[0] == TokenV::Gt)
            &&& (q[i] == 61 ==> ts[0] == TokenV::Eq)
            &&& (q[i] == 33 ==> ts[0] == TokenV::NotEq)
        },
{
    lemma_lex_operator_table(q, i);
    if q[i] == 60 || q[i] == 62 || q[i] == 61 || q[i] == 33 {
    } else {
        lemma_lex_ends_with_eof(q, i);
    }
}

/// Each keyword, in any mix of letter cases, reads as its own token:
/// `SELECT`, `FROM`, `WHERE`, `INSERT`, `INTO`, `VALUES`, `CREATE`,
/// `TABLE`, `COPY`, `STDIN`, `STDOUT`, `UPDATE`, `AND`, `OR`, `NOT`, `NULL`,
/// `AS`, `SET`, `TO`, `WITH`, `FORMAT`, `HEADER`, and `TRUE` and `FALSE` as
/// the two truth values.
pub proof fn lemma_keyword_table(w: Seq<u8>)
    ensures
        spells(w, seq![83u8, 69u8, 76u8, 69u8, 67u8, 84u8]) ==> word_token(w) == TokenV::Select,
        spells(w, seq![70u8, 82u8, 79u8, 77u8]) ==> word_token(w) == TokenV::From,
        spells(w, seq![87u8, 72u8, 69u8, 82u8, 69u8]) ==> word_token(w) == TokenV::Where,
        spells(w, seq![73u8, 78u8, 83u8, 69u8, 82u8, 84u8]) ==> word_token(w) == TokenV::Insert,
        spells(w, seq![73u8, 78u8, 84u8, 79u8]) ==> word_token(w) == TokenV::Into,
        spells(w, seq![86u8, 65u8, 76u8, 85u8, 69u8, 83u8]) ==> word_token(w) == TokenV::Values,
        spells(w, seq![67u8, 82u8, 69u8, 65u8, 84u8, 69u8]) ==> word_token(w) == TokenV::Create,
        spells(w, seq![84u8, 65u8, 66u8, 76u8, 69u8]) ==> word_token(w) == TokenV::Table,
        spells(w, seq![67u8, 79u8, 80u8, 89u8]) ==> word_token(w) == TokenV::Copy,
        spells(w, seq![83u8, 84u8, 68u8, 73u8, 78u8]) ==> word_token(w) == TokenV::Stdin,
        spells(w, seq![83u8, 84u8, 68u8, 79u8, 85u8, 84u8]) ==> word_token(w) == TokenV::Stdout,
        spells(w, seq![85u8, 80u8, 68u8, 65u8, 84u8, 69u8]) ==> word_token(w) == TokenV::Update,
        spells(w, seq![65u8, 78u8, 68u8]) ==> word_token(w) == TokenV::And,
        spells(w, seq![79u8, 82u8]) ==> word_token(w) == TokenV::Or,
        spells(w, seq![78u8, 79u8, 84u8]) ==> word_token(w) == TokenV::Not,
        spells(w, seq![78u8, 85u8, 76u8, 76u8]) ==> word_token(w) == TokenV::Null,
        spells(w, seq![65u8, 83u8]) ==> word_token(w) == TokenV::As,
        spells(w, seq![83u8, 69u8, 84u8]) ==> word_token(w) == TokenV::SetKw,
        spells(w, seq![84u8, 79u8]) ==> word_token(w) == TokenV::To,
        spells(w, seq![87u8, 73u8, 84u8, 72u8]) ==> word_token(w) == TokenV::With,
        spells(w, seq![70u8, 79u8, 82u8, 77u8, 65u8, 84u8]) ==> word_token(w) == TokenV::Format,
        spells(w, seq![72u8, 69u8, 65u8, 68u8, 69u8, 82u8]) ==> word_token(w) == TokenV::Header,
        spells(w, seq![84u8, 82u8, 85u8, 69u8]) ==> word_token(w) == TokenV::BoolLiteral(true),
        spells(w, seq![70u8, 65u8, 76u8, 83u8, 69u8]) ==> word_token(w) == TokenV::BoolLiteral(false),
{
    if spells(w, seq![83u8, 69u8, 76u8, 69u8, 67u8, 84u8]) {
        assert(upper(w[0]) == 83u8);
        assert(upper(w[1]) == 69u8);
        assert(upper(w[2]) == 76u8);
        assert(upper(w[3]) == 69u8);
        assert(upper(w[4]) == 67u8);
        assert(upper(w[5]) == 84u8);
    }
    if spells(w, seq![70u8, 82u8, 79u8, 77u8]) {
        assert(upper(w[0]) == 70u8);
        assert(upper(w[1]) == 82u8);
        assert(upper(w[2]) == 79u8);
        assert(upper(w[3]) == 77u8);
    }
    if spells(w, seq![87u8, 72u8, 69u8, 82u8, 69u8]) {
        assert(upper(w[0]) == 87u8);
        assert(upper(w[1]) == 72u8);
        assert(upper(w[2]) == 69u8);
        assert(upper(w[3]) == 82u8);
        assert(upper(w[4]) == 69u8);
    }
    if spells(w, seq![73u8, 78u8, 83u8, 69u8, 82u8, 84u8]) {
        assert(upper(w[0]) == 73u8);
        assert(upper(w[1]) == 78u8);
        assert(upper(w[2]) == 83u8);
        assert(upper(w[3]) == 69u8);
        assert(upper(w[4]) == 82u8);
        assert(upper(w[5]) == 84u8);
    }
    if spells(w, seq![73u8, 78u8, 84u8, 79u8]) {
        assert(upper(w[0]) == 73u8);
        assert(upper(w[1]) == 78u8);
        assert(upper(w[2]) == 84u8);
        assert(upper(w[3]) == 79u8);
    }
    if spells(w, seq![86u8, 65u8, 76u8, 85u8, 69u8, 83u8]) {
        assert(upper(w[0]) == 86u8);
        assert(upper(w[1]) == 65u8);
        assert(upper(w[2]) == 76u8);
        assert(upper(w[3]) == 85u8);
        assert(upper(w[4]) == 69u8);
        assert(upper(w[5]) == 83u8);
    }
    if spells(w, seq![67u8, 82u8, 69u8, 65u8, 84u8, 69u8]) {
        assert(upper(w[0]) == 67u8);
        assert(upper(w[1]) == 82u8);
        assert(upper(w[2]) == 69u8);
        assert(upper(w[3]) == 65u8);
        assert(upper(w[4]) == 84u8);
        assert(upper(w[5]) == 69u8);
    }
    if spells(w, seq![84u8, 65u8, 66u8, 76u8, 69u8]) {
        assert(upper(w[0]) == 84u8);
        assert(upper(w[1]) == 65u8);
        assert(upper(w[2]) == 66u8);
        assert(upper(w[3]) == 76u8);
        assert(upper(w[4]) == 69u8);
    }
    if spells(w, seq![67u8, 79u8, 80u8, 89u8]) {
        assert(upper(w[0]) == 67u8);
        assert(upper(w[1]) == 79u8);
        assert(upper(w[2]) == 80u8);
        assert(upper(w[3]) == 89u8);
    }
    if spells(w, seq![83u8, 84u8, 68u8, 73u8, 78u8]) {
        assert(upper(w[0]) == 83u8);
        assert(upper(w[1]) == 84u8);
        assert(upper(w[2]) == 68u8);
        assert(upper(w[3]) == 73u8);
        assert(upper(w[4]) == 78u8);
    }
    if spells(w, seq![83u8, 84u8, 68u8, 79u8, 85u8, 84u8]) {
        assert(upper(w[0]) == 83u8);
        assert(upper(w[1]) == 84u8);
        assert(upper(w[2]) == 68u8);
        assert(upper(w[3]) == 79u8);
        assert(upper(w[4]) == 85u8);
        assert(upper(w[5]) == 84u8);
    }
    if spells(w, seq![85u8, 80u8, 68u8, 65u8, 84u8, 69u8]) {
        assert(upper(w[0]) == 85u8);
        assert(upper(w[1]) == 80u8);
        assert(upper(w[2]) == 68u8);
        assert(upper(w[3]) == 65u8);
        assert(upper(w[4]) == 84u8);
        assert(upper(w[5]) == 69u8);
    }
    if spells(w, seq![65u8, 78u8, 68u8]) {
        assert(upper(w[0]) == 65u8);
        assert(upper(w[1]) == 78u8);
        assert(upper(w[2]) == 68u8);
    }
    if spells(w, seq![79u8, 82u8]) {
        assert(upper(w[0]) == 79u8);
        assert(upper(w[1]) == 82u8);
    }
    if spells(w, seq![78u8, 79u8, 84u8]) {
        assert(upper(w[0]) == 78u8);
        assert(upper(w[1]) == 79u8);
        assert(upper(w[2]) == 84u8);
    }
    if spells(w, seq![78u8, 85u8, 76u8, 76u8]) {
        assert(upper(w[0]) == 78u8);
        assert(upper(w[1]) == 85u8);
        assert(upper(w[2]) == 76u8);
        assert(upper(w[3]) == 76u8);
    }
    if spells(w, seq![65u8, 83u8]) {
        assert(upper(w[0]) == 65u8);
        assert(upper(w[1]) == 83u8);
    }
    if spells(w, seq![83u8, 69u8, 84u8]) {
        assert(upper(w[0]) == 83u8);
        assert(upper(w[1]) == 69u8);
        assert(upper(w[2]) == 84u8);
    }
    if spells(w, seq![84u8, 79u8]) {
        assert(upper(w[0]) == 84u8);
        assert(upper(w[1]) == 79u8);
    }
    if spells(w, seq![87u8, 73u8, 84u8, 72u8]) {
        assert(upper(w[0]) == 87u8);
        assert(upper(w[1]) == 73u8);
        assert(upper(w[2]) == 84u8);
        assert(upper(w[3]) == 72u8);
    }
    if spells(w, seq![70u8, 79u8, 82u8, 77u8, 65u8, 84u8]) {
        assert(upper(w[0]) == 70u8);
        assert(upper(w[1]) == 79u8);
        assert(upper(w[2]) == 82u8);
        assert(upper(w[3]) == 77u8);
        assert(upper(w[4]) == 65u8);
        assert(upper(w[5]) == 84u8);
    }
    if spells(w, seq![72u8, 69u8, 65u8, 68u8, 69u8, 82u8]) {
        assert(upper(w[0]) == 72u8);
        assert(upper(w[1]) == 69u8);
        assert(upper(w[2]) == 65u8);
        assert(upper(w[3]) == 68u8);
        assert(upper(w[4]) == 69u8);
        assert(upper(w[5]) == 82u8);
    }
    if spells(w, seq![84u8, 82u8, 85u8, 69u8]) {
        assert(upper(w[0]) == 84u8);
        assert(upper(w[1]) == 82u8);
        assert(upper(w[2]) == 85u8);
        assert(upper(w[3]) == 69u8);
    }
    if spells(w, seq![70u8, 65u8, 76u8, 83u8, 69u8]) {
        assert(upper(w[0]) == 70u8);
        assert(upper(w[1]) == 65u8);
        assert(upper(w[2]) == 76u8);
        assert(upper(w[3]) == 83u8);
        assert(upper(w[4]) == 69u8);
    }
}

/// A run of digits reads as one integer token holding the number the
/// digits spell, which is never negative, and tokenizing goes on after the
/// run.
pub proof fn lemma_lex_int_literal(q: Seq<u8>, i: int)
    requires
        0 <= i < q.len(),
        is_digit(q[i]),
        digits_value(q.subrange(i, digits_end(q, i))) <= i64::MAX,
    ensures
        lex_from(q, i) == prepend(TokenV::IntLiteral(digits_value(q.subrange(i, digits_end(q, i))) as i64), lex_from(q, digits_end(q, i))),
        lex_from(q, i) matches LexOutcome::Tokens(ts) ==> (ts[0] matches TokenV::IntLiteral(n) && n >= 0),
{
    lemma_digits_end_bounds(q, i + 1);
    assert(digits_end(q, i) == digits_end(q, i + 1));
    assert(q.subrange(i, digits_end(q, i)).len() > 0);
}

proof fn lemma_scan_plain(q: Seq<u8>, k: int, j: int, acc: Seq<u8>)
    requires
        0 <= k <= j < q.len(),
        q[j] == 39,
        !(j + 1 < q.len() && q[j + 1] == 39),
        forall|t: int| k <= t < j ==> q[t] != 39 && q[t] != 92,
    ensures
        scan_str(q, k, acc) == StrScan::Closed(acc + q.subrange(k, j), j + 1),
    decreases j - k,
{
    if k == j {
        assert(q.subrange(k, j) =~= Seq::<u8>::empty());
        assert(acc + q.subrange(k, j) =~= acc);
    } else {
        lemma_scan_plain(q, k + 1, j, acc.push(q[k]));
        assert(acc.push(q[k]) + q.subrange(k + 1, j) =~= acc + q.subrange(k, j));
    }
}

/// A quoted text with no quote or backslash inside reads as one string
/// token holding that text, and tokenizing goes on after the closing quote.
pub proof fn lemma_lex_plain_string(q: Seq<u8>, i: int, j: int)
    requires
        0 <= i < j < q.len(),
        q[i] == 39,
        q[j] == 39,
        !(j + 1 < q.len() && q[j + 1] == 39),
        forall|t: int| i < t < j ==> q[t] != 39 && q[t] != 92,
        valid_utf8(q.subrange(i + 1, j)),
    ensures
        lex_from(q, i) == prepend(TokenV::StringLiteral(decode_utf8(q.subrange(i + 1, j))), lex_from(q, j + 1)),
{
    lemma_scan_plain(q, i + 1, j, seq![]);
    assert(seq![] + q.subrange(i + 1, j) =~= q.subrange(i + 1, j));
}

} // verus!
