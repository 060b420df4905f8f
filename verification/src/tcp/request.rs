//! Reading a client's messages of the PostgreSQL wire protocol from bytes.

use vstd::prelude::*;
use vstd::utf8::*;
use crate::errors::{TcpErr, DbErr, UserErr};
use crate::query::command::{Query, query_of, parsed_as};
use crate::query::words::whitespace_words;
use crate::query::lexer::string_from_utf8;
use crate::tcp::response::{be32, be16};

verus! {

broadcast use vstd::seq::group_seq_axioms;

/// The startup message of a client, with the protocol version it asked for.
#[derive(Debug, PartialEq)]
pub struct StartupMessage(pub usize);

/// The code of a client's request to negotiate SSL.
pub const SSL_REQUEST_CODE: i32 = 80877103;

/// The code of protocol version 3.0.
pub const PROTOCOL_3_CODE: i32 = 196608;

/// What a startup packet with length `len` and code `code` asks for.
#[derive(Debug, PartialEq)]
pub enum StartupStep {
    /// The client asks for SSL: answer `N` and read the next startup packet.
    NegotiateSsl,
    /// Protocol 3.0: read `params_len` bytes of parameters, then the session starts.
    Begin { params_len: usize, message: StartupMessage },
}

/// What a startup packet asks for: SSL negotiation, protocol 3.0 with
/// `len - 8` bytes of parameters after the header, or anything else, which
/// is refused.
pub fn decode_startup(len: i32, code: i32) -> (r: Result<StartupStep, TcpErr>)
    requires
        len >= i32::MIN + 8,
    ensures
        code == SSL_REQUEST_CODE ==> r matches Ok(StartupStep::NegotiateSsl),
        code == PROTOCOL_3_CODE ==> (r matches Ok(StartupStep::Begin { params_len, message })
            && params_len == (len - 8) as usize && message.0 == code as usize),
        code != SSL_REQUEST_CODE && code != PROTOCOL_3_CODE ==> r matches Err(TcpErr::StartupMessageError),
{
    if code == SSL_REQUEST_CODE {
        Ok(StartupStep::NegotiateSsl)
    } else if code == PROTOCOL_3_CODE {
        #[verifier::truncate]
        let params_len = (len - 8) as usize;
        Ok(StartupStep::Begin { params_len, message: StartupMessage(code as usize) })
    } else {
        Err(TcpErr::StartupMessageError)
    }
}

/// The `i32` whose big-endian bytes are `buf`.
pub fn read_i32(buf: [u8; 4]) -> (r: i32)
    ensures
        be32(r) == buf@,
{
    let (b0, b1, b2, b3) = (buf[0], buf[1], buf[2], buf[3]);
    let u: u32 = ((b0 as u32) << 24u32) | ((b1 as u32) << 16u32) | ((b2 as u32) << 8u32) | (b3 as u32);
    let r = u as i32;
    assert(((u >> 24u32) as u8) == b0 && ((u >> 16u32) as u8) == b1 && ((u >> 8u32) as u8) == b2 && (u as u8) == b3) by (bit_vector)
        requires
            u == ((b0 as u32) << 24u32) | ((b1 as u32) << 16u32) | ((b2 as u32) << 8u32) | (b3 as u32);
    assert((r as u32) == u) by (bit_vector)
        requires
            r == u as i32;
    assert(be32(r) =~= buf@);
    r
}

/// The `i16` whose big-endian bytes are `buf`.
pub fn _read_i16(buf: [u8; 2]) -> (r: i16)
    ensures
        be16(r) == buf@,
{
    let (b0, b1) = (buf[0], buf[1]);
    let u: u16 = ((b0 as u16) << 8u16) | (b1 as u16);
    let r = u as i16;
    assert(((u >> 8u16) as u8) == b0 && (u as u8) == b1) by (bit_vector)
        requires
            u == ((b0 as u16) << 8u16) | (b1 as u16);
    assert((r as u16) == u) by (bit_vector)
        requires
            r == u as i16;
    assert(be16(r) =~= buf@);
    r
}

/// The byte of a message type, as a character.
pub fn read_char(buf: [u8; 1]) -> (r: char)
    ensures
        r == buf@[0] as char,
{
    buf[0] as char
}

/// The number of zero bytes at the start of `b`.
pub open spec fn lead_zeros(b: Seq<u8>) -> nat
    decreases b.len(),
{
    if b.len() > 0 && b[0] == 0 { 1 + lead_zeros(b.subrange(1, b.len() as int)) } else { 0 }
}

/// The bytes of `b` without the zero bytes at either end.
pub open spec fn trim_zeros(b: Seq<u8>) -> Seq<u8>
    decreases b.len(),
{
    if b.len() > 0 && b[0] == 0 {
        trim_zeros(b.subrange(1, b.len() as int))
    } else if b.len() > 0 && b.last() == 0 {
        trim_zeros(b.drop_last())
    } else {
        b
    }
}

/// A zero byte in front changes nothing to validity.
proof fn lemma_zero_front(r: Seq<u8>)
    ensures
        valid_utf8(seq![0u8] + r) == valid_utf8(r),
{
    let s = seq![0u8] + r;
    assert(s.len() != 0);
    assert(length_of_first_scalar(s) == 1);
    assert(pop_first_scalar(s) =~= r);
}

/// Removing zero bytes from the ends keeps a byte string valid UTF-8 or not.
proof fn lemma_trim_valid(b: Seq<u8>)
    ensures
        valid_utf8(b) == valid_utf8(trim_zeros(b)),
    decreases b.len(),
{
    if b.len() > 0 && b[0] == 0 {
        let rest = b.subrange(1, b.len() as int);
        assert(b =~= seq![0u8] + rest);
        lemma_zero_front(rest);
        lemma_trim_valid(rest);
    } else if b.len() > 0 && b.last() == 0 {
        let init = b.drop_last();
        lemma_trim_valid(init);
        if valid_utf8(b) {
            is_char_boundary_iff_not_is_continuation_byte(b, b.len() - 1);
            valid_utf8_split(b, b.len() - 1);
            assert(b.subrange(0, b.len() - 1) =~= init);
        }
        if valid_utf8(init) {
            lemma_zero_front(seq![]);
            assert(valid_utf8(seq![0u8])) by {
                assert(seq![0u8] + Seq::<u8>::empty() =~= seq![0u8]);
            }
            valid_utf8_concat(init, seq![0u8]);
            assert(init + seq![0u8] =~= b);
        }
    }
}

/// The text of a message body: its bytes read as UTF-8, without the zero
/// bytes at either end.
pub fn read_contents(buf: Vec<u8>) -> (r: Result<String, TcpErr>)
    ensures
        valid_utf8(buf@) ==> (r matches Ok(s) && s@ == decode_utf8(trim_zeros(buf@))),
        !valid_utf8(buf@) ==> r matches Err(TcpErr::FromUtf8Error),
{
    let mut start: usize = 0;
    let mut end: usize = buf.len();
    assert(buf@.subrange(0, buf@.len() as int) =~= buf@);
    while start < end && buf[start] == 0
        invariant
            start <= end <= buf@.len(),
            end == buf@.len(),
            trim_zeros(buf@) == trim_zeros(buf@.subrange(start as int, end as int)),
        decreases end - start,
    {
        proof {
            let s = buf@.subrange(start as int, end as int);
            assert(s.subrange(1, s.len() as int) =~= buf@.subrange(start + 1, end as int));
        }
        start = start + 1;
    }
    while start < end && buf[end - 1] == 0
        invariant
            start <= end <= buf@.len(),
            trim_zeros(buf@) == trim_zeros(buf@.subrange(start as int, end as int)),
            start < end ==> buf@[start as int] != 0,
        decreases end - start,
    {
        proof {
            let s = buf@.subrange(start as int, end as int);
            assert(s.drop_last() =~= buf@.subrange(start as int, end - 1));
        }
        end = end - 1;
    }
    proof {
        let s = buf@.subrange(start as int, end as int);
        assert(trim_zeros(s) == s);
        lemma_trim_valid(buf@);
    }
    let mut bytes: Vec<u8> = Vec::new();
    let mut i: usize = start;
    while i < end
        invariant
            start <= i <= end <= buf@.len(),
            bytes@ == buf@.subrange(start as int, i as int),
        decreases end - i,
    {
        bytes.push(buf[i]);
        i = i + 1;
        assert(bytes@ =~= buf@.subrange(start as int, i as int));
    }
    match string_from_utf8(bytes) {
        Some(s) => Ok(s),
        None => Err(TcpErr::FromUtf8Error),
    }
}

/// A client's request.
#[derive(Debug, PartialEq)]
pub enum Request {
    Query(Query),
    Termination,
}

/// The request that a message of type `message_type` with text `contents`
/// makes: `Q` carries a command, `X` ends the session, and any other type
/// is refused with `BadMessageType`. A command that does not parse is
/// refused with its parse error.
pub fn decode_request(message_type: char, contents: &str) -> (r: Result<Request, DbErr>)
    ensures
        message_type == 'Q' ==> match r {
            Ok(Request::Query(q)) => parsed_as(query_of(whitespace_words(contents@)), Ok(q)),
            Err(DbErr::UserErr(e)) => parsed_as(query_of(whitespace_words(contents@)), Err(e)),
            _ => false,
        },
        message_type == 'X' ==> r matches Ok(Request::Termination),
        message_type != 'Q' && message_type != 'X' ==> r matches Err(DbErr::TcpErr(TcpErr::BadMessageType)),
{
    if message_type == 'Q' {
        match Query::parse(contents) {
            Ok(q) => Ok(Request::Query(q)),
            Err(e) => Err(DbErr::UserErr(e)),
        }
    } else if message_type == 'X' {
        Ok(Request::Termination)
    } else {
        Err(DbErr::TcpErr(TcpErr::BadMessageType))
    }
}

} // verus!
