//! Error kinds of the library, one enum per layer.

use vstd::prelude::*;
use crate::query::lexer::{Token, TokenV};
use crate::tcp::response::Response;

verus! {

/// What went wrong while turning query text into tokens or a syntax tree.
#[derive(Debug, PartialEq)]
pub enum QueryErr {
    /// A byte that starts no token.
    NonAsciiChar { pos: usize, byte: u8 },
    /// A string literal runs to the end of the input.
    StrLiteralNoClose,
    /// A string literal's bytes are not UTF-8.
    BadUtf8,
    /// An integer literal that does not fit in an `i64`.
    BadInt,
    /// The parser met a token it cannot use at this point.
    UnexpectedToken { found: Token, expected: String },
    /// A `COPY ... WITH (FORMAT x)` names a format that is not known.
    UnknownFormat(String),
}

/// A query error with its text taken as characters.
pub enum QueryErrV {
    NonAsciiChar { pos: usize, byte: u8 },
    StrLiteralNoClose,
    BadUtf8,
    BadInt,
    UnexpectedToken { found: TokenV, expected: Seq<char> },
    UnknownFormat(Seq<char>),
}

impl View for QueryErr {
    type V = QueryErrV;

    open spec fn view(&self) -> QueryErrV {
        match self {
            QueryErr::NonAsciiChar { pos, byte } => QueryErrV::NonAsciiChar { pos: *pos, byte: *byte },
            QueryErr::StrLiteralNoClose => QueryErrV::StrLiteralNoClose,
            QueryErr::BadUtf8 => QueryErrV::BadUtf8,
            QueryErr::BadInt => QueryErrV::BadInt,
            QueryErr::UnexpectedToken { found, expected } => QueryErrV::UnexpectedToken { found: found@, expected: expected@ },
            QueryErr::UnknownFormat(s) => QueryErrV::UnknownFormat(s@),
        }
    }
}

/// Errors caused by the request a user made.
#[derive(Debug, PartialEq)]
pub enum UserErr {
    NoValue,
    BadVal,
    BadQuery(QueryErr),
    BadCall,
    BadPut,
    BadDel,
    NoRoot,
    LongKey,
    LongVal,
    /// A leaf holds no record for the key.
    NoRID(String),
}

/// Errors of the wire protocol. The library sees no I/O or conversion
/// error's details, only its kind.
#[derive(Debug, PartialEq)]
pub enum TcpErr {
    /// A length that does not fit the protocol's integer type.
    TryFromIntError,
    StartupMessageError,
    BadMessageType,
    FromUtf8Error,
    IOErr,
    ClientDisconnected,
}

/// Errors of the database file.
#[derive(Debug, PartialEq)]
pub enum StoreErr {
    BadFile,
    EncodeErr,
    DecodeErr,
    ReadOverflow,
    IOErr,
    PoisonError,
    /// A page's type byte names no page type.
    UnknownPagetype(u8),
    /// A slot points past the end of its page.
    SlotOOB { offset: usize, len: usize },
    /// A page's entries do not fit in it.
    SlotOverwrite { page: usize, len: usize },
    /// A node has fewer values than keys.
    KeyCountErr(usize),
    /// A branch has no children.
    KeyChildDesync(usize),
}

/// Any error of the database, by layer.
#[derive(Debug, PartialEq)]
pub enum DbErr {
    TcpErr(TcpErr),
    StoreErr(StoreErr),
    UserErr(UserErr),
}

/// An error that can be reported to a client.
pub trait ErrorReport {
    /// The message that tells the client of the error.
    fn gen_error_response(&self) -> Response;
}

impl ErrorReport for TcpErr {
    fn gen_error_response(&self) -> (r: Response)
        ensures
            r is ErrorResponse,
    {
        Response::ErrorResponse
    }
}

impl ErrorReport for UserErr {
    fn gen_error_response(&self) -> (r: Response)
        ensures
            r is ErrorResponse,
    {
        Response::ErrorResponse
    }
}

impl ErrorReport for StoreErr {
    fn gen_error_response(&self) -> (r: Response)
        ensures
            r is ErrorResponse,
    {
        Response::ErrorResponse
    }
}

} // verus!
