//! The server's messages of the PostgreSQL wire protocol, as bytes.

use vstd::prelude::*;
use vstd::utf8::*;
use crate::errors::TcpErr;

verus! {

broadcast use vstd::seq::group_seq_axioms;

/// A message from the server to a client.
#[derive(Debug, PartialEq)]
pub enum Response {
    ErrorResponse,
    AuthenticationOk,
    BackendKeyData { pid: i32, key: i32 },
    ParameterStatus { name: String, val: String },
    ReadyForQuery(ServerState),
    RowDescription(Vec<RowField>),
    DataRow(Vec<Option<Vec<u8>>>),
    /// A command tag.
    CommandComplete(String),
    Terminate,
}

/// The state of a session that `ReadyForQuery` reports.
#[derive(Debug, PartialEq)]
pub enum ServerState {
    Idle,
    Transaction,
    Error,
}

/// The description of one column of result rows.
#[derive(Debug, PartialEq)]
pub struct RowField {
    pub name: String,
    pub table_id: i32,
    pub _attr_num: i16,
    pub data_type_id: i32,
    pub data_type_size: i16,
    pub type_mod: i32,
    pub format: FieldFormat,
}

/// How the values of a column are sent.
#[derive(Clone, Copy, Debug, PartialEq, Eq)]
pub enum FieldFormat {
    Text,
    Binary,
}

/// The four big-endian bytes of `x` in two's complement.
pub open spec fn be32(x: i32) -> Seq<u8> {
    let u = x as u32;
    seq![(u >> 24u32) as u8, (u >> 16u32) as u8, (u >> 8u32) as u8, u as u8]
}

/// The two big-endian bytes of `x` in two's complement.
pub open spec fn be16(x: i16) -> Seq<u8> {
    let u = x as u16;
    seq![(u >> 8u16) as u8, u as u8]
}

/// The code of a format.
pub open spec fn format_code(f: FieldFormat) -> i16 {
    match f {
        FieldFormat::Text => 0,
        FieldFormat::Binary => 1,
    }
}

/// Appends the big-endian bytes of `x`.
pub fn push_i32(buf: &mut Vec<u8>, x: i32)
    ensures
        final(buf)@ == old(buf)@ + be32(x),
{
    let u = x as u32;
    buf.push((u >> 24u32) as u8);
    buf.push((u >> 16u32) as u8);
    buf.push((u >> 8u32) as u8);
    buf.push(u as u8);
    assert(final(buf)@ =~= old(buf)@ + be32(x));
}

/// Appends the big-endian bytes of `x`.
pub fn push_i16(buf: &mut Vec<u8>, x: i16)
    ensures
        final(buf)@ == old(buf)@ + be16(x),
{
    let u = x as u16;
    buf.push((u >> 8u16) as u8);
    buf.push(u as u8);
    assert(final(buf)@ =~= old(buf)@ + be16(x));
}

/// Appends all of `bytes`.
pub fn push_all(buf: &mut Vec<u8>, bytes: &[u8])
    ensures
        final(buf)@ == old(buf)@ + bytes@,
{
    let mut i: usize = 0;
    while i < bytes.len()
        invariant
            i <= bytes@.len(),
            buf@ == old(buf)@ + bytes@.subrange(0, i as int),
        decreases bytes@.len() - i,
    {
        buf.push(bytes[i]);
        i = i + 1;
        assert(buf@ =~= old(buf)@ + bytes@.subrange(0, i as int));
    }
    assert(bytes@.subrange(0, bytes@.len() as int) =~= bytes@);
}

impl FieldFormat {
    /// The format's code as two big-endian bytes.
    pub fn to_be_bytes(self) -> (r: [u8; 2])
        ensures
            r@ == be16(format_code(self)),
    {
        let x: i16 = match self {
            FieldFormat::Text => 0,
            FieldFormat::Binary => 1,
        };
        let u = x as u16;
        let r = [(u >> 8u16) as u8, u as u8];
        assert(r@ =~= be16(x));
        r
    }
}


/// `ErrorResponse`: `E` and the length.
pub open spec fn error_response_bytes() -> Seq<u8> {
    seq![69u8] + be32(4)
}

/// `AuthenticationOk`: `R`, the length, and code 0.
pub open spec fn authentication_ok_bytes() -> Seq<u8> {
    seq![82u8] + be32(8) + be32(0)
}

/// `BackendKeyData`: `K`, the length, the process id and the secret key.
pub open spec fn backend_key_data_bytes(pid: i32, key: i32) -> Seq<u8> {
    seq![75u8] + be32(12) + be32(pid) + be32(key)
}

/// The byte that stands for a session state.
pub open spec fn state_byte(s: ServerState) -> u8 {
    match s {
        ServerState::Idle => 73,
        ServerState::Transaction => 84,
        ServerState::Error => 69,
    }
}

/// `ReadyForQuery`: `Z`, the length, and the state.
pub open spec fn ready_for_query_bytes(s: ServerState) -> Seq<u8> {
    seq![90u8] + be32(5) + seq![state_byte(s)]
}

/// `ParameterStatus`: `S`, the length, and the name and value, each ended by a zero byte.
pub open spec fn parameter_status_bytes(name: Seq<u8>, val: Seq<u8>) -> Seq<u8> {
    let body = name + seq![0u8] + val + seq![0u8];
    seq![83u8] + be32((body.len() + 4) as i32) + body
}

/// One column's description in `RowDescription`.
pub open spec fn field_bytes(f: RowField) -> Seq<u8> {
    encode_utf8(f.name@) + seq![0u8] + be32(f.table_id) + be16(f._attr_num) + be32(f.data_type_id)
        + be16(f.data_type_size) + be32(f.type_mod) + be16(format_code(f.format))
}

/// The descriptions of the columns, one after the other.
pub open spec fn fields_bytes(fs: Seq<RowField>) -> Seq<u8>
    decreases fs.len(),
{
    if fs.len() == 0 { seq![] } else { fields_bytes(fs.drop_last()) + field_bytes(fs.last()) }
}

/// `RowDescription`: `T`, the length, the number of columns, and their descriptions.
pub open spec fn row_description_bytes(fs: Seq<RowField>) -> Seq<u8> {
    let body = fields_bytes(fs);
    seq![84u8] + be32((body.len() + 6) as i32) + be16(fs.len() as i16) + body
}

/// One value of a `DataRow`: its length and bytes, or length -1 for null.
pub open spec fn cell_bytes(c: Option<Vec<u8>>) -> Seq<u8> {
    match c {
        Some(d) => be32(d@.len() as i32) + d@,
        None => be32(-1i32),
    }
}

/// The values of a row, one after the other.
pub open spec fn cells_bytes(cs: Seq<Option<Vec<u8>>>) -> Seq<u8>
    decreases cs.len(),
{
    if cs.len() == 0 { seq![] } else { cells_bytes(cs.drop_last()) + cell_bytes(cs.last()) }
}

/// Every value's length fits the protocol's 32-bit length.
pub open spec fn cells_fit(cs: Seq<Option<Vec<u8>>>) -> bool {
    forall|i: int| 0 <= i < cs.len() ==> (#[trigger] cs[i] matches Some(d) ==> d@.len() <= i32::MAX)
}

/// `DataRow`: `D`, the length, the number of values, and the values.
pub open spec fn data_row_bytes(cs: Seq<Option<Vec<u8>>>) -> Seq<u8> {
    let body = cells_bytes(cs);
    seq![68u8] + be32((body.len() + 6) as i32) + be16(cs.len() as i16) + body
}

/// `CommandComplete`: `C`, the length, and the tag ended by a zero byte.
pub open spec fn command_complete_bytes(tag: Seq<u8>) -> Seq<u8> {
    seq![67u8] + be32((tag.len() + 5) as i32) + tag + seq![0u8]
}

/// The bytes of a response, or the error that encoding it meets.
pub open spec fn response_bytes(r: Response) -> Result<Seq<u8>, TcpErr> {
    match r {
        Response::ErrorResponse => Ok(error_response_bytes()),
        Response::AuthenticationOk => Ok(authentication_ok_bytes()),
        Response::BackendKeyData { pid, key } => Ok(backend_key_data_bytes(pid, key)),
        Response::ReadyForQuery(s) => Ok(ready_for_query_bytes(s)),
        Response::ParameterStatus { name, val } => Ok(parameter_status_bytes(encode_utf8(name@), encode_utf8(val@))),
        Response::RowDescription(fs) => Ok(row_description_bytes(fs@)),
        Response::DataRow(cs) => if cells_fit(cs@) { Ok(data_row_bytes(cs@)) } else { Err(TcpErr::TryFromIntError) },
        Response::CommandComplete(tag) => if encode_utf8(tag@).len() + 5 <= i32::MAX {
            Ok(command_complete_bytes(encode_utf8(tag@)))
        } else {
            Err(TcpErr::TryFromIntError)
        },
        Response::Terminate => Ok(seq![]),
    }
}

/// Encodes a response for the wire.
pub fn encode(response: Response) -> (r: Result<Vec<u8>, TcpErr>)
    ensures
        match response_bytes(response) {
            Ok(b) => r matches Ok(v) && v@ == b,
            Err(e) => r matches Err(x) && x == e,
        },
{
    match response {
        Response::ErrorResponse => Ok(enc_error_response()),
        Response::AuthenticationOk => Ok(enc_authentication_ok()),
        Response::BackendKeyData { pid, key } => Ok(enc_backend_key_data(pid, key)),
        Response::ReadyForQuery(state) => Ok(enc_ready_for_query(state)),
        Response::ParameterStatus { name, val } => enc_parameter_status(name, val),
        Response::RowDescription(fields) => enc_row_description(fields),
        Response::DataRow(cells) => enc_data_row(cells),
        Response::CommandComplete(tag) => enc_command_complete(tag),
        Response::Terminate => Ok(Vec::new()),
    }
}

pub fn enc_error_response() -> (r: Vec<u8>)
    ensures
        r@ == error_response_bytes(),
{
    let mut buf: Vec<u8> = Vec::new();
    buf.push(69u8);
    push_i32(&mut buf, 4);
    buf
}

pub fn enc_authentication_ok() -> (r: Vec<u8>)
    ensures
        r@ == authentication_ok_bytes(),
{
    let mut buf: Vec<u8> = Vec::new();
    buf.push(82u8);
    push_i32(&mut buf, 8);
    push_i32(&mut buf, 0);
    buf
}

pub fn enc_backend_key_data(pid: i32, key: i32) -> (r: Vec<u8>)
    ensures
        r@ == backend_key_data_bytes(pid, key),
{
    let mut buf: Vec<u8> = Vec::new();
    buf.push(75u8);
    push_i32(&mut buf, 12);
    push_i32(&mut buf, pid);
    push_i32(&mut buf, key);
    buf
}

pub fn enc_ready_for_query(state: ServerState) -> (r: Vec<u8>)
    ensures
        r@ == ready_for_query_bytes(state),
{
    let mut buf: Vec<u8> = Vec::new();
    buf.push(90u8);
    push_i32(&mut buf, 5);
    match state {
        ServerState::Idle => buf.push(73u8),
        ServerState::Transaction => buf.push(84u8),
        ServerState::Error => buf.push(69u8),
    }
    buf
}

pub fn enc_parameter_status(name: String, val: String) -> (r: Result<Vec<u8>, TcpErr>)
    ensures
        r matches Ok(v) && v@ == parameter_status_bytes(encode_utf8(name@), encode_utf8(val@)),
{
    let mut body: Vec<u8> = Vec::new();
    push_all(&mut body, name.as_str().as_bytes());
    body.push(0u8);
    push_all(&mut body, val.as_str().as_bytes());
    body.push(0u8);
    let mut buf: Vec<u8> = Vec::new();
    buf.push(83u8);
    let n = body.len();
    #[verifier::truncate]
    let len = (n as u128 + 4) as i32;
    push_i32(&mut buf, len);
    push_all(&mut buf, body.as_slice());
    Ok(buf)
}

/// Overwrites bytes 1 to 4 with the big-endian bytes of `x`.
fn put_len(buf: &mut Vec<u8>, x: i32)
    requires
        old(buf)@.len() >= 5,
    ensures
        final(buf)@ == old(buf)@.subrange(0, 1) + be32(x) + old(buf)@.subrange(5, old(buf)@.len() as int),
{
    let u = x as u32;
    buf.set(1, (u >> 24u32) as u8);
    buf.set(2, (u >> 16u32) as u8);
    buf.set(3, (u >> 8u32) as u8);
    buf.set(4, u as u8);
    assert(final(buf)@ =~= old(buf)@.subrange(0, 1) + be32(x) + old(buf)@.subrange(5, old(buf)@.len() as int));
}

pub fn enc_row_description(fields: Vec<RowField>) -> (r: Result<Vec<u8>, TcpErr>)
    ensures
        r matches Ok(v) && v@ == row_description_bytes(fields@),
{
    let mut buf: Vec<u8> = Vec::new();
    buf.push(84u8);
    push_i32(&mut buf, 0);
    #[verifier::truncate]
    let n = fields.len() as i16;
    push_i16(&mut buf, n);
    let ghost head = buf@;
    let mut i: usize = 0;
    while i < fields.len()
        invariant
            i <= fields@.len(),
            head.len() == 7,
            buf@ == head + fields_bytes(fields@.subrange(0, i as int)),
        decreases fields@.len() - i,
    {
        let field = &fields[i];
        let ghost before = buf@;
        push_all(&mut buf, field.name.as_str().as_bytes());
        buf.push(0u8);
        push_i32(&mut buf, field.table_id);
        push_i16(&mut buf, field._attr_num);
        push_i32(&mut buf, field.data_type_id);
        push_i16(&mut buf, field.data_type_size);
        push_i32(&mut buf, field.type_mod);
        let fmt = field.format.to_be_bytes();
        push_all(&mut buf, &fmt);
        proof {
            assert(buf@ =~= before + field_bytes(fields@[i as int]));
            assert(fields@.subrange(0, i + 1).drop_last() =~= fields@.subrange(0, i as int));
        }
        i = i + 1;
    }
    proof {
        assert(fields@.subrange(0, fields@.len() as int) =~= fields@);
    }
    let total = buf.len();
    #[verifier::truncate]
    let len = (total - 1) as i32;
    put_len(&mut buf, len);
    proof {
        assert(buf@ =~= row_description_bytes(fields@));
    }
    Ok(buf)
}

pub fn enc_data_row(cells: Vec<Option<Vec<u8>>>) -> (r: Result<Vec<u8>, TcpErr>)
    ensures
        cells_fit(cells@) ==> (r matches Ok(v) && v@ == data_row_bytes(cells@)),
        !cells_fit(cells@) ==> r matches Err(TcpErr::TryFromIntError),
{
    let mut buf: Vec<u8> = Vec::new();
    buf.push(68u8);
    push_i32(&mut buf, 0);
    #[verifier::truncate]
    let n = cells.len() as i16;
    push_i16(&mut buf, n);
    let ghost head = buf@;
    let mut i: usize = 0;
    while i < cells.len()
        invariant
            i <= cells@.len(),
            head.len() == 7,
            buf@ == head + cells_bytes(cells@.subrange(0, i as int)),
            cells_fit(cells@.subrange(0, i as int)),
        decreases cells@.len() - i,
    {
        let ghost before = buf@;
        match &cells[i] {
            Some(data) => {
                if data.len() > 2147483647 {
                    proof {
                        assert(!(cells@[i as int] matches Some(d) ==> d@.len() <= i32::MAX));
                    }
                    return Err(TcpErr::TryFromIntError);
                }
                let cell_len = data.len() as i32;
                push_i32(&mut buf, cell_len);
                push_all(&mut buf, data.as_slice());
            },
            None => push_i32(&mut buf, -1),
        }
        proof {
            assert(buf@ =~= before + cell_bytes(cells@[i as int]));
            assert(cells@.subrange(0, i + 1).drop_last() =~= cells@.subrange(0, i as int));
            assert forall|j: int| 0 <= j < i + 1 implies (#[trigger] cells@.subrange(0, i + 1)[j] matches Some(d) ==> d@.len() <= i32::MAX) by {
                if j < i {
                    assert(cells@.subrange(0, i + 1)[j] == cells@.subrange(0, i as int)[j]);
                }
            }
        }
        i = i + 1;
    }
    proof {
        assert(cells@.subrange(0, cells@.len() as int) =~= cells@);
    }
    let total = buf.len();
    #[verifier::truncate]
    let len = (total - 1) as i32;
    put_len(&mut buf, len);
    proof {
        assert(buf@ =~= data_row_bytes(cells@));
    }
    Ok(buf)
}

pub fn enc_command_complete(tag: String) -> (r: Result<Vec<u8>, TcpErr>)
    ensures
        encode_utf8(tag@).len() + 5 <= i32::MAX ==> (r matches Ok(v) && v@ == command_complete_bytes(encode_utf8(tag@))),
        encode_utf8(tag@).len() + 5 > i32::MAX ==> r matches Err(TcpErr::TryFromIntError),
{
    let bytes = tag.as_str().as_bytes();
    if bytes.len() > 2147483642 {
        return Err(TcpErr::TryFromIntError);
    }
    let mut buf: Vec<u8> = Vec::new();
    let len = (bytes.len() + 5) as i32;
    buf.push(67u8);
    push_i32(&mut buf, len);
    push_all(&mut buf, bytes);
    buf.push(0u8);
    Ok(buf)
}

/// The four big-endian bytes of a length from zero up to `i32::MAX`.
proof fn lemma_be32_length(x: i32)
    requires
        x >= 0,
    ensures
        be32(x) == seq![(x as int / 16777216) as u8, ((x as int / 65536) % 256) as u8, ((x as int / 256) % 256) as u8, (x as int % 256) as u8],
{
    let u = x as u32;
    assert((u >> 24u32) as u8 == (u / 16777216u32) as u8) by (bit_vector);
    assert((u >> 16u32) as u8 == ((u / 65536u32) % 256u32) as u8) by (bit_vector);
    assert((u >> 8u32) as u8 == ((u / 256u32) % 256u32) as u8) by (bit_vector);
    assert(u as u8 == (u % 256u32) as u8) by (bit_vector);
}

/// A row of one present value `d` is `D`, the message length (the value's
/// length and ten) in four big-endian bytes, the value count 1 in two, the
/// value's length in four, and the value's bytes.
pub proof fn lemma_data_row_one_value(cells: Vec<Option<Vec<u8>>>, d: Vec<u8>)
    requires
        cells@ == seq![Some(d)],
        d@.len() + 10 <= i32::MAX,
    ensures
        ({
            let n = d@.len() as int;
            let m = n + 10;
            response_bytes(Response::DataRow(cells)) == Ok::<Seq<u8>, TcpErr>(seq![68u8]
                + seq![(m / 16777216) as u8, ((m / 65536) % 256) as u8, ((m / 256) % 256) as u8, (m % 256) as u8]
                + seq![0u8, 1u8]
                + seq![(n / 16777216) as u8, ((n / 65536) % 256) as u8, ((n / 256) % 256) as u8, (n % 256) as u8]
                + d@)
        }),
{
    let n = d@.len() as int;
    assert(cells_fit(cells@));
    assert(cells@.drop_last() =~= Seq::<Option<Vec<u8>>>::empty());
    assert(cells@.last() == Some(d));
    assert(cells_bytes(cells@.drop_last()) == Seq::<u8>::empty());
    assert(cells_bytes(cells@) =~= cell_bytes(Some(d)));
    lemma_be32_length(n as i32);
    lemma_be32_length((n + 10) as i32);
    let one: u16 = 1i16 as u16;
    assert(one == 1u16);
    assert((one >> 8u16) as u8 == 0u8 && one as u8 == 1u8) by (bit_vector)
        requires
            one == 1u16;
    assert(be16(1i16) =~= seq![0u8, 1u8]);
    let body = cells_bytes(cells@);
    assert(body.len() == n + 4);
    assert(((body.len() + 6) as i32) as int == n + 10);
    assert(data_row_bytes(cells@) =~= seq![68u8] + be32((n + 10) as i32) + be16(1i16) + be32(n as i32) + d@);
}

/// The bytes of a row end with its last value: a present value as its
/// length in four big-endian bytes and then its bytes, an absent one as
/// four bytes of 255.
pub proof fn lemma_data_row_last_value(cells: Vec<Option<Vec<u8>>>)
    requires
        cells@.len() > 0,
        cells_fit(cells@),
    ensures
        ({
            let b = response_bytes(Response::DataRow(cells))->Ok_0;
            &&& response_bytes(Response::DataRow(cells)) is Ok
            &&& cells@.last() matches Some(d) ==> {
                let n = d@.len() as int;
                &&& b.len() >= n + 4
                &&& b.subrange(b.len() - n - 4, b.len() as int)
                    == seq![(n / 16777216) as u8, ((n / 65536) % 256) as u8, ((n / 256) % 256) as u8, (n % 256) as u8] + d@
            }
            &&& cells@.last() is None ==> b.len() >= 4 && b.subrange(b.len() - 4, b.len() as int) == seq![255u8, 255u8, 255u8, 255u8]
        }),
{
    let cs = cells@;
    let b = data_row_bytes(cs);
    assert(cells_bytes(cs) == cells_bytes(cs.drop_last()) + cell_bytes(cs.last()));
    assert(b =~= (seq![68u8] + be32((cells_bytes(cs).len() + 6) as i32) + be16(cs.len() as i16) + cells_bytes(cs.drop_last())) + cell_bytes(cs.last()));
    match cs.last() {
        Some(d) => {
            let n = d@.len() as int;
            assert(cs[cs.len() - 1] matches Some(e) ==> e@.len() <= i32::MAX);
            lemma_be32_length(n as i32);
            assert(b.subrange(b.len() - n - 4, b.len() as int) =~= cell_bytes(cs.last()));
        },
        None => {
            let m: i32 = -1i32;
            assert(((m as u32) >> 24u32) as u8 == 255u8 && ((m as u32) >> 16u32) as u8 == 255u8
                && ((m as u32) >> 8u32) as u8 == 255u8 && (m as u32) as u8 == 255u8) by (bit_vector)
                requires
                    m == -1i32;
            assert(be32(-1i32) =~= seq![255u8, 255u8, 255u8, 255u8]);
            assert(b.subrange(b.len() - 4, b.len() as int) =~= cell_bytes(cs.last()));
        },
    }
}

/// A message of type byte `t`, length `len` and the bytes `rest` after
/// the length has its length field in bytes one to four, counting itself
/// and what follows it.
proof fn lemma_framed(t: u8, len: i32, rest: Seq<u8>)
    requires
        len as int == rest.len() + 4,
    ensures
        ({
            let b = seq![t] + be32(len) + rest;
            let n = b.len() - 1;
            &&& b.len() >= 5
            &&& b[0] == t
            &&& b.subrange(1, 5) == seq![(n / 16777216) as u8, ((n / 65536) % 256) as u8, ((n / 256) % 256) as u8, (n % 256) as u8]
        }),
{
    lemma_be32_length(len);
    let b = seq![t] + be32(len) + rest;
    assert(b.subrange(1, 5) =~= be32(len));
}

/// Every message the server sends, but the empty one for `Terminate`, is
/// its type byte and then, in four big-endian bytes, its length without the
/// type byte; the type bytes are `E`, `R`, `K`, `Z`, `S`, `T`, `D` and `C`
/// for the error, authentication, key data, ready, parameter status, row
/// description, data row and command complete messages.
pub proof fn lemma_message_framing(r: Response)
    requires
        !(r is Terminate),
        response_bytes(r) is Ok,
        response_bytes(r)->Ok_0.len() <= i32::MAX,
    ensures
        ({
            let b = response_bytes(r)->Ok_0;
            let n = b.len() - 1;
            &&& b.len() >= 5
            &&& b.subrange(1, 5) == seq![(n / 16777216) as u8, ((n / 65536) % 256) as u8, ((n / 256) % 256) as u8, (n % 256) as u8]
            &&& b[0] == match r {
                Response::ErrorResponse => 69u8,
                Response::AuthenticationOk => 82u8,
                Response::BackendKeyData { .. } => 75u8,
                Response::ReadyForQuery(_) => 90u8,
                Response::ParameterStatus { .. } => 83u8,
                Response::RowDescription(_) => 84u8,
                Response::DataRow(_) => 68u8,
                Response::CommandComplete(_) => 67u8,
                Response::Terminate => 0u8,
            }
        }),
{
    match r {
        Response::ErrorResponse => {
            lemma_framed(69u8, 4, seq![]);
            assert(error_response_bytes() =~= seq![69u8] + be32(4) + Seq::<u8>::empty());
        },
        Response::AuthenticationOk => {
            lemma_framed(82u8, 8, be32(0));
            assert(authentication_ok_bytes() =~= seq![82u8] + be32(8) + be32(0));
        },
        Response::BackendKeyData { pid, key } => {
            lemma_framed(75u8, 12, be32(pid) + be32(key));
            assert(backend_key_data_bytes(pid, key) =~= seq![75u8] + be32(12) + (be32(pid) + be32(key)));
        },
        Response::ReadyForQuery(st) => {
            lemma_framed(90u8, 5, seq![state_byte(st)]);
        },
        Response::ParameterStatus { name, val } => {
            let body = encode_utf8(name@) + seq![0u8] + encode_utf8(val@) + seq![0u8];
            lemma_framed(83u8, (body.len() + 4) as i32, body);
        },
        Response::RowDescription(fs) => {
            let body = fields_bytes(fs@);
            let rest = be16(fs@.len() as i16) + body;
            lemma_framed(84u8, (body.len() + 6) as i32, rest);
            assert(row_description_bytes(fs@) =~= seq![84u8] + be32((body.len() + 6) as i32) + rest);
        },
        Response::DataRow(cs) => {
            let body = cells_bytes(cs@);
            let rest = be16(cs@.len() as i16) + body;
            lemma_framed(68u8, (body.len() + 6) as i32, rest);
            assert(data_row_bytes(cs@) =~= seq![68u8] + be32((body.len() + 6) as i32) + rest);
        },
        Response::CommandComplete(tag) => {
            let t = encode_utf8(tag@);
            lemma_framed(67u8, (t.len() + 5) as i32, t + seq![0u8]);
            assert(command_complete_bytes(t) =~= seq![67u8] + be32((t.len() + 5) as i32) + (t + seq![0u8]));
        },
        Response::Terminate => {},
    }
}

/// `ReadyForQuery` is five bytes of length and then `I` when idle, `T` in a
/// transaction and `E` after an error.
pub proof fn lemma_ready_for_query_state(st: ServerState)
    ensures
        response_bytes(Response::ReadyForQuery(st)) == Ok::<Seq<u8>, TcpErr>(seq![90u8, 0u8, 0u8, 0u8, 5u8, match st {
            ServerState::Idle => 73u8,
            ServerState::Transaction => 84u8,
            ServerState::Error => 69u8,
        }]),
{
    lemma_be32_length(5);
    assert(ready_for_query_bytes(st) =~= seq![90u8, 0u8, 0u8, 0u8, 5u8, state_byte(st)]);
}

/// The four bytes of `be32(x)` are the base-256 digits of `x` read as an
/// unsigned word, most significant first, so a reader of big-endian
/// numbers gets `x` back.
pub proof fn lemma_be32_value(x: i32)
    ensures
        be32(x).len() == 4,
        (x as u32) as int == be32(x)[0] as int * 16777216 + be32(x)[1] as int * 65536 + be32(x)[2] as int * 256 + be32(x)[3] as int,
{
    let u = x as u32;
    let b0 = (u >> 24u32) as u8;
    let b1 = (u >> 16u32) as u8;
    let b2 = (u >> 8u32) as u8;
    let b3 = u as u8;
    assert(u == (b0 as u32) * 16777216u32 + (b1 as u32) * 65536u32 + (b2 as u32) * 256u32 + (b3 as u32)) by (bit_vector)
        requires
            b0 == (u >> 24u32) as u8, b1 == (u >> 16u32) as u8, b2 == (u >> 8u32) as u8, b3 == u as u8;
}

} // verus!
