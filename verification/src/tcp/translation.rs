//! What the server answers: the messages that greet a new session, and the
//! ones that carry a command's result.

use vstd::prelude::*;
use vstd::utf8::*;
use crate::query::lexer::string_from_utf8;
use crate::store::db::SERVER_VERSION;
use crate::tcp::request::StartupMessage;
use crate::tcp::response::{Response, ServerState, RowField, FieldFormat};

verus! {

broadcast use vstd::seq::group_seq_axioms;

/// The decimal digits of `n`, most significant first, as ASCII bytes.
pub open spec fn dec_bytes(n: nat) -> Seq<u8>
    decreases n,
{
    if n < 10 {
        seq![(48 + n) as u8]
    } else {
        dec_bytes(n / 10).push((48 + n % 10) as u8)
    }
}

/// The decimal numeral of `n`.
pub open spec fn decimal(n: nat) -> Seq<char> {
    dec_bytes(n).map_values(|b: u8| b as char)
}

proof fn lemma_dec_bytes_digits(n: nat)
    ensures
        forall|i: int| 0 <= i < dec_bytes(n).len() ==> 48 <= #[trigger] dec_bytes(n)[i] <= 57,
    decreases n,
{
    if n >= 10 {
        lemma_dec_bytes_digits(n / 10);
        let d = (n % 10) as int;
        assert(0 <= d < 10);
        assert forall|i: int| 0 <= i < dec_bytes(n).len() implies 48 <= #[trigger] dec_bytes(n)[i] <= 57 by {
            if i < dec_bytes(n / 10).len() {
                assert(dec_bytes(n)[i] == dec_bytes(n / 10)[i]);
            }
        }
    }
}

fn push_decimal(buf: &mut Vec<u8>, n: u64)
    ensures
        final(buf)@ == old(buf)@ + dec_bytes(n as nat),
    decreases n,
{
    if n >= 10 {
        push_decimal(buf, n / 10);
    }
    buf.push((48 + n % 10) as u8);
    proof {
        if n >= 10 {
            assert(final(buf)@ =~= old(buf)@ + dec_bytes(n as nat));
        } else {
            assert(final(buf)@ =~= old(buf)@ + dec_bytes(n as nat));
        }
    }
}

/// The decimal numeral of `n`, as `u32`'s `to_string` writes it.
pub fn decimal_text(n: u32) -> (r: String)
    ensures
        r@ == decimal(n as nat),
{
    number_text(n as u64)
}

/// The decimal numeral of `n`, as the integer types' `to_string` writes it.
pub fn number_text(n: u64) -> (r: String)
    ensures
        r@ == decimal(n as nat),
{
    let mut digits: Vec<u8> = Vec::new();
    push_decimal(&mut digits, n);
    let ghost b = digits@;
    let ghost chars = decimal(n as nat);
    proof {
        assert(b =~= dec_bytes(n as nat));
        lemma_dec_bytes_digits(n as nat);
        assert(is_ascii_chars(chars));
        is_ascii_chars_encode_utf8(chars);
        assert(encode_utf8(chars) =~= b);
        encode_utf8_valid_utf8(chars);
        encode_utf8_decode_utf8(chars);
    }
    match string_from_utf8(digits) {
        Some(s) => s,
        None => String::new(),
    }
}

/// The messages that accept a new session: authentication passed, the
/// server's parameters, its key data, and ready for a query.
pub fn translate_startup(_message: StartupMessage) -> (r: Vec<Response>)
    ensures
        r@.len() == 7,
        r@[0] is AuthenticationOk,
        r@[1] matches Response::ParameterStatus { name, val } && name@ == "server_version"@ && val@ == decimal(SERVER_VERSION as nat),
        r@[2] matches Response::ParameterStatus { name, val } && name@ == "client_encoding"@ && val@ == "UTF8"@,
        r@[3] matches Response::ParameterStatus { name, val } && name@ == "DateStyle"@ && val@ == "ISO, MDY"@,
        r@[4] matches Response::ParameterStatus { name, val } && name@ == "integer_datetimes"@ && val@ == "on"@,
        r@[5] matches Response::BackendKeyData { pid, key } && pid == 0 && key == 0,
        r@[6] matches Response::ReadyForQuery(ServerState::Idle),
{
    let mut r: Vec<Response> = Vec::new();
    r.push(Response::AuthenticationOk);
    r.push(Response::ParameterStatus { name: "server_version".to_owned(), val: decimal_text(SERVER_VERSION) });
    r.push(Response::ParameterStatus { name: "client_encoding".to_owned(), val: "UTF8".to_owned() });
    r.push(Response::ParameterStatus { name: "DateStyle".to_owned(), val: "ISO, MDY".to_owned() });
    r.push(Response::ParameterStatus { name: "integer_datetimes".to_owned(), val: "on".to_owned() });
    r.push(Response::BackendKeyData { pid: 0, key: 0 });
    r.push(Response::ReadyForQuery(ServerState::Idle));
    r
}

/// The messages that answer a command with one value: a one-column row
/// description named `value` of type `bytea` in text format, one row that
/// holds the value's bytes, an empty command tag, and ready for a query.
pub fn query_responses(value: Vec<u8>) -> (r: Vec<Response>)
    ensures
        r@.len() == 4,
        r@[0] matches Response::RowDescription(fields) && fields@.len() == 1 && fields@[0].name@ == "value"@
            && fields@[0].table_id == 0 && fields@[0]._attr_num == 0 && fields@[0].data_type_id == 17
            && fields@[0].data_type_size == -1 && fields@[0].type_mod == 0 && fields@[0].format is Text,
        r@[1] matches Response::DataRow(cells) && cells@.len() == 1 && cells@[0] == Some(value),
        r@[2] matches Response::CommandComplete(tag) && tag@.len() == 0,
        r@[3] matches Response::ReadyForQuery(ServerState::Idle),
{
    let mut fields: Vec<RowField> = Vec::new();
    fields.push(RowField {
        name: "value".to_owned(),
        table_id: 0,
        _attr_num: 0,
        data_type_id: 17,
        data_type_size: -1,
        type_mod: 0,
        format: FieldFormat::Text,
    });
    let mut cells: Vec<Option<Vec<u8>>> = Vec::new();
    cells.push(Some(value));
    let mut r: Vec<Response> = Vec::new();
    r.push(Response::RowDescription(fields));
    r.push(Response::DataRow(cells));
    r.push(Response::CommandComplete(String::new()));
    r.push(Response::ReadyForQuery(ServerState::Idle));
    r
}

/// The decimal numeral of `n` spells `n` back, starts with a nonzero digit
/// unless `n` is zero, and has one digit more for each further power of ten.
pub proof fn lemma_decimal_spells(n: nat)
    ensures
        crate::query::lexer::digits_value(dec_bytes(n)) == n,
        dec_bytes(n).len() > 0,
        n > 0 ==> dec_bytes(n)[0] != 48,
        n >= 10 ==> dec_bytes(n).len() == dec_bytes(n / 10).len() + 1,
    decreases n,
{
    if n >= 10 {
        lemma_decimal_spells(n / 10);
        let s = dec_bytes(n / 10);
        assert(dec_bytes(n).drop_last() =~= s);
        assert(dec_bytes(n)[0] == s[0]);
        assert(dec_bytes(n).last() == (48 + n % 10) as u8);
        assert((n / 10) * 10 + n % 10 == n) by (nonlinear_arith);
        assert(crate::query::lexer::digits_value(dec_bytes(n))
            == crate::query::lexer::digits_value(dec_bytes(n).drop_last()) * 10 + (dec_bytes(n).last() - 48) as nat);
        assert((dec_bytes(n).last() - 48) as nat == n % 10);
    } else {
        assert(dec_bytes(n).drop_last() =~= Seq::<u8>::empty());
        assert(crate::query::lexer::digits_value(dec_bytes(n))
            == crate::query::lexer::digits_value(dec_bytes(n).drop_last()) * 10 + (dec_bytes(n).last() - 48) as nat);
    }
}

} // verus!
