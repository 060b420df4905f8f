use database::encode_version;
use database::errors::{DbErr, TcpErr, UserErr};
use database::store::value::Value;
use database::query::command::Query;
use database::query::cli::{Cli, parse_cli};
use database::query::words::{parse_isize, parse_u8, parse_blob};
use database::tcp::request::{decode_request, Request, decode_startup, read_i32, read_contents, StartupStep, StartupMessage, SSL_REQUEST_CODE, PROTOCOL_3_CODE};
use database::tcp::response::{encode, Response, ServerState};
use database::tcp::translation::{translate_startup, query_responses, decimal_text};

#[test]
fn version_packing() {
    assert_eq!(encode_version((0, 1, 0)), 65536);
    assert_eq!(encode_version((0, 0, 1)), 256);
    assert_eq!(encode_version((1, 2, 3)), 0x01020300);
}

#[test]
fn query_parse_commands() {
    assert_eq!(Query::parse("GET k"), Ok(Query::Get("k".to_string())));
    assert_eq!(Query::parse("  DEL   k  "), Ok(Query::Del("k".to_string())));
    assert_eq!(Query::parse("SET k v"), Ok(Query::Put { key: "k".into(), value: Value::Text("v".into()) }));
    assert_eq!(Query::parse("SET k -42 int"), Ok(Query::Put { key: "k".into(), value: Value::Int(-42) }));
    assert_eq!(Query::parse("SET k [1,2,255] blob"), Ok(Query::Put { key: "k".into(), value: Value::Blob(vec![1, 2, 255]) }));
    assert_eq!(Query::parse("SET k hi text"), Ok(Query::Put { key: "k".into(), value: Value::Text("hi".into()) }));
    assert_eq!(Query::parse("SET k 2.5 float"), Ok(Query::PutFloat { key: "k".into(), text: "2.5".into() }));
}

#[test]
fn query_parse_errors() {
    assert_eq!(Query::parse("SET k x int"), Err(UserErr::BadVal));
    assert_eq!(Query::parse("SET k [1,256] blob"), Err(UserErr::BadVal));
    assert_eq!(Query::parse("SET k v bogus"), Err(UserErr::BadVal));
    assert_eq!(Query::parse("GET"), Err(UserErr::BadCall));
    assert_eq!(Query::parse("get k"), Err(UserErr::BadCall));
    assert_eq!(Query::parse(""), Err(UserErr::BadCall));
}

#[test]
fn number_words() {
    assert_eq!(parse_isize(b"+17"), Some(17));
    assert_eq!(parse_isize(b"-9223372036854775808"), Some(isize::MIN));
    assert_eq!(parse_isize(b"9223372036854775808"), None);
    assert_eq!(parse_isize(b"-"), None);
    assert_eq!(parse_isize(b""), None);
    assert_eq!(parse_u8(b"255"), Some(255));
    assert_eq!(parse_u8(b"256"), None);
    assert_eq!(parse_u8(b"-1"), None);
    assert_eq!(parse_blob(b"[[7]]"), Some(vec![7]));
    assert_eq!(parse_blob(b"[]"), None);
    assert_eq!(parse_blob(b"1,,2"), None);
}

#[test]
fn cli_commands() {
    assert_eq!(parse_cli("print tree\n"), Some(Cli::PrintTree));
    assert_eq!(parse_cli("print nodes"), Some(Cli::PrintNodes));
    assert_eq!(parse_cli("print x"), Some(Cli::Unknown));
    assert_eq!(parse_cli("get k"), Some(Cli::Get("k".into())));
    assert_eq!(parse_cli("set k v"), Some(Cli::SetKey { key: "k".into(), value: Value::Text("v".into()) }));
    assert_eq!(parse_cli("del k"), Some(Cli::Del("k".into())));
    assert_eq!(parse_cli("stop"), Some(Cli::Stop));
    assert_eq!(parse_cli("help me"), Some(Cli::Help));
    assert_eq!(parse_cli("what"), Some(Cli::Unknown));
    assert_eq!(parse_cli(""), None);
    assert_eq!(parse_cli("set k"), None);
    assert_eq!(parse_cli("print"), None);
}

#[test]
fn startup_decoding() {
    assert_eq!(decode_startup(8, SSL_REQUEST_CODE), Ok(StartupStep::NegotiateSsl));
    assert_eq!(decode_startup(40, PROTOCOL_3_CODE),
        Ok(StartupStep::Begin { params_len: 32, message: StartupMessage(196608) }));
    assert_eq!(decode_startup(8, 12), Err(TcpErr::StartupMessageError));
    assert_eq!(read_i32([0, 3, 0, 0]), 196608);
    assert_eq!(read_i32([0xff, 0xff, 0xff, 0xfe]), -2);
    assert_eq!(read_contents(b"GET k\0".to_vec()), Ok("GET k".to_string()));
    assert_eq!(read_contents(vec![0xff, 0]), Err(TcpErr::FromUtf8Error));
}

#[test]
fn startup_responses() {
    let r = translate_startup(StartupMessage(196608));
    assert_eq!(r.len(), 7);
    assert_eq!(r[0], Response::AuthenticationOk);
    assert_eq!(r[1], Response::ParameterStatus { name: "server_version".into(), val: "256".into() });
    assert_eq!(r[3], Response::ParameterStatus { name: "DateStyle".into(), val: "ISO, MDY".into() });
    assert_eq!(r[5], Response::BackendKeyData { pid: 0, key: 0 });
    assert_eq!(r[6], Response::ReadyForQuery(ServerState::Idle));
}

#[test]
fn decimal_numerals() {
    assert_eq!(decimal_text(0), "0".to_string());
    assert_eq!(decimal_text(4294967295), "4294967295".to_string());
}

#[test]
fn value_responses() {
    let r = query_responses(vec![104, 105]);
    assert_eq!(r.len(), 4);
    assert_eq!(r[1], Response::DataRow(vec![Some(vec![104, 105])]));
    assert_eq!(r[2], Response::CommandComplete(String::new()));
}

#[test]
fn encoded_messages() {
    assert_eq!(encode(Response::AuthenticationOk), Ok(vec![b'R', 0, 0, 0, 8, 0, 0, 0, 0]));
    assert_eq!(encode(Response::ReadyForQuery(ServerState::Idle)), Ok(vec![b'Z', 0, 0, 0, 5, b'I']));
    assert_eq!(encode(Response::BackendKeyData { pid: 1, key: 2 }), Ok(vec![b'K', 0, 0, 0, 12, 0, 0, 0, 1, 0, 0, 0, 2]));
    assert_eq!(encode(Response::Terminate), Ok(vec![]));
}

#[test]
fn requests_by_message_type() {
    assert_eq!(decode_request('Q', "GET k"), Ok(Request::Query(Query::Get("k".to_string()))));
    assert_eq!(decode_request('X', "anything"), Ok(Request::Termination));
    assert_eq!(decode_request('Z', "GET k"), Err(DbErr::TcpErr(TcpErr::BadMessageType)));
    assert_eq!(decode_request('Q', "GET"), Err(DbErr::UserErr(UserErr::BadCall)));
}

#[test]
fn console_commands() {
    assert_eq!(database::query::console::parse_cli("print tree"), database::query::console::Cli::PrintTree);
    assert_eq!(database::query::console::parse_cli("print"), database::query::console::Cli::Unknown);
    assert_eq!(database::query::console::parse_cli("validate"), database::query::console::Cli::ValidateTree);
    assert_eq!(database::query::console::parse_cli("  flush "), database::query::console::Cli::FlushPager);
    assert_eq!(database::query::console::parse_cli(""), database::query::console::Cli::Unknown);
    assert_eq!(database::query::console::parse_cli("stop now"), database::query::console::Cli::Stop);
}
