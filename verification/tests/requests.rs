use resp_kv::cmd::Command;
use resp_kv::resp::{parse_resp, DataType, RespListener};
use resp_kv::wire::ParseError;
use resp_kv::clock::{saturate, Clock};
use resp_kv::session::{process, serve, Action};
use resp_kv::store::Store;

fn bulk(text: &str) -> DataType {
    DataType::BulkString(text.as_bytes().to_vec())
}

#[test]
fn ping_is_answered_with_pong() {
    let input = b"*1\r\n$4\r\nPING\r\n";
    let (value, consumed) = parse_resp(input).unwrap().unwrap();
    assert_eq!(value, DataType::Array(vec![bulk("PING")]));
    assert_eq!(consumed, input.len());
    assert_eq!(Command::parse(value), Command::Ping);

    let mut listener = RespListener::new();
    let mut store = Store::new();
    let action = process(&mut listener, &mut store, input, 0);
    assert_eq!(action, Action::Reply(b"+PONG\r\n".to_vec()));
}

#[test]
fn echo_is_answered_with_its_argument() {
    let mut listener = RespListener::new();
    let mut store = Store::new();
    let action = process(&mut listener, &mut store, b"*2\r\n$4\r\nECHO\r\n$2\r\nhi\r\n", 0);
    assert_eq!(action, Action::Reply(b"$2\r\nhi\r\n".to_vec()));
}

#[test]
fn set_then_get_gives_the_value() {
    let mut listener = RespListener::new();
    let mut store = Store::new();
    let set = process(&mut listener, &mut store, b"*3\r\n$3\r\nSET\r\n$1\r\nk\r\n$1\r\nv\r\n", 10);
    assert_eq!(set, Action::Reply(b"+OK\r\n".to_vec()));
    let get = process(&mut listener, &mut store, b"*2\r\n$3\r\nGET\r\n$1\r\nk\r\n", 5000);
    assert_eq!(get, Action::Reply(b"$1\r\nv\r\n".to_vec()));
}

#[test]
fn set_with_zero_ttl_then_get_gives_null() {
    let mut listener = RespListener::new();
    let mut store = Store::new();
    let set = process(
        &mut listener,
        &mut store,
        b"*5\r\n$3\r\nSET\r\n$1\r\nk\r\n$1\r\nv\r\n$2\r\nPX\r\n$1\r\n0\r\n",
        10,
    );
    assert_eq!(set, Action::Reply(b"+OK\r\n".to_vec()));
    let get = process(&mut listener, &mut store, b"*2\r\n$3\r\nGET\r\n$1\r\nk\r\n", 10);
    assert_eq!(get, Action::Reply(b"$-1\r\n".to_vec()));
}

#[test]
fn short_bulk_string_is_malformed() {
    // Three bytes are declared and two stand before the line end. The eight
    // bytes are one short of the nine that length line, payload and line end
    // take, so the decoder waits; the ninth byte shows the fault.
    assert_eq!(parse_resp(b"$3\r\nab\r\n"), Ok(None));
    assert_eq!(parse_resp(b"$3\r\nab\r\n*"), Err(ParseError::MissingCrlf));

    let mut listener = RespListener::new();
    let mut store = Store::new();
    let first = process(&mut listener, &mut store, b"$3\r\nab\r\n", 0);
    assert_eq!(first, Action::ReadMore);
    let second = process(&mut listener, &mut store, b"*", 0);
    assert_eq!(second, Action::Abort(ParseError::MissingCrlf));
}

#[test]
fn long_bulk_string_is_malformed() {
    assert_eq!(parse_resp(b"$2\r\nabc\r\n"), Err(ParseError::MissingCrlf));
    let mut listener = RespListener::new();
    let mut store = Store::new();
    let action = process(&mut listener, &mut store, b"$2\r\nabc\r\n", 0);
    assert_eq!(action, Action::Abort(ParseError::MissingCrlf));
}

#[test]
fn unknown_command_word_is_answered_with_an_error() {
    let mut listener = RespListener::new();
    let mut store = Store::new();
    let action = process(&mut listener, &mut store, b"*1\r\n+NOTACMD\r\n", 0);
    assert_eq!(action, Action::Reply(b"-NOTACMD\r\n".to_vec()));
}

#[test]
fn the_clock_counts_from_its_start_and_does_not_run_back() {
    let clock = Clock::start();
    let first = clock.now();
    let second = clock.now();
    assert!(first <= second);
    assert!(second < 60_000);
}

#[test]
fn serve_takes_a_turn_at_the_time_on_the_clock() {
    let clock = Clock::start();
    let mut listener = RespListener::new();
    let mut store = Store::new();
    let ping = serve(&mut listener, &mut store, &clock, b"*1\r\n$4\r\nPING\r\n");
    assert_eq!(ping, Action::Reply(b"+PONG\r\n".to_vec()));

    let set = serve(
        &mut listener,
        &mut store,
        &clock,
        b"*5\r\n$3\r\nSET\r\n$1\r\nk\r\n$1\r\nv\r\n$2\r\nPX\r\n$1\r\n0\r\n",
    );
    assert_eq!(set, Action::Reply(b"+OK\r\n".to_vec()));
    let get = serve(&mut listener, &mut store, &clock, b"*2\r\n$3\r\nGET\r\n$1\r\nk\r\n");
    assert_eq!(get, Action::Reply(b"$-1\r\n".to_vec()));

    let keep = serve(
        &mut listener,
        &mut store,
        &clock,
        b"*5\r\n$3\r\nSET\r\n$1\r\nj\r\n$1\r\nw\r\n$2\r\nPX\r\n$7\r\n3600000\r\n",
    );
    assert_eq!(keep, Action::Reply(b"+OK\r\n".to_vec()));
    let found = serve(&mut listener, &mut store, &clock, b"*2\r\n$3\r\nGET\r\n$1\r\nj\r\n");
    assert_eq!(found, Action::Reply(b"$1\r\nw\r\n".to_vec()));
    assert_eq!(serve(&mut listener, &mut store, &clock, b""), Action::Close);
}

#[test]
fn a_count_of_milliseconds_that_does_not_fit_is_the_largest() {
    assert_eq!(saturate(0), 0);
    assert_eq!(saturate(1_500), 1_500);
    assert_eq!(saturate(u64::MAX as u128), u64::MAX);
    assert_eq!(saturate(u64::MAX as u128 + 1), u64::MAX);
    assert_eq!(saturate(u128::MAX), u64::MAX);
}
