use resp_kv::resp::{
    find_crlf, parse_array, parse_bulk_string, parse_resp, parse_simple_string, read_line,
    DataType, ReadOutcome, RespListener,
};
use resp_kv::wire::ParseError;

fn simple(text: &str) -> DataType {
    DataType::SimpleString(text.as_bytes().to_vec())
}

fn bulk_string(text: &str) -> DataType {
    DataType::BulkString(text.as_bytes().to_vec())
}

fn sample_values() -> Vec<DataType> {
    vec![
        DataType::Null,
        simple(""),
        simple("OK"),
        simple("with a lone \r inside"),
        simple("ends with \r"),
        bulk_string(""),
        bulk_string("hello"),
        bulk_string("two\r\nlines\r\n"),
        DataType::BulkString(vec![0, 255, 13, 10, 128]),
        DataType::BulkString(vec![b'x'; 1234]),
        DataType::Array(vec![]),
        DataType::Array(vec![bulk_string("GET"), bulk_string("key")]),
        DataType::Array(vec![
            DataType::Null,
            DataType::Array(vec![simple("a"), DataType::Array(vec![])]),
            bulk_string("tail"),
        ]),
        DataType::Array(vec![DataType::Null; 11]),
    ]
}

#[test]
fn null_encodes_as_the_null_bulk_string() {
    assert_eq!(DataType::Null.serialize(), b"$-1\r\n".to_vec());
}

#[test]
fn simple_string_encodes_between_plus_and_line_end() {
    assert_eq!(simple("PONG").serialize(), b"+PONG\r\n".to_vec());
    assert_eq!(simple("").serialize(), b"+\r\n".to_vec());
}

#[test]
fn bulk_string_encodes_with_its_byte_length() {
    assert_eq!(bulk_string("hi").serialize(), b"$2\r\nhi\r\n".to_vec());
    assert_eq!(bulk_string("").serialize(), b"$0\r\n\r\n".to_vec());
    assert_eq!(bulk_string("0123456789").serialize(), b"$10\r\n0123456789\r\n".to_vec());
    // Two bytes per letter: the length counts bytes, not letters.
    assert_eq!(bulk_string("\u{e9}\u{e9}").serialize(), b"$4\r\n\xc3\xa9\xc3\xa9\r\n".to_vec());
}

#[test]
fn error_encodes_between_minus_and_line_end() {
    let value = DataType::Error(b"ERR unknown".to_vec());
    assert_eq!(value.serialize(), b"-ERR unknown\r\n".to_vec());
}

#[test]
fn array_encodes_its_count_then_each_item() {
    assert_eq!(DataType::Array(vec![]).serialize(), b"*0\r\n".to_vec());
    let value = DataType::Array(vec![bulk_string("ECHO"), simple("x"), DataType::Null]);
    assert_eq!(value.serialize(), b"*3\r\n$4\r\nECHO\r\n+x\r\n$-1\r\n".to_vec());
    let nested = DataType::Array(vec![DataType::Array(vec![bulk_string("a")])]);
    assert_eq!(nested.serialize(), b"*1\r\n*1\r\n$1\r\na\r\n".to_vec());
}

#[test]
fn write_to_appends_to_what_is_there() {
    let mut out = b"+OK\r\n".to_vec();
    bulk_string("v").write_to(&mut out);
    assert_eq!(out, b"+OK\r\n$1\r\nv\r\n".to_vec());
}

#[test]
fn clone_gives_an_equal_value() {
    for value in sample_values() {
        assert_eq!(value.clone(), value);
    }
}

#[test]
fn simple_string_decodes_up_to_the_first_line_end() {
    assert_eq!(parse_resp(b"+OK\r\n"), Ok(Some((simple("OK"), 5))));
    assert_eq!(parse_resp(b"+OK\r\n+NEXT\r\n"), Ok(Some((simple("OK"), 5))));
    assert_eq!(parse_resp(b"+\r\n"), Ok(Some((simple(""), 3))));
    assert_eq!(parse_resp(b"+a\rb\r\n"), Ok(Some((simple("a\rb"), 6))));
    assert_eq!(parse_simple_string(b"+hey\r\nrest"), Ok(Some((simple("hey"), 6))));
    assert_eq!(parse_simple_string(b"+hey\r"), Ok(None));
}

#[test]
fn bulk_string_decodes_by_its_length() {
    assert_eq!(parse_resp(b"$5\r\nhello\r\n"), Ok(Some((bulk_string("hello"), 11))));
    assert_eq!(parse_resp(b"$0\r\n\r\n"), Ok(Some((bulk_string(""), 6))));
    assert_eq!(parse_resp(b"$4\r\na\r\nb\r\nrest"), Ok(Some((bulk_string("a\r\nb"), 10))));
    assert_eq!(
        parse_resp(b"$3\r\n\x00\xff\x80\r\n"),
        Ok(Some((DataType::BulkString(vec![0, 255, 128]), 9)))
    );
    assert_eq!(parse_bulk_string(b"$+2\r\nab\r\n"), Ok(Some((bulk_string("ab"), 9))));
    assert_eq!(parse_bulk_string(b"$002\r\nab\r\n"), Ok(Some((bulk_string("ab"), 10))));
}

#[test]
fn length_minus_one_is_the_null_value() {
    assert_eq!(parse_resp(b"$-1\r\n"), Ok(Some((DataType::Null, 5))));
    assert_eq!(parse_resp(b"$-1\r\nmore"), Ok(Some((DataType::Null, 5))));
    assert_eq!(parse_resp(b"$-01\r\n"), Ok(Some((DataType::Null, 6))));
}

#[test]
fn array_decodes_its_items_in_order() {
    assert_eq!(parse_resp(b"*0\r\n"), Ok(Some((DataType::Array(vec![]), 4))));
    assert_eq!(
        parse_resp(b"*2\r\n$3\r\nGET\r\n$1\r\nk\r\n"),
        Ok(Some((DataType::Array(vec![bulk_string("GET"), bulk_string("k")]), 20)))
    );
    assert_eq!(
        parse_resp(b"*2\r\n*1\r\n+a\r\n$-1\r\n+next\r\n"),
        Ok(Some((
            DataType::Array(vec![DataType::Array(vec![simple("a")]), DataType::Null]),
            17
        )))
    );
    assert_eq!(parse_array(b"*1\r\n+x\r\n"), Ok(Some((DataType::Array(vec![simple("x")]), 8))));
}

#[test]
fn count_minus_one_is_an_empty_array() {
    assert_eq!(parse_resp(b"*-1\r\n"), Ok(Some((DataType::Array(vec![]), 5))));
    assert_eq!(parse_resp(b"*-1\r\n+x\r\n"), Ok(Some((DataType::Array(vec![]), 5))));
}

#[test]
fn unknown_first_byte_is_malformed() {
    assert_eq!(parse_resp(b"x"), Err(ParseError::UnknownPrefix));
    assert_eq!(parse_resp(b"-ERR\r\n"), Err(ParseError::UnknownPrefix));
    assert_eq!(parse_resp(b":12\r\n"), Err(ParseError::UnknownPrefix));
    assert_eq!(parse_resp(b"\r\n"), Err(ParseError::UnknownPrefix));
}

#[test]
fn bad_bulk_length_is_malformed() {
    assert_eq!(parse_resp(b"$abc\r\n"), Err(ParseError::InvalidBulkLength));
    assert_eq!(parse_resp(b"$\r\n"), Err(ParseError::InvalidBulkLength));
    assert_eq!(parse_resp(b"$-\r\n"), Err(ParseError::InvalidBulkLength));
    assert_eq!(parse_resp(b"$-2\r\n"), Err(ParseError::InvalidBulkLength));
    assert_eq!(parse_resp(b"$1 \r\na\r\n"), Err(ParseError::InvalidBulkLength));
    assert_eq!(parse_resp(b"$9223372036854775808\r\n"), Err(ParseError::InvalidBulkLength));
    assert_eq!(parse_resp(b"$-9223372036854775808\r\n"), Err(ParseError::InvalidBulkLength));
}

#[test]
fn bad_array_count_is_malformed() {
    assert_eq!(parse_resp(b"*x\r\n"), Err(ParseError::InvalidArrayLength));
    assert_eq!(parse_resp(b"*\r\n"), Err(ParseError::InvalidArrayLength));
    assert_eq!(parse_resp(b"*-5\r\n"), Err(ParseError::InvalidArrayLength));
    assert_eq!(parse_resp(b"*1.5\r\n"), Err(ParseError::InvalidArrayLength));
    assert_eq!(parse_resp(b"*99999999999999999999\r\n"), Err(ParseError::InvalidArrayLength));
}

#[test]
fn missing_line_end_after_payload_is_malformed() {
    assert_eq!(parse_resp(b"$2\r\nabXY"), Err(ParseError::MissingCrlf));
    assert_eq!(parse_resp(b"$2\r\nab\rX"), Err(ParseError::MissingCrlf));
    assert_eq!(parse_resp(b"$2\r\nabX\n"), Err(ParseError::MissingCrlf));
}

#[test]
fn fault_in_an_item_is_the_fault_of_the_array() {
    assert_eq!(parse_resp(b"*2\r\n+ok\r\n?\r\n"), Err(ParseError::UnknownPrefix));
    assert_eq!(parse_resp(b"*2\r\n$x\r\n"), Err(ParseError::InvalidBulkLength));
    assert_eq!(parse_resp(b"*1\r\n*z\r\n"), Err(ParseError::InvalidArrayLength));
    assert_eq!(parse_resp(b"*1\r\n$1\r\nabc"), Err(ParseError::MissingCrlf));
}

#[test]
fn empty_buffer_and_partial_line_need_more_data() {
    assert_eq!(parse_resp(b""), Ok(None));
    assert_eq!(parse_resp(b"+"), Ok(None));
    assert_eq!(parse_resp(b"+partial"), Ok(None));
    assert_eq!(parse_resp(b"+partial\r"), Ok(None));
    assert_eq!(parse_resp(b"$"), Ok(None));
    assert_eq!(parse_resp(b"$12"), Ok(None));
    assert_eq!(parse_resp(b"$abc"), Ok(None));
    assert_eq!(parse_resp(b"*"), Ok(None));
    assert_eq!(parse_resp(b"*3\r"), Ok(None));
}

#[test]
fn incomplete_payload_needs_more_data() {
    assert_eq!(parse_resp(b"$5\r\nhel"), Ok(None));
    assert_eq!(parse_resp(b"$5\r\nhello"), Ok(None));
    assert_eq!(parse_resp(b"$5\r\nhello\r"), Ok(None));
    assert_eq!(parse_resp(b"$9223372036854775807\r\nabc"), Ok(None));
    assert_eq!(parse_resp(b"*2\r\n+a\r\n"), Ok(None));
    assert_eq!(parse_resp(b"*2\r\n+a\r\n$3\r\nab"), Ok(None));
    assert_eq!(parse_resp(b"*9223372036854775807\r\n"), Ok(None));
}

#[test]
fn find_crlf_gives_the_first_line_end() {
    assert_eq!(find_crlf(b""), None);
    assert_eq!(find_crlf(b"\r"), None);
    assert_eq!(find_crlf(b"\n\r"), None);
    assert_eq!(find_crlf(b"abc\r"), None);
    assert_eq!(find_crlf(b"\r\n"), Some(0));
    assert_eq!(find_crlf(b"ab\r\ncd\r\n"), Some(2));
    assert_eq!(find_crlf(b"a\r\r\n"), Some(2));
}

#[test]
fn read_line_gives_the_line_and_its_length_with_the_line_end() {
    assert_eq!(read_line(b"no end"), None);
    assert_eq!(read_line(b"$12\r\nrest"), Some((&b"$12"[..], 5)));
    assert_eq!(read_line(b"\r\n"), Some((&b""[..], 2)));
}

#[test]
fn decoding_an_encoded_value_gives_it_back() {
    for value in sample_values() {
        let wire = value.clone().serialize();
        assert_eq!(parse_resp(&wire), Ok(Some((value.clone(), wire.len()))));
        let mut longer = wire.clone();
        longer.extend_from_slice(b"+next\r\n");
        assert_eq!(parse_resp(&longer), Ok(Some((value, wire.len()))));
    }
}

#[test]
fn every_cut_of_an_encoded_value_needs_more_data() {
    for value in sample_values() {
        let wire = value.serialize();
        for cut in 0..wire.len() {
            assert_eq!(parse_resp(&wire[..cut]), Ok(None));
        }
    }
}

#[test]
fn a_decoded_value_round_trips_through_its_own_wire_form() {
    let inputs: [&[u8]; 6] = [
        b"$+2\r\nab\r\n",
        b"$002\r\nab\r\n",
        b"$-01\r\n",
        b"*-1\r\n",
        b"*+1\r\n+x\r\n",
        b"*02\r\n$0\r\n\r\n*-1\r\n",
    ];
    for input in inputs {
        let (value, consumed) = parse_resp(input).unwrap().unwrap();
        assert_eq!(consumed, input.len());
        let wire = value.clone().serialize();
        assert_eq!(parse_resp(&wire), Ok(Some((value, wire.len()))));
    }
    // The empty array has one wire form, whichever count it was read from.
    assert_eq!(parse_resp(b"*-1\r\n").unwrap().unwrap().0.serialize(), b"*0\r\n".to_vec());
}

#[test]
fn what_follows_a_whole_value_does_not_change_the_result() {
    let whole: [&[u8]; 4] = [b"+OK\r\n", b"$2\r\nhi\r\n", b"$-1\r\n", b"*1\r\n$1\r\na\r\n"];
    let tails: [&[u8]; 4] = [b"", b"\r\n", b"?garbage", b"*3\r\n"];
    for input in whole {
        let alone = parse_resp(input);
        for tail in tails {
            let mut longer = input.to_vec();
            longer.extend_from_slice(tail);
            assert_eq!(parse_resp(&longer), alone);
        }
    }
}

#[test]
fn what_follows_a_malformed_buffer_does_not_mend_it() {
    let broken: [&[u8]; 4] = [b"?", b"$x\r\n", b"*1\r\n$-7\r\n", b"$1\r\nabc"];
    let tails: [&[u8]; 3] = [b"\r\n", b"+OK\r\n", b"0123456789"];
    for input in broken {
        let alone = parse_resp(input);
        assert!(alone.is_err());
        for tail in tails {
            let mut longer = input.to_vec();
            longer.extend_from_slice(tail);
            assert_eq!(parse_resp(&longer), alone);
        }
    }
}

#[test]
fn error_value_does_not_decode() {
    let wire = DataType::Error(b"ERR".to_vec()).serialize();
    assert_eq!(parse_resp(&wire), Err(ParseError::UnknownPrefix));
}

#[test]
fn simple_string_with_a_line_end_inside_decodes_shorter() {
    let wire = simple("a\r\nb").serialize();
    assert_eq!(parse_resp(&wire), Ok(Some((simple("a"), 4))));
}

#[test]
fn one_byte_at_a_time_yields_the_value_at_the_last_byte() {
    for value in sample_values() {
        let wire = value.clone().serialize();

        let mut whole = RespListener::new();
        assert_eq!(whole.read(&wire), Ok(ReadOutcome::Frame(value.clone())));
        assert_eq!(whole.buffered_len(), 0);

        let mut bytewise = RespListener::new();
        for (i, byte) in wire.iter().enumerate() {
            let outcome = bytewise.read(&[*byte]);
            if i + 1 < wire.len() {
                assert_eq!(outcome, Ok(ReadOutcome::NeedMoreData));
                assert_eq!(bytewise.buffered_len(), i + 1);
            } else {
                assert_eq!(outcome, Ok(ReadOutcome::Frame(value.clone())));
                assert_eq!(bytewise.buffered_len(), 0);
            }
        }
    }
}

#[test]
fn a_new_listener_holds_nothing() {
    let listener = RespListener::new();
    assert_eq!(listener.buffered_len(), 0);
}

#[test]
fn bytes_join_the_buffer_in_the_order_of_the_reads() {
    let mut listener = RespListener::new();
    assert_eq!(listener.read(b"$1"), Ok(ReadOutcome::NeedMoreData));
    assert_eq!(listener.read(b"1\r\nhel"), Ok(ReadOutcome::NeedMoreData));
    assert_eq!(listener.buffered_len(), 8);
    assert_eq!(listener.read(b"lo world\r"), Ok(ReadOutcome::NeedMoreData));
    assert_eq!(
        listener.read(b"\n+tail"),
        Ok(ReadOutcome::Frame(bulk_string("hello world")))
    );
    assert_eq!(listener.buffered_len(), 5);
}

#[test]
fn chunks_of_any_size_yield_the_value_with_the_last_chunk() {
    for value in sample_values() {
        let wire = value.clone().serialize();
        for size in [2usize, 3, 5, 64] {
            let mut listener = RespListener::new();
            let chunks: Vec<&[u8]> = wire.chunks(size).collect();
            for (i, chunk) in chunks.iter().enumerate() {
                let outcome = listener.read(chunk);
                if i + 1 < chunks.len() {
                    assert_eq!(outcome, Ok(ReadOutcome::NeedMoreData));
                } else {
                    assert_eq!(outcome, Ok(ReadOutcome::Frame(value.clone())));
                }
            }
            assert_eq!(listener.buffered_len(), 0);
        }
    }
}

#[test]
fn read_of_no_bytes_means_the_peer_closed() {
    let mut listener = RespListener::new();
    assert_eq!(listener.read(b""), Ok(ReadOutcome::PeerClosed));
    assert_eq!(listener.read(b"+O"), Ok(ReadOutcome::NeedMoreData));
    assert_eq!(listener.read(b""), Ok(ReadOutcome::PeerClosed));
    assert_eq!(listener.buffered_len(), 2);
    assert_eq!(listener.read(b"K\r\n"), Ok(ReadOutcome::Frame(simple("OK"))));
}

#[test]
fn a_read_yields_one_value_and_keeps_the_rest() {
    let mut listener = RespListener::new();
    assert_eq!(
        listener.read(b"+one\r\n+two\r\n$5\r\nth"),
        Ok(ReadOutcome::Frame(simple("one")))
    );
    assert_eq!(listener.buffered_len(), 12);
    assert_eq!(listener.read(b"r"), Ok(ReadOutcome::Frame(simple("two"))));
    assert_eq!(listener.buffered_len(), 7);
    assert_eq!(listener.read(b"e"), Ok(ReadOutcome::NeedMoreData));
    assert_eq!(listener.read(b"e\r\n"), Ok(ReadOutcome::Frame(bulk_string("three"))));
    assert_eq!(listener.buffered_len(), 0);
}

#[test]
fn malformed_bytes_stay_in_the_buffer() {
    let mut listener = RespListener::new();
    assert_eq!(listener.read(b"?what\r\n"), Err(ParseError::UnknownPrefix));
    assert_eq!(listener.buffered_len(), 7);
    assert_eq!(listener.read(b"+OK\r\n"), Err(ParseError::UnknownPrefix));
    assert_eq!(listener.buffered_len(), 12);
}
