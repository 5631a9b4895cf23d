use sbt_bridge::sbt::{copy_messages, Active, FrameError, LspMessage, LspMessageReader, ReadEvent};

const FIRST: &[u8] = b"Header: x\r\n\r\n{\"id\":1}";
const SECOND: &[u8] = b"Header: y\r\n\r\n{\"id\":2}";

fn both() -> Vec<u8> {
    let mut all = FIRST.to_vec();
    all.extend_from_slice(SECOND);
    all
}

fn message(headers: &[u8], body: &[u8]) -> LspMessage {
    LspMessage::new(headers.to_vec(), body.to_vec())
}

/// Feeds `input` in chunks of `size` bytes and collects what comes out until
/// the reader fails for another reason than running out of bytes.
fn read_in_chunks(input: &[u8], size: usize) -> (Vec<LspMessage>, Option<FrameError>) {
    let mut reader = LspMessageReader::new(Vec::new());
    let mut messages = Vec::new();
    for chunk in input.chunks(size) {
        reader.feed(chunk);
        loop {
            match reader.read_message() {
                Ok(msg) => messages.push(msg),
                Err(FrameError::UnexpectedEof) => break,
                Err(other) => return (messages, Some(other)),
            }
        }
    }
    (messages, None)
}

#[test]
fn two_messages_in_one_chunk() {
    let mut reader = LspMessageReader::new(both());
    assert_eq!(reader.read_message(), Ok(message(b"Header: x\r\n\r\n", b"{\"id\":1}")));
    assert_eq!(reader.read_message(), Ok(message(b"Header: y\r\n\r\n", b"{\"id\":2}")));
    assert_eq!(reader.read_message(), Err(FrameError::UnexpectedEof));
}

#[test]
fn two_messages_split_at_every_byte() {
    let (messages, failure) = read_in_chunks(&both(), 1);
    assert_eq!(failure, None);
    assert_eq!(
        messages,
        vec![
            message(b"Header: x\r\n\r\n", b"{\"id\":1}"),
            message(b"Header: y\r\n\r\n", b"{\"id\":2}"),
        ]
    );
}

#[test]
fn chunk_size_does_not_change_the_messages() {
    let input = both();
    let whole = read_in_chunks(&input, input.len());
    assert_eq!(whole.0.len(), 2);
    for size in 1..input.len() {
        assert_eq!(read_in_chunks(&input, size), whole);
    }
}

#[test]
fn every_two_way_split_gives_the_same_messages() {
    let input = both();
    for cut in 0..=input.len() {
        let mut reader = LspMessageReader::new(input[..cut].to_vec());
        let mut messages = Vec::new();
        while let Ok(msg) = reader.read_message() {
            messages.push(msg);
        }
        reader.feed(&input[cut..]);
        while let Ok(msg) = reader.read_message() {
            messages.push(msg);
        }
        assert_eq!(
            messages,
            vec![
                message(b"Header: x\r\n\r\n", b"{\"id\":1}"),
                message(b"Header: y\r\n\r\n", b"{\"id\":2}"),
            ]
        );
    }
}

#[test]
fn brace_inside_quotes_does_not_close_the_body() {
    let mut reader = LspMessageReader::new(b"H: 1\r\n\r\n{\"a\":\"}\"}".to_vec());
    assert_eq!(reader.read_message(), Ok(message(b"H: 1\r\n\r\n", b"{\"a\":\"}\"}")));
    assert_eq!(reader.read_message(), Err(FrameError::UnexpectedEof));
}

#[test]
fn open_brace_inside_quotes_does_not_deepen_the_body() {
    let mut reader = LspMessageReader::new(b"H: 1\r\n\r\n{\"a\":\"{\"}rest".to_vec());
    assert_eq!(reader.read_message(), Ok(message(b"H: 1\r\n\r\n", b"{\"a\":\"{\"}")));
}

#[test]
fn escaped_quote_does_not_end_the_quoted_section() {
    let mut reader = LspMessageReader::new(b"H: 1\r\n\r\n{\"a\":\"\\\"\"}".to_vec());
    assert_eq!(reader.read_message(), Ok(message(b"H: 1\r\n\r\n", b"{\"a\":\"\\\"\"}")));
}

#[test]
fn escaped_quote_before_a_brace_keeps_the_brace_quoted() {
    let body = b"{\"a\":\"\\\"}\"}";
    let mut input = b"\r\n\r\n".to_vec();
    input.extend_from_slice(body);
    let mut reader = LspMessageReader::new(input);
    assert_eq!(reader.read_message(), Ok(message(b"\r\n\r\n", body)));
}

#[test]
fn escaped_backslash_lets_the_quote_end_the_section() {
    let body = b"{\"a\":\"\\\\\"}";
    let mut input = b"\r\n\r\n".to_vec();
    input.extend_from_slice(body);
    input.extend_from_slice(b"}");
    let mut reader = LspMessageReader::new(input);
    assert_eq!(reader.read_message(), Ok(message(b"\r\n\r\n", body)));
}

#[test]
fn nested_braces_close_at_the_outermost() {
    let body = b"{\"a\":{\"b\":{}},\"c\":[{}]}";
    let mut input = b"K: v\r\n\r\n".to_vec();
    input.extend_from_slice(body);
    input.extend_from_slice(b"K: w\r\n");
    let mut reader = LspMessageReader::new(input);
    assert_eq!(reader.read_message(), Ok(message(b"K: v\r\n\r\n", body)));
    assert_eq!(reader.read_message(), Err(FrameError::UnexpectedEof));
}

#[test]
fn stream_that_ends_in_the_headers_is_cut_short() {
    for cut in 0..13 {
        let mut reader = LspMessageReader::new(FIRST[..cut].to_vec());
        assert_eq!(reader.read_message(), Err(FrameError::UnexpectedEof));
    }
}

#[test]
fn stream_that_ends_in_the_body_is_cut_short() {
    for cut in 13..FIRST.len() {
        let mut reader = LspMessageReader::new(FIRST[..cut].to_vec());
        assert_eq!(reader.read_message(), Err(FrameError::UnexpectedEof));
    }
}

#[test]
fn empty_stream_is_cut_short() {
    let mut reader = LspMessageReader::new(Vec::new());
    assert_eq!(reader.read_message(), Err(FrameError::UnexpectedEof));
}

#[test]
fn reading_goes_on_after_more_bytes_arrive() {
    let mut reader = LspMessageReader::new(b"Header: x\r\n\r".to_vec());
    assert_eq!(reader.read_message(), Err(FrameError::UnexpectedEof));
    reader.feed(b"\n{\"id\"");
    assert_eq!(reader.read_message(), Err(FrameError::UnexpectedEof));
    reader.feed(b":1}Header");
    assert_eq!(reader.read_message(), Ok(message(b"Header: x\r\n\r\n", b"{\"id\":1}")));
    assert_eq!(reader.read_message(), Err(FrameError::UnexpectedEof));
    reader.feed(b": y\r\n\r\n{}");
    assert_eq!(reader.read_message(), Ok(message(b"Header: y\r\n\r\n", b"{}")));
}

#[test]
fn bytes_after_a_message_stay_for_the_next() {
    let mut input = FIRST.to_vec();
    input.extend_from_slice(b"\r\n\r\n{}");
    let mut reader = LspMessageReader::new(input);
    assert_eq!(reader.read_message(), Ok(message(b"Header: x\r\n\r\n", b"{\"id\":1}")));
    assert_eq!(reader.read_message(), Ok(message(b"\r\n\r\n", b"{}")));
}

#[test]
fn header_block_ends_at_the_first_blank_line() {
    let mut reader = LspMessageReader::new(b"A: 1\r\nB: 2\r\n\r\n{}".to_vec());
    assert_eq!(reader.read_message(), Ok(message(b"A: 1\r\nB: 2\r\n\r\n", b"{}")));
}

#[test]
fn bare_line_feeds_do_not_end_the_header_block() {
    let mut reader = LspMessageReader::new(b"A: 1\n\n{}\r\n\r\n{}".to_vec());
    assert_eq!(reader.read_message(), Ok(message(b"A: 1\n\n{}\r\n\r\n", b"{}")));
}

#[test]
fn bytes_before_the_first_brace_belong_to_the_body() {
    let mut reader = LspMessageReader::new(b"\r\n\r\n \n{\"a\":1}".to_vec());
    assert_eq!(reader.read_message(), Ok(message(b"\r\n\r\n", b" \n{\"a\":1}")));
}

#[test]
fn balanced_body_that_is_no_json_is_malformed() {
    let mut reader = LspMessageReader::new(b"H: 1\r\n\r\n{a}".to_vec());
    assert_eq!(reader.read_message(), Err(FrameError::MalformedMessage));
}

#[test]
fn text_before_the_first_brace_makes_the_body_malformed() {
    let mut reader = LspMessageReader::new(b"H: 1\r\n\r\nabc{}".to_vec());
    assert_eq!(reader.read_message(), Err(FrameError::MalformedMessage));
}

#[test]
fn close_brace_before_open_brace_is_malformed() {
    let mut reader = LspMessageReader::new(b"H: 1\r\n\r\n}".to_vec());
    assert_eq!(reader.read_message(), Err(FrameError::UnexpectedEof));
    reader.feed(b"{");
    assert_eq!(reader.read_message(), Err(FrameError::MalformedMessage));
}

#[test]
fn quoted_text_alone_does_not_complete_a_body() {
    let mut reader = LspMessageReader::new(b"H: 1\r\n\r\n\"abc\"".to_vec());
    assert_eq!(reader.read_message(), Err(FrameError::UnexpectedEof));
}

#[test]
fn reader_starts_over_after_a_malformed_body() {
    let mut input = b"H: 1\r\n\r\n{a}".to_vec();
    input.extend_from_slice(FIRST);
    let mut reader = LspMessageReader::new(input);
    assert_eq!(reader.read_message(), Err(FrameError::MalformedMessage));
    assert_eq!(reader.read_message(), Ok(message(b"Header: x\r\n\r\n", b"{\"id\":1}")));
}

#[test]
fn match_byte_passes_a_byte_on() {
    assert_eq!(LspMessageReader::match_byte(ReadEvent::Byte(0x7b)), Ok(Some(0x7b)));
    assert_eq!(LspMessageReader::match_byte(ReadEvent::Byte(0)), Ok(Some(0)));
}

#[test]
fn match_byte_swallows_an_interruption() {
    assert_eq!(LspMessageReader::match_byte(ReadEvent::Interrupted), Ok(None));
}

#[test]
fn match_byte_reports_the_end_of_the_source() {
    assert_eq!(LspMessageReader::match_byte(ReadEvent::End), Err(FrameError::UnexpectedEof));
}

#[test]
fn match_byte_reports_a_failure_of_the_source() {
    assert_eq!(
        LspMessageReader::match_byte(ReadEvent::Failed(String::from("connection reset"))),
        Err(FrameError::IoFailure(String::from("connection reset")))
    );
}

#[test]
fn settle_hands_out_a_valid_message() {
    assert_eq!(
        LspMessageReader::settle(b"H\r\n\r\n".to_vec(), b"{}".to_vec(), true),
        Ok(message(b"H\r\n\r\n", b"{}"))
    );
}

#[test]
fn settle_rejects_an_invalid_message() {
    assert_eq!(
        LspMessageReader::settle(b"H\r\n\r\n".to_vec(), b"{}".to_vec(), false),
        Err(FrameError::MalformedMessage)
    );
}

#[test]
fn new_message_keeps_both_parts() {
    let msg = LspMessage::new(vec![1, 2, 3], vec![4, 5]);
    assert_eq!(msg.headers, vec![1, 2, 3]);
    assert_eq!(msg.message, vec![4, 5]);
}

#[test]
fn write_into_appends_headers_then_body() {
    let msg = message(b"Header: x\r\n\r\n", b"{\"id\":1}");
    let mut sink = b"before".to_vec();
    msg.write_into(&mut sink);
    assert_eq!(sink, b"beforeHeader: x\r\n\r\n{\"id\":1}".to_vec());
}

#[test]
fn write_then_read_gives_the_message_back() {
    let msg = message(b"Content-Length: 2\r\n\r\n", b"{}");
    let mut wire = Vec::new();
    msg.write_into(&mut wire);
    msg.write_into(&mut wire);
    let mut reader = LspMessageReader::new(wire);
    assert_eq!(reader.read_message(), Ok(msg.clone()));
    assert_eq!(reader.read_message(), Ok(msg));
    assert_eq!(reader.read_message(), Err(FrameError::UnexpectedEof));
}

#[test]
fn copy_messages_relays_whole_messages_verbatim() {
    let mut reader = LspMessageReader::new(both());
    let mut sink = Vec::new();
    assert_eq!(copy_messages(&mut reader, &mut sink), FrameError::UnexpectedEof);
    assert_eq!(sink, both());
}

#[test]
fn copy_messages_holds_back_a_partial_message() {
    let input = both();
    let mut reader = LspMessageReader::new(input[..30].to_vec());
    let mut sink = Vec::new();
    assert_eq!(copy_messages(&mut reader, &mut sink), FrameError::UnexpectedEof);
    assert_eq!(sink, FIRST.to_vec());
    reader.feed(&input[30..]);
    assert_eq!(copy_messages(&mut reader, &mut sink), FrameError::UnexpectedEof);
    assert_eq!(sink, input);
}

#[test]
fn copy_messages_stops_at_a_malformed_body() {
    let mut input = FIRST.to_vec();
    input.extend_from_slice(b"H: 1\r\n\r\n{a}");
    input.extend_from_slice(SECOND);
    let mut reader = LspMessageReader::new(input);
    let mut sink = Vec::new();
    assert_eq!(copy_messages(&mut reader, &mut sink), FrameError::MalformedMessage);
    assert_eq!(sink, FIRST.to_vec());
    assert_eq!(copy_messages(&mut reader, &mut sink), FrameError::UnexpectedEof);
    assert_eq!(sink, both());
}

#[test]
fn copy_messages_byte_by_byte_matches_one_chunk() {
    let input = both();
    let mut reader = LspMessageReader::new(Vec::new());
    let mut sink = Vec::new();
    for byte in input.iter() {
        reader.feed(&[*byte]);
        assert_eq!(copy_messages(&mut reader, &mut sink), FrameError::UnexpectedEof);
    }
    assert_eq!(sink, input);
}

#[test]
fn active_with_only_a_uri_gives_it() {
    let active = Active::OnlyUri { uri: String::from("tcp://127.0.0.1:5010") };
    assert_eq!(active.to_uri(), "tcp://127.0.0.1:5010");
}

#[test]
fn active_with_a_token_gives_the_uri() {
    let active = Active::WithToken {
        uri: String::from("local:///tmp/sock"),
        tokenfile_path: String::from("/tmp/token.json"),
        tokenfile_uri: String::from("file:///tmp/token.json"),
    };
    assert_eq!(active.to_uri(), "local:///tmp/sock");
}
