use washtank::jsonrpc::{
    decode_content, parse_header_field, HeaderReader, Id, JsonRpcError, LineReader, Message,
    MessageHeaders, NotificationMessage, ResponseError, ResponseMessage, DEFAULT_CONTENT_TYPE,
};
use washtank::text_util::decimal_string;
use washtank::{RequestMessage, RpcMessage};

/// Reads one message from the bytes, as a transport would: header lines up
/// to the empty one, then as many bytes as `Content-Length` says.
fn read_message(bytes: &[u8]) -> Result<Message, JsonRpcError> {
    let mut pos = 0;
    let mut reader = HeaderReader::new();
    loop {
        let mut line = LineReader::new();
        loop {
            let byte = bytes[pos];
            pos += 1;
            if line.push_byte(byte) {
                break;
            }
        }
        let text = line.finish()?;
        if reader.read_header_line(&text)? {
            break;
        }
    }
    let headers = reader.finish()?;
    let buffer = bytes[pos..pos + headers.content_length].to_vec();
    let content = decode_content(&headers, buffer)?;
    Ok(Message { headers, content })
}

#[test]
fn message_bytes_have_the_length_a_blank_line_and_the_content() {
    let message = Message::new(String::from("{\"a\":1}"));
    assert_eq!(message.headers.content_length, 7);
    assert_eq!(message.to_bytes(), b"Content-Length: 7\r\n\r\n{\"a\":1}".to_vec());
}

#[test]
fn content_length_counts_bytes_not_chars() {
    let message = Message::new(String::from("é"));
    assert_eq!(message.headers.content_length, 2);
}

#[test]
fn message_bytes_name_a_custom_content_type_and_extra_fields() {
    let headers = MessageHeaders::with_content_type(2, String::from("text/plain"))
        .add_header(String::from("X-A"), String::from("1"));
    let message = Message {
        headers,
        content: String::from("hi"),
    };
    assert_eq!(
        message.to_bytes(),
        b"Content-Length: 2\r\nContent-Type: text/plain\r\nX-A: 1\r\n\r\nhi".to_vec()
    );
}

#[test]
fn adding_a_header_twice_keeps_one_field_with_the_last_value() {
    let headers = MessageHeaders::new(0)
        .add_header(String::from("X-A"), String::from("1"))
        .add_header(String::from("X-B"), String::from("2"))
        .add_header(String::from("X-A"), String::from("3"));
    assert_eq!(
        headers.additional,
        vec![
            (String::from("X-A"), String::from("3")),
            (String::from("X-B"), String::from("2")),
        ]
    );
    assert_eq!(headers.content_type, DEFAULT_CONTENT_TYPE);
}

#[test]
fn header_fields_are_split_at_the_first_colon_space_and_trimmed() {
    assert_eq!(
        parse_header_field("Content-Length: 10"),
        Ok(Some((String::from("Content-Length"), String::from("10"))))
    );
    assert_eq!(
        parse_header_field(" A :  b: c "),
        Ok(Some((String::from("A"), String::from("b: c"))))
    );
    assert_eq!(parse_header_field(""), Ok(None));
    assert_eq!(
        parse_header_field("no separator"),
        Err(JsonRpcError::InvalidHeaderField(String::from("no separator")))
    );
}

#[test]
fn encoding_comes_from_the_charset() {
    assert_eq!(MessageHeaders::new(0).get_encoding(), "utf-8");
    let plain = MessageHeaders::with_content_type(0, String::from("text/plain"));
    assert_eq!(plain.get_encoding(), "utf-8");
    let utf8 = MessageHeaders::with_content_type(0, String::from("text/plain; charset=utf8"));
    assert_eq!(utf8.get_encoding(), "utf-8");
    let latin = MessageHeaders::with_content_type(0, String::from("text/plain; charset= latin1 ;x"));
    assert_eq!(latin.get_encoding(), "latin1");
}

#[test]
fn header_reader_takes_length_type_and_extra_fields_in_any_case() {
    let mut reader = HeaderReader::new();
    assert_eq!(reader.read_header_line("content-LENGTH: 5"), Ok(false));
    assert_eq!(reader.read_header_line("Content-Type: foo"), Ok(false));
    assert_eq!(reader.read_header_line("X-A: 1"), Ok(false));
    assert_eq!(reader.read_header_line("X-A: 2"), Ok(false));
    assert_eq!(reader.read_header_line(""), Ok(true));
    let headers = reader.finish().unwrap();
    assert_eq!(headers.content_length, 5);
    assert_eq!(headers.content_type, "foo");
    assert_eq!(
        headers.additional,
        vec![(String::from("X-A"), String::from("2"))]
    );
}

#[test]
fn header_reader_errors() {
    let mut reader = HeaderReader::new();
    assert_eq!(
        reader.read_header_line("Content-Length: abc"),
        Err(JsonRpcError::InvalidContentLength(String::from("abc")))
    );
    assert_eq!(
        reader.read_header_line("garbage"),
        Err(JsonRpcError::InvalidHeaderField(String::from("garbage")))
    );
    assert!(matches!(
        reader.finish(),
        Err(JsonRpcError::MissingContentLength)
    ));
}

#[test]
fn content_length_accepts_a_plus_sign_and_rejects_overflow() {
    let mut reader = HeaderReader::new();
    assert_eq!(reader.read_header_line("Content-Length: +12"), Ok(false));
    assert_eq!(reader.content_length, Some(12));
    assert_eq!(
        reader.read_header_line("Content-Length: 99999999999999999999999"),
        Err(JsonRpcError::InvalidContentLength(String::from(
            "99999999999999999999999"
        )))
    );
    assert_eq!(reader.content_length, Some(12));
}

#[test]
fn line_reader_stops_at_crlf_and_drops_it() {
    let mut line = LineReader::new();
    let mut done = false;
    for byte in b"ab\rc\r\n" {
        assert!(!done);
        done = line.push_byte(*byte);
    }
    assert!(done);
    assert_eq!(line.finish(), Ok(String::from("ab\rc")));
}

#[test]
fn decode_content_checks_encoding_and_utf8() {
    let utf8 = MessageHeaders::new(2);
    assert_eq!(decode_content(&utf8, b"hi".to_vec()), Ok(String::from("hi")));
    assert_eq!(
        decode_content(&utf8, vec![0xff, 0xfe]),
        Err(JsonRpcError::InvalidUtf8)
    );
    let latin = MessageHeaders::with_content_type(2, String::from("text/plain; charset=latin1"));
    assert_eq!(
        decode_content(&latin, b"hi".to_vec()),
        Err(JsonRpcError::UnsupportedEncoding(String::from("latin1")))
    );
}

#[test]
fn a_written_message_reads_back_the_same() {
    let headers = MessageHeaders::with_content_type(0, String::from("text/plain; charset=utf-8"))
        .add_header(String::from("X-Trace"), String::from("on"));
    let content = String::from("{\"héllo\": [1, 2]}");
    let message = Message {
        headers: MessageHeaders {
            content_length: content.len(),
            ..headers
        },
        content,
    };
    let bytes = message.to_bytes();
    let read = read_message(&bytes).unwrap();
    assert_eq!(read.headers.content_length, message.headers.content_length);
    assert_eq!(read.headers.content_type, message.headers.content_type);
    assert_eq!(read.headers.additional, message.headers.additional);
    assert_eq!(read.content, message.content);
}

#[test]
fn content_length_round_trips_through_its_decimal_digits() {
    for n in [0usize, 7, 10, 99, 12345, usize::MAX] {
        let digits = decimal_string(n);
        let mut reader = HeaderReader::new();
        let line = format!("Content-Length: {}", digits);
        assert_eq!(reader.read_header_line(&line), Ok(false));
        assert_eq!(reader.content_length, Some(n));
    }
}

#[test]
fn rpc_message_kinds_methods_and_ids() {
    let request = RpcMessage::Request(RequestMessage::new(Id::Number(1), String::from("initialize")));
    assert!(request.is_request() && !request.is_response() && !request.is_notification());
    assert_eq!(request.method(), Some("initialize"));
    assert_eq!(request.id(), Some(&Id::Number(1)));

    let notification = RpcMessage::Notification(NotificationMessage::with_params(
        String::from("initialized"),
        String::from("{}"),
    ));
    assert!(notification.is_notification());
    assert_eq!(notification.method(), Some("initialized"));
    assert_eq!(notification.id(), None);

    let response = RpcMessage::Response(ResponseMessage::error(
        None,
        ResponseError {
            code: -32600,
            message: String::from("bad"),
            data: None,
        },
    ));
    assert!(response.is_response());
    assert_eq!(response.method(), None);
    assert_eq!(response.id(), None);

    let success = RpcMessage::Response(ResponseMessage::success(
        Id::String(String::from("a")),
        String::from("null"),
    ));
    assert_eq!(success.id(), Some(&Id::String(String::from("a"))));
}

#[test]
fn header_field_taken_by_its_lowercased_name() {
    let mut reader = washtank::jsonrpc::HeaderReader::new();
    assert_eq!(
        reader.take_header_field("content-length", "CONTENT-LENGTH".to_string(), "7".to_string()),
        Ok(false)
    );
    assert_eq!(reader.content_length, Some(7));
    assert_eq!(
        reader.take_header_field("x-b", "X-B".to_string(), "v".to_string()),
        Ok(false)
    );
    assert_eq!(reader.additional, vec![("X-B".to_string(), "v".to_string())]);
}
