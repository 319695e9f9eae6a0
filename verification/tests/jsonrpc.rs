use luaux_lsp::json::{Json, Number};
use luaux_lsp::jsonrpc::{
    build, frame, next_frame, Frame, Headers, Message, ReadError, Reader, Step, Writer,
};

fn round_trip(value: &Json) -> Json {
    let mut writer = Writer::new();
    writer.write(value);
    let buffer = writer.into_bytes();
    Reader::new(buffer.as_slice()).read().expect("read").expect("a message")
}

fn text(value: &str) -> Json {
    Json::text(value)
}

#[test]
fn frames_and_unframes_a_message() {
    let value = Json::object()
        .with("jsonrpc", text("2.0"))
        .with("id", Json::number(1))
        .with("method", text("initialize"));
    assert_eq!(round_trip(&value), value);
}

#[test]
fn counts_bytes_not_characters() {
    // A Content-Length in characters truncates the frame and desynchronises
    // everything after it.
    let value = Json::object().with("text", text("héllo — ünïcode 😀"));
    assert_eq!(round_trip(&value), value);
}

#[test]
fn reads_consecutive_messages() {
    let mut writer = Writer::new();
    writer.write(&Json::object().with("id", Json::number(1)));
    writer.write(&Json::object().with("id", Json::number(2)));
    let buffer = writer.into_bytes();

    let mut reader = Reader::new(buffer.as_slice());
    assert_eq!(reader.read().expect("read").expect("first").get_u64("id"), Some(1));
    assert_eq!(reader.read().expect("read").expect("second").get_u64("id"), Some(2));
    assert!(reader.read().expect("read").is_none());
}

#[test]
fn tolerates_extra_headers_and_casing() {
    let body = br#"{"id":7}"#;
    let framed = format!(
        "Content-Type: application/vscode-jsonrpc\r\ncontent-length: {}\r\n\r\n{}",
        body.len(),
        String::from_utf8_lossy(body)
    );

    let value = Reader::new(framed.as_bytes()).read().expect("read").expect("a message");
    assert_eq!(value.get_u64("id"), Some(7));
}

#[test]
fn classifies_the_three_shapes() {
    let id = || Json::object().with("id", Json::number(1));
    let request = Message::from_value(id().with("method", text("a"))).expect("request");
    assert!(matches!(request, Message::Request { .. }));

    let notification =
        Message::from_value(Json::object().with("method", text("a"))).expect("notification");
    assert!(matches!(notification, Message::Notification { .. }));

    let response = Message::from_value(id().with("result", Json::Null)).expect("response");
    assert!(matches!(response, Message::Response { .. }));

    // A null id with a method is still a request — `id: null` is legal JSON-RPC.
    let null_id =
        Message::from_value(Json::object().with("id", Json::Null).with("method", text("a")))
            .expect("request");
    assert!(matches!(null_id, Message::Request { .. }));
}

#[test]
fn a_message_with_neither_method_nor_id_is_none() {
    assert!(Message::from_value(Json::object().with("params", Json::Null)).is_none());
    assert!(Message::from_value(Json::Null).is_none());
}

#[test]
fn a_message_knows_its_method() {
    let request = Message::from_value(build::request(Json::number(1), "a", Json::Null)).unwrap();
    assert_eq!(request.method(), Some("a"));
    let notification = Message::from_value(build::notification("b", Json::Null)).unwrap();
    assert_eq!(notification.method(), Some("b"));
    let response = Message::from_value(build::result(Json::number(1), Json::Null)).unwrap();
    assert_eq!(response.method(), None);
}

#[test]
fn an_error_carries_its_code() {
    let value = build::error(Json::number(4), build::METHOD_NOT_FOUND, "no");
    let error = value.get("error").expect("an error");
    assert_eq!(error.get("code"), Some(&Json::Number(Number::Signed(-32601))));
    assert_eq!(error.get_str("message"), Some("no"));
    assert_eq!(value.get_str("jsonrpc"), Some("2.0"));
    assert_eq!((build::CONTENT_MODIFIED, build::INTERNAL_ERROR), (-32801, -32603));
}

#[test]
fn a_frame_says_how_long_its_body_is() {
    assert_eq!(frame(b"{}"), b"Content-Length: 2\r\n\r\n{}");
    assert_eq!(next_frame(b"Content-Length: 2\r\n\r\n{}", 0), Frame::Body { start: 21, end: 23 });
}

#[test]
fn every_way_to_fail_is_told_apart() {
    let read = |bytes: &[u8]| Reader::new(bytes).read();
    assert_eq!(read(b""), Ok(None));
    assert_eq!(read(b"Content-Type: x\r\n"), Ok(None));
    assert_eq!(read(b"\r\n{}"), Err(ReadError::NoLength));
    assert_eq!(read(b"Content-Length: two\r\n\r\n{}"), Err(ReadError::NoLength));
    assert_eq!(read(b"Content-Length: 9\r\n\r\n{}"), Err(ReadError::Short));
    assert_eq!(read(b"Content-Length: 2\r\n\r\n{{"), Err(ReadError::NotJson));
    assert_eq!(read(b"Content-\xff: 2\r\n\r\n{}"), Err(ReadError::NotText));
}

#[test]
fn headers_are_read_line_by_line() {
    let mut headers = Headers::new();
    assert_eq!(headers.line("Content-Type: x\r\n"), Step::Line);
    assert_eq!(headers.line(" CONTENT-LENGTH :  +12 \r\n"), Step::Line);
    assert_eq!(headers.line("\r\n"), Step::Body(12));
    assert_eq!(Headers::new().line("\n"), Step::NoLength);
}

#[test]
fn numbers_of_every_kind_survive() {
    let bytes = frame("[18446744073709551615,-3,1.5,true,null,\"é\"]".as_bytes());
    let value = Reader::new(bytes.as_slice()).read().expect("read").expect("a message");
    assert_eq!(
        value,
        Json::Array(vec![
            Json::number(u64::MAX),
            Json::Number(Number::Signed(-3)),
            Json::Number(Number::Other("1.5".into())),
            Json::Bool(true),
            Json::Null,
            text("é"),
        ])
    );
    assert_eq!(round_trip(&value), value);
}

#[test]
fn the_order_of_fields_does_not_matter() {
    let one = Json::object().with("b", Json::number(1)).with("a", Json::number(2));
    let other = Json::object().with("a", Json::number(2)).with("b", Json::number(1));
    assert_eq!(one, other);
    assert_eq!(one.with("a", Json::Null), Json::object().with("a", Json::Null).with("b", Json::number(1)));
}

#[test]
fn every_message_that_is_built_is_read_back() {
    let params = || Json::object().with("uri", text("file:///é")).with("at", Json::number(3));
    for message in [
        build::request(Json::number(1), "textDocument/hover", params()),
        build::notification("exit", Json::Null),
        build::result(text("seven"), params()),
        build::error(Json::number(2), build::INTERNAL_ERROR, "no"),
    ] {
        assert_eq!(round_trip(&message), message);
    }
}

#[test]
fn written_messages_are_read_in_turn() {
    let messages = [
        build::request(Json::number(1), "a", Json::Null),
        Json::Array(vec![text("ü"), Json::Bool(false)]),
        build::result(Json::number(1), text("done")),
    ];
    let mut writer = Writer::new();
    for message in &messages {
        writer.write(message);
    }
    let bytes = writer.into_bytes();
    let mut reader = Reader::new(bytes.as_slice());
    for message in messages {
        assert_eq!(reader.read(), Ok(Some(message)));
    }
    assert_eq!(reader.read(), Ok(None));
}

#[test]
fn a_reader_goes_on_past_what_it_cannot_read() {
    let follow = |bad: &[u8]| {
        let mut bytes = bad.to_vec();
        bytes.extend(frame(b"7"));
        let mut reader = Reader::new(bytes.as_slice());
        let first = reader.read();
        (first, reader.read())
    };
    let seven = || Ok(Some(Json::number(7)));
    assert_eq!(follow(b"Content-Type: x\r\n\r\n"), (Err(ReadError::NoLength), seven()));
    assert_eq!(follow(b"Content-\xff: 2\r\n"), (Err(ReadError::NotText), seven()));
    assert_eq!(follow(b"Content-Length: 2\r\n\r\n{{"), (Err(ReadError::NotJson), seven()));

    let mut reader = Reader::new(b"Content-Length: 9\r\n\r\n{}");
    assert_eq!(reader.read(), Err(ReadError::Short));
    assert_eq!(reader.read(), Ok(None));
}
