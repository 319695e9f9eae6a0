//! JSON-RPC framing, and the smallest message type a proxy can get away with.
//!
//! Messages stay JSON values rather than becoming typed structs. That is
//! deliberate: most of what passes through here is forwarded to or from a stock
//! luau-lsp, and forwarding opaquely is what keeps us decoupled from its
//! protocol surface. Turning them into structs of our own would silently drop
//! every field we did not think of.

use vstd::prelude::*;
use vstd::string::*;
use vstd::utf8::*;

use crate::decimal::{self, decimal, parse};
use crate::json::{self, Field, Json, JsonView, Number, NumberView};
use crate::pieces::{self, split_once, strip_suffix};
use crate::text::{self, trim, Edge};

pub use crate::messages as build;

verus! {

/// What the JSON parser makes of bytes.
pub uninterp spec fn parsed_json(bytes: Seq<u8>) -> Option<JsonView>;

/// The bytes that a value is written as.
pub uninterp spec fn written_json(value: JsonView) -> Seq<u8>;

/// Whether a value is one that JSON text can say exactly: whole numbers only,
/// the fields of each object by key, and nothing nested deeper than the parser
/// goes.
pub open spec fn exact(value: JsonView, depth: int) -> bool
    decreases value,
{
    match value {
        JsonView::Number(NumberView::Signed(n)) => n < 0,
        JsonView::Number(NumberView::Other(_)) => false,
        JsonView::Array(items) => depth > 0 && forall|i: int|
            0 <= i < items.len() ==> exact(#[trigger] items[i], depth - 1),
        JsonView::Object(fields) => {
            &&& depth > 0
            &&& json::sorted(fields)
            &&& forall|i: int|
                #![trigger fields[i]]
                0 <= i < fields.len() ==> exact(fields[i].1, depth - 1)
        },
        _ => true,
    }
}

/// How deep the parser goes.
pub const DEEPEST: usize = 127;

#[verifier::external_type_specification]
#[verifier::external_body]
pub struct ExValue(serde_json::Value);

/// [`serde_json::from_slice`] into a [`serde_json::Value`]: the named value. The
/// map of a [`serde_json::Value`] hands its fields out by key.
#[verifier::external_body]
fn parse_json(bytes: &[u8]) -> (r: Option<Json>)
    ensures
        match (r, parsed_json(bytes@)) {
            (Some(a), Some(b)) => a@ == b && json::keyed(b),
            (None, None) => true,
            _ => false,
        },
{
    serde_json::from_slice(bytes).ok().map(json_of)
}

/// [`serde_json::to_vec`] of a [`serde_json::Value`]: the named bytes. A value
/// that JSON text can say exactly is what the parser makes of them again.
#[verifier::external_body]
fn write_json(value: &Json) -> (r: Vec<u8>)
    ensures
        r@ == written_json(value@),
        exact(value@, DEEPEST as int) ==> parsed_json(r@) == Some(value@),
{
    serde_json::to_vec(&serde_of(value)).unwrap_or_default()
}

/// A parsed [`serde_json::Value`], part for part.
#[verifier::external_body]
fn json_of(value: serde_json::Value) -> Json {
    match value {
        serde_json::Value::Null => Json::Null,
        serde_json::Value::Bool(b) => Json::Bool(b),
        serde_json::Value::Number(n) => Json::Number(
            n.as_u64().map(Number::Unsigned).or(n.as_i64().map(Number::Signed)).unwrap_or_else(
                || Number::Other(n.to_string()),
            ),
        ),
        serde_json::Value::String(text) => Json::Text(text),
        serde_json::Value::Array(items) => Json::Array(items.into_iter().map(json_of).collect()),
        serde_json::Value::Object(fields) => Json::Object(
            fields.into_iter().map(|(key, value)| Field { key, value: json_of(value) }).collect(),
        ),
    }
}

/// A [`serde_json::Value`] to write, part for part.
#[verifier::external_body]
fn serde_of(value: &Json) -> serde_json::Value {
    match value {
        Json::Null => serde_json::Value::Null,
        Json::Bool(b) => serde_json::Value::Bool(*b),
        Json::Number(Number::Unsigned(n)) => serde_json::Value::from(*n),
        Json::Number(Number::Signed(n)) => serde_json::Value::from(*n),
        Json::Number(Number::Other(text)) => serde_json::from_str(text).unwrap_or_default(),
        Json::Text(text) => serde_json::Value::String(text.clone()),
        Json::Array(items) => serde_json::Value::Array(items.iter().map(serde_of).collect()),
        Json::Object(fields) => serde_json::Value::Object(
            fields.iter().map(|field| (field.key.clone(), serde_of(&field.value))).collect(),
        ),
    }
}

/// [`std::str::from_utf8`]: the text that bytes encode, if they are valid UTF-8.
#[verifier::external_body]
fn utf8(bytes: &[u8]) -> (r: Option<&str>)
    ensures
        r is Some <==> valid_utf8(bytes@),
        r matches Some(text) ==> text::bytes(text@) == bytes@,
{
    std::str::from_utf8(bytes).ok()
}

/// One JSON-RPC message, classified only as far as routing needs.
#[derive(Debug)]
pub enum Message {
    Request { id: Json, method: String, params: Json },
    Response { id: Json, body: Json },
    Notification { method: String, params: Json },
}

/// A message, as plain values.
pub enum MessageView {
    Request { id: JsonView, method: Seq<char>, params: JsonView },
    Response { id: JsonView, body: JsonView },
    Notification { method: Seq<char>, params: JsonView },
}

impl View for Message {
    type V = MessageView;

    open spec fn view(&self) -> MessageView {
        match *self {
            Message::Request { id, method, params } => MessageView::Request {
                id: id@,
                method: method@,
                params: params@,
            },
            Message::Response { id, body } => MessageView::Response { id: id@, body: body@ },
            Message::Notification { method, params } => MessageView::Notification {
                method: method@,
                params: params@,
            },
        }
    }
}

/// What kind of message an object is: a method makes it a request or, without
/// an id, a notification; an id alone a response. With neither it is not
/// addressable in either direction.
pub open spec fn message_of(value: JsonView) -> Option<MessageView> {
    let params = match value.get("params"@) {
        Some(params) => params,
        None => JsonView::Null,
    };
    match (value.get_str("method"@), value.get("id"@)) {
        (Some(method), Some(id)) => Some(MessageView::Request { id, method, params }),
        (Some(method), None) => Some(MessageView::Notification { method, params }),
        (None, Some(id)) => Some(MessageView::Response { id, body: value }),
        (None, None) => None,
    }
}

impl Message {
    pub fn from_value(value: Json) -> (r: Option<Self>)
        ensures
            match (r, message_of(value@)) {
                (Some(a), Some(b)) => a@ == b,
                (None, None) => true,
                _ => false,
            },
    {
        let id = match value.get("id") {
            Some(id) => Some(id.copy()),
            None => None,
        };
        let method = match value.get_str("method") {
            Some(method) => Some(method.to_owned()),
            None => None,
        };
        let params = match value.get("params") {
            Some(params) => params.copy(),
            None => Json::Null,
        };
        match (method, id) {
            (Some(method), Some(id)) => Some(Message::Request { id, method, params }),
            (Some(method), None) => Some(Message::Notification { method, params }),
            (None, Some(id)) => Some(Message::Response { id, body: value }),
            // No method and no id is not addressable in either direction.
            (None, None) => None,
        }
    }

    pub fn method(&self) -> (r: Option<&str>)
        ensures
            json::same_text(
                r,
                match self@ {
                    MessageView::Request { method, .. } => Some(method),
                    MessageView::Notification { method, .. } => Some(method),
                    MessageView::Response { .. } => None,
                },
            ),
    {
        match self {
            Message::Request { method, .. } => Some(method.as_str()),
            Message::Notification { method, .. } => Some(method.as_str()),
            Message::Response { .. } => None,
        }
    }
}

/// An ASCII letter in lower case; any other character as it is.
pub open spec fn lower(c: char) -> char {
    if 'A' <= c <= 'Z' {
        (c as u32 + 32) as char
    } else {
        c
    }
}

/// Whether two texts differ only in the case of ASCII letters.
pub open spec fn same_letters(a: Seq<char>, b: Seq<char>) -> bool {
    a.len() == b.len() && forall|i: int| 0 <= i < a.len() ==> lower(#[trigger] a[i]) == lower(b[i])
}

/// What a header says, if it is the one of a name.
pub open spec fn header_of(line: Seq<char>, name: Seq<char>) -> Option<Seq<char>> {
    match pieces::split_of(line, ':') {
        Some((key, value)) if same_letters(text::trimmed(key, Edge::White), name) => Some(value),
        _ => None,
    }
}

/// A line without the carriage returns and line feeds at its end.
pub open spec fn without_ending(line: Seq<char>) -> Seq<char>
    decreases line.len(),
{
    if line.len() > 0 && (line.last() == '\r' || line.last() == '\n') {
        without_ending(line.drop_last())
    } else {
        line
    }
}

/// Where the line that begins at an offset ends, its line feed included.
pub open spec fn line_stop(stream: Seq<u8>, at: int) -> int
    decreases stream.len() - at,
{
    if at < 0 || at >= stream.len() {
        stream.len() as int
    } else if stream[at] == 10 {
        at + 1
    } else {
        line_stop(stream, at + 1)
    }
}

/// What a length is after one more header line.
pub open spec fn length_after(line: Seq<char>, length: Option<nat>) -> Option<nat> {
    match header_of(line, "content-length"@) {
        Some(value) => decimal::number_in(text::trimmed(value, Edge::White)),
        None => length,
    }
}

/// The next message in a stream.
#[derive(Debug, Clone, Copy, PartialEq, Eq, Structural)]
pub enum Frame {
    /// Where its body is.
    Body { start: usize, end: usize },
    /// The stream ends before one.
    End,
    /// A header is not UTF-8. The next one begins after it.
    NotText { after: usize },
    /// No header says how long the body is. That is known after the line that
    /// ends the headers.
    NoLength { after: usize },
    /// The stream ends inside the body.
    Short,
}

/// The message whose headers go on at an offset, given the length that they
/// have said so far.
pub open spec fn frame_at(stream: Seq<u8>, at: int, length: Option<nat>) -> Frame
    decreases stream.len() - at,
    via frame_at_decreases
{
    if at < 0 || at >= stream.len() {
        Frame::End
    } else {
        let stop = line_stop(stream, at);
        let raw = stream.subrange(at, stop);
        if !valid_utf8(raw) {
            Frame::NotText { after: stop as usize }
        } else {
            let line = without_ending(decode_utf8(raw));
            if line.len() == 0 {
                match length {
                    None => Frame::NoLength { after: stop as usize },
                    Some(n) => if stop + n <= stream.len() {
                        Frame::Body { start: stop as usize, end: (stop + n) as usize }
                    } else {
                        Frame::Short
                    },
                }
            } else {
                frame_at(stream, stop, length_after(line, length))
            }
        }
    }
}

#[via_fn]
proof fn frame_at_decreases(stream: Seq<u8>, at: int, length: Option<nat>) {
    if 0 <= at < stream.len() {
        lemma_line_stop(stream, at);
    }
}

proof fn lemma_line_stop(stream: Seq<u8>, at: int)
    requires
        0 <= at < stream.len(),
    ensures
        at < line_stop(stream, at) <= stream.len(),
    decreases stream.len() - at,
{
    if stream[at] != 10 {
        if at + 1 < stream.len() {
            lemma_line_stop(stream, at + 1);
        } else {
            assert(line_stop(stream, at + 1) == stream.len());
        }
    }
}

/// What a message looks like on the wire.
pub open spec fn frame_of(body: Seq<u8>) -> Seq<u8> {
    text::bytes("Content-Length: "@ + decimal::decimal_of(body.len()) + "\r\n\r\n"@) + body
}

proof fn lemma_line_stop_is(stream: Seq<u8>, at: int, stop: int)
    requires
        0 <= at < stop <= stream.len(),
        forall|i: int| at <= i < stop - 1 ==> #[trigger] stream[i] != 10,
        stream[stop - 1] == 10,
    ensures
        line_stop(stream, at) == stop,
    decreases stop - at,
{
    if at + 1 < stop {
        assert(stream[at] != 10);
        lemma_line_stop_is(stream, at + 1, stop);
    }
}

/// A line of ASCII characters that a stream holds at an offset is the next line
/// there.
proof fn lemma_next_line(stream: Seq<u8>, at: int, line: Seq<char>)
    requires
        0 <= at,
        at + line.len() <= stream.len(),
        is_ascii_chars(line),
        line.len() > 0,
        line.last() == '\n',
        forall|i: int| 0 <= i < line.len() - 1 ==> #[trigger] line[i] != '\n',
        forall|i: int| 0 <= i < line.len() ==> stream[at + i] == #[trigger] line[i] as u8,
    ensures
        line_stop(stream, at) == at + line.len(),
        valid_utf8(stream.subrange(at, at + line.len())),
        decode_utf8(stream.subrange(at, at + line.len())) == line,
{
    let stop = at + line.len();
    is_ascii_chars_encode_utf8(line);
    assert forall|i: int| at <= i < stop - 1 implies #[trigger] stream[i] != 10 by {
        let c = line[i - at];
        assert(stream[at + (i - at)] == c as u8);
        assert('\0' <= c <= '\u{7f}');
    }
    assert(stream[at + (line.len() - 1)] == line[line.len() - 1] as u8);
    lemma_line_stop_is(stream, at, stop);
    assert(stream.subrange(at, stop) =~= encode_utf8(line)) by {
        assert forall|i: int| 0 <= i < line.len() implies stream.subrange(at, stop)[i]
            == encode_utf8(line)[i] by {
            assert(stream[at + i] == line[i] as u8);
        }
    }
    encode_utf8_valid_utf8(line);
    encode_utf8_decode_utf8(line);
}

/// The line that says how long a body is.
spec fn length_line(n: nat) -> Seq<char> {
    "Content-Length: "@ + decimal::decimal_of(n) + "\r\n"@
}

proof fn lemma_length_line(n: nat)
    requires
        n <= usize::MAX,
    ensures
        is_ascii_chars(length_line(n)),
        length_line(n).len() > 0,
        length_line(n).last() == '\n',
        forall|i: int| 0 <= i < length_line(n).len() - 1 ==> #[trigger] length_line(n)[i] != '\n',
        without_ending(length_line(n)).len() > 0,
        length_after(without_ending(length_line(n)), None) == Some(n),
{
    let digits = decimal::decimal_of(n);
    let line = length_line(n);
    let short = "Content-Length: "@ + digits;
    reveal_strlit("Content-Length: ");
    reveal_strlit("\r\n");
    reveal_strlit("content-length");
    decimal::lemma_decimal(n);
    assert forall|i: int| 0 <= i < line.len() implies '\0' <= #[trigger] line[i] <= '\u{7f}' && (i
        < line.len() - 1 ==> line[i] != '\n') by {
        if 16 <= i < 16 + digits.len() {
            assert(decimal::is_digit(digits[i - 16]));
        }
    }
    assert(decimal::is_digit(digits[digits.len() - 1]));
    assert(short.last() == digits[digits.len() - 1]);
    reveal_with_fuel(without_ending, 3);
    assert(line.drop_last().drop_last() =~= short);
    assert(without_ending(line) == short);
    pieces::lemma_first_at_is(short, ':', 14);
    let key = short.take(14);
    let value = short.skip(15);
    assert(key.len() == 14);
    text::lemma_untrimmed(key, Edge::White);
    assert(same_letters(key, "content-length"@)) by {
        assert forall|i: int| 0 <= i < 14 implies lower(#[trigger] key[i]) == lower(
            "content-length"@[i],
        ) by {}
    }
    assert(value =~= seq![' '] + digits);
    assert(text::trimmed(value, Edge::White) =~= digits) by {
        assert forall|i: int| 0 <= i < digits.len() implies !text::white(#[trigger] digits[i]) by {
            assert(decimal::is_digit(digits[i]));
        }
        text::lemma_leading(value, Edge::White, 1);
        assert(value.last() == digits.last());
        assert(text::trailing(value, Edge::White) == 0);
    }
    decimal::law_decimals_read_back(n as usize);
}

/// A message that a stream holds in its frame is found there: what its body is,
/// and where the next message begins.
pub proof fn law_frames_are_found(stream: Seq<u8>, at: int, body: Seq<u8>)
    requires
        0 <= at,
        at + frame_of(body).len() <= stream.len() <= usize::MAX,
        stream.subrange(at, at + frame_of(body).len()) == frame_of(body),
    ensures
        frame_at(stream, at, None) matches Frame::Body { start, end } && {
            &&& end == at + frame_of(body).len()
            &&& 0 <= start <= end
            &&& stream.subrange(start as int, end as int) == body
        },
{
    let n = body.len();
    let first = length_line(n);
    let second = "\r\n"@;
    let head = "Content-Length: "@ + decimal::decimal_of(n) + "\r\n\r\n"@;
    reveal_strlit("\r\n");
    reveal_strlit("\r\n\r\n");
    assert(head =~= first + second);
    lemma_length_line(n);
    assert(is_ascii_chars(head)) by {
        assert forall|i: int| 0 <= i < head.len() implies '\0' <= #[trigger] head[i]
            <= '\u{7f}' by {
            if i < first.len() {
                assert(head[i] == first[i]);
            }
        }
    }
    is_ascii_chars_encode_utf8(head);
    let whole = frame_of(body);
    assert forall|i: int| 0 <= i < whole.len() implies stream[at + i] == #[trigger] whole[i] by {
        assert(stream.subrange(at, at + whole.len())[i] == whole[i]);
    }
    assert forall|i: int| 0 <= i < first.len() implies stream[at + i] == #[trigger] first[i] as u8 by {
        assert(head[i] == first[i]);
        assert(whole[i] == head[i] as u8);
    }
    lemma_next_line(stream, at, first);
    let middle = at + first.len();
    assert forall|i: int| 0 <= i < second.len() implies stream[middle + i]
        == #[trigger] second[i] as u8 by {
        let j = first.len() + i;
        assert(head[j] == second[i]);
        assert(whole[j] == head[j] as u8);
        assert(stream[at + j] == whole[j]);
    }
    lemma_next_line(stream, middle, second);
    reveal_with_fuel(without_ending, 3);
    assert(without_ending(second).len() == 0);
    let start = middle + 2;
    assert(frame_at(stream, middle, Some(n)) == (Frame::Body {
        start: start as usize,
        end: (start + n) as usize,
    }));
    assert(stream.subrange(start, start + n) =~= body) by {
        assert forall|i: int| 0 <= i < n implies #[trigger] stream.subrange(start, start + n)[i]
            == body[i] by {
            assert(whole[head.len() + i] == body[i]);
            assert(stream[at + (head.len() + i)] == whole[head.len() + i]);
        }
    }
}

/// Whether two texts differ only in the case of ASCII letters.
fn eq_ignore_ascii_case(a: &str, b: &str) -> (r: bool)
    ensures
        r == same_letters(a@, b@),
{
    let n: usize = a.unicode_len();
    if n != b.unicode_len() {
        return false;
    }
    let mut i: usize = 0;
    while i < n
        invariant
            i <= n,
            n == a@.len(),
            n == b@.len(),
            forall|j: int| 0 <= j < i ==> lower(#[trigger] a@[j]) == lower(b@[j]),
        decreases n - i,
    {
        if lower_case(a.get_char(i)) != lower_case(b.get_char(i)) {
            assert(lower(a@[i as int]) != lower(b@[i as int]));
            return false;
        }
        i = i + 1;
    }
    true
}

/// An ASCII letter in lower case, as a number.
fn lower_case(c: char) -> (r: u32)
    ensures
        r == lower(c) as u32,
{
    let value: u32 = c as u32;
    if 65 <= value && value <= 90 {
        value + 32
    } else {
        value
    }
}

fn header<'a>(line: &'a str, name: &str) -> (r: Option<&'a str>)
    ensures
        pieces::same_piece(r, header_of(line@, name@)),
{
    match split_once(line, ':') {
        Some((key, value)) => if eq_ignore_ascii_case(trim(key, Edge::White), name) {
            Some(value)
        } else {
            None
        },
        None => None,
    }
}

/// `line` without the carriage returns and line feeds at its end.
fn trim_ending<'a>(line: &'a str) -> (r: &'a str)
    ensures
        r@ == without_ending(line@),
{
    let mut rest: &'a str = line;
    proof {
        reveal_strlit("\r");
        reveal_strlit("\n");
    }
    loop
        invariant
            "\r"@.len() == 1,
            "\r"@[0] == '\r',
            "\n"@.len() == 1,
            "\n"@[0] == '\n',
            without_ending(line@) == without_ending(rest@),
        decreases rest@.len(),
    {
        proof {
            pieces::lemma_one_char_end(rest@, "\r"@, '\r');
            pieces::lemma_one_char_end(rest@, "\n"@, '\n');
        }
        match strip_suffix(rest, "\r") {
            Some(shorter) => {
                rest = shorter;
            },
            None => match strip_suffix(rest, "\n") {
                Some(shorter) => {
                    rest = shorter;
                },
                None => {
                    return rest;
                },
            },
        }
    }
}

/// What to do after a line of headers.
#[derive(Debug, Clone, Copy, PartialEq, Eq, Structural)]
pub enum Step {
    /// Read another line.
    Line,
    /// Read a body of this length.
    Body(usize),
    /// Give up: no header said how long the body is.
    NoLength,
}

/// The headers of a message, as they are read line by line.
#[derive(Debug)]
pub struct Headers {
    length: Option<usize>,
}

impl Headers {
    /// The length that they have said so far.
    pub closed spec fn said(self) -> Option<nat> {
        match self.length {
            Some(n) => Some(n as nat),
            None => None,
        }
    }

    pub fn new() -> (r: Self)
        ensures
            r.said() is None,
    {
        Headers { length: None }
    }

    /// Takes one line, with or without its terminator. An empty one ends the
    /// headers.
    ///
    /// A malformed frame is an error rather than a skip: once the length header
    /// is wrong the stream is no longer parseable, and pretending otherwise
    /// turns one bad message into an infinite loop.
    pub fn line(&mut self, line: &str) -> (r: Step)
        ensures
            ({
                let line = without_ending(line@);
                &&& r == if line.len() > 0 {
                    Step::Line
                } else {
                    match old(self).said() {
                        Some(n) => Step::Body(n as usize),
                        None => Step::NoLength,
                    }
                }
                &&& final(self).said() == if line.len() > 0 {
                    length_after(line, old(self).said())
                } else {
                    old(self).said()
                }
            }),
    {
        let line = trim_ending(line);
        if line.is_empty() {
            return match self.length {
                Some(n) => Step::Body(n),
                None => Step::NoLength,
            };
        }
        if let Some(value) = header(line, "content-length") {
            self.length = parse(trim(value, Edge::White));
        }
        Step::Line
    }
}

/// The next message in `stream` from an offset on.
pub fn next_frame(stream: &[u8], at: usize) -> (r: Frame)
    ensures
        r == frame_at(stream@, at as int, None),
        r matches Frame::Body { start, end } ==> at <= start <= end <= stream@.len(),
{
    let mut here: usize = at;
    let mut headers = Headers::new();
    loop
        invariant
            at <= here,
            frame_at(stream@, at as int, None) == frame_at(stream@, here as int, headers.said()),
        decreases stream@.len() - here,
    {
        if here >= stream.len() {
            return Frame::End;
        }
        let stop: usize = stop_of_line(stream, here);
        proof {
            lemma_line_stop(stream@, here as int);
        }
        let raw = vstd::slice::slice_subrange(stream, here, stop);
        let line = match utf8(raw) {
            Some(line) => line,
            None => {
                return Frame::NotText { after: stop };
            },
        };
        proof {
            encode_utf8_decode_utf8(line@);
        }
        match headers.line(line) {
            Step::Line => {
                here = stop;
            },
            Step::NoLength => {
                return Frame::NoLength { after: stop };
            },
            Step::Body(n) => {
                return if n <= stream.len() - stop {
                    Frame::Body { start: stop, end: stop + n }
                } else {
                    Frame::Short
                };
            },
        }
    }
}

fn stop_of_line(stream: &[u8], at: usize) -> (r: usize)
    requires
        at < stream@.len(),
    ensures
        r == line_stop(stream@, at as int),
{
    let n: usize = stream.len();
    let mut i: usize = at;
    while i < n
        invariant
            n == stream@.len(),
            at <= i <= n,
            line_stop(stream@, at as int) == line_stop(stream@, i as int),
        decreases n - i,
    {
        if stream[i] == 10 {
            return i + 1;
        }
        i = i + 1;
    }
    n
}

/// Why a message could not be read.
#[derive(Debug, Clone, Copy, PartialEq, Eq, Structural)]
pub enum ReadError {
    /// A header is not UTF-8.
    NotText,
    /// No header says how long the body is.
    NoLength,
    /// The stream ends inside the body.
    Short,
    /// The body is not JSON.
    NotJson,
}

/// Reads `Content-Length`-framed messages from a stream.
#[derive(Debug)]
pub struct Reader<'a> {
    inner: &'a [u8],
    at: usize,
}

impl<'a> Reader<'a> {
    pub closed spec fn stream(self) -> Seq<u8> {
        self.inner@
    }

    /// How far it has been read.
    pub closed spec fn offset(self) -> int {
        self.at as int
    }

    pub fn new(inner: &'a [u8]) -> (r: Self)
        ensures
            r.stream() == inner@,
            r.offset() == 0,
    {
        Reader { inner, at: 0 }
    }

    /// The next message, or `None` at end of stream.
    ///
    /// A malformed frame is an error rather than a skip: once the length header
    /// is wrong the stream is no longer parseable, and pretending otherwise
    /// turns one bad message into an infinite loop. What was read of it is behind
    /// the reader all the same.
    pub fn read(&mut self) -> (r: Result<Option<Json>, ReadError>)
        ensures
            final(self).stream() == old(self).stream(),
            match frame_at(old(self).stream(), old(self).offset(), None) {
                Frame::End => {
                    &&& r matches Ok(None)
                    &&& final(self).offset() == old(self).stream().len()
                },
                Frame::NotText { after } => {
                    &&& r == Err::<Option<Json>, ReadError>(ReadError::NotText)
                    &&& final(self).offset() == after
                },
                Frame::NoLength { after } => {
                    &&& r == Err::<Option<Json>, ReadError>(ReadError::NoLength)
                    &&& final(self).offset() == after
                },
                Frame::Short => {
                    &&& r == Err::<Option<Json>, ReadError>(ReadError::Short)
                    &&& final(self).offset() == old(self).stream().len()
                },
                Frame::Body { start, end } => {
                    let body = old(self).stream().subrange(start as int, end as int);
                    &&& final(self).offset() == end
                    &&& match parsed_json(body) {
                        Some(value) => r matches Ok(Some(read)) && read@ == value && json::keyed(
                            value,
                        ),
                        None => r == Err::<Option<Json>, ReadError>(ReadError::NotJson),
                    }
                },
            },
    {
        match next_frame(self.inner, self.at) {
            Frame::End => {
                self.at = self.inner.len();
                Ok(None)
            },
            Frame::NotText { after } => {
                self.at = after;
                Err(ReadError::NotText)
            },
            Frame::NoLength { after } => {
                self.at = after;
                Err(ReadError::NoLength)
            },
            Frame::Short => {
                self.at = self.inner.len();
                Err(ReadError::Short)
            },
            Frame::Body { start, end } => {
                self.at = end;
                match parse_json(vstd::slice::slice_subrange(self.inner, start, end)) {
                    Some(value) => Ok(Some(value)),
                    None => Err(ReadError::NotJson),
                }
            },
        }
    }
}

/// A body with its headers.
pub fn frame(body: &[u8]) -> (r: Vec<u8>)
    ensures
        r@ == frame_of(body@),
{
    let mut head = "Content-Length: ".to_owned();
    let count = decimal(body.len());
    head.append(count.as_str());
    head.append("\r\n\r\n");
    let mut out: Vec<u8> = Vec::new();
    out.extend_from_slice(head.as_str().as_bytes());
    out.extend_from_slice(body);
    assert(out@ =~= frame_of(body@));
    out
}

/// Writes `Content-Length`-framed messages to a stream.
#[derive(Debug)]
pub struct Writer {
    out: Vec<u8>,
}

impl Writer {
    /// What has been written.
    pub closed spec fn written(self) -> Seq<u8> {
        self.out@
    }

    pub fn new() -> (r: Self)
        ensures
            r.written() == Seq::<u8>::empty(),
    {
        Writer { out: Vec::new() }
    }

    /// Writes a message after what has been written. A reader that has read up
    /// to it reads it next; it gets the same message, if that is one that JSON
    /// text can say exactly.
    pub fn write(&mut self, message: &Json)
        ensures
            final(self).written() == old(self).written() + frame_of(written_json(message@)),
            frame_at(final(self).written(), old(self).written().len() as int, None) matches Frame::Body {
                start,
                end,
            } && {
                let body = final(self).written().subrange(start as int, end as int);
                &&& end == final(self).written().len()
                &&& body == written_json(message@)
                &&& exact(message@, DEEPEST as int) ==> parsed_json(body) == Some(message@)
            },
    {
        let body = write_json(message);
        let mut framed = frame(body.as_slice());
        let ghost before = self.out@;
        self.out.append(&mut framed);
        proof {
            assert(self.out@.len() == self.out.len());
            let whole = frame_of(body@);
            assert(self.out@.subrange(before.len() as int, (before.len() + whole.len()) as int)
                =~= whole);
            law_frames_are_found(self.out@, before.len() as int, body@);
        }
    }

    pub fn into_bytes(self) -> (r: Vec<u8>)
        ensures
            r@ == self.written(),
    {
        self.out
    }
}

/// The stream that messages written one after the other make.
pub open spec fn stream_of(messages: Seq<JsonView>) -> Seq<u8>
    decreases messages.len(),
{
    if messages.len() == 0 {
        Seq::empty()
    } else {
        stream_of(messages.drop_last()) + frame_of(written_json(messages.last()))
    }
}

/// What a stream of messages is read as: after the first `i` of them the next
/// one is found, with nothing left over, and after the last the stream ends.
pub proof fn law_messages_are_read_in_turn(messages: Seq<JsonView>, i: int)
    requires
        stream_of(messages).len() <= usize::MAX,
        0 <= i <= messages.len(),
    ensures
        ({
            let stream = stream_of(messages);
            let at = stream_of(messages.take(i)).len() as int;
            if i == messages.len() {
                frame_at(stream, at, None) is End
            } else {
                frame_at(stream, at, None) matches Frame::Body { start, end } && {
                    &&& stream.subrange(start as int, end as int) == written_json(messages[i])
                    &&& end == stream_of(messages.take(i + 1)).len()
                }
            }
        }),
{
    let stream = stream_of(messages);
    assert(messages.take(messages.len() as int) =~= messages);
    if i < messages.len() {
        let body = written_json(messages[i]);
        let head = stream_of(messages.take(i));
        assert(messages.take(i + 1).drop_last() =~= messages.take(i));
        lemma_stream_prefix(messages, i + 1);
        let more = stream_of(messages.take(i + 1));
        assert(stream.subrange(0, more.len() as int) == more);
        assert(stream.subrange(head.len() as int, (head.len() + frame_of(body).len()) as int)
            =~= frame_of(body)) by {
            assert forall|k: int| 0 <= k < frame_of(body).len() implies stream[head.len() + k]
                == #[trigger] frame_of(body)[k] by {
                assert(stream.subrange(0, more.len() as int)[head.len() + k] == more[head.len()
                    + k]);
            }
        }
        law_frames_are_found(stream, head.len() as int, body);
    }
}

proof fn lemma_stream_prefix(messages: Seq<JsonView>, i: int)
    requires
        0 <= i <= messages.len(),
    ensures
        stream_of(messages.take(i)).len() <= stream_of(messages).len(),
        stream_of(messages).subrange(0, stream_of(messages.take(i)).len() as int) == stream_of(
            messages.take(i),
        ),
    decreases messages.len(),
{
    let part = stream_of(messages.take(i));
    if i == messages.len() {
        assert(messages.take(i) =~= messages);
        assert(part.subrange(0, part.len() as int) =~= part);
    } else {
        let rest = messages.drop_last();
        lemma_stream_prefix(rest, i);
        assert(rest.take(i) =~= messages.take(i));
        assert(stream_of(messages).subrange(0, part.len() as int) =~= stream_of(rest).subrange(
            0,
            part.len() as int,
        ));
    }
}

/// An object that JSON text can say exactly still is one with one more value
/// that it can say.
pub proof fn lemma_with_exact(value: JsonView, key: Seq<char>, one: JsonView, depth: int)
    requires
        exact(value, depth),
        exact(one, depth - 1),
    ensures
        exact(value.with(key, one), depth),
{
    if let JsonView::Object(fields) = value {
        json::lemma_put_sorted(fields, key, one);
        let all = json::put(fields, key, one);
        assert forall|i: int| #![trigger all[i]] 0 <= i < all.len() implies exact(
            all[i].1,
            depth - 1,
        ) by {
            if all[i] != (key, one) {
                let j = choose|j: int| 0 <= j < fields.len() && #[trigger] fields[j] == all[i];
                assert(exact(fields[j].1, depth - 1));
            }
        }
    }
}

} // verus!
