//! Convenience constructors for the messages we originate.

use vstd::prelude::*;
use vstd::string::*;

use crate::json::{self, Json, JsonView, Number, NumberView};
use crate::jsonrpc::{self, MessageView};

verus! {

/// JSON-RPC "method not found". Sent when a request reaches us that neither
/// we nor the child can answer.
pub const METHOD_NOT_FOUND: i64 = -32601;

/// LSP "content modified" — the right answer when a document changed out
/// from under an in-flight request.
pub const CONTENT_MODIFIED: i64 = -32801;

/// JSON-RPC "internal error". Ours, when a handler panics.
pub const INTERNAL_ERROR: i64 = -32603;

/// A whole number, as JSON.
pub open spec fn integer_json(n: i64) -> JsonView {
    JsonView::Number(
        if n < 0 {
            NumberView::Signed(n)
        } else {
            NumberView::Unsigned(n as u64)
        },
    )
}

fn integer(n: i64) -> (r: Json)
    ensures
        r@ == integer_json(n),
{
    Json::Number(
        if n < 0 {
            Number::Signed(n)
        } else {
            Number::Unsigned(n as u64)
        },
    )
}

/// What every message has.
pub open spec fn versioned() -> JsonView {
    JsonView::object().with("jsonrpc"@, JsonView::Text("2.0"@))
}

fn base() -> (r: Json)
    ensures
        r@ == versioned(),
{
    Json::object().with("jsonrpc", Json::text("2.0"))
}

/// A request.
pub open spec fn request_json(id: JsonView, method: Seq<char>, params: JsonView) -> JsonView {
    versioned().with("id"@, id).with("method"@, JsonView::Text(method)).with("params"@, params)
}

pub fn request(id: Json, method: &str, params: Json) -> (r: Json)
    ensures
        r@ == request_json(id@, method@, params@),
{
    base().with("id", id).with("method", Json::text(method)).with("params", params)
}

/// A notification.
pub open spec fn notification_json(method: Seq<char>, params: JsonView) -> JsonView {
    versioned().with("method"@, JsonView::Text(method)).with("params"@, params)
}

pub fn notification(method: &str, params: Json) -> (r: Json)
    ensures
        r@ == notification_json(method@, params@),
{
    base().with("method", Json::text(method)).with("params", params)
}

/// An answer.
pub open spec fn result_json(id: JsonView, value: JsonView) -> JsonView {
    versioned().with("id"@, id).with("result"@, value)
}

pub fn result(id: Json, value: Json) -> (r: Json)
    ensures
        r@ == result_json(id@, value@),
{
    base().with("id", id).with("result", value)
}

/// An answer that something went wrong.
pub open spec fn error_json(id: JsonView, code: i64, message: Seq<char>) -> JsonView {
    versioned().with("id"@, id).with(
        "error"@,
        JsonView::object().with("code"@, integer_json(code)).with(
            "message"@,
            JsonView::Text(message),
        ),
    )
}

pub fn error(id: Json, code: i64, message: &str) -> (r: Json)
    ensures
        r@ == error_json(id@, code, message@),
{
    base().with("id", id).with(
        "error",
        Json::object().with("code", integer(code)).with("message", Json::text(message)),
    )
}

/// What is built here is recognised for what it is, with what was put in.
pub proof fn law_messages_are_recognised(
    id: JsonView,
    method: Seq<char>,
    params: JsonView,
    code: i64,
)
    ensures
        jsonrpc::message_of(request_json(id, method, params)) == Some(
            MessageView::Request { id, method, params },
        ),
        jsonrpc::message_of(notification_json(method, params)) == Some(
            MessageView::Notification { method, params },
        ),
        jsonrpc::message_of(result_json(id, params)) == Some(
            MessageView::Response { id, body: result_json(id, params) },
        ),
        jsonrpc::message_of(error_json(id, code, method)) == Some(
            MessageView::Response { id, body: error_json(id, code, method) },
        ),
{
    reveal_strlit("jsonrpc");
    reveal_strlit("id");
    reveal_strlit("method");
    reveal_strlit("params");
    reveal_strlit("result");
    reveal_strlit("error");
    assert("jsonrpc"@.len() == 7 && "id"@.len() == 2 && "error"@.len() == 5);
    assert("method"@[0] == 'm' && "params"@[0] == 'p' && "result"@[0] == 'r');
    assert("method"@.len() == 6 && "params"@.len() == 6 && "result"@.len() == 6);
    json::lemma_gets();
}

/// What is built here is read back as it was written, if what was put in can be.
pub proof fn law_messages_are_read_back(
    id: JsonView,
    method: Seq<char>,
    params: JsonView,
    code: i64,
    depth: int,
)
    requires
        depth > 1,
        jsonrpc::exact(id, depth - 1),
        jsonrpc::exact(params, depth - 1),
    ensures
        jsonrpc::exact(request_json(id, method, params), depth),
        jsonrpc::exact(notification_json(method, params), depth),
        jsonrpc::exact(result_json(id, params), depth),
        jsonrpc::exact(error_json(id, code, method), depth),
{
    assert forall|value: JsonView, key: Seq<char>, one: JsonView, deep: int|
        jsonrpc::exact(value, deep) && jsonrpc::exact(one, deep - 1) implies #[trigger]
        jsonrpc::exact(value.with(key, one), deep) by {
        jsonrpc::lemma_with_exact(value, key, one, deep);
    }
    let failure = JsonView::object().with("code"@, integer_json(code)).with(
        "message"@,
        JsonView::Text(method),
    );
    assert(jsonrpc::exact(JsonView::object(), depth));
    assert(jsonrpc::exact(JsonView::object(), depth - 1));
    assert(jsonrpc::exact(versioned(), depth));
    assert(jsonrpc::exact(failure, depth - 1));
}

} // verus!
