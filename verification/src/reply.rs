//! HTTP replies as plain values, and the standard ones.

use vstd::prelude::*;

use crate::json;
use crate::json::{Json, JsonValue, print_compact, print_pretty, put_text};
use crate::text;

verus! {

/// A reply: its status, its headers in order, and its body.
#[derive(Debug, PartialEq, Eq)]
pub struct Reply {
    pub status: u16,
    pub headers: Vec<(String, String)>,
    pub body: String,
}

/// What a [`Reply`] stands for.
#[verifier::ext_equal]
pub struct ReplyView {
    pub status: u16,
    pub headers: Seq<(Seq<char>, Seq<char>)>,
    pub body: Seq<char>,
}

impl View for Reply {
    type V = ReplyView;

    open spec fn view(&self) -> ReplyView {
        ReplyView { status: self.status, headers: text::string_pairs(self.headers@), body: self.body@ }
    }
}

impl Reply {
    /// The value of the first header with this name.
    pub fn header(&self, name: &str) -> (r: Option<&str>)
        ensures
            text::opt_str(r) == crate::gs1dl::lookup(self@.headers, name@),
    {
        match crate::gs1dl::find_pair(self.headers.as_slice(), name) {
            Some(i) => Some(self.headers[i].1.as_str()),
            None => None,
        }
    }
}

/// The body of the reply that gives no information.
pub const NOT_FOUND_BODY: &'static str = "{\"error\":\"not found\"}";

/// A reply in JSON.
pub open spec fn json_reply(status: u16, body: Seq<char>) -> ReplyView {
    ReplyView { status, headers: seq![("content-type"@, "application/json"@)], body }
}

/// The body of a reply reads as the document that it is meant to hold, where
/// there is one.
pub open spec fn tells(reply: ReplyView, document: Option<JsonValue>) -> bool {
    document matches Some(d) ==> json::reads_as(reply.body, d)
}

/// The reply that gives no information: the same for what is unknown, what is
/// empty and what is dark.
pub open spec fn not_found_reply() -> ReplyView {
    json_reply(404, NOT_FOUND_BODY@)
}

/// The body that says what is wrong.
pub open spec fn error_json(msg: Seq<char>) -> JsonValue {
    JsonValue::Object(Map::empty().insert("error"@, JsonValue::Str(msg)))
}

/// The reply to a request that is wrong.
pub open spec fn bad_request_reply(msg: Seq<char>) -> ReplyView {
    json_reply(400, json::json_compact(error_json(msg)))
}

/// The reply to a request without the right token.
pub open spec fn unauthorized_reply() -> ReplyView {
    json_reply(401, "{\"error\":\"unauthorized\"}"@)
}

/// A reply in JSON.
pub fn json_text_reply(status: u16, body: String) -> (r: Reply)
    ensures
        r@ == json_reply(status, body@),
{
    let mut headers: Vec<(String, String)> = Vec::new();
    headers.push(("content-type".to_string(), "application/json".to_string()));
    assert(text::string_pairs(headers@) =~= seq![("content-type"@, "application/json"@)]);
    Reply { status, headers, body }
}

/// A reply with a JSON value on one line.
pub fn compact_reply(status: u16, j: &Json) -> (r: Reply)
    requires
        json::is_printable(j@, 127),
    ensures
        r@ == json_reply(status, json::json_compact(j@)),
        json::reads_as(r@.body, j@),
{
    json_text_reply(status, print_compact(j))
}

/// A reply with a JSON value over several lines.
pub fn pretty_reply(status: u16, j: &Json) -> (r: Reply)
    requires
        json::is_printable(j@, 127),
    ensures
        r@ == json_reply(status, json::json_pretty(j@)),
        json::reads_as(r@.body, j@),
{
    json_text_reply(status, print_pretty(j))
}

/// The reply that gives no information.
pub fn not_found() -> (r: Reply)
    ensures
        r@ == not_found_reply(),
{
    json_text_reply(404, NOT_FOUND_BODY.to_string())
}

/// No key of the objects printed here begins with `$`.
proof fn lemma_keys_are_plain()
    ensures
        json::is_plain_key("error"@),
{
    reveal_strlit("error");
}

/// The reply to a request that is wrong.
pub fn bad_request(msg: &str) -> (r: Reply)
    ensures
        r@ == bad_request_reply(msg@),
        json::reads_as(r@.body, error_json(msg@)),
{
    broadcast use json::lemma_put_printable;

    proof {
        lemma_keys_are_plain();
    }

    let mut f: Vec<(String, Json)> = Vec::new();
    put_text(&mut f, "error", msg);
    let j = Json::Object(f);
    proof {
        let m = Map::<Seq<char>, JsonValue>::empty();
        assert(json::fields_printable(m, 126));
        assert(json::fields_printable(m.insert("error"@, JsonValue::Str(msg@)), 126));
    }
    compact_reply(400, &j)
}

/// The reply to a request without the right token.
pub fn unauthorized() -> (r: Reply)
    ensures
        r@ == unauthorized_reply(),
{
    json_text_reply(401, "{\"error\":\"unauthorized\"}".to_string())
}

} // verus!
