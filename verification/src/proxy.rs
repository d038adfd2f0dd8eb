//! National-intermediary mode: identifiers that are absent here are asked of an
//! upstream resolver, kept in a cache with the instant they were fetched at,
//! and served through the same context routing. When the upstream does not
//! answer, what is cached is served past its time, and marked as such.
//!
//! What is to be done and what is to be replied is decided here; the request to
//! the upstream stands between [`plan`] and [`settle`] and is the caller's.
//! Identifiers that are known here, the dark ones among them, never come this
//! far.

use vstd::prelude::*;
use vstd::utf8::*;

use crate::carrier::{IdentifierView, ResolvedIdentifier};
use crate::context;
use crate::context::{ContextView, RequestContext};
use crate::entry;
use crate::entry::{EntryView, LinkEntry, copy_entries};
use crate::gs1dl;
use crate::json;
use crate::json::{Json, JsonValue, put_text};
use crate::linkset;
use crate::linkset::entries_from_document;
use crate::render;
use crate::render::{Stamp, StampView, render_linkset_response, render_redirect};
use crate::reply;
use crate::reply::{Reply, ReplyView, compact_reply, not_found};
use crate::store;
use crate::store::{
    CacheEntry, CacheView, Correlation, CorrelationView, Store, StoreView, SupersessionView,
};
use crate::text;
use crate::text::{
    after, before, chars_of, decimal_text, find_text, read_whole_number, second_word_of, string_of,
    text_of_bytes,
};
use crate::time;
use crate::time::Timestamp;

verus! {

/// What is to be served through the upstream.
pub struct UpstreamRequest {
    pub ident: ResolvedIdentifier,
    pub ctx: RequestContext,
    pub link_type: String,
    pub asof: Option<Timestamp>,
    pub redirect: bool,
}

/// What an [`UpstreamRequest`] stands for.
#[verifier::ext_equal]
pub struct RequestView {
    pub ident: IdentifierView,
    pub ctx: ContextView,
    pub link_type: Seq<char>,
    pub asof: Option<int>,
    pub redirect: bool,
}

impl View for UpstreamRequest {
    type V = RequestView;

    open spec fn view(&self) -> RequestView {
        RequestView {
            ident: self.ident@,
            ctx: self.ctx@,
            link_type: self.link_type@,
            asof: entry::instant(self.asof),
            redirect: self.redirect,
        }
    }
}

// ---------------------------------------------------------------------------
// The question to the upstream
// ---------------------------------------------------------------------------

/// A byte that stands for itself in a query: a letter, a digit or one of
/// `-._~`.
pub open spec fn is_unreserved(b: u8) -> bool {
    ||| 0x30 <= b <= 0x39
    ||| 0x41 <= b <= 0x5a
    ||| 0x61 <= b <= 0x7a
    ||| b == 0x2d || b == 0x2e || b == 0x5f || b == 0x7e
}

/// An upper-case hexadecimal digit.
pub open spec fn hex_digit(n: int) -> char {
    if n < 10 {
        (0x30 + n) as char
    } else {
        (0x41 + n - 10) as char
    }
}

/// One byte in a query: itself, or an escape.
pub open spec fn escaped_byte(b: u8) -> Seq<char> {
    if is_unreserved(b) {
        seq![b as char]
    } else {
        seq!['%', hex_digit(b as int / 16), hex_digit(b as int % 16)]
    }
}

/// Bytes in a query.
pub open spec fn escaped(bytes: Seq<u8>) -> Seq<char>
    decreases bytes.len(),
{
    if bytes.len() == 0 {
        Seq::empty()
    } else {
        escaped(bytes.drop_last()) + escaped_byte(bytes.last())
    }
}

/// A text as it stands in a query.
pub open spec fn query_component(s: Seq<char>) -> Seq<char> {
    escaped(encode_utf8(s))
}

fn hex_char(n: u8) -> (r: char)
    requires
        n < 16,
    ensures
        r == hex_digit(n as int),
{
    if n < 10 {
        (0x30 + n) as char
    } else {
        (0x41 + (n - 10)) as char
    }
}

/// Write a text as it stands in a query.
pub fn encode_query_component(s: &str) -> (r: String)
    ensures
        r@ == query_component(s@),
{
    let b = s.as_bytes();
    let mut out = String::new();
    let mut i: usize = 0;
    assert(b@.take(0) =~= Seq::empty());
    assert(out@ =~= Seq::empty());
    while i < b.len()
        invariant
            i <= b.len(),
            out@ == escaped(b@.take(i as int)),
        decreases b.len() - i,
    {
        assert(b@.take(i + 1).drop_last() =~= b@.take(i as int));
        assert(b@.take(i + 1).last() == b@[i as int]);
        let c: u8 = b[i];
        let ghost had = out@;
        if (0x30 <= c && c <= 0x39) || (0x41 <= c && c <= 0x5a) || (0x61 <= c && c <= 0x7a) || c
            == 0x2d || c == 0x2e || c == 0x5f || c == 0x7e {
            out.push(c as char);
        } else {
            out.push('%');
            out.push(hex_char(c / 16));
            out.push(hex_char(c % 16));
        }
        assert(out@ =~= had + escaped_byte(c));
        i += 1;
    }
    assert(b@.take(i as int) =~= b@);
    out
}

/// Without slashes at the end.
pub open spec fn without_slashes(s: Seq<char>) -> Seq<char>
    decreases s.len(),
{
    if s.len() > 0 && s.last() == '/' {
        without_slashes(s.drop_last())
    } else {
        s
    }
}

/// What is asked of the upstream for an identifier: all its links, as of an
/// instant where one is given.
pub open spec fn upstream_url(upstream: Seq<char>, key: Seq<char>, asof: Option<int>) -> Seq<char> {
    let url = without_slashes(upstream) + "/resolve?identifier="@ + query_component(key)
        + "&linkType=all"@;
    match asof {
        Some(t) => url + "&asof="@ + query_component(time::stamp(t)),
        None => url,
    }
}

fn build_url(upstream: &str, key: &str, asof: Option<Timestamp>) -> (r: String)
    ensures
        r@ == upstream_url(upstream@, key@, entry::instant(asof)),
{
    let cs = chars_of(upstream);
    let mut n: usize = cs.len();
    assert(cs@.take(n as int) =~= cs@);
    while n > 0 && cs[n - 1] == '/'
        invariant
            n <= cs.len(),
            without_slashes(cs@) == without_slashes(cs@.take(n as int)),
        decreases n,
    {
        assert(cs@.take(n as int).drop_last() =~= cs@.take(n - 1));
        n -= 1;
    }
    let mut url = string_of(before(cs.as_slice(), n));
    url.push_str("/resolve?identifier=");
    url.push_str(encode_query_component(key).as_str());
    url.push_str("&linkType=all");
    if let Some(t) = asof {
        url.push_str("&asof=");
        url.push_str(encode_query_component(t.to_string().as_str()).as_str());
    }
    assert(url@ =~= upstream_url(upstream@, key@, entry::instant(asof)));
    url
}

// ---------------------------------------------------------------------------
// The answer of the upstream
// ---------------------------------------------------------------------------

/// What came of asking the upstream.
pub enum FetchOutcome {
    Entries(Vec<LinkEntry>),
    NotFound,
    Error(String),
}

/// What a [`FetchOutcome`] stands for.
#[verifier::ext_equal]
pub enum OutcomeView {
    Entries(Seq<EntryView>),
    NotFound,
    Error(Seq<char>),
}

impl View for FetchOutcome {
    type V = OutcomeView;

    open spec fn view(&self) -> OutcomeView {
        match *self {
            FetchOutcome::Entries(v) => OutcomeView::Entries(entry::entry_views(v@)),
            FetchOutcome::NotFound => OutcomeView::NotFound,
            FetchOutcome::Error(m) => OutcomeView::Error(m@),
        }
    }
}

/// What the entries read from an upstream document come to.
pub open spec fn entries_outcome(read: Result<Seq<EntryView>, Seq<char>>) -> OutcomeView {
    match read {
        Ok(entries) => OutcomeView::Entries(entries),
        Err(m) => OutcomeView::Error("upstream linkset: "@ + m),
    }
}

/// What an HTTP answer of the upstream comes to, fetched at an instant.
pub open spec fn upstream_outcome(status: u16, body: Seq<char>, fetched_at: int) -> OutcomeView {
    if status == 404 {
        OutcomeView::NotFound
    } else if status != 200 {
        OutcomeView::Error("upstream returned "@ + text::decimal(status as nat))
    } else {
        entries_outcome(linkset::text_entries(body, fetched_at))
    }
}

/// Judge what was read from an upstream document.
pub fn judge_entries(read: Result<Vec<LinkEntry>, String>) -> (r: FetchOutcome)
    ensures
        r@ == entries_outcome(linkset::entries_result(read)),
{
    match read {
        Ok(entries) => FetchOutcome::Entries(entries),
        Err(m) => {
            let mut s = String::new();
            s.push_str("upstream linkset: ");
            s.push_str(m.as_str());
            assert(s@ =~= "upstream linkset: "@ + m@);
            FetchOutcome::Error(s)
        },
    }
}

/// Judge an HTTP answer of the upstream.
pub fn judge_answer(status: u16, body: &str, fetched_at: Timestamp) -> (r: FetchOutcome)
    ensures
        r@ == upstream_outcome(status, body@, fetched_at.secs as int),
{
    if status == 404 {
        return FetchOutcome::NotFound;
    }
    if status != 200 {
        let mut s = String::new();
        s.push_str("upstream returned ");
        s.push_str(decimal_text(status as u64).as_str());
        assert(s@ =~= "upstream returned "@ + text::decimal(status as nat));
        return FetchOutcome::Error(s);
    }
    judge_entries(entries_from_document(body, fetched_at))
}

/// The status and the body of an HTTP answer that ended with its connection, or
/// what is wrong with it: the head goes up to the first empty line, and the
/// status is its second word.
pub open spec fn answer_parts(text: Seq<char>) -> Result<(u16, Seq<char>), Seq<char>> {
    match text::find(text, "\r\n\r\n"@) {
        None => Err("malformed HTTP response"@),
        Some(n) => match text::whole_number(text::second_word(text.take(n as int)), u16::MAX as int) {
            None => Err("malformed HTTP status line"@),
            Some(status) => Ok((status as u16, text.skip(n as int + 4))),
        },
    }
}

/// Read an HTTP answer.
pub fn read_answer(text: &str) -> (r: Result<(u16, String), String>)
    ensures
        match r {
            Ok((status, body)) => answer_parts(text@) == Ok::<(u16, Seq<char>), Seq<char>>(
                (status, body@),
            ),
            Err(m) => answer_parts(text@) == Err::<(u16, Seq<char>), Seq<char>>(m@),
        },
{
    proof {
        reveal_strlit("\r\n\r\n");
    }
    let cs = chars_of(text);
    let end = chars_of("\r\n\r\n");
    assert(end@.len() == 4);
    let n: usize = match find_text(cs.as_slice(), end.as_slice()) {
        Some(n) => n,
        None => return Err("malformed HTTP response".to_string()),
    };
    let word = string_of(second_word_of(before(cs.as_slice(), n)));
    match read_whole_number(word.as_str(), u16::MAX as u64) {
        Some(status) => Ok((status as u16, string_of(after(cs.as_slice(), n + 4)))),
        None => Err("malformed HTTP status line".to_string()),
    }
}

/// What the text of an HTTP answer comes to, fetched at an instant.
pub open spec fn received(text: Seq<char>, fetched_at: int) -> OutcomeView {
    match answer_parts(text) {
        Ok((status, body)) => upstream_outcome(status, body, fetched_at),
        Err(m) => OutcomeView::Error(m),
    }
}

/// Judge the bytes that the upstream sent.
pub fn judge_bytes(bytes: &[u8], fetched_at: Timestamp) -> (r: FetchOutcome)
    ensures
        r@ == received(text::lossy_text(bytes@), fetched_at.secs as int),
        vstd::utf8::valid_utf8(bytes@) ==> r@ == received(
            vstd::utf8::decode_utf8(bytes@),
            fetched_at.secs as int,
        ),
{
    match read_answer(text_of_bytes(bytes).as_str()) {
        Ok((status, body)) => judge_answer(status, body.as_str(), fetched_at),
        Err(m) => FetchOutcome::Error(m),
    }
}

// ---------------------------------------------------------------------------
// What is done and what is replied
// ---------------------------------------------------------------------------

/// A reply from entries that came from the upstream.
pub open spec fn served(req: RequestView, entries: Seq<EntryView>, at: StampView) -> ReplyView {
    if req.redirect {
        render::redirect_reply(entries, req.ctx, req.link_type, at, None, Seq::empty())
    } else {
        render::linkset_reply(
            req.ident.value,
            entries,
            req.ctx,
            req.link_type,
            at,
            None,
            Seq::empty(),
        )
    }
}

/// The document in such a reply: a redirect has none.
pub open spec fn served_document(req: RequestView, entries: Seq<EntryView>) -> Option<JsonValue> {
    if req.redirect {
        None
    } else {
        Some(
            linkset::document_json(
                req.ident.value,
                render::listed(entries, req.ctx, req.link_type),
                None,
                Seq::empty(),
            ),
        )
    }
}

fn render(req: &UpstreamRequest, entries: &Vec<LinkEntry>, at: Stamp) -> (r: Reply)
    ensures
        r@ == served(req@, entry::entry_views(entries@), at@),
        reply::tells(r@, served_document(req@, entry::entry_views(entries@))),
{
    let none: Vec<Correlation> = Vec::new();
    assert(store::correlation_views(none@) =~= Seq::empty());
    if req.redirect {
        render_redirect(
            entries.as_slice(),
            &req.ctx,
            req.link_type.as_str(),
            at,
            None,
            none.as_slice(),
        )
    } else {
        render_linkset_response(
            req.ident.anchor(),
            entries.as_slice(),
            &req.ctx,
            req.link_type.as_str(),
            at,
            None,
            none.as_slice(),
        )
    }
}

/// The body of the reply when the upstream fails.
pub open spec fn outage_json(detail: Seq<char>) -> JsonValue {
    JsonValue::Object(
        Map::empty().insert("error"@, JsonValue::Str("upstream unavailable"@)).insert(
            "detail"@,
            JsonValue::Str(detail),
        ),
    )
}

/// The reply when the upstream fails.
pub open spec fn outage_reply(detail: Seq<char>) -> ReplyView {
    reply::json_reply(502, json::json_compact(outage_json(detail)))
}

/// No key of the objects printed here begins with `$`.
proof fn lemma_keys_are_plain()
    ensures
        json::is_plain_key("error"@),
        json::is_plain_key("detail"@),
{
    reveal_strlit("error");
    reveal_strlit("detail");
}

fn upstream_error(detail: &str) -> (r: Reply)
    ensures
        r@ == outage_reply(detail@),
        json::reads_as(r@.body, outage_json(detail@)),
{
    broadcast use json::lemma_put_printable;

    proof {
        lemma_keys_are_plain();
    }

    let mut f: Vec<(String, Json)> = Vec::new();
    put_text(&mut f, "error", "upstream unavailable");
    put_text(&mut f, "detail", detail);
    let j = Json::Object(f);
    proof {
        let m = Map::<Seq<char>, JsonValue>::empty();
        assert(json::fields_printable(m, 126));
        let m = m.insert("error"@, JsonValue::Str("upstream unavailable"@));
        assert(json::fields_printable(m, 126));
        assert(json::fields_printable(m.insert("detail"@, JsonValue::Str(detail@)), 126));
    }
    compact_reply(502, &j)
}

/// The difference of two instants, within the range of 64 bits.
pub open spec fn age(now: int, fetched_at: int) -> int {
    if now - fetched_at > i64::MAX {
        i64::MAX as int
    } else if now - fetched_at < i64::MIN {
        i64::MIN as int
    } else {
        now - fetched_at
    }
}

/// A cached answer is younger than the time it may live.
pub open spec fn is_fresh(c: CacheView, now: int, ttl: int) -> bool {
    age(now, c.fetched_at) < ttl
}

fn fresh(c: &CacheEntry, now: Timestamp, ttl_secs: i64) -> (r: bool)
    ensures
        r == is_fresh(c@, now.secs as int, ttl_secs as int),
{
    let d: i128 = now.secs as i128 - c.fetched_at.secs as i128;
    let d: i128 = if d > i64::MAX as i128 {
        i64::MAX as i128
    } else if d < i64::MIN as i128 {
        i64::MIN as i128
    } else {
        d
    };
    d < ttl_secs as i128
}

/// What is to be done for a request.
pub enum Plan {
    /// Reply with this.
    Serve(Reply),
    /// Ask the upstream under this URL; what is cached past its time is kept
    /// at hand.
    Fetch { url: String, stale: Option<CacheEntry> },
}

/// What a [`Plan`] stands for.
#[verifier::ext_equal]
pub enum PlanView {
    Serve(ReplyView),
    Fetch { url: Seq<char>, stale: Option<CacheView> },
}

/// The view of an optional cached answer.
pub open spec fn stale_view(c: Option<CacheEntry>) -> Option<CacheView> {
    match c {
        Some(c) => Some(c@),
        None => None,
    }
}

impl View for Plan {
    type V = PlanView;

    open spec fn view(&self) -> PlanView {
        match *self {
            Plan::Serve(r) => PlanView::Serve(r@),
            Plan::Fetch { url, stale } => PlanView::Fetch { url: url@, stale: stale_view(stale) },
        }
    }
}

/// What is to be done for a request: a question as of an instant is handed on,
/// a fresh answer is served from the cache, and anything else is fetched.
pub open spec fn planned(
    cache: Map<Seq<char>, CacheView>,
    upstream: Seq<char>,
    ttl: int,
    req: RequestView,
    now: int,
) -> PlanView {
    let key = req.ident.key();
    let url = upstream_url(upstream, key, req.asof);
    if req.asof is Some || !cache.contains_key(key) {
        PlanView::Fetch { url, stale: None }
    } else if is_fresh(cache[key], now, ttl) {
        PlanView::Serve(
            served(
                req,
                cache[key].entries,
                StampView { at: cache[key].fetched_at, cache: Some("hit"@) },
            ),
        )
    } else {
        PlanView::Fetch { url, stale: Some(cache[key]) }
    }
}

/// Decide what is to be done for a request.
pub fn plan(
    store: &Store,
    upstream: &str,
    ttl_secs: i64,
    req: &UpstreamRequest,
    now: Timestamp,
) -> (r: Plan)
    requires
        store.is_sound(),
    ensures
        r@ == planned(store@.cache, upstream@, ttl_secs as int, req@, now.secs as int),
        r matches Plan::Serve(reply) ==> reply::tells(
            reply@,
            served_document(req@, store@.cache[req@.ident.key()].entries),
        ),
{
    let key = req.ident.key();
    let url = build_url(upstream, key.as_str(), req.asof);
    if req.asof.is_some() {
        return Plan::Fetch { url, stale: None };
    }
    match store.cache_get(key.as_str()) {
        None => Plan::Fetch { url, stale: None },
        Some(c) => if fresh(c, now, ttl_secs) {
            Plan::Serve(
                render(req, &c.entries, Stamp::Cached { fetched_at: c.fetched_at, cache: "hit" }),
            )
        } else {
            Plan::Fetch { url, stale: Some(c.clone()) }
        },
    }
}

/// The cache after the upstream was asked: entries are kept, except those as of
/// an instant; an absence is not.
pub open spec fn settled_cache(
    cache: Map<Seq<char>, CacheView>,
    req: RequestView,
    now: int,
    outcome: OutcomeView,
) -> Map<Seq<char>, CacheView> {
    match outcome {
        OutcomeView::Entries(entries) => if entries.len() > 0 && req.asof is None {
            cache.insert(req.ident.key(), CacheView { fetched_at: now, entries })
        } else {
            cache
        },
        _ => cache,
    }
}

/// The reply after the upstream was asked.
pub open spec fn settled_reply(
    req: RequestView,
    stale: Option<CacheView>,
    now: int,
    outcome: OutcomeView,
) -> ReplyView {
    match (outcome, stale) {
        (OutcomeView::Entries(entries), _) if entries.len() > 0 => served(
            req,
            entries,
            StampView {
                at: now,
                cache: Some(
                    if stale is Some {
                        "refresh"@
                    } else {
                        "miss"@
                    },
                ),
            },
        ),
        (_, Some(c)) => served(
            req,
            c.entries,
            StampView { at: c.fetched_at, cache: Some("stale"@) },
        ),
        (OutcomeView::Error(m), None) => outage_reply(m),
        (_, None) => reply::not_found_reply(),
    }
}

/// The document in the reply after the upstream was asked.
pub open spec fn settled_document(
    req: RequestView,
    stale: Option<CacheView>,
    outcome: OutcomeView,
) -> Option<JsonValue> {
    match (outcome, stale) {
        (OutcomeView::Entries(entries), _) if entries.len() > 0 => served_document(req, entries),
        (_, Some(c)) => served_document(req, c.entries),
        (OutcomeView::Error(m), None) => Some(outage_json(m)),
        (_, None) => None,
    }
}

/// Take in what came of asking the upstream, and reply.
pub fn settle(
    store: &mut Store,
    req: &UpstreamRequest,
    stale: Option<CacheEntry>,
    now: Timestamp,
    outcome: FetchOutcome,
) -> (r: Reply)
    requires
        old(store).is_sound(),
    ensures
        final(store).is_sound(),
        final(store)@ == (StoreView {
            cache: settled_cache(old(store)@.cache, req@, now.secs as int, outcome@),
            ..old(store)@
        }),
        r@ == settled_reply(req@, stale_view(stale), now.secs as int, outcome@),
        reply::tells(r@, settled_document(req@, stale_view(stale), outcome@)),
{
    let ghost before = store@;
    if let FetchOutcome::Entries(entries) = &outcome {
        assert(entry::entry_views(entries@).len() == entries@.len());
        if entries.len() > 0 {
            if req.asof.is_none() {
                let kept = CacheEntry { fetched_at: now, entries: copy_entries(entries) };
                store.cache_put(req.ident.key().as_str(), kept);
            }
            let mark = if stale.is_some() {
                "refresh"
            } else {
                "miss"
            };
            return render(req, entries, Stamp::Cached { fetched_at: now, cache: mark });
        }
    }
    match stale {
        Some(c) => render(
            req,
            &c.entries,
            Stamp::Cached { fetched_at: c.fetched_at, cache: "stale" },
        ),
        None => match outcome {
            FetchOutcome::Error(m) => upstream_error(m.as_str()),
            _ => not_found(),
        },
    }
}

// ---------------------------------------------------------------------------
// Laws
// ---------------------------------------------------------------------------

proof fn lemma_hex_digit(n: int)
    requires
        0 <= n < 16,
    ensures
        '\0' <= hex_digit(n) <= '\u{7f}',
        gs1dl::hex_value(hex_digit(n) as u8) == Some(n),
        hex_digit(n) as u8 != 0x25,
{
}

/// The bytes of ASCII characters.
spec fn ascii_bytes(s: Seq<char>) -> Seq<u8> {
    s.map_values(|c: char| c as u8)
}

proof fn lemma_unescape_appends(a: Seq<u8>, b: Seq<u8>)
    requires
        gs1dl::unescape(a) is Some,
    ensures
        gs1dl::unescape(a + b) == (match gs1dl::unescape(b) {
            Some(rest) => Some(gs1dl::unescape(a)->0 + rest),
            None => None,
        }),
    decreases a.len(),
{
    if a.len() == 0 {
        assert(a + b =~= b);
        if let Some(rest) = gs1dl::unescape(b) {
            assert(gs1dl::unescape(a)->0 + rest =~= rest);
        }
    } else if a[0] == 0x25 {
        lemma_unescape_appends(a.skip(3), b);
        assert((a + b).skip(3) =~= a.skip(3) + b);
        if let Some(rest) = gs1dl::unescape(b) {
            let head = seq![(16 * gs1dl::hex_value(a[1])->0 + gs1dl::hex_value(a[2])->0) as u8];
            assert((head + gs1dl::unescape(a.skip(3))->0) + rest =~= head + (gs1dl::unescape(a.skip(3))->0
                + rest));
        }
    } else {
        lemma_unescape_appends(a.skip(1), b);
        assert((a + b).skip(1) =~= a.skip(1) + b);
        if let Some(rest) = gs1dl::unescape(b) {
            let head = seq![a[0]];
            assert((head + gs1dl::unescape(a.skip(1))->0) + rest =~= head + (gs1dl::unescape(a.skip(1))->0
                + rest));
        }
    }
}

proof fn lemma_escaped_byte(b: u8)
    ensures
        is_ascii_chars(escaped_byte(b)),
        gs1dl::unescape(ascii_bytes(escaped_byte(b))) == Some(seq![b]),
{
    reveal_with_fuel(gs1dl::unescape, 2);
    let e = ascii_bytes(escaped_byte(b));
    if is_unreserved(b) {
        assert(e =~= seq![b]);
        assert(e.skip(1) =~= Seq::empty());
        assert(seq![e[0]] + Seq::<u8>::empty() =~= seq![b]);
    } else {
        lemma_hex_digit(b as int / 16);
        lemma_hex_digit(b as int % 16);
        assert(e.len() == 3);
        assert(e[0] == 0x25);
        assert(e[1] == hex_digit(b as int / 16) as u8);
        assert(e[2] == hex_digit(b as int % 16) as u8);
        assert(e.skip(3) =~= Seq::empty());
        assert(16 * (b as int / 16) + b as int % 16 == b);
        assert(seq![b] + Seq::<u8>::empty() =~= seq![b]);
    }
}

proof fn lemma_escaped(bytes: Seq<u8>)
    ensures
        is_ascii_chars(escaped(bytes)),
        gs1dl::unescape(ascii_bytes(escaped(bytes))) == Some(bytes),
    decreases bytes.len(),
{
    if bytes.len() == 0 {
        assert(ascii_bytes(escaped(bytes)) =~= Seq::empty());
        assert(bytes =~= Seq::empty());
    } else {
        let front = bytes.drop_last();
        let last = bytes.last();
        lemma_escaped(front);
        lemma_escaped_byte(last);
        let a = ascii_bytes(escaped(front));
        let b = ascii_bytes(escaped_byte(last));
        assert(ascii_bytes(escaped(bytes)) =~= a + b);
        lemma_unescape_appends(a, b);
        assert(front + seq![last] =~= bytes);
    }
}

/// A text comes out of a query as it went in: percent-decoding undoes the
/// encoding.
pub proof fn law_query_component_decodes(s: Seq<char>)
    ensures
        gs1dl::percent_decoded(query_component(s)) == Some(s),
{
    let bytes = encode_utf8(s);
    let q = query_component(s);
    lemma_escaped(bytes);
    is_ascii_chars_encode_utf8(q);
    assert(encode_utf8(q) =~= ascii_bytes(q));
    encode_utf8_valid_utf8(s);
    encode_utf8_decode_utf8(s);
}

/// A cached answer that was once fetched keeps an identifier available: while
/// it is there, neither an outage nor an absence upstream takes the links away,
/// and the reply says that they are past their time.
pub proof fn law_stale_is_served_on_outage(
    req: RequestView,
    c: CacheView,
    now: int,
    outcome: OutcomeView,
)
    requires
        outcome matches OutcomeView::Entries(v) ==> v.len() == 0,
    ensures
        settled_reply(req, Some(c), now, outcome) == served(
            req,
            c.entries,
            StampView { at: c.fetched_at, cache: Some("stale"@) },
        ),
{
}

/// What was fetched is served from the cache while it is fresh, with the
/// instant of its fetching.
pub proof fn law_fetched_is_served_from_cache(
    cache: Map<Seq<char>, CacheView>,
    upstream: Seq<char>,
    ttl: int,
    req: RequestView,
    fetched_at: int,
    entries: Seq<EntryView>,
    later: int,
)
    requires
        req.asof is None,
        entries.len() > 0,
        age(later, fetched_at) < ttl,
    ensures
        planned(
            settled_cache(cache, req, fetched_at, OutcomeView::Entries(entries)),
            upstream,
            ttl,
            req,
            later,
        ) == PlanView::Serve(
            served(req, entries, StampView { at: fetched_at, cache: Some("hit"@) }),
        ),
{
}

/// A question as of an instant is always handed on and never cached.
pub proof fn law_historical_is_not_cached(
    cache: Map<Seq<char>, CacheView>,
    upstream: Seq<char>,
    ttl: int,
    req: RequestView,
    now: int,
    outcome: OutcomeView,
)
    requires
        req.asof is Some,
    ensures
        planned(cache, upstream, ttl, req, now) == (PlanView::Fetch {
            url: upstream_url(upstream, req.ident.key(), req.asof),
            stale: None,
        }),
        settled_cache(cache, req, now, outcome) == cache,
{
}

/// The links of an upstream come through: asked for all links without a
/// context, a resolver answers with a document from which the entries read back
/// as they were published, in their order and apart from their ids. `body` is
/// any text that reads as that document.
pub proof fn law_upstream_links_come_through(
    body: Seq<char>,
    anchor: Seq<char>,
    entries: Seq<EntryView>,
    rotation: Option<SupersessionView>,
    claims: Seq<CorrelationView>,
    fetched_at: int,
)
    requires
        json::reads_as(
            body,
            linkset::document_json(anchor, render::listed(entries, context::no_preference(), "all"@), rotation, claims),
        ),
        forall|i: int| 0 <= i < entries.len() ==> linkset::is_linkable(#[trigger] entries[i]),
    ensures
        upstream_outcome(200, body, fetched_at) == OutcomeView::Entries(
            entries.map_values(|e: EntryView| e.with_id(0)),
        ),
{
    render::law_plain_listing_keeps_the_order(entries);
    linkset::law_document_reads_back(body, anchor, entries, rotation, claims, fetched_at);
}

/// An absence upstream is not cached, and neither is a failure.
pub proof fn law_absence_is_not_cached(
    cache: Map<Seq<char>, CacheView>,
    req: RequestView,
    now: int,
    outcome: OutcomeView,
)
    requires
        outcome matches OutcomeView::Entries(v) ==> v.len() == 0,
    ensures
        settled_cache(cache, req, now, outcome) == cache,
{
}

} // verus!
