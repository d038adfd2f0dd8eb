//! The public surface: resolution by query, by path and by redirect, and the
//! normalization of carriers. Requests come in as plain values and replies go
//! out as such.
//!
//! The local store answers first, then the upstream, then the reply that gives
//! no information. Resolution goes by identity: there is no listing, what is
//! unknown and what is dark cannot be told apart, and every reply that gives
//! information names the instant it speaks of.

use vstd::prelude::*;

use crate::carrier;
use crate::carrier::{
    CarrierLookup, CarrierParse, CarrierView, IdentifierView, LookupView, ResolvedIdentifier,
    classify_carrier, classify_path, parse_identifier_param,
};
pub use crate::config::Config;
use crate::config;
use crate::context;
use crate::context::{ContextView, RequestContext};
use crate::entry;
use crate::entry::EntryView;
use crate::gs1dl;
use crate::gs1dl::{decode_segments, find_pair};
use crate::json;
use crate::json::{Json, JsonValue, parse_json, put, put_text};
use crate::linkset;
use crate::negotiate;
use crate::negotiate::context_for_accept;
use crate::proxy;
use crate::proxy::{OutcomeView, RequestView, UpstreamRequest};
use crate::render;
use crate::render::{Stamp, StampView, render_absence, render_linkset_response, render_redirect};
pub use crate::reply::NOT_FOUND_BODY;
use crate::reply;
use crate::reply::{Reply, ReplyView, bad_request, compact_reply, not_found};
use crate::store;
use crate::store::{AnswerView, LedgerView, Lookup, Store};
use crate::text;
use crate::text::{
    after, before, chars_of, digits_only, is_text, split_at_each, string_of, trimmed,
};
use crate::time;
use crate::time::Timestamp;

verus! {

/// What comes of a request to resolve: a reply, or a question for the upstream.
pub enum Resolution {
    Done(Reply),
    AskUpstream(UpstreamRequest),
}

/// What a [`Resolution`] stands for.
#[verifier::ext_equal]
pub enum ResolutionView {
    Done(ReplyView),
    AskUpstream(RequestView),
}

impl View for Resolution {
    type V = ResolutionView;

    open spec fn view(&self) -> ResolutionView {
        match *self {
            Resolution::Done(r) => ResolutionView::Done(r@),
            Resolution::AskUpstream(q) => ResolutionView::AskUpstream(q@),
        }
    }
}

// ---------------------------------------------------------------------------
// Resolution
// ---------------------------------------------------------------------------

/// The context that a request is routed by: its own, or the one that its
/// `Accept` header selects where it has none.
pub open spec fn routing_context(ctx: ContextView, accept: Option<Seq<char>>) -> ContextView {
    if !ctx.is_empty() {
        ctx
    } else {
        match accept {
            Some(a) => match negotiate::negotiated(a) {
                Some(c) => c,
                None => context::no_preference(),
            },
            None => context::no_preference(),
        }
    }
}

/// The instant that a request speaks of.
pub open spec fn instant_asked(asof: Option<int>, now: int) -> int {
    match asof {
        Some(t) => t,
        None => now,
    }
}

/// What comes of a request to resolve an identifier.
pub open spec fn resolution(
    l: LedgerView,
    has_upstream: bool,
    ident: IdentifierView,
    ctx: ContextView,
    accept: Option<Seq<char>>,
    link_type: Seq<char>,
    asof: Option<int>,
    redirect: bool,
    now: int,
) -> ResolutionView {
    let ctx = routing_context(ctx, accept);
    let t = instant_asked(asof, now);
    let rotation = store::rotation_at(l, ident.key(), t);
    let claims = store::claims_at(l, ident.key(), t);
    let at = StampView { at: t, cache: None };
    match store::answer(l, ident.key(), t) {
        AnswerView::Dark => ResolutionView::Done(reply::not_found_reply()),
        AnswerView::KnownEmpty => ResolutionView::Done(render::absence_reply(rotation, claims, t)),
        AnswerView::Absent => if rotation is None && claims.len() == 0 && has_upstream {
            ResolutionView::AskUpstream(RequestView { ident, ctx, link_type, asof, redirect })
        } else {
            ResolutionView::Done(render::absence_reply(rotation, claims, t))
        },
        AnswerView::Resolved(entries) => ResolutionView::Done(
            if redirect {
                render::redirect_reply(entries, ctx, link_type, at, rotation, claims)
            } else {
                render::linkset_reply(ident.value, entries, ctx, link_type, at, rotation, claims)
            },
        ),
    }
}

/// The document in the reply to a request to resolve: the links, or what is
/// stated of an identity without them. A redirect and the reply without
/// information have none.
pub open spec fn resolution_document(
    l: LedgerView,
    ident: IdentifierView,
    ctx: ContextView,
    accept: Option<Seq<char>>,
    link_type: Seq<char>,
    asof: Option<int>,
    redirect: bool,
    now: int,
) -> Option<JsonValue> {
    let t = instant_asked(asof, now);
    let rotation = store::rotation_at(l, ident.key(), t);
    let claims = store::claims_at(l, ident.key(), t);
    match store::answer(l, ident.key(), t) {
        AnswerView::Dark => None,
        AnswerView::KnownEmpty => render::absence_document(rotation, claims),
        AnswerView::Absent => render::absence_document(rotation, claims),
        AnswerView::Resolved(entries) => if redirect {
            None
        } else {
            let shown = render::listed(entries, routing_context(ctx, accept), link_type);
            Some(linkset::document_json(ident.value, shown, rotation, claims))
        },
    }
}

fn negotiate_context(ctx: &RequestContext, accept: Option<&str>) -> (r: RequestContext)
    ensures
        r@ == routing_context(ctx@, text::opt_str(accept)),
{
    if !ctx.is_empty() {
        return ctx.clone();
    }
    match accept {
        Some(a) => match context_for_accept(a) {
            Some(c) => c,
            None => RequestContext::default(),
        },
        None => RequestContext::default(),
    }
}

/// No key of the objects printed here begins with `$`.
proof fn lemma_keys_are_plain()
    ensures
        json::is_plain_key("carrier"@),
        json::is_plain_key("kind"@),
        json::is_plain_key("origin"@),
        json::is_plain_key("resolverBaseUrl"@),
        json::is_plain_key("identifier"@),
        json::is_plain_key("scheme"@),
        json::is_plain_key("value"@),
        json::is_plain_key("granularity"@),
        json::is_plain_key("key"@),
{
    reveal_strlit("carrier");
    reveal_strlit("kind");
    reveal_strlit("origin");
    reveal_strlit("resolverBaseUrl");
    reveal_strlit("identifier");
    reveal_strlit("scheme");
    reveal_strlit("value");
    reveal_strlit("granularity");
    reveal_strlit("key");
}

/// Resolve an identifier: the local store answers first, and what is known
/// there, dark or empty, never goes further; what is absent goes to the
/// upstream, where there is one.
pub fn resolve(
    store: &Store,
    has_upstream: bool,
    ident: &ResolvedIdentifier,
    ctx: &RequestContext,
    accept: Option<&str>,
    link_type: &str,
    asof: Option<Timestamp>,
    redirect: bool,
    now: Timestamp,
) -> (r: Resolution)
    requires
        store.is_sound(),
    ensures
        r@ == resolution(
            store@.ledger,
            has_upstream,
            ident@,
            ctx@,
            text::opt_str(accept),
            link_type@,
            entry::instant(asof),
            redirect,
            now.secs as int,
        ),
        r matches Resolution::Done(reply) ==> reply::tells(
            reply@,
            resolution_document(
                store@.ledger,
                ident@,
                ctx@,
                text::opt_str(accept),
                link_type@,
                entry::instant(asof),
                redirect,
                now.secs as int,
            ),
        ),
{
    let ctx = negotiate_context(ctx, accept);
    let t = match asof {
        Some(t) => t,
        None => now,
    };
    let key = ident.key();
    let found = store.lookup(key.as_str(), t);
    if let Lookup::Dark = found {
        return Resolution::Done(not_found());
    }
    let supersession = store.supersession_at(key.as_str(), t);
    let correlations = store.correlations_at(key.as_str(), t);
    assert(store::correlation_views(correlations@).len() == correlations@.len());
    match found {
        Lookup::Dark => Resolution::Done(not_found()),
        Lookup::KnownEmpty => Resolution::Done(render_absence(supersession, correlations.as_slice(), t)),
        Lookup::Absent => if supersession.is_none() && correlations.len() == 0 && has_upstream {
            Resolution::AskUpstream(
                UpstreamRequest {
                    ident: ident.clone(),
                    ctx,
                    link_type: link_type.to_string(),
                    asof,
                    redirect,
                },
            )
        } else {
            Resolution::Done(render_absence(supersession, correlations.as_slice(), t))
        },
        Lookup::Resolved(entries) => if redirect {
            Resolution::Done(
                render_redirect(
                    entries.as_slice(),
                    &ctx,
                    link_type,
                    Stamp::Local(t),
                    supersession,
                    correlations.as_slice(),
                ),
            )
        } else {
            Resolution::Done(
                render_linkset_response(
                    ident.anchor(),
                    entries.as_slice(),
                    &ctx,
                    link_type,
                    Stamp::Local(t),
                    supersession,
                    correlations.as_slice(),
                ),
            )
        },
    }
}

// ---------------------------------------------------------------------------
// Parameters
// ---------------------------------------------------------------------------

/// A parameter without the white space around it, where anything is left.
pub open spec fn trimmed_param(
    params: Seq<(Seq<char>, Seq<char>)>,
    key: Seq<char>,
) -> Option<Seq<char>> {
    match gs1dl::lookup(params, key) {
        Some(s) => config::setting(Some(text::trim(s))),
        None => None,
    }
}

/// The context that parameters ask for.
pub open spec fn context_params(params: Seq<(Seq<char>, Seq<char>)>) -> ContextView {
    ContextView {
        profile: trimmed_param(params, "profile"@),
        role: trimmed_param(params, "role"@),
        language: trimmed_param(params, "lang"@),
        region: trimmed_param(params, "region"@),
    }
}

/// The instant that parameters ask for, or what is wrong with it.
pub open spec fn asof_param(params: Seq<(Seq<char>, Seq<char>)>) -> Result<
    Option<int>,
    Seq<char>,
> {
    match config::setting(gs1dl::lookup(params, "asof"@)) {
        None => Ok(None),
        Some(s) => match time::stamp_secs(s) {
            Some(t) => Ok(Some(t)),
            None => Err(time::stamp_complaint(s)),
        },
    }
}

/// The link type that parameters ask for.
pub open spec fn link_type_param(params: Seq<(Seq<char>, Seq<char>)>) -> Seq<char> {
    text::text_or(trimmed_param(params, "linkType"@), "dpp"@)
}

fn read_trimmed_param(params: &[(String, String)], key: &str) -> (r: Option<String>)
    ensures
        text::opt_text(r) == trimmed_param(text::string_pairs(params@), key@),
{
    match find_pair(params, key) {
        Some(i) => {
            let cs = chars_of(params[i].1.as_str());
            let t = trimmed(cs.as_slice());
            if t.len() > 0 {
                Some(string_of(t))
            } else {
                None
            }
        },
        None => None,
    }
}

/// The context that parameters ask for.
pub fn parse_context_params(params: &[(String, String)]) -> (r: RequestContext)
    ensures
        r@ == context_params(text::string_pairs(params@)),
{
    RequestContext {
        profile: read_trimmed_param(params, "profile"),
        role: read_trimmed_param(params, "role"),
        language: read_trimmed_param(params, "lang"),
        region: read_trimmed_param(params, "region"),
    }
}

/// The instant that parameters ask for, or the complaint about it.
pub fn parse_asof(params: &[(String, String)]) -> (r: Result<Option<Timestamp>, String>)
    ensures
        match r {
            Ok(o) => asof_param(text::string_pairs(params@)) == Ok::<Option<int>, Seq<char>>(entry::instant(o)),
            Err(m) => asof_param(text::string_pairs(params@)) == Err::<Option<int>, Seq<char>>(m@),
        },
{
    match find_pair(params, "asof") {
        None => Ok(None),
        Some(i) => {
            let cs = chars_of(params[i].1.as_str());
            if cs.len() == 0 {
                return Ok(None);
            }
            match Timestamp::parse(params[i].1.as_str()) {
                Ok(t) => Ok(Some(t)),
                Err(m) => Err(m),
            }
        },
    }
}

/// The link type that parameters ask for.
pub fn link_type_of(params: &[(String, String)]) -> (r: String)
    ensures
        r@ == link_type_param(text::string_pairs(params@)),
{
    match read_trimmed_param(params, "linkType") {
        Some(s) => s,
        None => "dpp".to_string(),
    }
}

// ---------------------------------------------------------------------------
// Handlers
// ---------------------------------------------------------------------------

/// The identifier that a query names, or what is wrong with the query.
pub open spec fn query_subject(params: Seq<(Seq<char>, Seq<char>)>) -> Result<
    IdentifierView,
    Seq<char>,
> {
    match (gs1dl::lookup(params, "carrier"@), gs1dl::lookup(params, "identifier"@)) {
        (Some(_), Some(_)) => Err("`carrier` and `identifier` are mutually exclusive"@),
        (None, Some(i)) => carrier::identifier_of(i),
        (Some(c), None) => match carrier::carrier_class(c) {
            LookupView::Parsed(p) => Ok(p.identifier),
            LookupView::Invalid => Err("invalid carrier (check digit / values)"@),
            LookupView::Unrecognized => Err("unrecognized carrier"@),
        },
        (None, None) => Err("one of `carrier` or `identifier` is required"@),
    }
}

/// What comes of the query form.
pub open spec fn query_resolution(
    l: LedgerView,
    has_upstream: bool,
    params: Seq<(Seq<char>, Seq<char>)>,
    accept: Option<Seq<char>>,
    now: int,
) -> ResolutionView {
    match query_subject(params) {
        Err(m) => ResolutionView::Done(reply::bad_request_reply(m)),
        Ok(ident) => match asof_param(params) {
            Err(m) => ResolutionView::Done(reply::bad_request_reply(m)),
            Ok(asof) => resolution(
                l,
                has_upstream,
                ident,
                context_params(params),
                accept,
                link_type_param(params),
                asof,
                false,
                now,
            ),
        },
    }
}

/// The document in the reply to the query form.
pub open spec fn query_document(
    l: LedgerView,
    params: Seq<(Seq<char>, Seq<char>)>,
    accept: Option<Seq<char>>,
    now: int,
) -> Option<JsonValue> {
    match query_subject(params) {
        Err(m) => Some(reply::error_json(m)),
        Ok(ident) => match asof_param(params) {
            Err(m) => Some(reply::error_json(m)),
            Ok(asof) => resolution_document(
                l,
                ident,
                context_params(params),
                accept,
                link_type_param(params),
                asof,
                false,
                now,
            ),
        },
    }
}

fn read_subject(params: &[(String, String)]) -> (r: Result<ResolvedIdentifier, String>)
    ensures
        carrier::identifier_result(r) == query_subject(text::string_pairs(params@)),
{
    let carrier = find_pair(params, "carrier");
    match find_pair(params, "identifier") {
        Some(i) => {
            if carrier.is_some() {
                return Err("`carrier` and `identifier` are mutually exclusive".to_string());
            }
            parse_identifier_param(params[i].1.as_str())
        },
        None => match carrier {
            Some(c) => match classify_carrier(params[c].1.as_str()) {
                CarrierLookup::Parsed(p) => Ok(p.identifier),
                CarrierLookup::Invalid => Err(
                    "invalid carrier (check digit / values)".to_string(),
                ),
                CarrierLookup::Unrecognized => Err("unrecognized carrier".to_string()),
            },
            None => Err("one of `carrier` or `identifier` is required".to_string()),
        },
    }
}

/// The query form: `carrier` or `identifier`, the context, the link type and
/// the instant as parameters. The keys of `params` are distinct.
pub fn resolve_query(
    store: &Store,
    has_upstream: bool,
    params: &[(String, String)],
    accept: Option<&str>,
    now: Timestamp,
) -> (r: Resolution)
    requires
        store.is_sound(),
    ensures
        r@ == query_resolution(
            store@.ledger,
            has_upstream,
            text::string_pairs(params@),
            text::opt_str(accept),
            now.secs as int,
        ),
        r matches Resolution::Done(reply) ==> reply::tells(
            reply@,
            query_document(
                store@.ledger,
                text::string_pairs(params@),
                text::opt_str(accept),
                now.secs as int,
            ),
        ),
{
    let ident = match read_subject(params) {
        Ok(i) => i,
        Err(m) => return Resolution::Done(bad_request(m.as_str())),
    };
    let ctx = parse_context_params(params);
    let link_type = link_type_of(params);
    let asof = match parse_asof(params) {
        Ok(a) => a,
        Err(m) => return Resolution::Done(bad_request(m.as_str())),
    };
    resolve(store, has_upstream, &ident, &ctx, accept, link_type.as_str(), asof, false, now)
}

/// A path without the slashes in front.
pub open spec fn without_front_slashes(s: Seq<char>) -> Seq<char>
    decreases s.len(),
{
    if s.len() > 0 && s[0] == '/' {
        without_front_slashes(s.skip(1))
    } else {
        s
    }
}

/// The path ends in `/linkset`.
pub open spec fn asks_for_linkset(path: Seq<char>) -> bool {
    path.len() >= 8 && path.skip(path.len() - 8) == "/linkset"@
}

/// The path without `/linkset` at its end.
pub open spec fn key_path_of(path: Seq<char>) -> Seq<char> {
    if asks_for_linkset(path) {
        path.take(path.len() - 8)
    } else {
        path
    }
}

/// A parameter whose key is an application identifier: two digits.
pub open spec fn is_qualifier_param(p: (Seq<char>, Seq<char>)) -> bool {
    p.0.len() == 2 && text::all_digits(p.0)
}

/// What comes of the path form.
pub open spec fn path_resolution(
    l: LedgerView,
    has_upstream: bool,
    path: Seq<char>,
    params: Seq<(Seq<char>, Seq<char>)>,
    accept: Option<Seq<char>>,
    now: int,
) -> ResolutionView {
    let raw = without_front_slashes(path);
    if raw.len() == 0 {
        ResolutionView::Done(reply::not_found_reply())
    } else {
        match gs1dl::path_segments_of(key_path_of(raw)) {
            None => ResolutionView::Done(reply::not_found_reply()),
            Some(segments) => match asof_param(params) {
                Err(m) => ResolutionView::Done(reply::bad_request_reply(m)),
                Ok(asof) => match carrier::path_class(
                    segments,
                    params.filter(|p: (Seq<char>, Seq<char>)| is_qualifier_param(p)),
                ) {
                    LookupView::Parsed(p) => resolution(
                        l,
                        has_upstream,
                        p.identifier,
                        context_params(params),
                        accept,
                        link_type_param(params),
                        asof,
                        !asks_for_linkset(raw),
                        now,
                    ),
                    LookupView::Invalid => ResolutionView::Done(
                        reply::bad_request_reply("invalid carrier (check digit / values)"@),
                    ),
                    LookupView::Unrecognized => ResolutionView::Done(reply::not_found_reply()),
                },
            },
        }
    }
}

/// The document in the reply to the path form.
pub open spec fn path_document(
    l: LedgerView,
    path: Seq<char>,
    params: Seq<(Seq<char>, Seq<char>)>,
    accept: Option<Seq<char>>,
    now: int,
) -> Option<JsonValue> {
    let raw = without_front_slashes(path);
    if raw.len() == 0 {
        None
    } else {
        match gs1dl::path_segments_of(key_path_of(raw)) {
            None => None,
            Some(segments) => match asof_param(params) {
                Err(m) => Some(reply::error_json(m)),
                Ok(asof) => match carrier::path_class(
                    segments,
                    params.filter(|p: (Seq<char>, Seq<char>)| is_qualifier_param(p)),
                ) {
                    LookupView::Parsed(p) => resolution_document(
                        l,
                        p.identifier,
                        context_params(params),
                        accept,
                        link_type_param(params),
                        asof,
                        !asks_for_linkset(raw),
                        now,
                    ),
                    LookupView::Invalid => Some(
                        reply::error_json("invalid carrier (check digit / values)"@),
                    ),
                    LookupView::Unrecognized => None,
                },
            },
        }
    }
}

fn qualifier_params(params: &[(String, String)]) -> (r: Vec<(String, String)>)
    ensures
        text::string_pairs(r@) == text::string_pairs(params@).filter(
            |p: (Seq<char>, Seq<char>)| is_qualifier_param(p),
        ),
{
    let ghost all = text::string_pairs(params@);
    let ghost f = |p: (Seq<char>, Seq<char>)| is_qualifier_param(p);
    let mut out: Vec<(String, String)> = Vec::new();
    let mut i: usize = 0;
    proof {
        reveal(Seq::filter);
        assert(all.take(0).filter(f) =~= Seq::empty());
        assert(text::string_pairs(out@) =~= Seq::empty());
    }
    while i < params.len()
        invariant
            i <= params.len(),
            all == text::string_pairs(params@),
            f == (|p: (Seq<char>, Seq<char>)| is_qualifier_param(p)),
            text::string_pairs(out@) == all.take(i as int).filter(f),
        decreases params.len() - i,
    {
        proof {
            reveal(Seq::filter);
            assert(all.take(i + 1).drop_last() =~= all.take(i as int));
            assert(all.take(i + 1).last() == all[i as int]);
        }
        let key = chars_of(params[i].0.as_str());
        if key.len() == 2 && digits_only(key.as_slice()) {
            let ghost had = out@;
            out.push((params[i].0.clone(), params[i].1.clone()));
            assert(text::string_pairs(out@) =~= text::string_pairs(had).push(all[i as int]));
        }
        i += 1;
    }
    assert(all.take(i as int) =~= all);
    out
}

/// The path form: `/<carrier-key>/linkset` is the linkset document, and
/// `/<carrier-key>` leads to the default link. Carrier keys are application
/// identifier paths (`01/09506000134352/21/X`) and GDS paths
/// (`g/6901234567892/AB2026111`). The keys of `params` are distinct.
pub fn path_entry(
    store: &Store,
    has_upstream: bool,
    path: &str,
    params: &[(String, String)],
    accept: Option<&str>,
    now: Timestamp,
) -> (r: Resolution)
    requires
        store.is_sound(),
    ensures
        r@ == path_resolution(
            store@.ledger,
            has_upstream,
            path@,
            text::string_pairs(params@),
            text::opt_str(accept),
            now.secs as int,
        ),
        r matches Resolution::Done(reply) ==> reply::tells(
            reply@,
            path_document(
                store@.ledger,
                path@,
                text::string_pairs(params@),
                text::opt_str(accept),
                now.secs as int,
            ),
        ),
{
    proof {
        reveal_strlit("/linkset");
    }
    let cs = chars_of(path);
    let mut n: usize = 0;
    assert(cs@.skip(0) =~= cs@);
    while n < cs.len() && cs[n] == '/'
        invariant
            n <= cs.len(),
            without_front_slashes(cs@) == without_front_slashes(cs@.skip(n as int)),
        decreases cs.len() - n,
    {
        assert(cs@.skip(n as int).skip(1) =~= cs@.skip(n + 1));
        n += 1;
    }
    let raw = after(cs.as_slice(), n);
    if raw.len() == 0 {
        return Resolution::Done(not_found());
    }
    let want_linkset = raw.len() >= 8 && is_text(after(raw, raw.len() - 8), "/linkset");
    let key_path = if want_linkset {
        before(raw, raw.len() - 8)
    } else {
        raw
    };
    let segments = match decode_segments(&split_at_each(key_path, '/')) {
        Some(s) => s,
        None => return Resolution::Done(not_found()),
    };
    let qualifiers = qualifier_params(params);
    let ctx = parse_context_params(params);
    let link_type = link_type_of(params);
    let asof = match parse_asof(params) {
        Ok(a) => a,
        Err(m) => return Resolution::Done(bad_request(m.as_str())),
    };
    match classify_path(segments.as_slice(), qualifiers.as_slice()) {
        CarrierLookup::Parsed(p) => resolve(
            store,
            has_upstream,
            &p.identifier,
            &ctx,
            accept,
            link_type.as_str(),
            asof,
            !want_linkset,
            now,
        ),
        CarrierLookup::Invalid => Resolution::Done(
            bad_request("invalid carrier (check digit / values)"),
        ),
        CarrierLookup::Unrecognized => Resolution::Done(not_found()),
    }
}

/// An optional text as a JSON value.
pub open spec fn text_or_null(o: Option<Seq<char>>) -> JsonValue {
    match o {
        Some(s) => JsonValue::Str(s),
        None => JsonValue::Null,
    }
}

/// What a carrier was normalized to.
pub open spec fn carrier_json(p: CarrierView, carrier: Seq<char>) -> JsonValue {
    JsonValue::Object(
        Map::empty().insert("carrier"@, JsonValue::Str(carrier)).insert(
            "kind"@,
            JsonValue::Str(carrier::kind_name(p.kind)),
        ).insert("origin"@, text_or_null(p.origin)).insert(
            "resolverBaseUrl"@,
            text_or_null(p.resolver_base_url),
        ).insert("identifier"@, identifier_json(p.identifier)),
    )
}

/// A normalized identifier.
pub open spec fn identifier_json(i: IdentifierView) -> JsonValue {
    JsonValue::Object(
        Map::empty().insert("scheme"@, JsonValue::Str(i.scheme)).insert(
            "value"@,
            JsonValue::Str(i.value),
        ).insert("granularity"@, JsonValue::Str(i.granularity)).insert(
            "key"@,
            JsonValue::Str(i.key()),
        ),
    )
}

fn carrier_parse_json(cp: &CarrierParse, carrier: &str) -> (r: Json)
    ensures
        r@ == carrier_json(cp@, carrier@),
        json::is_printable(r@, 127),
{
    broadcast use json::lemma_put_printable;

    proof {
        lemma_keys_are_plain();
    }

    let mut id: Vec<(String, Json)> = Vec::new();
    put_text(&mut id, "scheme", cp.identifier.scheme.as_str());
    put_text(&mut id, "value", cp.identifier.value.as_str());
    put_text(&mut id, "granularity", cp.identifier.granularity);
    put_text(&mut id, "key", cp.identifier.key().as_str());
    proof {
        let m = Map::<Seq<char>, JsonValue>::empty();
        assert(json::fields_printable(m, 125));
        assert(json::fields_printable(json::fields_model(id@), 125));
        assert(json::fields_printable(m, 126));
    }
    let mut f: Vec<(String, Json)> = Vec::new();
    put_text(&mut f, "carrier", carrier);
    put_text(&mut f, "kind", cp.kind.as_str());
    let origin = match cp.origin {
        Some(s) => Json::text(s),
        None => Json::Null,
    };
    put(&mut f, "origin", origin);
    let base = match &cp.resolver_base_url {
        Some(s) => Json::text(s.as_str()),
        None => Json::Null,
    };
    put(&mut f, "resolverBaseUrl", base);
    put(&mut f, "identifier", Json::Object(id));
    assert(json::fields_printable(json::fields_model(f@), 126));
    Json::Object(f)
}

/// The reply to a request to normalize the carrier that a body names.
pub open spec fn normalize_reply(j: JsonValue) -> ReplyView {
    match json::string_in(json::field(j, "carrier"@)) {
        None => reply::bad_request_reply("`carrier` is required"@),
        Some(c) => match carrier::carrier_class(c) {
            LookupView::Parsed(p) => reply::json_reply(200, json::json_compact(carrier_json(p, c))),
            LookupView::Invalid => reply::bad_request_reply("invalid carrier (check digit / values)"@),
            LookupView::Unrecognized => reply::bad_request_reply("unrecognized carrier"@),
        },
    }
}

/// The document in the reply to a request to normalize.
pub open spec fn normalize_document(j: JsonValue) -> JsonValue {
    match json::string_in(json::field(j, "carrier"@)) {
        None => reply::error_json("`carrier` is required"@),
        Some(c) => match carrier::carrier_class(c) {
            LookupView::Parsed(p) => carrier_json(p, c),
            LookupView::Invalid => reply::error_json("invalid carrier (check digit / values)"@),
            LookupView::Unrecognized => reply::error_json("unrecognized carrier"@),
        },
    }
}

/// A body that must be JSON, or what is wrong with it.
pub open spec fn json_body(body: Seq<char>) -> Result<JsonValue, Seq<char>> {
    match json::json_parse(body) {
        Ok(j) => Ok(j),
        Err(m) => Err("invalid JSON body: "@ + m),
    }
}

/// Read a body that must be JSON.
pub fn parse_json_body(body: &str) -> (r: Result<Json, String>)
    ensures
        json::parsed(r) == json_body(body@),
{
    match parse_json(body) {
        Ok(j) => Ok(j),
        Err(m) => {
            let mut s = String::new();
            s.push_str("invalid JSON body: ");
            s.push_str(m.as_str());
            assert(s@ =~= "invalid JSON body: "@ + m@);
            Err(s)
        },
    }
}

/// Normalize the carrier that a JSON value names.
pub fn normalize_value(v: &Json) -> (r: Reply)
    ensures
        r@ == normalize_reply(v@),
        reply::tells(r@, Some(normalize_document(v@))),
{
    let carrier = match v.str_field("carrier") {
        Some(c) => c,
        None => return bad_request("`carrier` is required"),
    };
    match classify_carrier(carrier) {
        CarrierLookup::Parsed(p) => compact_reply(200, &carrier_parse_json(&p, carrier)),
        CarrierLookup::Invalid => bad_request("invalid carrier (check digit / values)"),
        CarrierLookup::Unrecognized => bad_request("unrecognized carrier"),
    }
}

/// Normalize the carrier that a body names.
pub fn normalize(body: &str) -> (r: Reply)
    ensures
        match json_body(body@) {
            Ok(j) => r@ == normalize_reply(j) && reply::tells(r@, Some(normalize_document(j))),
            Err(m) => r@ == reply::bad_request_reply(m) && reply::tells(r@, Some(reply::error_json(m))),
        },
{
    match parse_json_body(body) {
        Ok(v) => normalize_value(&v),
        Err(m) => bad_request(m.as_str()),
    }
}

/// The reply that says that the resolver runs.
pub fn healthz() -> (r: Reply)
    ensures
        r@ == (ReplyView { status: 200, headers: Seq::empty(), body: "ok"@ }),
{
    let headers: Vec<(String, String)> = Vec::new();
    assert(text::string_pairs(headers@) =~= Seq::empty());
    Reply { status: 200, headers, body: "ok".to_string() }
}

// ---------------------------------------------------------------------------
// Laws
// ---------------------------------------------------------------------------

/// What is dark cannot be told from what is unknown or empty: the replies are
/// the same, byte for byte, whatever is asked of either and however.
pub proof fn law_dark_is_like_unknown(
    dark: LedgerView,
    dark_ident: IdentifierView,
    dark_upstream: bool,
    unknown: LedgerView,
    unknown_ident: IdentifierView,
    ctx: ContextView,
    accept: Option<Seq<char>>,
    link_type: Seq<char>,
    asof: Option<int>,
    redirect: bool,
    now: int,
)
    requires
        store::answer(dark, dark_ident.key(), instant_asked(asof, now)) == AnswerView::Dark,
        ({
            let t = instant_asked(asof, now);
            let found = store::answer(unknown, unknown_ident.key(), t);
            &&& found == AnswerView::Absent || found == AnswerView::KnownEmpty
            &&& store::rotation_at(unknown, unknown_ident.key(), t) is None
            &&& store::claims_at(unknown, unknown_ident.key(), t).len() == 0
        }),
    ensures
        resolution(
            dark,
            dark_upstream,
            dark_ident,
            ctx,
            accept,
            link_type,
            asof,
            redirect,
            now,
        ) == ResolutionView::Done(reply::not_found_reply()),
        resolution(
            unknown,
            false,
            unknown_ident,
            ctx,
            accept,
            link_type,
            asof,
            redirect,
            now,
        ) == ResolutionView::Done(reply::not_found_reply()),
{
}

/// What is known here is answered here: an upstream changes nothing, and
/// neither a dark nor an empty identifier ever reaches it.
pub proof fn law_local_takes_precedence(
    l: LedgerView,
    ident: IdentifierView,
    ctx: ContextView,
    accept: Option<Seq<char>>,
    link_type: Seq<char>,
    asof: Option<int>,
    redirect: bool,
    now: int,
)
    requires
        l.ids.contains_key(ident.key()),
    ensures
        resolution(l, true, ident, ctx, accept, link_type, asof, redirect, now) == resolution(
            l,
            false,
            ident,
            ctx,
            accept,
            link_type,
            asof,
            redirect,
            now,
        ),
        resolution(l, true, ident, ctx, accept, link_type, asof, redirect, now) is Done,
{
}

/// A context that is asked for outranks the `Accept` header.
pub proof fn law_explicit_context_outranks_accept(
    l: LedgerView,
    has_upstream: bool,
    ident: IdentifierView,
    ctx: ContextView,
    accept: Option<Seq<char>>,
    link_type: Seq<char>,
    asof: Option<int>,
    redirect: bool,
    now: int,
)
    requires
        !ctx.is_empty(),
    ensures
        resolution(l, has_upstream, ident, ctx, accept, link_type, asof, redirect, now)
            == resolution(l, has_upstream, ident, ctx, None, link_type, asof, redirect, now),
{
}

/// A context that is negotiated routes like one that is asked for.
pub proof fn law_negotiated_context_routes_alike(
    l: LedgerView,
    has_upstream: bool,
    ident: IdentifierView,
    accept: Seq<char>,
    link_type: Seq<char>,
    asof: Option<int>,
    redirect: bool,
    now: int,
)
    requires
        negotiate::negotiated(accept) is Some,
    ensures
        resolution(
            l,
            has_upstream,
            ident,
            context::no_preference(),
            Some(accept),
            link_type,
            asof,
            redirect,
            now,
        ) == resolution(
            l,
            has_upstream,
            ident,
            negotiate::negotiated(accept)->0,
            None,
            link_type,
            asof,
            redirect,
            now,
        ),
{
}

/// Every reply that is not the one without information names the instant that
/// the request speaks of: the one asked for, or else now.
pub proof fn law_resolutions_are_stamped(
    l: LedgerView,
    has_upstream: bool,
    ident: IdentifierView,
    ctx: ContextView,
    accept: Option<Seq<char>>,
    link_type: Seq<char>,
    asof: Option<int>,
    redirect: bool,
    now: int,
)
    ensures
        resolution(l, has_upstream, ident, ctx, accept, link_type, asof, redirect, now) matches
            ResolutionView::Done(reply) ==> reply == reply::not_found_reply() || reply.headers.contains(
            ("x-as-of"@, time::stamp(instant_asked(asof, now))),
        ),
{
    let t = instant_asked(asof, now);
    let rotation = store::rotation_at(l, ident.key(), t);
    let claims = store::claims_at(l, ident.key(), t);
    let at = StampView { at: t, cache: None };
    let entries = match store::answer(l, ident.key(), t) {
        AnswerView::Resolved(entries) => entries,
        _ => Seq::empty(),
    };
    render::law_replies_are_stamped(
        ident.value,
        entries,
        routing_context(ctx, accept),
        link_type,
        at,
        rotation,
        claims,
    );
}

/// A question as of an instant does not depend on the time it is asked at.
pub proof fn law_as_of_is_independent_of_now(
    l: LedgerView,
    has_upstream: bool,
    ident: IdentifierView,
    ctx: ContextView,
    accept: Option<Seq<char>>,
    link_type: Seq<char>,
    t: int,
    redirect: bool,
    now: int,
    later: int,
)
    ensures
        resolution(l, has_upstream, ident, ctx, accept, link_type, Some(t), redirect, now)
            == resolution(
            l,
            has_upstream,
            ident,
            ctx,
            accept,
            link_type,
            Some(t),
            redirect,
            later,
        ),
{
}

/// The parameters by which an intermediary asks for all links of an identifier.
pub open spec fn intermediary_params(key: Seq<char>) -> Seq<(Seq<char>, Seq<char>)> {
    seq![("identifier"@, key), ("linkType"@, "all"@)]
}

proof fn lemma_lookup_of_two(pairs: Seq<(Seq<char>, Seq<char>)>)
    requires
        pairs.len() == 2,
    ensures
        forall|k: Seq<char>| #[trigger]
            gs1dl::lookup(pairs, k) == (if pairs[0].0 == k {
                Some(pairs[0].1)
            } else if pairs[1].0 == k {
                Some(pairs[1].1)
            } else {
                None
            }),
{
    assert forall|k: Seq<char>| #[trigger] gs1dl::lookup(pairs, k) == (if pairs[0].0 == k {
        Some(pairs[0].1)
    } else if pairs[1].0 == k {
        Some(pairs[1].1)
    } else {
        None
    }) by {
        reveal_with_fuel(gs1dl::lookup, 3);
        assert(pairs.skip(1)[0] == pairs[1]);
        assert(pairs.skip(1).skip(1).len() == 0);
    }
}

proof fn lemma_intermediary_params(key: Seq<char>)
    ensures
        ({
            let params = intermediary_params(key);
            &&& query_subject(params) == carrier::identifier_of(key)
            &&& asof_param(params) == Ok::<Option<int>, Seq<char>>(None)
            &&& context_params(params) == context::no_preference()
            &&& link_type_param(params) == "all"@
        }),
{
    reveal_strlit("identifier");
    reveal_strlit("carrier");
    reveal_strlit("linkType");
    reveal_strlit("asof");
    reveal_strlit("profile");
    reveal_strlit("role");
    reveal_strlit("lang");
    reveal_strlit("region");
    reveal_strlit("all");
    lemma_lookup_of_two(intermediary_params(key));
    assert("identifier"@.len() == 10 && "linkType"@.len() == 8);
    text::lemma_trim_tight("all"@);
}

/// One resolver feeds another: asked by an intermediary for all links of an
/// identifier, a resolver replies with a text that the intermediary reads as
/// the entries in force there, in their order and apart from their ids. `body`
/// is any text that reads as the document in that reply.
pub proof fn law_links_reach_an_intermediary(
    l: LedgerView,
    ident: IdentifierView,
    entries: Seq<EntryView>,
    body: Seq<char>,
    now: int,
    fetched_at: int,
)
    requires
        carrier::identifier_of(ident.key()) == Ok::<IdentifierView, Seq<char>>(ident),
        store::answer(l, ident.key(), now) == AnswerView::Resolved(entries),
        forall|i: int| 0 <= i < entries.len() ==> linkset::is_linkable(#[trigger] entries[i]),
        query_document(l, intermediary_params(ident.key()), None, now) matches Some(d) ==> json::reads_as(
            body,
            d,
        ),
    ensures
        query_document(l, intermediary_params(ident.key()), None, now) is Some,
        query_resolution(l, false, intermediary_params(ident.key()), None, now) matches
            ResolutionView::Done(reply) && reply.status == 200,
        proxy::upstream_outcome(200, body, fetched_at) == OutcomeView::Entries(
            entries.map_values(|e: EntryView| e.with_id(0)),
        ),
{
    lemma_intermediary_params(ident.key());
    proxy::law_upstream_links_come_through(
        body,
        ident.value,
        entries,
        store::rotation_at(l, ident.key(), now),
        store::claims_at(l, ident.key(), now),
        fetched_at,
    );
}

} // verus!
