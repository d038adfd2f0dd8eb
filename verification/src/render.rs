//! From the entries in force to a reply: which links are listed and in which
//! order, which one is the default, and what the headers say.

use vstd::prelude::*;

use crate::context;
use crate::context::{ContextView, RequestContext, holds_text, rank, score_entry, select_ordered};
use crate::entry;
use crate::entry::{EntryView, LinkEntry};
use crate::json;
use crate::json::{Json, JsonValue, print_compact, put_text};
use crate::linkset;
use crate::linkset::{emit_document_full, put_claims, put_rotation};
use crate::reply;
use crate::reply::{Reply, ReplyView, not_found};
use crate::store;
use crate::store::{Correlation, CorrelationView, Supersession, SupersessionView};
use crate::text;
use crate::text::same_text;
use crate::time;
use crate::time::Timestamp;

verus! {

/// The instant a reply speaks of: where it was computed, or when the cached
/// answer was fetched.
pub enum Stamp {
    Local(Timestamp),
    Cached { fetched_at: Timestamp, cache: &'static str },
}

/// What a [`Stamp`] stands for: the instant, and how the cache took part.
#[verifier::ext_equal]
pub struct StampView {
    pub at: int,
    pub cache: Option<Seq<char>>,
}

impl View for Stamp {
    type V = StampView;

    open spec fn view(&self) -> StampView {
        match *self {
            Stamp::Local(t) => StampView { at: t.secs as int, cache: None },
            Stamp::Cached { fetched_at, cache } => StampView {
                at: fetched_at.secs as int,
                cache: Some(cache@),
            },
        }
    }
}

fn stamp_value(s: &Stamp) -> (r: (Timestamp, Option<&'static str>))
    ensures
        s@ == (StampView { at: r.0.secs as int, cache: text::opt_str(r.1) }),
{
    match s {
        Stamp::Local(t) => (*t, None),
        Stamp::Cached { fetched_at, cache } => (*fetched_at, Some(*cache)),
    }
}

// ---------------------------------------------------------------------------
// Which links, in which order
// ---------------------------------------------------------------------------

/// The link type that asks for every link.
pub open spec fn is_all(link_type: Seq<char>) -> bool {
    link_type == "all"@
}

/// The entries of the link type that is asked for.
pub open spec fn of_type(entries: Seq<EntryView>, link_type: Seq<char>) -> Seq<EntryView> {
    if is_all(link_type) {
        entries
    } else {
        entries.filter(|e: EntryView| e.link_type == link_type)
    }
}

/// The score of each entry under its own link type.
pub open spec fn own_scores(entries: Seq<EntryView>, ctx: ContextView) -> Seq<Option<u32>> {
    entries.map_values(|e: EntryView| context::score(e.routing(), ctx, e.link_type))
}

/// The links of a reply: without a context all of the type that is asked for,
/// in the order of registration; with one those that match, best first.
pub open spec fn listed(entries: Seq<EntryView>, ctx: ContextView, link_type: Seq<char>) -> Seq<
    EntryView,
> {
    let wanted = of_type(entries, link_type);
    if ctx.is_empty() {
        wanted
    } else {
        context::ranking(own_scores(wanted, ctx)).map_values(|i: int| wanted[i])
    }
}

/// The link type of the default link.
pub open spec fn default_type(link_type: Seq<char>) -> Seq<char> {
    if is_all(link_type) {
        "dpp"@
    } else {
        link_type
    }
}

/// The default link: the best match, and without a context the most specific
/// destination; of equal ones the one registered first.
pub open spec fn default_link(entries: Seq<EntryView>, ctx: ContextView, link_type: Seq<char>) -> Option<
    EntryView,
> {
    let s = context::selection(entries, ctx, default_type(link_type));
    if s.len() == 0 {
        None
    } else {
        Some(s[0].0)
    }
}

/// What a reply shows of a list of entries.
struct LinkView {
    ordered: Vec<LinkEntry>,
    default_link: Option<(String, String)>,
}

fn entries_of_type(entries: &[LinkEntry], link_type: &str) -> (r: Vec<LinkEntry>)
    ensures
        entry::entry_views(r@) == of_type(entry::entry_views(entries@), link_type@),
{
    let everything = same_text(link_type, "all");
    let ghost all = entry::entry_views(entries@);
    let ghost p = |e: EntryView| e.link_type == link_type@;
    let mut out: Vec<LinkEntry> = Vec::new();
    let mut i: usize = 0;
    proof {
        reveal(Seq::filter);
        assert(all.take(0).filter(p) =~= Seq::empty());
        assert(all.take(0) =~= Seq::empty());
        assert(entry::entry_views(out@) =~= Seq::empty());
    }
    while i < entries.len()
        invariant
            i <= entries.len(),
            all == entry::entry_views(entries@),
            p == (|e: EntryView| e.link_type == link_type@),
            everything == is_all(link_type@),
            entry::entry_views(out@) == (if everything {
                all.take(i as int)
            } else {
                all.take(i as int).filter(p)
            }),
        decreases entries.len() - i,
    {
        proof {
            reveal(Seq::filter);
            assert(all.take(i + 1).drop_last() =~= all.take(i as int));
            assert(all.take(i + 1).last() == entries@[i as int]@);
            assert(all.take(i + 1) =~= all.take(i as int).push(all[i as int]));
        }
        if everything || same_text(entries[i].link_type.as_str(), link_type) {
            let kept = entries[i].clone();
            let ghost had = out@;
            out.push(kept);
            assert(entry::entry_views(out@) =~= entry::entry_views(had).push(kept@));
        }
        i += 1;
    }
    assert(all.take(i as int) =~= all);
    out
}

fn by_own_score(wanted: &Vec<LinkEntry>, ctx: &RequestContext) -> (r: Vec<LinkEntry>)
    ensures
        entry::entry_views(r@) == context::ranking(own_scores(entry::entry_views(wanted@), ctx@)).map_values(
            |i: int| entry::entry_views(wanted@)[i],
        ),
{
    let ghost views = entry::entry_views(wanted@);
    let ghost want = own_scores(views, ctx@);
    let mut scores: Vec<Option<u32>> = Vec::new();
    let mut i: usize = 0;
    while i < wanted.len()
        invariant
            i <= wanted.len(),
            views == entry::entry_views(wanted@),
            want == own_scores(views, ctx@),
            scores@ == want.take(i as int),
        decreases wanted.len() - i,
    {
        let s = score_entry(&wanted[i].routing(), ctx, wanted[i].link_type.as_str());
        assert(views[i as int] == wanted@[i as int]@);
        scores.push(s);
        i += 1;
        assert(scores@ =~= want.take(i as int));
    }
    assert(scores@ =~= want);
    let order = rank(&scores);
    let ghost places = order@.map_values(|i: usize| i as int);
    let ghost f = |i: int| views[i];
    let mut out: Vec<LinkEntry> = Vec::new();
    let mut i: usize = 0;
    while i < order.len()
        invariant
            i <= order.len(),
            views == entry::entry_views(wanted@),
            scores@.len() == wanted@.len(),
            places == order@.map_values(|i: usize| i as int),
            forall|k: int| 0 <= k < order@.len() ==> #[trigger] order@[k] < scores@.len(),
            f == (|i: int| views[i]),
            entry::entry_views(out@) == places.take(i as int).map_values(f),
        decreases order.len() - i,
    {
        let k: usize = order[i];
        let e = wanted[k].clone();
        let ghost had = out@;
        out.push(e);
        i += 1;
        proof {
            assert(views[k as int] == wanted@[k as int]@);
            assert(places[i - 1] == k as int);
            assert(entry::entry_views(out@) =~= entry::entry_views(had).push(e@));
            assert(places.take(i as int) =~= places.take(i - 1).push(k as int));
            assert(places.take(i as int).map_values(f) =~= places.take(i - 1).map_values(f).push(
                f(k as int),
            ));
        }
    }
    assert(places.take(i as int) =~= places);
    assert(f =~= (|i: int| entry::entry_views(wanted@)[i]));
    out
}

/// The target and the link type of the default link.
pub open spec fn target_of(e: Option<EntryView>) -> Option<(Seq<char>, Seq<char>)> {
    match e {
        Some(e) => Some((e.href, e.link_type)),
        None => None,
    }
}

fn build_view(entries: &[LinkEntry], ctx: &RequestContext, link_type: &str) -> (r: LinkView)
    ensures
        entry::entry_views(r.ordered@) == listed(entry::entry_views(entries@), ctx@, link_type@),
        (match r.default_link {
            Some(p) => Some((p.0@, p.1@)),
            None => None,
        }) == target_of(default_link(entry::entry_views(entries@), ctx@, link_type@)),
{
    let wanted = entries_of_type(entries, link_type);
    let ordered = if ctx.is_empty() {
        wanted
    } else {
        by_own_score(&wanted, ctx)
    };
    let default_rel = if same_text(link_type, "all") {
        "dpp"
    } else {
        link_type
    };
    let chosen = select_ordered(entries, ctx, default_rel);
    let default_link = if chosen.len() > 0 {
        assert(context::scored_views(chosen@)[0] == (chosen@[0].entry@, chosen@[0].score));
        Some((chosen[0].entry.href.clone(), chosen[0].entry.link_type.clone()))
    } else {
        None
    };
    LinkView { ordered, default_link }
}

// ---------------------------------------------------------------------------
// Headers
// ---------------------------------------------------------------------------

/// Texts without repetition, in the order of their first appearance.
pub open spec fn distinct(v: Seq<Seq<char>>) -> Seq<Seq<char>>
    decreases v.len(),
{
    if v.len() == 0 {
        Seq::empty()
    } else {
        let before = distinct(v.drop_last());
        if before.contains(v.last()) {
            before
        } else {
            before.push(v.last())
        }
    }
}

/// Texts with a comma and a space between them.
pub open spec fn comma_list(v: Seq<Seq<char>>) -> Seq<char>
    decreases v.len(),
{
    if v.len() == 0 {
        Seq::empty()
    } else if v.len() == 1 {
        v[0]
    } else {
        comma_list(v.drop_last()) + ", "@ + v.last()
    }
}

/// The counterparts that claims speak of, each once.
pub open spec fn counterparts(claims: Seq<CorrelationView>) -> Seq<Seq<char>> {
    distinct(claims.map_values(|c: CorrelationView| c.other))
}

/// The headers with one more, where there is a value for it.
pub open spec fn with_header(
    headers: Seq<(Seq<char>, Seq<char>)>,
    name: Seq<char>,
    value: Option<Seq<char>>,
) -> Seq<(Seq<char>, Seq<char>)> {
    match value {
        Some(v) => headers.push((name, v)),
        None => headers,
    }
}

/// The headers with what is stated of the identity: its successor, its
/// counterparts, and the part of the cache.
pub open spec fn with_statements(
    headers: Seq<(Seq<char>, Seq<char>)>,
    rotation: Option<SupersessionView>,
    claims: Seq<CorrelationView>,
    cache: Option<Seq<char>>,
) -> Seq<(Seq<char>, Seq<char>)> {
    let successor = match rotation {
        Some(s) => Some(s.successor),
        None => None,
    };
    let others = if claims.len() == 0 {
        None
    } else {
        Some(comma_list(counterparts(claims)))
    };
    with_header(
        with_header(
            with_header(headers, "x-unidpp-superseded-by"@, successor),
            "x-unidpp-correlated-with"@,
            others,
        ),
        "x-cache"@,
        cache,
    )
}

/// The value of the `Link` header.
pub open spec fn link_header(target: (Seq<char>, Seq<char>)) -> Seq<char> {
    "<"@ + target.0 + ">; rel=\""@ + target.1 + "\""@
}

/// The headers of a linkset document.
pub open spec fn linkset_headers(
    entries: Seq<EntryView>,
    ctx: ContextView,
    link_type: Seq<char>,
    at: StampView,
    rotation: Option<SupersessionView>,
    claims: Seq<CorrelationView>,
) -> Seq<(Seq<char>, Seq<char>)> {
    let first = seq![
        ("content-type"@, "application/linkset+json"@),
        ("x-as-of"@, time::stamp(at.at)),
    ];
    let context = if ctx.is_empty() {
        None
    } else {
        Some(ctx.key())
    };
    let link = if is_all(link_type) {
        None
    } else {
        match target_of(default_link(entries, ctx, link_type)) {
            Some(t) => Some(link_header(t)),
            None => None,
        }
    };
    with_header(
        with_header(
            with_statements(first, rotation, claims, at.cache),
            "x-unidpp-context"@,
            context,
        ),
        "link"@,
        link,
    )
}

/// The linkset document as a reply.
pub open spec fn linkset_reply(
    anchor: Seq<char>,
    entries: Seq<EntryView>,
    ctx: ContextView,
    link_type: Seq<char>,
    at: StampView,
    rotation: Option<SupersessionView>,
    claims: Seq<CorrelationView>,
) -> ReplyView {
    ReplyView {
        status: 200,
        headers: linkset_headers(entries, ctx, link_type, at, rotation, claims),
        body: json::json_pretty(linkset::document_json(anchor, listed(entries, ctx, link_type), rotation, claims)),
    }
}

/// The way to the default link as a reply; nothing where there is none.
pub open spec fn redirect_reply(
    entries: Seq<EntryView>,
    ctx: ContextView,
    link_type: Seq<char>,
    at: StampView,
    rotation: Option<SupersessionView>,
    claims: Seq<CorrelationView>,
) -> ReplyView {
    match default_link(entries, ctx, link_type) {
        None => reply::not_found_reply(),
        Some(e) => ReplyView {
            status: 303,
            headers: with_statements(
                seq![("location"@, e.href), ("x-as-of"@, time::stamp(at.at))],
                rotation,
                claims,
                at.cache,
            ),
            body: Seq::empty(),
        },
    }
}

/// The body that states where an identity went and what it correlates with,
/// though it has no links.
pub open spec fn stated_absence_json(
    rotation: Option<SupersessionView>,
    claims: Seq<CorrelationView>,
) -> JsonValue {
    JsonValue::Object(
        linkset::with_claims(
            linkset::with_rotation(
                Map::empty().insert("error"@, JsonValue::Str("not found"@)),
                rotation,
            ),
            claims,
        ),
    )
}

/// The reply for an identity without links at an instant: the one that gives no
/// information, or what is stated of the identity, with the instant.
pub open spec fn absence_reply(
    rotation: Option<SupersessionView>,
    claims: Seq<CorrelationView>,
    at: int,
) -> ReplyView {
    if rotation is None && claims.len() == 0 {
        reply::not_found_reply()
    } else {
        ReplyView {
            status: 404,
            headers: seq![
                ("content-type"@, "application/json"@),
                ("x-as-of"@, time::stamp(at)),
            ],
            body: json::json_compact(stated_absence_json(rotation, claims)),
        }
    }
}

fn push_header(headers: &mut Vec<(String, String)>, name: &str, value: &str)
    ensures
        text::string_pairs(final(headers)@) == text::string_pairs(old(headers)@).push((name@, value@)),
{
    let ghost had = headers@;
    headers.push((name.to_string(), value.to_string()));
    assert(text::string_pairs(headers@) =~= text::string_pairs(had).push((name@, value@)));
}

/// The distinct counterparts of the claims, in the order in which they first
/// appear: several claims about one counterpart are one header entry.
fn distinct_others(correlations: &[Correlation]) -> (r: String)
    ensures
        r@ == comma_list(counterparts(store::correlation_views(correlations@))),
{
    let ghost all = store::correlation_views(correlations@).map_values(|c: CorrelationView| c.other);
    let mut seen: Vec<String> = Vec::new();
    let mut i: usize = 0;
    assert(all.take(0) =~= Seq::empty());
    assert(text::strings(seen@) =~= Seq::empty());
    while i < correlations.len()
        invariant
            i <= correlations.len(),
            all == store::correlation_views(correlations@).map_values(|c: CorrelationView| c.other),
            text::strings(seen@) == distinct(all.take(i as int)),
        decreases correlations.len() - i,
    {
        assert(all.take(i + 1).drop_last() =~= all.take(i as int));
        assert(all.take(i + 1).last() == correlations@[i as int].other@);
        if !holds_text(seen.as_slice(), correlations[i].other.as_str()) {
            let s = correlations[i].other.clone();
            let ghost had = seen@;
            seen.push(s);
            assert(text::strings(seen@) =~= text::strings(had).push(s@));
        }
        i += 1;
    }
    assert(all.take(i as int) =~= all);
    let ghost names = text::strings(seen@);
    let mut out = String::new();
    let mut i: usize = 0;
    assert(names.take(0) =~= Seq::empty());
    assert(out@ =~= Seq::empty());
    while i < seen.len()
        invariant
            i <= seen.len(),
            names == text::strings(seen@),
            out@ == comma_list(names.take(i as int)),
        decreases seen.len() - i,
    {
        assert(names.take(i + 1).drop_last() =~= names.take(i as int));
        assert(names.take(i + 1).last() == seen@[i as int]@);
        if i > 0 {
            out.push_str(", ");
        }
        out.push_str(seen[i].as_str());
        i += 1;
        assert(out@ =~= comma_list(names.take(i as int)));
    }
    assert(names.take(i as int) =~= names);
    out
}

fn push_statements(
    headers: &mut Vec<(String, String)>,
    supersession: Option<&Supersession>,
    correlations: &[Correlation],
    cache: Option<&'static str>,
)
    ensures
        text::string_pairs(final(headers)@) == with_statements(
            text::string_pairs(old(headers)@),
            linkset::rotation_view(supersession),
            store::correlation_views(correlations@),
            text::opt_str(cache),
        ),
{
    if let Some(s) = supersession {
        push_header(headers, "x-unidpp-superseded-by", s.successor.as_str());
    }
    if correlations.len() > 0 {
        push_header(headers, "x-unidpp-correlated-with", distinct_others(correlations).as_str());
    }
    if let Some(c) = cache {
        push_header(headers, "x-cache", c);
    }
}

/// The references to a list of entries.
fn borrowed(v: &Vec<LinkEntry>) -> (r: Vec<&LinkEntry>)
    ensures
        linkset::borrowed_views(r@) == entry::entry_views(v@),
{
    let mut out: Vec<&LinkEntry> = Vec::new();
    let mut i: usize = 0;
    while i < v.len()
        invariant
            i <= v.len(),
            linkset::borrowed_views(out@) == entry::entry_views(v@).take(i as int),
        decreases v.len() - i,
    {
        let ghost had = out@;
        out.push(&v[i]);
        i += 1;
        assert(linkset::borrowed_views(out@) =~= linkset::borrowed_views(had).push(v@[i - 1]@));
        assert(entry::entry_views(v@).take(i as int) =~= entry::entry_views(v@).take(i - 1).push(v@[i - 1]@));
    }
    assert(entry::entry_views(v@).take(i as int) =~= entry::entry_views(v@));
    out
}

/// Reply with the linkset document.
pub fn render_linkset_response(
    anchor: &str,
    entries: &[LinkEntry],
    ctx: &RequestContext,
    link_type: &str,
    stamp: Stamp,
    supersession: Option<&Supersession>,
    correlations: &[Correlation],
) -> (r: Reply)
    ensures
        r@ == linkset_reply(
            anchor@,
            entry::entry_views(entries@),
            ctx@,
            link_type@,
            stamp@,
            linkset::rotation_view(supersession),
            store::correlation_views(correlations@),
        ),
        json::reads_as(
            r@.body,
            linkset::document_json(
                anchor@,
                listed(entry::entry_views(entries@), ctx@, link_type@),
                linkset::rotation_view(supersession),
                store::correlation_views(correlations@),
            ),
        ),
{
    let view = build_view(entries, ctx, link_type);
    let value = stamp_value(&stamp);
    let mut headers: Vec<(String, String)> = Vec::new();
    push_header(&mut headers, "content-type", "application/linkset+json");
    push_header(&mut headers, "x-as-of", value.0.to_string().as_str());
    assert(text::string_pairs(headers@) =~= seq![
        ("content-type"@, "application/linkset+json"@),
        ("x-as-of"@, crate::time::stamp(stamp@.at)),
    ]);
    push_statements(&mut headers, supersession, correlations, value.1);
    if !ctx.is_empty() {
        push_header(&mut headers, "x-unidpp-context", ctx.context_key().as_str());
    }
    if !same_text(link_type, "all") {
        if let Some(target) = &view.default_link {
            let mut s = String::new();
            s.push_str("<");
            s.push_str(target.0.as_str());
            s.push_str(">; rel=\"");
            s.push_str(target.1.as_str());
            s.push_str("\"");
            assert(s@ =~= link_header((target.0@, target.1@)));
            push_header(&mut headers, "link", s.as_str());
        }
    }
    let list = borrowed(&view.ordered);
    let body = emit_document_full(anchor, list.as_slice(), supersession, correlations);
    Reply { status: 200, headers, body }
}

/// Reply with the way to the default link.
pub fn render_redirect(
    entries: &[LinkEntry],
    ctx: &RequestContext,
    link_type: &str,
    stamp: Stamp,
    supersession: Option<&Supersession>,
    correlations: &[Correlation],
) -> (r: Reply)
    ensures
        r@ == redirect_reply(
            entry::entry_views(entries@),
            ctx@,
            link_type@,
            stamp@,
            linkset::rotation_view(supersession),
            store::correlation_views(correlations@),
        ),
{
    let view = build_view(entries, ctx, link_type);
    let target = match view.default_link {
        Some(t) => t,
        None => return not_found(),
    };
    let value = stamp_value(&stamp);
    let mut headers: Vec<(String, String)> = Vec::new();
    push_header(&mut headers, "location", target.0.as_str());
    push_header(&mut headers, "x-as-of", value.0.to_string().as_str());
    assert(text::string_pairs(headers@) =~= seq![
        ("location"@, target.0@),
        ("x-as-of"@, crate::time::stamp(stamp@.at)),
    ]);
    push_statements(&mut headers, supersession, correlations, value.1);
    let body = String::new();
    assert(body@ =~= Seq::empty());
    Reply { status: 303, headers, body }
}

/// No key of the objects printed here begins with `$`.
proof fn lemma_keys_are_plain()
    ensures
        json::is_plain_key("error"@),
        json::is_plain_key("unidpp:superseded-by"@),
        json::is_plain_key("unidpp:superseded-effective-at"@),
        json::is_plain_key("unidpp:superseded-by-authority"@),
        json::is_plain_key("unidpp:supersession-reason"@),
        json::is_plain_key("unidpp:correlated-with"@),
{
    reveal_strlit("error");
    reveal_strlit("unidpp:superseded-by");
    reveal_strlit("unidpp:superseded-effective-at");
    reveal_strlit("unidpp:superseded-by-authority");
    reveal_strlit("unidpp:supersession-reason");
    reveal_strlit("unidpp:correlated-with");
}

/// The document in the reply for an identity without links.
pub open spec fn absence_document(
    rotation: Option<SupersessionView>,
    claims: Seq<CorrelationView>,
) -> Option<JsonValue> {
    if rotation is None && claims.len() == 0 {
        None
    } else {
        Some(stated_absence_json(rotation, claims))
    }
}

/// The reply for an identity without links at the instant `t`.
pub fn render_absence(
    supersession: Option<&Supersession>,
    correlations: &[Correlation],
    t: Timestamp,
) -> (r: Reply)
    ensures
        r@ == absence_reply(
            linkset::rotation_view(supersession),
            store::correlation_views(correlations@),
            t.secs as int,
        ),
        reply::tells(
            r@,
            absence_document(linkset::rotation_view(supersession), store::correlation_views(correlations@)),
        ),
{
    broadcast use json::lemma_put_printable;

    if supersession.is_none() && correlations.len() == 0 {
        return not_found();
    }
    let mut f: Vec<(String, Json)> = Vec::new();
    put_text(&mut f, "error", "not found");
    put_rotation(&mut f, supersession);
    put_claims(&mut f, correlations);
    let j = Json::Object(f);
    proof {
        lemma_keys_are_plain();
        let rotation = linkset::rotation_view(supersession);
        let claims = store::correlation_views(correlations@);
        linkset::lemma_claims_printable(claims, 126);
        let m = Map::<Seq<char>, JsonValue>::empty();
        assert(json::fields_printable(m, 126));
        let m = m.insert("error"@, JsonValue::Str("not found"@));
        assert(json::fields_printable(m, 126));
        assert(json::fields_printable(linkset::with_rotation(m, rotation), 126));
        assert(json::fields_printable(linkset::with_claims(linkset::with_rotation(m, rotation), claims), 126));
    }
    let mut headers: Vec<(String, String)> = Vec::new();
    push_header(&mut headers, "content-type", "application/json");
    push_header(&mut headers, "x-as-of", t.to_string().as_str());
    assert(text::string_pairs(headers@) =~= seq![
        ("content-type"@, "application/json"@),
        ("x-as-of"@, time::stamp(t.secs as int)),
    ]);
    Reply { status: 404, headers, body: print_compact(&j) }
}

// ---------------------------------------------------------------------------
// Laws
// ---------------------------------------------------------------------------

/// The default link is the best match there is, and of equal ones the one
/// registered first; there is none only where nothing matches.
pub proof fn law_default_link_is_the_best(
    entries: Seq<EntryView>,
    ctx: ContextView,
    link_type: Seq<char>,
)
    ensures
        ({
            let scores = context::scores_of(entries, ctx, default_type(link_type));
            match default_link(entries, ctx, link_type) {
                Some(e) => exists|i: int|
                    0 <= i < entries.len() && #[trigger] entries[i] == e && scores[i] is Some
                        && forall|j: int|
                        0 <= j < entries.len() && j != i && #[trigger] scores[j] is Some
                            ==> context::is_before(scores, i, j),
                None => forall|j: int| 0 <= j < entries.len() ==> #[trigger] scores[j] is None,
            }
        }),
{
    let scores = context::scores_of(entries, ctx, default_type(link_type));
    assert forall|k: int| 0 <= k < scores.len() && #[trigger] scores[k] is Some implies scores[k]->0
        <= 16 by {
        context::lemma_score_bounds(entries[k].routing(), ctx, default_type(link_type));
    }
    context::law_ranking_is_by_score_and_registration(scores);
    let order = context::ranking(scores);
    if order.len() > 0 {
        let i = order[0];
        assert(order.contains(i));
        assert(context::selection(entries, ctx, default_type(link_type))[0].0 == entries[i]);
        assert forall|j: int|
            0 <= j < entries.len() && j != i && #[trigger] scores[j] is Some implies context::is_before(
            scores,
            i,
            j,
        ) by {
            assert(order.contains(j));
            let k = choose|k: int| 0 <= k < order.len() && order[k] == j;
            assert(context::is_before(scores, order[0], order[k]));
        }
    } else {
        assert forall|j: int| 0 <= j < entries.len() implies #[trigger] scores[j] is None by {
            if scores[j] is Some {
                assert(order.contains(j));
            }
        }
    }
}

/// With a context the links that match are listed, all of them and no others,
/// and none before one with a higher score.
pub proof fn law_listing_is_best_first(
    entries: Seq<EntryView>,
    ctx: ContextView,
    link_type: Seq<char>,
)
    requires
        !ctx.is_empty(),
    ensures
        ({
            let wanted = of_type(entries, link_type);
            let scores = own_scores(wanted, ctx);
            let shown = listed(entries, ctx, link_type);
            &&& forall|i: int|
                0 <= i < wanted.len() && #[trigger] scores[i] is Some ==> shown.contains(wanted[i])
            &&& forall|k: int|
                0 <= k < shown.len() ==> context::score((#[trigger] shown[k]).routing(), ctx, shown[k].link_type)
                    is Some
            &&& forall|k: int, m: int|
                0 <= k < m < shown.len() ==> context::score(
                    (#[trigger] shown[k]).routing(),
                    ctx,
                    shown[k].link_type,
                )->0 >= context::score((#[trigger] shown[m]).routing(), ctx, shown[m].link_type)->0
        }),
{
    let wanted = of_type(entries, link_type);
    let scores = own_scores(wanted, ctx);
    let shown = listed(entries, ctx, link_type);
    let order = context::ranking(scores);
    assert forall|k: int| 0 <= k < scores.len() && #[trigger] scores[k] is Some implies scores[k]->0
        <= 16 by {
        context::lemma_score_bounds(wanted[k].routing(), ctx, wanted[k].link_type);
    }
    context::law_ranking_is_by_score_and_registration(scores);
    assert forall|k: int| 0 <= k < shown.len() implies 0 <= order[k] < wanted.len() && (
    #[trigger] shown[k]) == wanted[order[k]] && scores[order[k]] is Some by {
        assert(order.contains(order[k]));
    }
    assert forall|i: int| 0 <= i < wanted.len() && #[trigger] scores[i] is Some implies shown.contains(
        wanted[i],
    ) by {
        assert(order.contains(i));
        let k = choose|k: int| 0 <= k < order.len() && order[k] == i;
        assert(shown[k] == wanted[i]);
    }
    assert forall|k: int, m: int| 0 <= k < m < shown.len() implies context::score(
        (#[trigger] shown[k]).routing(),
        ctx,
        shown[k].link_type,
    )->0 >= context::score((#[trigger] shown[m]).routing(), ctx, shown[m].link_type)->0 by {
        assert(context::is_before(scores, order[k], order[m]));
        assert(shown[k] == wanted[order[k]] && shown[m] == wanted[order[m]]);
    }
}

/// Without a context, all links are listed as they were registered.
pub proof fn law_plain_listing_keeps_the_order(entries: Seq<EntryView>)
    ensures
        listed(entries, context::no_preference(), "all"@) == entries,
{
}

/// Every reply with links, every redirect, and every reply that states what
/// became of an identity without links names the instant that it speaks of.
pub proof fn law_replies_are_stamped(
    anchor: Seq<char>,
    entries: Seq<EntryView>,
    ctx: ContextView,
    link_type: Seq<char>,
    at: StampView,
    rotation: Option<SupersessionView>,
    claims: Seq<CorrelationView>,
)
    ensures
        linkset_reply(anchor, entries, ctx, link_type, at, rotation, claims).headers.contains(
            ("x-as-of"@, time::stamp(at.at)),
        ),
        default_link(entries, ctx, link_type) is Some ==> redirect_reply(
            entries,
            ctx,
            link_type,
            at,
            rotation,
            claims,
        ).headers.contains(("x-as-of"@, time::stamp(at.at))),
        rotation is Some || claims.len() > 0 ==> absence_reply(
            rotation,
            claims,
            at.at,
        ).headers.contains(("x-as-of"@, time::stamp(at.at))),
{
    let h = linkset_reply(anchor, entries, ctx, link_type, at, rotation, claims).headers;
    assert(h[1] == ("x-as-of"@, time::stamp(at.at)));
    if default_link(entries, ctx, link_type) is Some {
        let h = redirect_reply(entries, ctx, link_type, at, rotation, claims).headers;
        assert(h[1] == ("x-as-of"@, time::stamp(at.at)));
    }
    if rotation is Some || claims.len() > 0 {
        let h = absence_reply(rotation, claims, at.at).headers;
        assert(h[1] == ("x-as-of"@, time::stamp(at.at)));
    }
}

/// The default link is announced alike: the `Link` header of the document and
/// the target of the redirect are the same link.
pub proof fn law_default_link_is_announced(
    anchor: Seq<char>,
    entries: Seq<EntryView>,
    ctx: ContextView,
    link_type: Seq<char>,
    at: StampView,
    rotation: Option<SupersessionView>,
    claims: Seq<CorrelationView>,
)
    requires
        !is_all(link_type),
        default_link(entries, ctx, link_type) is Some,
    ensures
        ({
            let e = default_link(entries, ctx, link_type)->0;
            &&& linkset_reply(anchor, entries, ctx, link_type, at, rotation, claims).headers.last()
                == ("link"@, link_header((e.href, e.link_type)))
            &&& redirect_reply(entries, ctx, link_type, at, rotation, claims).status == 303
            &&& redirect_reply(entries, ctx, link_type, at, rotation, claims).headers[0] == (
                "location"@,
                e.href,
            )
        }),
{
}

} // verus!
