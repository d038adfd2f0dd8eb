//! What the answers of a resolver hold, stated by what was registered and what
//! was asked: which links are listed and in which order, which one is the
//! default, and what the headers of a reply say.

use vstd::prelude::*;

use crate::api;
use crate::api::ResolutionView;
use crate::carrier::IdentifierView;
use crate::context;
use crate::context::{ContextView, RoutingView};
use crate::entry::EntryView;
use crate::json;
use crate::json::JsonValue;
use crate::linkset;
use crate::negotiate;
use crate::proxy;
use crate::proxy::{OutcomeView, PlanView, RequestView};
use crate::render;
use crate::render::StampView;
use crate::reply::ReplyView;
use crate::store;
use crate::store::{AnswerView, CacheView, CorrelationView, LedgerView, SupersessionView};
use crate::text;
use crate::text_laws;
use crate::time;

verus! {

// ---------------------------------------------------------------------------
// Which links
// ---------------------------------------------------------------------------

/// The points of an entry under a request context for links of a type.
pub open spec fn points_of(e: EntryView, ctx: ContextView, link_type: Seq<char>) -> Option<u32> {
    context::score(
        RoutingView {
            link_type: e.link_type,
            profile: e.profile,
            role: e.role,
            language: e.languages,
            region: e.region,
        },
        ctx,
        link_type,
    )
}

/// No dimension was asked for.
pub open spec fn asks_nothing(ctx: ContextView) -> bool {
    ctx == (ContextView { profile: None, role: None, language: None, region: None })
}

/// An entry is among the links asked for: of the type asked for, or of any for
/// `all`, and fitting the context if there is one.
pub open spec fn is_asked_for(e: EntryView, ctx: ContextView, link_type: Seq<char>) -> bool {
    &&& link_type == "all"@ || e.link_type == link_type
    &&& asks_nothing(ctx) || points_of(e, ctx, e.link_type) is Some
}

/// An entry at one place is listed before an entry at another: by more points
/// where there is a context, and else by its registration.
pub open spec fn goes_before(entries: Seq<EntryView>, ctx: ContextView, a: int, b: int) -> bool {
    let p = points_of(entries[a], ctx, entries[a].link_type);
    let q = points_of(entries[b], ctx, entries[b].link_type);
    if asks_nothing(ctx) || p == q {
        a < b
    } else {
        p->0 > q->0
    }
}

/// The places of the links asked for, each once, in the order of listing.
pub open spec fn are_listed(
    entries: Seq<EntryView>,
    ctx: ContextView,
    link_type: Seq<char>,
    places: Seq<int>,
) -> bool {
    &&& forall|k: int|
        0 <= k < places.len() ==> 0 <= #[trigger] places[k] < entries.len() && is_asked_for(
            entries[places[k]],
            ctx,
            link_type,
        )
    &&& forall|i: int|
        0 <= i < entries.len() && is_asked_for(#[trigger] entries[i], ctx, link_type)
            ==> places.contains(i)
    &&& forall|k: int, m: int|
        0 <= k < m < places.len() ==> goes_before(
            entries,
            ctx,
            #[trigger] places[k],
            #[trigger] places[m],
        )
}

proof fn lemma_wanted_places(entries: Seq<EntryView>, link_type: Seq<char>) -> (places: Seq<int>)
    ensures
        render::of_type(entries, link_type) == Seq::new(places.len(), |k: int| entries[places[k]]),
        forall|k: int|
            0 <= k < places.len() ==> 0 <= #[trigger] places[k] < entries.len() && (link_type
                == "all"@ || entries[places[k]].link_type == link_type),
        forall|i: int|
            0 <= i < entries.len() && (link_type == "all"@ || (
            #[trigger] entries[i]).link_type == link_type) ==> places.contains(i),
        forall|k: int, m: int|
            0 <= k < m < places.len() ==> #[trigger] places[k] < #[trigger] places[m],
{
    if link_type == "all"@ {
        let places = Seq::new(entries.len(), |k: int| k);
        assert(entries =~= Seq::new(places.len(), |k: int| entries[places[k]]));
        assert forall|i: int| 0 <= i < entries.len() implies places.contains(i) by {
            assert(places[i] == i);
        }
        places
    } else {
        let p = |e: EntryView| e.link_type == link_type;
        let places = store::lemma_filter_places(entries, p);
        assert(render::of_type(entries, link_type) =~= Seq::new(
            places.len(),
            |k: int| entries[places[k]],
        ));
        assert forall|i: int|
            0 <= i < entries.len() && (#[trigger] entries[i]).link_type == link_type implies places.contains(i) by {
            assert(p(entries[i]));
        }
        places
    }
}

/// The links that a document lists are those asked for, all of them and no
/// others, each as often as it was registered: the better match first and equal
/// ones, or all without a context, as they were registered.
pub proof fn law_listing_shows_what_is_asked_for(
    entries: Seq<EntryView>,
    ctx: ContextView,
    link_type: Seq<char>,
)
    ensures
        exists|places: Seq<int>| #[trigger]
            are_listed(entries, ctx, link_type, places) && render::listed(entries, ctx, link_type)
                == Seq::new(places.len(), |k: int| entries[places[k]]),
{
    let wanted = render::of_type(entries, link_type);
    let from = lemma_wanted_places(entries, link_type);
    if asks_nothing(ctx) {
        assert(are_listed(entries, ctx, link_type, from));
    } else {
        let scores = render::own_scores(wanted, ctx);
        let order = context::ranking(scores);
        assert forall|k: int| 0 <= k < scores.len() && #[trigger] scores[k] is Some implies scores[k]->0
            <= 16 by {
            context::lemma_score_bounds(wanted[k].routing(), ctx, wanted[k].link_type);
        }
        context::law_ranking_is_by_score_and_registration(scores);
        let places = Seq::new(order.len(), |k: int| from[order[k]]);
        assert forall|k: int| 0 <= k < order.len() implies 0 <= #[trigger] order[k] < wanted.len()
            && scores[order[k]] is Some by {
            assert(order.contains(order[k]));
        }
        assert forall|i: int| 0 <= i < wanted.len() implies #[trigger] scores[i] == points_of(
            entries[from[i]],
            ctx,
            entries[from[i]].link_type,
        ) by {
            assert(wanted[i] == entries[from[i]]);
        }
        assert forall|k: int| 0 <= k < places.len() implies 0 <= #[trigger] places[k] < entries.len()
            && is_asked_for(entries[places[k]], ctx, link_type) by {
            assert(places[k] == from[order[k]]);
        }
        assert forall|i: int|
            0 <= i < entries.len() && is_asked_for(#[trigger] entries[i], ctx, link_type) implies places.contains(i) by {
            let a = choose|a: int| 0 <= a < from.len() && from[a] == i;
            assert(scores[a] is Some);
            assert(order.contains(a));
            let k = choose|k: int| 0 <= k < order.len() && order[k] == a;
            assert(places[k] == i);
        }
        assert forall|k: int, m: int| 0 <= k < m < places.len() implies goes_before(
            entries,
            ctx,
            #[trigger] places[k],
            #[trigger] places[m],
        ) by {
            assert(context::is_before(scores, order[k], order[m]));
            assert(places[k] == from[order[k]] && places[m] == from[order[m]]);
        }
        assert(are_listed(entries, ctx, link_type, places));
        assert(render::listed(entries, ctx, link_type) =~= Seq::new(
            places.len(),
            |k: int| entries[places[k]],
        ));
    }
}

/// The places of the matches for links of a type, each once, the better first
/// and equal ones as they were registered.
pub open spec fn are_selected(
    entries: Seq<EntryView>,
    ctx: ContextView,
    link_type: Seq<char>,
    places: Seq<int>,
) -> bool {
    &&& forall|k: int|
        0 <= k < places.len() ==> 0 <= #[trigger] places[k] < entries.len() && points_of(
            entries[places[k]],
            ctx,
            link_type,
        ) is Some
    &&& forall|i: int|
        0 <= i < entries.len() && points_of(#[trigger] entries[i], ctx, link_type) is Some
            ==> places.contains(i)
    &&& forall|k: int, m: int|
        0 <= k < m < places.len() ==> {
            let p = points_of(entries[#[trigger] places[k]], ctx, link_type)->0;
            let q = points_of(entries[#[trigger] places[m]], ctx, link_type)->0;
            p > q || (p == q && places[k] < places[m])
        }
}

/// A selection holds every match with its points, best first, and nothing else.
pub proof fn law_selections_hold_every_match(
    entries: Seq<EntryView>,
    ctx: ContextView,
    link_type: Seq<char>,
)
    ensures
        exists|places: Seq<int>| #[trigger]
            are_selected(entries, ctx, link_type, places) && context::selection(entries, ctx, link_type)
                == Seq::new(
                places.len(),
                |k: int|
                    (
                        entries[places[k]],
                        points_of(entries[places[k]], ctx, link_type)->0,
                    ),
            ),
{
    let scores = context::scores_of(entries, ctx, link_type);
    let places = context::ranking(scores);
    assert forall|k: int| 0 <= k < scores.len() implies #[trigger] scores[k] == points_of(
        entries[k],
        ctx,
        link_type,
    ) by {}
    assert forall|k: int| 0 <= k < scores.len() && #[trigger] scores[k] is Some implies scores[k]->0
        <= 16 by {
        context::lemma_score_bounds(entries[k].routing(), ctx, link_type);
    }
    context::law_ranking_is_by_score_and_registration(scores);
    assert forall|k: int| 0 <= k < places.len() implies 0 <= #[trigger] places[k] < entries.len()
        && points_of(entries[places[k]], ctx, link_type) is Some by {
        assert(places.contains(places[k]));
        assert(scores[places[k]] is Some);
    }
    assert forall|i: int|
        0 <= i < entries.len() && points_of(#[trigger] entries[i], ctx, link_type) is Some implies places.contains(i) by {
        assert(scores[i] is Some);
    }
    assert forall|k: int, m: int| 0 <= k < m < places.len() implies {
        let p = points_of(entries[#[trigger] places[k]], ctx, link_type)->0;
        let q = points_of(entries[#[trigger] places[m]], ctx, link_type)->0;
        p > q || (p == q && places[k] < places[m])
    } by {
        assert(context::is_before(scores, places[k], places[m]));
        assert(places.contains(places[k]) && places.contains(places[m]));
        assert(scores[places[k]] is Some && scores[places[m]] is Some);
    }
    assert(are_selected(entries, ctx, link_type, places));
    assert(context::selection(entries, ctx, link_type) =~= Seq::new(
        places.len(),
        |k: int| (entries[places[k]], points_of(entries[places[k]], ctx, link_type)->0),
    ));
}

/// An entry is the first of the best matches for links of a type.
pub open spec fn is_first_best(
    entries: Seq<EntryView>,
    ctx: ContextView,
    link_type: Seq<char>,
    i: int,
) -> bool {
    &&& 0 <= i < entries.len()
    &&& points_of(entries[i], ctx, link_type) is Some
    &&& forall|j: int|
        0 <= j < entries.len() && points_of(#[trigger] entries[j], ctx, link_type) is Some ==> {
            ||| points_of(entries[j], ctx, link_type)->0 < points_of(entries[i], ctx, link_type)->0
            ||| points_of(entries[j], ctx, link_type) == points_of(entries[i], ctx, link_type) && i
                <= j
        }
}

/// The type of the default link: the one asked for, and `dpp` for all.
pub open spec fn type_meant(link_type: Seq<char>) -> Seq<char> {
    if link_type == "all"@ {
        "dpp"@
    } else {
        link_type
    }
}

/// The default link is the first of the best matches for the type asked for,
/// or for `dpp` where all types are; there is none exactly where nothing of the
/// type matches.
pub proof fn law_default_link_is_the_first_best(
    entries: Seq<EntryView>,
    ctx: ContextView,
    link_type: Seq<char>,
)
    ensures
        render::default_link(entries, ctx, link_type) matches Some(e) ==> exists|i: int|
            (#[trigger] is_first_best(entries, ctx, type_meant(link_type), i)) && entries[i] == e,
        render::default_link(entries, ctx, link_type) is None ==> forall|j: int|
            0 <= j < entries.len() ==> points_of(
                #[trigger] entries[j],
                ctx,
                type_meant(link_type),
            ) is None,
{
    render::law_default_link_is_the_best(entries, ctx, link_type);
    let wanted = type_meant(link_type);
    let scores = context::scores_of(entries, ctx, render::default_type(link_type));
    assert forall|j: int| 0 <= j < entries.len() implies #[trigger] scores[j] == points_of(
        entries[j],
        ctx,
        wanted,
    ) by {}
    match render::default_link(entries, ctx, link_type) {
        Some(e) => {
            let i = choose|i: int|
                0 <= i < entries.len() && #[trigger] entries[i] == e && scores[i] is Some
                    && forall|j: int|
                    0 <= j < entries.len() && j != i && #[trigger] scores[j] is Some ==> context::is_before(
                        scores,
                        i,
                        j,
                    );
            assert forall|j: int|
                0 <= j < entries.len() && points_of(#[trigger] entries[j], ctx, wanted) is Some implies {
                ||| points_of(entries[j], ctx, wanted)->0 < points_of(entries[i], ctx, wanted)->0
                ||| points_of(entries[j], ctx, wanted) == points_of(entries[i], ctx, wanted) && i
                    <= j
            } by {
                assert(scores[j] is Some);
                if j != i {
                    assert(context::is_before(scores, i, j));
                }
            }
            assert(is_first_best(entries, ctx, wanted, i) && entries[i] == e);
        },
        None => {
            assert forall|j: int| 0 <= j < entries.len() implies points_of(
                #[trigger] entries[j],
                ctx,
                wanted,
            ) is None by {
                assert(scores[j] is None);
            }
        },
    }
}

// ---------------------------------------------------------------------------
// What the headers say
// ---------------------------------------------------------------------------

/// The headers say this under a name: once where there is something to say, and
/// nothing else.
pub open spec fn says(
    headers: Seq<(Seq<char>, Seq<char>)>,
    name: Seq<char>,
    value: Option<Seq<char>>,
) -> bool {
    match value {
        Some(v) => exists|i: int| #[trigger] is_only(headers, i, name) && headers[i].1 == v,
        None => forall|j: int| 0 <= j < headers.len() ==> (#[trigger] headers[j]).0 != name,
    }
}

/// The header at this place is the only one of its name.
pub open spec fn is_only(headers: Seq<(Seq<char>, Seq<char>)>, i: int, name: Seq<char>) -> bool {
    &&& 0 <= i < headers.len()
    &&& headers[i].0 == name
    &&& forall|j: int| 0 <= j < headers.len() && j != i ==> (#[trigger] headers[j]).0 != name
}

proof fn lemma_says(
    headers: Seq<(Seq<char>, Seq<char>)>,
    name: Seq<char>,
    value: Option<Seq<char>>,
    other: Seq<char>,
    o: Option<Seq<char>>,
)
    ensures
        says(headers, name, None) ==> says(render::with_header(headers, name, value), name, value),
        other != name && says(headers, other, o) ==> says(
            render::with_header(headers, name, value),
            other,
            o,
        ),
{
    let after = render::with_header(headers, name, value);
    if says(headers, name, None) && value is Some {
        assert(is_only(after, headers.len() as int, name));
    }
    if other != name && says(headers, other, o) && o is Some {
        let i = choose|i: int| #[trigger] is_only(headers, i, other) && headers[i].1 == o->0;
        assert(is_only(after, i, other));
    }
}

proof fn lemma_names_differ()
    ensures
        "content-type"@.len() == 12,
        "location"@.len() == 8,
        "x-unidpp-superseded-by"@.len() == 22,
        "x-unidpp-correlated-with"@.len() == 24,
        "x-unidpp-context"@.len() == 16,
        "link"@.len() == 4,
        "x-as-of"@.len() == 7,
        "x-cache"@.len() == 7,
        "x-as-of"@ != "x-cache"@,
{
    reveal_strlit("content-type");
    reveal_strlit("location");
    reveal_strlit("x-unidpp-superseded-by");
    reveal_strlit("x-unidpp-correlated-with");
    reveal_strlit("x-unidpp-context");
    reveal_strlit("link");
    reveal_strlit("x-as-of");
    reveal_strlit("x-cache");
    assert("x-as-of"@[2] != "x-cache"@[2]);
}

/// What is said of a successor.
pub open spec fn successor_named(rotation: Option<SupersessionView>) -> Option<Seq<char>> {
    match rotation {
        Some(s) => Some(s.successor),
        None => None,
    }
}

/// What is said of the counterparts: those that claims name, or nothing.
pub open spec fn counterparts_named(claims: Seq<CorrelationView>) -> Option<Seq<char>> {
    if claims.len() == 0 {
        None
    } else {
        Some(render::comma_list(render::counterparts(claims)))
    }
}

/// The text for a dimension of a context.
pub open spec fn or_any(o: Option<Seq<char>>) -> Seq<char> {
    match o {
        Some(s) => s,
        None => "*"@,
    }
}

/// What is said of the context that routed: every dimension, or nothing.
pub open spec fn context_named(ctx: ContextView) -> Option<Seq<char>> {
    if asks_nothing(ctx) {
        None
    } else {
        Some(
            "profile="@ + or_any(ctx.profile) + ";role="@ + or_any(ctx.role) + ";lang="@ + or_any(
                ctx.language,
            ) + ";region="@ + or_any(ctx.region),
        )
    }
}

/// What is said of the default link where links of one type are asked for.
pub open spec fn link_named(
    entries: Seq<EntryView>,
    ctx: ContextView,
    link_type: Seq<char>,
) -> Option<Seq<char>> {
    match render::default_link(entries, ctx, link_type) {
        Some(e) => if link_type == "all"@ {
            None
        } else {
            Some("<"@ + e.href + ">; rel=\""@ + e.link_type + "\""@)
        },
        None => None,
    }
}

proof fn lemma_statements_say(
    first: Seq<(Seq<char>, Seq<char>)>,
    rotation: Option<SupersessionView>,
    claims: Seq<CorrelationView>,
    cache: Option<Seq<char>>,
    other: Seq<char>,
    o: Option<Seq<char>>,
)
    requires
        says(first, "x-unidpp-superseded-by"@, None),
        says(first, "x-unidpp-correlated-with"@, None),
        says(first, "x-cache"@, None),
    ensures
        ({
            let h = render::with_statements(first, rotation, claims, cache);
            &&& says(h, "x-unidpp-superseded-by"@, successor_named(rotation))
            &&& says(h, "x-unidpp-correlated-with"@, counterparts_named(claims))
            &&& says(h, "x-cache"@, cache)
            &&& other != "x-unidpp-superseded-by"@ && other != "x-unidpp-correlated-with"@ && other
                != "x-cache"@ && says(first, other, o) ==> says(h, other, o)
        }),
{
    lemma_names_differ();
    let a = "x-unidpp-superseded-by"@;
    let b = "x-unidpp-correlated-with"@;
    let c = "x-cache"@;
    let va = successor_named(rotation);
    let vb = counterparts_named(claims);
    let h1 = render::with_header(first, a, va);
    let h2 = render::with_header(h1, b, vb);
    lemma_says(first, a, va, b, None);
    lemma_says(first, a, va, c, None);
    lemma_says(first, a, va, other, o);
    lemma_says(h1, b, vb, a, va);
    lemma_says(h1, b, vb, c, None);
    lemma_says(h1, b, vb, other, o);
    lemma_says(h2, c, cache, a, va);
    lemma_says(h2, c, cache, b, vb);
    lemma_says(h2, c, cache, other, o);
    assert(render::with_statements(first, rotation, claims, cache) == render::with_header(h2, c, cache));
}

/// A reply with links holds the document of the links listed. It says what it is, which instant it speaks of, what became
/// of the identity, where it came from, what routed it and what its default
/// link is: each once, and only where there is something to say.
pub proof fn law_linkset_headers_say_it_all(
    anchor: Seq<char>,
    entries: Seq<EntryView>,
    ctx: ContextView,
    link_type: Seq<char>,
    at: StampView,
    rotation: Option<SupersessionView>,
    claims: Seq<CorrelationView>,
)
    ensures
        ({
            let r = render::linkset_reply(anchor, entries, ctx, link_type, at, rotation, claims);
            &&& r.status == 200
            &&& r.body == json::json_pretty(
                linkset::document_json(anchor, render::listed(entries, ctx, link_type), rotation, claims),
            )
            &&& says(r.headers, "content-type"@, Some("application/linkset+json"@))
            &&& says(r.headers, "x-as-of"@, Some(time::stamp(at.at)))
            &&& says(r.headers, "x-unidpp-superseded-by"@, successor_named(rotation))
            &&& says(r.headers, "x-unidpp-correlated-with"@, counterparts_named(claims))
            &&& says(r.headers, "x-cache"@, at.cache)
            &&& says(r.headers, "x-unidpp-context"@, context_named(ctx))
            &&& says(r.headers, "link"@, link_named(entries, ctx, link_type))
            &&& says(r.headers, "location"@, None)
        }),
{
    lemma_names_differ();
    let first = seq![
        ("content-type"@, "application/linkset+json"@),
        ("x-as-of"@, time::stamp(at.at)),
    ];
    let d = "x-unidpp-context"@;
    let l = "link"@;
    let h = render::with_statements(first, rotation, claims, at.cache);
    assert(is_only(first, 0, "content-type"@));
    assert(is_only(first, 1, "x-as-of"@));
    lemma_statements_say(
        first,
        rotation,
        claims,
        at.cache,
        "content-type"@,
        Some("application/linkset+json"@),
    );
    lemma_statements_say(first, rotation, claims, at.cache, "x-as-of"@, Some(time::stamp(at.at)));
    lemma_statements_say(first, rotation, claims, at.cache, d, None);
    lemma_statements_say(first, rotation, claims, at.cache, l, None);
    lemma_statements_say(first, rotation, claims, at.cache, "location"@, None);
    let vd = context_named(ctx);
    let vl = link_named(entries, ctx, link_type);
    let h2 = render::with_header(h, d, vd);
    lemma_says(h, d, vd, "content-type"@, Some("application/linkset+json"@));
    lemma_says(h, d, vd, "x-as-of"@, Some(time::stamp(at.at)));
    lemma_says(h, d, vd, "x-unidpp-superseded-by"@, successor_named(rotation));
    lemma_says(h, d, vd, "x-unidpp-correlated-with"@, counterparts_named(claims));
    lemma_says(h, d, vd, "x-cache"@, at.cache);
    lemma_says(h, d, vd, l, None);
    lemma_says(h, d, vd, "location"@, None);
    lemma_says(h2, l, vl, "content-type"@, Some("application/linkset+json"@));
    lemma_says(h2, l, vl, "x-as-of"@, Some(time::stamp(at.at)));
    lemma_says(h2, l, vl, "x-unidpp-superseded-by"@, successor_named(rotation));
    lemma_says(h2, l, vl, "x-unidpp-correlated-with"@, counterparts_named(claims));
    lemma_says(h2, l, vl, "x-cache"@, at.cache);
    lemma_says(h2, l, vl, d, vd);
    lemma_says(h2, l, vl, "location"@, None);
    assert(render::linkset_headers(entries, ctx, link_type, at, rotation, claims) == render::with_header(
        h2,
        l,
        vl,
    ));
}

/// A redirect leads to the default link, says which instant it speaks of, what
/// became of the identity and where it came from, and has no body. Where there
/// is no default link, nothing is told at all.
pub proof fn law_redirects_lead_to_the_default_link(
    entries: Seq<EntryView>,
    ctx: ContextView,
    link_type: Seq<char>,
    at: StampView,
    rotation: Option<SupersessionView>,
    claims: Seq<CorrelationView>,
)
    ensures
        ({
            let r = render::redirect_reply(entries, ctx, link_type, at, rotation, claims);
            match render::default_link(entries, ctx, link_type) {
                Some(e) => {
                    &&& r.status == 303
                    &&& r.body.len() == 0
                    &&& says(r.headers, "location"@, Some(e.href))
                    &&& says(r.headers, "x-as-of"@, Some(time::stamp(at.at)))
                    &&& says(r.headers, "x-unidpp-superseded-by"@, successor_named(rotation))
                    &&& says(r.headers, "x-unidpp-correlated-with"@, counterparts_named(claims))
                    &&& says(r.headers, "x-cache"@, at.cache)
                },
                None => r == (ReplyView {
                    status: 404,
                    headers: seq![("content-type"@, "application/json"@)],
                    body: "{\"error\":\"not found\"}"@,
                }),
            }
        }),
{
    lemma_names_differ();
    if let Some(e) = render::default_link(entries, ctx, link_type) {
        let first = seq![("location"@, e.href), ("x-as-of"@, time::stamp(at.at))];
        assert(is_only(first, 0, "location"@));
        assert(is_only(first, 1, "x-as-of"@));
        lemma_statements_say(first, rotation, claims, at.cache, "location"@, Some(e.href));
        lemma_statements_say(first, rotation, claims, at.cache, "x-as-of"@, Some(time::stamp(at.at)));
    }
}

/// The counterparts of an identity are those that claims name: each once, none
/// left out, no other, in the order in which they were first named.
pub proof fn law_counterparts_are_those_named(claims: Seq<CorrelationView>)
    ensures
        render::counterparts(claims).no_duplicates(),
        forall|c: Seq<char>| #[trigger]
            render::counterparts(claims).contains(c) <==> exists|i: int|
                0 <= i < claims.len() && (#[trigger] claims[i]).other == c,
        forall|c: CorrelationView|
            render::counterparts(#[trigger] claims.push(c)) == (if render::counterparts(claims).contains(c.other) {
                render::counterparts(claims)
            } else {
                render::counterparts(claims).push(c.other)
            }),
{
    let names = claims.map_values(|c: CorrelationView| c.other);
    lemma_distinct(names);
    assert forall|c: Seq<char>| #[trigger]
        render::counterparts(claims).contains(c) <==> exists|i: int|
            0 <= i < claims.len() && (#[trigger] claims[i]).other == c by {
        if render::counterparts(claims).contains(c) {
            assert(names.contains(c));
            let i = choose|i: int| 0 <= i < names.len() && names[i] == c;
            assert(claims[i].other == c);
        }
        if exists|i: int| 0 <= i < claims.len() && (#[trigger] claims[i]).other == c {
            let i = choose|i: int| 0 <= i < claims.len() && (#[trigger] claims[i]).other == c;
            assert(names[i] == c);
        }
    }
    assert forall|c: CorrelationView|
        render::counterparts(#[trigger] claims.push(c)) == (if render::counterparts(claims).contains(c.other) {
            render::counterparts(claims)
        } else {
            render::counterparts(claims).push(c.other)
        }) by {
        let more = claims.push(c).map_values(|c: CorrelationView| c.other);
        assert(more =~= names.push(c.other));
        assert(more.drop_last() =~= names);
    }
}

proof fn lemma_distinct(v: Seq<Seq<char>>)
    ensures
        render::distinct(v).no_duplicates(),
        forall|c: Seq<char>| #[trigger] render::distinct(v).contains(c) <==> v.contains(c),
    decreases v.len(),
{
    if v.len() > 0 {
        let front = v.drop_last();
        let before = render::distinct(front);
        lemma_distinct(front);
        assert forall|c: Seq<char>| #[trigger] render::distinct(v).contains(c) <==> v.contains(c) by {
            if v.contains(c) {
                let i = choose|i: int| 0 <= i < v.len() && v[i] == c;
                if i < front.len() {
                    assert(front[i] == c);
                    assert(before.contains(c));
                    let k = choose|k: int| 0 <= k < before.len() && before[k] == c;
                    assert(render::distinct(v)[k] == c);
                } else if !before.contains(c) {
                    assert(render::distinct(v)[before.len() as int] == c);
                }
            }
            if render::distinct(v).contains(c) {
                if before.contains(c) {
                    assert(front.contains(c));
                    let i = choose|i: int| 0 <= i < front.len() && front[i] == c;
                    assert(v[i] == c);
                } else {
                    let k = choose|k: int| 0 <= k < render::distinct(v).len() && render::distinct(v)[k] == c;
                    if k < before.len() {
                        assert(before[k] == c);
                    }
                    assert(v[v.len() - 1] == c);
                }
            }
        }
    }
}

/// A list in one line holds its items in their order, set apart by a comma and
/// a space.
pub proof fn law_lists_are_set_apart(v: Seq<Seq<char>>, last: Seq<char>)
    ensures
        render::comma_list(v.push(last)) == (if v.len() == 0 {
            last
        } else {
            render::comma_list(v) + ", "@ + last
        }),
{
    assert(v.push(last).drop_last() =~= v);
}

// ---------------------------------------------------------------------------
// What is answered
// ---------------------------------------------------------------------------

/// The reply that tells nothing.
pub open spec fn tells_nothing() -> ReplyView {
    ReplyView {
        status: 404,
        headers: seq![("content-type"@, "application/json"@)],
        body: "{\"error\":\"not found\"}"@,
    }
}

/// The context that routes: the one asked for, and only without one that of the
/// media types accepted.
pub open spec fn context_meant(ctx: ContextView, accept: Option<Seq<char>>) -> ContextView {
    let none = ContextView { profile: None, role: None, language: None, region: None };
    if !asks_nothing(ctx) {
        ctx
    } else {
        match accept {
            Some(a) => match negotiate::negotiated(a) {
                Some(c) => c,
                None => none,
            },
            None => none,
        }
    }
}

/// The reply where no link is in force: what became of the identity, if
/// anything is on record, and else nothing.
pub open spec fn is_absence(
    r: ReplyView,
    rotation: Option<SupersessionView>,
    claims: Seq<CorrelationView>,
    t: int,
) -> bool {
    if rotation is None && claims.len() == 0 {
        r == tells_nothing()
    } else {
        &&& r.status == 404
        &&& says(r.headers, "content-type"@, Some("application/json"@))
        &&& says(r.headers, "x-as-of"@, Some(time::stamp(t)))
        &&& r.body == json::json_compact(render::stated_absence_json(rotation, claims))
    }
}

/// A question is answered by what is in force at the instant asked for, or now:
/// the links by a document or a redirect, with what became of the identity; a
/// dark identity by nothing at all; an identity without links by what is on
/// record of it; and one that nothing is on record of by the upstream, if there
/// is one, which is asked the same question.
pub proof fn law_questions_are_answered_by_what_is_in_force(
    l: LedgerView,
    has_upstream: bool,
    ident: IdentifierView,
    ctx: ContextView,
    accept: Option<Seq<char>>,
    link_type: Seq<char>,
    asof: Option<int>,
    redirect: bool,
    now: int,
)
    ensures
        ({
            let t = match asof {
                Some(t) => t,
                None => now,
            };
            let c = context_meant(ctx, accept);
            let rotation = store::rotation_at(l, ident.key(), t);
            let claims = store::claims_at(l, ident.key(), t);
            let at = StampView { at: t, cache: None };
            let r = api::resolution(
                l,
                has_upstream,
                ident,
                ctx,
                accept,
                link_type,
                asof,
                redirect,
                now,
            );
            match store::answer(l, ident.key(), t) {
                AnswerView::Resolved(entries) => r == ResolutionView::Done(
                    if redirect {
                        render::redirect_reply(entries, c, link_type, at, rotation, claims)
                    } else {
                        render::linkset_reply(ident.value, entries, c, link_type, at, rotation, claims)
                    },
                ),
                AnswerView::Dark => r == ResolutionView::Done(tells_nothing()),
                AnswerView::KnownEmpty => r matches ResolutionView::Done(reply) && is_absence(
                    reply,
                    rotation,
                    claims,
                    t,
                ),
                AnswerView::Absent => if has_upstream && rotation is None && claims.len() == 0 {
                    r == ResolutionView::AskUpstream(
                        RequestView { ident, ctx: c, link_type, asof, redirect },
                    )
                } else {
                    r matches ResolutionView::Done(reply) && is_absence(reply, rotation, claims, t)
                },
            }
        }),
{
    let t = match asof {
        Some(t) => t,
        None => now,
    };
    lemma_names_differ();
    let h = seq![("content-type"@, "application/json"@), ("x-as-of"@, time::stamp(t))];
    assert(is_only(h, 0, "content-type"@));
    assert(is_only(h, 1, "x-as-of"@));
    assert(api::routing_context(ctx, accept) == context_meant(ctx, accept));
}

// ---------------------------------------------------------------------------
// What comes from an upstream
// ---------------------------------------------------------------------------

/// A reply with these links and nothing else on record.
pub open spec fn reply_with(req: RequestView, entries: Seq<EntryView>, at: StampView) -> ReplyView {
    if req.redirect {
        render::redirect_reply(entries, req.ctx, req.link_type, at, None, Seq::empty())
    } else {
        render::linkset_reply(req.ident.value, entries, req.ctx, req.link_type, at, None, Seq::empty())
    }
}

/// The cache answers a question exactly where the question is not as of an
/// instant and what was fetched is younger than it may be, and says that it
/// did. Any other question goes to the upstream, and what is cached is kept at
/// hand for it unless it is as of an instant.
pub proof fn law_the_cache_answers_while_fresh(
    cache: Map<Seq<char>, CacheView>,
    upstream: Seq<char>,
    ttl: int,
    req: RequestView,
    now: int,
)
    requires
        i64::MIN < ttl <= i64::MAX,
    ensures
        ({
            let key = req.ident.key();
            let held = req.asof is None && cache.contains_key(key);
            proxy::planned(cache, upstream, ttl, req, now) == if held && now - cache[key].fetched_at < ttl {
                PlanView::Serve(
                    reply_with(
                        req,
                        cache[key].entries,
                        StampView { at: cache[key].fetched_at, cache: Some("hit"@) },
                    ),
                )
            } else {
                PlanView::Fetch {
                    url: proxy::upstream_url(upstream, key, req.asof),
                    stale: if held {
                        Some(cache[key])
                    } else {
                        None
                    },
                }
            }
        }),
{
}

/// What the upstream gave is answered with, as of its fetching, and kept unless
/// it is as of an instant. Where it gave nothing, what was at hand is answered
/// with, as of its own fetching, and the cache stays; with nothing at hand a
/// failure is told as such and an absence tells nothing.
pub proof fn law_the_upstream_is_heard(
    cache: Map<Seq<char>, CacheView>,
    req: RequestView,
    stale: Option<CacheView>,
    now: int,
    outcome: OutcomeView,
)
    ensures
        ({
            let reply = proxy::settled_reply(req, stale, now, outcome);
            let after = proxy::settled_cache(cache, req, now, outcome);
            let found = outcome matches OutcomeView::Entries(v) && v.len() > 0;
            if found {
                &&& reply == reply_with(
                    req,
                    outcome->Entries_0,
                    StampView {
                        at: now,
                        cache: Some(
                            if stale is Some {
                                "refresh"@
                            } else {
                                "miss"@
                            },
                        ),
                    },
                )
                &&& after == (if req.asof is None {
                    cache.insert(
                        req.ident.key(),
                        CacheView { fetched_at: now, entries: outcome->Entries_0 },
                    )
                } else {
                    cache
                })
            } else {
                &&& after == cache
                &&& stale matches Some(c) ==> reply == reply_with(
                    req,
                    c.entries,
                    StampView { at: c.fetched_at, cache: Some("stale"@) },
                )
                &&& stale is None ==> match outcome {
                    OutcomeView::Error(m) => reply.status == 502 && reply.headers == seq![
                        ("content-type"@, "application/json"@),
                    ] && reply.body == json::json_compact(
                        JsonValue::Object(
                            map![
                                "error"@ => JsonValue::Str("upstream unavailable"@),
                                "detail"@ => JsonValue::Str(m),
                            ],
                        ),
                    ),
                    _ => reply == tells_nothing(),
                }
            }
        }),
{
}

/// An HTTP answer is heard by its status: the entries of the body behind the
/// empty line for 200, an absence for 404, and a failure that names the status
/// for any other.
pub proof fn law_http_answers_are_heard(
    version: Seq<char>,
    status: u16,
    phrase: Seq<char>,
    body: Seq<char>,
    fetched_at: int,
)
    requires
        version.len() > 0,
        forall|i: int| 0 <= i < version.len() ==> !text::is_space(#[trigger] version[i]),
        phrase.len() > 0 ==> text::is_space(phrase[0]),
        forall|i: int|
            0 <= i < version.len() + 1 + text::decimal(status as nat).len() + phrase.len()
                ==> !#[trigger] text_laws::occurs(
                version + seq![' '] + text::decimal(status as nat) + phrase + "\r\n\r\n"@ + body,
                "\r\n\r\n"@,
                i,
            ),
    ensures
        ({
            let text = version + seq![' '] + text::decimal(status as nat) + phrase + "\r\n\r\n"@ + body;
            proxy::received(text, fetched_at) == if status == 200 {
                match linkset::text_entries(body, fetched_at) {
                    Ok(entries) => OutcomeView::Entries(entries),
                    Err(m) => OutcomeView::Error("upstream linkset: "@ + m),
                }
            } else if status == 404 {
                OutcomeView::NotFound
            } else {
                OutcomeView::Error("upstream returned "@ + text::decimal(status as nat))
            }
        }),
{
    let head = version + seq![' '] + text::decimal(status as nat) + phrase;
    lemma_second_word(version, text::decimal(status as nat), phrase, status as nat);
    lemma_answer_parts(head, status, body);
}

proof fn lemma_gap(head: Seq<char>, gap: Seq<char>, body: Seq<char>)
    requires
        forall|i: int| 0 <= i < head.len() ==> !#[trigger] text_laws::occurs(head + gap + body, gap, i),
    ensures
        text::find(head + gap + body, gap) == Some(head.len()),
        (head + gap + body).take(head.len() as int) == head,
        (head + gap + body).skip(head.len() + gap.len() as int) == body,
{
    let text = head + gap + body;
    let n = head.len() as int;
    assert(text.subrange(n, n + gap.len()) =~= gap);
    lemma_found(text, gap, head.len());
    assert(text.take(n) =~= head);
    assert(text.skip(head.len() + gap.len() as int) =~= body);
}

proof fn lemma_found(text: Seq<char>, pat: Seq<char>, n: nat)
    requires
        text_laws::occurs(text, pat, n as int),
        forall|i: int| 0 <= i < n ==> !#[trigger] text_laws::occurs(text, pat, i),
    ensures
        text::find(text, pat) == Some(n),
{
    text_laws::law_search_gives_the_first_place(text, pat);
    let found = text::find(text, pat);
    assert(found is Some);
    assert(text_laws::occurs(text, pat, found->0 as int));
}

proof fn lemma_answer_parts(head: Seq<char>, status: u16, body: Seq<char>)
    requires
        text::second_word(head) == text::decimal(status as nat),
        forall|i: int|
            0 <= i < head.len() ==> !#[trigger] text_laws::occurs(
                head + "\r\n\r\n"@ + body,
                "\r\n\r\n"@,
                i,
            ),
    ensures
        proxy::answer_parts(head + "\r\n\r\n"@ + body) == Ok::<(u16, Seq<char>), Seq<char>>((status, body)),
{
    let gap = "\r\n\r\n"@;
    let text = head + gap + body;
    assert(gap.len() == 4) by {
        reveal_strlit("\r\n\r\n");
    }
    lemma_gap(head, gap, body);
    text_laws::law_written_numbers_are_read(status as nat, u16::MAX as int);
}

proof fn lemma_word_len(word: Seq<char>, rest: Seq<char>)
    requires
        forall|i: int| 0 <= i < word.len() ==> !text::is_space(#[trigger] word[i]),
        rest.len() > 0 ==> text::is_space(rest[0]),
    ensures
        text::word_len(word + rest) == word.len(),
    decreases word.len(),
{
    if word.len() > 0 {
        assert((word + rest).skip(1) =~= word.skip(1) + rest);
        assert forall|i: int| 0 <= i < word.skip(1).len() implies !text::is_space(
            #[trigger] word.skip(1)[i],
        ) by {
            assert(word.skip(1)[i] == word[i + 1]);
        }
        lemma_word_len(word.skip(1), rest);
        assert((word + rest)[0] == word[0]);
    } else {
        assert(word + rest =~= rest);
    }
}

proof fn lemma_second_word(version: Seq<char>, digits: Seq<char>, phrase: Seq<char>, n: nat)
    requires
        version.len() > 0,
        forall|i: int| 0 <= i < version.len() ==> !text::is_space(#[trigger] version[i]),
        phrase.len() > 0 ==> text::is_space(phrase[0]),
        digits == text::decimal(n),
    ensures
        text::second_word(version + seq![' '] + digits + phrase) == digits,
{
    text_laws::law_decimals_count_by_tens(n);
    let line = version + seq![' '] + digits + phrase;
    let tail = seq![' '] + digits + phrase;
    assert(line =~= version + tail);
    assert(line[0] == version[0]);
    assert(text::trim_start(line) == line);
    lemma_word_len(version, tail);
    assert(line.skip(version.len() as int) =~= tail);
    let rest = digits + phrase;
    assert(tail.skip(1) =~= rest);
    assert(rest[0] == digits[0]);
    assert(text::trim_start(tail) == rest) by {
        assert(text::is_space(tail[0]));
        assert(!text::is_space(rest[0]));
        assert(text::trim_start(rest) == rest);
    }
    assert forall|i: int| 0 <= i < digits.len() implies !text::is_space(#[trigger] digits[i]) by {
        assert('0' <= digits[i] <= '9');
    }
    lemma_word_len(digits, phrase);
    assert(rest.take(digits.len() as int) =~= digits);
}

} // verus!
