//! Laws that relate the surfaces of the resolver to each other: what a question
//! means does not depend on the form in which it is put, nor on who hands it on.
//! Nothing here runs.

use vstd::prelude::*;

use crate::api;
use crate::api::ResolutionView;
use crate::carrier;
use crate::carrier::{CarrierView, IdentifierView, LookupView};
use crate::context::ContextView;
use crate::gs1dl;
use crate::json;
use crate::json::JsonValue;
use crate::proxy;
use crate::reply;
use crate::reply::ReplyView;
use crate::store::LedgerView;
use crate::text;
use crate::time;
use crate::urls;

verus! {

// ---------------------------------------------------------------------------
// Parameters
// ---------------------------------------------------------------------------

/// The parameter at this place is the one that counts for its key: no earlier
/// one has the same.
pub open spec fn counts(params: Seq<(Seq<char>, Seq<char>)>, i: int) -> bool {
    0 <= i < params.len() && forall|j: int| 0 <= j < i ==> (#[trigger] params[j]).0 != params[i].0
}

/// No parameter has this key.
pub open spec fn lacks(params: Seq<(Seq<char>, Seq<char>)>, key: Seq<char>) -> bool {
    forall|i: int| 0 <= i < params.len() ==> (#[trigger] params[i]).0 != key
}

/// A text without the white space around it, where anything is left.
pub open spec fn meant(s: Seq<char>) -> Option<Seq<char>> {
    if text::trim(s).len() == 0 {
        None
    } else {
        Some(text::trim(s))
    }
}

/// The parameter that counts is the one that is found.
pub proof fn lemma_lookup_counts(params: Seq<(Seq<char>, Seq<char>)>, i: int)
    requires
        counts(params, i),
    ensures
        gs1dl::lookup(params, params[i].0) == Some(params[i].1),
    decreases params.len(),
{
    if i > 0 {
        let rest = params.skip(1);
        assert(params[0].0 != params[i].0);
        assert forall|j: int| 0 <= j < i - 1 implies (#[trigger] rest[j]).0 != rest[i - 1].0 by {
            assert(rest[j] == params[j + 1]);
        }
        lemma_lookup_counts(rest, i - 1);
    }
}

/// What no parameter has as key is not found.
pub proof fn lemma_lookup_lacks(params: Seq<(Seq<char>, Seq<char>)>, key: Seq<char>)
    requires
        lacks(params, key),
    ensures
        gs1dl::lookup(params, key) is None,
    decreases params.len(),
{
    if params.len() > 0 {
        let rest = params.skip(1);
        assert forall|j: int| 0 <= j < rest.len() implies (#[trigger] rest[j]).0 != key by {
            assert(rest[j] == params[j + 1]);
        }
        lemma_lookup_lacks(rest, key);
    }
}

/// Every parameter of a question is heard under its name and no other: the four
/// dimensions of the context, the link type and the instant.
pub proof fn law_parameters_are_heard(params: Seq<(Seq<char>, Seq<char>)>, i: int)
    requires
        counts(params, i),
    ensures
        params[i].0 == "profile"@ ==> api::context_params(params).profile == meant(params[i].1),
        params[i].0 == "role"@ ==> api::context_params(params).role == meant(params[i].1),
        params[i].0 == "lang"@ ==> api::context_params(params).language == meant(params[i].1),
        params[i].0 == "region"@ ==> api::context_params(params).region == meant(params[i].1),
        params[i].0 == "linkType"@ ==> api::link_type_param(params) == (match meant(params[i].1) {
            Some(s) => s,
            None => "dpp"@,
        }),
        params[i].0 == "asof"@ && params[i].1.len() == 0 ==> api::asof_param(params) == Ok::<
            Option<int>,
            Seq<char>,
        >(None),
        params[i].0 == "asof"@ ==> forall|t: int|
            time::has_four_digit_year(t) && params[i].1 == #[trigger] time::stamp(t) ==> api::asof_param(params)
                == Ok::<Option<int>, Seq<char>>(Some(t)),
        params[i].0 == "asof"@ && params[i].1.len() > 0 ==> (api::asof_param(params) is Ok <==> exists|
            t: int,
        | time::has_four_digit_year(t) && params[i].1 == #[trigger] time::stamp(t)),
{
    lemma_lookup_counts(params, i);
    let s = params[i].1;
    assert forall|t: int| time::has_four_digit_year(t) && s == #[trigger] time::stamp(t) implies time::stamp_secs(s)
        == Some(t) && s.len() > 0 by {
        time::law_stamp_reads_back(t);
        lemma_stamp_is_long(t);
    }
    if time::stamp_secs(s) is Some {
        time::law_stamp_writes_back(s);
    }
}

proof fn lemma_stamp_is_long(t: int)
    requires
        time::has_four_digit_year(t),
    ensures
        time::stamp(t).len() > 0,
{
    time::law_stamp_reads_back(t);
    reveal(time::stamp_secs);
}

/// What a question does not say is not made up: without a parameter there is no
/// preference, the link type is `dpp`, and the instant is left open.
pub proof fn law_missing_parameters_ask_nothing(params: Seq<(Seq<char>, Seq<char>)>)
    ensures
        lacks(params, "profile"@) ==> api::context_params(params).profile is None,
        lacks(params, "role"@) ==> api::context_params(params).role is None,
        lacks(params, "lang"@) ==> api::context_params(params).language is None,
        lacks(params, "region"@) ==> api::context_params(params).region is None,
        lacks(params, "linkType"@) ==> api::link_type_param(params) == "dpp"@,
        lacks(params, "asof"@) ==> api::asof_param(params) == Ok::<Option<int>, Seq<char>>(None),
{
    if lacks(params, "profile"@) {
        lemma_lookup_lacks(params, "profile"@);
    }
    if lacks(params, "role"@) {
        lemma_lookup_lacks(params, "role"@);
    }
    if lacks(params, "lang"@) {
        lemma_lookup_lacks(params, "lang"@);
    }
    if lacks(params, "region"@) {
        lemma_lookup_lacks(params, "region"@);
    }
    if lacks(params, "linkType"@) {
        lemma_lookup_lacks(params, "linkType"@);
    }
    if lacks(params, "asof"@) {
        lemma_lookup_lacks(params, "asof"@);
    }
}

/// A question names its subject by one parameter: as an identifier or as a
/// carrier, and never by both or by none.
pub proof fn law_the_subject_is_heard(params: Seq<(Seq<char>, Seq<char>)>, i: int)
    ensures
        counts(params, i) && params[i].0 == "identifier"@ && lacks(params, "carrier"@)
            ==> api::query_subject(params) == carrier::identifier_of(params[i].1),
        counts(params, i) && params[i].0 == "carrier"@ && lacks(params, "identifier"@) ==> (
        match carrier::carrier_of(params[i].1) {
            Some(c) => api::query_subject(params) == Ok::<IdentifierView, Seq<char>>(c.identifier),
            None => api::query_subject(params) is Err,
        }),
        lacks(params, "identifier"@) && lacks(params, "carrier"@) ==> api::query_subject(params) is Err,
        !lacks(params, "identifier"@) && !lacks(params, "carrier"@) ==> api::query_subject(params) is Err,
{
    if counts(params, i) {
        lemma_lookup_counts(params, i);
    }
    if lacks(params, "identifier"@) {
        lemma_lookup_lacks(params, "identifier"@);
    } else {
        lemma_lookup_some(params, "identifier"@);
    }
    if lacks(params, "carrier"@) {
        lemma_lookup_lacks(params, "carrier"@);
    } else {
        lemma_lookup_some(params, "carrier"@);
    }
}

proof fn lemma_lookup_some(params: Seq<(Seq<char>, Seq<char>)>, key: Seq<char>)
    requires
        !lacks(params, key),
    ensures
        gs1dl::lookup(params, key) is Some,
    decreases params.len(),
{
    let i = choose|i: int| 0 <= i < params.len() && (#[trigger] params[i]).0 == key;
    if params[0].0 != key {
        let rest = params.skip(1);
        assert(rest[i - 1].0 == key);
        lemma_lookup_some(rest, key);
    }
}

// ---------------------------------------------------------------------------
// The upstream
// ---------------------------------------------------------------------------

/// What an intermediary asks for, as parameters: the identifier, all its links,
/// and the instant where one is asked for.
pub open spec fn handed_on(key: Seq<char>, asof: Option<int>) -> Seq<(Seq<char>, Seq<char>)> {
    seq![("identifier"@, key), ("linkType"@, "all"@)] + match asof {
        Some(t) => seq![("asof"@, time::stamp(t))],
        None => Seq::empty(),
    }
}

proof fn lemma_plain_bytes(bytes: Seq<u8>)
    requires
        forall|i: int| 0 <= i < bytes.len() ==> proxy::is_unreserved(#[trigger] bytes[i]),
    ensures
        proxy::escaped(bytes) == bytes.map_values(|b: u8| b as char),
    decreases bytes.len(),
{
    let chars = bytes.map_values(|b: u8| b as char);
    if bytes.len() > 0 {
        let front = bytes.drop_last();
        assert forall|i: int| 0 <= i < front.len() implies proxy::is_unreserved(#[trigger] front[i]) by {
            assert(front[i] == bytes[i]);
        }
        lemma_plain_bytes(front);
        assert(proxy::is_unreserved(bytes[bytes.len() - 1]));
        assert(proxy::escaped(bytes) =~= chars);
    } else {
        assert(proxy::escaped(bytes) =~= chars);
    }
}

proof fn lemma_plain_text_is_kept(s: Seq<char>)
    requires
        forall|i: int|
            0 <= i < s.len() ==> text::is_letter(#[trigger] s[i]) || text::is_digit(s[i]),
    ensures
        proxy::query_component(s) == s,
{
    assert forall|i: int| 0 <= i < s.len() implies '\0' <= #[trigger] s[i] <= '\u{7f}' by {
        assert(text::is_letter(s[i]) || text::is_digit(s[i]));
    }
    vstd::utf8::is_ascii_chars_encode_utf8(s);
    let bytes = vstd::utf8::encode_utf8(s);
    assert forall|i: int| 0 <= i < bytes.len() implies proxy::is_unreserved(#[trigger] bytes[i]) && bytes[i] as char
        == s[i] by {
        assert(text::is_letter(s[i]) || text::is_digit(s[i]));
    }
    lemma_plain_bytes(bytes);
    assert(proxy::query_component(s) =~= s);
}

proof fn lemma_question_text(key: Seq<char>, asof: Option<int>)
    ensures
        ({
            let url = "/resolve?identifier="@ + proxy::query_component(key) + "&linkType=all"@;
            urls::path_text(seq!["resolve"@]) + urls::query_part(handed_on(key, asof)) == match asof {
                Some(t) => url + "&asof="@ + proxy::query_component(time::stamp(t)),
                None => url,
            }
        }),
{
    reveal_strlit("/resolve?identifier=");
    reveal_strlit("&linkType=all");
    reveal_strlit("&asof=");
    reveal_strlit("resolve");
    reveal_strlit("identifier");
    reveal_strlit("linkType");
    reveal_strlit("all");
    reveal_strlit("asof");
    lemma_plain_text_is_kept("resolve"@);
    lemma_plain_text_is_kept("identifier"@);
    lemma_plain_text_is_kept("linkType"@);
    lemma_plain_text_is_kept("all"@);
    lemma_plain_text_is_kept("asof"@);
    let k = proxy::query_component(key);
    let pairs = handed_on(key, asof);
    let one = seq!["resolve"@];
    assert(one.skip(1).len() == 0);
    assert(urls::path_text(one) =~= seq!['/'] + "resolve"@) by {
        assert(urls::path_text(one.skip(1)) =~= Seq::empty());
    }
    let first = "identifier"@ + seq!['='] + k;
    let second = "linkType"@ + seq!['='] + "all"@;
    assert(urls::pair_text(pairs[0]) == first);
    assert(urls::pair_text(pairs[1]) == second);
    let url = "/resolve?identifier="@ + k + "&linkType=all"@;
    match asof {
        Some(t) => {
            let third = "asof"@ + seq!['='] + proxy::query_component(time::stamp(t));
            assert(pairs.len() == 3);
            assert(pairs[2] == ("asof"@, time::stamp(t)));
            assert(pairs.skip(1)[0] == pairs[1]);
            assert(pairs.skip(1).skip(1)[0] == pairs[2]);
            assert(pairs.skip(1).skip(1).len() == 1);
            assert(urls::query_text(pairs.skip(1).skip(1)) == third);
            assert(urls::query_text(pairs.skip(1)) == second + seq!['&'] + third);
            assert(urls::query_text(pairs) == first + seq!['&'] + (second + seq!['&'] + third));
            assert(urls::path_text(one) + urls::query_part(pairs) =~= url + "&asof="@ + proxy::query_component(
                time::stamp(t),
            ));
        },
        None => {
            assert(pairs.len() == 2);
            assert(pairs.skip(1)[0] == pairs[1]);
            assert(pairs.skip(1).len() == 1);
            assert(urls::query_text(pairs.skip(1)) == second);
            assert(urls::query_text(pairs) == first + seq!['&'] + second);
            assert(urls::path_text(one) + urls::query_part(pairs) =~= url);
        },
    }
}

/// Slashes and nothing else.
pub open spec fn are_slashes(s: Seq<char>) -> bool {
    forall|i: int| 0 <= i < s.len() ==> #[trigger] s[i] == '/'
}

proof fn lemma_without_slashes(base: Seq<char>, slashes: Seq<char>)
    requires
        base.len() > 0,
        base.last() != '/',
        are_slashes(slashes),
    ensures
        proxy::without_slashes(base + slashes) == base,
    decreases slashes.len(),
{
    let s = base + slashes;
    if slashes.len() > 0 {
        assert(s.last() == slashes[slashes.len() - 1]);
        assert(s.drop_last() =~= base + slashes.drop_last());
        lemma_without_slashes(base, slashes.drop_last());
    } else {
        assert(s =~= base);
    }
}

proof fn lemma_path_text_grows(base: Seq<Seq<char>>, last: Seq<char>)
    ensures
        urls::path_text(base.push(last)) == urls::path_text(base) + urls::path_text(seq![last]),
    decreases base.len(),
{
    let all = base.push(last);
    if base.len() == 0 {
        assert(all =~= seq![last]);
        assert(urls::path_text(base) + urls::path_text(seq![last]) =~= urls::path_text(seq![last]));
    } else {
        lemma_path_text_grows(base.skip(1), last);
        assert(all.skip(1) =~= base.skip(1).push(last));
        assert(urls::path_text(all) =~= urls::path_text(base) + urls::path_text(seq![last]));
    }
}

proof fn lemma_base_ends_plainly(
    scheme: Seq<char>,
    authority: Seq<char>,
    segments: Seq<Seq<char>>,
)
    requires
        urls::is_host(authority),
        urls::are_segments(segments),
    ensures
        ({
            let base = scheme + "://"@ + authority + urls::path_text(segments);
            base.len() > 0 && base.last() != '/'
        }),
    decreases segments.len(),
{
    let base = scheme + "://"@ + authority + urls::path_text(segments);
    if segments.len() == 0 {
        assert(base.last() == authority[authority.len() - 1]);
        assert(authority.contains(authority[authority.len() - 1]));
    } else {
        let n = segments.len() - 1;
        let last = segments[n];
        lemma_path_text_grows(segments.drop_last(), last);
        assert(segments.drop_last().push(last) =~= segments);
        let e = proxy::query_component(last);
        urls::lemma_encoded(last);
        assert(seq![last].skip(1).len() == 0);
        assert(urls::path_text(seq![last]) =~= seq!['/'] + e) by {
            assert(urls::path_text(seq![last].skip(1)) =~= Seq::empty());
        }
        assert(segments[n].len() > 0);
        assert(base.last() == e[e.len() - 1]);
        assert(urls::is_encoded_char(e[e.len() - 1]));
    }
}

proof fn lemma_upstream_url_text(
    scheme: Seq<char>,
    authority: Seq<char>,
    base: Seq<Seq<char>>,
    slashes: Seq<char>,
    key: Seq<char>,
    asof: Option<int>,
)
    requires
        urls::is_host(authority),
        urls::are_segments(base),
        are_slashes(slashes),
    ensures
        proxy::upstream_url(scheme + "://"@ + authority + urls::path_text(base) + slashes, key, asof) == urls::url_text(
            scheme,
            authority,
            base.push("resolve"@),
            handed_on(key, asof),
        ),
{
    let site = scheme + "://"@ + authority + urls::path_text(base);
    let word = urls::path_text(seq!["resolve"@]);
    let query = urls::query_part(handed_on(key, asof));
    lemma_base_ends_plainly(scheme, authority, base);
    lemma_without_slashes(site, slashes);
    lemma_question_text(key, asof);
    lemma_path_text_grows(base, "resolve"@);
    let k = proxy::query_component(key);
    match asof {
        Some(t) => {
            let q = proxy::query_component(time::stamp(t));
            assert(site + "/resolve?identifier="@ + k + "&linkType=all"@ + "&asof="@ + q =~= site + (
            "/resolve?identifier="@ + k + "&linkType=all"@ + "&asof="@ + q));
        },
        None => {
            assert(site + "/resolve?identifier="@ + k + "&linkType=all"@ =~= site + (
            "/resolve?identifier="@ + k + "&linkType=all"@));
        },
    }
    assert(site + (word + query) =~= scheme + "://"@ + authority + (urls::path_text(base) + word) + query);
}

/// The question that an intermediary puts is the question that it was asked: the
/// resolver that receives it, taking the URL apart, hears the same identifier,
/// is asked for all its links, and as of the same instant, or of none. `base` is
/// where the upstream serves, with any slashes behind it.
pub proof fn law_the_question_is_handed_on(
    scheme: Seq<char>,
    authority: Seq<char>,
    base: Seq<Seq<char>>,
    slashes: Seq<char>,
    key: Seq<char>,
    asof: Option<int>,
)
    requires
        scheme == "http"@ || scheme == "https"@,
        urls::is_host(authority),
        urls::are_segments(base),
        are_slashes(slashes),
        asof matches Some(t) ==> time::has_four_digit_year(t),
    ensures
        ({
            let upstream = scheme + "://"@ + authority + urls::path_text(base) + slashes;
            &&& gs1dl::url_parts(proxy::upstream_url(upstream, key, asof)) matches Some(u)
            &&& u.scheme == scheme
            &&& u.origin == scheme + "://"@ + authority
            &&& u.path_segments == base.push("resolve"@)
            &&& api::query_subject(u.query_pairs) == carrier::identifier_of(key)
            &&& api::link_type_param(u.query_pairs) == "all"@
            &&& api::asof_param(u.query_pairs) == Ok::<Option<int>, Seq<char>>(asof)
            &&& api::context_params(u.query_pairs) == (ContextView {
                profile: None,
                role: None,
                language: None,
                region: None,
            })
        }),
{
    let pairs = handed_on(key, asof);
    let segments = base.push("resolve"@);
    reveal_strlit("resolve");
    lemma_upstream_url_text(scheme, authority, base, slashes, key, asof);
    assert forall|i: int| 0 <= i < segments.len() implies (#[trigger] segments[i]).len() > 0 by {
        if i < base.len() {
            assert(segments[i] == base[i]);
        }
    }
    urls::law_url_reads_back(scheme, authority, segments, pairs);
    lemma_handed_on_is_heard(key, asof);
}

proof fn lemma_handed_on_is_heard(key: Seq<char>, asof: Option<int>)
    requires
        asof matches Some(t) ==> time::has_four_digit_year(t),
    ensures
        ({
            let pairs = handed_on(key, asof);
            &&& api::query_subject(pairs) == carrier::identifier_of(key)
            &&& api::link_type_param(pairs) == "all"@
            &&& api::asof_param(pairs) == Ok::<Option<int>, Seq<char>>(asof)
            &&& api::context_params(pairs) == (ContextView {
                profile: None,
                role: None,
                language: None,
                region: None,
            })
        }),
{
    reveal_strlit("identifier");
    reveal_strlit("carrier");
    reveal_strlit("linkType");
    reveal_strlit("all");
    reveal_strlit("asof");
    reveal_strlit("profile");
    reveal_strlit("role");
    reveal_strlit("lang");
    reveal_strlit("region");
    let pairs = handed_on(key, asof);
    assert("identifier"@.len() == 10 && "linkType"@.len() == 8 && "asof"@.len() == 4);
    assert("asof"@[0] == 'a' && "role"@[0] == 'r' && "lang"@[0] == 'l');
    assert(pairs[0] == ("identifier"@, key));
    assert(pairs[1] == ("linkType"@, "all"@));
    assert(lacks(pairs, "carrier"@));
    assert(lacks(pairs, "profile"@));
    assert(lacks(pairs, "role"@));
    assert(lacks(pairs, "lang"@));
    assert(lacks(pairs, "region"@));
    law_missing_parameters_ask_nothing(pairs);
    assert(counts(pairs, 0));
    law_the_subject_is_heard(pairs, 0);
    assert(counts(pairs, 1));
    law_parameters_are_heard(pairs, 1);
    text::lemma_trim_tight("all"@);
    match asof {
        Some(t) => {
            assert(pairs[2] == ("asof"@, time::stamp(t)));
            assert(counts(pairs, 2));
            law_parameters_are_heard(pairs, 2);
        },
        None => {
            assert(lacks(pairs, "asof"@));
        },
    }
}

// ---------------------------------------------------------------------------
// The path form
// ---------------------------------------------------------------------------

proof fn lemma_lookup_behind(
    first: (Seq<char>, Seq<char>),
    params: Seq<(Seq<char>, Seq<char>)>,
    key: Seq<char>,
)
    requires
        first.0 != key,
    ensures
        gs1dl::lookup(seq![first] + params, key) == gs1dl::lookup(params, key),
{
    assert((seq![first] + params).skip(1) =~= params);
}

proof fn lemma_asking_by_key(params: Seq<(Seq<char>, Seq<char>)>, key: Seq<char>)
    requires
        lacks(params, "identifier"@),
        lacks(params, "carrier"@),
    ensures
        ({
            let all = seq![("identifier"@, key)] + params;
            &&& api::query_subject(all) == carrier::identifier_of(key)
            &&& api::asof_param(all) == api::asof_param(params)
            &&& api::context_params(all) == api::context_params(params)
            &&& api::link_type_param(all) == api::link_type_param(params)
        }),
{
    reveal_strlit("identifier");
    reveal_strlit("carrier");
    reveal_strlit("linkType");
    reveal_strlit("asof");
    reveal_strlit("profile");
    reveal_strlit("role");
    reveal_strlit("lang");
    reveal_strlit("region");
    let first = ("identifier"@, key);
    let all = seq![first] + params;
    assert("identifier"@.len() == 10);
    lemma_lookup_behind(first, params, "asof"@);
    lemma_lookup_behind(first, params, "linkType"@);
    lemma_lookup_behind(first, params, "profile"@);
    lemma_lookup_behind(first, params, "role"@);
    lemma_lookup_behind(first, params, "lang"@);
    lemma_lookup_behind(first, params, "region"@);
    assert(lacks(all, "carrier"@)) by {
        assert forall|i: int| 0 <= i < all.len() implies (#[trigger] all[i]).0 != "carrier"@ by {
            if i > 0 {
                assert(all[i] == params[i - 1]);
            }
        }
    }
    assert(counts(all, 0));
    law_the_subject_is_heard(all, 0);
}

proof fn lemma_raw_path(segments: Seq<Seq<char>>, tail: Seq<char>)
    requires
        urls::are_segments(segments),
        segments.len() > 0,
    ensures
        ({
            let path = urls::path_text(segments) + tail;
            &&& api::without_front_slashes(path) == path.skip(1)
            &&& path.len() > 1
            &&& path.skip(1) == urls::path_text(segments).skip(1) + tail
        }),
{
    let path = urls::path_text(segments) + tail;
    let e = proxy::query_component(segments[0]);
    urls::lemma_encoded(segments[0]);
    assert(segments[0].len() > 0);
    assert(path[0] == '/');
    assert(urls::path_text(segments)[1] == e[0]);
    assert(path[1] == e[0]);
    assert(urls::is_encoded_char(e[0]));
    assert(path.skip(1)[0] == e[0]);
    assert(path.skip(1) =~= urls::path_text(segments).skip(1) + tail);
    reveal_with_fuel(api::without_front_slashes, 2);
}

/// The parameters whose keys are application identifiers.
pub open spec fn qualifiers_among(params: Seq<(Seq<char>, Seq<char>)>) -> Seq<
    (Seq<char>, Seq<char>),
> {
    params.filter(
        |p: (Seq<char>, Seq<char>)|
            p.0.len() == 2 && '0' <= p.0[0] <= '9' && '0' <= p.0[1] <= '9',
    )
}

proof fn lemma_qualifiers_among(params: Seq<(Seq<char>, Seq<char>)>)
    ensures
        qualifiers_among(params) == params.filter(
            |p: (Seq<char>, Seq<char>)| api::is_qualifier_param(p),
        ),
{
    let f = |p: (Seq<char>, Seq<char>)|
        p.0.len() == 2 && '0' <= p.0[0] <= '9' && '0' <= p.0[1] <= '9';
    let g = |p: (Seq<char>, Seq<char>)| api::is_qualifier_param(p);
    assert forall|p: (Seq<char>, Seq<char>)| #[trigger] f(p) == g(p) by {
        if g(p) {
            assert(text::is_digit(p.0[0]) && text::is_digit(p.0[1]));
        }
    }
    assert(f =~= g);
}

/// The path form and the query form ask the same: a path that names an
/// identifier, with `/linkset` behind it, gives what the query form gives for
/// the key of that identifier and the same parameters, in every reply and at
/// every instant.
pub proof fn law_path_and_query_agree(
    l: LedgerView,
    has_upstream: bool,
    segments: Seq<Seq<char>>,
    params: Seq<(Seq<char>, Seq<char>)>,
    accept: Option<Seq<char>>,
    now: int,
    named: CarrierView,
)
    requires
        urls::are_segments(segments),
        segments.len() > 0,
        lacks(params, "identifier"@),
        lacks(params, "carrier"@),
        carrier::path_class(segments, qualifiers_among(params)) == LookupView::Parsed(named),
        carrier::identifier_of(named.identifier.key()) == Ok::<IdentifierView, Seq<char>>(named.identifier),
    ensures
        ({
            let path = urls::path_text(segments) + "/linkset"@;
            let asked = seq![("identifier"@, named.identifier.key())] + params;
            &&& api::path_resolution(l, has_upstream, path, params, accept, now) == api::query_resolution(
                l,
                has_upstream,
                asked,
                accept,
                now,
            )
            &&& api::path_document(l, path, params, accept, now) == api::query_document(l, asked, accept, now)
        }),
{
    reveal_strlit("/linkset");
    let tail = "/linkset"@;
    let raw = urls::path_text(segments).skip(1) + tail;
    lemma_raw_path(segments, tail);
    urls::lemma_path_reads_back(segments);
    lemma_qualifiers_among(params);
    lemma_asking_by_key(params, named.identifier.key());
    assert(raw.skip(raw.len() - 8) =~= tail);
    assert(raw.take(raw.len() - 8) =~= urls::path_text(segments).skip(1));
}

proof fn lemma_no_linkset_at_the_end(segments: Seq<Seq<char>>)
    requires
        urls::are_segments(segments),
        segments.len() > 0,
        segments.last() != "linkset"@,
    ensures
        !api::asks_for_linkset(urls::path_text(segments).skip(1)),
{
    reveal_strlit("/linkset");
    reveal_strlit("linkset");
    let path = urls::path_text(segments);
    let raw = path.skip(1);
    let last = segments.last();
    let e = proxy::query_component(last);
    lemma_path_text_grows(segments.drop_last(), last);
    assert(segments.drop_last().push(last) =~= segments);
    assert(seq![last].skip(1).len() == 0);
    assert(urls::path_text(seq![last]) =~= seq!['/'] + e) by {
        assert(urls::path_text(seq![last].skip(1)) =~= Seq::empty());
    }
    urls::lemma_encoded(last);
    let n = path.len() as int;
    let m = e.len() as int;
    assert(path[n - m - 1] == '/');
    if api::asks_for_linkset(raw) {
        let end = raw.skip(raw.len() - 8);
        assert forall|i: int| 0 <= i < 8 implies #[trigger] end[i] == path[n - 8 + i] by {
        }
        if m >= 8 {
            assert(path[n - 8] == e[m - 8]);
            assert(urls::is_encoded_char(e[m - 8]));
            assert(end[0] == '/');
        } else if m == 7 {
            assert(e =~= "linkset"@) by {
                assert forall|i: int| 0 <= i < 7 implies e[i] == "linkset"@[i] by {
                    assert(path[n - 7 + i] == e[i]);
                    assert(end[i + 1] == "/linkset"@[i + 1]);
                }
            }
            lemma_plain_text_is_kept("linkset"@);
            urls::lemma_encoded("linkset"@);
        } else {
            assert(end[7 - m] == '/');
            assert("/linkset"@[7 - m] != '/');
        }
    }
}

/// The path alone leads to the default link: it gives the redirect for the
/// identifier that it names, under the context, the link type and the instant
/// that its parameters ask for.
pub proof fn law_bare_path_redirects(
    l: LedgerView,
    has_upstream: bool,
    segments: Seq<Seq<char>>,
    params: Seq<(Seq<char>, Seq<char>)>,
    accept: Option<Seq<char>>,
    now: int,
    named: CarrierView,
    asof: Option<int>,
)
    requires
        urls::are_segments(segments),
        segments.len() > 0,
        segments.last() != "linkset"@,
        carrier::path_class(segments, qualifiers_among(params)) == LookupView::Parsed(named),
        api::asof_param(params) == Ok::<Option<int>, Seq<char>>(asof),
    ensures
        api::path_resolution(l, has_upstream, urls::path_text(segments), params, accept, now) == api::resolution(
            l,
            has_upstream,
            named.identifier,
            api::context_params(params),
            accept,
            api::link_type_param(params),
            asof,
            true,
            now,
        ),
{
    let none = Seq::<char>::empty();
    lemma_raw_path(segments, none);
    assert(urls::path_text(segments) + none =~= urls::path_text(segments));
    assert(urls::path_text(segments).skip(1) + none =~= urls::path_text(segments).skip(1));
    urls::lemma_path_reads_back(segments);
    lemma_qualifiers_among(params);
    lemma_no_linkset_at_the_end(segments);
}

/// The reply says that the question was not understood.
pub open spec fn is_bad_request(reply: ReplyView) -> bool {
    reply.status == 400
}

/// Every informative reply names the instant asked for, in the query form and in
/// the path form, whatever the path; and what is asked as of an instant does not
/// depend on when it is asked.
pub proof fn law_both_forms_keep_to_the_instant(
    l: LedgerView,
    has_upstream: bool,
    path: Seq<char>,
    params: Seq<(Seq<char>, Seq<char>)>,
    accept: Option<Seq<char>>,
    asof: Option<int>,
    now: int,
    later: int,
)
    requires
        api::asof_param(params) == Ok::<Option<int>, Seq<char>>(asof),
    ensures
        api::query_resolution(l, has_upstream, params, accept, now) matches ResolutionView::Done(r) ==> (
        r == reply::not_found_reply() || is_bad_request(r) || r.headers.contains(
            ("x-as-of"@, time::stamp(match asof {
                Some(t) => t,
                None => now,
            })),
        )),
        api::path_resolution(l, has_upstream, path, params, accept, now) matches ResolutionView::Done(r)
            ==> (r == reply::not_found_reply() || is_bad_request(r) || r.headers.contains(
            ("x-as-of"@, time::stamp(match asof {
                Some(t) => t,
                None => now,
            })),
        )),
        api::query_resolution(l, has_upstream, params, accept, now) matches ResolutionView::AskUpstream(q)
            ==> q.asof == asof,
        api::path_resolution(l, has_upstream, path, params, accept, now) matches
            ResolutionView::AskUpstream(q) ==> q.asof == asof,
        asof is Some ==> api::query_resolution(l, has_upstream, params, accept, now)
            == api::query_resolution(l, has_upstream, params, accept, later),
        asof is Some ==> api::path_resolution(l, has_upstream, path, params, accept, now)
            == api::path_resolution(l, has_upstream, path, params, accept, later),
{
    let ctx = api::context_params(params);
    let link_type = api::link_type_param(params);
    if let Ok(ident) = api::query_subject(params) {
        api::law_resolutions_are_stamped(
            l,
            has_upstream,
            ident,
            ctx,
            accept,
            link_type,
            asof,
            false,
            now,
        );
    }
    let raw = api::without_front_slashes(path);
    if let Some(segments) = gs1dl::path_segments_of(api::key_path_of(raw)) {
        if let LookupView::Parsed(p) = carrier::path_class(
            segments,
            params.filter(|p: (Seq<char>, Seq<char>)| api::is_qualifier_param(p)),
        ) {
            api::law_resolutions_are_stamped(
                l,
                has_upstream,
                p.identifier,
                ctx,
                accept,
                link_type,
                asof,
                !api::asks_for_linkset(raw),
                now,
            );
        }
    }
}

/// The reply that says what is wrong with a question.
pub open spec fn complains(r: ResolutionView, m: Seq<char>) -> bool {
    r == ResolutionView::Done(
        ReplyView {
            status: 400,
            headers: seq![("content-type"@, "application/json"@)],
            body: json::json_compact(JsonValue::Object(map!["error"@ => JsonValue::Str(m)])),
        },
    )
}

/// The reply that tells nothing.
pub open spec fn is_silent(r: ResolutionView) -> bool {
    r == ResolutionView::Done(
        ReplyView {
            status: 404,
            headers: seq![("content-type"@, "application/json"@)],
            body: "{\"error\":\"not found\"}"@,
        },
    )
}

/// A question in the query form asks for the document of its subject, with all
/// that its parameters say; one without a subject or with an instant that is
/// none is told what is wrong.
pub proof fn law_every_query_is_answered(
    l: LedgerView,
    has_upstream: bool,
    params: Seq<(Seq<char>, Seq<char>)>,
    accept: Option<Seq<char>>,
    now: int,
)
    ensures
        ({
            let r = api::query_resolution(l, has_upstream, params, accept, now);
            match api::query_subject(params) {
                Ok(ident) => match api::asof_param(params) {
                    Ok(asof) => r == api::resolution(
                        l,
                        has_upstream,
                        ident,
                        api::context_params(params),
                        accept,
                        api::link_type_param(params),
                        asof,
                        false,
                        now,
                    ),
                    Err(m) => complains(r, m),
                },
                Err(m) => complains(r, m),
            }
        }),
{
    assert forall|m: Seq<char>| #[trigger] reply::error_json(m) == JsonValue::Object(
        map!["error"@ => JsonValue::Str(m)],
    ) by {}
}

proof fn lemma_slashes_go(slashes: Seq<char>, rest: Seq<char>)
    requires
        forall|i: int| 0 <= i < slashes.len() ==> #[trigger] slashes[i] == '/',
        rest.len() > 0 ==> rest[0] != '/',
    ensures
        api::without_front_slashes(slashes + rest) == rest,
    decreases slashes.len(),
{
    let all = slashes + rest;
    if slashes.len() > 0 {
        assert(all[0] == slashes[0]);
        assert(all.skip(1) =~= slashes.skip(1) + rest);
        assert forall|i: int| 0 <= i < slashes.skip(1).len() implies #[trigger] slashes.skip(1)[i]
            == '/' by {
            assert(slashes.skip(1)[i] == slashes[i + 1]);
        }
        lemma_slashes_go(slashes.skip(1), rest);
    } else {
        assert(all =~= rest);
    }
}

/// A question in the path form asks for the carrier that its path names, however
/// many slashes stand before it: with `/linkset` behind for the document, and
/// without for the way to the default link. Parameters named by two digits
/// belong to the carrier. A path that names none tells nothing; one that names
/// an invalid one, or an instant that is none, is told so.
pub proof fn law_every_path_is_answered(
    l: LedgerView,
    has_upstream: bool,
    slashes: Seq<char>,
    key_path: Seq<char>,
    wants_document: bool,
    params: Seq<(Seq<char>, Seq<char>)>,
    accept: Option<Seq<char>>,
    now: int,
)
    requires
        forall|i: int| 0 <= i < slashes.len() ==> #[trigger] slashes[i] == '/',
        key_path.len() > 0 ==> key_path[0] != '/',
        wants_document ==> key_path.len() > 0,
        !wants_document ==> !ends_with_linkset(key_path),
    ensures
        ({
            let path = slashes + key_path + if wants_document {
                "/linkset"@
            } else {
                Seq::empty()
            };
            let r = api::path_resolution(l, has_upstream, path, params, accept, now);
            if key_path.len() == 0 {
                is_silent(r)
            } else {
                match gs1dl::path_segments_of(key_path) {
                    None => is_silent(r),
                    Some(segments) => match api::asof_param(params) {
                        Err(m) => complains(r, m),
                        Ok(asof) => match carrier::path_class(segments, qualifiers_among(params)) {
                            LookupView::Parsed(p) => r == api::resolution(
                                l,
                                has_upstream,
                                p.identifier,
                                api::context_params(params),
                                accept,
                                api::link_type_param(params),
                                asof,
                                !wants_document,
                                now,
                            ),
                            LookupView::Invalid => complains(
                                r,
                                "invalid carrier (check digit / values)"@,
                            ),
                            LookupView::Unrecognized => is_silent(r),
                        },
                    },
                }
            }
        }),
{
    let tail = if wants_document {
        "/linkset"@
    } else {
        Seq::empty()
    };
    let path = slashes + key_path + tail;
    let raw = key_path + tail;
    assert(path =~= slashes + raw);
    if raw.len() > 0 {
        assert(raw[0] == key_path[0]);
    }
    lemma_slashes_go(slashes, raw);
    lemma_qualifiers_among(params);
    reveal_strlit("/linkset");
    if wants_document {
        assert(raw.skip(raw.len() - 8) =~= "/linkset"@);
        assert(raw.take(raw.len() - 8) =~= key_path);
    } else {
        assert(raw =~= key_path);
    }
    assert forall|m: Seq<char>| #[trigger] reply::error_json(m) == JsonValue::Object(
        map!["error"@ => JsonValue::Str(m)],
    ) by {}
}

/// A path asks for a document by its end.
pub open spec fn ends_with_linkset(path: Seq<char>) -> bool {
    path.len() >= 8 && path.subrange(path.len() - 8, path.len() as int) == "/linkset"@
}

} // verus!
