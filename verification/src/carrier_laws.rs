//! Laws about carriers: what a link or a code that is printed on a product is
//! normalized to, for every product, lot and serial. Nothing here runs.

use vstd::prelude::*;

use crate::carrier;
use crate::carrier::{CarrierKind, CarrierView, IdentifierView, LookupView};
use crate::gbt33993;
use crate::gs1dl;
use crate::gs1dl::{ElementView, SUPPORTED_AIS};
use crate::laws;
use crate::proxy;
use crate::text;
use crate::urls;

verus! {

// ---------------------------------------------------------------------------
// GTINs
// ---------------------------------------------------------------------------

/// The sum over all digits of a GTIN, the check digit among them: from the
/// right, digits count once and three times in turn.
pub open spec fn full_sum(s: Seq<char>) -> int
    decreases s.len(),
{
    if s.len() == 0 {
        0
    } else {
        full_sum(s.skip(1)) + (s[0] as int - '0' as int) * (if s.len() % 2 == 0 {
            3int
        } else {
            1int
        })
    }
}

proof fn lemma_full_sum(s: Seq<char>)
    requires
        s.len() > 0,
        text::all_digits(s),
    ensures
        full_sum(s) == gs1dl::weighted_sum(s.drop_last()) + text::digit_value(s.last()),
        gs1dl::weighted_sum(s.drop_last()) >= 0,
    decreases s.len(),
{
    assert(text::is_digit(s[0]));
    if s.len() == 1 {
        assert(s.skip(1).len() == 0);
        assert(full_sum(s.skip(1)) == 0);
        assert(s.drop_last().len() == 0);
    } else {
        let t = s.skip(1);
        assert forall|i: int| 0 <= i < t.len() implies text::is_digit(#[trigger] t[i]) by {
            assert(t[i] == s[i + 1]);
        }
        lemma_full_sum(t);
        let d = s.drop_last();
        assert(d.skip(1) =~= t.drop_last());
        assert(d[0] == s[0]);
        let x = text::digit_value(s[0]);
        let w = gs1dl::weight(d.len() - 1);
        assert(gs1dl::weighted_sum(d) == x * w + gs1dl::weighted_sum(d.skip(1)));
        assert(x * w >= 0) by (nonlinear_arith)
            requires
                x >= 0,
                w >= 0,
        ;
    }
}

/// A GTIN is valid exactly where it has 8, 12, 13 or 14 characters, all of them
/// digits, and the sum over all of them, counted from the right once and three
/// times in turn, ends in zero.
pub proof fn law_valid_gtin_sums_to_zero(s: Seq<char>)
    ensures
        gs1dl::is_valid_gtin(s) <==> (s.len() == 8 || s.len() == 12 || s.len() == 13 || s.len() == 14) && (
        forall|i: int| 0 <= i < s.len() ==> '0' <= #[trigger] s[i] <= '9') && full_sum(s) % 10 == 0,
{
    if s.len() > 0 && text::all_digits(s) {
        lemma_full_sum(s);
        assert(text::is_digit(s[s.len() - 1]));
    }
    if forall|i: int| 0 <= i < s.len() ==> '0' <= #[trigger] s[i] <= '9' {
        assert(text::all_digits(s));
    }
    if text::all_digits(s) {
        assert forall|i: int| 0 <= i < s.len() implies '0' <= #[trigger] s[i] <= '9' by {
            assert(text::is_digit(s[i]));
        }
    }
}

/// A code filled up with zeros on the left to 14 characters.
pub open spec fn zero_filled(s: Seq<char>) -> Seq<char> {
    Seq::new(14, |i: int| if i < 14 - s.len() { '0' } else { s[i - (14 - s.len())] })
}

proof fn lemma_zero_filled(s: Seq<char>)
    requires
        s.len() <= 14,
    ensures
        gs1dl::pad14(s) == zero_filled(s),
{
    assert(gs1dl::pad14(s) =~= zero_filled(s));
}

// ---------------------------------------------------------------------------
// Element strings in paths and queries
// ---------------------------------------------------------------------------

/// The segments hold an application identifier at this place, with a value
/// behind it, and none of the same before. Identifiers stand at even places.
pub open spec fn holds_at(segments: Seq<Seq<char>>, ai: Seq<char>, i: int) -> bool {
    &&& 0 <= i && i % 2 == 0 && i + 1 < segments.len()
    &&& segments[i] == ai
    &&& forall|j: int| 0 <= j < i && j % 2 == 0 ==> #[trigger] segments[j] != ai
}

/// The segments hold no such application identifier.
pub open spec fn holds_none(segments: Seq<Seq<char>>, ai: Seq<char>) -> bool {
    forall|j: int| 0 <= j && j % 2 == 0 && j + 1 < segments.len() ==> #[trigger] segments[j] != ai
}

/// A lot or a serial that can be taken: 1 to 20 characters, each of which is a
/// letter, an exclamation mark, an underscore, or one from `%` to `?`.
pub open spec fn taken(s: Seq<char>) -> Option<Seq<char>> {
    if 1 <= s.len() <= 20 && forall|i: int|
        0 <= i < s.len() ==> 'a' <= #[trigger] s[i] <= 'z' || 'A' <= s[i] <= 'Z' || s[i] == '!'
            || s[i] == '_' || '%' <= s[i] <= '?' {
        Some(s)
    } else {
        None
    }
}

proof fn lemma_taken(s: Seq<char>)
    ensures
        gs1dl::checked(Some(s)) == taken(s),
{
    if gs1dl::is_dl_value(s) {
        assert forall|i: int| 0 <= i < s.len() implies 'a' <= #[trigger] s[i] <= 'z' || 'A' <= s[i]
            <= 'Z' || s[i] == '!' || s[i] == '_' || '%' <= s[i] <= '?' by {
            assert(gs1dl::is_dl_char(s[i]));
        }
    }
    if taken(s) is Some {
        assert forall|i: int| 0 <= i < s.len() implies gs1dl::is_dl_char(#[trigger] s[i]) by {
            assert('a' <= s[i] <= 'z' || 'A' <= s[i] <= 'Z' || s[i] == '!' || s[i] == '_' || '%'
                <= s[i] <= '?');
        }
    }
}

proof fn lemma_held(segments: Seq<Seq<char>>, ai: Seq<char>, i: int)
    requires
        holds_at(segments, ai, i),
        gs1dl::is_supported(ai),
    ensures
        gs1dl::lookup(gs1dl::path_ais(segments), ai) == Some(segments[i + 1]),
    decreases segments.len(),
{
    let rest = gs1dl::path_ais(segments.skip(2));
    if i == 0 {
        assert(gs1dl::path_ais(segments)[0] == (segments[0], segments[1]));
    } else {
        let t = segments.skip(2);
        assert(t[i - 2] == segments[i] && t[i - 1] == segments[i + 1]);
        assert forall|j: int| 0 <= j < i - 2 && j % 2 == 0 implies #[trigger] t[j] != ai by {
            assert(t[j] == segments[j + 2]);
        }
        lemma_held(t, ai, i - 2);
        assert(segments[0] != ai);
        if gs1dl::is_supported(segments[0]) {
            let first = (segments[0], segments[1]);
            assert((seq![first] + rest).skip(1) =~= rest);
        }
    }
}

proof fn lemma_not_held(segments: Seq<Seq<char>>, ai: Seq<char>)
    requires
        holds_none(segments, ai),
    ensures
        gs1dl::lookup(gs1dl::path_ais(segments), ai) is None,
    decreases segments.len(),
{
    if segments.len() >= 2 {
        let rest = gs1dl::path_ais(segments.skip(2));
        let t = segments.skip(2);
        assert forall|j: int|
            0 <= j && j % 2 == 0 && j + 1 < t.len() implies #[trigger] t[j] != ai by {
            assert(t[j] == segments[j + 2]);
        }
        lemma_not_held(t, ai);
        assert(segments[0] != ai);
        if gs1dl::is_supported(segments[0]) {
            let first = (segments[0], segments[1]);
            assert((seq![first] + rest).skip(1) =~= rest);
        }
    }
}

/// A key path is read as it is written: its GTIN is that of the first `01`,
/// filled up with zeros; its lot and its serial are those of the first `10` and
/// the first `21` in the path, or else in the query; each is dropped where it
/// cannot be taken; and there is nothing without a valid GTIN.
pub proof fn law_key_path_is_read_as_written(
    segments: Seq<Seq<char>>,
    query: Seq<(Seq<char>, Seq<char>)>,
    i: int,
    k: int,
)
    ensures
        holds_none(segments, "01"@) ==> gs1dl::key_path_element(segments, query) is None,
        holds_at(segments, "01"@, i) && segments[i + 1].len() <= 14 && gs1dl::is_valid_gtin(
            zero_filled(segments[i + 1]),
        ) ==> gs1dl::key_path_element(segments, query) is Some,
        holds_at(segments, "01"@, i) && !(segments[i + 1].len() <= 14 && gs1dl::is_valid_gtin(
            zero_filled(segments[i + 1]),
        )) ==> gs1dl::key_path_element(segments, query) is None,
        gs1dl::key_path_element(segments, query) matches Some(el) ==> {
            &&& holds_at(segments, "01"@, i) ==> el.gtin == zero_filled(segments[i + 1])
            &&& holds_at(segments, "10"@, i) ==> el.lot == taken(segments[i + 1])
            &&& holds_at(segments, "21"@, i) ==> el.serial == taken(segments[i + 1])
            &&& holds_none(segments, "10"@) && laws::counts(query, k) && query[k].0 == "10"@ ==> el.lot
                == taken(query[k].1)
            &&& holds_none(segments, "21"@) && laws::counts(query, k) && query[k].0 == "21"@ ==> el.serial
                == taken(query[k].1)
            &&& holds_none(segments, "10"@) && laws::lacks(query, "10"@) ==> el.lot is None
            &&& holds_none(segments, "21"@) && laws::lacks(query, "21"@) ==> el.serial is None
        },
{
    lemma_supported();
    if 0 <= i && i + 1 < segments.len() {
        let v = segments[i + 1];
        if v.len() <= 14 {
            lemma_zero_filled(v);
        }
        lemma_taken(v);
        if holds_at(segments, "01"@, i) {
            lemma_held(segments, "01"@, i);
        }
        if holds_at(segments, "10"@, i) {
            lemma_held(segments, "10"@, i);
        }
        if holds_at(segments, "21"@, i) {
            lemma_held(segments, "21"@, i);
        }
    }
    if holds_none(segments, "01"@) {
        lemma_not_held(segments, "01"@);
    }
    if holds_none(segments, "10"@) {
        lemma_not_held(segments, "10"@);
    }
    if holds_none(segments, "21"@) {
        lemma_not_held(segments, "21"@);
    }
    if laws::counts(query, k) {
        laws::lemma_lookup_counts(query, k);
        lemma_taken(query[k].1);
    }
    if laws::lacks(query, "10"@) {
        laws::lemma_lookup_lacks(query, "10"@);
    }
    if laws::lacks(query, "21"@) {
        laws::lemma_lookup_lacks(query, "21"@);
    }
}

proof fn lemma_supported()
    ensures
        gs1dl::is_supported("01"@) && gs1dl::is_supported("10"@) && gs1dl::is_supported("21"@),
{
    assert(SUPPORTED_AIS@[0]@ == "01"@);
    assert(SUPPORTED_AIS@[1]@ == "10"@);
    assert(SUPPORTED_AIS@[2]@ == "21"@);
}

// ---------------------------------------------------------------------------
// Carriers
// ---------------------------------------------------------------------------

/// The identifier of a product, of a lot of it, or of one piece of it.
pub open spec fn gs1_identifier(
    gtin: Seq<char>,
    lot: Option<Seq<char>>,
    serial: Option<Seq<char>>,
) -> IdentifierView {
    IdentifierView {
        scheme: "gs1"@,
        value: "(01)"@ + gtin + (match lot {
            Some(l) => "(10)"@ + l,
            None => Seq::empty(),
        }) + (match serial {
            Some(s) => "(21)"@ + s,
            None => Seq::empty(),
        }),
        granularity: if serial is Some {
            "item"@
        } else if lot is Some {
            "batch"@
        } else {
            "model"@
        },
    }
}

proof fn lemma_gs1_identifier(el: ElementView)
    ensures
        gs1dl::element_identifier(el) == gs1_identifier(el.gtin, el.lot, el.serial),
{
}

proof fn lemma_query_ends_plainly(pairs: Seq<(Seq<char>, Seq<char>)>)
    requires
        pairs.len() > 0,
    ensures
        urls::query_text(pairs).len() > 0,
        !text::is_space(urls::query_text(pairs).last()),
    decreases pairs.len(),
{
    if pairs.len() == 1 {
        let v = proxy::query_component(pairs[0].1);
        urls::lemma_encoded(pairs[0].1);
        if v.len() > 0 {
            assert(urls::query_text(pairs).last() == v[v.len() - 1]);
            assert(urls::is_encoded_char(v[v.len() - 1]));
        } else {
            assert(urls::query_text(pairs).last() == '=');
        }
    } else {
        lemma_query_ends_plainly(pairs.skip(1));
        assert(urls::query_text(pairs).last() == urls::query_text(pairs.skip(1)).last());
    }
}

proof fn lemma_path_ends_plainly(segments: Seq<Seq<char>>)
    requires
        urls::are_segments(segments),
        segments.len() > 0,
    ensures
        urls::path_text(segments).len() > 0,
        !text::is_space(urls::path_text(segments).last()),
    decreases segments.len(),
{
    let e = proxy::query_component(segments[0]);
    urls::lemma_encoded(segments[0]);
    assert(segments[0].len() > 0);
    if segments.len() == 1 {
        assert(segments.skip(1).len() == 0);
        assert(urls::path_text(segments.skip(1)).len() == 0);
        assert(urls::path_text(segments).last() == e[e.len() - 1]);
        assert(urls::is_encoded_char(e[e.len() - 1]));
    } else {
        let rest = segments.skip(1);
        assert forall|i: int| 0 <= i < rest.len() implies (#[trigger] rest[i]).len() > 0 by {
            assert(rest[i] == segments[i + 1]);
        }
        lemma_path_ends_plainly(rest);
        assert(urls::path_text(segments).last() == urls::path_text(rest).last());
    }
}

proof fn lemma_url_is_tight(
    scheme: Seq<char>,
    authority: Seq<char>,
    segments: Seq<Seq<char>>,
    pairs: Seq<(Seq<char>, Seq<char>)>,
)
    requires
        scheme == "http"@ || scheme == "https"@,
        urls::are_segments(segments),
        segments.len() > 0,
    ensures
        text::trim(urls::url_text(scheme, authority, segments, pairs)) == urls::url_text(
            scheme,
            authority,
            segments,
            pairs,
        ),
{
    reveal_strlit("http");
    reveal_strlit("https");
    let url = urls::url_text(scheme, authority, segments, pairs);
    assert(url[0] == scheme[0]);
    lemma_path_ends_plainly(segments);
    if pairs.len() == 0 {
        assert(urls::query_part(pairs).len() == 0);
        assert(url.last() == urls::path_text(segments).last());
    } else {
        lemma_query_ends_plainly(pairs);
        assert(url.last() == urls::query_text(pairs).last());
    }
    text::lemma_trim_tight(url);
}

/// A Digital Link is normalized to what its path and its query name: the
/// product with its lot and its serial, at the finest granularity that is named;
/// and the same segments and parameters as a key path name the same identifier.
pub proof fn law_digital_link_is_normalized(
    scheme: Seq<char>,
    authority: Seq<char>,
    segments: Seq<Seq<char>>,
    pairs: Seq<(Seq<char>, Seq<char>)>,
    el: ElementView,
)
    requires
        scheme == "http"@ || scheme == "https"@,
        urls::is_host(authority),
        urls::are_segments(segments),
        gs1dl::key_path_element(segments, pairs) == Some(el),
    ensures
        carrier::carrier_of(urls::url_text(scheme, authority, segments, pairs)) == Some(
            CarrierView {
                kind: CarrierKind::Gs1DigitalLink,
                identifier: gs1_identifier(el.gtin, el.lot, el.serial),
                resolver_base_url: Some(scheme + "://"@ + authority),
                origin: None,
            },
        ),
        segments[0].len() == 2 && '0' <= segments[0][0] <= '9' && '0' <= segments[0][1] <= '9'
            ==> carrier::path_class(segments, pairs) == LookupView::Parsed(
            CarrierView {
                kind: CarrierKind::Gs1DigitalLink,
                identifier: gs1_identifier(el.gtin, el.lot, el.serial),
                resolver_base_url: None,
                origin: None,
            },
        ),
{
    if segments.len() < 2 {
        assert(gs1dl::path_ais(segments).len() == 0);
        assert(gs1dl::lookup(gs1dl::path_ais(segments), "01"@) is None);
    }
    lemma_url_is_tight(scheme, authority, segments, pairs);
    urls::law_url_reads_back(scheme, authority, segments, pairs);
    lemma_gs1_identifier(el);
}

/// The segments of a Digital Link path with a lot and a serial, as far as they
/// stand there.
pub open spec fn link_segments(
    gtin: Seq<char>,
    lot: Option<Seq<char>>,
    serial: Option<Seq<char>>,
) -> Seq<Seq<char>> {
    seq!["01"@, gtin] + (match lot {
        Some(l) => seq!["10"@, l],
        None => Seq::empty(),
    }) + (match serial {
        Some(s) => seq!["21"@, s],
        None => Seq::empty(),
    })
}

/// The parameters of a Digital Link with a lot and a serial, as far as they
/// stand there.
pub open spec fn link_params(lot: Option<Seq<char>>, serial: Option<Seq<char>>) -> Seq<
    (Seq<char>, Seq<char>),
> {
    (match lot {
        Some(l) => seq![("10"@, l)],
        None => Seq::empty(),
    }) + (match serial {
        Some(s) => seq![("21"@, s)],
        None => Seq::empty(),
    })
}

/// Whichever is there, the first before the second.
pub open spec fn either(a: Option<Seq<char>>, b: Option<Seq<char>>) -> Option<Seq<char>> {
    if a is Some {
        a
    } else {
        b
    }
}

/// A text that can be a lot or a serial, where there is one.
pub open spec fn can_be_taken(o: Option<Seq<char>>) -> bool {
    o matches Some(s) ==> taken(s) is Some
}

/// A Digital Link for a valid GTIN, with a lot and a serial in the path or in the
/// query, is normalized to the product with that lot and that serial, whatever
/// they are; the path outranks the query. A key path reads the same.
pub proof fn law_digital_link_names_lot_and_serial(
    scheme: Seq<char>,
    authority: Seq<char>,
    gtin: Seq<char>,
    path_lot: Option<Seq<char>>,
    path_serial: Option<Seq<char>>,
    query_lot: Option<Seq<char>>,
    query_serial: Option<Seq<char>>,
)
    requires
        scheme == "http"@ || scheme == "https"@,
        urls::is_host(authority),
        gs1dl::is_valid_gtin(gtin),
        can_be_taken(path_lot) && can_be_taken(path_serial),
        can_be_taken(query_lot) && can_be_taken(query_serial),
    ensures
        ({
            let segments = link_segments(gtin, path_lot, path_serial);
            let pairs = link_params(query_lot, query_serial);
            let id = gs1_identifier(
                zero_filled(gtin),
                either(path_lot, query_lot),
                either(path_serial, query_serial),
            );
            &&& carrier::carrier_of(urls::url_text(scheme, authority, segments, pairs)) matches Some(c)
                && c.identifier == id && c.kind == CarrierKind::Gs1DigitalLink
            &&& carrier::path_class(segments, pairs) matches LookupView::Parsed(c) && c.identifier == id
        }),
{
    reveal_strlit("01");
    reveal_strlit("10");
    reveal_strlit("21");
    let segments = link_segments(gtin, path_lot, path_serial);
    let pairs = link_params(query_lot, query_serial);
    assert("01"@[0] == '0' && "10"@[0] == '1' && "21"@[0] == '2');
    assert(segments[0] == "01"@ && segments[1] == gtin);
    gs1dl::law_padding_keeps_validity(gtin);
    lemma_zero_filled(gtin);
    assert(holds_at(segments, "01"@, 0));
    law_key_path_is_read_as_written(segments, pairs, 0, 0);
    assert(gs1dl::key_path_element(segments, pairs) is Some);
    let el = gs1dl::key_path_element(segments, pairs)->0;
    assert(el.gtin == zero_filled(gtin));
    let q: int = if query_lot is Some {
        1
    } else {
        0
    };
    if query_lot is Some {
        assert(pairs[0] == ("10"@, query_lot->0));
        assert(laws::counts(pairs, 0));
    } else {
        assert(laws::lacks(pairs, "10"@));
    }
    if query_serial is Some {
        assert(pairs[q] == ("21"@, query_serial->0));
        assert(laws::counts(pairs, q));
    } else {
        assert(laws::lacks(pairs, "21"@));
    }
    match path_lot {
        Some(l) => {
            assert(segments[2] == "10"@ && segments[3] == l);
            assert(holds_at(segments, "10"@, 2));
            law_key_path_is_read_as_written(segments, pairs, 2, 0);
        },
        None => {
            assert(holds_none(segments, "10"@));
            law_key_path_is_read_as_written(segments, pairs, 0, 0);
        },
    }
    assert(el.lot == either(path_lot, query_lot));
    match path_serial {
        Some(s) => {
            let at: int = if path_lot is Some {
                4
            } else {
                2
            };
            assert(segments[at] == "21"@ && segments[at + 1] == s);
            assert(holds_at(segments, "21"@, at));
            law_key_path_is_read_as_written(segments, pairs, at, 0);
        },
        None => {
            assert(holds_none(segments, "21"@));
            law_key_path_is_read_as_written(segments, pairs, 0, q);
        },
    }
    assert(el.serial == either(path_serial, query_serial));
    assert(urls::are_segments(segments)) by {
        assert forall|i: int| 0 <= i < segments.len() implies (#[trigger] segments[i]).len() > 0 by {
            if i >= 2 {
                if let Some(l) = path_lot {
                    assert(taken(l) is Some);
                }
                if let Some(s) = path_serial {
                    assert(taken(s) is Some);
                }
            }
        }
    }
    law_digital_link_is_normalized(scheme, authority, segments, pairs, el);
}

/// A segment behind a GTIN that can be a serial or a lot: 1 to 20 letters,
/// digits, underscores, points and hyphens.
pub open spec fn is_gds_part(q: Seq<char>) -> bool {
    1 <= q.len() <= 20 && forall|i: int|
        0 <= i < q.len() ==> 'a' <= #[trigger] q[i] <= 'z' || 'A' <= q[i] <= 'Z' || '0' <= q[i] <= '9'
            || q[i] == '_' || q[i] == '.' || q[i] == '-'
}

/// The text has a letter.
pub open spec fn is_lettered(q: Seq<char>) -> bool {
    exists|i: int| 0 <= i < q.len() && ('a' <= #[trigger] q[i] <= 'z' || 'A' <= q[i] <= 'Z')
}

proof fn lemma_gds_part(q: Seq<char>)
    ensures
        is_gds_part(q) == gbt33993::is_qualifier(q),
        is_lettered(q) == gbt33993::has_letter(q),
{
    if is_gds_part(q) {
        assert forall|i: int| 0 <= i < q.len() implies gbt33993::is_qualifier_char(#[trigger] q[i]) by {
            assert('a' <= q[i] <= 'z' || 'A' <= q[i] <= 'Z' || '0' <= q[i] <= '9' || q[i] == '_'
                || q[i] == '.' || q[i] == '-');
        }
    }
    if gbt33993::is_qualifier(q) {
        assert forall|i: int| 0 <= i < q.len() implies 'a' <= #[trigger] q[i] <= 'z' || 'A' <= q[i]
            <= 'Z' || '0' <= q[i] <= '9' || q[i] == '_' || q[i] == '.' || q[i] == '-' by {
            assert(gbt33993::is_qualifier_char(q[i]));
        }
    }
    if is_lettered(q) {
        let i = choose|i: int|
            0 <= i < q.len() && ('a' <= #[trigger] q[i] <= 'z' || 'A' <= q[i] <= 'Z');
        assert(text::is_letter(q[i]));
    }
    if gbt33993::has_letter(q) {
        let i = choose|i: int| 0 <= i < q.len() && text::is_letter(#[trigger] q[i]);
        assert('a' <= q[i] <= 'z' || 'A' <= q[i] <= 'Z');
    }
}

/// A GDS link names the product by its 13 digits, and behind them one piece of
/// it where the next segment has a letter, or a lot where it has none; a segment
/// that can be neither is passed over. The key path names the same. With a wrong
/// check digit the link is no carrier at all.
pub proof fn law_gds_link_is_normalized(
    scheme: Seq<char>,
    authority: Seq<char>,
    code: Seq<char>,
    part: Option<Seq<char>>,
    pairs: Seq<(Seq<char>, Seq<char>)>,
)
    requires
        scheme == "http"@ || scheme == "https"@,
        urls::is_host(authority),
        code.len() == 13,
        forall|i: int| 0 <= i < 13 ==> '0' <= #[trigger] code[i] <= '9',
        part matches Some(q) ==> q.len() > 0,
    ensures
        ({
            let segments = seq!["g"@, code] + match part {
                Some(q) => seq![q],
                None => Seq::empty(),
            };
            let url = urls::url_text(scheme, authority, segments, pairs);
            let id = gs1_identifier(
                seq!['0'] + code,
                match part {
                    Some(q) => if is_gds_part(q) && !is_lettered(q) {
                        Some(q)
                    } else {
                        None
                    },
                    None => None,
                },
                match part {
                    Some(q) => if is_gds_part(q) && is_lettered(q) {
                        Some(q)
                    } else {
                        None
                    },
                    None => None,
                },
            );
            if gs1dl::is_valid_gtin(code) {
                &&& carrier::carrier_of(url) == Some(
                    CarrierView {
                        kind: CarrierKind::Gbt33993,
                        identifier: id,
                        resolver_base_url: Some(scheme + "://"@ + authority),
                        origin: Some("gds-path"@),
                    },
                )
                &&& carrier::path_class(segments, pairs) matches LookupView::Parsed(c) && c.identifier == id
            } else {
                &&& carrier::carrier_of(url) is None
                &&& carrier::carrier_class(url) == LookupView::Invalid
                &&& carrier::path_class(segments, pairs) == LookupView::Invalid
            }
        }),
{
    reveal_strlit("g");
    reveal_strlit("0");
    reveal_strlit("01");
    let segments = seq!["g"@, code] + match part {
        Some(q) => seq![q],
        None => Seq::empty(),
    };
    let url = urls::url_text(scheme, authority, segments, pairs);
    assert(segments[0] == "g"@ && segments[1] == code);
    assert(text::all_digits(code));
    assert("0"@ + code =~= seq!['0'] + code);
    gs1dl::law_padding_keeps_validity(code);
    assert(gs1dl::pad14(code) =~= seq!['0'] + code);
    assert(holds_none(segments, "01"@)) by {
        assert("g"@.len() == 1 && "01"@.len() == 2);
    }
    law_key_path_is_read_as_written(segments, pairs, 0, 0);
    assert(urls::are_segments(segments));
    lemma_url_is_tight(scheme, authority, segments, pairs);
    urls::law_url_reads_back(scheme, authority, segments, pairs);
    if let Some(q) = part {
        lemma_gds_part(q);
        assert(segments[2] == q);
    }
    assert(!carrier::is_urn(url)) by {
        lemma_url_is_no_urn(scheme, authority, segments, pairs);
    }
    if gs1dl::is_valid_gtin(code) {
        let el = gbt33993::gds_element(segments)->0;
        lemma_gs1_identifier(el);
    }
}

proof fn lemma_url_is_no_urn(
    scheme: Seq<char>,
    authority: Seq<char>,
    segments: Seq<Seq<char>>,
    pairs: Seq<(Seq<char>, Seq<char>)>,
)
    requires
        scheme == "http"@ || scheme == "https"@,
    ensures
        !carrier::is_urn(urls::url_text(scheme, authority, segments, pairs)),
{
    reveal_strlit("http");
    reveal_strlit("https");
    reveal_strlit("urn:iso:std:iso-iec:15459");
    let url = urls::url_text(scheme, authority, segments, pairs);
    assert(url[0] == 'h');
    if carrier::urn_prefix().is_prefix_of(url) {
        assert(url.subrange(0, carrier::urn_prefix().len() as int)[0] == 'u');
    }
}

/// A bare code of 13 or 14 digits is the product that it numbers, and no carrier
/// with a wrong check digit.
pub proof fn law_bare_code_is_normalized(code: Seq<char>)
    requires
        code.len() == 13 || code.len() == 14,
        forall|i: int| 0 <= i < code.len() ==> '0' <= #[trigger] code[i] <= '9',
    ensures
        gs1dl::is_valid_gtin(code) ==> carrier::carrier_of(code) == Some(
            CarrierView {
                kind: CarrierKind::Gbt33993,
                identifier: gs1_identifier(zero_filled(code), None, None),
                resolver_base_url: None,
                origin: Some("legacy-ean13"@),
            },
        ),
        !gs1dl::is_valid_gtin(code) ==> carrier::carrier_of(code) is None && carrier::carrier_class(code)
            == LookupView::Invalid,
{
    reveal_strlit("urn:iso:std:iso-iec:15459");
    assert(text::all_digits(code));
    assert(text::is_digit(code[0]) && text::is_digit(code[code.len() - 1]));
    text::lemma_trim_tight(code);
    carrier::lemma_digits_are_no_url(code);
    gs1dl::law_padding_keeps_validity(code);
    lemma_zero_filled(code);
    lemma_gs1_identifier(ElementView { gtin: gs1dl::pad14(code), lot: None, serial: None });
    if carrier::urn_prefix().is_prefix_of(code) {
        assert(code.subrange(0, carrier::urn_prefix().len() as int)[0] == 'u');
    }
}

/// An ISO/IEC 15459 URN passes through as it is.
pub proof fn law_urn_passes_through(mark: char, rest: Seq<char>)
    requires
        mark == ':' || mark == '#',
        rest.len() > 0,
        !text::is_space(rest.last()),
    ensures
        ({
            let urn = "urn:iso:std:iso-iec:15459"@ + seq![mark] + rest;
            carrier::carrier_of(urn) == Some(
                CarrierView {
                    kind: CarrierKind::Unknown,
                    identifier: IdentifierView {
                        scheme: "iso-15459"@,
                        value: urn,
                        granularity: "item"@,
                    },
                    resolver_base_url: None,
                    origin: None,
                },
            )
        }),
{
    reveal_strlit("urn:iso:std:iso-iec:15459");
    let prefix = "urn:iso:std:iso-iec:15459"@;
    let urn = prefix + seq![mark] + rest;
    assert(urn[0] == 'u');
    assert(urn.last() == rest.last());
    text::lemma_trim_tight(urn);
    assert(prefix =~= urn.subrange(0, prefix.len() as int));
    assert(urn[prefix.len() as int] == mark);
    lemma_urn_is_no_url(urn);
}

proof fn lemma_urn_is_no_url(urn: Seq<char>)
    requires
        urn.len() > 0,
        urn[0] == 'u',
    ensures
        gs1dl::url_parts(urn) is None,
        !gbt33993::is_legacy_shaped(urn),
{
    reveal_strlit("http");
    reveal_strlit("https");
    reveal_strlit("://");
    if "://"@.is_prefix_of(urn) {
        assert(urn.subrange(0, 3)[0] == ':');
    }
    if let Some(n) = text::find(urn, "://"@) {
        assert(n > 0);
        let scheme = text::lower(urn.take(n as int));
        lemma_find_within(urn, "://"@);
        assert(scheme[0] == text::lower_char('u'));
        assert(scheme[0] == 'u');
        assert("http"@[0] == 'h' && "https"@[0] == 'h');
    }
    if gbt33993::is_legacy_shaped(urn) {
        assert(text::is_digit(urn[0]));
    }
}

proof fn lemma_find_within(s: Seq<char>, pat: Seq<char>)
    ensures
        text::find(s, pat) matches Some(n) ==> n <= s.len(),
    decreases s.len(),
{
    if !pat.is_prefix_of(s) && s.len() > 0 {
        lemma_find_within(s.skip(1), pat);
    }
}

/// Any other web address is a code of its owner and stands for itself: one that
/// holds no valid GTIN under `01` and is no GDS link.
pub proof fn law_other_links_stand_for_themselves(
    scheme: Seq<char>,
    authority: Seq<char>,
    segments: Seq<Seq<char>>,
    pairs: Seq<(Seq<char>, Seq<char>)>,
)
    requires
        scheme == "http"@ || scheme == "https"@,
        urls::is_host(authority),
        urls::are_segments(segments),
        segments.len() > 0,
        gs1dl::key_path_element(segments, pairs) is None,
        segments.len() >= 2 ==> !(segments[0] == "g"@ && segments[1].len() == 13 && forall|i: int|
            0 <= i < 13 ==> '0' <= #[trigger] segments[1][i] <= '9'),
    ensures
        ({
            let url = urls::url_text(scheme, authority, segments, pairs);
            carrier::carrier_of(url) == Some(
                CarrierView {
                    kind: CarrierKind::Gbt33993,
                    identifier: IdentifierView {
                        scheme: "gbt-33993"@,
                        value: url,
                        granularity: "item"@,
                    },
                    resolver_base_url: Some(scheme + "://"@ + authority),
                    origin: Some("custom-code"@),
                },
            )
        }),
{
    lemma_url_is_tight(scheme, authority, segments, pairs);
    urls::law_url_reads_back(scheme, authority, segments, pairs);
    if gbt33993::is_gds_shaped(segments) {
        assert forall|i: int| 0 <= i < 13 implies '0' <= #[trigger] segments[1][i] <= '9' by {
            assert(text::is_digit(segments[1][i]));
        }
    }
}

/// What is classified as a carrier is what the carrier is, and nothing else is
/// one; a key path begins with a two-digit application identifier or with `g`.
pub proof fn law_classes_are_carriers(
    scanned: Seq<char>,
    segments: Seq<Seq<char>>,
    query: Seq<(Seq<char>, Seq<char>)>,
)
    ensures
        match carrier::carrier_of(scanned) {
            Some(c) => carrier::carrier_class(scanned) == LookupView::Parsed(c),
            None => !(carrier::carrier_class(scanned) is Parsed),
        },
        segments.len() == 0 ==> carrier::path_class(segments, query) == LookupView::Unrecognized,
        segments.len() > 0 ==> {
            let ai = segments[0].len() == 2 && '0' <= segments[0][0] <= '9' && '0' <= segments[0][1]
                <= '9';
            &&& ai ==> carrier::path_class(segments, query) != LookupView::Unrecognized && (carrier::path_class(
                segments,
                query,
            ) is Parsed <==> gs1dl::key_path_element(segments, query) is Some)
            &&& !ai && segments[0] != "g"@ ==> carrier::path_class(segments, query)
                == LookupView::Unrecognized
            &&& segments[0] == "g"@ ==> carrier::path_class(segments, query) != LookupView::Unrecognized
        },
{
    reveal_strlit("g");
    if segments.len() > 0 {
        let f = segments[0];
        if f.len() == 2 {
            assert(text::all_digits(f) <==> ('0' <= f[0] <= '9' && '0' <= f[1] <= '9')) by {
                if text::all_digits(f) {
                    assert(text::is_digit(f[0]) && text::is_digit(f[1]));
                }
            }
        }
    }
}

/// A lot or a serial as it can stand in an element string: one that can be taken
/// and in which no `(` occurs.
pub open spec fn is_inline(o: Option<Seq<char>>) -> bool {
    o matches Some(s) ==> taken(s) is Some && !s.contains('(')
}

proof fn lemma_qualifiers_shape(tail: Seq<char>, has_lot: bool, has_serial: bool) -> (parts: (
    Option<Seq<char>>,
    Option<Seq<char>>,
))
    requires
        carrier::qualifiers_of(tail, has_lot, has_serial) is Ok,
    ensures
        tail == gs1dl::lot_part(parts.0) + gs1dl::serial_part(parts.1),
        is_inline(parts.0) && is_inline(parts.1),
        has_lot ==> parts.0 is None,
        has_serial ==> parts.0 is None && parts.1 is None,
        carrier::qualifiers_of(tail, has_lot, has_serial) == Ok::<(bool, bool), Seq<char>>(
            (has_lot || parts.0 is Some, has_serial || parts.1 is Some),
        ),
    decreases tail.len(),
{
    reveal_strlit("(10)");
    reveal_strlit("(21)");
    if tail.len() == 0 {
        let none: (Option<Seq<char>>, Option<Seq<char>>) = (None, None);
        assert(tail =~= gs1dl::lot_part(none.0) + gs1dl::serial_part(none.1));
        none
    } else {
        let rest = tail.skip(4);
        text::lemma_position_is(rest, '(');
        let n = text::position(rest, '(') as int;
        let v = rest.take(n);
        let more = rest.skip(n);
        lemma_taken(v);
        assert(!v.contains('(')) by {
            assert forall|k: int| 0 <= k < v.len() implies v[k] != '(' by {
                assert(v[k] == rest[k]);
            }
        }
        if "(10)"@.is_prefix_of(tail) {
            assert(tail =~= "(10)"@ + v + more) by {
                assert("(10)"@ =~= tail.subrange(0, 4));
                assert(tail =~= tail.subrange(0, 4) + rest);
                assert(rest =~= v + more);
            }
            let sub = lemma_qualifiers_shape(more, true, has_serial);
            let parts = (Some(v), sub.1);
            assert(gs1dl::lot_part(sub.0) =~= Seq::empty());
            assert(tail =~= gs1dl::lot_part(parts.0) + gs1dl::serial_part(parts.1));
            parts
        } else {
            assert(tail =~= "(21)"@ + v + more) by {
                assert("(21)"@ =~= tail.subrange(0, 4));
                assert(tail =~= tail.subrange(0, 4) + rest);
                assert(rest =~= v + more);
            }
            let sub = lemma_qualifiers_shape(more, has_lot, true);
            let parts = (None::<Seq<char>>, Some(v));
            assert(more =~= Seq::empty());
            assert(tail =~= gs1dl::lot_part(parts.0) + gs1dl::serial_part(parts.1));
            parts
        }
    }
}

/// An element string is taken for an identifier only as it is written for one:
/// a valid GTIN of 14 digits, at most one lot, and behind it at most one serial.
pub proof fn law_element_strings_are_canonical(s: Seq<char>)
    ensures
        carrier::element_string_identifier(s) matches Ok(id) ==> exists|
            gtin: Seq<char>,
            lot: Option<Seq<char>>,
            serial: Option<Seq<char>>,
        |
            gtin.len() == 14 && gs1dl::is_valid_gtin(gtin) && is_inline(lot) && is_inline(serial) && id
                == #[trigger] gs1_identifier(gtin, lot, serial) && id.value == s,
{
    reveal_strlit("(01)");
    if carrier::element_string_identifier(s) is Ok {
        let id = carrier::element_string_identifier(s)->Ok_0;
        let body = s.skip(4);
        text::lemma_position_is(body, '(');
        let n = text::position(body, '(') as int;
        let gtin = body.take(n);
        let tail = body.skip(n);
        let parts = lemma_qualifiers_shape(tail, false, false);
        assert(s =~= "(01)"@ + gtin + tail) by {
            assert("(01)"@ =~= s.subrange(0, 4));
            assert(s =~= s.subrange(0, 4) + body);
            assert(body =~= gtin + tail);
        }
        let other = gs1_identifier(gtin, parts.0, parts.1);
        assert(other.value =~= s);
        assert(id == other);
    }
}

/// A parameter names an identifier by its key, scheme by scheme, or by its bare
/// element string, and anything else by the carrier that it is.
pub proof fn law_identifiers_are_named_by_scheme(input: Seq<char>)
    requires
        text::trim(input) == input,
        input.len() > 0,
    ensures
        ({
            let gs1 = input.len() >= 4 && input.take(4) == "gs1:"@;
            let iso = input.len() >= 10 && input.take(10) == "iso-15459:"@;
            let gbt = input.len() >= 10 && input.take(10) == "gbt-33993:"@;
            let bare = input.len() >= 4 && input.take(4) == "(01)"@;
            &&& gs1 ==> carrier::identifier_of(input) == carrier::element_string_identifier(input.skip(4))
            &&& bare ==> carrier::identifier_of(input) == carrier::element_string_identifier(input)
            &&& iso && carrier::identifier_of(input) is Ok ==> carrier::identifier_of(input) == Ok::<
                IdentifierView,
                Seq<char>,
            >(
                IdentifierView {
                    scheme: "iso-15459"@,
                    value: input.skip(10),
                    granularity: "item"@,
                },
            )
            &&& iso ==> (carrier::identifier_of(input) is Ok <==> carrier::is_urn(input.skip(10)))
            &&& gbt && carrier::identifier_of(input) is Ok ==> carrier::identifier_of(input) == Ok::<
                IdentifierView,
                Seq<char>,
            >(
                IdentifierView {
                    scheme: "gbt-33993"@,
                    value: input.skip(10),
                    granularity: "item"@,
                },
            )
            &&& gbt ==> (carrier::identifier_of(input) is Ok <==> gs1dl::url_parts(input.skip(10)) is Some)
            &&& !gs1 && !iso && !gbt && !bare ==> match carrier::carrier_of(input) {
                Some(c) => carrier::identifier_of(input) == Ok::<IdentifierView, Seq<char>>(c.identifier),
                None => carrier::identifier_of(input) is Err,
            }
        }),
{
    reveal_strlit("gs1:");
    reveal_strlit("iso-15459:");
    reveal_strlit("gbt-33993:");
    reveal_strlit("(01)");
    lemma_prefix_is_take(input, "gs1:"@);
    lemma_prefix_is_take(input, "iso-15459:"@);
    lemma_prefix_is_take(input, "gbt-33993:"@);
    lemma_prefix_is_take(input, "(01)"@);
    if input.len() >= 4 {
        assert(input.take(4)[0] == input[0] && input.take(4)[1] == input[1]);
    }
    if input.len() >= 10 {
        assert(input.take(10)[0] == input[0] && input.take(10)[1] == input[1]);
    }
    assert("gs1:"@[0] == 'g' && "gs1:"@[1] == 's');
    assert("iso-15459:"@[0] == 'i');
    assert("gbt-33993:"@[0] == 'g' && "gbt-33993:"@[1] == 'b');
    assert("(01)"@[0] == '(');
}

proof fn lemma_prefix_is_take(s: Seq<char>, p: Seq<char>)
    ensures
        p.is_prefix_of(s) <==> s.len() >= p.len() && s.take(p.len() as int) == p,
{
    if s.len() >= p.len() {
        assert(s.take(p.len() as int) =~= s.subrange(0, p.len() as int));
    }
}

/// A code of 13 or 14 digits.
pub open spec fn is_bare_code(t: Seq<char>) -> bool {
    (t.len() == 13 || t.len() == 14) && forall|i: int|
        0 <= i < t.len() ==> '0' <= #[trigger] t[i] <= '9'
}

/// Segments that lead to a product in the GDS: `g` and 13 digits.
pub open spec fn leads_to_gds(segments: Seq<Seq<char>>) -> bool {
    segments.len() >= 2 && segments[0] == "g"@ && segments[1].len() == 13 && forall|i: int|
        0 <= i < 13 ==> '0' <= #[trigger] segments[1][i] <= '9'
}

/// An ISO/IEC 15459 URN with something behind its mark.
pub open spec fn is_iso_urn(t: Seq<char>) -> bool {
    t.len() > 26 && t.take(25) == "urn:iso:std:iso-iec:15459"@ && (t[25] == ':' || t[25] == '#')
}

/// Every scan without white space around it is accounted for. A web address is a
/// Digital Link where its path and query name a valid GTIN; a GDS link where it
/// leads there, which must end behind one more segment and have the right check
/// digit; and else a code of its owner. What is no web address is a bare code
/// with the right check digit, or a URN, or no carrier. A scan that looks like a
/// GDS link or a bare code and is none is invalid; any other is unrecognized.
pub proof fn law_every_scan_is_accounted_for(t: Seq<char>)
    requires
        text::trim(t) == t,
    ensures
        match gs1dl::url_parts(t) {
            Some(u) => match gs1dl::key_path_element(u.path_segments, u.query_pairs) {
                Some(el) => carrier::carrier_of(t) == Some(
                    CarrierView {
                        kind: CarrierKind::Gs1DigitalLink,
                        identifier: gs1_identifier(el.gtin, el.lot, el.serial),
                        resolver_base_url: Some(u.origin),
                        origin: None,
                    },
                ),
                None => if !leads_to_gds(u.path_segments) {
                    carrier::carrier_of(t) == Some(
                        CarrierView {
                            kind: CarrierKind::Gbt33993,
                            identifier: IdentifierView {
                                scheme: "gbt-33993"@,
                                value: t,
                                granularity: "item"@,
                            },
                            resolver_base_url: Some(u.origin),
                            origin: Some("custom-code"@),
                        },
                    )
                } else if u.path_segments.len() <= 3 && gs1dl::is_valid_gtin(u.path_segments[1]) {
                    &&& carrier::carrier_of(t) matches Some(c)
                    &&& c.kind == CarrierKind::Gbt33993
                    &&& c.origin == Some("gds-path"@)
                    &&& c.resolver_base_url == Some(u.origin)
                    &&& u.path_segments.len() == 2 ==> c.identifier == gs1_identifier(
                        seq!['0'] + u.path_segments[1],
                        None,
                        None,
                    )
                } else {
                    carrier::carrier_of(t) is None && carrier::carrier_class(t) == LookupView::Invalid
                },
            },
            None => if is_bare_code(t) {
                &&& carrier::carrier_of(t) is Some <==> gs1dl::is_valid_gtin(t)
                &&& carrier::carrier_of(t) is None ==> carrier::carrier_class(t) == LookupView::Invalid
            } else if is_iso_urn(t) {
                carrier::carrier_of(t) == Some(
                    CarrierView {
                        kind: CarrierKind::Unknown,
                        identifier: IdentifierView {
                            scheme: "iso-15459"@,
                            value: t,
                            granularity: "item"@,
                        },
                        resolver_base_url: None,
                        origin: None,
                    },
                )
            } else {
                carrier::carrier_of(t) is None && carrier::carrier_class(t) == LookupView::Unrecognized
            },
        },
{
    lemma_shapes(t);
    if let Some(u) = gs1dl::url_parts(t) {
        let segments = u.path_segments;
        lemma_url_is_no_legacy_urn(t);
        if let Some(el) = gs1dl::key_path_element(segments, u.query_pairs) {
            lemma_gs1_identifier(el);
        } else {
            lemma_gds_shape(segments);
            if leads_to_gds(segments) {
                gs1dl::law_padding_keeps_validity(segments[1]);
                assert(gs1dl::pad14(segments[1]) =~= seq!['0'] + segments[1]);
                reveal_strlit("0");
                assert("0"@ + segments[1] =~= seq!['0'] + segments[1]);
                if segments.len() == 2 && gs1dl::is_valid_gtin(segments[1]) {
                    lemma_gs1_identifier(gbt33993::gds_element(segments)->0);
                }
            }
        }
    } else {
        if is_bare_code(t) {
            gs1dl::law_padding_keeps_validity(t);
            reveal_strlit("urn:iso:std:iso-iec:15459");
            if carrier::urn_prefix().is_prefix_of(t) {
                assert(t.subrange(0, carrier::urn_prefix().len() as int)[0] == 'u');
            }
        }
    }
}

proof fn lemma_shapes(t: Seq<char>)
    ensures
        is_bare_code(t) == gbt33993::is_legacy_shaped(t),
        is_iso_urn(t) == carrier::is_urn(t),
{
    reveal_strlit("urn:iso:std:iso-iec:15459");
    lemma_prefix_is_take(t, carrier::urn_prefix());
    if gbt33993::is_legacy_shaped(t) {
        assert forall|i: int| 0 <= i < t.len() implies '0' <= #[trigger] t[i] <= '9' by {
            assert(text::is_digit(t[i]));
        }
    }
    if is_bare_code(t) {
        assert forall|i: int| 0 <= i < t.len() implies text::is_digit(#[trigger] t[i]) by {
            assert('0' <= t[i] <= '9');
        }
    }
}

proof fn lemma_gds_shape(segments: Seq<Seq<char>>)
    ensures
        leads_to_gds(segments) == gbt33993::is_gds_shaped(segments),
{
    if segments.len() >= 2 {
        let s = segments[1];
        if s.len() == 13 && text::all_digits(s) {
            assert forall|i: int| 0 <= i < 13 implies '0' <= #[trigger] s[i] <= '9' by {
                assert(text::is_digit(s[i]));
            }
        }
        if leads_to_gds(segments) {
            assert forall|i: int| 0 <= i < s.len() implies text::is_digit(#[trigger] s[i]) by {
                assert('0' <= s[i] <= '9');
            }
        }
    }
}

proof fn lemma_url_is_no_legacy_urn(t: Seq<char>)
    requires
        gs1dl::url_parts(t) is Some,
    ensures
        !carrier::is_urn(t),
{
    if carrier::is_urn(t) {
        reveal_strlit("urn:iso:std:iso-iec:15459");
        assert(t.subrange(0, carrier::urn_prefix().len() as int)[0] == 'u');
        lemma_urn_is_no_url(t);
    }
}

} // verus!
