//! What the administrative requests do, stated by the fields of their bodies
//! and by what is on record before and after. Nothing here runs.

use vstd::prelude::*;

use crate::admin;
use crate::admin::RefusalView;
use crate::carrier;
use crate::carrier::IdentifierView;
use crate::document_laws;
use crate::entry;
use crate::entry::EntryView;
use crate::json;
use crate::json::JsonValue;
use crate::laws;
use crate::linkset;
use crate::record;
use crate::record::{OpView, RecordView};
use crate::reply;
use crate::reply::{Reply, ReplyView};
use crate::store;
use crate::store::{AnswerView, LedgerView, RevocationView, StateView, StoreView};
use crate::text;
use crate::text_laws;
use crate::time;

verus! {

// ---------------------------------------------------------------------------
// Fields
// ---------------------------------------------------------------------------

/// What an object holds under a key.
pub open spec fn at_key(j: JsonValue, key: Seq<char>) -> Option<JsonValue> {
    match j {
        JsonValue::Object(m) => if m.contains_key(key) {
            Some(m[key])
        } else {
            None
        },
        _ => None,
    }
}

/// A text that leaves a value open: nothing, or the wildcard.
pub open spec fn leaves_open(s: Seq<char>) -> bool {
    s.len() == 0 || s == "*"@
}

/// A field gives this text: a string that leaves nothing open; or none, by a
/// string that does, by `null` or by its absence. Anything else gives nothing.
pub open spec fn gives_text(j: JsonValue, key: Seq<char>, o: Option<Seq<char>>) -> bool {
    match at_key(j, key) {
        None => o is None,
        Some(JsonValue::Null) => o is None,
        Some(JsonValue::Str(s)) => if leaves_open(s) {
            o is None
        } else {
            o == Some(s)
        },
        _ => false,
    }
}

/// A field gives this instant: a string that spells it; or none, by `null` or by
/// its absence.
pub open spec fn gives_instant(j: JsonValue, key: Seq<char>, o: Option<int>) -> bool {
    match at_key(j, key) {
        None => o is None,
        Some(JsonValue::Null) => o is None,
        Some(JsonValue::Str(s)) => o is Some && time::stamp_secs(s) == o,
        _ => false,
    }
}

/// An item names a language.
pub open spec fn names_language() -> spec_fn(JsonValue) -> bool {
    |v: JsonValue| v matches JsonValue::Str(s) && !leaves_open(s)
}

/// A list of strings gives these texts: all that leave nothing open, in order.
pub open spec fn items_give(items: Seq<JsonValue>, texts: Seq<Seq<char>>) -> bool {
    &&& forall|i: int| 0 <= i < items.len() ==> #[trigger] items[i] is Str
    &&& exists|places: Seq<int>| #[trigger]
        store::are_places(items, names_language(), places) && texts == Seq::new(
            places.len(),
            |k: int| items[places[k]]->Str_0,
        )
}

/// A field gives these languages: those of a list, the one of a string, or none.
pub open spec fn gives_languages(j: JsonValue, key: Seq<char>, l: Seq<Seq<char>>) -> bool {
    match at_key(j, key) {
        None => l.len() == 0,
        Some(JsonValue::Null) => l.len() == 0,
        Some(JsonValue::Str(s)) => if leaves_open(s) {
            l.len() == 0
        } else {
            l == seq![s]
        },
        Some(JsonValue::Array(items)) => items_give(items, l),
        _ => false,
    }
}

proof fn lemma_named_items(items: Seq<JsonValue>) -> (places: Seq<int>)
    ensures
        store::are_places(items, names_language(), places),
        entry::named_items(items) == (if forall|i: int|
            0 <= i < items.len() ==> #[trigger] items[i] is Str {
            Some(Seq::new(places.len(), |k: int| items[places[k]]->Str_0))
        } else {
            None
        }),
    decreases items.len(),
{
    let p = names_language();
    let places = store::lemma_filter_places(items, p);
    if items.len() > 0 {
        let rest = items.skip(1);
        let after = lemma_named_items(rest);
        let moved = Seq::new(after.len(), |k: int| after[k] + 1);
        let mine = if p(items[0]) {
            seq![0int] + moved
        } else {
            moved
        };
        assert forall|k: int| 0 <= k < mine.len() implies 0 <= #[trigger] mine[k] < items.len() && p(
            items[mine[k]],
        ) by {
            let m = if p(items[0]) {
                k - 1
            } else {
                k
            };
            if m >= 0 {
                assert(mine[k] == after[m] + 1);
                assert(rest[after[m]] == items[mine[k]]);
            }
        }
        assert forall|i: int| 0 <= i < items.len() && #[trigger] p(items[i]) implies mine.contains(i) by {
            if i > 0 {
                assert(p(rest[i - 1]));
                let m = choose|m: int| 0 <= m < after.len() && after[m] == i - 1;
                let k = if p(items[0]) {
                    m + 1
                } else {
                    m
                };
                assert(mine[k] == i);
            } else {
                assert(mine[0] == 0);
            }
        }
        assert forall|k: int, m: int| 0 <= k < m < mine.len() implies #[trigger] mine[k]
            < #[trigger] mine[m] by {
            let d: int = if p(items[0]) {
                1
            } else {
                0
            };
            assert(mine[m] == after[m - d] + 1);
            if k - d >= 0 {
                assert(mine[k] == after[k - d] + 1);
            }
        }
        assert(store::are_places(items, p, mine));
        if forall|i: int| 0 <= i < items.len() ==> #[trigger] items[i] is Str {
            assert forall|i: int| 0 <= i < rest.len() implies #[trigger] rest[i] is Str by {
                assert(rest[i] == items[i + 1]);
            }
            assert(items[0] is Str);
            assert forall|k: int| 0 <= k < after.len() implies rest[#[trigger] after[k]]
                == items[after[k] + 1] by {}
            assert(entry::named_items(items)->0 =~= Seq::new(
                mine.len(),
                |k: int| items[mine[k]]->Str_0,
            ));
        } else {
            let i = choose|i: int| 0 <= i < items.len() && !(#[trigger] items[i] is Str);
            if i > 0 {
                assert(!(rest[i - 1] is Str));
            }
        }
        mine
    } else {
        assert(Seq::new(places.len(), |k: int| items[places[k]]->Str_0) =~= Seq::empty());
        places
    }
}

/// The places at which a condition holds are given by the list.
proof fn lemma_places_are_given<T>(v: Seq<T>, p: spec_fn(T) -> bool, a: Seq<int>, b: Seq<int>)
    requires
        store::are_places(v, p, a),
        store::are_places(v, p, b),
    ensures
        a == b,
    decreases a.len() + b.len(),
{
    if a.len() == 0 {
        if b.len() > 0 {
            assert(p(v[b[0]]));
            assert(a.contains(b[0]));
        }
        assert(a =~= b);
    } else if b.len() == 0 {
        assert(p(v[a[0]]));
        assert(b.contains(a[0]));
    } else {
        let x = a.last();
        let y = b.last();
        assert(x == y) by {
            assert(p(v[a[a.len() - 1]]) && p(v[b[b.len() - 1]]));
            assert(b.contains(x) && a.contains(y));
            let k = choose|k: int| 0 <= k < b.len() && b[k] == x;
            let m = choose|m: int| 0 <= m < a.len() && a[m] == y;
            if k < b.len() - 1 {
                assert(b[k] < b[b.len() - 1]);
            }
            if m < a.len() - 1 {
                assert(a[m] < a[a.len() - 1]);
            }
        }
        let v2 = v.take(x);
        let a2 = a.drop_last();
        let b2 = b.drop_last();
        lemma_places_of_front(v, p, a);
        lemma_places_of_front(v, p, b);
        lemma_places_are_given(v2, p, a2, b2);
        assert(a =~= a2.push(x));
        assert(b =~= b2.push(y));
    }
}

proof fn lemma_places_of_front<T>(v: Seq<T>, p: spec_fn(T) -> bool, a: Seq<int>)
    requires
        store::are_places(v, p, a),
        a.len() > 0,
    ensures
        store::are_places(v.take(a.last()), p, a.drop_last()),
{
    let x = a.last();
    let front = v.take(x);
    let b = a.drop_last();
    assert(0 <= a[a.len() - 1] < v.len());
    assert forall|k: int| 0 <= k < b.len() implies 0 <= #[trigger] b[k] < front.len() && p(
        front[b[k]],
    ) by {
        assert(a[k] < a[a.len() - 1]);
        assert(p(v[a[k]]));
    }
    assert forall|i: int| 0 <= i < front.len() && #[trigger] p(front[i]) implies b.contains(i) by {
        assert(p(v[i]));
        let k = choose|k: int| 0 <= k < a.len() && a[k] == i;
        assert(b[k] == i);
    }
}

proof fn lemma_languages(j: JsonValue, key: Seq<char>, l: Seq<Seq<char>>)
    ensures
        gives_languages(j, key, l) <==> entry::language_field(j, key) == Ok::<Seq<Seq<char>>, Seq<char>>(l),
{
    if let Some(JsonValue::Array(items)) = at_key(j, key) {
        let places = lemma_named_items(items);
        if items_give(items, l) {
            let other = choose|other: Seq<int>| #[trigger]
                store::are_places(items, names_language(), other) && l == Seq::new(
                    other.len(),
                    |k: int| items[other[k]]->Str_0,
                );
            lemma_places_are_given(items, names_language(), places, other);
        }
        if entry::named_items(items) == Some(l) {
            assert(store::are_places(items, names_language(), places) && l == Seq::new(
                places.len(),
                |k: int| items[places[k]]->Str_0,
            ));
        }
    } else {
        if l.len() == 0 {
            assert(l =~= Seq::empty());
        }
    }
}

/// An absolute http, https or urn address, without white space.
pub open spec fn is_address(s: Seq<char>) -> bool {
    &&& text_laws::occurs(s, "http://"@, 0) || text_laws::occurs(s, "https://"@, 0) || text_laws::occurs(s, "urn:"@, 0)
    &&& forall|i: int| 0 <= i < s.len() ==> !text::is_space(#[trigger] s[i])
}

/// A form describes an entry: every part under its name, valid from the instant
/// given or else from now, and not ending before it begins.
pub open spec fn is_form_of(j: JsonValue, now: int, e: EntryView) -> bool {
    &&& j is Object
    &&& e.id == 0
    &&& gives_text(j, "linkType"@, Some(e.link_type))
    &&& gives_text(j, "href"@, Some(e.href))
    &&& is_address(e.href)
    &&& gives_text(j, "title"@, e.title)
    &&& gives_text(j, "type"@, e.media_type)
    &&& gives_text(j, "profile"@, e.profile)
    &&& gives_text(j, "role"@, e.role)
    &&& gives_text(j, "region"@, e.region)
    &&& gives_languages(j, "language"@, e.languages)
    &&& gives_instant(j, "asOf"@, Some(e.as_of)) || (gives_instant(j, "asOf"@, None) && e.as_of
        == now)
    &&& gives_instant(j, "expiry"@, e.expiry)
    &&& e.expiry matches Some(x) ==> e.as_of <= x
}

/// An administrative form is read as the entry that it describes, and as
/// nothing else: what describes none is turned away.
pub proof fn law_forms_are_read_as_described(j: JsonValue, now: int, e: EntryView)
    ensures
        entry::admin_entry(j, now) == Ok::<EntryView, Seq<char>>(e) <==> is_form_of(j, now, e),
{
    lemma_languages(j, "language"@, e.languages);
    lemma_address(e.href);
    match entry::language_field(j, "language"@) {
        Ok(l) => {
            lemma_languages(j, "language"@, l);
        },
        Err(_) => {},
    }
}

proof fn lemma_address(s: Seq<char>)
    ensures
        entry::is_target(s) <==> is_address(s),
{
    lemma_begins(s, "http://"@);
    lemma_begins(s, "https://"@);
    lemma_begins(s, "urn:"@);
}

proof fn lemma_begins(s: Seq<char>, pat: Seq<char>)
    ensures
        pat.is_prefix_of(s) <==> text_laws::occurs(s, pat, 0),
{
    if pat.is_prefix_of(s) {
        assert(s.subrange(0, pat.len() as int) =~= pat);
    }
    if text_laws::occurs(s, pat, 0) {
        assert(pat =~= s.subrange(0, pat.len() as int));
    }
}

/// A link describes an entry: the target and its type as they stand, every other
/// part under its name, valid from the instant given or else from the one that
/// stands in for it, and not ending before it begins. An instant that is no
/// string is not looked at.
pub open spec fn is_link_of(j: JsonValue, default: int, e: EntryView) -> bool {
    &&& j is Object
    &&& e.id == 0
    &&& at_key(j, "uri"@) == Some(JsonValue::Str(e.href))
    &&& at_key(j, "rel"@) == Some(JsonValue::Str(e.link_type))
    &&& gives_text(j, "title"@, e.title)
    &&& gives_text(j, "type"@, e.media_type)
    &&& gives_text(j, "unidpp:profile"@, e.profile)
    &&& gives_text(j, "unidpp:role"@, e.role)
    &&& gives_text(j, "unidpp:region"@, e.region)
    &&& gives_languages(j, "hreflang"@, e.languages)
    &&& if at_key(j, "unidpp:as-of"@) matches Some(JsonValue::Str(_)) {
        gives_instant(j, "unidpp:as-of"@, Some(e.as_of))
    } else {
        e.as_of == default
    }
    &&& if at_key(j, "unidpp:expiry"@) matches Some(JsonValue::Str(_)) {
        e.expiry is Some && gives_instant(j, "unidpp:expiry"@, e.expiry)
    } else {
        e.expiry is None
    }
    &&& e.expiry matches Some(x) ==> e.as_of <= x
}

/// A link is read as the entry that it describes, and as nothing else: what
/// describes none is turned away.
pub proof fn law_links_are_read_as_described(j: JsonValue, default: int, e: EntryView)
    ensures
        linkset::link_entry(j, default) == Ok::<EntryView, Seq<char>>(e) <==> is_link_of(j, default, e),
{
    lemma_languages(j, "hreflang"@, e.languages);
    match entry::language_field(j, "hreflang"@) {
        Ok(l) => {
            lemma_languages(j, "hreflang"@, l);
        },
        Err(_) => {},
    }
}

/// A document lists these links: in its `linkset`, or as a list of its own, or
/// by being one.
pub open spec fn is_listing_of(j: JsonValue, links: Seq<JsonValue>) -> bool {
    match at_key(j, "linkset"@) {
        Some(v) => v == JsonValue::Array(links),
        None => j == JsonValue::Array(links) || (j is Object && links == seq![j]),
    }
}

/// A link is whole: it has an anchor, a target and a type.
pub open spec fn is_whole(link: JsonValue) -> bool {
    &&& at_key(link, "anchor"@) matches Some(JsonValue::Str(_))
    &&& at_key(link, "uri"@) matches Some(JsonValue::Str(_))
    &&& at_key(link, "rel"@) matches Some(JsonValue::Str(_))
}

/// A document is read as the links that it lists, all of them or none: it is
/// turned away where it lists nothing or where one of them is not whole.
pub proof fn law_documents_are_read_whole(j: JsonValue, links: Seq<JsonValue>)
    ensures
        linkset::document_links(j) == Ok::<Seq<JsonValue>, Seq<char>>(links) <==> is_listing_of(j, links)
            && forall|i: int| 0 <= i < links.len() ==> is_whole(#[trigger] links[i]),
{
    lemma_no_complaint(links);
    if let Ok(l) = linkset::listed_links(j) {
        lemma_no_complaint(l);
    }
}

proof fn lemma_no_complaint(links: Seq<JsonValue>)
    ensures
        linkset::first_complaint(links) is None <==> forall|i: int|
            0 <= i < links.len() ==> is_whole(#[trigger] links[i]),
    decreases links.len(),
{
    if links.len() > 0 {
        let rest = links.skip(1);
        lemma_no_complaint(rest);
        if forall|i: int| 0 <= i < links.len() ==> is_whole(#[trigger] links[i]) {
            assert(is_whole(links[0]));
            assert forall|i: int| 0 <= i < rest.len() implies is_whole(#[trigger] rest[i]) by {
                assert(rest[i] == links[i + 1]);
            }
        }
        if linkset::first_complaint(links) is None {
            assert(is_whole(links[0]));
            assert forall|i: int| 0 <= i < links.len() implies is_whole(#[trigger] links[i]) by {
                if i > 0 {
                    assert(rest[i - 1] == links[i]);
                }
            }
        }
    }
}

/// The entries of a document are those of its links, one for each, in order; one
/// that describes no entry spoils the whole.
pub proof fn law_documents_give_an_entry_for_each_link(
    text: Seq<char>,
    default: int,
    entries: Seq<EntryView>,
)
    ensures
        linkset::text_entries(text, default) == Ok::<Seq<EntryView>, Seq<char>>(entries) <==> exists|
            j: JsonValue,
            links: Seq<JsonValue>,
        | #[trigger]
            is_listing_of(j, links) && json::json_parse(text) == Ok::<JsonValue, Seq<char>>(j)
                && links.len() == entries.len() && forall|i: int|
                0 <= i < links.len() ==> is_whole(#[trigger] links[i]) && is_link_of(
                    links[i],
                    default,
                    entries[i],
                ),
{
    if linkset::text_entries(text, default) == Ok::<Seq<EntryView>, Seq<char>>(entries) {
        let j = json::json_parse(text)->Ok_0;
        let links = linkset::document_links(j)->Ok_0;
        law_documents_are_read_whole(j, links);
        lemma_link_entries(links, default, entries);
        assert(is_listing_of(j, links));
    }
    if let Ok(j) = json::json_parse(text) {
        assert forall|links: Seq<JsonValue>| #[trigger]
            is_listing_of(j, links) && links.len() == entries.len() && (forall|i: int|
                0 <= i < links.len() ==> is_whole(#[trigger] links[i]) && is_link_of(
                    links[i],
                    default,
                    entries[i],
                )) implies linkset::text_entries(text, default) == Ok::<Seq<EntryView>, Seq<char>>(
            entries,
        ) by {
            law_documents_are_read_whole(j, links);
            lemma_link_entries(links, default, entries);
        }
    }
}

proof fn lemma_link_entries(links: Seq<JsonValue>, default: int, entries: Seq<EntryView>)
    ensures
        linkset::link_entries(links, default) == Ok::<Seq<EntryView>, Seq<char>>(entries) <==> links.len()
            == entries.len() && forall|i: int|
            0 <= i < links.len() ==> is_link_of(#[trigger] links[i], default, entries[i]),
    decreases links.len(),
{
    if links.len() == 0 {
        if entries.len() == 0 {
            assert(entries =~= Seq::empty());
        }
    } else {
        let rest = links.skip(1);
        if links.len() == entries.len() && forall|i: int|
            0 <= i < links.len() ==> is_link_of(#[trigger] links[i], default, entries[i]) {
            let more = entries.skip(1);
            assert forall|i: int| 0 <= i < rest.len() implies is_link_of(
                #[trigger] rest[i],
                default,
                more[i],
            ) by {
                assert(rest[i] == links[i + 1]);
            }
            lemma_link_entries(rest, default, more);
            assert(is_link_of(links[0], default, entries[0]));
            law_links_are_read_as_described(links[0], default, entries[0]);
            assert(seq![entries[0]] + more =~= entries);
        }
        if linkset::link_entries(links, default) == Ok::<Seq<EntryView>, Seq<char>>(entries) {
            let more = linkset::link_entries(rest, default)->Ok_0;
            let e = linkset::link_entry(links[0], default)->Ok_0;
            lemma_link_entries(rest, default, more);
            law_links_are_read_as_described(links[0], default, e);
            assert(entries == seq![e] + more);
            assert forall|i: int| 0 <= i < links.len() implies is_link_of(
                #[trigger] links[i],
                default,
                entries[i],
            ) by {
                if i > 0 {
                    assert(rest[i - 1] == links[i]);
                    assert(is_link_of(rest[i - 1], default, more[i - 1]));
                }
            }
        }
    }
}

// ---------------------------------------------------------------------------
// Requests
// ---------------------------------------------------------------------------

/// A body names an identifier: a string that is one.
pub open spec fn names(j: JsonValue, key: Seq<char>, ident: IdentifierView) -> bool {
    at_key(j, key) matches Some(JsonValue::Str(s)) && carrier::identifier_of(s) == Ok::<
        IdentifierView,
        Seq<char>,
    >(ident)
}

/// A body is to take effect at this instant: the one it gives, or else now.
pub open spec fn takes_effect(j: JsonValue, now: int, at: int) -> bool {
    gives_instant(j, "effectiveAt"@, Some(at)) || (gives_instant(j, "effectiveAt"@, None) && at
        == now)
}

/// The text in a field, or another where the field holds no string.
pub open spec fn text_or_else(j: JsonValue, key: Seq<char>, other: Seq<char>) -> Seq<char> {
    match at_key(j, key) {
        Some(JsonValue::Str(s)) => s,
        _ => other,
    }
}

/// A body lists forms of these entries, in order, and at least one.
pub open spec fn lists(j: JsonValue, now: int, entries: Seq<EntryView>) -> bool {
    at_key(j, "links"@) matches Some(JsonValue::Array(items)) && items.len() == entries.len()
        && entries.len() > 0 && forall|i: int|
        0 <= i < items.len() ==> is_form_of(#[trigger] items[i], now, entries[i])
}

proof fn lemma_lists(items: Seq<JsonValue>, now: int, entries: Seq<EntryView>)
    ensures
        admin::admin_entries(items, now) == Ok::<Seq<EntryView>, Seq<char>>(entries) <==> items.len()
            == entries.len() && forall|i: int|
            0 <= i < items.len() ==> is_form_of(#[trigger] items[i], now, entries[i]),
    decreases items.len(),
{
    if items.len() == 0 {
        if entries.len() == 0 {
            assert(entries =~= Seq::empty());
        }
    } else {
        let rest = items.skip(1);
        if items.len() == entries.len() && forall|i: int|
            0 <= i < items.len() ==> is_form_of(#[trigger] items[i], now, entries[i]) {
            let more = entries.skip(1);
            assert forall|i: int| 0 <= i < rest.len() implies is_form_of(
                #[trigger] rest[i],
                now,
                more[i],
            ) by {
                assert(rest[i] == items[i + 1]);
            }
            lemma_lists(rest, now, more);
            assert(is_form_of(items[0], now, entries[0]));
            law_forms_are_read_as_described(items[0], now, entries[0]);
            assert(seq![entries[0]] + more =~= entries);
        }
        if admin::admin_entries(items, now) == Ok::<Seq<EntryView>, Seq<char>>(entries) {
            let more = admin::admin_entries(rest, now)->Ok_0;
            let e = entry::admin_entry(items[0], now)->Ok_0;
            lemma_lists(rest, now, more);
            law_forms_are_read_as_described(items[0], now, e);
            assert(entries == seq![e] + more);
            assert forall|i: int| 0 <= i < items.len() implies is_form_of(
                #[trigger] items[i],
                now,
                entries[i],
            ) by {
                if i > 0 {
                    assert(rest[i - 1] == items[i]);
                    assert(is_form_of(rest[i - 1], now, more[i - 1]));
                }
            }
        }
    }
}

/// A body asks for the registration of these entries.
pub open spec fn asks_to_register(
    j: JsonValue,
    now: int,
    ident: IdentifierView,
    entries: Seq<EntryView>,
) -> bool {
    names(j, "identifier"@, ident) && lists(j, now, entries)
}

proof fn lemma_asks_to_register(
    j: JsonValue,
    now: int,
    ident: IdentifierView,
    entries: Seq<EntryView>,
)
    requires
        asks_to_register(j, now, ident, entries),
    ensures
        admin::register_request(j, now) == Ok::<(Seq<char>, Seq<EntryView>), Seq<char>>(
            (ident.key(), entries),
        ),
{
    let items = at_key(j, "links"@)->0->Array_0;
    lemma_lists(items, now, entries);
}

proof fn lemma_register_request(j: JsonValue, now: int)
    requires
        admin::register_request(j, now) is Ok,
    ensures
        exists|ident: IdentifierView, entries: Seq<EntryView>|
            asks_to_register(j, now, ident, entries),
{
    let ident = admin::body_identifier(j)->Ok_0;
    let entries = admin::body_links(j, now)->Ok_0;
    let items = at_key(j, "links"@)->0->Array_0;
    lemma_lists(items, now, entries);
    assert(asks_to_register(j, now, ident, entries));
}

/// Entries under the numbers from a first one on.
pub open spec fn under_numbers(entries: Seq<EntryView>, first: int) -> Seq<EntryView> {
    Seq::new(entries.len(), |i: int| EntryView { id: (first + i) as u64, ..entries[i] })
}

/// The forms of entries.
pub open spec fn forms(entries: Seq<EntryView>) -> JsonValue {
    JsonValue::Array(Seq::new(entries.len(), |i: int| entry::entry_json(entries[i])))
}

proof fn lemma_forms(entries: Seq<EntryView>)
    ensures
        admin::entries_json(entries) == forms(entries),
{
    assert(entries.map_values(|e: EntryView| entry::entry_json(e)) =~= Seq::new(
        entries.len(),
        |i: int| entry::entry_json(entries[i]),
    ));
}

proof fn lemma_reply_keys()
    ensures
        "identifier"@.len() == 10,
        "registered"@.len() == 10,
        "identifier"@ != "registered"@,
        "revoked"@.len() == 7,
        "recordCount"@.len() == 11,
        "effectiveAt"@.len() == 11,
        "dark"@.len() == 4,
        "seq"@.len() == 3,
        "identifierA"@.len() == 11,
        "identifierB"@.len() == 11,
        "identifierA"@ != "identifierB"@,
        "assertor"@.len() == 8,
        "direction"@.len() == 9,
        "record"@.len() == 6,
        "supersededBy"@.len() == 12,
{
    reveal_strlit("identifier");
    reveal_strlit("registered");
    reveal_strlit("revoked");
    reveal_strlit("recordCount");
    reveal_strlit("effectiveAt");
    reveal_strlit("dark");
    reveal_strlit("seq");
    reveal_strlit("identifierA");
    reveal_strlit("identifierB");
    reveal_strlit("assertor");
    reveal_strlit("direction");
    reveal_strlit("record");
    reveal_strlit("supersededBy");
    assert("identifier"@[0] != "registered"@[0]);
    assert("identifierA"@[10] != "identifierB"@[10]);
}

/// A request to register is carried out in full: the entries that it lists come
/// behind those that the identifier has, in order, under the next numbers; the
/// reply tells them. One that asks for no registration is refused and changes
/// nothing.
pub proof fn law_registrations_are_carried_out(v: StoreView, j: JsonValue, now: int)
    requires
        store::is_consistent(v),
    ensures
        forall|ident: IdentifierView, entries: Seq<EntryView>| #[trigger]
            asks_to_register(j, now, ident, entries) && v.log.len() + entries.len() <= u64::MAX
                && v.ledger.next_entry_id + entries.len() <= u64::MAX ==> is_registered(v, admin::register_outcome(v, j, now), ident.key(), entries),
        !(exists|ident: IdentifierView, entries: Seq<EntryView>| #[trigger]
            asks_to_register(j, now, ident, entries)) ==> is_turned_down(
            v,
            admin::register_outcome(v, j, now),
        ),
{
    assert forall|ident: IdentifierView, entries: Seq<EntryView>| #[trigger]
        asks_to_register(j, now, ident, entries) && v.log.len() + entries.len() <= u64::MAX
            && v.ledger.next_entry_id + entries.len() <= u64::MAX implies is_registered(
        v,
        admin::register_outcome(v, j, now),
        ident.key(),
        entries,
    ) by {
        lemma_asks_to_register(j, now, ident, entries);
        lemma_reply_keys();
        let kept = under_numbers(entries, v.ledger.next_entry_id);
        assert(store::numbered(entries, v.ledger.next_entry_id) =~= kept);
        lemma_forms(kept);
        store::law_registering_adds(v, ident.key(), entries, now);
    }
    if admin::register_request(j, now) is Ok {
        lemma_register_request(j, now);
    }
}

/// A request was refused: the store is as it was, and the reply says what is
/// wrong.
pub open spec fn is_turned_down(
    v: StoreView,
    outcome: Option<(StoreView, u16, JsonValue)>,
) -> bool {
    outcome matches Some((after, status, document)) && after == v && status == 400 && (at_key(
        document,
        "error"@,
    ) matches Some(JsonValue::Str(_)))
}

/// Entries were registered for an identifier and the reply tells so.
pub open spec fn is_registered(
    v: StoreView,
    outcome: Option<(StoreView, u16, JsonValue)>,
    key: Seq<char>,
    entries: Seq<EntryView>,
) -> bool {
    outcome matches Some((after, status, document)) && {
        let kept = under_numbers(entries, v.ledger.next_entry_id);
        &&& status == 201
        &&& after.log.len() == v.log.len() + entries.len()
        &&& after.ledger.ids.contains_key(key)
        &&& after.ledger.ids[key].entries == store::state_of(v.ledger.ids, key).entries + kept
        &&& after.ledger.ids.remove(key) == v.ledger.ids.remove(key)
        &&& document_laws::has_text(document, "identifier"@, Some(key))
        &&& document_laws::has(document, "registered"@, forms(kept))
        &&& document_laws::has(document, "recordCount"@, JsonValue::Number(after.log.len() as u64))
    }
}

/// A body asks for the replacement of what is in force at an instant.
pub open spec fn asks_to_replace(
    j: JsonValue,
    now: int,
    ident: IdentifierView,
    entries: Seq<EntryView>,
    at: int,
) -> bool {
    asks_to_register(j, now, ident, entries) && takes_effect(j, now, at)
}

/// A request to replace does what it asks for: the entries in force at the
/// instant are replaced by those listed, and the reply tells both. One that asks
/// for no replacement is refused and changes nothing.
pub proof fn law_replacements_are_carried_out(v: StoreView, j: JsonValue, now: int)
    ensures
        forall|ident: IdentifierView, entries: Seq<EntryView>, at: int| #[trigger]
            asks_to_replace(j, now, ident, entries, at) && v.log.len() + admin::numbers_in_force(
                v.ledger,
                ident.key(),
                at,
            ).len() + entries.len() <= u64::MAX && v.ledger.next_entry_id + entries.len()
                <= u64::MAX ==> is_replaced(
                v,
                admin::replace_outcome(v, j, now),
                ident.key(),
                entries,
                at,
                now,
            ),
        !(exists|ident: IdentifierView, entries: Seq<EntryView>, at: int| #[trigger]
            asks_to_replace(j, now, ident, entries, at)) ==> is_turned_down(
            v,
            admin::replace_outcome(v, j, now),
        ),
{
    assert forall|ident: IdentifierView, entries: Seq<EntryView>, at: int| #[trigger]
        asks_to_replace(j, now, ident, entries, at) && v.log.len() + admin::numbers_in_force(
            v.ledger,
            ident.key(),
            at,
        ).len() + entries.len() <= u64::MAX && v.ledger.next_entry_id + entries.len()
            <= u64::MAX implies is_replaced(
        v,
        admin::replace_outcome(v, j, now),
        ident.key(),
        entries,
        at,
        now,
    ) by {
        lemma_asks_to_register(j, now, ident, entries);
        lemma_reply_keys();
        let kept = under_numbers(entries, v.ledger.next_entry_id);
        let ids = admin::numbers_in_force(v.ledger, ident.key(), at);
        assert(store::numbered(entries, v.ledger.next_entry_id) =~= kept);
        lemma_forms(kept);
        assert(ids.map_values(|n: u64| JsonValue::Number(n)) =~= Seq::new(
            ids.len(),
            |i: int| JsonValue::Number(ids[i]),
        ));
    }
    if admin::replace_request(j, now) is Ok {
        lemma_register_request(j, now);
        let (ident, entries) = choose|ident: IdentifierView, entries: Seq<EntryView>|
            asks_to_register(j, now, ident, entries);
        let at = admin::body_effective_at(j, now)->Ok_0;
        assert(asks_to_replace(j, now, ident, entries, at));
    }
}

/// What was in force for an identifier at an instant was replaced, and the reply
/// tells by what.
pub open spec fn is_replaced(
    v: StoreView,
    outcome: Option<(StoreView, u16, JsonValue)>,
    key: Seq<char>,
    entries: Seq<EntryView>,
    at: int,
    now: int,
) -> bool {
    outcome matches Some((after, status, document)) && {
        let kept = under_numbers(entries, v.ledger.next_entry_id);
        let ids = admin::numbers_in_force(v.ledger, key, at);
        &&& status == 200
        &&& after == admin::replaced(v, key, entries, at, now)
        &&& document_laws::has_text(document, "identifier"@, Some(key))
        &&& document_laws::has(
            document,
            "revoked"@,
            JsonValue::Array(Seq::new(ids.len(), |i: int| JsonValue::Number(ids[i]))),
        )
        &&& document_laws::has(document, "registered"@, forms(kept))
        &&& document_laws::has(document, "recordCount"@, JsonValue::Number(after.log.len() as u64))
    }
}

/// What was revoked for a replacement at an instant.
pub open spec fn revoked_for_replacement(ids: Seq<u64>, at: int) -> Seq<RevocationView> {
    Seq::new(
        ids.len(),
        |i: int|
            RevocationView {
                entry_id: ids[i],
                effective_at: at,
                reason: "superseded by replacement"@,
            },
    )
}

proof fn lemma_revoking(v: StoreView, key: Seq<char>, ids: Seq<u64>, at: int, now: int)
    requires
        store::is_consistent(v),
        v.log.len() + ids.len() <= u64::MAX,
    ensures
        ({
            let after = admin::revoking(v, key, ids, at, now);
            let s = store::state_of(v.ledger.ids, key);
            &&& store::is_consistent(after)
            &&& after.log.len() == v.log.len() + ids.len()
            &&& after.ledger.next_entry_id == v.ledger.next_entry_id
            &&& store::state_of(after.ledger.ids, key) == (StateView {
                revocations: s.revocations + revoked_for_replacement(ids, at),
                ..s
            })
            &&& after.ledger.ids.remove(key) == v.ledger.ids.remove(key)
        }),
    decreases ids.len(),
{
    let s = store::state_of(v.ledger.ids, key);
    if ids.len() == 0 {
        assert(s.revocations + revoked_for_replacement(ids, at) =~= s.revocations);
    } else {
        let front = ids.drop_last();
        lemma_revoking(v, key, front, at, now);
        let before = admin::revoking(v, key, front, at, now);
        let op = OpView::RevokeEntry {
            identifier: key,
            entry_id: ids.last(),
            effective_at: at,
            reason: "superseded by replacement"@,
        };
        store::law_recording_appends(before, op, now);
        store::law_records_touch_one_thing(before, op, now);
        assert(s.revocations + revoked_for_replacement(ids, at) =~= (s.revocations
            + revoked_for_replacement(front, at)).push(
            RevocationView {
                entry_id: ids.last(),
                effective_at: at,
                reason: "superseded by replacement"@,
            },
        ));
    }
}

/// A replacement revokes what was in force at its instant, from that instant on
/// and for that reason, puts the new entries behind the old ones under the next
/// numbers, and touches nothing else that is known of any identifier.
pub proof fn law_replacement_revokes_what_was_in_force(
    v: StoreView,
    key: Seq<char>,
    entries: Seq<EntryView>,
    at: int,
    now: int,
)
    requires
        store::is_consistent(v),
        v.log.len() + admin::numbers_in_force(v.ledger, key, at).len() + entries.len() <= u64::MAX,
        v.ledger.next_entry_id + entries.len() <= u64::MAX,
    ensures
        ({
            let after = admin::replaced(v, key, entries, at, now);
            let s = store::state_of(v.ledger.ids, key);
            &&& store::state_of(after.ledger.ids, key) == (StateView {
                entries: s.entries + under_numbers(entries, v.ledger.next_entry_id),
                revocations: s.revocations + revoked_for_replacement(
                    admin::numbers_in_force(v.ledger, key, at),
                    at,
                ),
                ..s
            })
            &&& after.ledger.ids.remove(key) == v.ledger.ids.remove(key)
        }),
{
    let ids = admin::numbers_in_force(v.ledger, key, at);
    lemma_revoking(v, key, ids, at, now);
    let mid = admin::revoking(v, key, ids, at, now);
    store::law_registering_adds(mid, key, entries, now);
    assert(store::numbered(entries, v.ledger.next_entry_id) =~= under_numbers(
        entries,
        v.ledger.next_entry_id,
    ));
}

/// The numbers in force are those of the entries that a lookup gives.
pub proof fn law_numbers_in_force_are_those_found(l: LedgerView, key: Seq<char>, t: int)
    ensures
        match store::answer(l, key, t) {
            AnswerView::Resolved(found) => admin::numbers_in_force(l, key, t).len() == found.len()
                && forall|i: int|
                0 <= i < found.len() ==> #[trigger] admin::numbers_in_force(l, key, t)[i] == found[i].id,
            _ => admin::numbers_in_force(l, key, t).len() == 0,
        },
{
}

/// An entry of an identifier is registered under this number.
pub open spec fn is_entry_of(l: LedgerView, key: Seq<char>, id: u64) -> bool {
    l.ids.contains_key(key) && exists|i: int|
        0 <= i < l.ids[key].entries.len() && (#[trigger] l.ids[key].entries[i]).id == id
}

/// A body asks for the revocation of an entry.
pub open spec fn asks_to_revoke(
    j: JsonValue,
    now: int,
    ident: IdentifierView,
    id: u64,
    at: int,
) -> bool {
    &&& names(j, "identifier"@, ident)
    &&& at_key(j, "entryId"@) == Some(JsonValue::Number(id))
    &&& takes_effect(j, now, at)
}

/// A request to revoke records the revocation of the entry that it names, at the
/// instant and for the reason that it gives. An entry that the identifier does
/// not have, or a request that asks for no revocation, is refused and nothing
/// changes.
pub proof fn law_revocations_are_carried_out(v: StoreView, j: JsonValue, now: int)
    requires
        v.log.len() < u64::MAX,
    ensures
        forall|ident: IdentifierView, id: u64, at: int| #[trigger]
            asks_to_revoke(j, now, ident, id, at) && is_entry_of(v.ledger, ident.key(), id)
                ==> is_recorded(
                v,
                admin::revoke_outcome(v, j, now),
                OpView::RevokeEntry {
                    identifier: ident.key(),
                    entry_id: id,
                    effective_at: at,
                    reason: text_or_else(j, "reason"@, "revoked"@),
                },
                now,
                200,
            ) && document_laws::has_text(
                reply_of(admin::revoke_outcome(v, j, now)),
                "identifier"@,
                Some(ident.key()),
            ) && document_laws::has(reply_of(admin::revoke_outcome(v, j, now)), "revoked"@, JsonValue::Number(id)) && document_laws::has_text(
                reply_of(admin::revoke_outcome(v, j, now)),
                "effectiveAt"@,
                Some(time::stamp(at)),
            ),
        !(exists|ident: IdentifierView, id: u64, at: int| #[trigger]
            asks_to_revoke(j, now, ident, id, at) && is_entry_of(v.ledger, ident.key(), id))
            ==> is_turned_down(v, admin::revoke_outcome(v, j, now)),
{
    lemma_reply_keys();
    if let Ok((key, id, at, _)) = admin::revoke_request(j, now) {
        let ident = admin::body_identifier(j)->Ok_0;
        assert(asks_to_revoke(j, now, ident, id, at));
    }
}

/// The document that a request is replied with.
pub open spec fn reply_of(outcome: Option<(StoreView, u16, JsonValue)>) -> JsonValue {
    match outcome {
        Some((_, _, document)) => document,
        None => JsonValue::Null,
    }
}

/// The store after a request.
pub open spec fn store_after(outcome: Option<(StoreView, u16, JsonValue)>) -> StoreView {
    match outcome {
        Some((after, _, _)) => after,
        None => arbitrary(),
    }
}

/// One operation was recorded, and the reply has this status.
pub open spec fn is_recorded(
    v: StoreView,
    outcome: Option<(StoreView, u16, JsonValue)>,
    op: OpView,
    now: int,
    status: u16,
) -> bool {
    outcome matches Some((after, s, _)) && s == status && after == store::recorded(v, op, now)
}

/// A body asks for darkness, or for its end.
pub open spec fn asks_for_darkness(
    j: JsonValue,
    now: int,
    ident: IdentifierView,
    dark: bool,
    at: int,
) -> bool {
    &&& names(j, "identifier"@, ident)
    &&& at_key(j, "dark"@) == Some(JsonValue::Bool(dark))
    &&& takes_effect(j, now, at)
}

/// A request for darkness records it, from the instant that it gives, and one
/// for its end records that; the reply tells which, since when and under which
/// number. One that asks for neither is refused and changes nothing.
pub proof fn law_darkness_is_carried_out(v: StoreView, j: JsonValue, now: int)
    requires
        v.log.len() < u64::MAX,
    ensures
        forall|ident: IdentifierView, dark: bool, at: int| #[trigger]
            asks_for_darkness(j, now, ident, dark, at) ==> is_recorded(
                v,
                admin::dark_outcome(v, j, now),
                if dark {
                    OpView::SetDark { identifier: ident.key(), effective_at: at }
                } else {
                    OpView::ClearDark { identifier: ident.key(), effective_at: at }
                },
                now,
                200,
            ) && document_laws::has_text(
                reply_of(admin::dark_outcome(v, j, now)),
                "identifier"@,
                Some(ident.key()),
            ) && document_laws::has(reply_of(admin::dark_outcome(v, j, now)), "dark"@, JsonValue::Bool(dark)) && document_laws::has_text(
                reply_of(admin::dark_outcome(v, j, now)),
                "effectiveAt"@,
                Some(time::stamp(at)),
            ) && document_laws::has(reply_of(admin::dark_outcome(v, j, now)), "seq"@, JsonValue::Number((v.log.len() + 1) as u64)),
        !(exists|ident: IdentifierView, dark: bool, at: int| #[trigger]
            asks_for_darkness(j, now, ident, dark, at)) ==> is_turned_down(
            v,
            admin::dark_outcome(v, j, now),
        ),
{
    lemma_reply_keys();
    if let Ok((key, dark, at)) = admin::dark_request(j, now) {
        let ident = admin::body_identifier(j)->Ok_0;
        assert(asks_for_darkness(j, now, ident, dark, at));
    }
}

/// A body asks for a correlation: of an identifier that is known here, under
/// `identifierA` or else `identifier`, with another one, in a direction that
/// there is.
pub open spec fn asks_to_correlate(
    l: LedgerView,
    j: JsonValue,
    a: IdentifierView,
    b: IdentifierView,
) -> bool {
    &&& if at_key(j, "identifierA"@) matches Some(JsonValue::Str(_)) {
        names(j, "identifierA"@, a)
    } else {
        names(j, "identifier"@, a)
    }
    &&& at_key(j, "identifierB"@) matches Some(JsonValue::Str(s)) && text::trim(s).len() > 0
        && carrier::identifier_of(text::trim(s)) == Ok::<IdentifierView, Seq<char>>(b)
    &&& a.key() != b.key()
    &&& l.ids.contains_key(a.key())
    &&& ({
        let direction = text_or_else(j, "direction"@, "mutual"@);
        direction == "mutual"@ || direction == "from-a"@ || direction == "from-b"@
    })
}

/// A request to correlate records the claim with its assertor, its evidence and
/// its direction, and the reply tells it. One that asks for no correlation, of
/// an identifier with itself for one, is refused and changes nothing.
pub proof fn law_correlations_are_carried_out(v: StoreView, j: JsonValue, now: int)
    requires
        v.log.len() < u64::MAX,
    ensures
        forall|a: IdentifierView, b: IdentifierView| #[trigger]
            asks_to_correlate(v.ledger, j, a, b) ==> is_recorded(
                v,
                admin::correlate_outcome(v, j, now),
                OpView::Correlate {
                    identifier_a: a.key(),
                    identifier_b: b.key(),
                    assertor: text_or_else(j, "assertor"@, ""@),
                    evidence: text_or_else(j, "evidence"@, ""@),
                    direction: text_or_else(j, "direction"@, "mutual"@),
                },
                now,
                201,
            ) && document_laws::has_text(
                reply_of(admin::correlate_outcome(v, j, now)),
                "identifierA"@,
                Some(a.key()),
            ) && document_laws::has_text(reply_of(admin::correlate_outcome(v, j, now)), "identifierB"@, Some(b.key())) && document_laws::has_text(
                reply_of(admin::correlate_outcome(v, j, now)),
                "assertor"@,
                Some(text_or_else(j, "assertor"@, ""@)),
            ) && document_laws::has_text(
                reply_of(admin::correlate_outcome(v, j, now)),
                "direction"@,
                Some(text_or_else(j, "direction"@, "mutual"@)),
            ) && document_laws::has(reply_of(admin::correlate_outcome(v, j, now)), "record"@, record::record_json(store_after(admin::correlate_outcome(v, j, now)).log.last())),
        !(exists|a: IdentifierView, b: IdentifierView| #[trigger]
            asks_to_correlate(v.ledger, j, a, b)) ==> is_turned_down(
            v,
            admin::correlate_outcome(v, j, now),
        ),
{
    lemma_reply_keys();
    if let Ok(op) = admin::correlate_request(v.ledger, j) {
        let a = admin::local_side(j)->Ok_0;
        let b = carrier::identifier_of(text::trim(at_key(j, "identifierB"@)->0->Str_0))->Ok_0;
        assert(asks_to_correlate(v.ledger, j, a, b));
    }
}

/// A body asks for a rotation of an identifier that is known here.
pub open spec fn asks_to_supersede(
    l: LedgerView,
    j: JsonValue,
    now: int,
    ident: IdentifierView,
    successor: Seq<char>,
    at: int,
) -> bool {
    &&& names(j, "identifier"@, ident)
    &&& at_key(j, "successor"@) matches Some(JsonValue::Str(s)) && successor == text::trim(s)
    &&& successor.len() > 0
    &&& takes_effect(j, now, at)
    &&& l.ids.contains_key(ident.key())
}

/// A request for a rotation records the successor from the instant that it
/// gives, with its authority and its reason, and the reply tells it. One that
/// asks for no rotation is refused and changes nothing.
pub proof fn law_rotations_are_carried_out(v: StoreView, j: JsonValue, now: int)
    requires
        v.log.len() < u64::MAX,
    ensures
        forall|ident: IdentifierView, successor: Seq<char>, at: int| #[trigger]
            asks_to_supersede(v.ledger, j, now, ident, successor, at) ==> is_recorded(
                v,
                admin::supersede_outcome(v, j, now),
                OpView::Supersede {
                    identifier: ident.key(),
                    successor,
                    effective_at: at,
                    authority: text_or_else(j, "authority"@, ""@),
                    reason: text_or_else(j, "reason"@, ""@),
                },
                now,
                200,
            ) && document_laws::has_text(
                reply_of(admin::supersede_outcome(v, j, now)),
                "identifier"@,
                Some(ident.key()),
            ) && document_laws::has_text(reply_of(admin::supersede_outcome(v, j, now)), "supersededBy"@, Some(successor)) && document_laws::has_text(
                reply_of(admin::supersede_outcome(v, j, now)),
                "effectiveAt"@,
                Some(time::stamp(at)),
            ) && document_laws::has(reply_of(admin::supersede_outcome(v, j, now)), "record"@, record::record_json(store_after(admin::supersede_outcome(v, j, now)).log.last())),
        !(exists|ident: IdentifierView, successor: Seq<char>, at: int| #[trigger]
            asks_to_supersede(v.ledger, j, now, ident, successor, at)) ==> is_turned_down(
            v,
            admin::supersede_outcome(v, j, now),
        ),
{
    lemma_reply_keys();
    if let Ok(OpView::Supersede { successor, effective_at, .. }) = admin::supersede_request(
        v.ledger,
        j,
        now,
    ) {
        let ident = admin::body_identifier(j)->Ok_0;
        assert(asks_to_supersede(v.ledger, j, now, ident, successor, effective_at));
    }
}

// ---------------------------------------------------------------------------
// Access
// ---------------------------------------------------------------------------

/// A request is heard exactly where it shows the token, if there is one, and its
/// body is JSON; what is heard is that body. A request without the token is
/// refused for that, whatever it says.
pub proof fn law_only_the_token_admits(
    token: Option<Seq<char>>,
    authorization: Option<Seq<char>>,
    body: Seq<char>,
)
    ensures
        ({
            let shown = match token {
                Some(t) => authorization == Some("Bearer "@ + t),
                None => true,
            };
            &&& admin::is_authorized(token, authorization) == shown
            &&& admin::admitted(token, authorization, body) == if !shown {
                Err::<JsonValue, RefusalView>(RefusalView::Unauthorized)
            } else {
                match json::json_parse(body) {
                    Ok(j) => Ok(j),
                    Err(m) => Err(RefusalView::Malformed("invalid JSON body: "@ + m)),
                }
            }
        }),
{
}

/// A request without the token is told that it is not authorized, and one whose
/// body is no JSON what is wrong with it; neither changes anything. What is
/// carried out is told as JSON, with the status that it has come to.
pub proof fn law_outcomes_are_told(
    before: StoreView,
    after: StoreView,
    r: Reply,
    m: Seq<char>,
    outcome: StoreView,
    status: u16,
    document: JsonValue,
)
    ensures
        admin::turned_away(before, after, Some(r), RefusalView::Unauthorized) ==> after == before && r@ == (
        ReplyView {
            status: 401,
            headers: seq![("content-type"@, "application/json"@)],
            body: "{\"error\":\"unauthorized\"}"@,
        }),
        admin::turned_away(before, after, Some(r), RefusalView::Malformed(m)) ==> after == before && r@ == (
        ReplyView {
            status: 400,
            headers: seq![("content-type"@, "application/json"@)],
            body: json::json_compact(JsonValue::Object(map!["error"@ => JsonValue::Str(m)])),
        }),
        admin::carried_out(before, after, Some(r), Some((outcome, status, document))) ==> after == outcome
            && r@ == (ReplyView {
            status,
            headers: seq![("content-type"@, "application/json"@)],
            body: json::json_compact(document),
        }),
        !admin::carried_out(before, after, None, Some((outcome, status, document))),
        admin::carried_out(before, after, None, None) ==> after == before,
        reply::unauthorized_reply().status == 401 && reply::unauthorized_reply().body
            == "{\"error\":\"unauthorized\"}"@,
{
    assert(reply::error_json(m) == JsonValue::Object(map!["error"@ => JsonValue::Str(m)]));
}

/// The history is shown from the record asked for on, or from the first; as
/// many records as asked for, or a hundred, and never more than ten thousand. A
/// number counts that is written plainly.
pub proof fn law_the_history_is_shown_as_asked(
    v: StoreView,
    params: Seq<(Seq<char>, Seq<char>)>,
    i: int,
    n: nat,
)
    requires
        n <= usize::MAX,
    ensures
        laws::counts(params, i) && params[i] == ("limit"@, text::decimal(n)) ==> admin::limit_param(params) == (if n
            > 10000 {
            10000
        } else {
            n as int
        }),
        laws::lacks(params, "limit"@) ==> admin::limit_param(params) == 100,
        laws::counts(params, i) && params[i] == ("offset"@, text::decimal(n)) ==> admin::number_param(
            params,
            "offset"@,
            0,
        ) == n,
        laws::lacks(params, "offset"@) ==> admin::number_param(params, "offset"@, 0) == 0,
        admin::log_reply(v, params) == (ReplyView {
            status: 200,
            headers: seq![("content-type"@, "application/json"@)],
            body: json::json_pretty(
                store::page_json(
                    v.log,
                    admin::limit_param(params) as nat,
                    admin::number_param(params, "offset"@, 0) as nat,
                ),
            ),
        }),
{
    text_laws::law_written_numbers_are_read(n, usize::MAX as int);
    if laws::counts(params, i) {
        laws::lemma_lookup_counts(params, i);
    }
    if laws::lacks(params, "limit"@) {
        laws::lemma_lookup_lacks(params, "limit"@);
    }
    if laws::lacks(params, "offset"@) {
        laws::lemma_lookup_lacks(params, "offset"@);
    }
}

/// The state of an identifier is shown in full, and one that nothing is
/// registered of tells nothing.
pub proof fn law_states_are_shown(v: StoreView, key: Seq<char>)
    ensures
        admin::state_reply(v, key) == if v.ledger.ids.contains_key(key) {
            ReplyView {
                status: 200,
                headers: seq![("content-type"@, "application/json"@)],
                body: json::json_pretty(store::state_json(key, v.ledger.ids[key], v.log.len())),
            }
        } else {
            ReplyView {
                status: 404,
                headers: seq![("content-type"@, "application/json"@)],
                body: "{\"error\":\"not found\"}"@,
            }
        },
{
}

// ---------------------------------------------------------------------------
// The journal
// ---------------------------------------------------------------------------

/// A field spells this instant.
pub open spec fn spells_instant(j: JsonValue, key: Seq<char>, t: int) -> bool {
    at_key(j, key) matches Some(JsonValue::Str(s)) && time::stamp_secs(s) == Some(t)
}

/// An object describes an operation: by its name, with everything that it needs.
pub open spec fn is_operation_of(j: JsonValue, now: int, op: OpView) -> bool {
    match op {
        OpView::RegisterEntry { identifier, entry } => {
            &&& at_key(j, "op"@) == Some(JsonValue::Str("register-entry"@))
            &&& at_key(j, "identifier"@) == Some(JsonValue::Str(identifier))
            &&& at_key(j, "entry"@) matches Some(form) && is_form_of(
                form,
                now,
                EntryView { id: 0, ..entry },
            ) && match at_key(form, "id"@) {
                Some(JsonValue::Number(id)) => entry.id == id,
                _ => entry.id == 0,
            }
        },
        OpView::RevokeEntry { identifier, entry_id, effective_at, reason } => {
            &&& at_key(j, "op"@) == Some(JsonValue::Str("revoke-entry"@))
            &&& at_key(j, "identifier"@) == Some(JsonValue::Str(identifier))
            &&& at_key(j, "entryId"@) == Some(JsonValue::Number(entry_id))
            &&& spells_instant(j, "effectiveAt"@, effective_at)
            &&& reason == text_or_else(j, "reason"@, ""@)
        },
        OpView::SetDark { identifier, effective_at } => {
            &&& at_key(j, "op"@) == Some(JsonValue::Str("set-dark"@))
            &&& at_key(j, "identifier"@) == Some(JsonValue::Str(identifier))
            &&& spells_instant(j, "effectiveAt"@, effective_at)
        },
        OpView::ClearDark { identifier, effective_at } => {
            &&& at_key(j, "op"@) == Some(JsonValue::Str("clear-dark"@))
            &&& at_key(j, "identifier"@) == Some(JsonValue::Str(identifier))
            &&& spells_instant(j, "effectiveAt"@, effective_at)
        },
        OpView::Supersede { identifier, successor, effective_at, authority, reason } => {
            &&& at_key(j, "op"@) == Some(JsonValue::Str("supersede"@))
            &&& at_key(j, "identifier"@) == Some(JsonValue::Str(identifier))
            &&& at_key(j, "successor"@) == Some(JsonValue::Str(successor))
            &&& spells_instant(j, "effectiveAt"@, effective_at)
            &&& authority == text_or_else(j, "authority"@, ""@)
            &&& reason == text_or_else(j, "reason"@, ""@)
        },
        OpView::Correlate { identifier_a, identifier_b, assertor, evidence, direction } => {
            &&& at_key(j, "op"@) == Some(JsonValue::Str("correlate"@))
            &&& at_key(j, "identifierA"@) == Some(JsonValue::Str(identifier_a))
            &&& at_key(j, "identifierB"@) == Some(JsonValue::Str(identifier_b))
            &&& assertor == text_or_else(j, "assertor"@, ""@)
            &&& evidence == text_or_else(j, "evidence"@, ""@)
            &&& direction == text_or_else(j, "direction"@, "mutual"@)
        },
    }
}

proof fn lemma_op_names()
    ensures
        "register-entry"@.len() == 14,
        "revoke-entry"@.len() == 12,
        "set-dark"@.len() == 8,
        "clear-dark"@.len() == 10,
        "supersede"@.len() == 9,
        "correlate"@.len() == 9,
        "supersede"@ != "correlate"@,
{
    reveal_strlit("register-entry");
    reveal_strlit("revoke-entry");
    reveal_strlit("set-dark");
    reveal_strlit("clear-dark");
    reveal_strlit("supersede");
    reveal_strlit("correlate");
    assert("supersede"@[0] != "correlate"@[0]);
}

/// A record is read as what it describes, and as nothing else: its number, its
/// instant and its operation.
pub proof fn law_records_are_read_as_described(j: JsonValue, now: int, rec: RecordView)
    ensures
        record::record_of(j, now) == Ok::<RecordView, Seq<char>>(rec) <==> j is Object && at_key(j, "seq"@)
            == Some(JsonValue::Number(rec.seq)) && spells_instant(j, "recordedAt"@, rec.recorded_at)
            && is_operation_of(j, now, rec.op),
{
    lemma_op_names();
    if let OpView::RegisterEntry { entry, .. } = rec.op {
        if let Some(form) = at_key(j, "entry"@) {
            law_forms_are_read_as_described(form, now, EntryView { id: 0, ..entry });
            if let Ok(e) = entry::admin_entry(form, now) {
                law_forms_are_read_as_described(form, now, e);
            }
        }
    }
}

/// A journal is replayed line by line: a line that holds a record adds it to
/// what the lines before led to; any other changes nothing, and unless it is
/// blank something is said of it, with its number.
pub proof fn law_journals_are_replayed_line_by_line(
    v: StoreView,
    lines: Seq<Seq<char>>,
    line: Seq<char>,
    now: int,
)
    ensures
        ({
            let before = store::replaying(v, lines, now);
            let after = store::replaying(v, lines.push(line), now);
            let said = store::complaints(lines, now);
            let says = store::complaints(lines.push(line), now);
            if text::trim(line).len() == 0 {
                after == before && says == said
            } else {
                match json::json_parse(line) {
                    Ok(j) => match record::record_of(j, now) {
                        Ok(rec) => {
                            &&& after.log == before.log.push(rec)
                            &&& after.ledger == store::applied(before.ledger, rec)
                            &&& after.cache == before.cache
                            &&& says == said
                        },
                        Err(m) => after == before && says == said.push(
                            "journal line "@ + text::decimal(lines.len() + 1) + ": "@ + m,
                        ),
                    },
                    Err(m) => after == before && says == said.push(
                        "journal line "@ + text::decimal(lines.len() + 1) + ": "@ + m,
                    ),
                }
            }
        }),
        store::replaying(v, Seq::empty(), now) == v,
        store::complaints(Seq::empty(), now).len() == 0,
{
    assert(lines.push(line).drop_last() =~= lines);
}

} // verus!
