//! RFC 9264 linksets in JSON (`application/linkset+json`): writing and reading
//! documents, and the way between store entries and wire links.
//!
//! Routing uses the open link parameters `unidpp:profile`, `unidpp:role` and
//! `unidpp:region` beside the standard `hreflang`; `unidpp:as-of` and
//! `unidpp:expiry` stamp the validity of every link. A link for any language
//! has `hreflang: ["*"]`.

use vstd::prelude::*;

use crate::entry;
use crate::entry::{
    EntryView, LinkEntry, inverted_text, put_opt, put_opt_stamp, read_description, read_languages,
};
use crate::json;
use crate::json::{
    Json, JsonValue, copy_items, parse_json, print_pretty, put, put_text, text_array,
};
use crate::store;
use crate::store::{Correlation, CorrelationView, Supersession, SupersessionView};
use crate::text;
use crate::text::{concat3, slice_or};
use crate::time;
use crate::time::Timestamp;

verus! {

// ---------------------------------------------------------------------------
// Writing
// ---------------------------------------------------------------------------

/// The languages of a link, any language explicit.
pub open spec fn wire_languages(languages: Seq<Seq<char>>) -> Seq<Seq<char>> {
    if languages.len() == 0 {
        seq!["*"@]
    } else {
        languages
    }
}

/// The fields of the link of an entry.
pub open spec fn link_fields(anchor: Seq<char>, e: EntryView) -> Map<Seq<char>, JsonValue> {
    let m = Map::empty().insert("anchor"@, JsonValue::Str(anchor)).insert(
        "uri"@,
        JsonValue::Str(e.href),
    ).insert("rel"@, JsonValue::Str(e.link_type)).insert(
        "hreflang"@,
        json::text_items(wire_languages(e.languages)),
    );
    let m = entry::with_text(entry::with_text(m, "title"@, e.title), "type"@, e.media_type);
    let m = m.insert("unidpp:profile"@, JsonValue::Str(text::text_or(e.profile, "*"@))).insert(
        "unidpp:role"@,
        JsonValue::Str(text::text_or(e.role, "*"@)),
    ).insert("unidpp:region"@, JsonValue::Str(text::text_or(e.region, "*"@))).insert(
        "unidpp:as-of"@,
        JsonValue::Str(time::stamp(e.as_of)),
    );
    entry::with_text(m, "unidpp:expiry"@, entry::stamp_of(e.expiry))
}

/// The link of an entry.
pub open spec fn link_json(anchor: Seq<char>, e: EntryView) -> JsonValue {
    JsonValue::Object(link_fields(anchor, e))
}

/// The links of a list of entries.
pub open spec fn links_json(anchor: Seq<char>, entries: Seq<EntryView>) -> JsonValue {
    JsonValue::Array(entries.map_values(|e: EntryView| link_json(anchor, e)))
}

/// The fields of an object with what is stated of an identity's rotation.
pub open spec fn with_rotation(
    m: Map<Seq<char>, JsonValue>,
    rotation: Option<SupersessionView>,
) -> Map<Seq<char>, JsonValue> {
    match rotation {
        Some(s) => m.insert("unidpp:superseded-by"@, JsonValue::Str(s.successor)).insert(
            "unidpp:superseded-effective-at"@,
            JsonValue::Str(time::stamp(s.effective_at)),
        ).insert("unidpp:superseded-by-authority"@, JsonValue::Str(s.authority)).insert(
            "unidpp:supersession-reason"@,
            JsonValue::Str(s.reason),
        ),
        None => m,
    }
}

/// The fields of an object with the claims about an identity.
pub open spec fn with_claims(
    m: Map<Seq<char>, JsonValue>,
    claims: Seq<CorrelationView>,
) -> Map<Seq<char>, JsonValue> {
    if claims.len() == 0 {
        m
    } else {
        m.insert(
            "unidpp:correlated-with"@,
            JsonValue::Array(claims.map_values(|c: CorrelationView| store::correlation_json(c))),
        )
    }
}

/// A linkset document together with the statements about its identity.
pub open spec fn document_json(
    anchor: Seq<char>,
    entries: Seq<EntryView>,
    rotation: Option<SupersessionView>,
    claims: Seq<CorrelationView>,
) -> JsonValue {
    JsonValue::Object(
        with_claims(
            with_rotation(Map::empty().insert("linkset"@, links_json(anchor, entries)), rotation),
            claims,
        ),
    )
}

/// No key of the objects printed here begins with `$`.
proof fn lemma_keys_are_plain()
    ensures
        json::is_plain_key("anchor"@),
        json::is_plain_key("uri"@),
        json::is_plain_key("rel"@),
        json::is_plain_key("hreflang"@),
        json::is_plain_key("unidpp:profile"@),
        json::is_plain_key("unidpp:role"@),
        json::is_plain_key("unidpp:region"@),
        json::is_plain_key("unidpp:as-of"@),
        json::is_plain_key("unidpp:superseded-by"@),
        json::is_plain_key("unidpp:superseded-effective-at"@),
        json::is_plain_key("unidpp:superseded-by-authority"@),
        json::is_plain_key("unidpp:supersession-reason"@),
        json::is_plain_key("unidpp:correlated-with"@),
        json::is_plain_key("linkset"@),
        json::is_plain_key("title"@),
        json::is_plain_key("type"@),
        json::is_plain_key("unidpp:expiry"@),
{
    reveal_strlit("anchor");
    reveal_strlit("uri");
    reveal_strlit("rel");
    reveal_strlit("hreflang");
    reveal_strlit("unidpp:profile");
    reveal_strlit("unidpp:role");
    reveal_strlit("unidpp:region");
    reveal_strlit("unidpp:as-of");
    reveal_strlit("unidpp:superseded-by");
    reveal_strlit("unidpp:superseded-effective-at");
    reveal_strlit("unidpp:superseded-by-authority");
    reveal_strlit("unidpp:supersession-reason");
    reveal_strlit("unidpp:correlated-with");
    reveal_strlit("linkset");
    reveal_strlit("title");
    reveal_strlit("type");
    reveal_strlit("unidpp:expiry");
}

/// Links print without loss.
pub proof fn lemma_link_printable(anchor: Seq<char>, e: EntryView)
    ensures
        json::is_printable(link_json(anchor, e), 2),
{
    broadcast use json::lemma_put_printable;

    lemma_keys_are_plain();
    reveal_with_fuel(json::is_printable, 2);
    assert(json::fields_printable(Map::<Seq<char>, JsonValue>::empty(), 1));
    assert(json::is_printable(json::text_items(wire_languages(e.languages)), 1));
    assert(json::fields_printable(link_fields(anchor, e), 1));
}

/// Claims print without loss.
pub proof fn lemma_claims_printable(claims: Seq<CorrelationView>, n: nat)
    requires
        n >= 2,
    ensures
        json::is_printable(
            JsonValue::Array(claims.map_values(|c: CorrelationView| store::correlation_json(c))),
            n,
        ),
{
    let items = claims.map_values(|c: CorrelationView| store::correlation_json(c));
    assert forall|i: int| 0 <= i < items.len() implies json::is_printable(
        #[trigger] items[i],
        (n - 1) as nat,
    ) by {
        store::lemma_correlation_printable(claims[i]);
        json::lemma_printable_deeper(items[i], 1, (n - 1) as nat);
    }
}

/// Documents print without loss.
pub proof fn lemma_document_printable(
    anchor: Seq<char>,
    entries: Seq<EntryView>,
    rotation: Option<SupersessionView>,
    claims: Seq<CorrelationView>,
)
    ensures
        json::is_printable(document_json(anchor, entries, rotation, claims), 4),
{
    broadcast use json::lemma_put_printable;

    lemma_keys_are_plain();

    let links = entries.map_values(|e: EntryView| link_json(anchor, e));
    assert forall|i: int| 0 <= i < links.len() implies json::is_printable(#[trigger] links[i], 2) by {
        lemma_link_printable(anchor, entries[i]);
    }
    lemma_claims_printable(claims, 3);
    assert(json::fields_printable(Map::<Seq<char>, JsonValue>::empty(), 3));
    let m = Map::empty().insert("linkset"@, links_json(anchor, entries));
    assert(json::fields_printable(m, 3));
    assert(json::fields_printable(with_rotation(m, rotation), 3));
    assert(json::fields_printable(with_claims(with_rotation(m, rotation), claims), 3));
}

/// The views of a list of borrowed entries.
pub open spec fn borrowed_views(v: Seq<&LinkEntry>) -> Seq<EntryView> {
    v.map_values(|e: &LinkEntry| e@)
}

/// Write the link of an entry.
pub fn link_object(anchor: &str, e: &LinkEntry) -> (r: Json)
    ensures
        r@ == link_json(anchor@, e@),
{
    let mut f: Vec<(String, Json)> = Vec::new();
    put_text(&mut f, "anchor", anchor);
    put_text(&mut f, "uri", e.href.as_str());
    put_text(&mut f, "rel", e.link_type.as_str());
    let languages = if e.languages.len() == 0 {
        let mut any: Vec<String> = Vec::new();
        any.push("*".to_string());
        assert(text::strings(any@) =~= seq!["*"@]);
        text_array(&any)
    } else {
        text_array(&e.languages)
    };
    put(&mut f, "hreflang", languages);
    put_opt(&mut f, "title", &e.title);
    put_opt(&mut f, "type", &e.media_type);
    put_text(&mut f, "unidpp:profile", slice_or(&e.profile, "*"));
    put_text(&mut f, "unidpp:role", slice_or(&e.role, "*"));
    put_text(&mut f, "unidpp:region", slice_or(&e.region, "*"));
    put_text(&mut f, "unidpp:as-of", e.as_of.to_string().as_str());
    put_opt_stamp(&mut f, "unidpp:expiry", &e.expiry);
    Json::Object(f)
}

/// Put what is stated of an identity's rotation into an object under
/// construction.
pub(crate) fn put_rotation(f: &mut Vec<(String, Json)>, rotation: Option<&Supersession>)
    ensures
        json::fields_model(final(f)@) == with_rotation(
            json::fields_model(old(f)@),
            rotation_view(rotation),
        ),
{
    if let Some(s) = rotation {
        put_text(f, "unidpp:superseded-by", s.successor.as_str());
        put_text(f, "unidpp:superseded-effective-at", s.effective_at.to_string().as_str());
        put_text(f, "unidpp:superseded-by-authority", s.authority.as_str());
        put_text(f, "unidpp:supersession-reason", s.reason.as_str());
    }
}

/// The view of an optional rotation.
pub open spec fn rotation_view(s: Option<&Supersession>) -> Option<SupersessionView> {
    match s {
        Some(s) => Some(s@),
        None => None,
    }
}

/// Put the claims about an identity into an object under construction.
pub(crate) fn put_claims(f: &mut Vec<(String, Json)>, claims: &[Correlation])
    ensures
        json::fields_model(final(f)@) == with_claims(
            json::fields_model(old(f)@),
            store::correlation_views(claims@),
        ),
{
    if claims.len() > 0 {
        let ghost forms = store::correlation_views(claims@).map_values(
            |c: CorrelationView| store::correlation_json(c),
        );
        let mut items: Vec<Json> = Vec::new();
        let mut i: usize = 0;
        while i < claims.len()
            invariant
                i <= claims.len(),
                forms == store::correlation_views(claims@).map_values(
                    |c: CorrelationView| store::correlation_json(c),
                ),
                json::items_model(items@) == forms.take(i as int),
            decreases claims.len() - i,
        {
            let ghost had = items@;
            items.push(claims[i].to_json());
            i += 1;
            assert(items@.drop_last() =~= had);
            assert(forms.take(i as int) =~= forms.take(i - 1).push(forms[i - 1]));
        }
        assert(forms.take(i as int) =~= forms);
        put(f, "unidpp:correlated-with", Json::Array(items));
    }
}

/// Write a linkset document, indented by two spaces, together with the
/// statements about its identity.
pub fn emit_document_full(
    anchor: &str,
    entries: &[&LinkEntry],
    supersession: Option<&Supersession>,
    correlations: &[Correlation],
) -> (r: String)
    ensures
        ({
            let doc = document_json(
                anchor@,
                borrowed_views(entries@),
                rotation_view(supersession),
                store::correlation_views(correlations@),
            );
            r@ == json::json_pretty(doc) && json::reads_as(r@, doc)
        }),
{
    let ghost views = borrowed_views(entries@);
    let ghost forms = views.map_values(|e: EntryView| link_json(anchor@, e));
    let mut links: Vec<Json> = Vec::new();
    let mut i: usize = 0;
    while i < entries.len()
        invariant
            i <= entries.len(),
            views == borrowed_views(entries@),
            forms == views.map_values(|e: EntryView| link_json(anchor@, e)),
            json::items_model(links@) == forms.take(i as int),
        decreases entries.len() - i,
    {
        let ghost had = links@;
        links.push(link_object(anchor, entries[i]));
        i += 1;
        assert(links@.drop_last() =~= had);
        assert(views[i - 1] == entries@[i - 1]@);
        assert(forms.take(i as int) =~= forms.take(i - 1).push(forms[i - 1]));
    }
    assert(forms.take(i as int) =~= forms);
    let mut f: Vec<(String, Json)> = Vec::new();
    put(&mut f, "linkset", Json::Array(links));
    put_rotation(&mut f, supersession);
    put_claims(&mut f, correlations);
    let doc = Json::Object(f);
    proof {
        lemma_document_printable(
            anchor@,
            views,
            rotation_view(supersession),
            store::correlation_views(correlations@),
        );
        json::lemma_printable_deeper(doc@, 4, 127);
    }
    print_pretty(&doc)
}

/// Write a linkset document, indented by two spaces.
pub fn emit_document(anchor: &str, entries: &[&LinkEntry]) -> (r: String)
    ensures
        ({
            let doc = document_json(anchor@, borrowed_views(entries@), None, Seq::empty());
            r@ == json::json_pretty(doc) && json::reads_as(r@, doc)
        }),
{
    let none: Vec<Correlation> = Vec::new();
    assert(store::correlation_views(none@) =~= Seq::empty());
    emit_document_full(anchor, entries, None, none.as_slice())
}

// ---------------------------------------------------------------------------
// Reading
// ---------------------------------------------------------------------------

/// The first of the fields `anchor`, `uri` and `rel` that is no string.
pub open spec fn lacking_field(link: JsonValue) -> Option<Seq<char>> {
    if json::string_in(json::field(link, "anchor"@)) is None {
        Some("anchor"@)
    } else if json::string_in(json::field(link, "uri"@)) is None {
        Some("uri"@)
    } else if json::string_in(json::field(link, "rel"@)) is None {
        Some("rel"@)
    } else {
        None
    }
}

/// What is wrong with a link of a document.
pub open spec fn link_complaint(link: JsonValue) -> Option<Seq<char>> {
    if !(link is Object) {
        Some("linkset entry must be an object"@)
    } else {
        match lacking_field(link) {
            Some(k) => Some("link requires string `"@ + k + "`"@),
            None => None,
        }
    }
}

/// What is wrong with the first bad link of a list.
pub open spec fn first_complaint(links: Seq<JsonValue>) -> Option<Seq<char>>
    decreases links.len(),
{
    if links.len() == 0 {
        None
    } else {
        match link_complaint(links[0]) {
            Some(m) => Some(m),
            None => first_complaint(links.skip(1)),
        }
    }
}

/// The links that a document lists: a full document, a bare array of links, or
/// a single link.
pub open spec fn listed_links(j: JsonValue) -> Result<Seq<JsonValue>, Seq<char>> {
    match j {
        JsonValue::Array(links) => Ok(links),
        JsonValue::Object(m) => if m.contains_key("linkset"@) {
            match m["linkset"@] {
                JsonValue::Array(links) => Ok(links),
                _ => Err("`linkset` must be an array"@),
            }
        } else {
            Ok(seq![j])
        },
        _ => Err("linkset document must be an object or array"@),
    }
}

/// The links of a document, each with string `anchor`, `uri` and `rel`.
pub open spec fn document_links(j: JsonValue) -> Result<Seq<JsonValue>, Seq<char>> {
    match listed_links(j) {
        Err(m) => Err(m),
        Ok(links) => match first_complaint(links) {
            Some(m) => Err(m),
            None => Ok(links),
        },
    }
}

/// The links of a document in text.
pub open spec fn text_links(text: Seq<char>) -> Result<Seq<JsonValue>, Seq<char>> {
    match json::json_parse(text) {
        Err(m) => Err("invalid linkset JSON: "@ + m),
        Ok(j) => document_links(j),
    }
}

/// The view of a reading result.
pub open spec fn links_result(r: Result<Vec<Json>, String>) -> Result<Seq<JsonValue>, Seq<char>> {
    match r {
        Ok(links) => Ok(json::items_model(links@)),
        Err(m) => Err(m@),
    }
}

fn complaint_about(link: &Json) -> (r: Option<String>)
    ensures
        text::opt_text(r) == link_complaint(link@),
{
    match link {
        Json::Object(_) => {},
        _ => return Some("linkset entry must be an object".to_string()),
    }
    let lacking = if link.str_field("anchor").is_none() {
        "anchor"
    } else if link.str_field("uri").is_none() {
        "uri"
    } else if link.str_field("rel").is_none() {
        "rel"
    } else {
        return None;
    };
    Some(concat3("link requires string `", lacking, "`"))
}

/// The links of a document that has been read as JSON.
pub fn links_in_value(parsed: &Json) -> (r: Result<Vec<Json>, String>)
    ensures
        links_result(r) == document_links(parsed@),
{
    let links: Vec<Json> = match parsed {
        Json::Array(items) => copy_items(items),
        Json::Object(_) => match parsed.get("linkset") {
            Some(v) => match v {
                Json::Array(items) => copy_items(items),
                _ => return Err("`linkset` must be an array".to_string()),
            },
            None => {
                let mut one: Vec<Json> = Vec::new();
                one.push(parsed.clone());
                proof {
                    json::lemma_items_model(one@);
                    assert(json::items_model(one@) =~= seq![parsed@]);
                }
                one
            },
        },
        _ => return Err("linkset document must be an object or array".to_string()),
    };
    let ghost all = json::items_model(links@);
    let mut i: usize = 0;
    proof {
        json::lemma_items_model(links@);
        assert(all.skip(0) =~= all);
    }
    while i < links.len()
        invariant
            i <= links.len(),
            all == json::items_model(links@),
            all.len() == links.len(),
            forall|k: int| 0 <= k < links@.len() ==> #[trigger] all[k] == json::model(links@[k]),
            listed_links(parsed@) == Ok::<Seq<JsonValue>, Seq<char>>(all),
            first_complaint(all) == first_complaint(all.skip(i as int)),
        decreases links.len() - i,
    {
        assert(all.skip(i as int)[0] == all[i as int]);
        assert(all.skip(i as int).skip(1) =~= all.skip(i + 1));
        if let Some(m) = complaint_about(&links[i]) {
            return Err(m);
        }
        i += 1;
    }
    assert(all.skip(i as int).len() == 0);
    Ok(links)
}

/// Read a linkset document: a full `{"linkset": [...]}` document, a bare array
/// of links, or a single link. Each link must carry string `anchor`, `uri` and
/// `rel`.
pub fn parse_document(document: &str) -> (r: Result<Vec<Json>, String>)
    ensures
        links_result(r) == text_links(document@),
{
    match parse_json(document) {
        Ok(v) => links_in_value(&v),
        Err(m) => {
            let mut s = String::new();
            s.push_str("invalid linkset JSON: ");
            s.push_str(m.as_str());
            assert(s@ =~= "invalid linkset JSON: "@ + m@);
            Err(s)
        },
    }
}

/// The instant in a field, looked at only where it is a string.
pub open spec fn wire_stamp(j: JsonValue, key: Seq<char>) -> Result<Option<int>, Seq<char>> {
    match json::field(j, key) {
        Some(JsonValue::Str(s)) => match time::stamp_secs(s) {
            Some(t) => Ok(Some(t)),
            None => Err(time::stamp_complaint(s)),
        },
        _ => Ok(None),
    }
}

/// The validity of a link: from `unidpp:as-of`, or from the default where there
/// is none, to `unidpp:expiry`.
pub open spec fn wire_validity(j: JsonValue, default: int) -> Result<
    (int, Option<int>),
    Seq<char>,
> {
    match wire_stamp(j, "unidpp:as-of"@) {
        Err(m) => Err(m),
        Ok(begin) => match wire_stamp(j, "unidpp:expiry"@) {
            Err(m) => Err(m),
            Ok(expiry) => {
                let as_of = match begin {
                    Some(t) => t,
                    None => default,
                };
                if entry::is_inverted(as_of, expiry) {
                    Err(entry::inverted_complaint("unidpp:expiry"@, "unidpp:as-of"@, as_of, expiry->0))
                } else {
                    Ok((as_of, expiry))
                }
            },
        },
    }
}

/// The entry that a link describes, or the first thing wrong with it.
pub open spec fn link_entry(j: JsonValue, default: int) -> Result<EntryView, Seq<char>> {
    if !(j is Object) {
        Err("link must be an object"@)
    } else {
        match json::string_in(json::field(j, "uri"@)) {
            None => Err("link requires string `uri`"@),
            Some(href) => match json::string_in(json::field(j, "rel"@)) {
                None => Err("link requires string `rel`"@),
                Some(link_type) => match entry::language_field(j, "hreflang"@) {
                    Err(m) => Err(m),
                    Ok(languages) => match wire_validity(j, default) {
                        Err(m) => Err(m),
                        Ok((as_of, expiry)) => entry::described(
                            j,
                            entry::bare_entry(link_type, href, languages, as_of, expiry),
                            "unidpp:profile"@,
                            "unidpp:role"@,
                            "unidpp:region"@,
                        ),
                    },
                },
            },
        }
    }
}

/// The entries that a list of links describes, or what is wrong with the first
/// bad one.
pub open spec fn link_entries(links: Seq<JsonValue>, default: int) -> Result<
    Seq<EntryView>,
    Seq<char>,
>
    decreases links.len(),
{
    if links.len() == 0 {
        Ok(Seq::empty())
    } else {
        match link_entry(links[0], default) {
            Err(m) => Err(m),
            Ok(e) => match link_entries(links.skip(1), default) {
                Err(m) => Err(m),
                Ok(rest) => Ok(seq![e] + rest),
            },
        }
    }
}

/// The entries of a document in text.
pub open spec fn text_entries(text: Seq<char>, default: int) -> Result<Seq<EntryView>, Seq<char>> {
    match text_links(text) {
        Err(m) => Err(m),
        Ok(links) => link_entries(links, default),
    }
}

/// The view of a reading result.
pub open spec fn entries_result(r: Result<Vec<LinkEntry>, String>) -> Result<
    Seq<EntryView>,
    Seq<char>,
> {
    match r {
        Ok(v) => Ok(entry::entry_views(v@)),
        Err(m) => Err(m@),
    }
}

fn read_wire_stamp(j: &Json, key: &str) -> (r: Result<Option<Timestamp>, String>)
    ensures
        match r {
            Ok(o) => wire_stamp(j@, key@) == Ok::<Option<int>, Seq<char>>(entry::instant(o)),
            Err(m) => wire_stamp(j@, key@) == Err::<Option<int>, Seq<char>>(m@),
        },
{
    match j.str_field(key) {
        Some(s) => match Timestamp::parse(s) {
            Ok(t) => Ok(Some(t)),
            Err(m) => Err(m),
        },
        None => Ok(None),
    }
}

fn read_wire_validity(j: &Json, default: Timestamp) -> (r: Result<
    (Timestamp, Option<Timestamp>),
    String,
>)
    ensures
        match r {
            Ok(v) => wire_validity(j@, default.secs as int) == Ok::<(int, Option<int>), Seq<char>>(
                (v.0.secs as int, entry::instant(v.1)),
            ),
            Err(m) => wire_validity(j@, default.secs as int) == Err::<
                (int, Option<int>),
                Seq<char>,
            >(m@),
        },
{
    let begin = match read_wire_stamp(j, "unidpp:as-of") {
        Ok(o) => o,
        Err(m) => return Err(m),
    };
    let expiry = match read_wire_stamp(j, "unidpp:expiry") {
        Ok(o) => o,
        Err(m) => return Err(m),
    };
    let as_of = match begin {
        Some(t) => t,
        None => default,
    };
    if let Some(e) = expiry {
        if e.secs < as_of.secs {
            return Err(inverted_text("unidpp:expiry", "unidpp:as-of", as_of, e));
        }
    }
    Ok((as_of, expiry))
}

/// Read the entry that a link describes; `default_as_of` applies where the link
/// carries no `unidpp:as-of`.
pub fn entry_from_link_object(link: &Json, default_as_of: Timestamp) -> (r: Result<
    LinkEntry,
    String,
>)
    ensures
        entry::entry_result(r) == link_entry(link@, default_as_of.secs as int),
{
    match link {
        Json::Object(_) => {},
        _ => return Err("link must be an object".to_string()),
    }
    let href = match link.str_field("uri") {
        Some(s) => s.to_string(),
        None => return Err("link requires string `uri`".to_string()),
    };
    let link_type = match link.str_field("rel") {
        Some(s) => s.to_string(),
        None => return Err("link requires string `rel`".to_string()),
    };
    let languages = match read_languages(link, "hreflang") {
        Ok(l) => l,
        Err(m) => return Err(m),
    };
    let validity = match read_wire_validity(link, default_as_of) {
        Ok(v) => v,
        Err(m) => return Err(m),
    };
    let base = LinkEntry {
        id: 0,
        link_type,
        href,
        title: None,
        media_type: None,
        profile: None,
        role: None,
        languages,
        region: None,
        as_of: validity.0,
        expiry: validity.1,
    };
    read_description(link, base, "unidpp:profile", "unidpp:role", "unidpp:region")
}

/// Read the entries that a list of links describes.
pub fn entries_from_links(links: &Vec<Json>, default_as_of: Timestamp) -> (r: Result<
    Vec<LinkEntry>,
    String,
>)
    ensures
        entries_result(r) == link_entries(json::items_model(links@), default_as_of.secs as int),
{
    let ghost all = json::items_model(links@);
    let ghost d = default_as_of.secs as int;
    let mut out: Vec<LinkEntry> = Vec::new();
    let mut i: usize = 0;
    proof {
        json::lemma_items_model(links@);
        assert(all.skip(0) =~= all);
        assert(entry::entry_views(out@) =~= Seq::empty());
        assert(forall|l: Seq<EntryView>| #[trigger] (entry::entry_views(out@) + l) =~= l);
    }
    while i < links.len()
        invariant
            i <= links.len(),
            d == default_as_of.secs as int,
            all == json::items_model(links@),
            all.len() == links.len(),
            forall|k: int| 0 <= k < links@.len() ==> #[trigger] all[k] == json::model(links@[k]),
            link_entries(all, d) == (match link_entries(all.skip(i as int), d) {
                Ok(rest) => Ok::<Seq<EntryView>, Seq<char>>(entry::entry_views(out@) + rest),
                Err(m) => Err(m),
            }),
        decreases links.len() - i,
    {
        let ghost here = all.skip(i as int);
        assert(here.skip(1) =~= all.skip(i + 1));
        assert(here[0] == all[i as int]);
        match entry_from_link_object(&links[i], default_as_of) {
            Ok(e) => {
                let ghost had = entry::entry_views(out@);
                out.push(e);
                assert(entry::entry_views(out@) =~= had.push(e@));
                assert(forall|l: Seq<EntryView>| #[trigger]
                    (entry::entry_views(out@) + l) =~= had + (seq![e@] + l));
            },
            Err(m) => {
                return Err(m);
            },
        }
        i += 1;
    }
    assert(all.skip(i as int).len() == 0);
    assert(entry::entry_views(out@) + Seq::<EntryView>::empty() =~= entry::entry_views(out@));
    Ok(out)
}

/// Read the entries of a whole document.
pub fn entries_from_document(document: &str, default_as_of: Timestamp) -> (r: Result<
    Vec<LinkEntry>,
    String,
>)
    ensures
        entries_result(r) == text_entries(document@, default_as_of.secs as int),
{
    match parse_document(document) {
        Ok(links) => entries_from_links(&links, default_as_of),
        Err(m) => Err(m),
    }
}

// ---------------------------------------------------------------------------
// Laws
// ---------------------------------------------------------------------------

/// An entry that a link can carry: wildcards written as absence, and a validity
/// in the years 0000 to 9999 that does not end before it begins.
pub open spec fn is_linkable(e: EntryView) -> bool {
    &&& entry::is_named(e.title) && entry::is_named(e.media_type)
    &&& entry::is_named(e.profile) && entry::is_named(e.role) && entry::is_named(e.region)
    &&& entry::all_named(e.languages)
    &&& time::has_four_digit_year(e.as_of)
    &&& e.expiry matches Some(x) ==> time::has_four_digit_year(x)
    &&& !entry::is_inverted(e.as_of, e.expiry)
}

proof fn lemma_link_keys()
    ensures
        "uri"@.len() == 3 && "uri"@[0] == 'u',
        "rel"@.len() == 3 && "rel"@[0] == 'r',
        "type"@.len() == 4,
        "title"@.len() == 5,
        "anchor"@.len() == 6,
        "hreflang"@.len() == 8,
        "unidpp:role"@.len() == 11,
        "unidpp:as-of"@.len() == 12,
        "unidpp:region"@.len() == 13 && "unidpp:region"@[7] == 'r',
        "unidpp:expiry"@.len() == 13 && "unidpp:expiry"@[7] == 'e',
        "unidpp:profile"@.len() == 14,
{
    reveal_strlit("uri");
    reveal_strlit("rel");
    reveal_strlit("type");
    reveal_strlit("title");
    reveal_strlit("anchor");
    reveal_strlit("hreflang");
    reveal_strlit("unidpp:role");
    reveal_strlit("unidpp:as-of");
    reveal_strlit("unidpp:region");
    reveal_strlit("unidpp:expiry");
    reveal_strlit("unidpp:profile");
}

proof fn lemma_link_form(anchor: Seq<char>, e: EntryView)
    ensures
        ({
            let j = link_json(anchor, e);
            &&& json::field(j, "anchor"@) == Some(JsonValue::Str(anchor))
            &&& json::field(j, "uri"@) == Some(JsonValue::Str(e.href))
            &&& json::field(j, "rel"@) == Some(JsonValue::Str(e.link_type))
            &&& json::field(j, "hreflang"@) == Some(json::text_items(wire_languages(e.languages)))
            &&& json::field(j, "title"@) == entry::text_value(e.title)
            &&& json::field(j, "type"@) == entry::text_value(e.media_type)
            &&& json::field(j, "unidpp:profile"@) == Some(JsonValue::Str(text::text_or(e.profile, "*"@)))
            &&& json::field(j, "unidpp:role"@) == Some(JsonValue::Str(text::text_or(e.role, "*"@)))
            &&& json::field(j, "unidpp:region"@) == Some(JsonValue::Str(text::text_or(e.region, "*"@)))
            &&& json::field(j, "unidpp:as-of"@) == Some(JsonValue::Str(time::stamp(e.as_of)))
            &&& json::field(j, "unidpp:expiry"@) == entry::text_value(entry::stamp_of(e.expiry))
        }),
{
    lemma_link_keys();
}

proof fn lemma_wire_languages_read_back(languages: Seq<Seq<char>>)
    requires
        entry::all_named(languages),
    ensures
        json::text_items(wire_languages(languages)) matches JsonValue::Array(items) && entry::named_items(items)
            == Some(languages),
{
    if languages.len() == 0 {
        let items = seq!["*"@].map_values(|s: Seq<char>| JsonValue::Str(s));
        assert(items.len() == 1);
        assert(items.skip(1) =~= Seq::empty());
        assert(entry::named_items(items.skip(1)) == Some(Seq::<Seq<char>>::empty()));
        assert(items[0] == JsonValue::Str("*"@));
        assert(languages =~= Seq::empty());
    } else {
        entry::lemma_named_items_read_back(languages);
    }
}

proof fn lemma_wire_stamp_reads_back(j: JsonValue, key: Seq<char>, t: Option<int>)
    requires
        json::field(j, key) == entry::text_value(entry::stamp_of(t)),
        t matches Some(t) ==> time::has_four_digit_year(t),
    ensures
        wire_stamp(j, key) == Ok::<Option<int>, Seq<char>>(t),
{
    if let Some(t) = t {
        time::law_stamp_reads_back(t);
    }
}

proof fn lemma_wire_text_reads_back(j: JsonValue, key: Seq<char>, o: Option<Seq<char>>)
    requires
        json::field(j, key) == Some(JsonValue::Str(text::text_or(o, "*"@))),
        entry::is_named(o),
    ensures
        entry::text_field(j, key) == Ok::<Option<Seq<char>>, Seq<char>>(o),
{
}

proof fn lemma_wire_form_reads_back(j: JsonValue, e: EntryView, default: int)
    requires
        j is Object,
        json::field(j, "uri"@) == Some(JsonValue::Str(e.href)),
        json::field(j, "rel"@) == Some(JsonValue::Str(e.link_type)),
        entry::language_field(j, "hreflang"@) == Ok::<Seq<Seq<char>>, Seq<char>>(e.languages),
        wire_validity(j, default) == Ok::<(int, Option<int>), Seq<char>>((e.as_of, e.expiry)),
        entry::described(
            j,
            entry::bare_entry(e.link_type, e.href, e.languages, e.as_of, e.expiry),
            "unidpp:profile"@,
            "unidpp:role"@,
            "unidpp:region"@,
        ) == Ok::<EntryView, Seq<char>>(e.with_id(0)),
    ensures
        link_entry(j, default) == Ok::<EntryView, Seq<char>>(e.with_id(0)),
{
}

/// Reading the link of an entry gives the entry back, apart from its id, which
/// links do not carry; whatever the anchor and the default.
pub proof fn law_link_reads_back(anchor: Seq<char>, e: EntryView, default: int)
    requires
        is_linkable(e),
    ensures
        link_entry(link_json(anchor, e), default) == Ok::<EntryView, Seq<char>>(e.with_id(0)),
        link_complaint(link_json(anchor, e)) is None,
{
    let j = link_json(anchor, e);
    lemma_link_form(anchor, e);
    assert(entry::language_field(j, "hreflang"@) == Ok::<Seq<Seq<char>>, Seq<char>>(e.languages)) by {
        lemma_wire_languages_read_back(e.languages);
    }
    assert(wire_validity(j, default) == Ok::<(int, Option<int>), Seq<char>>(
        (e.as_of, e.expiry),
    )) by {
        lemma_wire_stamp_reads_back(j, "unidpp:as-of"@, Some(e.as_of));
        lemma_wire_stamp_reads_back(j, "unidpp:expiry"@, e.expiry);
    }
    lemma_wire_text_reads_back(j, "unidpp:profile"@, e.profile);
    lemma_wire_text_reads_back(j, "unidpp:role"@, e.role);
    lemma_wire_text_reads_back(j, "unidpp:region"@, e.region);
    entry::lemma_description_reads_back(
        j,
        e,
        "unidpp:profile"@,
        "unidpp:role"@,
        "unidpp:region"@,
    );
    lemma_wire_form_reads_back(j, e, default);
}

proof fn lemma_links_read_back(anchor: Seq<char>, entries: Seq<EntryView>, default: int)
    requires
        forall|i: int| 0 <= i < entries.len() ==> is_linkable(#[trigger] entries[i]),
    ensures
        ({
            let links = entries.map_values(|e: EntryView| link_json(anchor, e));
            &&& first_complaint(links) is None
            &&& link_entries(links, default) == Ok::<Seq<EntryView>, Seq<char>>(
                entries.map_values(|e: EntryView| e.with_id(0)),
            )
        }),
    decreases entries.len(),
{
    let f = |e: EntryView| link_json(anchor, e);
    let g = |e: EntryView| e.with_id(0);
    let links = entries.map_values(f);
    if entries.len() > 0 {
        let rest = entries.skip(1);
        assert forall|i: int| 0 <= i < rest.len() implies is_linkable(#[trigger] rest[i]) by {
            assert(rest[i] == entries[i + 1]);
        }
        lemma_links_read_back(anchor, rest, default);
        assert(links.skip(1) =~= rest.map_values(f));
        law_link_reads_back(anchor, entries[0], default);
        assert(entries.map_values(g) =~= seq![entries[0].with_id(0)] + rest.map_values(g));
    } else {
        assert(entries.map_values(g) =~= Seq::empty());
    }
}

/// Reading a document gives back the entries it was written for, apart from
/// their ids, in their order; the statements about the identity do not disturb
/// them. `text` is any text that reads as the document, such as the one that
/// [`emit_document_full`] writes.
pub proof fn law_document_reads_back(
    text: Seq<char>,
    anchor: Seq<char>,
    entries: Seq<EntryView>,
    rotation: Option<SupersessionView>,
    claims: Seq<CorrelationView>,
    default: int,
)
    requires
        json::reads_as(text, document_json(anchor, entries, rotation, claims)),
        forall|i: int| 0 <= i < entries.len() ==> is_linkable(#[trigger] entries[i]),
    ensures
        text_entries(text, default) == Ok::<Seq<EntryView>, Seq<char>>(
            entries.map_values(|e: EntryView| e.with_id(0)),
        ),
{
    reveal_strlit("linkset");
    reveal_strlit("unidpp:superseded-by");
    reveal_strlit("unidpp:superseded-effective-at");
    reveal_strlit("unidpp:superseded-by-authority");
    reveal_strlit("unidpp:supersession-reason");
    reveal_strlit("unidpp:correlated-with");
    let j = document_json(anchor, entries, rotation, claims);
    assert("linkset"@.len() == 7);
    assert(json::field(j, "linkset"@) == Some(links_json(anchor, entries)));
    lemma_links_read_back(anchor, entries, default);
}

} // verus!
