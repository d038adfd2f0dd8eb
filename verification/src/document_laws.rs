//! What the documents of a resolver hold, field by field, stated by what they
//! describe. Nothing here runs.

use vstd::prelude::*;

use crate::api;
use crate::carrier;
use crate::carrier::{CarrierKind, CarrierView, LookupView};
use crate::config;
use crate::config::ConfigView;
use crate::context;
use crate::context::{ContextView, RoutingView};
use crate::discovery;
use crate::entry;
use crate::entry::EntryView;
use crate::gs1dl;
use crate::json;
use crate::json::JsonValue;
use crate::linkset;
use crate::negotiate;
use crate::record;
use crate::record::{OpView, RecordView};
use crate::render;
use crate::store;
use crate::store::{CorrelationView, RevocationView, StateView, SupersessionView};
use crate::text;
use crate::text_laws;
use crate::time;

verus! {

/// An object holds this value under a key.
pub open spec fn has(j: JsonValue, key: Seq<char>, v: JsonValue) -> bool {
    j matches JsonValue::Object(m) && m.contains_key(key) && m[key] == v
}

/// An object holds this text under a key, or nothing where there is no text.
pub open spec fn has_text(j: JsonValue, key: Seq<char>, o: Option<Seq<char>>) -> bool {
    match o {
        Some(s) => has(j, key, JsonValue::Str(s)),
        None => j matches JsonValue::Object(m) && !m.contains_key(key),
    }
}

/// An object holds this text under a key, or `*` where there is no text.
pub open spec fn has_or_any(j: JsonValue, key: Seq<char>, o: Option<Seq<char>>) -> bool {
    has(
        j,
        key,
        JsonValue::Str(
            match o {
                Some(s) => s,
                None => "*"@,
            },
        ),
    )
}

/// An object holds these texts under a key, in their order.
pub open spec fn has_texts(j: JsonValue, key: Seq<char>, texts: Seq<Seq<char>>) -> bool {
    has(j, key, JsonValue::Array(Seq::new(texts.len(), |i: int| JsonValue::Str(texts[i]))))
}

/// The stamp of an instant, where there is one.
pub open spec fn stamped(t: Option<int>) -> Option<Seq<char>> {
    match t {
        Some(t) => Some(time::stamp(t)),
        None => None,
    }
}

proof fn lemma_texts(texts: Seq<Seq<char>>)
    ensures
        json::text_items(texts) == JsonValue::Array(
            Seq::new(texts.len(), |i: int| JsonValue::Str(texts[i])),
        ),
{
    assert(texts.map_values(|s: Seq<char>| JsonValue::Str(s)) =~= Seq::new(
        texts.len(),
        |i: int| JsonValue::Str(texts[i]),
    ));
}

proof fn lemma_link_keys()
    ensures
        "anchor"@.len() == 6,
        "uri"@.len() == 3,
        "rel"@.len() == 3,
        "hreflang"@.len() == 8,
        "title"@.len() == 5,
        "type"@.len() == 4,
        "unidpp:profile"@.len() == 14,
        "unidpp:role"@.len() == 11,
        "unidpp:region"@.len() == 13,
        "unidpp:as-of"@.len() == 12,
        "unidpp:expiry"@.len() == 13,
        "uri"@ != "rel"@,
        "unidpp:region"@ != "unidpp:expiry"@,
{
    reveal_strlit("anchor");
    reveal_strlit("uri");
    reveal_strlit("rel");
    reveal_strlit("hreflang");
    reveal_strlit("title");
    reveal_strlit("type");
    reveal_strlit("unidpp:profile");
    reveal_strlit("unidpp:role");
    reveal_strlit("unidpp:region");
    reveal_strlit("unidpp:as-of");
    reveal_strlit("unidpp:expiry");
    assert("uri"@[0] != "rel"@[0]);
    assert("unidpp:region"@[7] != "unidpp:expiry"@[7]);
}

/// A link holds what its entry holds, each under its name: the anchor, the
/// target and its type, the languages and every routing dimension with the
/// wildcard written out, the validity, and the title and media type where there
/// are any.
pub proof fn law_links_hold_the_entry(anchor: Seq<char>, e: EntryView)
    ensures
        has(linkset::link_json(anchor, e), "anchor"@, JsonValue::Str(anchor)),
        has(linkset::link_json(anchor, e), "uri"@, JsonValue::Str(e.href)),
        has(linkset::link_json(anchor, e), "rel"@, JsonValue::Str(e.link_type)),
        has_texts(
            linkset::link_json(anchor, e),
            "hreflang"@,
            if e.languages.len() == 0 {
                seq!["*"@]
            } else {
                e.languages
            },
        ),
        has_text(linkset::link_json(anchor, e), "title"@, e.title),
        has_text(linkset::link_json(anchor, e), "type"@, e.media_type),
        has_or_any(linkset::link_json(anchor, e), "unidpp:profile"@, e.profile),
        has_or_any(linkset::link_json(anchor, e), "unidpp:role"@, e.role),
        has_or_any(linkset::link_json(anchor, e), "unidpp:region"@, e.region),
        has(linkset::link_json(anchor, e), "unidpp:as-of"@, JsonValue::Str(time::stamp(e.as_of))),
        has_text(linkset::link_json(anchor, e), "unidpp:expiry"@, stamped(e.expiry)),
{
    lemma_link_keys();
    lemma_texts(linkset::wire_languages(e.languages));
}

/// A document lists one link for each entry, in order, and states what became
/// of the identity: its successor with instant, authority and reason, and every
/// claim with its assertor, evidence and direction.
pub proof fn law_documents_hold_the_answer(
    anchor: Seq<char>,
    entries: Seq<EntryView>,
    rotation: Option<SupersessionView>,
    claims: Seq<CorrelationView>,
)
    ensures
        ({
            let d = linkset::document_json(anchor, entries, rotation, claims);
            &&& has(
                d,
                "linkset"@,
                JsonValue::Array(Seq::new(entries.len(), |i: int| linkset::link_json(anchor, entries[i]))),
            )
            &&& states_the_rotation(d, rotation)
            &&& states_the_claims(d, claims)
        }),
{
    lemma_statement_keys();
    reveal_strlit("linkset");
    assert(entries.map_values(|e: EntryView| linkset::link_json(anchor, e)) =~= Seq::new(
        entries.len(),
        |i: int| linkset::link_json(anchor, entries[i]),
    ));
    assert(claims.map_values(|c: CorrelationView| store::correlation_json(c)) =~= Seq::new(
        claims.len(),
        |i: int| store::correlation_json(claims[i]),
    ));
}

/// A document names the successor of an identity, since when, by whom and why;
/// and none of it where there is no successor.
pub open spec fn states_the_rotation(d: JsonValue, rotation: Option<SupersessionView>) -> bool {
    match rotation {
        Some(s) => {
            &&& has_text(d, "unidpp:superseded-by"@, Some(s.successor))
            &&& has_text(d, "unidpp:superseded-effective-at"@, Some(time::stamp(s.effective_at)))
            &&& has_text(d, "unidpp:superseded-by-authority"@, Some(s.authority))
            &&& has_text(d, "unidpp:supersession-reason"@, Some(s.reason))
        },
        None => {
            &&& has_text(d, "unidpp:superseded-by"@, None)
            &&& has_text(d, "unidpp:superseded-effective-at"@, None)
            &&& has_text(d, "unidpp:superseded-by-authority"@, None)
            &&& has_text(d, "unidpp:supersession-reason"@, None)
        },
    }
}

/// A document lists the claims about an identity, in order; and no list where
/// there are none.
pub open spec fn states_the_claims(d: JsonValue, claims: Seq<CorrelationView>) -> bool {
    if claims.len() == 0 {
        has_text(d, "unidpp:correlated-with"@, None)
    } else {
        has(
            d,
            "unidpp:correlated-with"@,
            JsonValue::Array(Seq::new(claims.len(), |i: int| store::correlation_json(claims[i]))),
        )
    }
}

proof fn lemma_statement_keys()
    ensures
        "linkset"@.len() == 7,
        "error"@.len() == 5,
        "unidpp:superseded-by"@.len() == 20,
        "unidpp:superseded-effective-at"@.len() == 30,
        "unidpp:superseded-by-authority"@.len() == 30,
        "unidpp:superseded-effective-at"@ != "unidpp:superseded-by-authority"@,
        "unidpp:supersession-reason"@.len() == 26,
        "unidpp:correlated-with"@.len() == 22,
{
    reveal_strlit("linkset");
    reveal_strlit("error");
    reveal_strlit("unidpp:superseded-by");
    reveal_strlit("unidpp:superseded-effective-at");
    reveal_strlit("unidpp:superseded-by-authority");
    reveal_strlit("unidpp:supersession-reason");
    reveal_strlit("unidpp:correlated-with");
    assert("unidpp:superseded-effective-at"@[18] != "unidpp:superseded-by-authority"@[18]);
}

/// An absence that something is known of says `not found` and states what
/// became of the identity all the same.
pub proof fn law_absences_hold_what_is_known(
    rotation: Option<SupersessionView>,
    claims: Seq<CorrelationView>,
)
    ensures
        has_text(render::stated_absence_json(rotation, claims), "error"@, Some("not found"@)),
        states_the_rotation(render::stated_absence_json(rotation, claims), rotation),
        states_the_claims(render::stated_absence_json(rotation, claims), claims),
        render::stated_absence_json(rotation, claims) matches JsonValue::Object(m) && !m.contains_key(
            "linkset"@,
        ),
{
    lemma_statement_keys();
    assert(claims.map_values(|c: CorrelationView| store::correlation_json(c)) =~= Seq::new(
        claims.len(),
        |i: int| store::correlation_json(claims[i]),
    ));
}

/// A claim in JSON holds the counterpart and who asserts it, on what evidence,
/// in which direction and since when.
pub proof fn law_claims_hold_their_evidence(c: CorrelationView)
    ensures
        has_text(store::correlation_json(c), "identifier"@, Some(c.other)),
        has_text(store::correlation_json(c), "assertor"@, Some(c.assertor)),
        has_text(store::correlation_json(c), "evidence"@, Some(c.evidence)),
        has_text(store::correlation_json(c), "direction"@, Some(c.direction)),
        has_text(store::correlation_json(c), "recordedAt"@, Some(time::stamp(c.recorded_at))),
{
    reveal_strlit("identifier");
    reveal_strlit("assertor");
    reveal_strlit("evidence");
    reveal_strlit("direction");
    reveal_strlit("recordedAt");
    assert("assertor"@[0] != "evidence"@[0]);
    assert("identifier"@[0] != "recordedAt"@[0]);
}

proof fn lemma_entry_keys()
    ensures
        "id"@.len() == 2,
        "linkType"@.len() == 8,
        "href"@.len() == 4,
        "title"@.len() == 5,
        "type"@.len() == 4,
        "profile"@.len() == 7,
        "role"@.len() == 4,
        "language"@.len() == 8,
        "region"@.len() == 6,
        "asOf"@.len() == 4,
        "expiry"@.len() == 6,
        "revoked"@.len() == 7,
        "linkType"@ != "language"@,
        "href"@ != "type"@,
        "href"@ != "role"@,
        "href"@ != "asOf"@,
        "type"@ != "role"@,
        "type"@ != "asOf"@,
        "profile"@ != "revoked"@,
        "role"@ != "asOf"@,
        "region"@ != "expiry"@,
{
    reveal_strlit("id");
    reveal_strlit("linkType");
    reveal_strlit("href");
    reveal_strlit("title");
    reveal_strlit("type");
    reveal_strlit("profile");
    reveal_strlit("role");
    reveal_strlit("language");
    reveal_strlit("region");
    reveal_strlit("asOf");
    reveal_strlit("expiry");
    reveal_strlit("revoked");
    assert("linkType"@[1] != "language"@[1]);
    assert("href"@[0] != "type"@[0]);
    assert("href"@[0] != "role"@[0]);
    assert("href"@[0] != "asOf"@[0]);
    assert("type"@[0] != "role"@[0]);
    assert("type"@[0] != "asOf"@[0]);
    assert("profile"@[0] != "revoked"@[0]);
    assert("role"@[0] != "asOf"@[0]);
    assert("region"@[0] != "expiry"@[0]);
}

/// The administrative form of an entry holds every part of it under its name,
/// and nothing for a part that is left open.
pub proof fn law_entries_are_held_in_full(e: EntryView)
    ensures
        has(entry::entry_json(e), "id"@, JsonValue::Number(e.id)),
        has_text(entry::entry_json(e), "linkType"@, Some(e.link_type)),
        has_text(entry::entry_json(e), "href"@, Some(e.href)),
        has_text(entry::entry_json(e), "title"@, e.title),
        has_text(entry::entry_json(e), "type"@, e.media_type),
        has_text(entry::entry_json(e), "profile"@, e.profile),
        has_text(entry::entry_json(e), "role"@, e.role),
        has_texts(entry::entry_json(e), "language"@, e.languages),
        has_text(entry::entry_json(e), "region"@, e.region),
        has_text(entry::entry_json(e), "asOf"@, Some(time::stamp(e.as_of))),
        has_text(entry::entry_json(e), "expiry"@, stamped(e.expiry)),
{
    lemma_entry_keys();
    lemma_texts(e.languages);
}

/// A record in the history holds its number, its instant, what was done and
/// everything that it was done with.
pub proof fn law_records_hold_the_operation(rec: RecordView)
    ensures
        ({
            let j = record::record_json(rec);
            &&& has(j, "seq"@, JsonValue::Number(rec.seq))
            &&& has_text(j, "recordedAt"@, Some(time::stamp(rec.recorded_at)))
            &&& match rec.op {
                OpView::RegisterEntry { identifier, entry } => {
                    &&& has_text(j, "op"@, Some("register-entry"@))
                    &&& has_text(j, "identifier"@, Some(identifier))
                    &&& has(j, "entry"@, entry::entry_json(entry))
                },
                OpView::RevokeEntry { identifier, entry_id, effective_at, reason } => {
                    &&& has_text(j, "op"@, Some("revoke-entry"@))
                    &&& has_text(j, "identifier"@, Some(identifier))
                    &&& has(j, "entryId"@, JsonValue::Number(entry_id))
                    &&& has_text(j, "effectiveAt"@, Some(time::stamp(effective_at)))
                    &&& has_text(j, "reason"@, Some(reason))
                },
                OpView::SetDark { identifier, effective_at } => {
                    &&& has_text(j, "op"@, Some("set-dark"@))
                    &&& has_text(j, "identifier"@, Some(identifier))
                    &&& has_text(j, "effectiveAt"@, Some(time::stamp(effective_at)))
                },
                OpView::ClearDark { identifier, effective_at } => {
                    &&& has_text(j, "op"@, Some("clear-dark"@))
                    &&& has_text(j, "identifier"@, Some(identifier))
                    &&& has_text(j, "effectiveAt"@, Some(time::stamp(effective_at)))
                },
                OpView::Supersede { identifier, successor, effective_at, authority, reason } => {
                    &&& has_text(j, "op"@, Some("supersede"@))
                    &&& has_text(j, "identifier"@, Some(identifier))
                    &&& has_text(j, "successor"@, Some(successor))
                    &&& has_text(j, "effectiveAt"@, Some(time::stamp(effective_at)))
                    &&& has_text(j, "authority"@, Some(authority))
                    &&& has_text(j, "reason"@, Some(reason))
                },
                OpView::Correlate { identifier_a, identifier_b, assertor, evidence, direction } => {
                    &&& has_text(j, "op"@, Some("correlate"@))
                    &&& has_text(j, "identifierA"@, Some(identifier_a))
                    &&& has_text(j, "identifierB"@, Some(identifier_b))
                    &&& has_text(j, "assertor"@, Some(assertor))
                    &&& has_text(j, "evidence"@, Some(evidence))
                    &&& has_text(j, "direction"@, Some(direction))
                },
            }
        }),
{
    lemma_record_keys();
}

proof fn lemma_record_keys()
    ensures
        "op"@.len() == 2,
        "seq"@.len() == 3,
        "entry"@.len() == 5,
        "reason"@.len() == 6,
        "entryId"@.len() == 7,
        "assertor"@.len() == 8,
        "evidence"@.len() == 8,
        "assertor"@ != "evidence"@,
        "successor"@.len() == 9,
        "authority"@.len() == 9,
        "direction"@.len() == 9,
        "successor"@ != "authority"@,
        "identifier"@.len() == 10,
        "recordedAt"@.len() == 10,
        "identifier"@ != "recordedAt"@,
        "effectiveAt"@.len() == 11,
        "identifierA"@.len() == 11,
        "identifierB"@.len() == 11,
        "identifierA"@ != "identifierB"@,
{
    reveal_strlit("op");
    reveal_strlit("seq");
    reveal_strlit("entry");
    reveal_strlit("reason");
    reveal_strlit("entryId");
    reveal_strlit("assertor");
    reveal_strlit("evidence");
    reveal_strlit("successor");
    reveal_strlit("authority");
    reveal_strlit("direction");
    reveal_strlit("identifier");
    reveal_strlit("recordedAt");
    reveal_strlit("effectiveAt");
    reveal_strlit("identifierA");
    reveal_strlit("identifierB");
    assert("assertor"@[0] != "evidence"@[0]);
    assert("successor"@[0] != "authority"@[0]);
    assert("identifier"@[0] != "recordedAt"@[0]);
    assert("identifierA"@[10] != "identifierB"@[10]);
}

/// The earliest recorded revocation of an entry.
pub open spec fn is_first_revocation(v: Seq<RevocationView>, id: u64, i: int) -> bool {
    0 <= i < v.len() && v[i].entry_id == id && forall|k: int|
        0 <= k < i ==> (#[trigger] v[k]).entry_id != id
}

/// What is told of a revocation: since when, and why.
pub open spec fn told(r: RevocationView) -> JsonValue {
    JsonValue::Object(
        map![
            "effectiveAt"@ => JsonValue::Str(time::stamp(r.effective_at)),
            "reason"@ => JsonValue::Str(r.reason),
        ],
    )
}

/// The items that an object lists under a key.
pub open spec fn items_at(j: JsonValue, key: Seq<char>) -> Seq<JsonValue> {
    match j {
        JsonValue::Object(m) => match m[key] {
            JsonValue::Array(items) => items,
            _ => Seq::empty(),
        },
        _ => Seq::empty(),
    }
}

proof fn lemma_first_revocation(v: Seq<RevocationView>, id: u64)
    ensures
        match store::first_revocation(v, id) {
            Some(r) => exists|i: int| #[trigger] is_first_revocation(v, id, i) && v[i] == r,
            None => forall|i: int| 0 <= i < v.len() ==> (#[trigger] v[i]).entry_id != id,
        },
    decreases v.len(),
{
    if v.len() > 0 {
        if v[0].entry_id == id {
            assert(is_first_revocation(v, id, 0));
        } else {
            let rest = v.skip(1);
            lemma_first_revocation(rest, id);
            match store::first_revocation(rest, id) {
                Some(r) => {
                    let i = choose|i: int| #[trigger] is_first_revocation(rest, id, i) && rest[i] == r;
                    assert(v[i + 1] == r);
                    assert forall|k: int| 0 <= k < i + 1 implies (#[trigger] v[k]).entry_id != id by {
                        if k > 0 {
                            assert(rest[k - 1] == v[k]);
                        }
                    }
                    assert(is_first_revocation(v, id, i + 1));
                },
                None => {
                    assert forall|i: int| 0 <= i < v.len() implies (#[trigger] v[i]).entry_id
                        != id by {
                        if i > 0 {
                            assert(rest[i - 1] == v[i]);
                        }
                    }
                },
            }
        }
    }
}

/// The state of an identifier, as an administrator sees it, holds every entry
/// ever registered, in order and in full; a revoked one tells since when and
/// why.
pub proof fn law_states_hold_every_entry(key: Seq<char>, s: StateView, records: nat, n: int)
    requires
        0 <= n < s.entries.len(),
    ensures
        has_text(store::state_json(key, s, records), "identifier"@, Some(key)),
        has(store::state_json(key, s, records), "recordCount"@, JsonValue::Number(records as u64)),
        items_at(store::state_json(key, s, records), "entries"@).len() == s.entries.len(),
        ({
            let e = s.entries[n];
            let shown = items_at(store::state_json(key, s, records), "entries"@)[n];
            &&& has(shown, "id"@, JsonValue::Number(e.id))
            &&& has_text(shown, "linkType"@, Some(e.link_type))
            &&& has_text(shown, "href"@, Some(e.href))
            &&& has_text(shown, "title"@, e.title)
            &&& has_text(shown, "type"@, e.media_type)
            &&& has_text(shown, "profile"@, e.profile)
            &&& has_text(shown, "role"@, e.role)
            &&& has_texts(shown, "language"@, e.languages)
            &&& has_text(shown, "region"@, e.region)
            &&& has_text(shown, "asOf"@, Some(time::stamp(e.as_of)))
            &&& has_text(shown, "expiry"@, stamped(e.expiry))
            &&& forall|i: int| #[trigger]
                is_first_revocation(s.revocations, e.id, i) ==> has(
                    shown,
                    "revoked"@,
                    told(s.revocations[i]),
                )
            &&& (forall|i: int|
                0 <= i < s.revocations.len() ==> (#[trigger] s.revocations[i]).entry_id != e.id)
                ==> has_text(shown, "revoked"@, None)
        }),
{
    lemma_state_keys();
    let e = s.entries[n];
    law_entries_are_held_in_full(e);
    lemma_first_revocation(s.revocations, e.id);
    lemma_entry_keys();
    lemma_not_revoked_key(e);
    match store::first_revocation(s.revocations, e.id) {
        Some(r) => {
            let i = choose|i: int| #[trigger] is_first_revocation(s.revocations, e.id, i)
                && s.revocations[i] == r;
            assert forall|k: int| #[trigger] is_first_revocation(s.revocations, e.id, k) implies k
                == i by {
                if k < i {
                    assert(s.revocations[k].entry_id == e.id);
                }
                if i < k {
                    assert(s.revocations[i].entry_id == e.id);
                }
            }
        },
        None => {
            assert forall|k: int| !#[trigger] is_first_revocation(s.revocations, e.id, k) by {
                if is_first_revocation(s.revocations, e.id, k) {
                    assert(s.revocations[k].entry_id != e.id);
                }
            }
        },
    }
}

proof fn lemma_state_keys()
    ensures
        "identifier"@.len() == 10,
        "entries"@.len() == 7,
        "darkIntervals"@.len() == 13,
        "recordCount"@.len() == 11,
        "effectiveAt"@.len() == 11,
        "reason"@.len() == 6,
{
    reveal_strlit("identifier");
    reveal_strlit("entries");
    reveal_strlit("darkIntervals");
    reveal_strlit("recordCount");
    reveal_strlit("effectiveAt");
    reveal_strlit("reason");
}

proof fn lemma_not_revoked_key(e: EntryView)
    ensures
        has_text(entry::entry_json(e), "revoked"@, None),
{
    lemma_entry_keys();
}

proof fn lemma_page_keys()
    ensures
        "total"@.len() == 5,
        "offset"@.len() == 6,
        "records"@.len() == 7,
{
    reveal_strlit("total");
    reveal_strlit("offset");
    reveal_strlit("records");
}

/// A page of the history tells how long the history is, where the page begins,
/// and each of its records.
pub proof fn law_pages_hold_their_records(log: Seq<RecordView>, limit: nat, offset: nat)
    ensures
        has(store::page_json(log, limit, offset), "total"@, JsonValue::Number(log.len() as u64)),
        has(store::page_json(log, limit, offset), "offset"@, JsonValue::Number(offset as u64)),
        has(
            store::page_json(log, limit, offset),
            "records"@,
            JsonValue::Array(
                Seq::new(
                    store::page(log, limit, offset).len(),
                    |i: int| record::record_json(log[offset + i]),
                ),
            ),
        ),
{
    lemma_page_keys();
    store::law_pages_cover_the_history(log, limit, offset);
    assert(store::page(log, limit, offset).map_values(|r: RecordView| record::record_json(r)) =~= Seq::new(
        store::page(log, limit, offset).len(),
        |i: int| record::record_json(log[offset + i]),
    ));
}

/// A value in JSON, `null` where there is none.
pub open spec fn has_or_null(j: JsonValue, key: Seq<char>, o: Option<Seq<char>>) -> bool {
    has(
        j,
        key,
        match o {
            Some(s) => JsonValue::Str(s),
            None => JsonValue::Null,
        },
    )
}

proof fn lemma_carrier_keys()
    ensures
        "carrier"@.len() == 7,
        "kind"@.len() == 4,
        "origin"@.len() == 6,
        "resolverBaseUrl"@.len() == 15,
        "identifier"@.len() == 10,
        "scheme"@.len() == 6,
        "value"@.len() == 5,
        "granularity"@.len() == 11,
        "key"@.len() == 3,
{
    reveal_strlit("carrier");
    reveal_strlit("kind");
    reveal_strlit("origin");
    reveal_strlit("resolverBaseUrl");
    reveal_strlit("identifier");
    reveal_strlit("scheme");
    reveal_strlit("value");
    reveal_strlit("granularity");
    reveal_strlit("key");
}

/// A normalization tells what a carrier was found to be: the carrier itself, its
/// kind, where it came from, and its identifier with its scheme, value,
/// granularity and key.
pub proof fn law_normalizations_tell_what_was_found(p: CarrierView, carrier: Seq<char>)
    ensures
        has_text(api::carrier_json(p, carrier), "carrier"@, Some(carrier)),
        has_text(
            api::carrier_json(p, carrier),
            "kind"@,
            Some(
                match p.kind {
                    CarrierKind::Gs1DigitalLink => "gs1-digital-link"@,
                    CarrierKind::Gbt33993 => "gbt-33993"@,
                    CarrierKind::Unknown => "unknown"@,
                },
            ),
        ),
        has_or_null(api::carrier_json(p, carrier), "origin"@, p.origin),
        has_or_null(api::carrier_json(p, carrier), "resolverBaseUrl"@, p.resolver_base_url),
        has(api::carrier_json(p, carrier), "identifier"@, api::identifier_json(p.identifier)),
        has_text(api::identifier_json(p.identifier), "scheme"@, Some(p.identifier.scheme)),
        has_text(api::identifier_json(p.identifier), "value"@, Some(p.identifier.value)),
        has_text(api::identifier_json(p.identifier), "granularity"@, Some(p.identifier.granularity)),
        has_text(api::identifier_json(p.identifier), "key"@, Some(p.identifier.key())),
{
    lemma_carrier_keys();
}

/// A request to normalize is answered by what its carrier is found to be, and
/// refused where it has none, or one that is invalid or not recognized.
pub proof fn law_normalizations_are_answered(j: JsonValue, carrier: Seq<char>)
    requires
        has_text(j, "carrier"@, Some(carrier)),
    ensures
        match carrier::carrier_class(carrier) {
            LookupView::Parsed(p) => api::normalize_reply(j).status == 200 && api::normalize_reply(j).body
                == json::json_compact(api::carrier_json(p, carrier)),
            _ => api::normalize_reply(j).status == 400,
        },
{
}

proof fn lemma_discovery_keys()
    ensures
        "profile"@.len() == 7,
        "service"@.len() == 7,
        "version"@.len() == 7,
        "linkset"@.len() == 7,
        "version"@ != "linkset"@,
        "build_id"@.len() == 8,
        "asOf"@.len() == 4,
        "identifierKeys"@.len() == 14,
        "contextRouting"@.len() == 14,
        "linkTypes"@.len() == 9,
        "contentNegotiation"@.len() == 18,
        "entryPoints"@.len() == 11,
        "defaultLinkRule"@.len() == 15,
        "nationalIntermediary"@.len() == 20,
        "enumerationResistance"@.len() == 21,
        "enabled"@.len() == 7,
        "cacheTtlSeconds"@.len() == 15,
        "staleServingOnOutage"@.len() == 20,
        "cacheHeader"@.len() == 11,
        "asOfStampHeader"@.len() == 15,
        "cacheTtlSeconds"@ != "asOfStampHeader"@,
        "mediaType"@.len() == 9,
        "context"@.len() == 7,
        "header"@.len() == 6,
        "rule"@.len() == 4,
        "mediaTypes"@.len() == 10,
{
    reveal_strlit("profile");
    reveal_strlit("service");
    reveal_strlit("version");
    reveal_strlit("linkset");
    reveal_strlit("build_id");
    reveal_strlit("asOf");
    reveal_strlit("identifierKeys");
    reveal_strlit("contextRouting");
    reveal_strlit("linkTypes");
    reveal_strlit("contentNegotiation");
    reveal_strlit("entryPoints");
    reveal_strlit("defaultLinkRule");
    reveal_strlit("nationalIntermediary");
    reveal_strlit("enumerationResistance");
    reveal_strlit("enabled");
    reveal_strlit("cacheTtlSeconds");
    reveal_strlit("staleServingOnOutage");
    reveal_strlit("cacheHeader");
    reveal_strlit("asOfStampHeader");
    reveal_strlit("mediaType");
    reveal_strlit("context");
    reveal_strlit("header");
    reveal_strlit("rule");
    reveal_strlit("mediaTypes");
    assert("version"@[0] != "linkset"@[0]);
    assert("cacheTtlSeconds"@[0] != "asOfStampHeader"@[0]);
}

/// The discovery document tells which version runs, from which build, whether
/// there is an upstream and for how long what it gave is kept.
pub proof fn law_discovery_tells_the_deployment(
    config: ConfigView,
    version: Seq<char>,
    build_id: Seq<char>,
)
    requires
        i64::MIN <= config.cache_ttl_secs <= i64::MAX,
    ensures
        has_text(discovery::discovery(config, version, build_id), "version"@, Some(version)),
        has_text(discovery::discovery(config, version, build_id), "build_id"@, Some(build_id)),
        json::field(discovery::discovery(config, version, build_id), "nationalIntermediary"@) matches Some(s)
            && has(s, "enabled"@, JsonValue::Bool(config.upstream is Some)) && has(
            s,
            "cacheTtlSeconds"@,
            if config.cache_ttl_secs >= 0 {
                JsonValue::Number(config.cache_ttl_secs as u64)
            } else {
                JsonValue::Negative(config.cache_ttl_secs as i64)
            },
        ),
{
    lemma_discovery_keys();
}

/// The discovery document lists the media types that are negotiated, each with
/// the role that it stands for, and no others.
pub proof fn law_discovery_lists_what_is_negotiated(media_type: Seq<char>, role: Seq<char>)
    ensures
        negotiate::is_offered(media_type, role) <==> exists|i: int|
            0 <= i < items_at(discovery::negotiation_section(), "mediaTypes"@).len() && is_row(
                #[trigger] items_at(discovery::negotiation_section(), "mediaTypes"@)[i],
                media_type,
                role,
            ),
{
    lemma_discovery_keys();
    let rows = items_at(discovery::negotiation_section(), "mediaTypes"@);
    let table = negotiate::accept_table();
    assert(rows.len() == 3);
    assert forall|i: int| 0 <= i < 3 implies #[trigger] rows[i] == discovery::row_json(table[i]) by {}
    if negotiate::is_offered(media_type, role) {
        let i: int = if media_type == table[0].0 && role == table[0].1 {
            0
        } else if media_type == table[1].0 && role == table[1].1 {
            1
        } else {
            2
        };
        assert(is_row(rows[i], media_type, role));
    }
    if exists|i: int| 0 <= i < rows.len() && is_row(#[trigger] rows[i], media_type, role) {
        let i = choose|i: int| 0 <= i < rows.len() && is_row(#[trigger] rows[i], media_type, role);
        assert(rows[i] == discovery::row_json(table[i]));
        let prefix = "role="@;
        assert((prefix + role).skip(prefix.len() as int) =~= role);
        assert((prefix + table[i].1).skip(prefix.len() as int) =~= table[i].1);
    }
}

/// A row names a media type and the role that it stands for.
pub open spec fn is_row(j: JsonValue, media_type: Seq<char>, role: Seq<char>) -> bool {
    has_text(j, "mediaType"@, Some(media_type)) && has_text(j, "context"@, Some("role="@ + role))
}

/// What an object holds under a key.
pub open spec fn part(j: JsonValue, key: Seq<char>) -> JsonValue {
    match j {
        JsonValue::Object(m) => m[key],
        _ => JsonValue::Null,
    }
}

proof fn lemma_section_keys()
    ensures
        "dimensions"@.len() == 10,
        "wildcard"@.len() == 8,
        "languageTags"@.len() == 12,
        "queryParameters"@.len() == 15,
        "specificity"@.len() == 11,
        "role"@.len() == 4,
        "language"@.len() == 8,
        "region"@.len() == 6,
        "exactMatch"@.len() == 10,
        "primarySubtagFallback"@.len() == 21,
        "specificLinkWithoutRequestContext"@.len() == 33,
        "tieBreak"@.len() == 8,
        "wildcard"@ != "tieBreak"@,
        "default"@.len() == 7,
        "allKeyword"@.len() == 10,
        "queryParameter"@.len() == 14,
        "specification"@.len() == 13,
        "parameters"@.len() == 10,
        "format"@.len() == 6,
        "responseHeader"@.len() == 14,
        "queryParameter"@ != "responseHeader"@,
{
    reveal_strlit("dimensions");
    reveal_strlit("wildcard");
    reveal_strlit("languageTags");
    reveal_strlit("queryParameters");
    reveal_strlit("specificity");
    reveal_strlit("role");
    reveal_strlit("language");
    reveal_strlit("region");
    reveal_strlit("exactMatch");
    reveal_strlit("primarySubtagFallback");
    reveal_strlit("specificLinkWithoutRequestContext");
    reveal_strlit("tieBreak");
    reveal_strlit("default");
    reveal_strlit("allKeyword");
    reveal_strlit("queryParameter");
    reveal_strlit("specification");
    reveal_strlit("parameters");
    reveal_strlit("format");
    reveal_strlit("responseHeader");
    assert("queryParameter"@[0] != "responseHeader"@[0]);
    assert("wildcard"@[0] != "tieBreak"@[0]);
}

/// The discovery document names the parameters that are heard: each dimension of
/// the context, the link type with its default and the instant are read from the
/// parameter declared for them.
pub proof fn law_discovery_names_the_parameters(
    config: ConfigView,
    version: Seq<char>,
    build_id: Seq<char>,
    params: Seq<(Seq<char>, Seq<char>)>,
)
    ensures
        ({
            let d = discovery::discovery(config, version, build_id);
            let names = part(part(d, "contextRouting"@), "queryParameters"@);
            let types = part(d, "linkTypes"@);
            let c = api::context_params(params);
            &&& part(names, "profile"@) matches JsonValue::Str(n) && c.profile == api::trimmed_param(
                params,
                n,
            )
            &&& part(names, "role"@) matches JsonValue::Str(n) && c.role == api::trimmed_param(params, n)
            &&& part(names, "language"@) matches JsonValue::Str(n) && c.language == api::trimmed_param(
                params,
                n,
            )
            &&& part(names, "region"@) matches JsonValue::Str(n) && c.region == api::trimmed_param(
                params,
                n,
            )
            &&& part(types, "queryParameter"@) matches JsonValue::Str(n) && (api::trimmed_param(params, n)
                matches Some(t) ==> api::link_type_param(params) == t)
            &&& part(types, "queryParameter"@) matches JsonValue::Str(n) && part(
                types,
                "default"@,
            ) matches JsonValue::Str(t) && (api::trimmed_param(params, n) is None ==> api::link_type_param(
                params,
            ) == t)
            &&& part(part(d, "asOf"@), "queryParameter"@) matches JsonValue::Str(n) && (gs1dl::lookup(
                params,
                n,
            ) is None ==> api::asof_param(params) == Ok::<Option<int>, Seq<char>>(None))
        }),
{
    lemma_discovery_keys();
    lemma_section_keys();
}

/// The points of a link for a profile, or for any, and for some languages.
pub open spec fn points_for(
    profile: Option<Seq<char>>,
    languages: Seq<Seq<char>>,
    ctx: ContextView,
) -> int {
    context::score(
        RoutingView {
            link_type: "dpp"@,
            profile,
            role: None,
            language: languages,
            region: None,
        },
        ctx,
        "dpp"@,
    )->0 as int
}

/// The discovery document declares what counts: the points of an exact match, of
/// a language that is only related, of a link for something where nothing is
/// asked for, and of a link for anything.
pub proof fn law_discovery_declares_what_counts(
    config: ConfigView,
    version: Seq<char>,
    build_id: Seq<char>,
    asked: Seq<char>,
    related: Seq<char>,
)
    requires
        asked != related,
        context::are_related(related, asked),
        asked != "*"@ && related != "*"@,
    ensures
        ({
            let counted = part(
                part(discovery::discovery(config, version, build_id), "contextRouting"@),
                "specificity"@,
            );
            let none = ContextView { profile: None, role: None, language: None, region: None };
            let profile = ContextView { profile: Some(asked), ..none };
            let language = ContextView { language: Some(asked), ..none };
            let any = Seq::<Seq<char>>::empty();
            let base = points_for(None, any, none);
            &&& part(counted, "wildcard"@) matches JsonValue::Number(n) && base == 4 * n
            &&& part(counted, "wildcard"@) matches JsonValue::Number(n) && part(
                counted,
                "exactMatch"@,
            ) matches JsonValue::Number(x) && points_for(Some(asked), any, profile) == base - n + x
            &&& part(counted, "wildcard"@) matches JsonValue::Number(n) && part(
                counted,
                "specificLinkWithoutRequestContext"@,
            ) matches JsonValue::Number(x) && points_for(Some(asked), any, none) == base - n + x
            &&& part(counted, "wildcard"@) matches JsonValue::Number(n) && part(
                counted,
                "primarySubtagFallback"@,
            ) matches JsonValue::Number(x) && points_for(None, seq![related], language) == base - n + x
        }),
{
    lemma_discovery_keys();
    lemma_section_keys();
    let none = ContextView { profile: None, role: None, language: None, region: None };
    let r = |link: Option<Seq<char>>, languages: Seq<Seq<char>>|
        RoutingView { link_type: "dpp"@, profile: link, role: None, language: languages, region: None };
    let any = Seq::<Seq<char>>::empty();
    context::law_every_dimension_counts(r(None, any), none, "dpp"@);
    context::law_every_dimension_counts(
        r(Some(asked), any),
        ContextView { profile: Some(asked), ..none },
        "dpp"@,
    );
    context::law_every_dimension_counts(r(Some(asked), any), none, "dpp"@);
    let one = seq![related];
    context::law_every_dimension_counts(
        r(None, one),
        ContextView { language: Some(asked), ..none },
        "dpp"@,
    );
    assert(one[0] == related);
    assert(!one.contains(asked)) by {
        if one.contains(asked) {
            let k = choose|k: int| 0 <= k < one.len() && one[k] == asked;
            assert(k == 0);
        }
    }
    assert(!one.contains("*"@)) by {
        if one.contains("*"@) {
            let k = choose|k: int| 0 <= k < one.len() && one[k] == "*"@;
            assert(k == 0);
        }
    }
}

/// Settings are taken as they stand: what is empty or missing is none, the
/// address and the time to live have their defaults, and the time to live is a
/// number in decimal, with or without a minus.
pub proof fn law_settings_are_taken(
    bind: Option<Seq<char>>,
    token: Option<Seq<char>>,
    upstream: Option<Seq<char>>,
    ttl: Option<Seq<char>>,
    state_file: Option<Seq<char>>,
    n: nat,
)
    requires
        n <= i64::MAX,
    ensures
        ({
            let c = config::configured(bind, token, upstream, ttl, state_file);
            &&& bind matches Some(s) ==> c.bind == s
            &&& bind is None ==> c.bind == "127.0.0.1:8080"@
            &&& c.admin_token == unless_empty(token)
            &&& c.upstream == unless_empty(upstream)
            &&& c.state_file == unless_empty(state_file)
            &&& ttl is None ==> c.cache_ttl_secs == 300
            &&& ttl == Some(text::decimal(n)) ==> c.cache_ttl_secs == n
            &&& ttl == Some(seq!['-'] + text::decimal(n)) ==> c.cache_ttl_secs == -n
            &&& ttl matches Some(s) ==> (s.len() == 0 || (exists|i: int|
                0 < i < s.len() && !('0' <= #[trigger] s[i] <= '9'))) ==> c.cache_ttl_secs == 300
        }),
{
    text_laws::law_decimals_count_by_tens(n);
    let minus = seq!['-'] + text::decimal(n);
    assert(minus.skip(1) =~= text::decimal(n));
    if let Some(s) = ttl {
        if s.len() > 0 && exists|i: int| 0 < i < s.len() && !('0' <= #[trigger] s[i] <= '9') {
            let i = choose|i: int| 0 < i < s.len() && !('0' <= #[trigger] s[i] <= '9');
            if text::is_sign(s[0]) {
                assert(s.skip(1)[i - 1] == s[i]);
                assert(!text::is_digit(text::unsigned(s)[i - 1]));
            } else {
                assert(!text::is_digit(text::unsigned(s)[i]));
            }
        }
    }
}

/// A setting, none where it is empty.
pub open spec fn unless_empty(o: Option<Seq<char>>) -> Option<Seq<char>> {
    match o {
        Some(s) => if s.len() == 0 {
            None
        } else {
            Some(s)
        },
        None => None,
    }
}

} // verus!
