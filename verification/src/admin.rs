//! The administrative surface: registering and replacing linksets, revocations,
//! dark identities, rotations and correlations, and the views of the history.
//! Every change is a record in the history.
//!
//! A request that would need more record or entry numbers than 64 bits hold
//! comes to nothing: the functions that change a store give `None` for it and
//! leave the store as it is.

use vstd::prelude::*;

use crate::api;
use crate::api::parse_json_body;
use crate::carrier;
use crate::carrier::{IdentifierView, ResolvedIdentifier, parse_identifier_param};
use crate::entry;
use crate::entry::{EntryView, LinkEntry, read_stamp_field};
use crate::gs1dl;
use crate::gs1dl::find_pair;
use crate::json;
use crate::json::{Json, JsonValue, put, put_text};
use crate::record;
use crate::record::{LogRecord, Op, OpView, RecordView, read_text_at};
use crate::reply;
use crate::reply::{
    Reply, ReplyView, bad_request, compact_reply, not_found, pretty_reply, unauthorized,
};
use crate::store;
use crate::store::{
    AnswerView, DarkView, LedgerView, Lookup, RevocationView, StateView, Store, StoreView,
};
use crate::text;
use crate::text::{
    chars_of, concat3, decimal_text, read_whole_number, same_text, string_of, trimmed,
};
use crate::time;
use crate::time::Timestamp;

verus! {

/// What came of an administrative request: the store after it and a reply of
/// this status whose body reads as this document, or nothing for want of
/// numbers.
pub open spec fn carried_out(
    before: StoreView,
    after: StoreView,
    r: Option<Reply>,
    outcome: Option<(StoreView, u16, JsonValue)>,
) -> bool {
    match outcome {
        Some((v, status, document)) => after == v && (r matches Some(x) && x@ == reply::json_reply(
            status,
            json::json_compact(document),
        ) && json::reads_as(x@.body, document)),
        None => after == before && r is None,
    }
}

/// Why a request goes no further: it shows no right token, or its body is no
/// JSON.
pub enum RefusalView {
    Unauthorized,
    Malformed(Seq<char>),
}

/// The request went no further: the store is as it was, and the reply says why.
pub open spec fn turned_away(
    before: StoreView,
    after: StoreView,
    r: Option<Reply>,
    why: RefusalView,
) -> bool {
    after == before && (r matches Some(x) && is_refusal(x, why))
}

/// The reply says why a request goes no further.
pub open spec fn is_refusal(r: Reply, why: RefusalView) -> bool {
    match why {
        RefusalView::Unauthorized => r@ == reply::unauthorized_reply(),
        RefusalView::Malformed(m) => r@ == reply::bad_request_reply(m) && json::reads_as(
            r@.body,
            reply::error_json(m),
        ),
    }
}

// ---------------------------------------------------------------------------
// Access and bodies
// ---------------------------------------------------------------------------

/// A request may pass: there is no token to show, or it shows the right one.
pub open spec fn is_authorized(token: Option<Seq<char>>, authorization: Option<Seq<char>>) -> bool {
    token matches Some(t) ==> authorization == Some("Bearer "@ + t)
}

/// The body of a request that may pass, or why it goes no further.
pub open spec fn admitted(
    token: Option<Seq<char>>,
    authorization: Option<Seq<char>>,
    body: Seq<char>,
) -> Result<JsonValue, RefusalView> {
    if !is_authorized(token, authorization) {
        Err(RefusalView::Unauthorized)
    } else {
        match api::json_body(body) {
            Ok(j) => Ok(j),
            Err(m) => Err(RefusalView::Malformed(m)),
        }
    }
}

/// The reply to a request without the right token.
pub fn require_admin(token: &Option<String>, authorization: Option<&str>) -> (r: Option<Reply>)
    ensures
        match r {
            Some(x) => !is_authorized(text::opt_text(*token), text::opt_str(authorization)) && x@
                == reply::unauthorized_reply(),
            None => is_authorized(text::opt_text(*token), text::opt_str(authorization)),
        },
{
    match token {
        None => None,
        Some(t) => {
            let mut wanted = String::new();
            wanted.push_str("Bearer ");
            wanted.push_str(t.as_str());
            assert(wanted@ =~= "Bearer "@ + t@);
            match authorization {
                Some(a) => if same_text(a, wanted.as_str()) {
                    None
                } else {
                    Some(unauthorized())
                },
                None => Some(unauthorized()),
            }
        },
    }
}

fn read_admin_body(token: &Option<String>, authorization: Option<&str>, body: &str) -> (r: Result<
    Json,
    Reply,
>)
    ensures
        match admitted(text::opt_text(*token), text::opt_str(authorization), body@) {
            Ok(j) => r matches Ok(v) && v@ == j,
            Err(why) => r matches Err(e) && is_refusal(e, why),
        },
{
    match require_admin(token, authorization) {
        Some(e) => Err(e),
        None => match parse_json_body(body) {
            Ok(v) => Ok(v),
            Err(m) => Err(bad_request(m.as_str())),
        },
    }
}

/// The identifier that a body names, or what is wrong with it.
pub open spec fn body_identifier(j: JsonValue) -> Result<IdentifierView, Seq<char>> {
    match json::string_in(json::field(j, "identifier"@)) {
        Some(s) => carrier::identifier_of(s),
        None => Err("`identifier` is required"@),
    }
}

/// The identifier that a body names.
pub fn parse_body_identifier(v: &Json) -> (r: Result<ResolvedIdentifier, String>)
    ensures
        carrier::identifier_result(r) == body_identifier(v@),
{
    match v.str_field("identifier") {
        Some(s) => parse_identifier_param(s),
        None => Err("`identifier` is required".to_string()),
    }
}

/// The entries that a list describes, or what is wrong with the first bad one.
pub open spec fn admin_entries(items: Seq<JsonValue>, now: int) -> Result<
    Seq<EntryView>,
    Seq<char>,
>
    decreases items.len(),
{
    if items.len() == 0 {
        Ok(Seq::empty())
    } else {
        match entry::admin_entry(items[0], now) {
            Err(m) => Err(m),
            Ok(e) => match admin_entries(items.skip(1), now) {
                Err(m) => Err(m),
                Ok(rest) => Ok(seq![e] + rest),
            },
        }
    }
}

/// The entries that a body lists, or what is wrong with them.
pub open spec fn body_links(j: JsonValue, now: int) -> Result<Seq<EntryView>, Seq<char>> {
    match json::field(j, "links"@) {
        Some(JsonValue::Array(items)) => if items.len() == 0 {
            Err("`links` must be a non-empty array"@)
        } else {
            admin_entries(items, now)
        },
        _ => Err("`links` must be a non-empty array"@),
    }
}

/// The view of a reading result.
pub open spec fn links_read(r: Result<Vec<LinkEntry>, String>) -> Result<
    Seq<EntryView>,
    Seq<char>,
> {
    match r {
        Ok(v) => Ok(entry::entry_views(v@)),
        Err(m) => Err(m@),
    }
}

fn read_entries(items: &Vec<Json>, now: Timestamp) -> (r: Result<Vec<LinkEntry>, String>)
    ensures
        links_read(r) == admin_entries(json::items_model(items@), now.secs as int),
{
    let ghost all = json::items_model(items@);
    let ghost t = now.secs as int;
    let mut out: Vec<LinkEntry> = Vec::new();
    let mut i: usize = 0;
    proof {
        json::lemma_items_model(items@);
        assert(all.skip(0) =~= all);
        assert(entry::entry_views(out@) =~= Seq::empty());
        assert(forall|l: Seq<EntryView>| #[trigger] (entry::entry_views(out@) + l) =~= l);
    }
    while i < items.len()
        invariant
            i <= items.len(),
            t == now.secs as int,
            all == json::items_model(items@),
            all.len() == items.len(),
            forall|k: int| 0 <= k < items@.len() ==> #[trigger] all[k] == json::model(items@[k]),
            admin_entries(all, t) == (match admin_entries(all.skip(i as int), t) {
                Ok(rest) => Ok::<Seq<EntryView>, Seq<char>>(entry::entry_views(out@) + rest),
                Err(m) => Err(m),
            }),
        decreases items.len() - i,
    {
        let ghost here = all.skip(i as int);
        assert(here.skip(1) =~= all.skip(i + 1));
        assert(here[0] == all[i as int]);
        match LinkEntry::from_admin_json_at(&items[i], now) {
            Ok(e) => {
                let ghost had = entry::entry_views(out@);
                out.push(e);
                assert(entry::entry_views(out@) =~= had.push(e@));
                assert(forall|l: Seq<EntryView>| #[trigger]
                    (entry::entry_views(out@) + l) =~= had + (seq![e@] + l));
            },
            Err(m) => {
                return Err(m);
            },
        }
        i += 1;
    }
    assert(all.skip(i as int).len() == 0);
    assert(entry::entry_views(out@) + Seq::<EntryView>::empty() =~= entry::entry_views(out@));
    Ok(out)
}

/// The entries that a body lists, read at the instant `now`.
pub fn parse_body_links(v: &Json, now: Timestamp) -> (r: Result<Vec<LinkEntry>, String>)
    ensures
        links_read(r) == body_links(v@, now.secs as int),
{
    match v.get("links") {
        Some(l) => match l {
            Json::Array(items) => {
                proof {
                    json::lemma_items_model(items@);
                }
                if items.len() == 0 {
                    Err("`links` must be a non-empty array".to_string())
                } else {
                    read_entries(items, now)
                }
            },
            _ => Err("`links` must be a non-empty array".to_string()),
        },
        None => Err("`links` must be a non-empty array".to_string()),
    }
}

/// The instant from which a body is to take effect: now, where it says nothing.
pub open spec fn body_effective_at(j: JsonValue, now: int) -> Result<int, Seq<char>> {
    match entry::stamp_field(j, "effectiveAt"@) {
        Ok(Some(t)) => Ok(t),
        Ok(None) => Ok(now),
        Err(m) => Err(m),
    }
}

/// The instant from which a body is to take effect.
pub fn parse_body_effective_at(v: &Json, now: Timestamp) -> (r: Result<Timestamp, String>)
    ensures
        match r {
            Ok(t) => body_effective_at(v@, now.secs as int) == Ok::<int, Seq<char>>(t.secs as int),
            Err(m) => body_effective_at(v@, now.secs as int) == Err::<int, Seq<char>>(m@),
        },
{
    match read_stamp_field(v, "effectiveAt") {
        Ok(Some(t)) => Ok(t),
        Ok(None) => Ok(now),
        Err(m) => Err(m),
    }
}

// ---------------------------------------------------------------------------
// Registering and replacing
// ---------------------------------------------------------------------------

/// The entries of a reply.
pub open spec fn entries_json(entries: Seq<EntryView>) -> JsonValue {
    JsonValue::Array(entries.map_values(|e: EntryView| entry::entry_json(e)))
}

/// Lists of entries print without loss.
pub proof fn lemma_entries_printable(entries: Seq<EntryView>, n: nat)
    requires
        n >= 3,
    ensures
        json::is_printable(entries_json(entries), n),
{
    let items = entries.map_values(|e: EntryView| entry::entry_json(e));
    assert forall|i: int| 0 <= i < items.len() implies json::is_printable(
        #[trigger] items[i],
        (n - 1) as nat,
    ) by {
        entry::lemma_entry_printable(entries[i]);
        json::lemma_printable_deeper(items[i], 2, (n - 1) as nat);
    }
}

fn entry_list(entries: &Vec<LinkEntry>) -> (r: Json)
    ensures
        r@ == entries_json(entry::entry_views(entries@)),
{
    let ghost forms = entry::entry_views(entries@).map_values(|e: EntryView| entry::entry_json(e));
    let mut items: Vec<Json> = Vec::new();
    let mut i: usize = 0;
    while i < entries.len()
        invariant
            i <= entries.len(),
            forms == entry::entry_views(entries@).map_values(|e: EntryView| entry::entry_json(e)),
            json::items_model(items@) == forms.take(i as int),
        decreases entries.len() - i,
    {
        let ghost had = items@;
        items.push(entries[i].to_json());
        i += 1;
        assert(items@.drop_last() =~= had);
        assert(forms.take(i as int) =~= forms.take(i - 1).push(forms[i - 1]));
    }
    assert(forms.take(i as int) =~= forms);
    Json::Array(items)
}

/// What a registration is replied with.
pub open spec fn registered_json(
    key: Seq<char>,
    entries: Seq<EntryView>,
    records: nat,
) -> JsonValue {
    JsonValue::Object(
        Map::empty().insert("identifier"@, JsonValue::Str(key)).insert(
            "registered"@,
            entries_json(entries),
        ).insert("recordCount"@, JsonValue::Number(records as u64)),
    )
}

/// The identifier and the entries that a body asks to register, or what is
/// wrong with it.
pub open spec fn register_request(j: JsonValue, now: int) -> Result<
    (Seq<char>, Seq<EntryView>),
    Seq<char>,
> {
    match body_identifier(j) {
        Err(m) => Err(m),
        Ok(ident) => match body_links(j, now) {
            Err(m) => Err(m),
            Ok(entries) => Ok((ident.key(), entries)),
        },
    }
}

/// What comes of a request to register.
pub open spec fn register_outcome(v: StoreView, j: JsonValue, now: int) -> Option<
    (StoreView, u16, JsonValue),
> {
    match register_request(j, now) {
        Err(m) => Some((v, 400, reply::error_json(m))),
        Ok((key, entries)) => if !store::has_room(v, entries.len()) || !store::has_numbers(v, entries.len()) {
            None
        } else {
            let after = store::registering(v, key, entries, now);
            let kept = store::numbered(entries, v.ledger.next_entry_id);
            Some(
                (
                    after,
                    201,
                    registered_json(key, kept, after.log.len()),
                ),
            )
        },
    }
}

/// No key of the objects printed here begins with `$`.
proof fn lemma_keys_are_plain()
    ensures
        json::is_plain_key("identifier"@),
        json::is_plain_key("registered"@),
        json::is_plain_key("recordCount"@),
        json::is_plain_key("revoked"@),
        json::is_plain_key("effectiveAt"@),
        json::is_plain_key("dark"@),
        json::is_plain_key("seq"@),
        json::is_plain_key("identifierA"@),
        json::is_plain_key("identifierB"@),
        json::is_plain_key("assertor"@),
        json::is_plain_key("direction"@),
        json::is_plain_key("record"@),
        json::is_plain_key("supersededBy"@),
        json::is_plain_key("total"@),
        json::is_plain_key("offset"@),
        json::is_plain_key("records"@),
        json::is_plain_key("entries"@),
        json::is_plain_key("darkIntervals"@),
        json::is_plain_key("reason"@),
        json::is_plain_key("from"@),
        json::is_plain_key("to"@),
{
    reveal_strlit("identifier");
    reveal_strlit("registered");
    reveal_strlit("recordCount");
    reveal_strlit("revoked");
    reveal_strlit("effectiveAt");
    reveal_strlit("dark");
    reveal_strlit("seq");
    reveal_strlit("identifierA");
    reveal_strlit("identifierB");
    reveal_strlit("assertor");
    reveal_strlit("direction");
    reveal_strlit("record");
    reveal_strlit("supersededBy");
    reveal_strlit("total");
    reveal_strlit("offset");
    reveal_strlit("records");
    reveal_strlit("entries");
    reveal_strlit("darkIntervals");
    reveal_strlit("reason");
    reveal_strlit("from");
    reveal_strlit("to");
}

/// Register the entries that a JSON value lists.
pub fn register_value(store: &mut Store, v: &Json, now: Timestamp) -> (r: Option<Reply>)
    requires
        old(store).is_sound(),
    ensures
        final(store).is_sound(),
        carried_out(
            old(store)@,
            final(store)@,
            r,
            register_outcome(old(store)@, v@, now.secs as int),
        ),
{
    broadcast use json::lemma_put_printable;

    proof {
        lemma_keys_are_plain();
    }

    let ident = match parse_body_identifier(v) {
        Ok(i) => i,
        Err(m) => return Some(bad_request(m.as_str())),
    };
    let entries = match parse_body_links(v, now) {
        Ok(e) => e,
        Err(m) => return Some(bad_request(m.as_str())),
    };
    assert(entry::entry_views(entries@).len() == entries@.len());
    if !store.room_for(entries.len()) || !store.numbers_for(entries.len()) {
        return None;
    }
    let key = ident.key();
    let registered = store.register_at(key.as_str(), entries, now);
    let mut f: Vec<(String, Json)> = Vec::new();
    put_text(&mut f, "identifier", key.as_str());
    put(&mut f, "registered", entry_list(&registered));
    put(&mut f, "recordCount", Json::Number(store.log_len() as u64));
    proof {
        lemma_entries_printable(entry::entry_views(registered@), 126);
        assert(json::fields_printable(Map::<Seq<char>, JsonValue>::empty(), 126));
        assert(json::fields_printable(json::fields_model(f@), 126));
    }
    Some(compact_reply(201, &Json::Object(f)))
}

/// Register linkset entries (`POST /admin/linksets`).
pub fn admin_register(
    store: &mut Store,
    token: &Option<String>,
    authorization: Option<&str>,
    body: &str,
    now: Timestamp,
) -> (r: Option<Reply>)
    requires
        old(store).is_sound(),
    ensures
        final(store).is_sound(),
        match admitted(text::opt_text(*token), text::opt_str(authorization), body@) {
            Ok(j) => carried_out(
                old(store)@,
                final(store)@,
                r,
                register_outcome(old(store)@, j, now.secs as int),
            ),
            Err(why) => turned_away(old(store)@, final(store)@, r, why),
        },
{
    match read_admin_body(token, authorization, body) {
        Ok(v) => register_value(store, &v, now),
        Err(e) => Some(e),
    }
}

/// The numbers of the entries in force at an instant.
pub open spec fn numbers_in_force(l: LedgerView, key: Seq<char>, t: int) -> Seq<u64> {
    match store::answer(l, key, t) {
        AnswerView::Resolved(entries) => entries.map_values(|e: EntryView| e.id),
        _ => Seq::empty(),
    }
}

/// The store after the revocation of entries, one by one.
pub open spec fn revoking(
    v: StoreView,
    identifier: Seq<char>,
    ids: Seq<u64>,
    effective_at: int,
    now: int,
) -> StoreView
    decreases ids.len(),
{
    if ids.len() == 0 {
        v
    } else {
        store::recorded(
            revoking(v, identifier, ids.drop_last(), effective_at, now),
            OpView::RevokeEntry {
                identifier,
                entry_id: ids.last(),
                effective_at,
                reason: "superseded by replacement"@,
            },
            now,
        )
    }
}

/// Numbers as a JSON value.
pub open spec fn numbers_json(ids: Seq<u64>) -> JsonValue {
    JsonValue::Array(ids.map_values(|n: u64| JsonValue::Number(n)))
}

/// What a replacement is replied with.
pub open spec fn replaced_json(
    key: Seq<char>,
    ids: Seq<u64>,
    entries: Seq<EntryView>,
    records: nat,
) -> JsonValue {
    JsonValue::Object(
        Map::empty().insert("identifier"@, JsonValue::Str(key)).insert(
            "revoked"@,
            numbers_json(ids),
        ).insert("registered"@, entries_json(entries)).insert(
            "recordCount"@,
            JsonValue::Number(records as u64),
        ),
    )
}

/// The identifier, the entries and the instant of a request to replace, or what
/// is wrong with it.
pub open spec fn replace_request(j: JsonValue, now: int) -> Result<
    (Seq<char>, Seq<EntryView>, int),
    Seq<char>,
> {
    match register_request(j, now) {
        Err(m) => Err(m),
        Ok((key, entries)) => match body_effective_at(j, now) {
            Err(m) => Err(m),
            Ok(at) => Ok((key, entries, at)),
        },
    }
}

/// The store after a replacement: what is in force at the instant is revoked,
/// and the new entries are registered.
pub open spec fn replaced(
    v: StoreView,
    key: Seq<char>,
    entries: Seq<EntryView>,
    at: int,
    now: int,
) -> StoreView {
    let ids = numbers_in_force(v.ledger, key, at);
    store::registering(revoking(v, key, ids, at, now), key, entries, now)
}

/// What comes of a replacement: what is in force at the instant is revoked, and
/// the new entries are registered.
pub open spec fn replacement(
    v: StoreView,
    key: Seq<char>,
    entries: Seq<EntryView>,
    at: int,
    now: int,
) -> Option<(StoreView, u16, JsonValue)> {
    let ids = numbers_in_force(v.ledger, key, at);
    if !store::has_room(v, ids.len() + entries.len()) || !store::has_numbers(v, entries.len()) {
        None
    } else {
        let after = replaced(v, key, entries, at, now);
        let kept = store::numbered(entries, v.ledger.next_entry_id);
        Some(
            (
                after,
                200,
                replaced_json(key, ids, kept, after.log.len()),
            ),
        )
    }
}

/// What comes of a request to replace.
pub open spec fn replace_outcome(v: StoreView, j: JsonValue, now: int) -> Option<
    (StoreView, u16, JsonValue),
> {
    match replace_request(j, now) {
        Err(m) => Some((v, 400, reply::error_json(m))),
        Ok((key, entries, at)) => replacement(v, key, entries, at, now),
    }
}

/// Revoking takes one record for each entry and no entry number.
pub proof fn lemma_revoking_counts(
    v: StoreView,
    identifier: Seq<char>,
    ids: Seq<u64>,
    effective_at: int,
    now: int,
)
    ensures
        ({
            let after = revoking(v, identifier, ids, effective_at, now);
            &&& after.log.len() == v.log.len() + ids.len()
            &&& after.ledger.next_entry_id == v.ledger.next_entry_id
        }),
    decreases ids.len(),
{
    if ids.len() > 0 {
        lemma_revoking_counts(v, identifier, ids.drop_last(), effective_at, now);
    }
}

fn current_numbers(store: &Store, key: &str, t: Timestamp) -> (r: Vec<u64>)
    requires
        store.is_sound(),
    ensures
        r@ == numbers_in_force(store@.ledger, key@, t.secs as int),
{
    let mut ids: Vec<u64> = Vec::new();
    if let Lookup::Resolved(current) = store.lookup(key, t) {
        let ghost all = entry::entry_views(current@).map_values(|e: EntryView| e.id);
        let mut i: usize = 0;
        while i < current.len()
            invariant
                i <= current.len(),
                all == entry::entry_views(current@).map_values(|e: EntryView| e.id),
                ids@ == all.take(i as int),
            decreases current.len() - i,
        {
            ids.push(current[i].id);
            i += 1;
            assert(all.take(i as int) =~= all.take(i - 1).push(all[i - 1]));
        }
        assert(all.take(i as int) =~= all);
    }
    ids
}

fn revoke_all(store: &mut Store, key: &str, ids: &Vec<u64>, effective_at: Timestamp, now: Timestamp)
    requires
        old(store).is_sound(),
        old(store)@.log.len() + ids@.len() <= u64::MAX,
    ensures
        final(store).is_sound(),
        final(store)@ == revoking(
            old(store)@,
            key@,
            ids@,
            effective_at.secs as int,
            now.secs as int,
        ),
{
    let ghost start = store@;
    let mut i: usize = 0;
    assert(ids@.take(0) =~= Seq::empty());
    while i < ids.len()
        invariant
            i <= ids.len(),
            store.is_sound(),
            start.log.len() + ids@.len() <= u64::MAX,
            store@ == revoking(
                start,
                key@,
                ids@.take(i as int),
                effective_at.secs as int,
                now.secs as int,
            ),
        decreases ids.len() - i,
    {
        proof {
            lemma_revoking_counts(
                start,
                key@,
                ids@.take(i as int),
                effective_at.secs as int,
                now.secs as int,
            );
            assert(ids@.take(i + 1).drop_last() =~= ids@.take(i as int));
        }
        store.revoke_at(key, ids[i], effective_at, "superseded by replacement", now);
        i += 1;
    }
    assert(ids@.take(i as int) =~= ids@);
}

fn number_list(ids: &Vec<u64>) -> (r: Json)
    ensures
        r@ == numbers_json(ids@),
{
    let ghost forms = ids@.map_values(|n: u64| JsonValue::Number(n));
    let mut items: Vec<Json> = Vec::new();
    let mut i: usize = 0;
    while i < ids.len()
        invariant
            i <= ids.len(),
            forms == ids@.map_values(|n: u64| JsonValue::Number(n)),
            json::items_model(items@) == forms.take(i as int),
        decreases ids.len() - i,
    {
        let ghost had = items@;
        let item = Json::Number(ids[i]);
        assert(json::model(item) == forms[i as int]);
        items.push(item);
        i += 1;
        assert(items@.drop_last() =~= had);
        assert(forms.take(i as int) =~= forms.take(i - 1).push(forms[i - 1]));
    }
    assert(forms.take(i as int) =~= forms);
    Json::Array(items)
}

fn replaced_reply(key: &str, ids: &Vec<u64>, registered: &Vec<LinkEntry>, records: usize) -> (r:
    Reply)
    ensures
        r@ == reply::json_reply(
            200,
            json::json_compact(
                replaced_json(key@, ids@, entry::entry_views(registered@), records as nat),
            ),
        ),
        json::reads_as(r@.body, replaced_json(key@, ids@, entry::entry_views(registered@), records as nat)),
{
    broadcast use json::lemma_put_printable;

    proof {
        lemma_keys_are_plain();
    }

    let mut f: Vec<(String, Json)> = Vec::new();
    put_text(&mut f, "identifier", key);
    put(&mut f, "revoked", number_list(ids));
    put(&mut f, "registered", entry_list(registered));
    put(&mut f, "recordCount", Json::Number(records as u64));
    proof {
        lemma_entries_printable(entry::entry_views(registered@), 126);
        let items = ids@.map_values(|n: u64| JsonValue::Number(n));
        assert forall|i: int| 0 <= i < items.len() implies json::is_printable(#[trigger] items[i], 125) by {
            assert(items[i] == JsonValue::Number(ids@[i]));
        }
        assert(json::is_printable(numbers_json(ids@), 126));
        assert(json::fields_printable(Map::<Seq<char>, JsonValue>::empty(), 126));
        assert(json::fields_printable(json::fields_model(f@), 126));
    }
    compact_reply(200, &Json::Object(f))
}

fn replace_all(
    store: &mut Store,
    key: &str,
    entries: Vec<LinkEntry>,
    effective_at: Timestamp,
    now: Timestamp,
) -> (r: Option<Reply>)
    requires
        old(store).is_sound(),
    ensures
        final(store).is_sound(),
        carried_out(
            old(store)@,
            final(store)@,
            r,
            replacement(
                old(store)@,
                key@,
                entry::entry_views(entries@),
                effective_at.secs as int,
                now.secs as int,
            ),
        ),
{
    let ghost start = store@;
    assert(entry::entry_views(entries@).len() == entries@.len());
    let ids = current_numbers(store, key, effective_at);
    if !store.room_for_both(ids.len(), entries.len()) || !store.numbers_for(entries.len()) {
        return None;
    }
    revoke_all(store, key, &ids, effective_at, now);
    proof {
        lemma_revoking_counts(start, key@, ids@, effective_at.secs as int, now.secs as int);
    }
    let registered = store.register_at(key, entries, now);
    let records: usize = store.log_len();
    Some(replaced_reply(key, &ids, &registered, records))
}

/// Replace what is in force by the entries that a JSON value lists.
pub fn replace_value(store: &mut Store, v: &Json, now: Timestamp) -> (r: Option<Reply>)
    requires
        old(store).is_sound(),
    ensures
        final(store).is_sound(),
        carried_out(
            old(store)@,
            final(store)@,
            r,
            replace_outcome(old(store)@, v@, now.secs as int),
        ),
{
    let ident = match parse_body_identifier(v) {
        Ok(i) => i,
        Err(m) => return Some(bad_request(m.as_str())),
    };
    let entries = match parse_body_links(v, now) {
        Ok(e) => e,
        Err(m) => return Some(bad_request(m.as_str())),
    };
    let effective_at = match parse_body_effective_at(v, now) {
        Ok(t) => t,
        Err(m) => return Some(bad_request(m.as_str())),
    };
    replace_all(store, ident.key().as_str(), entries, effective_at, now)
}

/// Replace the entries in force (`PUT /admin/linksets`).
pub fn admin_replace(
    store: &mut Store,
    token: &Option<String>,
    authorization: Option<&str>,
    body: &str,
    now: Timestamp,
) -> (r: Option<Reply>)
    requires
        old(store).is_sound(),
    ensures
        final(store).is_sound(),
        match admitted(text::opt_text(*token), text::opt_str(authorization), body@) {
            Ok(j) => carried_out(
                old(store)@,
                final(store)@,
                r,
                replace_outcome(old(store)@, j, now.secs as int),
            ),
            Err(why) => turned_away(old(store)@, final(store)@, r, why),
        },
{
    match read_admin_body(token, authorization, body) {
        Ok(v) => replace_value(store, &v, now),
        Err(e) => Some(e),
    }
}

// ---------------------------------------------------------------------------
// Revocations
// ---------------------------------------------------------------------------

/// The identifier, the entry, the instant and the reason of a request to
/// revoke, or what is wrong with it.
pub open spec fn revoke_request(j: JsonValue, now: int) -> Result<
    (Seq<char>, u64, int, Seq<char>),
    Seq<char>,
> {
    match body_identifier(j) {
        Err(m) => Err(m),
        Ok(ident) => match json::number_in(json::field(j, "entryId"@)) {
            None => Err("`entryId` is required"@),
            Some(entry_id) => match body_effective_at(j, now) {
                Err(m) => Err(m),
                Ok(at) => Ok((ident.key(), entry_id, at, record::text_at(j, "reason"@, "revoked"@))),
            },
        },
    }
}

/// What a revocation is replied with.
pub open spec fn revoked_json(key: Seq<char>, entry_id: u64, at: int) -> JsonValue {
    JsonValue::Object(
        Map::empty().insert("identifier"@, JsonValue::Str(key)).insert(
            "revoked"@,
            JsonValue::Number(entry_id),
        ).insert("effectiveAt"@, JsonValue::Str(time::stamp(at))),
    )
}

/// What comes of a request to revoke an entry.
pub open spec fn revoke_outcome(v: StoreView, j: JsonValue, now: int) -> Option<
    (StoreView, u16, JsonValue),
> {
    match revoke_request(j, now) {
        Err(m) => Some((v, 400, reply::error_json(m))),
        Ok((identifier, entry_id, effective_at, reason)) => if !store::holds_entry(
            v.ledger,
            identifier,
            entry_id,
        ) {
            Some(
                (
                    v,
                    400,
                    reply::error_json(
                        "entry "@ + text::decimal(entry_id as nat) + " is not registered for `"@
                            + identifier + "`"@,
                    ),
                ),
            )
        } else if !store::has_room(v, 1) {
            None
        } else {
            Some(
                (
                    store::recorded(
                        v,
                        OpView::RevokeEntry { identifier, entry_id, effective_at, reason },
                        now,
                    ),
                    200,
                    revoked_json(identifier, entry_id, effective_at),
                ),
            )
        },
    }
}

/// Revoke the entry that a JSON value names.
pub fn revoke_value(store: &mut Store, v: &Json, now: Timestamp) -> (r: Option<Reply>)
    requires
        old(store).is_sound(),
    ensures
        final(store).is_sound(),
        carried_out(
            old(store)@,
            final(store)@,
            r,
            revoke_outcome(old(store)@, v@, now.secs as int),
        ),
{
    broadcast use json::lemma_put_printable;

    proof {
        lemma_keys_are_plain();
    }

    let ident = match parse_body_identifier(v) {
        Ok(i) => i,
        Err(m) => return Some(bad_request(m.as_str())),
    };
    let entry_id: u64 = match v.u64_field("entryId") {
        Some(id) => id,
        None => return Some(bad_request("`entryId` is required")),
    };
    let effective_at = match parse_body_effective_at(v, now) {
        Ok(t) => t,
        Err(m) => return Some(bad_request(m.as_str())),
    };
    let reason = read_text_at(v, "reason", "revoked");
    let key = ident.key();
    if !store.has_entry(key.as_str(), entry_id) {
        let mut s = String::new();
        s.push_str("entry ");
        s.push_str(decimal_text(entry_id).as_str());
        s.push_str(" is not registered for `");
        s.push_str(key.as_str());
        s.push_str("`");
        assert(s@ =~= "entry "@ + text::decimal(entry_id as nat) + " is not registered for `"@ + key@
            + "`"@);
        return Some(bad_request(s.as_str()));
    }
    if !store.room_for(1) {
        return None;
    }
    store.revoke_at(key.as_str(), entry_id, effective_at, reason.as_str(), now);
    let mut f: Vec<(String, Json)> = Vec::new();
    put_text(&mut f, "identifier", key.as_str());
    put(&mut f, "revoked", Json::Number(entry_id));
    put_text(&mut f, "effectiveAt", effective_at.to_string().as_str());
    proof {
        assert(json::fields_printable(Map::<Seq<char>, JsonValue>::empty(), 126));
        assert(json::fields_printable(json::fields_model(f@), 126));
    }
    Some(compact_reply(200, &Json::Object(f)))
}

/// Revoke one entry (`POST /admin/revocations`).
pub fn admin_revoke(
    store: &mut Store,
    token: &Option<String>,
    authorization: Option<&str>,
    body: &str,
    now: Timestamp,
) -> (r: Option<Reply>)
    requires
        old(store).is_sound(),
    ensures
        final(store).is_sound(),
        match admitted(text::opt_text(*token), text::opt_str(authorization), body@) {
            Ok(j) => carried_out(
                old(store)@,
                final(store)@,
                r,
                revoke_outcome(old(store)@, j, now.secs as int),
            ),
            Err(why) => turned_away(old(store)@, final(store)@, r, why),
        },
{
    match read_admin_body(token, authorization, body) {
        Ok(v) => revoke_value(store, &v, now),
        Err(e) => Some(e),
    }
}

// ---------------------------------------------------------------------------
// Dark identities
// ---------------------------------------------------------------------------

/// The identifier of a request to darken, whether it is to be dark, and from
/// when; or what is wrong with it.
pub open spec fn dark_request(j: JsonValue, now: int) -> Result<
    (Seq<char>, bool, int),
    Seq<char>,
> {
    match body_identifier(j) {
        Err(m) => Err(m),
        Ok(ident) => match json::field(j, "dark"@) {
            Some(JsonValue::Bool(dark)) => match body_effective_at(j, now) {
                Err(m) => Err(m),
                Ok(at) => Ok((ident.key(), dark, at)),
            },
            _ => Err("`dark` (boolean) is required"@),
        },
    }
}

/// What a darkening is replied with.
pub open spec fn darkened_json(key: Seq<char>, dark: bool, at: int, seq: u64) -> JsonValue {
    JsonValue::Object(
        Map::empty().insert("identifier"@, JsonValue::Str(key)).insert(
            "dark"@,
            JsonValue::Bool(dark),
        ).insert("effectiveAt"@, JsonValue::Str(time::stamp(at))).insert(
            "seq"@,
            JsonValue::Number(seq),
        ),
    )
}

/// The operation that darkens an identity, or that clears it.
pub open spec fn dark_op(identifier: Seq<char>, dark: bool, effective_at: int) -> OpView {
    if dark {
        OpView::SetDark { identifier, effective_at }
    } else {
        OpView::ClearDark { identifier, effective_at }
    }
}

/// What comes of a request to darken an identity or to clear it.
pub open spec fn dark_outcome(v: StoreView, j: JsonValue, now: int) -> Option<
    (StoreView, u16, JsonValue),
> {
    match dark_request(j, now) {
        Err(m) => Some((v, 400, reply::error_json(m))),
        Ok((key, dark, at)) => if !store::has_room(v, 1) {
            None
        } else {
            let op = dark_op(key, dark, at);
            Some(
                (
                    store::recorded(v, op, now),
                    200,
                    darkened_json(key, dark, at, store::record_for(v, op, now).seq),
                ),
            )
        },
    }
}

/// Darken or clear the identity that a JSON value names.
pub fn dark_value(store: &mut Store, v: &Json, now: Timestamp) -> (r: Option<Reply>)
    requires
        old(store).is_sound(),
    ensures
        final(store).is_sound(),
        carried_out(
            old(store)@,
            final(store)@,
            r,
            dark_outcome(old(store)@, v@, now.secs as int),
        ),
{
    broadcast use json::lemma_put_printable;

    proof {
        lemma_keys_are_plain();
    }

    let ident = match parse_body_identifier(v) {
        Ok(i) => i,
        Err(m) => return Some(bad_request(m.as_str())),
    };
    let dark = match v.get("dark") {
        Some(Json::Bool(b)) => *b,
        _ => return Some(bad_request("`dark` (boolean) is required")),
    };
    let effective_at = match parse_body_effective_at(v, now) {
        Ok(t) => t,
        Err(m) => return Some(bad_request(m.as_str())),
    };
    if !store.room_for(1) {
        return None;
    }
    let key = ident.key();
    let op = if dark {
        Op::SetDark { identifier: key.clone(), effective_at }
    } else {
        Op::ClearDark { identifier: key.clone(), effective_at }
    };
    assert(op@ == dark_op(key@, dark, effective_at.secs as int));
    let rec = store.record_at(op, now);
    let mut f: Vec<(String, Json)> = Vec::new();
    put_text(&mut f, "identifier", key.as_str());
    put(&mut f, "dark", Json::Bool(dark));
    put_text(&mut f, "effectiveAt", effective_at.to_string().as_str());
    put(&mut f, "seq", Json::Number(rec.seq));
    proof {
        assert(json::fields_printable(Map::<Seq<char>, JsonValue>::empty(), 126));
        assert(json::fields_printable(json::fields_model(f@), 126));
    }
    Some(compact_reply(200, &Json::Object(f)))
}

/// Mark or clear a dark identity (`POST /admin/dark`).
pub fn admin_dark(
    store: &mut Store,
    token: &Option<String>,
    authorization: Option<&str>,
    body: &str,
    now: Timestamp,
) -> (r: Option<Reply>)
    requires
        old(store).is_sound(),
    ensures
        final(store).is_sound(),
        match admitted(text::opt_text(*token), text::opt_str(authorization), body@) {
            Ok(j) => carried_out(
                old(store)@,
                final(store)@,
                r,
                dark_outcome(old(store)@, j, now.secs as int),
            ),
            Err(why) => turned_away(old(store)@, final(store)@, r, why),
        },
{
    match read_admin_body(token, authorization, body) {
        Ok(v) => dark_value(store, &v, now),
        Err(e) => Some(e),
    }
}

// ---------------------------------------------------------------------------
// Correlations
// ---------------------------------------------------------------------------

/// The string in a field, without the white space around it.
pub open spec fn trimmed_field(j: JsonValue, key: Seq<char>) -> Option<Seq<char>> {
    match json::string_in(json::field(j, key)) {
        Some(s) => Some(text::trim(s)),
        None => None,
    }
}

fn read_trimmed_field(v: &Json, key: &str) -> (r: Option<String>)
    ensures
        text::opt_text(r) == trimmed_field(v@, key@),
{
    match v.str_field(key) {
        Some(s) => {
            let cs = chars_of(s);
            Some(string_of(trimmed(cs.as_slice())))
        },
        None => None,
    }
}

/// A direction in which a correlation is claimed.
pub open spec fn is_direction(s: Seq<char>) -> bool {
    s == "mutual"@ || s == "from-a"@ || s == "from-b"@
}

/// The local side of a correlation: `identifierA`, or `identifier`.
pub open spec fn local_side(j: JsonValue) -> Result<IdentifierView, Seq<char>> {
    match json::string_in(json::field(j, "identifierA"@)) {
        Some(s) => carrier::identifier_of(s),
        None => body_identifier(j),
    }
}

/// The counterpart of a correlation, which need not be known here.
pub open spec fn counterpart(j: JsonValue, key_a: Seq<char>) -> Result<Seq<char>, Seq<char>> {
    match trimmed_field(j, "identifierB"@) {
        None => Err("`identifierB` is required"@),
        Some(raw) => if raw.len() == 0 {
            Err("`identifierB` must not be empty"@)
        } else {
            match carrier::identifier_of(raw) {
                Err(m) => Err("`identifierB`: "@ + m),
                Ok(b) => if b.key() == key_a {
                    Err("a self-correlation states nothing"@)
                } else {
                    Ok(b.key())
                },
            }
        },
    }
}

/// The correlation that a body asks to record, or what is wrong with it.
pub open spec fn correlate_request(l: LedgerView, j: JsonValue) -> Result<OpView, Seq<char>> {
    match local_side(j) {
        Err(m) => Err(m),
        Ok(a) => match counterpart(j, a.key()) {
            Err(m) => Err(m),
            Ok(key_b) => {
                let direction = record::text_at(j, "direction"@, "mutual"@);
                if !is_direction(direction) {
                    Err("`direction` must be one of `mutual`, `from-a`, `from-b`"@)
                } else if !l.ids.contains_key(a.key()) {
                    Err(
                        "identifier `"@ + a.key()
                            + "` is not known here — register it before correlating it"@,
                    )
                } else {
                    Ok(
                        OpView::Correlate {
                            identifier_a: a.key(),
                            identifier_b: key_b,
                            assertor: record::text_at(j, "assertor"@, ""@),
                            evidence: record::text_at(j, "evidence"@, ""@),
                            direction,
                        },
                    )
                }
            },
        },
    }
}

/// What a correlation is replied with.
pub open spec fn correlated_json(
    key_a: Seq<char>,
    key_b: Seq<char>,
    assertor: Seq<char>,
    direction: Seq<char>,
    rec: RecordView,
) -> JsonValue {
    JsonValue::Object(
        Map::empty().insert("identifierA"@, JsonValue::Str(key_a)).insert(
            "identifierB"@,
            JsonValue::Str(key_b),
        ).insert("assertor"@, JsonValue::Str(assertor)).insert(
            "direction"@,
            JsonValue::Str(direction),
        ).insert("record"@, record::record_json(rec)),
    )
}

/// What comes of a request to correlate two identifiers.
pub open spec fn correlate_outcome(v: StoreView, j: JsonValue, now: int) -> Option<
    (StoreView, u16, JsonValue),
> {
    match correlate_request(v.ledger, j) {
        Err(m) => Some((v, 400, reply::error_json(m))),
        Ok(op) => if !store::has_room(v, 1) {
            None
        } else {
            let reply = match op {
                OpView::Correlate { identifier_a, identifier_b, assertor, direction, .. } => {
                    correlated_json(
                        identifier_a,
                        identifier_b,
                        assertor,
                        direction,
                        store::record_for(v, op, now),
                    )
                },
                _ => JsonValue::Null,
            };
            Some((store::recorded(v, op, now), 201, reply))
        },
    }
}

fn read_local_side(v: &Json) -> (r: Result<ResolvedIdentifier, String>)
    ensures
        carrier::identifier_result(r) == local_side(v@),
{
    match v.str_field("identifierA") {
        Some(s) => parse_identifier_param(s),
        None => parse_body_identifier(v),
    }
}

fn read_counterpart(v: &Json, key_a: &str) -> (r: Result<String, String>)
    ensures
        match r {
            Ok(k) => counterpart(v@, key_a@) == Ok::<Seq<char>, Seq<char>>(k@),
            Err(m) => counterpart(v@, key_a@) == Err::<Seq<char>, Seq<char>>(m@),
        },
{
    let raw = match read_trimmed_field(v, "identifierB") {
        Some(s) => s,
        None => return Err("`identifierB` is required".to_string()),
    };
    if chars_of(raw.as_str()).len() == 0 {
        return Err("`identifierB` must not be empty".to_string());
    }
    match parse_identifier_param(raw.as_str()) {
        Err(m) => {
            let mut s = String::new();
            s.push_str("`identifierB`: ");
            s.push_str(m.as_str());
            assert(s@ =~= "`identifierB`: "@ + m@);
            Err(s)
        },
        Ok(b) => {
            let key_b = b.key();
            if same_text(key_b.as_str(), key_a) {
                Err("a self-correlation states nothing".to_string())
            } else {
                Ok(key_b)
            }
        },
    }
}

fn put_record(f: &mut Vec<(String, Json)>, rec: &LogRecord)
    requires
        json::fields_printable(json::fields_model(old(f)@), 126),
    ensures
        json::fields_model(final(f)@) == json::fields_model(old(f)@).insert("record"@, record::record_json(rec@)),
        json::fields_printable(json::fields_model(final(f)@), 126),
{
    broadcast use json::lemma_put_printable;

    proof {
        lemma_keys_are_plain();
    }

    let j = rec.to_json();
    proof {
        record::lemma_record_printable(rec@);
        json::lemma_printable_deeper(j@, 3, 126);
    }
    put(f, "record", j);
}

/// Record the correlation that a JSON value describes.
pub fn correlate_value(store: &mut Store, v: &Json, now: Timestamp) -> (r: Option<Reply>)
    requires
        old(store).is_sound(),
    ensures
        final(store).is_sound(),
        carried_out(
            old(store)@,
            final(store)@,
            r,
            correlate_outcome(old(store)@, v@, now.secs as int),
        ),
{
    broadcast use json::lemma_put_printable;

    proof {
        lemma_keys_are_plain();
    }

    let a = match read_local_side(v) {
        Ok(i) => i,
        Err(m) => return Some(bad_request(m.as_str())),
    };
    let key_a = a.key();
    let key_b = match read_counterpart(v, key_a.as_str()) {
        Ok(k) => k,
        Err(m) => return Some(bad_request(m.as_str())),
    };
    let direction = read_text_at(v, "direction", "mutual");
    if !same_text(direction.as_str(), "mutual") && !same_text(direction.as_str(), "from-a")
        && !same_text(direction.as_str(), "from-b") {
        return Some(bad_request("`direction` must be one of `mutual`, `from-a`, `from-b`"));
    }
    let assertor = read_text_at(v, "assertor", "");
    let evidence = read_text_at(v, "evidence", "");
    if !store.knows(key_a.as_str()) {
        return Some(
            bad_request(
                concat3(
                    "identifier `",
                    key_a.as_str(),
                    "` is not known here — register it before correlating it",
                ).as_str(),
            ),
        );
    }
    if !store.room_for(1) {
        return None;
    }
    let rec = store.correlate(
        key_a.as_str(),
        key_b.as_str(),
        assertor.as_str(),
        evidence.as_str(),
        direction.as_str(),
        now,
    );
    let mut f: Vec<(String, Json)> = Vec::new();
    put_text(&mut f, "identifierA", key_a.as_str());
    put_text(&mut f, "identifierB", key_b.as_str());
    put_text(&mut f, "assertor", assertor.as_str());
    put_text(&mut f, "direction", direction.as_str());
    proof {
        assert(json::fields_printable(Map::<Seq<char>, JsonValue>::empty(), 126));
        assert(json::fields_printable(json::fields_model(f@), 126));
    }
    put_record(&mut f, &rec);
    Some(compact_reply(201, &Json::Object(f)))
}

/// Record that two identifiers denote one physical subject
/// (`POST /admin/correlations`). The local side must be known here; the
/// counterpart must be well-formed and need not be.
pub fn admin_correlate(
    store: &mut Store,
    token: &Option<String>,
    authorization: Option<&str>,
    body: &str,
    now: Timestamp,
) -> (r: Option<Reply>)
    requires
        old(store).is_sound(),
    ensures
        final(store).is_sound(),
        match admitted(text::opt_text(*token), text::opt_str(authorization), body@) {
            Ok(j) => carried_out(
                old(store)@,
                final(store)@,
                r,
                correlate_outcome(old(store)@, j, now.secs as int),
            ),
            Err(why) => turned_away(old(store)@, final(store)@, r, why),
        },
{
    match read_admin_body(token, authorization, body) {
        Ok(v) => correlate_value(store, &v, now),
        Err(e) => Some(e),
    }
}

// ---------------------------------------------------------------------------
// Rotations
// ---------------------------------------------------------------------------

/// The rotation that a body asks to record, or what is wrong with it.
pub open spec fn supersede_request(l: LedgerView, j: JsonValue, now: int) -> Result<
    OpView,
    Seq<char>,
> {
    match body_identifier(j) {
        Err(m) => Err(m),
        Ok(ident) => match trimmed_field(j, "successor"@) {
            None => Err("`successor` is required"@),
            Some(successor) => if successor.len() == 0 {
                Err(
                    "`successor` must not be empty — an unstated successor is a revocation, not a rotation"@,
                )
            } else {
                match body_effective_at(j, now) {
                    Err(m) => Err(m),
                    Ok(effective_at) => if !l.ids.contains_key(ident.key()) {
                        Err(
                            "identifier `"@ + ident.key()
                                + "` is not known here — register it before recording its rotation"@,
                        )
                    } else {
                        Ok(
                            OpView::Supersede {
                                identifier: ident.key(),
                                successor,
                                effective_at,
                                authority: record::text_at(j, "authority"@, ""@),
                                reason: record::text_at(j, "reason"@, ""@),
                            },
                        )
                    },
                }
            },
        },
    }
}

/// What a rotation is replied with.
pub open spec fn superseded_json(
    key: Seq<char>,
    successor: Seq<char>,
    at: int,
    rec: RecordView,
) -> JsonValue {
    JsonValue::Object(
        Map::empty().insert("identifier"@, JsonValue::Str(key)).insert(
            "supersededBy"@,
            JsonValue::Str(successor),
        ).insert("effectiveAt"@, JsonValue::Str(time::stamp(at))).insert("record"@, record::record_json(rec)),
    )
}

/// What comes of a request to record a rotation.
pub open spec fn supersede_outcome(v: StoreView, j: JsonValue, now: int) -> Option<
    (StoreView, u16, JsonValue),
> {
    match supersede_request(v.ledger, j, now) {
        Err(m) => Some((v, 400, reply::error_json(m))),
        Ok(op) => if !store::has_room(v, 1) {
            None
        } else {
            let reply = match op {
                OpView::Supersede { identifier, successor, effective_at, .. } => superseded_json(
                    identifier,
                    successor,
                    effective_at,
                    store::record_for(v, op, now),
                ),
                _ => JsonValue::Null,
            };
            Some((store::recorded(v, op, now), 200, reply))
        },
    }
}

/// Record the rotation that a JSON value describes.
pub fn supersede_value(store: &mut Store, v: &Json, now: Timestamp) -> (r: Option<Reply>)
    requires
        old(store).is_sound(),
    ensures
        final(store).is_sound(),
        carried_out(
            old(store)@,
            final(store)@,
            r,
            supersede_outcome(old(store)@, v@, now.secs as int),
        ),
{
    broadcast use json::lemma_put_printable;

    proof {
        lemma_keys_are_plain();
    }

    let ident = match parse_body_identifier(v) {
        Ok(i) => i,
        Err(m) => return Some(bad_request(m.as_str())),
    };
    let successor = match read_trimmed_field(v, "successor") {
        Some(s) => s,
        None => return Some(bad_request("`successor` is required")),
    };
    if chars_of(successor.as_str()).len() == 0 {
        return Some(
            bad_request(
                "`successor` must not be empty — an unstated successor is a revocation, not a rotation",
            ),
        );
    }
    let effective_at = match parse_body_effective_at(v, now) {
        Ok(t) => t,
        Err(m) => return Some(bad_request(m.as_str())),
    };
    let authority = read_text_at(v, "authority", "");
    let reason = read_text_at(v, "reason", "");
    let key = ident.key();
    if !store.knows(key.as_str()) {
        return Some(
            bad_request(
                concat3(
                    "identifier `",
                    key.as_str(),
                    "` is not known here — register it before recording its rotation",
                ).as_str(),
            ),
        );
    }
    if !store.room_for(1) {
        return None;
    }
    let rec = store.supersede(
        key.as_str(),
        successor.as_str(),
        effective_at,
        authority.as_str(),
        reason.as_str(),
        now,
    );
    let mut f: Vec<(String, Json)> = Vec::new();
    put_text(&mut f, "identifier", key.as_str());
    put_text(&mut f, "supersededBy", successor.as_str());
    put_text(&mut f, "effectiveAt", effective_at.to_string().as_str());
    proof {
        assert(json::fields_printable(Map::<Seq<char>, JsonValue>::empty(), 126));
        assert(json::fields_printable(json::fields_model(f@), 126));
    }
    put_record(&mut f, &rec);
    Some(compact_reply(200, &Json::Object(f)))
}

/// Record an identity rotation (`POST /admin/supersessions`): from
/// `effectiveAt` the replies for the identifier state its successor. The
/// identifier must be known here.
pub fn admin_supersede(
    store: &mut Store,
    token: &Option<String>,
    authorization: Option<&str>,
    body: &str,
    now: Timestamp,
) -> (r: Option<Reply>)
    requires
        old(store).is_sound(),
    ensures
        final(store).is_sound(),
        match admitted(text::opt_text(*token), text::opt_str(authorization), body@) {
            Ok(j) => carried_out(
                old(store)@,
                final(store)@,
                r,
                supersede_outcome(old(store)@, j, now.secs as int),
            ),
            Err(why) => turned_away(old(store)@, final(store)@, r, why),
        },
{
    match read_admin_body(token, authorization, body) {
        Ok(v) => supersede_value(store, &v, now),
        Err(e) => Some(e),
    }
}

// ---------------------------------------------------------------------------
// Views
// ---------------------------------------------------------------------------

/// A whole number among the parameters, or another where there is none.
pub open spec fn number_param(
    params: Seq<(Seq<char>, Seq<char>)>,
    key: Seq<char>,
    other: int,
) -> int {
    match gs1dl::lookup(params, key) {
        Some(s) => match text::whole_number(s, usize::MAX as int) {
            Some(n) => n,
            None => other,
        },
        None => other,
    }
}

/// How many records are asked for: a hundred where nothing is said, and never
/// more than ten thousand.
pub open spec fn limit_param(params: Seq<(Seq<char>, Seq<char>)>) -> int {
    let n = number_param(params, "limit"@, 100);
    if n > 10000 {
        10000
    } else {
        n
    }
}

fn read_number_param(params: &[(String, String)], key: &str, other: usize) -> (r: usize)
    ensures
        r == number_param(text::string_pairs(params@), key@, other as int),
{
    match find_pair(params, key) {
        Some(i) => match read_whole_number(params[i].1.as_str(), usize::MAX as u64) {
            Some(n) => n as usize,
            None => other,
        },
        None => other,
    }
}

/// The page of the history that is asked for.
pub open spec fn log_document(v: StoreView, params: Seq<(Seq<char>, Seq<char>)>) -> JsonValue {
    store::page_json(v.log, limit_param(params) as nat, number_param(params, "offset"@, 0) as nat)
}

/// The reply with a page of the history.
pub open spec fn log_reply(v: StoreView, params: Seq<(Seq<char>, Seq<char>)>) -> ReplyView {
    reply::json_reply(200, json::json_pretty(log_document(v, params)))
}

/// Pages of the history print without loss.
pub proof fn lemma_page_printable(log: Seq<RecordView>, limit: nat, offset: nat)
    ensures
        json::is_printable(store::page_json(log, limit, offset), 5),
{
    broadcast use json::lemma_put_printable;

    lemma_keys_are_plain();

    let wanted = store::page(log, limit, offset);
    let items = wanted.map_values(|r: RecordView| record::record_json(r));
    assert forall|i: int| 0 <= i < items.len() implies json::is_printable(#[trigger] items[i], 3) by {
        record::lemma_record_printable(wanted[i]);
    }
    assert(json::is_printable(JsonValue::Array(items), 4));
    let m = Map::<Seq<char>, JsonValue>::empty();
    assert(json::fields_printable(m, 4));
    let m = m.insert("total"@, JsonValue::Number(log.len() as u64));
    assert(json::fields_printable(m, 4));
    let m = m.insert("offset"@, JsonValue::Number(offset as u64));
    assert(json::fields_printable(m, 4));
    assert(json::fields_printable(m.insert("records"@, JsonValue::Array(items)), 4));
}

/// Administrative views print without loss.
pub proof fn lemma_state_printable(key: Seq<char>, s: StateView, records: nat)
    ensures
        json::is_printable(store::state_json(key, s, records), 4),
{
    broadcast use json::lemma_put_printable;

    lemma_keys_are_plain();
    reveal_with_fuel(json::is_printable, 2);
    let entries = s.entries.map_values(|e: EntryView| store::annotated_json(e, s.revocations));
    assert forall|i: int| 0 <= i < entries.len() implies json::is_printable(#[trigger] entries[i], 2) by {
        let e = s.entries[i];
        entry::lemma_entry_printable(e);
        if let Some(r) = store::first_revocation(s.revocations, e.id) {
            assert(json::fields_printable(Map::<Seq<char>, JsonValue>::empty(), 0));
            assert(json::is_printable(store::revocation_json(r), 1));
            assert(json::fields_printable(entry::entry_fields(e).insert("revoked"@, store::revocation_json(r)), 1));
        }
    }
    let dark = s.dark.map_values(|d: DarkView| store::dark_json(d));
    assert forall|i: int| 0 <= i < dark.len() implies json::is_printable(#[trigger] dark[i], 2) by {
        assert(json::fields_printable(Map::<Seq<char>, JsonValue>::empty(), 1));
        assert(json::is_printable(store::dark_json(s.dark[i]), 2));
    }
    let m = Map::<Seq<char>, JsonValue>::empty();
    assert(json::fields_printable(m, 3));
    let m = m.insert("identifier"@, JsonValue::Str(key));
    assert(json::fields_printable(m, 3));
    let m = m.insert("entries"@, JsonValue::Array(entries));
    assert(json::fields_printable(m, 3));
    let m = m.insert("darkIntervals"@, JsonValue::Array(dark));
    assert(json::fields_printable(m, 3));
    assert(json::fields_printable(m.insert("recordCount"@, JsonValue::Number(records as u64)), 3));
}

/// The history, page by page (`GET /admin/log`). The keys of `params` are
/// distinct.
pub fn admin_log(
    store: &Store,
    token: &Option<String>,
    authorization: Option<&str>,
    params: &[(String, String)],
) -> (r: Reply)
    ensures
        r@ == (if is_authorized(text::opt_text(*token), text::opt_str(authorization)) {
            log_reply(store@, text::string_pairs(params@))
        } else {
            reply::unauthorized_reply()
        }),
        is_authorized(text::opt_text(*token), text::opt_str(authorization)) ==> json::reads_as(
            r@.body,
            log_document(store@, text::string_pairs(params@)),
        ),
{
    if let Some(e) = require_admin(token, authorization) {
        return e;
    }
    let asked: usize = read_number_param(params, "limit", 100);
    let limit: usize = if asked > 10000 {
        10000
    } else {
        asked
    };
    let offset: usize = read_number_param(params, "offset", 0);
    let j = store.log_json(limit, offset);
    proof {
        lemma_page_printable(store@.log, limit as nat, offset as nat);
        json::lemma_printable_deeper(j@, 5, 127);
    }
    pretty_reply(200, &j)
}

/// The reply with the full state of an identifier.
pub open spec fn state_reply(v: StoreView, key: Seq<char>) -> ReplyView {
    if v.ledger.ids.contains_key(key) {
        reply::json_reply(200, json::json_pretty(store::state_json(key, v.ledger.ids[key], v.log.len())))
    } else {
        reply::not_found_reply()
    }
}

/// The full state of an identifier (`GET /admin/identifiers/{identifier}`).
pub fn admin_identifier(
    store: &Store,
    token: &Option<String>,
    authorization: Option<&str>,
    identifier: &str,
) -> (r: Reply)
    requires
        store.is_sound(),
    ensures
        r@ == (if is_authorized(text::opt_text(*token), text::opt_str(authorization)) {
            state_reply(store@, identifier@)
        } else {
            reply::unauthorized_reply()
        }),
        is_authorized(text::opt_text(*token), text::opt_str(authorization))
            && store@.ledger.ids.contains_key(identifier@) ==> json::reads_as(
            r@.body,
            store::state_json(identifier@, store@.ledger.ids[identifier@], store@.log.len()),
        ),
{
    if let Some(e) = require_admin(token, authorization) {
        return e;
    }
    match store.admin_view(identifier) {
        Some(j) => {
            proof {
                lemma_state_printable(
                    identifier@,
                    store@.ledger.ids[identifier@],
                    store@.log.len(),
                );
                json::lemma_printable_deeper(j@, 4, 127);
            }
            pretty_reply(200, &j)
        },
        None => not_found(),
    }
}

// ---------------------------------------------------------------------------
// Laws
// ---------------------------------------------------------------------------

/// A request that is refused changes nothing.
pub proof fn law_refusal_changes_nothing(v: StoreView, j: JsonValue, now: int)
    ensures
        register_outcome(v, j, now) matches Some((after, status, _)) ==> status == 400 ==> after
            == v,
        replace_outcome(v, j, now) matches Some((after, status, _)) ==> status == 400 ==> after
            == v,
        revoke_outcome(v, j, now) matches Some((after, status, _)) ==> status == 400 ==> after
            == v,
        dark_outcome(v, j, now) matches Some((after, status, _)) ==> status == 400 ==> after == v,
        correlate_outcome(v, j, now) matches Some((after, status, _)) ==> status == 400 ==> after
            == v,
        supersede_outcome(v, j, now) matches Some((after, status, _)) ==> status == 400 ==> after
            == v,
{
}

/// What is revoked leaves the answers for the time before as they were.
proof fn lemma_revoking_keeps_the_past(
    v: StoreView,
    identifier: Seq<char>,
    ids: Seq<u64>,
    effective_at: int,
    now: int,
    key: Seq<char>,
    t: int,
)
    requires
        v.ledger.ids.contains_key(identifier),
        t < effective_at,
    ensures
        store::answer(revoking(v, identifier, ids, effective_at, now).ledger, key, t) == store::answer(
            v.ledger,
            key,
            t,
        ),
        revoking(v, identifier, ids, effective_at, now).ledger.ids.contains_key(identifier),
    decreases ids.len(),
{
    if ids.len() > 0 {
        lemma_revoking_keeps_the_past(
            v,
            identifier,
            ids.drop_last(),
            effective_at,
            now,
            key,
            t,
        );
        store::law_revocation_keeps_the_past(
            revoking(v, identifier, ids.drop_last(), effective_at, now),
            identifier,
            ids.last(),
            effective_at,
            "superseded by replacement"@,
            now,
            key,
            t,
        );
    }
}

proof fn lemma_revoking_revokes(
    v: StoreView,
    identifier: Seq<char>,
    ids: Seq<u64>,
    effective_at: int,
    now: int,
    t: int,
)
    requires
        effective_at <= t,
    ensures
        forall|i: int|
            0 <= i < ids.len() ==> store::is_revoked(
                store::state_of(
                    revoking(v, identifier, ids, effective_at, now).ledger.ids,
                    identifier,
                ).revocations,
                #[trigger] ids[i],
                t,
            ),
    decreases ids.len(),
{
    if ids.len() > 0 {
        lemma_revoking_revokes(v, identifier, ids.drop_last(), effective_at, now, t);
        let before = store::state_of(
            revoking(v, identifier, ids.drop_last(), effective_at, now).ledger.ids,
            identifier,
        ).revocations;
        let after = store::state_of(
            revoking(v, identifier, ids, effective_at, now).ledger.ids,
            identifier,
        ).revocations;
        assert(after == before.push(after.last()));
        assert forall|i: int| 0 <= i < ids.len() implies store::is_revoked(after, #[trigger] ids[i], t) by {
            if i < ids.len() - 1 {
                assert(ids.drop_last()[i] == ids[i]);
                assert(store::is_revoked(before, ids[i], t));
                let k = choose|k: int|
                    0 <= k < before.len() && (#[trigger] before[k]).entry_id == ids[i]
                        && before[k].effective_at <= t;
                assert(after[k] == before[k]);
            } else {
                assert(after[before.len() as int].entry_id == ids[i]);
            }
        }
    }
}

/// Revoking adds records and revocations and leaves everything else.
proof fn lemma_revoking_adds(
    v: StoreView,
    identifier: Seq<char>,
    ids: Seq<u64>,
    effective_at: int,
    now: int,
)
    requires
        store::is_consistent(v),
    ensures
        ({
            let after = revoking(v, identifier, ids, effective_at, now);
            let s = store::state_of(v.ledger.ids, identifier);
            let s2 = store::state_of(after.ledger.ids, identifier);
            &&& store::is_consistent(after)
            &&& v.log.is_prefix_of(after.log)
            &&& s2 == (StateView { revocations: s2.revocations, ..s })
            &&& after.ledger.ids.remove(identifier) == v.ledger.ids.remove(identifier)
            &&& after.ledger.correlations == v.ledger.correlations
            &&& after.cache == v.cache
            &&& forall|n: u64, t: int|
                !ids.contains(n) ==> store::is_revoked(s2.revocations, n, t) == store::is_revoked(
                    s.revocations,
                    n,
                    t,
                )
        }),
    decreases ids.len(),
{
    let after = revoking(v, identifier, ids, effective_at, now);
    let s = store::state_of(v.ledger.ids, identifier);
    if ids.len() > 0 {
        lemma_revoking_adds(v, identifier, ids.drop_last(), effective_at, now);
        let before = revoking(v, identifier, ids.drop_last(), effective_at, now);
        let s1 = store::state_of(before.ledger.ids, identifier);
        let s2 = store::state_of(after.ledger.ids, identifier);
        assert(after.log.drop_last() =~= before.log);
        assert(v.log =~= after.log.subrange(0, v.log.len() as int)) by {
            assert(v.log =~= before.log.subrange(0, v.log.len() as int));
        }
        assert(after.ledger.ids.remove(identifier) =~= before.ledger.ids.remove(identifier));
        assert(s2.revocations == s1.revocations.push(s2.revocations.last()));
        assert forall|n: u64, t: int| !ids.contains(n) implies store::is_revoked(s2.revocations, n, t)
            == store::is_revoked(s.revocations, n, t) by {
            assert(!ids.drop_last().contains(n)) by {
                if ids.drop_last().contains(n) {
                    let k = choose|k: int| 0 <= k < ids.len() - 1 && ids.drop_last()[k] == n;
                    assert(ids[k] == n);
                }
            }
            assert(ids[ids.len() - 1] == ids.last());
            lemma_other_revocation(s1.revocations, s2.revocations.last(), n, t);
        }
    } else {
        assert(v.log =~= v.log.subrange(0, v.log.len() as int));
    }
}

proof fn lemma_other_revocation(v: Seq<RevocationView>, r: RevocationView, id: u64, t: int)
    requires
        r.entry_id != id,
    ensures
        store::is_revoked(v.push(r), id, t) == store::is_revoked(v, id, t),
{
    let w = v.push(r);
    if store::is_revoked(v, id, t) {
        let i = choose|i: int|
            0 <= i < v.len() && (#[trigger] v[i]).entry_id == id && v[i].effective_at <= t;
        assert(w[i] == v[i]);
    }
    if store::is_revoked(w, id, t) {
        let i = choose|i: int|
            0 <= i < w.len() && (#[trigger] w[i]).entry_id == id && w[i].effective_at <= t;
        assert(w[i] == v[i]);
    }
}

/// The two steps of a replacement, and what each has room for.
proof fn lemma_replacement_steps(
    v: StoreView,
    key: Seq<char>,
    entries: Seq<EntryView>,
    at: int,
    now: int,
)
    requires
        store::is_consistent(v),
        replacement(v, key, entries, at, now) is Some,
    ensures
        ({
            let ids = numbers_in_force(v.ledger, key, at);
            let between = revoking(v, key, ids, at, now);
            &&& store::is_consistent(between)
            &&& store::has_room(between, entries.len())
            &&& store::has_numbers(between, entries.len())
            &&& between.ledger.next_entry_id == v.ledger.next_entry_id
            &&& replaced(v, key, entries, at, now) == store::registering(
                between,
                key,
                entries,
                now,
            )
        }),
{
    let ids = numbers_in_force(v.ledger, key, at);
    lemma_revoking_adds(v, key, ids, at, now);
    lemma_revoking_counts(v, key, ids, at, now);
}

/// A replacement is append-only: every earlier record stays in its place, one
/// is added for each entry that was in force and one for each new entry, and
/// nothing but the identifier's own state changes. The reply names the entries
/// that were in force, the new ones under their numbers, and the length of the
/// history.
pub proof fn law_replacement_appends(
    v: StoreView,
    key: Seq<char>,
    entries: Seq<EntryView>,
    at: int,
    now: int,
)
    requires
        store::is_consistent(v),
        replacement(v, key, entries, at, now) is Some,
    ensures
        ({
            let after = replaced(v, key, entries, at, now);
            let ids = numbers_in_force(v.ledger, key, at);
            let kept = store::numbered(entries, v.ledger.next_entry_id);
            &&& replacement(v, key, entries, at, now) == Some(
                (
                    after,
                    200u16,
                    replaced_json(key, ids, kept, after.log.len()),
                ),
            )
            &&& store::is_consistent(after)
            &&& v.log.is_prefix_of(after.log)
            &&& after.log.len() == v.log.len() + ids.len() + entries.len()
            &&& after.ledger.ids.remove(key) == v.ledger.ids.remove(key)
            &&& after.ledger.correlations == v.ledger.correlations
            &&& after.cache == v.cache
        }),
{
    let ids = numbers_in_force(v.ledger, key, at);
    let between = revoking(v, key, ids, at, now);
    let after = replaced(v, key, entries, at, now);
    lemma_replacement_steps(v, key, entries, at, now);
    lemma_revoking_adds(v, key, ids, at, now);
    lemma_revoking_counts(v, key, ids, at, now);
    store::law_registering_adds(between, key, entries, now);
    assert(v.log =~= after.log.subrange(0, v.log.len() as int)) by {
        assert(v.log =~= between.log.subrange(0, v.log.len() as int));
        assert(between.log =~= after.log.subrange(0, between.log.len() as int));
        assert forall|i: int| 0 <= i < v.log.len() implies v.log[i] == after.log[i] by {
            assert(v.log[i] == between.log.subrange(0, v.log.len() as int)[i]);
            assert(between.log[i] == after.log.subrange(0, between.log.len() as int)[i]);
        }
    }
}

/// A replacement is stamped: where the new entries begin no earlier than it, the
/// answers for the time before it stay the same, for this identifier and every
/// other.
pub proof fn law_replacement_keeps_the_past(
    v: StoreView,
    key: Seq<char>,
    entries: Seq<EntryView>,
    at: int,
    now: int,
    other: Seq<char>,
    t: int,
)
    requires
        store::is_consistent(v),
        replacement(v, key, entries, at, now) is Some,
        v.ledger.ids.contains_key(key),
        forall|i: int| 0 <= i < entries.len() ==> at <= (#[trigger] entries[i]).as_of,
        t < at,
    ensures
        store::answer(replaced(v, key, entries, at, now).ledger, other, t) == store::answer(
            v.ledger,
            other,
            t,
        ),
{
    let ids = numbers_in_force(v.ledger, key, at);
    lemma_replacement_steps(v, key, entries, at, now);
    lemma_revoking_keeps_the_past(v, key, ids, at, now, other, t);
    store::law_registration_keeps_the_past(revoking(v, key, ids, at, now), key, entries, now, other, t);
}

/// What a replacement replaces is out of force from its instant on.
pub proof fn law_replaced_is_gone(
    v: StoreView,
    key: Seq<char>,
    entries: Seq<EntryView>,
    at: int,
    now: int,
    t: int,
)
    requires
        store::is_consistent(v),
        replacement(v, key, entries, at, now) is Some,
        at <= t,
    ensures
        store::answer(replaced(v, key, entries, at, now).ledger, key, t) matches
            AnswerView::Resolved(found) ==> forall|e: EntryView| #[trigger]
            found.contains(e) ==> !numbers_in_force(v.ledger, key, at).contains(e.id),
{
    let ids = numbers_in_force(v.ledger, key, at);
    let between = revoking(v, key, ids, at, now);
    let after = replaced(v, key, entries, at, now);
    lemma_replacement_steps(v, key, entries, at, now);
    lemma_revoking_revokes(v, key, ids, at, now, t);
    store::law_registering_adds(between, key, entries, now);
    let s = store::state_of(after.ledger.ids, key);
    assert(s.revocations == store::state_of(between.ledger.ids, key).revocations);
    let p = |e: EntryView| store::in_force(s, e, t);
    assert forall|e: EntryView| #[trigger] store::effective(s, t).contains(e) implies !ids.contains(
        e.id,
    ) by {
        s.entries.lemma_filter_contains_rev(p, e);
        if ids.contains(e.id) {
            let i = choose|i: int| 0 <= i < ids.len() && ids[i] == e.id;
            assert(store::is_revoked(s.revocations, ids[i], t));
        }
    }
}

/// What a replacement brings is in force: at an instant at which the identity is
/// not denied, a new entry that is valid is among those in force, under the next
/// free number, unless that number was revoked before it was given out.
pub proof fn law_replacement_is_served(
    v: StoreView,
    key: Seq<char>,
    entries: Seq<EntryView>,
    at: int,
    now: int,
    i: int,
    t: int,
)
    requires
        store::is_consistent(v),
        replacement(v, key, entries, at, now) is Some,
        0 <= i < entries.len(),
        entries[i].valid_at(t),
        !store::is_denied(store::state_of(v.ledger.ids, key).dark, t),
        !store::is_revoked(
            store::state_of(v.ledger.ids, key).revocations,
            (v.ledger.next_entry_id + i) as u64,
            t,
        ),
    ensures
        store::answer(replaced(v, key, entries, at, now).ledger, key, t) matches
            AnswerView::Resolved(found) && found.contains(
            entries[i].with_id((v.ledger.next_entry_id + i) as u64),
        ),
{
    let ids = numbers_in_force(v.ledger, key, at);
    let between = revoking(v, key, ids, at, now);
    let n = (v.ledger.next_entry_id + i) as u64;
    lemma_replacement_steps(v, key, entries, at, now);
    lemma_revoking_adds(v, key, ids, at, now);
    assert(!ids.contains(n)) by {
        if ids.contains(n) {
            let s = v.ledger.ids[key];
            let found = store::effective(s, at);
            let k = choose|k: int| 0 <= k < ids.len() && ids[k] == n;
            assert(found.contains(found[k]));
            s.entries.lemma_filter_contains_rev(|e: EntryView| store::in_force(s, e, at), found[k]);
            let m = choose|m: int| 0 <= m < s.entries.len() && s.entries[m] == found[k];
            store::law_numbers_are_fresh(v.log, key, m);
        }
    }
    store::law_registered_is_served(between, key, entries, now, i, t);
}

proof fn lemma_read_entries_are_publishable(items: Seq<JsonValue>, now: int)
    requires
        time::has_four_digit_year(now),
    ensures
        admin_entries(items, now) matches Ok(entries) ==> forall|i: int|
            0 <= i < entries.len() ==> entry::is_publishable(#[trigger] entries[i]),
    decreases items.len(),
{
    if items.len() > 0 {
        entry::law_read_entry_is_publishable(items[0], now);
        lemma_read_entries_are_publishable(items.skip(1), now);
        if let (Ok(e), Ok(rest)) = (entry::admin_entry(items[0], now), admin_entries(items.skip(1), now)) {
            let entries = seq![e] + rest;
            assert forall|i: int| 0 <= i < entries.len() implies entry::is_publishable(
                #[trigger] entries[i],
            ) by {
                if i > 0 {
                    assert(entries[i] == rest[i - 1]);
                }
            }
        }
    }
}

proof fn lemma_registering_keeps_recordable(
    v: StoreView,
    key: Seq<char>,
    entries: Seq<EntryView>,
    now: int,
)
    requires
        record::all_recordable(v.log),
        time::has_four_digit_year(now),
        forall|i: int| 0 <= i < entries.len() ==> entry::is_publishable(#[trigger] entries[i]),
    ensures
        record::all_recordable(store::registering(v, key, entries, now).log),
    decreases entries.len(),
{
    if entries.len() > 0 {
        let front = entries.drop_last();
        assert forall|i: int| 0 <= i < front.len() implies entry::is_publishable(#[trigger] front[i]) by {
            assert(front[i] == entries[i]);
        }
        lemma_registering_keeps_recordable(v, key, front, now);
        assert(entry::is_publishable(entries[entries.len() - 1]));
    }
}

proof fn lemma_revoking_keeps_recordable(
    v: StoreView,
    key: Seq<char>,
    ids: Seq<u64>,
    at: int,
    now: int,
)
    requires
        record::all_recordable(v.log),
        time::has_four_digit_year(now),
        time::has_four_digit_year(at),
    ensures
        record::all_recordable(revoking(v, key, ids, at, now).log),
    decreases ids.len(),
{
    if ids.len() > 0 {
        lemma_revoking_keeps_recordable(v, key, ids.drop_last(), at, now);
    }
}

/// Whatever is administered survives a restart: while the clock shows a year
/// from 0000 to 9999, every request leaves a history that a journal gives back.
pub proof fn law_history_stays_recordable(v: StoreView, j: JsonValue, now: int)
    requires
        time::has_four_digit_year(now),
        record::all_recordable(v.log),
    ensures
        register_outcome(v, j, now) matches Some((after, _, _)) ==> record::all_recordable(after.log),
        replace_outcome(v, j, now) matches Some((after, _, _)) ==> record::all_recordable(after.log),
        revoke_outcome(v, j, now) matches Some((after, _, _)) ==> record::all_recordable(after.log),
        dark_outcome(v, j, now) matches Some((after, _, _)) ==> record::all_recordable(after.log),
        correlate_outcome(v, j, now) matches Some((after, _, _)) ==> record::all_recordable(after.log),
        supersede_outcome(v, j, now) matches Some((after, _, _)) ==> record::all_recordable(after.log),
{
    entry::lemma_stamp_field_year(j, "effectiveAt"@);
    if let Some(JsonValue::Array(items)) = json::field(j, "links"@) {
        lemma_read_entries_are_publishable(items, now);
    }
    if let Ok((key, entries)) = register_request(j, now) {
        lemma_registering_keeps_recordable(v, key, entries, now);
        if let Ok(at) = body_effective_at(j, now) {
            let ids = numbers_in_force(v.ledger, key, at);
            lemma_revoking_keeps_recordable(v, key, ids, at, now);
            lemma_registering_keeps_recordable(
                revoking(v, key, ids, at, now),
                key,
                entries,
                now,
            );
        }
    }
}

} // verus!
