//! The linkset store: for each identifier the entries registered for it, their
//! revocations, its dark intervals and its successors; the append-only history
//! of every change; and the cache of what an upstream resolver answered.
//!
//! Nothing is edited in place. The state is at all times what the history says
//! it is ([`replayed`]): a change is a record, appended to the history and
//! applied to the state, and replaying a journal goes the same way.

use vstd::prelude::*;

pub use crate::entry::LinkEntry;
use crate::entry;
use crate::entry::{EntryView, copy_entries};
use crate::json;
use crate::json::{Json, JsonValue, parse_json, print_compact, put, put_text};
pub use crate::record::{LogRecord, Op};
use crate::record;
use crate::record::{OpView, RecordView};
use crate::shelf::Shelf;
use crate::text;
use crate::text::{chars_of, decimal_text, trimmed};
use crate::time;
use crate::time::Timestamp;

verus! {

// ---------------------------------------------------------------------------
// The state of an identifier
// ---------------------------------------------------------------------------

/// A dark interval from `from` up to but not at `to`; without an end it lasts.
#[derive(Debug, Clone, Copy, PartialEq, Eq)]
pub struct DarkInterval {
    pub from: Timestamp,
    pub to: Option<Timestamp>,
}

/// What a [`DarkInterval`] stands for.
pub struct DarkView {
    pub from: int,
    pub to: Option<int>,
}

impl View for DarkInterval {
    type V = DarkView;

    open spec fn view(&self) -> DarkView {
        DarkView { from: self.from.secs as int, to: entry::instant(self.to) }
    }
}

impl DarkView {
    /// The instant lies in the interval.
    pub open spec fn contains(self, t: int) -> bool {
        self.from <= t && (self.to matches Some(e) ==> t < e)
    }
}

impl DarkInterval {
    /// Does the instant lie in the interval?
    pub fn contains(&self, t: Timestamp) -> (r: bool)
        ensures
            r == self@.contains(t.secs as int),
    {
        self.from.secs <= t.secs && match self.to {
            Some(e) => t.secs < e.secs,
            None => true,
        }
    }
}

/// An identity rotation: the identifier has a successor from `effective_at`.
#[derive(Debug, PartialEq, Eq)]
pub struct Supersession {
    pub successor: String,
    pub effective_at: Timestamp,
    pub authority: String,
    pub reason: String,
}

/// What a [`Supersession`] stands for.
#[verifier::ext_equal]
pub struct SupersessionView {
    pub successor: Seq<char>,
    pub effective_at: int,
    pub authority: Seq<char>,
    pub reason: Seq<char>,
}

impl View for Supersession {
    type V = SupersessionView;

    open spec fn view(&self) -> SupersessionView {
        SupersessionView {
            successor: self.successor@,
            effective_at: self.effective_at.secs as int,
            authority: self.authority@,
            reason: self.reason@,
        }
    }
}

impl Clone for Supersession {
    fn clone(&self) -> (r: Supersession)
        ensures
            r@ == self@,
    {
        Supersession {
            successor: self.successor.clone(),
            effective_at: self.effective_at,
            authority: self.authority.clone(),
            reason: self.reason.clone(),
        }
    }
}

/// A claim that another identifier denotes the same subject.
#[derive(Debug, PartialEq, Eq)]
pub struct Correlation {
    pub other: String,
    pub assertor: String,
    pub evidence: String,
    pub direction: String,
    pub recorded_at: Timestamp,
}

/// What a [`Correlation`] stands for.
#[verifier::ext_equal]
pub struct CorrelationView {
    pub other: Seq<char>,
    pub assertor: Seq<char>,
    pub evidence: Seq<char>,
    pub direction: Seq<char>,
    pub recorded_at: int,
}

impl View for Correlation {
    type V = CorrelationView;

    open spec fn view(&self) -> CorrelationView {
        CorrelationView {
            other: self.other@,
            assertor: self.assertor@,
            evidence: self.evidence@,
            direction: self.direction@,
            recorded_at: self.recorded_at.secs as int,
        }
    }
}

impl Clone for Correlation {
    fn clone(&self) -> (r: Correlation)
        ensures
            r@ == self@,
    {
        Correlation {
            other: self.other.clone(),
            assertor: self.assertor.clone(),
            evidence: self.evidence.clone(),
            direction: self.direction.clone(),
            recorded_at: self.recorded_at,
        }
    }
}

/// The views of a list of correlations.
pub open spec fn correlation_views(v: Seq<Correlation>) -> Seq<CorrelationView> {
    v.map_values(|c: Correlation| c@)
}

/// The fields of the JSON form of a correlation.
pub open spec fn correlation_fields(c: CorrelationView) -> Map<Seq<char>, JsonValue> {
    Map::empty().insert("identifier"@, JsonValue::Str(c.other)).insert(
        "assertor"@,
        JsonValue::Str(c.assertor),
    ).insert("evidence"@, JsonValue::Str(c.evidence)).insert(
        "direction"@,
        JsonValue::Str(c.direction),
    ).insert("recordedAt"@, JsonValue::Str(time::stamp(c.recorded_at)))
}

/// The JSON form of a correlation.
pub open spec fn correlation_json(c: CorrelationView) -> JsonValue {
    JsonValue::Object(correlation_fields(c))
}

/// No key of the objects printed here begins with `$`.
proof fn lemma_keys_are_plain()
    ensures
        json::is_plain_key("identifier"@),
        json::is_plain_key("assertor"@),
        json::is_plain_key("evidence"@),
        json::is_plain_key("direction"@),
        json::is_plain_key("recordedAt"@),
{
    reveal_strlit("identifier");
    reveal_strlit("assertor");
    reveal_strlit("evidence");
    reveal_strlit("direction");
    reveal_strlit("recordedAt");
}

/// Correlations print without loss.
pub proof fn lemma_correlation_printable(c: CorrelationView)
    ensures
        json::is_printable(correlation_json(c), 1),
{
    broadcast use json::lemma_put_printable;

    lemma_keys_are_plain();

    assert(json::fields_printable(Map::<Seq<char>, JsonValue>::empty(), 0));
    assert(json::fields_printable(correlation_fields(c), 0));
}

impl Correlation {
    /// The JSON form.
    pub fn to_json(&self) -> (r: Json)
        ensures
            r@ == correlation_json(self@),
    {
        let mut f: Vec<(String, Json)> = Vec::new();
        put_text(&mut f, "identifier", self.other.as_str());
        put_text(&mut f, "assertor", self.assertor.as_str());
        put_text(&mut f, "evidence", self.evidence.as_str());
        put_text(&mut f, "direction", self.direction.as_str());
        put_text(&mut f, "recordedAt", self.recorded_at.to_string().as_str());
        Json::Object(f)
    }
}

/// What is known of one identifier; every list only grows.
#[derive(Debug)]
pub struct IdentifierState {
    pub entries: Vec<LinkEntry>,
    pub revocations: Vec<(u64, Timestamp, String)>,
    pub dark: Vec<DarkInterval>,
    pub supersessions: Vec<Supersession>,
}

/// A revocation: which entry, from when, and why.
pub struct RevocationView {
    pub entry_id: u64,
    pub effective_at: int,
    pub reason: Seq<char>,
}

/// The views of a list of revocations.
pub open spec fn revocation_views(v: Seq<(u64, Timestamp, String)>) -> Seq<RevocationView> {
    v.map_values(
        |r: (u64, Timestamp, String)|
            RevocationView { entry_id: r.0, effective_at: r.1.secs as int, reason: r.2@ },
    )
}

/// What an [`IdentifierState`] stands for.
#[verifier::ext_equal]
pub struct StateView {
    pub entries: Seq<EntryView>,
    pub revocations: Seq<RevocationView>,
    pub dark: Seq<DarkView>,
    pub supersessions: Seq<SupersessionView>,
}

impl View for IdentifierState {
    type V = StateView;

    open spec fn view(&self) -> StateView {
        StateView {
            entries: entry::entry_views(self.entries@),
            revocations: revocation_views(self.revocations@),
            dark: self.dark@.map_values(|d: DarkInterval| d@),
            supersessions: self.supersessions@.map_values(|s: Supersession| s@),
        }
    }
}

/// Nothing is known yet.
pub open spec fn blank_state() -> StateView {
    StateView {
        entries: Seq::empty(),
        revocations: Seq::empty(),
        dark: Seq::empty(),
        supersessions: Seq::empty(),
    }
}

impl Default for IdentifierState {
    fn default() -> (r: IdentifierState)
        ensures
            r@ == blank_state(),
    {
        let r = IdentifierState {
            entries: Vec::new(),
            revocations: Vec::new(),
            dark: Vec::new(),
            supersessions: Vec::new(),
        };
        assert(r@ =~= blank_state());
        r
    }
}

// ---------------------------------------------------------------------------
// The state as the fold of the history
// ---------------------------------------------------------------------------

/// The number an entry is kept under: its own, and at least 1.
pub open spec fn kept_id(id: u64) -> u64 {
    if id == 0 {
        1
    } else {
        id
    }
}

/// The number after another, as far as there is one.
pub open spec fn id_after(id: u64) -> int {
    if id < u64::MAX {
        id + 1
    } else {
        id as int
    }
}

/// Some interval has no end.
pub open spec fn has_open_interval(dark: Seq<DarkView>) -> bool {
    exists|i: int| 0 <= i < dark.len() && (#[trigger] dark[i]).to is None
}

/// An interval with an end, the one given if it had none.
pub open spec fn ended(d: DarkView, t: int) -> DarkView {
    match d.to {
        None => DarkView { from: d.from, to: Some(t) },
        Some(_) => d,
    }
}

/// The state of an identifier after an operation that concerns it.
pub open spec fn entered(s: StateView, op: OpView) -> StateView {
    match op {
        OpView::RegisterEntry { entry, .. } => StateView {
            entries: s.entries.push(entry.with_id(kept_id(entry.id))),
            ..s
        },
        OpView::RevokeEntry { entry_id, effective_at, reason, .. } => StateView {
            revocations: s.revocations.push(RevocationView { entry_id, effective_at, reason }),
            ..s
        },
        OpView::SetDark { effective_at, .. } => if has_open_interval(s.dark) {
            s
        } else {
            StateView { dark: s.dark.push(DarkView { from: effective_at, to: None }), ..s }
        },
        OpView::ClearDark { effective_at, .. } => StateView {
            dark: s.dark.map_values(|d: DarkView| ended(d, effective_at)),
            ..s
        },
        OpView::Supersede { successor, effective_at, authority, reason, .. } => StateView {
            supersessions: s.supersessions.push(
                SupersessionView { successor, effective_at, authority, reason },
            ),
            ..s
        },
        OpView::Correlate { .. } => s,
    }
}

/// The state of a resolver.
#[verifier::ext_equal]
pub struct LedgerView {
    pub ids: Map<Seq<char>, StateView>,
    pub correlations: Map<Seq<char>, Seq<CorrelationView>>,
    pub next_entry_id: int,
}

/// What is known of an identifier.
pub open spec fn state_of(ids: Map<Seq<char>, StateView>, key: Seq<char>) -> StateView {
    if ids.contains_key(key) {
        ids[key]
    } else {
        blank_state()
    }
}

/// The claims about an identifier.
pub open spec fn claims_of(
    correlations: Map<Seq<char>, Seq<CorrelationView>>,
    key: Seq<char>,
) -> Seq<CorrelationView> {
    if correlations.contains_key(key) {
        correlations[key]
    } else {
        Seq::empty()
    }
}

/// The claims with one more about an identifier.
pub open spec fn claimed(
    correlations: Map<Seq<char>, Seq<CorrelationView>>,
    key: Seq<char>,
    c: CorrelationView,
) -> Map<Seq<char>, Seq<CorrelationView>> {
    correlations.insert(key, claims_of(correlations, key).push(c))
}

/// The state with one identifier changed.
pub open spec fn entered_for(l: LedgerView, key: Seq<char>, op: OpView) -> LedgerView {
    LedgerView { ids: l.ids.insert(key, entered(state_of(l.ids, key), op)), ..l }
}

/// The state after a record.
pub open spec fn applied(l: LedgerView, rec: RecordView) -> LedgerView {
    match rec.op {
        OpView::RegisterEntry { identifier, entry } => {
            let after = id_after(kept_id(entry.id));
            LedgerView {
                next_entry_id: if after > l.next_entry_id {
                    after
                } else {
                    l.next_entry_id
                },
                ..entered_for(l, identifier, rec.op)
            }
        },
        OpView::RevokeEntry { identifier, .. } => entered_for(l, identifier, rec.op),
        OpView::SetDark { identifier, .. } => entered_for(l, identifier, rec.op),
        OpView::ClearDark { identifier, .. } => entered_for(l, identifier, rec.op),
        OpView::Supersede { identifier, .. } => entered_for(l, identifier, rec.op),
        OpView::Correlate { identifier_a, identifier_b, assertor, evidence, direction } => {
            let from_a = CorrelationView {
                other: identifier_b,
                assertor,
                evidence,
                direction,
                recorded_at: rec.recorded_at,
            };
            let from_b = CorrelationView { other: identifier_a, ..from_a };
            LedgerView {
                correlations: claimed(
                    claimed(l.correlations, identifier_a, from_a),
                    identifier_b,
                    from_b,
                ),
                ..l
            }
        },
    }
}

/// The state of a resolver without a history.
pub open spec fn fresh_ledger() -> LedgerView {
    LedgerView { ids: Map::empty(), correlations: Map::empty(), next_entry_id: 1 }
}

/// The state that a history leads to.
pub open spec fn replayed(log: Seq<RecordView>) -> LedgerView
    decreases log.len(),
{
    if log.len() == 0 {
        fresh_ledger()
    } else {
        applied(replayed(log.drop_last()), log.last())
    }
}

// ---------------------------------------------------------------------------
// Looking up
// ---------------------------------------------------------------------------

/// The answer to a public lookup.
#[derive(Debug, PartialEq, Eq)]
pub enum Lookup {
    /// Dark at that instant: nothing may be said.
    Dark,
    /// The entries in force.
    Resolved(Vec<LinkEntry>),
    /// Known here, with nothing in force at that instant.
    KnownEmpty,
    /// Never registered here.
    Absent,
}

/// What a [`Lookup`] stands for.
#[verifier::ext_equal]
pub enum AnswerView {
    Dark,
    Resolved(Seq<EntryView>),
    KnownEmpty,
    Absent,
}

impl View for Lookup {
    type V = AnswerView;

    open spec fn view(&self) -> AnswerView {
        match *self {
            Lookup::Dark => AnswerView::Dark,
            Lookup::Resolved(v) => AnswerView::Resolved(entry::entry_views(v@)),
            Lookup::KnownEmpty => AnswerView::KnownEmpty,
            Lookup::Absent => AnswerView::Absent,
        }
    }
}

/// An identity is denied inside its dark intervals, and before each of them as
/// well: the transition and what came before it disappear together.
pub open spec fn is_denied(dark: Seq<DarkView>, t: int) -> bool {
    exists|i: int|
        0 <= i < dark.len() && ((#[trigger] dark[i]).contains(t) || t < dark[i].from)
}

/// An entry is revoked at the instant `t`.
pub open spec fn is_revoked(revocations: Seq<RevocationView>, id: u64, t: int) -> bool {
    exists|i: int|
        0 <= i < revocations.len() && (#[trigger] revocations[i]).entry_id == id
            && revocations[i].effective_at <= t
}

/// An entry is in force at the instant `t`.
pub open spec fn in_force(s: StateView, e: EntryView, t: int) -> bool {
    e.valid_at(t) && !is_revoked(s.revocations, e.id, t)
}

/// The entries in force at the instant `t`, in the order of registration.
pub open spec fn effective(s: StateView, t: int) -> Seq<EntryView> {
    s.entries.filter(|e: EntryView| in_force(s, e, t))
}

/// The answer to a public lookup at the instant `t`.
pub open spec fn answer(l: LedgerView, key: Seq<char>, t: int) -> AnswerView {
    if !l.ids.contains_key(key) {
        AnswerView::Absent
    } else if is_denied(l.ids[key].dark, t) {
        AnswerView::Dark
    } else if effective(l.ids[key], t).len() == 0 {
        AnswerView::KnownEmpty
    } else {
        AnswerView::Resolved(effective(l.ids[key], t))
    }
}

/// The last of the rotations that have taken effect at the instant `t`.
pub open spec fn successor_at(v: Seq<SupersessionView>, t: int) -> Option<SupersessionView>
    decreases v.len(),
{
    if v.len() == 0 {
        None
    } else if v.last().effective_at <= t {
        Some(v.last())
    } else {
        successor_at(v.drop_last(), t)
    }
}

/// The rotation of an identifier that is in effect at the instant `t`.
pub open spec fn rotation_at(l: LedgerView, key: Seq<char>, t: int) -> Option<SupersessionView> {
    successor_at(state_of(l.ids, key).supersessions, t)
}

/// The claims about an identifier that were on record at the instant `t`.
pub open spec fn claims_at(l: LedgerView, key: Seq<char>, t: int) -> Seq<CorrelationView> {
    claims_of(l.correlations, key).filter(|c: CorrelationView| c.recorded_at <= t)
}

/// The first revocation of an entry.
pub open spec fn first_revocation(v: Seq<RevocationView>, id: u64) -> Option<RevocationView>
    decreases v.len(),
{
    if v.len() == 0 {
        None
    } else if v[0].entry_id == id {
        Some(v[0])
    } else {
        first_revocation(v.skip(1), id)
    }
}

// ---------------------------------------------------------------------------
// Administrative views
// ---------------------------------------------------------------------------

/// The annotation of a revoked entry.
pub open spec fn revocation_json(r: RevocationView) -> JsonValue {
    JsonValue::Object(
        Map::empty().insert("effectiveAt"@, JsonValue::Str(time::stamp(r.effective_at))).insert(
            "reason"@,
            JsonValue::Str(r.reason),
        ),
    )
}

/// An entry with the annotation of its revocation.
pub open spec fn annotated_json(e: EntryView, revocations: Seq<RevocationView>) -> JsonValue {
    match first_revocation(revocations, e.id) {
        Some(r) => JsonValue::Object(entry::entry_fields(e).insert("revoked"@, revocation_json(r))),
        None => entry::entry_json(e),
    }
}

/// The JSON form of a dark interval.
pub open spec fn dark_json(d: DarkView) -> JsonValue {
    JsonValue::Object(
        Map::empty().insert("from"@, JsonValue::Str(time::stamp(d.from))).insert(
            "to"@,
            match d.to {
                Some(t) => JsonValue::Str(time::stamp(t)),
                None => JsonValue::Null,
            },
        ),
    )
}

/// The full state of an identifier as an administrator sees it.
pub open spec fn state_json(key: Seq<char>, s: StateView, records: nat) -> JsonValue {
    JsonValue::Object(
        Map::empty().insert("identifier"@, JsonValue::Str(key)).insert(
            "entries"@,
            JsonValue::Array(
                s.entries.map_values(|e: EntryView| annotated_json(e, s.revocations)),
            ),
        ).insert(
            "darkIntervals"@,
            JsonValue::Array(s.dark.map_values(|d: DarkView| dark_json(d))),
        ).insert("recordCount"@, JsonValue::Number(records as u64)),
    )
}

/// A page of the history.
pub open spec fn page(log: Seq<RecordView>, limit: nat, offset: nat) -> Seq<RecordView> {
    if offset >= log.len() {
        Seq::empty()
    } else if offset + limit >= log.len() {
        log.skip(offset as int)
    } else {
        log.subrange(offset as int, (offset + limit) as int)
    }
}

/// A page of the history in JSON.
pub open spec fn page_json(log: Seq<RecordView>, limit: nat, offset: nat) -> JsonValue {
    JsonValue::Object(
        Map::empty().insert("total"@, JsonValue::Number(log.len() as u64)).insert(
            "offset"@,
            JsonValue::Number(offset as u64),
        ).insert(
            "records"@,
            JsonValue::Array(
                page(log, limit, offset).map_values(|r: RecordView| record::record_json(r)),
            ),
        ),
    )
}

// ---------------------------------------------------------------------------
// The store
// ---------------------------------------------------------------------------

/// What an upstream resolver answered, and when.
#[derive(Debug)]
pub struct CacheEntry {
    pub fetched_at: Timestamp,
    pub entries: Vec<LinkEntry>,
}

/// What a [`CacheEntry`] stands for.
#[verifier::ext_equal]
pub struct CacheView {
    pub fetched_at: int,
    pub entries: Seq<EntryView>,
}

impl View for CacheEntry {
    type V = CacheView;

    open spec fn view(&self) -> CacheView {
        CacheView { fetched_at: self.fetched_at.secs as int, entries: entry::entry_views(self.entries@) }
    }
}

impl Clone for CacheEntry {
    fn clone(&self) -> (r: CacheEntry)
        ensures
            r@ == self@,
    {
        CacheEntry { fetched_at: self.fetched_at, entries: copy_entries(&self.entries) }
    }
}

/// The store with its history and its cache.
pub struct Store {
    ids: Shelf<IdentifierState>,
    correlations: Shelf<Vec<Correlation>>,
    log: Vec<LogRecord>,
    next_entry_id: u64,
    cache: Shelf<CacheEntry>,
}

/// What a [`Store`] stands for.
#[verifier::ext_equal]
pub struct StoreView {
    pub ledger: LedgerView,
    pub log: Seq<RecordView>,
    pub cache: Map<Seq<char>, CacheView>,
}

/// The state is what the history says.
pub open spec fn is_consistent(v: StoreView) -> bool {
    v.ledger == replayed(v.log)
}

/// A store without a history.
pub open spec fn fresh_store() -> StoreView {
    StoreView { ledger: fresh_ledger(), log: Seq::empty(), cache: Map::empty() }
}

/// `n` more records fit into a history numbered in 64 bits.
pub open spec fn has_room(v: StoreView, n: nat) -> bool {
    v.log.len() + n <= u64::MAX
}

/// `n` more entry numbers fit into 64 bits.
pub open spec fn has_numbers(v: StoreView, n: nat) -> bool {
    v.ledger.next_entry_id + n <= u64::MAX
}

/// The store after a record that exists already.
pub open spec fn adopted(v: StoreView, rec: RecordView) -> StoreView {
    StoreView { ledger: applied(v.ledger, rec), log: v.log.push(rec), ..v }
}

/// The record of an operation at the instant `now`: the next in sequence.
pub open spec fn record_for(v: StoreView, op: OpView, now: int) -> RecordView {
    RecordView { seq: (v.log.len() + 1) as u64, recorded_at: now, op }
}

/// The store after an operation recorded at the instant `now`.
pub open spec fn recorded(v: StoreView, op: OpView, now: int) -> StoreView {
    adopted(v, record_for(v, op, now))
}

/// Entries numbered from a first number on.
pub open spec fn numbered(entries: Seq<EntryView>, first: int) -> Seq<EntryView> {
    Seq::new(entries.len(), |i: int| entries[i].with_id((first + i) as u64))
}

/// The store after the registration of entries, one by one, each under the
/// next free number.
pub open spec fn registering(
    v: StoreView,
    identifier: Seq<char>,
    entries: Seq<EntryView>,
    now: int,
) -> StoreView
    decreases entries.len(),
{
    if entries.len() == 0 {
        v
    } else {
        let before = registering(v, identifier, entries.drop_last(), now);
        recorded(
            before,
            OpView::RegisterEntry {
                identifier,
                entry: entries.last().with_id(before.ledger.next_entry_id as u64),
            },
            now,
        )
    }
}

impl Store {
    /// Each key of each map has a place of its own.
    pub closed spec fn is_shelved(&self) -> bool {
        self.ids.is_sound() && self.correlations.is_sound() && self.cache.is_sound()
    }

    /// The invariant of a store.
    pub open spec fn is_sound(&self) -> bool {
        self.is_shelved() && is_consistent(self@)
    }
}

impl View for Store {
    type V = StoreView;

    closed spec fn view(&self) -> StoreView {
        StoreView {
            ledger: LedgerView {
                ids: self.ids@.map_values(|s: IdentifierState| s@),
                correlations: self.correlations@.map_values(
                    |v: Vec<Correlation>| correlation_views(v@),
                ),
                next_entry_id: self.next_entry_id as int,
            },
            log: record::record_views(self.log@),
            cache: self.cache@.map_values(|c: CacheEntry| c@),
        }
    }
}

// ---------------------------------------------------------------------------
// Changing the store
// ---------------------------------------------------------------------------

fn open_interval(dark: &Vec<DarkInterval>) -> (r: bool)
    ensures
        r == has_open_interval(dark@.map_values(|d: DarkInterval| d@)),
{
    let ghost all = dark@.map_values(|d: DarkInterval| d@);
    let mut i: usize = 0;
    while i < dark.len()
        invariant
            i <= dark.len(),
            all == dark@.map_values(|d: DarkInterval| d@),
            forall|k: int| 0 <= k < i ==> (#[trigger] all[k]).to is Some,
        decreases dark.len() - i,
    {
        assert(all[i as int] == dark@[i as int]@);
        if dark[i].to.is_none() {
            return true;
        }
        i += 1;
    }
    false
}

fn end_intervals(dark: &Vec<DarkInterval>, t: Timestamp) -> (r: Vec<DarkInterval>)
    ensures
        r@.map_values(|d: DarkInterval| d@) == dark@.map_values(
            |d: DarkInterval| d@,
        ).map_values(|d: DarkView| ended(d, t.secs as int)),
{
    let ghost all = dark@.map_values(|d: DarkInterval| d@).map_values(
        |d: DarkView| ended(d, t.secs as int),
    );
    let mut out: Vec<DarkInterval> = Vec::new();
    let mut i: usize = 0;
    while i < dark.len()
        invariant
            i <= dark.len(),
            all == dark@.map_values(|d: DarkInterval| d@).map_values(
                |d: DarkView| ended(d, t.secs as int),
            ),
            out@.map_values(|d: DarkInterval| d@) == all.take(i as int),
        decreases dark.len() - i,
    {
        let d = dark[i];
        let ended_d = match d.to {
            None => DarkInterval { from: d.from, to: Some(t) },
            Some(_) => d,
        };
        let ghost had = out@;
        out.push(ended_d);
        i += 1;
        assert(ended_d@ == all[i - 1]);
        assert(out@.map_values(|d: DarkInterval| d@) =~= had.map_values(
            |d: DarkInterval| d@,
        ).push(ended_d@));
        assert(all.take(i as int) =~= all.take(i - 1).push(all[i - 1]));
    }
    assert(all.take(i as int) =~= all);
    out
}

/// Change the state of one identifier.
fn enter(state: &mut IdentifierState, op: &Op)
    ensures
        final(state)@ == entered(old(state)@, op@),
{
    let ghost before = state@;
    match op {
        Op::RegisterEntry { entry, .. } => {
            let mut kept = entry.clone();
            if kept.id == 0 {
                kept.id = 1;
            }
            state.entries.push(kept);
            assert(state@.entries =~= before.entries.push(kept@));
        },
        Op::RevokeEntry { entry_id, effective_at, reason, .. } => {
            state.revocations.push((*entry_id, *effective_at, reason.clone()));
            assert(state@.revocations =~= entered(before, op@).revocations);
        },
        Op::SetDark { effective_at, .. } => {
            if !open_interval(&state.dark) {
                state.dark.push(DarkInterval { from: *effective_at, to: None });
                assert(state@.dark =~= entered(before, op@).dark);
            }
        },
        Op::ClearDark { effective_at, .. } => {
            let ended_all = end_intervals(&state.dark, *effective_at);
            state.dark = ended_all;
        },
        Op::Supersede { successor, effective_at, authority, reason, .. } => {
            state.supersessions.push(
                Supersession {
                    successor: successor.clone(),
                    effective_at: *effective_at,
                    authority: authority.clone(),
                    reason: reason.clone(),
                },
            );
            assert(state@.supersessions =~= entered(before, op@).supersessions);
        },
        Op::Correlate { .. } => {},
    }
    assert(state@ =~= entered(before, op@));
}

/// Change the state of the identifier with this key.
fn enter_at(ids: &mut Shelf<IdentifierState>, key: &str, op: &Op)
    requires
        old(ids).is_sound(),
    ensures
        final(ids).is_sound(),
        final(ids)@.map_values(|s: IdentifierState| s@) == ({
            let before = old(ids)@.map_values(|s: IdentifierState| s@);
            before.insert(key@, entered(state_of(before, key@), op@))
        }),
{
    let ghost f = |s: IdentifierState| s@;
    let ghost before = ids@.map_values(f);
    if ids.get(key).is_none() {
        let blank = IdentifierState::default();
        ids.insert(key, blank);
    }
    let state = ids.get_mut(key);
    enter(state, op);
    assert(ids@.map_values(f) =~= before.insert(key@, entered(state_of(before, key@), op@)));
}

/// Add a claim about the identifier with this key.
fn claim_at(claims: &mut Shelf<Vec<Correlation>>, key: &str, c: Correlation)
    requires
        old(claims).is_sound(),
    ensures
        final(claims).is_sound(),
        final(claims)@.map_values(|v: Vec<Correlation>| correlation_views(v@)) == claimed(
            old(claims)@.map_values(|v: Vec<Correlation>| correlation_views(v@)),
            key@,
            c@,
        ),
{
    let ghost f = |v: Vec<Correlation>| correlation_views(v@);
    let ghost before = claims@.map_values(f);
    if claims.get(key).is_none() {
        let none: Vec<Correlation> = Vec::new();
        assert(correlation_views(none@) =~= Seq::empty());
        claims.insert(key, none);
    }
    let list = claims.get_mut(key);
    let ghost had = list@;
    list.push(c);
    assert(correlation_views(had.push(c)) =~= correlation_views(had).push(c@));
    assert(claims@.map_values(f) =~= claimed(before, key@, c@));
}

impl Store {
    /// A store without a history.
    pub fn new() -> (r: Store)
        ensures
            r.is_sound(),
            r@ == fresh_store(),
    {
        let r = Store {
            ids: Shelf::new(),
            correlations: Shelf::new(),
            log: Vec::new(),
            next_entry_id: 1,
            cache: Shelf::new(),
        };
        assert(r@ =~~= fresh_store());
        r
    }

    /// Apply a record to the state.
    fn apply(&mut self, rec: &LogRecord)
        requires
            old(self).is_shelved(),
        ensures
            final(self).is_shelved(),
            final(self)@ == (StoreView { ledger: applied(old(self)@.ledger, rec@), ..old(self)@ }),
    {
        match &rec.op {
            Op::RegisterEntry { identifier, entry } => {
                let id: u64 = if entry.id == 0 {
                    1
                } else {
                    entry.id
                };
                let after: u64 = if id < u64::MAX {
                    id + 1
                } else {
                    id
                };
                if after > self.next_entry_id {
                    self.next_entry_id = after;
                }
                enter_at(&mut self.ids, identifier.as_str(), &rec.op);
            },
            Op::RevokeEntry { identifier, .. } => {
                enter_at(&mut self.ids, identifier.as_str(), &rec.op);
            },
            Op::SetDark { identifier, .. } => {
                enter_at(&mut self.ids, identifier.as_str(), &rec.op);
            },
            Op::ClearDark { identifier, .. } => {
                enter_at(&mut self.ids, identifier.as_str(), &rec.op);
            },
            Op::Supersede { identifier, .. } => {
                enter_at(&mut self.ids, identifier.as_str(), &rec.op);
            },
            Op::Correlate { identifier_a, identifier_b, assertor, evidence, direction } => {
                let from_a = Correlation {
                    other: identifier_b.clone(),
                    assertor: assertor.clone(),
                    evidence: evidence.clone(),
                    direction: direction.clone(),
                    recorded_at: rec.recorded_at,
                };
                let from_b = Correlation {
                    other: identifier_a.clone(),
                    assertor: assertor.clone(),
                    evidence: evidence.clone(),
                    direction: direction.clone(),
                    recorded_at: rec.recorded_at,
                };
                claim_at(&mut self.correlations, identifier_a.as_str(), from_a);
                claim_at(&mut self.correlations, identifier_b.as_str(), from_b);
            },
        }
    }

    /// Append a record that exists already, and apply it.
    pub fn adopt(&mut self, rec: LogRecord)
        requires
            old(self).is_sound(),
        ensures
            final(self).is_sound(),
            final(self)@ == adopted(old(self)@, rec@),
    {
        let ghost before = self@;
        self.apply(&rec);
        let ghost had = self.log@;
        self.log.push(rec);
        assert(record::record_views(self.log@) =~= record::record_views(had).push(rec@));
        assert(self@ =~= adopted(before, rec@));
        assert(self@.log.drop_last() =~= before.log);
    }

    /// Record an operation at the instant `now`.
    pub fn record_at(&mut self, op: Op, now: Timestamp) -> (r: LogRecord)
        requires
            old(self).is_sound(),
            old(self)@.log.len() < u64::MAX,
        ensures
            final(self).is_sound(),
            final(self)@ == recorded(old(self)@, op@, now.secs as int),
            r@ == record_for(old(self)@, op@, now.secs as int),
    {
        let seq: u64 = self.log.len() as u64 + 1;
        let rec = LogRecord { seq, recorded_at: now, op };
        let copy = rec.clone();
        self.adopt(rec);
        copy
    }

    /// Record an operation now.
    pub fn record(&mut self, op: Op) -> (r: LogRecord)
        requires
            old(self).is_sound(),
            old(self)@.log.len() < u64::MAX,
        ensures
            final(self).is_sound(),
            time::is_clock_time(r@.recorded_at),
            r@ == record_for(old(self)@, op@, r@.recorded_at),
            final(self)@ == recorded(old(self)@, op@, r@.recorded_at),
    {
        let now = Timestamp::now();
        self.record_at(op, now)
    }
}

/// Entry numbers start at 1.
pub proof fn lemma_next_id_is_positive(log: Seq<RecordView>)
    ensures
        replayed(log).next_entry_id >= 1,
    decreases log.len(),
{
    if log.len() > 0 {
        lemma_next_id_is_positive(log.drop_last());
    }
}

/// Registering takes one record and one number for each entry.
pub proof fn lemma_registering_counts(
    v: StoreView,
    identifier: Seq<char>,
    entries: Seq<EntryView>,
    now: int,
)
    requires
        has_room(v, entries.len()),
        has_numbers(v, entries.len()),
        v.ledger.next_entry_id >= 1,
    ensures
        ({
            let after = registering(v, identifier, entries, now);
            &&& after.log.len() == v.log.len() + entries.len()
            &&& after.ledger.next_entry_id == v.ledger.next_entry_id + entries.len()
        }),
    decreases entries.len(),
{
    if entries.len() > 0 {
        lemma_registering_counts(v, identifier, entries.drop_last(), now);
    }
}

impl Store {
    /// Register entries for an identifier at the instant `now`, each under the
    /// next free number.
    pub fn register_at(&mut self, identifier: &str, entries: Vec<LinkEntry>, now: Timestamp) -> (r:
        Vec<LinkEntry>)
        requires
            old(self).is_sound(),
            has_room(old(self)@, entries@.len()),
            has_numbers(old(self)@, entries@.len()),
        ensures
            final(self).is_sound(),
            final(self)@ == registering(
                old(self)@,
                identifier@,
                entry::entry_views(entries@),
                now.secs as int,
            ),
            entry::entry_views(r@) == numbered(
                entry::entry_views(entries@),
                old(self)@.ledger.next_entry_id,
            ),
    {
        let ghost start = self@;
        let ghost views = entry::entry_views(entries@);
        let ghost t = now.secs as int;
        let mut out: Vec<LinkEntry> = Vec::new();
        let mut i: usize = 0;
        proof {
            lemma_next_id_is_positive(start.log);
            assert(views.take(0) =~= Seq::empty());
        }
        while i < entries.len()
            invariant
                i <= entries.len(),
                views == entry::entry_views(entries@),
                t == now.secs as int,
                self.is_sound(),
                has_room(start, entries@.len()),
                has_numbers(start, entries@.len()),
                start.ledger.next_entry_id >= 1,
                self@ == registering(start, identifier@, views.take(i as int), t),
                entry::entry_views(out@) == numbered(views, start.ledger.next_entry_id).take(i as int),
            decreases entries.len() - i,
        {
            proof {
                lemma_registering_counts(start, identifier@, views.take(i as int), t);
            }
            let mut entry = entries[i].clone();
            entry.id = self.next_entry_id;
            let kept = entry.clone();
            let ghost had = out@;
            out.push(kept);
            self.record_at(
                Op::RegisterEntry { identifier: identifier.to_string(), entry },
                now,
            );
            i += 1;
            proof {
                assert(views[i - 1] == entries@[i - 1]@);
                assert(views.take(i as int).drop_last() =~= views.take(i - 1));
                assert(entry::entry_views(out@) =~= entry::entry_views(had).push(kept@));
                let all = numbered(views, start.ledger.next_entry_id);
                assert(all.take(i as int) =~= all.take(i - 1).push(all[i - 1]));
            }
        }
        assert(views.take(i as int) =~= views);
        assert(entry::entry_views(out@) =~= numbered(views, start.ledger.next_entry_id));
        out
    }

    /// Register entries for an identifier now.
    pub fn register(&mut self, identifier: &str, entries: Vec<LinkEntry>) -> (r: Vec<LinkEntry>)
        requires
            old(self).is_sound(),
            has_room(old(self)@, entries@.len()),
            has_numbers(old(self)@, entries@.len()),
        ensures
            final(self).is_sound(),
            exists|now: int|
                time::is_clock_time(now) && final(self)@ == #[trigger] registering(
                    old(self)@,
                    identifier@,
                    entry::entry_views(entries@),
                    now,
                ),
            entry::entry_views(r@) == numbered(
                entry::entry_views(entries@),
                old(self)@.ledger.next_entry_id,
            ),
    {
        let now = Timestamp::now();
        self.register_at(identifier, entries, now)
    }

    /// Revoke an entry, recorded at the instant `now`.
    pub fn revoke_at(
        &mut self,
        identifier: &str,
        entry_id: u64,
        effective_at: Timestamp,
        reason: &str,
        now: Timestamp,
    )
        requires
            old(self).is_sound(),
            old(self)@.log.len() < u64::MAX,
        ensures
            final(self).is_sound(),
            final(self)@ == recorded(
                old(self)@,
                OpView::RevokeEntry {
                    identifier: identifier@,
                    entry_id,
                    effective_at: effective_at.secs as int,
                    reason: reason@,
                },
                now.secs as int,
            ),
    {
        self.record_at(
            Op::RevokeEntry {
                identifier: identifier.to_string(),
                entry_id,
                effective_at,
                reason: reason.to_string(),
            },
            now,
        );
    }

    /// Revoke an entry, recorded now.
    pub fn revoke(&mut self, identifier: &str, entry_id: u64, effective_at: Timestamp, reason: &str)
        requires
            old(self).is_sound(),
            old(self)@.log.len() < u64::MAX,
        ensures
            final(self).is_sound(),
            exists|now: int|
                time::is_clock_time(now) && final(self)@ == #[trigger] recorded(
                    old(self)@,
                    OpView::RevokeEntry {
                        identifier: identifier@,
                        entry_id,
                        effective_at: effective_at.secs as int,
                        reason: reason@,
                    },
                    now,
                ),
    {
        let now = Timestamp::now();
        self.revoke_at(identifier, entry_id, effective_at, reason, now);
    }

    /// Record an identity rotation at the instant `now`.
    pub fn supersede(
        &mut self,
        identifier: &str,
        successor: &str,
        effective_at: Timestamp,
        authority: &str,
        reason: &str,
        now: Timestamp,
    ) -> (r: LogRecord)
        requires
            old(self).is_sound(),
            old(self)@.log.len() < u64::MAX,
        ensures
            final(self).is_sound(),
            ({
                let op = OpView::Supersede {
                    identifier: identifier@,
                    successor: successor@,
                    effective_at: effective_at.secs as int,
                    authority: authority@,
                    reason: reason@,
                };
                &&& final(self)@ == recorded(old(self)@, op, now.secs as int)
                &&& r@ == record_for(old(self)@, op, now.secs as int)
            }),
    {
        self.record_at(
            Op::Supersede {
                identifier: identifier.to_string(),
                successor: successor.to_string(),
                effective_at,
                authority: authority.to_string(),
                reason: reason.to_string(),
            },
            now,
        )
    }

    /// Record at the instant `now` that two identifiers denote one subject.
    pub fn correlate(
        &mut self,
        identifier_a: &str,
        identifier_b: &str,
        assertor: &str,
        evidence: &str,
        direction: &str,
        now: Timestamp,
    ) -> (r: LogRecord)
        requires
            old(self).is_sound(),
            old(self)@.log.len() < u64::MAX,
        ensures
            final(self).is_sound(),
            ({
                let op = OpView::Correlate {
                    identifier_a: identifier_a@,
                    identifier_b: identifier_b@,
                    assertor: assertor@,
                    evidence: evidence@,
                    direction: direction@,
                };
                &&& final(self)@ == recorded(old(self)@, op, now.secs as int)
                &&& r@ == record_for(old(self)@, op, now.secs as int)
            }),
    {
        self.record_at(
            Op::Correlate {
                identifier_a: identifier_a.to_string(),
                identifier_b: identifier_b.to_string(),
                assertor: assertor.to_string(),
                evidence: evidence.to_string(),
                direction: direction.to_string(),
            },
            now,
        )
    }

    /// Do `n` more records fit?
    pub fn room_for(&self, n: usize) -> (r: bool)
        ensures
            r == has_room(self@, n as nat),
    {
        self.log.len() as u64 <= u64::MAX - n as u64
    }

    /// Do `n` and `m` more records fit?
    pub fn room_for_both(&self, n: usize, m: usize) -> (r: bool)
        ensures
            r == has_room(self@, n as nat + m as nat),
    {
        self.log.len() as u128 + n as u128 + m as u128 <= u64::MAX as u128
    }

    /// Do `n` more entry numbers fit?
    pub fn numbers_for(&self, n: usize) -> (r: bool)
        ensures
            r == has_numbers(self@, n as nat),
    {
        self.next_entry_id <= u64::MAX - n as u64
    }
}

// ---------------------------------------------------------------------------
// Reading the store
// ---------------------------------------------------------------------------

fn denied(dark: &Vec<DarkInterval>, t: Timestamp) -> (r: bool)
    ensures
        r == is_denied(dark@.map_values(|d: DarkInterval| d@), t.secs as int),
{
    let ghost all = dark@.map_values(|d: DarkInterval| d@);
    let mut i: usize = 0;
    while i < dark.len()
        invariant
            i <= dark.len(),
            all == dark@.map_values(|d: DarkInterval| d@),
            forall|k: int|
                0 <= k < i ==> !(#[trigger] all[k]).contains(t.secs as int) && all[k].from
                    <= t.secs,
        decreases dark.len() - i,
    {
        assert(all[i as int] == dark@[i as int]@);
        if dark[i].contains(t) || t.secs < dark[i].from.secs {
            return true;
        }
        i += 1;
    }
    false
}

fn revoked(revocations: &Vec<(u64, Timestamp, String)>, id: u64, t: Timestamp) -> (r: bool)
    ensures
        r == is_revoked(revocation_views(revocations@), id, t.secs as int),
{
    let ghost all = revocation_views(revocations@);
    let mut i: usize = 0;
    while i < revocations.len()
        invariant
            i <= revocations.len(),
            all == revocation_views(revocations@),
            forall|k: int|
                0 <= k < i ==> !((#[trigger] all[k]).entry_id == id && all[k].effective_at
                    <= t.secs),
        decreases revocations.len() - i,
    {
        assert(all[i as int].entry_id == revocations@[i as int].0);
        if revocations[i].0 == id && revocations[i].1.secs <= t.secs {
            return true;
        }
        i += 1;
    }
    false
}

fn effective_entries(state: &IdentifierState, t: Timestamp) -> (r: Vec<LinkEntry>)
    ensures
        entry::entry_views(r@) == effective(state@, t.secs as int),
{
    let ghost all = state@.entries;
    let ghost p = |e: EntryView| in_force(state@, e, t.secs as int);
    let mut out: Vec<LinkEntry> = Vec::new();
    let mut i: usize = 0;
    proof {
        reveal(Seq::filter);
        assert(all.take(0).filter(p) =~= Seq::empty());
    }
    while i < state.entries.len()
        invariant
            i <= state.entries.len(),
            all == entry::entry_views(state.entries@),
            all == state@.entries,
            p == (|e: EntryView| in_force(state@, e, t.secs as int)),
            entry::entry_views(out@) == all.take(i as int).filter(p),
        decreases state.entries.len() - i,
    {
        proof {
            reveal(Seq::filter);
            assert(all.take(i + 1).drop_last() =~= all.take(i as int));
            assert(all.take(i + 1).last() == state.entries@[i as int]@);
        }
        let e = &state.entries[i];
        if e.valid_at(t) && !revoked(&state.revocations, e.id, t) {
            let kept = e.clone();
            let ghost had = out@;
            out.push(kept);
            assert(entry::entry_views(out@) =~= entry::entry_views(had).push(kept@));
        }
        i += 1;
    }
    assert(all.take(i as int) =~= all);
    out
}

fn find_revocation(revocations: &Vec<(u64, Timestamp, String)>, id: u64) -> (r: Option<usize>)
    ensures
        match r {
            Some(i) => i < revocations@.len() && first_revocation(
                revocation_views(revocations@),
                id,
            ) == Some(revocation_views(revocations@)[i as int]),
            None => first_revocation(revocation_views(revocations@), id) is None,
        },
{
    let ghost all = revocation_views(revocations@);
    let mut i: usize = 0;
    assert(all.skip(0) =~= all);
    while i < revocations.len()
        invariant
            i <= revocations.len(),
            all == revocation_views(revocations@),
            first_revocation(all, id) == first_revocation(all.skip(i as int), id),
        decreases revocations.len() - i,
    {
        assert(all.skip(i as int)[0] == all[i as int]);
        assert(all.skip(i as int).skip(1) =~= all.skip(i + 1));
        if revocations[i].0 == id {
            return Some(i);
        }
        i += 1;
    }
    None
}

fn annotated(e: &LinkEntry, revocations: &Vec<(u64, Timestamp, String)>) -> (r: Json)
    ensures
        r@ == annotated_json(e@, revocation_views(revocations@)),
{
    let form = e.to_json();
    match find_revocation(revocations, e.id) {
        Some(i) => {
            let mut f: Vec<(String, Json)> = Vec::new();
            put_text(&mut f, "effectiveAt", revocations[i].1.to_string().as_str());
            put_text(&mut f, "reason", revocations[i].2.as_str());
            match form {
                Json::Object(fields) => {
                    let mut fields = fields;
                    put(&mut fields, "revoked", Json::Object(f));
                    Json::Object(fields)
                },
                other => other,
            }
        },
        None => form,
    }
}

fn interval_json(d: &DarkInterval) -> (r: Json)
    ensures
        r@ == dark_json(d@),
{
    let mut f: Vec<(String, Json)> = Vec::new();
    put_text(&mut f, "from", d.from.to_string().as_str());
    let to = match d.to {
        Some(t) => Json::Str(t.to_string()),
        None => Json::Null,
    };
    put(&mut f, "to", to);
    Json::Object(f)
}

impl Store {
    /// The public lookup at the instant `t`.
    ///
    /// A query inside a dark interval is denied, and so is one before it: once
    /// an identity goes dark, its past is denied as well. Clearing restores
    /// service from the clear instant onward.
    pub fn lookup(&self, key: &str, t: Timestamp) -> (r: Lookup)
        requires
            self.is_sound(),
        ensures
            r@ == answer(self@.ledger, key@, t.secs as int),
    {
        let state = match self.ids.get(key) {
            Some(s) => s,
            None => return Lookup::Absent,
        };
        if denied(&state.dark, t) {
            return Lookup::Dark;
        }
        let found = effective_entries(state, t);
        assert(entry::entry_views(found@).len() == found@.len());
        if found.len() == 0 {
            Lookup::KnownEmpty
        } else {
            Lookup::Resolved(found)
        }
    }

    /// Is anything recorded for the identifier?
    pub fn knows(&self, key: &str) -> (r: bool)
        requires
            self.is_sound(),
        ensures
            r == self@.ledger.ids.contains_key(key@),
    {
        self.ids.get(key).is_some()
    }

    /// Is an entry with this number registered for the identifier?
    pub fn has_entry(&self, key: &str, id: u64) -> (r: bool)
        requires
            self.is_sound(),
        ensures
            r == holds_entry(self@.ledger, key@, id),
    {
        let state = match self.ids.get(key) {
            Some(s) => s,
            None => {
                return false;
            },
        };
        let ghost all = self@.ledger.ids[key@].entries;
        let mut i: usize = 0;
        while i < state.entries.len()
            invariant
                i <= state.entries.len(),
                all == entry::entry_views(state.entries@),
                self@.ledger.ids.contains_key(key@),
                all == self@.ledger.ids[key@].entries,
                forall|k: int| 0 <= k < i ==> (#[trigger] all[k]).id != id,
            decreases state.entries.len() - i,
        {
            assert(all[i as int] == state.entries@[i as int]@);
            if state.entries[i].id == id {
                return true;
            }
            i += 1;
        }
        false
    }

    /// The rotation of an identifier that is in effect at the instant `t`: of
    /// several the one recorded last.
    pub fn supersession_at(&self, key: &str, t: Timestamp) -> (r: Option<&Supersession>)
        requires
            self.is_sound(),
        ensures
            match r {
                Some(s) => rotation_at(self@.ledger, key@, t.secs as int) == Some(s@),
                None => rotation_at(self@.ledger, key@, t.secs as int) is None,
            },
    {
        let state = match self.ids.get(key) {
            Some(s) => s,
            None => return None,
        };
        let ghost all = state.supersessions@.map_values(|s: Supersession| s@);
        assert(self@.ledger.ids[key@] == state@);
        let mut i: usize = state.supersessions.len();
        assert(all.take(i as int) =~= all);
        while i > 0
            invariant
                i <= state.supersessions.len(),
                all == state.supersessions@.map_values(|s: Supersession| s@),
                successor_at(all, t.secs as int) == successor_at(
                    all.take(i as int),
                    t.secs as int,
                ),
                rotation_at(self@.ledger, key@, t.secs as int) == successor_at(
                    all,
                    t.secs as int,
                ),
            decreases i,
        {
            assert(all.take(i as int).drop_last() =~= all.take(i - 1));
            assert(all.take(i as int).last() == state.supersessions@[i - 1]@);
            i -= 1;
            if state.supersessions[i].effective_at.secs <= t.secs {
                return Some(&state.supersessions[i]);
            }
        }
        None
    }

    /// The claims about an identifier that were on record at the instant `t`.
    pub fn correlations_at(&self, key: &str, t: Timestamp) -> (r: Vec<Correlation>)
        requires
            self.is_sound(),
        ensures
            correlation_views(r@) == claims_at(self@.ledger, key@, t.secs as int),
    {
        let mut out: Vec<Correlation> = Vec::new();
        let ghost p = |c: CorrelationView| c.recorded_at <= t.secs as int;
        proof {
            reveal(Seq::filter);
            assert(correlation_views(out@) =~= Seq::empty());
            assert(Seq::<CorrelationView>::empty().filter(p) =~= Seq::empty());
        }
        let list = match self.correlations.get(key) {
            Some(l) => l,
            None => return out,
        };
        let ghost all = correlation_views(list@);
        let mut i: usize = 0;
        assert(all.take(0) =~= Seq::empty());
        while i < list.len()
            invariant
                i <= list.len(),
                all == correlation_views(list@),
                p == (|c: CorrelationView| c.recorded_at <= t.secs as int),
                correlation_views(out@) == all.take(i as int).filter(p),
            decreases list.len() - i,
        {
            proof {
                reveal(Seq::filter);
                assert(all.take(i + 1).drop_last() =~= all.take(i as int));
                assert(all.take(i + 1).last() == list@[i as int]@);
            }
            if list[i].recorded_at.secs <= t.secs {
                let c = list[i].clone();
                let ghost had = out@;
                out.push(c);
                assert(correlation_views(out@) =~= correlation_views(had).push(c@));
            }
            i += 1;
        }
        assert(all.take(i as int) =~= all);
        out
    }

    /// The full state of an identifier as an administrator sees it: entries not
    /// yet or no longer in force among them, revocations annotated.
    pub fn admin_view(&self, key: &str) -> (r: Option<Json>)
        requires
            self.is_sound(),
        ensures
            match r {
                Some(j) => self@.ledger.ids.contains_key(key@) && j@ == state_json(
                    key@,
                    self@.ledger.ids[key@],
                    self@.log.len(),
                ),
                None => !self@.ledger.ids.contains_key(key@),
            },
    {
        let state = match self.ids.get(key) {
            Some(s) => s,
            None => return None,
        };
        let ghost view = state@;
        let ghost forms = view.entries.map_values(|e: EntryView| annotated_json(e, view.revocations));
        let mut entries: Vec<Json> = Vec::new();
        let mut i: usize = 0;
        while i < state.entries.len()
            invariant
                i <= state.entries.len(),
                view == state@,
                forms == view.entries.map_values(
                    |e: EntryView| annotated_json(e, view.revocations),
                ),
                json::items_model(entries@) == forms.take(i as int),
            decreases state.entries.len() - i,
        {
            let ghost had = entries@;
            entries.push(annotated(&state.entries[i], &state.revocations));
            i += 1;
            assert(entries@.drop_last() =~= had);
            assert(forms.take(i as int) =~= forms.take(i - 1).push(forms[i - 1]));
        }
        assert(forms.take(i as int) =~= forms);
        let ghost spans = view.dark.map_values(|d: DarkView| dark_json(d));
        let mut dark: Vec<Json> = Vec::new();
        let mut i: usize = 0;
        while i < state.dark.len()
            invariant
                i <= state.dark.len(),
                view == state@,
                spans == view.dark.map_values(|d: DarkView| dark_json(d)),
                json::items_model(dark@) == spans.take(i as int),
            decreases state.dark.len() - i,
        {
            let ghost had = dark@;
            dark.push(interval_json(&state.dark[i]));
            i += 1;
            assert(dark@.drop_last() =~= had);
            assert(spans.take(i as int) =~= spans.take(i - 1).push(spans[i - 1]));
        }
        assert(spans.take(i as int) =~= spans);
        let mut f: Vec<(String, Json)> = Vec::new();
        put_text(&mut f, "identifier", key);
        put(&mut f, "entries", Json::Array(entries));
        put(&mut f, "darkIntervals", Json::Array(dark));
        put(&mut f, "recordCount", Json::Number(self.log.len() as u64));
        Some(Json::Object(f))
    }

    /// A page of the history.
    pub fn log_json(&self, limit: usize, offset: usize) -> (r: Json)
        ensures
            r@ == page_json(self@.log, limit as nat, offset as nat),
    {
        let total: usize = self.log.len();
        let ghost log = self@.log;
        let ghost wanted = page(log, limit as nat, offset as nat);
        let ghost forms = wanted.map_values(|r: RecordView| record::record_json(r));
        let mut records: Vec<Json> = Vec::new();
        if offset < total {
            let end: usize = if limit < total - offset {
                offset + limit
            } else {
                total
            };
            let mut i: usize = offset;
            while i < end
                invariant
                    offset <= i <= end,
                    end <= self.log@.len(),
                    log == record::record_views(self.log@),
                    wanted.len() == end - offset,
                    forall|k: int| 0 <= k < wanted.len() ==> #[trigger] wanted[k] == log[offset + k],
                    forms == wanted.map_values(|r: RecordView| record::record_json(r)),
                    json::items_model(records@) == forms.take(i - offset),
                decreases end - i,
            {
                let ghost had = records@;
                assert(log[i as int] == self.log@[i as int]@);
                assert(wanted[i - offset] == log[i as int]);
                records.push(self.log[i].to_json());
                i += 1;
                assert(records@.drop_last() =~= had);
                assert(forms.take(i - offset) =~= forms.take(i - 1 - offset).push(
                    forms[i - 1 - offset],
                ));
            }
            assert(forms.take(i - offset) =~= forms);
        } else {
            assert(json::items_model(records@) =~= forms);
        }
        let mut f: Vec<(String, Json)> = Vec::new();
        put(&mut f, "total", Json::Number(total as u64));
        put(&mut f, "offset", Json::Number(offset as u64));
        put(&mut f, "records", Json::Array(records));
        Json::Object(f)
    }

    /// What the upstream answered for an identifier.
    pub fn cache_get(&self, key: &str) -> (r: Option<&CacheEntry>)
        requires
            self.is_sound(),
        ensures
            match r {
                Some(c) => self@.cache.contains_key(key@) && self@.cache[key@] == c@,
                None => !self@.cache.contains_key(key@),
            },
    {
        self.cache.get(key)
    }

    /// Keep what the upstream answered for an identifier.
    pub fn cache_put(&mut self, key: &str, entry: CacheEntry)
        requires
            old(self).is_sound(),
        ensures
            final(self).is_sound(),
            final(self)@ == (StoreView {
                cache: old(self)@.cache.insert(key@, entry@),
                ..old(self)@
            }),
    {
        let ghost before = self@;
        self.cache.insert(key, entry);
        assert(self@ =~~= (StoreView { cache: before.cache.insert(key@, entry@), ..before }));
    }

    /// The number of records.
    pub fn log_len(&self) -> (r: usize)
        ensures
            r == self@.log.len(),
    {
        self.log.len()
    }
}

/// An entry with this number is registered for the identifier.
pub open spec fn holds_entry(l: LedgerView, key: Seq<char>, id: u64) -> bool {
    l.ids.contains_key(key) && exists|i: int|
        0 <= i < l.ids[key].entries.len() && (#[trigger] l.ids[key].entries[i]).id == id
}

// ---------------------------------------------------------------------------
// The journal
// ---------------------------------------------------------------------------

/// What a line of a journal is.
pub enum LineView {
    Blank,
    Holds(RecordView),
    Broken(Seq<char>),
}

/// What a line of a journal is when it is read at the instant `now`.
pub open spec fn line_view(line: Seq<char>, now: int) -> LineView {
    if text::trim(line).len() == 0 {
        LineView::Blank
    } else {
        match json::json_parse(line) {
            Err(m) => LineView::Broken(m),
            Ok(j) => value_view(j, now),
        }
    }
}

/// What the JSON value on a line of a journal is.
pub open spec fn value_view(j: JsonValue, now: int) -> LineView {
    match record::record_of(j, now) {
        Ok(rec) => LineView::Holds(rec),
        Err(m) => LineView::Broken(m),
    }
}

/// The store after the lines of a journal: each record is adopted in turn, and
/// what holds none is passed over.
pub open spec fn replaying(v: StoreView, lines: Seq<Seq<char>>, now: int) -> StoreView
    decreases lines.len(),
{
    if lines.len() == 0 {
        v
    } else {
        let before = replaying(v, lines.drop_last(), now);
        match line_view(lines.last(), now) {
            LineView::Holds(rec) => adopted(before, rec),
            _ => before,
        }
    }
}

/// What is said of the broken lines of a journal, by the number of the line.
pub open spec fn complaints(lines: Seq<Seq<char>>, now: int) -> Seq<Seq<char>>
    decreases lines.len(),
{
    if lines.len() == 0 {
        Seq::empty()
    } else {
        let before = complaints(lines.drop_last(), now);
        match line_view(lines.last(), now) {
            LineView::Broken(m) => before.push(
                "journal line "@ + text::decimal(lines.len()) + ": "@ + m,
            ),
            _ => before,
        }
    }
}

/// The line is the journal form of the record: JSON on one line.
pub open spec fn is_line_of(line: Seq<char>, rec: RecordView) -> bool {
    &&& line == json::json_compact(record::record_json(rec))
    &&& json::reads_as(line, record::record_json(rec))
    &&& !line.contains('\n')
    &&& text::trim(line).len() > 0
}

impl LogRecord {
    /// The journal form: JSON on one line.
    pub fn to_line(&self) -> (r: String)
        ensures
            is_line_of(r@, self@),
    {
        let j = self.to_json();
        proof {
            record::lemma_record_printable(self@);
            json::lemma_printable_deeper(j@, 3, 127);
        }
        let line = print_compact(&j);
        proof {
            lemma_inked_is_not_blank(line@);
        }
        line
    }
}

proof fn lemma_inked_is_not_blank(s: Seq<char>)
    requires
        s.len() > 0,
        s[0] == '{',
    ensures
        text::trim(s).len() > 0,
    decreases s.len(),
{
    assert(text::trim_start(s) == s);
    if text::is_space(s.last()) {
        assert(s.drop_last()[0] == '{');
        lemma_inked_is_not_blank(s.drop_last());
        assert(text::trim_start(s.drop_last()) == s.drop_last());
    }
}

impl Store {
    /// Adopt the record that the JSON value on a line of a journal describes;
    /// `Err` is what is wrong with it.
    pub fn replay_value(&mut self, v: &Json, now: Timestamp) -> (r: Result<(), String>)
        requires
            old(self).is_sound(),
        ensures
            final(self).is_sound(),
            match value_view(v@, now.secs as int) {
                LineView::Holds(rec) => r is Ok && final(self)@ == adopted(old(self)@, rec),
                LineView::Broken(m) => (r matches Err(e) && e@ == m) && final(self)@ == old(
                    self,
                )@,
                LineView::Blank => false,
            },
    {
        match LogRecord::from_json_at(v, now) {
            Ok(rec) => {
                self.adopt(rec);
                Ok(())
            },
            Err(m) => Err(m),
        }
    }

    /// Replay one line of a journal.
    pub fn replay_line(&mut self, line: &str, now: Timestamp) -> (r: Result<(), String>)
        requires
            old(self).is_sound(),
        ensures
            final(self).is_sound(),
            match line_view(line@, now.secs as int) {
                LineView::Holds(rec) => r is Ok && final(self)@ == adopted(old(self)@, rec),
                LineView::Broken(m) => (r matches Err(e) && e@ == m) && final(self)@ == old(
                    self,
                )@,
                LineView::Blank => r is Ok && final(self)@ == old(self)@,
            },
    {
        let cs = chars_of(line);
        if trimmed(cs.as_slice()).len() == 0 {
            return Ok(());
        }
        match parse_json(line) {
            Ok(v) => self.replay_value(&v, now),
            Err(m) => Err(m),
        }
    }

    /// Replay the lines of a journal; the result is what is said of the broken
    /// ones.
    pub fn replay(&mut self, lines: &Vec<String>, now: Timestamp) -> (r: Vec<String>)
        requires
            old(self).is_sound(),
        ensures
            final(self).is_sound(),
            final(self)@ == replaying(old(self)@, text::strings(lines@), now.secs as int),
            text::strings(r@) == complaints(text::strings(lines@), now.secs as int),
    {
        let ghost start = self@;
        let ghost all = text::strings(lines@);
        let ghost t = now.secs as int;
        let mut out: Vec<String> = Vec::new();
        let mut i: usize = 0;
        assert(all.take(0) =~= Seq::empty());
        assert(text::strings(out@) =~= Seq::empty());
        while i < lines.len()
            invariant
                i <= lines.len(),
                all == text::strings(lines@),
                t == now.secs as int,
                self.is_sound(),
                self@ == replaying(start, all.take(i as int), t),
                text::strings(out@) == complaints(all.take(i as int), t),
            decreases lines.len() - i,
        {
            assert(all.take(i + 1).drop_last() =~= all.take(i as int));
            assert(all.take(i + 1).last() == lines@[i as int]@);
            let outcome = self.replay_line(lines[i].as_str(), now);
            i += 1;
            if let Err(m) = outcome {
                let mut s = String::new();
                s.push_str("journal line ");
                s.push_str(decimal_text(i as u64).as_str());
                s.push_str(": ");
                s.push_str(m.as_str());
                assert(s@ =~= "journal line "@ + text::decimal(i as nat) + ": "@ + m@);
                let ghost had = out@;
                out.push(s);
                assert(text::strings(out@) =~= text::strings(had).push(s@));
            }
        }
        assert(all.take(i as int) =~= all);
        out
    }

    /// A store that starts from a journal, and what is said of its broken
    /// lines.
    pub fn open(journal: &Vec<String>, now: Timestamp) -> (r: (Store, Vec<String>))
        ensures
            r.0.is_sound(),
            r.0@ == replaying(fresh_store(), text::strings(journal@), now.secs as int),
            text::strings(r.1@) == complaints(text::strings(journal@), now.secs as int),
    {
        let mut store = Store::new();
        let said = store.replay(journal, now);
        (store, said)
    }

    /// The journal forms of the records after the first `n`.
    pub fn journal_from(&self, n: usize) -> (r: Vec<String>)
        requires
            n <= self@.log.len(),
        ensures
            r@.len() == self@.log.len() - n,
            forall|i: int|
                0 <= i < r@.len() ==> is_line_of(#[trigger] r@[i]@, self@.log[n + i]),
    {
        let mut out: Vec<String> = Vec::new();
        let mut i: usize = n;
        while i < self.log.len()
            invariant
                n <= i <= self.log.len(),
                self@.log == record::record_views(self.log@),
                out@.len() == i - n,
                forall|k: int|
                    0 <= k < out@.len() ==> is_line_of(#[trigger] out@[k]@, self@.log[n + k]),
            decreases self.log.len() - i,
        {
            assert(self@.log[i as int] == self.log@[i as int]@);
            out.push(self.log[i].to_line());
            i += 1;
        }
        out
    }
}

// ---------------------------------------------------------------------------
// Laws
// ---------------------------------------------------------------------------

/// A journal gives back what was written to it: the lines of a history, read
/// into a store without one, lead to that history and to the state it leads to,
/// and nothing is said against a line.
pub proof fn law_journal_replays(log: Seq<RecordView>, lines: Seq<Seq<char>>, now: int)
    requires
        lines.len() == log.len(),
        forall|i: int| 0 <= i < log.len() ==> is_line_of(#[trigger] lines[i], log[i]),
        record::all_recordable(log),
    ensures
        replaying(fresh_store(), lines, now).log == log,
        replaying(fresh_store(), lines, now).ledger == replayed(log),
        complaints(lines, now) == Seq::<Seq<char>>::empty(),
    decreases log.len(),
{
    if log.len() > 0 {
        let n = log.len() - 1;
        assert forall|i: int| 0 <= i < n implies is_line_of(
            #[trigger] lines.drop_last()[i],
            log.drop_last()[i],
        ) by {
            assert(is_line_of(lines[i], log[i]));
        }
        law_journal_replays(log.drop_last(), lines.drop_last(), now);
        assert(is_line_of(lines[n], log[n]));
        assert(record::is_recordable(log[n]));
        record::law_record_reads_back(log[n], now);
        assert(log.drop_last().push(log[n]) =~= log);
    } else {
        assert(log =~= Seq::empty());
    }
}

/// Registration adds to what an identifier has and changes nothing else: its
/// entries grow by the new ones under fresh numbers, its revocations, dark
/// intervals and successors stay, every other identifier stays, and the
/// history grows by one record for each entry.
pub proof fn law_registering_adds(
    v: StoreView,
    identifier: Seq<char>,
    entries: Seq<EntryView>,
    now: int,
)
    requires
        is_consistent(v),
        has_room(v, entries.len()),
        has_numbers(v, entries.len()),
    ensures
        ({
            let after = registering(v, identifier, entries, now);
            let s = state_of(v.ledger.ids, identifier);
            &&& is_consistent(after)
            &&& state_of(after.ledger.ids, identifier) == (StateView {
                entries: s.entries + numbered(entries, v.ledger.next_entry_id),
                ..s
            })
            &&& after.ledger.ids.remove(identifier) == v.ledger.ids.remove(identifier)
            &&& after.log.len() == v.log.len() + entries.len()
            &&& v.log.is_prefix_of(after.log)
            &&& after.ledger.correlations == v.ledger.correlations
            &&& after.cache == v.cache
        }),
    decreases entries.len(),
{
    lemma_next_id_is_positive(v.log);
    let first = v.ledger.next_entry_id;
    let s = state_of(v.ledger.ids, identifier);
    if entries.len() > 0 {
        law_registering_adds(v, identifier, entries.drop_last(), now);
        lemma_registering_counts(v, identifier, entries.drop_last(), now);
        let before = registering(v, identifier, entries.drop_last(), now);
        let after = registering(v, identifier, entries, now);
        let id = before.ledger.next_entry_id as u64;
        assert(numbered(entries, first) =~= numbered(entries.drop_last(), first).push(
            entries.last().with_id(id),
        ));
        assert(state_of(after.ledger.ids, identifier).entries =~= s.entries + numbered(
            entries,
            first,
        ));
        assert(after.ledger.ids.remove(identifier) =~= before.ledger.ids.remove(identifier));
        assert(after.log.drop_last() =~= before.log);
        assert(v.log =~= after.log.subrange(0, v.log.len() as int)) by {
            assert(v.log =~= before.log.subrange(0, v.log.len() as int));
        }
    } else {
        assert(s.entries + numbered(entries, first) =~= s.entries);
        assert(v.log =~= v.log.subrange(0, v.log.len() as int));
    }
}

/// The history is append-only: recording keeps every earlier record in its
/// place, adds one with the next sequence number, and leaves the state what the
/// history says.
pub proof fn law_recording_appends(v: StoreView, op: OpView, now: int)
    requires
        is_consistent(v),
    ensures
        ({
            let after = recorded(v, op, now);
            &&& is_consistent(after)
            &&& after.log == v.log.push(record_for(v, op, now))
            &&& v.log.is_prefix_of(after.log)
            &&& after.cache == v.cache
        }),
{
    let after = recorded(v, op, now);
    assert(after.log.drop_last() =~= v.log);
    assert(v.log =~= after.log.subrange(0, v.log.len() as int));
}

/// An entry and its revocation are stamped: whatever is revoked later, the
/// entries in force before that instant stay the same.
pub proof fn law_revocation_keeps_the_past(
    v: StoreView,
    identifier: Seq<char>,
    entry_id: u64,
    effective_at: int,
    reason: Seq<char>,
    now: int,
    key: Seq<char>,
    t: int,
)
    requires
        t < effective_at,
        v.ledger.ids.contains_key(identifier),
    ensures
        answer(
            recorded(
                v,
                OpView::RevokeEntry { identifier, entry_id, effective_at, reason },
                now,
            ).ledger,
            key,
            t,
        ) == answer(v.ledger, key, t),
{
    let op = OpView::RevokeEntry { identifier, entry_id, effective_at, reason };
    let after = recorded(v, op, now).ledger;
    if key == identifier {
        let s = v.ledger.ids[key];
        let s2 = after.ids[key];
        assert forall|e: EntryView| in_force(s2, e, t) == in_force(s, e, t) by {
            lemma_later_revocation(s.revocations, s2.revocations.last(), e.id, t);
        }
        let p = |e: EntryView| in_force(s, e, t);
        let p2 = |e: EntryView| in_force(s2, e, t);
        assert(p =~= p2);
    }
}

proof fn lemma_later_revocation(v: Seq<RevocationView>, r: RevocationView, id: u64, t: int)
    requires
        t < r.effective_at,
    ensures
        is_revoked(v.push(r), id, t) == is_revoked(v, id, t),
{
    if is_revoked(v, id, t) {
        let i = choose|i: int|
            0 <= i < v.len() && (#[trigger] v[i]).entry_id == id && v[i].effective_at <= t;
        assert(v.push(r)[i] == v[i]);
    }
    if is_revoked(v.push(r), id, t) {
        let i = choose|i: int|
            0 <= i < v.push(r).len() && (#[trigger] v.push(r)[i]).entry_id == id && v.push(
                r,
            )[i].effective_at <= t;
        assert(i < v.len());
        assert(v[i] == v.push(r)[i]);
    }
}

/// From the instant of its revocation an entry is not in force any more.
pub proof fn law_revoked_entry_is_gone(
    v: StoreView,
    identifier: Seq<char>,
    entry_id: u64,
    effective_at: int,
    reason: Seq<char>,
    now: int,
    t: int,
)
    requires
        effective_at <= t,
    ensures
        ({
            let op = OpView::RevokeEntry { identifier, entry_id, effective_at, reason };
            let s = recorded(v, op, now).ledger.ids[identifier];
            forall|e: EntryView| #[trigger]
                effective(s, t).contains(e) ==> e.id != entry_id
        }),
{
    let op = OpView::RevokeEntry { identifier, entry_id, effective_at, reason };
    let s = recorded(v, op, now).ledger.ids[identifier];
    let before = state_of(v.ledger.ids, identifier);
    assert(s.revocations[before.revocations.len() as int] == (RevocationView {
        entry_id,
        effective_at,
        reason,
    }));
    let p = |e: EntryView| in_force(s, e, t);
    assert forall|e: EntryView| #[trigger] effective(s, t).contains(e) implies e.id != entry_id by {
        s.entries.lemma_filter_contains_rev(p, e);
    }
}

/// Darkening denies an identity at the instant it takes effect, after it and
/// before it: until it is cleared the answer is the same at every instant.
pub proof fn law_dark_denies_past_and_future(
    v: StoreView,
    identifier: Seq<char>,
    effective_at: int,
    now: int,
    t: int,
)
    ensures
        answer(
            recorded(v, OpView::SetDark { identifier, effective_at }, now).ledger,
            identifier,
            t,
        ) == AnswerView::Dark,
{
    let s = state_of(v.ledger.ids, identifier);
    let after = recorded(v, OpView::SetDark { identifier, effective_at }, now).ledger;
    if has_open_interval(s.dark) {
        let i = choose|i: int| 0 <= i < s.dark.len() && (#[trigger] s.dark[i]).to is None;
        assert(after.ids[identifier].dark[i].contains(t) || t < after.ids[identifier].dark[i].from);
    } else {
        let i = s.dark.len() as int;
        assert(after.ids[identifier].dark[i].contains(t) || t < after.ids[identifier].dark[i].from);
    }
}

/// Clearing restores service from the clear instant on: once every interval has
/// begun and the open one is cleared, the identity answers with its entries in
/// force again.
pub proof fn law_clearing_restores(
    v: StoreView,
    identifier: Seq<char>,
    effective_at: int,
    now: int,
    t: int,
)
    requires
        effective_at <= t,
        forall|i: int|
            #![trigger state_of(v.ledger.ids, identifier).dark[i]]
            0 <= i < state_of(v.ledger.ids, identifier).dark.len() ==> {
                let d = state_of(v.ledger.ids, identifier).dark[i];
                d.from <= t && (d.to matches Some(e) ==> e <= t)
            },
    ensures
        ({
            let after = recorded(v, OpView::ClearDark { identifier, effective_at }, now).ledger;
            let found = effective(state_of(v.ledger.ids, identifier), t);
            answer(after, identifier, t) == if found.len() == 0 {
                AnswerView::KnownEmpty
            } else {
                AnswerView::Resolved(found)
            }
        }),
{
    let s = state_of(v.ledger.ids, identifier);
    let after = recorded(v, OpView::ClearDark { identifier, effective_at }, now).ledger;
    let s2 = after.ids[identifier];
    assert forall|i: int| 0 <= i < s2.dark.len() implies !(#[trigger] s2.dark[i]).contains(t) && t
        >= s2.dark[i].from by {
        assert(s2.dark[i] == ended(s.dark[i], effective_at));
    }
    let p = |e: EntryView| in_force(s, e, t);
    let p2 = |e: EntryView| in_force(s2, e, t);
    assert(p =~= p2);
}

/// The records of a history carry their places in it as numbers.
pub open spec fn is_numbered(log: Seq<RecordView>) -> bool {
    forall|i: int| 0 <= i < log.len() ==> (#[trigger] log[i]).seq == i + 1
}

/// Recording numbers the records in sequence.
pub proof fn law_records_are_numbered(v: StoreView, op: OpView, now: int)
    requires
        is_numbered(v.log),
        v.log.len() < u64::MAX,
    ensures
        is_numbered(recorded(v, op, now).log),
{
}

/// What is registered is served while it is valid: at an instant at which the
/// identity is not denied, a new entry that is valid and not revoked is among
/// those in force.
pub proof fn law_registered_is_served(
    v: StoreView,
    identifier: Seq<char>,
    entries: Seq<EntryView>,
    now: int,
    i: int,
    t: int,
)
    requires
        is_consistent(v),
        has_room(v, entries.len()),
        has_numbers(v, entries.len()),
        0 <= i < entries.len(),
        entries[i].valid_at(t),
        !is_denied(state_of(v.ledger.ids, identifier).dark, t),
        !is_revoked(
            state_of(v.ledger.ids, identifier).revocations,
            (v.ledger.next_entry_id + i) as u64,
            t,
        ),
    ensures
        answer(registering(v, identifier, entries, now).ledger, identifier, t) matches
            AnswerView::Resolved(found) && found.contains(
            entries[i].with_id((v.ledger.next_entry_id + i) as u64),
        ),
{
    law_registering_adds(v, identifier, entries, now);
    lemma_registering_knows(v, identifier, entries, now);
    let l = registering(v, identifier, entries, now).ledger;
    let s = l.ids[identifier];
    let old_s = state_of(v.ledger.ids, identifier);
    let e = entries[i].with_id((v.ledger.next_entry_id + i) as u64);
    assert(state_of(l.ids, identifier) == s);
    let k = old_s.entries.len() + i;
    assert(s.entries[k] == e);
    let p = |e: EntryView| in_force(s, e, t);
    assert(in_force(s, e, t));
    s.entries.lemma_filter_contains(p, k);
}

proof fn lemma_registering_knows(
    v: StoreView,
    identifier: Seq<char>,
    entries: Seq<EntryView>,
    now: int,
)
    requires
        entries.len() > 0,
    ensures
        registering(v, identifier, entries, now).ledger.ids.contains_key(identifier),
{
}

/// Entries are stamped: what is registered for later leaves the answers for the
/// time before it as they were.
pub proof fn law_registration_keeps_the_past(
    v: StoreView,
    identifier: Seq<char>,
    entries: Seq<EntryView>,
    now: int,
    key: Seq<char>,
    t: int,
)
    requires
        is_consistent(v),
        has_room(v, entries.len()),
        has_numbers(v, entries.len()),
        v.ledger.ids.contains_key(identifier),
        forall|i: int| 0 <= i < entries.len() ==> t < (#[trigger] entries[i]).as_of,
    ensures
        answer(registering(v, identifier, entries, now).ledger, key, t) == answer(v.ledger, key, t),
{
    law_registering_adds(v, identifier, entries, now);
    let l = registering(v, identifier, entries, now).ledger;
    if key == identifier {
        if entries.len() > 0 {
            lemma_registering_knows(v, identifier, entries, now);
        }
        let s = v.ledger.ids[key];
        let s2 = l.ids[key];
        assert(state_of(l.ids, key) == s2);
        let added = numbered(entries, v.ledger.next_entry_id);
        let p = |e: EntryView| in_force(s, e, t);
        let p2 = |e: EntryView| in_force(s2, e, t);
        assert(p =~= p2);
        Seq::filter_distributes_over_add(s.entries, added, p);
        let late = added.filter(p);
        if late.len() > 0 {
            added.lemma_filter_pred(p, 0);
            assert(late.contains(late[0]));
            added.lemma_filter_contains_rev(p, late[0]);
            let k = choose|k: int| 0 <= k < added.len() && added[k] == late[0];
            assert(t < entries[k].as_of);
        }
        assert(s.entries.filter(p) + late =~= s.entries.filter(p));
    } else {
        assert(l.ids.remove(identifier).contains_key(key) == v.ledger.ids.remove(identifier).contains_key(
            key,
        ));
        if v.ledger.ids.contains_key(key) {
            assert(l.ids.remove(identifier)[key] == v.ledger.ids.remove(identifier)[key]);
        }
    }
}

/// Numbers are given out once: every entry that a history has registered has a
/// number below the next free one, as long as there is one.
pub proof fn law_numbers_are_fresh(log: Seq<RecordView>, key: Seq<char>, i: int)
    requires
        replayed(log).next_entry_id < u64::MAX,
        0 <= i < state_of(replayed(log).ids, key).entries.len(),
    ensures
        state_of(replayed(log).ids, key).entries[i].id < replayed(log).next_entry_id,
    decreases log.len(),
{
    if log.len() > 0 {
        let before = replayed(log.drop_last());
        let had = state_of(before.ids, key).entries;
        assert(before.next_entry_id <= replayed(log).next_entry_id);
        if i < had.len() {
            law_numbers_are_fresh(log.drop_last(), key, i);
        }
    }
}

/// A rotation is stated from its instant on and not before; which links are in
/// force does not depend on it.
pub proof fn law_rotation_is_stated_from_its_instant(
    v: StoreView,
    identifier: Seq<char>,
    s: SupersessionView,
    now: int,
    t: int,
)
    requires
        v.ledger.ids.contains_key(identifier),
    ensures
        ({
            let op = OpView::Supersede {
                identifier,
                successor: s.successor,
                effective_at: s.effective_at,
                authority: s.authority,
                reason: s.reason,
            };
            let after = recorded(v, op, now).ledger;
            &&& s.effective_at <= t ==> rotation_at(after, identifier, t) == Some(s)
            &&& t < s.effective_at ==> rotation_at(after, identifier, t) == rotation_at(
                v.ledger,
                identifier,
                t,
            )
            &&& answer(after, identifier, t) == answer(v.ledger, identifier, t)
        }),
{
    let op = OpView::Supersede {
        identifier,
        successor: s.successor,
        effective_at: s.effective_at,
        authority: s.authority,
        reason: s.reason,
    };
    let after = recorded(v, op, now).ledger;
    let before = v.ledger.ids[identifier];
    let state = after.ids[identifier];
    assert(state.supersessions == before.supersessions.push(s));
    assert(state.supersessions.drop_last() =~= before.supersessions);
    let p = |e: EntryView| in_force(before, e, t);
    let q = |e: EntryView| in_force(state, e, t);
    assert(p =~= q);
}

/// A correlation is stated on both sides from the instant it is recorded, and
/// makes neither identifier known that was not.
pub proof fn law_correlation_is_stated_on_both_sides(
    v: StoreView,
    a: Seq<char>,
    b: Seq<char>,
    assertor: Seq<char>,
    evidence: Seq<char>,
    direction: Seq<char>,
    now: int,
    t: int,
)
    requires
        now <= t,
    ensures
        ({
            let op = OpView::Correlate {
                identifier_a: a,
                identifier_b: b,
                assertor,
                evidence,
                direction,
            };
            let after = recorded(v, op, now).ledger;
            let c = CorrelationView { other: b, assertor, evidence, direction, recorded_at: now };
            &&& claims_at(after, a, t).contains(c)
            &&& claims_at(after, b, t).contains(CorrelationView { other: a, ..c })
            &&& after.ids == v.ledger.ids
        }),
{
    let op = OpView::Correlate { identifier_a: a, identifier_b: b, assertor, evidence, direction };
    let after = recorded(v, op, now).ledger;
    let c = CorrelationView { other: b, assertor, evidence, direction, recorded_at: now };
    let d = CorrelationView { other: a, ..c };
    let p = |c: CorrelationView| c.recorded_at <= t;
    let first = claims_of(v.ledger.correlations, a).push(c);
    let i = claims_of(v.ledger.correlations, a).len() as int;
    assert(first[i] == c);
    let at_a = claims_of(after.correlations, a);
    assert(at_a[i] == c);
    at_a.lemma_filter_contains(p, i);
    let at_b = claims_of(after.correlations, b);
    let k = at_b.len() - 1;
    assert(at_b[k] == d);
    at_b.lemma_filter_contains(p, k);
}

/// The places of a list at which a condition holds, in their order.
pub open spec fn are_places<T>(v: Seq<T>, p: spec_fn(T) -> bool, places: Seq<int>) -> bool {
    &&& forall|k: int|
        0 <= k < places.len() ==> 0 <= #[trigger] places[k] < v.len() && p(v[places[k]])
    &&& forall|i: int| 0 <= i < v.len() && #[trigger] p(v[i]) ==> places.contains(i)
    &&& forall|k: int, m: int|
        0 <= k < m < places.len() ==> #[trigger] places[k] < #[trigger] places[m]
}

/// A filtered list is the list at the places where the condition holds.
pub proof fn lemma_filter_places<T>(v: Seq<T>, p: spec_fn(T) -> bool) -> (places: Seq<int>)
    ensures
        are_places(v, p, places),
        v.filter(p).len() == places.len(),
        forall|k: int| 0 <= k < places.len() ==> #[trigger] v.filter(p)[k] == v[places[k]],
    decreases v.len(),
{
    reveal(Seq::filter);
    if v.len() == 0 {
        Seq::empty()
    } else {
        let front = v.drop_last();
        let n = v.len() - 1;
        let before = lemma_filter_places(front, p);
        assert forall|k: int| 0 <= k < before.len() implies 0 <= #[trigger] before[k] < n && p(
            v[before[k]],
        ) by {
            assert(front[before[k]] == v[before[k]]);
        }
        if p(v[n]) {
            let places = before.push(n as int);
            assert forall|i: int| 0 <= i < v.len() && #[trigger] p(v[i]) implies places.contains(i) by {
                if i < n {
                    assert(p(front[i]));
                    let k = choose|k: int| 0 <= k < before.len() && before[k] == i;
                    assert(places[k] == i);
                } else {
                    assert(places[before.len() as int] == i);
                }
            }
            assert forall|k: int| 0 <= k < places.len() implies #[trigger] v.filter(p)[k]
                == v[places[k]] by {
                if k < before.len() {
                    assert(front.filter(p)[k] == front[before[k]]);
                }
            }
            places
        } else {
            assert forall|i: int| 0 <= i < v.len() && #[trigger] p(v[i]) implies before.contains(i) by {
                assert(p(front[i]));
            }
            assert forall|k: int| 0 <= k < before.len() implies #[trigger] v.filter(p)[k]
                == v[before[k]] by {
                assert(front.filter(p)[k] == front[before[k]]);
            }
            before
        }
    }
}

/// An entry is in force at an instant: it has begun and not ended, and no
/// revocation of it has taken effect.
pub open spec fn stands(s: StateView, e: EntryView, t: int) -> bool {
    &&& e.as_of <= t
    &&& e.expiry matches Some(x) ==> t <= x
    &&& forall|i: int|
        0 <= i < s.revocations.len() && (#[trigger] s.revocations[i]).entry_id == e.id
            ==> s.revocations[i].effective_at > t
}

/// Whether an entry of an identity is in force at an instant.
pub open spec fn standing(s: StateView, t: int) -> spec_fn(EntryView) -> bool {
    |e: EntryView| stands(s, e, t)
}

/// An identity is hidden at an instant: it has gone dark, at whatever time, and
/// is not back yet.
pub open spec fn is_hidden(s: StateView, t: int) -> bool {
    exists|i: int|
        0 <= i < s.dark.len() && (t < (#[trigger] s.dark[i]).from || match s.dark[i].to {
            Some(x) => t < x,
            None => true,
        })
}

/// A lookup tells exactly what is in force: an unknown identifier is absent, a
/// hidden one is dark, and otherwise the entries in force come in the order of
/// registration, all of them, each as often as it was registered, and no others.
pub proof fn law_lookup_tells_what_is_in_force(l: LedgerView, key: Seq<char>, t: int)
    ensures
        answer(l, key, t) == AnswerView::Absent <==> !l.ids.contains_key(key),
        l.ids.contains_key(key) ==> (answer(l, key, t) == AnswerView::Dark <==> is_hidden(
            l.ids[key],
            t,
        )),
        l.ids.contains_key(key) && !is_hidden(l.ids[key], t) ==> exists|places: Seq<int>|
            {
                &&& #[trigger] are_places(l.ids[key].entries, standing(l.ids[key], t), places)
                &&& if places.len() == 0 {
                    answer(l, key, t) == AnswerView::KnownEmpty
                } else {
                    answer(l, key, t) == AnswerView::Resolved(
                        Seq::new(places.len(), |k: int| l.ids[key].entries[places[k]]),
                    )
                }
            },
{
    if l.ids.contains_key(key) {
        let s = l.ids[key];
        assert(is_hidden(s, t) == is_denied(s.dark, t)) by {
            if is_denied(s.dark, t) {
                let i = choose|i: int|
                    0 <= i < s.dark.len() && ((#[trigger] s.dark[i]).contains(t) || t
                        < s.dark[i].from);
                assert(t < s.dark[i].from || match s.dark[i].to {
                    Some(x) => t < x,
                    None => true,
                });
            }
            if is_hidden(s, t) {
                let i = choose|i: int|
                    0 <= i < s.dark.len() && (t < (#[trigger] s.dark[i]).from || match s.dark[i].to {
                        Some(x) => t < x,
                        None => true,
                    });
                assert(s.dark[i].contains(t) || t < s.dark[i].from);
            }
        }
        let p = |e: EntryView| in_force(s, e, t);
        let q = standing(l.ids[key], t);
        assert forall|e: EntryView| #[trigger] p(e) == q(e) by {
            if is_revoked(s.revocations, e.id, t) {
                let i = choose|i: int|
                    0 <= i < s.revocations.len() && (#[trigger] s.revocations[i]).entry_id == e.id
                        && s.revocations[i].effective_at <= t;
                assert(s.revocations[i].entry_id == e.id);
            }
        }
        assert(p =~= q);
        if !is_hidden(s, t) {
            let places = lemma_filter_places(s.entries, q);
            let found = Seq::new(places.len(), |k: int| s.entries[places[k]]);
            assert(effective(s, t) =~= found);
            assert(are_places(l.ids[key].entries, standing(l.ids[key], t), places));
        }
    }
}

/// A record concerns the identifier that it names and no other, and touches one
/// list of what is known of it: it adds one entry, one revocation or one
/// rotation, opens or closes its darkness, or, for a correlation, adds one claim
/// on each side.
pub proof fn law_records_touch_one_thing(v: StoreView, op: OpView, now: int)
    ensures
        ({
            let after = recorded(v, op, now);
            let ids = after.ledger.ids;
            &&& after.log.len() == v.log.len() + 1
            &&& after.log.take(v.log.len() as int) == v.log
            &&& after.log.last().op == op && after.log.last().recorded_at == now
            &&& after.cache == v.cache
            &&& match op {
                OpView::RegisterEntry { identifier, entry } => {
                    let s = state_of(v.ledger.ids, identifier);
                    &&& ids.remove(identifier) == v.ledger.ids.remove(identifier)
                    &&& ids.contains_key(identifier)
                    &&& ids[identifier].entries.len() == s.entries.len() + 1
                    &&& ids[identifier].entries.take(s.entries.len() as int) == s.entries
                    &&& entry.id > 0 ==> ids[identifier].entries.last() == entry
                    &&& ids[identifier].revocations == s.revocations
                    &&& ids[identifier].dark == s.dark
                    &&& ids[identifier].supersessions == s.supersessions
                    &&& after.ledger.correlations == v.ledger.correlations
                },
                OpView::RevokeEntry { identifier, entry_id, effective_at, reason } => {
                    let s = state_of(v.ledger.ids, identifier);
                    &&& ids.remove(identifier) == v.ledger.ids.remove(identifier)
                    &&& ids.contains_key(identifier)
                    &&& ids[identifier].entries == s.entries
                    &&& ids[identifier].revocations == s.revocations.push(
                        RevocationView { entry_id, effective_at, reason },
                    )
                    &&& ids[identifier].dark == s.dark
                    &&& ids[identifier].supersessions == s.supersessions
                    &&& after.ledger.correlations == v.ledger.correlations
                },
                OpView::SetDark { identifier, effective_at } => {
                    let s = state_of(v.ledger.ids, identifier);
                    &&& ids.remove(identifier) == v.ledger.ids.remove(identifier)
                    &&& ids.contains_key(identifier)
                    &&& ids[identifier].entries == s.entries
                    &&& ids[identifier].revocations == s.revocations
                    &&& ids[identifier].supersessions == s.supersessions
                    &&& ids[identifier].dark == (if exists|i: int|
                        0 <= i < s.dark.len() && (#[trigger] s.dark[i]).to is None {
                        s.dark
                    } else {
                        s.dark.push(DarkView { from: effective_at, to: None })
                    })
                    &&& after.ledger.correlations == v.ledger.correlations
                },
                OpView::ClearDark { identifier, effective_at } => {
                    let s = state_of(v.ledger.ids, identifier);
                    &&& ids.remove(identifier) == v.ledger.ids.remove(identifier)
                    &&& ids.contains_key(identifier)
                    &&& ids[identifier].entries == s.entries
                    &&& ids[identifier].revocations == s.revocations
                    &&& ids[identifier].supersessions == s.supersessions
                    &&& ids[identifier].dark.len() == s.dark.len()
                    &&& forall|i: int|
                        0 <= i < s.dark.len() ==> (#[trigger] ids[identifier].dark[i]).from
                            == s.dark[i].from && ids[identifier].dark[i].to == (match s.dark[i].to {
                            Some(x) => Some(x),
                            None => Some(effective_at),
                        })
                    &&& after.ledger.correlations == v.ledger.correlations
                },
                OpView::Supersede { identifier, successor, effective_at, authority, reason } => {
                    let s = state_of(v.ledger.ids, identifier);
                    &&& ids.remove(identifier) == v.ledger.ids.remove(identifier)
                    &&& ids.contains_key(identifier)
                    &&& ids[identifier].entries == s.entries
                    &&& ids[identifier].revocations == s.revocations
                    &&& ids[identifier].dark == s.dark
                    &&& ids[identifier].supersessions == s.supersessions.push(
                        SupersessionView { successor, effective_at, authority, reason },
                    )
                    &&& after.ledger.correlations == v.ledger.correlations
                },
                OpView::Correlate { identifier_a, identifier_b, assertor, evidence, direction } => {
                    &&& ids == v.ledger.ids
                    &&& after.ledger.correlations.remove(identifier_a).remove(identifier_b)
                        == v.ledger.correlations.remove(identifier_a).remove(identifier_b)
                    &&& identifier_a != identifier_b ==> claims_of(
                        after.ledger.correlations,
                        identifier_a,
                    ) == claims_of(v.ledger.correlations, identifier_a).push(
                        CorrelationView {
                            other: identifier_b,
                            assertor,
                            evidence,
                            direction,
                            recorded_at: now,
                        },
                    ) && claims_of(after.ledger.correlations, identifier_b) == claims_of(
                        v.ledger.correlations,
                        identifier_b,
                    ).push(
                        CorrelationView {
                            other: identifier_a,
                            assertor,
                            evidence,
                            direction,
                            recorded_at: now,
                        },
                    )
                },
            }
        }),
{
    let after = recorded(v, op, now);
    assert(after.log.take(v.log.len() as int) =~= v.log);
    match op {
        OpView::RegisterEntry { identifier, .. } => {
            let s = state_of(v.ledger.ids, identifier);
            assert(after.ledger.ids.remove(identifier) =~= v.ledger.ids.remove(identifier));
            assert(after.ledger.ids[identifier].entries.take(s.entries.len() as int) =~= s.entries);
        },
        OpView::RevokeEntry { identifier, .. } => {
            assert(after.ledger.ids.remove(identifier) =~= v.ledger.ids.remove(identifier));
        },
        OpView::SetDark { identifier, .. } => {
            assert(after.ledger.ids.remove(identifier) =~= v.ledger.ids.remove(identifier));
        },
        OpView::ClearDark { identifier, .. } => {
            assert(after.ledger.ids.remove(identifier) =~= v.ledger.ids.remove(identifier));
        },
        OpView::Supersede { identifier, .. } => {
            assert(after.ledger.ids.remove(identifier) =~= v.ledger.ids.remove(identifier));
        },
        OpView::Correlate { identifier_a, identifier_b, .. } => {
            assert(after.ledger.correlations.remove(identifier_a).remove(identifier_b)
                =~= v.ledger.correlations.remove(identifier_a).remove(identifier_b));
        },
    }
}

/// What is stated of an identity at an instant is what is on record by then:
/// the last recorded of the rotations in effect, and every claim recorded by
/// then, in order.
pub proof fn law_statements_are_those_on_record(l: LedgerView, key: Seq<char>, t: int)
    ensures
        match rotation_at(l, key, t) {
            Some(s) => l.ids.contains_key(key) && exists|i: int| #[trigger]
                is_last_in_effect(l.ids[key].supersessions, i, t) && l.ids[key].supersessions[i]
                    == s,
            None => l.ids.contains_key(key) ==> forall|i: int|
                0 <= i < l.ids[key].supersessions.len() ==> (
                #[trigger] l.ids[key].supersessions[i]).effective_at > t,
        },
        !l.correlations.contains_key(key) ==> claims_at(l, key, t).len() == 0,
        l.correlations.contains_key(key) ==> exists|places: Seq<int>| #[trigger]
            are_places(l.correlations[key], on_record(t), places) && claims_at(l, key, t)
                == Seq::new(places.len(), |k: int| l.correlations[key][places[k]]),
{
    if l.ids.contains_key(key) {
        lemma_successor_at(l.ids[key].supersessions, t);
    }
    if l.correlations.contains_key(key) {
        let places = lemma_filter_places(l.correlations[key], on_record(t));
        assert(on_record(t) =~= |c: CorrelationView| c.recorded_at <= t);
        assert(claims_at(l, key, t) =~= Seq::new(
            places.len(),
            |k: int| l.correlations[key][places[k]],
        ));
        assert(are_places(l.correlations[key], on_record(t), places));
    } else {
        reveal(Seq::filter);
    }
}

/// The rotation at this place is the last recorded of those in effect.
pub open spec fn is_last_in_effect(v: Seq<SupersessionView>, i: int, t: int) -> bool {
    &&& 0 <= i < v.len()
    &&& v[i].effective_at <= t
    &&& forall|k: int| i < k < v.len() ==> (#[trigger] v[k]).effective_at > t
}

/// Whether a claim was on record at an instant.
pub open spec fn on_record(t: int) -> spec_fn(CorrelationView) -> bool {
    |c: CorrelationView| c.recorded_at <= t
}

proof fn lemma_successor_at(v: Seq<SupersessionView>, t: int)
    ensures
        match successor_at(v, t) {
            Some(s) => exists|i: int| #[trigger] is_last_in_effect(v, i, t) && v[i] == s,
            None => forall|i: int| 0 <= i < v.len() ==> (#[trigger] v[i]).effective_at > t,
        },
    decreases v.len(),
{
    if v.len() > 0 {
        if v.last().effective_at <= t {
            assert(is_last_in_effect(v, v.len() - 1, t));
        } else {
            let front = v.drop_last();
            lemma_successor_at(front, t);
            match successor_at(front, t) {
                Some(s) => {
                    let i = choose|i: int| #[trigger] is_last_in_effect(front, i, t) && front[i] == s;
                    assert forall|k: int| i < k < v.len() implies (#[trigger] v[k]).effective_at
                        > t by {
                        if k < front.len() {
                            assert(front[k] == v[k]);
                        }
                    }
                    assert(is_last_in_effect(v, i, t));
                },
                None => {
                    assert forall|i: int| 0 <= i < v.len() implies (#[trigger] v[i]).effective_at
                        > t by {
                        if i < front.len() {
                            assert(front[i] == v[i]);
                        }
                    }
                },
            }
        }
    }
}

/// The history can be read page by page: a page begins where it is asked to,
/// holds the records from there on in their order, and ends after as many as
/// were asked for or with the history.
pub proof fn law_pages_cover_the_history(log: Seq<RecordView>, limit: nat, offset: nat)
    ensures
        page(log, limit, offset).len() == (if offset >= log.len() {
            0
        } else if log.len() - offset < limit {
            log.len() - offset
        } else {
            limit as int
        }),
        forall|i: int|
            0 <= i < page(log, limit, offset).len() ==> #[trigger] page(log, limit, offset)[i]
                == log[offset + i],
        limit > 0 ==> page(log, limit, offset) + page(log, limit, offset + limit) == page(
            log,
            limit + limit,
            offset,
        ),
{
    if limit > 0 {
        assert(page(log, limit, offset) + page(log, limit, offset + limit) =~= page(
            log,
            limit + limit,
            offset,
        ));
    }
}

} // verus!
