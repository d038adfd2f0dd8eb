//! The append-only history: the operations that change a resolver's state, the
//! records that hold them, and the JSON form in which records are journalled.

use vstd::prelude::*;

use crate::entry;
use crate::entry::{EntryView, LinkEntry};
use crate::json;
use crate::json::{Json, JsonValue, put, put_text};
use crate::text;
use crate::text::{concat3, same_text};
use crate::time;
use crate::time::Timestamp;

verus! {

/// An operation on the resolver's state.
#[derive(Debug, PartialEq, Eq)]
pub enum Op {
    RegisterEntry { identifier: String, entry: LinkEntry },
    RevokeEntry { identifier: String, entry_id: u64, effective_at: Timestamp, reason: String },
    SetDark { identifier: String, effective_at: Timestamp },
    ClearDark { identifier: String, effective_at: Timestamp },
    /// An identity rotation: from `effective_at` the identifier has a
    /// successor.
    Supersede {
        identifier: String,
        successor: String,
        effective_at: Timestamp,
        authority: String,
        reason: String,
    },
    /// Two identifiers denote one physical subject.
    Correlate {
        identifier_a: String,
        identifier_b: String,
        assertor: String,
        evidence: String,
        direction: String,
    },
}

/// What an [`Op`] stands for.
#[verifier::ext_equal]
pub enum OpView {
    RegisterEntry { identifier: Seq<char>, entry: EntryView },
    RevokeEntry { identifier: Seq<char>, entry_id: u64, effective_at: int, reason: Seq<char> },
    SetDark { identifier: Seq<char>, effective_at: int },
    ClearDark { identifier: Seq<char>, effective_at: int },
    Supersede {
        identifier: Seq<char>,
        successor: Seq<char>,
        effective_at: int,
        authority: Seq<char>,
        reason: Seq<char>,
    },
    Correlate {
        identifier_a: Seq<char>,
        identifier_b: Seq<char>,
        assertor: Seq<char>,
        evidence: Seq<char>,
        direction: Seq<char>,
    },
}

impl View for Op {
    type V = OpView;

    open spec fn view(&self) -> OpView {
        match *self {
            Op::RegisterEntry { identifier, entry } => OpView::RegisterEntry {
                identifier: identifier@,
                entry: entry@,
            },
            Op::RevokeEntry { identifier, entry_id, effective_at, reason } => OpView::RevokeEntry {
                identifier: identifier@,
                entry_id,
                effective_at: effective_at.secs as int,
                reason: reason@,
            },
            Op::SetDark { identifier, effective_at } => OpView::SetDark {
                identifier: identifier@,
                effective_at: effective_at.secs as int,
            },
            Op::ClearDark { identifier, effective_at } => OpView::ClearDark {
                identifier: identifier@,
                effective_at: effective_at.secs as int,
            },
            Op::Supersede { identifier, successor, effective_at, authority, reason } => {
                OpView::Supersede {
                    identifier: identifier@,
                    successor: successor@,
                    effective_at: effective_at.secs as int,
                    authority: authority@,
                    reason: reason@,
                }
            },
            Op::Correlate { identifier_a, identifier_b, assertor, evidence, direction } => {
                OpView::Correlate {
                    identifier_a: identifier_a@,
                    identifier_b: identifier_b@,
                    assertor: assertor@,
                    evidence: evidence@,
                    direction: direction@,
                }
            },
        }
    }
}

impl Clone for Op {
    fn clone(&self) -> (r: Op)
        ensures
            r@ == self@,
    {
        match self {
            Op::RegisterEntry { identifier, entry } => Op::RegisterEntry {
                identifier: identifier.clone(),
                entry: entry.clone(),
            },
            Op::RevokeEntry { identifier, entry_id, effective_at, reason } => Op::RevokeEntry {
                identifier: identifier.clone(),
                entry_id: *entry_id,
                effective_at: *effective_at,
                reason: reason.clone(),
            },
            Op::SetDark { identifier, effective_at } => Op::SetDark {
                identifier: identifier.clone(),
                effective_at: *effective_at,
            },
            Op::ClearDark { identifier, effective_at } => Op::ClearDark {
                identifier: identifier.clone(),
                effective_at: *effective_at,
            },
            Op::Supersede { identifier, successor, effective_at, authority, reason } => {
                Op::Supersede {
                    identifier: identifier.clone(),
                    successor: successor.clone(),
                    effective_at: *effective_at,
                    authority: authority.clone(),
                    reason: reason.clone(),
                }
            },
            Op::Correlate { identifier_a, identifier_b, assertor, evidence, direction } => {
                Op::Correlate {
                    identifier_a: identifier_a.clone(),
                    identifier_b: identifier_b.clone(),
                    assertor: assertor.clone(),
                    evidence: evidence.clone(),
                    direction: direction.clone(),
                }
            },
        }
    }
}

/// One record of the history.
#[derive(Debug, PartialEq, Eq)]
pub struct LogRecord {
    pub seq: u64,
    pub recorded_at: Timestamp,
    pub op: Op,
}

/// What a [`LogRecord`] stands for.
#[verifier::ext_equal]
pub struct RecordView {
    pub seq: u64,
    pub recorded_at: int,
    pub op: OpView,
}

impl View for LogRecord {
    type V = RecordView;

    open spec fn view(&self) -> RecordView {
        RecordView { seq: self.seq, recorded_at: self.recorded_at.secs as int, op: self.op@ }
    }
}

impl Clone for LogRecord {
    fn clone(&self) -> (r: LogRecord)
        ensures
            r@ == self@,
    {
        LogRecord { seq: self.seq, recorded_at: self.recorded_at, op: self.op.clone() }
    }
}

/// The views of a list of records.
pub open spec fn record_views(v: Seq<LogRecord>) -> Seq<RecordView> {
    v.map_values(|r: LogRecord| r@)
}

// ---------------------------------------------------------------------------
// Writing
// ---------------------------------------------------------------------------

/// The object with an operation's name.
pub open spec fn op_named(name: Seq<char>) -> Map<Seq<char>, JsonValue> {
    Map::empty().insert("op"@, JsonValue::Str(name))
}

/// The fields of an operation.
pub open spec fn op_fields(op: OpView) -> Map<Seq<char>, JsonValue> {
    match op {
        OpView::RegisterEntry { identifier, entry } => op_named("register-entry"@).insert(
            "identifier"@,
            JsonValue::Str(identifier),
        ).insert("entry"@, entry::entry_json(entry)),
        OpView::RevokeEntry { identifier, entry_id, effective_at, reason } => op_named(
            "revoke-entry"@,
        ).insert("identifier"@, JsonValue::Str(identifier)).insert(
            "entryId"@,
            JsonValue::Number(entry_id),
        ).insert("effectiveAt"@, JsonValue::Str(time::stamp(effective_at))).insert(
            "reason"@,
            JsonValue::Str(reason),
        ),
        OpView::SetDark { identifier, effective_at } => op_named("set-dark"@).insert(
            "identifier"@,
            JsonValue::Str(identifier),
        ).insert("effectiveAt"@, JsonValue::Str(time::stamp(effective_at))),
        OpView::ClearDark { identifier, effective_at } => op_named("clear-dark"@).insert(
            "identifier"@,
            JsonValue::Str(identifier),
        ).insert("effectiveAt"@, JsonValue::Str(time::stamp(effective_at))),
        OpView::Supersede { identifier, successor, effective_at, authority, reason } => op_named(
            "supersede"@,
        ).insert("identifier"@, JsonValue::Str(identifier)).insert(
            "successor"@,
            JsonValue::Str(successor),
        ).insert("effectiveAt"@, JsonValue::Str(time::stamp(effective_at))).insert(
            "authority"@,
            JsonValue::Str(authority),
        ).insert("reason"@, JsonValue::Str(reason)),
        OpView::Correlate { identifier_a, identifier_b, assertor, evidence, direction } => op_named(
            "correlate"@,
        ).insert("identifierA"@, JsonValue::Str(identifier_a)).insert(
            "identifierB"@,
            JsonValue::Str(identifier_b),
        ).insert("assertor"@, JsonValue::Str(assertor)).insert(
            "evidence"@,
            JsonValue::Str(evidence),
        ).insert("direction"@, JsonValue::Str(direction)),
    }
}

/// The fields of a record.
pub open spec fn record_fields(rec: RecordView) -> Map<Seq<char>, JsonValue> {
    op_fields(rec.op).insert("seq"@, JsonValue::Number(rec.seq)).insert(
        "recordedAt"@,
        JsonValue::Str(time::stamp(rec.recorded_at)),
    )
}

/// The JSON form of a record.
pub open spec fn record_json(rec: RecordView) -> JsonValue {
    JsonValue::Object(record_fields(rec))
}

/// No key of the objects printed here begins with `$`.
proof fn lemma_keys_are_plain()
    ensures
        json::is_plain_key("op"@),
        json::is_plain_key("identifier"@),
        json::is_plain_key("entry"@),
        json::is_plain_key("entryId"@),
        json::is_plain_key("effectiveAt"@),
        json::is_plain_key("reason"@),
        json::is_plain_key("successor"@),
        json::is_plain_key("authority"@),
        json::is_plain_key("identifierA"@),
        json::is_plain_key("identifierB"@),
        json::is_plain_key("assertor"@),
        json::is_plain_key("evidence"@),
        json::is_plain_key("direction"@),
        json::is_plain_key("seq"@),
        json::is_plain_key("recordedAt"@),
{
    reveal_strlit("op");
    reveal_strlit("identifier");
    reveal_strlit("entry");
    reveal_strlit("entryId");
    reveal_strlit("effectiveAt");
    reveal_strlit("reason");
    reveal_strlit("successor");
    reveal_strlit("authority");
    reveal_strlit("identifierA");
    reveal_strlit("identifierB");
    reveal_strlit("assertor");
    reveal_strlit("evidence");
    reveal_strlit("direction");
    reveal_strlit("seq");
    reveal_strlit("recordedAt");
}

/// Records print without loss.
pub proof fn lemma_record_printable(rec: RecordView)
    ensures
        json::is_printable(record_json(rec), 3),
{
    broadcast use json::lemma_put_printable;

    lemma_keys_are_plain();

    if let OpView::RegisterEntry { entry, .. } = rec.op {
        entry::lemma_entry_printable(entry);
    }
    assert(json::fields_printable(Map::<Seq<char>, JsonValue>::empty(), 2));
    assert(json::fields_printable(op_fields(rec.op), 2));
    assert(json::fields_printable(record_fields(rec), 2));
}

fn put_op(f: &mut Vec<(String, Json)>, op: &Op)
    requires
        old(f)@.len() == 0,
    ensures
        json::fields_model(final(f)@) == op_fields(op@),
{
    match op {
        Op::RegisterEntry { identifier, entry } => {
            put_text(f, "op", "register-entry");
            put_text(f, "identifier", identifier.as_str());
            put(f, "entry", entry.to_json());
        },
        Op::RevokeEntry { identifier, entry_id, effective_at, reason } => {
            put_text(f, "op", "revoke-entry");
            put_text(f, "identifier", identifier.as_str());
            put(f, "entryId", Json::Number(*entry_id));
            put_text(f, "effectiveAt", effective_at.to_string().as_str());
            put_text(f, "reason", reason.as_str());
        },
        Op::SetDark { identifier, effective_at } => {
            put_text(f, "op", "set-dark");
            put_text(f, "identifier", identifier.as_str());
            put_text(f, "effectiveAt", effective_at.to_string().as_str());
        },
        Op::ClearDark { identifier, effective_at } => {
            put_text(f, "op", "clear-dark");
            put_text(f, "identifier", identifier.as_str());
            put_text(f, "effectiveAt", effective_at.to_string().as_str());
        },
        Op::Supersede { identifier, successor, effective_at, authority, reason } => {
            put_text(f, "op", "supersede");
            put_text(f, "identifier", identifier.as_str());
            put_text(f, "successor", successor.as_str());
            put_text(f, "effectiveAt", effective_at.to_string().as_str());
            put_text(f, "authority", authority.as_str());
            put_text(f, "reason", reason.as_str());
        },
        Op::Correlate { identifier_a, identifier_b, assertor, evidence, direction } => {
            put_text(f, "op", "correlate");
            put_text(f, "identifierA", identifier_a.as_str());
            put_text(f, "identifierB", identifier_b.as_str());
            put_text(f, "assertor", assertor.as_str());
            put_text(f, "evidence", evidence.as_str());
            put_text(f, "direction", direction.as_str());
        },
    }
}

// ---------------------------------------------------------------------------
// Reading
// ---------------------------------------------------------------------------

/// The string that a record must hold in a field.
pub open spec fn needed_text(j: JsonValue, key: Seq<char>) -> Result<Seq<char>, Seq<char>> {
    match json::string_in(json::field(j, key)) {
        Some(s) => Ok(s),
        None => Err("missing `"@ + key + "`"@),
    }
}

/// The instant that a record must hold in a field.
pub open spec fn needed_stamp(j: JsonValue, key: Seq<char>) -> Result<int, Seq<char>> {
    match json::string_in(json::field(j, key)) {
        Some(s) => match time::stamp_secs(s) {
            Some(t) => Ok(t),
            None => Err("missing/invalid `"@ + key + "`"@),
        },
        None => Err("missing/invalid `"@ + key + "`"@),
    }
}

/// The string in a field, or another where there is none.
pub open spec fn text_at(j: JsonValue, key: Seq<char>, other: Seq<char>) -> Seq<char> {
    text::text_or(json::string_in(json::field(j, key)), other)
}

/// The registration that an object describes; the entry keeps the id it was
/// recorded with.
pub open spec fn registration(j: JsonValue, now: int) -> Result<OpView, Seq<char>> {
    match needed_text(j, "identifier"@) {
        Err(m) => Err(m),
        Ok(identifier) => match json::field(j, "entry"@) {
            None => Err("missing `entry`"@),
            Some(v) => match entry::admin_entry(v, now) {
                Err(m) => Err(m),
                Ok(e) => Ok(
                    OpView::RegisterEntry {
                        identifier,
                        entry: e.with_id(
                            match json::number_in(json::field(v, "id"@)) {
                                Some(id) => id,
                                None => 0,
                            },
                        ),
                    },
                ),
            },
        },
    }
}

/// The revocation that an object describes.
pub open spec fn revocation(j: JsonValue) -> Result<OpView, Seq<char>> {
    match needed_text(j, "identifier"@) {
        Err(m) => Err(m),
        Ok(identifier) => match json::number_in(json::field(j, "entryId"@)) {
            None => Err("missing `entryId`"@),
            Some(entry_id) => match needed_stamp(j, "effectiveAt"@) {
                Err(m) => Err(m),
                Ok(effective_at) => Ok(
                    OpView::RevokeEntry {
                        identifier,
                        entry_id,
                        effective_at,
                        reason: text_at(j, "reason"@, ""@),
                    },
                ),
            },
        },
    }
}

/// The darkening, or its end, that an object describes.
pub open spec fn darkening(j: JsonValue, on: bool) -> Result<OpView, Seq<char>> {
    match needed_text(j, "identifier"@) {
        Err(m) => Err(m),
        Ok(identifier) => match needed_stamp(j, "effectiveAt"@) {
            Err(m) => Err(m),
            Ok(effective_at) => Ok(
                if on {
                    OpView::SetDark { identifier, effective_at }
                } else {
                    OpView::ClearDark { identifier, effective_at }
                },
            ),
        },
    }
}

/// The rotation that an object describes.
pub open spec fn rotation(j: JsonValue) -> Result<OpView, Seq<char>> {
    match needed_text(j, "identifier"@) {
        Err(m) => Err(m),
        Ok(identifier) => match needed_text(j, "successor"@) {
            Err(m) => Err(m),
            Ok(successor) => match needed_stamp(j, "effectiveAt"@) {
                Err(m) => Err(m),
                Ok(effective_at) => Ok(
                    OpView::Supersede {
                        identifier,
                        successor,
                        effective_at,
                        authority: text_at(j, "authority"@, ""@),
                        reason: text_at(j, "reason"@, ""@),
                    },
                ),
            },
        },
    }
}

/// The correlation that an object describes.
pub open spec fn correlating(j: JsonValue) -> Result<OpView, Seq<char>> {
    match needed_text(j, "identifierA"@) {
        Err(m) => Err(m),
        Ok(identifier_a) => match needed_text(j, "identifierB"@) {
            Err(m) => Err(m),
            Ok(identifier_b) => Ok(
                OpView::Correlate {
                    identifier_a,
                    identifier_b,
                    assertor: text_at(j, "assertor"@, ""@),
                    evidence: text_at(j, "evidence"@, ""@),
                    direction: text_at(j, "direction"@, "mutual"@),
                },
            ),
        },
    }
}

/// The operation that an object describes.
pub open spec fn op_of(j: JsonValue, now: int) -> Result<OpView, Seq<char>> {
    match json::string_in(json::field(j, "op"@)) {
        None => Err("unknown `op`"@),
        Some(name) => if name == "register-entry"@ {
            registration(j, now)
        } else if name == "revoke-entry"@ {
            revocation(j)
        } else if name == "set-dark"@ {
            darkening(j, true)
        } else if name == "clear-dark"@ {
            darkening(j, false)
        } else if name == "supersede"@ {
            rotation(j)
        } else if name == "correlate"@ {
            correlating(j)
        } else {
            Err("unknown `op`"@)
        },
    }
}

/// The record that a JSON value describes, read at the instant `now`, or the
/// first thing wrong with it.
pub open spec fn record_of(j: JsonValue, now: int) -> Result<RecordView, Seq<char>> {
    if !(j is Object) {
        Err("log record must be an object"@)
    } else {
        match json::number_in(json::field(j, "seq"@)) {
            None => Err("missing `seq`"@),
            Some(seq) => match needed_stamp(j, "recordedAt"@) {
                Err(m) => Err(m),
                Ok(recorded_at) => match op_of(j, now) {
                    Err(m) => Err(m),
                    Ok(op) => Ok(RecordView { seq, recorded_at, op }),
                },
            },
        }
    }
}

/// The view of a reading result.
pub open spec fn op_result(r: Result<Op, String>) -> Result<OpView, Seq<char>> {
    match r {
        Ok(op) => Ok(op@),
        Err(m) => Err(m@),
    }
}

/// The view of a reading result.
pub open spec fn record_result(r: Result<LogRecord, String>) -> Result<RecordView, Seq<char>> {
    match r {
        Ok(rec) => Ok(rec@),
        Err(m) => Err(m@),
    }
}

fn read_needed_text(j: &Json, key: &str) -> (r: Result<String, String>)
    ensures
        match r {
            Ok(s) => needed_text(j@, key@) == Ok::<Seq<char>, Seq<char>>(s@),
            Err(m) => needed_text(j@, key@) == Err::<Seq<char>, Seq<char>>(m@),
        },
{
    match j.str_field(key) {
        Some(s) => Ok(s.to_string()),
        None => Err(concat3("missing `", key, "`")),
    }
}

fn read_needed_stamp(j: &Json, key: &str) -> (r: Result<Timestamp, String>)
    ensures
        match r {
            Ok(t) => needed_stamp(j@, key@) == Ok::<int, Seq<char>>(t.secs as int),
            Err(m) => needed_stamp(j@, key@) == Err::<int, Seq<char>>(m@),
        },
{
    if let Some(s) = j.str_field(key) {
        if let Ok(t) = Timestamp::parse(s) {
            return Ok(t);
        }
    }
    Err(concat3("missing/invalid `", key, "`"))
}

/// The string in a field, or the one given where there is none.
pub(crate) fn read_text_at(j: &Json, key: &str, other: &str) -> (r: String)
    ensures
        r@ == text_at(j@, key@, other@),
{
    match j.str_field(key) {
        Some(s) => s.to_string(),
        None => other.to_string(),
    }
}

fn read_registration(j: &Json, now: Timestamp) -> (r: Result<Op, String>)
    ensures
        op_result(r) == registration(j@, now.secs as int),
{
    let identifier = match read_needed_text(j, "identifier") {
        Ok(s) => s,
        Err(m) => return Err(m),
    };
    match j.get("entry") {
        None => Err("missing `entry`".to_string()),
        Some(v) => match LinkEntry::from_admin_json_at(v, now) {
            Err(m) => Err(m),
            Ok(e) => {
                let id: u64 = match v.u64_field("id") {
                    Some(id) => id,
                    None => 0,
                };
                let entry = LinkEntry { id, ..e };
                Ok(Op::RegisterEntry { identifier, entry })
            },
        },
    }
}

fn read_revocation(j: &Json) -> (r: Result<Op, String>)
    ensures
        op_result(r) == revocation(j@),
{
    let identifier = match read_needed_text(j, "identifier") {
        Ok(s) => s,
        Err(m) => return Err(m),
    };
    let entry_id: u64 = match j.u64_field("entryId") {
        Some(id) => id,
        None => return Err("missing `entryId`".to_string()),
    };
    match read_needed_stamp(j, "effectiveAt") {
        Ok(effective_at) => Ok(
            Op::RevokeEntry {
                identifier,
                entry_id,
                effective_at,
                reason: read_text_at(j, "reason", ""),
            },
        ),
        Err(m) => Err(m),
    }
}

fn read_darkening(j: &Json, on: bool) -> (r: Result<Op, String>)
    ensures
        op_result(r) == darkening(j@, on),
{
    let identifier = match read_needed_text(j, "identifier") {
        Ok(s) => s,
        Err(m) => return Err(m),
    };
    match read_needed_stamp(j, "effectiveAt") {
        Ok(effective_at) => if on {
            Ok(Op::SetDark { identifier, effective_at })
        } else {
            Ok(Op::ClearDark { identifier, effective_at })
        },
        Err(m) => Err(m),
    }
}

fn read_rotation(j: &Json) -> (r: Result<Op, String>)
    ensures
        op_result(r) == rotation(j@),
{
    let identifier = match read_needed_text(j, "identifier") {
        Ok(s) => s,
        Err(m) => return Err(m),
    };
    let successor = match read_needed_text(j, "successor") {
        Ok(s) => s,
        Err(m) => return Err(m),
    };
    match read_needed_stamp(j, "effectiveAt") {
        Ok(effective_at) => Ok(
            Op::Supersede {
                identifier,
                successor,
                effective_at,
                authority: read_text_at(j, "authority", ""),
                reason: read_text_at(j, "reason", ""),
            },
        ),
        Err(m) => Err(m),
    }
}

fn read_correlation(j: &Json) -> (r: Result<Op, String>)
    ensures
        op_result(r) == correlating(j@),
{
    let identifier_a = match read_needed_text(j, "identifierA") {
        Ok(s) => s,
        Err(m) => return Err(m),
    };
    match read_needed_text(j, "identifierB") {
        Ok(identifier_b) => Ok(
            Op::Correlate {
                identifier_a,
                identifier_b,
                assertor: read_text_at(j, "assertor", ""),
                evidence: read_text_at(j, "evidence", ""),
                direction: read_text_at(j, "direction", "mutual"),
            },
        ),
        Err(m) => Err(m),
    }
}

fn read_op(j: &Json, now: Timestamp) -> (r: Result<Op, String>)
    ensures
        op_result(r) == op_of(j@, now.secs as int),
{
    let name = match j.str_field("op") {
        Some(s) => s,
        None => return Err("unknown `op`".to_string()),
    };
    if same_text(name, "register-entry") {
        read_registration(j, now)
    } else if same_text(name, "revoke-entry") {
        read_revocation(j)
    } else if same_text(name, "set-dark") {
        read_darkening(j, true)
    } else if same_text(name, "clear-dark") {
        read_darkening(j, false)
    } else if same_text(name, "supersede") {
        read_rotation(j)
    } else if same_text(name, "correlate") {
        read_correlation(j)
    } else {
        Err("unknown `op`".to_string())
    }
}

impl LogRecord {
    /// The JSON form.
    pub fn to_json(&self) -> (r: Json)
        ensures
            r@ == record_json(self@),
    {
        let mut f: Vec<(String, Json)> = Vec::new();
        put_op(&mut f, &self.op);
        put(&mut f, "seq", Json::Number(self.seq));
        put_text(&mut f, "recordedAt", self.recorded_at.to_string().as_str());
        Json::Object(f)
    }

    /// Read the JSON form of a record at the instant `now`, from which a
    /// recorded entry without `asOf` is valid.
    pub fn from_json_at(v: &Json, now: Timestamp) -> (r: Result<LogRecord, String>)
        ensures
            record_result(r) == record_of(v@, now.secs as int),
    {
        match v {
            Json::Object(_) => {},
            _ => return Err("log record must be an object".to_string()),
        }
        let seq: u64 = match v.u64_field("seq") {
            Some(n) => n,
            None => return Err("missing `seq`".to_string()),
        };
        let recorded_at = match read_needed_stamp(v, "recordedAt") {
            Ok(t) => t,
            Err(m) => return Err(m),
        };
        match read_op(v, now) {
            Ok(op) => Ok(LogRecord { seq, recorded_at, op }),
            Err(m) => Err(m),
        }
    }

    /// Read the JSON form of a record now.
    pub fn from_json(v: &Json) -> (r: Result<LogRecord, String>)
        ensures
            exists|now: int|
                time::is_clock_time(now) && record_result(r) == #[trigger] record_of(v@, now),
    {
        let now = Timestamp::now();
        LogRecord::from_json_at(v, now)
    }
}

// ---------------------------------------------------------------------------
// Laws
// ---------------------------------------------------------------------------

/// A record whose instants lie in the years 0000 to 9999 and whose entry, if it
/// registers one, can be published.
pub open spec fn is_recordable(rec: RecordView) -> bool {
    time::has_four_digit_year(rec.recorded_at) && match rec.op {
        OpView::RegisterEntry { entry, .. } => entry::is_publishable(entry),
        OpView::RevokeEntry { effective_at, .. } => time::has_four_digit_year(effective_at),
        OpView::SetDark { effective_at, .. } => time::has_four_digit_year(effective_at),
        OpView::ClearDark { effective_at, .. } => time::has_four_digit_year(effective_at),
        OpView::Supersede { effective_at, .. } => time::has_four_digit_year(effective_at),
        OpView::Correlate { .. } => true,
    }
}

/// Every record of a history can be written to a journal without loss.
pub open spec fn all_recordable(log: Seq<RecordView>) -> bool {
    forall|i: int| 0 <= i < log.len() ==> is_recordable(#[trigger] log[i])
}

proof fn lemma_record_keys()
    ensures
        "op"@.len() == 2,
        "seq"@.len() == 3,
        "entry"@.len() == 5,
        "reason"@.len() == 6,
        "entryId"@.len() == 7,
        "assertor"@.len() == 8 && "assertor"@[0] == 'a',
        "evidence"@.len() == 8 && "evidence"@[0] == 'e',
        "successor"@.len() == 9 && "successor"@[0] == 's',
        "authority"@.len() == 9 && "authority"@[0] == 'a',
        "direction"@.len() == 9 && "direction"@[0] == 'd',
        "identifier"@.len() == 10 && "identifier"@[0] == 'i',
        "recordedAt"@.len() == 10 && "recordedAt"@[0] == 'r',
        "identifierA"@.len() == 11 && "identifierA"@[10] == 'A',
        "identifierB"@.len() == 11 && "identifierB"@[10] == 'B',
        "effectiveAt"@.len() == 11 && "effectiveAt"@[10] == 't',
{
    reveal_strlit("op");
    reveal_strlit("seq");
    reveal_strlit("entry");
    reveal_strlit("reason");
    reveal_strlit("entryId");
    reveal_strlit("assertor");
    reveal_strlit("evidence");
    reveal_strlit("successor");
    reveal_strlit("authority");
    reveal_strlit("direction");
    reveal_strlit("identifier");
    reveal_strlit("recordedAt");
    reveal_strlit("identifierA");
    reveal_strlit("identifierB");
    reveal_strlit("effectiveAt");
}

proof fn lemma_op_names()
    ensures
        "register-entry"@.len() == 14,
        "revoke-entry"@.len() == 12,
        "set-dark"@.len() == 8,
        "clear-dark"@.len() == 10,
        "supersede"@.len() == 9 && "supersede"@[0] == 's',
        "correlate"@.len() == 9 && "correlate"@[0] == 'c',
{
    reveal_strlit("register-entry");
    reveal_strlit("revoke-entry");
    reveal_strlit("set-dark");
    reveal_strlit("clear-dark");
    reveal_strlit("supersede");
    reveal_strlit("correlate");
}

proof fn lemma_record_head(rec: RecordView)
    requires
        time::has_four_digit_year(rec.recorded_at),
    ensures
        json::number_in(json::field(record_json(rec), "seq"@)) == Some(rec.seq),
        needed_stamp(record_json(rec), "recordedAt"@) == Ok::<int, Seq<char>>(rec.recorded_at),
{
    lemma_record_keys();
    time::law_stamp_reads_back(rec.recorded_at);
}

proof fn lemma_needed_stamp(j: JsonValue, key: Seq<char>, t: int)
    requires
        time::has_four_digit_year(t),
        json::field(j, key) == Some(JsonValue::Str(time::stamp(t))),
    ensures
        needed_stamp(j, key) == Ok::<int, Seq<char>>(t),
{
    time::law_stamp_reads_back(t);
}

proof fn lemma_registration_reads_back(rec: RecordView, now: int)
    requires
        is_recordable(rec),
        rec.op is RegisterEntry,
    ensures
        op_of(record_json(rec), now) == Ok::<OpView, Seq<char>>(rec.op),
{
    lemma_record_keys();
    lemma_op_names();
    let j = record_json(rec);
    if let OpView::RegisterEntry { identifier, entry } = rec.op {
        entry::law_entry_reads_back(entry, now);
        entry::lemma_entry_form_holds_id(entry);
        assert(json::string_in(json::field(j, "op"@)) == Some("register-entry"@));
        assert(json::field(j, "identifier"@) == Some(JsonValue::Str(identifier)));
        assert(json::field(j, "entry"@) == Some(entry::entry_json(entry)));
        assert(entry.with_id(0).with_id(entry.id) == entry);
    }
}

proof fn lemma_revocation_reads_back(rec: RecordView, now: int)
    requires
        is_recordable(rec),
        rec.op is RevokeEntry,
    ensures
        op_of(record_json(rec), now) == Ok::<OpView, Seq<char>>(rec.op),
{
    lemma_record_keys();
    lemma_op_names();
    let j = record_json(rec);
    if let OpView::RevokeEntry { identifier, entry_id, effective_at, reason } = rec.op {
        assert(json::string_in(json::field(j, "op"@)) == Some("revoke-entry"@));
        assert(json::field(j, "identifier"@) == Some(JsonValue::Str(identifier)));
        assert(json::field(j, "entryId"@) == Some(JsonValue::Number(entry_id)));
        assert(json::field(j, "effectiveAt"@) == Some(JsonValue::Str(time::stamp(effective_at))));
        assert(json::field(j, "reason"@) == Some(JsonValue::Str(reason)));
        lemma_needed_stamp(j, "effectiveAt"@, effective_at);
    }
}

proof fn lemma_darkening_reads_back(rec: RecordView, now: int)
    requires
        is_recordable(rec),
        rec.op is SetDark,
    ensures
        op_of(record_json(rec), now) == Ok::<OpView, Seq<char>>(rec.op),
{
    lemma_record_keys();
    lemma_op_names();
    let j = record_json(rec);
    if let OpView::SetDark { identifier, effective_at } = rec.op {
        assert(json::string_in(json::field(j, "op"@)) == Some("set-dark"@));
        assert(json::field(j, "identifier"@) == Some(JsonValue::Str(identifier)));
        assert(json::field(j, "effectiveAt"@) == Some(JsonValue::Str(time::stamp(effective_at))));
        lemma_needed_stamp(j, "effectiveAt"@, effective_at);
    }
}

proof fn lemma_clearing_reads_back(rec: RecordView, now: int)
    requires
        is_recordable(rec),
        rec.op is ClearDark,
    ensures
        op_of(record_json(rec), now) == Ok::<OpView, Seq<char>>(rec.op),
{
    lemma_record_keys();
    lemma_op_names();
    let j = record_json(rec);
    if let OpView::ClearDark { identifier, effective_at } = rec.op {
        assert(json::string_in(json::field(j, "op"@)) == Some("clear-dark"@));
        assert(json::field(j, "identifier"@) == Some(JsonValue::Str(identifier)));
        assert(json::field(j, "effectiveAt"@) == Some(JsonValue::Str(time::stamp(effective_at))));
        lemma_needed_stamp(j, "effectiveAt"@, effective_at);
    }
}

proof fn lemma_rotation_reads_back(rec: RecordView, now: int)
    requires
        is_recordable(rec),
        rec.op is Supersede,
    ensures
        op_of(record_json(rec), now) == Ok::<OpView, Seq<char>>(rec.op),
{
    lemma_record_keys();
    lemma_op_names();
    let j = record_json(rec);
    if let OpView::Supersede { identifier, successor, effective_at, authority, reason } = rec.op {
        assert(json::string_in(json::field(j, "op"@)) == Some("supersede"@));
        assert(json::field(j, "identifier"@) == Some(JsonValue::Str(identifier)));
        assert(json::field(j, "successor"@) == Some(JsonValue::Str(successor)));
        assert(json::field(j, "effectiveAt"@) == Some(JsonValue::Str(time::stamp(effective_at))));
        assert(json::field(j, "authority"@) == Some(JsonValue::Str(authority)));
        assert(json::field(j, "reason"@) == Some(JsonValue::Str(reason)));
        lemma_needed_stamp(j, "effectiveAt"@, effective_at);
    }
}

proof fn lemma_correlation_reads_back(rec: RecordView, now: int)
    requires
        is_recordable(rec),
        rec.op is Correlate,
    ensures
        op_of(record_json(rec), now) == Ok::<OpView, Seq<char>>(rec.op),
{
    lemma_record_keys();
    lemma_op_names();
    let j = record_json(rec);
    if let OpView::Correlate { identifier_a, identifier_b, assertor, evidence, direction } = rec.op {
        assert(json::string_in(json::field(j, "op"@)) == Some("correlate"@));
        assert(json::field(j, "identifierA"@) == Some(JsonValue::Str(identifier_a)));
        assert(json::field(j, "identifierB"@) == Some(JsonValue::Str(identifier_b)));
        assert(json::field(j, "assertor"@) == Some(JsonValue::Str(assertor)));
        assert(json::field(j, "evidence"@) == Some(JsonValue::Str(evidence)));
        assert(json::field(j, "direction"@) == Some(JsonValue::Str(direction)));
    }
}

/// Reading what was written gives the record back, whatever the time of
/// reading.
pub proof fn law_record_reads_back(rec: RecordView, now: int)
    requires
        is_recordable(rec),
    ensures
        record_of(record_json(rec), now) == Ok::<RecordView, Seq<char>>(rec),
{
    lemma_record_head(rec);
    match rec.op {
        OpView::RegisterEntry { .. } => lemma_registration_reads_back(rec, now),
        OpView::RevokeEntry { .. } => lemma_revocation_reads_back(rec, now),
        OpView::SetDark { .. } => lemma_darkening_reads_back(rec, now),
        OpView::ClearDark { .. } => lemma_clearing_reads_back(rec, now),
        OpView::Supersede { .. } => lemma_rotation_reads_back(rec, now),
        OpView::Correlate { .. } => lemma_correlation_reads_back(rec, now),
    }
}

} // verus!
