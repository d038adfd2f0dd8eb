//! One linkset entry: a destination, the contexts it is meant for, and the
//! time it is valid; and the JSON form in which entries are administered and
//! journalled.

use vstd::prelude::*;

use crate::context::{EntryRouting, RoutingView};
use crate::json;
use crate::json::{Json, JsonValue, put, put_text, text_array};
use crate::text;
use crate::text::{
    as_slice, begins_with_str, chars_of, concat3, copy_opt, copy_strings, same_text, space,
};
use crate::time;
use crate::time::Timestamp;

verus! {

/// A link type, a target, the routing context (absent is a wildcard), and the
/// validity from `as_of` to `expiry` (absent is open).
#[derive(Debug, PartialEq, Eq)]
pub struct LinkEntry {
    pub id: u64,
    pub link_type: String,
    pub href: String,
    pub title: Option<String>,
    pub media_type: Option<String>,
    pub profile: Option<String>,
    pub role: Option<String>,
    pub languages: Vec<String>,
    pub region: Option<String>,
    pub as_of: Timestamp,
    pub expiry: Option<Timestamp>,
}

/// What a [`LinkEntry`] stands for; instants are seconds since 1970.
#[verifier::ext_equal]
pub struct EntryView {
    pub id: u64,
    pub link_type: Seq<char>,
    pub href: Seq<char>,
    pub title: Option<Seq<char>>,
    pub media_type: Option<Seq<char>>,
    pub profile: Option<Seq<char>>,
    pub role: Option<Seq<char>>,
    pub languages: Seq<Seq<char>>,
    pub region: Option<Seq<char>>,
    pub as_of: int,
    pub expiry: Option<int>,
}

/// The instant of an optional timestamp.
pub open spec fn instant(t: Option<Timestamp>) -> Option<int> {
    match t {
        Some(t) => Some(t.secs as int),
        None => None,
    }
}

impl View for LinkEntry {
    type V = EntryView;

    open spec fn view(&self) -> EntryView {
        EntryView {
            id: self.id,
            link_type: self.link_type@,
            href: self.href@,
            title: text::opt_text(self.title),
            media_type: text::opt_text(self.media_type),
            profile: text::opt_text(self.profile),
            role: text::opt_text(self.role),
            languages: text::strings(self.languages@),
            region: text::opt_text(self.region),
            as_of: self.as_of.secs as int,
            expiry: instant(self.expiry),
        }
    }
}

/// The views of a list of entries.
pub open spec fn entry_views(v: Seq<LinkEntry>) -> Seq<EntryView> {
    v.map_values(|e: LinkEntry| e@)
}

impl EntryView {
    /// What context routing looks at.
    pub open spec fn routing(self) -> RoutingView {
        RoutingView {
            link_type: self.link_type,
            profile: self.profile,
            role: self.role,
            language: self.languages,
            region: self.region,
        }
    }

    /// Effective at the instant `t`, leaving revocations aside.
    pub open spec fn valid_at(self, t: int) -> bool {
        self.as_of <= t && (self.expiry matches Some(e) ==> t <= e)
    }

    /// The same entry under another id.
    pub open spec fn with_id(self, id: u64) -> EntryView {
        EntryView { id, ..self }
    }
}

impl Clone for LinkEntry {
    fn clone(&self) -> (r: LinkEntry)
        ensures
            r@ == self@,
    {
        LinkEntry {
            id: self.id,
            link_type: self.link_type.clone(),
            href: self.href.clone(),
            title: copy_opt(&self.title),
            media_type: copy_opt(&self.media_type),
            profile: copy_opt(&self.profile),
            role: copy_opt(&self.role),
            languages: copy_strings(&self.languages),
            region: copy_opt(&self.region),
            as_of: self.as_of,
            expiry: self.expiry,
        }
    }
}

/// A copy of a list of entries.
pub fn copy_entries(v: &Vec<LinkEntry>) -> (r: Vec<LinkEntry>)
    ensures
        entry_views(r@) == entry_views(v@),
{
    let mut out: Vec<LinkEntry> = Vec::new();
    let mut i: usize = 0;
    while i < v.len()
        invariant
            i <= v.len(),
            entry_views(out@) == entry_views(v@).take(i as int),
        decreases v.len() - i,
    {
        let ghost before = out@;
        out.push(v[i].clone());
        i += 1;
        assert(entry_views(out@) =~= entry_views(before).push(v@[i - 1]@));
        assert(entry_views(v@).take(i as int) =~= entry_views(v@).take(i - 1).push(v@[i - 1]@));
    }
    assert(entry_views(v@).take(i as int) =~= entry_views(v@));
    out
}

// ---------------------------------------------------------------------------
// Writing
// ---------------------------------------------------------------------------

/// The fields of an object with one more text, where there is one.
pub open spec fn with_text(m: Map<Seq<char>, JsonValue>, key: Seq<char>, o: Option<Seq<char>>) -> Map<
    Seq<char>,
    JsonValue,
> {
    match o {
        Some(s) => m.insert(key, JsonValue::Str(s)),
        None => m,
    }
}

/// The stamp of an optional instant.
pub open spec fn stamp_of(t: Option<int>) -> Option<Seq<char>> {
    match t {
        Some(t) => Some(time::stamp(t)),
        None => None,
    }
}

/// The fields of the administrative form of an entry.
pub open spec fn entry_fields(e: EntryView) -> Map<Seq<char>, JsonValue> {
    let m = Map::empty().insert("id"@, JsonValue::Number(e.id)).insert(
        "linkType"@,
        JsonValue::Str(e.link_type),
    ).insert("href"@, JsonValue::Str(e.href));
    let m = with_text(with_text(m, "title"@, e.title), "type"@, e.media_type);
    let m = with_text(with_text(m, "profile"@, e.profile), "role"@, e.role);
    let m = with_text(m.insert("language"@, json::text_items(e.languages)), "region"@, e.region);
    with_text(m.insert("asOf"@, JsonValue::Str(time::stamp(e.as_of))), "expiry"@, stamp_of(e.expiry))
}

/// The administrative form of an entry.
pub open spec fn entry_json(e: EntryView) -> JsonValue {
    JsonValue::Object(entry_fields(e))
}

/// Put a text into an object under construction, where there is one.
pub(crate) fn put_opt(fields: &mut Vec<(String, Json)>, key: &str, o: &Option<String>)
    ensures
        json::fields_model(final(fields)@) == with_text(json::fields_model(old(fields)@), key@, text::opt_text(*o)),
{
    if let Some(s) = o {
        put_text(fields, key, s.as_str());
    }
}

/// Put a timestamp into an object under construction, where there is one.
pub(crate) fn put_opt_stamp(fields: &mut Vec<(String, Json)>, key: &str, o: &Option<Timestamp>)
    ensures
        json::fields_model(final(fields)@) == with_text(
            json::fields_model(old(fields)@),
            key@,
            stamp_of(instant(*o)),
        ),
{
    if let Some(t) = o {
        put_text(fields, key, t.to_string().as_str());
    }
}

/// No key of the objects printed here begins with `$`.
proof fn lemma_keys_are_plain()
    ensures
        json::is_plain_key("id"@),
        json::is_plain_key("linkType"@),
        json::is_plain_key("href"@),
        json::is_plain_key("language"@),
        json::is_plain_key("asOf"@),
        json::is_plain_key("title"@),
        json::is_plain_key("type"@),
        json::is_plain_key("profile"@),
        json::is_plain_key("role"@),
        json::is_plain_key("region"@),
        json::is_plain_key("expiry"@),
{
    reveal_strlit("id");
    reveal_strlit("linkType");
    reveal_strlit("href");
    reveal_strlit("language");
    reveal_strlit("asOf");
    reveal_strlit("title");
    reveal_strlit("type");
    reveal_strlit("profile");
    reveal_strlit("role");
    reveal_strlit("region");
    reveal_strlit("expiry");
}

/// Entries print without loss.
pub proof fn lemma_entry_printable(e: EntryView)
    ensures
        json::fields_printable(entry_fields(e), 1),
        json::is_printable(entry_json(e), 2),
{
    broadcast use json::lemma_put_printable;

    lemma_keys_are_plain();
    reveal_with_fuel(json::is_printable, 2);
    let m0 = Map::<Seq<char>, JsonValue>::empty();
    assert(json::fields_printable(m0, 1));
    assert(json::is_printable(json::text_items(e.languages), 1));
    assert(json::fields_printable(entry_fields(e), 1));
}

impl LinkEntry {
    /// What context routing looks at.
    pub fn routing(&self) -> (r: EntryRouting<'_>)
        ensures
            r@ == self@.routing(),
    {
        EntryRouting {
            link_type: self.link_type.as_str(),
            profile: as_slice(&self.profile),
            role: as_slice(&self.role),
            language: self.languages.as_slice(),
            region: as_slice(&self.region),
        }
    }

    /// Is the entry effective at the instant `t`? Revocations are left aside.
    pub fn valid_at(&self, t: Timestamp) -> (r: bool)
        ensures
            r == self@.valid_at(t.secs as int),
    {
        self.as_of.secs <= t.secs && match self.expiry {
            Some(e) => t.secs <= e.secs,
            None => true,
        }
    }

    /// The administrative form.
    pub fn to_json(&self) -> (r: Json)
        ensures
            r@ == entry_json(self@),
    {
        let mut f: Vec<(String, Json)> = Vec::new();
        put(&mut f, "id", Json::Number(self.id));
        put_text(&mut f, "linkType", self.link_type.as_str());
        put_text(&mut f, "href", self.href.as_str());
        put_opt(&mut f, "title", &self.title);
        put_opt(&mut f, "type", &self.media_type);
        put_opt(&mut f, "profile", &self.profile);
        put_opt(&mut f, "role", &self.role);
        put(&mut f, "language", text_array(&self.languages));
        put_opt(&mut f, "region", &self.region);
        put_text(&mut f, "asOf", self.as_of.to_string().as_str());
        put_opt_stamp(&mut f, "expiry", &self.expiry);
        Json::Object(f)
    }
}

// ---------------------------------------------------------------------------
// Reading
// ---------------------------------------------------------------------------

/// A text that stands for no value in particular.
pub open spec fn is_wild(s: Seq<char>) -> bool {
    s.len() == 0 || s == "*"@
}

pub(crate) fn wild(s: &str) -> (r: bool)
    ensures
        r == is_wild(s@),
{
    proof {
        reveal_strlit("");
        assert(s@.len() == 0 ==> s@ =~= ""@);
    }
    same_text(s, "") || same_text(s, "*")
}

/// The text in an optional field: nothing where the field is absent, null or a
/// wildcard, a complaint where it is no string.
pub open spec fn text_field(j: JsonValue, key: Seq<char>) -> Result<Option<Seq<char>>, Seq<char>> {
    match json::field(j, key) {
        None | Some(JsonValue::Null) => Ok(None),
        Some(JsonValue::Str(s)) => if is_wild(s) {
            Ok(None)
        } else {
            Ok(Some(s))
        },
        Some(_) => Err("`"@ + key + "` must be a string"@),
    }
}

/// The texts of a list of strings, without the wildcards; `None` where an item
/// is no string.
pub open spec fn named_items(items: Seq<JsonValue>) -> Option<Seq<Seq<char>>>
    decreases items.len(),
{
    if items.len() == 0 {
        Some(Seq::empty())
    } else {
        match (items[0], named_items(items.skip(1))) {
            (JsonValue::Str(s), Some(rest)) => Some(
                if is_wild(s) {
                    rest
                } else {
                    seq![s] + rest
                },
            ),
            _ => None,
        }
    }
}

/// The languages in a field: a string, a list of strings, or nothing.
pub open spec fn language_field(j: JsonValue, key: Seq<char>) -> Result<
    Seq<Seq<char>>,
    Seq<char>,
> {
    match json::field(j, key) {
        None | Some(JsonValue::Null) => Ok(Seq::empty()),
        Some(JsonValue::Str(s)) => Ok(
            if is_wild(s) {
                Seq::empty()
            } else {
                seq![s]
            },
        ),
        Some(JsonValue::Array(items)) => match named_items(items) {
            Some(l) => Ok(l),
            None => Err("`"@ + key + "` array items must be strings"@),
        },
        Some(_) => Err("`"@ + key + "` must be a string or array of strings"@),
    }
}

/// The instant in an optional field.
pub open spec fn stamp_field(j: JsonValue, key: Seq<char>) -> Result<Option<int>, Seq<char>> {
    match json::field(j, key) {
        None | Some(JsonValue::Null) => Ok(None),
        Some(JsonValue::Str(s)) => match time::stamp_secs(s) {
            Some(t) => Ok(Some(t)),
            None => Err(time::stamp_complaint(s)),
        },
        Some(_) => Err("`"@ + key + "` must be an RFC 3339 string"@),
    }
}

/// The descriptive fields of an entry: title, media type, profile, role and
/// region, the last three under the keys given.
pub open spec fn described(
    j: JsonValue,
    base: EntryView,
    profile: Seq<char>,
    role: Seq<char>,
    region: Seq<char>,
) -> Result<EntryView, Seq<char>> {
    match text_field(j, "title"@) {
        Err(m) => Err(m),
        Ok(title) => match text_field(j, "type"@) {
            Err(m) => Err(m),
            Ok(media_type) => match text_field(j, profile) {
                Err(m) => Err(m),
                Ok(profile) => match text_field(j, role) {
                    Err(m) => Err(m),
                    Ok(role) => match text_field(j, region) {
                        Err(m) => Err(m),
                        Ok(region) => Ok(
                            EntryView { title, media_type, profile, role, region, ..base },
                        ),
                    },
                },
            },
        },
    }
}

/// An entry that has its target and its validity and no description yet.
pub open spec fn bare_entry(
    link_type: Seq<char>,
    href: Seq<char>,
    languages: Seq<Seq<char>>,
    as_of: int,
    expiry: Option<int>,
) -> EntryView {
    EntryView {
        id: 0,
        link_type,
        href,
        title: None,
        media_type: None,
        profile: None,
        role: None,
        languages,
        region: None,
        as_of,
        expiry,
    }
}

/// An absolute http, https or urn URI without white space.
pub open spec fn is_target(href: Seq<char>) -> bool {
    ("http://"@.is_prefix_of(href) || "https://"@.is_prefix_of(href) || "urn:"@.is_prefix_of(href))
        && !has_space(href)
}

/// Some character is white space.
pub open spec fn has_space(s: Seq<char>) -> bool {
    exists|i: int| 0 <= i < s.len() && text::is_space(#[trigger] s[i])
}

/// The end comes before the beginning.
pub open spec fn is_inverted(as_of: int, expiry: Option<int>) -> bool {
    expiry matches Some(e) && e < as_of
}

/// What is said of an end before the beginning, the two fields under the names
/// given.
pub open spec fn inverted_complaint(
    end: Seq<char>,
    begin: Seq<char>,
    as_of: int,
    expiry: int,
) -> Seq<char> {
    "`"@ + end + "` "@ + time::stamp(expiry) + " before `"@ + begin + "` "@ + time::stamp(as_of)
}

/// The validity of an entry in its administrative form: from `asOf`, or from
/// `now` where the field is absent, to `expiry`.
pub open spec fn admin_validity(j: JsonValue, now: int) -> Result<(int, Option<int>), Seq<char>> {
    match stamp_field(j, "asOf"@) {
        Err(m) => Err(m),
        Ok(begin) => match stamp_field(j, "expiry"@) {
            Err(m) => Err(m),
            Ok(expiry) => {
                let as_of = match begin {
                    Some(t) => t,
                    None => now,
                };
                if is_inverted(as_of, expiry) {
                    Err(inverted_complaint("expiry"@, "asOf"@, as_of, expiry->0))
                } else {
                    Ok((as_of, expiry))
                }
            },
        },
    }
}

/// The entry that an administrative form describes, read at the instant `now`,
/// or the first thing wrong with it. An id is not looked at.
pub open spec fn admin_entry(j: JsonValue, now: int) -> Result<EntryView, Seq<char>> {
    if !(j is Object) {
        Err("link entry must be an object"@)
    } else {
        match text_field(j, "linkType"@) {
            Err(m) => Err(m),
            Ok(None) => Err("`linkType` is required (non-empty, not \"*\")"@),
            Ok(Some(link_type)) => match text_field(j, "href"@) {
                Err(m) => Err(m),
                Ok(None) => Err("`href` is required"@),
                Ok(Some(href)) => if !is_target(href) {
                    Err("`href` must be an absolute http(s)/urn URI: `"@ + href + "`"@)
                } else {
                    match language_field(j, "language"@) {
                        Err(m) => Err(m),
                        Ok(languages) => match admin_validity(j, now) {
                            Err(m) => Err(m),
                            Ok((as_of, expiry)) => described(
                                j,
                                bare_entry(link_type, href, languages, as_of, expiry),
                                "profile"@,
                                "role"@,
                                "region"@,
                            ),
                        },
                    }
                },
            },
        }
    }
}

/// The view of a reading result.
pub open spec fn entry_result(r: Result<LinkEntry, String>) -> Result<EntryView, Seq<char>> {
    match r {
        Ok(e) => Ok(e@),
        Err(m) => Err(m@),
    }
}

pub(crate) fn read_text_field(j: &Json, key: &str) -> (r: Result<Option<String>, String>)
    ensures
        match r {
            Ok(o) => text_field(j@, key@) == Ok::<Option<Seq<char>>, Seq<char>>(text::opt_text(o)),
            Err(m) => text_field(j@, key@) == Err::<Option<Seq<char>>, Seq<char>>(m@),
        },
{
    match j.get(key) {
        None => Ok(None),
        Some(v) => match v {
            Json::Null => Ok(None),
            Json::Str(s) => if wild(s.as_str()) {
                Ok(None)
            } else {
                Ok(Some(s.clone()))
            },
            _ => Err(concat3("`", key, "` must be a string")),
        },
    }
}

fn read_named_items(items: &Vec<Json>) -> (r: Option<Vec<String>>)
    ensures
        match r {
            Some(l) => named_items(json::items_model(items@)) == Some(text::strings(l@)),
            None => named_items(json::items_model(items@)) is None,
        },
{
    let ghost all = json::items_model(items@);
    let mut out: Vec<String> = Vec::new();
    let mut i: usize = 0;
    proof {
        json::lemma_items_model(items@);
        assert(all.skip(0) =~= all);
        assert(text::strings(out@) =~= Seq::empty());
        assert(forall|l: Seq<Seq<char>>| #[trigger] (text::strings(out@) + l) =~= l);
    }
    while i < items.len()
        invariant
            i <= items.len(),
            all == json::items_model(items@),
            all.len() == items.len(),
            forall|k: int| 0 <= k < items.len() ==> #[trigger] all[k] == json::model(items@[k]),
            named_items(all) == (match named_items(all.skip(i as int)) {
                Some(rest) => Some(text::strings(out@) + rest),
                None => None,
            }),
        decreases items.len() - i,
    {
        let ghost here = all.skip(i as int);
        assert(here.skip(1) =~= all.skip(i + 1));
        assert(here[0] == all[i as int]);
        match &items[i] {
            Json::Str(s) => {
                if !wild(s.as_str()) {
                    let ghost had = text::strings(out@);
                    out.push(s.clone());
                    assert(text::strings(out@) =~= had.push(s@));
                    assert(forall|l: Seq<Seq<char>>| #[trigger]
                        (text::strings(out@) + l) =~= had + (seq![s@] + l));
                }
            },
            _ => {
                return None;
            },
        }
        i += 1;
    }
    assert(all.skip(i as int) =~= Seq::empty());
    assert(text::strings(out@) + Seq::<Seq<char>>::empty() =~= text::strings(out@));
    Some(out)
}

pub(crate) fn read_languages(j: &Json, key: &str) -> (r: Result<Vec<String>, String>)
    ensures
        match r {
            Ok(l) => language_field(j@, key@) == Ok::<Seq<Seq<char>>, Seq<char>>(text::strings(l@)),
            Err(m) => language_field(j@, key@) == Err::<Seq<Seq<char>>, Seq<char>>(m@),
        },
{
    let none: Vec<String> = Vec::new();
    assert(text::strings(none@) =~= Seq::empty());
    match j.get(key) {
        None => Ok(none),
        Some(v) => match v {
            Json::Null => Ok(none),
            Json::Str(s) => if wild(s.as_str()) {
                Ok(none)
            } else {
                let mut one: Vec<String> = Vec::new();
                one.push(s.clone());
                assert(text::strings(one@) =~= seq![s@]);
                Ok(one)
            },
            Json::Array(items) => match read_named_items(items) {
                Some(l) => Ok(l),
                None => Err(concat3("`", key, "` array items must be strings")),
            },
            _ => Err(concat3("`", key, "` must be a string or array of strings")),
        },
    }
}

pub(crate) fn read_stamp_field(j: &Json, key: &str) -> (r: Result<Option<Timestamp>, String>)
    ensures
        match r {
            Ok(o) => stamp_field(j@, key@) == Ok::<Option<int>, Seq<char>>(instant(o)),
            Err(m) => stamp_field(j@, key@) == Err::<Option<int>, Seq<char>>(m@),
        },
{
    match j.get(key) {
        None => Ok(None),
        Some(v) => match v {
            Json::Null => Ok(None),
            Json::Str(s) => match Timestamp::parse(s.as_str()) {
                Ok(t) => Ok(Some(t)),
                Err(m) => Err(m),
            },
            _ => Err(concat3("`", key, "` must be an RFC 3339 string")),
        },
    }
}

/// Fill in the descriptive fields.
pub(crate) fn read_description(
    j: &Json,
    base: LinkEntry,
    profile: &str,
    role: &str,
    region: &str,
) -> (r: Result<LinkEntry, String>)
    ensures
        entry_result(r) == described(j@, base@, profile@, role@, region@),
{
    let title = match read_text_field(j, "title") {
        Ok(o) => o,
        Err(m) => return Err(m),
    };
    let media_type = match read_text_field(j, "type") {
        Ok(o) => o,
        Err(m) => return Err(m),
    };
    let profile = match read_text_field(j, profile) {
        Ok(o) => o,
        Err(m) => return Err(m),
    };
    let role = match read_text_field(j, role) {
        Ok(o) => o,
        Err(m) => return Err(m),
    };
    match read_text_field(j, region) {
        Ok(region) => Ok(LinkEntry { title, media_type, profile, role, region, ..base }),
        Err(m) => Err(m),
    }
}

fn holds_space(cs: &[char]) -> (r: bool)
    ensures
        r == has_space(cs@),
{
    let mut i: usize = 0;
    while i < cs.len()
        invariant
            i <= cs.len(),
            forall|k: int| 0 <= k < i ==> !text::is_space(#[trigger] cs@[k]),
        decreases cs.len() - i,
    {
        if space(cs[i]) {
            return true;
        }
        i += 1;
    }
    false
}

fn usable_target(href: &str) -> (r: bool)
    ensures
        r == is_target(href@),
{
    let cs = chars_of(href);
    (begins_with_str(cs.as_slice(), "http://") || begins_with_str(cs.as_slice(), "https://")
        || begins_with_str(cs.as_slice(), "urn:")) && !holds_space(cs.as_slice())
}

/// What is said of an end before the beginning.
pub(crate) fn inverted_text(
    end: &str,
    begin: &str,
    as_of: Timestamp,
    expiry: Timestamp,
) -> (r: String)
    ensures
        r@ == inverted_complaint(end@, begin@, as_of.secs as int, expiry.secs as int),
{
    let mut s = String::new();
    s.push_str("`");
    s.push_str(end);
    s.push_str("` ");
    s.push_str(expiry.to_string().as_str());
    s.push_str(" before `");
    s.push_str(begin);
    s.push_str("` ");
    s.push_str(as_of.to_string().as_str());
    assert(s@ =~= inverted_complaint(end@, begin@, as_of.secs as int, expiry.secs as int));
    s
}

fn read_validity(j: &Json, now: Timestamp) -> (r: Result<(Timestamp, Option<Timestamp>), String>)
    ensures
        match r {
            Ok(v) => admin_validity(j@, now.secs as int) == Ok::<(int, Option<int>), Seq<char>>(
                (v.0.secs as int, instant(v.1)),
            ),
            Err(m) => admin_validity(j@, now.secs as int) == Err::<(int, Option<int>), Seq<char>>(
                m@,
            ),
        },
{
    let begin = match read_stamp_field(j, "asOf") {
        Ok(o) => o,
        Err(m) => return Err(m),
    };
    let expiry = match read_stamp_field(j, "expiry") {
        Ok(o) => o,
        Err(m) => return Err(m),
    };
    let as_of = match begin {
        Some(t) => t,
        None => now,
    };
    if let Some(e) = expiry {
        if e.secs < as_of.secs {
            return Err(inverted_text("expiry", "asOf", as_of, e));
        }
    }
    Ok((as_of, expiry))
}

impl LinkEntry {
    /// Read the administrative form of an entry at the instant `now`, from
    /// which the entry is valid where `asOf` is absent. An `id` is ignored.
    pub fn from_admin_json_at(v: &Json, now: Timestamp) -> (r: Result<LinkEntry, String>)
        ensures
            entry_result(r) == admin_entry(v@, now.secs as int),
    {
        match v {
            Json::Object(_) => {},
            _ => return Err("link entry must be an object".to_string()),
        }
        let link_type = match read_text_field(v, "linkType") {
            Ok(Some(s)) => s,
            Ok(None) => return Err("`linkType` is required (non-empty, not \"*\")".to_string()),
            Err(m) => return Err(m),
        };
        let href = match read_text_field(v, "href") {
            Ok(Some(s)) => s,
            Ok(None) => return Err("`href` is required".to_string()),
            Err(m) => return Err(m),
        };
        if !usable_target(href.as_str()) {
            return Err(
                concat3("`href` must be an absolute http(s)/urn URI: `", href.as_str(), "`"),
            );
        }
        let languages = match read_languages(v, "language") {
            Ok(l) => l,
            Err(m) => return Err(m),
        };
        let validity = match read_validity(v, now) {
            Ok(w) => w,
            Err(m) => return Err(m),
        };
        let base = LinkEntry {
            id: 0,
            link_type,
            href,
            title: None,
            media_type: None,
            profile: None,
            role: None,
            languages,
            region: None,
            as_of: validity.0,
            expiry: validity.1,
        };
        read_description(v, base, "profile", "role", "region")
    }

    /// Read the administrative form of an entry now.
    pub fn from_admin_json(v: &Json) -> (r: Result<LinkEntry, String>)
        ensures
            exists|now: int|
                time::is_clock_time(now) && entry_result(r) == #[trigger] admin_entry(v@, now),
    {
        let now = Timestamp::now();
        LinkEntry::from_admin_json_at(v, now)
    }
}

// ---------------------------------------------------------------------------
// Laws
// ---------------------------------------------------------------------------

/// A text that says something.
pub open spec fn is_named(o: Option<Seq<char>>) -> bool {
    o matches Some(s) ==> !is_wild(s)
}

/// No language is a wildcard.
pub open spec fn all_named(languages: Seq<Seq<char>>) -> bool {
    forall|i: int| 0 <= i < languages.len() ==> !is_wild(#[trigger] languages[i])
}

/// An entry as it can be published: with a link type and a usable target,
/// wildcards written as absence, and a validity in the years 0000 to 9999 that
/// does not end before it begins.
pub open spec fn is_publishable(e: EntryView) -> bool {
    &&& !is_wild(e.link_type)
    &&& is_target(e.href)
    &&& is_named(e.title) && is_named(e.media_type)
    &&& is_named(e.profile) && is_named(e.role) && is_named(e.region)
    &&& all_named(e.languages)
    &&& time::has_four_digit_year(e.as_of)
    &&& e.expiry matches Some(x) ==> time::has_four_digit_year(x)
    &&& !is_inverted(e.as_of, e.expiry)
}

proof fn lemma_entry_keys()
    ensures
        "id"@.len() == 2,
        "linkType"@.len() == 8 && "linkType"@[1] == 'i',
        "language"@.len() == 8 && "language"@[1] == 'a',
        "href"@.len() == 4 && "href"@[0] == 'h',
        "type"@.len() == 4 && "type"@[0] == 't',
        "role"@.len() == 4 && "role"@[0] == 'r',
        "asOf"@.len() == 4 && "asOf"@[0] == 'a',
        "title"@.len() == 5,
        "profile"@.len() == 7,
        "region"@.len() == 6 && "region"@[0] == 'r',
        "expiry"@.len() == 6 && "expiry"@[0] == 'e',
{
    reveal_strlit("id");
    reveal_strlit("linkType");
    reveal_strlit("language");
    reveal_strlit("href");
    reveal_strlit("type");
    reveal_strlit("role");
    reveal_strlit("asOf");
    reveal_strlit("title");
    reveal_strlit("profile");
    reveal_strlit("region");
    reveal_strlit("expiry");
}

/// A target says something.
pub proof fn lemma_target_is_named(href: Seq<char>)
    requires
        is_target(href),
    ensures
        !is_wild(href),
{
    reveal_strlit("http://");
    reveal_strlit("https://");
    reveal_strlit("urn:");
    reveal_strlit("*");
}

/// A list of languages without wildcards reads back.
pub proof fn lemma_named_items_read_back(languages: Seq<Seq<char>>)
    requires
        all_named(languages),
    ensures
        json::text_items(languages) matches JsonValue::Array(items) && named_items(items) == Some(
            languages,
        ),
    decreases languages.len(),
{
    let f = |s: Seq<char>| JsonValue::Str(s);
    let items = languages.map_values(f);
    if languages.len() > 0 {
        let rest = languages.skip(1);
        assert forall|i: int| 0 <= i < rest.len() implies !is_wild(#[trigger] rest[i]) by {
            assert(rest[i] == languages[i + 1]);
        }
        lemma_named_items_read_back(rest);
        assert(items.skip(1) =~= rest.map_values(f));
        assert(!is_wild(languages[0]));
        assert(seq![languages[0]] + rest =~= languages);
    } else {
        assert(languages =~= Seq::empty());
    }
}

/// The languages read from a list hold no wildcard.
pub proof fn lemma_named_items_are_named(items: Seq<JsonValue>)
    ensures
        named_items(items) matches Some(l) ==> all_named(l),
    decreases items.len(),
{
    if items.len() > 0 {
        lemma_named_items_are_named(items.skip(1));
    }
}

/// The text of an option as a JSON value.
pub open spec fn text_value(o: Option<Seq<char>>) -> Option<JsonValue> {
    match o {
        Some(s) => Some(JsonValue::Str(s)),
        None => None,
    }
}

proof fn lemma_entry_form(e: EntryView)
    ensures
        ({
            let j = entry_json(e);
            &&& json::field(j, "id"@) == Some(JsonValue::Number(e.id))
            &&& json::field(j, "linkType"@) == Some(JsonValue::Str(e.link_type))
            &&& json::field(j, "href"@) == Some(JsonValue::Str(e.href))
            &&& json::field(j, "language"@) == Some(json::text_items(e.languages))
            &&& json::field(j, "asOf"@) == Some(JsonValue::Str(time::stamp(e.as_of)))
            &&& json::field(j, "expiry"@) == text_value(stamp_of(e.expiry))
            &&& json::field(j, "title"@) == text_value(e.title)
            &&& json::field(j, "type"@) == text_value(e.media_type)
            &&& json::field(j, "profile"@) == text_value(e.profile)
            &&& json::field(j, "role"@) == text_value(e.role)
            &&& json::field(j, "region"@) == text_value(e.region)
        }),
{
    lemma_entry_keys();
}

proof fn lemma_text_reads_back(j: JsonValue, key: Seq<char>, o: Option<Seq<char>>)
    requires
        json::field(j, key) == text_value(o),
        is_named(o),
    ensures
        text_field(j, key) == Ok::<Option<Seq<char>>, Seq<char>>(o),
{
}

/// An optional instant reads back.
pub proof fn lemma_stamp_reads_back(j: JsonValue, key: Seq<char>, t: Option<int>)
    requires
        json::field(j, key) == text_value(stamp_of(t)),
        t matches Some(t) ==> time::has_four_digit_year(t),
    ensures
        stamp_field(j, key) == Ok::<Option<int>, Seq<char>>(t),
{
    if let Some(t) = t {
        time::law_stamp_reads_back(t);
    }
}

/// The descriptive fields read back.
pub proof fn lemma_description_reads_back(
    j: JsonValue,
    e: EntryView,
    profile: Seq<char>,
    role: Seq<char>,
    region: Seq<char>,
)
    requires
        json::field(j, "title"@) == text_value(e.title),
        json::field(j, "type"@) == text_value(e.media_type),
        text_field(j, profile) == Ok::<Option<Seq<char>>, Seq<char>>(e.profile),
        text_field(j, role) == Ok::<Option<Seq<char>>, Seq<char>>(e.role),
        text_field(j, region) == Ok::<Option<Seq<char>>, Seq<char>>(e.region),
        is_named(e.title) && is_named(e.media_type),
    ensures
        described(
            j,
            bare_entry(e.link_type, e.href, e.languages, e.as_of, e.expiry),
            profile,
            role,
            region,
        ) == Ok::<EntryView, Seq<char>>(e.with_id(0)),
{
    lemma_text_reads_back(j, "title"@, e.title);
    lemma_text_reads_back(j, "type"@, e.media_type);
}

proof fn lemma_form_reads_back(j: JsonValue, e: EntryView, now: int)
    requires
        is_publishable(e),
        j is Object,
        json::field(j, "linkType"@) == Some(JsonValue::Str(e.link_type)),
        json::field(j, "href"@) == Some(JsonValue::Str(e.href)),
        language_field(j, "language"@) == Ok::<Seq<Seq<char>>, Seq<char>>(e.languages),
        admin_validity(j, now) == Ok::<(int, Option<int>), Seq<char>>((e.as_of, e.expiry)),
        described(
            j,
            bare_entry(e.link_type, e.href, e.languages, e.as_of, e.expiry),
            "profile"@,
            "role"@,
            "region"@,
        ) == Ok::<EntryView, Seq<char>>(e.with_id(0)),
    ensures
        admin_entry(j, now) == Ok::<EntryView, Seq<char>>(e.with_id(0)),
{
    lemma_target_is_named(e.href);
}

/// Reading what was written gives the entry back, apart from its id, which is
/// not read; whatever the time of reading.
pub proof fn law_entry_reads_back(e: EntryView, now: int)
    requires
        is_publishable(e),
    ensures
        admin_entry(entry_json(e), now) == Ok::<EntryView, Seq<char>>(e.with_id(0)),
{
    let j = entry_json(e);
    lemma_entry_form(e);
    assert(language_field(j, "language"@) == Ok::<Seq<Seq<char>>, Seq<char>>(e.languages)) by {
        lemma_named_items_read_back(e.languages);
    }
    assert(admin_validity(j, now) == Ok::<(int, Option<int>), Seq<char>>((e.as_of, e.expiry))) by {
        lemma_stamp_reads_back(j, "asOf"@, Some(e.as_of));
        lemma_stamp_reads_back(j, "expiry"@, e.expiry);
    }
    lemma_text_reads_back(j, "profile"@, e.profile);
    lemma_text_reads_back(j, "role"@, e.role);
    lemma_text_reads_back(j, "region"@, e.region);
    lemma_description_reads_back(j, e, "profile"@, "role"@, "region"@);
    lemma_form_reads_back(j, e, now);
}

/// The number of an entry stands in its form.
pub proof fn lemma_entry_form_holds_id(e: EntryView)
    ensures
        json::number_in(json::field(entry_json(e), "id"@)) == Some(e.id),
{
    lemma_entry_form(e);
}

proof fn lemma_described_is_named(
    j: JsonValue,
    base: EntryView,
    profile: Seq<char>,
    role: Seq<char>,
    region: Seq<char>,
)
    ensures
        described(j, base, profile, role, region) matches Ok(e) ==> {
            &&& is_named(e.title) && is_named(e.media_type)
            &&& is_named(e.profile) && is_named(e.role) && is_named(e.region)
            &&& e == (EntryView {
                title: e.title,
                media_type: e.media_type,
                profile: e.profile,
                role: e.role,
                region: e.region,
                ..base
            })
        },
{
}

proof fn lemma_languages_are_named(j: JsonValue, key: Seq<char>)
    ensures
        language_field(j, key) matches Ok(l) ==> all_named(l),
{
    if let Some(JsonValue::Array(items)) = json::field(j, key) {
        lemma_named_items_are_named(items);
    }
}

/// An instant that was read has a year of four digits.
pub proof fn lemma_stamp_field_year(j: JsonValue, key: Seq<char>)
    ensures
        stamp_field(j, key) matches Ok(Some(t)) ==> time::has_four_digit_year(t),
{
    if let Some(JsonValue::Str(s)) = json::field(j, key) {
        if time::stamp_secs(s) is Some {
            time::law_stamp_writes_back(s);
        }
    }
}

/// Every entry that is read is one that can be published.
pub proof fn law_read_entry_is_publishable(j: JsonValue, now: int)
    requires
        time::has_four_digit_year(now),
    ensures
        admin_entry(j, now) matches Ok(e) ==> is_publishable(e) && e.id == 0,
{
    lemma_stamp_field_year(j, "asOf"@);
    lemma_stamp_field_year(j, "expiry"@);
    lemma_languages_are_named(j, "language"@);
    if let Ok(e) = admin_entry(j, now) {
        let base = bare_entry(e.link_type, e.href, e.languages, e.as_of, e.expiry);
        lemma_described_is_named(j, base, "profile"@, "role"@, "region"@);
        assert(described(j, base, "profile"@, "role"@, "region"@) == Ok::<EntryView, Seq<char>>(e));
    }
}

} // verus!
