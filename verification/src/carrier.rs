//! Carrier entry point: translate whatever a physical carrier encodes into a
//! normalized identifier. Schemes are `gs1` (canonical element string
//! `(01)K[(10)L][(21)S]`), `gbt-33993` (enterprise custom code URL) and
//! `iso-15459` (URN passed through). The store key is `scheme:value`.

use vstd::prelude::*;

use crate::gbt33993;
use crate::gbt33993::{legacy_shaped, parse_gbt33993, parse_gds_path};
use crate::gs1dl;
use crate::gs1dl::{
    ElementView, granularity_of, gtin_is_valid, parse_gs1_digital_link, parse_key_path, split_url,
    split_url_chars, to_identifier, valid_dl_value,
};
use crate::text;
use crate::text::{
    after, before, begins_with, begins_with_str, chars_of, concat3, digits_only, is_text,
    position_of, same_text, string_of, trimmed,
};

verus! {

/// Carrier kinds recognized by the resolver.
#[derive(Debug, Clone, Copy, PartialEq, Eq, Structural)]
pub enum CarrierKind {
    Gs1DigitalLink,
    Gbt33993,
    Unknown,
}

/// The name of a carrier kind.
pub open spec fn kind_name(k: CarrierKind) -> Seq<char> {
    match k {
        CarrierKind::Gs1DigitalLink => "gs1-digital-link"@,
        CarrierKind::Gbt33993 => "gbt-33993"@,
        CarrierKind::Unknown => "unknown"@,
    }
}

impl CarrierKind {
    pub fn as_str(&self) -> (r: &'static str)
        ensures
            r@ == kind_name(*self),
    {
        match self {
            CarrierKind::Gs1DigitalLink => "gs1-digital-link",
            CarrierKind::Gbt33993 => "gbt-33993",
            CarrierKind::Unknown => "unknown",
        }
    }
}

/// Normalized identifier: scheme, canonical value and granularity.
#[derive(Debug, PartialEq, Eq)]
pub struct ResolvedIdentifier {
    pub scheme: String,
    pub value: String,
    pub granularity: &'static str,
}

/// What a [`ResolvedIdentifier`] holds.
#[verifier::ext_equal]
pub struct IdentifierView {
    pub scheme: Seq<char>,
    pub value: Seq<char>,
    pub granularity: Seq<char>,
}

impl View for ResolvedIdentifier {
    type V = IdentifierView;

    open spec fn view(&self) -> IdentifierView {
        IdentifierView { scheme: self.scheme@, value: self.value@, granularity: self.granularity@ }
    }
}

impl Clone for ResolvedIdentifier {
    fn clone(&self) -> (r: Self)
        ensures
            r@ == self@,
    {
        ResolvedIdentifier {
            scheme: self.scheme.clone(),
            value: self.value.clone(),
            granularity: self.granularity,
        }
    }
}

impl IdentifierView {
    /// The store key: `scheme:value`.
    pub open spec fn key(self) -> Seq<char> {
        self.scheme + ":"@ + self.value
    }
}

impl ResolvedIdentifier {
    /// Canonical store key (`scheme:value`).
    pub fn key(&self) -> (r: String)
        ensures
            r@ == self@.key(),
    {
        concat3(self.scheme.as_str(), ":", self.value.as_str())
    }

    /// Linkset anchor for this identifier: its canonical value. URN and URL
    /// identifiers anchor to themselves, GS1 identities to the canonical
    /// element string.
    pub fn anchor(&self) -> (r: &str)
        ensures
            r@ == self@.value,
    {
        self.value.as_str()
    }
}

/// Result of carrier parsing.
#[derive(Debug, Clone, PartialEq, Eq)]
pub struct CarrierParse {
    pub kind: CarrierKind,
    pub identifier: ResolvedIdentifier,
    /// Resolver base URL when the carrier URI itself is the entry point.
    pub resolver_base_url: Option<String>,
    /// Origin of a GB/T carrier (`gds-path`, `legacy-ean13` or `custom-code`).
    pub origin: Option<&'static str>,
}

/// What a [`CarrierParse`] holds.
#[verifier::ext_equal]
pub struct CarrierView {
    pub kind: CarrierKind,
    pub identifier: IdentifierView,
    pub resolver_base_url: Option<Seq<char>>,
    pub origin: Option<Seq<char>>,
}

impl View for CarrierParse {
    type V = CarrierView;

    open spec fn view(&self) -> CarrierView {
        CarrierView {
            kind: self.kind,
            identifier: self.identifier@,
            resolver_base_url: text::opt_text(self.resolver_base_url),
            origin: match self.origin {
                Some(o) => Some(o@),
                None => None,
            },
        }
    }
}

/// Why a carrier-shaped input did or did not yield an identifier.
#[derive(Debug, Clone, PartialEq, Eq)]
pub enum CarrierLookup {
    /// Parsed successfully.
    Parsed(CarrierParse),
    /// A recognized GS1 or GB/T shape with an invalid check digit or value.
    Invalid,
    /// Not a carrier shape this resolver understands.
    Unrecognized,
}

/// What a [`CarrierLookup`] holds.
#[verifier::ext_equal]
pub enum LookupView {
    Parsed(CarrierView),
    Invalid,
    Unrecognized,
}

impl View for CarrierLookup {
    type V = LookupView;

    open spec fn view(&self) -> LookupView {
        match self {
            CarrierLookup::Parsed(p) => LookupView::Parsed(p@),
            CarrierLookup::Invalid => LookupView::Invalid,
            CarrierLookup::Unrecognized => LookupView::Unrecognized,
        }
    }
}

/// The prefix of ISO/IEC 15459 URNs.
pub open spec fn urn_prefix() -> Seq<char> {
    "urn:iso:std:iso-iec:15459"@
}

/// An ISO/IEC 15459 URN: the prefix, `:` or `#`, and something more.
pub open spec fn is_urn(s: Seq<char>) -> bool {
    &&& urn_prefix().is_prefix_of(s)
    &&& s.len() > urn_prefix().len() + 1
    &&& s[urn_prefix().len() as int] == ':' || s[urn_prefix().len() as int] == '#'
}

/// An identifier of one of the schemes that pass their value through.
pub open spec fn passed_through(scheme: Seq<char>, value: Seq<char>) -> IdentifierView {
    IdentifierView { scheme, value, granularity: "item"@ }
}

/// The scheme and authority of a URL, if it is one.
pub open spec fn url_origin(s: Seq<char>) -> Option<Seq<char>> {
    match gs1dl::url_parts(s) {
        Some(u) => Some(u.origin),
        None => None,
    }
}

/// What a scanned carrier stands for: a GS1 Digital Link, else a GB/T shape,
/// else an ISO/IEC 15459 URN.
pub open spec fn carrier_of(scanned: Seq<char>) -> Option<CarrierView> {
    let t = text::trim(scanned);
    match gs1dl::digital_link_element(t) {
        Some(el) => Some(
            CarrierView {
                kind: CarrierKind::Gs1DigitalLink,
                identifier: gs1dl::element_identifier(el),
                resolver_base_url: url_origin(t),
                origin: None,
            },
        ),
        None => match gbt33993::gbt_result(t) {
            Some(g) => Some(
                CarrierView {
                    kind: CarrierKind::Gbt33993,
                    identifier: g.identifier,
                    resolver_base_url: url_origin(t),
                    origin: Some(gbt33993::origin_name(g.origin)),
                },
            ),
            None => if is_urn(t) {
                Some(
                    CarrierView {
                        kind: CarrierKind::Unknown,
                        identifier: passed_through("iso-15459"@, t),
                        resolver_base_url: None,
                        origin: None,
                    },
                )
            } else {
                None
            },
        },
    }
}

/// The classification of a scanned carrier: parsed; invalid where it is a
/// URL with a `/g/` path or 13 or 14 digits and did not parse; unrecognized
/// otherwise.
pub open spec fn carrier_class(scanned: Seq<char>) -> LookupView {
    let t = text::trim(scanned);
    match carrier_of(scanned) {
        Some(c) => LookupView::Parsed(c),
        None => match gs1dl::url_parts(t) {
            Some(u) => if u.path_segments.len() > 0 && u.path_segments[0] == "g"@ {
                LookupView::Invalid
            } else {
                LookupView::Unrecognized
            },
            None => if gbt33993::is_legacy_shaped(t) {
                LookupView::Invalid
            } else {
                LookupView::Unrecognized
            },
        },
    }
}

/// The classification of a key path: a path that starts with two digits is an
/// AI path, one that starts with `g` is a GDS path.
pub open spec fn path_class(
    segments: Seq<Seq<char>>,
    query: Seq<(Seq<char>, Seq<char>)>,
) -> LookupView {
    if segments.len() > 0 && segments[0].len() == 2 && text::all_digits(segments[0]) {
        match gs1dl::key_path_element(segments, query) {
            Some(el) => LookupView::Parsed(
                CarrierView {
                    kind: CarrierKind::Gs1DigitalLink,
                    identifier: gs1dl::element_identifier(el),
                    resolver_base_url: None,
                    origin: None,
                },
            ),
            None => LookupView::Invalid,
        }
    } else if segments.len() > 0 && segments[0] == "g"@ {
        match gbt33993::gds_result(segments) {
            Some(g) => LookupView::Parsed(
                CarrierView {
                    kind: CarrierKind::Gbt33993,
                    identifier: g.identifier,
                    resolver_base_url: None,
                    origin: Some(gbt33993::origin_name(g.origin)),
                },
            ),
            None => LookupView::Invalid,
        }
    } else {
        LookupView::Unrecognized
    }
}

/// Reads the qualifiers that follow the GTIN of an element string: which of
/// lot and serial are there, or what is wrong.
pub open spec fn qualifiers_of(tail: Seq<char>, has_lot: bool, has_serial: bool) -> Result<
    (bool, bool),
    Seq<char>,
>
    decreases tail.len(),
{
    proof {
        reveal_strlit("(10)");
        reveal_strlit("(21)");
        text::lemma_position_is(tail.skip(4), '(');
    }
    let is_lot = "(10)"@.is_prefix_of(tail);
    let is_serial = "(21)"@.is_prefix_of(tail);
    let rest = tail.skip(4);
    let n = text::position(rest, '(') as int;
    if tail.len() == 0 {
        Ok((has_lot, has_serial))
    } else if !is_lot && !is_serial {
        Err("expected `(10)`/`(21)` qualifiers"@)
    } else if !gs1dl::is_dl_value(rest.take(n)) {
        Err("invalid qualifier value"@)
    } else if is_lot && has_lot {
        Err("duplicate (10)"@)
    } else if is_lot && has_serial {
        Err("qualifiers out of canonical order (10 before 21)"@)
    } else if is_lot {
        qualifiers_of(rest.skip(n), true, has_serial)
    } else if has_serial {
        Err("duplicate (21)"@)
    } else {
        qualifiers_of(rest.skip(n), has_lot, true)
    }
}

/// The complaint about a malformed element string.
pub open spec fn element_complaint(s: Seq<char>, m: Seq<char>) -> Seq<char> {
    "malformed element string `"@ + s + "`: "@ + m
}

/// The identifier of a canonical element string, or the complaint.
pub open spec fn element_string_identifier(s: Seq<char>) -> Result<IdentifierView, Seq<char>> {
    let body = s.skip(4);
    let n = text::position(body, '(') as int;
    if !"(01)"@.is_prefix_of(s) {
        Err(element_complaint(s, "expected `(01)` prefix"@))
    } else if n != 14 || !gs1dl::is_valid_gtin(body.take(n)) {
        Err(element_complaint(s, "expected a 14-digit GTIN with a valid check digit"@))
    } else {
        match qualifiers_of(body.skip(n), false, false) {
            Ok((has_lot, has_serial)) => Ok(
                IdentifierView {
                    scheme: "gs1"@,
                    value: s,
                    granularity: gs1dl::granularity(has_lot, has_serial),
                },
            ),
            Err(m) => Err(element_complaint(s, m)),
        }
    }
}

/// The identifier that a parameter names: a store key, a bare element string
/// or any carrier; or the complaint.
pub open spec fn identifier_of(input: Seq<char>) -> Result<IdentifierView, Seq<char>> {
    let t = text::trim(input);
    if t.len() == 0 {
        Err("empty identifier"@)
    } else if "gs1:"@.is_prefix_of(t) {
        element_string_identifier(t.skip(4))
    } else if "iso-15459:"@.is_prefix_of(t) {
        let rest = t.skip(10);
        if is_urn(rest) {
            Ok(passed_through("iso-15459"@, rest))
        } else {
            Err("not an ISO/IEC 15459 URN: `"@ + rest + "`"@)
        }
    } else if "gbt-33993:"@.is_prefix_of(t) {
        let rest = t.skip(10);
        if gs1dl::url_parts(rest) is Some {
            Ok(passed_through("gbt-33993"@, rest))
        } else {
            Err("not an http(s) URL: `"@ + rest + "`"@)
        }
    } else if "(01)"@.is_prefix_of(t) {
        element_string_identifier(t)
    } else {
        match carrier_class(t) {
            LookupView::Parsed(c) => Ok(c.identifier),
            LookupView::Invalid => Err("invalid carrier: `"@ + t + "`"@),
            LookupView::Unrecognized => Err("unrecognized identifier form: `"@ + t + "`"@),
        }
    }
}

/// The view of a parse result with a message as error.
pub open spec fn identifier_result(r: Result<ResolvedIdentifier, String>) -> Result<
    IdentifierView,
    Seq<char>,
> {
    match r {
        Ok(i) => Ok(i@),
        Err(m) => Err(m@),
    }
}

/// Is the text an ISO/IEC 15459 URN?
pub fn is_iso15459_urn(s: &str) -> (r: bool)
    ensures
        r == is_urn(s@),
{
    let cs = chars_of(s);
    urn_shaped(cs.as_slice())
}

fn urn_shaped(cs: &[char]) -> (r: bool)
    ensures
        r == is_urn(cs@),
{
    let prefix = chars_of("urn:iso:std:iso-iec:15459");
    let n: usize = prefix.len();
    if !begins_with(cs, prefix.as_slice()) || cs.len() - n < 2 {
        return false;
    }
    cs[n] == ':' || cs[n] == '#'
}

/// Parse any carrier into a normalized identifier. GS1 Digital Link is tried
/// first (a plain Digital Link URI must not be taken for a GB/T custom code),
/// GB/T shapes second, ISO/IEC 15459 URNs last.
pub fn parse_carrier(scanned: &str) -> (r: Option<CarrierParse>)
    ensures
        match r {
            Some(c) => carrier_of(scanned@) == Some(c@),
            None => carrier_of(scanned@) is None,
        },
{
    let cs = chars_of(scanned);
    let t = string_of(trimmed(cs.as_slice()));
    if let Some(el) = parse_gs1_digital_link(t.as_str()) {
        return Some(
            CarrierParse {
                kind: CarrierKind::Gs1DigitalLink,
                identifier: to_identifier(&el),
                resolver_base_url: origin_of(t.as_str()),
                origin: None,
            },
        );
    }
    if let Some(gbt) = parse_gbt33993(t.as_str()) {
        return Some(
            CarrierParse {
                kind: CarrierKind::Gbt33993,
                identifier: gbt.identifier,
                resolver_base_url: origin_of(t.as_str()),
                origin: Some(gbt.origin.as_str()),
            },
        );
    }
    if is_iso15459_urn(t.as_str()) {
        return Some(
            CarrierParse {
                kind: CarrierKind::Unknown,
                identifier: ResolvedIdentifier {
                    scheme: "iso-15459".to_string(),
                    value: t,
                    granularity: "item",
                },
                resolver_base_url: None,
                origin: None,
            },
        );
    }
    None
}

fn origin_of(t: &str) -> (r: Option<String>)
    ensures
        text::opt_text(r) == url_origin(t@),
{
    match split_url(t) {
        Some(u) => Some(u.origin),
        None => None,
    }
}

/// Classify a carrier string: syntactically invalid carriers are told from
/// unrecognized input. A URL shaped like a Digital Link with a bad check digit
/// is a GB/T custom code and therefore parses; the key-path form is where a
/// bad check digit is invalid.
pub fn classify_carrier(scanned: &str) -> (r: CarrierLookup)
    ensures
        r@ == carrier_class(scanned@),
{
    if let Some(parsed) = parse_carrier(scanned) {
        return CarrierLookup::Parsed(parsed);
    }
    let cs = chars_of(scanned);
    let t = trimmed(cs.as_slice());
    if let Some(url) = split_url_chars(t) {
        if url.path_segments.len() > 0 && same_text(url.path_segments[0].as_str(), "g") {
            return CarrierLookup::Invalid;
        }
        return CarrierLookup::Unrecognized;
    }
    if legacy_shaped(t) {
        return CarrierLookup::Invalid;
    }
    CarrierLookup::Unrecognized
}

/// Classify a resolver key path (e.g. `01/09506000134352/21/X` or
/// `g/6901234567892/AB2026111`).
pub fn classify_path(segments: &[String], query_pairs: &[(String, String)]) -> (r: CarrierLookup)
    ensures
        r@ == path_class(text::strings(segments@), text::string_pairs(query_pairs@)),
{
    if segments.len() == 0 {
        return CarrierLookup::Unrecognized;
    }
    let first = chars_of(segments[0].as_str());
    if first.len() == 2 && digits_only(first.as_slice()) {
        return match parse_key_path(segments, query_pairs) {
            Some(el) => CarrierLookup::Parsed(
                CarrierParse {
                    kind: CarrierKind::Gs1DigitalLink,
                    identifier: to_identifier(&el),
                    resolver_base_url: None,
                    origin: None,
                },
            ),
            None => CarrierLookup::Invalid,
        };
    }
    if is_text(first.as_slice(), "g") {
        return match parse_gds_path(segments) {
            Some(gbt) => CarrierLookup::Parsed(
                CarrierParse {
                    kind: CarrierKind::Gbt33993,
                    identifier: gbt.identifier,
                    resolver_base_url: None,
                    origin: Some(gbt.origin.as_str()),
                },
            ),
            None => CarrierLookup::Invalid,
        };
    }
    CarrierLookup::Unrecognized
}

/// Parse an already-normalized identifier. Accepts the canonical store key
/// (`gs1:(01)...`, `iso-15459:urn:...`, `gbt-33993:https://...`), a bare
/// canonical element string (`(01)K[(10)L][(21)S]`) and any carrier.
pub fn parse_identifier_param(input: &str) -> (r: Result<ResolvedIdentifier, String>)
    ensures
        identifier_result(r) == identifier_of(input@),
{
    proof {
        reveal_strlit("gs1:");
        reveal_strlit("iso-15459:");
        reveal_strlit("gbt-33993:");
    }
    let cs = chars_of(input);
    let t = trimmed(cs.as_slice());
    if t.len() == 0 {
        return Err("empty identifier".to_string());
    }
    if begins_with_str(t, "gs1:") {
        return parse_element_string(after(t, 4));
    }
    if begins_with_str(t, "iso-15459:") {
        let rest = after(t, 10);
        let value = string_of(rest);
        if urn_shaped(rest) {
            return Ok(
                ResolvedIdentifier {
                    scheme: "iso-15459".to_string(),
                    value,
                    granularity: "item",
                },
            );
        }
        return Err(concat3("not an ISO/IEC 15459 URN: `", value.as_str(), "`"));
    }
    if begins_with_str(t, "gbt-33993:") {
        let rest = after(t, 10);
        let value = string_of(rest);
        if split_url_chars(rest).is_some() {
            return Ok(
                ResolvedIdentifier {
                    scheme: "gbt-33993".to_string(),
                    value,
                    granularity: "item",
                },
            );
        }
        return Err(concat3("not an http(s) URL: `", value.as_str(), "`"));
    }
    if begins_with_str(t, "(01)") {
        return parse_element_string(t);
    }
    let name = string_of(t);
    match classify_carrier(name.as_str()) {
        CarrierLookup::Parsed(parsed) => Ok(parsed.identifier),
        CarrierLookup::Invalid => Err(concat3("invalid carrier: `", name.as_str(), "`")),
        CarrierLookup::Unrecognized => Err(
            concat3("unrecognized identifier form: `", name.as_str(), "`"),
        ),
    }
}

/// The complaint about a malformed element string.
fn malformed(s: &[char], m: &str) -> (r: String)
    ensures
        r@ == element_complaint(s@, m@),
{
    let mut out = concat3("malformed element string `", string_of(s).as_str(), "`: ");
    out.push_str(m);
    out
}

fn read_qualifiers(tail: &[char]) -> (r: Result<(bool, bool), &'static str>)
    ensures
        match r {
            Ok(f) => qualifiers_of(tail@, false, false) == Ok::<(bool, bool), Seq<char>>(f),
            Err(m) => qualifiers_of(tail@, false, false) == Err::<(bool, bool), Seq<char>>(m@),
        },
{
    proof {
        reveal_strlit("(10)");
        reveal_strlit("(21)");
    }
    let mut has_lot = false;
    let mut has_serial = false;
    let mut at: usize = 0;
    assert(tail@.skip(0) =~= tail@);
    while at < tail.len()
        invariant
            at <= tail.len(),
            "(10)"@.len() == 4,
            "(21)"@.len() == 4,
            qualifiers_of(tail@, false, false) == qualifiers_of(
                tail@.skip(at as int),
                has_lot,
                has_serial,
            ),
        decreases tail.len() - at,
    {
        let here = after(tail, at);
        let is_lot = begins_with_str(here, "(10)");
        let is_serial = begins_with_str(here, "(21)");
        if !is_lot && !is_serial {
            return Err("expected `(10)`/`(21)` qualifiers");
        }
        let rest = after(here, 4);
        let n: usize = position_of(rest, '(');
        if !valid_dl_value(before(rest, n)) {
            return Err("invalid qualifier value");
        }
        assert(rest@.skip(n as int) =~= tail@.skip(at + 4 + n));
        if is_lot {
            if has_lot {
                return Err("duplicate (10)");
            }
            if has_serial {
                return Err("qualifiers out of canonical order (10 before 21)");
            }
            has_lot = true;
        } else {
            if has_serial {
                return Err("duplicate (21)");
            }
            has_serial = true;
        }
        at = at + 4 + n;
    }
    Ok((has_lot, has_serial))
}

/// Parse a canonical GS1 element string `(01)K[(10)L][(21)S]` (fixed AI
/// order, check digit and qualifier charset enforced).
fn parse_element_string(s: &[char]) -> (r: Result<ResolvedIdentifier, String>)
    ensures
        identifier_result(r) == element_string_identifier(s@),
{
    proof {
        reveal_strlit("(01)");
    }
    if !begins_with_str(s, "(01)") {
        return Err(malformed(s, "expected `(01)` prefix"));
    }
    let body = after(s, 4);
    let n: usize = position_of(body, '(');
    if n != 14 || !gtin_is_valid(before(body, n)) {
        return Err(malformed(s, "expected a 14-digit GTIN with a valid check digit"));
    }
    match read_qualifiers(after(body, n)) {
        Ok(found) => Ok(
            ResolvedIdentifier {
                scheme: "gs1".to_string(),
                value: string_of(s),
                granularity: granularity_of(found.0, found.1),
            },
        ),
        Err(m) => Err(malformed(s, m)),
    }
}

// ---------------------------------------------------------------------------
// Laws
// ---------------------------------------------------------------------------

/// A qualifier value in which no `(` occurs, so that it can be told from the
/// AI that follows it in an element string.
pub open spec fn is_plain(v: Option<Seq<char>>) -> bool {
    v matches Some(s) ==> gs1dl::is_dl_value(s) && !s.contains('(')
}

/// An element string whose parts can be read back from its canonical form.
pub open spec fn is_readable(el: ElementView) -> bool {
    el.gtin.len() == 14 && gs1dl::is_valid_gtin(el.gtin) && is_plain(el.lot) && is_plain(el.serial)
}

proof fn lemma_no_paren(s: Seq<char>, t: Seq<char>)
    requires
        !s.contains('('),
        t.len() > 0 ==> t[0] == '(',
    ensures
        text::position(s + t, '(') == s.len(),
        (s + t).take(s.len() as int) == s,
        (s + t).skip(s.len() as int) == t,
{
    let u = s + t;
    assert forall|j: int| 0 <= j < s.len() implies u[j] != '(' by {
        assert(u[j] == s[j]);
    }
    text::lemma_position(u, '(', s.len() as int);
    assert(u.take(s.len() as int) =~= s);
    assert(u.skip(s.len() as int) =~= t);
}

proof fn lemma_serial_reads_back(serial: Option<Seq<char>>, has_lot: bool)
    requires
        is_plain(serial),
    ensures
        qualifiers_of(gs1dl::serial_part(serial), has_lot, false) == Ok::<(bool, bool), Seq<char>>(
            (has_lot, serial is Some),
        ),
{
    if let Some(v) = serial {
        reveal_strlit("(10)");
        reveal_strlit("(21)");
        let tail = gs1dl::serial_part(serial);
        let none = Seq::<char>::empty();
        assert("(21)"@.is_prefix_of(tail)) by {
            assert("(21)"@ =~= tail.subrange(0, 4));
        }
        assert(!"(10)"@.is_prefix_of(tail)) by {
            assert(tail.subrange(0, 4)[1] == '2');
            assert("(10)"@[1] == '1');
        }
        assert(tail.skip(4) =~= v + none);
        lemma_no_paren(v, none);
        assert(qualifiers_of(none, has_lot, true) == Ok::<(bool, bool), Seq<char>>((has_lot, true)));
    }
}

proof fn lemma_qualifiers_read_back(el: ElementView)
    requires
        is_readable(el),
    ensures
        qualifiers_of(gs1dl::lot_part(el.lot) + gs1dl::serial_part(el.serial), false, false) == Ok::<
            (bool, bool),
            Seq<char>,
        >((el.lot is Some, el.serial is Some)),
{
    reveal_strlit("(10)");
    reveal_strlit("(21)");
    let tail = gs1dl::lot_part(el.lot) + gs1dl::serial_part(el.serial);
    match el.lot {
        Some(v) => {
            assert("(10)"@.is_prefix_of(tail)) by {
                assert("(10)"@ =~= tail.subrange(0, 4));
            }
            assert(tail.skip(4) =~= v + gs1dl::serial_part(el.serial));
            lemma_no_paren(v, gs1dl::serial_part(el.serial));
            lemma_serial_reads_back(el.serial, true);
        },
        None => {
            assert(tail =~= gs1dl::serial_part(el.serial));
            lemma_serial_reads_back(el.serial, false);
        },
    }
}

/// Reading a canonical element string gives back the identifier that it was
/// written for: value and granularity.
pub proof fn law_element_string_reads_back(el: ElementView)
    requires
        is_readable(el),
    ensures
        element_string_identifier(gs1dl::canonical(el)) == Ok::<IdentifierView, Seq<char>>(
            gs1dl::element_identifier(el),
        ),
{
    reveal_strlit("(01)");
    reveal_strlit("(10)");
    reveal_strlit("(21)");
    let s = gs1dl::canonical(el);
    let tail = gs1dl::lot_part(el.lot) + gs1dl::serial_part(el.serial);
    assert("(01)"@.is_prefix_of(s)) by {
        assert("(01)"@ =~= s.subrange(0, 4));
    }
    assert(s.skip(4) =~= el.gtin + tail);
    assert(!el.gtin.contains('(')) by {
        assert forall|i: int| 0 <= i < el.gtin.len() implies el.gtin[i] != '(' by {
            assert(text::is_digit(el.gtin[i]));
        }
    }
    if el.lot is Some {
        assert(tail[0] == "(10)"@[0]);
    } else if el.serial is Some {
        assert(tail[0] == "(21)"@[0]);
    }
    lemma_no_paren(el.gtin, tail);
    lemma_qualifiers_read_back(el);
}

proof fn lemma_tight_concat(a: Seq<char>, b: Seq<char>)
    requires
        a.len() > 0,
        b.len() > 0,
        !text::is_space(a[0]),
        !text::is_space(b.last()),
    ensures
        text::trim(a + b) == a + b,
{
    let s = a + b;
    assert(s[0] == a[0]);
    assert(s.last() == b.last());
    text::lemma_trim_tight(s);
}

proof fn lemma_canonical_tight(el: ElementView)
    requires
        is_readable(el),
    ensures
        gs1dl::canonical(el).len() > 0,
        gs1dl::canonical(el)[0] == '(',
        !text::is_space(gs1dl::canonical(el).last()),
{
    reveal_strlit("(01)");
    let s = gs1dl::canonical(el);
    match (el.serial, el.lot) {
        (Some(v), _) => {
            assert(s.last() == v.last());
            assert(gs1dl::is_dl_char(v[v.len() - 1]));
        },
        (None, Some(v)) => {
            assert(s.last() == v.last());
            assert(gs1dl::is_dl_char(v[v.len() - 1]));
        },
        (None, None) => {
            assert(s.last() == el.gtin.last());
            assert(text::is_digit(el.gtin[13]));
        },
    }
}

/// The store key of a GS1 identifier names that identifier, and so does its
/// bare element string.
pub proof fn law_gs1_key_names_its_identifier(el: ElementView)
    requires
        is_readable(el),
    ensures
        identifier_of(gs1dl::element_identifier(el).key()) == Ok::<IdentifierView, Seq<char>>(
            gs1dl::element_identifier(el),
        ),
        identifier_of(gs1dl::canonical(el)) == Ok::<IdentifierView, Seq<char>>(gs1dl::element_identifier(el)),
{
    reveal_strlit("gs1");
    reveal_strlit(":");
    reveal_strlit("gs1:");
    reveal_strlit("iso-15459:");
    reveal_strlit("gbt-33993:");
    reveal_strlit("(01)");
    law_element_string_reads_back(el);
    lemma_canonical_tight(el);
    let v = gs1dl::canonical(el);
    let k = gs1dl::element_identifier(el).key();
    assert(k =~= "gs1:"@ + v);
    lemma_tight_concat("gs1:"@, v);
    assert("gs1:"@ =~= k.subrange(0, 4));
    assert(k.skip(4) =~= v);
    text::lemma_trim_tight(v);
    assert(v.subrange(0, 4)[0] == '(');
    assert("gs1:"@[0] == 'g');
    assert(v.len() >= 10 ==> v.subrange(0, 10)[0] == '(');
    assert("iso-15459:"@[0] == 'i');
    assert("gbt-33993:"@[0] == 'g');
    assert("(01)"@ =~= v.subrange(0, 4));
}

proof fn lemma_urn_not_empty(v: Seq<char>)
    requires
        is_urn(v),
    ensures
        v.len() > 0,
{
}

/// The store key of an ISO/IEC 15459 identifier names that identifier.
pub proof fn law_urn_key_names_its_identifier(v: Seq<char>)
    requires
        is_urn(v),
        !text::is_space(v.last()),
    ensures
        identifier_of(passed_through("iso-15459"@, v).key()) == Ok::<IdentifierView, Seq<char>>(
            passed_through("iso-15459"@, v),
        ),
{
    reveal_strlit("iso-15459");
    reveal_strlit(":");
    reveal_strlit("gs1:");
    reveal_strlit("iso-15459:");
    let k = passed_through("iso-15459"@, v).key();
    assert(k =~= "iso-15459:"@ + v);
    lemma_tight_concat("iso-15459:"@, v);
    assert("iso-15459:"@ =~= k.subrange(0, 10));
    assert(k.skip(10) =~= v);
    assert(k.subrange(0, 4)[0] == 'i');
    assert("gs1:"@[0] == 'g');
}

/// The store key of a GB/T custom code names that identifier.
pub proof fn law_custom_code_key_names_its_identifier(v: Seq<char>)
    requires
        gs1dl::url_parts(v) is Some,
        v.len() > 0 ==> !text::is_space(v.last()),
    ensures
        identifier_of(passed_through("gbt-33993"@, v).key()) == Ok::<IdentifierView, Seq<char>>(
            passed_through("gbt-33993"@, v),
        ),
{
    reveal_strlit("gbt-33993");
    reveal_strlit(":");
    reveal_strlit("gs1:");
    reveal_strlit("iso-15459:");
    reveal_strlit("gbt-33993:");
    let k = passed_through("gbt-33993"@, v).key();
    assert(k =~= "gbt-33993:"@ + v);
    if v.len() > 0 {
        lemma_tight_concat("gbt-33993:"@, v);
    } else {
        text::lemma_trim_tight(k);
    }
    assert("gbt-33993:"@ =~= k.subrange(0, 10));
    assert(k.skip(10) =~= v);
    assert(k.subrange(0, 4)[1] == 'b');
    assert("gs1:"@[1] == 's');
    assert(k.subrange(0, 10)[0] == 'g');
    assert("iso-15459:"@[0] == 'i');
}

/// Whatever carrier an identifier came from, its store key names it again.
/// (A Digital Link whose lot or serial holds a `(` is the exception: such a
/// value cannot be told from a following AI.)
pub proof fn law_carrier_key_names_its_identifier(scanned: Seq<char>)
    requires
        carrier_of(scanned) is Some,
        gs1dl::digital_link_element(text::trim(scanned)) matches Some(el) ==> is_plain(el.lot) && is_plain(
            el.serial,
        ),
    ensures
        identifier_of(carrier_of(scanned)->0.identifier.key()) == Ok::<IdentifierView, Seq<char>>(
            carrier_of(scanned)->0.identifier,
        ),
{
    let t = text::trim(scanned);
    text::lemma_trim_is_tight(scanned);
    match gs1dl::digital_link_element(t) {
        Some(el) => {
            law_gs1_key_names_its_identifier(el);
        },
        None => {
            match gbt33993::gbt_result(t) {
                Some(g) => {
                    match gs1dl::url_parts(t) {
                        Some(u) => {
                            if gbt33993::is_gds_shaped(u.path_segments) {
                                lemma_gds_readable(u.path_segments);
                                law_gs1_key_names_its_identifier(
                                    gbt33993::gds_element(u.path_segments)->0,
                                );
                            } else {
                                law_custom_code_key_names_its_identifier(t);
                            }
                        },
                        None => {
                            law_gs1_key_names_its_identifier(
                                ElementView { gtin: gs1dl::pad14(t), lot: None, serial: None },
                            );
                        },
                    }
                },
                None => {
                    lemma_urn_not_empty(t);
                    law_urn_key_names_its_identifier(t);
                },
            }
        },
    }
}

proof fn lemma_gds_readable(segments: Seq<Seq<char>>)
    requires
        gbt33993::gds_element(segments) is Some,
    ensures
        is_readable(gbt33993::gds_element(segments)->0),
{
    reveal_strlit("0");
    if segments.len() == 3 && gbt33993::is_qualifier(segments[2]) {
        let q = segments[2];
        assert forall|i: int| 0 <= i < q.len() implies gs1dl::is_dl_char(#[trigger] q[i]) && q[i] != '(' by {
            assert(gbt33993::is_qualifier_char(q[i]));
        }
    }
}

/// Digits are no URL.
pub proof fn lemma_digits_are_no_url(s: Seq<char>)
    requires
        text::all_digits(s),
    ensures
        text::find(s, "://"@) is None,
    decreases s.len(),
{
    reveal_strlit("://");
    if s.len() >= 3 {
        assert(text::is_digit(s[0]));
        assert(s.subrange(0, 3)[0] == s[0]);
        assert("://"@[0] == ':');
    }
    if s.len() > 0 {
        assert forall|i: int| 0 <= i < s.skip(1).len() implies text::is_digit(#[trigger] s.skip(1)[i]) by {
            assert(s.skip(1)[i] == s[i + 1]);
        }
        lemma_digits_are_no_url(s.skip(1));
    }
}

/// One GTIN-13, one identity: the bare code, the GDS path and the AI path all
/// normalize to the same identifier.
pub proof fn law_gtin13_carriers_agree(s: Seq<char>)
    requires
        s.len() == 13,
        gs1dl::is_valid_gtin(s),
    ensures
        ({
            let id = gs1dl::element_identifier(ElementView { gtin: gs1dl::pad14(s), lot: None, serial: None });
            let none = Seq::<(Seq<char>, Seq<char>)>::empty();
            &&& carrier_of(s) matches Some(c) && c.identifier == id
            &&& path_class(seq!["g"@, s], none) matches LookupView::Parsed(c) && c.identifier == id
            &&& path_class(seq!["01"@, s], none) matches LookupView::Parsed(c) && c.identifier == id
        }),
{
    reveal_strlit("g");
    reveal_strlit("0");
    reveal_strlit("01");
    reveal_strlit("10");
    reveal_strlit("21");
    gs1dl::law_padding_keeps_validity(s);
    assert(text::is_digit(s[0]) && text::is_digit(s[12]));
    text::lemma_trim_tight(s);
    lemma_digits_are_no_url(s);
    assert("0"@ + s =~= gs1dl::pad14(s));
    let none = Seq::<(Seq<char>, Seq<char>)>::empty();
    let ai = seq!["01"@, s];
    let pairs = gs1dl::path_ais(ai);
    assert(pairs =~= seq![("01"@, s)]) by {
        assert(ai.skip(2) =~= Seq::empty());
        assert(gs1dl::path_ais(ai.skip(2)) =~= Seq::empty());
    }
    assert("01"@[0] != "10"@[0]);
    assert("01"@[0] != "21"@[0]);
    assert(pairs.skip(1) =~= none);
    assert(gs1dl::lookup(pairs, "10"@) is None);
    assert(gs1dl::lookup(pairs, "21"@) is None);
    assert(gs1dl::lookup(pairs, "01"@) == Some(s));
    assert(seq!["g"@, s][0].len() == 1);
    let p = gbt33993::gds_element(seq!["g"@, s]);
    assert(p is Some);
}

/// White space around a carrier or an identifier never matters.
pub proof fn law_surrounding_space_is_ignored(s: Seq<char>)
    ensures
        carrier_of(text::trim(s)) == carrier_of(s),
        carrier_class(text::trim(s)) == carrier_class(s),
        identifier_of(text::trim(s)) == identifier_of(s),
{
    text::lemma_trim_is_tight(s);
}

} // verus!
