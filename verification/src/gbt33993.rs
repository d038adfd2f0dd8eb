//! GB/T 33993 commodity QR codes: a national wrapper over GS1 syntax. The
//! carrier shapes understood here are
//!
//! 1. `https://<host>/g/<13-digit GTIN>[/<serial-or-lot>]` (GDS style),
//! 2. any other `http(s)` URL: an enterprise custom code,
//! 3. a bare EAN-13 or GTIN-14 scanned from a legacy 1D code.
//!
//! GTIN-bearing shapes normalize to the same `gs1` identifiers as a GS1
//! Digital Link; custom codes keep the scheme `gbt-33993`.

use vstd::prelude::*;

use crate::carrier::{IdentifierView, ResolvedIdentifier};
use crate::gs1dl;
use crate::gs1dl::{
    ElementView, Gs1ElementString, gtin_is_valid, padded14, split_url_chars, to_identifier,
    valid_gtin,
};
use crate::text;
use crate::text::{chars_of, digit, digits_only, letter, same_text, string_of, trimmed};

verus! {

/// How the identifier was carried.
#[derive(Debug, Clone, Copy, PartialEq, Eq, Structural)]
pub enum GbtOrigin {
    GdsPath,
    LegacyEan13,
    CustomCode,
}

/// The name of an origin.
pub open spec fn origin_name(o: GbtOrigin) -> Seq<char> {
    match o {
        GbtOrigin::GdsPath => "gds-path"@,
        GbtOrigin::LegacyEan13 => "legacy-ean13"@,
        GbtOrigin::CustomCode => "custom-code"@,
    }
}

impl GbtOrigin {
    pub fn as_str(&self) -> (r: &'static str)
        ensures
            r@ == origin_name(*self),
    {
        match self {
            GbtOrigin::GdsPath => "gds-path",
            GbtOrigin::LegacyEan13 => "legacy-ean13",
            GbtOrigin::CustomCode => "custom-code",
        }
    }
}

#[derive(Debug, Clone, PartialEq, Eq)]
pub struct GbtParseResult {
    pub identifier: ResolvedIdentifier,
    pub origin: GbtOrigin,
}

/// What a [`GbtParseResult`] holds.
#[verifier::ext_equal]
pub struct GbtView {
    pub identifier: IdentifierView,
    pub origin: GbtOrigin,
}

impl View for GbtParseResult {
    type V = GbtView;

    open spec fn view(&self) -> GbtView {
        GbtView { identifier: self.identifier@, origin: self.origin }
    }
}

/// Charset of a GDS qualifier segment: letters, digits, `_`, `.` and `-`.
pub open spec fn is_qualifier_char(c: char) -> bool {
    text::is_letter(c) || text::is_digit(c) || c == '_' || c == '.' || c == '-'
}

/// A usable qualifier segment: 1 to 20 characters of the charset.
pub open spec fn is_qualifier(q: Seq<char>) -> bool {
    1 <= q.len() <= 20 && forall|i: int| 0 <= i < q.len() ==> is_qualifier_char(#[trigger] q[i])
}

/// The text has a letter.
pub open spec fn has_letter(q: Seq<char>) -> bool {
    exists|i: int| 0 <= i < q.len() && text::is_letter(#[trigger] q[i])
}

/// A segment in the place and shape of a GTIN-13.
pub open spec fn is_gtin13_shaped(s: Seq<char>) -> bool {
    s.len() == 13 && text::all_digits(s)
}

/// A path that starts like a GDS path: `g`, followed by 13 digits.
pub open spec fn is_gds_shaped(segments: Seq<Seq<char>>) -> bool {
    segments.len() >= 2 && segments[0] == "g"@ && is_gtin13_shaped(segments[1])
}

/// The element string of a GDS path. A qualifier segment is a serial where it
/// has a letter, else a lot; one that breaks the charset or length rule is
/// dropped.
pub open spec fn gds_element(segments: Seq<Seq<char>>) -> Option<ElementView> {
    if !is_gds_shaped(segments) || segments.len() > 3 {
        None
    } else {
        let gtin = "0"@ + segments[1];
        let usable = segments.len() == 3 && is_qualifier(segments[2]);
        if gs1dl::is_valid_gtin(gtin) {
            Some(
                ElementView {
                    gtin,
                    lot: if usable && !has_letter(segments[2]) {
                        Some(segments[2])
                    } else {
                        None
                    },
                    serial: if usable && has_letter(segments[2]) {
                        Some(segments[2])
                    } else {
                        None
                    },
                },
            )
        } else {
            None
        }
    }
}

/// The result for a GDS path.
pub open spec fn gds_result(segments: Seq<Seq<char>>) -> Option<GbtView> {
    match gds_element(segments) {
        Some(el) => Some(
            GbtView { identifier: gs1dl::element_identifier(el), origin: GbtOrigin::GdsPath },
        ),
        None => None,
    }
}

/// A bare legacy code: 13 or 14 digits.
pub open spec fn is_legacy_shaped(s: Seq<char>) -> bool {
    (s.len() == 13 || s.len() == 14) && text::all_digits(s)
}

/// The result for a GB/T 33993 carrier.
pub open spec fn gbt_result(code: Seq<char>) -> Option<GbtView> {
    let t = text::trim(code);
    match gs1dl::url_parts(t) {
        Some(u) => if is_gds_shaped(u.path_segments) {
            gds_result(u.path_segments)
        } else {
            Some(
                GbtView {
                    identifier: IdentifierView {
                        scheme: "gbt-33993"@,
                        value: t,
                        granularity: "item"@,
                    },
                    origin: GbtOrigin::CustomCode,
                },
            )
        },
        None => if is_legacy_shaped(t) && gs1dl::is_valid_gtin(gs1dl::pad14(t)) {
            Some(
                GbtView {
                    identifier: gs1dl::element_identifier(
                        ElementView { gtin: gs1dl::pad14(t), lot: None, serial: None },
                    ),
                    origin: GbtOrigin::LegacyEan13,
                },
            )
        } else {
            None
        },
    }
}

fn gbt_qualifier_charset(q: &[char]) -> (r: bool)
    ensures
        r == (forall|i: int| 0 <= i < q@.len() ==> is_qualifier_char(#[trigger] q@[i])),
{
    let mut i: usize = 0;
    while i < q.len()
        invariant
            i <= q.len(),
            forall|j: int| 0 <= j < i ==> is_qualifier_char(#[trigger] q@[j]),
        decreases q.len() - i,
    {
        let c = q[i];
        if !(letter(c) || digit(c) || c == '_' || c == '.' || c == '-') {
            return false;
        }
        i += 1;
    }
    true
}

fn any_letter(q: &[char]) -> (r: bool)
    ensures
        r == has_letter(q@),
{
    let mut i: usize = 0;
    while i < q.len()
        invariant
            i <= q.len(),
            forall|j: int| 0 <= j < i ==> !text::is_letter(#[trigger] q@[j]),
        decreases q.len() - i,
    {
        if letter(q[i]) {
            return true;
        }
        i += 1;
    }
    false
}

/// Does the path start like a GDS path?
pub(crate) fn gds_shaped(segments: &[String]) -> (r: bool)
    ensures
        r == is_gds_shaped(text::strings(segments@)),
{
    if segments.len() < 2 || !same_text(segments[0].as_str(), "g") {
        return false;
    }
    let gtin13 = chars_of(segments[1].as_str());
    gtin13.len() == 13 && digits_only(gtin13.as_slice())
}

/// Parse a GDS-style `/g/` path (already percent-decoded segments).
pub fn parse_gds_path(segments: &[String]) -> (r: Option<GbtParseResult>)
    ensures
        match r {
            Some(g) => gds_result(text::strings(segments@)) == Some(g@),
            None => gds_result(text::strings(segments@)) is None,
        },
{
    if !gds_shaped(segments) || segments.len() > 3 {
        return None;
    }
    let mut gtin = String::new();
    gtin.push_str("0");
    gtin.push_str(segments[1].as_str());
    assert(gtin@ =~= "0"@ + segments@[1]@);
    if !valid_gtin(gtin.as_str()) {
        return None;
    }
    let mut lot: Option<String> = None;
    let mut serial: Option<String> = None;
    if segments.len() == 3 {
        let q = chars_of(segments[2].as_str());
        if q.len() >= 1 && q.len() <= 20 && gbt_qualifier_charset(q.as_slice()) {
            if any_letter(q.as_slice()) {
                serial = Some(segments[2].clone());
            } else {
                lot = Some(segments[2].clone());
            }
        }
    }
    let el = Gs1ElementString { gtin, lot, serial };
    Some(GbtParseResult { identifier: to_identifier(&el), origin: GbtOrigin::GdsPath })
}

/// Parse a GB/T 33993 carrier: a full URL (GDS path or custom code) or a bare
/// legacy EAN-13 / GTIN-14. A GDS-shaped path with an invalid check digit is
/// rejected outright, not demoted to a custom code.
pub fn parse_gbt33993(code: &str) -> (r: Option<GbtParseResult>)
    ensures
        match r {
            Some(g) => gbt_result(code@) == Some(g@),
            None => gbt_result(code@) is None,
        },
{
    let cs = chars_of(code);
    let t = trimmed(cs.as_slice());
    if let Some(url) = split_url_chars(t) {
        if gds_shaped(url.path_segments.as_slice()) {
            return parse_gds_path(url.path_segments.as_slice());
        }
        return Some(
            GbtParseResult {
                identifier: ResolvedIdentifier {
                    scheme: "gbt-33993".to_string(),
                    value: string_of(t),
                    granularity: "item",
                },
                origin: GbtOrigin::CustomCode,
            },
        );
    }
    if legacy_shaped(t) {
        let gtin = padded14(t);
        if gtin_is_valid(gtin.as_slice()) {
            let el = Gs1ElementString {
                gtin: string_of(gtin.as_slice()),
                lot: None,
                serial: None,
            };
            return Some(
                GbtParseResult { identifier: to_identifier(&el), origin: GbtOrigin::LegacyEan13 },
            );
        }
    }
    None
}

/// Is the text a bare legacy code?
pub(crate) fn legacy_shaped(t: &[char]) -> (r: bool)
    ensures
        r == is_legacy_shaped(t@),
{
    (t.len() == 13 || t.len() == 14) && digits_only(t)
}

} // verus!
