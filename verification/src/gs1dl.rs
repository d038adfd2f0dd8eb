//! GS1 Digital Link parsing: application identifiers (AIs) 01 (GTIN), 10
//! (batch/lot) and 21 (serial), in path and/or query position, normalized to
//! identifiers. The GS1 mod-10 check digit is enforced, a GTIN is canonical
//! at 14 digits, AIs stand in the fixed order `01 10 21`, and a qualifier
//! value has 1 to 20 characters of the Digital Link value charset.

use vstd::prelude::*;
use vstd::utf8::*;

use crate::carrier::{IdentifierView, ResolvedIdentifier};
use crate::text;
use crate::text::{
    after, before, chars_of, digits_only, find_text, is_text, letter, lower_of, position_of,
    same_text, split_at_each, string_of, utf8_text, value_of_digit,
};

verus! {

/// The AIs that identifiers are built from.
pub const SUPPORTED_AIS: [&'static str; 3] = ["01", "10", "21"];

/// GS1 element string: canonical 14-digit GTIN plus optional lot and serial.
#[derive(Debug, Clone, PartialEq, Eq)]
pub struct Gs1ElementString {
    pub gtin: String,
    pub lot: Option<String>,
    pub serial: Option<String>,
}

/// What a [`Gs1ElementString`] holds.
#[verifier::ext_equal]
pub struct ElementView {
    pub gtin: Seq<char>,
    pub lot: Option<Seq<char>>,
    pub serial: Option<Seq<char>>,
}

impl View for Gs1ElementString {
    type V = ElementView;

    open spec fn view(&self) -> ElementView {
        ElementView { gtin: self.gtin@, lot: text::opt_text(self.lot), serial: text::opt_text(self.serial) }
    }
}

// ---------------------------------------------------------------------------
// Check digit
// ---------------------------------------------------------------------------

/// Weight of the digit that has `k` digits to its right: 3 and 1 alternate,
/// the rightmost one weighs 3.
pub open spec fn weight(k: int) -> int {
    if k % 2 == 0 {
        3
    } else {
        1
    }
}

/// Weighted digit sum of a run of digits.
pub open spec fn weighted_sum(s: Seq<char>) -> int
    decreases s.len(),
{
    if s.len() == 0 {
        0
    } else {
        text::digit_value(s[0]) * weight(s.len() - 1) + weighted_sum(s.skip(1))
    }
}

/// The mod-10 check digit of a run of data digits.
pub open spec fn check_digit(data: Seq<char>) -> int {
    (10 - weighted_sum(data) % 10) % 10
}

/// A full GTIN: 8, 12, 13 or 14 digits of which the last is the check digit
/// of the others.
pub open spec fn is_valid_gtin(s: Seq<char>) -> bool {
    &&& s.len() == 8 || 12 <= s.len() <= 14
    &&& text::all_digits(s)
    &&& text::digit_value(s.last()) == check_digit(s.drop_last())
}

/// GS1 mod-10 check digit over the data digits; `None` unless there is at
/// least one character and all of them are digits.
pub fn gs1_check_digit(data_digits: &str) -> (r: Option<u32>)
    ensures
        r is Some <==> data_digits@.len() > 0 && text::all_digits(data_digits@),
        r matches Some(d) ==> d == check_digit(data_digits@),
{
    let cs = chars_of(data_digits);
    check_digit_of(cs.as_slice())
}

fn check_digit_of(cs: &[char]) -> (r: Option<u32>)
    ensures
        r is Some <==> cs@.len() > 0 && text::all_digits(cs@),
        r matches Some(d) ==> d == check_digit(cs@),
{
    if cs.len() == 0 || !digits_only(cs) {
        return None;
    }
    let mut sum: u32 = 0;
    let mut w: u32 = 3;
    let mut i: usize = cs.len();
    assert(cs@.skip(i as int) =~= Seq::<char>::empty());
    while i > 0
        invariant
            i <= cs.len(),
            text::all_digits(cs@),
            w == weight(cs.len() - i),
            w == 1 || w == 3,
            sum < 10,
            sum == weighted_sum(cs@.skip(i as int)) % 10,
        decreases i,
    {
        let ghost tail = cs@.skip(i - 1);
        assert(tail.skip(1) =~= cs@.skip(i as int));
        assert(text::is_digit(cs@[i - 1]));
        i -= 1;
        let d: u32 = value_of_digit(cs[i]);
        proof {
            let k = weight(tail.len() - 1);
            assert(weighted_sum(tail) == text::digit_value(tail[0]) * k + weighted_sum(tail.skip(1)));
            assert(k == w);
            if w == 3 {
                assert(text::digit_value(tail[0]) * k == 3 * d) by (nonlinear_arith)
                    requires
                        k == 3,
                        text::digit_value(tail[0]) == d,
                ;
            } else {
                assert(text::digit_value(tail[0]) * k == d) by (nonlinear_arith)
                    requires
                        k == 1,
                        text::digit_value(tail[0]) == d,
                ;
            }
        }
        sum = if w == 3 { (sum + d * 3) % 10 } else { (sum + d) % 10 };
        w = if w == 3 { 1 } else { 3 };
    }
    assert(cs@.skip(0) =~= cs@);
    Some((10 - sum) % 10)
}

/// Validate a full GTIN (8, 12, 13 or 14 digits) with its check digit.
pub fn valid_gtin(gtin: &str) -> (r: bool)
    ensures
        r == is_valid_gtin(gtin@),
{
    let cs = chars_of(gtin);
    gtin_is_valid(cs.as_slice())
}

pub(crate) fn gtin_is_valid(cs: &[char]) -> (r: bool)
    ensures
        r == is_valid_gtin(cs@),
{
    let n: usize = cs.len();
    if !(n == 8 || (n >= 12 && n <= 14)) || !digits_only(cs) {
        return false;
    }
    let data = before(cs, n - 1);
    assert(data@ =~= cs@.drop_last());
    assert forall|i: int| 0 <= i < data@.len() implies text::is_digit(#[trigger] data@[i]) by {
        assert(data@[i] == cs@[i]);
    }
    assert(text::is_digit(cs@[n - 1]));
    match check_digit_of(data) {
        Some(d) => d == value_of_digit(cs[n - 1]),
        None => false,
    }
}

// ---------------------------------------------------------------------------
// Canonical form
// ---------------------------------------------------------------------------

/// `(10)` and the lot, or nothing.
pub open spec fn lot_part(lot: Option<Seq<char>>) -> Seq<char> {
    match lot {
        Some(l) => "(10)"@ + l,
        None => Seq::empty(),
    }
}

/// `(21)` and the serial, or nothing.
pub open spec fn serial_part(serial: Option<Seq<char>>) -> Seq<char> {
    match serial {
        Some(s) => "(21)"@ + s,
        None => Seq::empty(),
    }
}

/// The canonical element string: `(01)` GTIN, then lot, then serial.
pub open spec fn canonical(el: ElementView) -> Seq<char> {
    "(01)"@ + el.gtin + lot_part(el.lot) + serial_part(el.serial)
}

/// `item` with a serial, else `batch` with a lot, else `model`.
pub open spec fn granularity(has_lot: bool, has_serial: bool) -> Seq<char> {
    if has_serial {
        "item"@
    } else if has_lot {
        "batch"@
    } else {
        "model"@
    }
}

/// The identifier of an element string.
pub open spec fn element_identifier(el: ElementView) -> IdentifierView {
    IdentifierView {
        scheme: "gs1"@,
        value: canonical(el),
        granularity: granularity(el.lot is Some, el.serial is Some),
    }
}

/// Normalize to the canonical GS1 element string, e.g. `(01)X(10)Y(21)Z`.
pub fn canonical_element_string(el: &Gs1ElementString) -> (r: String)
    ensures
        r@ == canonical(el@),
{
    let mut s = String::new();
    s.push_str("(01)");
    s.push_str(el.gtin.as_str());
    if let Some(lot) = &el.lot {
        s.push_str("(10)");
        s.push_str(lot.as_str());
    }
    if let Some(serial) = &el.serial {
        s.push_str("(21)");
        s.push_str(serial.as_str());
    }
    assert(s@ =~= canonical(el@));
    s
}

/// Convert to a normalized identifier (scheme `gs1`, granularity derived).
pub fn to_identifier(el: &Gs1ElementString) -> (r: ResolvedIdentifier)
    ensures
        r@ == element_identifier(el@),
{
    ResolvedIdentifier {
        scheme: "gs1".to_string(),
        value: canonical_element_string(el),
        granularity: granularity_of(el.lot.is_some(), el.serial.is_some()),
    }
}

pub(crate) fn granularity_of(has_lot: bool, has_serial: bool) -> (r: &'static str)
    ensures
        r@ == granularity(has_lot, has_serial),
{
    if has_serial {
        "item"
    } else if has_lot {
        "batch"
    } else {
        "model"
    }
}

// ---------------------------------------------------------------------------
// Qualifier values
// ---------------------------------------------------------------------------

/// Digital Link value charset for AIs 10 and 21: `!`, `%` to `?`, the ASCII
/// letters and `_`.
pub open spec fn is_dl_char(c: char) -> bool {
    c == '!' || '%' <= c <= '?' || text::is_letter(c) || c == '_'
}

/// A qualifier value: 1 to 20 characters of the charset.
pub open spec fn is_dl_value(s: Seq<char>) -> bool {
    1 <= s.len() <= 20 && forall|i: int| 0 <= i < s.len() ==> is_dl_char(#[trigger] s[i])
}

pub(crate) fn valid_dl_value(cs: &[char]) -> (r: bool)
    ensures
        r == is_dl_value(cs@),
{
    if cs.len() < 1 || cs.len() > 20 {
        return false;
    }
    let mut i: usize = 0;
    while i < cs.len()
        invariant
            i <= cs.len(),
            forall|j: int| 0 <= j < i ==> is_dl_char(#[trigger] cs@[j]),
        decreases cs.len() - i,
    {
        let c = cs[i];
        if !(c == '!' || ('%' <= c && c <= '?') || letter(c) || c == '_') {
            return false;
        }
        i += 1;
    }
    true
}

// ---------------------------------------------------------------------------
// URLs
// ---------------------------------------------------------------------------

/// Parsed pieces of an `http(s)` URL, enough for the carriers.
#[derive(Debug, Clone, PartialEq, Eq)]
pub struct UrlParts {
    pub scheme: String,
    pub origin: String,
    /// Percent-decoded path segments (empty segments dropped).
    pub path_segments: Vec<String>,
    pub query_pairs: Vec<(String, String)>,
}

/// What a [`UrlParts`] holds.
#[verifier::ext_equal]
pub struct UrlView {
    pub scheme: Seq<char>,
    pub origin: Seq<char>,
    pub path_segments: Seq<Seq<char>>,
    pub query_pairs: Seq<(Seq<char>, Seq<char>)>,
}

impl View for UrlParts {
    type V = UrlView;

    open spec fn view(&self) -> UrlView {
        UrlView {
            scheme: self.scheme@,
            origin: self.origin@,
            path_segments: text::strings(self.path_segments@),
            query_pairs: text::string_pairs(self.query_pairs@),
        }
    }
}

/// The value of a hexadecimal digit.
pub open spec fn hex_value(b: u8) -> Option<int> {
    if 0x30 <= b <= 0x39 {
        Some(b - 0x30)
    } else if 0x61 <= b <= 0x66 {
        Some(b - 0x61 + 10)
    } else if 0x41 <= b <= 0x46 {
        Some(b - 0x41 + 10)
    } else {
        None
    }
}

/// Bytes with each `%XY` escape replaced by the byte it stands for; `None`
/// where a `%` is not followed by two hexadecimal digits.
pub open spec fn unescape(b: Seq<u8>) -> Option<Seq<u8>>
    decreases b.len(),
{
    if b.len() == 0 {
        Some(Seq::empty())
    } else if b[0] == 0x25 {
        if b.len() < 3 {
            None
        } else {
            match (hex_value(b[1]), hex_value(b[2]), unescape(b.skip(3))) {
                (Some(h), Some(l), Some(rest)) => Some(seq![(16 * h + l) as u8] + rest),
                _ => None,
            }
        }
    } else {
        match unescape(b.skip(1)) {
            Some(rest) => Some(seq![b[0]] + rest),
            None => None,
        }
    }
}

/// Percent-decoding of a text: its UTF-8 bytes unescaped, read as UTF-8.
pub open spec fn percent_decoded(s: Seq<char>) -> Option<Seq<char>> {
    match unescape(encode_utf8(s)) {
        Some(b) => if valid_utf8(b) {
            Some(decode_utf8(b))
        } else {
            None
        },
        None => None,
    }
}

/// A text with every `+` turned into a space.
pub open spec fn plus_to_space(s: Seq<char>) -> Seq<char> {
    s.map_values(
        |c: char|
            if c == '+' {
                ' '
            } else {
                c
            },
    )
}

fn hex_val(b: u8) -> (r: Option<u8>)
    ensures
        match r {
            Some(h) => hex_value(b) == Some(h as int) && h < 16,
            None => hex_value(b) is None,
        },
{
    if 0x30 <= b && b <= 0x39 {
        Some(b - 0x30)
    } else if 0x61 <= b && b <= 0x66 {
        Some(b - 0x61 + 10)
    } else if 0x41 <= b && b <= 0x46 {
        Some(b - 0x41 + 10)
    } else {
        None
    }
}

/// Percent-decode a path segment; `None` on a malformed escape or where the
/// decoded bytes are not UTF-8.
pub fn percent_decode(s: &str) -> (r: Option<String>)
    ensures
        text::opt_text(r) == percent_decoded(s@),
{
    let b = s.as_bytes();
    let ghost all = b@;
    let mut out: Vec<u8> = Vec::new();
    let mut i: usize = 0;
    assert(all.skip(0) =~= all);
    while i < b.len()
        invariant
            i <= b.len(),
            b@ == all,
            all == encode_utf8(s@),
            unescape(all) == (match unescape(all.skip(i as int)) {
                Some(rest) => Some(out@ + rest),
                None => None,
            }),
        decreases b.len() - i,
    {
        let ghost rest = all.skip(i as int);
        if b[i] == 0x25 {
            if b.len() - i < 3 {
                assert(unescape(rest) is None);
                return None;
            }
            assert(rest[1] == b@[i + 1] && rest[2] == b@[i + 2]);
            let h = hex_val(b[i + 1]);
            let l = hex_val(b[i + 2]);
            match (h, l) {
                (Some(h), Some(l)) => {
                    let ghost before = out@;
                    out.push(h * 16 + l);
                    assert(rest.skip(3) =~= all.skip(i + 3));
                    proof {
                        if let Some(tail) = unescape(rest.skip(3)) {
                            assert(before + (seq![(16 * h + l) as u8] + tail) =~= out@ + tail);
                        }
                    }
                    i += 3;
                },
                _ => {
                    assert(unescape(rest) is None);
                    return None;
                },
            }
        } else {
            let ghost before = out@;
            out.push(b[i]);
            assert(rest.skip(1) =~= all.skip(i + 1));
            proof {
                if let Some(tail) = unescape(rest.skip(1)) {
                    assert(before + (seq![rest[0]] + tail) =~= out@ + tail);
                }
            }
            i += 1;
        }
    }
    assert(all.skip(i as int) =~= Seq::<u8>::empty());
    assert(out@ + Seq::<u8>::empty() =~= out@);
    utf8_text(out)
}

/// Percent-decode a query component (`+` means space).
fn percent_decode_plus(cs: &[char]) -> (r: Option<String>)
    ensures
        text::opt_text(r) == percent_decoded(plus_to_space(cs@)),
{
    let mut out = String::new();
    let mut i: usize = 0;
    while i < cs.len()
        invariant
            i <= cs.len(),
            out@ == plus_to_space(cs@).take(i as int),
        decreases cs.len() - i,
    {
        out.push(
            if cs[i] == '+' {
                ' '
            } else {
                cs[i]
            },
        );
        i += 1;
        assert(plus_to_space(cs@).take(i as int) =~= plus_to_space(cs@).take(i - 1).push(
            plus_to_space(cs@)[i - 1],
        ));
    }
    assert(plus_to_space(cs@).take(i as int) =~= plus_to_space(cs@));
    percent_decode(out.as_str())
}

/// Non-empty pieces of a path, each percent-decoded; `None` where one does
/// not decode.
pub open spec fn decoded_segments(pieces: Seq<Seq<char>>) -> Option<Seq<Seq<char>>>
    decreases pieces.len(),
{
    if pieces.len() == 0 {
        Some(Seq::empty())
    } else if pieces[0].len() == 0 {
        decoded_segments(pieces.skip(1))
    } else {
        match (percent_decoded(pieces[0]), decoded_segments(pieces.skip(1))) {
            (Some(d), Some(rest)) => Some(seq![d] + rest),
            _ => None,
        }
    }
}

/// Key and value of one query piece: what stands before and after the first
/// `=`, each with `+` as space and percent-decoded.
pub open spec fn decoded_pair(piece: Seq<char>) -> Option<(Seq<char>, Seq<char>)> {
    let i = text::position(piece, '=') as int;
    let k = piece.take(i);
    let v = if i < piece.len() {
        piece.skip(i + 1)
    } else {
        Seq::empty()
    };
    match (percent_decoded(plus_to_space(k)), percent_decoded(plus_to_space(v))) {
        (Some(k), Some(v)) => Some((k, v)),
        _ => None,
    }
}

/// Non-empty query pieces as decoded pairs; `None` where one does not decode.
pub open spec fn decoded_pairs(pieces: Seq<Seq<char>>) -> Option<Seq<(Seq<char>, Seq<char>)>>
    decreases pieces.len(),
{
    if pieces.len() == 0 {
        Some(Seq::empty())
    } else if pieces[0].len() == 0 {
        decoded_pairs(pieces.skip(1))
    } else {
        match (decoded_pair(pieces[0]), decoded_pairs(pieces.skip(1))) {
            (Some(d), Some(rest)) => Some(seq![d] + rest),
            _ => None,
        }
    }
}

/// Path segments of a raw path: the text between slashes, decoded.
pub open spec fn path_segments_of(path: Seq<char>) -> Option<Seq<Seq<char>>> {
    decoded_segments(text::split(path, '/'))
}

/// Scheme, authority and what follows the authority of `scheme://rest`.
pub open spec fn url_parts(uri: Seq<char>) -> Option<UrlView> {
    match text::find(uri, "://"@) {
        None => None,
        Some(n) => {
            let scheme = text::lower(uri.take(n as int));
            let rest = uri.skip(n as int + 3);
            let slash = text::position(rest, '/') as int;
            let authority = rest.take(slash);
            let path_query = rest.skip(slash);
            let mark = text::position(path_query, '?') as int;
            let path = path_query.take(mark);
            let query = if mark < path_query.len() {
                path_query.skip(mark + 1)
            } else {
                Seq::empty()
            };
            if scheme != "http"@ && scheme != "https"@ {
                None
            } else if authority.len() == 0 || authority.contains(' ') {
                None
            } else {
                match (path_segments_of(path), decoded_pairs(text::split(query, '&'))) {
                    (Some(segments), Some(pairs)) => Some(
                        UrlView {
                            scheme,
                            origin: scheme + "://"@ + authority,
                            path_segments: segments,
                            query_pairs: pairs,
                        },
                    ),
                    _ => None,
                }
            }
        },
    }
}

/// Decode the pieces of a path.
pub(crate) fn decode_segments(pieces: &Vec<Vec<char>>) -> (r: Option<Vec<String>>)
    ensures
        match r {
            Some(v) => decoded_segments(text::texts(pieces@)) == Some(text::strings(v@)),
            None => decoded_segments(text::texts(pieces@)) is None,
        },
{
    let ghost all = text::texts(pieces@);
    let mut out: Vec<String> = Vec::new();
    let mut i: usize = 0;
    assert(all.skip(0) =~= all);
    proof {
        if let Some(rest) = decoded_segments(all) {
            assert(text::strings(out@) + rest =~= rest);
        }
    }
    while i < pieces.len()
        invariant
            i <= pieces.len(),
            all == text::texts(pieces@),
            decoded_segments(all) == (match decoded_segments(all.skip(i as int)) {
                Some(rest) => Some(text::strings(out@) + rest),
                None => None,
            }),
        decreases pieces.len() - i,
    {
        let ghost rest = all.skip(i as int);
        assert(rest.skip(1) =~= all.skip(i + 1));
        assert(rest[0] == pieces@[i as int]@);
        if pieces[i].len() > 0 {
            match percent_decode(string_of(pieces[i].as_slice()).as_str()) {
                None => {
                    assert(decoded_segments(rest) is None);
                    return None;
                },
                Some(d) => {
                    let ghost before = out@;
                    out.push(d);
                    assert(text::strings(out@) =~= text::strings(before) + seq![d@]);
                    proof {
                        if let Some(tail) = decoded_segments(rest.skip(1)) {
                            assert(text::strings(before) + (seq![d@] + tail) =~= text::strings(out@) + tail);
                        }
                    }
                },
            }
        }
        i += 1;
    }
    assert(all.skip(i as int) =~= Seq::<Seq<char>>::empty());
    assert(text::strings(out@) + Seq::<Seq<char>>::empty() =~= text::strings(out@));
    Some(out)
}

fn decode_pair(piece: &[char]) -> (r: Option<(String, String)>)
    ensures
        match r {
            Some(p) => decoded_pair(piece@) == Some((p.0@, p.1@)),
            None => decoded_pair(piece@) is None,
        },
{
    let i: usize = position_of(piece, '=');
    let k = before(piece, i);
    let v = if i < piece.len() {
        after(piece, i + 1)
    } else {
        after(piece, i)
    };
    assert(i == piece@.len() ==> v@ =~= Seq::<char>::empty());
    match (percent_decode_plus(k), percent_decode_plus(v)) {
        (Some(k), Some(v)) => Some((k, v)),
        _ => None,
    }
}

fn decode_pairs(pieces: &Vec<Vec<char>>) -> (r: Option<Vec<(String, String)>>)
    ensures
        match r {
            Some(v) => decoded_pairs(text::texts(pieces@)) == Some(text::string_pairs(v@)),
            None => decoded_pairs(text::texts(pieces@)) is None,
        },
{
    let ghost all = text::texts(pieces@);
    let mut out: Vec<(String, String)> = Vec::new();
    let mut i: usize = 0;
    assert(all.skip(0) =~= all);
    proof {
        if let Some(rest) = decoded_pairs(all) {
            assert(text::string_pairs(out@) + rest =~= rest);
        }
    }
    while i < pieces.len()
        invariant
            i <= pieces.len(),
            all == text::texts(pieces@),
            decoded_pairs(all) == (match decoded_pairs(all.skip(i as int)) {
                Some(rest) => Some(text::string_pairs(out@) + rest),
                None => None,
            }),
        decreases pieces.len() - i,
    {
        let ghost rest = all.skip(i as int);
        assert(rest.skip(1) =~= all.skip(i + 1));
        assert(rest[0] == pieces@[i as int]@);
        if pieces[i].len() > 0 {
            match decode_pair(pieces[i].as_slice()) {
                None => {
                    assert(decoded_pairs(rest) is None);
                    return None;
                },
                Some(d) => {
                    let ghost before = out@;
                    out.push(d);
                    assert(text::string_pairs(out@) =~= text::string_pairs(before) + seq![(d.0@, d.1@)]);
                    proof {
                        if let Some(tail) = decoded_pairs(rest.skip(1)) {
                            assert(text::string_pairs(before) + (seq![(d.0@, d.1@)] + tail)
                                =~= text::string_pairs(out@) + tail);
                        }
                    }
                },
            }
        }
        i += 1;
    }
    assert(all.skip(i as int) =~= Seq::<(Seq<char>, Seq<char>)>::empty().map_values(
        |p: (Seq<char>, Seq<char>)| p.0,
    ));
    assert(text::string_pairs(out@) + Seq::<(Seq<char>, Seq<char>)>::empty() =~= text::string_pairs(out@));
    Some(out)
}

/// Split an absolute `http(s)` URL; `None` for another scheme, an empty
/// authority or one with a space, and where a path segment or query
/// component does not decode.
pub fn split_url(uri: &str) -> (r: Option<UrlParts>)
    ensures
        match r {
            Some(u) => url_parts(uri@) == Some(u@),
            None => url_parts(uri@) is None,
        },
{
    let cs = chars_of(uri);
    split_url_chars(cs.as_slice())
}

pub(crate) fn split_url_chars(cs: &[char]) -> (r: Option<UrlParts>)
    ensures
        match r {
            Some(u) => url_parts(cs@) == Some(u@),
            None => url_parts(cs@) is None,
        },
{
    proof {
        reveal_strlit("://");
    }
    let sep = chars_of("://");
    assert(sep@.len() == 3);
    let n: usize = match find_text(cs, sep.as_slice()) {
        None => return None,
        Some(n) => n,
    };
    let scheme = lower_of(before(cs, n));
    assert(n + 3 <= cs.len());
    let rest = after(cs, n + 3);
    let slash: usize = position_of(rest, '/');
    let authority = before(rest, slash);
    let path_query = after(rest, slash);
    if !is_text(scheme.as_slice(), "http") && !is_text(scheme.as_slice(), "https") {
        return None;
    }
    let gap: usize = position_of(authority, ' ');
    proof {
        text::lemma_position_is(authority@, ' ');
        if gap < authority@.len() {
            assert(authority@[gap as int] == ' ');
        }
    }
    assert((gap < authority@.len()) == authority@.contains(' '));
    if authority.len() == 0 || gap < authority.len() {
        return None;
    }
    let mark: usize = position_of(path_query, '?');
    let path = before(path_query, mark);
    let query = if mark < path_query.len() {
        after(path_query, mark + 1)
    } else {
        after(path_query, mark)
    };
    assert(mark == path_query@.len() ==> query@ =~= Seq::<char>::empty());
    let segments = match decode_segments(&split_at_each(path, '/')) {
        None => return None,
        Some(v) => v,
    };
    let pairs = match decode_pairs(&split_at_each(query, '&')) {
        None => return None,
        Some(v) => v,
    };
    let scheme_text = string_of(scheme.as_slice());
    let mut origin = scheme_text.clone();
    origin.push_str("://");
    origin.push_str(string_of(authority).as_str());
    Some(UrlParts { scheme: scheme_text, origin, path_segments: segments, query_pairs: pairs })
}

// ---------------------------------------------------------------------------
// Element strings from paths and queries
// ---------------------------------------------------------------------------

/// One of the AIs that identifiers are built from.
pub open spec fn is_supported(ai: Seq<char>) -> bool {
    exists|i: int| 0 <= i < 3 && ai == #[trigger] SUPPORTED_AIS@[i]@
}

/// The supported AIs of a path with their values: segments are taken two by
/// two, and a pair whose first half is no supported AI is skipped.
pub open spec fn path_ais(segments: Seq<Seq<char>>) -> Seq<(Seq<char>, Seq<char>)>
    decreases segments.len(),
{
    if segments.len() < 2 {
        Seq::empty()
    } else if is_supported(segments[0]) {
        seq![(segments[0], segments[1])] + path_ais(segments.skip(2))
    } else {
        path_ais(segments.skip(2))
    }
}

/// The value of the first pair with the given key.
pub open spec fn lookup(pairs: Seq<(Seq<char>, Seq<char>)>, key: Seq<char>) -> Option<Seq<char>>
    decreases pairs.len(),
{
    if pairs.len() == 0 {
        None
    } else if pairs[0].0 == key {
        Some(pairs[0].1)
    } else {
        lookup(pairs.skip(1), key)
    }
}

/// A value that passes the charset and length rule; any other is dropped.
pub open spec fn checked(v: Option<Seq<char>>) -> Option<Seq<char>> {
    match v {
        Some(s) if is_dl_value(s) => Some(s),
        _ => None,
    }
}

/// A text filled up with zeros on the left to 14 characters.
pub open spec fn pad14(s: Seq<char>) -> Seq<char> {
    if s.len() >= 14 {
        s
    } else {
        Seq::new((14 - s.len()) as nat, |i: int| '0') + s
    }
}

/// The value of a qualifier AI: from the path if it is there, else from the
/// query, and only where it passes the value rule.
pub open spec fn qualifier(
    path: Seq<(Seq<char>, Seq<char>)>,
    query: Seq<(Seq<char>, Seq<char>)>,
    ai: Seq<char>,
) -> Option<Seq<char>> {
    checked(
        match lookup(path, ai) {
            Some(v) => Some(v),
            None => lookup(query, ai),
        },
    )
}

/// The element string of a path and query pairs: `None` without AI 01 in the
/// path or where its value, filled up to 14 digits, is no valid GTIN.
pub open spec fn key_path_element(
    segments: Seq<Seq<char>>,
    query: Seq<(Seq<char>, Seq<char>)>,
) -> Option<ElementView> {
    let path = path_ais(segments);
    match lookup(path, "01"@) {
        None => None,
        Some(raw) => {
            let gtin = pad14(raw);
            if gtin.len() == 14 && is_valid_gtin(gtin) {
                Some(
                    ElementView {
                        gtin,
                        lot: qualifier(path, query, "10"@),
                        serial: qualifier(path, query, "21"@),
                    },
                )
            } else {
                None
            }
        },
    }
}

/// The element string of a Digital Link URI.
pub open spec fn digital_link_element(uri: Seq<char>) -> Option<ElementView> {
    match url_parts(uri) {
        None => None,
        Some(u) => key_path_element(u.path_segments, u.query_pairs),
    }
}

/// Index of the value of an AI among path segments: the segment after the
/// first even-placed one that equals it.
fn find_path_ai(segments: &[String], ai: &str) -> (r: Option<usize>)
    requires
        is_supported(ai@),
    ensures
        match r {
            Some(i) => i < segments@.len() && lookup(path_ais(text::strings(segments@)), ai@) == Some(
                segments@[i as int]@,
            ),
            None => lookup(path_ais(text::strings(segments@)), ai@) is None,
        },
{
    let ghost all = text::strings(segments@);
    let mut i: usize = 0;
    assert(all.skip(0) =~= all);
    while i < segments.len() && segments.len() - i >= 2
        invariant
            i <= segments.len(),
            is_supported(ai@),
            all == text::strings(segments@),
            lookup(path_ais(all), ai@) == lookup(path_ais(all.skip(i as int)), ai@),
        decreases segments.len() - i,
    {
        let ghost rest = all.skip(i as int);
        assert(rest.skip(2) =~= all.skip(i + 2));
        assert(rest[0] == segments@[i as int]@ && rest[1] == segments@[i + 1]@);
        proof {
            if is_supported(rest[0]) {
                let tail = path_ais(rest.skip(2));
                assert((seq![(rest[0], rest[1])] + tail).skip(1) =~= tail);
            }
        }
        if same_text(segments[i].as_str(), ai) {
            return Some(i + 1);
        }
        i += 2;
    }
    None
}

/// Index of the first pair with the given key.
pub(crate) fn find_pair(pairs: &[(String, String)], key: &str) -> (r: Option<usize>)
    ensures
        match r {
            Some(i) => i < pairs@.len() && lookup(text::string_pairs(pairs@), key@) == Some(
                pairs@[i as int].1@,
            ),
            None => lookup(text::string_pairs(pairs@), key@) is None,
        },
{
    let ghost all = text::string_pairs(pairs@);
    let mut i: usize = 0;
    assert(all.skip(0) =~= all);
    while i < pairs.len()
        invariant
            i <= pairs.len(),
            all == text::string_pairs(pairs@),
            lookup(all, key@) == lookup(all.skip(i as int), key@),
        decreases pairs.len() - i,
    {
        let ghost rest = all.skip(i as int);
        assert(rest.skip(1) =~= all.skip(i + 1));
        assert(rest[0] == (pairs@[i as int].0@, pairs@[i as int].1@));
        if same_text(pairs[i].0.as_str(), key) {
            return Some(i);
        }
        i += 1;
    }
    None
}

/// The text filled up with zeros on the left to 14 characters.
pub(crate) fn padded14(cs: &[char]) -> (r: Vec<char>)
    ensures
        r@ == pad14(cs@),
{
    let mut out: Vec<char> = Vec::new();
    if cs.len() < 14 {
        let n: usize = 14 - cs.len();
        while out.len() < n
            invariant
                out@.len() <= n,
                forall|i: int| 0 <= i < out@.len() ==> out@[i] == '0',
            decreases n - out.len(),
        {
            out.push('0');
        }
        assert(out@ =~= Seq::new(n as nat, |i: int| '0'));
    }
    let ghost zeros = out@;
    let mut i: usize = 0;
    assert(out@ =~= zeros + cs@.take(0));
    while i < cs.len()
        invariant
            i <= cs.len(),
            out@ == zeros + cs@.take(i as int),
        decreases cs.len() - i,
    {
        out.push(cs[i]);
        i += 1;
        assert(cs@.take(i as int) =~= cs@.take(i - 1).push(cs@[i - 1]));
        assert(out@ =~= zeros + cs@.take(i as int));
    }
    assert(cs@.take(i as int) =~= cs@);
    assert(out@ =~= pad14(cs@));
    out
}

/// A copy of the value where it passes the value rule.
fn accepted(v: &str) -> (r: Option<String>)
    ensures
        text::opt_text(r) == checked(Some(v@)),
{
    let cs = chars_of(v);
    if valid_dl_value(cs.as_slice()) {
        Some(v.to_string())
    } else {
        None
    }
}

fn find_qualifier(segments: &[String], query: &[(String, String)], ai: &str) -> (r: Option<String>)
    requires
        is_supported(ai@),
    ensures
        text::opt_text(r) == qualifier(path_ais(text::strings(segments@)), text::string_pairs(query@), ai@),
{
    match find_path_ai(segments, ai) {
        Some(i) => accepted(segments[i].as_str()),
        None => match find_pair(query, ai) {
            Some(i) => accepted(query[i].1.as_str()),
            None => None,
        },
    }
}

/// Parse a GS1 Digital Link URI. Path AIs come as
/// `/01/09506000134352/21/1234`; AIs 10 and 21 may also appear as query
/// parameters (`?10=ABC&21=1234`), a path value winning over a query value.
/// `None` where the URI carries no valid AI 01.
pub fn parse_gs1_digital_link(uri: &str) -> (r: Option<Gs1ElementString>)
    ensures
        match r {
            Some(el) => digital_link_element(uri@) == Some(el@),
            None => digital_link_element(uri@) is None,
        },
{
    match split_url(uri) {
        None => None,
        Some(url) => parse_key_path(url.path_segments.as_slice(), url.query_pairs.as_slice()),
    }
}

/// Parse a resolver key path (no scheme or authority) in AI form, e.g.
/// `01/09506000134352/21/BP52`, with optional query qualifiers (`?10=LOT`).
pub fn parse_key_path(path_segments: &[String], query_pairs: &[(String, String)]) -> (r: Option<
    Gs1ElementString,
>)
    ensures
        match r {
            Some(el) => key_path_element(text::strings(path_segments@), text::string_pairs(query_pairs@))
                == Some(el@),
            None => key_path_element(text::strings(path_segments@), text::string_pairs(query_pairs@)) is None,
        },
{
    let at: usize = match find_path_ai(path_segments, "01") {
        None => return None,
        Some(i) => i,
    };
    let raw = chars_of(path_segments[at].as_str());
    let gtin = padded14(raw.as_slice());
    if gtin.len() != 14 || !gtin_is_valid(gtin.as_slice()) {
        return None;
    }
    Some(
        Gs1ElementString {
            gtin: string_of(gtin.as_slice()),
            lot: find_qualifier(path_segments, query_pairs, "10"),
            serial: find_qualifier(path_segments, query_pairs, "21"),
        },
    )
}

// ---------------------------------------------------------------------------
// Laws
// ---------------------------------------------------------------------------

proof fn lemma_sum_one_digit(a: Seq<char>, b: Seq<char>, k: int)
    requires
        a.len() == b.len(),
        0 <= k < a.len(),
        forall|i: int| 0 <= i < a.len() && i != k ==> a[i] == b[i],
    ensures
        weighted_sum(a) - weighted_sum(b) == (text::digit_value(a[k]) - text::digit_value(b[k])) * weight(
            a.len() - 1 - k,
        ),
    decreases a.len(),
{
    let x = text::digit_value(a[0]);
    let y = text::digit_value(b[0]);
    let w = weight(a.len() - 1);
    assert(x * w - y * w == (x - y) * w) by (nonlinear_arith);
    if k == 0 {
        assert(a.skip(1) =~= b.skip(1));
    } else {
        assert(a.skip(1)[k - 1] == a[k] && b.skip(1)[k - 1] == b[k]);
        lemma_sum_one_digit(a.skip(1), b.skip(1), k - 1);
    }
}

/// A single wrong digit is always noticed: of two GTINs of one length that
/// differ in exactly one digit, at most one is valid.
pub proof fn law_single_digit_error_is_detected(a: Seq<char>, b: Seq<char>, k: int)
    requires
        a.len() == b.len(),
        0 <= k < a.len(),
        a[k] != b[k],
        forall|i: int| 0 <= i < a.len() && i != k ==> a[i] == b[i],
    ensures
        !(is_valid_gtin(a) && is_valid_gtin(b)),
{
    if is_valid_gtin(a) && is_valid_gtin(b) {
        let n = a.len() - 1;
        let da = a.drop_last();
        let db = b.drop_last();
        if k == n {
            assert(da =~= db);
            assert(text::is_digit(a[k]) && text::is_digit(b[k]));
        } else {
            assert(da[k] == a[k] && db[k] == b[k]);
            lemma_sum_one_digit(da, db, k);
            assert(text::is_digit(a[k]) && text::is_digit(b[k]));
            let d = text::digit_value(a[k]) - text::digit_value(b[k]);
            let w = weight(da.len() - 1 - k);
            assert(a[n] == b[n]);
            assert(-9 <= d <= 9 && d != 0);
            assert(d * w == if w == 3 { 3 * d } else { d }) by (nonlinear_arith)
                requires
                    w == 3 || w == 1,
            ;
        }
    }
}

/// Appending its check digit to 7, 11, 12 or 13 data digits gives a valid
/// GTIN.
pub proof fn law_check_digit_completes_a_gtin(data: Seq<char>)
    requires
        data.len() == 7 || 11 <= data.len() <= 13,
        text::all_digits(data),
    ensures
        is_valid_gtin(data.push(text::digit_char(check_digit(data)))),
{
    let d = check_digit(data);
    let s = data.push(text::digit_char(d));
    assert(s.drop_last() =~= data);
    assert forall|i: int| 0 <= i < s.len() implies text::is_digit(#[trigger] s[i]) by {
        if i < data.len() {
            assert(s[i] == data[i]);
        }
    }
}

/// Zeros on the left change nothing: a GTIN filled up to 14 digits is valid
/// exactly when it was valid before.
pub proof fn law_padding_keeps_validity(s: Seq<char>)
    requires
        s.len() == 8 || 12 <= s.len() <= 14,
    ensures
        is_valid_gtin(pad14(s)) == is_valid_gtin(s),
        pad14(s).len() == 14,
{
    let p = pad14(s);
    let n = 14 - s.len();
    assert(p.skip(n) =~= s);
    assert(text::all_digits(s) ==> text::all_digits(p)) by {
        if text::all_digits(s) {
            assert forall|i: int| 0 <= i < p.len() implies text::is_digit(#[trigger] p[i]) by {
                if i >= n {
                    assert(p[i] == s[i - n]);
                }
            }
        }
    }
    assert(text::all_digits(p) ==> text::all_digits(s)) by {
        if text::all_digits(p) {
            assert forall|i: int| 0 <= i < s.len() implies text::is_digit(#[trigger] s[i]) by {
                assert(s[i] == p[i + n]);
            }
        }
    }
    assert(p.drop_last().skip(n) =~= s.drop_last());
    lemma_leading_zeros(p.drop_last(), n);
    assert(p.last() == s.last());
}

proof fn lemma_leading_zeros(s: Seq<char>, n: int)
    requires
        0 <= n <= s.len(),
        forall|i: int| 0 <= i < n ==> s[i] == '0',
    ensures
        weighted_sum(s) == weighted_sum(s.skip(n)),
    decreases n,
{
    if n == 0 {
        assert(s.skip(0) =~= s);
    } else {
        assert forall|i: int| 0 <= i < n - 1 implies s.skip(1)[i] == '0' by {
            assert(s.skip(1)[i] == s[i + 1]);
        }
        lemma_leading_zeros(s.skip(1), n - 1);
        assert(s.skip(1).skip(n - 1) =~= s.skip(n));
        assert(text::digit_value(s[0]) * weight(s.len() - 1) == 0) by (nonlinear_arith)
            requires
                text::digit_value(s[0]) == 0,
        ;
    }
}

} // verus!
