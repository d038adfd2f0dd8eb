//! Content negotiation: an `Accept` header names the representation that a
//! client wants, and the resolver answers with the linkset entry published for
//! that representation's routing context.
//!
//! The mapping is a table from media type to role; a representation more is a
//! row more. It applies only where the request has no context parameters of its
//! own, and the context it yields is scored like any other.
//!
//! Weights are decimal numbers and compare as such, with any number of digits.

use vstd::prelude::*;

use crate::context;
use crate::context::{ContextView, RequestContext};
use crate::text;
use crate::text::{
    after, before, begins_with_str, behind_sign, bounded_number, chars_of, digits_only, is_text,
    lower_of, position_of, split_at_each, trimmed, vec_of,
};

verus! {

// ---------------------------------------------------------------------------
// Weights
// ---------------------------------------------------------------------------

/// A positive weight: `0.d₁d₂… × 10^point`, where the digits neither begin nor
/// end with a zero.
#[verifier::ext_equal]
pub struct WeightView {
    pub digits: Seq<char>,
    pub point: int,
}

/// The weight of what is named without one.
pub open spec fn full_weight() -> WeightView {
    WeightView { digits: seq!['1'], point: 1 }
}

/// Without leading zeros.
pub open spec fn without_leading_zeros(s: Seq<char>) -> Seq<char>
    decreases s.len(),
{
    if s.len() > 0 && s[0] == '0' {
        without_leading_zeros(s.skip(1))
    } else {
        s
    }
}

/// Without trailing zeros.
pub open spec fn without_trailing_zeros(s: Seq<char>) -> Seq<char>
    decreases s.len(),
{
    if s.len() > 0 && s.last() == '0' {
        without_trailing_zeros(s.drop_last())
    } else {
        s
    }
}

/// The power of ten that an exponent stands for, beyond a billion as a billion;
/// `None` where it is none.
pub open spec fn exponent(s: Seq<char>) -> Option<int> {
    let digits = text::unsigned(s);
    if digits.len() == 0 || !text::all_digits(digits) {
        None
    } else {
        let n: int = if text::number(digits) > 1000000000 {
            1000000000
        } else {
            text::number(digits) as int
        };
        Some(
            if text::is_negative(s) {
                -n
            } else {
                n
            },
        )
    }
}

/// Where the exponent of a number in lower case begins.
pub open spec fn exponent_mark(s: Seq<char>) -> int {
    text::position(s, 'e') as int
}

/// The parts of a number in lower case: the digits before the point, those
/// behind it, and the power of ten; `None` where it is no number.
pub open spec fn number_parts(s: Seq<char>) -> Option<(Seq<char>, Seq<char>, int)> {
    let mark = exponent_mark(s);
    let mantissa = s.take(mark);
    let power = if mark < s.len() {
        exponent(s.skip(mark + 1))
    } else {
        Some(0)
    };
    let dot = text::position(mantissa, '.') as int;
    let whole = mantissa.take(dot);
    let fraction = if dot < mantissa.len() {
        mantissa.skip(dot + 1)
    } else {
        Seq::empty()
    };
    match power {
        None => None,
        Some(e) => if text::all_digits(whole) && text::all_digits(fraction) && whole.len() + fraction.len()
            > 0 {
            Some((whole, fraction, e))
        } else {
            None
        },
    }
}

/// The weight of a decimal number; `None` for zero.
pub open spec fn decimal_weight(whole: Seq<char>, fraction: Seq<char>, power: int) -> Option<
    WeightView,
> {
    let significant = without_leading_zeros(whole + fraction);
    let digits = without_trailing_zeros(significant);
    if digits.len() == 0 {
        None
    } else {
        Some(
            WeightView {
                digits,
                point: whole.len() - ((whole + fraction).len() - significant.len()) + power,
            },
        )
    }
}

/// The weight that a text stands for: a signed decimal number with an optional
/// exponent. `None` is no acceptable weight: zero or below zero. What is no such
/// number is malformed and counts in full.
pub open spec fn weight(s: Seq<char>) -> Option<WeightView> {
    match number_parts(text::lower(text::unsigned(s))) {
        None => Some(full_weight()),
        Some((whole, fraction, power)) => if text::is_negative(s) {
            None
        } else {
            decimal_weight(whole, fraction, power)
        },
    }
}

/// A row of digits comes after another in the order of the fractions that they
/// stand for.
pub open spec fn is_further(a: Seq<char>, b: Seq<char>) -> bool
    decreases a.len(),
{
    if a.len() == 0 {
        false
    } else if b.len() == 0 {
        true
    } else if a[0] != b[0] {
        a[0] > b[0]
    } else {
        is_further(a.skip(1), b.skip(1))
    }
}

/// A weight is greater than another.
pub open spec fn is_heavier(a: WeightView, b: WeightView) -> bool {
    a.point > b.point || (a.point == b.point && is_further(a.digits, b.digits))
}

/// A positive weight.
pub(crate) struct Weight {
    digits: Vec<char>,
    point: i128,
}

impl View for Weight {
    type V = WeightView;

    closed spec fn view(&self) -> WeightView {
        WeightView { digits: self.digits@, point: self.point as int }
    }
}

/// The view of an optional weight.
pub(crate) open(crate) spec fn weight_view(w: Option<Weight>) -> Option<WeightView> {
    match w {
        Some(w) => Some(w@),
        None => None,
    }
}

fn full() -> (r: Weight)
    ensures
        r@ == full_weight(),
{
    let mut digits: Vec<char> = Vec::new();
    digits.push('1');
    assert(digits@ =~= seq!['1']);
    Weight { digits, point: 1 }
}

fn capped_number(cs: &[char]) -> (r: i128)
    requires
        text::all_digits(cs@),
    ensures
        r == (if text::number(cs@) > 1000000000 {
            1000000000int
        } else {
            text::number(cs@) as int
        }),
{
    match bounded_number(cs, 1000000000) {
        Some(n) => n as i128,
        None => 1000000000,
    }
}

fn read_exponent(cs: &[char]) -> (r: Option<i128>)
    ensures
        match r {
            Some(n) => exponent(cs@) == Some(n as int) && -1000000000 <= n <= 1000000000,
            None => exponent(cs@) is None,
        },
{
    let digits = behind_sign(cs);
    if digits.len() == 0 || !digits_only(digits) {
        return None;
    }
    let n: i128 = capped_number(digits);
    if cs[0] == '-' {
        Some(-n)
    } else {
        Some(n)
    }
}

fn read_decimal(whole: &[char], fraction: &[char], power: i128) -> (r: Option<Weight>)
    requires
        -1000000000 <= power <= 1000000000,
    ensures
        weight_view(r) == decimal_weight(whole@, fraction@, power as int),
{
    let mut all: Vec<char> = vec_of(whole);
    let mut i: usize = 0;
    assert(fraction@.take(0) =~= Seq::empty());
    while i < fraction.len()
        invariant
            i <= fraction.len(),
            all@ == whole@ + fraction@.take(i as int),
        decreases fraction.len() - i,
    {
        all.push(fraction[i]);
        i += 1;
        assert(all@ =~= whole@ + fraction@.take(i as int));
    }
    assert(fraction@.take(i as int) =~= fraction@);
    let ghost row = whole@ + fraction@;
    let mut lead: usize = 0;
    assert(row.skip(0) =~= row);
    while lead < all.len() && all[lead] == '0'
        invariant
            lead <= all.len(),
            all@ == row,
            without_leading_zeros(row) == without_leading_zeros(row.skip(lead as int)),
        decreases all.len() - lead,
    {
        assert(row.skip(lead as int).skip(1) =~= row.skip(lead + 1));
        lead += 1;
    }
    let ghost significant = row.skip(lead as int);
    assert(without_leading_zeros(row) == significant);
    let mut end: usize = all.len();
    assert(row.subrange(lead as int, end as int) =~= significant);
    while end > lead && all[end - 1] == '0'
        invariant
            lead <= end <= all.len(),
            all@ == row,
            without_trailing_zeros(significant) == without_trailing_zeros(
                row.subrange(lead as int, end as int),
            ),
        decreases end,
    {
        assert(row.subrange(lead as int, end as int).drop_last() =~= row.subrange(
            lead as int,
            end - 1,
        ));
        end -= 1;
    }
    if end == lead {
        return None;
    }
    let digits = vec_of(before(after(all.as_slice(), lead), end - lead));
    assert(digits@ =~= row.subrange(lead as int, end as int));
    Some(Weight { digits, point: whole.len() as i128 - lead as i128 + power })
}

fn read_number(cs: &[char], negative: bool) -> (r: Option<Weight>)
    ensures
        weight_view(r) == (match number_parts(cs@) {
            None => Some(full_weight()),
            Some((whole, fraction, power)) => if negative {
                None
            } else {
                decimal_weight(whole, fraction, power)
            },
        }),
{
    let mark: usize = position_of(cs, 'e');
    let mantissa = before(cs, mark);
    let power: i128 = if mark < cs.len() {
        match read_exponent(after(cs, mark + 1)) {
            Some(n) => n,
            None => return Some(full()),
        }
    } else {
        0
    };
    let dot: usize = position_of(mantissa, '.');
    let whole = before(mantissa, dot);
    let fraction = if dot < mantissa.len() {
        after(mantissa, dot + 1)
    } else {
        after(mantissa, mantissa.len())
    };
    assert(dot >= mantissa@.len() ==> fraction@ =~= Seq::empty());
    if !digits_only(whole) || !digits_only(fraction) || (whole.len() == 0 && fraction.len() == 0) {
        return Some(full());
    }
    if negative {
        return None;
    }
    read_decimal(whole, fraction, power)
}

fn read_weight(cs: &[char]) -> (r: Option<Weight>)
    ensures
        weight_view(r) == weight(cs@),
{
    let negative = cs.len() > 0 && cs[0] == '-';
    let body = lower_of(behind_sign(cs));
    read_number(body.as_slice(), negative)
}

fn further(a: &[char], b: &[char]) -> (r: bool)
    ensures
        r == is_further(a@, b@),
{
    let mut i: usize = 0;
    assert(a@.skip(0) =~= a@);
    assert(b@.skip(0) =~= b@);
    while i < a.len() && i < b.len()
        invariant
            i <= a.len(),
            i <= b.len(),
            is_further(a@, b@) == is_further(a@.skip(i as int), b@.skip(i as int)),
        decreases a.len() - i,
    {
        assert(a@.skip(i as int)[0] == a@[i as int]);
        assert(b@.skip(i as int)[0] == b@[i as int]);
        assert(a@.skip(i as int).skip(1) =~= a@.skip(i + 1));
        assert(b@.skip(i as int).skip(1) =~= b@.skip(i + 1));
        if a[i] != b[i] {
            return a[i] > b[i];
        }
        i += 1;
    }
    i < a.len()
}

fn heavier(a: &Weight, b: &Weight) -> (r: bool)
    ensures
        r == is_heavier(a@, b@),
{
    a.point > b.point || (a.point == b.point && further(a.digits.as_slice(), b.digits.as_slice()))
}

// ---------------------------------------------------------------------------
// Preferences
// ---------------------------------------------------------------------------

/// A media type of an `Accept` header, its weight, and its place there.
#[verifier::ext_equal]
pub struct CandidateView {
    pub weight: WeightView,
    pub place: int,
    pub media_type: Seq<char>,
}

/// The weight that the parameters of a media type give it: that of the last
/// `q`, or full weight without one.
pub open spec fn parameter_weight(params: Seq<Seq<char>>) -> Option<WeightView>
    decreases params.len(),
{
    if params.len() == 0 {
        Some(full_weight())
    } else {
        let p = text::trim(params.last());
        if "q="@.is_prefix_of(p) {
            weight(text::trim(p.skip(2)))
        } else {
            parameter_weight(params.drop_last())
        }
    }
}

/// The candidate that an element of the header names; `None` where it names no
/// media type or one that is not acceptable.
pub open spec fn candidate(element: Seq<char>, place: int) -> Option<CandidateView> {
    let parts = text::split(element, ';');
    let media_type = text::trim(parts[0]);
    if media_type.len() == 0 {
        None
    } else {
        match parameter_weight(parts.skip(1)) {
            Some(weight) => Some(
                CandidateView { weight, place, media_type: text::lower(media_type) },
            ),
            None => None,
        }
    }
}

/// The candidates among the elements of the header, in the client's order.
pub open spec fn candidates(elements: Seq<Seq<char>>) -> Seq<CandidateView>
    decreases elements.len(),
{
    if elements.len() == 0 {
        Seq::empty()
    } else {
        let rest = candidates(elements.drop_last());
        match candidate(elements.last(), elements.len() - 1) {
            Some(c) => rest.push(c),
            None => rest,
        }
    }
}

/// A candidate put into a row by weight, behind all that are no lighter.
pub open spec fn put_in_place(row: Seq<CandidateView>, c: CandidateView) -> Seq<CandidateView>
    decreases row.len(),
{
    if row.len() > 0 && is_heavier(c.weight, row.last().weight) {
        put_in_place(row.drop_last(), c).push(row.last())
    } else {
        row.push(c)
    }
}

/// Candidates by weight, the heaviest first, equal ones in the client's order.
pub open spec fn by_weight(v: Seq<CandidateView>) -> Seq<CandidateView>
    decreases v.len(),
{
    if v.len() == 0 {
        Seq::empty()
    } else {
        put_in_place(by_weight(v.drop_last()), v.last())
    }
}

/// The media types of an `Accept` header in the order of preference.
pub open spec fn preferences(accept: Seq<char>) -> Seq<Seq<char>> {
    by_weight(candidates(text::split(accept, ','))).map_values(|c: CandidateView| c.media_type)
}

pub(crate) struct Candidate {
    weight: Weight,
    place: usize,
    media_type: Vec<char>,
}

impl View for Candidate {
    type V = CandidateView;

    closed spec fn view(&self) -> CandidateView {
        CandidateView {
            weight: self.weight@,
            place: self.place as int,
            media_type: self.media_type@,
        }
    }
}

fn read_parameters(parts: &Vec<Vec<char>>) -> (r: Option<Weight>)
    requires
        parts@.len() > 0,
    ensures
        weight_view(r) == parameter_weight(text::texts(parts@).skip(1)),
{
    let ghost params = text::texts(parts@).skip(1);
    let mut i: usize = parts.len();
    assert(params.take(i - 1) =~= params);
    while i > 1
        invariant
            1 <= i <= parts.len(),
            params == text::texts(parts@).skip(1),
            parameter_weight(params) == parameter_weight(params.take(i - 1)),
        decreases i,
    {
        assert(params.take(i - 1).last() == parts@[i - 1]@);
        assert(params.take(i - 1).drop_last() =~= params.take(i - 2));
        i -= 1;
        let p = trimmed(parts[i].as_slice());
        if begins_with_str(p, "q=") {
            proof {
                reveal_strlit("q=");
            }
            return read_weight(trimmed(after(p, 2)));
        }
    }
    assert(params.take(0) =~= Seq::empty());
    Some(full())
}

fn read_candidate(element: &[char], place: usize) -> (r: Option<Candidate>)
    ensures
        match r {
            Some(c) => candidate(element@, place as int) == Some(c@),
            None => candidate(element@, place as int) is None,
        },
{
    let parts = split_at_each(element, ';');
    assert(text::texts(parts@).len() > 0);
    assert(text::texts(parts@)[0] == parts@[0]@);
    let media_type = trimmed(parts[0].as_slice());
    if media_type.len() == 0 {
        return None;
    }
    match read_parameters(&parts) {
        Some(weight) => Some(Candidate { weight, place, media_type: lower_of(media_type) }),
        None => None,
    }
}

/// The views of a list of candidates.
spec fn candidate_views(v: Seq<Candidate>) -> Seq<CandidateView> {
    v.map_values(|c: Candidate| c@)
}

/// Put a candidate into a row by weight.
fn place_candidate(row: &mut Vec<Candidate>, c: Candidate)
    ensures
        candidate_views(final(row)@) == put_in_place(candidate_views(old(row)@), c@),
{
    let ghost views = candidate_views(row@);
    let mut i: usize = row.len();
    assert(views.take(i as int) =~= views);
    assert(views.skip(i as int) =~= Seq::empty());
    assert(put_in_place(views, c@) =~= put_in_place(views.take(i as int), c@) + views.skip(i as int));
    while i > 0 && heavier(&c.weight, &row[i - 1].weight)
        invariant
            i <= row.len(),
            views == candidate_views(row@),
            put_in_place(views, c@) == put_in_place(views.take(i as int), c@) + views.skip(
                i as int,
            ),
        decreases i,
    {
        proof {
            let here = views.take(i as int);
            assert(here.drop_last() =~= views.take(i - 1));
            assert(here.last() == views[i - 1]);
            assert(views[i - 1] == row@[i - 1]@);
            assert(put_in_place(here, c@) == put_in_place(views.take(i - 1), c@).push(views[i - 1]));
            assert(put_in_place(here, c@) + views.skip(i as int) =~= put_in_place(
                views.take(i - 1),
                c@,
            ) + views.skip(i - 1));
        }
        i -= 1;
    }
    proof {
        let here = views.take(i as int);
        if i > 0 {
            assert(here.last() == row@[i - 1]@);
        }
        assert(put_in_place(here, c@) == here.push(c@));
        assert(candidate_views(row@.insert(i as int, c)) =~= here.push(c@) + views.skip(i as int));
    }
    row.insert(i, c);
}

/// The media types of an `Accept` header in the order of preference: by weight,
/// the heaviest first, equal ones in the client's order; what is not acceptable
/// is dropped, and letters are in lower case.
fn media_type_preferences(accept: &str) -> (r: Vec<Vec<char>>)
    ensures
        text::texts(r@) == preferences(accept@),
{
    let cs = chars_of(accept);
    let elements = split_at_each(cs.as_slice(), ',');
    let ghost all = text::texts(elements@);
    let mut row: Vec<Candidate> = Vec::new();
    let mut i: usize = 0;
    assert(all.take(0) =~= Seq::empty());
    assert(candidate_views(row@) =~= by_weight(candidates(all.take(0))));
    while i < elements.len()
        invariant
            i <= elements.len(),
            all == text::texts(elements@),
            candidate_views(row@) == by_weight(candidates(all.take(i as int))),
        decreases elements.len() - i,
    {
        assert(all.take(i + 1).drop_last() =~= all.take(i as int));
        assert(all.take(i + 1).last() == elements@[i as int]@);
        if let Some(c) = read_candidate(elements[i].as_slice(), i) {
            assert(candidates(all.take(i as int)).push(c@).drop_last() =~= candidates(
                all.take(i as int),
            ));
            place_candidate(&mut row, c);
        }
        i += 1;
    }
    assert(all.take(i as int) =~= all);
    let ghost wanted = preferences(accept@);
    let mut out: Vec<Vec<char>> = Vec::new();
    let mut i: usize = 0;
    while i < row.len()
        invariant
            i <= row.len(),
            wanted.len() == row@.len(),
            forall|k: int| 0 <= k < row@.len() ==> #[trigger] wanted[k] == row@[k]@.media_type,
            text::texts(out@) == wanted.take(i as int),
        decreases row.len() - i,
    {
        let ghost had = out@;
        let m = vec_of(row[i].media_type.as_slice());
        out.push(m);
        i += 1;
        assert(wanted[i - 1] == row@[i - 1]@.media_type);
        assert(text::texts(out@) =~= text::texts(had).push(m@));
        assert(wanted.take(i as int) =~= wanted.take(i - 1).push(wanted[i - 1]));
    }
    assert(wanted.take(i as int) =~= wanted);
    out
}

// ---------------------------------------------------------------------------
// The table
// ---------------------------------------------------------------------------

/// The table: the media type of a representation, and the role that selects it.
/// The verifiable credential of the UN Transparency Protocol is for machines,
/// the render of the EN 18222 interface for authorities, and the browser view
/// for consumers.
pub const ACCEPT_CONTEXTS: [(&'static str, &'static str); 3] = [
    ("application/untp+json", "machine"),
    ("application/en18222+json", "customs"),
    ("text/html", "consumer"),
];

/// The rows of the table.
pub open spec fn accept_table() -> Seq<(Seq<char>, Seq<char>)> {
    ACCEPT_CONTEXTS@.map_values(|row: (&'static str, &'static str)| (row.0@, row.1@))
}

/// The role of the first row for a media type.
pub open spec fn role_for(table: Seq<(Seq<char>, Seq<char>)>, media_type: Seq<char>) -> Option<
    Seq<char>,
>
    decreases table.len(),
{
    if table.len() == 0 {
        None
    } else if table[0].0 == media_type {
        Some(table[0].1)
    } else {
        role_for(table.skip(1), media_type)
    }
}

/// The role of the first media type that has one.
pub open spec fn first_role(preferred: Seq<Seq<char>>) -> Option<Seq<char>>
    decreases preferred.len(),
{
    if preferred.len() == 0 {
        None
    } else {
        match role_for(accept_table(), preferred[0]) {
            Some(role) => Some(role),
            None => first_role(preferred.skip(1)),
        }
    }
}

/// The routing context that an `Accept` header selects.
pub open spec fn negotiated(accept: Seq<char>) -> Option<ContextView> {
    match first_role(preferences(accept)) {
        Some(role) => Some(ContextView { role: Some(role), ..context::no_preference() }),
        None => None,
    }
}

/// The role of the first row for a media type.
fn find_role(media_type: &[char]) -> (r: Option<&'static str>)
    ensures
        match r {
            Some(role) => role_for(accept_table(), media_type@) == Some(role@),
            None => role_for(accept_table(), media_type@) is None,
        },
{
    let ghost all = accept_table();
    let mut i: usize = 0;
    assert(all.skip(0) =~= all);
    while i < ACCEPT_CONTEXTS.len()
        invariant
            i <= 3,
            all == accept_table(),
            role_for(all, media_type@) == role_for(all.skip(i as int), media_type@),
        decreases 3 - i,
    {
        assert(all.skip(i as int)[0] == all[i as int]);
        assert(all.skip(i as int).skip(1) =~= all.skip(i + 1));
        let row = ACCEPT_CONTEXTS[i];
        if is_text(media_type, row.0) {
            return Some(row.1);
        }
        i += 1;
    }
    None
}

/// The view of an optional context.
pub open spec fn context_view(c: Option<RequestContext>) -> Option<ContextView> {
    match c {
        Some(c) => Some(c@),
        None => None,
    }
}

/// The routing context that an `Accept` header selects: that of the client's
/// most preferred media type in the table, or none.
pub fn context_for_accept(accept: &str) -> (r: Option<RequestContext>)
    ensures
        context_view(r) == negotiated(accept@),
{
    let preferred = media_type_preferences(accept);
    let ghost all = text::texts(preferred@);
    let mut i: usize = 0;
    assert(all.skip(0) =~= all);
    while i < preferred.len()
        invariant
            i <= preferred.len(),
            all == text::texts(preferred@),
            negotiated(accept@) == (match first_role(all.skip(i as int)) {
                Some(role) => Some(ContextView { role: Some(role), ..context::no_preference() }),
                None => None,
            }),
        decreases preferred.len() - i,
    {
        assert(all.skip(i as int)[0] == preferred@[i as int]@);
        assert(all.skip(i as int).skip(1) =~= all.skip(i + 1));
        if let Some(role) = find_role(preferred[i].as_slice()) {
            let none = RequestContext::default();
            return Some(RequestContext { role: Some(role.to_string()), ..none });
        }
        i += 1;
    }
    None
}

// ---------------------------------------------------------------------------
// Laws
// ---------------------------------------------------------------------------

/// A power of ten.
pub open spec fn pow10(n: nat) -> nat
    decreases n,
{
    if n == 0 {
        1
    } else {
        10 * pow10((n - 1) as nat)
    }
}

proof fn lemma_pow10_adds(a: nat, b: nat)
    ensures
        pow10(a + b) == pow10(a) * pow10(b),
        pow10(a) >= 1,
    decreases a,
{
    if a > 0 {
        lemma_pow10_adds((a - 1) as nat, b);
        let x = pow10((a - 1) as nat) as int;
        let y = pow10(b) as int;
        let z = pow10(a) as int;
        assert(z * y == 10 * (x * y)) by (nonlinear_arith)
            requires
                z == 10 * x,
        ;
        assert((a + b - 1) as nat == (a - 1) as nat + b);
    } else {
        assert(1 * pow10(b) == pow10(b));
    }
}

/// Digits that neither begin nor end with a zero, at least one.
pub open spec fn is_significant(digits: Seq<char>) -> bool {
    digits.len() > 0 && text::all_digits(digits) && digits[0] != '0' && digits.last() != '0'
}

/// A weight in its normal form.
pub open spec fn is_normal(w: WeightView) -> bool {
    is_significant(w.digits)
}

/// How many units of `10^e` a weight is.
pub open spec fn units(w: WeightView, e: int) -> nat {
    text::number(w.digits) * pow10((w.point - w.digits.len() - e) as nat)
}

/// `10^e` divides the last digit of the weight.
pub open spec fn is_scale_of(w: WeightView, e: int) -> bool {
    e <= w.point - w.digits.len()
}

proof fn lemma_number_from_the_front(s: Seq<char>)
    requires
        s.len() > 0,
        text::all_digits(s),
    ensures
        text::number(s) == text::digit_value(s[0]) * pow10((s.len() - 1) as nat) + text::number(s.skip(1)),
        0 <= text::digit_value(s[0]) <= 9,
        text::all_digits(s.skip(1)),
    decreases s.len(),
{
    assert forall|i: int| 0 <= i < s.skip(1).len() implies text::is_digit(#[trigger] s.skip(1)[i]) by {
        assert(text::is_digit(s[i + 1]));
    }
    assert(text::is_digit(s[0]));
    if s.len() == 1 {
        assert(s.skip(1) =~= Seq::empty());
        assert(s.drop_last() =~= Seq::empty());
        assert(text::number(s.drop_last()) == 0);
        assert(s.last() == s[0]);
        let d = text::digit_value(s[0]);
        let p = pow10((s.len() - 1) as nat) as int;
        assert(d * p == d) by (nonlinear_arith)
            requires
                p == 1,
        ;
    } else {
        let t = s.drop_last();
        assert forall|i: int| 0 <= i < t.len() implies text::is_digit(#[trigger] t[i]) by {
            assert(text::is_digit(s[i]));
        }
        lemma_number_from_the_front(t);
        assert(t.skip(1) =~= s.skip(1).drop_last());
        assert(s.skip(1).last() == s.last());
        assert(t[0] == s[0]);
        let d = text::digit_value(s[0]);
        let p = pow10((t.len() - 1) as nat) as int;
        let q = pow10((s.len() - 1) as nat) as int;
        assert((s.len() - 2) as nat == (t.len() - 1) as nat);
        assert((d * p) * 10 == d * q) by (nonlinear_arith)
            requires
                q == 10 * p,
        ;
    }
}

proof fn lemma_number_bounds(s: Seq<char>)
    requires
        text::all_digits(s),
    ensures
        text::number(s) < pow10(s.len()),
        s.len() > 0 && s[0] != '0' ==> text::number(s) >= pow10((s.len() - 1) as nat),
        s.len() > 0 && s.last() != '0' ==> text::number(s) > 0,
    decreases s.len(),
{
    if s.len() > 0 {
        lemma_number_from_the_front(s);
        lemma_number_bounds(s.skip(1));
        let d = text::digit_value(s[0]);
        let p = pow10((s.len() - 1) as nat) as int;
        lemma_pow10_adds((s.len() - 1) as nat, 0);
        assert(d * p <= 9 * p) by (nonlinear_arith)
            requires
                d <= 9,
                p >= 0,
        ;
        if s[0] != '0' {
            assert(d * p >= p) by (nonlinear_arith)
                requires
                    d >= 1,
                    p >= 0,
            ;
        }
        assert(text::is_digit(s.last()));
        assert(text::number(s) == text::number(s.drop_last()) * 10 + text::digit_value(s.last()) as nat);
    }
}

proof fn lemma_further_is_greater(a: Seq<char>, b: Seq<char>, n: nat)
    requires
        text::all_digits(a) && text::all_digits(b),
        a.len() > 0 ==> a.last() != '0',
        b.len() > 0 ==> b.last() != '0',
        a.len() <= n && b.len() <= n,
    ensures
        is_further(a, b) <==> text::number(a) * pow10((n - a.len()) as nat) > text::number(b) * pow10(
            (n - b.len()) as nat,
        ),
    decreases a.len(),
{
    let pa = pow10((n - a.len()) as nat) as int;
    let pb = pow10((n - b.len()) as nat) as int;
    lemma_pow10_adds((n - a.len()) as nat, 0);
    lemma_pow10_adds((n - b.len()) as nat, 0);
    lemma_number_bounds(a);
    lemma_number_bounds(b);
    let na = text::number(a) as int;
    let nb = text::number(b) as int;
    if a.len() == 0 {
        assert(na * pa == 0) by (nonlinear_arith)
            requires
                na == 0,
        ;
        assert(nb * pb >= 0) by (nonlinear_arith)
            requires
                nb >= 0,
                pb >= 0,
        ;
    } else if b.len() == 0 {
        assert(nb * pb == 0) by (nonlinear_arith)
            requires
                nb == 0,
        ;
        assert(na * pa > 0) by (nonlinear_arith)
            requires
                na > 0,
                pa > 0,
        ;
    } else {
        lemma_number_from_the_front(a);
        lemma_number_from_the_front(b);
        let ra = text::number(a.skip(1)) as int;
        let rb = text::number(b.skip(1)) as int;
        let da = text::digit_value(a[0]);
        let db = text::digit_value(b[0]);
        let q = pow10((n - 1) as nat) as int;
        let la = pow10((a.len() - 1) as nat) as int;
        let lb = pow10((b.len() - 1) as nat) as int;
        lemma_pow10_adds((a.len() - 1) as nat, (n - a.len()) as nat);
        lemma_pow10_adds((b.len() - 1) as nat, (n - b.len()) as nat);
        assert(na * pa == da * q + ra * pa) by (nonlinear_arith)
            requires
                na == da * la + ra,
                q == la * pa,
        ;
        assert(nb * pb == db * q + rb * pb) by (nonlinear_arith)
            requires
                nb == db * lb + rb,
                q == lb * pb,
        ;
        lemma_number_bounds(a.skip(1));
        lemma_number_bounds(b.skip(1));
        assert(0 <= ra * pa < q) by (nonlinear_arith)
            requires
                0 <= ra < la,
                pa > 0,
                q == la * pa,
        ;
        assert(0 <= rb * pb < q) by (nonlinear_arith)
            requires
                0 <= rb < lb,
                pb > 0,
                q == lb * pb,
        ;
        if a[0] != b[0] {
            if da > db {
                assert(da * q >= db * q + q) by (nonlinear_arith)
                    requires
                        da >= db + 1,
                        q >= 0,
                ;
            } else {
                assert(db * q >= da * q + q) by (nonlinear_arith)
                    requires
                        db >= da + 1,
                        q >= 0,
                ;
            }
        } else {
            if a.len() > 1 {
                assert(a.skip(1).last() == a.last());
            }
            if b.len() > 1 {
                assert(b.skip(1).last() == b.last());
            }
            lemma_further_is_greater(a.skip(1), b.skip(1), (n - 1) as nat);
        }
    }
}

proof fn lemma_units_between_powers(w: WeightView, e: int)
    requires
        is_normal(w),
        is_scale_of(w, e),
    ensures
        w.point - 1 - e >= 0,
        pow10((w.point - 1 - e) as nat) <= units(w, e) < pow10((w.point - e) as nat),
{
    let digits = w.digits;
    let point = w.point;
    lemma_number_bounds(digits);
    let k = (point - digits.len() - e) as nat;
    let p = pow10(k) as int;
    lemma_pow10_adds((digits.len() - 1) as nat, k);
    lemma_pow10_adds(digits.len(), k);
    lemma_pow10_adds(k, 0);
    let lo = pow10((digits.len() - 1) as nat) as int;
    let hi = pow10(digits.len()) as int;
    let n = text::number(digits) as int;
    assert(lo * p <= n * p < hi * p) by (nonlinear_arith)
        requires
            lo <= n < hi,
            p > 0,
    ;
    assert((digits.len() - 1) as nat + k == (point - 1 - e) as nat);
    assert(digits.len() + k == (point - e) as nat);
}

proof fn lemma_pow10_grows(a: nat, b: nat)
    requires
        a <= b,
    ensures
        pow10(a) <= pow10(b),
{
    lemma_pow10_adds(a, (b - a) as nat);
    lemma_pow10_adds((b - a) as nat, 0);
    let x = pow10(a) as int;
    let y = pow10((b - a) as nat) as int;
    assert(x * y >= x) by (nonlinear_arith)
        requires
            x >= 0,
            y >= 1,
    ;
}

/// Weights compare as the numbers they are: counted in any power of ten that
/// reaches the last digits of both, the heavier one has more units.
pub proof fn law_heavier_is_greater(a: WeightView, b: WeightView, e: int)
    requires
        is_normal(a) && is_normal(b),
        is_scale_of(a, e) && is_scale_of(b, e),
    ensures
        is_heavier(a, b) <==> units(a, e) > units(b, e),
{
    lemma_units_between_powers(a, e);
    lemma_units_between_powers(b, e);
    if a.point > b.point {
        lemma_pow10_grows((b.point - e) as nat, (a.point - 1 - e) as nat);
    } else if a.point < b.point {
        lemma_pow10_grows((a.point - e) as nat, (b.point - 1 - e) as nat);
    } else {
        lemma_further_is_greater(a.digits, b.digits, (a.point - e) as nat);
    }
}

proof fn lemma_stripped_front(s: Seq<char>)
    requires
        text::all_digits(s),
    ensures
        text::all_digits(without_leading_zeros(s)),
        without_leading_zeros(s).len() > 0 ==> without_leading_zeros(s)[0] != '0',
        text::number(without_leading_zeros(s)) == text::number(s),
        without_leading_zeros(s).len() <= s.len(),
    decreases s.len(),
{
    if s.len() > 0 && s[0] == '0' {
        lemma_number_from_the_front(s);
        lemma_stripped_front(s.skip(1));
        let p = pow10((s.len() - 1) as nat) as int;
        assert(0 * p == 0) by (nonlinear_arith);
    }
}

proof fn lemma_stripped_back(s: Seq<char>)
    requires
        text::all_digits(s),
    ensures
        ({
            let t = without_trailing_zeros(s);
            &&& text::all_digits(t)
            &&& t.len() <= s.len()
            &&& t.len() > 0 ==> t.last() != '0' && t[0] == s[0]
            &&& text::number(s) == text::number(t) * pow10((s.len() - t.len()) as nat)
        }),
    decreases s.len(),
{
    if s.len() > 0 && s.last() == '0' {
        let r = s.drop_last();
        assert forall|i: int| 0 <= i < r.len() implies text::is_digit(#[trigger] r[i]) by {
            assert(text::is_digit(s[i]));
        }
        lemma_stripped_back(r);
        let t = without_trailing_zeros(s);
        let n = text::number(t) as int;
        let p = pow10((r.len() - t.len()) as nat) as int;
        assert((n * p) * 10 == n * (10 * p)) by (nonlinear_arith);
        assert(pow10((s.len() - t.len()) as nat) == 10 * p);
    } else {
        assert(text::number(s) * 1 == text::number(s));
    }
}

/// A decimal number has the weight that it is worth: the units of its last
/// place are the digits read as one number; and it has none where that is zero.
pub proof fn law_weight_is_the_number(whole: Seq<char>, fraction: Seq<char>, power: int)
    requires
        text::all_digits(whole) && text::all_digits(fraction),
    ensures
        match decimal_weight(whole, fraction, power) {
            Some(w) => {
                let e = power - fraction.len();
                is_normal(w) && is_scale_of(w, e) && units(w, e) == text::number(whole + fraction)
            },
            None => text::number(whole + fraction) == 0,
        },
{
    let row = whole + fraction;
    assert(text::all_digits(row));
    lemma_stripped_front(row);
    let significant = without_leading_zeros(row);
    lemma_stripped_back(significant);
    let digits = without_trailing_zeros(significant);
    if digits.len() == 0 {
        assert(digits =~= Seq::empty());
        assert(text::number(digits) == 0);
        let p = pow10((significant.len() - digits.len()) as nat) as int;
        assert(0 * p == 0) by (nonlinear_arith);
    } else {
        let point = whole.len() - (row.len() - significant.len()) + power;
        assert(point - digits.len() - (power - fraction.len()) == significant.len()
            - digits.len());
    }
}

/// A row of candidates is in order: none is heavier than one before it, and
/// equal ones stand in the order of the header.
pub open spec fn is_ordered(row: Seq<CandidateView>) -> bool {
    forall|i: int, j: int|
        0 <= i < j < row.len() ==> is_heavier((#[trigger] row[i]).weight, (#[trigger] row[j]).weight)
            || (!is_heavier(row[j].weight, row[i].weight) && row[i].place < row[j].place)
}

proof fn lemma_further_chains(a: Seq<char>, b: Seq<char>, c: Seq<char>)
    ensures
        is_further(a, b) && is_further(b, c) ==> is_further(a, c),
        !is_further(a, b) && !is_further(b, c) ==> !is_further(a, c),
        is_further(a, b) ==> !is_further(b, a),
    decreases a.len(),
{
    if a.len() > 0 && b.len() > 0 {
        if c.len() > 0 {
            lemma_further_chains(a.skip(1), b.skip(1), c.skip(1));
        } else {
            lemma_further_chains(a.skip(1), b.skip(1), c);
        }
    }
}

proof fn lemma_heavier_chains(a: WeightView, b: WeightView, c: WeightView)
    ensures
        is_heavier(a, b) && is_heavier(b, c) ==> is_heavier(a, c),
        !is_heavier(a, b) && !is_heavier(b, c) ==> !is_heavier(a, c),
        is_heavier(a, b) ==> !is_heavier(b, a),
{
    lemma_further_chains(a.digits, b.digits, c.digits);
    lemma_further_chains(a.digits, b.digits, b.digits);
}

proof fn lemma_put_in_place(row: Seq<CandidateView>, c: CandidateView)
    requires
        is_ordered(row),
        forall|i: int| 0 <= i < row.len() ==> (#[trigger] row[i]).place < c.place,
    ensures
        is_ordered(put_in_place(row, c)),
        put_in_place(row, c).to_multiset() == row.to_multiset().insert(c),
        put_in_place(row, c).len() == row.len() + 1,
        forall|i: int|
            0 <= i < put_in_place(row, c).len() ==> #[trigger] put_in_place(row, c)[i] == c
                || row.contains(put_in_place(row, c)[i]),
    decreases row.len(),
{
    broadcast use vstd::seq_lib::group_to_multiset_ensures;

    let out = put_in_place(row, c);
    if row.len() > 0 && is_heavier(c.weight, row.last().weight) {
        let front = row.drop_last();
        let last = row.last();
        assert forall|i: int, j: int| 0 <= i < j < front.len() implies is_heavier(
            (#[trigger] front[i]).weight,
            (#[trigger] front[j]).weight,
        ) || (!is_heavier(front[j].weight, front[i].weight) && front[i].place < front[j].place) by {
            assert(front[i] == row[i] && front[j] == row[j]);
        }
        assert forall|i: int| 0 <= i < front.len() implies (#[trigger] front[i]).place
            < c.place by {
            assert(front[i] == row[i]);
        }
        lemma_put_in_place(front, c);
        let inner = put_in_place(front, c);
        assert(out == inner.push(last));
        assert(front.push(last) =~= row);
        assert forall|i: int| 0 <= i < out.len() implies #[trigger] out[i] == c || row.contains(
            out[i],
        ) by {
            if i < inner.len() {
                assert(out[i] == inner[i]);
                if inner[i] != c {
                    let k = choose|k: int| 0 <= k < front.len() && front[k] == inner[i];
                    assert(row[k] == inner[i]);
                }
            } else {
                assert(row[row.len() - 1] == last);
            }
        }
        assert forall|i: int, j: int| 0 <= i < j < out.len() implies is_heavier(
            (#[trigger] out[i]).weight,
            (#[trigger] out[j]).weight,
        ) || (!is_heavier(out[j].weight, out[i].weight) && out[i].place < out[j].place) by {
            if j < inner.len() {
                assert(out[i] == inner[i] && out[j] == inner[j]);
            } else {
                assert(out[j] == last);
                assert(out[i] == inner[i]);
                if inner[i] != c {
                    let k = choose|k: int| 0 <= k < front.len() && front[k] == inner[i];
                    assert(row[k] == inner[i]);
                    assert(row[row.len() - 1] == last);
                }
            }
        }
        assert(inner.push(last).to_multiset() =~= inner.to_multiset().insert(last));
        assert(front.push(last).to_multiset() =~= front.to_multiset().insert(last));
        assert(row.to_multiset().insert(c) =~= front.to_multiset().insert(c).insert(last));
    } else {
        assert(out == row.push(c));
        assert forall|i: int| 0 <= i < out.len() implies #[trigger] out[i] == c || row.contains(
            out[i],
        ) by {
            if i < row.len() {
                assert(out[i] == row[i]);
            }
        }
        assert forall|i: int, j: int| 0 <= i < j < out.len() implies is_heavier(
            (#[trigger] out[i]).weight,
            (#[trigger] out[j]).weight,
        ) || (!is_heavier(out[j].weight, out[i].weight) && out[i].place < out[j].place) by {
            if j < row.len() {
                assert(out[i] == row[i] && out[j] == row[j]);
            } else {
                assert(out[j] == c);
                assert(out[i] == row[i]);
                let last = row.last();
                if i < row.len() - 1 {
                    assert(row[row.len() - 1] == last);
                    lemma_heavier_chains(row[i].weight, last.weight, c.weight);
                    lemma_heavier_chains(c.weight, last.weight, row[i].weight);
                    lemma_heavier_chains(last.weight, row[i].weight, c.weight);
                }
            }
        }
        assert(row.push(c).to_multiset() =~= row.to_multiset().insert(c));
    }
}

/// Sorting keeps every candidate, puts none behind a lighter one, and leaves
/// equal ones in the order of the header.
pub proof fn law_preferences_are_ordered(v: Seq<CandidateView>)
    requires
        forall|i: int, j: int|
            0 <= i < j < v.len() ==> (#[trigger] v[i]).place < (#[trigger] v[j]).place,
    ensures
        is_ordered(by_weight(v)),
        by_weight(v).to_multiset() == v.to_multiset(),
        forall|i: int|
            0 <= i < by_weight(v).len() ==> v.contains(#[trigger] by_weight(v)[i]),
    decreases v.len(),
{
    broadcast use vstd::seq_lib::group_to_multiset_ensures;

    if v.len() > 0 {
        let front = v.drop_last();
        let c = v.last();
        assert forall|i: int, j: int| 0 <= i < j < front.len() implies (#[trigger] front[i]).place
            < (#[trigger] front[j]).place by {
            assert(front[i] == v[i] && front[j] == v[j]);
        }
        law_preferences_are_ordered(front);
        let row = by_weight(front);
        assert forall|i: int| 0 <= i < row.len() implies (#[trigger] row[i]).place < c.place by {
            let k = choose|k: int| 0 <= k < front.len() && front[k] == row[i];
            assert(v[k] == row[i]);
            assert(v[v.len() - 1] == c);
        }
        lemma_put_in_place(row, c);
        assert(front.push(c) =~= v);
        assert(front.push(c).to_multiset() =~= front.to_multiset().insert(c));
        assert forall|i: int| 0 <= i < by_weight(v).len() implies v.contains(
            #[trigger] by_weight(v)[i],
        ) by {
            let x = by_weight(v)[i];
            if x == c {
                assert(v[v.len() - 1] == c);
            } else {
                let k = choose|k: int| 0 <= k < row.len() && row[k] == x;
                let m = choose|m: int| 0 <= m < front.len() && front[m] == row[k];
                assert(v[m] == x);
            }
        }
    } else {
        assert(by_weight(v) =~= v);
    }
}

proof fn lemma_candidate_places(elements: Seq<Seq<char>>)
    ensures
        forall|i: int|
            0 <= i < candidates(elements).len() ==> 0 <= (#[trigger] candidates(elements)[i]).place
                < elements.len(),
        forall|i: int, j: int|
            0 <= i < j < candidates(elements).len() ==> (#[trigger] candidates(elements)[i]).place
                < (#[trigger] candidates(elements)[j]).place,
    decreases elements.len(),
{
    if elements.len() > 0 {
        let rest = candidates(elements.drop_last());
        lemma_candidate_places(elements.drop_last());
        match candidate(elements.last(), elements.len() - 1) {
            Some(c) => {
                assert(c.place == elements.len() - 1);
                assert(candidates(elements) == rest.push(c));
            },
            None => {
                assert(candidates(elements) == rest);
            },
        }
    }
}

/// The preferences of a header are its acceptable media types, the heaviest
/// first, and equal ones in the client's order.
pub proof fn law_header_preferences(accept: Seq<char>)
    ensures
        ({
            let row = by_weight(candidates(text::split(accept, ',')));
            &&& is_ordered(row)
            &&& row.to_multiset() == candidates(text::split(accept, ',')).to_multiset()
            &&& preferences(accept) == row.map_values(|c: CandidateView| c.media_type)
        }),
{
    lemma_candidate_places(text::split(accept, ','));
    law_preferences_are_ordered(candidates(text::split(accept, ',')));
}

/// A media type is one of those that are offered, each to a role of its own.
pub open spec fn is_offered(media_type: Seq<char>, role: Seq<char>) -> bool {
    ||| media_type == "application/untp+json"@ && role == "machine"@
    ||| media_type == "application/en18222+json"@ && role == "customs"@
    ||| media_type == "text/html"@ && role == "consumer"@
}

proof fn lemma_role_for(media_type: Seq<char>)
    ensures
        forall|role: Seq<char>| #[trigger]
            is_offered(media_type, role) <==> role_for(accept_table(), media_type) == Some(role),
{
    reveal_strlit("application/untp+json");
    reveal_strlit("application/en18222+json");
    reveal_strlit("text/html");
    reveal_with_fuel(role_for, 4);
    let t = accept_table();
    assert(t.len() == 3);
    assert(t.skip(1)[0] == t[1]);
    assert(t.skip(1).skip(1)[0] == t[2]);
    assert(t.skip(1).skip(1).skip(1).len() == 0);
    assert("application/untp+json"@.len() != "application/en18222+json"@.len());
    assert("text/html"@.len() == 9);
}

proof fn lemma_first_role(preferred: Seq<Seq<char>>, k: int, role: Seq<char>)
    requires
        0 <= k < preferred.len(),
        is_offered(preferred[k], role),
        forall|j: int, r: Seq<char>| 0 <= j < k ==> !#[trigger] is_offered(preferred[j], r),
    ensures
        first_role(preferred) == Some(role),
    decreases preferred.len(),
{
    lemma_role_for(preferred[0]);
    if k > 0 {
        assert(role_for(accept_table(), preferred[0]) is None) by {
            if let Some(r) = role_for(accept_table(), preferred[0]) {
                assert(is_offered(preferred[0], r));
            }
        }
        let rest = preferred.skip(1);
        assert forall|j: int, r: Seq<char>| 0 <= j < k - 1 implies !#[trigger] is_offered(
            rest[j],
            r,
        ) by {
            assert(rest[j] == preferred[j + 1]);
        }
        lemma_first_role(rest, k - 1, role);
    }
}

proof fn lemma_no_role(preferred: Seq<Seq<char>>)
    requires
        forall|j: int, r: Seq<char>|
            0 <= j < preferred.len() ==> !#[trigger] is_offered(preferred[j], r),
    ensures
        first_role(preferred) is None,
    decreases preferred.len(),
{
    if preferred.len() > 0 {
        lemma_role_for(preferred[0]);
        if let Some(r) = role_for(accept_table(), preferred[0]) {
            assert(is_offered(preferred[0], r));
        }
        let rest = preferred.skip(1);
        assert forall|j: int, r: Seq<char>| 0 <= j < rest.len() implies !#[trigger] is_offered(
            rest[j],
            r,
        ) by {
            assert(rest[j] == preferred[j + 1]);
        }
        lemma_no_role(rest);
    }
}

/// The client's most preferred media type among those that are offered decides,
/// wherever it stands in the order of preference: its role is the context, and
/// nothing else is. Only where none of them is offered there is no context.
pub proof fn law_most_preferred_offer_decides(accept: Seq<char>, k: int, role: Seq<char>)
    ensures
        0 <= k < preferences(accept).len() && is_offered(preferences(accept)[k], role) && (forall|
            j: int,
            r: Seq<char>,
        | 0 <= j < k ==> !#[trigger] is_offered(preferences(accept)[j], r)) ==> negotiated(accept)
            == Some(ContextView { profile: None, role: Some(role), language: None, region: None }),
        negotiated(accept) is None <==> forall|j: int, r: Seq<char>|
            0 <= j < preferences(accept).len() ==> !#[trigger] is_offered(
                preferences(accept)[j],
                r,
            ),
    decreases preferences(accept).len(),
{
    let all = preferences(accept);
    if 0 <= k < all.len() && is_offered(all[k], role) && (forall|j: int, r: Seq<char>|
        0 <= j < k ==> !#[trigger] is_offered(all[j], r)) {
        lemma_first_role(all, k, role);
    }
    if forall|j: int, r: Seq<char>| 0 <= j < all.len() ==> !#[trigger] is_offered(all[j], r) {
        lemma_no_role(all);
    } else {
        lemma_some_offer(all);
    }
}

proof fn lemma_some_offer(preferred: Seq<Seq<char>>)
    requires
        exists|j: int, r: Seq<char>|
            0 <= j < preferred.len() && #[trigger] is_offered(preferred[j], r),
    ensures
        first_role(preferred) is Some,
    decreases preferred.len(),
{
    let (j, r) = choose|j: int, r: Seq<char>|
        0 <= j < preferred.len() && #[trigger] is_offered(preferred[j], r);
    lemma_role_for(preferred[0]);
    if j > 0 && role_for(accept_table(), preferred[0]) is None {
        assert(preferred.skip(1)[j - 1] == preferred[j]);
        assert(is_offered(preferred.skip(1)[j - 1], r));
        lemma_some_offer(preferred.skip(1));
    }
}

/// What a header prefers is what it names: a media type is among the preferences
/// exactly where an element of the header names it, in any case and with space
/// around it, and gives it an acceptable weight, in whole or by its last `q`.
pub proof fn law_preferences_are_named(accept: Seq<char>, media_type: Seq<char>)
    ensures
        preferences(accept).contains(media_type) <==> media_type.len() > 0 && exists|i: int|
            0 <= i < text::split(accept, ',').len() && {
                let parts = text::split(#[trigger] text::split(accept, ',')[i], ';');
                text::lower(text::trim(parts[0])) == media_type && is_acceptable(parts.skip(1))
            },
{
    let elements = text::split(accept, ',');
    law_header_preferences(accept);
    let all = candidates(elements);
    let row = by_weight(all);
    lemma_candidate_places(elements);
    law_preferences_are_ordered(all);
    broadcast use vstd::seq_lib::group_to_multiset_ensures;

    if preferences(accept).contains(media_type) {
        let k = choose|k: int|
            0 <= k < preferences(accept).len() && preferences(accept)[k] == media_type;
        assert(all.contains(row[k]));
        let m = choose|m: int| 0 <= m < all.len() && all[m] == row[k];
        lemma_candidate_names(elements, m);
        let i = all[m].place;
        lemma_last_q(text::split(elements[i], ';').skip(1));
    }
    if media_type.len() > 0 && exists|i: int|
        0 <= i < elements.len() && {
            let parts = text::split(#[trigger] elements[i], ';');
            text::lower(text::trim(parts[0])) == media_type && is_acceptable(parts.skip(1))
        } {
        let i = choose|i: int|
            0 <= i < elements.len() && {
                let parts = text::split(#[trigger] elements[i], ';');
                text::lower(text::trim(parts[0])) == media_type && is_acceptable(parts.skip(1))
            };
        lemma_last_q(text::split(elements[i], ';').skip(1));
        lemma_named_is_candidate(elements, i);
        let c = candidate(elements[i], i)->0;
        assert(all.contains(c));
        assert(all.to_multiset().contains(c));
        assert(row.to_multiset().contains(c));
        assert(row.contains(c));
        let k = choose|k: int| 0 <= k < row.len() && row[k] == c;
        assert(preferences(accept)[k] == media_type);
    }
}

/// A parameter gives a weight.
pub open spec fn is_weight_param(p: Seq<char>) -> bool {
    text::trim(p).len() >= 2 && text::trim(p)[0] == 'q' && text::trim(p)[1] == '='
}

/// The parameters of a media type leave it acceptable: none gives a weight, or
/// the last one that does gives one above zero.
pub open spec fn is_acceptable(params: Seq<Seq<char>>) -> bool {
    (forall|i: int| 0 <= i < params.len() ==> !#[trigger] is_weight_param(params[i])) || exists|
        i: int,
    |
        0 <= i < params.len() && #[trigger] is_weight_param(params[i]) && weight(
            text::trim(text::trim(params[i]).skip(2)),
        ) is Some && forall|j: int|
            i < j < params.len() ==> !#[trigger] is_weight_param(params[j])
}

proof fn lemma_weight_param(p: Seq<char>)
    ensures
        is_weight_param(p) <==> "q="@.is_prefix_of(text::trim(p)),
{
    reveal_strlit("q=");
    let t = text::trim(p);
    if is_weight_param(p) {
        assert("q="@ =~= t.subrange(0, 2));
    }
    if "q="@.is_prefix_of(t) {
        assert(t.subrange(0, 2)[0] == 'q' && t.subrange(0, 2)[1] == '=');
    }
}

proof fn lemma_last_weight(params: Seq<Seq<char>>) -> (x: int)
    ensures
        is_last_weight(params, x),
    decreases params.len(),
{
    if params.len() == 0 {
        -1
    } else {
        let n = params.len() - 1;
        if is_weight_param(params[n]) {
            n
        } else {
            let front = params.drop_last();
            let x = lemma_last_weight(front);
            assert(x >= 0 ==> front[x] == params[x]);
            assert forall|j: int| x < j < params.len() implies !#[trigger] is_weight_param(
                params[j],
            ) by {
                if j < n {
                    assert(!is_weight_param(front[j]));
                }
            }
            x
        }
    }
}

proof fn lemma_last_q(params: Seq<Seq<char>>)
    ensures
        parameter_weight(params) is Some <==> is_acceptable(params),
{
    let x = lemma_last_weight(params);
    lemma_weight_at(params, x);
    if x >= 0 {
        assert(is_weight_param(params[x]));
        if is_acceptable(params) {
            let i = choose|i: int|
                0 <= i < params.len() && #[trigger] is_weight_param(params[i]) && weight(
                    text::trim(text::trim(params[i]).skip(2)),
                ) is Some && forall|j: int|
                    i < j < params.len() ==> !#[trigger] is_weight_param(params[j]);
            assert(i == x);
        }
    }
}

proof fn lemma_candidate_names(elements: Seq<Seq<char>>, m: int)
    requires
        0 <= m < candidates(elements).len(),
    ensures
        ({
            let c = candidates(elements)[m];
            0 <= c.place < elements.len() && candidate(elements[c.place], c.place) == Some(c)
        }),
    decreases elements.len(),
{
    if elements.len() > 0 {
        let rest = candidates(elements.drop_last());
        if m < rest.len() {
            lemma_candidate_names(elements.drop_last(), m);
            let c = rest[m];
            assert(elements.drop_last()[c.place] == elements[c.place]);
        }
    }
}

proof fn lemma_named_is_candidate(elements: Seq<Seq<char>>, i: int)
    requires
        0 <= i < elements.len(),
        candidate(elements[i], i) is Some,
    ensures
        candidates(elements).contains(candidate(elements[i], i)->0),
    decreases elements.len(),
{
    let c = candidate(elements[i], i)->0;
    let rest = candidates(elements.drop_last());
    if i == elements.len() - 1 {
        assert(candidates(elements) == rest.push(c));
        assert(candidates(elements)[rest.len() as int] == c);
    } else {
        assert(elements.drop_last()[i] == elements[i]);
        lemma_named_is_candidate(elements.drop_last(), i);
        let k = choose|k: int| 0 <= k < rest.len() && rest[k] == c;
        assert(candidates(elements)[k] == c);
    }
}

/// The place of the last parameter that gives a weight, or -1 where none does.
pub open spec fn is_last_weight(params: Seq<Seq<char>>, x: int) -> bool {
    &&& -1 <= x < params.len()
    &&& x >= 0 ==> is_weight_param(params[x])
    &&& forall|j: int| x < j < params.len() ==> !#[trigger] is_weight_param(params[j])
}

/// What an element of a header gives as weight: full weight, or that of its last
/// `q`.
pub open spec fn weight_at(params: Seq<Seq<char>>, x: int) -> Option<WeightView> {
    if x < 0 {
        Some(WeightView { digits: seq!['1'], point: 1 })
    } else {
        weight(text::trim(text::trim(params[x]).skip(2)))
    }
}

proof fn lemma_weight_at(params: Seq<Seq<char>>, x: int)
    requires
        is_last_weight(params, x),
    ensures
        parameter_weight(params) == weight_at(params, x),
    decreases params.len(),
{
    if params.len() > 0 {
        let n = params.len() - 1;
        lemma_weight_param(params[n]);
        if x < n {
            let front = params.drop_last();
            assert(!is_weight_param(params[n]));
            assert forall|j: int| x < j < front.len() implies !#[trigger] is_weight_param(front[j]) by {
                assert(!is_weight_param(params[j]));
            }
            lemma_weight_at(front, x);
        }
    }
}

/// The heavier media type comes first, and of two that weigh the same the one
/// that the client names first.
pub proof fn law_heavier_comes_first(accept: Seq<char>, i: int, j: int, x: int, y: int)
    requires
        ({
            let elements = text::split(accept, ',');
            let a = text::split(elements[i], ';');
            let b = text::split(elements[j], ';');
            &&& 0 <= i < elements.len() && 0 <= j < elements.len()
            &&& text::trim(a[0]).len() > 0 && text::trim(b[0]).len() > 0
            &&& is_last_weight(a.skip(1), x) && is_last_weight(b.skip(1), y)
            &&& weight_at(a.skip(1), x) is Some && weight_at(b.skip(1), y) is Some
            &&& is_heavier(weight_at(a.skip(1), x)->0, weight_at(b.skip(1), y)->0) || (i < j
                && !is_heavier(weight_at(b.skip(1), y)->0, weight_at(a.skip(1), x)->0))
        }),
    ensures
        exists|k: int, m: int|
            0 <= k < m < preferences(accept).len() && #[trigger] preferences(accept)[k] == text::lower(
                text::trim(text::split(text::split(accept, ',')[i], ';')[0]),
            ) && #[trigger] preferences(accept)[m] == text::lower(
                text::trim(text::split(text::split(accept, ',')[j], ';')[0]),
            ),
{
    broadcast use vstd::seq_lib::group_to_multiset_ensures;

    let elements = text::split(accept, ',');
    let all = candidates(elements);
    let row = by_weight(all);
    lemma_weight_at(text::split(elements[i], ';').skip(1), x);
    lemma_weight_at(text::split(elements[j], ';').skip(1), y);
    lemma_named_is_candidate(elements, i);
    lemma_named_is_candidate(elements, j);
    law_header_preferences(accept);
    let a = candidate(elements[i], i)->0;
    let b = candidate(elements[j], j)->0;
    assert(all.to_multiset().contains(a) && all.to_multiset().contains(b));
    assert(row.to_multiset().contains(a) && row.to_multiset().contains(b));
    assert(row.contains(a) && row.contains(b));
    let k = choose|k: int| 0 <= k < row.len() && row[k] == a;
    let m = choose|m: int| 0 <= m < row.len() && row[m] == b;
    lemma_heavier_chains(a.weight, b.weight, a.weight);
    assert(k != m) by {
        if k == m {
            assert(a == b);
            assert(i == j);
        }
    }
    if m < k {
        assert(is_heavier(row[m].weight, row[k].weight) || (!is_heavier(
            row[k].weight,
            row[m].weight,
        ) && row[m].place < row[k].place));
    }
    assert(preferences(accept)[k] == a.media_type);
    assert(preferences(accept)[m] == b.media_type);
}

/// A `q` is worth the number that it writes, with or without a fraction, and a
/// sign before it is no part of the number; nothing below zero is acceptable.
pub proof fn law_written_weight_is_read(whole: Seq<char>, fraction: Seq<char>)
    requires
        text::all_digits(whole) && text::all_digits(fraction),
        whole.len() > 0,
    ensures
        weight(whole) == decimal_weight(whole, Seq::empty(), 0),
        weight(whole + seq!['.'] + fraction) == decimal_weight(whole, fraction, 0),
        weight(seq!['+'] + whole) == decimal_weight(whole, Seq::empty(), 0),
        weight(seq!['-'] + whole) is None,
{
    lemma_written_number(whole, fraction);
    lemma_written_whole(whole);
    assert(text::is_digit(whole[0]));
    let w = whole + seq!['.'] + fraction;
    assert(text::unsigned(whole) == whole);
    assert(text::unsigned(w) == w);
    assert((seq!['+'] + whole).skip(1) =~= whole);
    assert((seq!['-'] + whole).skip(1) =~= whole);
}

proof fn lemma_written_whole(whole: Seq<char>)
    requires
        text::all_digits(whole),
        whole.len() > 0,
    ensures
        number_parts(text::lower(whole)) == Some((whole, Seq::<char>::empty(), 0int)),
{
    assert forall|i: int| 0 <= i < whole.len() implies whole[i] != 'e' && whole[i] != '.' && text::lower(
        whole,
    )[i] == whole[i] by {
        assert(text::is_digit(whole[i]));
    }
    assert(text::lower(whole) =~= whole);
    text::lemma_position(whole, 'e', whole.len() as int);
    assert(whole.take(whole.len() as int) =~= whole);
    text::lemma_position(whole, '.', whole.len() as int);
}

proof fn lemma_written_number(whole: Seq<char>, fraction: Seq<char>)
    requires
        text::all_digits(whole) && text::all_digits(fraction),
        whole.len() > 0,
    ensures
        number_parts(text::lower(whole + seq!['.'] + fraction)) == Some((whole, fraction, 0int)),
{
    let w = whole + seq!['.'] + fraction;
    assert forall|i: int| 0 <= i < w.len() implies w[i] != 'e' && text::lower(w)[i] == w[i] by {
        if i < whole.len() {
            assert(text::is_digit(whole[i]));
        } else if i > whole.len() {
            assert(w[i] == fraction[i - whole.len() - 1]);
            assert(text::is_digit(fraction[i - whole.len() - 1]));
        }
    }
    assert(text::lower(w) =~= w);
    text::lemma_position(w, 'e', w.len() as int);
    assert(w.take(w.len() as int) =~= w);
    assert forall|j: int| 0 <= j < whole.len() implies w[j] != '.' by {
        assert(text::is_digit(whole[j]));
    }
    text::lemma_position(w, '.', whole.len() as int);
    assert(w.take(whole.len() as int) =~= whole);
    assert(w.skip(whole.len() as int + 1) =~= fraction);
}

/// A weight that cannot be read counts in full: one with nothing in it, or with
/// a character that no number holds.
pub proof fn law_unreadable_weights_count_in_full(s: Seq<char>, k: int)
    requires
        s.len() > 0 ==> 0 <= k < s.len() && !text::is_letter(s[k]) && !text::is_digit(s[k]) && s[k] != '.'
            && s[k] != '+' && s[k] != '-',
    ensures
        weight(s) == Some(WeightView { digits: seq!['1'], point: 1 }),
{
    let t = text::lower(text::unsigned(s));
    let mark = exponent_mark(t);
    text::lemma_position_is(t, 'e');
    let mantissa = t.take(mark);
    text::lemma_position_is(mantissa, '.');
    let dot = text::position(mantissa, '.') as int;
    if s.len() == 0 {
        assert(mantissa.len() == 0);
    } else {
        let c = s[k];
        let i = if text::is_sign(s[0]) {
            k - 1
        } else {
            k
        };
        assert(text::unsigned(s)[i] == c);
        assert(t[i] == c);
        if i < mark {
            assert(mantissa[i] == c);
            if i < dot {
                assert(mantissa.take(dot)[i] == c);
                assert(!text::is_digit(mantissa.take(dot)[i]));
            } else {
                assert(i > dot);
                assert(mantissa.skip(dot + 1)[i - dot - 1] == c);
                assert(!text::is_digit(mantissa.skip(dot + 1)[i - dot - 1]));
            }
        } else {
            assert(i > mark);
            let e = t.skip(mark + 1);
            assert(e[i - mark - 1] == c);
            if text::is_sign(e[0]) {
                assert(i - mark - 1 > 0);
                assert(text::unsigned(e)[i - mark - 2] == c);
                assert(!text::is_digit(text::unsigned(e)[i - mark - 2]));
            } else {
                assert(!text::is_digit(text::unsigned(e)[i - mark - 1]));
            }
        }
    }
}

/// A weight in scientific form is read with its power of ten, behind an `e` of
/// either case and with or without a sign.
pub proof fn law_powers_of_ten_are_read(
    whole: Seq<char>,
    fraction: Seq<char>,
    mark: char,
    power: Seq<char>,
)
    requires
        text::all_digits(whole) && text::all_digits(fraction) && text::all_digits(power),
        whole.len() > 0 && power.len() > 0,
        mark == 'e' || mark == 'E',
        text::number(power) <= 1000000000,
    ensures
        weight(whole + seq!['.'] + fraction + seq![mark] + power) == decimal_weight(
            whole,
            fraction,
            text::number(power) as int,
        ),
        weight(whole + seq!['.'] + fraction + seq![mark] + seq!['+'] + power) == decimal_weight(
            whole,
            fraction,
            text::number(power) as int,
        ),
        weight(whole + seq!['.'] + fraction + seq![mark] + seq!['-'] + power) == decimal_weight(
            whole,
            fraction,
            -(text::number(power) as int),
        ),
{
    let plus = seq!['+'] + power;
    let minus = seq!['-'] + power;
    assert(plus.skip(1) =~= power);
    assert(minus.skip(1) =~= power);
    assert(text::is_digit(power[0]));
    lemma_scientific(whole, fraction, mark, power);
    lemma_scientific(whole, fraction, mark, plus);
    lemma_scientific(whole, fraction, mark, minus);
    assert(whole + seq!['.'] + fraction + seq![mark] + plus =~= whole + seq!['.'] + fraction
        + seq![mark] + seq!['+'] + power);
    assert(whole + seq!['.'] + fraction + seq![mark] + minus =~= whole + seq!['.'] + fraction
        + seq![mark] + seq!['-'] + power);
}

proof fn lemma_scientific(
    whole: Seq<char>,
    fraction: Seq<char>,
    mark: char,
    power: Seq<char>,
)
    requires
        text::all_digits(whole) && text::all_digits(fraction),
        whole.len() > 0,
        mark == 'e' || mark == 'E',
        forall|i: int|
            0 <= i < power.len() ==> text::is_digit(#[trigger] power[i]) || power[i] == '+' || power[i]
                == '-',
        exponent(power) is Some,
    ensures
        weight(whole + seq!['.'] + fraction + seq![mark] + power) == decimal_weight(
            whole,
            fraction,
            exponent(power)->0,
        ),
{
    let s = whole + seq!['.'] + fraction + seq![mark] + power;
    let mantissa = whole + seq!['.'] + fraction;
    let n = mantissa.len() as int;
    assert(text::is_digit(whole[0]));
    assert(s[0] == whole[0]);
    let t = text::lower(s);
    assert forall|i: int| 0 <= i < n implies t[i] == mantissa[i] && t[i] != 'e' by {
        if i < whole.len() {
            assert(text::is_digit(whole[i]));
            assert(s[i] == whole[i]);
        } else if i > whole.len() {
            assert(text::is_digit(fraction[i - whole.len() - 1]));
            assert(s[i] == fraction[i - whole.len() - 1]);
        } else {
            assert(s[i] == '.');
        }
    }
    assert(s[n] == mark);
    assert(t[n] == 'e');
    text::lemma_position(t, 'e', n);
    assert(t.take(n) =~= mantissa);
    assert(t.skip(n + 1) =~= power) by {
        assert forall|i: int| 0 <= i < power.len() implies t.skip(n + 1)[i] == power[i] by {
            assert(s[n + 1 + i] == power[i]);
            assert(text::is_digit(power[i]) || power[i] == '+' || power[i] == '-');
        }
    }
    assert forall|i: int| 0 <= i < whole.len() implies mantissa[i] != '.' by {
        assert(text::is_digit(whole[i]));
    }
    assert(mantissa[whole.len() as int] == '.');
    text::lemma_position(mantissa, '.', whole.len() as int);
    assert(mantissa.take(whole.len() as int) =~= whole);
    assert(mantissa.skip(whole.len() as int + 1) =~= fraction);
}

} // verus!
