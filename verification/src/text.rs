//! Text as character sequences: the vocabulary that every parser and
//! printer of this crate is specified in. Strings enter through
//! [`chars_of`] and leave through [`string_of`]; in between the code works
//! on slices of characters, whose views are what the contracts speak of.

use vstd::prelude::*;
use vstd::slice::slice_subrange;

verus! {

/// `String::push` of the standard library: appends one character.
pub assume_specification[ String::push ](s: &mut String, c: char)
    ensures
        final(s)@ == old(s)@.push(c),
;

/// `String::push_str` of the standard library: appends a whole string slice.
pub assume_specification[ String::push_str ](s: &mut String, tail: &str)
    ensures
        final(s)@ == old(s)@ + tail@,
;

/// `String::from_utf8` of the standard library: succeeds exactly on valid
/// UTF-8 and hands back the characters that the bytes encode.
#[verifier::external_body]
pub(crate) fn utf8_text(bytes: Vec<u8>) -> (r: Option<String>)
    ensures
        r is Some <==> vstd::utf8::valid_utf8(bytes@),
        r matches Some(s) ==> s@ == vstd::utf8::decode_utf8(bytes@),
{
    String::from_utf8(bytes).ok()
}

/// The text that `String::from_utf8_lossy` of the standard library makes of
/// bytes.
pub uninterp spec fn lossy_text(bytes: Seq<u8>) -> Seq<char>;

/// `String::from_utf8_lossy` of the standard library: a function of the bytes,
/// and the characters that they encode where they are valid UTF-8.
#[verifier::external_body]
pub(crate) fn text_of_bytes(bytes: &[u8]) -> (r: String)
    ensures
        r@ == lossy_text(bytes@),
        vstd::utf8::valid_utf8(bytes@) ==> r@ == vstd::utf8::decode_utf8(bytes@),
{
    String::from_utf8_lossy(bytes).into_owned()
}

/// The characters of a string.
pub fn chars_of(s: &str) -> (r: Vec<char>)
    ensures
        r@ == s@,
{
    let mut out: Vec<char> = Vec::new();
    for c in it: s.chars()
        invariant
            it.seq() == s@,
            out@ == it.seq().take(it.index() as int),
    {
        out.push(c);
    }
    assert(s@.take(s@.len() as int) =~= s@);
    out
}

/// The string that holds the given characters.
pub fn string_of(cs: &[char]) -> (r: String)
    ensures
        r@ == cs@,
{
    let mut out = String::new();
    let mut i: usize = 0;
    while i < cs.len()
        invariant
            i <= cs.len(),
            out@ == cs@.take(i as int),
        decreases cs.len() - i,
    {
        out.push(cs[i]);
        i += 1;
        assert(cs@.take(i as int) =~= cs@.take(i - 1).push(cs@[i - 1]));
    }
    assert(cs@.take(i as int) =~= cs@);
    out
}

// ---------------------------------------------------------------------------
// Character classes
// ---------------------------------------------------------------------------

/// White space as Unicode's `White_Space` property lists it.
pub open spec fn is_space(c: char) -> bool {
    ||| '\u{9}' <= c <= '\u{d}'
    ||| c == '\u{20}'
    ||| c == '\u{85}'
    ||| c == '\u{a0}'
    ||| c == '\u{1680}'
    ||| '\u{2000}' <= c <= '\u{200a}'
    ||| c == '\u{2028}'
    ||| c == '\u{2029}'
    ||| c == '\u{202f}'
    ||| c == '\u{205f}'
    ||| c == '\u{3000}'
}

pub fn space(c: char) -> (r: bool)
    ensures
        r == is_space(c),
{
    ('\u{9}' <= c && c <= '\u{d}') || c == '\u{20}' || c == '\u{85}' || c == '\u{a0}'
        || c == '\u{1680}' || ('\u{2000}' <= c && c <= '\u{200a}') || c == '\u{2028}'
        || c == '\u{2029}' || c == '\u{202f}' || c == '\u{205f}' || c == '\u{3000}'
}

pub open spec fn is_digit(c: char) -> bool {
    '0' <= c <= '9'
}

pub open spec fn is_letter(c: char) -> bool {
    'A' <= c <= 'Z' || 'a' <= c <= 'z'
}

/// Every character is a decimal digit.
pub open spec fn all_digits(s: Seq<char>) -> bool {
    forall|i: int| 0 <= i < s.len() ==> is_digit(#[trigger] s[i])
}

pub fn digit(c: char) -> (r: bool)
    ensures
        r == is_digit(c),
{
    '0' <= c && c <= '9'
}

pub fn letter(c: char) -> (r: bool)
    ensures
        r == is_letter(c),
{
    ('A' <= c && c <= 'Z') || ('a' <= c && c <= 'z')
}

pub fn digits_only(cs: &[char]) -> (r: bool)
    ensures
        r == all_digits(cs@),
{
    let mut i: usize = 0;
    while i < cs.len()
        invariant
            i <= cs.len(),
            forall|j: int| 0 <= j < i ==> is_digit(#[trigger] cs@[j]),
        decreases cs.len() - i,
    {
        if !digit(cs[i]) {
            return false;
        }
        i += 1;
    }
    true
}

/// The number that a decimal digit stands for.
pub open spec fn digit_value(c: char) -> int {
    c as int - '0' as int
}

/// The decimal digit for a number below ten.
pub open spec fn digit_char(d: int) -> char {
    ('0' as int + d) as char
}

pub fn value_of_digit(c: char) -> (r: u32)
    requires
        is_digit(c),
    ensures
        r == digit_value(c),
        r <= 9,
{
    c as u32 - '0' as u32
}

pub fn char_of_digit(d: u8) -> (r: char)
    requires
        d <= 9,
    ensures
        r == digit_char(d as int),
        is_digit(r),
        digit_value(r) == d,
{
    (48 + d) as char
}

/// ASCII lower case of one character; anything else stays.
pub open spec fn lower_char(c: char) -> char {
    if 'A' <= c <= 'Z' {
        (c as int + 32) as char
    } else {
        c
    }
}

/// ASCII lower case of a text.
pub open spec fn lower(s: Seq<char>) -> Seq<char> {
    s.map_values(|c: char| lower_char(c))
}

pub fn lower_of(cs: &[char]) -> (r: Vec<char>)
    ensures
        r@ == lower(cs@),
{
    let mut out: Vec<char> = Vec::new();
    let mut i: usize = 0;
    while i < cs.len()
        invariant
            i <= cs.len(),
            out@ == lower(cs@).take(i as int),
        decreases cs.len() - i,
    {
        let c = cs[i];
        let l: char = if 'A' <= c && c <= 'Z' {
            (c as u8 + 32) as char
        } else {
            c
        };
        out.push(l);
        i += 1;
        assert(lower(cs@).take(i as int) =~= lower(cs@).take(i - 1).push(lower_char(cs@[i - 1])));
    }
    assert(lower(cs@).take(i as int) =~= lower(cs@));
    out
}

// ---------------------------------------------------------------------------
// Trimming
// ---------------------------------------------------------------------------

/// Without leading white space.
pub open spec fn trim_start(s: Seq<char>) -> Seq<char>
    decreases s.len(),
{
    if s.len() > 0 && is_space(s[0]) {
        trim_start(s.skip(1))
    } else {
        s
    }
}

/// Without trailing white space.
pub open spec fn trim_end(s: Seq<char>) -> Seq<char>
    decreases s.len(),
{
    if s.len() > 0 && is_space(s.last()) {
        trim_end(s.drop_last())
    } else {
        s
    }
}

/// Without white space at either end.
pub open spec fn trim(s: Seq<char>) -> Seq<char> {
    trim_end(trim_start(s))
}

pub fn trimmed(cs: &[char]) -> (r: &[char])
    ensures
        r@ == trim(cs@),
{
    let mut lo: usize = 0;
    assert(cs@.skip(0) =~= cs@);
    while lo < cs.len() && space(cs[lo])
        invariant
            lo <= cs.len(),
            trim_start(cs@.skip(lo as int)) == trim_start(cs@),
        decreases cs.len() - lo,
    {
        assert(cs@.skip(lo as int).skip(1) =~= cs@.skip(lo + 1));
        lo += 1;
    }
    let ghost rest = cs@.skip(lo as int);
    assert(trim_start(cs@) == rest);
    let mut hi: usize = cs.len();
    assert(cs@.subrange(lo as int, hi as int) =~= rest);
    while hi > lo && space(cs[hi - 1])
        invariant
            lo <= hi <= cs.len(),
            trim_end(cs@.subrange(lo as int, hi as int)) == trim_end(rest),
        decreases hi,
    {
        assert(cs@.subrange(lo as int, hi as int).drop_last() =~= cs@.subrange(lo as int, hi - 1));
        hi -= 1;
    }
    slice_subrange(cs, lo, hi)
}

/// The length of the word that a text begins with: up to the first white space.
pub open spec fn word_len(s: Seq<char>) -> nat
    decreases s.len(),
{
    if s.len() == 0 || is_space(s[0]) {
        0
    } else {
        1 + word_len(s.skip(1))
    }
}

/// What follows the first word of a text, without the white space around that
/// word.
pub open spec fn behind_first_word(s: Seq<char>) -> Seq<char> {
    let first = trim_start(s);
    trim_start(first.skip(word_len(first) as int))
}

/// The second word of a text; empty where there is none.
pub open spec fn second_word(s: Seq<char>) -> Seq<char> {
    let rest = behind_first_word(s);
    rest.take(word_len(rest) as int)
}

fn behind_space(cs: &[char]) -> (r: &[char])
    ensures
        r@ == trim_start(cs@),
{
    let mut lo: usize = 0;
    assert(cs@.skip(0) =~= cs@);
    while lo < cs.len() && space(cs[lo])
        invariant
            lo <= cs.len(),
            trim_start(cs@.skip(lo as int)) == trim_start(cs@),
        decreases cs.len() - lo,
    {
        assert(cs@.skip(lo as int).skip(1) =~= cs@.skip(lo + 1));
        lo += 1;
    }
    after(cs, lo)
}

fn first_word_len(cs: &[char]) -> (r: usize)
    ensures
        r == word_len(cs@),
        r <= cs@.len(),
{
    let mut n: usize = 0;
    assert(cs@.skip(0) =~= cs@);
    while n < cs.len() && !space(cs[n])
        invariant
            n <= cs.len(),
            word_len(cs@) == n + word_len(cs@.skip(n as int)),
        decreases cs.len() - n,
    {
        assert(cs@.skip(n as int).skip(1) =~= cs@.skip(n + 1));
        n += 1;
    }
    n
}

/// The second word of a text.
pub fn second_word_of(cs: &[char]) -> (r: &[char])
    ensures
        r@ == second_word(cs@),
{
    let first = behind_space(cs);
    let rest = behind_space(after(first, first_word_len(first)));
    before(rest, first_word_len(rest))
}

/// A text without white space at its ends is left alone by [`trim`].
pub proof fn lemma_trim_tight(s: Seq<char>)
    requires
        s.len() > 0 ==> !is_space(s[0]) && !is_space(s.last()),
    ensures
        trim(s) == s,
{
}

/// What [`trim`] gives back has no white space at its ends.
pub proof fn lemma_trim_is_tight(s: Seq<char>)
    ensures
        trim(s).len() > 0 ==> !is_space(trim(s)[0]) && !is_space(trim(s).last()),
        trim(trim(s)) == trim(s),
{
    lemma_trim_start_tight(s);
    lemma_trim_end_tight(trim_start(s));
    lemma_trim_tight(trim(s));
}

proof fn lemma_trim_start_tight(s: Seq<char>)
    ensures
        trim_start(s).len() > 0 ==> !is_space(trim_start(s)[0]),
    decreases s.len(),
{
    if s.len() > 0 && is_space(s[0]) {
        lemma_trim_start_tight(s.skip(1));
    }
}

proof fn lemma_trim_end_tight(s: Seq<char>)
    ensures
        trim_end(s).len() > 0 ==> !is_space(trim_end(s).last()) && trim_end(s)[0] == s[0],
    decreases s.len(),
{
    if s.len() > 0 && is_space(s.last()) {
        lemma_trim_end_tight(s.drop_last());
    }
}

// ---------------------------------------------------------------------------
// Searching and splitting
// ---------------------------------------------------------------------------

/// Index of the first `c`, or the length where there is none.
pub open spec fn position(s: Seq<char>, c: char) -> nat
    decreases s.len(),
{
    if s.len() == 0 || s[0] == c {
        0
    } else {
        1 + position(s.skip(1), c)
    }
}

/// [`position`] is the one index that nothing equal to `c` precedes and that
/// is either the end or holds `c`.
pub proof fn lemma_position(s: Seq<char>, c: char, i: int)
    requires
        0 <= i <= s.len(),
        forall|j: int| 0 <= j < i ==> s[j] != c,
        i == s.len() || s[i] == c,
    ensures
        position(s, c) == i,
    decreases s.len(),
{
    if i > 0 {
        assert forall|j: int| 0 <= j < i - 1 implies s.skip(1)[j] != c by {
            assert(s.skip(1)[j] == s[j + 1]);
        }
        lemma_position(s.skip(1), c, i - 1);
    }
}

/// What [`position`] points at.
pub proof fn lemma_position_is(s: Seq<char>, c: char)
    ensures
        position(s, c) <= s.len(),
        position(s, c) < s.len() ==> s[position(s, c) as int] == c,
        forall|j: int| 0 <= j < position(s, c) ==> s[j] != c,
    decreases s.len(),
{
    if s.len() > 0 && s[0] != c {
        lemma_position_is(s.skip(1), c);
        assert forall|j: int| 0 <= j < position(s, c) implies s[j] != c by {
            if j > 0 {
                assert(s[j] == s.skip(1)[j - 1]);
            }
        }
    }
}

pub fn position_of(cs: &[char], c: char) -> (r: usize)
    ensures
        r == position(cs@, c),
        r <= cs@.len(),
{
    let mut i: usize = 0;
    while i < cs.len() && cs[i] != c
        invariant
            i <= cs.len(),
            forall|j: int| 0 <= j < i ==> cs@[j] != c,
        decreases cs.len() - i,
    {
        i += 1;
    }
    proof {
        lemma_position(cs@, c, i as int);
    }
    i
}

/// The pieces between the separators, in order; a text without one is its
/// own single piece.
pub open spec fn split(s: Seq<char>, sep: char) -> Seq<Seq<char>>
    decreases s.len(),
{
    let i = position(s, sep) as int;
    if i >= s.len() {
        seq![s]
    } else {
        seq![s.take(i)] + split(s.skip(i + 1), sep)
    }
}

/// The views of a list of character vectors.
pub open spec fn texts(v: Seq<Vec<char>>) -> Seq<Seq<char>> {
    v.map_values(|p: Vec<char>| p@)
}

/// The views of a list of strings.
pub open spec fn strings(v: Seq<String>) -> Seq<Seq<char>> {
    v.map_values(|p: String| p@)
}

/// The views of a list of string pairs.
pub open spec fn string_pairs(v: Seq<(String, String)>) -> Seq<(Seq<char>, Seq<char>)> {
    v.map_values(|p: (String, String)| (p.0@, p.1@))
}

/// The view of an optional string.
pub open spec fn opt_text(o: Option<String>) -> Option<Seq<char>> {
    match o {
        Some(s) => Some(s@),
        None => None,
    }
}

pub fn split_at_each(cs: &[char], sep: char) -> (r: Vec<Vec<char>>)
    ensures
        texts(r@) == split(cs@, sep),
{
    let mut out: Vec<Vec<char>> = Vec::new();
    let mut start: usize = 0;
    assert(cs@.skip(0) =~= cs@);
    assert(texts(out@) + split(cs@, sep) =~= split(cs@, sep));
    loop
        invariant
            start <= cs.len(),
            texts(out@) + split(cs@.skip(start as int), sep) == split(cs@, sep),
        decreases cs.len() - start,
    {
        let rest = slice_subrange(cs, start, cs.len());
        assert(rest@ =~= cs@.skip(start as int));
        let i: usize = position_of(rest, sep);
        if i >= rest.len() {
            let ghost before = out@;
            out.push(vec_of(rest));
            assert(texts(out@) =~= texts(before) + seq![rest@]);
            return out;
        }
        let piece = slice_subrange(rest, 0, i);
        assert(piece@ =~= rest@.take(i as int));
        let ghost before = out@;
        out.push(vec_of(piece));
        assert(texts(out@) =~= texts(before) + seq![piece@]);
        assert(rest@.skip(i + 1) =~= cs@.skip(start + i + 1));
        proof {
            let tail = split(cs@.skip(start + i + 1), sep);
            assert(texts(before) + (seq![piece@] + tail) =~= texts(out@) + tail);
        }
        start = start + i + 1;
    }
}

/// A vector with the slice's characters.
pub fn vec_of(cs: &[char]) -> (r: Vec<char>)
    ensures
        r@ == cs@,
{
    let mut out: Vec<char> = Vec::new();
    let mut i: usize = 0;
    while i < cs.len()
        invariant
            i <= cs.len(),
            out@ == cs@.take(i as int),
        decreases cs.len() - i,
    {
        out.push(cs[i]);
        i += 1;
        assert(cs@.take(i as int) =~= cs@.take(i - 1).push(cs@[i - 1]));
    }
    assert(cs@.take(i as int) =~= cs@);
    out
}

/// Index of the first occurrence of `pat`.
pub open spec fn find(s: Seq<char>, pat: Seq<char>) -> Option<nat>
    decreases s.len(),
{
    if pat.is_prefix_of(s) {
        Some(0)
    } else if s.len() == 0 {
        None
    } else {
        match find(s.skip(1), pat) {
            Some(i) => Some(i + 1),
            None => None,
        }
    }
}

pub fn find_text(cs: &[char], pat: &[char]) -> (r: Option<usize>)
    ensures
        match r {
            Some(i) => find(cs@, pat@) == Some(i as nat) && i + pat@.len() <= cs@.len(),
            None => find(cs@, pat@) is None,
        },
{
    let mut i: usize = 0;
    assert(cs@.skip(0) =~= cs@);
    loop
        invariant
            i <= cs.len(),
            find(cs@, pat@) == (match find(cs@.skip(i as int), pat@) {
                Some(k) => Some(k + i as nat),
                None => None,
            }),
        decreases cs.len() - i,
    {
        let rest = slice_subrange(cs, i, cs.len());
        assert(rest@ =~= cs@.skip(i as int));
        if begins_with(rest, pat) {
            return Some(i);
        }
        if i == cs.len() {
            return None;
        }
        assert(cs@.skip(i as int).skip(1) =~= cs@.skip(i + 1));
        i += 1;
    }
}

pub fn begins_with(cs: &[char], pat: &[char]) -> (r: bool)
    ensures
        r == pat@.is_prefix_of(cs@),
{
    if pat.len() > cs.len() {
        return false;
    }
    let mut i: usize = 0;
    while i < pat.len()
        invariant
            i <= pat.len() <= cs.len(),
            forall|j: int| 0 <= j < i ==> pat@[j] == cs@[j],
        decreases pat.len() - i,
    {
        if pat[i] != cs[i] {
            assert(cs@.subrange(0, pat@.len() as int)[i as int] == cs@[i as int]);
            return false;
        }
        i += 1;
    }
    assert(pat@ =~= cs@.subrange(0, pat@.len() as int));
    true
}

/// Does the text begin with the given literal?
pub fn begins_with_str(cs: &[char], lit: &str) -> (r: bool)
    ensures
        r == lit@.is_prefix_of(cs@),
{
    let pat = chars_of(lit);
    begins_with(cs, pat.as_slice())
}

/// Is the text the given literal?
pub fn is_text(cs: &[char], lit: &str) -> (r: bool)
    ensures
        r == (cs@ == lit@),
{
    let pat = chars_of(lit);
    if pat.len() != cs.len() {
        return false;
    }
    let r = begins_with(cs, pat.as_slice());
    assert(cs@.subrange(0, cs@.len() as int) =~= cs@);
    r
}

/// Do the two hold the same characters?
pub fn same_text(a: &str, b: &str) -> (r: bool)
    ensures
        r == (a@ == b@),
{
    is_text(chars_of(a).as_slice(), b)
}

/// What follows the first `n` characters.
pub fn after(cs: &[char], n: usize) -> (r: &[char])
    requires
        n <= cs@.len(),
    ensures
        r@ == cs@.skip(n as int),
{
    slice_subrange(cs, n, cs.len())
}

/// The first `n` characters.
pub fn before(cs: &[char], n: usize) -> (r: &[char])
    requires
        n <= cs@.len(),
    ensures
        r@ == cs@.take(n as int),
{
    slice_subrange(cs, 0, n)
}

// ---------------------------------------------------------------------------
// Building
// ---------------------------------------------------------------------------

/// A number in decimal, without leading zeros.
pub open spec fn decimal(n: nat) -> Seq<char>
    decreases n,
{
    if n < 10 {
        seq![digit_char(n as int)]
    } else {
        decimal(n / 10).push(digit_char((n % 10) as int))
    }
}

pub fn decimal_text(n: u64) -> (r: String)
    ensures
        r@ == decimal(n as nat),
    decreases n,
{
    if n < 10 {
        let mut s = String::new();
        s.push(char_of_digit(n as u8));
        assert(s@ =~= decimal(n as nat));
        s
    } else {
        let mut s = decimal_text(n / 10);
        s.push(char_of_digit((n % 10) as u8));
        s
    }
}

/// Three texts one after the other.
pub fn concat3(a: &str, b: &str, c: &str) -> (r: String)
    ensures
        r@ == a@ + b@ + c@,
{
    let mut s = String::new();
    s.push_str(a);
    s.push_str(b);
    s.push_str(c);
    assert(s@ =~= a@ + b@ + c@);
    s
}

/// A copy of an optional string.
pub fn copy_opt(o: &Option<String>) -> (r: Option<String>)
    ensures
        opt_text(r) == opt_text(*o),
{
    match o {
        Some(s) => Some(s.clone()),
        None => None,
    }
}

/// A copy of a list of strings.
pub fn copy_strings(v: &Vec<String>) -> (r: Vec<String>)
    ensures
        strings(r@) == strings(v@),
{
    let mut out: Vec<String> = Vec::new();
    let mut i: usize = 0;
    while i < v.len()
        invariant
            i <= v.len(),
            strings(out@) == strings(v@).take(i as int),
        decreases v.len() - i,
    {
        let ghost before = out@;
        out.push(v[i].clone());
        i += 1;
        assert(strings(out@) =~= strings(before).push(v@[i - 1]@));
        assert(strings(v@).take(i as int) =~= strings(v@).take(i - 1).push(v@[i - 1]@));
    }
    assert(strings(v@).take(i as int) =~= strings(v@));
    out
}

/// The view of an optional string slice.
pub open spec fn opt_str(o: Option<&str>) -> Option<Seq<char>> {
    match o {
        Some(s) => Some(s@),
        None => None,
    }
}

/// The text of an option, or another in its place.
pub open spec fn text_or(o: Option<Seq<char>>, other: Seq<char>) -> Seq<char> {
    match o {
        Some(s) => s,
        None => other,
    }
}

/// An optional string as an optional slice.
pub fn as_slice(o: &Option<String>) -> (r: Option<&str>)
    ensures
        opt_str(r) == opt_text(*o),
{
    match o {
        Some(s) => Some(s.as_str()),
        None => None,
    }
}

/// The string of an option, or the one given in its place.
pub fn slice_or<'a>(o: &'a Option<String>, other: &'a str) -> (r: &'a str)
    ensures
        r@ == text_or(opt_text(*o), other@),
{
    match o {
        Some(s) => s.as_str(),
        None => other,
    }
}

// ---------------------------------------------------------------------------
// Numbers
// ---------------------------------------------------------------------------

/// The number that a row of digits stands for.
pub open spec fn number(s: Seq<char>) -> nat
    decreases s.len(),
{
    if s.len() == 0 {
        0
    } else {
        number(s.drop_last()) * 10 + digit_value(s.last()) as nat
    }
}

/// A plus or a minus.
pub open spec fn is_sign(c: char) -> bool {
    c == '+' || c == '-'
}

/// What stands behind a sign, if there is one.
pub open spec fn unsigned(s: Seq<char>) -> Seq<char> {
    if s.len() > 0 && is_sign(s[0]) {
        s.skip(1)
    } else {
        s
    }
}

/// The text begins with a minus.
pub open spec fn is_negative(s: Seq<char>) -> bool {
    s.len() > 0 && s[0] == '-'
}

/// What stands behind a sign, if there is one.
pub fn behind_sign(cs: &[char]) -> (r: &[char])
    ensures
        r@ == unsigned(cs@),
{
    if cs.len() > 0 && (cs[0] == '+' || cs[0] == '-') {
        after(cs, 1)
    } else {
        cs
    }
}

proof fn lemma_number_of_prefix(s: Seq<char>, i: int)
    requires
        all_digits(s),
        0 <= i <= s.len(),
    ensures
        number(s.take(i)) <= number(s),
    decreases s.len() - i,
{
    if i == s.len() {
        assert(s.take(i) =~= s);
    } else {
        lemma_number_of_prefix(s, i + 1);
        assert(s.take(i + 1).drop_last() =~= s.take(i));
        assert(is_digit(s[i]));
    }
}

/// The number that a row of digits stands for, up to a bound.
pub fn bounded_number(cs: &[char], max: u64) -> (r: Option<u64>)
    requires
        all_digits(cs@),
    ensures
        match r {
            Some(n) => n == number(cs@) && n <= max,
            None => number(cs@) > max,
        },
{
    let mut n: u128 = 0;
    let mut i: usize = 0;
    assert(cs@.take(0) =~= Seq::empty());
    while i < cs.len()
        invariant
            i <= cs.len(),
            all_digits(cs@),
            n == number(cs@.take(i as int)),
            n <= max,
        decreases cs.len() - i,
    {
        assert(cs@.take(i + 1).drop_last() =~= cs@.take(i as int));
        assert(cs@.take(i + 1).last() == cs@[i as int]);
        assert(is_digit(cs@[i as int]));
        n = n * 10 + value_of_digit(cs[i]) as u128;
        i += 1;
        if n > max as u128 {
            proof {
                lemma_number_of_prefix(cs@, i as int);
            }
            return None;
        }
    }
    assert(cs@.take(i as int) =~= cs@);
    Some(n as u64)
}

/// The whole number that a text stands for: digits behind an optional plus,
/// not above the bound.
pub open spec fn whole_number(s: Seq<char>, max: int) -> Option<int> {
    let digits = if s.len() > 0 && s[0] == '+' {
        s.skip(1)
    } else {
        s
    };
    if digits.len() == 0 || !all_digits(digits) || number(digits) > max {
        None
    } else {
        Some(number(digits) as int)
    }
}

/// Read a whole number.
pub fn read_whole_number(s: &str, max: u64) -> (r: Option<u64>)
    ensures
        match r {
            Some(n) => whole_number(s@, max as int) == Some(n as int),
            None => whole_number(s@, max as int) is None,
        },
{
    let cs = chars_of(s);
    let digits = if cs.len() > 0 && cs[0] == '+' {
        after(cs.as_slice(), 1)
    } else {
        cs.as_slice()
    };
    if digits.len() == 0 || !digits_only(digits) {
        return None;
    }
    bounded_number(digits, max)
}

/// The signed 64-bit number that a text stands for: digits behind an optional
/// sign.
pub open spec fn signed_number(s: Seq<char>) -> Option<int> {
    let digits = unsigned(s);
    if digits.len() == 0 || !all_digits(digits) {
        None
    } else {
        let n = if is_negative(s) {
            -number(digits)
        } else {
            number(digits) as int
        };
        if i64::MIN <= n <= i64::MAX {
            Some(n)
        } else {
            None
        }
    }
}

/// Read a signed 64-bit number.
pub fn read_signed_number(s: &str) -> (r: Option<i64>)
    ensures
        match r {
            Some(n) => signed_number(s@) == Some(n as int),
            None => signed_number(s@) is None,
        },
{
    let cs = chars_of(s);
    let digits = behind_sign(cs.as_slice());
    if digits.len() == 0 || !digits_only(digits) {
        return None;
    }
    if cs[0] == '-' {
        match bounded_number(digits, 9223372036854775808) {
            Some(n) => Some((-(n as i128)) as i64),
            None => None,
        }
    } else {
        match bounded_number(digits, 9223372036854775807) {
            Some(n) => Some(n as i64),
            None => None,
        }
    }
}

} // verus!
