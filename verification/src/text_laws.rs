//! What the operations on text give, stated place by place. Nothing here runs.

use vstd::prelude::*;

use crate::text;

verus! {

/// Trimming takes the white space off both ends and nothing else: what is left
/// is a stretch of the text with only white space around it, and neither begins
/// nor ends with white space.
pub proof fn law_trimming_takes_space_off_the_ends(s: Seq<char>) -> (cut: (int, int))
    ensures
        0 <= cut.0 <= cut.1 <= s.len(),
        text::trim(s) == s.subrange(cut.0, cut.1),
        forall|k: int| 0 <= k < cut.0 ==> text::is_space(#[trigger] s[k]),
        forall|k: int| cut.1 <= k < s.len() ==> text::is_space(#[trigger] s[k]),
        cut.0 < cut.1 ==> !text::is_space(s[cut.0]) && !text::is_space(s[cut.1 - 1]),
{
    let a = lemma_trim_start(s);
    let tail = s.skip(a);
    let b = lemma_trim_end(tail);
    assert forall|k: int| a + b <= k < s.len() implies text::is_space(#[trigger] s[k]) by {
        assert(tail[k - a] == s[k]);
    }
    if b > 0 {
        assert(tail[b - 1] == s[a + b - 1]);
        assert(tail[0] == s[a]);
    }
    assert(text::trim(s) =~= s.subrange(a, a + b));
    (a, a + b)
}

proof fn lemma_trim_start(s: Seq<char>) -> (n: int)
    ensures
        0 <= n <= s.len(),
        text::trim_start(s) == s.skip(n),
        forall|k: int| 0 <= k < n ==> text::is_space(#[trigger] s[k]),
        n < s.len() ==> !text::is_space(s[n]),
    decreases s.len(),
{
    if s.len() > 0 && text::is_space(s[0]) {
        let rest = s.skip(1);
        let n = lemma_trim_start(rest);
        assert forall|k: int| 0 <= k < n + 1 implies text::is_space(#[trigger] s[k]) by {
            if k > 0 {
                assert(rest[k - 1] == s[k]);
            }
        }
        assert(rest.skip(n) =~= s.skip(n + 1));
        if n < rest.len() {
            assert(rest[n] == s[n + 1]);
        }
        n + 1
    } else {
        assert(s.skip(0) =~= s);
        0
    }
}

proof fn lemma_trim_end(s: Seq<char>) -> (n: int)
    ensures
        0 <= n <= s.len(),
        text::trim_end(s) == s.take(n),
        forall|k: int| n <= k < s.len() ==> text::is_space(#[trigger] s[k]),
        n > 0 ==> !text::is_space(s[n - 1]),
    decreases s.len(),
{
    if s.len() > 0 && text::is_space(s.last()) {
        let front = s.drop_last();
        let n = lemma_trim_end(front);
        assert forall|k: int| n <= k < s.len() implies text::is_space(#[trigger] s[k]) by {
            if k < front.len() {
                assert(front[k] == s[k]);
            }
        }
        assert(front.take(n) =~= s.take(n));
        if n > 0 {
            assert(front[n - 1] == s[n - 1]);
        }
        n
    } else {
        assert(s.take(s.len() as int) =~= s);
        s.len() as int
    }
}

/// Space, tab and line ends are white space; what prints in ASCII is not.
pub proof fn law_white_space_is_what_does_not_print(c: char)
    ensures
        c == ' ' || c == '\t' || c == '\n' || c == '\r' ==> text::is_space(c),
        '!' <= c <= '~' ==> !text::is_space(c),
{
}

/// Pieces put together again with a separator between them.
pub open spec fn joined(pieces: Seq<Seq<char>>, sep: char) -> Seq<char>
    decreases pieces.len(),
{
    if pieces.len() == 0 {
        Seq::empty()
    } else if pieces.len() == 1 {
        pieces[0]
    } else {
        pieces[0] + seq![sep] + joined(pieces.skip(1), sep)
    }
}

/// Splitting loses nothing: there is at least one piece, no piece holds the
/// separator, and together with it they make up the text again.
pub proof fn law_pieces_make_up_the_text(s: Seq<char>, sep: char)
    ensures
        text::split(s, sep).len() > 0,
        joined(text::split(s, sep), sep) == s,
        forall|i: int| 0 <= i < text::split(s, sep).len() ==> !(#[trigger] text::split(s, sep)[i]).contains(sep),
    decreases s.len(),
{
    let i = text::position(s, sep) as int;
    text::lemma_position_is(s, sep);
    let all = text::split(s, sep);
    if i >= s.len() {
        assert(all =~= seq![s]);
    } else {
        let rest = s.skip(i + 1);
        law_pieces_make_up_the_text(rest, sep);
        let more = text::split(rest, sep);
        assert(all =~= seq![s.take(i)] + more);
        assert(all.skip(1) =~= more);
        assert(s.take(i) + seq![sep] + rest =~= s);
        assert forall|k: int| 0 <= k < all.len() implies !(#[trigger] all[k]).contains(sep) by {
            if k > 0 {
                assert(all[k] == more[k - 1]);
            }
        }
    }
}

/// A pattern occurs in a text at this place.
pub open spec fn occurs(s: Seq<char>, pat: Seq<char>, i: int) -> bool {
    0 <= i && i + pat.len() <= s.len() && s.subrange(i, i + pat.len()) == pat
}

/// A search gives the first place at which a pattern occurs, and nothing exactly
/// where it occurs at none.
pub proof fn law_search_gives_the_first_place(s: Seq<char>, pat: Seq<char>)
    ensures
        match text::find(s, pat) {
            Some(n) => occurs(s, pat, n as int) && forall|m: int|
                0 <= m < n ==> !#[trigger] occurs(s, pat, m),
            None => forall|m: int| !#[trigger] occurs(s, pat, m),
        },
    decreases s.len(),
{
    if pat.is_prefix_of(s) {
        assert(s.subrange(0, pat.len() as int) =~= pat);
    } else {
        assert(!occurs(s, pat, 0)) by {
            if occurs(s, pat, 0) {
                assert(pat.is_prefix_of(s));
            }
        }
        if s.len() > 0 {
            let rest = s.skip(1);
            law_search_gives_the_first_place(rest, pat);
            assert forall|m: int| m > 0 implies #[trigger] occurs(s, pat, m) == occurs(
                rest,
                pat,
                m - 1,
            ) by {
                if m + pat.len() <= s.len() {
                    assert(s.subrange(m, m + pat.len()) =~= rest.subrange(
                        m - 1,
                        m - 1 + pat.len(),
                    ));
                }
            }
            if let Some(n) = text::find(rest, pat) {
                assert(occurs(rest, pat, n as int));
                assert(occurs(s, pat, n as int + 1));
            }
        } else {
            assert forall|m: int| !#[trigger] occurs(s, pat, m) by {
                if occurs(s, pat, m) {
                    assert(pat =~= s);
                }
            }
        }
    }
}

/// Lower case changes the capital letters of ASCII, each for its small one, and
/// leaves every other character in its place.
pub proof fn law_lower_case_changes_capitals_only(s: Seq<char>)
    ensures
        text::lower(s).len() == s.len(),
        forall|i: int|
            0 <= i < s.len() ==> (#[trigger] text::lower(s)[i]) as int == (if 'A' <= s[i] <= 'Z' {
                s[i] as int + 32
            } else {
                s[i] as int
            }),
{
}

/// Numbers are written in decimal: the digits of a number, without a zero in
/// front, count for it place by place.
pub proof fn law_decimals_count_by_tens(n: nat)
    ensures
        text::decimal(n).len() > 0,
        forall|i: int| 0 <= i < text::decimal(n).len() ==> '0' <= (#[trigger] text::decimal(n)[i]) <= '9',
        text::decimal(n).last() as int == 48 + n % 10,
        n >= 10 ==> text::decimal(n).drop_last() == text::decimal(n / 10),
        n > 0 ==> text::decimal(n)[0] != '0',
        text::number(text::decimal(n)) == n,
    decreases n,
{
    if n >= 10 {
        law_decimals_count_by_tens(n / 10);
        assert(text::decimal(n).drop_last() =~= text::decimal(n / 10));
        assert(text::decimal(n)[0] == text::decimal(n / 10)[0]);
    } else {
        assert(text::number(text::decimal(n).drop_last()) == 0);
    }
}

/// A run of digits is read by tens: each further digit makes what was read ten
/// times as much and adds its own value.
pub proof fn law_digits_are_read_by_tens(s: Seq<char>, c: char)
    requires
        '0' <= c <= '9',
    ensures
        text::number(Seq::empty()) == 0,
        text::number(s.push(c)) == 10 * text::number(s) + (c as int - 48),
{
    assert(s.push(c).drop_last() =~= s);
}

/// A number that was written is read as itself, up to the bound.
pub proof fn law_written_numbers_are_read(n: nat, max: int)
    ensures
        text::whole_number(text::decimal(n), max) == (if n <= max {
            Some(n as int)
        } else {
            None
        }),
{
    law_decimals_count_by_tens(n);
}

} // verus!
