//! Context routing: linksets are keyed by profile context, role, language and
//! request region, so that one code on a product leads to many destinations.
//!
//! | dimension | wildcard link | specific link, no request preference | exact | fallback |
//! |---|---|---|---|---|
//! | profile / role / region | 1 | 2 | 4 | none (a mismatch is no match) |
//! | language (`hreflang`) | 1 | 2 | 4 | 3 (primary subtag) |
//!
//! The scores of the four dimensions add up; destinations with equal scores
//! keep the order in which they were registered.

use vstd::prelude::*;

use crate::entry;
use crate::entry::{EntryView, LinkEntry};
use crate::text;
use crate::text::{
    as_slice, before, chars_of, copy_opt, position_of, same_text, slice_or, string_of,
};

verus! {

/// What a request asks for; `None` is no preference in that dimension.
#[derive(Debug, PartialEq, Eq)]
pub struct RequestContext {
    /// Profile context, typically the URN of a profile manifest.
    pub profile: Option<String>,
    /// Role of the reader: consumer, recycler, repairer, customs and so on.
    pub role: Option<String>,
    /// BCP 47 language tag.
    pub language: Option<String>,
    /// ISO 3166-1 alpha-2 request region, or a region code such as `EU`.
    pub region: Option<String>,
}

/// What a [`RequestContext`] stands for.
#[verifier::ext_equal]
pub struct ContextView {
    pub profile: Option<Seq<char>>,
    pub role: Option<Seq<char>>,
    pub language: Option<Seq<char>>,
    pub region: Option<Seq<char>>,
}

impl View for RequestContext {
    type V = ContextView;

    open spec fn view(&self) -> ContextView {
        ContextView {
            profile: text::opt_text(self.profile),
            role: text::opt_text(self.role),
            language: text::opt_text(self.language),
            region: text::opt_text(self.region),
        }
    }
}

/// The context without any preference.
pub open spec fn no_preference() -> ContextView {
    ContextView { profile: None, role: None, language: None, region: None }
}

impl ContextView {
    /// No dimension was asked for.
    pub open spec fn is_empty(self) -> bool {
        self.profile is None && self.role is None && self.language is None && self.region is None
    }

    /// The routing key, wildcards explicit:
    /// `profile=P;role=*;lang=fr;region=*`.
    pub open spec fn key(self) -> Seq<char> {
        "profile="@ + text::text_or(self.profile, "*"@) + ";role="@ + text::text_or(self.role, "*"@) + ";lang="@
            + text::text_or(self.language, "*"@) + ";region="@ + text::text_or(self.region, "*"@)
    }
}

impl Default for RequestContext {
    fn default() -> (r: RequestContext)
        ensures
            r@ == no_preference(),
    {
        RequestContext { profile: None, role: None, language: None, region: None }
    }
}

impl Clone for RequestContext {
    fn clone(&self) -> (r: RequestContext)
        ensures
            r@ == self@,
    {
        RequestContext {
            profile: copy_opt(&self.profile),
            role: copy_opt(&self.role),
            language: copy_opt(&self.language),
            region: copy_opt(&self.region),
        }
    }
}

impl RequestContext {
    /// Is there no preference in any dimension?
    pub fn is_empty(&self) -> (r: bool)
        ensures
            r == self@.is_empty(),
    {
        self.profile.is_none() && self.role.is_none() && self.language.is_none()
            && self.region.is_none()
    }

    /// The routing key, wildcards explicit.
    pub fn context_key(&self) -> (r: String)
        ensures
            r@ == self@.key(),
    {
        let mut s = String::new();
        s.push_str("profile=");
        s.push_str(slice_or(&self.profile, "*"));
        s.push_str(";role=");
        s.push_str(slice_or(&self.role, "*"));
        s.push_str(";lang=");
        s.push_str(slice_or(&self.language, "*"));
        s.push_str(";region=");
        s.push_str(slice_or(&self.region, "*"));
        assert(s@ =~= self@.key());
        s
    }
}

/// The primary subtag: what stands before the first `-`.
pub open spec fn primary(language: Seq<char>) -> Seq<char> {
    language.take(text::position(language, '-') as int)
}

/// The primary subtag of a language tag: `fr` of `fr-CA`.
pub fn primary_subtag(language: &str) -> (r: String)
    ensures
        r@ == primary(language@),
{
    let cs = chars_of(language);
    let n: usize = position_of(cs.as_slice(), '-');
    string_of(before(cs.as_slice(), n))
}

// ---------------------------------------------------------------------------
// Scoring
// ---------------------------------------------------------------------------

/// The score of a link in one of the dimensions profile, role and region.
pub open spec fn dimension_score(link: Option<Seq<char>>, asked: Option<Seq<char>>) -> Option<u32> {
    match (link, asked) {
        (None, _) => Some(1),
        (Some(_), None) => Some(2),
        (Some(l), Some(c)) => if l == c {
            Some(4)
        } else {
            None
        },
    }
}

/// A list of languages that names none in particular.
pub open spec fn any_language(languages: Seq<Seq<char>>) -> bool {
    languages.len() == 0 || languages.contains("*"@)
}

/// One of the languages has this primary subtag.
pub open spec fn has_primary(languages: Seq<Seq<char>>, subtag: Seq<char>) -> bool {
    exists|i: int| 0 <= i < languages.len() && primary(#[trigger] languages[i]) == subtag
}

/// The score of a link in the language dimension.
pub open spec fn language_dimension(languages: Seq<Seq<char>>, asked: Option<Seq<char>>) -> Option<
    u32,
> {
    match asked {
        None => Some(
            if any_language(languages) {
                1
            } else {
                2
            },
        ),
        Some(c) => if any_language(languages) {
            Some(1)
        } else if languages.contains(c) {
            Some(4)
        } else if has_primary(languages, primary(c)) {
            Some(3)
        } else {
            None
        },
    }
}

/// What an [`EntryRouting`] stands for.
#[verifier::ext_equal]
pub struct RoutingView {
    pub link_type: Seq<char>,
    pub profile: Option<Seq<char>>,
    pub role: Option<Seq<char>>,
    pub language: Seq<Seq<char>>,
    pub region: Option<Seq<char>>,
}

/// The score of an entry under a request context for a link type; `None` where
/// it does not match.
pub open spec fn score(r: RoutingView, ctx: ContextView, link_type: Seq<char>) -> Option<u32> {
    if r.link_type != link_type {
        None
    } else {
        match (
            dimension_score(r.profile, ctx.profile),
            dimension_score(r.role, ctx.role),
            dimension_score(r.region, ctx.region),
            language_dimension(r.language, ctx.language),
        ) {
            (Some(p), Some(o), Some(g), Some(l)) => Some((p + o + g + l) as u32),
            _ => None,
        }
    }
}

fn dim_score(link: Option<&str>, ctx: Option<&str>) -> (r: Option<u32>)
    ensures
        r == dimension_score(text::opt_str(link), text::opt_str(ctx)),
{
    match link {
        None => Some(1),
        Some(l) => match ctx {
            None => Some(2),
            Some(c) => if same_text(l, c) {
                Some(4)
            } else {
                None
            },
        },
    }
}

pub(crate) fn holds_text(list: &[String], s: &str) -> (r: bool)
    ensures
        r == text::strings(list@).contains(s@),
{
    let mut i: usize = 0;
    while i < list.len()
        invariant
            i <= list.len(),
            forall|j: int| 0 <= j < i ==> #[trigger] text::strings(list@)[j] != s@,
        decreases list.len() - i,
    {
        if same_text(list[i].as_str(), s) {
            assert(text::strings(list@)[i as int] == s@);
            return true;
        }
        i += 1;
    }
    false
}

fn holds_primary(list: &[String], subtag: &str) -> (r: bool)
    ensures
        r == has_primary(text::strings(list@), subtag@),
{
    let mut i: usize = 0;
    while i < list.len()
        invariant
            i <= list.len(),
            forall|j: int| 0 <= j < i ==> primary(#[trigger] text::strings(list@)[j]) != subtag@,
        decreases list.len() - i,
    {
        let p = primary_subtag(list[i].as_str());
        assert(text::strings(list@)[i as int] == list@[i as int]@);
        if same_text(p.as_str(), subtag) {
            return true;
        }
        i += 1;
    }
    false
}

fn language_score(link_langs: &[String], ctx: Option<&str>) -> (r: Option<u32>)
    ensures
        r == language_dimension(text::strings(link_langs@), text::opt_str(ctx)),
{
    let wildcard = link_langs.len() == 0 || holds_text(link_langs, "*");
    match ctx {
        None => Some(
            if wildcard {
                1
            } else {
                2
            },
        ),
        Some(c) => if wildcard {
            Some(1)
        } else if holds_text(link_langs, c) {
            Some(4)
        } else if holds_primary(link_langs, primary_subtag(c).as_str()) {
            Some(3)
        } else {
            None
        },
    }
}

/// The routing dimensions of an entry, borrowed from it.
#[derive(Debug, Clone, Copy)]
pub struct EntryRouting<'a> {
    pub link_type: &'a str,
    pub profile: Option<&'a str>,
    pub role: Option<&'a str>,
    pub language: &'a [String],
    pub region: Option<&'a str>,
}

impl<'a> View for EntryRouting<'a> {
    type V = RoutingView;

    open spec fn view(&self) -> RoutingView {
        RoutingView {
            link_type: self.link_type@,
            profile: text::opt_str(self.profile),
            role: text::opt_str(self.role),
            language: text::strings(self.language@),
            region: text::opt_str(self.region),
        }
    }
}

/// The specificity score of an entry under a request context for a link type;
/// `None` where it does not match.
pub fn score_entry(routing: &EntryRouting<'_>, ctx: &RequestContext, link_type: &str) -> (r: Option<
    u32,
>)
    ensures
        r == score(routing@, ctx@, link_type@),
        r matches Some(s) ==> 4 <= s <= 16,
{
    if !same_text(routing.link_type, link_type) {
        return None;
    }
    let p: u32 = match dim_score(routing.profile, as_slice(&ctx.profile)) {
        Some(n) => n,
        None => return None,
    };
    let o: u32 = match dim_score(routing.role, as_slice(&ctx.role)) {
        Some(n) => n,
        None => return None,
    };
    let g: u32 = match dim_score(routing.region, as_slice(&ctx.region)) {
        Some(n) => n,
        None => return None,
    };
    match language_score(routing.language, as_slice(&ctx.language)) {
        Some(l) => Some(p + o + g + l),
        None => None,
    }
}

// ---------------------------------------------------------------------------
// Ranking
// ---------------------------------------------------------------------------

/// The positions below `n` that hold this score, in order.
pub open spec fn bucket(scores: Seq<Option<u32>>, s: nat, n: nat) -> Seq<int>
    decreases n,
{
    if n == 0 {
        Seq::empty()
    } else {
        let rest = bucket(scores, s, (n - 1) as nat);
        if scores[n - 1] == Some(s as u32) {
            rest.push(n - 1)
        } else {
            rest
        }
    }
}

/// The positions that hold a score of at most `s`, the highest score first and
/// equal scores in order.
pub open spec fn ranking_from(scores: Seq<Option<u32>>, s: nat) -> Seq<int>
    decreases s,
{
    let here = bucket(scores, s, scores.len());
    if s == 0 {
        here
    } else {
        here + ranking_from(scores, (s - 1) as nat)
    }
}

/// The positions of the matches, best first. No score is above 16.
pub open spec fn ranking(scores: Seq<Option<u32>>) -> Seq<int> {
    ranking_from(scores, 16)
}

/// The positions of the matches, best first.
pub(crate) fn rank(scores: &Vec<Option<u32>>) -> (r: Vec<usize>)
    ensures
        r@.map_values(|i: usize| i as int) == ranking(scores@),
        forall|i: int| 0 <= i < r@.len() ==> #[trigger] r@[i] < scores@.len(),
{
    let mut out: Vec<usize> = Vec::new();
    let mut s: u32 = 17;
    let ghost all = ranking_from(scores@, 16);
    assert(out@.map_values(|i: usize| i as int) + all =~= all);
    while s > 0
        invariant
            s <= 17,
            all == ranking_from(scores@, 16),
            forall|i: int| 0 <= i < out@.len() ==> #[trigger] out@[i] < scores@.len(),
            out@.map_values(|i: usize| i as int) + (if s == 0 {
                Seq::<int>::empty()
            } else {
                ranking_from(scores@, (s - 1) as nat)
            }) == all,
        decreases s,
    {
        s -= 1;
        let ghost before = out@.map_values(|i: usize| i as int);
        let mut i: usize = 0;
        assert(before + bucket(scores@, s as nat, 0) =~= before);
        while i < scores.len()
            invariant
                i <= scores.len(),
                s <= 16,
                forall|j: int| 0 <= j < out@.len() ==> #[trigger] out@[j] < scores@.len(),
                out@.map_values(|i: usize| i as int) == before + bucket(
                    scores@,
                    s as nat,
                    i as nat,
                ),
            decreases scores.len() - i,
        {
            let ghost had = out@;
            let hit = match scores[i] {
                Some(n) => n == s,
                None => false,
            };
            if hit {
                out.push(i);
                assert(out@.map_values(|i: usize| i as int) =~= had.map_values(
                    |i: usize| i as int,
                ).push(i as int));
                assert(before + bucket(scores@, s as nat, i as nat).push(i as int) =~= (before
                    + bucket(scores@, s as nat, i as nat)).push(i as int));
            }
            i += 1;
        }
        proof {
            let here = bucket(scores@, s as nat, scores@.len());
            if s > 0 {
                let rest = ranking_from(scores@, (s - 1) as nat);
                assert(before + (here + rest) =~= (before + here) + rest);
            } else {
                assert(before + here =~= (before + here) + Seq::<int>::empty());
            }
        }
    }
    assert(out@.map_values(|i: usize| i as int) + Seq::<int>::empty() =~= out@.map_values(
        |i: usize| i as int,
    ));
    out
}

proof fn lemma_bucket(scores: Seq<Option<u32>>, s: nat, n: nat)
    requires
        n <= scores.len(),
        s <= u32::MAX,
    ensures
        forall|i: int|
            0 <= i < bucket(scores, s, n).len() ==> 0 <= #[trigger] bucket(scores, s, n)[i] < n
                && scores[bucket(scores, s, n)[i]] == Some(s as u32),
        forall|i: int, j: int|
            0 <= i < j < bucket(scores, s, n).len() ==> #[trigger] bucket(scores, s, n)[i]
                < #[trigger] bucket(scores, s, n)[j],
        forall|k: int|
            0 <= k < n && #[trigger] scores[k] == Some(s as u32) ==> bucket(scores, s, n).contains(
                k,
            ),
    decreases n,
{
    if n > 0 {
        lemma_bucket(scores, s, (n - 1) as nat);
        let rest = bucket(scores, s, (n - 1) as nat);
        let all = bucket(scores, s, n);
        assert forall|k: int| 0 <= k < n && #[trigger] scores[k] == Some(
            s as u32,
        ) implies all.contains(k) by {
            if k < n - 1 {
                let i = choose|i: int| 0 <= i < rest.len() && rest[i] == k;
                assert(all[i] == k);
            } else {
                assert(all[rest.len() as int] == k);
            }
        }
    }
}

proof fn lemma_ranking_from(scores: Seq<Option<u32>>, s: nat)
    requires
        s <= u32::MAX,
    ensures
        forall|i: int|
            0 <= i < ranking_from(scores, s).len() ==> {
                &&& 0 <= #[trigger] ranking_from(scores, s)[i] < scores.len()
                &&& scores[ranking_from(scores, s)[i]] is Some
                &&& scores[ranking_from(scores, s)[i]]->0 <= s
            },
        forall|i: int, j: int|
            0 <= i < j < ranking_from(scores, s).len() ==> is_before(
                scores,
                #[trigger] ranking_from(scores, s)[i],
                #[trigger] ranking_from(scores, s)[j],
            ),
        forall|k: int|
            0 <= k < scores.len() && (#[trigger] scores[k] matches Some(n) && n <= s)
                ==> ranking_from(scores, s).contains(k),
    decreases s,
{
    lemma_bucket(scores, s, scores.len());
    let here = bucket(scores, s, scores.len());
    let all = ranking_from(scores, s);
    if s > 0 {
        lemma_ranking_from(scores, (s - 1) as nat);
        let rest = ranking_from(scores, (s - 1) as nat);
        assert forall|i: int, j: int| 0 <= i < j < all.len() implies is_before(
            scores,
            #[trigger] all[i],
            #[trigger] all[j],
        ) by {
            if i >= here.len() {
                assert(all[i] == rest[i - here.len()]);
                assert(all[j] == rest[j - here.len()]);
            } else if j >= here.len() {
                assert(all[j] == rest[j - here.len()]);
                assert(all[i] == here[i]);
            } else {
                assert(all[i] == here[i] && all[j] == here[j]);
            }
        }
        assert forall|k: int|
            0 <= k < scores.len() && (#[trigger] scores[k] matches Some(n) && n
                <= s) implies all.contains(k) by {
            if scores[k] == Some(s as u32) {
                let i = choose|i: int| 0 <= i < here.len() && here[i] == k;
                assert(all[i] == k);
            } else {
                assert(rest.contains(k));
                let i = choose|i: int| 0 <= i < rest.len() && rest[i] == k;
                assert(all[here.len() + i] == k);
            }
        }
    } else {
        assert(all == here);
    }
}

/// A match comes before another: by a higher score, or by an equal one and an
/// earlier registration.
pub open spec fn is_before(scores: Seq<Option<u32>>, a: int, b: int) -> bool {
    scores[a]->0 > scores[b]->0 || (scores[a]->0 == scores[b]->0 && a < b)
}

/// A ranking lists every match and nothing else; a higher score comes before a
/// lower one, and of equal scores the one registered first comes first. That
/// leaves one order only, in which no position occurs twice.
pub proof fn law_ranking_is_by_score_and_registration(scores: Seq<Option<u32>>)
    requires
        forall|k: int| 0 <= k < scores.len() && #[trigger] scores[k] is Some ==> scores[k]->0 <= 16,
    ensures
        forall|k: int| #[trigger]
            ranking(scores).contains(k) <==> 0 <= k < scores.len() && scores[k] is Some,
        forall|i: int, j: int|
            0 <= i < j < ranking(scores).len() ==> is_before(
                scores,
                #[trigger] ranking(scores)[i],
                #[trigger] ranking(scores)[j],
            ),
{
    lemma_ranking_from(scores, 16);
    assert forall|k: int| #[trigger]
        ranking(scores).contains(k) <==> 0 <= k < scores.len() && scores[k] is Some by {
        if 0 <= k < scores.len() && scores[k] is Some {
            assert(scores[k] matches Some(n) && n <= 16);
        }
    }
}

/// The scores of a list of entries under a request context.
pub open spec fn scores_of(entries: Seq<EntryView>, ctx: ContextView, link_type: Seq<char>) -> Seq<
    Option<u32>,
> {
    entries.map_values(|e: EntryView| score(e.routing(), ctx, link_type))
}

/// An entry together with its score.
pub struct ScoredEntry<'a> {
    pub entry: &'a LinkEntry,
    pub score: u32,
}

/// What a [`ScoredEntry`] stands for.
pub open spec fn scored_views(v: Seq<ScoredEntry<'_>>) -> Seq<(EntryView, u32)> {
    v.map_values(|s: ScoredEntry| (s.entry@, s.score))
}

/// The matching entries of a list with their scores, best first.
pub open spec fn selection(entries: Seq<EntryView>, ctx: ContextView, link_type: Seq<char>) -> Seq<
    (EntryView, u32),
> {
    let scores = scores_of(entries, ctx, link_type);
    ranking(scores).map_values(|i: int| (entries[i], scores[i]->0))
}

/// Select and order the destinations for a request context: the highest score
/// first, and of equal scores the one registered first.
pub fn select_ordered<'a>(
    entries: &'a [LinkEntry],
    ctx: &RequestContext,
    link_type: &str,
) -> (r: Vec<ScoredEntry<'a>>)
    ensures
        scored_views(r@) == selection(entry::entry_views(entries@), ctx@, link_type@),
{
    let mut scores: Vec<Option<u32>> = Vec::new();
    let ghost views = entry::entry_views(entries@);
    let ghost wanted = scores_of(views, ctx@, link_type@);
    let mut i: usize = 0;
    while i < entries.len()
        invariant
            i <= entries.len(),
            views == entry::entry_views(entries@),
            wanted == scores_of(views, ctx@, link_type@),
            scores@ == wanted.take(i as int),
            forall|k: int| 0 <= k < i && #[trigger] scores@[k] is Some ==> scores@[k]->0 <= 16,
        decreases entries.len() - i,
    {
        let s = score_entry(&entries[i].routing(), ctx, link_type);
        assert(views[i as int] == entries@[i as int]@);
        assert(s == wanted[i as int]);
        scores.push(s);
        i += 1;
        assert(scores@ =~= wanted.take(i as int));
    }
    assert(scores@ =~= wanted);
    let order = rank(&scores);
    proof {
        lemma_ranking_from(wanted, 16);
    }
    let ghost places = order@.map_values(|i: usize| i as int);
    let mut out: Vec<ScoredEntry<'a>> = Vec::new();
    let mut i: usize = 0;
    while i < order.len()
        invariant
            i <= order.len(),
            views == entry::entry_views(entries@),
            scores@ == wanted,
            wanted.len() == views.len(),
            places == order@.map_values(|i: usize| i as int),
            places == ranking(wanted),
            forall|k: int| 0 <= k < order@.len() ==> #[trigger] order@[k] < scores@.len(),
            forall|k: int|
                0 <= k < places.len() ==> 0 <= #[trigger] places[k] < wanted.len()
                    && wanted[places[k]] is Some,
            scored_views(out@) == places.take(i as int).map_values(
                |i: int| (views[i], wanted[i]->0),
            ),
        decreases order.len() - i,
    {
        let ghost had = out@;
        let k: usize = order[i];
        assert(places[i as int] == k as int);
        let score: u32 = match scores[k] {
            Some(s) => s,
            None => 0,
        };
        out.push(ScoredEntry { entry: &entries[k], score });
        assert(views[k as int] == entries@[k as int]@);
        i += 1;
        proof {
            let f = |i: int| (views[i], wanted[i]->0);
            assert(scored_views(out@) =~= scored_views(had).push((views[k as int], score)));
            assert(places.take(i as int) =~= places.take(i - 1).push(k as int));
            assert(places.take(i as int).map_values(f) =~= places.take(i - 1).map_values(f).push(
                f(k as int),
            ));
        }
    }
    assert(places.take(i as int) =~= places);
    out
}

/// A score lies between 4 and 16.
pub proof fn lemma_score_bounds(r: RoutingView, ctx: ContextView, link_type: Seq<char>)
    ensures
        score(r, ctx, link_type) matches Some(s) ==> 4 <= s <= 16,
{
}

/// In each dimension an exact match outranks a wildcard, and a specific link
/// outranks a wildcard where nothing is asked for; in the language dimension an
/// exact tag outranks one that shares the primary subtag only, and that one a
/// wildcard. What matches neither way does not match at all.
pub proof fn law_specificity(
    asked: Seq<char>,
    other: Seq<char>,
    languages: Seq<Seq<char>>,
    relatives: Seq<Seq<char>>,
    strangers: Seq<Seq<char>>,
    any: Seq<Seq<char>>,
)
    requires
        other != asked,
        !any_language(languages) && languages.contains(asked),
        !any_language(relatives) && !relatives.contains(asked) && has_primary(
            relatives,
            primary(asked),
        ),
        !any_language(strangers) && !strangers.contains(asked) && !has_primary(
            strangers,
            primary(asked),
        ),
        any_language(any),
    ensures
        dimension_score(Some(asked), Some(asked)) == Some(4u32),
        dimension_score(None, Some(asked)) == Some(1u32),
        dimension_score(Some(other), Some(asked)) is None,
        dimension_score(Some(other), None) == Some(2u32),
        dimension_score(None, None) == Some(1u32),
        language_dimension(languages, Some(asked)) == Some(4u32),
        language_dimension(relatives, Some(asked)) == Some(3u32),
        language_dimension(any, Some(asked)) == Some(1u32),
        language_dimension(strangers, Some(asked)) is None,
        language_dimension(strangers, None) == Some(2u32),
        language_dimension(any, None) == Some(1u32),
{
}

/// Nothing stands between an entry and what is asked for in one of the plain
/// dimensions: the entry is for all, nothing is asked for, or they are equal.
pub open spec fn fits(link: Option<Seq<char>>, asked: Option<Seq<char>>) -> bool {
    link is None || asked is None || link == asked
}

/// What a plain dimension in which an entry fits counts.
pub open spec fn points(link: Option<Seq<char>>, asked: Option<Seq<char>>) -> int {
    if link is None {
        1
    } else if asked is None {
        2
    } else {
        4
    }
}

/// What stands before the first hyphen of two tags is the same.
pub open spec fn are_related(a: Seq<char>, b: Seq<char>) -> bool {
    exists|n: int|
        0 <= n <= a.len() && n <= b.len() && #[trigger] a.take(n) == b.take(n) && !a.take(n).contains(
            '-',
        ) && (n == a.len() || a[n] == '-') && (n == b.len() || b[n] == '-')
}

/// The languages of an entry are no restriction.
pub open spec fn speaks_all(languages: Seq<Seq<char>>) -> bool {
    languages.len() == 0 || exists|i: int| 0 <= i < languages.len() && #[trigger] languages[i] == "*"@
}

/// Nothing stands between the languages of an entry and the one asked for.
pub open spec fn speaks(languages: Seq<Seq<char>>, asked: Option<Seq<char>>) -> bool {
    speaks_all(languages) || (asked matches Some(c) ==> exists|i: int|
        0 <= i < languages.len() && are_related(#[trigger] languages[i], c))
}

/// What the language dimension counts where the entry fits.
pub open spec fn language_points(languages: Seq<Seq<char>>, asked: Option<Seq<char>>) -> int {
    if speaks_all(languages) {
        1
    } else if asked is None {
        2
    } else if exists|i: int| 0 <= i < languages.len() && Some(#[trigger] languages[i]) == asked {
        4
    } else {
        3
    }
}

proof fn lemma_related_is_primary(a: Seq<char>, b: Seq<char>)
    ensures
        are_related(a, b) <==> primary(a) == primary(b),
{
    text::lemma_position_is(a, '-');
    text::lemma_position_is(b, '-');
    let m = text::position(a, '-') as int;
    let n = text::position(b, '-') as int;
    if primary(a) == primary(b) {
        assert(a.take(m).len() == b.take(n).len());
        assert(!a.take(m).contains('-')) by {
            assert forall|i: int| 0 <= i < m implies a.take(m)[i] != '-' by {
                assert(a.take(m)[i] == a[i]);
            }
        }
        assert(a.take(m) == b.take(m));
    }
    if are_related(a, b) {
        let k = choose|k: int|
            0 <= k <= a.len() && k <= b.len() && #[trigger] a.take(k) == b.take(k) && !a.take(
                k,
            ).contains('-') && (k == a.len() || a[k] == '-') && (k == b.len() || b[k] == '-');
        assert forall|j: int| 0 <= j < k implies a[j] != '-' && b[j] != '-' by {
            assert(a.take(k)[j] == a[j]);
            assert(b.take(k)[j] == b[j]);
            assert(a.take(k).contains(a.take(k)[j]));
        }
        text::lemma_position(a, '-', k);
        text::lemma_position(b, '-', k);
    }
}

/// A link is for a request exactly where nothing in it stands against the
/// request: its type is the one asked for, and in each of the four dimensions
/// it is for all, nothing is asked for, or it is what is asked for, a language
/// also by its primary subtag. One mismatch disqualifies it, whatever else fits.
/// Its score is the sum over all four: 1 for a wildcard, 2 for a restriction
/// that nobody asked about, 3 for a related and 4 for an equal value.
pub proof fn law_every_dimension_counts(r: RoutingView, ctx: ContextView, link_type: Seq<char>)
    ensures
        score(r, ctx, link_type) is Some <==> r.link_type == link_type && fits(
            r.profile,
            ctx.profile,
        ) && fits(r.role, ctx.role) && fits(r.region, ctx.region) && speaks(
            r.language,
            ctx.language,
        ),
        score(r, ctx, link_type) matches Some(n) ==> n == points(r.profile, ctx.profile) + points(
            r.role,
            ctx.role,
        ) + points(r.region, ctx.region) + language_points(r.language, ctx.language),
{
    let all = r.language;
    assert(any_language(all) == speaks_all(all)) by {
        if any_language(all) && all.len() > 0 {
            let i = choose|i: int| 0 <= i < all.len() && all[i] == "*"@;
            assert(all[i] == "*"@);
        }
        if speaks_all(all) && all.len() > 0 {
            let i = choose|i: int| 0 <= i < all.len() && #[trigger] all[i] == "*"@;
            assert(all.contains("*"@));
        }
    }
    if let Some(c) = ctx.language {
        if all.contains(c) {
            let i = choose|i: int| 0 <= i < all.len() && all[i] == c;
            assert(Some(all[i]) == ctx.language);
            lemma_related_is_primary(all[i], c);
            assert(are_related(all[i], c));
        }
        if exists|i: int| 0 <= i < all.len() && Some(#[trigger] all[i]) == ctx.language {
            let i = choose|i: int| 0 <= i < all.len() && Some(#[trigger] all[i]) == ctx.language;
            assert(all.contains(c));
        }
        if has_primary(all, primary(c)) {
            let i = choose|i: int| 0 <= i < all.len() && primary(#[trigger] all[i]) == primary(c);
            lemma_related_is_primary(all[i], c);
            assert(are_related(all[i], c));
        }
        if exists|i: int| 0 <= i < all.len() && are_related(#[trigger] all[i], c) {
            let i = choose|i: int| 0 <= i < all.len() && are_related(#[trigger] all[i], c);
            lemma_related_is_primary(all[i], c);
            assert(primary(all[i]) == primary(c));
        }
    }
}

} // verus!
