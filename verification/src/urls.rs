//! URLs as they are written, and what reading them gives back. Nothing here
//! runs: the texts are those that a carrier, a client or an intermediary sends,
//! and the laws say what the parsers make of them.

use vstd::prelude::*;
use vstd::utf8::*;

use crate::gs1dl;
use crate::gs1dl::UrlView;
use crate::proxy;
use crate::text;

verus! {

/// The path of a URL: a slash before each segment, which is percent-encoded.
pub open spec fn path_text(segments: Seq<Seq<char>>) -> Seq<char>
    decreases segments.len(),
{
    if segments.len() == 0 {
        Seq::empty()
    } else {
        seq!['/'] + proxy::query_component(segments[0]) + path_text(segments.skip(1))
    }
}

/// A parameter of a query: key and value, percent-encoded, with `=` between.
pub open spec fn pair_text(p: (Seq<char>, Seq<char>)) -> Seq<char> {
    proxy::query_component(p.0) + seq!['='] + proxy::query_component(p.1)
}

/// The query of a URL: its parameters with `&` between.
pub open spec fn query_text(pairs: Seq<(Seq<char>, Seq<char>)>) -> Seq<char>
    decreases pairs.len(),
{
    if pairs.len() == 0 {
        Seq::empty()
    } else if pairs.len() == 1 {
        pair_text(pairs[0])
    } else {
        pair_text(pairs[0]) + seq!['&'] + query_text(pairs.skip(1))
    }
}

/// The query with the mark before it, where there are parameters.
pub open spec fn query_part(pairs: Seq<(Seq<char>, Seq<char>)>) -> Seq<char> {
    if pairs.len() == 0 {
        Seq::empty()
    } else {
        seq!['?'] + query_text(pairs)
    }
}

/// A URL with a path and, where there are parameters, a query.
pub open spec fn url_text(
    scheme: Seq<char>,
    authority: Seq<char>,
    segments: Seq<Seq<char>>,
    pairs: Seq<(Seq<char>, Seq<char>)>,
) -> Seq<char> {
    scheme + "://"@ + authority + path_text(segments) + query_part(pairs)
}

/// The name of a host as it stands in a URL.
pub open spec fn is_host(authority: Seq<char>) -> bool {
    authority.len() > 0 && !authority.contains('/') && !authority.contains(' ')
}

/// No segment is empty.
pub open spec fn are_segments(segments: Seq<Seq<char>>) -> bool {
    forall|i: int| 0 <= i < segments.len() ==> (#[trigger] segments[i]).len() > 0
}

// ---------------------------------------------------------------------------
// Encoded text
// ---------------------------------------------------------------------------

/// A character that percent-encoding leaves or writes.
pub open spec fn is_encoded_char(c: char) -> bool {
    text::is_letter(c) || text::is_digit(c) || c == '-' || c == '.' || c == '_' || c == '~' || c == '%'
}

proof fn lemma_escaped_chars(bytes: Seq<u8>)
    ensures
        forall|i: int| 0 <= i < proxy::escaped(bytes).len() ==> is_encoded_char(#[trigger] proxy::escaped(bytes)[i]),
        bytes.len() > 0 ==> proxy::escaped(bytes).len() > 0,
    decreases bytes.len(),
{
    if bytes.len() > 0 {
        lemma_escaped_chars(bytes.drop_last());
        let front = proxy::escaped(bytes.drop_last());
        let last = proxy::escaped_byte(bytes.last());
        assert forall|i: int| 0 <= i < last.len() implies is_encoded_char(#[trigger] last[i]) by {
        }
        assert forall|i: int| 0 <= i < proxy::escaped(bytes).len() implies is_encoded_char(
            #[trigger] proxy::escaped(bytes)[i],
        ) by {
            if i < front.len() {
                assert(proxy::escaped(bytes)[i] == front[i]);
            } else {
                assert(proxy::escaped(bytes)[i] == last[i - front.len()]);
            }
        }
    }
}

/// Encoded text holds none of the characters that part a URL.
pub proof fn lemma_encoded(s: Seq<char>)
    ensures
        forall|i: int|
            0 <= i < proxy::query_component(s).len() ==> is_encoded_char(#[trigger] proxy::query_component(s)[i]),
        s.len() > 0 ==> proxy::query_component(s).len() > 0,
        gs1dl::percent_decoded(proxy::query_component(s)) == Some(s),
        gs1dl::plus_to_space(proxy::query_component(s)) == proxy::query_component(s),
{
    lemma_escaped_chars(vstd::utf8::encode_utf8(s));
    proxy::law_query_component_decodes(s);
    let q = proxy::query_component(s);
    assert(gs1dl::plus_to_space(q) =~= q) by {
        assert forall|i: int| 0 <= i < q.len() implies gs1dl::plus_to_space(q)[i] == q[i] by {
            assert(is_encoded_char(q[i]));
        }
    }
    if q.len() == 0 && s.len() > 0 {
        assert(vstd::utf8::encode_utf8(s).len() == 0);
        vstd::utf8::encode_utf8_decode_utf8(s);
        assert(vstd::utf8::encode_utf8(s) =~= Seq::empty());
        assert(false);
    }
}

// ---------------------------------------------------------------------------
// Splitting
// ---------------------------------------------------------------------------

/// A separator parts a text that has none before it.
pub proof fn lemma_split_at(a: Seq<char>, sep: char, b: Seq<char>)
    requires
        !a.contains(sep),
    ensures
        text::split(a + seq![sep] + b, sep) == seq![a] + text::split(b, sep),
        text::position(a + seq![sep] + b, sep) == a.len(),
{
    let s = a + seq![sep] + b;
    assert forall|j: int| 0 <= j < a.len() implies s[j] != sep by {
        assert(s[j] == a[j]);
        assert(a.contains(a[j]));
    }
    assert(s[a.len() as int] == sep);
    text::lemma_position(s, sep, a.len() as int);
    assert(s.take(a.len() as int) =~= a);
    assert(s.skip(a.len() as int + 1) =~= b);
}

/// A text without the separator is one piece.
pub proof fn lemma_split_none(a: Seq<char>, sep: char)
    requires
        !a.contains(sep),
    ensures
        text::split(a, sep) == seq![a],
        text::position(a, sep) == a.len(),
{
    assert forall|j: int| 0 <= j < a.len() implies a[j] != sep by {
        assert(a.contains(a[j]));
    }
    text::lemma_position(a, sep, a.len() as int);
}

proof fn lemma_encoded_lacks(s: Seq<char>, c: char)
    requires
        !is_encoded_char(c),
    ensures
        !proxy::query_component(s).contains(c),
{
    lemma_encoded(s);
    let q = proxy::query_component(s);
    if q.contains(c) {
        let i = choose|i: int| 0 <= i < q.len() && q[i] == c;
        assert(is_encoded_char(q[i]));
    }
}

/// A path is taken apart into its segments, with or without the first slash.
pub proof fn lemma_path_reads_back(segments: Seq<Seq<char>>)
    requires
        are_segments(segments),
    ensures
        gs1dl::path_segments_of(path_text(segments)) == Some(segments),
        segments.len() > 0 ==> gs1dl::path_segments_of(path_text(segments).skip(1)) == Some(segments),
        !path_text(segments).contains('?'),
    decreases segments.len(),
{
    let s = path_text(segments);
    if segments.len() == 0 {
        lemma_split_none(s, '/');
        assert(segments =~= Seq::empty());
        let one = seq![s];
        assert(one.skip(1) =~= Seq::empty());
        assert(gs1dl::decoded_segments(one.skip(1)) == Some(Seq::<Seq<char>>::empty()));
    } else {
        let rest = segments.skip(1);
        let e = proxy::query_component(segments[0]);
        let r = path_text(rest);
        assert forall|i: int| 0 <= i < rest.len() implies (#[trigger] rest[i]).len() > 0 by {
            assert(rest[i] == segments[i + 1]);
        }
        lemma_path_reads_back(rest);
        lemma_encoded(segments[0]);
        lemma_encoded_lacks(segments[0], '/');
        lemma_encoded_lacks(segments[0], '?');
        let none = Seq::<char>::empty();
        assert(s =~= none + seq!['/'] + (e + r));
        lemma_split_at(none, '/', e + r);
        let tail = text::split(e + r, '/');
        let all = seq![none] + tail;
        assert(all.skip(1) =~= tail);
        if rest.len() == 0 {
            assert(e + r =~= e);
            lemma_split_none(e, '/');
            assert(tail.skip(1) =~= Seq::empty());
            assert(gs1dl::decoded_segments(tail.skip(1)) == Some(Seq::<Seq<char>>::empty()));
            assert(seq![segments[0]] + Seq::<Seq<char>>::empty() =~= segments);
            assert(gs1dl::decoded_segments(tail) == Some(segments));
        } else {
            let b = proxy::query_component(rest[0]) + path_text(rest.skip(1));
            assert(r =~= seq!['/'] + b);
            assert(e + r =~= e + seq!['/'] + b);
            lemma_split_at(e, '/', b);
            assert(r =~= none + seq!['/'] + b);
            lemma_split_at(none, '/', b);
            let after = text::split(b, '/');
            assert(tail.skip(1) =~= after);
            assert((seq![none] + after).skip(1) =~= after);
            assert(gs1dl::decoded_segments(seq![none] + after) == gs1dl::decoded_segments(after));
            assert(gs1dl::decoded_segments(after) == Some(rest));
            assert(seq![segments[0]] + rest =~= segments);
            assert(gs1dl::decoded_segments(tail) == Some(segments));
        }
        assert(gs1dl::decoded_segments(all) == gs1dl::decoded_segments(tail));
        assert(s.skip(1) =~= e + r);
        if s.contains('?') {
            let i = choose|i: int| 0 <= i < s.len() && s[i] == '?';
            if i == 0 {
            } else if i < 1 + e.len() {
                assert(s[i] == e[i - 1]);
                assert(e.contains('?'));
            } else {
                assert(s[i] == r[i - 1 - e.len()]);
                assert(r.contains('?'));
            }
        }
    }
}

proof fn lemma_pair_reads_back(p: (Seq<char>, Seq<char>))
    ensures
        gs1dl::decoded_pair(pair_text(p)) == Some(p),
        pair_text(p).len() > 0,
        !pair_text(p).contains('&'),
{
    let k = proxy::query_component(p.0);
    let v = proxy::query_component(p.1);
    lemma_encoded(p.0);
    lemma_encoded(p.1);
    lemma_encoded_lacks(p.0, '=');
    lemma_encoded_lacks(p.0, '&');
    lemma_encoded_lacks(p.1, '&');
    lemma_split_at(k, '=', v);
    let t = pair_text(p);
    assert(t.take(k.len() as int) =~= k);
    assert(t.skip(k.len() as int + 1) =~= v);
    if t.contains('&') {
        let i = choose|i: int| 0 <= i < t.len() && t[i] == '&';
        if i < k.len() {
            assert(k[i] == '&');
            assert(k.contains('&'));
        } else if i > k.len() {
            assert(v[i - k.len() - 1] == '&');
            assert(v.contains('&'));
        }
    }
}

proof fn lemma_query_reads_back(pairs: Seq<(Seq<char>, Seq<char>)>)
    ensures
        gs1dl::decoded_pairs(text::split(query_text(pairs), '&')) == Some(pairs),
    decreases pairs.len(),
{
    let q = query_text(pairs);
    let nothing = Seq::<(Seq<char>, Seq<char>)>::empty();
    if pairs.len() == 0 {
        lemma_split_none(q, '&');
        let one = seq![q];
        assert(one.skip(1) =~= Seq::empty());
        assert(gs1dl::decoded_pairs(one.skip(1)) == Some(nothing));
        assert(pairs =~= nothing);
    } else {
        let first = pair_text(pairs[0]);
        lemma_pair_reads_back(pairs[0]);
        if pairs.len() == 1 {
            lemma_split_none(q, '&');
            let one = seq![q];
            assert(one.skip(1) =~= Seq::empty());
            assert(gs1dl::decoded_pairs(one.skip(1)) == Some(nothing));
            assert(seq![pairs[0]] + nothing =~= pairs);
        } else {
            lemma_query_reads_back(pairs.skip(1));
            let rest = query_text(pairs.skip(1));
            lemma_split_at(first, '&', rest);
            let all = seq![first] + text::split(rest, '&');
            assert(all.skip(1) =~= text::split(rest, '&'));
            assert(seq![pairs[0]] + pairs.skip(1) =~= pairs);
        }
    }
}

proof fn lemma_find_scheme(scheme: Seq<char>, rest: Seq<char>)
    requires
        !scheme.contains(':'),
    ensures
        text::find(scheme + "://"@ + rest, "://"@) == Some(scheme.len()),
    decreases scheme.len(),
{
    reveal_strlit("://");
    let s = scheme + "://"@ + rest;
    if scheme.len() == 0 {
        assert("://"@ =~= s.subrange(0, 3));
    } else {
        assert(s[0] == scheme[0]);
        assert(scheme.contains(scheme[0]));
        assert(s.subrange(0, 3)[0] == s[0]);
        assert("://"@[0] == ':');
        assert(!"://"@.is_prefix_of(s));
        let t = scheme.skip(1);
        assert(!t.contains(':')) by {
            if t.contains(':') {
                let i = choose|i: int| 0 <= i < t.len() && t[i] == ':';
                assert(scheme[i + 1] == ':');
            }
        }
        lemma_find_scheme(t, rest);
        assert(s.skip(1) =~= t + "://"@ + rest);
    }
}

proof fn lemma_scheme_reads_back(scheme: Seq<char>, rest: Seq<char>)
    requires
        scheme == "http"@ || scheme == "https"@,
    ensures
        ({
            let uri = scheme + "://"@ + rest;
            &&& text::find(uri, "://"@) == Some(scheme.len())
            &&& uri.take(scheme.len() as int) == scheme
            &&& uri.skip(scheme.len() as int + 3) == rest
            &&& text::lower(scheme) == scheme
        }),
{
    reveal_strlit("http");
    reveal_strlit("https");
    reveal_strlit("://");
    let uri = scheme + "://"@ + rest;
    lemma_find_scheme(scheme, rest);
    assert(uri.take(scheme.len() as int) =~= scheme);
    assert(uri.skip(scheme.len() as int + 3) =~= rest);
    assert(text::lower(scheme) =~= scheme);
}

proof fn lemma_authority_reads_back(
    authority: Seq<char>,
    segments: Seq<Seq<char>>,
    pairs: Seq<(Seq<char>, Seq<char>)>,
)
    requires
        is_host(authority),
        segments.len() == 0 ==> pairs.len() == 0,
    ensures
        ({
            let path_query = path_text(segments) + query_part(pairs);
            let rest = authority + path_query;
            &&& text::position(rest, '/') == authority.len()
            &&& rest.take(authority.len() as int) == authority
            &&& rest.skip(authority.len() as int) == path_query
        }),
{
    let path_query = path_text(segments) + query_part(pairs);
    let rest = authority + path_query;
    if segments.len() > 0 {
        assert(rest =~= authority + seq!['/'] + path_query.skip(1));
        lemma_split_at(authority, '/', path_query.skip(1));
    } else {
        assert(rest =~= authority);
        lemma_split_none(authority, '/');
    }
    assert(rest.take(authority.len() as int) =~= authority);
    assert(rest.skip(authority.len() as int) =~= path_query);
}

/// A path and the query behind it are taken apart.
pub proof fn lemma_path_and_query_read_back(
    segments: Seq<Seq<char>>,
    pairs: Seq<(Seq<char>, Seq<char>)>,
)
    requires
        are_segments(segments),
    ensures
        ({
            let path_query = path_text(segments) + query_part(pairs);
            let mark = text::position(path_query, '?') as int;
            let query = if mark < path_query.len() {
                path_query.skip(mark + 1)
            } else {
                Seq::empty()
            };
            &&& gs1dl::path_segments_of(path_query.take(mark)) == Some(segments)
            &&& gs1dl::decoded_pairs(text::split(query, '&')) == Some(pairs)
        }),
{
    let path = path_text(segments);
    let path_query = path + query_part(pairs);
    lemma_path_reads_back(segments);
    lemma_query_reads_back(pairs);
    if pairs.len() == 0 {
        assert(path_query =~= path);
        lemma_split_none(path, '?');
        assert(path.take(path.len() as int) =~= path);
        assert(query_text(pairs) =~= Seq::empty());
    } else {
        assert(path_query =~= path + seq!['?'] + query_text(pairs));
        lemma_split_at(path, '?', query_text(pairs));
        assert(path_query.take(path.len() as int) =~= path);
        assert(path_query.skip(path.len() as int + 1) =~= query_text(pairs));
    }
}

// ---------------------------------------------------------------------------
// Laws
// ---------------------------------------------------------------------------

/// A URL is taken apart into what it was written from: its scheme, its host, its
/// path segment by segment and its parameters in their order, all decoded.
pub proof fn law_url_reads_back(
    scheme: Seq<char>,
    authority: Seq<char>,
    segments: Seq<Seq<char>>,
    pairs: Seq<(Seq<char>, Seq<char>)>,
)
    requires
        scheme == "http"@ || scheme == "https"@,
        is_host(authority),
        are_segments(segments),
        segments.len() == 0 ==> pairs.len() == 0,
    ensures
        gs1dl::url_parts(url_text(scheme, authority, segments, pairs)) == Some(
            UrlView {
                scheme,
                origin: scheme + "://"@ + authority,
                path_segments: segments,
                query_pairs: pairs,
            },
        ),
{
    let uri = url_text(scheme, authority, segments, pairs);
    let path_query = path_text(segments) + query_part(pairs);
    let rest = authority + path_query;
    lemma_scheme_reads_back(scheme, rest);
    assert(uri =~= scheme + "://"@ + rest);
    lemma_authority_reads_back(authority, segments, pairs);
    lemma_path_and_query_read_back(segments, pairs);
}

/// The number that a hexadecimal digit stands for, in either case; 16 for what
/// is none.
pub open spec fn nibble(b: u8) -> int {
    if '0' as int <= b <= '9' as int {
        b - '0' as int
    } else if 'a' as int <= b <= 'f' as int {
        b - 'a' as int + 10
    } else if 'A' as int <= b <= 'F' as int {
        b - 'A' as int + 10
    } else {
        16
    }
}

/// Escapes are undone from left to right: a percent sign and two hexadecimal
/// digits stand for one byte, any other byte for itself, and a percent sign
/// without two such digits behind it spoils the whole.
pub proof fn law_escapes_stand_for_their_byte(b: u8, rest: Seq<u8>)
    ensures
        gs1dl::unescape(Seq::empty()) == Some(Seq::<u8>::empty()),
        b != '%' as int ==> gs1dl::unescape(seq![b] + rest) == match gs1dl::unescape(rest) {
            Some(r) => Some(seq![b] + r),
            None => None,
        },
        b == '%' as int ==> gs1dl::unescape(seq![b] + rest) == (if rest.len() < 2 || nibble(rest[0]) > 15
            || nibble(rest[1]) > 15 {
            None
        } else {
            match gs1dl::unescape(rest.skip(2)) {
                Some(r) => Some(seq![(16 * nibble(rest[0]) + nibble(rest[1])) as u8] + r),
                None => None,
            }
        }),
{
    let all = seq![b] + rest;
    assert(all.skip(1) =~= rest);
    if rest.len() >= 2 {
        assert(all[1] == rest[0] && all[2] == rest[1]);
        assert(all.skip(3) =~= rest.skip(2));
    }
}

/// A decoded text is the one whose bytes the escapes stand for, and there is
/// none where they stand for no text.
pub proof fn law_decoded_text_is_what_the_bytes_spell(s: Seq<char>, d: Seq<char>)
    ensures
        gs1dl::percent_decoded(s) == Some(d) <==> gs1dl::unescape(encode_utf8(s)) == Some(encode_utf8(d)),
{
    broadcast use encode_utf8_valid_utf8;
    broadcast use encode_utf8_decode_utf8;
    broadcast use decode_utf8_encode_utf8;

}

/// A path is read piece by piece: empty pieces are passed over, every other one
/// is decoded, in order; and one that cannot be decoded spoils the whole.
pub proof fn law_paths_are_read_piece_by_piece(piece: Seq<char>, pieces: Seq<Seq<char>>)
    ensures
        gs1dl::decoded_segments(Seq::empty()) == Some(Seq::<Seq<char>>::empty()),
        gs1dl::decoded_segments(seq![piece] + pieces) == (if piece.len() == 0 {
            gs1dl::decoded_segments(pieces)
        } else {
            match (gs1dl::percent_decoded(piece), gs1dl::decoded_segments(pieces)) {
                (Some(d), Some(rest)) => Some(seq![d] + rest),
                _ => None,
            }
        }),
{
    assert((seq![piece] + pieces).skip(1) =~= pieces);
}

/// A query is read piece by piece: empty pieces are passed over, every other one
/// is a parameter, its name before the first `=` and its value behind, both
/// decoded with a plus for a space; one that cannot be decoded spoils the whole.
pub proof fn law_queries_are_read_piece_by_piece(
    name: Seq<char>,
    value: Option<Seq<char>>,
    pieces: Seq<Seq<char>>,
)
    requires
        !name.contains('='),
    ensures
        ({
            let piece = match value {
                Some(v) => name + seq!['='] + v,
                None => name,
            };
            let given = match value {
                Some(v) => v,
                None => Seq::empty(),
            };
            &&& gs1dl::decoded_pairs(Seq::empty()) == Some(Seq::<(Seq<char>, Seq<char>)>::empty())
            &&& gs1dl::decoded_pairs(seq![piece] + pieces) == (if piece.len() == 0 {
                gs1dl::decoded_pairs(pieces)
            } else {
                match (
                    gs1dl::percent_decoded(spaced(name)),
                    gs1dl::percent_decoded(spaced(given)),
                    gs1dl::decoded_pairs(pieces),
                ) {
                    (Some(k), Some(v), Some(rest)) => Some(seq![(k, v)] + rest),
                    _ => None,
                }
            })
        }),
{
    let piece = match value {
        Some(v) => name + seq!['='] + v,
        None => name,
    };
    assert((seq![piece] + pieces).skip(1) =~= pieces);
    assert forall|j: int| 0 <= j < name.len() implies #[trigger] name[j] != '=' by {}
    assert forall|j: int| 0 <= j < name.len() implies piece[j] != '=' by {
        assert(piece[j] == name[j]);
    }
    text::lemma_position(piece, '=', name.len() as int);
    assert(piece.take(name.len() as int) =~= name);
    if let Some(v) = value {
        assert(piece.skip(name.len() as int + 1) =~= v);
        assert(gs1dl::plus_to_space(v) =~= spaced(v));
    } else {
        assert(gs1dl::plus_to_space(Seq::empty()) =~= spaced(Seq::empty()));
    }
    assert(gs1dl::plus_to_space(name) =~= spaced(name));
}

/// A text with a space for each plus.
pub open spec fn spaced(s: Seq<char>) -> Seq<char> {
    Seq::new(
        s.len(),
        |i: int|
            if s[i] == '+' {
                ' '
            } else {
                s[i]
            },
    )
}

/// A web address is taken apart at its marks: the scheme in any case before the
/// first `://`, the host up to the next slash, the path up to the first question
/// mark, and the query behind it. It must be http or https, and have a host
/// without a space.
pub proof fn law_addresses_are_taken_apart(
    scheme: Seq<char>,
    authority: Seq<char>,
    path: Seq<char>,
    query: Option<Seq<char>>,
)
    requires
        !scheme.contains(':'),
        !authority.contains('/'),
        path.len() > 0 && path[0] == '/' && !path.contains('?'),
    ensures
        ({
            let uri = scheme + "://"@ + authority + path + match query {
                Some(q) => seq!['?'] + q,
                None => Seq::empty(),
            };
            let asked = match query {
                Some(q) => q,
                None => Seq::empty(),
            };
            gs1dl::url_parts(uri) == (if (text::lower(scheme) == "http"@ || text::lower(scheme) == "https"@)
                && authority.len() > 0 && !authority.contains(' ') {
                match (gs1dl::decoded_segments(text::split(path, '/')), gs1dl::decoded_pairs(text::split(asked, '&'))) {
                    (Some(path_segments), Some(query_pairs)) => Some(
                        UrlView {
                            scheme: text::lower(scheme),
                            origin: text::lower(scheme) + "://"@ + authority,
                            path_segments,
                            query_pairs,
                        },
                    ),
                    _ => None,
                }
            } else {
                None
            })
        }),
{
    let tail = match query {
        Some(q) => seq!['?'] + q,
        None => Seq::empty(),
    };
    let path_query = path + tail;
    let rest = authority + path_query;
    let uri = scheme + "://"@ + authority + path + tail;
    assert(uri =~= scheme + "://"@ + rest);
    lemma_find_scheme(scheme, rest);
    assert(uri.take(scheme.len() as int) =~= scheme);
    assert(uri.skip(scheme.len() as int + 3) =~= rest) by {
        reveal_strlit("://");
    }
    assert forall|j: int| 0 <= j < authority.len() implies rest[j] != '/' by {
        assert(rest[j] == authority[j]);
    }
    assert(rest[authority.len() as int] == path[0]);
    text::lemma_position(rest, '/', authority.len() as int);
    assert(rest.take(authority.len() as int) =~= authority);
    assert(rest.skip(authority.len() as int) =~= path_query);
    assert forall|j: int| 0 <= j < path.len() implies path_query[j] != '?' by {
        assert(path_query[j] == path[j]);
    }
    text::lemma_position(path_query, '?', path.len() as int);
    assert(path_query.take(path.len() as int) =~= path);
    if let Some(q) = query {
        assert(path_query.skip(path.len() as int + 1) =~= q);
    }
}

} // verus!
