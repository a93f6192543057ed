use vstd::prelude::*;

use crate::stop_words::StopWords;
use crate::text::alphabetic;
use crate::text::char_is_alphabetic;
use crate::text::char_is_whitespace;
use crate::text::chars_to_string;
use crate::text::lower_of;
use crate::text::stem_of;
use crate::text::stem_word;
use crate::text::to_lowercase;
use crate::text::to_uppercase;
use crate::text::upper_of;
use crate::text::whitespace;

verus! {

// The shared normalization pipeline: raw text is split into words, and each
// word is lowercased, stemmed and uppercased into one canonical keyword.
// The index builder also strips non-alphabetic characters first and drops
// stop words last; the search engine does neither.

/// The canonical keyword made from one raw word.
pub open spec fn canon_of(w: Seq<char>) -> Seq<char> {
    upper_of(stem_of(lower_of(w)))
}

/// Whether the builder keeps character `c` of raw page text.
pub open spec fn kept(c: char) -> bool {
    alphabetic(c) || c == '\n' || c == ' '
}

/// The characters of `s` that the builder keeps, in order.
pub open spec fn filter_kept(s: Seq<char>) -> Seq<char>
    decreases s.len(),
{
    if s.len() == 0 {
        Seq::empty()
    } else if kept(s.last()) {
        filter_kept(s.drop_last()).push(s.last())
    } else {
        filter_kept(s.drop_last())
    }
}

/// Whether `c` separates words of filtered page text: the only whitespace
/// the filter leaves in are the blank and the newline.
pub open spec fn is_builder_sep(c: char) -> bool {
    c == '\n' || c == ' '
}

/// Whether `c` separates words of a query.
pub open spec fn is_query_sep(c: char) -> bool {
    whitespace(c)
}

/// The complete words found in the first `i` characters of `s`, and the
/// word still being read at position `i`.
pub open spec fn split_state(s: Seq<char>, i: int, sep: spec_fn(char) -> bool) -> (
    Seq<Seq<char>>,
    Seq<char>,
)
    decreases i,
{
    if i <= 0 {
        (Seq::empty(), Seq::empty())
    } else {
        let prev = split_state(s, i - 1, sep);
        if sep(s[i - 1]) {
            if prev.1.len() > 0 {
                (prev.0.push(prev.1), Seq::empty())
            } else {
                (prev.0, Seq::empty())
            }
        } else {
            (prev.0, prev.1.push(s[i - 1]))
        }
    }
}

/// The words of `s`: the maximal runs of non-separator characters.
pub open spec fn split_words(s: Seq<char>, sep: spec_fn(char) -> bool) -> Seq<Seq<char>> {
    let end = split_state(s, s.len() as int, sep);
    if end.1.len() > 0 {
        end.0.push(end.1)
    } else {
        end.0
    }
}

/// The canonical keywords of the given words, with those in `stops` dropped.
pub open spec fn canon_filtered(tokens: Seq<Seq<char>>, stops: Seq<Seq<char>>) -> Seq<Seq<char>>
    decreases tokens.len(),
{
    if tokens.len() == 0 {
        Seq::empty()
    } else {
        let rest = canon_filtered(tokens.drop_last(), stops);
        let w = canon_of(tokens.last());
        if stops.contains(w) {
            rest
        } else {
            rest.push(w)
        }
    }
}

/// The keywords the builder indexes from one page of raw text.
pub open spec fn page_keywords(text: Seq<char>, stops: Seq<Seq<char>>) -> Seq<Seq<char>> {
    canon_filtered(split_words(filter_kept(text), |c: char| is_builder_sep(c)), stops)
}

/// The keywords the search engine looks up from one query; stop words are
/// not dropped here, they simply never match anything indexed.
pub open spec fn query_keywords(q: Seq<char>) -> Seq<Seq<char>> {
    canon_filtered(split_words(q, |c: char| is_query_sep(c)), Seq::empty())
}

/// The character sequences of a list of character vectors.
pub open spec fn views_of_vecs(vs: Seq<Vec<char>>) -> Seq<Seq<char>> {
    vs.map(|k: int, v: Vec<char>| v@)
}

/// The character sequences of a list of strings.
pub open spec fn views_of(ws: Seq<String>) -> Seq<Seq<char>> {
    ws.map(|k: int, w: String| w@)
}

/// Keeps the alphabetic characters, blanks and newlines of `text`.
fn filter_text(text: &str) -> (r: Vec<char>)
    ensures
        r@ == filter_kept(text@),
{
    let n: usize = text.unicode_len();
    let mut out: Vec<char> = Vec::new();
    let mut i: usize = 0;
    while i < n
        invariant
            n == text@.len(),
            i <= n,
            out@ == filter_kept(text@.subrange(0, i as int)),
        decreases n - i,
    {
        let c = text.get_char(i);
        let keep = char_is_alphabetic(c) || c == '\n' || c == ' ';
        proof {
            let pre = text@.subrange(0, i + 1);
            assert(pre.drop_last() =~= text@.subrange(0, i as int));
            assert(pre.last() == text@[i as int]);
            assert(keep == kept(text@[i as int]));
        }
        if keep {
            out.push(c);
        }
        i = i + 1;
    }
    proof {
        assert(text@.subrange(0, n as int) =~= text@);
    }
    out
}

/// Splits filtered page text on blanks and newlines.
fn split_builder(v: &Vec<char>) -> (r: Vec<Vec<char>>)
    ensures
        views_of_vecs(r@) == split_words(v@, |c: char| is_builder_sep(c)),
{
    let n: usize = v.len();
    let mut out: Vec<Vec<char>> = Vec::new();
    let mut cur: Vec<char> = Vec::new();
    let mut i: usize = 0;
    while i < n
        invariant
            n == v@.len(),
            i <= n,
            views_of_vecs(out@) == split_state(v@, i as int, |c: char| is_builder_sep(c)).0,
            cur@ == split_state(v@, i as int, |c: char| is_builder_sep(c)).1,
        decreases n - i,
    {
        let c = v[i];
        let ghost prev_out = out@;
        if c == '\n' || c == ' ' {
            if cur.len() > 0 {
                out.push(cur);
                cur = Vec::new();
                proof {
                    assert(views_of_vecs(out@) =~= views_of_vecs(prev_out).push(
                        split_state(v@, i as int, |c: char| is_builder_sep(c)).1,
                    ));
                }
            }
        } else {
            cur.push(c);
        }
        i = i + 1;
    }
    if cur.len() > 0 {
        let ghost prev_out = out@;
        out.push(cur);
        proof {
            assert(views_of_vecs(out@) =~= views_of_vecs(prev_out).push(
                split_state(v@, n as int, |c: char| is_builder_sep(c)).1,
            ));
        }
    }
    out
}

/// Splits a query on whitespace.
fn split_query(v: &Vec<char>) -> (r: Vec<Vec<char>>)
    ensures
        views_of_vecs(r@) == split_words(v@, |c: char| is_query_sep(c)),
{
    let n: usize = v.len();
    let mut out: Vec<Vec<char>> = Vec::new();
    let mut cur: Vec<char> = Vec::new();
    let mut i: usize = 0;
    while i < n
        invariant
            n == v@.len(),
            i <= n,
            views_of_vecs(out@) == split_state(v@, i as int, |c: char| is_query_sep(c)).0,
            cur@ == split_state(v@, i as int, |c: char| is_query_sep(c)).1,
        decreases n - i,
    {
        let c = v[i];
        let ghost prev_out = out@;
        if char_is_whitespace(c) {
            if cur.len() > 0 {
                out.push(cur);
                cur = Vec::new();
                proof {
                    assert(views_of_vecs(out@) =~= views_of_vecs(prev_out).push(
                        split_state(v@, i as int, |c: char| is_query_sep(c)).1,
                    ));
                }
            }
        } else {
            cur.push(c);
        }
        i = i + 1;
    }
    if cur.len() > 0 {
        let ghost prev_out = out@;
        out.push(cur);
        proof {
            assert(views_of_vecs(out@) =~= views_of_vecs(prev_out).push(
                split_state(v@, n as int, |c: char| is_query_sep(c)).1,
            ));
        }
    }
    out
}

/// Turns one raw word into its canonical keyword.
fn canon_word(w: &Vec<char>) -> (r: String)
    ensures
        r@ == canon_of(w@),
{
    let raw = chars_to_string(w);
    let low = to_lowercase(raw.as_str());
    let stemmed = stem_word(low.as_str());
    to_uppercase(stemmed.as_str())
}

/// Canonicalizes every word and drops stop words.
fn canon_all(tokens: &Vec<Vec<char>>, stops: &StopWords, drop_stops: bool) -> (r: Vec<String>)
    ensures
        drop_stops ==> views_of(r@) == canon_filtered(views_of_vecs(tokens@), stops.spec_words()),
        !drop_stops ==> views_of(r@) == canon_filtered(views_of_vecs(tokens@), Seq::empty()),
{
    let ghost stop_set: Seq<Seq<char>> = if drop_stops {
        stops.spec_words()
    } else {
        Seq::empty()
    };
    let n: usize = tokens.len();
    let mut out: Vec<String> = Vec::new();
    let mut i: usize = 0;
    while i < n
        invariant
            n == tokens@.len(),
            i <= n,
            stop_set == (if drop_stops {
                stops.spec_words()
            } else {
                Seq::<Seq<char>>::empty()
            }),
            views_of(out@) == canon_filtered(
                views_of_vecs(tokens@.subrange(0, i as int)),
                stop_set,
            ),
        decreases n - i,
    {
        let w = canon_word(&tokens[i]);
        let is_stop = if drop_stops {
            stops.is_stop_word(&w)
        } else {
            false
        };
        proof {
            let pre = views_of_vecs(tokens@.subrange(0, i + 1));
            assert(pre.drop_last() =~= views_of_vecs(tokens@.subrange(0, i as int)));
            assert(pre.last() == tokens@[i as int]@);
            assert(is_stop == stop_set.contains(canon_of(tokens@[i as int]@)));
        }
        let ghost prev_out = out@;
        if !is_stop {
            out.push(w);
            proof {
                assert(views_of(out@) =~= views_of(prev_out).push(w@));
            }
        }
        i = i + 1;
    }
    proof {
        assert(tokens@.subrange(0, n as int) =~= tokens@);
    }
    out
}

/// The keywords the builder indexes from one page of raw text: strip
/// non-alphabetic characters, split, canonicalize, drop stop words.
pub fn get_page_keywords(text: &str, stops: &StopWords) -> (r: Vec<String>)
    ensures
        views_of(r@) == page_keywords(text@, stops.spec_words()),
{
    let filtered = filter_text(text);
    let tokens = split_builder(&filtered);
    canon_all(&tokens, stops, true)
}

/// The keywords the search engine looks up from one query: split on
/// whitespace and canonicalize; stop words are kept.
pub fn get_query_keywords(q: &str) -> (r: Vec<String>)
    ensures
        views_of(r@) == query_keywords(q@),
{
    let no_stops = StopWords::new(Vec::new());
    let n: usize = q.unicode_len();
    let mut chars: Vec<char> = Vec::new();
    let mut i: usize = 0;
    while i < n
        invariant
            n == q@.len(),
            i <= n,
            chars@ == q@.subrange(0, i as int),
        decreases n - i,
    {
        let c = q.get_char(i);
        chars.push(c);
        proof {
            assert(q@.subrange(0, i + 1) =~= q@.subrange(0, i as int).push(q@[i as int]));
        }
        i = i + 1;
    }
    proof {
        assert(q@.subrange(0, n as int) =~= q@);
    }
    let tokens = split_query(&chars);
    canon_all(&tokens, &no_stops, false)
}

} // verus!
