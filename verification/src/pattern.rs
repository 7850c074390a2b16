//! Regular expressions from the `regex` crate, and the character ranges of
//! their matches.

use vstd::prelude::*;
use vstd::utf8::encode_utf8;
use regex::Regex;
use crate::unicode::{lemma_encode_utf8_take_step, lemma_utf8_width_bounds, utf8_encode_char, utf8_width};

verus! {

/// `regex::Regex`, a compiled expression held as an opaque value.
#[verifier::external_type_specification]
#[verifier::external_body]
pub struct ExRegex(Regex);

/// A compiled regular expression together with its source text.
pub struct Pattern {
    re: Regex,
    source: String,
}

impl Pattern {
    /// The source text the expression was compiled from.
    pub closed spec fn source(&self) -> Seq<char> {
        self.source@
    }
}

/// Whether `regex::Regex::new` accepts the expression `source` (with the
/// crate's default size limits): a function of the source text alone.
pub uninterp spec fn regex_compiles(source: Seq<char>) -> bool;

/// `regex::Regex::new`: compiles `source`. The crate documents an error for
/// an invalid pattern or one over its default size limit; which sources
/// those are is the crate's grammar, and is left to the name.
#[verifier::external_body]
pub(crate) fn compile_pattern(source: &str) -> (r: Option<Pattern>)
    ensures
        r is Some <==> regex_compiles(source@),
        r matches Some(p) ==> p.source() == source@,
{
    match Regex::new(source) {
        Ok(re) => Some(Pattern { re, source: source.to_string() }),
        Err(_) => None,
    }
}

/// The byte position in the UTF-8 encoding of `text` where character `c`
/// starts.
pub open spec fn byte_pos(text: Seq<char>, c: int) -> int {
    encode_utf8(text.take(c)).len() as int
}

/// Byte position `b` falls between two characters of `text` (or at an end).
pub open spec fn on_char_boundary(text: Seq<char>, b: int) -> bool {
    exists|c: int| 0 <= c <= text.len() && byte_pos(text, c) == b
}

/// The character index at byte position `b`.
pub open spec fn char_index(text: Seq<char>, b: int) -> int {
    choose|c: int| 0 <= c <= text.len() && byte_pos(text, c) == b
}

/// The byte ranges are matches as `find_iter` hands them out: each on
/// character boundaries, none reversed, each starting at or after the end of
/// the one before.
pub open spec fn spans_well_placed(text: Seq<char>, spans: Seq<(usize, usize)>) -> bool {
    &&& forall|k: int|
        0 <= k < spans.len() ==> {
            &&& (#[trigger] spans[k]).0 <= spans[k].1
            &&& on_char_boundary(text, spans[k].0 as int)
            &&& on_char_boundary(text, spans[k].1 as int)
        }
    &&& forall|k: int| 0 <= k < spans.len() - 1 ==> (#[trigger] spans[k]).1 <= spans[k + 1].0
}

/// The byte ranges of the successive matches of the expression with source
/// `source` in `haystack`, as `Regex::find_iter` yields them.
pub uninterp spec fn regex_match_spans(source: Seq<char>, haystack: Seq<char>) -> Seq<(usize, usize)>;

/// `regex::Regex::find_iter`, each match taken as its byte range. The crate
/// documents that the matches are successive and non-overlapping, and that
/// every start and end falls on a character boundary of the haystack, with
/// the start not after the end. Which matches these are is the expression's
/// semantics and is left to the name.
#[verifier::external_body]
pub(crate) fn find_spans(pattern: &Pattern, haystack: &str) -> (r: Vec<(usize, usize)>)
    ensures
        r@ == regex_match_spans(pattern.source(), haystack@),
        spans_well_placed(haystack@, r@),
{
    pattern.re.find_iter(haystack).map(|m| (m.start(), m.end())).collect()
}

/// Byte positions grow strictly with the character index.
pub proof fn lemma_byte_pos_increasing(text: Seq<char>, c1: int, c2: int)
    requires
        0 <= c1 <= c2 <= text.len(),
    ensures
        byte_pos(text, c1) <= byte_pos(text, c2),
        c1 < c2 ==> byte_pos(text, c1) < byte_pos(text, c2),
        byte_pos(text, 0) == 0,
    decreases c2 - c1,
{
    assert(text.take(0) =~= Seq::<char>::empty());
    if c1 < c2 {
        lemma_byte_pos_increasing(text, c1, c2 - 1);
        lemma_encode_utf8_take_step(text, c2 - 1);
        lemma_utf8_width_bounds(text[c2 - 1]);
    }
}

/// The character index of a boundary is the one whose byte position it is.
pub proof fn lemma_char_index(text: Seq<char>, c: int)
    requires
        0 <= c <= text.len(),
    ensures
        char_index(text, byte_pos(text, c)) == c,
{
    let b = byte_pos(text, c);
    let d = char_index(text, b);
    assert(0 <= d <= text.len() && byte_pos(text, d) == b);
    if d < c {
        lemma_byte_pos_increasing(text, d, c);
    } else if c < d {
        lemma_byte_pos_increasing(text, c, d);
    }
}

/// The match ranges turned into character ranges.
pub open spec fn char_spans(text: Seq<char>, spans: Seq<(usize, usize)>) -> Seq<(int, int)> {
    spans.map_values(
        |s: (usize, usize)| (char_index(text, s.0 as int), char_index(text, s.1 as int)),
    )
}

/// Turns well-placed byte ranges of matches in `text` into character ranges.
pub fn to_char_spans(text: &Vec<char>, spans: &Vec<(usize, usize)>) -> (r: Vec<(usize, usize)>)
    requires
        spans_well_placed(text@, spans@),
    ensures
        r@.len() == spans@.len(),
        forall|k: int|
            0 <= k < r@.len() ==> ((#[trigger] r@[k]).0 as int, r@[k].1 as int) == char_spans(
                text@,
                spans@,
            )[k],
        forall|k: int| 0 <= k < r@.len() ==> (#[trigger] r@[k]).0 <= r@[k].1 <= text@.len(),
        forall|k: int| 0 <= k < r@.len() - 1 ==> (#[trigger] r@[k]).1 <= r@[k + 1].0,
{
    let mut r: Vec<(usize, usize)> = Vec::with_capacity(spans.len());
    let mut c: usize = 0;
    let mut pos: usize = 0;
    let mut k: usize = 0;
    proof {
        lemma_byte_pos_increasing(text@, 0, 0);
    }
    while k < spans.len()
        invariant
            spans_well_placed(text@, spans@),
            k <= spans.len(),
            r@.len() == k,
            c <= text.len(),
            pos == byte_pos(text@, c as int),
            k > 0 ==> c == r@[k - 1].1,
            k == 0 ==> c == 0,
            k < spans.len() ==> pos <= spans@[k as int].0,
            forall|j: int|
                0 <= j < k ==> ((#[trigger] r@[j]).0 as int, r@[j].1 as int) == char_spans(
                    text@,
                    spans@,
                )[j],
            forall|j: int| 0 <= j < k ==> (#[trigger] r@[j]).0 <= r@[j].1 <= text@.len(),
            forall|j: int| 0 <= j < k - 1 ==> (#[trigger] r@[j]).1 <= r@[j + 1].0,
        decreases spans.len() - k,
    {
        let (sb, eb) = spans[k];
        let ghost cs = char_index(text@, sb as int);
        let ghost ce = char_index(text@, eb as int);
        proof {
            assert(on_char_boundary(text@, sb as int));
            assert(on_char_boundary(text@, eb as int));
            assert(0 <= cs <= text.len() && byte_pos(text@, cs) == sb);
            assert(0 <= ce <= text.len() && byte_pos(text@, ce) == eb);
            if cs < c {
                lemma_byte_pos_increasing(text@, cs, c as int);
            }
        }
        while pos < sb
            invariant
                c <= cs <= text.len(),
                pos == byte_pos(text@, c as int),
                byte_pos(text@, cs) == sb,
            decreases cs - c,
        {
            proof {
                if c == cs {
                    assert(false);
                }
                lemma_encode_utf8_take_step(text@, c as int);
                lemma_byte_pos_increasing(text@, c + 1, cs);
            }
            let w = utf8_encode_char(text[c]).len();
            pos = pos + w;
            c = c + 1;
        }
        proof {
            if c < cs {
                lemma_byte_pos_increasing(text@, c as int, cs);
            }
        }
        let start = c;
        proof {
            if ce < c {
                lemma_byte_pos_increasing(text@, ce, c as int);
            }
        }
        while pos < eb
            invariant
                c <= ce <= text.len(),
                pos == byte_pos(text@, c as int),
                byte_pos(text@, ce) == eb,
            decreases ce - c,
        {
            proof {
                if c == ce {
                    assert(false);
                }
                lemma_encode_utf8_take_step(text@, c as int);
                lemma_byte_pos_increasing(text@, c + 1, ce);
            }
            let w = utf8_encode_char(text[c]).len();
            pos = pos + w;
            c = c + 1;
        }
        proof {
            if c < ce {
                lemma_byte_pos_increasing(text@, c as int, ce);
            }
            lemma_char_index(text@, start as int);
            lemma_char_index(text@, c as int);
        }
        r.push((start, c));
        k = k + 1;
        proof {
            if k < spans.len() {
                assert(spans@[k - 1].1 <= spans@[k as int].0);
            }
        }
    }
    r
}

} // verus!
