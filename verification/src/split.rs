//! Cutting tokens: on special vocabulary entries, on the pre-tokenization
//! patterns, and into byte-level BPE pieces; and lower-casing a token.

use vstd::prelude::*;
use vstd::utf8::encode_utf8;
use crate::bpe::{BpePairVocab, bpe, lemma_bpe_keeps_text, lemma_bpe_nonempty, lemma_singletons_flatten, singletons, spec_bpe};
use crate::bytes::{byte_to_char, spec_bytes_to_chars};
use crate::token::{Mask, Offset, OffsetSize, Token, TokenView, string_views, token_views, vec_views};
use crate::pattern::{Pattern, char_spans, find_spans, regex_match_spans, to_char_spans};
use crate::unicode::{lemma_trim_end_len_bound, trim_end_len, lower_mapping, chars_of, lowercase_char, lemma_encode_utf8_take_step, lemma_utf8_width_bounds, utf8_encode_char, utf8_width};

verus! {

/// The original position of every byte of the UTF-8 encoding of `chars`:
/// each byte of character `i` gets `refs[i]`.
pub open spec fn byte_refs(chars: Seq<char>, refs: Seq<OffsetSize>) -> Seq<OffsetSize>
    decreases chars.len(),
{
    if chars.len() == 0 {
        Seq::empty()
    } else {
        byte_refs(chars.drop_last(), refs) + Seq::new(
            utf8_width(chars.last()),
            |j: int| refs[chars.len() - 1],
        )
    }
}

/// `chars` in the byte alphabet: one character per byte of its UTF-8
/// encoding.
pub open spec fn byte_text(chars: Seq<char>) -> Seq<char> {
    spec_bytes_to_chars(encode_utf8(chars))
}

/// Where piece `k` starts, counted in characters.
pub open spec fn piece_start(pieces: Seq<Seq<char>>, k: int) -> int {
    pieces.take(k).flatten().len() as int
}

/// The token for BPE piece `k`, with the original positions `offs` of the
/// characters the pieces spell.
pub open spec fn bpe_piece_token(pieces: Seq<Seq<char>>, offs: Seq<OffsetSize>, k: int) -> TokenView {
    let st = piece_start(pieces, k);
    let len = pieces[k].len() as int;
    TokenView {
        text: pieces[k],
        offset: Offset { begin: offs[st], end: (offs[st + len - 1] + 1) as OffsetSize },
        reference_offsets: offs.subrange(st, st + len),
        mask: if pieces.len() > 1 {
            if k == 0 {
                Mask::Begin
            } else {
                Mask::Continuation
            }
        } else {
            Mask::Plain
        },
    }
}

/// The byte-level BPE tokens of a text whose characters have the original
/// positions `refs`.
pub open spec fn spec_split_on_bpe_pairs(
    text: Seq<char>,
    refs: Seq<OffsetSize>,
    m: Map<(Seq<char>, Seq<char>), i64>,
) -> Seq<TokenView> {
    let offs = byte_refs(text, refs);
    let pieces = spec_bpe(singletons(byte_text(text)), m);
    Seq::new(pieces.len(), |k: int| bpe_piece_token(pieces, offs, k))
}

pub proof fn lemma_byte_refs_len(chars: Seq<char>, refs: Seq<OffsetSize>)
    ensures
        byte_refs(chars, refs).len() == encode_utf8(chars).len(),
        forall|i: int|
            0 <= i < byte_refs(chars, refs).len() ==> exists|j: int|
                0 <= j < chars.len() && #[trigger] byte_refs(chars, refs)[i] == refs[j],
    decreases chars.len(),
{
    if chars.len() > 0 {
        lemma_byte_refs_len(chars.drop_last(), refs);
        let n = chars.len() as int;
        assert(chars =~= chars.take(n - 1).push(chars[n - 1]));
        assert(chars.take(n) =~= chars);
        assert(chars.take(n - 1) =~= chars.drop_last());
        lemma_encode_utf8_take_step(chars, n - 1);
        let prev = byte_refs(chars.drop_last(), refs);
        assert forall|i: int| 0 <= i < byte_refs(chars, refs).len() implies exists|j: int|
            0 <= j < chars.len() && #[trigger] byte_refs(chars, refs)[i] == refs[j] by {
            if i < prev.len() {
                assert(byte_refs(chars, refs)[i] == prev[i]);
                let j = choose|j: int| 0 <= j < chars.drop_last().len() && prev[i] == refs[j];
                assert(0 <= j < chars.len() && byte_refs(chars, refs)[i] == refs[j]);
            } else {
                assert(byte_refs(chars, refs)[i] == refs[n - 1]);
            }
        }
    }
}

pub proof fn lemma_piece_start_step(pieces: Seq<Seq<char>>, k: int)
    requires
        0 <= k < pieces.len(),
    ensures
        piece_start(pieces, k + 1) == piece_start(pieces, k) + pieces[k].len(),
        piece_start(pieces, k + 1) <= pieces.flatten().len(),
        piece_start(pieces, 0) == 0,
{
    assert(pieces.take(k + 1) =~= pieces.take(k).push(pieces[k]));
    pieces.take(k).lemma_flatten_push(pieces[k]);
    assert(pieces =~= pieces.take(k + 1) + pieces.skip(k + 1));
    vstd::seq_lib::lemma_flatten_concat(pieces.take(k + 1), pieces.skip(k + 1));
    assert(pieces.take(0) =~= Seq::<Seq<char>>::empty());
}

/// A copy of `v[from..to]`.
pub fn copy_range(v: &Vec<OffsetSize>, from: usize, to: usize) -> (r: Vec<OffsetSize>)
    requires
        from <= to <= v.len(),
    ensures
        r@ == v@.subrange(from as int, to as int),
{
    let mut r: Vec<OffsetSize> = Vec::with_capacity(to - from);
    let mut i = from;
    while i < to
        invariant
            from <= i <= to <= v.len(),
            r@ == v@.subrange(from as int, i as int),
        decreases to - i,
    {
        r.push(v[i]);
        i = i + 1;
        assert(r@ =~= v@.subrange(from as int, i as int));
    }
    r
}

/// The token's text in the byte alphabet together with the original
/// position of each byte.
pub fn bytes_with_offsets(text: &str, refs: &Vec<OffsetSize>) -> (r: (String, Vec<OffsetSize>))
    requires
        refs@.len() >= text@.len(),
    ensures
        r.0@ == byte_text(text@),
        r.1@ == byte_refs(text@, refs@),
{
    let chars = chars_of(text);
    let mut mapped = String::new();
    let mut offs: Vec<OffsetSize> = Vec::new();
    let mut i: usize = 0;
    while i < chars.len()
        invariant
            chars@ == text@,
            refs@.len() >= chars@.len(),
            i <= chars.len(),
            mapped@ == byte_text(chars@.take(i as int)),
            offs@ == byte_refs(chars@.take(i as int), refs@),
        decreases chars.len() - i,
    {
        let c = chars[i];
        let encoded = utf8_encode_char(c);
        let ghost before = chars@.take(i as int);
        proof {
            lemma_encode_utf8_take_step(chars@, i as int);
            assert(chars@.take(i + 1).drop_last() =~= before);
            assert(chars@.take(i + 1).last() == c);
        }
        let mut j: usize = 0;
        while j < encoded.len()
            invariant
                j <= encoded.len(),
                encoded@ == vstd::utf8::encode_scalar(c as u32),
                mapped@ == byte_text(before) + spec_bytes_to_chars(encoded@.take(j as int)),
                offs@ == byte_refs(before, refs@) + Seq::new(j as nat, |k: int| refs@[i as int]),
                i < refs@.len(),
            decreases encoded.len() - j,
        {
            let b = encoded[j];
            let ch = byte_to_char(b);
            crate::unicode::push_char(&mut mapped, ch);
            offs.push(refs[i]);
            j = j + 1;
            assert(spec_bytes_to_chars(encoded@.take(j as int)) =~= spec_bytes_to_chars(
                encoded@.take(j - 1),
            ).push(ch));
            assert(mapped@ =~= byte_text(before) + spec_bytes_to_chars(encoded@.take(j as int)));
            assert(offs@ =~= byte_refs(before, refs@) + Seq::new(j as nat, |k: int| refs@[i as int]));
        }
        i = i + 1;
        proof {
            assert(encoded@.take(encoded@.len() as int) =~= encoded@);
            assert(spec_bytes_to_chars(encode_utf8(before) + encoded@) =~= spec_bytes_to_chars(
                encode_utf8(before),
            ) + spec_bytes_to_chars(encoded@));
            assert(mapped@ =~= byte_text(chars@.take(i as int)));
            assert(offs@ =~= byte_refs(chars@.take(i as int), refs@));
        }
    }
    assert(chars@.take(chars@.len() as int) =~= chars@);
    (mapped, offs)
}

/// Cuts a token into its byte-level BPE pieces. The text is turned into the
/// byte alphabet, merged with the ranked pairs, and every piece gets the
/// original positions of the bytes it covers. A word cut into several pieces
/// marks the first `Begin` and the others `Continuation`.
pub fn split_on_bpe_pairs(token: &Token, bpe_ranks: &BpePairVocab) -> (r: Vec<Token>)
    requires
        bpe_ranks.wf(),
        token.reference_offsets@.len() >= token.text@.len(),
        forall|i: int|
            0 <= i < token.text@.len() ==> #[trigger] token.reference_offsets@[i] < u32::MAX,
    ensures
        token_views(r@) == spec_split_on_bpe_pairs(
            token.text@,
            token.reference_offsets@,
            bpe_ranks@,
        ),
{
    let ghost m = bpe_ranks@;
    let (text, offs) = bytes_with_offsets(token.text.as_str(), &token.reference_offsets);
    let (pieces, counts) = bpe(text.as_str(), bpe_ranks);
    let ghost ps = string_views(pieces@);
    let ghost target = spec_split_on_bpe_pairs(token.text@, token.reference_offsets@, m);
    proof {
        lemma_byte_refs_len(token.text@, token.reference_offsets@);
        lemma_singletons_flatten(text@);
        lemma_bpe_keeps_text(singletons(text@), m);
        lemma_bpe_nonempty(singletons(text@), m);
        assert(ps.flatten() == text@);
    }
    let n = pieces.len();
    assert(target.len() == n);
    let mut out: Vec<Token> = Vec::with_capacity(n);
    let mut start: usize = 0;
    let mut k: usize = 0;
    while k < n
        invariant
            n == pieces@.len(),
            counts@.len() == n,
            forall|i: int| 0 <= i < n ==> counts@[i] == (#[trigger] pieces@[i])@.len(),
            ps == string_views(pieces@),
            ps == spec_bpe(singletons(text@), m),
            ps.flatten() == text@,
            text@ == byte_text(token.text@),
            forall|i: int| 0 <= i < ps.len() ==> (#[trigger] ps[i]).len() > 0,
            offs@ == byte_refs(token.text@, token.reference_offsets@),
            offs@.len() == text@.len(),
            forall|i: int|
                0 <= i < offs@.len() ==> exists|j: int|
                    0 <= j < token.text@.len() && #[trigger] offs@[i]
                        == token.reference_offsets@[j],
            forall|i: int|
                0 <= i < token.text@.len() ==> #[trigger] token.reference_offsets@[i] < u32::MAX,
            target == spec_split_on_bpe_pairs(token.text@, token.reference_offsets@, m),
            target.len() == n,
            token.reference_offsets@.len() >= token.text@.len(),
            k <= n,
            start == piece_start(ps, k as int),
            token_views(out@) == target.take(k as int),
        decreases n - k,
    {
        proof {
            lemma_piece_start_step(ps, k as int);
            assert(ps[k as int].len() > 0);
        }
        let count = counts[k];
        let end = start + count;
        let last = offs[end - 1];
        proof {
            let j = choose|j: int|
                0 <= j < token.text@.len() && offs@[end - 1] == token.reference_offsets@[j];
            assert(token.reference_offsets@[j] < u32::MAX);
        }
        let mask = if n > 1 {
            if k == 0 {
                Mask::Begin
            } else {
                Mask::Continuation
            }
        } else {
            Mask::Plain
        };
        let t = Token {
            text: pieces[k].clone(),
            offset: Offset { begin: offs[start], end: last + 1 },
            reference_offsets: copy_range(&offs, start, end),
            mask,
        };
        let ghost prev = token_views(out@);
        out.push(t);
        proof {
            assert(t@ == bpe_piece_token(ps, offs@, k as int));
            assert(token_views(out@) =~= prev.push(t@));
            assert(target[k as int] == bpe_piece_token(ps, offs@, k as int));
            assert(target.take(k + 1) =~= target.take(k as int).push(target[k as int]));
            assert(token_views(out@) =~= target.take(k + 1));
        }
        start = end;
        k = k + 1;
    }
    assert(target.take(n as int) =~= target);
    out
}

/// The lower-cased text of `chars`: each character replaced by its
/// lower-case mapping.
pub open spec fn lower_text(chars: Seq<char>) -> Seq<char>
    decreases chars.len(),
{
    if chars.len() == 0 {
        Seq::empty()
    } else {
        lower_text(chars.drop_last()) + lower_mapping(chars.last())
    }
}

/// The original positions after lower-casing: every character of the mapping
/// of character `i` keeps `refs[i]`.
pub open spec fn lower_refs(chars: Seq<char>, refs: Seq<OffsetSize>) -> Seq<OffsetSize>
    decreases chars.len(),
{
    if chars.len() == 0 {
        Seq::empty()
    } else {
        lower_refs(chars.drop_last(), refs) + Seq::new(
            lower_mapping(chars.last()).len(),
            |j: int| refs[chars.len() - 1],
        )
    }
}

/// The number of characters that lower-casing walks: the text and the
/// positions are read side by side, up to the shorter of the two.
pub open spec fn zipped_len(token: TokenView) -> int {
    if token.text.len() <= token.reference_offsets.len() {
        token.text.len() as int
    } else {
        token.reference_offsets.len() as int
    }
}

/// A token after lower-casing.
pub open spec fn spec_lowercase(token: TokenView) -> TokenView {
    let n = zipped_len(token);
    let refs = lower_refs(token.text.take(n), token.reference_offsets);
    TokenView {
        text: lower_text(token.text.take(n)),
        offset: Offset {
            begin: if refs.len() > 0 {
                refs[0]
            } else {
                0
            },
            end: ((if refs.len() > 0 {
                refs.last()
            } else {
                0
            }) + 1) as OffsetSize,
        },
        reference_offsets: refs,
        mask: token.mask,
    }
}

/// Every character is ASCII.
pub open spec fn ascii_text(s: Seq<char>) -> bool {
    forall|i: int| 0 <= i < s.len() ==> (#[trigger] s[i] as u32) < 128
}

/// The ASCII lower case of a text, character by character.
pub open spec fn ascii_lower_text(s: Seq<char>) -> Seq<char> {
    s.map_values(|c: char| crate::unicode::ascii_lower(c))
}

/// On ASCII text lower-casing is the ASCII lower case, and every position
/// is kept once.
pub proof fn lemma_lower_ascii(chars: Seq<char>, refs: Seq<OffsetSize>)
    requires
        ascii_text(chars),
        chars.len() <= refs.len(),
    ensures
        lower_text(chars) == ascii_lower_text(chars),
        lower_refs(chars, refs) == refs.take(chars.len() as int),
    decreases chars.len(),
{
    if chars.len() > 0 {
        let c = chars.last();
        assert(c == chars[chars.len() - 1]);
        lemma_lower_ascii(chars.drop_last(), refs);
        assert(ascii_lower_text(chars) =~= ascii_lower_text(chars.drop_last()) + seq![crate::unicode::ascii_lower(c)]);
        assert(refs.take(chars.len() as int) =~= refs.take(chars.len() - 1) + Seq::new(1, |j: int| refs[chars.len() - 1]));
    } else {
        assert(ascii_lower_text(chars) =~= Seq::<char>::empty());
        assert(refs.take(0) =~= Seq::<OffsetSize>::empty());
    }
}

proof fn lemma_lower_refs_shape(chars: Seq<char>, refs: Seq<OffsetSize>)
    requires
        chars.len() > 0,
        chars.len() <= refs.len(),
        lower_mapping(chars.last()).len() >= 1,
    ensures
        lower_refs(chars, refs).len() > 0,
        lower_refs(chars, refs).last() == refs[chars.len() - 1],
{
}

/// Lower-cases a token's text; each original position is repeated for every
/// character its character maps to.
pub fn lowercase(token: &mut Token)
    requires
        zipped_len(old(token)@) > 0 ==> old(token).reference_offsets@[zipped_len(old(token)@)
            - 1] < u32::MAX,
    ensures
        final(token)@ == spec_lowercase(old(token)@),
{
    let chars = chars_of(token.text.as_str());
    let n = if chars.len() <= token.reference_offsets.len() {
        chars.len()
    } else {
        token.reference_offsets.len()
    };
    let ghost src = chars@.take(n as int);
    let mut text = String::new();
    let mut refs: Vec<OffsetSize> = Vec::new();
    let mut i: usize = 0;
    while i < n
        invariant
            i <= n,
            n <= chars.len(),
            n <= token.reference_offsets.len(),
            src == chars@.take(n as int),
            text@ == lower_text(chars@.take(i as int)),
            refs@ == lower_refs(chars@.take(i as int), token.reference_offsets@),
            forall|k: int| 0 <= k < i ==> (#[trigger] lower_mapping(chars@[k])).len() >= 1,
        decreases n - i,
    {
        let c = chars[i];
        let lowered = lowercase_char(c);
        let ghost before = chars@.take(i as int);
        proof {
            assert(chars@.take(i + 1).drop_last() =~= before);
            assert(chars@.take(i + 1).last() == c);
        }
        let mut j: usize = 0;
        while j < lowered.len()
            invariant
                j <= lowered.len(),
                lowered@ == lower_mapping(c),
                text@ == lower_text(before) + lowered@.take(j as int),
                refs@ == lower_refs(before, token.reference_offsets@) + Seq::new(
                    j as nat,
                    |k: int| token.reference_offsets@[i as int],
                ),
                i < token.reference_offsets@.len(),
            decreases lowered.len() - j,
        {
            crate::unicode::push_char(&mut text, lowered[j]);
            refs.push(token.reference_offsets[i]);
            j = j + 1;
            assert(text@ =~= lower_text(before) + lowered@.take(j as int));
            assert(refs@ =~= lower_refs(before, token.reference_offsets@) + Seq::new(
                j as nat,
                |k: int| token.reference_offsets@[i as int],
            ));
        }
        i = i + 1;
        proof {
            assert(lowered@.take(lowered@.len() as int) =~= lowered@);
            assert(lower_mapping(chars@[i - 1]).len() >= 1);
            assert(text@ =~= lower_text(chars@.take(i as int)));
            assert(refs@ =~= lower_refs(chars@.take(i as int), token.reference_offsets@));
        }
    }
    proof {
        if n > 0 {
            assert(chars@.take(n as int).len() > 0);
            assert(chars@.take(n as int).last() == chars@[n - 1]);
            assert(lower_mapping(chars@[n - 1]).len() >= 1);
            lemma_lower_refs_shape(chars@.take(n as int), token.reference_offsets@);
        }
    }
    let begin = if refs.len() > 0 {
        refs[0]
    } else {
        0
    };
    let last = if refs.len() > 0 {
        refs[refs.len() - 1]
    } else {
        0
    };
    token.text = text;
    token.reference_offsets = refs;
    token.offset = Offset { begin, end: last + 1 };
}

/// The first of `specials` that `rest` starts with.
pub open spec fn first_prefix(specials: Seq<Seq<char>>, rest: Seq<char>) -> Option<Seq<char>>
    decreases specials.len(),
{
    if specials.len() == 0 {
        None
    } else if specials[0].is_prefix_of(rest) {
        Some(specials[0])
    } else {
        first_prefix(specials.drop_first(), rest)
    }
}

/// The special value matched at position `i` of `s`: the first of
/// `specials` that starts there, unless that one is empty.
pub open spec fn special_at(s: Seq<char>, specials: Seq<Seq<char>>, i: int) -> Option<Seq<char>> {
    match first_prefix(specials, s.skip(i)) {
        Some(v) => if v.len() > 0 {
            Some(v)
        } else {
            None
        },
        None => None,
    }
}

/// The pieces `(start, end, mask)` of `s[seg..]` when it is cut at the
/// special values, scanning from position `i`. The text before a special
/// value loses its trailing white space and is dropped when nothing is left;
/// the text after the last special value is kept whole. A special value
/// equal to `unk` is marked `Unknown`, any other `Special`.
pub open spec fn special_pieces(
    s: Seq<char>,
    specials: Seq<Seq<char>>,
    unk: Seq<char>,
    i: int,
    seg: int,
) -> Seq<(int, int, Mask)>
    decreases s.len() - i,
{
    if i >= s.len() || i < 0 {
        if seg < s.len() {
            seq![(seg, s.len() as int, Mask::Plain)]
        } else {
            Seq::empty()
        }
    } else {
        let found = first_prefix(specials, s.skip(i));
        if found is Some && found->0.len() > 0 {
            let v = found->0;
            proof {
                lemma_first_prefix(specials, s.skip(i));
            }
            let keep = trim_end_len(s.subrange(seg, i)) as int;
            let before = if keep > 0 {
                seq![(seg, seg + keep, Mask::Plain)]
            } else {
                Seq::empty()
            };
            let mask = if v == unk {
                Mask::Unknown
            } else {
                Mask::Special
            };
            before + seq![(i, i + v.len(), mask)] + special_pieces(
                s,
                specials,
                unk,
                i + v.len(),
                i + v.len(),
            )
        } else {
            special_pieces(s, specials, unk, i + 1, seg)
        }
    }
}

/// Where no special value occurs from position `i` on, the rest of the text
/// from `seg` is one plain piece (none when it is empty).
pub proof fn lemma_no_specials_one_piece(
    s: Seq<char>,
    specials: Seq<Seq<char>>,
    unk: Seq<char>,
    i: int,
    seg: int,
)
    requires
        0 <= i,
        forall|j: int| i <= j < s.len() ==> #[trigger] special_at(s, specials, j) is None,
    ensures
        special_pieces(s, specials, unk, i, seg) == if seg < s.len() {
            seq![(seg, s.len() as int, Mask::Plain)]
        } else {
            Seq::<(int, int, Mask)>::empty()
        },
    decreases s.len() - i,
{
    if i < s.len() {
        assert(special_at(s, specials, i) is None);
        lemma_no_specials_one_piece(s, specials, unk, i + 1, seg);
    }
}

/// A value found by `first_prefix` is a prefix of the text.
pub proof fn lemma_first_prefix(specials: Seq<Seq<char>>, rest: Seq<char>)
    ensures
        first_prefix(specials, rest) matches Some(v) ==> v.is_prefix_of(rest),
    decreases specials.len(),
{
    if specials.len() > 0 && !specials[0].is_prefix_of(rest) {
        lemma_first_prefix(specials.drop_first(), rest);
    }
}

/// A value found by `first_prefix` is one of the special values.
proof fn lemma_first_prefix_member(specials: Seq<Seq<char>>, rest: Seq<char>)
    ensures
        first_prefix(specials, rest) matches Some(v) ==> specials.contains(v),
    decreases specials.len(),
{
    if specials.len() > 0 {
        if specials[0].is_prefix_of(rest) {
            assert(specials[0] == specials[0]);
        } else {
            lemma_first_prefix_member(specials.drop_first(), rest);
            if let Some(v) = first_prefix(specials, rest) {
                let k = choose|k: int| 0 <= k < specials.drop_first().len() && specials.drop_first()[k] == v;
                assert(specials[k + 1] == v);
            }
        }
    }
}

/// The `j`-th special value is the one found at the start of a text that
/// begins with it, when no value registered before it starts that text.
proof fn lemma_first_prefix_is(specials: Seq<Seq<char>>, rest: Seq<char>, j: int)
    requires
        0 <= j < specials.len(),
        specials[j].is_prefix_of(rest),
        forall|k: int| 0 <= k < j ==> !specials[k].is_prefix_of(rest),
    ensures
        first_prefix(specials, rest) == Some(specials[j]),
    decreases j,
{
    if j > 0 {
        assert(!specials[0].is_prefix_of(rest));
        assert forall|k: int| 0 <= k < j - 1 implies !specials.drop_first()[k].is_prefix_of(rest) by {
            assert(specials.drop_first()[k] == specials[k + 1]);
        }
        lemma_first_prefix_is(specials.drop_first(), rest, j - 1);
    }
}

/// Where no non-empty special value starts at positions `i..e`, the scan
/// passes over them.
proof fn lemma_skip_plain(
    s: Seq<char>,
    specials: Seq<Seq<char>>,
    unk: Seq<char>,
    i: int,
    e: int,
    seg: int,
)
    requires
        0 <= i <= e <= s.len(),
        forall|p: int, k: int|
            i <= p < e && 0 <= k < specials.len() && specials[k].len() > 0 ==> !(
            #[trigger] specials[k]).is_prefix_of(#[trigger] s.skip(p)),
    ensures
        special_pieces(s, specials, unk, i, seg) == special_pieces(s, specials, unk, e, seg),
    decreases e - i,
{
    if i < e {
        lemma_first_prefix(specials, s.skip(i));
        lemma_first_prefix_member(specials, s.skip(i));
        if let Some(w) = first_prefix(specials, s.skip(i)) {
            if w.len() > 0 {
                let k = choose|k: int| 0 <= k < specials.len() && specials[k] == w;
                assert(!specials[k].is_prefix_of(s.skip(i)));
            }
        }
        lemma_skip_plain(s, specials, unk, i + 1, e, seg);
    }
}

/// A special value is cut off whole wherever it occurs, at the end of a text
/// too. Take a token whose text is a text `t` followed by the `j`-th special
/// value `v` (non-empty, with no value registered before it a prefix of
/// `v`), where no non-empty special value starts inside `t`. Its split ends
/// with one piece that is exactly `v`, with the positions of `v`, marked
/// `Unknown` when `v` is the unknown token and `Special` otherwise. Before it
/// stands `t` without its trailing white space as one plain piece, unless
/// nothing is left of it.
pub proof fn lemma_special_value_at_end(
    token: TokenView,
    specials: Seq<Seq<char>>,
    unk: Seq<char>,
    t: Seq<char>,
    j: int,
)
    requires
        0 <= j < specials.len(),
        specials[j].len() > 0,
        token.text == t + specials[j],
        token.reference_offsets.len() >= token.text.len(),
        forall|k: int| 0 <= k < j ==> !specials[k].is_prefix_of(specials[j]),
        forall|p: int, k: int|
            0 <= p < t.len() && 0 <= k < specials.len() && specials[k].len() > 0 ==> !(
            #[trigger] specials[k]).is_prefix_of(#[trigger] token.text.skip(p)),
    ensures
        ({
            let r = spec_split_on_special_tokens(token, specials, unk);
            let v = specials[j];
            let keep = trim_end_len(t) as int;
            &&& r.len() == if keep > 0 { 2int } else { 1int }
            &&& r.last().text == v
            &&& r.last().mask == (if v == unk { Mask::Unknown } else { Mask::Special })
            &&& r.last().reference_offsets == token.reference_offsets.subrange(
                t.len() as int,
                token.text.len() as int,
            )
            &&& keep > 0 ==> r[0].text == t.subrange(0, keep) && r[0].mask == Mask::Plain
                && r[0].reference_offsets == token.reference_offsets.subrange(0, keep)
        }),
{
    let s = token.text;
    let v = specials[j];
    let n = t.len() as int;
    lemma_skip_plain(s, specials, unk, 0, n, 0);
    assert(s.skip(n) =~= v);
    assert(v.is_prefix_of(v));
    lemma_first_prefix_is(specials, s.skip(n), j);
    assert(s.subrange(0, n) =~= t);
    lemma_trim_end_len_bound(t);
    let pieces = special_pieces(s, specials, unk, 0, 0);
    assert(special_pieces(s, specials, unk, n + v.len(), n + v.len()) =~= Seq::<(int, int, Mask)>::empty());
    let r = spec_split_on_special_tokens(token, specials, unk);
    assert(r.last().text =~= v);
    if trim_end_len(t) > 0 {
        assert(r[0].text =~= t.subrange(0, trim_end_len(t) as int));
    }
}

proof fn lemma_token_views_push(v: Seq<Token>, t: Token)
    ensures
        token_views(v.push(t)) == token_views(v).push(t@),
{
    assert(token_views(v.push(t)) =~= token_views(v).push(t@));
}

/// The token for the piece `(a, b, mask)` of a token.
pub open spec fn piece_token(token: TokenView, p: (int, int, Mask)) -> TokenView {
    TokenView {
        text: token.text.subrange(p.0, p.1),
        offset: Offset {
            begin: (token.offset.begin + p.0) as OffsetSize,
            end: (token.offset.begin + p.1) as OffsetSize,
        },
        reference_offsets: token.reference_offsets.subrange(p.0, p.1),
        mask: p.2,
    }
}

/// A token cut at the special values of the vocabulary.
pub open spec fn spec_split_on_special_tokens(
    token: TokenView,
    specials: Seq<Seq<char>>,
    unk: Seq<char>,
) -> Seq<TokenView> {
    let pieces = special_pieces(token.text, specials, unk, 0, 0);
    Seq::new(pieces.len(), |k: int| piece_token(token, pieces[k]))
}

/// Whether `v` occurs in `s` at position `i`.
pub fn starts_at(s: &Vec<char>, i: usize, v: &Vec<char>) -> (r: bool)
    requires
        i <= s.len(),
    ensures
        r == v@.is_prefix_of(s@.skip(i as int)),
{
    if v.len() > s.len() - i {
        return false;
    }
    let mut k: usize = 0;
    while k < v.len()
        invariant
            k <= v.len(),
            v.len() <= s.len() - i,
            forall|j: int| 0 <= j < k ==> v@[j] == s@[i + j],
        decreases v.len() - k,
    {
        if v[k] != s[i + k] {
            assert(v@[k as int] != s@.skip(i as int)[k as int]);
            return false;
        }
        k = k + 1;
    }
    assert(v@ =~= s@.skip(i as int).take(v@.len() as int));
    true
}

/// The special value that starts at position `i`, as `special_at` gives it.
pub fn find_special_at(s: &Vec<char>, specials: &Vec<Vec<char>>, i: usize) -> (r: Option<usize>)
    requires
        i < s.len(),
    ensures
        match r {
            Some(k) => k < specials.len() && special_at(s@, vec_views(specials@), i as int)
                == Some(specials@[k as int]@),
            None => special_at(s@, vec_views(specials@), i as int) is None,
        },
{
    let ghost all = vec_views(specials@);
    let mut k: usize = 0;
    assert(all.skip(0) =~= all);
    while k < specials.len()
        invariant
            i < s.len(),
            k <= specials.len(),
            all == vec_views(specials@),
            first_prefix(all, s@.skip(i as int)) == first_prefix(all.skip(k as int), s@.skip(i as int)),
        decreases specials.len() - k,
    {
        assert(all.skip(k as int)[0] == specials@[k as int]@);
        assert(all.skip(k as int).drop_first() =~= all.skip(k + 1));
        if starts_at(s, i, &specials[k]) {
            if specials[k].len() > 0 {
                return Some(k);
            } else {
                return None;
            }
        }
        k = k + 1;
    }
    assert(all.skip(k as int).len() == 0);
    None
}

/// Cuts a token at the special values, tried in the order of `specials` at
/// each position; see `special_pieces`. Text after a special value is scanned
/// from its end, so matches never overlap.
pub fn split_on_special_values(token: &Token, specials: &Vec<Vec<char>>, unk: &Vec<char>) -> (r: Vec<Token>)
    requires
        token.reference_offsets@.len() >= token.text@.len(),
        token.offset.begin + token.text@.len() <= u32::MAX,
    ensures
        token_views(r@) == spec_split_on_special_tokens(token@, vec_views(specials@), unk@),
{
    let ghost sp = vec_views(specials@);
    let ghost target = special_pieces(token.text@, sp, unk@, 0, 0);
    let s = chars_of(token.text.as_str());
    let n = s.len();
    let mut out: Vec<Token> = Vec::new();
    let ghost mut done_pieces: Seq<(int, int, Mask)> = Seq::empty();
    let mut i: usize = 0;
    let mut seg: usize = 0;
    while i < n
        invariant
            s@ == token.text@,
            n == s.len(),
            seg <= i <= n,
            sp == vec_views(specials@),
            token.reference_offsets@.len() >= n,
            token.offset.begin + n <= u32::MAX,
            target == special_pieces(token.text@, sp, unk@, 0, 0),
            target == done_pieces + special_pieces(s@, sp, unk@, i as int, seg as int),
            token_views(out@) == done_pieces.map_values(|p: (int, int, Mask)| piece_token(token@, p)),
        decreases n - i,
    {
        match find_special_at(&s, specials, i) {
            Some(k) => {
                let v_len = specials[k].len();
                let ghost v = specials@[k as int]@;
                proof {
                    lemma_first_prefix(sp, s@.skip(i as int));
                    assert(v.is_prefix_of(s@.skip(i as int)));
                }
                let keep = crate::unicode::trim_end_count(&s, seg, i);
                if keep > 0 {
                    let t = Token {
                        text: crate::unicode::string_from_chars(&s, seg, seg + keep),
                        offset: Offset {
                            begin: token.offset.begin + seg as u32,
                            end: token.offset.begin + (seg + keep) as u32,
                        },
                        reference_offsets: copy_range(&token.reference_offsets, seg, seg + keep),
                        mask: Mask::Plain,
                    };
                    proof {
                        assert(t@ == piece_token(token@, (seg as int, seg + keep, Mask::Plain)));
                        lemma_token_views_push(out@, t);
                    }
                    out.push(t);
                }
                let mask = if vec_chars_eq(&specials[k], unk) {
                    Mask::Unknown
                } else {
                    Mask::Special
                };
                let t = Token {
                    text: crate::unicode::string_from_chars(&s, i, i + v_len),
                    offset: Offset {
                        begin: token.offset.begin + i as u32,
                        end: token.offset.begin + (i + v_len) as u32,
                    },
                    reference_offsets: copy_range(&token.reference_offsets, i, i + v_len),
                    mask,
                };
                proof {
                    assert(s@.subrange(i as int, i + v_len) =~= v);
                    assert(t@ == piece_token(token@, (i as int, i + v_len, mask)));
                    lemma_token_views_push(out@, t);
                }
                out.push(t);
                proof {
                    let keep_i = keep as int;
                    let before: Seq<(int, int, Mask)> = if keep_i > 0 {
                        seq![(seg as int, seg + keep_i, Mask::Plain)]
                    } else {
                        Seq::empty()
                    };
                    let here = before + seq![(i as int, i + v_len, mask)];
                    assert(special_pieces(s@, sp, unk@, i as int, seg as int) == here + special_pieces(
                        s@,
                        sp,
                        unk@,
                        i + v_len,
                        i + v_len,
                    ));
                    done_pieces = done_pieces + here;
                    assert(target =~= done_pieces + special_pieces(s@, sp, unk@, i + v_len, i + v_len));
                    assert(token_views(out@) =~= done_pieces.map_values(
                        |p: (int, int, Mask)| piece_token(token@, p),
                    ));
                }
                i = i + v_len;
                seg = i;
            },
            None => {
                i = i + 1;
            },
        }
    }
    if seg < n {
        let t = Token {
            text: crate::unicode::string_from_chars(&s, seg, n),
            offset: Offset {
                begin: token.offset.begin + seg as u32,
                end: token.offset.begin + n as u32,
            },
            reference_offsets: copy_range(&token.reference_offsets, seg, n),
            mask: Mask::Plain,
        };
        proof {
            lemma_token_views_push(out@, t);
        }
        out.push(t);
        proof {
            assert(t@ == piece_token(token@, (seg as int, n as int, Mask::Plain)));
            done_pieces = done_pieces.push((seg as int, n as int, Mask::Plain));
        }
    }
    proof {
        assert(target =~= done_pieces);
        assert(token_views(out@) =~= done_pieces.map_values(
            |p: (int, int, Mask)| piece_token(token@, p),
        ));
    }
    out
}

/// Whether two character vectors hold the same characters.
pub fn vec_chars_eq(a: &Vec<char>, b: &Vec<char>) -> (r: bool)
    ensures
        r == (a@ == b@),
{
    if a.len() != b.len() {
        return false;
    }
    let mut k: usize = 0;
    while k < a.len()
        invariant
            k <= a.len(),
            a.len() == b.len(),
            forall|j: int| 0 <= j < k ==> a@[j] == b@[j],
        decreases a.len() - k,
    {
        if a[k] != b[k] {
            return false;
        }
        k = k + 1;
    }
    assert(a@ =~= b@);
    true
}

/// Every lookahead match covers at least two characters: a white-space run
/// and the character after it.
pub open spec fn hits_ok(hits: Seq<(int, int)>) -> bool {
    forall|k: int| 0 <= k < hits.len() ==> (#[trigger] hits[k]).1 - hits[k].0 >= 2
}

/// The pieces that the lookahead matches cut a text of `n` characters into:
/// each match ends a piece just before its last white-space character.
pub open spec fn lookahead_cuts(hits: Seq<(int, int)>, n: int) -> Seq<(int, int)> {
    Seq::new(
        hits.len() + 1,
        |k: int|
            (
                if k == 0 {
                    0
                } else {
                    hits[k - 1].1 - 2
                },
                if k < hits.len() {
                    hits[k].1 - 2
                } else {
                    n
                },
            ),
    )
}

/// The words that the tokenization expression `source` finds in the piece
/// `p` of `text`.
pub open spec fn piece_words(text: Seq<char>, source: Seq<char>, p: (int, int)) -> Seq<Seq<char>> {
    let pt = text.subrange(p.0, p.1);
    char_spans(pt, regex_match_spans(source, pt)).map_values(
        |w: (int, int)| pt.subrange(w.0, w.1),
    )
}

/// All words of all pieces, in order.
pub open spec fn all_words(text: Seq<char>, source: Seq<char>, cuts: Seq<(int, int)>) -> Seq<
    Seq<char>,
> {
    cuts.map_values(|p: (int, int)| piece_words(text, source, p)).flatten()
}

/// The token for word `k`: words are laid end to end from the token's start.
pub open spec fn word_token(token: TokenView, words: Seq<Seq<char>>, k: int) -> TokenView {
    let b = piece_start(words, k);
    let e = b + words[k].len();
    TokenView {
        text: words[k],
        offset: Offset {
            begin: (token.offset.begin + b) as OffsetSize,
            end: (token.offset.begin + e) as OffsetSize,
        },
        reference_offsets: token.reference_offsets.subrange(b, e),
        mask: Mask::Plain,
    }
}

/// A plain token cut into words: first the lookahead expression splits it
/// before the last white-space character of every white-space run that
/// precedes a non-space, then the tokenization expression finds the words of
/// each piece. A token that is not plain is kept. So is a token for which the
/// matches do not fit: a lookahead match shorter than two characters, or
/// words longer in total than the token's positions.
pub open spec fn spec_split_on_regex(
    token: TokenView,
    lookahead: Seq<char>,
    tokenization: Seq<char>,
) -> Seq<TokenView> {
    if token.mask != Mask::Plain {
        seq![token]
    } else {
        let hits = char_spans(token.text, regex_match_spans(lookahead, token.text));
        if !hits_ok(hits) {
            seq![token]
        } else {
            let words = all_words(
                token.text,
                tokenization,
                lookahead_cuts(hits, token.text.len() as int),
            );
            let total = words.flatten().len();
            if total > token.reference_offsets.len() || token.offset.begin + total > u32::MAX {
                seq![token]
            } else {
                Seq::new(words.len(), |k: int| word_token(token, words, k))
            }
        }
    }
}

/// The words the tokenization expression finds in `chars[from..to]`.
fn words_of_piece(chars: &Vec<char>, from: usize, to: usize, tokenization: &Pattern) -> (r: Vec<
    String,
>)
    requires
        from <= to <= chars.len(),
    ensures
        string_views(r@) == piece_words(chars@, tokenization.source(), (from as int, to as int)),
{
    let piece = crate::unicode::string_from_chars(chars, from, to);
    let pchars = chars_of(piece.as_str());
    let spans = find_spans(tokenization, piece.as_str());
    let cs = to_char_spans(&pchars, &spans);
    let ghost pt = chars@.subrange(from as int, to as int);
    let ghost target = piece_words(chars@, tokenization.source(), (from as int, to as int));
    let mut out: Vec<String> = Vec::with_capacity(cs.len());
    let mut k: usize = 0;
    while k < cs.len()
        invariant
            from <= to <= chars.len(),
            pchars@ == pt,
            pt == chars@.subrange(from as int, to as int),
            target == piece_words(chars@, tokenization.source(), (from as int, to as int)),
            target.len() == cs@.len(),
            forall|j: int|
                0 <= j < cs@.len() ==> ((#[trigger] cs@[j]).0 as int, cs@[j].1 as int) == char_spans(
                    pt,
                    regex_match_spans(tokenization.source(), pt),
                )[j],
            forall|j: int| 0 <= j < cs@.len() ==> (#[trigger] cs@[j]).0 <= cs@[j].1 <= pchars@.len(),
            k <= cs.len(),
            string_views(out@) == target.take(k as int),
        decreases cs.len() - k,
    {
        let (a, b) = cs[k];
        let w = crate::unicode::string_from_chars(&pchars, a, b);
        proof {
            assert(w@ == target[k as int]);
            crate::bpe::lemma_string_views_push(out@, w);
            assert(target.take(k + 1) =~= target.take(k as int).push(target[k as int]));
        }
        out.push(w);
        k = k + 1;
    }
    assert(target.take(k as int) =~= target);
    out
}

/// The character ranges of the lookahead matches in `chars`, when each
/// covers at least two characters; `None` otherwise.
fn lookahead_hits(chars: &Vec<char>, text: &str, pattern: &Pattern) -> (r: Option<Vec<(usize, usize)>>)
    requires
        chars@ == text@,
    ensures
        r is Some <==> hits_ok(char_spans(text@, regex_match_spans(pattern.source(), text@))),
        r matches Some(hits) ==> {
            let hs = char_spans(text@, regex_match_spans(pattern.source(), text@));
            &&& hits@.len() == hs.len()
            &&& forall|j: int|
                0 <= j < hits@.len() ==> ((#[trigger] hits@[j]).0 as int, hits@[j].1 as int)
                    == hs[j]
            &&& forall|j: int| 0 <= j < hits@.len() ==> (#[trigger] hits@[j]).0 <= hits@[j].1 <= chars@.len()
            &&& forall|j: int| 0 <= j < hits@.len() - 1 ==> (#[trigger] hits@[j]).1 <= hits@[j + 1].0
        },
{
    let spans = find_spans(pattern, text);
    let hits = to_char_spans(chars, &spans);
    let ghost hs = char_spans(text@, regex_match_spans(pattern.source(), text@));
    let mut k: usize = 0;
    while k < hits.len()
        invariant
            k <= hits.len(),
            hs == char_spans(text@, regex_match_spans(pattern.source(), text@)),
            hs.len() == hits@.len(),
            forall|j: int|
                0 <= j < hits@.len() ==> ((#[trigger] hits@[j]).0 as int, hits@[j].1 as int)
                    == hs[j],
            forall|j: int| 0 <= j < hits@.len() ==> (#[trigger] hits@[j]).0 <= hits@[j].1,
            forall|j: int| 0 <= j < k ==> (#[trigger] hs[j]).1 - hs[j].0 >= 2,
        decreases hits.len() - k,
    {
        let (a, b) = hits[k];
        if b - a < 2 {
            assert(hs[k as int].1 - hs[k as int].0 < 2);
            assert(!hits_ok(hs));
            return None;
        }
        k = k + 1;
    }
    Some(hits)
}

/// Collects the words of every piece between the lookahead cuts.
fn collect_words(chars: &Vec<char>, hits: &Vec<(usize, usize)>, hs: Ghost<Seq<(int, int)>>, tokenization: &Pattern) -> (r: Vec<String>)
    requires
        hits_ok(hs@),
        hits@.len() == hs@.len(),
        forall|j: int|
            0 <= j < hits@.len() ==> ((#[trigger] hits@[j]).0 as int, hits@[j].1 as int) == hs@[j],
        forall|j: int| 0 <= j < hits@.len() ==> (#[trigger] hits@[j]).0 <= hits@[j].1 <= chars@.len(),
        forall|j: int| 0 <= j < hits@.len() - 1 ==> (#[trigger] hits@[j]).1 <= hits@[j + 1].0,
    ensures
        string_views(r@) == all_words(
            chars@,
            tokenization.source(),
            lookahead_cuts(hs@, chars@.len() as int),
        ),
{
    let n = chars.len();
    let ghost cuts = lookahead_cuts(hs@, n as int);
    let ghost word_lists = cuts.map_values(
        |p: (int, int)| piece_words(chars@, tokenization.source(), p),
    );
    let mut words: Vec<String> = Vec::new();
    let mut i: usize = 0;
    let mut c: usize = 0;
    let h = hits.len();
    while c < h
        invariant
            n == chars.len(),
            h == hits@.len(),
            hits@.len() == hs@.len(),
            hits_ok(hs@),
            forall|j: int|
                0 <= j < hits@.len() ==> ((#[trigger] hits@[j]).0 as int, hits@[j].1 as int) == hs@[j],
            forall|j: int| 0 <= j < hits@.len() ==> (#[trigger] hits@[j]).0 <= hits@[j].1 <= n,
            forall|j: int| 0 <= j < hits@.len() - 1 ==> (#[trigger] hits@[j]).1 <= hits@[j + 1].0,
            cuts == lookahead_cuts(hs@, n as int),
            word_lists == cuts.map_values(
                |p: (int, int)| piece_words(chars@, tokenization.source(), p),
            ),
            c <= h,
            i as int == cuts[c as int].0,
            i <= n,
            c > 0 ==> i + 2 == hits@[c - 1].1,
            c == 0 ==> i == 0,
            string_views(words@) == word_lists.take(c as int).flatten(),
        decreases h - c,
    {
        proof {
            assert(hs@[c as int].1 - hs@[c as int].0 >= 2);
            if c > 0 {
                assert(hits@[c - 1].1 <= hits@[c as int].0);
            }
        }
        let end = hits[c].1 - 2;
        proof {
            assert(cuts[c as int] == (i as int, end as int));
        }
        let ws = words_of_piece(chars, i, end, tokenization);
        append_strings(&mut words, &ws);
        proof {
            assert(word_lists.take(c + 1) =~= word_lists.take(c as int).push(word_lists[c as int]));
            word_lists.take(c as int).lemma_flatten_push(word_lists[c as int]);
        }
        i = end;
        c = c + 1;
    }
    proof {
        assert(cuts[c as int] == (i as int, n as int));
    }
    let ws = words_of_piece(chars, i, n, tokenization);
    append_strings(&mut words, &ws);
    proof {
        assert(word_lists.take(c + 1) =~= word_lists.take(c as int).push(word_lists[c as int]));
        word_lists.take(c as int).lemma_flatten_push(word_lists[c as int]);
        assert(word_lists.take(c + 1) =~= word_lists);
    }
    words
}

/// Appends copies of `more` to `words`.
fn append_strings(words: &mut Vec<String>, more: &Vec<String>)
    ensures
        string_views(final(words)@) == string_views(old(words)@) + string_views(more@),
{
    let ghost before = string_views(words@);
    let mut j: usize = 0;
    while j < more.len()
        invariant
            j <= more.len(),
            string_views(words@) == before + string_views(more@).take(j as int),
        decreases more.len() - j,
    {
        let w = more[j].clone();
        proof {
            crate::bpe::lemma_string_views_push(words@, w);
            assert(before + string_views(more@).take(j + 1) =~= (before + string_views(more@).take(
                j as int,
            )).push(w@));
        }
        words.push(w);
        j = j + 1;
    }
    assert(string_views(more@).take(j as int) =~= string_views(more@));
}

/// Lays the words end to end from the token's start: `None` when they are
/// longer in total than the token's positions or run past `u32::MAX`.
fn lay_out_words(token: &Token, words: &Vec<String>) -> (r: Option<Vec<Token>>)
    ensures
        ({
            let total = string_views(words@).flatten().len();
            &&& r is None <==> (total > token.reference_offsets@.len() || token.offset.begin + total
                > u32::MAX)
            &&& r matches Some(v) ==> token_views(v@) == Seq::new(
                words@.len(),
                |k: int| word_token(token@, string_views(words@), k),
            )
        }),
{
    let ghost ws_all = string_views(words@);
    let m = words.len();
    let nrefs = token.reference_offsets.len();
    let mut total: usize = 0;
    let mut k: usize = 0;
    while k < m
        invariant
            m == words@.len(),
            ws_all == string_views(words@),
            nrefs == token.reference_offsets@.len(),
            k <= m,
            total as int == piece_start(ws_all, k as int),
            total <= nrefs,
        decreases m - k,
    {
        proof {
            lemma_piece_start_step(ws_all, k as int);
        }
        let len = words[k].as_str().unicode_len();
        if len > nrefs - total {
            return None;
        }
        total = total + len;
        k = k + 1;
    }
    proof {
        assert(ws_all.take(m as int) =~= ws_all);
    }
    if total as u64 > u32::MAX as u64 - token.offset.begin as u64 {
        return None;
    }
    let ghost target = Seq::new(ws_all.len(), |k: int| word_token(token@, ws_all, k));
    let mut out: Vec<Token> = Vec::with_capacity(m);
    let mut b: usize = 0;
    let mut k: usize = 0;
    while k < m
        invariant
            m == words@.len(),
            ws_all == string_views(words@),
            nrefs == token.reference_offsets@.len(),
            total as int == ws_all.flatten().len(),
            total <= nrefs,
            token.offset.begin + total <= u32::MAX,
            k <= m,
            b as int == piece_start(ws_all, k as int),
            target == Seq::new(ws_all.len(), |k: int| word_token(token@, ws_all, k)),
            token_views(out@) == target.take(k as int),
        decreases m - k,
    {
        proof {
            lemma_piece_start_step(ws_all, k as int);
        }
        let len = words[k].as_str().unicode_len();
        let e = b + len;
        let t = Token {
            text: words[k].clone(),
            offset: Offset {
                begin: token.offset.begin + b as u32,
                end: token.offset.begin + e as u32,
            },
            reference_offsets: copy_range(&token.reference_offsets, b, e),
            mask: Mask::Plain,
        };
        proof {
            assert(t@ == word_token(token@, ws_all, k as int));
            lemma_token_views_push(out@, t);
            assert(target.take(k + 1) =~= target.take(k as int).push(target[k as int]));
        }
        out.push(t);
        b = e;
        k = k + 1;
    }
    assert(target.take(m as int) =~= target);
    Some(out)
}

/// Cuts a token into words with the lookahead and tokenization expressions;
/// see `spec_split_on_regex`.
pub fn split_on_regex_with_lookahead(
    token: &Token,
    pattern_lookahead: &Pattern,
    pattern_tokenization: &Pattern,
) -> (r: Vec<Token>)
    ensures
        token_views(r@) == spec_split_on_regex(
            token@,
            pattern_lookahead.source(),
            pattern_tokenization.source(),
        ),
{
    let ghost target = spec_split_on_regex(
        token@,
        pattern_lookahead.source(),
        pattern_tokenization.source(),
    );
    if token.mask != Mask::Plain {
        let r = vec![token.duplicate()];
        assert(token_views(r@) =~= target);
        return r;
    }
    let chars = chars_of(token.text.as_str());
    let ghost hs = char_spans(token.text@, regex_match_spans(pattern_lookahead.source(), token.text@));
    match lookahead_hits(&chars, token.text.as_str(), pattern_lookahead) {
        None => {
            let r = vec![token.duplicate()];
            assert(token_views(r@) =~= target);
            r
        },
        Some(hits) => {
            let words = collect_words(&chars, &hits, Ghost(hs), pattern_tokenization);
            match lay_out_words(token, &words) {
                None => {
                    let r = vec![token.duplicate()];
                    assert(token_views(r@) =~= target);
                    r
                },
                Some(r) => r,
            }
        },
    }
}

/// The token has a position for each character, and every position is
/// below `bound`.
pub open spec fn refs_fit(t: TokenView, bound: int) -> bool {
    &&& t.reference_offsets.len() >= t.text.len()
    &&& forall|i: int|
        0 <= i < t.reference_offsets.len() ==> (#[trigger] t.reference_offsets[i] as int) < bound
}

/// Every piece of `special_pieces` lies within the text.
pub proof fn lemma_special_pieces_in_range(
    s: Seq<char>,
    specials: Seq<Seq<char>>,
    unk: Seq<char>,
    i: int,
    seg: int,
)
    requires
        0 <= seg <= i,
        seg <= s.len(),
    ensures
        forall|k: int|
            0 <= k < special_pieces(s, specials, unk, i, seg).len() ==> {
                let p = #[trigger] special_pieces(s, specials, unk, i, seg)[k];
                0 <= p.0 <= p.1 <= s.len()
            },
    decreases s.len() - i,
{
    let all = special_pieces(s, specials, unk, i, seg);
    if i >= s.len() || i < 0 {
        assert forall|k: int| 0 <= k < all.len() implies {
            let p = #[trigger] all[k];
            0 <= p.0 <= p.1 <= s.len()
        } by {}
    } else {
        let found = first_prefix(specials, s.skip(i));
        if found is Some && found->0.len() > 0 {
            let v = found->0;
            lemma_first_prefix(specials, s.skip(i));
            assert(v.len() <= s.len() - i);
            lemma_trim_end_len_bound(s.subrange(seg, i));
            lemma_special_pieces_in_range(s, specials, unk, i + v.len(), i + v.len());
            let keep = trim_end_len(s.subrange(seg, i)) as int;
            let before: Seq<(int, int, Mask)> = if keep > 0 {
                seq![(seg, seg + keep, Mask::Plain)]
            } else {
                Seq::empty()
            };
            let mask = if v == unk {
                Mask::Unknown
            } else {
                Mask::Special
            };
            let head = before + seq![(i, i + v.len(), mask)];
            let rest = special_pieces(s, specials, unk, i + v.len(), i + v.len());
            assert(all == head + rest);
            assert forall|k: int| 0 <= k < all.len() implies {
                let p = #[trigger] all[k];
                0 <= p.0 <= p.1 <= s.len()
            } by {
                if k >= head.len() {
                    assert(all[k] == rest[k - head.len()]);
                }
            }
        } else {
            lemma_special_pieces_in_range(s, specials, unk, i + 1, seg);
            assert(all == special_pieces(s, specials, unk, i + 1, seg));
        }
    }
}

/// Cutting at special values keeps positions in range.
pub proof fn lemma_special_split_fits(token: TokenView, specials: Seq<Seq<char>>, unk: Seq<char>, bound: int)
    requires
        refs_fit(token, bound),
    ensures
        forall|k: int|
            0 <= k < spec_split_on_special_tokens(token, specials, unk).len() ==> refs_fit(
                #[trigger] spec_split_on_special_tokens(token, specials, unk)[k],
                bound,
            ),
{
    lemma_special_pieces_in_range(token.text, specials, unk, 0, 0);
}

/// Lower-casing gives one position per character, taken from the token's.
pub proof fn lemma_lower_refs(chars: Seq<char>, refs: Seq<OffsetSize>)
    requires
        chars.len() <= refs.len(),
    ensures
        lower_refs(chars, refs).len() == lower_text(chars).len(),
        forall|i: int|
            0 <= i < lower_refs(chars, refs).len() ==> exists|j: int|
                0 <= j < chars.len() && #[trigger] lower_refs(chars, refs)[i] == refs[j],
    decreases chars.len(),
{
    if chars.len() > 0 {
        lemma_lower_refs(chars.drop_last(), refs);
        let prev = lower_refs(chars.drop_last(), refs);
        assert forall|i: int| 0 <= i < lower_refs(chars, refs).len() implies exists|j: int|
            0 <= j < chars.len() && #[trigger] lower_refs(chars, refs)[i] == refs[j] by {
            if i < prev.len() {
                let j = choose|j: int| 0 <= j < chars.drop_last().len() && prev[j] == refs[j] && prev[i] == refs[j];
                let j2 = choose|j: int| 0 <= j < chars.drop_last().len() && prev[i] == refs[j];
                assert(lower_refs(chars, refs)[i] == prev[i]);
                assert(0 <= j2 < chars.len() && lower_refs(chars, refs)[i] == refs[j2]);
            } else {
                assert(lower_refs(chars, refs)[i] == refs[chars.len() - 1]);
            }
        }
    }
}

/// Lower-casing keeps positions in range.
pub proof fn lemma_lowercase_fits(token: TokenView, bound: int)
    requires
        refs_fit(token, bound),
    ensures
        refs_fit(spec_lowercase(token), bound),
{
    let n = zipped_len(token);
    lemma_lower_refs(token.text.take(n), token.reference_offsets);
    let l = spec_lowercase(token);
    assert forall|i: int| 0 <= i < l.reference_offsets.len() implies (
    #[trigger] l.reference_offsets[i] as int) < bound by {
        let j = choose|j: int|
            0 <= j < token.text.take(n).len() && l.reference_offsets[i] == token.reference_offsets[j];
    }
}

/// Cutting into words keeps positions in range.
pub proof fn lemma_regex_split_fits(token: TokenView, la: Seq<char>, tk: Seq<char>, bound: int)
    requires
        refs_fit(token, bound),
    ensures
        forall|k: int|
            0 <= k < spec_split_on_regex(token, la, tk).len() ==> refs_fit(
                #[trigger] spec_split_on_regex(token, la, tk)[k],
                bound,
            ),
{
    let out = spec_split_on_regex(token, la, tk);
    if token.mask == Mask::Plain {
        let hits = char_spans(token.text, regex_match_spans(la, token.text));
        if hits_ok(hits) {
            let words = all_words(token.text, tk, lookahead_cuts(hits, token.text.len() as int));
            let total = words.flatten().len();
            if !(total > token.reference_offsets.len() || token.offset.begin + total > u32::MAX) {
                assert forall|k: int| 0 <= k < out.len() implies refs_fit(#[trigger] out[k], bound) by {
                    lemma_piece_start_step(words, k);
                    let b = piece_start(words, k);
                    let e = b + words[k].len();
                    assert(out[k] == word_token(token, words, k));
                    assert forall|i: int| 0 <= i < out[k].reference_offsets.len() implies (
                    #[trigger] out[k].reference_offsets[i] as int) < bound by {
                        assert(out[k].reference_offsets[i] == token.reference_offsets[b + i]);
                    }
                }
            }
        }
    }
}

/// Cutting into BPE pieces keeps positions in range.
pub proof fn lemma_bpe_split_fits(token: TokenView, m: Map<(Seq<char>, Seq<char>), i64>, bound: int)
    requires
        refs_fit(token, bound),
    ensures
        forall|k: int|
            0 <= k < spec_split_on_bpe_pairs(token.text, token.reference_offsets, m).len()
                ==> refs_fit(
                #[trigger] spec_split_on_bpe_pairs(token.text, token.reference_offsets, m)[k],
                bound,
            ),
        forall|k: int|
            0 <= k < spec_split_on_bpe_pairs(token.text, token.reference_offsets, m).len()
                ==> (#[trigger] spec_split_on_bpe_pairs(token.text, token.reference_offsets, m)[k]).reference_offsets.len() > 0,
{
    let out = spec_split_on_bpe_pairs(token.text, token.reference_offsets, m);
    let text = byte_text(token.text);
    let offs = byte_refs(token.text, token.reference_offsets);
    let pieces = spec_bpe(singletons(text), m);
    lemma_byte_refs_len(token.text, token.reference_offsets);
    lemma_singletons_flatten(text);
    lemma_bpe_keeps_text(singletons(text), m);
    lemma_bpe_nonempty(singletons(text), m);
    assert forall|k: int| 0 <= k < out.len() implies refs_fit(#[trigger] out[k], bound)
        && out[k].reference_offsets.len() > 0 by {
        lemma_piece_start_step(pieces, k);
        let st = piece_start(pieces, k);
        assert(out[k] == bpe_piece_token(pieces, offs, k));
        assert(pieces[k].len() > 0);
        assert forall|i: int| 0 <= i < out[k].reference_offsets.len() implies (
        #[trigger] out[k].reference_offsets[i] as int) < bound by {
            assert(out[k].reference_offsets[i] == offs[st + i]);
            let j = choose|j: int| 0 <= j < token.text.len() && offs[st + i] == token.reference_offsets[j];
        }
    }
}

} // verus!
