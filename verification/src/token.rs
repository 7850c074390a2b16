//! Tokens, their offsets into the original text, and the records that the
//! tokenizer hands out.

use vstd::prelude::*;

verus! {

/// Character positions are counted in `u32`.
pub type OffsetSize = u32;

/// A half-open range `[begin, end)` of character positions in the original
/// text.
#[derive(Clone, Copy, Debug, PartialEq, Eq, Structural)]
pub struct Offset {
    pub begin: OffsetSize,
    pub end: OffsetSize,
}

impl Offset {
    /// A new offset range.
    pub fn new(begin: OffsetSize, end: OffsetSize) -> (r: Offset)
        ensures
            r == (Offset { begin, end }),
    {
        Offset { begin, end }
    }
}

/// What a token is: plain text, one piece of a word cut by BPE, or a special
/// or unknown vocabulary entry.
#[derive(Clone, Copy, Debug, PartialEq, Eq, Structural)]
pub enum Mask {
    Plain,
    Whitespace,
    Punctuation,
    CJK,
    Special,
    Begin,
    Continuation,
    Unknown,
    InexactBegin,
}

/// A token: its text, its range in the original text, the original position
/// of each of its characters, and its kind.
#[derive(Debug, PartialEq, Eq)]
pub struct Token {
    pub text: String,
    pub offset: Offset,
    pub reference_offsets: Vec<OffsetSize>,
    pub mask: Mask,
}

/// A token as a mathematical value.
pub struct TokenView {
    pub text: Seq<char>,
    pub offset: Offset,
    pub reference_offsets: Seq<OffsetSize>,
    pub mask: Mask,
}

impl View for Token {
    type V = TokenView;

    open spec fn view(&self) -> TokenView {
        TokenView {
            text: self.text@,
            offset: self.offset,
            reference_offsets: self.reference_offsets@,
            mask: self.mask,
        }
    }
}

/// The views of a sequence of tokens.
pub open spec fn token_views(tokens: Seq<Token>) -> Seq<TokenView> {
    tokens.map_values(|t: Token| t@)
}

/// The views of a sequence of vectors.
pub open spec fn vec_views<T>(v: Seq<Vec<T>>) -> Seq<Seq<T>> {
    v.map_values(|x: Vec<T>| x@)
}

/// The views of a sequence of strings.
pub open spec fn string_views(v: Seq<String>) -> Seq<Seq<char>> {
    v.map_values(|x: String| x@)
}

impl Token {
    /// A token that covers the whole text `text`, with one original position
    /// per character: `0, 1, 2, ...`.
    pub fn new(text: String) -> (r: Token)
        requires
            text@.len() < u32::MAX,
        ensures
            r.text@ == text@,
            r.offset == (Offset { begin: 0, end: text@.len() as u32 }),
            r.reference_offsets@ == Seq::new(text@.len(), |i: int| i as u32),
            r.mask == Mask::Plain,
    {
        let n = text.as_str().unicode_len();
        let mut offsets: Vec<OffsetSize> = Vec::with_capacity(n);
        let mut i: usize = 0;
        while i < n
            invariant
                n == text@.len(),
                n < u32::MAX,
                i <= n,
                offsets@ == Seq::new(i as nat, |k: int| k as u32),
            decreases n - i,
        {
            offsets.push(i as u32);
            i = i + 1;
            assert(offsets@ =~= Seq::new(i as nat, |k: int| k as u32));
        }
        assert(offsets@ =~= Seq::new(text@.len(), |k: int| k as u32));
        Token {
            text,
            offset: Offset { begin: 0, end: n as u32 },
            reference_offsets: offsets,
            mask: Mask::Plain,
        }
    }

    /// A copy of this token.
    pub fn duplicate(&self) -> (r: Token)
        ensures
            r@ == self@,
    {
        Token {
            text: self.text.clone(),
            offset: self.offset,
            reference_offsets: self.reference_offsets.clone(),
            mask: self.mask,
        }
    }
}

/// The masks after a continuation piece has marked the plain token just
/// before it as the beginning of a word.
pub open spec fn spec_fix_masks(masks: Seq<Mask>) -> Seq<Mask> {
    Seq::new(
        masks.len(),
        |j: int|
            if masks[j] == Mask::Plain && j + 1 < masks.len() && masks[j + 1] == Mask::Continuation {
                Mask::Begin
            } else {
                masks[j]
            },
    )
}

/// Marks as `Begin` every plain token that is followed by a continuation
/// piece; everything else is kept.
pub fn fix_mask(tokens: &mut Vec<Token>)
    ensures
        final(tokens)@.len() == old(tokens)@.len(),
        forall|j: int|
            0 <= j < old(tokens)@.len() ==> {
                &&& (#[trigger] final(tokens)@[j]).text == old(tokens)@[j].text
                &&& final(tokens)@[j].offset == old(tokens)@[j].offset
                &&& final(tokens)@[j].reference_offsets == old(tokens)@[j].reference_offsets
                &&& final(tokens)@[j].mask == spec_fix_masks(
                    old(tokens)@.map_values(|t: Token| t.mask),
                )[j]
            },
{
    let ghost orig = tokens@;
    let ghost masks = orig.map_values(|t: Token| t.mask);
    let n = tokens.len();
    let mut i: usize = 1;
    while i < n
        invariant
            n == orig.len(),
            tokens@.len() == n,
            1 <= i <= n || n == 0,
            masks == orig.map_values(|t: Token| t.mask),
            forall|j: int|
                0 <= j < n ==> {
                    &&& (#[trigger] tokens@[j]).text == orig[j].text
                    &&& tokens@[j].offset == orig[j].offset
                    &&& tokens@[j].reference_offsets == orig[j].reference_offsets
                },
            forall|j: int|
                0 <= j < n ==> (#[trigger] tokens@[j]).mask == (if j + 1 < i {
                    spec_fix_masks(masks)[j]
                } else {
                    masks[j]
                }),
        decreases n - i,
    {
        if tokens[i].mask == Mask::Continuation && tokens[i - 1].mask == Mask::Plain {
            tokens[i - 1].mask = Mask::Begin;
        }
        i = i + 1;
    }
    proof {
        assert forall|j: int| 0 <= j < n implies (#[trigger] tokens@[j]).mask == spec_fix_masks(
            masks,
        )[j] by {
            if j + 1 >= i {
                assert(j + 1 >= n);
            }
        }
    }
}

/// Tokens with their offsets, as `tokenize_with_offsets` gives them.
#[derive(Debug, PartialEq, Eq)]
pub struct TokensWithOffsets {
    pub tokens: Vec<String>,
    pub offsets: Vec<Option<Offset>>,
    pub reference_offsets: Vec<Vec<OffsetSize>>,
    pub masks: Vec<Mask>,
}

/// Token ids with their offsets.
#[derive(Debug, PartialEq, Eq)]
pub struct TokenIdsWithOffsets {
    pub ids: Vec<i64>,
    pub offsets: Vec<Option<Offset>>,
    pub reference_offsets: Vec<Vec<OffsetSize>>,
    pub masks: Vec<Mask>,
}

/// Token ids of one or two sequences with the special tokens around them.
#[derive(Debug, PartialEq, Eq)]
pub struct TokenIdsWithSpecialTokens {
    pub token_ids: Vec<i64>,
    pub segment_ids: Vec<i8>,
    pub special_tokens_mask: Vec<i8>,
    pub token_offsets: Vec<Option<Offset>>,
    pub reference_offsets: Vec<Vec<OffsetSize>>,
    pub mask: Vec<Mask>,
}

/// An encoded input, ready for a model.
#[derive(Debug, PartialEq, Eq)]
pub struct TokenizedInput {
    pub token_ids: Vec<i64>,
    pub segment_ids: Vec<i8>,
    pub special_tokens_mask: Vec<i8>,
    pub overflowing_tokens: Vec<i64>,
    pub num_truncated_tokens: usize,
    pub token_offsets: Vec<Option<Offset>>,
    pub reference_offsets: Vec<Vec<OffsetSize>>,
    pub mask: Vec<Mask>,
}

/// Token ids with offsets, as values.
#[verifier::ext_equal]
pub struct IdsView {
    pub ids: Seq<i64>,
    pub offsets: Seq<Option<Offset>>,
    pub reference_offsets: Seq<Seq<OffsetSize>>,
    pub masks: Seq<Mask>,
}

impl View for TokenIdsWithOffsets {
    type V = IdsView;

    open spec fn view(&self) -> IdsView {
        IdsView {
            ids: self.ids@,
            offsets: self.offsets@,
            reference_offsets: vec_views(self.reference_offsets@),
            masks: self.masks@,
        }
    }
}

/// Token ids with special tokens, as values.
#[verifier::ext_equal]
pub struct SpecialIdsView {
    pub token_ids: Seq<i64>,
    pub segment_ids: Seq<i8>,
    pub special_tokens_mask: Seq<i8>,
    pub token_offsets: Seq<Option<Offset>>,
    pub reference_offsets: Seq<Seq<OffsetSize>>,
    pub mask: Seq<Mask>,
}

impl View for TokenIdsWithSpecialTokens {
    type V = SpecialIdsView;

    open spec fn view(&self) -> SpecialIdsView {
        SpecialIdsView {
            token_ids: self.token_ids@,
            segment_ids: self.segment_ids@,
            special_tokens_mask: self.special_tokens_mask@,
            token_offsets: self.token_offsets@,
            reference_offsets: vec_views(self.reference_offsets@),
            mask: self.mask@,
        }
    }
}

/// `n` copies of `x`.
pub open spec fn fill<T>(n: nat, x: T) -> Seq<T> {
    Seq::new(n, |i: int| x)
}

} // verus!
