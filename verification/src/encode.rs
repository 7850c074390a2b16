//! Encoding texts to model inputs: token ids, truncation to a maximum
//! length, and the special tokens around the sequences.

use vstd::prelude::*;
use crate::tokenizer::GptNeoXTokenizer;
use crate::vocab::TokenizerError;
use crate::token::{
    IdsView, Mask, Offset, OffsetSize, TokenIdsWithOffsets, TokenizedInput, vec_views,
};

verus! {

/// How to shorten sequences that are too long.
#[derive(Clone, Copy, Debug, PartialEq, Eq, Structural)]
pub enum TruncationStrategy {
    /// Remove one token at a time from the longer sequence.
    LongestFirst,
    /// Remove tokens from the first sequence only.
    OnlyFirst,
    /// Remove tokens from the second sequence only.
    OnlySecond,
    /// Do not remove tokens: a sequence that is too long is an error.
    DoNotTruncate,
}

/// Why truncation could not be done.
#[derive(Clone, Copy, Debug, PartialEq, Eq, Structural)]
pub enum TruncationFailure {
    /// Both sequences together are shorter than the amount to remove.
    CombinedTooShort,
    /// The first sequence is shorter than the amount to remove.
    FirstTooShort,
    /// The second sequence is shorter than the amount to remove.
    SecondTooShort,
    /// Only the second sequence may be cut, but there is only one.
    SingleSequenceOnlySecond,
    /// Truncation is needed but was not asked for.
    NotRequested,
}

/// A sequence as values, with its ids, offsets, positions and masks.
pub open spec fn ids_view(ids: Seq<i64>, offsets: Seq<Option<Offset>>, refs: Seq<Seq<OffsetSize>>, masks: Seq<Mask>) -> IdsView {
    IdsView { ids, offsets, reference_offsets: refs, masks }
}

/// The fields of a sequence agree in length (offsets and masks may also be
/// left empty).
pub open spec fn consistent(t: IdsView) -> bool {
    &&& t.offsets.len() == 0 || t.offsets.len() == t.ids.len()
    &&& t.masks.len() == 0 || t.masks.len() == t.ids.len()
    &&& t.reference_offsets.len() == t.ids.len()
}

/// The last `min(n, s.len())` items of `s`.
pub open spec fn last_items<T>(s: Seq<T>, n: int) -> Seq<T> {
    let w = if n < s.len() { n } else { s.len() as int };
    s.subrange(s.len() - w, s.len() as int)
}

/// One sequence cut to its first `cutoff` ids, with what was cut off: the
/// overflowing ids and offsets, each preceded by the `stride` items before
/// the cut. Positions and masks are cut only when there are masks.
pub open spec fn cut_sequence(t: IdsView, cutoff: int, stride: int) -> (IdsView, Seq<i64>, Seq<Option<Offset>>) {
    let has_offsets = t.offsets.len() > 0;
    let has_masks = t.masks.len() > 0;
    let kept = IdsView {
        ids: t.ids.take(cutoff),
        offsets: if has_offsets { t.offsets.take(cutoff) } else { t.offsets },
        reference_offsets: if has_masks { t.reference_offsets.take(cutoff) } else { t.reference_offsets },
        masks: if has_masks { t.masks.take(cutoff) } else { t.masks },
    };
    let overflow = last_items(t.ids.take(cutoff), stride) + t.ids.skip(cutoff);
    let overflow_offsets = if has_offsets {
        last_items(t.offsets.take(cutoff), stride) + t.offsets.skip(cutoff)
    } else {
        Seq::empty()
    };
    (kept, overflow, overflow_offsets)
}

/// Removes the last token of a sequence: its id, and its offset, position
/// and mask where it has them.
pub open spec fn drop_last_token(t: IdsView) -> IdsView {
    IdsView {
        ids: t.ids.drop_last(),
        offsets: if t.offsets.len() > 0 { t.offsets.drop_last() } else { t.offsets },
        reference_offsets: if t.reference_offsets.len() > 0 {
            t.reference_offsets.drop_last()
        } else {
            t.reference_offsets
        },
        masks: if t.masks.len() > 0 { t.masks.drop_last() } else { t.masks },
    }
}

/// `n` steps of longest-first truncation of a pair: each step removes the
/// last token of the longer sequence (the first on a tie), and the removed
/// ids and offsets are gathered in their original order.
pub open spec fn longest_first(a: IdsView, b: IdsView, n: nat) -> (IdsView, IdsView, Seq<i64>, Seq<Option<Offset>>)
    decreases n,
{
    if n == 0 {
        (a, b, Seq::empty(), Seq::empty())
    } else {
        let (a1, b1, over, over_offs) = longest_first(a, b, (n - 1) as nat);
        if a1.ids.len() >= b1.ids.len() {
            (
                drop_last_token(a1),
                b1,
                seq![a1.ids.last()] + over,
                if a1.offsets.len() > 0 { seq![a1.offsets.last()] + over_offs } else { over_offs },
            )
        } else {
            (
                a1,
                drop_last_token(b1),
                seq![b1.ids.last()] + over,
                if b1.offsets.len() > 0 { seq![b1.offsets.last()] + over_offs } else { over_offs },
            )
        }
    }
}

/// The result of truncating `t1` (and `t2`) by `n` tokens: the kept
/// sequences, the overflowing ids and their offsets; or why it failed.
pub open spec fn spec_truncate(
    t1: IdsView,
    t2: Option<IdsView>,
    n: nat,
    strategy: TruncationStrategy,
    stride: nat,
) -> Result<(IdsView, Option<IdsView>, Seq<i64>, Seq<Option<Offset>>), TruncationFailure> {
    if n == 0 {
        Ok((t1, t2, Seq::empty(), Seq::empty()))
    } else {
        match t2 {
            Some(b) => match strategy {
                TruncationStrategy::LongestFirst => if t1.ids.len() + b.ids.len() >= n {
                    let (a1, b1, over, over_offs) = longest_first(t1, b, n);
                    let window = last_items(a1.ids, stride as int);
                    let window_offs = if a1.offsets.len() > 0 {
                        last_items(a1.offsets, stride as int)
                    } else {
                        Seq::empty()
                    };
                    Ok((a1, Some(b1), window + over, window_offs + over_offs))
                } else {
                    Err(TruncationFailure::CombinedTooShort)
                },
                TruncationStrategy::OnlyFirst => if t1.ids.len() >= n {
                    let (a1, over, over_offs) = cut_sequence(t1, t1.ids.len() - n, stride as int);
                    Ok((a1, Some(b), over, over_offs))
                } else {
                    Err(TruncationFailure::FirstTooShort)
                },
                TruncationStrategy::OnlySecond => if b.ids.len() >= n {
                    let (b1, over, over_offs) = cut_sequence(b, b.ids.len() - n, stride as int);
                    Ok((t1, Some(b1), over, over_offs))
                } else {
                    Err(TruncationFailure::SecondTooShort)
                },
                TruncationStrategy::DoNotTruncate => Err(TruncationFailure::NotRequested),
            },
            None => if t1.ids.len() >= n {
                match strategy {
                    TruncationStrategy::LongestFirst | TruncationStrategy::OnlyFirst => {
                        let (a1, over, over_offs) = cut_sequence(t1, t1.ids.len() - n, stride as int);
                        Ok((a1, None, over, over_offs))
                    },
                    TruncationStrategy::OnlySecond => Err(TruncationFailure::SingleSequenceOnlySecond),
                    TruncationStrategy::DoNotTruncate => Err(TruncationFailure::NotRequested),
                }
            } else {
                Err(TruncationFailure::FirstTooShort)
            },
        }
    }
}

fn take_items<T: Copy>(v: &Vec<T>, from: usize, to: usize) -> (r: Vec<T>)
    requires
        from <= to <= v.len(),
    ensures
        r@ == v@.subrange(from as int, to as int),
{
    let mut r: Vec<T> = Vec::with_capacity(to - from);
    let mut i = from;
    while i < to
        invariant
            from <= i <= to <= v.len(),
            r@ == v@.subrange(from as int, i as int),
        decreases to - i,
    {
        r.push(v[i]);
        i = i + 1;
        assert(r@ =~= v@.subrange(from as int, i as int));
    }
    r
}

/// Cuts a sequence to its first `cutoff` ids; see `cut_sequence`.
fn truncate_with_overflow(t: TokenIdsWithOffsets, cutoff: usize, stride: usize) -> (r: (TokenIdsWithOffsets, Vec<i64>, Vec<Option<Offset>>))
    requires
        consistent(t@),
        cutoff <= t.ids.len(),
    ensures
        (r.0@, r.1@, r.2@) == cut_sequence(t@, cutoff as int, stride as int),
{
    let ghost tv = t@;
    let mut t = t;
    let has_offsets = t.offsets.len() > 0;
    let has_masks = t.masks.len() > 0;
    let start = if stride > cutoff { 0 } else { cutoff - stride };
    let mut overflow = take_items(&t.ids, start, cutoff);
    let tail = t.ids.split_off(cutoff);
    let mut tail = tail;
    overflow.append(&mut tail);
    let mut overflow_offsets: Vec<Option<Offset>> = Vec::new();
    if has_offsets {
        overflow_offsets = take_items(&t.offsets, start, cutoff);
        let mut otail = t.offsets.split_off(cutoff);
        overflow_offsets.append(&mut otail);
    }
    if has_masks {
        t.masks.truncate(cutoff);
        t.reference_offsets.truncate(cutoff);
    }
    proof {
        let w = if (stride as int) < cutoff { stride as int } else { cutoff as int };
        assert(start == cutoff - w);
        assert(overflow@ =~= last_items(tv.ids.take(cutoff as int), stride as int) + tv.ids.skip(cutoff as int));
        if has_offsets {
            assert(overflow_offsets@ =~= last_items(tv.offsets.take(cutoff as int), stride as int) + tv.offsets.skip(cutoff as int));
        }
        assert(t.ids@ =~= tv.ids.take(cutoff as int));
        if has_offsets {
            assert(t.offsets@ =~= tv.offsets.take(cutoff as int));
        }
        if has_masks {
            assert(t.masks@ =~= tv.masks.take(cutoff as int));
            assert(vec_views(t.reference_offsets@) =~= tv.reference_offsets.take(cutoff as int));
        }
    }
    (t, overflow, overflow_offsets)
}

/// Removes the last token of a sequence; see `drop_last_token`. Returns the
/// removed id and, when the sequence has offsets, the removed offset.
fn pop_token(t: &mut TokenIdsWithOffsets) -> (r: (i64, Option<Option<Offset>>))
    requires
        old(t).ids.len() > 0,
    ensures
        final(t)@ == drop_last_token(old(t)@),
        r.0 == old(t)@.ids.last(),
        old(t)@.offsets.len() > 0 ==> r.1 == Some(old(t)@.offsets.last()),
        old(t)@.offsets.len() == 0 ==> r.1 is None,
{
    let ghost tv = t@;
    let id = t.ids.pop().unwrap();
    let off = if t.offsets.len() > 0 {
        Some(t.offsets.pop().unwrap())
    } else {
        None
    };
    let ghost before_refs = t.reference_offsets@;
    if t.reference_offsets.len() > 0 {
        t.reference_offsets.pop();
        assert(vec_views(t.reference_offsets@) =~= vec_views(before_refs).drop_last());
    }
    if t.masks.len() > 0 {
        t.masks.pop();
    }
    assert(t@ =~= drop_last_token(tv));
    (id, off)
}

/// Longest-first truncation of a pair by `n` tokens; see `longest_first`.
fn truncate_longest_first(a: TokenIdsWithOffsets, b: TokenIdsWithOffsets, n: usize) -> (r: (TokenIdsWithOffsets, TokenIdsWithOffsets, Vec<i64>, Vec<Option<Offset>>))
    requires
        a.ids.len() + b.ids.len() >= n,
    ensures
        (r.0@, r.1@, r.2@, r.3@) == longest_first(a@, b@, n as nat),
{
    let ghost av = a@;
    let ghost bv = b@;
    let mut a = a;
    let mut b = b;
    let mut over: Vec<i64> = Vec::new();
    let mut over_offs: Vec<Option<Offset>> = Vec::new();
    let mut k: usize = 0;
    while k < n
        invariant
            k <= n,
            a.ids.len() + b.ids.len() + k >= n,
            (a@, b@, over@, over_offs@) == longest_first(av, bv, k as nat),
        decreases n - k,
    {
        let ghost prev = (a@, b@, over@, over_offs@);
        if a.ids.len() >= b.ids.len() {
            let (id, off) = pop_token(&mut a);
            over.insert(0, id);
            match off {
                Some(o) => {
                    over_offs.insert(0, o);
                },
                None => {},
            }
        } else {
            let (id, off) = pop_token(&mut b);
            over.insert(0, id);
            match off {
                Some(o) => {
                    over_offs.insert(0, o);
                },
                None => {},
            }
        }
        k = k + 1;
        proof {
            assert(over@ =~= longest_first(av, bv, k as nat).2);
            assert(over_offs@ =~= longest_first(av, bv, k as nat).3);
        }
    }
    (a, b, over, over_offs)
}

/// Truncates one or two sequences by `num_tokens_to_remove` tokens; see
/// `spec_truncate`.
pub fn truncate_sequences(
    token_ids_with_offsets_1: TokenIdsWithOffsets,
    token_ids_with_offsets_2: Option<TokenIdsWithOffsets>,
    num_tokens_to_remove: usize,
    truncation_strategy: &TruncationStrategy,
    stride: usize,
) -> (r: Result<(TokenIdsWithOffsets, Option<TokenIdsWithOffsets>, Vec<i64>, Vec<Option<Offset>>), TruncationFailure>)
    requires
        consistent(token_ids_with_offsets_1@),
        token_ids_with_offsets_2 matches Some(t) ==> consistent(t@),
    ensures
        ({
            let spec = spec_truncate(
                token_ids_with_offsets_1@,
                match token_ids_with_offsets_2 { Some(t) => Some(t@), None => None },
                num_tokens_to_remove as nat,
                *truncation_strategy,
                stride as nat,
            );
            match r {
                Ok((a, b, over, offs)) => spec == Ok::<(IdsView, Option<IdsView>, Seq<i64>, Seq<Option<Offset>>), TruncationFailure>((
                    a@,
                    match b { Some(t) => Some(t@), None => None },
                    over@,
                    offs@,
                )),
                Err(f) => spec == Err::<(IdsView, Option<IdsView>, Seq<i64>, Seq<Option<Offset>>), TruncationFailure>(f),
            }
        }),
{
    let n = num_tokens_to_remove;
    if n == 0 {
        return Ok((token_ids_with_offsets_1, token_ids_with_offsets_2, Vec::new(), Vec::new()));
    }
    let t1 = token_ids_with_offsets_1;
    match token_ids_with_offsets_2 {
        Some(t2) => match truncation_strategy {
            TruncationStrategy::LongestFirst => {
                if t1.ids.len() >= n || t2.ids.len() >= n - t1.ids.len() {
                    let (a1, b1, over, over_offs) = truncate_longest_first(t1, t2, n);
                    let len1 = a1.ids.len();
                    let wstart = if stride > len1 { 0 } else { len1 - stride };
                    let mut window = take_items(&a1.ids, wstart, len1);
                    let mut over = over;
                    window.append(&mut over);
                    let mut window_offs: Vec<Option<Offset>> = Vec::new();
                    let mut over_offs = over_offs;
                    if a1.offsets.len() > 0 {
                        let olen = a1.offsets.len();
                        let ostart = if stride > olen { 0 } else { olen - stride };
                        window_offs = take_items(&a1.offsets, ostart, olen);
                    }
                    window_offs.append(&mut over_offs);
                    proof {
                        let a1v = a1@;
                        assert(window@ =~= last_items(a1v.ids, stride as int) + longest_first(t1@, t2@, n as nat).2);
                        if a1v.offsets.len() > 0 {
                            assert(window_offs@ =~= last_items(a1v.offsets, stride as int) + longest_first(t1@, t2@, n as nat).3);
                        } else {
                            assert(window_offs@ =~= Seq::<Option<Offset>>::empty() + longest_first(t1@, t2@, n as nat).3);
                        }
                    }
                    Ok((a1, Some(b1), window, window_offs))
                } else {
                    Err(TruncationFailure::CombinedTooShort)
                }
            },
            TruncationStrategy::OnlyFirst => {
                if t1.ids.len() >= n {
                    let cutoff = t1.ids.len() - n;
                    let (a1, over, over_offs) = truncate_with_overflow(t1, cutoff, stride);
                    Ok((a1, Some(t2), over, over_offs))
                } else {
                    Err(TruncationFailure::FirstTooShort)
                }
            },
            TruncationStrategy::OnlySecond => {
                if t2.ids.len() >= n {
                    let cutoff = t2.ids.len() - n;
                    let (b1, over, over_offs) = truncate_with_overflow(t2, cutoff, stride);
                    Ok((t1, Some(b1), over, over_offs))
                } else {
                    Err(TruncationFailure::SecondTooShort)
                }
            },
            TruncationStrategy::DoNotTruncate => Err(TruncationFailure::NotRequested),
        },
        None => {
            if t1.ids.len() >= n {
                match truncation_strategy {
                    TruncationStrategy::LongestFirst | TruncationStrategy::OnlyFirst => {
                        let cutoff = t1.ids.len() - n;
                        let (a1, over, over_offs) = truncate_with_overflow(t1, cutoff, stride);
                        Ok((a1, None, over, over_offs))
                    },
                    TruncationStrategy::OnlySecond => Err(TruncationFailure::SingleSequenceOnlySecond),
                    TruncationStrategy::DoNotTruncate => Err(TruncationFailure::NotRequested),
                }
            } else {
                Err(TruncationFailure::FirstTooShort)
            }
        },
    }
}

/// An encoded input as values.
#[verifier::ext_equal]
pub struct TokenizedInputView {
    pub token_ids: Seq<i64>,
    pub segment_ids: Seq<i8>,
    pub special_tokens_mask: Seq<i8>,
    pub overflowing_tokens: Seq<i64>,
    pub num_truncated_tokens: nat,
    pub token_offsets: Seq<Option<Offset>>,
    pub reference_offsets: Seq<Seq<OffsetSize>>,
    pub mask: Seq<Mask>,
}

impl View for TokenizedInput {
    type V = TokenizedInputView;

    open spec fn view(&self) -> TokenizedInputView {
        TokenizedInputView {
            token_ids: self.token_ids@,
            segment_ids: self.segment_ids@,
            special_tokens_mask: self.special_tokens_mask@,
            overflowing_tokens: self.overflowing_tokens@,
            num_truncated_tokens: self.num_truncated_tokens as nat,
            token_offsets: self.token_offsets@,
            reference_offsets: vec_views(self.reference_offsets@),
            mask: self.mask@,
        }
    }
}

/// The message of a truncation failure.
pub open spec fn failure_message(f: TruncationFailure) -> Seq<char> {
    match f {
        TruncationFailure::CombinedTooShort => "Combined sequence length too short for requested truncation amount"@,
        TruncationFailure::FirstTooShort => "First sequence too short for first only truncation"@,
        TruncationFailure::SecondTooShort => "Second sequence too short for second only truncation"@,
        TruncationFailure::SingleSequenceOnlySecond => "Invalid truncation strategy for single sentence truncation"@,
        TruncationFailure::NotRequested => "Truncation needed but no truncation requested"@,
    }
}

/// The message of a truncation failure.
pub fn failure_text(f: TruncationFailure) -> (r: String)
    ensures
        r@ == failure_message(f),
{
    match f {
        TruncationFailure::CombinedTooShort => String::from_str("Combined sequence length too short for requested truncation amount"),
        TruncationFailure::FirstTooShort => String::from_str("First sequence too short for first only truncation"),
        TruncationFailure::SecondTooShort => String::from_str("Second sequence too short for second only truncation"),
        TruncationFailure::SingleSequenceOnlySecond => String::from_str("Invalid truncation strategy for single sentence truncation"),
        TruncationFailure::NotRequested => String::from_str("Truncation needed but no truncation requested"),
    }
}

/// No ids, offsets, positions or masks.
pub open spec fn empty_ids() -> IdsView {
    IdsView { ids: Seq::empty(), offsets: Seq::empty(), reference_offsets: Seq::empty(), masks: Seq::empty() }
}

fn empty_sequence() -> (r: TokenIdsWithOffsets)
    ensures
        r@ == empty_ids(),
{
    let r = TokenIdsWithOffsets { ids: Vec::new(), offsets: Vec::new(), reference_offsets: Vec::new(), masks: Vec::new() };
    assert(r@ =~= empty_ids());
    r
}

impl GptNeoXTokenizer {
    /// A text's ids with their offsets, positions and masks.
    pub open spec fn spec_ids_of(&self, text: Seq<char>) -> IdsView {
        let (toks, offs, refs, masks) = self.spec_tokenize_with_offsets(text);
        IdsView {
            ids: toks.map_values(|t: Seq<char>| self.spec_vocab().spec_token_to_id(t)),
            offsets: offs,
            reference_offsets: refs,
            masks,
        }
    }

    /// The number of special tokens put around one sequence, or around a
    /// pair.
    pub open spec fn special_count(&self, pair: bool) -> nat {
        self.spec_build_input(empty_ids(), if pair { Some(empty_ids()) } else { None }).token_ids.len()
    }

    /// What `encode` gives when the lengths fit `usize`.
    pub open spec fn spec_encode(
        &self,
        text_1: Seq<char>,
        text_2: Option<Seq<char>>,
        max_len: nat,
        strategy: TruncationStrategy,
        stride: nat,
    ) -> Result<TokenizedInputView, TruncationFailure> {
        let t1 = self.spec_ids_of(text_1);
        let t2 = match text_2 {
            Some(t) => Some(self.spec_ids_of(t)),
            None => None,
        };
        let len2 = match t2 {
            Some(t) => t.ids.len(),
            None => 0,
        };
        let total = t1.ids.len() + len2 + self.special_count(text_2 is Some);
        let n: nat = if total > max_len { (total - max_len) as nat } else { 0 };
        match spec_truncate(t1, t2, n, strategy, stride) {
            Err(f) => Err(f),
            Ok((a, b, over, _)) => {
                let merged = self.spec_build_input(a, b);
                Ok(
                    TokenizedInputView {
                        token_ids: merged.token_ids,
                        segment_ids: merged.segment_ids,
                        special_tokens_mask: merged.special_tokens_mask,
                        overflowing_tokens: over,
                        num_truncated_tokens: n,
                        token_offsets: merged.token_offsets,
                        reference_offsets: merged.reference_offsets,
                        mask: merged.mask,
                    },
                )
            },
        }
    }

    /// A text's ids with their offsets, positions and masks.
    fn ids_with_offsets(&self, text: &str) -> (r: TokenIdsWithOffsets)
        requires
            text@.len() + 1 < u32::MAX,
        ensures
            r@ == self.spec_ids_of(text@),
            consistent(r@),
    {
        let tokens = self.tokenize_with_offsets(text);
        let ids = self.convert_tokens_to_ids(&tokens.tokens);
        let r = TokenIdsWithOffsets {
            ids,
            offsets: tokens.offsets,
            reference_offsets: tokens.reference_offsets,
            masks: tokens.masks,
        };
        assert(r@.ids =~= self.spec_ids_of(text@).ids);
        assert(r@ =~= self.spec_ids_of(text@));
        r
    }

    /// Encodes one text, or a pair: tokens become ids, the sequences are
    /// truncated so that with their special tokens they fit `max_len`, and
    /// the special tokens are put around them. A truncation that cannot be
    /// done is a `ValueError`; so are lengths that do not fit `usize`.
    pub fn encode(
        &self,
        text_1: &str,
        text_2: Option<&str>,
        max_len: usize,
        truncation_strategy: &TruncationStrategy,
        stride: usize,
    ) -> (r: Result<TokenizedInput, TokenizerError>)
        requires
            text_1@.len() + 1 < u32::MAX,
            text_2 matches Some(t) ==> t@.len() + 1 < u32::MAX,
        ensures
            ({
                let t2 = match text_2 { Some(t) => Some(t@), None => None };
                let t1v = self.spec_ids_of(text_1@);
                let len2 = match t2 { Some(t) => self.spec_ids_of(t).ids.len(), None => 0 };
                let total = t1v.ids.len() + len2 + self.special_count(text_2 is Some);
                if total > usize::MAX {
                    r matches Err(TokenizerError::ValueError(_))
                } else {
                    match self.spec_encode(text_1@, t2, max_len as nat, *truncation_strategy, stride as nat) {
                        Ok(v) => r matches Ok(x) && x@ == v,
                        Err(f) => r matches Err(TokenizerError::ValueError(m)) && m@ == failure_message(f),
                    }
                }
            }),
    {
        let t1 = self.ids_with_offsets(text_1);
        let t2 = match text_2 {
            Some(t) => Some(self.ids_with_offsets(t)),
            None => None,
        };
        let len1 = t1.ids.len();
        let len2 = match &t2 {
            Some(t) => t.ids.len(),
            None => 0,
        };
        let probe = self.build_input_with_special_tokens(
            empty_sequence(),
            match &t2 {
                Some(_) => Some(empty_sequence()),
                None => None,
            },
        );
        let additional = probe.token_ids.len();
        if len1 > usize::MAX - len2 || len1 + len2 > usize::MAX - additional {
            return Err(TokenizerError::ValueError(String::from_str("input too long")));
        }
        let total = len1 + len2 + additional;
        let num_truncated_tokens = if total > max_len { total - max_len } else { 0 };
        match truncate_sequences(t1, t2, num_truncated_tokens, truncation_strategy, stride) {
            Err(f) => Err(TokenizerError::ValueError(failure_text(f))),
            Ok((a, b, overflowing_tokens, _overflowing_offsets)) => {
                let merged = self.build_input_with_special_tokens(a, b);
                let r = TokenizedInput {
                    token_ids: merged.token_ids,
                    segment_ids: merged.segment_ids,
                    special_tokens_mask: merged.special_tokens_mask,
                    overflowing_tokens,
                    num_truncated_tokens,
                    token_offsets: merged.token_offsets,
                    reference_offsets: merged.reference_offsets,
                    mask: merged.mask,
                };
                Ok(r)
            },
        }
    }
}


/// Each step of longest-first truncation takes one id off the end of one of
/// the two sequences: after `n` steps the sequences are prefixes of what they
/// were, `n` ids shorter together, and the overflow holds `n` ids.
pub proof fn lemma_longest_first_counts(a: IdsView, b: IdsView, n: nat)
    requires
        a.ids.len() + b.ids.len() >= n,
    ensures
        ({
            let (a1, b1, over, _) = longest_first(a, b, n);
            &&& a1.ids.len() + b1.ids.len() + n == a.ids.len() + b.ids.len()
            &&& a1.ids.len() <= a.ids.len() && b1.ids.len() <= b.ids.len()
            &&& a1.ids == a.ids.take(a1.ids.len() as int)
            &&& b1.ids == b.ids.take(b1.ids.len() as int)
            &&& over.len() == n
        }),
    decreases n,
{
    if n > 0 {
        lemma_longest_first_counts(a, b, (n - 1) as nat);
        let (a1, b1, over, _) = longest_first(a, b, (n - 1) as nat);
        if a1.ids.len() >= b1.ids.len() {
            assert(a1.ids.len() > 0);
            assert(a1.ids.drop_last() =~= a.ids.take(a1.ids.len() - 1));
        } else {
            assert(b1.ids.drop_last() =~= b.ids.take(b1.ids.len() - 1));
        }
    }
}

/// A truncation that succeeds removes exactly the asked number of ids: the
/// kept sequences are prefixes of the given ones, and together they are
/// `n` ids shorter.
pub proof fn lemma_truncate_removes_exactly(
    t1: IdsView,
    t2: Option<IdsView>,
    n: nat,
    strategy: TruncationStrategy,
    stride: nat,
)
    ensures
        spec_truncate(t1, t2, n, strategy, stride) matches Ok((a, b, _, _)) ==> {
            let len2 = match t2 { Some(t) => t.ids.len(), None => 0 };
            let kept2 = match b { Some(t) => t.ids.len(), None => 0 };
            &&& a.ids.len() + kept2 + n == t1.ids.len() + len2
            &&& a.ids == t1.ids.take(a.ids.len() as int)
            &&& (b is Some <==> t2 is Some)
            &&& (b matches Some(bb) ==> bb.ids == t2->0.ids.take(bb.ids.len() as int))
        },
{
    if n > 0 {
        if let Some(bv) = t2 {
            if strategy == TruncationStrategy::LongestFirst && t1.ids.len() + bv.ids.len() >= n {
                lemma_longest_first_counts(t1, bv, n);
            }
        }
    } else {
        assert(t1.ids == t1.ids.take(t1.ids.len() as int));
        if let Some(bv) = t2 {
            assert(bv.ids == bv.ids.take(bv.ids.len() as int));
        }
    }
}

impl GptNeoXTokenizer {
    /// The special tokens put around sequences do not depend on them: the
    /// ids of `build_input_with_special_tokens` are as many as the ids of the
    /// sequences and the special tokens of one sequence or of a pair.
    pub proof fn lemma_build_input_len(&self, t1: IdsView, t2: Option<IdsView>)
        ensures
            self.spec_build_input(t1, t2).token_ids.len() == t1.ids.len() + match t2 {
                Some(t) => t.ids.len(),
                None => 0,
            } + self.special_count(t2 is Some),
    {
    }

    /// An encoded input never holds more than `max_len` ids: it holds all
    /// the ids with their special tokens when they fit, and exactly
    /// `max_len` when truncation was needed; the truncated count makes up
    /// the difference.
    pub proof fn lemma_encode_fits_max_len(
        &self,
        text_1: Seq<char>,
        text_2: Option<Seq<char>>,
        max_len: nat,
        strategy: TruncationStrategy,
        stride: nat,
    )
        ensures
            self.spec_encode(text_1, text_2, max_len, strategy, stride) matches Ok(v) ==> {
                let len2 = match text_2 { Some(t) => self.spec_ids_of(t).ids.len(), None => 0 };
                let total = self.spec_ids_of(text_1).ids.len() + len2 + self.special_count(text_2 is Some);
                &&& v.token_ids.len() <= max_len
                &&& v.token_ids.len() + v.num_truncated_tokens == total
                &&& (total <= max_len ==> v.token_ids.len() == total)
            },
    {
        let t1 = self.spec_ids_of(text_1);
        let t2 = match text_2 {
            Some(t) => Some(self.spec_ids_of(t)),
            None => None,
        };
        let len2 = match t2 {
            Some(t) => t.ids.len(),
            None => 0,
        };
        let total = t1.ids.len() + len2 + self.special_count(text_2 is Some);
        let n: nat = if total > max_len { (total - max_len) as nat } else { 0 };
        lemma_truncate_removes_exactly(t1, t2, n, strategy, stride);
        if let Ok((a, b, _, _)) = spec_truncate(t1, t2, n, strategy, stride) {
            self.lemma_build_input_len(a, b);
        }
    }
}

/// Every id of a sequence has its offset, its positions and its mask.
pub open spec fn aligned(t: IdsView) -> bool {
    &&& t.offsets.len() == t.ids.len()
    &&& t.reference_offsets.len() == t.ids.len()
    &&& t.masks.len() == t.ids.len()
}

/// `a` keeps the first ids of `t`, each with its own offset, positions and
/// mask.
pub open spec fn kept_prefix(a: IdsView, t: IdsView) -> bool {
    &&& aligned(a)
    &&& a.ids.len() <= t.ids.len()
    &&& a.ids == t.ids.take(a.ids.len() as int)
    &&& a.offsets == t.offsets.take(a.ids.len() as int)
    &&& a.reference_offsets == t.reference_offsets.take(a.ids.len() as int)
    &&& a.masks == t.masks.take(a.ids.len() as int)
}

proof fn lemma_kept_self(t: IdsView)
    requires
        aligned(t),
    ensures
        kept_prefix(t, t),
{
    assert(t.ids =~= t.ids.take(t.ids.len() as int));
    assert(t.offsets =~= t.offsets.take(t.ids.len() as int));
    assert(t.reference_offsets =~= t.reference_offsets.take(t.ids.len() as int));
    assert(t.masks =~= t.masks.take(t.ids.len() as int));
}

proof fn lemma_longest_first_aligned(a: IdsView, b: IdsView, n: nat)
    requires
        aligned(a),
        aligned(b),
        a.ids.len() + b.ids.len() >= n,
    ensures
        kept_prefix(longest_first(a, b, n).0, a),
        kept_prefix(longest_first(a, b, n).1, b),
        longest_first(a, b, n).3.len() == n,
    decreases n,
{
    if n == 0 {
        lemma_kept_self(a);
        lemma_kept_self(b);
    } else {
        lemma_longest_first_aligned(a, b, (n - 1) as nat);
        lemma_longest_first_counts(a, b, (n - 1) as nat);
        let (a1, b1, _, _) = longest_first(a, b, (n - 1) as nat);
        if a1.ids.len() >= b1.ids.len() {
            let k = a1.ids.len() - 1;
            assert(a1.ids.drop_last() =~= a.ids.take(k));
            assert(a1.offsets.drop_last() =~= a.offsets.take(k));
            assert(a1.reference_offsets.drop_last() =~= a.reference_offsets.take(k));
            assert(a1.masks.drop_last() =~= a.masks.take(k));
        } else {
            let k = b1.ids.len() - 1;
            assert(b1.ids.drop_last() =~= b.ids.take(k));
            assert(b1.offsets.drop_last() =~= b.offsets.take(k));
            assert(b1.reference_offsets.drop_last() =~= b.reference_offsets.take(k));
            assert(b1.masks.drop_last() =~= b.masks.take(k));
        }
    }
}

/// Truncation keeps every id with its own offset, positions and mask: when
/// the given sequences have one of each per id, a truncation that succeeds
/// keeps a prefix of each sequence with exactly as many offsets, positions
/// and masks as ids, the first ones of the originals.
pub proof fn lemma_truncate_keeps_alignment(
    t1: IdsView,
    t2: Option<IdsView>,
    n: nat,
    strategy: TruncationStrategy,
    stride: nat,
)
    requires
        aligned(t1),
        t2 matches Some(b) ==> aligned(b),
    ensures
        spec_truncate(t1, t2, n, strategy, stride) matches Ok((a, b, _, _)) ==> {
            &&& kept_prefix(a, t1)
            &&& (b matches Some(bb) ==> t2 is Some && kept_prefix(bb, t2->0))
        },
{
    if n > 0 {
        if let Some(bv) = t2 {
            if strategy == TruncationStrategy::LongestFirst && t1.ids.len() + bv.ids.len() >= n {
                lemma_longest_first_aligned(t1, bv, n);
            }
            if strategy == TruncationStrategy::OnlySecond && bv.ids.len() >= n {
                assert(t1.ids == t1.ids.take(t1.ids.len() as int));
                assert(t1.offsets == t1.offsets.take(t1.ids.len() as int));
                assert(t1.reference_offsets == t1.reference_offsets.take(t1.ids.len() as int));
                assert(t1.masks == t1.masks.take(t1.ids.len() as int));
            }
            if strategy == TruncationStrategy::OnlyFirst && t1.ids.len() >= n {
                assert(bv.ids == bv.ids.take(bv.ids.len() as int));
                assert(bv.offsets == bv.offsets.take(bv.ids.len() as int));
                assert(bv.reference_offsets == bv.reference_offsets.take(bv.ids.len() as int));
                assert(bv.masks == bv.masks.take(bv.ids.len() as int));
            }
        }
    } else {
        assert(t1.ids == t1.ids.take(t1.ids.len() as int));
        assert(t1.offsets == t1.offsets.take(t1.ids.len() as int));
        assert(t1.reference_offsets == t1.reference_offsets.take(t1.ids.len() as int));
        assert(t1.masks == t1.masks.take(t1.ids.len() as int));
        if let Some(bv) = t2 {
            assert(bv.ids == bv.ids.take(bv.ids.len() as int));
            assert(bv.offsets == bv.offsets.take(bv.ids.len() as int));
            assert(bv.reference_offsets == bv.reference_offsets.take(bv.ids.len() as int));
            assert(bv.masks == bv.masks.take(bv.ids.len() as int));
        }
    }
}

impl GptNeoXTokenizer {
    /// A text's ids come with one offset, one list of positions and one mask
    /// each.
    pub proof fn lemma_ids_aligned(&self, text: Seq<char>)
        ensures
            aligned(self.spec_ids_of(text)),
    {
    }

    /// Every encoded input lines up: it has exactly one offset, one list of
    /// positions, one mask, one segment id and one special-token flag per
    /// id.
    pub proof fn lemma_encode_aligned(
        &self,
        text_1: Seq<char>,
        text_2: Option<Seq<char>>,
        max_len: nat,
        strategy: TruncationStrategy,
        stride: nat,
    )
        ensures
            self.spec_encode(text_1, text_2, max_len, strategy, stride) matches Ok(v) ==> {
                &&& v.token_offsets.len() == v.token_ids.len()
                &&& v.reference_offsets.len() == v.token_ids.len()
                &&& v.mask.len() == v.token_ids.len()
                &&& v.segment_ids.len() == v.token_ids.len()
                &&& v.special_tokens_mask.len() == v.token_ids.len()
            },
    {
        let t1 = self.spec_ids_of(text_1);
        let t2 = match text_2 {
            Some(t) => Some(self.spec_ids_of(t)),
            None => None,
        };
        let len2 = match t2 {
            Some(t) => t.ids.len(),
            None => 0,
        };
        let total = t1.ids.len() + len2 + self.special_count(text_2 is Some);
        let n: nat = if total > max_len { (total - max_len) as nat } else { 0 };
        self.lemma_ids_aligned(text_1);
        if let Some(t) = text_2 {
            self.lemma_ids_aligned(t);
        }
        lemma_truncate_keeps_alignment(t1, t2, n, strategy, stride);
    }
}

} // verus!
