//! The GPT-NeoX tokenizer: splitting on special tokens, optional
//! lower-casing, pre-tokenization, byte-level BPE, and the special tokens
//! around encoded sequences.

use vstd::prelude::*;
use crate::bpe::BpePairVocab;
use crate::pattern::{Pattern, compile_pattern, regex_compiles};
use crate::split::{
    lemma_bpe_split_fits, lemma_lowercase_fits, lemma_regex_split_fits, lemma_special_split_fits,
    lowercase, refs_fit, spec_lowercase, spec_split_on_bpe_pairs, spec_split_on_regex,
    spec_split_on_special_tokens, split_on_bpe_pairs, split_on_regex_with_lookahead,
    split_on_special_values,
};
use crate::token::{
    IdsView, Mask, Offset, OffsetSize, SpecialIdsView, Token, TokenIdsWithOffsets,
    TokenIdsWithSpecialTokens, TokenView, TokensWithOffsets, fill, fix_mask, spec_fix_masks,
    string_views, token_views, vec_views,
};
use crate::vocab::{GptNeoXVocab, TokenizerError};
use crate::bytes::{char_to_byte, lemma_byte_char_not_whitespace, lemma_byte_char_round_trip, spec_char_to_byte};
use crate::bpe::{lemma_bpe_keeps_text, lemma_singletons_flatten, singletons, spec_bpe};
use crate::split::byte_text;
use crate::unicode::{
    chars_of, concat_chars, leading_ws_len, replace_all, replace_chars, spec_is_whitespace,
    spec_trim, string_from_utf8_lossy, string_of_chars, trim_chars, trim_end_len, utf8_lossy,
};
use vstd::utf8::{decode_utf8, encode_utf8, valid_utf8};

verus! {

/// The lookahead expression: a run of white space followed by a non-space.
pub open spec fn lookahead_source() -> Seq<char> {
    "\\s+\\S"@
}

/// The pre-tokenization expression of GPT-2 and GPT-NeoX.
pub open spec fn tokenization_source() -> Seq<char> {
    "'s|'t|'re|'ve|'m|'ll|'d| ?\\p{L}+| ?\\p{N}+| ?[^\\s\\p{L}\\p{N}]+|\\s+"@
}

/// The merge table and the two compiled expressions of a tokenizer.
struct Model {
    bpe_ranks: BpePairVocab,
    pattern_lookahead: Pattern,
    pattern_tokenization: Pattern,
}

impl Model {
    #[verifier::type_invariant]
    spec fn well_formed(self) -> bool {
        &&& self.bpe_ranks.wf()
        &&& self.pattern_lookahead.source() == lookahead_source()
        &&& self.pattern_tokenization.source() == tokenization_source()
    }
}

/// The GPT-NeoX tokenizer.
pub struct GptNeoXTokenizer {
    vocab: GptNeoXVocab,
    model: Model,
    lower_case: bool,
    add_prefix_space: bool,
    add_bos_token: bool,
    add_eos_token: bool,
}

/// `t` with a space in front when `add` is set, the text is not empty and
/// does not already start with a space; the space takes position 0.
pub open spec fn with_prefix_space(t: TokenView, add: bool) -> TokenView {
    if add && t.text.len() > 0 && t.text[0] != ' ' {
        TokenView {
            text: seq![' '] + t.text,
            offset: t.offset,
            reference_offsets: seq![0u32] + t.reference_offsets,
            mask: t.mask,
        }
    } else {
        t
    }
}

/// `tokens` with their masks fixed by `spec_fix_masks`.
pub open spec fn spec_fix_token_masks(tokens: Seq<TokenView>) -> Seq<TokenView> {
    Seq::new(
        tokens.len(),
        |j: int|
            TokenView {
                text: tokens[j].text,
                offset: tokens[j].offset,
                reference_offsets: tokens[j].reference_offsets,
                mask: spec_fix_masks(tokens.map_values(|t: TokenView| t.mask))[j],
            },
    )
}

/// The offset range of a token: from its first position to one past its
/// last, when it has positions.
pub open spec fn token_offset(t: TokenView) -> Option<Offset> {
    if t.reference_offsets.len() > 0 {
        Some(
            Offset {
                begin: t.reference_offsets[0],
                end: (t.reference_offsets.last() + 1) as OffsetSize,
            },
        )
    } else {
        None
    }
}

impl GptNeoXTokenizer {
    /// The vocabulary.
    pub closed spec fn spec_vocab(&self) -> GptNeoXVocab {
        self.vocab
    }

    /// The merge table.
    pub closed spec fn merges(&self) -> Map<(Seq<char>, Seq<char>), i64> {
        self.model.bpe_ranks@
    }

    /// Whether text is lower-cased.
    pub closed spec fn lowers(&self) -> bool {
        self.lower_case
    }

    /// Whether a space is put in front of the text.
    pub closed spec fn prefixes(&self) -> bool {
        self.add_prefix_space
    }

    /// Whether sequences start with the beginning-of-sequence token.
    pub closed spec fn adds_bos(&self) -> bool {
        self.add_bos_token
    }

    /// Whether sequences end with the end-of-sequence token.
    pub closed spec fn adds_eos(&self) -> bool {
        self.add_eos_token
    }

    /// Builds a tokenizer from a vocabulary and a merge table. It succeeds
    /// exactly when the `regex` crate accepts the two fixed expressions.
    pub fn from_existing_vocab_and_merges(
        vocab: GptNeoXVocab,
        merges: BpePairVocab,
        lower_case: bool,
        add_prefix_space: bool,
        add_bos_token: bool,
        add_eos_token: bool,
    ) -> (r: Result<GptNeoXTokenizer, TokenizerError>)
        requires
            merges.wf(),
        ensures
            r matches Ok(t) ==> {
                &&& t.spec_vocab() == vocab
                &&& t.merges() == merges@
                &&& t.lowers() == lower_case
                &&& t.prefixes() == add_prefix_space
                &&& t.adds_bos() == add_bos_token
                &&& t.adds_eos() == add_eos_token
            },
            r is Ok <==> regex_compiles(lookahead_source()) && regex_compiles(tokenization_source()),
            r matches Err(e) ==> e is ValueError,
    {
        let pattern_lookahead = match compile_pattern("\\s+\\S") {
            Some(p) => p,
            None => {
                return Err(TokenizerError::ValueError(String::from_str("invalid lookahead pattern")));
            },
        };
        let pattern_tokenization = match compile_pattern(
            "'s|'t|'re|'ve|'m|'ll|'d| ?\\p{L}+| ?\\p{N}+| ?[^\\s\\p{L}\\p{N}]+|\\s+",
        ) {
            Some(p) => p,
            None => {
                return Err(
                    TokenizerError::ValueError(String::from_str("invalid tokenization pattern")),
                );
            },
        };
        Ok(
            GptNeoXTokenizer {
                vocab,
                model: Model { bpe_ranks: merges, pattern_lookahead, pattern_tokenization },
                lower_case,
                add_prefix_space,
                add_bos_token,
                add_eos_token,
            },
        )
    }

    /// The vocabulary.
    pub fn vocab(&self) -> (r: &GptNeoXVocab)
        ensures
            *r == self.spec_vocab(),
    {
        &self.vocab
    }

    /// The vocabulary, to change in place; the rest of the tokenizer stays
    /// as it is.
    pub fn vocab_mut(&mut self) -> (r: &mut GptNeoXVocab)
        ensures
            *r == old(self).spec_vocab(),
            final(self).spec_vocab() == *final(r),
            final(self).merges() == old(self).merges(),
            final(self).lowers() == old(self).lowers(),
            final(self).prefixes() == old(self).prefixes(),
            final(self).adds_bos() == old(self).adds_bos(),
            final(self).adds_eos() == old(self).adds_eos(),
    {
        &mut self.vocab
    }

    /// What one piece left by the special-token split becomes: a special or
    /// unknown token is kept; any other is lower-cased if asked, cut into
    /// words, and every word into byte-level BPE pieces.
    pub open spec fn spec_process_piece(&self, t: TokenView) -> Seq<TokenView> {
        if t.mask != Mask::Special && t.mask != Mask::Unknown {
            let lowered = if self.lowers() {
                spec_lowercase(t)
            } else {
                t
            };
            spec_split_on_regex(lowered, lookahead_source(), tokenization_source()).map_values(
                |w: TokenView| spec_split_on_bpe_pairs(w.text, w.reference_offsets, self.merges()),
            ).flatten()
        } else {
            seq![t]
        }
    }

    /// The tokens of a token covering a text; see `tokenize_to_tokens`.
    pub open spec fn spec_tokenize_to_tokens(&self, t: TokenView) -> Seq<TokenView> {
        let pieces = spec_split_on_special_tokens(
            with_prefix_space(t, self.prefixes()),
            self.spec_vocab().specials(),
            self.spec_vocab().unk(),
        );
        spec_fix_token_masks(pieces.map_values(|p: TokenView| self.spec_process_piece(p)).flatten())
    }

    /// The pieces of one special-split piece.
    fn process_piece(&self, t: &Token) -> (r: Vec<Token>)
        requires
            refs_fit(t@, u32::MAX as int),
        ensures
            token_views(r@) == self.spec_process_piece(t@),
            forall|k: int| 0 <= k < r@.len() ==> refs_fit(#[trigger] r@[k]@, u32::MAX as int),
    {
        proof {
            use_type_invariant(&self.model);
        }
        if t.mask != Mask::Special && t.mask != Mask::Unknown {
            let mut t = t.duplicate();
            if self.lower_case {
                proof {
                    lemma_lowercase_fits(t@, u32::MAX as int);
                }
                lowercase(&mut t);
            }
            proof {
                lemma_regex_split_fits(t@, lookahead_source(), tokenization_source(), u32::MAX as int);
            }
            let words = split_on_regex_with_lookahead(
                &t,
                &self.model.pattern_lookahead,
                &self.model.pattern_tokenization,
            );
            let ghost wv = token_views(words@);
            assert forall|j: int| 0 <= j < words@.len() implies refs_fit(#[trigger] words@[j]@, u32::MAX as int) by {
                assert(words@[j]@ == wv[j]);
            }
            let ghost lists = wv.map_values(
                |w: TokenView| spec_split_on_bpe_pairs(w.text, w.reference_offsets, self.merges()),
            );
            let mut out: Vec<Token> = Vec::new();
            let mut k: usize = 0;
            while k < words.len()
                invariant
                    self.model.bpe_ranks.wf(),
                    wv == token_views(words@),
                    lists == wv.map_values(
                        |w: TokenView|
                            spec_split_on_bpe_pairs(w.text, w.reference_offsets, self.merges()),
                    ),
                    forall|j: int|
                        0 <= j < words@.len() ==> refs_fit(#[trigger] words@[j]@, u32::MAX as int),
                    k <= words.len(),
                    token_views(out@) == lists.take(k as int).flatten(),
                    forall|j: int| 0 <= j < out@.len() ==> refs_fit(#[trigger] out@[j]@, u32::MAX as int),
                decreases words.len() - k,
            {
                assert(wv[k as int] == words@[k as int]@);
                proof {
                    lemma_bpe_split_fits(words@[k as int]@, self.merges(), u32::MAX as int);
                }
                let pieces = split_on_bpe_pairs(&words[k], &self.model.bpe_ranks);
                let ghost pvs = token_views(pieces@);
                assert forall|j: int| 0 <= j < pieces@.len() implies refs_fit(#[trigger] pieces@[j]@, u32::MAX as int) by {
                    assert(pieces@[j]@ == pvs[j]);
                }
                let ghost out0 = out@;
                append_tokens(&mut out, pieces);
                proof {
                    assert forall|j: int| 0 <= j < out@.len() implies refs_fit(#[trigger] out@[j]@, u32::MAX as int) by {
                        if j >= out0.len() {
                            assert(out@[j] == pieces@[j - out0.len()]);
                        }
                    }
                    assert(lists.take(k + 1) =~= lists.take(k as int).push(lists[k as int]));
                    lists.take(k as int).lemma_flatten_push(lists[k as int]);
                }
                k = k + 1;
            }
            assert(lists.take(k as int) =~= lists);
            out
        } else {
            let r = vec![t.duplicate()];
            assert(token_views(r@) =~= seq![t@]);
            r
        }
    }

    /// Tokenizes a token that covers a text: a space is put in front if
    /// asked, the text is cut at special tokens, each other piece goes
    /// through `spec_process_piece`, and a plain token followed by a
    /// continuation piece becomes the beginning of a word.
    pub fn tokenize_to_tokens(&self, initial_token: &Token) -> (r: Vec<Token>)
        requires
            refs_fit(initial_token@, u32::MAX as int),
            initial_token.offset.begin + initial_token.text@.len() + 1 <= u32::MAX,
        ensures
            token_views(r@) == self.spec_tokenize_to_tokens(initial_token@),
            forall|k: int| 0 <= k < r@.len() ==> refs_fit(#[trigger] r@[k]@, u32::MAX as int),
    {
        let mut token = initial_token.duplicate();
        if self.add_prefix_space && token.text.as_str().unicode_len() > 0 && token.text.as_str().get_char(0) != ' ' {
            let mut text = String::new();
            crate::unicode::push_char(&mut text, ' ');
            text.append(token.text.as_str());
            token.text = text;
            token.reference_offsets.insert(0, 0);
            assert(token@.text =~= seq![' '] + initial_token.text@);
            assert(token@.reference_offsets =~= seq![0u32] + initial_token.reference_offsets@);
        }
        assert(token@ == with_prefix_space(initial_token@, self.prefixes()));
        let specials = self.vocab.special_chars();
        let unk = self.vocab.unk_chars();
        let pieces = split_on_special_values(&token, specials, &unk);
        let ghost pv = token_views(pieces@);
        proof {
            lemma_special_split_fits(token@, self.spec_vocab().specials(), self.spec_vocab().unk(), u32::MAX as int);
        }
        let ghost lists = pv.map_values(|p: TokenView| self.spec_process_piece(p));
        let mut out: Vec<Token> = Vec::new();
        let n = pieces.len();
        let mut k: usize = 0;
        while k < n
            invariant
                n == pieces@.len(),
                pv.len() == n,
                pv == token_views(pieces@),
                forall|j: int| 0 <= j < n ==> refs_fit(#[trigger] pv[j], u32::MAX as int),
                lists == pv.map_values(|p: TokenView| self.spec_process_piece(p)),
                k <= n,
                token_views(out@) == lists.take(k as int).flatten(),
                forall|j: int| 0 <= j < out@.len() ==> refs_fit(#[trigger] out@[j]@, u32::MAX as int),
            decreases n - k,
        {
            assert(pieces@[k as int]@ == pv[k as int]);
            let sub = self.process_piece(&pieces[k]);
            append_tokens(&mut out, sub);
            proof {
                assert(lists.take(k + 1) =~= lists.take(k as int).push(lists[k as int]));
                lists.take(k as int).lemma_flatten_push(lists[k as int]);
            }
            k = k + 1;
        }
        assert(lists.take(k as int) =~= lists);
        let ghost before = out@;
        fix_mask(&mut out);
        proof {
            let flat = lists.flatten();
            assert(token_views(before) == flat);
            assert(token_views(before).map_values(|t: TokenView| t.mask) =~= before.map_values(|t: Token| t.mask));
            assert(token_views(out@) =~= spec_fix_token_masks(flat));
            assert forall|j: int| 0 <= j < out@.len() implies refs_fit(#[trigger] out@[j]@, u32::MAX as int) by {
                assert(out@[j].reference_offsets == before[j].reference_offsets);
                assert(out@[j].text == before[j].text);
            }
        }
        out
    }

    /// What `tokenize_with_offsets` gives for a text.
    pub open spec fn spec_tokenize_with_offsets(&self, text: Seq<char>) -> (
        Seq<Seq<char>>,
        Seq<Option<Offset>>,
        Seq<Seq<OffsetSize>>,
        Seq<Mask>,
    ) {
        if text.len() == 0 {
            (Seq::empty(), Seq::empty(), Seq::empty(), Seq::empty())
        } else {
            let initial = TokenView {
                text,
                offset: Offset { begin: 0, end: text.len() as OffsetSize },
                reference_offsets: Seq::new(text.len(), |i: int| i as OffsetSize),
                mask: Mask::Plain,
            };
            let ts = self.spec_tokenize_to_tokens(initial);
            (
                ts.map_values(|t: TokenView| t.text),
                ts.map_values(|t: TokenView| token_offset(t)),
                ts.map_values(|t: TokenView| t.reference_offsets),
                ts.map_values(|t: TokenView| t.mask),
            )
        }
    }

    /// Tokenizes a text: its tokens, the offset range of each, the original
    /// position of each of their characters, and their masks. An empty text
    /// has no tokens; a text of white space only has tokens.
    pub fn tokenize_with_offsets(&self, text: &str) -> (r: TokensWithOffsets)
        requires
            text@.len() + 1 < u32::MAX,
        ensures
            (
                string_views(r.tokens@),
                r.offsets@,
                vec_views(r.reference_offsets@),
                r.masks@,
            ) == self.spec_tokenize_with_offsets(text@),
    {
        if text.is_empty() {
            let r = TokensWithOffsets {
                tokens: Vec::new(),
                offsets: Vec::new(),
                reference_offsets: Vec::new(),
                masks: Vec::new(),
            };
            assert(string_views(r.tokens@) =~= Seq::<Seq<char>>::empty());
            assert(vec_views(r.reference_offsets@) =~= Seq::<Seq<OffsetSize>>::empty());
            return r;
        }
        let initial = Token::new(String::from_str(text));
        proof {
            assert(refs_fit(initial@, u32::MAX as int));
        }
        let tokens = self.tokenize_to_tokens(&initial);
        let ghost ts = token_views(tokens@);
        assert(ts == self.spec_tokenize_to_tokens(initial@));
        let length = tokens.len();
        let mut texts: Vec<String> = Vec::with_capacity(length);
        let mut offsets: Vec<Option<Offset>> = Vec::with_capacity(length);
        let mut positions: Vec<Vec<OffsetSize>> = Vec::with_capacity(length);
        let mut masks: Vec<Mask> = Vec::with_capacity(length);
        let mut k: usize = 0;
        while k < length
            invariant
                length == tokens@.len(),
                ts.len() == length,
                ts == token_views(tokens@),
                forall|j: int| 0 <= j < length ==> refs_fit(#[trigger] ts[j], u32::MAX as int),
                k <= length,
                string_views(texts@) == ts.take(k as int).map_values(|t: TokenView| t.text),
                offsets@ == ts.take(k as int).map_values(|t: TokenView| token_offset(t)),
                vec_views(positions@) == ts.take(k as int).map_values(|t: TokenView| t.reference_offsets),
                masks@ == ts.take(k as int).map_values(|t: TokenView| t.mask),
            decreases length - k,
        {
            let token = tokens[k].duplicate();
            assert(token@ == ts[k as int]);
            let offset = if token.reference_offsets.len() > 0 {
                let first = token.reference_offsets[0];
                let last = token.reference_offsets[token.reference_offsets.len() - 1];
                assert(refs_fit(ts[k as int], u32::MAX as int));
                Some(Offset { begin: first, end: last + 1 })
            } else {
                None
            };
            proof {
                crate::bpe::lemma_string_views_push(texts@, token.text);
                assert(vec_views(positions@.push(token.reference_offsets)) =~= vec_views(positions@).push(token.reference_offsets@));
                assert(ts.take(k + 1) =~= ts.take(k as int).push(ts[k as int]));
                assert(ts.take(k + 1).map_values(|t: TokenView| t.text) =~= ts.take(k as int).map_values(|t: TokenView| t.text).push(ts[k as int].text));
                assert(ts.take(k + 1).map_values(|t: TokenView| token_offset(t)) =~= ts.take(k as int).map_values(|t: TokenView| token_offset(t)).push(token_offset(ts[k as int])));
                assert(ts.take(k + 1).map_values(|t: TokenView| t.reference_offsets) =~= ts.take(k as int).map_values(|t: TokenView| t.reference_offsets).push(ts[k as int].reference_offsets));
                assert(ts.take(k + 1).map_values(|t: TokenView| t.mask) =~= ts.take(k as int).map_values(|t: TokenView| t.mask).push(ts[k as int].mask));
            }
            texts.push(token.text);
            offsets.push(offset);
            positions.push(token.reference_offsets);
            masks.push(token.mask);
            k = k + 1;
        }
        assert(ts.take(k as int) =~= ts);
        TokensWithOffsets { tokens: texts, offsets, reference_offsets: positions, masks }
    }

    /// The token texts of a text.
    pub fn tokenize(&self, text: &str) -> (r: Vec<String>)
        requires
            text@.len() + 1 < u32::MAX,
        ensures
            string_views(r@) == self.spec_tokenize_with_offsets(text@).0,
    {
        self.tokenize_with_offsets(text).tokens
    }
}

/// Field by field, `a` followed by `b`.
pub open spec fn join_views(a: SpecialIdsView, b: SpecialIdsView) -> SpecialIdsView {
    SpecialIdsView {
        token_ids: a.token_ids + b.token_ids,
        segment_ids: a.segment_ids + b.segment_ids,
        special_tokens_mask: a.special_tokens_mask + b.special_tokens_mask,
        token_offsets: a.token_offsets + b.token_offsets,
        reference_offsets: a.reference_offsets + b.reference_offsets,
        mask: a.mask + b.mask,
    }
}

/// Nothing at all.
pub open spec fn empty_view() -> SpecialIdsView {
    SpecialIdsView {
        token_ids: Seq::empty(),
        segment_ids: Seq::empty(),
        special_tokens_mask: Seq::empty(),
        token_offsets: Seq::empty(),
        reference_offsets: Seq::empty(),
        mask: Seq::empty(),
    }
}

/// One special token of segment `seg`, when there is one: no offset, no
/// positions, special-token mask 1.
pub open spec fn special_part(id: Option<i64>, seg: i8) -> SpecialIdsView {
    match id {
        Some(i) => SpecialIdsView {
            token_ids: seq![i],
            segment_ids: seq![seg],
            special_tokens_mask: seq![1i8],
            token_offsets: seq![None],
            reference_offsets: seq![Seq::empty()],
            mask: seq![Mask::Special],
        },
        None => empty_view(),
    }
}

/// A sequence of segment `seg`: its ids with special-token mask 0, its
/// offsets, positions and masks.
pub open spec fn sequence_part(t: IdsView, seg: i8) -> SpecialIdsView {
    SpecialIdsView {
        token_ids: t.ids,
        segment_ids: fill(t.ids.len(), seg),
        special_tokens_mask: fill(t.ids.len(), 0i8),
        token_offsets: t.offsets,
        reference_offsets: t.reference_offsets,
        mask: t.masks,
    }
}

/// A sequence between its optional beginning and end tokens.
pub open spec fn section(bos: Option<i64>, t: IdsView, eos: Option<i64>, seg: i8) -> SpecialIdsView {
    join_views(join_views(special_part(bos, seg), sequence_part(t, seg)), special_part(eos, seg))
}

/// Appends one special token, if any.
fn push_special(out: &mut TokenIdsWithSpecialTokens, id: Option<i64>, seg: i8)
    ensures
        final(out)@ == join_views(old(out)@, special_part(id, seg)),
{
    match id {
        Some(i) => {
            out.token_ids.push(i);
            out.segment_ids.push(seg);
            out.special_tokens_mask.push(1);
            out.token_offsets.push(None);
            let ghost before = out.reference_offsets@;
            out.reference_offsets.push(Vec::new());
            out.mask.push(Mask::Special);
            assert(vec_views(out.reference_offsets@) =~= vec_views(before) + seq![
                Seq::<OffsetSize>::empty(),
            ]);
            assert(out@ =~= join_views(old(out)@, special_part(id, seg)));
        },
        None => {
            assert(out@ =~= join_views(old(out)@, special_part(id, seg)));
        },
    }
}

/// Appends `n` copies of `x`.
fn push_copies(v: &mut Vec<i8>, n: usize, x: i8)
    ensures
        final(v)@ == old(v)@ + fill(n as nat, x),
{
    let mut k: usize = 0;
    while k < n
        invariant
            k <= n,
            v@ == old(v)@ + fill(k as nat, x),
        decreases n - k,
    {
        v.push(x);
        k = k + 1;
        assert(v@ =~= old(v)@ + fill(k as nat, x));
    }
}

/// Appends a sequence.
fn push_sequence(out: &mut TokenIdsWithSpecialTokens, t: TokenIdsWithOffsets, seg: i8)
    ensures
        final(out)@ == join_views(old(out)@, sequence_part(t@, seg)),
{
    let ghost tv = t@;
    let mut t = t;
    let n = t.ids.len();
    out.token_ids.append(&mut t.ids);
    push_copies(&mut out.segment_ids, n, seg);
    push_copies(&mut out.special_tokens_mask, n, 0);
    out.token_offsets.append(&mut t.offsets);
    let ghost before = out.reference_offsets@;
    let ghost added = t.reference_offsets@;
    out.reference_offsets.append(&mut t.reference_offsets);
    out.mask.append(&mut t.masks);
    assert(vec_views(out.reference_offsets@) =~= vec_views(before) + vec_views(added));
    assert(out@ =~= join_views(old(out)@, sequence_part(tv, seg)));
}

impl GptNeoXTokenizer {
    /// The id of the beginning-of-sequence token when it is added and the
    /// vocabulary has it among its special tokens.
    pub open spec fn bos_id(&self) -> Option<i64> {
        let v = self.spec_vocab();
        if self.adds_bos() && v.special_values_map().contains_key(v.bos()) {
            Some(v.special_values_map()[v.bos()])
        } else {
            None
        }
    }

    /// The id of the end-of-sequence token when it is added and the
    /// vocabulary has it among its special tokens.
    pub open spec fn eos_id(&self) -> Option<i64> {
        let v = self.spec_vocab();
        if self.adds_eos() && v.special_values_map().contains_key(v.eos()) {
            Some(v.special_values_map()[v.eos()])
        } else {
            None
        }
    }

    /// One or two sequences with their special tokens, as values.
    pub open spec fn spec_build_input(&self, t1: IdsView, t2: Option<IdsView>) -> SpecialIdsView {
        let first = section(self.bos_id(), t1, self.eos_id(), 0);
        match t2 {
            Some(t) => join_views(first, section(self.bos_id(), t, self.eos_id(), 1)),
            None => first,
        }
    }

    fn special_id(&self, add: bool, name: String) -> (r: Option<i64>)
        ensures
            r == (if add && self.spec_vocab().special_values_map().contains_key(name@) {
                Some(self.spec_vocab().special_values_map()[name@])
            } else {
                None
            }),
    {
        if add {
            self.vocab.special_value_id(name.as_str())
        } else {
            None
        }
    }

    /// Puts the special tokens around one or two sequences: each sequence
    /// starts with the beginning token and ends with the end token when they
    /// are asked for and known to the vocabulary; the first sequence is
    /// segment 0, the second segment 1.
    pub fn build_input_with_special_tokens(
        &self,
        tokens_ids_with_offsets_1: TokenIdsWithOffsets,
        tokens_ids_with_offsets_2: Option<TokenIdsWithOffsets>,
    ) -> (r: TokenIdsWithSpecialTokens)
        ensures
            r@ == self.spec_build_input(
                tokens_ids_with_offsets_1@,
                match tokens_ids_with_offsets_2 {
                    Some(t) => Some(t@),
                    None => None,
                },
            ),
    {
        let bos = self.special_id(self.add_bos_token, self.vocab.get_bos_value());
        let eos = self.special_id(self.add_eos_token, self.vocab.get_eos_value());
        let mut output = TokenIdsWithSpecialTokens {
            token_ids: Vec::new(),
            segment_ids: Vec::new(),
            special_tokens_mask: Vec::new(),
            token_offsets: Vec::new(),
            reference_offsets: Vec::new(),
            mask: Vec::new(),
        };
        assert(output@ =~= empty_view());
        push_special(&mut output, bos, 0);
        push_sequence(&mut output, tokens_ids_with_offsets_1, 0);
        push_special(&mut output, eos, 0);
        proof {
            let e = empty_view();
            let b = special_part(bos, 0);
            assert(join_views(e, b) =~= b);
        }
        match tokens_ids_with_offsets_2 {
            Some(t2) => {
                let ghost first = output@;
                let ghost tv = t2@;
                push_special(&mut output, bos, 1);
                push_sequence(&mut output, t2, 1);
                push_special(&mut output, eos, 1);
                proof {
                    let b = special_part(bos, 1);
                    let q = sequence_part(tv, 1);
                    let en = special_part(eos, 1);
                    assert(join_views(join_views(join_views(first, b), q), en) =~= join_views(
                        first,
                        join_views(join_views(b, q), en),
                    ));
                }
            },
            None => {},
        }
        output
    }

    /// The ids of tokens; see `GptNeoXVocab::spec_token_to_id`.
    pub fn convert_tokens_to_ids(&self, tokens: &Vec<String>) -> (r: Vec<i64>)
        ensures
            r@ == string_views(tokens@).map_values(|t: Seq<char>| self.spec_vocab().spec_token_to_id(t)),
    {
        let mut r: Vec<i64> = Vec::with_capacity(tokens.len());
        let mut k: usize = 0;
        while k < tokens.len()
            invariant
                k <= tokens.len(),
                r@ == string_views(tokens@).take(k as int).map_values(
                    |t: Seq<char>| self.spec_vocab().spec_token_to_id(t),
                ),
            decreases tokens.len() - k,
        {
            r.push(self.vocab.token_to_id(tokens[k].as_str()));
            k = k + 1;
            assert(r@ =~= string_views(tokens@).take(k as int).map_values(
                |t: Seq<char>| self.spec_vocab().spec_token_to_id(t),
            ));
        }
        assert(string_views(tokens@).take(k as int) =~= string_views(tokens@));
        r
    }

    /// The token texts of each text, in order.
    pub fn tokenize_list(&self, texts: &Vec<&str>) -> (r: Vec<Vec<String>>)
        requires
            forall|i: int| 0 <= i < texts@.len() ==> #[trigger] texts@[i]@.len() + 1 < u32::MAX,
        ensures
            r@.len() == texts@.len(),
            forall|i: int|
                0 <= i < texts@.len() ==> string_views((#[trigger] r@[i])@)
                    == self.spec_tokenize_with_offsets(texts@[i]@).0,
    {
        let mut r: Vec<Vec<String>> = Vec::with_capacity(texts.len());
        let mut k: usize = 0;
        while k < texts.len()
            invariant
                k <= texts.len(),
                forall|i: int| 0 <= i < texts@.len() ==> #[trigger] texts@[i]@.len() + 1 < u32::MAX,
                r@.len() == k,
                forall|i: int|
                    0 <= i < k ==> string_views((#[trigger] r@[i])@)
                        == self.spec_tokenize_with_offsets(texts@[i]@).0,
            decreases texts.len() - k,
        {
            let t = texts[k];
            r.push(self.tokenize(t));
            k = k + 1;
        }
        r
    }
}

/// The bytes that the characters of `s` stand for.
pub open spec fn byte_values(s: Seq<char>) -> Seq<u8> {
    s.map_values(|c: char| spec_char_to_byte(c).unwrap())
}

/// Every character of `s` stands for a byte.
pub open spec fn in_byte_alphabet(s: Seq<char>) -> bool {
    forall|i: int| 0 <= i < s.len() ==> (#[trigger] spec_char_to_byte(s[i])) is Some
}

/// The word-piece marker ` ##`.
pub open spec fn marker() -> Seq<char> {
    seq![' ', '#', '#']
}

/// The tokens joined, the ` ##` markers removed, and white space trimmed.
pub open spec fn cleaned_chars(tokens: Seq<Seq<char>>) -> Seq<char> {
    spec_trim(replace_all(tokens.flatten(), marker(), Seq::empty()))
}

/// The text that tokens stand for: the bytes of their characters, read as
/// UTF-8 with invalid sequences replaced.
pub open spec fn spec_convert_tokens_to_string(tokens: Seq<Seq<char>>) -> Seq<char> {
    utf8_lossy(byte_values(cleaned_chars(tokens)))
}

/// The replacements that tidy up the spaces of decoded text, in the order
/// they are applied.
pub open spec fn clean_up_rules() -> Seq<(Seq<char>, Seq<char>)> {
    seq![
        (seq![' ', '.'], seq!['.']),
        (seq![' ', '!'], seq!['!']),
        (seq![' ', '?'], seq!['?']),
        (seq![' ', ','], seq![',']),
        (seq![' ', '\'', ' '], seq!['\'']),
        (seq![' ', 'n', '\'', 't'], seq!['n', '\'', 't']),
        (seq![' ', '\'', 'm'], seq!['\'', 'm']),
        (seq![' ', 'd', 'o', ' ', 'n', 'o', 't'], seq![' ', 'd', 'o', 'n', '\'', 't']),
        (seq![' ', '\'', 's'], seq!['\'', 's']),
        (seq![' ', '\'', 'v', 'e'], seq!['\'', 'v', 'e']),
        (seq![' ', '\'', 'r', 'e'], seq!['\'', 'r', 'e']),
    ]
}

/// `s` after the first `k` clean-up replacements.
pub open spec fn apply_rules(s: Seq<char>, rules: Seq<(Seq<char>, Seq<char>)>, k: int) -> Seq<char>
    decreases k,
{
    if k <= 0 {
        s
    } else {
        let prev = apply_rules(s, rules, k - 1);
        replace_all(prev, rules[k - 1].0, rules[k - 1].1)
    }
}

/// `s` after all clean-up replacements.
pub open spec fn spec_clean_up(s: Seq<char>) -> Seq<char> {
    apply_rules(s, clean_up_rules(), clean_up_rules().len() as int)
}

/// The ids that decoding reads: all of them, or those that are not special
/// when special tokens are skipped.
pub open spec fn kept_ids(ids: Seq<i64>, skip: bool, special: Map<i64, Seq<char>>) -> Seq<i64>
    decreases ids.len(),
{
    if ids.len() == 0 {
        Seq::empty()
    } else {
        let prev = kept_ids(ids.drop_last(), skip, special);
        if skip && special.contains_key(ids.last()) {
            prev
        } else {
            prev.push(ids.last())
        }
    }
}

/// Tidies the spaces of decoded text; see `clean_up_rules`.
pub fn clean_up_tokenization(text: String) -> (r: String)
    ensures
        r@ == spec_clean_up(text@),
{
    let rules: Vec<(Vec<char>, Vec<char>)> = vec![
        (vec![' ', '.'], vec!['.']),
        (vec![' ', '!'], vec!['!']),
        (vec![' ', '?'], vec!['?']),
        (vec![' ', ','], vec![',']),
        (vec![' ', '\'', ' '], vec!['\'']),
        (vec![' ', 'n', '\'', 't'], vec!['n', '\'', 't']),
        (vec![' ', '\'', 'm'], vec!['\'', 'm']),
        (vec![' ', 'd', 'o', ' ', 'n', 'o', 't'], vec![' ', 'd', 'o', 'n', '\'', 't']),
        (vec![' ', '\'', 's'], vec!['\'', 's']),
        (vec![' ', '\'', 'v', 'e'], vec!['\'', 'v', 'e']),
        (vec![' ', '\'', 'r', 'e'], vec!['\'', 'r', 'e']),
    ];
    let ghost spec_rules = clean_up_rules();
    assert(rules@.len() == spec_rules.len());
    assert forall|j: int| 0 <= j < rules@.len() implies (#[trigger] rules@[j]).0@ == spec_rules[j].0
        && rules@[j].1@ == spec_rules[j].1 && rules@[j].0@.len() > 0 by {
        assert(rules@[0].0@ =~= spec_rules[0].0);
        assert(rules@[0].1@ =~= spec_rules[0].1);
        assert(rules@[1].0@ =~= spec_rules[1].0);
        assert(rules@[1].1@ =~= spec_rules[1].1);
        assert(rules@[2].0@ =~= spec_rules[2].0);
        assert(rules@[2].1@ =~= spec_rules[2].1);
        assert(rules@[3].0@ =~= spec_rules[3].0);
        assert(rules@[3].1@ =~= spec_rules[3].1);
        assert(rules@[4].0@ =~= spec_rules[4].0);
        assert(rules@[4].1@ =~= spec_rules[4].1);
        assert(rules@[5].0@ =~= spec_rules[5].0);
        assert(rules@[5].1@ =~= spec_rules[5].1);
        assert(rules@[6].0@ =~= spec_rules[6].0);
        assert(rules@[6].1@ =~= spec_rules[6].1);
        assert(rules@[7].0@ =~= spec_rules[7].0);
        assert(rules@[7].1@ =~= spec_rules[7].1);
        assert(rules@[8].0@ =~= spec_rules[8].0);
        assert(rules@[8].1@ =~= spec_rules[8].1);
        assert(rules@[9].0@ =~= spec_rules[9].0);
        assert(rules@[9].1@ =~= spec_rules[9].1);
        assert(rules@[10].0@ =~= spec_rules[10].0);
        assert(rules@[10].1@ =~= spec_rules[10].1);
    }
    let mut cur = chars_of(text.as_str());
    let mut k: usize = 0;
    while k < rules.len()
        invariant
            k <= rules@.len(),
            rules@.len() == spec_rules.len(),
            spec_rules == clean_up_rules(),
            forall|j: int| 0 <= j < rules@.len() ==> (#[trigger] rules@[j]).0@ == spec_rules[j].0
                && rules@[j].1@ == spec_rules[j].1 && rules@[j].0@.len() > 0,
            cur@ == apply_rules(text@, spec_rules, k as int),
        decreases rules.len() - k,
    {
        cur = replace_chars(&cur, &rules[k].0, &rules[k].1);
        k = k + 1;
    }
    string_of_chars(&cur)
}

impl GptNeoXTokenizer {
    /// Turns tokens back into text: joins them, removes ` ##` markers, trims
    /// white space, reads each character as the byte it stands for, and
    /// decodes the bytes as UTF-8, replacing invalid sequences.
    pub fn convert_tokens_to_string(&self, tokens: Vec<String>) -> (r: String)
        requires
            in_byte_alphabet(cleaned_chars(string_views(tokens@))),
        ensures
            r@ == spec_convert_tokens_to_string(string_views(tokens@)),
            valid_utf8(byte_values(cleaned_chars(string_views(tokens@)))) ==> r@ == decode_utf8(
                byte_values(cleaned_chars(string_views(tokens@))),
            ),
    {
        let joined = concat_chars(&tokens);
        let pat = vec![' ', '#', '#'];
        let rep: Vec<char> = Vec::new();
        assert(pat@ =~= marker());
        assert(rep@ =~= Seq::<char>::empty());
        let replaced = replace_chars(&joined, &pat, &rep);
        let trimmed = trim_chars(&replaced);
        let ghost cleaned = cleaned_chars(string_views(tokens@));
        assert(trimmed@ == cleaned);
        let mut bytes: Vec<u8> = Vec::with_capacity(trimmed.len());
        let mut k: usize = 0;
        while k < trimmed.len()
            invariant
                k <= trimmed.len(),
                trimmed@ == cleaned,
                in_byte_alphabet(cleaned),
                bytes@ == byte_values(cleaned).take(k as int),
            decreases trimmed.len() - k,
        {
            assert(spec_char_to_byte(cleaned[k as int]) is Some);
            let b = char_to_byte(trimmed[k]).unwrap();
            bytes.push(b);
            k = k + 1;
            assert(bytes@ =~= byte_values(cleaned).take(k as int));
        }
        assert(byte_values(cleaned).take(k as int) =~= byte_values(cleaned));
        string_from_utf8_lossy(bytes.as_slice())
    }

    /// The tokens that decoding `ids` reads.
    pub open spec fn decoded_tokens(&self, ids: Seq<i64>, skip_special_tokens: bool) -> Seq<Seq<char>> {
        kept_ids(ids, skip_special_tokens, self.spec_vocab().special_indices_map()).map_values(
            |id: i64| self.spec_vocab().spec_id_to_token(id),
        )
    }

    /// The text of `ids`; see `decode`.
    pub open spec fn spec_decode(&self, ids: Seq<i64>, skip_special_tokens: bool, clean_up: bool) -> Seq<
        char,
    > {
        let s = spec_convert_tokens_to_string(self.decoded_tokens(ids, skip_special_tokens));
        if clean_up {
            spec_clean_up(s)
        } else {
            s
        }
    }

    /// The text of `ids` when their bytes are valid UTF-8: those bytes
    /// decoded, with the spaces tidied when asked.
    pub open spec fn valid_decode(&self, ids: Seq<i64>, skip_special_tokens: bool, clean_up: bool) -> Seq<
        char,
    > {
        let s = decode_utf8(byte_values(cleaned_chars(self.decoded_tokens(ids, skip_special_tokens))));
        if clean_up {
            spec_clean_up(s)
        } else {
            s
        }
    }

    /// Decodes ids to text: each id becomes its token (special ids are
    /// left out when asked), the tokens are turned back into text, and the
    /// spaces are tidied when asked.
    pub fn decode(&self, token_ids: &Vec<i64>, skip_special_tokens: bool, clean_up_tokenization_spaces: bool) -> (r: String)
        requires
            in_byte_alphabet(cleaned_chars(self.decoded_tokens(token_ids@, skip_special_tokens))),
        ensures
            r@ == self.spec_decode(token_ids@, skip_special_tokens, clean_up_tokenization_spaces),
            valid_utf8(byte_values(cleaned_chars(self.decoded_tokens(token_ids@, skip_special_tokens))))
                ==> r@ == self.valid_decode(token_ids@, skip_special_tokens, clean_up_tokenization_spaces),
    {
        let ghost special = self.spec_vocab().special_indices_map();
        let mut tokens: Vec<String> = Vec::new();
        let mut k: usize = 0;
        while k < token_ids.len()
            invariant
                k <= token_ids.len(),
                special == self.spec_vocab().special_indices_map(),
                string_views(tokens@) == kept_ids(token_ids@.take(k as int), skip_special_tokens, special).map_values(
                    |id: i64| self.spec_vocab().spec_id_to_token(id),
                ),
            decreases token_ids.len() - k,
        {
            let id = token_ids[k];
            let ghost prefix = token_ids@.take(k + 1);
            assert(prefix.drop_last() =~= token_ids@.take(k as int));
            assert(prefix.last() == id);
            if skip_special_tokens && self.vocab.is_special_id(id) {
            } else {
                let t = self.vocab.id_to_token(id);
                proof {
                    crate::bpe::lemma_string_views_push(tokens@, t);
                }
                tokens.push(t);
                assert(string_views(tokens@) =~= kept_ids(prefix, skip_special_tokens, special).map_values(
                    |id: i64| self.spec_vocab().spec_id_to_token(id),
                ));
            }
            k = k + 1;
        }
        assert(token_ids@.take(k as int) =~= token_ids@);
        let decoded = self.convert_tokens_to_string(tokens);
        if clean_up_tokenization_spaces {
            clean_up_tokenization(decoded)
        } else {
            decoded
        }
    }

    /// Decodes each list of ids.
    pub fn decode_list(&self, token_ids_list: &Vec<Vec<i64>>, skip_special_tokens: bool, clean_up_tokenization_spaces: bool) -> (r: Vec<String>)
        requires
            forall|i: int|
                0 <= i < token_ids_list@.len() ==> in_byte_alphabet(
                    cleaned_chars(self.decoded_tokens((#[trigger] token_ids_list@[i])@, skip_special_tokens)),
                ),
        ensures
            r@.len() == token_ids_list@.len(),
            forall|i: int|
                0 <= i < r@.len() ==> (#[trigger] r@[i])@ == self.spec_decode(
                    token_ids_list@[i]@,
                    skip_special_tokens,
                    clean_up_tokenization_spaces,
                ),
            forall|i: int|
                0 <= i < r@.len() && valid_utf8(
                    byte_values(cleaned_chars(self.decoded_tokens(token_ids_list@[i]@, skip_special_tokens))),
                ) ==> (#[trigger] r@[i])@ == self.valid_decode(
                    token_ids_list@[i]@,
                    skip_special_tokens,
                    clean_up_tokenization_spaces,
                ),
    {
        let mut r: Vec<String> = Vec::with_capacity(token_ids_list.len());
        let mut k: usize = 0;
        while k < token_ids_list.len()
            invariant
                k <= token_ids_list.len(),
                forall|i: int|
                    0 <= i < token_ids_list@.len() ==> in_byte_alphabet(
                        cleaned_chars(self.decoded_tokens((#[trigger] token_ids_list@[i])@, skip_special_tokens)),
                    ),
                r@.len() == k,
                forall|i: int|
                    0 <= i < k ==> (#[trigger] r@[i])@ == self.spec_decode(
                        token_ids_list@[i]@,
                        skip_special_tokens,
                        clean_up_tokenization_spaces,
                    ),
                forall|i: int|
                    0 <= i < k && valid_utf8(
                        byte_values(cleaned_chars(self.decoded_tokens(token_ids_list@[i]@, skip_special_tokens))),
                    ) ==> (#[trigger] r@[i])@ == self.valid_decode(
                        token_ids_list@[i]@,
                        skip_special_tokens,
                        clean_up_tokenization_spaces,
                    ),
            decreases token_ids_list.len() - k,
        {
            let d = self.decode(&token_ids_list[k], skip_special_tokens, clean_up_tokenization_spaces);
            r.push(d);
            k = k + 1;
        }
        r
    }
}

proof fn lemma_replace_without_space(x: Seq<char>)
    requires
        forall|i: int| 0 <= i < x.len() ==> x[i] != ' ',
    ensures
        replace_all(x, marker(), Seq::empty()) == x,
    decreases x.len(),
{
    if x.len() > 0 {
        assert(!marker().is_prefix_of(x)) by {
            assert(marker()[0] == ' ');
            assert(x[0] != ' ');
        }
        lemma_replace_without_space(x.skip(1));
        assert(seq![x[0]] + x.skip(1) =~= x);
    }
}

proof fn lemma_trim_without_whitespace(x: Seq<char>)
    requires
        forall|i: int| 0 <= i < x.len() ==> !spec_is_whitespace(x[i]),
    ensures
        spec_trim(x) == x,
{
    let t = x.subrange(0, trim_end_len(x) as int);
    if x.len() > 0 {
        assert(x.last() == x[x.len() - 1]);
    }
    assert(t =~= x);
    if x.len() > 0 {
        assert(!spec_is_whitespace(t[0]));
    }
    assert(t.subrange(leading_ws_len(t) as int, t.len() as int) =~= x);
}

/// Decoding is the inverse of the byte alphabet: any pieces that spell a
/// text in the byte alphabet pass the alphabet check, stand for exactly the
/// UTF-8 bytes of the text, and those bytes are valid UTF-8 that decodes to
/// the text. So `convert_tokens_to_string` gives such pieces back as the text.
pub proof fn lemma_pieces_decode_to_text(text: Seq<char>, pieces: Seq<Seq<char>>)
    requires
        pieces.flatten() == byte_text(text),
    ensures
        in_byte_alphabet(cleaned_chars(pieces)),
        byte_values(cleaned_chars(pieces)) == encode_utf8(text),
        valid_utf8(byte_values(cleaned_chars(pieces))),
        decode_utf8(byte_values(cleaned_chars(pieces))) == text,
{
    let bytes = encode_utf8(text);
    let x = byte_text(text);
    assert forall|i: int| 0 <= i < x.len() implies !spec_is_whitespace(x[i]) && x[i] != ' ' by {
        lemma_byte_char_not_whitespace(bytes[i]);
    }
    lemma_replace_without_space(x);
    lemma_trim_without_whitespace(x);
    assert(cleaned_chars(pieces) == x);
    assert forall|i: int| 0 <= i < x.len() implies (#[trigger] spec_char_to_byte(x[i])) is Some by {
        lemma_byte_char_round_trip(bytes[i]);
    }
    assert(byte_values(x) =~= bytes) by {
        assert forall|i: int| 0 <= i < x.len() implies byte_values(x)[i] == bytes[i] by {
            lemma_byte_char_round_trip(bytes[i]);
        }
    }
    vstd::utf8::encode_utf8_valid_utf8(text);
    vstd::utf8::encode_utf8_decode_utf8(text);
}

/// The texts of the byte-level BPE tokens of a text spell the text in the
/// byte alphabet, so decoding them gives the text back.
pub proof fn lemma_bpe_tokens_decode_to_text(
    text: Seq<char>,
    refs: Seq<OffsetSize>,
    m: Map<(Seq<char>, Seq<char>), i64>,
)
    ensures
        ({
            let pieces = spec_split_on_bpe_pairs(text, refs, m).map_values(|t: TokenView| t.text);
            &&& pieces.flatten() == byte_text(text)
            &&& in_byte_alphabet(cleaned_chars(pieces))
            &&& valid_utf8(byte_values(cleaned_chars(pieces)))
            &&& decode_utf8(byte_values(cleaned_chars(pieces))) == text
        }),
{
    let bt = byte_text(text);
    let ps = spec_bpe(singletons(bt), m);
    lemma_singletons_flatten(bt);
    lemma_bpe_keeps_text(singletons(bt), m);
    let pieces = spec_split_on_bpe_pairs(text, refs, m).map_values(|t: TokenView| t.text);
    assert(pieces =~= ps);
    lemma_pieces_decode_to_text(text, pieces);
}

/// Positions stay in range through flattening.
pub proof fn lemma_flatten_fits(lists: Seq<Seq<TokenView>>, bound: int)
    requires
        forall|i: int, j: int|
            0 <= i < lists.len() && 0 <= j < lists[i].len() ==> refs_fit(#[trigger] lists[i][j], bound),
    ensures
        forall|k: int| 0 <= k < lists.flatten().len() ==> refs_fit(#[trigger] lists.flatten()[k], bound),
    decreases lists.len(),
{
    if lists.len() > 0 {
        let rest = lists.drop_first();
        assert forall|i: int, j: int| 0 <= i < rest.len() && 0 <= j < rest[i].len() implies refs_fit(#[trigger] rest[i][j], bound) by {
            assert(rest[i] == lists[i + 1]);
        }
        lemma_flatten_fits(rest, bound);
        let f = lists.flatten();
        assert(f == lists[0] + rest.flatten());
        assert forall|k: int| 0 <= k < f.len() implies refs_fit(#[trigger] f[k], bound) by {
            if k < lists[0].len() {
                assert(f[k] == lists[0][k]);
            } else {
                assert(f[k] == rest.flatten()[k - lists[0].len()]);
            }
        }
    }
}

impl GptNeoXTokenizer {
    /// Positions stay below `bound` through the processing of one piece.
    pub proof fn lemma_process_piece_fits(&self, t: TokenView, bound: int)
        requires
            refs_fit(t, bound),
        ensures
            forall|k: int| 0 <= k < self.spec_process_piece(t).len() ==> refs_fit(#[trigger] self.spec_process_piece(t)[k], bound),
    {
        if t.mask != Mask::Special && t.mask != Mask::Unknown {
            let lowered = if self.lowers() { spec_lowercase(t) } else { t };
            if self.lowers() {
                lemma_lowercase_fits(t, bound);
            }
            let words = spec_split_on_regex(lowered, lookahead_source(), tokenization_source());
            lemma_regex_split_fits(lowered, lookahead_source(), tokenization_source(), bound);
            let lists = words.map_values(
                |w: TokenView| spec_split_on_bpe_pairs(w.text, w.reference_offsets, self.merges()),
            );
            assert forall|i: int, j: int| 0 <= i < lists.len() && 0 <= j < lists[i].len() implies refs_fit(#[trigger] lists[i][j], bound) by {
                lemma_bpe_split_fits(words[i], self.merges(), bound);
            }
            lemma_flatten_fits(lists, bound);
        }
    }
}

/// Every token of a text points into the text: each of its positions is a
/// character position of the text, and its offset range ends within the
/// text.
pub proof fn lemma_tokens_point_into_text(tok: GptNeoXTokenizer, text: Seq<char>)
    requires
        0 < text.len(),
        text.len() + 1 < u32::MAX,
    ensures
        ({
            let (toks, offs, refs, masks) = tok.spec_tokenize_with_offsets(text);
            &&& forall|k: int, i: int|
                0 <= k < refs.len() && 0 <= i < refs[k].len() ==> #[trigger] refs[k][i] < text.len()
            &&& forall|k: int|
                0 <= k < offs.len() ==> (#[trigger] offs[k] matches Some(o) ==> o.end <= text.len())
            &&& offs.len() == toks.len() && refs.len() == toks.len() && masks.len() == toks.len()
        }),
{
    let n = text.len() as int;
    let initial = TokenView {
        text,
        offset: Offset { begin: 0, end: text.len() as OffsetSize },
        reference_offsets: Seq::new(text.len(), |i: int| i as OffsetSize),
        mask: Mask::Plain,
    };
    let pre = with_prefix_space(initial, tok.prefixes());
    assert(refs_fit(pre, n)) by {
        if pre != initial {
            assert forall|i: int| 0 <= i < pre.reference_offsets.len() implies (#[trigger] pre.reference_offsets[i] as int) < n by {
                if i > 0 {
                    assert(pre.reference_offsets[i] == initial.reference_offsets[i - 1]);
                }
            }
        }
    }
    let pieces = spec_split_on_special_tokens(pre, tok.spec_vocab().specials(), tok.spec_vocab().unk());
    lemma_special_split_fits(pre, tok.spec_vocab().specials(), tok.spec_vocab().unk(), n);
    let lists = pieces.map_values(|p: TokenView| tok.spec_process_piece(p));
    assert forall|i: int, j: int| 0 <= i < lists.len() && 0 <= j < lists[i].len() implies refs_fit(#[trigger] lists[i][j], n) by {
        tok.lemma_process_piece_fits(pieces[i], n);
    }
    lemma_flatten_fits(lists, n);
    let ts = tok.spec_tokenize_to_tokens(initial);
    assert forall|k: int| 0 <= k < ts.len() implies refs_fit(#[trigger] ts[k], n) by {
        assert(ts[k].reference_offsets == lists.flatten()[k].reference_offsets);
        assert(ts[k].text == lists.flatten()[k].text);
    }
    let (toks, offs, refs, masks) = tok.spec_tokenize_with_offsets(text);
    assert forall|k: int, i: int| 0 <= k < refs.len() && 0 <= i < refs[k].len() implies #[trigger] refs[k][i] < text.len() by {
        assert(refs[k] == ts[k].reference_offsets);
        assert(refs_fit(ts[k], n));
    }
    assert forall|k: int| 0 <= k < offs.len() implies (#[trigger] offs[k] matches Some(o) ==> o.end <= text.len()) by {
        assert(offs[k] == token_offset(ts[k]));
        assert(refs_fit(ts[k], n));
        if ts[k].reference_offsets.len() > 0 {
            let last = ts[k].reference_offsets.last();
            assert(last == ts[k].reference_offsets[ts[k].reference_offsets.len() - 1]);
        }
    }
}

/// The words that the two pre-tokenization expressions find in a plain text
/// spell the text: either the lookahead matches do not fit, and the text is
/// kept whole, or all the words laid end to end give the text.
pub open spec fn words_cover(text: Seq<char>) -> bool {
    let hits = crate::pattern::char_spans(
        text,
        crate::pattern::regex_match_spans(lookahead_source(), text),
    );
    !crate::split::hits_ok(hits) || crate::split::all_words(
        text,
        tokenization_source(),
        crate::split::lookahead_cuts(hits, text.len() as int),
    ).flatten() == text
}

/// The text a tokenizer works on: `text` with a space in front when `add`
/// is set and the text is not empty and does not start with a space.
pub open spec fn prefixed(text: Seq<char>, add: bool) -> Seq<char> {
    if add && text.len() > 0 && text[0] != ' ' {
        seq![' '] + text
    } else {
        text
    }
}

/// The texts of tokens.
pub open spec fn token_texts(ts: Seq<TokenView>) -> Seq<Seq<char>> {
    ts.map_values(|t: TokenView| t.text)
}

proof fn lemma_texts_flatten(lists: Seq<Seq<TokenView>>)
    ensures
        token_texts(lists.flatten()).flatten() == lists.map_values(
            |l: Seq<TokenView>| token_texts(l).flatten(),
        ).flatten(),
    decreases lists.len(),
{
    if lists.len() > 0 {
        let rest = lists.drop_first();
        lemma_texts_flatten(rest);
        assert(token_texts(lists[0] + rest.flatten()) =~= token_texts(lists[0]) + token_texts(
            rest.flatten(),
        ));
        vstd::seq_lib::lemma_flatten_concat(token_texts(lists[0]), token_texts(rest.flatten()));
        assert(lists.map_values(|l: Seq<TokenView>| token_texts(l).flatten()).drop_first()
            =~= rest.map_values(|l: Seq<TokenView>| token_texts(l).flatten()));
    }
}

proof fn lemma_byte_text_concat(a: Seq<char>, b: Seq<char>)
    ensures
        byte_text(a + b) == byte_text(a) + byte_text(b),
{
    crate::unicode::lemma_encode_utf8_concat(a, b);
    assert(crate::bytes::spec_bytes_to_chars(encode_utf8(a) + encode_utf8(b)) =~= crate::bytes::spec_bytes_to_chars(encode_utf8(a))
        + crate::bytes::spec_bytes_to_chars(encode_utf8(b)));
}

proof fn lemma_byte_text_flatten(ws: Seq<Seq<char>>)
    ensures
        ws.map_values(|w: Seq<char>| byte_text(w)).flatten() == byte_text(ws.flatten()),
    decreases ws.len(),
{
    if ws.len() == 0 {
        assert(byte_text(Seq::empty()) =~= Seq::<char>::empty());
    } else {
        lemma_byte_text_flatten(ws.drop_first());
        lemma_byte_text_concat(ws[0], ws.drop_first().flatten());
        assert(ws.map_values(|w: Seq<char>| byte_text(w)).drop_first() =~= ws.drop_first().map_values(
            |w: Seq<char>| byte_text(w),
        ));
    }
}

impl GptNeoXTokenizer {
    /// Without lower-casing, the pieces of a plain token whose words cover
    /// its text spell that text in the byte alphabet.
    proof fn lemma_process_piece_texts(&self, t: TokenView)
        requires
            t.mask == Mask::Plain,
            !self.lowers(),
            words_cover(t.text),
        ensures
            token_texts(self.spec_process_piece(t)).flatten() == byte_text(t.text),
    {
        let ws = spec_split_on_regex(t, lookahead_source(), tokenization_source());
        assert(token_texts(ws).flatten() == t.text) by {
            if ws == seq![t] {
                assert(token_texts(ws) =~= seq![t.text]);
                seq![t.text].lemma_flatten_one_element();
            } else {
                let hits = crate::pattern::char_spans(
                    t.text,
                    crate::pattern::regex_match_spans(lookahead_source(), t.text),
                );
                let words = crate::split::all_words(
                    t.text,
                    tokenization_source(),
                    crate::split::lookahead_cuts(hits, t.text.len() as int),
                );
                assert(token_texts(ws) =~= words);
            }
        }
        let m = self.merges();
        let lists = ws.map_values(
            |w: TokenView| spec_split_on_bpe_pairs(w.text, w.reference_offsets, m),
        );
        lemma_texts_flatten(lists);
        assert forall|k: int| 0 <= k < ws.len() implies token_texts(#[trigger] lists[k]).flatten()
            == byte_text(ws[k].text) by {
            lemma_bpe_tokens_decode_to_text(ws[k].text, ws[k].reference_offsets, m);
            assert(token_texts(lists[k]) =~= spec_split_on_bpe_pairs(ws[k].text, ws[k].reference_offsets, m).map_values(
                |x: TokenView| x.text,
            ));
        }
        assert(lists.map_values(|l: Seq<TokenView>| token_texts(l).flatten()) =~= token_texts(ws).map_values(
            |w: Seq<char>| byte_text(w),
        ));
        lemma_byte_text_flatten(token_texts(ws));
    }
}

/// Without lower-casing, decoding the tokens of a text gives the text back,
/// with the space put in front of it when asked: the tokens are in the byte
/// alphabet and stand for the valid UTF-8 of that text. This holds when no
/// special value of the vocabulary occurs in the text and the words that
/// the pre-tokenization expressions find in it spell it.
pub proof fn lemma_tokens_decode_to_text(tok: GptNeoXTokenizer, text: Seq<char>)
    requires
        !tok.lowers(),
        forall|i: int|
            0 <= i < prefixed(text, tok.prefixes()).len() ==> #[trigger] crate::split::special_at(
                prefixed(text, tok.prefixes()),
                tok.spec_vocab().specials(),
                i,
            ) is None,
        words_cover(prefixed(text, tok.prefixes())),
    ensures
        ({
            let toks = tok.spec_tokenize_with_offsets(text).0;
            let full = prefixed(text, tok.prefixes());
            &&& in_byte_alphabet(cleaned_chars(toks))
            &&& valid_utf8(byte_values(cleaned_chars(toks)))
            &&& decode_utf8(byte_values(cleaned_chars(toks))) == full
        }),
{
    let full = prefixed(text, tok.prefixes());
    let toks = tok.spec_tokenize_with_offsets(text).0;
    if text.len() == 0 {
        assert(toks.flatten() =~= byte_text(full));
        lemma_pieces_decode_to_text(full, toks);
    } else {
        let initial = TokenView {
            text,
            offset: Offset { begin: 0, end: text.len() as OffsetSize },
            reference_offsets: Seq::new(text.len(), |i: int| i as OffsetSize),
            mask: Mask::Plain,
        };
        let pre = with_prefix_space(initial, tok.prefixes());
        assert(pre.text == full);
        let specials = tok.spec_vocab().specials();
        let unk = tok.spec_vocab().unk();
        crate::split::lemma_no_specials_one_piece(full, specials, unk, 0, 0);
        let pieces = spec_split_on_special_tokens(pre, specials, unk);
        assert(pieces.len() == 1);
        let p0 = pieces[0];
        assert(p0 == crate::split::piece_token(pre, (0, full.len() as int, Mask::Plain)));
        assert(p0.text =~= full);
        let lists = pieces.map_values(|p: TokenView| tok.spec_process_piece(p));
        assert(lists =~= seq![tok.spec_process_piece(p0)]);
        lists.lemma_flatten_one_element();
        let flat = lists.flatten();
        tok.lemma_process_piece_texts(p0);
        let ts = tok.spec_tokenize_to_tokens(initial);
        assert(ts == spec_fix_token_masks(flat));
        assert(token_texts(ts) =~= token_texts(flat));
        assert(toks == token_texts(ts));
        lemma_pieces_decode_to_text(full, toks);
    }
}

/// Text in the byte alphabet is what `convert_tokens_to_string` cleans it
/// to: it holds no white space, so neither the marker removal nor the trim
/// changes it.
proof fn lemma_alphabet_text_is_clean(x: Seq<Seq<char>>)
    requires
        in_byte_alphabet(x.flatten()),
    ensures
        cleaned_chars(x) == x.flatten(),
{
    let f = x.flatten();
    assert forall|i: int| 0 <= i < f.len() implies !spec_is_whitespace(f[i]) && f[i] != ' ' by {
        let b = spec_char_to_byte(f[i])->0;
        crate::bytes::lemma_char_byte_round_trip(f[i]);
        lemma_byte_char_not_whitespace(b);
    }
    lemma_replace_without_space(f);
    lemma_trim_without_whitespace(f);
}

/// Decoding joined token lists joins their texts: when every character of
/// two token lists is in the byte alphabet and each list stands for valid
/// UTF-8, the joined list stands for valid UTF-8 too, and decodes to the two
/// texts joined.
pub proof fn lemma_convert_tokens_concat(a: Seq<Seq<char>>, b: Seq<Seq<char>>)
    requires
        in_byte_alphabet(a.flatten()),
        in_byte_alphabet(b.flatten()),
        valid_utf8(byte_values(cleaned_chars(a))),
        valid_utf8(byte_values(cleaned_chars(b))),
    ensures
        in_byte_alphabet(cleaned_chars(a + b)),
        valid_utf8(byte_values(cleaned_chars(a + b))),
        decode_utf8(byte_values(cleaned_chars(a + b))) == decode_utf8(byte_values(cleaned_chars(a)))
            + decode_utf8(byte_values(cleaned_chars(b))),
{
    vstd::seq_lib::lemma_flatten_concat(a, b);
    let fa = a.flatten();
    let fb = b.flatten();
    assert((a + b).flatten() == fa + fb);
    assert(in_byte_alphabet(fa + fb)) by {
        assert forall|i: int| 0 <= i < (fa + fb).len() implies (#[trigger] spec_char_to_byte((fa + fb)[i])) is Some by {
            if i < fa.len() {
                assert((fa + fb)[i] == fa[i]);
            } else {
                assert((fa + fb)[i] == fb[i - fa.len()]);
            }
        }
    }
    lemma_alphabet_text_is_clean(a);
    lemma_alphabet_text_is_clean(b);
    lemma_alphabet_text_is_clean(a + b);
    let ba = byte_values(fa);
    let bb = byte_values(fb);
    assert(byte_values(fa + fb) =~= ba + bb);
    vstd::utf8::valid_utf8_concat(ba, bb);
    let da = decode_utf8(ba);
    let db = decode_utf8(bb);
    vstd::utf8::decode_utf8_encode_utf8(ba);
    vstd::utf8::decode_utf8_encode_utf8(bb);
    crate::unicode::lemma_encode_utf8_concat(da, db);
    vstd::utf8::encode_utf8_decode_utf8(da + db);
}

/// Asking for a prefix space is tokenizing the token with a space put in
/// front, at position 0: of two tokenizers that differ only in that flag,
/// the one that asks for it gives for a token what the other gives for the
/// token with the space; for an empty text or one that starts with a space,
/// both give the same tokens.
pub proof fn lemma_prefix_space(t1: GptNeoXTokenizer, t0: GptNeoXTokenizer, t: TokenView)
    requires
        t1.spec_vocab() == t0.spec_vocab(),
        t1.merges() == t0.merges(),
        t1.lowers() == t0.lowers(),
        t1.prefixes(),
        !t0.prefixes(),
    ensures
        t1.spec_tokenize_to_tokens(t) == t0.spec_tokenize_to_tokens(with_prefix_space(t, true)),
        t.text.len() == 0 || t.text[0] == ' ' ==> t1.spec_tokenize_to_tokens(t)
            == t0.spec_tokenize_to_tokens(t),
{
    let pre = with_prefix_space(t, true);
    assert(with_prefix_space(pre, false) == pre);
    let pieces = spec_split_on_special_tokens(pre, t1.spec_vocab().specials(), t1.spec_vocab().unk());
    assert(pieces.map_values(|p: TokenView| t1.spec_process_piece(p)) =~= pieces.map_values(
        |p: TokenView| t0.spec_process_piece(p),
    ));
}

/// The BPE tokens of the words of a plain token depend on its text and its
/// positions only, not on its offset, as long as the offset leaves room for
/// the text.
proof fn lemma_words_bpe_offset_free(a: TokenView, b: TokenView, m: Map<(Seq<char>, Seq<char>), i64>)
    requires
        a.text == b.text,
        a.reference_offsets == b.reference_offsets,
        a.mask == Mask::Plain,
        b.mask == Mask::Plain,
        a.offset.begin + a.reference_offsets.len() <= u32::MAX,
        b.offset.begin + b.reference_offsets.len() <= u32::MAX,
    ensures
        spec_split_on_regex(a, lookahead_source(), tokenization_source()).map_values(
            |w: TokenView| spec_split_on_bpe_pairs(w.text, w.reference_offsets, m),
        ) == spec_split_on_regex(b, lookahead_source(), tokenization_source()).map_values(
            |w: TokenView| spec_split_on_bpe_pairs(w.text, w.reference_offsets, m),
        ),
{
    let wa = spec_split_on_regex(a, lookahead_source(), tokenization_source());
    let wb = spec_split_on_regex(b, lookahead_source(), tokenization_source());
    assert(wa.len() == wb.len());
    assert forall|k: int| 0 <= k < wa.len() implies wa[k].text == wb[k].text
        && wa[k].reference_offsets == wb[k].reference_offsets by {}
    assert(wa.map_values(|w: TokenView| spec_split_on_bpe_pairs(w.text, w.reference_offsets, m))
        =~= wb.map_values(|w: TokenView| spec_split_on_bpe_pairs(w.text, w.reference_offsets, m)));
}

/// Lower-casing ASCII text is tokenizing its ASCII lower case: of two
/// tokenizers that differ only in lower-casing, the one that lower-cases
/// gives for a plain token of ASCII text what the other gives for the token
/// with that text lower-cased, when no special value occurs in either text
/// (with the prefix space when asked) and the positions leave room for the
/// text within `u32`.
pub proof fn lemma_lowercase_ascii(tl: GptNeoXTokenizer, tn: GptNeoXTokenizer, t: TokenView)
    requires
        tl.spec_vocab() == tn.spec_vocab(),
        tl.merges() == tn.merges(),
        tl.prefixes() == tn.prefixes(),
        tl.lowers(),
        !tn.lowers(),
        t.mask == Mask::Plain,
        crate::split::ascii_text(t.text),
        t.reference_offsets.len() == t.text.len(),
        t.offset.begin + t.text.len() + 1 <= u32::MAX,
        forall|i: int| 0 <= i < t.text.len() ==> #[trigger] t.reference_offsets[i] + t.text.len() + 1 <= u32::MAX,
        forall|i: int|
            0 <= i < with_prefix_space(t, tl.prefixes()).text.len() ==> #[trigger] crate::split::special_at(
                with_prefix_space(t, tl.prefixes()).text,
                tl.spec_vocab().specials(),
                i,
            ) is None,
        forall|i: int|
            0 <= i < with_prefix_space(
                TokenView { text: crate::split::ascii_lower_text(t.text), ..t },
                tl.prefixes(),
            ).text.len() ==> #[trigger] crate::split::special_at(
                with_prefix_space(
                    TokenView { text: crate::split::ascii_lower_text(t.text), ..t },
                    tl.prefixes(),
                ).text,
                tl.spec_vocab().specials(),
                i,
            ) is None,
    ensures
        tl.spec_tokenize_to_tokens(t) == tn.spec_tokenize_to_tokens(
            TokenView { text: crate::split::ascii_lower_text(t.text), ..t },
        ),
{
    let tlow = TokenView { text: crate::split::ascii_lower_text(t.text), ..t };
    let specials = tl.spec_vocab().specials();
    let unk = tl.spec_vocab().unk();
    let pl = with_prefix_space(t, tl.prefixes());
    let pn = with_prefix_space(tlow, tl.prefixes());
    if t.text.len() > 0 {
        assert(tlow.text[0] == crate::unicode::ascii_lower(t.text[0]));
        assert(t.text[0] as u32 <= 127);
    }
    assert(pn.text =~= crate::split::ascii_lower_text(pl.text)) by {
        if pl != t {
            assert(crate::unicode::ascii_lower(' ') == ' ');
        }
    }
    assert(pn.reference_offsets == pl.reference_offsets);
    let n = pl.text.len() as int;
    crate::split::lemma_no_specials_one_piece(pl.text, specials, unk, 0, 0);
    crate::split::lemma_no_specials_one_piece(pn.text, specials, unk, 0, 0);
    let pieces_l = spec_split_on_special_tokens(pl, specials, unk);
    let pieces_n = spec_split_on_special_tokens(pn, specials, unk);
    if n == 0 {
        assert(pieces_l.map_values(|p: TokenView| tl.spec_process_piece(p)) =~= Seq::<Seq<TokenView>>::empty());
        assert(pieces_n.map_values(|p: TokenView| tn.spec_process_piece(p)) =~= Seq::<Seq<TokenView>>::empty());
    } else {
        let p_l = pieces_l[0];
        let p_n = pieces_n[0];
        assert(p_l.text =~= pl.text);
        assert(p_l.reference_offsets =~= pl.reference_offsets);
        assert(p_n.text =~= pn.text);
        assert(p_n.reference_offsets =~= pn.reference_offsets);
        assert forall|i: int| 0 <= i < pl.text.len() implies (#[trigger] pl.text[i] as u32) < 128 by {
            if pl != t && i > 0 {
                assert(pl.text[i] == t.text[i - 1]);
            }
        }
        crate::split::lemma_lower_ascii(p_l.text, p_l.reference_offsets);
        assert(p_l.reference_offsets.take(n) =~= p_l.reference_offsets);
        assert(p_l.text.take(n) =~= p_l.text);
        let low = spec_lowercase(p_l);
        assert(low.text == p_n.text);
        assert(low.reference_offsets == p_n.reference_offsets);
        assert(low.offset.begin + n <= u32::MAX) by {
            if pl != t {
                assert(pl.reference_offsets[0] == 0);
            } else {
                assert(t.reference_offsets[0] + t.text.len() + 1 <= u32::MAX);
            }
        }
        lemma_words_bpe_offset_free(low, p_n, tl.merges());
        assert(tl.spec_process_piece(p_l) == tn.spec_process_piece(p_n));
        assert(pieces_l.map_values(|p: TokenView| tl.spec_process_piece(p)) =~= pieces_n.map_values(
            |p: TokenView| tn.spec_process_piece(p),
        ));
    }
}

impl GptNeoXTokenizer {
    /// Where the special tokens go: when the beginning token is asked for
    /// and is a special value, every built input starts with its id, and so
    /// does the second sequence of a pair; when the end token is asked for
    /// and is a special value, every input ends with its id, and so does the
    /// first sequence of a pair. The tokens are the vocabulary's `bos_token`
    /// and `eos_token` (`<|endoftext|>` when not set), each marked special.
    /// Without them the input starts with the first sequence's ids and ends
    /// with the last sequence's ids.
    pub proof fn lemma_special_tokens_placement(&self, t1: IdsView, t2: Option<IdsView>)
        ensures
            ({
                let v = self.spec_vocab();
                let bos = match v.spec_special_token_map().bos_token {
                    Some(b) => b@,
                    None => crate::vocab::spec_default_special(),
                };
                let eos = match v.spec_special_token_map().eos_token {
                    Some(e) => e@,
                    None => crate::vocab::spec_default_special(),
                };
                let out = self.spec_build_input(t1, t2);
                let n1 = t1.ids.len() + (if self.bos_id() is Some { 1int } else { 0 }) + (if self.eos_id() is Some { 1int } else { 0 });
                &&& (self.adds_bos() && v.special_values_map().contains_key(bos)) ==> {
                    &&& out.token_ids[0] == v.special_values_map()[bos]
                    &&& out.mask[0] == Mask::Special
                    &&& out.special_tokens_mask[0] == 1
                    &&& (t2 is Some ==> out.token_ids[n1] == v.special_values_map()[bos])
                }
                &&& (self.adds_eos() && v.special_values_map().contains_key(eos)) ==> {
                    &&& out.token_ids.last() == v.special_values_map()[eos]
                    &&& out.mask.last() == Mask::Special
                    &&& out.special_tokens_mask.last() == 1
                    &&& (t2 is Some ==> out.token_ids[n1 - 1] == v.special_values_map()[eos])
                }
                &&& !self.adds_bos() ==> out.token_ids.take(t1.ids.len() as int) == t1.ids
                &&& (!self.adds_eos() && t2 is None) ==> out.token_ids == (if self.bos_id() is Some {
                    seq![self.bos_id()->0] + t1.ids
                } else {
                    t1.ids
                })
                &&& (!self.adds_eos() && t2 is Some) ==> out.token_ids.skip(
                    out.token_ids.len() - t2->0.ids.len(),
                ) == t2->0.ids
            }),
    {
        let v = self.spec_vocab();
        let out = self.spec_build_input(t1, t2);
        let first = section(self.bos_id(), t1, self.eos_id(), 0);
        assert(first.token_ids =~= special_part(self.bos_id(), 0).token_ids + t1.ids + special_part(
            self.eos_id(),
            0,
        ).token_ids);
        if let Some(b) = t2 {
            let second = section(self.bos_id(), b, self.eos_id(), 1);
            assert(second.token_ids =~= special_part(self.bos_id(), 1).token_ids + b.ids + special_part(
                self.eos_id(),
                1,
            ).token_ids);
            assert(out.token_ids =~= first.token_ids + second.token_ids);
            if !self.adds_eos() {
                assert(out.token_ids.skip(out.token_ids.len() - b.ids.len()) =~= b.ids);
            }
        }
        if !self.adds_bos() {
            assert(out.token_ids.take(t1.ids.len() as int) =~= t1.ids);
        }
    }
}

/// A text that ends with a special value ends with that value as its last
/// token, whole: take a token whose text (with the space put in front when
/// asked) is a text `t` followed by the `j`-th special value `v` of the
/// vocabulary (non-empty, with no value registered before it a prefix of
/// `v`), where no non-empty special value starts inside `t`. Its last token
/// is `v`, with the positions of `v`, marked `Unknown` when `v` is the
/// unknown token and `Special` otherwise.
pub proof fn lemma_tokens_end_with_special(tok: GptNeoXTokenizer, token: TokenView, t: Seq<char>, j: int)
    requires
        0 <= j < tok.spec_vocab().specials().len(),
        tok.spec_vocab().specials()[j].len() > 0,
        with_prefix_space(token, tok.prefixes()).text == t + tok.spec_vocab().specials()[j],
        token.reference_offsets.len() >= token.text.len(),
        forall|k: int|
            0 <= k < j ==> !tok.spec_vocab().specials()[k].is_prefix_of(tok.spec_vocab().specials()[j]),
        forall|p: int, k: int|
            0 <= p < t.len() && 0 <= k < tok.spec_vocab().specials().len()
                && tok.spec_vocab().specials()[k].len() > 0 ==> !(
            #[trigger] tok.spec_vocab().specials()[k]).is_prefix_of(
                #[trigger] with_prefix_space(token, tok.prefixes()).text.skip(p),
            ),
    ensures
        ({
            let ts = tok.spec_tokenize_to_tokens(token);
            let v = tok.spec_vocab().specials()[j];
            let pre = with_prefix_space(token, tok.prefixes());
            &&& ts.len() > 0
            &&& ts.last().text == v
            &&& ts.last().mask == (if v == tok.spec_vocab().unk() { Mask::Unknown } else { Mask::Special })
            &&& ts.last().reference_offsets == pre.reference_offsets.subrange(
                t.len() as int,
                pre.text.len() as int,
            )
        }),
{
    let specials = tok.spec_vocab().specials();
    let unk = tok.spec_vocab().unk();
    let pre = with_prefix_space(token, tok.prefixes());
    crate::split::lemma_special_value_at_end(pre, specials, unk, t, j);
    let pieces = spec_split_on_special_tokens(pre, specials, unk);
    let last = pieces.last();
    let lists = pieces.map_values(|p: TokenView| tok.spec_process_piece(p));
    assert(tok.spec_process_piece(last) == seq![last]);
    assert(lists =~= lists.drop_last() + seq![seq![last]]);
    vstd::seq_lib::lemma_flatten_concat(lists.drop_last(), seq![seq![last]]);
    seq![seq![last]].lemma_flatten_one_element();
    let flat = lists.flatten();
    assert(flat.last() == last);
    let ts = tok.spec_tokenize_to_tokens(token);
    assert(ts.last() == ts[flat.len() - 1]);
}

/// Moves the tokens of `more` to the end of `out`.
pub fn append_tokens(out: &mut Vec<Token>, more: Vec<Token>)
    ensures
        token_views(final(out)@) == token_views(old(out)@) + token_views(more@),
        final(out)@ == old(out)@ + more@,
{
    let mut more = more;
    let ghost m0 = more@;
    out.append(&mut more);
    assert(token_views(out@) =~= token_views(old(out)@) + token_views(m0));
}

} // verus!