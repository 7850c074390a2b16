//! Byte-pair encoding: the ranked merge table, one merge step and the full
//! merge loop.

use vstd::prelude::*;
use vstd::hash_map::StringHashMap;
use vstd::string::StringExecFns;
use crate::token::string_views;
use crate::unicode::{chars_of, push_char};

verus! {

/// The ranked merge table: a rank for some ordered pairs of symbols. A lower
/// rank merges first.
pub struct BpePairVocab {
    slots: StringHashMap<usize>,
    rights: Vec<StringHashMap<i64>>,
    inserted: Vec<(String, String, i64)>,
}

/// The ranks that a list of insertions gives, later ones replacing earlier
/// ones.
pub open spec fn inserted_ranks(log: Seq<(String, String, i64)>) -> Map<(Seq<char>, Seq<char>), i64>
    decreases log.len(),
{
    if log.len() == 0 {
        Map::empty()
    } else {
        inserted_ranks(log.drop_last()).insert((log.last().0@, log.last().1@), log.last().2)
    }
}

impl BpePairVocab {
    /// The rank of the pair `(left, right)`, if it has one.
    pub closed spec fn spec_rank(&self, left: Seq<char>, right: Seq<char>) -> Option<i64> {
        if self.slots@.contains_key(left) && self.slots@[left] < self.rights@.len()
            && self.rights@[self.slots@[left] as int]@.contains_key(right) {
            Some(self.rights@[self.slots@[left] as int]@[right])
        } else {
            None
        }
    }

    /// The merge table as a map from pairs of symbols to ranks.
    pub closed spec fn as_map(&self) -> Map<(Seq<char>, Seq<char>), i64> {
        Map::new(
            |p: (Seq<char>, Seq<char>)| self.spec_rank(p.0, p.1) is Some,
            |p: (Seq<char>, Seq<char>)| self.spec_rank(p.0, p.1).unwrap(),
        )
    }

    /// The table is well formed: every left symbol owns its own slot.
    pub closed spec fn wf(&self) -> bool {
        &&& forall|l: Seq<char>| #[trigger]
            self.slots@.contains_key(l) ==> self.slots@[l] < self.rights@.len()
        &&& forall|l1: Seq<char>, l2: Seq<char>|
            #[trigger] self.slots@.contains_key(l1) && #[trigger] self.slots@.contains_key(l2)
                && l1 != l2 ==> self.slots@[l1] != self.slots@[l2]
        &&& self.as_map() == inserted_ranks(self.inserted@)
    }

    /// An empty merge table.
    pub fn new() -> (r: BpePairVocab)
        ensures
            r.wf(),
            r@ == Map::<(Seq<char>, Seq<char>), i64>::empty(),
    {
        let r = BpePairVocab { slots: StringHashMap::new(), rights: Vec::new(), inserted: Vec::new() };
        assert(r@ =~= Map::<(Seq<char>, Seq<char>), i64>::empty());
        r
    }

    /// Gives the pair `(left, right)` the rank `rank`, replacing any rank it
    /// had.
    pub fn insert(&mut self, left: String, right: String, rank: i64)
        requires
            old(self).wf(),
        ensures
            final(self).wf(),
            final(self)@ == old(self)@.insert((left@, right@), rank),
    {
        let ghost l = left@;
        let ghost r = right@;
        self.inserted.push((left.clone(), right.clone(), rank));
        assert(self.inserted@.drop_last() =~= old(self).inserted@);
        match self.slots.get(left.as_str()) {
            Some(slot) => {
                let s = *slot;
                self.rights[s].insert(right, rank);
                proof {
                    assert forall|p: (Seq<char>, Seq<char>)|
                        self.spec_rank(p.0, p.1) == (if p == (l, r) {
                            Some(rank)
                        } else {
                            old(self).spec_rank(p.0, p.1)
                        }) by {
                        if self.slots@.contains_key(p.0) && p.0 != l {
                            assert(self.slots@[p.0] != self.slots@[l]);
                        }
                    }
                    assert(self@ =~= old(self)@.insert((l, r), rank));
                }
            },
            None => {
                let s = self.rights.len();
                let mut m: StringHashMap<i64> = StringHashMap::new();
                m.insert(right, rank);
                self.rights.push(m);
                self.slots.insert(left, s);
                proof {
                    assert forall|p: (Seq<char>, Seq<char>)|
                        self.spec_rank(p.0, p.1) == (if p == (l, r) {
                            Some(rank)
                        } else {
                            old(self).spec_rank(p.0, p.1)
                        }) by {
                        if p.0 != l && self.slots@.contains_key(p.0) {
                            assert(old(self).slots@.contains_key(p.0));
                            assert(self.rights@[self.slots@[p.0] as int] == old(
                                self,
                            ).rights@[self.slots@[p.0] as int]);
                        }
                    }
                    assert(self@ =~= old(self)@.insert((l, r), rank));
                }
            },
        }
    }

    /// The rank of the pair `(left, right)`, or `None` when it has none.
    pub fn byte_pair_to_id(&self, left: &str, right: &str) -> (r: Option<i64>)
        requires
            self.wf(),
        ensures
            r == (if self@.contains_key((left@, right@)) {
                Some(self@[(left@, right@)])
            } else {
                None
            }),
    {
        match self.slots.get(left) {
            Some(slot) => match self.rights[*slot].get(right) {
                Some(rank) => Some(*rank),
                None => None,
            },
            None => None,
        }
    }
}

impl View for BpePairVocab {
    type V = Map<(Seq<char>, Seq<char>), i64>;

    open spec fn view(&self) -> Map<(Seq<char>, Seq<char>), i64> {
        self.as_map()
    }
}

impl Clone for BpePairVocab {
    /// A copy of the table, made by inserting its pairs again in order.
    fn clone(&self) -> (r: Self)
        ensures
            r.wf(),
            self.wf() ==> r@ == self@,
    {
        let mut r = BpePairVocab::new();
        let mut k: usize = 0;
        while k < self.inserted.len()
            invariant
                k <= self.inserted.len(),
                r.wf(),
                r@ == inserted_ranks(self.inserted@.take(k as int)),
            decreases self.inserted.len() - k,
        {
            let (left, right, rank) = (&self.inserted[k].0, &self.inserted[k].1, self.inserted[k].2);
            r.insert(left.clone(), right.clone(), rank);
            k = k + 1;
            assert(self.inserted@.take(k as int).drop_last() =~= self.inserted@.take(k - 1));
        }
        assert(self.inserted@.take(k as int) =~= self.inserted@);
        r
    }
}

/// The pair of symbols at window `j` of `toks`.
pub open spec fn pair_at(toks: Seq<Seq<char>>, j: int) -> (Seq<char>, Seq<char>) {
    (toks[j], toks[j + 1])
}

/// Among the first `k` windows of `toks`, the one whose pair has the lowest
/// rank, the first such one on a tie.
pub open spec fn best_window(
    toks: Seq<Seq<char>>,
    m: Map<(Seq<char>, Seq<char>), i64>,
    k: int,
) -> Option<int>
    decreases k,
{
    if k <= 0 {
        None
    } else {
        let prev = best_window(toks, m, k - 1);
        let j = k - 1;
        if m.contains_key(pair_at(toks, j)) {
            match prev {
                None => Some(j),
                Some(b) => if m[pair_at(toks, j)] < m[pair_at(toks, b)] {
                    Some(j)
                } else {
                    Some(b)
                },
            }
        } else {
            prev
        }
    }
}

/// `toks` with every occurrence of the pair `(l, r)` merged into one symbol,
/// scanning from the left without overlaps.
pub open spec fn merge_pair(toks: Seq<Seq<char>>, l: Seq<char>, r: Seq<char>) -> Seq<Seq<char>>
    decreases toks.len(),
{
    if toks.len() == 0 {
        Seq::empty()
    } else if toks.len() >= 2 && toks[0] == l && toks[1] == r {
        seq![l + r] + merge_pair(toks.skip(2), l, r)
    } else {
        seq![toks[0]] + merge_pair(toks.skip(1), l, r)
    }
}

/// One merge step: merge the best-ranked adjacent pair everywhere it occurs.
/// The flag tells that merging is over: no adjacent pair has a rank, or one
/// symbol is left.
pub open spec fn merge_step(toks: Seq<Seq<char>>, m: Map<(Seq<char>, Seq<char>), i64>) -> (
    Seq<Seq<char>>,
    bool,
) {
    match best_window(toks, m, toks.len() - 1) {
        None => (toks, true),
        Some(b) => {
            let merged = merge_pair(toks, toks[b], toks[b + 1]);
            (merged, merged.len() == 1)
        },
    }
}

/// The symbols of a text, one character each.
pub open spec fn singletons(s: Seq<char>) -> Seq<Seq<char>> {
    Seq::new(s.len(), |i: int| seq![s[i]])
}

/// Repeated merge steps until merging is over.
pub open spec fn spec_bpe(toks: Seq<Seq<char>>, m: Map<(Seq<char>, Seq<char>), i64>) -> Seq<
    Seq<char>,
>
    decreases toks.len(),
    via spec_bpe_decreases
{
    let (next, done) = merge_step(toks, m);
    if done {
        next
    } else {
        spec_bpe(next, m)
    }
}

#[via_fn]
proof fn spec_bpe_decreases(toks: Seq<Seq<char>>, m: Map<(Seq<char>, Seq<char>), i64>) {
    lemma_merge_step_shrinks(toks, m);
}

/// The window found by `best_window` holds a ranked pair.
pub proof fn lemma_best_window_in_range(
    toks: Seq<Seq<char>>,
    m: Map<(Seq<char>, Seq<char>), i64>,
    k: int,
)
    ensures
        best_window(toks, m, k) matches Some(b) ==> 0 <= b < k && m.contains_key(
            pair_at(toks, b),
        ),
    decreases k,
{
    if k > 0 {
        lemma_best_window_in_range(toks, m, k - 1);
    }
}

/// `best_window` is the first window of lowest rank, and it exists whenever
/// some window holds a ranked pair.
pub proof fn lemma_best_window_is_first_minimum(
    toks: Seq<Seq<char>>,
    m: Map<(Seq<char>, Seq<char>), i64>,
    k: int,
)
    ensures
        best_window(toks, m, k) is None <==> (forall|j: int|
            0 <= j < k ==> !m.contains_key(#[trigger] pair_at(toks, j))),
        best_window(toks, m, k) matches Some(b) ==> {
            &&& 0 <= b < k
            &&& m.contains_key(pair_at(toks, b))
            &&& forall|j: int|
                0 <= j < k && m.contains_key(#[trigger] pair_at(toks, j)) ==> m[pair_at(toks, b)]
                    <= m[pair_at(toks, j)]
            &&& forall|j: int|
                0 <= j < b && m.contains_key(#[trigger] pair_at(toks, j)) ==> m[pair_at(toks, b)]
                    < m[pair_at(toks, j)]
        },
    decreases k,
{
    if k > 0 {
        lemma_best_window_is_first_minimum(toks, m, k - 1);
        if best_window(toks, m, k) is None {
            assert forall|j: int| 0 <= j < k implies !m.contains_key(#[trigger] pair_at(toks, j)) by {
                if j == k - 1 {
                } else {
                }
            }
        }
    }
}

/// Merging a pair never lengthens the sequence, and shortens it when the pair
/// occurs.
pub proof fn lemma_merge_pair_len(toks: Seq<Seq<char>>, l: Seq<char>, r: Seq<char>, j: int)
    ensures
        merge_pair(toks, l, r).len() <= toks.len(),
        0 <= j < toks.len() - 1 && toks[j] == l && toks[j + 1] == r ==> merge_pair(
            toks,
            l,
            r,
        ).len() < toks.len(),
    decreases toks.len(),
{
    if toks.len() == 0 {
    } else if toks.len() >= 2 && toks[0] == l && toks[1] == r {
        lemma_merge_pair_len(toks.skip(2), l, r, j - 2);
    } else {
        lemma_merge_pair_len(toks.skip(1), l, r, j - 1);
        if 0 < j < toks.len() - 1 && toks[j] == l && toks[j + 1] == r {
            assert(toks.skip(1)[j - 1] == l);
            assert(toks.skip(1)[j] == r);
        }
    }
}

/// A step that does not end merging shortens the sequence.
pub proof fn lemma_merge_step_shrinks(toks: Seq<Seq<char>>, m: Map<(Seq<char>, Seq<char>), i64>)
    ensures
        merge_step(toks, m).0.len() <= toks.len(),
        !merge_step(toks, m).1 ==> merge_step(toks, m).0.len() < toks.len(),
{
    lemma_best_window_in_range(toks, m, toks.len() - 1);
    if let Some(b) = best_window(toks, m, toks.len() - 1) {
        lemma_merge_pair_len(toks, toks[b], toks[b + 1], b);
    }
}

/// Merging a pair keeps the text: the symbols still spell the same
/// characters.
pub proof fn lemma_merge_pair_keeps_text(toks: Seq<Seq<char>>, l: Seq<char>, r: Seq<char>)
    ensures
        merge_pair(toks, l, r).flatten() == toks.flatten(),
    decreases toks.len(),
{
    if toks.len() == 0 {
    } else if toks.len() >= 2 && toks[0] == l && toks[1] == r {
        lemma_merge_pair_keeps_text(toks.skip(2), l, r);
        vstd::seq_lib::lemma_flatten_concat(seq![l + r], merge_pair(toks.skip(2), l, r));
        seq![l + r].lemma_flatten_one_element();
        assert(toks =~= seq![toks[0], toks[1]] + toks.skip(2));
        vstd::seq_lib::lemma_flatten_concat(seq![toks[0], toks[1]], toks.skip(2));
        assert(seq![toks[0], toks[1]].drop_first() =~= seq![toks[1]]);
        seq![toks[1]].lemma_flatten_one_element();
        assert(seq![toks[0], toks[1]].flatten() =~= toks[0] + toks[1]);
    } else {
        lemma_merge_pair_keeps_text(toks.skip(1), l, r);
        vstd::seq_lib::lemma_flatten_concat(seq![toks[0]], merge_pair(toks.skip(1), l, r));
        seq![toks[0]].lemma_flatten_one_element();
        assert(toks =~= seq![toks[0]] + toks.skip(1));
        vstd::seq_lib::lemma_flatten_concat(seq![toks[0]], toks.skip(1));
    }
}

/// Merging a pair of non-empty symbols leaves non-empty symbols.
pub proof fn lemma_merge_pair_nonempty(toks: Seq<Seq<char>>, l: Seq<char>, r: Seq<char>)
    requires
        forall|i: int| 0 <= i < toks.len() ==> (#[trigger] toks[i]).len() > 0,
    ensures
        forall|i: int|
            0 <= i < merge_pair(toks, l, r).len() ==> (#[trigger] merge_pair(toks, l, r)[i]).len()
                > 0,
    decreases toks.len(),
{
    if toks.len() == 0 {
    } else if toks.len() >= 2 && toks[0] == l && toks[1] == r {
        assert forall|i: int| 0 <= i < toks.skip(2).len() implies (#[trigger] toks.skip(
            2,
        )[i]).len() > 0 by {
            assert(toks.skip(2)[i] == toks[i + 2]);
        }
        lemma_merge_pair_nonempty(toks.skip(2), l, r);
        let rest = merge_pair(toks.skip(2), l, r);
        assert forall|i: int| 0 <= i < merge_pair(toks, l, r).len() implies (
        #[trigger] merge_pair(toks, l, r)[i]).len() > 0 by {
            if i > 0 {
                assert(merge_pair(toks, l, r)[i] == rest[i - 1]);
            }
        }
    } else {
        assert forall|i: int| 0 <= i < toks.skip(1).len() implies (#[trigger] toks.skip(
            1,
        )[i]).len() > 0 by {
            assert(toks.skip(1)[i] == toks[i + 1]);
        }
        lemma_merge_pair_nonempty(toks.skip(1), l, r);
        let rest = merge_pair(toks.skip(1), l, r);
        assert forall|i: int| 0 <= i < merge_pair(toks, l, r).len() implies (
        #[trigger] merge_pair(toks, l, r)[i]).len() > 0 by {
            if i > 0 {
                assert(merge_pair(toks, l, r)[i] == rest[i - 1]);
            }
        }
    }
}

/// BPE keeps the text: the pieces it returns spell the symbols it was given.
pub proof fn lemma_bpe_keeps_text(toks: Seq<Seq<char>>, m: Map<(Seq<char>, Seq<char>), i64>)
    ensures
        spec_bpe(toks, m).flatten() == toks.flatten(),
    decreases toks.len(),
{
    lemma_merge_step_shrinks(toks, m);
    let (next, done) = merge_step(toks, m);
    if let Some(b) = best_window(toks, m, toks.len() - 1) {
        lemma_merge_pair_keeps_text(toks, toks[b], toks[b + 1]);
    }
    if !done {
        lemma_bpe_keeps_text(next, m);
    }
}

/// BPE of non-empty symbols gives non-empty pieces.
pub proof fn lemma_bpe_nonempty(toks: Seq<Seq<char>>, m: Map<(Seq<char>, Seq<char>), i64>)
    requires
        forall|i: int| 0 <= i < toks.len() ==> (#[trigger] toks[i]).len() > 0,
    ensures
        forall|i: int|
            0 <= i < spec_bpe(toks, m).len() ==> (#[trigger] spec_bpe(toks, m)[i]).len() > 0,
    decreases toks.len(),
{
    lemma_merge_step_shrinks(toks, m);
    lemma_best_window_in_range(toks, m, toks.len() - 1);
    let (next, done) = merge_step(toks, m);
    if let Some(b) = best_window(toks, m, toks.len() - 1) {
        lemma_merge_pair_nonempty(toks, toks[b], toks[b + 1]);
    }
    if !done {
        lemma_bpe_nonempty(next, m);
        assert(spec_bpe(toks, m) == spec_bpe(next, m));
    } else {
        assert(spec_bpe(toks, m) == next);
    }
}

/// BPE stops only at a fixed point: one piece or fewer is left, or no two
/// adjacent pieces form a ranked pair.
pub proof fn lemma_bpe_irreducible(toks: Seq<Seq<char>>, m: Map<(Seq<char>, Seq<char>), i64>)
    ensures
        spec_bpe(toks, m).len() <= 1 || forall|j: int|
            0 <= j < spec_bpe(toks, m).len() - 1 ==> !m.contains_key(
                #[trigger] pair_at(spec_bpe(toks, m), j),
            ),
    decreases toks.len(),
{
    lemma_merge_step_shrinks(toks, m);
    let (next, done) = merge_step(toks, m);
    lemma_best_window_is_first_minimum(toks, m, toks.len() - 1);
    if !done {
        lemma_bpe_irreducible(next, m);
    }
}

/// The symbols of a text spell the text.
pub proof fn lemma_singletons_flatten(s: Seq<char>)
    ensures
        singletons(s).flatten() == s,
        forall|i: int| 0 <= i < singletons(s).len() ==> (#[trigger] singletons(s)[i]).len() > 0,
    decreases s.len(),
{
    if s.len() > 0 {
        lemma_singletons_flatten(s.drop_first());
        assert(singletons(s).drop_first() =~= singletons(s.drop_first()));
        assert(singletons(s).first() =~= seq![s[0]]);
        assert(seq![s[0]] + s.drop_first() =~= s);
    }
}

/// The views of `v` with `s` appended.
pub proof fn lemma_string_views_push(v: Seq<String>, s: String)
    ensures
        string_views(v.push(s)) == string_views(v).push(s@),
{
    assert(string_views(v.push(s)) =~= string_views(v).push(s@));
}

/// One merge step: finds the adjacent pair of lowest rank (the first one on a
/// tie) and merges it wherever it occurs, scanning left to right. The flag is
/// set when no adjacent pair has a rank or a single symbol is left.
pub fn group_common_pairs(tokens: Vec<String>, bpe_ranks: &BpePairVocab) -> (r: (
    Vec<String>,
    bool,
))
    requires
        bpe_ranks.wf(),
    ensures
        (string_views(r.0@), r.1) == merge_step(string_views(tokens@), bpe_ranks@),
{
    let ghost toks = string_views(tokens@);
    let ghost m = bpe_ranks@;
    let n = tokens.len();
    let mut best: Option<usize> = None;
    let mut best_rank: i64 = 0;
    if n >= 2 {
        let mut i: usize = 0;
        while i < n - 1
            invariant
                n == tokens@.len(),
                toks == string_views(tokens@),
                m == bpe_ranks@,
                bpe_ranks.wf(),
                n >= 2,
                i <= n - 1,
                best == (match best_window(toks, m, i as int) {
                    Some(b) => Some(b as usize),
                    None => None::<usize>,
                }),
                best matches Some(b) ==> best_rank == m[pair_at(toks, b as int)],
            decreases n - 1 - i,
        {
            proof {
                lemma_best_window_in_range(toks, m, i as int);
            }
            let rank = bpe_ranks.byte_pair_to_id(tokens[i].as_str(), tokens[i + 1].as_str());
            assert(pair_at(toks, i as int) == (tokens@[i as int]@, tokens@[i + 1]@));
            match rank {
                Some(rk) => {
                    match best {
                        None => {
                            best = Some(i);
                            best_rank = rk;
                        },
                        Some(_) => {
                            if rk < best_rank {
                                best = Some(i);
                                best_rank = rk;
                            }
                        },
                    }
                },
                None => {},
            }
            i = i + 1;
        }
    }
    proof {
        if n < 2 {
            assert(best_window(toks, m, n - 1) is None);
        }
    }
    match best {
        None => (tokens, true),
        Some(b) => {
            proof {
                lemma_best_window_in_range(toks, m, n - 1);
            }
            let left = tokens[b].clone();
            let right = tokens[b + 1].clone();
            let ghost l = left@;
            let ghost r = right@;
            let mut out: Vec<String> = Vec::with_capacity(n);
            let mut i: usize = 0;
            assert(toks.skip(0) =~= toks);
            while i < n
                invariant
                    n == tokens@.len(),
                    toks == string_views(tokens@),
                    l == left@,
                    r == right@,
                    i <= n,
                    string_views(out@) + merge_pair(toks.skip(i as int), l, r) == merge_pair(
                        toks,
                        l,
                        r,
                    ),
                decreases n - i,
            {
                let ghost rest = toks.skip(i as int);
                let ghost prev = string_views(out@);
                assert(rest[0] == tokens@[i as int]@);
                if i + 1 < n && tokens[i] == left && tokens[i + 1] == right {
                    assert(rest[1] == tokens@[i + 1]@);
                    assert(rest.skip(2) =~= toks.skip(i + 2));
                    let mut joined = left.clone();
                    joined.append(right.as_str());
                    proof {
                        lemma_string_views_push(out@, joined);
                    }
                    out.push(joined);
                    i = i + 2;
                    assert(prev.push(l + r) + merge_pair(toks.skip(i as int), l, r) =~= prev + (
                    seq![l + r] + merge_pair(toks.skip(i as int), l, r)));
                } else {
                    assert(rest.skip(1) =~= toks.skip(i + 1));
                    let t = tokens[i].clone();
                    proof {
                        lemma_string_views_push(out@, t);
                    }
                    out.push(t);
                    i = i + 1;
                    assert(prev.push(rest[0]) + merge_pair(toks.skip(i as int), l, r) =~= prev + (
                    seq![rest[0]] + merge_pair(toks.skip(i as int), l, r)));
                }
            }
            assert(toks.skip(n as int) =~= Seq::<Seq<char>>::empty());
            assert(string_views(out@) + Seq::<Seq<char>>::empty() =~= string_views(out@));
            let done = out.len() == 1;
            (out, done)
        },
    }
}

/// One string per character of `input`.
pub fn singleton_strings(input: &str) -> (r: Vec<String>)
    ensures
        string_views(r@) == singletons(input@),
{
    let chars = chars_of(input);
    let mut r: Vec<String> = Vec::with_capacity(chars.len());
    let mut i: usize = 0;
    while i < chars.len()
        invariant
            chars@ == input@,
            i <= chars.len(),
            string_views(r@) == singletons(input@).take(i as int),
        decreases chars.len() - i,
    {
        let mut s = String::new();
        push_char(&mut s, chars[i]);
        proof {
            lemma_string_views_push(r@, s);
            assert(s@ =~= seq![input@[i as int]]);
        }
        r.push(s);
        i = i + 1;
        assert(string_views(r@) =~= singletons(input@).take(i as int));
    }
    assert(singletons(input@).take(i as int) =~= singletons(input@));
    r
}

/// Byte-pair encoding of `input`: starting from one symbol per character,
/// merge steps run until merging is over. Returns the pieces and the number
/// of characters of each.
pub fn bpe(input: &str, bpe_ranks: &BpePairVocab) -> (r: (Vec<String>, Vec<usize>))
    requires
        bpe_ranks.wf(),
    ensures
        string_views(r.0@) == spec_bpe(singletons(input@), bpe_ranks@),
        r.1@.len() == r.0@.len(),
        forall|i: int| 0 <= i < r.1@.len() ==> r.1@[i] == (#[trigger] r.0@[i])@.len(),
{
    let ghost m = bpe_ranks@;
    let ghost target = spec_bpe(singletons(input@), m);
    let mut toks = singleton_strings(input);
    loop
        invariant
            bpe_ranks.wf(),
            m == bpe_ranks@,
            spec_bpe(string_views(toks@), m) == target,
        ensures
            string_views(toks@) == target,
        decreases toks@.len(),
    {
        let ghost before = string_views(toks@);
        proof {
            lemma_merge_step_shrinks(before, m);
        }
        let (next, done) = group_common_pairs(toks, bpe_ranks);
        toks = next;
        if done {
            break;
        }
    }
    let mut counts: Vec<usize> = Vec::with_capacity(toks.len());
    let mut i: usize = 0;
    while i < toks.len()
        invariant
            i <= toks.len(),
            counts@.len() == i,
            forall|k: int| 0 <= k < i ==> counts@[k] == (#[trigger] toks@[k])@.len(),
        decreases toks.len() - i,
    {
        counts.push(toks[i].as_str().unicode_len());
        i = i + 1;
    }
    (toks, counts)
}

} // verus!
