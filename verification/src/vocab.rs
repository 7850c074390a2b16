//! The GPT-NeoX vocabulary: tokens and their ids, the special tokens, and the
//! errors of the library.

use vstd::prelude::*;
use vstd::hash_map::{HashMapWithView, StringHashMap};
use vstd::string::StringExecFns;
use crate::token::string_views;
use crate::unicode::chars_of;

verus! {

broadcast use vstd::std_specs::hash::group_hash_axioms;

/// The errors of the library.
#[derive(Debug, PartialEq, Eq)]
pub enum TokenizerError {
    FileNotFound(String),
    VocabularyParsingError(String),
    TokenNotFound(String),
    TokenizationError(String),
    ValueError(String),
    IOError(String),
}

/// The unknown, beginning-of-sequence and end-of-sequence token of GPT-NeoX
/// when no other is given.
pub open spec fn spec_default_special() -> Seq<char> {
    seq!['<', '|', 'e', 'n', 'd', 'o', 'f', 't', 'e', 'x', 't', '|', '>']
}

/// `<|endoftext|>`, the default special token of GPT-NeoX.
pub fn default_special_token() -> (r: String)
    ensures
        r@ == spec_default_special(),
{
    let mut s = String::new();
    let chars = ['<', '|', 'e', 'n', 'd', 'o', 'f', 't', 'e', 'x', 't', '|', '>'];
    let mut i: usize = 0;
    while i < 13
        invariant
            i <= 13,
            chars@ == spec_default_special(),
            s@ == spec_default_special().take(i as int),
        decreases 13 - i,
    {
        crate::unicode::push_char(&mut s, chars[i]);
        i = i + 1;
        assert(s@ =~= spec_default_special().take(i as int));
    }
    assert(spec_default_special().take(13) =~= spec_default_special());
    s
}

/// The special tokens of a vocabulary. Only the unknown token is required.
#[derive(Debug, PartialEq, Eq)]
pub struct SpecialTokenMap {
    pub unk_token: String,
    pub pad_token: Option<String>,
    pub bos_token: Option<String>,
    pub sep_token: Option<String>,
    pub cls_token: Option<String>,
    pub eos_token: Option<String>,
    pub mask_token: Option<String>,
    pub additional_special_tokens: Option<Vec<String>>,
}

/// An optional name as a list of zero or one names.
pub open spec fn opt_name(o: Option<String>) -> Seq<Seq<char>> {
    match o {
        Some(s) => seq![s@],
        None => Seq::empty(),
    }
}

/// The special token names in the order they are registered: unknown,
/// padding, beginning, separator, class, end, mask, then the additional ones.
pub open spec fn special_names(m: SpecialTokenMap) -> Seq<Seq<char>> {
    seq![m.unk_token@] + opt_name(m.pad_token) + opt_name(m.bos_token) + opt_name(m.sep_token)
        + opt_name(m.cls_token) + opt_name(m.eos_token) + opt_name(m.mask_token) + match m.additional_special_tokens {
        Some(v) => string_views(v@),
        None => Seq::empty(),
    }
}

impl SpecialTokenMap {
    /// The special tokens of GPT-NeoX when no others are given: the unknown,
    /// beginning and end tokens are all `<|endoftext|>`.
    pub fn gpt_neox_default() -> (r: SpecialTokenMap)
        ensures
            r.unk_token@ == spec_default_special(),
            r.pad_token is None,
            r.bos_token matches Some(b) && b@ == spec_default_special(),
            r.sep_token is None,
            r.cls_token is None,
            r.eos_token matches Some(e) && e@ == spec_default_special(),
            r.mask_token is None,
            r.additional_special_tokens is None,
    {
        SpecialTokenMap {
            unk_token: default_special_token(),
            pad_token: None,
            bos_token: Some(default_special_token()),
            sep_token: None,
            cls_token: None,
            eos_token: Some(default_special_token()),
            mask_token: None,
            additional_special_tokens: None,
        }
    }
}

/// The map that a list of `(token, id)` pairs gives, later pairs replacing
/// earlier ones.
pub open spec fn pairs_map(pairs: Seq<(Seq<char>, i64)>) -> Map<Seq<char>, i64>
    decreases pairs.len(),
{
    if pairs.len() == 0 {
        Map::empty()
    } else {
        pairs_map(pairs.drop_last()).insert(pairs.last().0, pairs.last().1)
    }
}

/// The map from ids back to tokens: the pairs that `m` holds, in order, later
/// ones replacing earlier ones.
pub open spec fn inverse_map(pairs: Seq<(Seq<char>, i64)>, m: Map<Seq<char>, i64>) -> Map<
    i64,
    Seq<char>,
>
    decreases pairs.len(),
{
    if pairs.len() == 0 {
        Map::empty()
    } else {
        let p = pairs.last();
        let prev = inverse_map(pairs.drop_last(), m);
        if m.contains_key(p.0) && m[p.0] == p.1 {
            prev.insert(p.1, p.0)
        } else {
            prev
        }
    }
}

/// The views of a list of `(token, id)` pairs.
pub open spec fn pair_views(pairs: Seq<(String, i64)>) -> Seq<(Seq<char>, i64)> {
    pairs.map_values(|p: (String, i64)| (p.0@, p.1))
}

/// The first special name that the vocabulary lacks.
pub open spec fn first_missing(names: Seq<Seq<char>>, values: Map<Seq<char>, i64>) -> Option<
    Seq<char>,
>
    decreases names.len(),
{
    if names.len() == 0 {
        None
    } else if !values.contains_key(names[0]) {
        Some(names[0])
    } else {
        first_missing(names.drop_first(), values)
    }
}

/// The message for a special token missing from the vocabulary.
pub open spec fn missing_message(name: Seq<char>) -> Seq<char> {
    "The special value "@ + name + " could not be found in the vocabulary"@
}

/// The vocabulary of GPT-NeoX.
pub struct GptNeoXVocab {
    values: StringHashMap<i64>,
    indices: HashMapWithView<i64, String>,
    special_token_map: SpecialTokenMap,
    special_values: StringHashMap<i64>,
    special_indices: HashMapWithView<i64, String>,
    special_order: Vec<Vec<char>>,
    entries: Vec<(String, i64)>,
}

/// The special names with their vocabulary ids.
pub open spec fn named_ids(names: Seq<Seq<char>>, vals: Map<Seq<char>, i64>) -> Seq<(Seq<char>, i64)> {
    names.map_values(|n: Seq<char>| (n, vals[n]))
}

impl GptNeoXVocab {
    #[verifier::type_invariant]
    spec fn well_formed(self) -> bool {
        &&& self.values@.contains_key(self.special_token_map.unk_token@)
        &&& crate::token::vec_views(self.special_order@) == special_names(self.special_token_map)
        &&& self.values@ == pairs_map(pair_views(self.entries@))
        &&& self.indices@.map_values(|s: String| s@) == inverse_map(pair_views(self.entries@), self.values@)
        &&& first_missing(special_names(self.special_token_map), self.values@) is None
        &&& self.special_values@ == pairs_map(named_ids(special_names(self.special_token_map), self.values@))
        &&& self.special_indices@.map_values(|s: String| s@) == inverse_map(
            named_ids(special_names(self.special_token_map), self.values@),
            self.special_values@,
        )
    }

    /// Token to id.
    pub closed spec fn values_map(&self) -> Map<Seq<char>, i64> {
        self.values@
    }

    /// Id to token.
    pub closed spec fn indices_map(&self) -> Map<i64, Seq<char>> {
        self.indices@.map_values(|s: String| s@)
    }

    /// Special token to id.
    pub closed spec fn special_values_map(&self) -> Map<Seq<char>, i64> {
        self.special_values@
    }

    /// Id to special token.
    pub closed spec fn special_indices_map(&self) -> Map<i64, Seq<char>> {
        self.special_indices@.map_values(|s: String| s@)
    }

    /// The special tokens.
    pub closed spec fn spec_special_token_map(&self) -> SpecialTokenMap {
        self.special_token_map
    }

    /// The special token names, in registration order.
    pub open spec fn specials(&self) -> Seq<Seq<char>> {
        special_names(self.spec_special_token_map())
    }

    /// The unknown token.
    pub open spec fn unk(&self) -> Seq<char> {
        self.spec_special_token_map().unk_token@
    }

    /// The beginning-of-sequence token.
    pub open spec fn bos(&self) -> Seq<char> {
        match self.spec_special_token_map().bos_token {
            Some(b) => b@,
            None => spec_default_special(),
        }
    }

    /// The end-of-sequence token.
    pub open spec fn eos(&self) -> Seq<char> {
        match self.spec_special_token_map().eos_token {
            Some(e) => e@,
            None => spec_default_special(),
        }
    }

    /// The id of a token: its special id, else its id, else the id of the
    /// unknown token.
    pub open spec fn spec_token_to_id(&self, token: Seq<char>) -> i64 {
        if self.special_values_map().contains_key(token) {
            self.special_values_map()[token]
        } else if self.values_map().contains_key(token) {
            self.values_map()[token]
        } else {
            self.values_map()[self.unk()]
        }
    }

    /// The token of an id: its special token, else its token, else the
    /// unknown token.
    pub open spec fn spec_id_to_token(&self, id: i64) -> Seq<char> {
        if self.special_indices_map().contains_key(id) {
            self.special_indices_map()[id]
        } else if self.indices_map().contains_key(id) {
            self.indices_map()[id]
        } else {
            self.unk()
        }
    }

    /// Builds the vocabulary from `(token, id)` pairs and the special tokens.
    /// Every special token must be in the vocabulary; the first one missing
    /// is reported.
    pub fn from_values_and_special_token_map(
        values: Vec<(String, i64)>,
        special_token_map: SpecialTokenMap,
    ) -> (r: Result<GptNeoXVocab, TokenizerError>)
        ensures
            ({
                let vals = pairs_map(pair_views(values@));
                let names = special_names(special_token_map);
                match r {
                    Ok(v) => {
                        &&& distinct_ids(vals) ==> forall|t: Seq<char>|
                            #[trigger] v.values_map().contains_key(t) ==> v.spec_id_to_token(
                                v.spec_token_to_id(t),
                            ) == t
                        &&& first_missing(names, vals) is None
                        &&& v.values_map() == vals
                        &&& v.indices_map() == inverse_map(pair_views(values@), vals)
                        &&& v.spec_special_token_map() == special_token_map
                        &&& forall|n: Seq<char>|
                            #[trigger] v.special_values_map().contains_key(n) <==> names.contains(n)
                        &&& forall|n: Seq<char>|
                            #[trigger] v.special_values_map().contains_key(n) ==> v.special_values_map()[n]
                                == vals[n]
                        &&& v.special_values_map() == pairs_map(
                            names.map_values(|n: Seq<char>| (n, vals[n])),
                        )
                        &&& v.special_indices_map() == inverse_map(
                            names.map_values(|n: Seq<char>| (n, vals[n])),
                            v.special_values_map(),
                        )
                    },
                    Err(e) => first_missing(names, vals) matches Some(name) && e matches TokenizerError::TokenNotFound(msg) && msg@ == missing_message(name),
                }
            }),
    {
        let ghost pv = pair_views(values@);
        let mut map: StringHashMap<i64> = StringHashMap::new();
        let mut i: usize = 0;
        while i < values.len()
            invariant
                i <= values.len(),
                pv == pair_views(values@),
                map@ == pairs_map(pv.take(i as int)),
            decreases values.len() - i,
        {
            map.insert(values[i].0.clone(), values[i].1);
            i = i + 1;
            assert(pv.take(i as int).drop_last() =~= pv.take(i - 1));
        }
        assert(pv.take(values.len() as int) =~= pv);
        let ghost vals = map@;
        let mut indices: HashMapWithView<i64, String> = HashMapWithView::new();
        let mut i: usize = 0;
        while i < values.len()
            invariant
                i <= values.len(),
                pv == pair_views(values@),
                vals == map@,
                vals == pairs_map(pv),
                indices@.map_values(|s: String| s@) == inverse_map(pv.take(i as int), vals),
            decreases values.len() - i,
        {
            let current = match map.get(values[i].0.as_str()) {
                Some(id) => *id == values[i].1,
                None => false,
            };
            if current {
                indices.insert(values[i].1, values[i].0.clone());
            }
            i = i + 1;
            assert(pv.take(i as int).drop_last() =~= pv.take(i - 1));
        }
        assert(pv.take(values.len() as int) =~= pv);
        // the special tokens, in registration order
        let names = special_name_list(&special_token_map);
        let ghost nv = special_names(special_token_map);
        let ghost named = nv.map_values(|n: Seq<char>| (n, vals[n]));
        let mut special_values: StringHashMap<i64> = StringHashMap::new();
        let mut special_indices: HashMapWithView<i64, String> = HashMapWithView::new();
        let mut order: Vec<Vec<char>> = Vec::new();
        let mut k: usize = 0;
        assert(nv.skip(0) =~= nv);
        while k < names.len()
            invariant
                k <= names.len(),
                string_views(names@) == nv,
                vals == map@,
                pv == pair_views(values@),
                vals == pairs_map(pv),
                nv == special_names(special_token_map),
                named == nv.map_values(|n: Seq<char>| (n, vals[n])),
                first_missing(nv, vals) == first_missing(nv.skip(k as int), vals),
                special_values@ == pairs_map(named.take(k as int)),
                forall|j: int| 0 <= j < k ==> vals.contains_key(#[trigger] nv[j]),
                crate::token::vec_views(order@) == nv.take(k as int),
            decreases names.len() - k,
        {
            assert(nv.skip(k as int)[0] == names@[k as int]@);
            assert(nv.skip(k as int).drop_first() =~= nv.skip(k + 1));
            let id = match map.get(names[k].as_str()) {
                Some(id) => *id,
                None => {
                    let mut msg = String::from_str("The special value ");
                    msg.append(names[k].as_str());
                    msg.append(" could not be found in the vocabulary");
                    assert(names@[k as int]@ == nv[k as int]);
                    assert(!vals.contains_key(nv[k as int]));
                    assert(first_missing(nv.skip(k as int), vals) == Some(nv[k as int]));
                    assert(msg@ == missing_message(nv[k as int]));
                    return Err(TokenizerError::TokenNotFound(msg));
                },
            };
            special_values.insert(names[k].clone(), id);
            let cs = chars_of(names[k].as_str());
            proof {
                assert(crate::token::vec_views(order@.push(cs)) =~= crate::token::vec_views(order@).push(cs@));
                assert(nv.take(k + 1) =~= nv.take(k as int).push(nv[k as int]));
            }
            order.push(cs);
            k = k + 1;
            assert(named.take(k as int).drop_last() =~= named.take(k - 1));
            assert(crate::token::vec_views(order@) =~= nv.take(k as int));
        }
        assert(named.take(k as int) =~= named);
        assert(nv.take(k as int) =~= nv);
        assert(first_missing(nv.skip(k as int), vals) is None);
        let ghost svals = special_values@;
        let mut k: usize = 0;
        while k < names.len()
            invariant
                k <= names.len(),
                string_views(names@) == nv,
                vals == map@,
                named == nv.map_values(|n: Seq<char>| (n, vals[n])),
                forall|j: int| 0 <= j < nv.len() ==> vals.contains_key(#[trigger] nv[j]),
                svals == special_values@,
                svals == pairs_map(named),
                special_indices@.map_values(|s: String| s@) == inverse_map(named.take(k as int), svals),
            decreases names.len() - k,
        {
            let id = match map.get(names[k].as_str()) {
                Some(id) => *id,
                None => 0,
            };
            let current = match special_values.get(names[k].as_str()) {
                Some(sid) => *sid == id,
                None => false,
            };
            if current {
                special_indices.insert(id, names[k].clone());
            }
            k = k + 1;
            assert(named.take(k as int).drop_last() =~= named.take(k - 1));
            assert(named[k - 1] == (nv[k - 1], vals[nv[k - 1]]));
        }
        assert(named.take(k as int) =~= named);
        assert(vals.contains_key(special_token_map.unk_token@)) by {
            assert(nv[0] == special_token_map.unk_token@);
        }
        proof {
            lemma_named_ids(nv, vals);
        }
        let v = GptNeoXVocab {
            values: map,
            indices,
            special_token_map,
            special_values,
            special_indices,
            special_order: order,
            entries: values,
        };
        proof {
            if distinct_ids(vals) {
                assert forall|t: Seq<char>| #[trigger] v.values_map().contains_key(t) implies v.spec_id_to_token(
                    v.spec_token_to_id(t),
                ) == t by {
                    lemma_ids_read_back(pv, nv, t);
                }
            }
        }
        Ok(v)
    }

    /// The id of a token; see `spec_token_to_id`.
    pub fn token_to_id(&self, token: &str) -> (r: i64)
        ensures
            r == self.spec_token_to_id(token@),
    {
        proof {
            use_type_invariant(self);
        }
        match self.special_values.get(token) {
            Some(id) => *id,
            None => match self.values.get(token) {
                Some(id) => *id,
                None => *self.values.get(self.special_token_map.unk_token.as_str()).unwrap(),
            },
        }
    }

    /// The token of an id; see `spec_id_to_token`.
    pub fn id_to_token(&self, id: i64) -> (r: String)
        ensures
            r@ == self.spec_id_to_token(id),
    {
        match self.special_indices.get(&id) {
            Some(t) => t.clone(),
            None => match self.indices.get(&id) {
                Some(t) => t.clone(),
                None => self.special_token_map.unk_token.clone(),
            },
        }
    }

    /// The id of a special token, if it is one.
    pub fn special_value_id(&self, token: &str) -> (r: Option<i64>)
        ensures
            r == (if self.special_values_map().contains_key(token@) {
                Some(self.special_values_map()[token@])
            } else {
                None
            }),
    {
        match self.special_values.get(token) {
            Some(id) => Some(*id),
            None => None,
        }
    }

    /// Whether an id is the id of a special token.
    pub fn is_special_id(&self, id: i64) -> (r: bool)
        ensures
            r == self.special_indices_map().contains_key(id),
    {
        self.special_indices.contains_key(&id)
    }

    /// The unknown token.
    pub fn get_unknown_value(&self) -> (r: &str)
        ensures
            r@ == self.unk(),
    {
        self.special_token_map.unk_token.as_str()
    }

    /// The beginning-of-sequence token.
    pub fn get_bos_value(&self) -> (r: String)
        ensures
            r@ == self.bos(),
    {
        match &self.special_token_map.bos_token {
            Some(b) => b.clone(),
            None => default_special_token(),
        }
    }

    /// The end-of-sequence token.
    pub fn get_eos_value(&self) -> (r: String)
        ensures
            r@ == self.eos(),
    {
        match &self.special_token_map.eos_token {
            Some(e) => e.clone(),
            None => default_special_token(),
        }
    }

    /// The special token names as characters, in registration order.
    pub fn special_chars(&self) -> (r: &Vec<Vec<char>>)
        ensures
            crate::token::vec_views(r@) == self.specials(),
    {
        proof {
            use_type_invariant(self);
        }
        &self.special_order
    }

    /// The unknown token as characters.
    pub fn unk_chars(&self) -> (r: Vec<char>)
        ensures
            r@ == self.unk(),
    {
        chars_of(self.special_token_map.unk_token.as_str())
    }
}

/// The special token names of `m` in registration order.
pub fn special_name_list(m: &SpecialTokenMap) -> (r: Vec<String>)
    ensures
        string_views(r@) == special_names(*m),
{
    let mut r: Vec<String> = Vec::new();
    r.push(m.unk_token.clone());
    push_opt(&mut r, &m.pad_token);
    push_opt(&mut r, &m.bos_token);
    push_opt(&mut r, &m.sep_token);
    push_opt(&mut r, &m.cls_token);
    push_opt(&mut r, &m.eos_token);
    push_opt(&mut r, &m.mask_token);
    match &m.additional_special_tokens {
        Some(v) => {
            let mut i: usize = 0;
            let ghost before = string_views(r@);
            while i < v.len()
                invariant
                    i <= v.len(),
                    string_views(r@) == before + string_views(v@).take(i as int),
                decreases v.len() - i,
            {
                let s = v[i].clone();
                proof {
                    crate::bpe::lemma_string_views_push(r@, s);
                    assert(before + string_views(v@).take(i + 1) =~= (before + string_views(
                        v@,
                    ).take(i as int)).push(s@));
                }
                r.push(s);
                i = i + 1;
            }
            assert(string_views(v@).take(i as int) =~= string_views(v@));
            assert(string_views(r@) =~= special_names(*m));
        },
        None => {
            assert(string_views(r@) =~= special_names(*m));
        },
    }
    r
}

fn push_opt(r: &mut Vec<String>, o: &Option<String>)
    ensures
        string_views(final(r)@) == string_views(old(r)@) + opt_name(*o),
{
    match o {
        Some(s) => {
            let c = s.clone();
            proof {
                crate::bpe::lemma_string_views_push(r@, c);
            }
            r.push(c);
            assert(string_views(r@) =~= string_views(old(r)@) + opt_name(*o));
        },
        None => {
            assert(string_views(r@) =~= string_views(old(r)@) + opt_name(*o));
        },
    }
}

/// The inverse holds exactly the current pairs of the list.
pub proof fn lemma_inverse_map(pairs: Seq<(Seq<char>, i64)>, m: Map<Seq<char>, i64>, t: Seq<char>)
    requires
        m.contains_key(t),
        pairs_map(pairs).contains_key(t),
        pairs_map(pairs)[t] == m[t],
        forall|a: Seq<char>, b: Seq<char>|
            m.contains_key(a) && m.contains_key(b) && a != b ==> #[trigger] m[a] != #[trigger] m[b],
    ensures
        inverse_map(pairs, m).contains_key(m[t]),
        inverse_map(pairs, m)[m[t]] == t,
    decreases pairs.len(),
{
    let p = pairs.last();
    if p.0 == t {
        if p.1 == m[t] {
        } else {
            assert(pairs_map(pairs)[t] == p.1);
        }
    } else {
        lemma_inverse_map_keys(pairs.drop_last(), m);
        lemma_inverse_map(pairs.drop_last(), m, t);
        if m.contains_key(p.0) && m[p.0] == p.1 {
            assert(p.1 != m[t]);
        }
    }
}

/// Every id in the inverse is the current id of its token.
pub proof fn lemma_inverse_map_keys(pairs: Seq<(Seq<char>, i64)>, m: Map<Seq<char>, i64>)
    ensures
        forall|id: i64|
            #[trigger] inverse_map(pairs, m).contains_key(id) ==> m.contains_key(
                inverse_map(pairs, m)[id],
            ) && m[inverse_map(pairs, m)[id]] == id,
    decreases pairs.len(),
{
    if pairs.len() > 0 {
        lemma_inverse_map_keys(pairs.drop_last(), m);
        let p = pairs.last();
        let prev = inverse_map(pairs.drop_last(), m);
        assert forall|id: i64| #[trigger] inverse_map(pairs, m).contains_key(id) implies m.contains_key(
            inverse_map(pairs, m)[id],
        ) && m[inverse_map(pairs, m)[id]] == id by {
            if m.contains_key(p.0) && m[p.0] == p.1 && id == p.1 {
            } else {
                assert(prev.contains_key(id));
            }
        }
    }
}


/// No two tokens of `m` share an id.
pub open spec fn distinct_ids(m: Map<Seq<char>, i64>) -> bool {
    forall|a: Seq<char>, b: Seq<char>|
        m.contains_key(a) && m.contains_key(b) && a != b ==> #[trigger] m[a] != #[trigger] m[b]
}

/// The special names with their ids hold exactly the names, each with its
/// vocabulary id.
pub proof fn lemma_named_ids(names: Seq<Seq<char>>, vals: Map<Seq<char>, i64>)
    ensures
        ({
            let m = pairs_map(names.map_values(|n: Seq<char>| (n, vals[n])));
            forall|n: Seq<char>|
                #[trigger] m.contains_key(n) <==> names.contains(n)
        }),
        ({
            let m = pairs_map(names.map_values(|n: Seq<char>| (n, vals[n])));
            forall|n: Seq<char>| #[trigger] m.contains_key(n) ==> m[n] == vals[n]
        }),
    decreases names.len(),
{
    if names.len() > 0 {
        lemma_named_ids(names.drop_last(), vals);
        assert(names.map_values(|n: Seq<char>| (n, vals[n])).drop_last() =~= names.drop_last().map_values(
            |n: Seq<char>| (n, vals[n]),
        ));
        let named = names.map_values(|n: Seq<char>| (n, vals[n]));
        let prev = pairs_map(names.drop_last().map_values(|n: Seq<char>| (n, vals[n])));
        let m = pairs_map(named);
        assert(named.last() == (names.last(), vals[names.last()]));
        assert(m == prev.insert(names.last(), vals[names.last()]));
        assert forall|n: Seq<char>| #[trigger] m.contains_key(n) implies m[n] == vals[n] by {
            if n != names.last() {
                assert(prev.contains_key(n));
            }
        }
        assert forall|n: Seq<char>| #[trigger] m.contains_key(n) <==> names.contains(n) by {
            assert(m.contains_key(n) <==> (prev.contains_key(n) || n == names.last()));
            assert(prev.contains_key(n) <==> names.drop_last().contains(n));
            if names.drop_last().contains(n) {
                let i = choose|i: int| 0 <= i < names.drop_last().len() && names.drop_last()[i] == n;
                assert(names[i] == n);
            }
            if names.contains(n) && n != names.last() {
                let i = choose|i: int| 0 <= i < names.len() && names[i] == n;
                assert(names.drop_last()[i] == n);
            }
            if n == names.last() {
                assert(names[names.len() - 1] == n);
            }
        }
    }
}

/// Reading back: when no two tokens share an id and every special name is
/// in the vocabulary, the token of the id of any vocabulary entry is that
/// entry, through the special maps for special names and the plain maps for
/// the others.
pub proof fn lemma_ids_read_back(
    pairs: Seq<(Seq<char>, i64)>,
    names: Seq<Seq<char>>,
    t: Seq<char>,
)
    requires
        distinct_ids(pairs_map(pairs)),
        first_missing(names, pairs_map(pairs)) is None,
        pairs_map(pairs).contains_key(t),
    ensures
        ({
            let vals = pairs_map(pairs);
            let named = names.map_values(|n: Seq<char>| (n, vals[n]));
            let sv = pairs_map(named);
            let si = inverse_map(named, sv);
            let idx = inverse_map(pairs, vals);
            let id = if sv.contains_key(t) { sv[t] } else { vals[t] };
            (if si.contains_key(id) {
                si[id]
            } else if idx.contains_key(id) {
                idx[id]
            } else {
                names[0]
            }) == t
        }),
{
    let vals = pairs_map(pairs);
    let named = names.map_values(|n: Seq<char>| (n, vals[n]));
    let sv = pairs_map(named);
    let si = inverse_map(named, sv);
    lemma_named_ids(names, vals);
    lemma_all_present(names, vals);
    assert forall|n: Seq<char>| #[trigger] sv.contains_key(n) implies vals.contains_key(n) by {
        let i = choose|i: int| 0 <= i < names.len() && names[i] == n;
    }
    if sv.contains_key(t) {
        lemma_inverse_map(named, sv, t);
    } else {
        lemma_inverse_map_keys(named, sv);
        if si.contains_key(vals[t]) {
            assert(sv[si[vals[t]]] == vals[t]);
        }
        lemma_inverse_map(pairs, vals, t);
    }
}

/// With no name missing, every name is in the vocabulary.
proof fn lemma_all_present(names: Seq<Seq<char>>, vals: Map<Seq<char>, i64>)
    requires
        first_missing(names, vals) is None,
    ensures
        forall|i: int| 0 <= i < names.len() ==> vals.contains_key(#[trigger] names[i]),
    decreases names.len(),
{
    if names.len() > 0 {
        lemma_all_present(names.drop_first(), vals);
        assert forall|i: int| 0 <= i < names.len() implies vals.contains_key(#[trigger] names[i]) by {
            if i > 0 {
                assert(names[i] == names.drop_first()[i - 1]);
            }
        }
    }
}

fn copy_optional(o: &Option<String>) -> (r: Option<String>)
    ensures
        r == *o,
{
    match o {
        Some(s) => Some(s.clone()),
        None => None,
    }
}

fn copy_strings(v: &Vec<String>) -> (r: Vec<String>)
    ensures
        r@ == v@,
{
    let mut r: Vec<String> = Vec::with_capacity(v.len());
    let mut k: usize = 0;
    while k < v.len()
        invariant
            k <= v.len(),
            r@ == v@.take(k as int),
        decreases v.len() - k,
    {
        r.push(v[k].clone());
        k = k + 1;
        assert(r@ =~= v@.take(k as int));
    }
    assert(v@.take(k as int) =~= v@);
    r
}

/// Two special-token maps name the same tokens: the single tokens are
/// equal and the additional ones have the same texts.
pub open spec fn same_special_tokens(a: SpecialTokenMap, b: SpecialTokenMap) -> bool {
    &&& a.unk_token == b.unk_token
    &&& a.pad_token == b.pad_token
    &&& a.bos_token == b.bos_token
    &&& a.sep_token == b.sep_token
    &&& a.cls_token == b.cls_token
    &&& a.eos_token == b.eos_token
    &&& a.mask_token == b.mask_token
    &&& match (a.additional_special_tokens, b.additional_special_tokens) {
        (Some(x), Some(y)) => string_views(x@) == string_views(y@),
        (None, None) => true,
        _ => false,
    }
}

fn copy_special_map(m: &SpecialTokenMap) -> (r: SpecialTokenMap)
    ensures
        same_special_tokens(r, *m),
        special_names(r) == special_names(*m),
{
    SpecialTokenMap {
        unk_token: m.unk_token.clone(),
        pad_token: copy_optional(&m.pad_token),
        bos_token: copy_optional(&m.bos_token),
        sep_token: copy_optional(&m.sep_token),
        cls_token: copy_optional(&m.cls_token),
        eos_token: copy_optional(&m.eos_token),
        mask_token: copy_optional(&m.mask_token),
        additional_special_tokens: match &m.additional_special_tokens {
            Some(v) => Some(copy_strings(v)),
            None => None,
        },
    }
}

fn copy_entries(v: &Vec<(String, i64)>) -> (r: Vec<(String, i64)>)
    ensures
        r@ == v@,
{
    let mut r: Vec<(String, i64)> = Vec::with_capacity(v.len());
    let mut k: usize = 0;
    while k < v.len()
        invariant
            k <= v.len(),
            r@ == v@.take(k as int),
        decreases v.len() - k,
    {
        r.push((v[k].0.clone(), v[k].1));
        k = k + 1;
        assert(r@ =~= v@.take(k as int));
    }
    assert(v@.take(k as int) =~= v@);
    r
}

impl Clone for GptNeoXVocab {
    /// A copy of the vocabulary, built again from its entries and special
    /// tokens.
    fn clone(&self) -> (r: Self)
        ensures
            r.values_map() == self.values_map(),
            r.indices_map() == self.indices_map(),
            same_special_tokens(r.spec_special_token_map(), self.spec_special_token_map()),
            r.specials() == self.specials(),
            r.special_values_map() == self.special_values_map(),
            r.special_indices_map() == self.special_indices_map(),
    {
        proof {
            use_type_invariant(self);
        }
        let entries = copy_entries(&self.entries);
        let map = copy_special_map(&self.special_token_map);
        match GptNeoXVocab::from_values_and_special_token_map(entries, map) {
            Ok(v) => v,
            Err(_) => vstd::pervasive::unreached(),
        }
    }
}

} // verus!
