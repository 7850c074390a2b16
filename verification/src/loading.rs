//! Reading vocabularies and merge tables from their text formats: the merges
//! file, the vocabulary JSON object, and HuggingFace `tokenizer.json`.

use vstd::prelude::*;
use crate::bpe::BpePairVocab;
use crate::token::string_views;
use crate::unicode::{chars_of, spec_trim, string_from_chars, trim_chars};
use crate::vocab::{GptNeoXVocab, SpecialTokenMap, TokenizerError, pair_views};

verus! {

/// `s` cut at every `sep`, as `str::split` cuts it: there is always at least
/// one piece, and pieces may be empty.
pub open spec fn split_on(s: Seq<char>, sep: char) -> Seq<Seq<char>>
    decreases s.len(),
{
    if s.len() == 0 {
        seq![Seq::empty()]
    } else {
        let prev = split_on(s.drop_last(), sep);
        if s.last() == sep {
            prev.push(Seq::empty())
        } else {
            prev.update(prev.len() - 1, prev.last().push(s.last()))
        }
    }
}

pub proof fn lemma_split_on_len(s: Seq<char>, sep: char)
    ensures
        1 <= split_on(s, sep).len() <= s.len() + 1,
    decreases s.len(),
{
    if s.len() > 0 {
        lemma_split_on_len(s.drop_last(), sep);
    }
}

pub proof fn lemma_split_on_nonempty(s: Seq<char>, sep: char)
    ensures
        split_on(s, sep).len() >= 1,
    decreases s.len(),
{
    if s.len() > 0 {
        lemma_split_on_nonempty(s.drop_last(), sep);
    }
}

/// The lines of a text as `BufRead::lines` yields them: cut at `\n`, with
/// no empty line after a final newline. (A carriage return before the
/// newline stays; the merges reader trims it away.)
pub open spec fn text_lines(s: Seq<char>) -> Seq<Seq<char>> {
    let segs = split_on(s, '\n');
    if segs.last().len() == 0 {
        segs.drop_last()
    } else {
        segs
    }
}

/// Cuts `s` at every `sep`; see `split_on`.
pub fn split_chars(s: &Vec<char>, sep: char) -> (r: Vec<Vec<char>>)
    ensures
        crate::token::vec_views(r@) == split_on(s@, sep),
{
    let mut r: Vec<Vec<char>> = Vec::new();
    let mut cur: Vec<char> = Vec::new();
    let mut i: usize = 0;
    assert(s@.take(0) =~= Seq::<char>::empty());
    while i < s.len()
        invariant
            i <= s.len(),
            crate::token::vec_views(r@).push(cur@) == split_on(s@.take(i as int), sep),
        decreases s.len() - i,
    {
        let ghost prefix = s@.take(i + 1);
        assert(prefix.drop_last() =~= s@.take(i as int));
        assert(prefix.last() == s@[i as int]);
        if s[i] == sep {
            let done = cur;
            proof {
                assert(crate::token::vec_views(r@.push(done)) =~= crate::token::vec_views(r@).push(
                    done@,
                ));
            }
            r.push(done);
            cur = Vec::new();
            assert(crate::token::vec_views(r@).push(cur@) =~= split_on(prefix, sep));
        } else {
            let ghost before = crate::token::vec_views(r@).push(cur@);
            cur.push(s[i]);
            assert(crate::token::vec_views(r@).push(cur@) =~= before.update(
                before.len() - 1,
                before.last().push(s@[i as int]),
            ));
        }
        i = i + 1;
    }
    assert(s@.take(i as int) =~= s@);
    proof {
        assert(crate::token::vec_views(r@.push(cur)) =~= crate::token::vec_views(r@).push(cur@));
    }
    r.push(cur);
    r
}

/// The lines of a text; see `text_lines`.
pub fn lines_of(s: &Vec<char>) -> (r: Vec<Vec<char>>)
    ensures
        crate::token::vec_views(r@) == text_lines(s@),
{
    let mut segs = split_chars(s, '\n');
    proof {
        lemma_split_on_nonempty(s@, '\n');
    }
    let n = segs.len();
    if segs[n - 1].len() == 0 {
        let ghost before = segs@;
        segs.pop();
        assert(crate::token::vec_views(segs@) =~= crate::token::vec_views(before).drop_last());
    }
    segs
}

/// The merge entries of a merges file: after the first line, every line
/// that, trimmed and cut at single spaces, has at least two parts gives the
/// pair of its first two parts.
pub open spec fn merge_entries(lines: Seq<Seq<char>>) -> Seq<(Seq<char>, Seq<char>)>
    decreases lines.len(),
{
    if lines.len() <= 1 {
        Seq::empty()
    } else {
        let prev = merge_entries(lines.drop_last());
        let parts = split_on(spec_trim(lines.last()), ' ');
        if parts.len() > 1 {
            prev.push((parts[0], parts[1]))
        } else {
            prev
        }
    }
}

/// The ranks that a list of pairs gives: each pair its position in the list,
/// a later position replacing an earlier one.
pub open spec fn ranked_pairs(entries: Seq<(Seq<char>, Seq<char>)>) -> Map<(Seq<char>, Seq<char>), i64>
    decreases entries.len(),
{
    if entries.len() == 0 {
        Map::empty()
    } else {
        ranked_pairs(entries.drop_last()).insert(entries.last(), (entries.len() - 1) as i64)
    }
}

/// The ranks of a list of pairs are positions in the list: every listed
/// pair gets the position of its last occurrence, and no other pair gets a
/// rank. So an earlier pair ranks strictly lower than a later one.
pub proof fn lemma_ranked_pairs_are_positions(entries: Seq<(Seq<char>, Seq<char>)>)
    requires
        entries.len() < i64::MAX,
    ensures
        forall|i: int|
            0 <= i < entries.len() && (forall|j: int| i < j < entries.len() ==> entries[j] != entries[i])
                ==> #[trigger] ranked_pairs(entries).contains_key(entries[i]) && ranked_pairs(entries)[entries[i]]
                == i,
        forall|p: (Seq<char>, Seq<char>)|
            #[trigger] ranked_pairs(entries).contains_key(p) ==> {
                let r = ranked_pairs(entries)[p] as int;
                &&& 0 <= r < entries.len()
                &&& entries[r] == p
                &&& forall|j: int| r < j < entries.len() ==> entries[j] != p
            },
    decreases entries.len(),
{
    if entries.len() > 0 {
        let prev = entries.drop_last();
        let n = entries.len() - 1;
        lemma_ranked_pairs_are_positions(prev);
        assert(entries.last() == entries[n]);
        assert(ranked_pairs(entries) == ranked_pairs(prev).insert(entries[n], n as i64));
        assert forall|i: int|
            0 <= i < entries.len() && (forall|j: int| i < j < entries.len() ==> entries[j] != entries[i])
                implies #[trigger] ranked_pairs(entries).contains_key(entries[i]) && ranked_pairs(entries)[entries[i]]
                == i by {
            if i < n {
                assert(prev[i] == entries[i]);
                assert forall|j: int| i < j < prev.len() implies prev[j] != prev[i] by {
                    assert(prev[j] == entries[j]);
                }
                assert(entries[n] != entries[i]);
            }
        }
        assert forall|p: (Seq<char>, Seq<char>)| #[trigger] ranked_pairs(entries).contains_key(p) implies {
            let r = ranked_pairs(entries)[p] as int;
            &&& 0 <= r < entries.len()
            &&& entries[r] == p
            &&& forall|j: int| r < j < entries.len() ==> entries[j] != p
        } by {
            if entries[n] != p {
                assert(ranked_pairs(prev).contains_key(p));
                let r = ranked_pairs(prev)[p] as int;
                assert(prev[r] == entries[r]);
                assert forall|j: int| r < j < entries.len() implies entries[j] != p by {
                    if j < n {
                        assert(prev[j] == entries[j]);
                    }
                }
            }
        }
    }
}

impl BpePairVocab {
    /// Reads a merges file: the first line (a version header) is skipped,
    /// and the merge entries are ranked by their order; see `merge_entries`.
    pub fn from_merges_text(text: &str) -> (r: BpePairVocab)
        requires
            text@.len() < i64::MAX,
        ensures
            r.wf(),
            r@ == ranked_pairs(merge_entries(text_lines(text@))),
    {
        let chars = chars_of(text);
        let lines = lines_of(&chars);
        proof {
            lemma_split_on_len(chars@, '\n');
        }
        let ghost lv = crate::token::vec_views(lines@);
        assert(lv.len() == lines@.len());
        assert(text_lines(chars@).len() <= split_on(chars@, '\n').len());
        let mut vocab = BpePairVocab::new();
        let mut index: i64 = 0;
        let mut k: usize = 1;
        if lines.len() == 0 {
            return vocab;
        }
        while k < lines.len()
            invariant
                1 <= k <= lines.len(),
                lv == crate::token::vec_views(lines@),
                lines@.len() <= chars@.len() + 1,
                chars@.len() < i64::MAX,
                vocab.wf(),
                vocab@ == ranked_pairs(merge_entries(lv.take(k as int))),
                index as int == merge_entries(lv.take(k as int)).len(),
                index <= k,
            decreases lines.len() - k,
        {
            let ghost prefix = lv.take(k + 1);
            assert(prefix.drop_last() =~= lv.take(k as int));
            assert(prefix.last() == lines@[k as int]@);
            let trimmed = trim_chars(&lines[k]);
            let parts = split_chars(&trimmed, ' ');
            if parts.len() > 1 {
                let left = string_from_chars(&parts[0], 0, parts[0].len());
                let right = string_from_chars(&parts[1], 0, parts[1].len());
                assert(parts@[0]@.subrange(0, parts@[0]@.len() as int) =~= parts@[0]@);
                assert(parts@[1]@.subrange(0, parts@[1]@.len() as int) =~= parts@[1]@);
                let ghost pv = crate::token::vec_views(parts@);
                assert(pv == split_on(spec_trim(prefix.last()), ' '));
                let ghost prev = merge_entries(lv.take(k as int));
                assert(merge_entries(prefix) == prev.push((pv[0], pv[1])));
                assert(prev.push((pv[0], pv[1])).drop_last() =~= prev);
                assert(ranked_pairs(prev.push((pv[0], pv[1]))) == ranked_pairs(prev).insert((pv[0], pv[1]), prev.len() as i64));
                vocab.insert(left, right, index);
                index = index + 1;
            } else {
                assert(merge_entries(prefix) == merge_entries(lv.take(k as int)));
            }
            k = k + 1;
        }
        assert(lv.take(k as int) =~= lv);
        vocab
    }
}

/// `serde_json::Error`, carried through as an opaque value.
#[verifier::external_type_specification]
#[verifier::external_body]
pub struct ExJsonError(serde_json::Error);

/// The entries of a JSON text that is an object mapping strings to integers
/// that fit `i64`, in increasing key order, as `serde_json` reads it into an
/// ordered map; `None` for any other text.
pub uninterp spec fn json_object_entries(text: Seq<char>) -> Option<Seq<(Seq<char>, i64)>>;

/// `serde_json::from_str` into an ordered map from strings to `i64`,
/// handed out as its entries. What the JSON grammar accepts is left to the
/// name; the error is carried through as it is.
#[verifier::external_body]
pub(crate) fn parse_json_ids(text: &str) -> (r: Result<Vec<(String, i64)>, serde_json::Error>)
    ensures
        r is Ok <==> json_object_entries(text@) is Some,
        r matches Ok(v) ==> pair_views(v@) == json_object_entries(text@)->0,
{
    serde_json::from_str::<std::collections::BTreeMap<String, i64>>(text).map(
        |m| m.into_iter().collect(),
    )
}

/// The message of a `serde_json` error, through its `Display`.
#[verifier::external_body]
pub(crate) fn json_error_message(e: &serde_json::Error) -> String {
    e.to_string()
}

impl GptNeoXVocab {
    /// Reads a vocabulary from the text of its JSON file, an object mapping
    /// each token to its id, with the given special tokens.
    pub fn from_vocab_json(text: &str, special_token_map: SpecialTokenMap) -> (r: Result<
        GptNeoXVocab,
        TokenizerError,
    >)
        ensures
            json_object_entries(text@) is None ==> r matches Err(
                TokenizerError::VocabularyParsingError(_),
            ),
            json_object_entries(text@) matches Some(entries) ==> {
                let vals = crate::vocab::pairs_map(entries);
                let names = crate::vocab::special_names(special_token_map);
                &&& r is Ok <==> crate::vocab::first_missing(names, vals) is None
                &&& r matches Ok(v) ==> {
                    &&& v.values_map() == vals
                    &&& v.indices_map() == crate::vocab::inverse_map(entries, vals)
                    &&& v.spec_special_token_map() == special_token_map
                }
                &&& r matches Err(e) ==> e is TokenNotFound
            },
    {
        match parse_json_ids(text) {
            Ok(entries) => GptNeoXVocab::from_values_and_special_token_map(entries, special_token_map),
            Err(e) => Err(TokenizerError::VocabularyParsingError(json_error_message(&e))),
        }
    }
}

/// A JSON value. A number is kept as the `i64` it stands for (`None` when
/// it is not an integer that fits `i64`) and as the text `serde_json` writes
/// for it.
#[derive(Debug, PartialEq)]
pub enum JsonValue {
    Null,
    Bool(bool),
    Number(Option<i64>, String),
    Str(String),
    Array(Vec<JsonValue>),
    Object(Vec<(String, JsonValue)>),
}

/// The value of the first entry named `key`.
pub open spec fn first_entry(entries: Seq<(String, JsonValue)>, key: Seq<char>) -> Option<JsonValue>
    decreases entries.len(),
{
    if entries.len() == 0 {
        None
    } else if entries[0].0@ == key {
        Some(entries[0].1)
    } else {
        first_entry(entries.drop_first(), key)
    }
}

/// The member `key` of an object; `None` for a missing member or a value
/// that is not an object.
pub open spec fn spec_get(v: JsonValue, key: Seq<char>) -> Option<JsonValue> {
    match v {
        JsonValue::Object(entries) => first_entry(entries@, key),
        _ => None,
    }
}

/// The text of a string value.
pub open spec fn spec_as_str(v: Option<JsonValue>) -> Option<Seq<char>> {
    match v {
        Some(JsonValue::Str(s)) => Some(s@),
        _ => None,
    }
}

/// The `(token, id)` entries of an object whose members are all integers
/// that fit `i64`.
pub open spec fn id_entries(v: JsonValue) -> Option<Seq<(Seq<char>, i64)>> {
    match v {
        JsonValue::Object(entries) => if forall|i: int|
            0 <= i < entries@.len() ==> (#[trigger] entries@[i]).1 matches JsonValue::Number(
                Some(_),
                _,
            ) {
            Some(
                entries@.map_values(
                    |e: (String, JsonValue)| (e.0@, e.1->Number_0->0),
                ),
            )
        } else {
            None
        },
        _ => None,
    }
}

/// The texts of an array whose items are all strings.
pub open spec fn string_items(v: JsonValue) -> Option<Seq<Seq<char>>> {
    match v {
        JsonValue::Array(items) => if forall|i: int|
            0 <= i < items@.len() ==> (#[trigger] items@[i]) is Str {
            Some(items@.map_values(|x: JsonValue| x->Str_0@))
        } else {
            None
        },
        _ => None,
    }
}

/// The ranks of a merge list: a merge that is exactly two parts separated
/// by one space ranks as its position in the list; a later position
/// replaces an earlier one.
pub open spec fn merge_list_ranks(merges: Seq<Seq<char>>) -> Map<(Seq<char>, Seq<char>), i64>
    decreases merges.len(),
{
    if merges.len() == 0 {
        Map::empty()
    } else {
        let prev = merge_list_ranks(merges.drop_last());
        let parts = split_on(merges.last(), ' ');
        if parts.len() == 2 {
            prev.insert((parts[0], parts[1]), (merges.len() - 1) as i64)
        } else {
            prev
        }
    }
}

/// The pair that a merge entry names when it is exactly two parts separated
/// by one space.
pub open spec fn merge_pair_of(entry: Seq<char>) -> Option<(Seq<char>, Seq<char>)> {
    let parts = split_on(entry, ' ');
    if parts.len() == 2 {
        Some((parts[0], parts[1]))
    } else {
        None
    }
}

/// The ranks of a merge list are positions in the list: every pair that an
/// entry names gets the position of the last entry naming it, and a pair no
/// entry names gets no rank. So an earlier merge ranks strictly lower than a
/// later one, and merges first.
pub proof fn lemma_merge_list_ranks_are_positions(merges: Seq<Seq<char>>)
    requires
        merges.len() < i64::MAX,
    ensures
        forall|i: int|
            0 <= i < merges.len() && #[trigger] merge_pair_of(merges[i]) is Some && (forall|j: int|
                i < j < merges.len() ==> merge_pair_of(merges[j]) != merge_pair_of(merges[i]))
                ==> merge_list_ranks(merges).contains_key(merge_pair_of(merges[i])->0)
                && merge_list_ranks(merges)[merge_pair_of(merges[i])->0] == i,
        forall|p: (Seq<char>, Seq<char>)|
            #[trigger] merge_list_ranks(merges).contains_key(p) ==> {
                let r = merge_list_ranks(merges)[p] as int;
                &&& 0 <= r < merges.len()
                &&& merge_pair_of(merges[r]) == Some(p)
                &&& forall|j: int| r < j < merges.len() ==> merge_pair_of(merges[j]) != Some(p)
            },
    decreases merges.len(),
{
    if merges.len() > 0 {
        let prev = merges.drop_last();
        lemma_merge_list_ranks_are_positions(prev);
        let n = merges.len() - 1;
        assert(merges.last() == merges[n]);
        assert(merge_list_ranks(merges) == match merge_pair_of(merges[n]) {
            Some(p) => merge_list_ranks(prev).insert(p, n as i64),
            None => merge_list_ranks(prev),
        });
        assert forall|i: int|
            0 <= i < merges.len() && #[trigger] merge_pair_of(merges[i]) is Some && (forall|j: int|
                i < j < merges.len() ==> merge_pair_of(merges[j]) != merge_pair_of(merges[i]))
                implies merge_list_ranks(merges).contains_key(merge_pair_of(merges[i])->0)
                && merge_list_ranks(merges)[merge_pair_of(merges[i])->0] == i by {
            if i < n {
                assert(prev[i] == merges[i]);
                assert forall|j: int| i < j < prev.len() implies merge_pair_of(prev[j]) != merge_pair_of(prev[i]) by {
                    assert(prev[j] == merges[j]);
                }
                assert(merge_pair_of(merges[n]) != merge_pair_of(merges[i]));
            }
        }
        assert forall|p: (Seq<char>, Seq<char>)| #[trigger] merge_list_ranks(merges).contains_key(p) implies {
            let r = merge_list_ranks(merges)[p] as int;
            &&& 0 <= r < merges.len()
            &&& merge_pair_of(merges[r]) == Some(p)
            &&& forall|j: int| r < j < merges.len() ==> merge_pair_of(merges[j]) != Some(p)
        } by {
            if merge_pair_of(merges[n]) != Some(p) {
                assert(merge_list_ranks(prev).contains_key(p));
                let r = merge_list_ranks(prev)[p] as int;
                assert(prev[r] == merges[r]);
                assert forall|j: int| r < j < merges.len() implies merge_pair_of(merges[j]) != Some(p) by {
                    if j < n {
                        assert(prev[j] == merges[j]);
                    }
                }
            }
        }
    }
}

/// `<|padding|>`, the padding token of GPT-NeoX.
pub open spec fn spec_padding() -> Seq<char> {
    seq!['<', '|', 'p', 'a', 'd', 'd', 'i', 'n', 'g', '|', '>']
}

/// An added token that declares the special token `name`: it has a string
/// `content` equal to `name`, an integer `id` and `special` set.
pub open spec fn declares_special(t: JsonValue, name: Seq<char>) -> bool {
    &&& spec_as_str(spec_get(t, "content"@)) == Some(name)
    &&& spec_get(t, "id"@) matches Some(JsonValue::Number(Some(_), _))
    &&& spec_get(t, "special"@) == Some(JsonValue::Bool(true))
}

/// Some added token declares the special token `name`.
pub open spec fn declared(json: JsonValue, name: Seq<char>) -> bool {
    let at = spec_get(json, "added_tokens"@);
    &&& at is Some
    &&& at->0 is Array
    &&& exists|i: int|
        0 <= i < at->0->Array_0@.len() && declares_special(#[trigger] at->0->Array_0@[i], name)
}

/// What the added tokens of `tokenizer.json` make the special tokens:
/// the unknown token is always `<|endoftext|>`; it is also the beginning and
/// end token when declared; `<|padding|>` pads when declared.
pub open spec fn added_special_map(json: JsonValue) -> (Seq<char>, Option<Seq<char>>, Option<Seq<char>>, Option<Seq<char>>) {
    let eot = crate::vocab::spec_default_special();
    (
        eot,
        if declared(json, spec_padding()) { Some(spec_padding()) } else { None },
        if declared(json, eot) { Some(eot) } else { None },
        if declared(json, eot) { Some(eot) } else { None },
    )
}

/// An optional name as a list of zero or one names.
pub open spec fn opt_seq(o: Option<Seq<char>>) -> Seq<Seq<char>> {
    match o {
        Some(p) => seq![p],
        None => Seq::empty(),
    }
}

/// The special token names that the added tokens of `tokenizer.json` make,
/// in registration order: unknown, padding, beginning, end.
pub open spec fn added_special_names(json: JsonValue) -> Seq<Seq<char>> {
    let (unk, pad, bos, eos) = added_special_map(json);
    seq![unk] + opt_seq(pad) + opt_seq(bos) + opt_seq(eos)
}

/// What `tokenizer.json` gives: the vocabulary entries and the merge list,
/// or the message of the first problem found.
pub open spec fn tokenizer_json_parts(json: JsonValue) -> Result<(Seq<(Seq<char>, i64)>, Seq<Seq<char>>), Seq<char>> {
    match spec_get(json, "model"@) {
        None => Err("Missing 'model' section in tokenizer.json"@),
        Some(model) => match spec_as_str(spec_get(model, "type"@)) {
            None => Err("Missing model type"@),
            Some(t) => if t != "BPE"@ {
                Err("Expected BPE model, got "@ + t)
            } else {
                match spec_get(model, "vocab"@) {
                    None => Err("Missing vocab in model"@),
                    Some(vj) => match id_entries(vj) {
                        None => Err("Failed to parse vocab: "@ + serde_map_error(vj)),
                        Some(entries) => match spec_get(model, "merges"@) {
                            None => Err("Missing merges in model"@),
                            Some(mj) => match string_items(mj) {
                                None => Err("Failed to parse merges: "@ + serde_list_error(mj)),
                                Some(merges) => Ok((entries, merges)),
                            },
                        },
                    },
                }
            },
        },
    }
}

/// The member `key` of an object; see `spec_get`.
pub fn json_get<'a>(v: &'a JsonValue, key: &str) -> (r: Option<&'a JsonValue>)
    ensures
        r == (match spec_get(*v, key@) {
            Some(x) => Some(&x),
            None => None::<&JsonValue>,
        }),
{
    match v {
        JsonValue::Object(entries) => {
            let ghost es = entries@;
            assert(*v == JsonValue::Object(*entries));
            assert(spec_get(*v, key@) == first_entry(es, key@));
            let mut k: usize = 0;
            assert(es.skip(0) =~= es);
            while k < entries.len()
                invariant
                    es == entries@,
                    spec_get(*v, key@) == first_entry(es, key@),
                    k <= entries.len(),
                    first_entry(es, key@) == first_entry(es.skip(k as int), key@),
                decreases entries.len() - k,
            {
                assert(es.skip(k as int)[0] == es[k as int]);
                assert(es.skip(k as int).drop_first() =~= es.skip(k + 1));
                let name = chars_of(entries[k].0.as_str());
                let wanted = chars_of(key);
                if crate::split::vec_chars_eq(&name, &wanted) {
                    assert(es[k as int].0@ == key@);
                    assert(first_entry(es.skip(k as int), key@) == Some(es[k as int].1));
                    return Some(&entries[k].1);
                }
                k = k + 1;
            }
            None
        },
        _ => None,
    }
}

/// The text of a string value.
pub fn json_as_str(v: Option<&JsonValue>) -> (r: Option<&String>)
    ensures
        match r {
            Some(s) => spec_as_str(match v { Some(x) => Some(*x), None => None }) == Some(s@),
            None => spec_as_str(match v { Some(x) => Some(*x), None => None }) is None,
        },
{
    match v {
        Some(JsonValue::Str(s)) => Some(s),
        _ => None,
    }
}

/// The `(token, id)` entries of an object of integers; see `id_entries`.
pub fn json_id_entries(v: &JsonValue) -> (r: Option<Vec<(String, i64)>>)
    ensures
        match r {
            Some(e) => id_entries(*v) == Some(pair_views(e@)),
            None => id_entries(*v) is None,
        },
{
    match v {
        JsonValue::Object(entries) => {
            let ghost es = entries@;
            assert(*v == JsonValue::Object(*entries));
            let mut out: Vec<(String, i64)> = Vec::with_capacity(entries.len());
            let mut k: usize = 0;
            while k < entries.len()
                invariant
                    es == entries@,
                    *v == JsonValue::Object(*entries),
                    k <= entries.len(),
                    forall|i: int| 0 <= i < k ==> (#[trigger] es[i]).1 matches JsonValue::Number(Some(_), _),
                    pair_views(out@) == es.take(k as int).map_values(
                        |e: (String, JsonValue)| (e.0@, e.1->Number_0->0),
                    ),
                decreases entries.len() - k,
            {
                match &entries[k].1 {
                    JsonValue::Number(Some(id), _) => {
                        let name = entries[k].0.clone();
                        let ghost before = out@;
                        let ghost item = (name@, *id);
                        out.push((name, *id));
                        assert(pair_views(out@) =~= pair_views(before).push(item));
                        assert(es[k as int].1->Number_0->0 == *id);
                        assert(es.take(k + 1).map_values(
                            |e: (String, JsonValue)| (e.0@, e.1->Number_0->0),
                        ) =~= es.take(k as int).map_values(
                            |e: (String, JsonValue)| (e.0@, e.1->Number_0->0),
                        ).push(item));
                    },
                    _ => {
                        assert(!(es[k as int].1 matches JsonValue::Number(Some(_), _)));
                        return None;
                    },
                }
                k = k + 1;
            }
            assert(es.take(k as int) =~= es);
            Some(out)
        },
        _ => None,
    }
}

/// The texts of an array of strings; see `string_items`.
pub fn json_string_items(v: &JsonValue) -> (r: Option<Vec<String>>)
    ensures
        match r {
            Some(items) => string_items(*v) == Some(string_views(items@)),
            None => string_items(*v) is None,
        },
{
    match v {
        JsonValue::Array(items) => {
            let ghost its = items@;
            assert(*v == JsonValue::Array(*items));
            let mut out: Vec<String> = Vec::with_capacity(items.len());
            let mut k: usize = 0;
            while k < items.len()
                invariant
                    its == items@,
                    *v == JsonValue::Array(*items),
                    k <= items.len(),
                    forall|i: int| 0 <= i < k ==> (#[trigger] its[i]) is Str,
                    string_views(out@) == its.take(k as int).map_values(|x: JsonValue| x->Str_0@),
                decreases items.len() - k,
            {
                match &items[k] {
                    JsonValue::Str(s) => {
                        let c = s.clone();
                        proof {
                            crate::bpe::lemma_string_views_push(out@, c);
                        }
                        out.push(c);
                        assert(string_views(out@) =~= its.take(k + 1).map_values(|x: JsonValue| x->Str_0@));
                    },
                    _ => {
                        assert(!(its[k as int] is Str));
                        return None;
                    },
                }
                k = k + 1;
            }
            assert(its.take(k as int) =~= its);
            Some(out)
        },
        _ => None,
    }
}

/// Ranks a merge list; see `merge_list_ranks`.
pub fn ranks_from_merge_list(merges: &Vec<String>) -> (r: BpePairVocab)
    requires
        merges@.len() < i64::MAX,
    ensures
        r.wf(),
        r@ == merge_list_ranks(string_views(merges@)),
{
    let ghost mv = string_views(merges@);
    let mut vocab = BpePairVocab::new();
    let mut k: usize = 0;
    while k < merges.len()
        invariant
            mv == string_views(merges@),
            merges@.len() < i64::MAX,
            k <= merges.len(),
            vocab.wf(),
            vocab@ == merge_list_ranks(mv.take(k as int)),
        decreases merges.len() - k,
    {
        let ghost prefix = mv.take(k + 1);
        assert(prefix.drop_last() =~= mv.take(k as int));
        assert(prefix.last() == merges@[k as int]@);
        let chars = chars_of(merges[k].as_str());
        let parts = split_chars(&chars, ' ');
        if parts.len() == 2 {
            let left = string_from_chars(&parts[0], 0, parts[0].len());
            let right = string_from_chars(&parts[1], 0, parts[1].len());
            assert(parts@[0]@.subrange(0, parts@[0]@.len() as int) =~= parts@[0]@);
            assert(parts@[1]@.subrange(0, parts@[1]@.len() as int) =~= parts@[1]@);
            vocab.insert(left, right, k as i64);
        }
        k = k + 1;
    }
    assert(mv.take(k as int) =~= mv);
    vocab
}

/// `<|padding|>`.
pub fn padding_token() -> (r: String)
    ensures
        r@ == spec_padding(),
{
    let chars = vec!['<', '|', 'p', 'a', 'd', 'd', 'i', 'n', 'g', '|', '>'];
    assert(chars@ =~= spec_padding());
    crate::unicode::string_of_chars(&chars)
}

/// Whether an added token declares the special token `name`; see
/// `declares_special`.
fn check_declares(t: &JsonValue, name: &Vec<char>) -> (r: bool)
    ensures
        r == declares_special(*t, name@),
{
    let content = json_as_str(json_get(t, "content"));
    let id_ok = match json_get(t, "id") {
        Some(JsonValue::Number(Some(_), _)) => true,
        _ => false,
    };
    let special_ok = match json_get(t, "special") {
        Some(JsonValue::Bool(b)) => *b,
        _ => false,
    };
    match content {
        Some(c) => {
            let cc = chars_of(c.as_str());
            crate::split::vec_chars_eq(&cc, name) && id_ok && special_ok
        },
        None => false,
    }
}

/// Whether some added token declares the special token `name`; see
/// `declared`.
fn check_declared(json: &JsonValue, name: &Vec<char>) -> (r: bool)
    ensures
        r == declared(*json, name@),
{
    match json_get(json, "added_tokens") {
        Some(JsonValue::Array(items)) => {
            assert(spec_get(*json, "added_tokens"@) == Some(JsonValue::Array(*items)));
            let mut k: usize = 0;
            while k < items.len()
                invariant
                    k <= items.len(),
                    spec_get(*json, "added_tokens"@) == Some(JsonValue::Array(*items)),
                    forall|i: int| 0 <= i < k ==> !declares_special(#[trigger] items@[i], name@),
                decreases items.len() - k,
            {
                if check_declares(&items[k], name) {
                    assert(declares_special(items@[k as int], name@));
                    let ghost at = spec_get(*json, "added_tokens"@);
                    assert(at is Some);
                    assert(at->0 == JsonValue::Array(*items));
                    assert(at->0->Array_0@ == items@);
                    assert(declares_special(at->0->Array_0@[k as int], name@));
                    return true;
                }
                k = k + 1;
            }
            false
        },
        _ => false,
    }
}

/// `serde_json::Value`, a parsed JSON document held as an opaque value.
#[verifier::external_type_specification]
#[verifier::external_body]
pub struct ExJsonValue(serde_json::Value);

/// The JSON value that `serde_json` reads from a text, as a `JsonValue`;
/// `None` when the text is not one JSON document. It depends on the text
/// alone: objects come out in increasing key order (a later duplicate key
/// replacing an earlier one), and numbers as the `i64` they stand for and
/// their text.
pub uninterp spec fn json_value_of(text: Seq<char>) -> Option<JsonValue>;

/// Turns a `serde_json::Value` into the same value as a `JsonValue`, one
/// variant for one variant; a number is kept through `Number::as_i64` and
/// its `Display` text.
#[verifier::external_body]
fn json_value_from_serde(value: &serde_json::Value) -> JsonValue {
    match value {
        serde_json::Value::Null => JsonValue::Null,
        serde_json::Value::Bool(b) => JsonValue::Bool(*b),
        serde_json::Value::Number(n) => JsonValue::Number(n.as_i64(), n.to_string()),
        serde_json::Value::String(s) => JsonValue::Str(s.clone()),
        serde_json::Value::Array(items) => JsonValue::Array(items.iter().map(json_value_from_serde).collect()),
        serde_json::Value::Object(entries) => JsonValue::Object(
            entries.iter().map(|(k, v)| (k.clone(), json_value_from_serde(v))).collect(),
        ),
    }
}

/// `serde_json::from_str` into a `serde_json::Value`, handed out as a
/// `JsonValue`. Which texts are JSON, and the value each stands for, is
/// left to the name; the error is carried through as it is.
#[verifier::external_body]
pub(crate) fn parse_json_value(text: &str) -> (r: Result<JsonValue, serde_json::Error>)
    ensures
        r is Ok <==> json_value_of(text@) is Some,
        r matches Ok(j) ==> Some(j) == json_value_of(text@),
{
    match serde_json::from_str::<serde_json::Value>(text) {
        Ok(v) => Ok(json_value_from_serde(&v)),
        Err(e) => Err(e),
    }
}

/// Turns a `JsonValue` back into the `serde_json::Value` it was read from,
/// one variant for one variant; a number from its text (a text that is no
/// number becomes `Null`).
#[verifier::external_body]
fn json_value_to_serde(value: &JsonValue) -> serde_json::Value {
    match value {
        JsonValue::Null => serde_json::Value::Null,
        JsonValue::Bool(b) => serde_json::Value::Bool(*b),
        JsonValue::Number(_, t) => match t.parse::<serde_json::Number>() {
            Ok(n) => serde_json::Value::Number(n),
            Err(_) => serde_json::Value::Null,
        },
        JsonValue::Str(s) => serde_json::Value::String(s.clone()),
        JsonValue::Array(items) => serde_json::Value::Array(items.iter().map(json_value_to_serde).collect()),
        JsonValue::Object(entries) => serde_json::Value::Object(
            entries.iter().map(|(k, v)| (k.clone(), json_value_to_serde(v))).collect(),
        ),
    }
}

/// The message of the error `serde_json::from_value` gives when it reads a
/// value as a map from strings to `i64` (empty when it succeeds).
pub uninterp spec fn serde_map_error(v: JsonValue) -> Seq<char>;

/// The message of the error `serde_json::from_value` gives when it reads a
/// value as a list of strings (empty when it succeeds).
pub uninterp spec fn serde_list_error(v: JsonValue) -> Seq<char>;

/// `serde_json::from_value` into a `HashMap<String, i64>`: the `Display`
/// of its error, or the empty text when it succeeds. The message is left
/// to the name.
#[verifier::external_body]
fn map_error_text(v: &JsonValue) -> (r: String)
    ensures
        r@ == serde_map_error(*v),
{
    match serde_json::from_value::<std::collections::HashMap<String, i64>>(json_value_to_serde(v)) {
        Ok(_) => String::new(),
        Err(e) => e.to_string(),
    }
}

/// `serde_json::from_value` into a `Vec<String>`: the `Display` of its
/// error, or the empty text when it succeeds. The message is left to the
/// name.
#[verifier::external_body]
fn list_error_text(v: &JsonValue) -> (r: String)
    ensures
        r@ == serde_list_error(*v),
{
    match serde_json::from_value::<Vec<String>>(json_value_to_serde(v)) {
        Ok(_) => String::new(),
        Err(e) => e.to_string(),
    }
}

/// What building a tokenizer from a `tokenizer.json` value gives. A problem
/// in the parts is `FileNotFound` with its message. Otherwise the tokenizer
/// has the vocabulary of the entries with the special tokens of the added
/// tokens, the ranks of the merge list and the given flags; a special token
/// missing from the vocabulary is `TokenNotFound`, too long a merge list a
/// `ValueError`, and else it succeeds exactly when the `regex` crate
/// accepts the two pre-tokenization expressions.
pub open spec fn tokenizer_json_result(
    json: JsonValue,
    lower_case: bool,
    add_prefix_space: bool,
    add_bos_token: bool,
    add_eos_token: bool,
    r: Result<crate::tokenizer::GptNeoXTokenizer, TokenizerError>,
) -> bool {
    match tokenizer_json_parts(json) {
        Err(msg) => r matches Err(TokenizerError::FileNotFound(m)) && m@ == msg,
        Ok((entries, merges)) => {
            let (unk, pad, bos, eos) = added_special_map(json);
            let vals = crate::vocab::pairs_map(entries);
            let names = added_special_names(json);
            let named = names.map_values(|n: Seq<char>| (n, vals[n]));
            &&& r matches Ok(t) ==> {
                let v = t.spec_vocab();
                &&& v.values_map() == vals
                &&& v.indices_map() == crate::vocab::inverse_map(entries, vals)
                &&& v.spec_special_token_map().unk_token@ == unk
                &&& opt_view(v.spec_special_token_map().pad_token) == pad
                &&& opt_view(v.spec_special_token_map().bos_token) == bos
                &&& opt_view(v.spec_special_token_map().eos_token) == eos
                &&& v.spec_special_token_map().sep_token is None
                &&& v.spec_special_token_map().cls_token is None
                &&& v.spec_special_token_map().mask_token is None
                &&& v.spec_special_token_map().additional_special_tokens is None
                &&& v.specials() == names
                &&& v.special_values_map() == crate::vocab::pairs_map(named)
                &&& v.special_indices_map() == crate::vocab::inverse_map(named, v.special_values_map())
                &&& forall|n: Seq<char>|
                    #[trigger] v.special_values_map().contains_key(n) <==> names.contains(n)
                &&& forall|n: Seq<char>|
                    #[trigger] v.special_values_map().contains_key(n) ==> v.special_values_map()[n] == vals[n]
                &&& t.merges() == merge_list_ranks(merges)
                &&& t.lowers() == lower_case
                &&& t.prefixes() == add_prefix_space
                &&& t.adds_bos() == add_bos_token
                &&& t.adds_eos() == add_eos_token
            }
            &&& (merges.len() >= i64::MAX ==> r matches Err(TokenizerError::ValueError(_)))
            &&& (merges.len() < i64::MAX ==> match crate::vocab::first_missing(names, vals) {
                Some(name) => (r matches Err(TokenizerError::TokenNotFound(m)) && m@
                    == crate::vocab::missing_message(name)),
                None => ((r is Ok <==> crate::pattern::regex_compiles(
                    crate::tokenizer::lookahead_source(),
                ) && crate::pattern::regex_compiles(crate::tokenizer::tokenization_source()))
                    && (r is Err ==> r matches Err(TokenizerError::ValueError(_)))),
            })
        },
    }
}

impl crate::tokenizer::GptNeoXTokenizer {
    /// Builds a tokenizer from a HuggingFace `tokenizer.json` value: the BPE
    /// model's vocabulary and merges, and the special tokens declared among
    /// the added tokens; see `tokenizer_json_parts` and `added_special_map`.
    pub fn from_tokenizer_json_value(
        json: &JsonValue,
        lower_case: bool,
        add_prefix_space: bool,
        add_bos_token: bool,
        add_eos_token: bool,
    ) -> (r: Result<crate::tokenizer::GptNeoXTokenizer, TokenizerError>)
        ensures
            tokenizer_json_result(*json, lower_case, add_prefix_space, add_bos_token, add_eos_token, r),
    {
        let model = match json_get(json, "model") {
            Some(m) => m,
            None => {
                return Err(TokenizerError::FileNotFound(String::from_str("Missing 'model' section in tokenizer.json")));
            },
        };
        let model_type = match json_as_str(json_get(model, "type")) {
            Some(t) => t,
            None => {
                return Err(TokenizerError::FileNotFound(String::from_str("Missing model type")));
            },
        };
        let type_chars = chars_of(model_type.as_str());
        let bpe_chars = chars_of("BPE");
        if !crate::split::vec_chars_eq(&type_chars, &bpe_chars) {
            let mut msg = String::from_str("Expected BPE model, got ");
            msg.append(model_type.as_str());
            return Err(TokenizerError::FileNotFound(msg));
        }
        let vocab_json = match json_get(model, "vocab") {
            Some(v) => v,
            None => {
                return Err(TokenizerError::FileNotFound(String::from_str("Missing vocab in model")));
            },
        };
        let entries = match json_id_entries(vocab_json) {
            Some(e) => e,
            None => {
                let mut msg = String::from_str("Failed to parse vocab: ");
                msg.append(map_error_text(vocab_json).as_str());
                return Err(TokenizerError::FileNotFound(msg));
            },
        };
        let merges_json = match json_get(model, "merges") {
            Some(m) => m,
            None => {
                return Err(TokenizerError::FileNotFound(String::from_str("Missing merges in model")));
            },
        };
        let merges = match json_string_items(merges_json) {
            Some(m) => m,
            None => {
                let mut msg = String::from_str("Failed to parse merges: ");
                msg.append(list_error_text(merges_json).as_str());
                return Err(TokenizerError::FileNotFound(msg));
            },
        };
        if merges.len() as u64 >= i64::MAX as u64 {
            return Err(TokenizerError::ValueError(String::from_str("too many merges")));
        }
        let bpe_ranks = ranks_from_merge_list(&merges);
        let eot = crate::vocab::default_special_token();
        let eot_chars = chars_of(eot.as_str());
        let pad_chars = chars_of(padding_token().as_str());
        let eot_declared = check_declared(json, &eot_chars);
        let pad_declared = check_declared(json, &pad_chars);
        let special_token_map = SpecialTokenMap {
            unk_token: crate::vocab::default_special_token(),
            pad_token: if pad_declared { Some(padding_token()) } else { None },
            bos_token: if eot_declared { Some(crate::vocab::default_special_token()) } else { None },
            sep_token: None,
            cls_token: None,
            eos_token: if eot_declared { Some(crate::vocab::default_special_token()) } else { None },
            mask_token: None,
            additional_special_tokens: None,
        };
        assert(crate::vocab::special_names(special_token_map) =~= added_special_names(*json));
        let vocab = match GptNeoXVocab::from_values_and_special_token_map(entries, special_token_map) {
            Ok(v) => v,
            Err(e) => {
                return Err(e);
            },
        };
        crate::tokenizer::GptNeoXTokenizer::from_existing_vocab_and_merges(
            vocab,
            bpe_ranks,
            lower_case,
            add_prefix_space,
            add_bos_token,
            add_eos_token,
        )
    }

    /// Builds a tokenizer from the text of a HuggingFace `tokenizer.json`
    /// file: a text that is not JSON is `FileNotFound` with the parser's
    /// message; a JSON value is read by `from_tokenizer_json_value`.
    pub fn from_tokenizer_json_text(
        text: &str,
        lower_case: bool,
        add_prefix_space: bool,
        add_bos_token: bool,
        add_eos_token: bool,
    ) -> (r: Result<crate::tokenizer::GptNeoXTokenizer, TokenizerError>)
        ensures
            json_value_of(text@) is None ==> r matches Err(TokenizerError::FileNotFound(_)),
            json_value_of(text@) matches Some(j) ==> tokenizer_json_result(
                j,
                lower_case,
                add_prefix_space,
                add_bos_token,
                add_eos_token,
                r,
            ),
    {
        match parse_json_value(text) {
            Ok(j) => crate::tokenizer::GptNeoXTokenizer::from_tokenizer_json_value(
                &j,
                lower_case,
                add_prefix_space,
                add_bos_token,
                add_eos_token,
            ),
            Err(e) => Err(TokenizerError::FileNotFound(json_error_message(&e))),
        }
    }
}

/// An optional string member: absent or `null` is `Some(None)`, a string is
/// `Some(Some(text))`, anything else is `None` (an error).
pub open spec fn optional_text(v: JsonValue, key: Seq<char>) -> Option<Option<Seq<char>>> {
    match spec_get(v, key) {
        None => Some(None),
        Some(JsonValue::Null) => Some(None),
        Some(JsonValue::Str(s)) => Some(Some(s@)),
        _ => None,
    }
}

/// An optional list of strings: absent or `null` is `Some(None)`, an array
/// of strings is `Some(Some(texts))`, anything else is `None` (an error).
pub open spec fn optional_texts(v: JsonValue, key: Seq<char>) -> Option<Option<Seq<Seq<char>>>> {
    match spec_get(v, key) {
        None => Some(None),
        Some(JsonValue::Null) => Some(None),
        Some(x) => match string_items(x) {
            Some(items) => Some(Some(items)),
            None => None,
        },
    }
}

/// The view of an optional string.
pub open spec fn opt_view(o: Option<String>) -> Option<Seq<char>> {
    match o {
        Some(s) => Some(s@),
        None => None,
    }
}

/// The special-token mapping that a JSON object describes, when it is one:
/// a string `unk_token`, and optional strings for the other tokens and an
/// optional list of strings for the additional ones.
pub open spec fn mapping_is_valid(v: JsonValue) -> bool {
    &&& v is Object
    &&& spec_as_str(spec_get(v, "unk_token"@)) is Some
    &&& optional_text(v, "pad_token"@) is Some
    &&& optional_text(v, "bos_token"@) is Some
    &&& optional_text(v, "sep_token"@) is Some
    &&& optional_text(v, "cls_token"@) is Some
    &&& optional_text(v, "eos_token"@) is Some
    &&& optional_text(v, "mask_token"@) is Some
    &&& optional_texts(v, "additional_special_tokens"@) is Some
}

fn read_optional_text(v: &JsonValue, key: &str) -> (r: Option<Option<String>>)
    ensures
        match r {
            Some(o) => optional_text(*v, key@) == Some(opt_view(o)),
            None => optional_text(*v, key@) is None,
        },
{
    match json_get(v, key) {
        None => Some(None),
        Some(JsonValue::Null) => Some(None),
        Some(JsonValue::Str(s)) => Some(Some(s.clone())),
        _ => None,
    }
}

fn read_optional_texts(v: &JsonValue, key: &str) -> (r: Option<Option<Vec<String>>>)
    ensures
        match r {
            Some(Some(items)) => optional_texts(*v, key@) == Some(Some(string_views(items@))),
            Some(None) => optional_texts(*v, key@) == Some(None::<Seq<Seq<char>>>),
            None => optional_texts(*v, key@) is None,
        },
{
    match json_get(v, key) {
        None => Some(None),
        Some(JsonValue::Null) => Some(None),
        Some(x) => match json_string_items(x) {
            Some(items) => Some(Some(items)),
            None => None,
        },
    }
}

/// Reads a special-token mapping from a JSON value; see
/// `mapping_is_valid`. Members it does not know are ignored.
pub fn special_token_map_from_json(v: &JsonValue) -> (r: Result<SpecialTokenMap, TokenizerError>)
    ensures
        r is Ok <==> mapping_is_valid(*v),
        r matches Ok(m) ==> {
            &&& Some(m.unk_token@) == spec_as_str(spec_get(*v, "unk_token"@))
            &&& optional_text(*v, "pad_token"@) == Some(opt_view(m.pad_token))
            &&& optional_text(*v, "bos_token"@) == Some(opt_view(m.bos_token))
            &&& optional_text(*v, "sep_token"@) == Some(opt_view(m.sep_token))
            &&& optional_text(*v, "cls_token"@) == Some(opt_view(m.cls_token))
            &&& optional_text(*v, "eos_token"@) == Some(opt_view(m.eos_token))
            &&& optional_text(*v, "mask_token"@) == Some(opt_view(m.mask_token))
            &&& optional_texts(*v, "additional_special_tokens"@) == Some(
                match m.additional_special_tokens {
                    Some(items) => Some(string_views(items@)),
                    None => None,
                },
            )
        },
        r matches Err(e) ==> e is VocabularyParsingError,
{
    let bad = TokenizerError::VocabularyParsingError(String::from_str("invalid special token mapping"));
    match v {
        JsonValue::Object(_) => {},
        _ => {
            return Err(bad);
        },
    }
    let unk = match json_as_str(json_get(v, "unk_token")) {
        Some(s) => s.clone(),
        None => {
            return Err(bad);
        },
    };
    let pad = match read_optional_text(v, "pad_token") {
        Some(o) => o,
        None => {
            return Err(bad);
        },
    };
    let bos = match read_optional_text(v, "bos_token") {
        Some(o) => o,
        None => {
            return Err(bad);
        },
    };
    let sep = match read_optional_text(v, "sep_token") {
        Some(o) => o,
        None => {
            return Err(bad);
        },
    };
    let cls = match read_optional_text(v, "cls_token") {
        Some(o) => o,
        None => {
            return Err(bad);
        },
    };
    let eos = match read_optional_text(v, "eos_token") {
        Some(o) => o,
        None => {
            return Err(bad);
        },
    };
    let mask = match read_optional_text(v, "mask_token") {
        Some(o) => o,
        None => {
            return Err(bad);
        },
    };
    let additional = match read_optional_texts(v, "additional_special_tokens") {
        Some(o) => o,
        None => {
            return Err(bad);
        },
    };
    Ok(SpecialTokenMap {
        unk_token: unk,
        pad_token: pad,
        bos_token: bos,
        sep_token: sep,
        cls_token: cls,
        eos_token: eos,
        mask_token: mask,
        additional_special_tokens: additional,
    })
}

/// Reads a special-token mapping from the text of its JSON file: a text
/// that is not JSON is a `VocabularyParsingError` with the parser's message;
/// a JSON value is read by `special_token_map_from_json`.
pub fn special_token_map_from_json_text(text: &str) -> (r: Result<SpecialTokenMap, TokenizerError>)
    ensures
        json_value_of(text@) is None ==> r matches Err(TokenizerError::VocabularyParsingError(_)),
        json_value_of(text@) matches Some(v) ==> {
            &&& r is Ok <==> mapping_is_valid(v)
            &&& r matches Ok(m) ==> {
                &&& Some(m.unk_token@) == spec_as_str(spec_get(v, "unk_token"@))
                &&& optional_text(v, "pad_token"@) == Some(opt_view(m.pad_token))
                &&& optional_text(v, "bos_token"@) == Some(opt_view(m.bos_token))
                &&& optional_text(v, "sep_token"@) == Some(opt_view(m.sep_token))
                &&& optional_text(v, "cls_token"@) == Some(opt_view(m.cls_token))
                &&& optional_text(v, "eos_token"@) == Some(opt_view(m.eos_token))
                &&& optional_text(v, "mask_token"@) == Some(opt_view(m.mask_token))
                &&& optional_texts(v, "additional_special_tokens"@) == Some(
                    match m.additional_special_tokens {
                        Some(items) => Some(string_views(items@)),
                        None => None,
                    },
                )
            }
            &&& r matches Err(e) ==> e is VocabularyParsingError
        },
{
    match parse_json_value(text) {
        Ok(v) => special_token_map_from_json(&v),
        Err(e) => Err(TokenizerError::VocabularyParsingError(json_error_message(&e))),
    }
}

} // verus!
