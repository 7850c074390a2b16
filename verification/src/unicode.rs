//! Characters, strings and UTF-8: whitespace, the UTF-8 encoding of a
//! character, and moving between `String` and `Vec<char>`.

use vstd::prelude::*;
use vstd::string::StringExecFns;
use vstd::utf8::*;

verus! {

broadcast use vstd::string::group_string_axioms;

/// The characters with the Unicode `White_Space` property, which is what
/// `char::is_whitespace`, `str::trim` and `str::trim_end` go by.
pub open spec fn spec_is_whitespace(c: char) -> bool {
    let v = c as u32;
    ||| 0x09 <= v <= 0x0D
    ||| v == 0x20
    ||| v == 0x85
    ||| v == 0xA0
    ||| v == 0x1680
    ||| 0x2000 <= v <= 0x200A
    ||| v == 0x2028
    ||| v == 0x2029
    ||| v == 0x202F
    ||| v == 0x205F
    ||| v == 0x3000
}

/// Whether `c` is a Unicode white-space character.
pub fn is_whitespace(c: char) -> (r: bool)
    ensures
        r == spec_is_whitespace(c),
{
    let v = c as u32;
    (0x09 <= v && v <= 0x0D) || v == 0x20 || v == 0x85 || v == 0xA0 || v == 0x1680 || (0x2000
        <= v && v <= 0x200A) || v == 0x2028 || v == 0x2029 || v == 0x202F || v == 0x205F || v
        == 0x3000
}

/// The number of characters left of `s` once trailing white space is removed.
pub open spec fn trim_end_len(s: Seq<char>) -> nat
    decreases s.len(),
{
    if s.len() == 0 {
        0
    } else if spec_is_whitespace(s.last()) {
        trim_end_len(s.drop_last())
    } else {
        s.len()
    }
}

/// The number of leading white-space characters of `s`.
pub open spec fn leading_ws_len(s: Seq<char>) -> nat
    decreases s.len(),
{
    if s.len() == 0 {
        0
    } else if spec_is_whitespace(s[0]) {
        1 + leading_ws_len(s.drop_first())
    } else {
        0
    }
}

/// `s` without leading and trailing white space, as `str::trim` gives it.
pub open spec fn spec_trim(s: Seq<char>) -> Seq<char> {
    let t = s.subrange(0, trim_end_len(s) as int);
    t.subrange(leading_ws_len(t) as int, t.len() as int)
}

pub proof fn lemma_trim_end_len_bound(s: Seq<char>)
    ensures
        trim_end_len(s) <= s.len(),
        trim_end_len(s) > 0 ==> !spec_is_whitespace(s[trim_end_len(s) - 1]),
        forall|i: int| trim_end_len(s) <= i < s.len() ==> spec_is_whitespace(#[trigger] s[i]),
    decreases s.len(),
{
    if s.len() > 0 && spec_is_whitespace(s.last()) {
        lemma_trim_end_len_bound(s.drop_last());
        assert forall|i: int| trim_end_len(s) <= i < s.len() implies spec_is_whitespace(
            #[trigger] s[i],
        ) by {
            if i < s.len() - 1 {
                assert(s[i] == s.drop_last()[i]);
            }
        }
    }
}

pub proof fn lemma_leading_ws_len_bound(s: Seq<char>)
    ensures
        leading_ws_len(s) <= s.len(),
        forall|i: int| 0 <= i < leading_ws_len(s) ==> spec_is_whitespace(#[trigger] s[i]),
        leading_ws_len(s) < s.len() ==> !spec_is_whitespace(s[leading_ws_len(s) as int]),
    decreases s.len(),
{
    if s.len() > 0 && spec_is_whitespace(s[0]) {
        lemma_leading_ws_len_bound(s.drop_first());
        assert forall|i: int| 0 <= i < leading_ws_len(s) implies spec_is_whitespace(
            #[trigger] s[i],
        ) by {
            if i > 0 {
                assert(s[i] == s.drop_first()[i - 1]);
            }
        }
    }
}

/// The length of the trimmed text within `s[from..to]`: the count of characters
/// left once trailing white space is dropped.
pub fn trim_end_count(s: &Vec<char>, from: usize, to: usize) -> (n: usize)
    requires
        from <= to <= s.len(),
    ensures
        n == trim_end_len(s@.subrange(from as int, to as int)),
        n <= to - from,
{
    let mut end = to;
    while end > from && is_whitespace(s[end - 1])
        invariant
            from <= end <= to <= s.len(),
            trim_end_len(s@.subrange(from as int, to as int)) == trim_end_len(
                s@.subrange(from as int, end as int),
            ),
        decreases end,
    {
        assert(s@.subrange(from as int, end as int).drop_last() =~= s@.subrange(
            from as int,
            end - 1,
        ));
        end = end - 1;
    }
    proof {
        let t = s@.subrange(from as int, end as int);
        if end > from {
            assert(t.last() == s@[end - 1]);
        }
    }
    end - from
}

/// Length in bytes of the UTF-8 encoding of `c`.
pub open spec fn utf8_width(c: char) -> nat {
    encode_scalar(c as u32).len()
}

pub proof fn lemma_utf8_width_bounds(c: char)
    ensures
        1 <= utf8_width(c) <= 4,
{
    char_is_scalar(c);
}

/// The UTF-8 encoding of a sequence of characters splits at any point.
pub proof fn lemma_encode_utf8_concat(a: Seq<char>, b: Seq<char>)
    ensures
        encode_utf8(a + b) == encode_utf8(a) + encode_utf8(b),
    decreases a.len(),
{
    if a.len() == 0 {
        assert(a + b =~= b);
    } else {
        assert((a + b).drop_first() =~= a.drop_first() + b);
        lemma_encode_utf8_concat(a.drop_first(), b);
        assert((a + b)[0] == a[0]);
    }
}

/// The encoding of one character is the encoding of that character alone.
pub proof fn lemma_encode_utf8_single(c: char)
    ensures
        encode_utf8(seq![c]) == encode_scalar(c as u32),
{
    assert(seq![c].drop_first() =~= Seq::<char>::empty());
    assert(encode_utf8(Seq::<char>::empty()) =~= Seq::<u8>::empty());
    assert(seq![c][0] == c);
    assert(encode_scalar(c as u32) + Seq::<u8>::empty() =~= encode_scalar(c as u32));
}

/// The encoding of a prefix grows by the encoding of the next character.
pub proof fn lemma_encode_utf8_take_step(s: Seq<char>, i: int)
    requires
        0 <= i < s.len(),
    ensures
        encode_utf8(s.take(i + 1)) == encode_utf8(s.take(i)) + encode_scalar(s[i] as u32),
        encode_utf8(s.take(i + 1)).len() == encode_utf8(s.take(i)).len() + utf8_width(s[i]),
{
    assert(s.take(i + 1) =~= s.take(i) + seq![s[i]]);
    lemma_encode_utf8_concat(s.take(i), seq![s[i]]);
    lemma_encode_utf8_single(s[i]);
}

/// The UTF-8 encoding of `c`, computed as `encode_scalar` states it.
pub fn utf8_encode_char(c: char) -> (r: Vec<u8>)
    ensures
        r@ == encode_scalar(c as u32),
{
    proof {
        char_is_scalar(c);
    }
    let v = c as u32;
    if v <= 0x7F {
        vec![(v & 0x7F) as u8]
    } else if v <= 0x7FF {
        vec![0xC0 | ((v >> 6) & 0x1F) as u8, 0x80 | (v & 0x3F) as u8]
    } else if v <= 0xFFFF {
        vec![
            0xE0 | ((v >> 12) & 0x0F) as u8,
            0x80 | ((v >> 6) & 0x3F) as u8,
            0x80 | (v & 0x3F) as u8,
        ]
    } else {
        vec![
            0xF0 | ((v >> 18) & 0x7) as u8,
            0x80 | ((v >> 12) & 0x3F) as u8,
            0x80 | ((v >> 6) & 0x3F) as u8,
            0x80 | (v & 0x3F) as u8,
        ]
    }
}

/// The characters of `s`, in order.
pub fn chars_of(s: &str) -> (r: Vec<char>)
    ensures
        r@ == s@,
{
    let mut r: Vec<char> = Vec::new();
    for c in it: s.chars()
        invariant
            it.seq() == s@,
            r@ == s@.take(it.index() as int),
    {
        assert(s@.take(it.index() + 1) =~= s@.take(it.index() as int).push(c));
        r.push(c);
    }
    assert(s@.take(s@.len() as int) =~= s@);
    r
}

/// `String::push` (std): appends one character.
#[verifier::external_body]
pub(crate) fn push_char(s: &mut String, c: char)
    ensures
        final(s)@ == old(s)@.push(c),
{
    s.push(c);
}

/// The string made of the characters `chars[from..to]`.
pub fn string_from_chars(chars: &Vec<char>, from: usize, to: usize) -> (r: String)
    requires
        from <= to <= chars.len(),
    ensures
        r@ == chars@.subrange(from as int, to as int),
{
    let mut r = String::new();
    let mut i = from;
    while i < to
        invariant
            from <= i <= to <= chars.len(),
            r@ == chars@.subrange(from as int, i as int),
        decreases to - i,
    {
        assert(chars@.subrange(from as int, i + 1) =~= chars@.subrange(from as int, i as int).push(
            chars@[i as int],
        ));
        push_char(&mut r, chars[i]);
        i = i + 1;
    }
    r
}

/// `char::from_u32` (std): returns the character of a Unicode scalar value,
/// and `None` for any other value, as its documentation states.
#[verifier::external_body]
pub(crate) fn char_from_u32(v: u32) -> (r: Option<char>)
    ensures
        r.is_some() <==> is_scalar(v),
        r matches Some(c) ==> c as u32 == v,
{
    char::from_u32(v)
}

/// What `char::to_lowercase` yields for a character: the Unicode lower-case
/// mapping, which depends on the character alone.
pub uninterp spec fn char_lowercase(c: char) -> Seq<char>;

/// The ASCII lower case of a character: `A`-`Z` become `a`-`z`, every other
/// character stays.
pub open spec fn ascii_lower(c: char) -> char {
    if 65 <= (c as u32) <= 90 {
        ((c as u32) + 32) as char
    } else {
        c
    }
}

/// The lower-case mapping of a character: within ASCII its ASCII lower
/// case, beyond it the Unicode mapping.
pub open spec fn lower_mapping(c: char) -> Seq<char> {
    if (c as u32) < 128 {
        seq![ascii_lower(c)]
    } else {
        char_lowercase(c)
    }
}

/// `char::to_lowercase` (std), collected. Its documentation promises one or
/// more characters, the character itself when it has no lower-case mapping;
/// in ASCII that maps `A`-`Z` to `a`-`z` and keeps every other character.
/// Which mapping applies beyond ASCII is the Unicode table's, and is left to
/// the name.
#[verifier::external_body]
pub(crate) fn lowercase_char(c: char) -> (r: Vec<char>)
    ensures
        r@ == lower_mapping(c),
        (c as u32) >= 128 ==> r@ == char_lowercase(c),
        r@.len() >= 1,
{
    c.to_lowercase().collect()
}

/// `s` with every occurrence of `pat` replaced by `rep`, scanning left to
/// right without overlaps, as `str::replace` does for a non-empty pattern.
pub open spec fn replace_all(s: Seq<char>, pat: Seq<char>, rep: Seq<char>) -> Seq<char>
    decreases s.len(),
{
    if s.len() == 0 {
        Seq::empty()
    } else if pat.len() > 0 && pat.is_prefix_of(s) {
        rep + replace_all(s.skip(pat.len() as int), pat, rep)
    } else {
        seq![s[0]] + replace_all(s.skip(1), pat, rep)
    }
}

/// Replaces every occurrence of `pat` in `s` by `rep`; see `replace_all`.
pub fn replace_chars(s: &Vec<char>, pat: &Vec<char>, rep: &Vec<char>) -> (r: Vec<char>)
    requires
        pat@.len() > 0,
    ensures
        r@ == replace_all(s@, pat@, rep@),
{
    let mut out: Vec<char> = Vec::new();
    let mut i: usize = 0;
    assert(s@.skip(0) =~= s@);
    while i < s.len()
        invariant
            i <= s.len(),
            pat@.len() > 0,
            out@ + replace_all(s@.skip(i as int), pat@, rep@) == replace_all(s@, pat@, rep@),
        decreases s.len() - i,
    {
        let ghost rest = s@.skip(i as int);
        let ghost prev = out@;
        let mut matched = pat.len() <= s.len() - i;
        let mut k: usize = 0;
        while matched && k < pat.len()
            invariant
                k <= pat.len(),
                i <= s.len(),
                matched ==> pat.len() <= s.len() - i,
                matched ==> forall|j: int| 0 <= j < k ==> pat@[j] == s@[i + j],
                !matched ==> !pat@.is_prefix_of(s@.skip(i as int)),
            decreases pat.len() - k + (if matched {
                1int
            } else {
                0int
            }),
        {
            if pat[k] != s[i + k] {
                assert(pat@[k as int] != s@.skip(i as int)[k as int]);
                matched = false;
            } else {
                k = k + 1;
            }
        }
        if matched {
            assert(pat@ =~= s@.skip(i as int).take(pat@.len() as int));
            assert(pat@.is_prefix_of(rest));
            let mut j: usize = 0;
            while j < rep.len()
                invariant
                    j <= rep.len(),
                    out@ == prev + rep@.take(j as int),
                decreases rep.len() - j,
            {
                out.push(rep[j]);
                j = j + 1;
                assert(out@ =~= prev + rep@.take(j as int));
            }
            assert(rep@.take(j as int) =~= rep@);
            assert(rest.skip(pat@.len() as int) =~= s@.skip(i + pat.len()));
            assert(out@ + replace_all(s@.skip(i + pat.len()), pat@, rep@) =~= prev + (rep@
                + replace_all(rest.skip(pat@.len() as int), pat@, rep@)));
            i = i + pat.len();
        } else {
            assert(rest[0] == s@[i as int]);
            assert(rest.skip(1) =~= s@.skip(i + 1));
            out.push(s[i]);
            assert(out@ + replace_all(s@.skip(i + 1), pat@, rep@) =~= prev + (seq![rest[0]]
                + replace_all(rest.skip(1), pat@, rep@)));
            i = i + 1;
        }
    }
    assert(s@.skip(i as int) =~= Seq::<char>::empty());
    assert(out@ + Seq::<char>::empty() =~= out@);
    out
}

/// `s` without leading and trailing white space; see `spec_trim`.
pub fn trim_chars(s: &Vec<char>) -> (r: Vec<char>)
    ensures
        r@ == spec_trim(s@),
{
    let end = trim_end_count(s, 0, s.len());
    assert(s@.subrange(0, s@.len() as int) =~= s@);
    let ghost t = s@.subrange(0, end as int);
    let mut start: usize = 0;
    assert(t.subrange(0, t.len() as int) =~= t);
    while start < end && is_whitespace(s[start])
        invariant
            start <= end <= s.len(),
            t == s@.subrange(0, end as int),
            leading_ws_len(t) == start + leading_ws_len(t.subrange(start as int, t.len() as int)),
        decreases end - start,
    {
        let ghost u = t.subrange(start as int, t.len() as int);
        assert(u.drop_first() =~= t.subrange(start + 1, t.len() as int));
        assert(u[0] == s@[start as int]);
        start = start + 1;
    }
    proof {
        let u = t.subrange(start as int, t.len() as int);
        if start < end {
            assert(u[0] == s@[start as int]);
        }
        assert(t.subrange(0, t.len() as int) =~= t);
    }
    let mut r: Vec<char> = Vec::new();
    let mut i = start;
    while i < end
        invariant
            start <= i <= end <= s.len(),
            r@ == s@.subrange(start as int, i as int),
        decreases end - i,
    {
        r.push(s[i]);
        i = i + 1;
        assert(r@ =~= s@.subrange(start as int, i as int));
    }
    assert(r@ =~= t.subrange(start as int, t.len() as int));
    r
}

/// The characters of all strings of `v`, one after the other.
pub fn concat_chars(v: &Vec<String>) -> (r: Vec<char>)
    ensures
        r@ == v@.map_values(|s: String| s@).flatten(),
{
    let ghost views = v@.map_values(|s: String| s@);
    let mut r: Vec<char> = Vec::new();
    let mut k: usize = 0;
    while k < v.len()
        invariant
            k <= v.len(),
            views == v@.map_values(|s: String| s@),
            r@ == views.take(k as int).flatten(),
        decreases v.len() - k,
    {
        let cs = chars_of(v[k].as_str());
        let ghost before = r@;
        let mut j: usize = 0;
        while j < cs.len()
            invariant
                j <= cs.len(),
                r@ == before + cs@.take(j as int),
            decreases cs.len() - j,
        {
            r.push(cs[j]);
            j = j + 1;
            assert(r@ =~= before + cs@.take(j as int));
        }
        proof {
            assert(cs@.take(j as int) =~= cs@);
            assert(views.take(k + 1) =~= views.take(k as int).push(views[k as int]));
            views.take(k as int).lemma_flatten_push(views[k as int]);
        }
        k = k + 1;
    }
    assert(views.take(k as int) =~= views);
    r
}

/// The string of the characters `chars`.
pub fn string_of_chars(chars: &Vec<char>) -> (r: String)
    ensures
        r@ == chars@,
{
    let r = string_from_chars(chars, 0, chars.len());
    assert(chars@.subrange(0, chars@.len() as int) =~= chars@);
    r
}

/// What `String::from_utf8_lossy` makes of a byte sequence: invalid
/// sequences become U+FFFD; it depends on the bytes alone.
pub uninterp spec fn utf8_lossy(bytes: Seq<u8>) -> Seq<char>;

/// `String::from_utf8_lossy` (std), made an owned string. Its documentation
/// states that only invalid UTF-8 sequences are replaced, so valid UTF-8 is
/// decoded as it is; how invalid input is repaired is left to the name.
#[verifier::external_body]
pub(crate) fn string_from_utf8_lossy(bytes: &[u8]) -> (r: String)
    ensures
        r@ == utf8_lossy(bytes@),
        valid_utf8(bytes@) ==> r@ == decode_utf8(bytes@),
{
    String::from_utf8_lossy(bytes).into_owned()
}

} // verus!
