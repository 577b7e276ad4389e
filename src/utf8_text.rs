//! Byte-level facts about the UTF-8 encoding of character sequences.
use vstd::prelude::*;
use vstd::utf8::*;

verus! {

broadcast use vstd::utf8::group_utf8_lib;

/// Number of bytes in the UTF-8 encoding of `c`.
pub open spec fn char_width(c: char) -> nat {
    encode_scalar(c as u32).len()
}

/// Number of bytes in the UTF-8 encoding of `s`.
pub open spec fn byte_len(s: Seq<char>) -> nat {
    encode_utf8(s).len()
}

/// Every character of `s` is encoded in at most `max` bytes.
pub open spec fn chars_fit(s: Seq<char>, max: nat) -> bool {
    forall|i: int| 0 <= i < s.len() ==> char_width(#[trigger] s[i]) <= max
}

/// The character views of a sequence of string slices.
pub open spec fn str_views(v: Seq<&str>) -> Seq<Seq<char>> {
    v.map_values(|c: &str| c@)
}

/// The character views of a sequence of strings.
pub open spec fn string_views(v: Seq<String>) -> Seq<Seq<char>> {
    v.map_values(|c: String| c@)
}

/// A character takes between one and four bytes.
pub proof fn lemma_char_width_bounds(c: char)
    ensures
        1 <= char_width(c) <= 4,
{
}

/// Encoding distributes over concatenation.
pub proof fn lemma_encode_concat(a: Seq<char>, b: Seq<char>)
    ensures
        encode_utf8(a + b) == encode_utf8(a) + encode_utf8(b),
    decreases a.len(),
{
    if a.len() == 0 {
        assert(a + b =~= b);
        assert(encode_utf8(a) + encode_utf8(b) =~= encode_utf8(b));
    } else {
        assert((a + b).drop_first() =~= a.drop_first() + b);
        lemma_encode_concat(a.drop_first(), b);
        assert(encode_utf8(a + b) =~= encode_scalar(a[0] as u32) + encode_utf8(a.drop_first() + b));
    }
}

/// The encoding of a single character.
pub proof fn lemma_encode_single(c: char)
    ensures
        encode_utf8(seq![c]) == encode_scalar(c as u32),
{
    assert(seq![c].drop_first() =~= Seq::<char>::empty());
    assert(encode_utf8(seq![c]) =~= encode_scalar(c as u32) + encode_utf8(Seq::<char>::empty()));
}

/// Byte length of a prefix grows by the width of the next character.
pub proof fn lemma_byte_len_take_next(s: Seq<char>, k: int)
    requires
        0 <= k < s.len(),
    ensures
        byte_len(s.take(k + 1)) == byte_len(s.take(k)) + char_width(s[k]),
{
    assert(s.take(k + 1) =~= s.take(k) + seq![s[k]]);
    lemma_encode_concat(s.take(k), seq![s[k]]);
    lemma_encode_single(s[k]);
}

/// Byte length of a sequence splits at any position.
pub proof fn lemma_byte_len_split(s: Seq<char>, k: int)
    requires
        0 <= k <= s.len(),
    ensures
        byte_len(s) == byte_len(s.take(k)) + byte_len(s.skip(k)),
        encode_utf8(s).subrange(0, byte_len(s.take(k)) as int) == encode_utf8(s.take(k)),
        encode_utf8(s).subrange(byte_len(s.take(k)) as int, byte_len(s) as int) == encode_utf8(
            s.skip(k),
        ),
{
    assert(s =~= s.take(k) + s.skip(k));
    lemma_encode_concat(s.take(k), s.skip(k));
    let e = encode_utf8(s);
    let et = encode_utf8(s.take(k));
    assert(e.subrange(0, et.len() as int) =~= et);
    assert(e.subrange(et.len() as int, e.len() as int) =~= encode_utf8(s.skip(k)));
}

/// Byte length of a prefix never exceeds that of a longer prefix.
pub proof fn lemma_byte_len_take_monotone(s: Seq<char>, j: int, k: int)
    requires
        0 <= j <= k <= s.len(),
    ensures
        byte_len(s.take(j)) + (k - j) <= byte_len(s.take(k)),
    decreases k - j,
{
    if j < k {
        lemma_byte_len_take_monotone(s, j, k - 1);
        lemma_byte_len_take_next(s, k - 1);
        lemma_char_width_bounds(s[k - 1]);
    }
}

/// A character of `s` is no wider than `s` itself.
pub proof fn lemma_char_width_le_byte_len(s: Seq<char>, i: int)
    requires
        0 <= i < s.len(),
    ensures
        char_width(s[i]) <= byte_len(s),
{
    lemma_byte_len_take_next(s, i);
    lemma_byte_len_take_monotone(s, i + 1, s.len() as int);
    assert(s.take(s.len() as int) =~= s);
}

/// A sequence that fits in `max` bytes has only characters that fit.
pub proof fn lemma_short_chars_fit(s: Seq<char>, max: nat)
    requires
        byte_len(s) <= max,
    ensures
        chars_fit(s, max),
{
    assert forall|i: int| 0 <= i < s.len() implies char_width(#[trigger] s[i]) <= max by {
        lemma_char_width_le_byte_len(s, i);
    }
}

/// Two strings with the same encoding are equal.
pub proof fn lemma_encode_injective(a: Seq<char>, b: Seq<char>)
    requires
        encode_utf8(a) == encode_utf8(b),
    ensures
        a == b,
{
    encode_utf8_decode_utf8(a);
    encode_utf8_decode_utf8(b);
}

/// The byte offset of every character is a character boundary of the encoding.
pub proof fn lemma_prefix_is_boundary(s: Seq<char>, k: int)
    requires
        0 <= k <= s.len(),
    ensures
        is_char_boundary(encode_utf8(s), byte_len(s.take(k)) as int),
    decreases s.len(),
{
    let e = encode_utf8(s);
    if k == 0 {
        assert(s.take(0) =~= Seq::<char>::empty());
    } else {
        let t = s.drop_first();
        encode_utf8_first_scalar(s);
        assert(pop_first_scalar(e) =~= encode_utf8(t));
        lemma_prefix_is_boundary(t, k - 1);
        assert(s.take(k) =~= seq![s[0]] + t.take(k - 1));
        lemma_encode_concat(seq![s[0]], t.take(k - 1));
        lemma_encode_single(s[0]);
        lemma_byte_len_split(s, k);
    }
}

/// No byte offset strictly inside a character is a character boundary.
pub proof fn lemma_inside_char_not_boundary(s: Seq<char>, k: int, j: int)
    requires
        0 <= k < s.len(),
        byte_len(s.take(k)) < j < byte_len(s.take(k + 1)),
    ensures
        !is_char_boundary(encode_utf8(s), j),
    decreases s.len(),
{
    let e = encode_utf8(s);
    let t = s.drop_first();
    encode_utf8_first_scalar(s);
    assert(pop_first_scalar(e) =~= encode_utf8(t));
    lemma_byte_len_take_next(s, k);
    lemma_byte_len_split(s, k + 1);
    lemma_encode_single(s[0]);
    if k == 0 {
        assert(s.take(0) =~= Seq::<char>::empty());
        assert(s.take(1) =~= seq![s[0]]);
    } else {
        assert(s.take(k) =~= seq![s[0]] + t.take(k - 1));
        assert(s.take(k + 1) =~= seq![s[0]] + t.take(k));
        lemma_encode_concat(seq![s[0]], t.take(k - 1));
        lemma_encode_concat(seq![s[0]], t.take(k));
        lemma_inside_char_not_boundary(t, k - 1, j - char_width(s[0]));
    }
}

} // verus!
