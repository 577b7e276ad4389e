//! Splitting text into byte-bounded pieces that never cut a character.
use vstd::prelude::*;
use vstd::seq_lib::lemma_flatten_concat;
use vstd::string::StringSliceAdditionalSpecFns;
use vstd::utf8::*;

use crate::utf8_text::{
    byte_len, char_width, chars_fit, lemma_byte_len_split, lemma_byte_len_take_monotone,
    lemma_char_width_le_byte_len, lemma_encode_concat, lemma_encode_injective, lemma_encode_single,
    lemma_inside_char_not_boundary, lemma_prefix_is_boundary, lemma_short_chars_fit, str_views,
};

verus! {

broadcast use vstd::utf8::group_utf8_lib;

/// Error returned when the byte budget is zero.
pub const INVALID_BUDGET: &'static str = "max_bytes must be greater than zero";

/// Error returned when a single character is wider than the byte budget.
pub const BUDGET_TOO_SMALL: &'static str = "max_bytes is too small to fit the next character";

/// Number of leading characters of `s` whose encoding fits in `max` bytes.
pub open spec fn fit_count(s: Seq<char>, max: nat) -> nat
    decreases s.len(),
{
    if s.len() == 0 || char_width(s[0]) > max {
        0
    } else {
        1 + fit_count(s.drop_first(), (max - char_width(s[0])) as nat)
    }
}

/// The chunks of `s`: repeatedly the longest prefix of what is left that fits in
/// `max` bytes. Stops early where the next character alone does not fit.
pub open spec fn greedy_chunks(s: Seq<char>, max: nat) -> Seq<Seq<char>>
    decreases s.len(),
    via fit_count_decreases
{
    if s.len() == 0 || fit_count(s, max) == 0 {
        seq![]
    } else {
        seq![s.take(fit_count(s, max) as int)] + greedy_chunks(s.skip(fit_count(s, max) as int), max)
    }
}

#[via_fn]
proof fn fit_count_decreases(s: Seq<char>, max: nat) {
    lemma_fit_count(s, max);
}

/// `fit_count` gives the longest prefix that fits.
pub proof fn lemma_fit_count(s: Seq<char>, max: nat)
    ensures
        fit_count(s, max) <= s.len(),
        byte_len(s.take(fit_count(s, max) as int)) <= max,
        fit_count(s, max) < s.len() ==> byte_len(s.take(fit_count(s, max) + 1int)) > max,
    decreases s.len(),
{
    let k = fit_count(s, max);
    if s.len() == 0 {
        assert(s.take(0) =~= Seq::<char>::empty());
    } else if char_width(s[0]) > max {
        assert(s.take(0) =~= Seq::<char>::empty());
        assert(s.take(1) =~= seq![s[0]]);
        lemma_encode_single(s[0]);
    } else {
        let t = s.drop_first();
        let w = char_width(s[0]);
        let m = (max - w) as nat;
        lemma_fit_count(t, m);
        lemma_encode_single(s[0]);
        assert(s.take(k as int) =~= seq![s[0]] + t.take(k - 1));
        lemma_encode_concat(seq![s[0]], t.take(k - 1));
        if k < s.len() {
            assert(s.take(k + 1int) =~= seq![s[0]] + t.take(k as int));
            lemma_encode_concat(seq![s[0]], t.take(k as int));
        }
    }
}

/// A sequence within the budget is one chunk.
pub proof fn lemma_fit_count_whole(s: Seq<char>, max: nat)
    requires
        byte_len(s) <= max,
    ensures
        fit_count(s, max) == s.len(),
{
    lemma_fit_count(s, max);
    let k = fit_count(s, max);
    if k < s.len() {
        lemma_byte_len_take_monotone(s, k + 1int, s.len() as int);
        assert(s.take(s.len() as int) =~= s);
    }
}

/// Every chunk holds one to `max` bytes; where every character fits, the
/// chunks reassemble the text.
pub proof fn lemma_greedy_chunks(s: Seq<char>, max: nat)
    ensures
        chars_fit(s, max) ==> greedy_chunks(s, max).flatten() == s,
        forall|i: int|
            0 <= i < greedy_chunks(s, max).len() ==> 0 < #[trigger] greedy_chunks(s, max)[i].len()
                && 0 < byte_len(greedy_chunks(s, max)[i]) <= max,
    decreases s.len(),
{
    let c = greedy_chunks(s, max);
    if s.len() == 0 {
        assert(c.flatten() =~= s);
    } else {
        lemma_fit_count(s, max);
        let k = fit_count(s, max);
        if k == 0 {
            if chars_fit(s, max) {
                assert(s.take(1) =~= seq![s[0]]);
                lemma_encode_single(s[0]);
            }
        } else {
            let head = s.take(k as int);
            let rest = s.skip(k as int);
            if chars_fit(s, max) {
                assert forall|i: int| 0 <= i < rest.len() implies char_width(#[trigger] rest[i])
                    <= max by {
                    assert(rest[i] == s[i + k]);
                }
            }
            lemma_greedy_chunks(rest, max);
            assert(c == seq![head] + greedy_chunks(rest, max));
            lemma_flatten_concat(seq![head], greedy_chunks(rest, max));
            seq![head].lemma_flatten_one_element();
            assert(s =~= head + rest);
            lemma_byte_len_take_monotone(s, 0, k as int);
            assert forall|i: int| 0 <= i < c.len() implies 0 < #[trigger] c[i].len() && 0
                < byte_len(c[i]) <= max by {
                if i > 0 {
                    assert(c[i] == greedy_chunks(rest, max)[i - 1]);
                }
            }
        }
    }
}

/// Splits `s` into chunks of at most `max_bytes` bytes, cutting only between
/// characters. Each chunk is the longest prefix of what is left that fits.
pub fn split_safe_utf8(s: &str, max_bytes: usize) -> (r: Result<Vec<&str>, &'static str>)
    ensures
        max_bytes == 0 ==> r == Err::<Vec<&str>, &str>(INVALID_BUDGET),
        max_bytes > 0 && !chars_fit(s@, max_bytes as nat) ==> r == Err::<Vec<&str>, &str>(
            BUDGET_TOO_SMALL,
        ),
        max_bytes > 0 && chars_fit(s@, max_bytes as nat) ==> r is Ok && str_views(r->Ok_0@)
            == greedy_chunks(s@, max_bytes as nat),
        r is Ok ==> str_views(r->Ok_0@).flatten() == s@,
        r is Ok ==> forall|i: int|
            0 <= i < r->Ok_0@.len() ==> 0 < byte_len(#[trigger] r->Ok_0@[i]@) <= max_bytes
                && valid_utf8(r->Ok_0@[i].spec_bytes()),
{
    if max_bytes == 0 {
        return Err(INVALID_BUDGET);
    }
    let ghost max = max_bytes as nat;
    let mut chunks: Vec<&str> = Vec::new();
    let mut rest: &str = s;
    loop
        invariant_except_break
            greedy_chunks(s@, max) == str_views(chunks@) + greedy_chunks(rest@, max),
        invariant
            max == max_bytes as nat,
            max_bytes > 0,
            chars_fit(s@, max) <==> chars_fit(rest@, max),
        ensures
            greedy_chunks(s@, max) == str_views(chunks@),
            chars_fit(s@, max),
        decreases rest@.len(),
    {
        let remaining = rest.as_bytes().len();
        proof {
            lemma_byte_len_take_monotone(rest@, 0, rest@.len() as int);
            assert(rest@.take(0) =~= Seq::<char>::empty());
            assert(rest@.take(rest@.len() as int) =~= rest@);
        }
        if remaining == 0 {
            proof {
                assert(rest@ =~= Seq::<char>::empty());
            }
            break ;
        }
        if remaining <= max_bytes {
            proof {
                lemma_fit_count_whole(rest@, max);
                lemma_short_chars_fit(rest@, max);
                assert(rest@.take(rest@.len() as int) =~= rest@);
                assert(rest@.skip(rest@.len() as int) =~= Seq::<char>::empty());
                let left = rest@.skip(rest@.len() as int);
                assert(greedy_chunks(left, max) =~= Seq::<Seq<char>>::empty());
                assert(greedy_chunks(rest@, max) =~= seq![rest@]);
                assert(str_views(chunks@.push(rest)) =~= str_views(chunks@) + seq![rest@]);
            }
            chunks.push(rest);
            break ;
        }
        let ghost bytes = rest.spec_bytes();
        proof {
            is_char_boundary_start_end_of_seq(bytes);
        }
        let mut end: usize = max_bytes;
        while !rest.is_char_boundary(end)
            invariant
                0 <= end <= max_bytes < bytes.len(),
                bytes == rest.spec_bytes(),
                is_char_boundary(bytes, 0),
                forall|j: int| end < j <= max_bytes ==> !is_char_boundary(bytes, j),
            decreases end,
        {
            end -= 1;
        }
        let ghost k = fit_count(rest@, max);
        proof {
            lemma_fit_count(rest@, max);
            lemma_prefix_is_boundary(rest@, k as int);
            assert(rest@.take(rest@.len() as int) =~= rest@);
            lemma_byte_len_take_monotone(rest@, k as int, rest@.len() as int);
            if end > byte_len(rest@.take(k as int)) {
                lemma_inside_char_not_boundary(rest@, k as int, end as int);
            }
            assert(end == byte_len(rest@.take(k as int)));
            lemma_byte_len_take_monotone(rest@, 0, k as int);
            assert(rest@.take(0) =~= Seq::<char>::empty());
        }
        if end == 0 {
            proof {
                assert(k == 0);
                assert(!chars_fit(rest@, max)) by {
                    assert(rest@.take(1) =~= seq![rest@[0]]);
                    lemma_encode_single(rest@[0]);
                }
            }
            return Err(BUDGET_TOO_SMALL);
        }
        let (head, tail) = rest.split_at(end);
        proof {
            lemma_byte_len_split(rest@, k as int);
            lemma_encode_injective(head@, rest@.take(k as int));
            lemma_encode_injective(tail@, rest@.skip(k as int));
            assert(str_views(chunks@.push(head)) =~= str_views(chunks@) + seq![head@]);
            assert(greedy_chunks(rest@, max) == seq![head@] + greedy_chunks(tail@, max));
            lemma_byte_len_take_monotone(rest@, 0, k as int);
            assert(chars_fit(rest@, max) <==> chars_fit(tail@, max)) by {
                assert forall|i: int| 0 <= i < k implies char_width(#[trigger] rest@[i]) <= max by {
                    lemma_char_width_le_byte_len(rest@.take(k as int), i);
                    assert(rest@.take(k as int)[i] == rest@[i]);
                }
                if chars_fit(tail@, max) {
                    assert forall|i: int| 0 <= i < rest@.len() implies char_width(
                        #[trigger] rest@[i],
                    ) <= max by {
                        if i >= k {
                            assert(rest@[i] == tail@[i - k]);
                        }
                    }
                }
                if chars_fit(rest@, max) {
                    assert forall|i: int| 0 <= i < tail@.len() implies char_width(
                        #[trigger] tail@[i],
                    ) <= max by {
                        assert(rest@[i + k] == tail@[i]);
                    }
                }
            }
        }
        chunks.push(head);
        rest = tail;
    }
    proof {
        lemma_greedy_chunks(s@, max);
        assert forall|i: int| 0 <= i < chunks@.len() implies 0 < byte_len(#[trigger] chunks@[i]@)
            <= max_bytes && valid_utf8(chunks@[i].spec_bytes()) by {
            assert(str_views(chunks@)[i] == chunks@[i]@);
        }
    }
    Ok(chunks)
}

} // verus!
