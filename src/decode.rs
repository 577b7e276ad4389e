//! Turning raw transcript entries into plain text fragments.
use vstd::prelude::*;

use crate::accumulator::{all_fragments_fit, pack_fragments, packed_messages, messages_within};
use crate::formatter::{BUDGET_TOO_SMALL, INVALID_BUDGET};
use crate::utf8_text::string_views;

verus! {

/// Text of `s` with its HTML character references decoded.
pub uninterp spec fn entities_decoded(s: Seq<char>) -> Seq<char>;

/// `s` with every match of `from`, taken left to right without overlap,
/// replaced by `to`.
pub open spec fn replace_all(s: Seq<char>, from: Seq<char>, to: Seq<char>) -> Seq<char>
    decreases s.len(),
{
    if s.len() == 0 || from.len() == 0 {
        s
    } else if from.len() <= s.len() && s.take(from.len() as int) == from {
        to + replace_all(s.skip(from.len() as int), from, to)
    } else {
        seq![s[0]] + replace_all(s.drop_first(), from, to)
    }
}

/// Relies on html_escape::decode_html_entities: decodes the named and numeric
/// character references of `s`, and hands back text without `&` unchanged.
#[verifier::external_body]
fn decode_entities(s: &str) -> (r: String)
    ensures
        r@ == entities_decoded(s@),
        !s@.contains('&') ==> r@ == s@,
{
    html_escape::decode_html_entities(s).into_owned()
}

/// Relies on str::replace: replaces every match of `from` in `s` with `to`.
#[verifier::external_body]
fn replace_text(s: &str, from: &str, to: &str) -> (r: String)
    requires
        from@.len() > 0,
    ensures
        r@ == replace_all(s@, from@, to@),
{
    s.replace(from, to)
}

/// The escaped apostrophe that survives a first decoding pass.
pub const APOSTROPHE_ENTITY: &'static str = "&#39;";

/// The plain apostrophe.
pub const APOSTROPHE: &'static str = "'";

/// The fragment text of a raw entry.
pub open spec fn fragment_text(raw: Seq<char>) -> Seq<char> {
    replace_all(entities_decoded(raw), APOSTROPHE_ENTITY@, APOSTROPHE@)
}

/// The fragment texts of raw entries.
pub open spec fn fragment_texts(raw: Seq<Seq<char>>) -> Seq<Seq<char>> {
    raw.map_values(|e: Seq<char>| fragment_text(e))
}

/// Decodes the markup of a raw transcript entry: HTML character references,
/// then any escaped apostrophe left over.
pub fn decode_fragment(raw: &str) -> (r: String)
    ensures
        r@ == fragment_text(raw@),
{
    let decoded = decode_entities(raw);
    proof {
        reveal_strlit("&#39;");
    }
    replace_text(decoded.as_str(), APOSTROPHE_ENTITY, APOSTROPHE)
}

/// Decodes each raw entry and packs the fragments, in order, into messages of
/// at most `budget` bytes. An empty result means there is nothing to deliver.
pub fn transcript_messages(entries: &[String], budget: usize) -> (r: Result<
    Vec<String>,
    &'static str,
>)
    ensures
        budget == 0 ==> r == Err::<Vec<String>, &str>(INVALID_BUDGET),
        budget > 0 && !all_fragments_fit(fragment_texts(string_views(entries@)), budget as nat)
            ==> r == Err::<Vec<String>, &str>(BUDGET_TOO_SMALL),
        budget > 0 && all_fragments_fit(fragment_texts(string_views(entries@)), budget as nat)
            ==> r is Ok && string_views(r->Ok_0@) == packed_messages(
            fragment_texts(string_views(entries@)),
            budget as nat,
        ),
        r is Ok ==> messages_within(string_views(r->Ok_0@), budget as nat),
{
    let mut fragments: Vec<String> = Vec::new();
    let mut i: usize = 0;
    while i < entries.len()
        invariant
            0 <= i <= entries@.len(),
            string_views(fragments@) == fragment_texts(string_views(entries@)).take(i as int),
        decreases entries@.len() - i,
    {
        let text = decode_fragment(entries[i].as_str());
        let ghost prev = string_views(fragments@);
        fragments.push(text);
        assert(string_views(fragments@) =~= prev.push(text@));
        assert(fragment_texts(string_views(entries@)).take(i + 1) =~= fragment_texts(
            string_views(entries@),
        ).take(i as int).push(text@));
        i += 1;
    }
    assert(fragment_texts(string_views(entries@)).take(i as int) =~= fragment_texts(
        string_views(entries@),
    ));
    pack_fragments(fragments.as_slice(), budget)
}

} // verus!
