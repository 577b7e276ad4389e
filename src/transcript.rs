//! Choosing a transcript language when the requested one is missing.
use vstd::prelude::*;
use vstd::string::{StrSliceExecFns, StringExecFns};

use crate::utf8_text::{str_views, string_views};

verus! {

/// Transcript language policy.
pub struct TranscriptService;

/// The language code given when nothing else is available.
pub const DEFAULT_LANGUAGE: &'static str = "en";

/// `l` begins with the prefix of the Chinese language variants.
pub open spec fn is_chinese_variant(l: Seq<char>) -> bool {
    l.len() >= 2 && l[0] == 'z' && l[1] == 'h'
}

/// The first code of `preferred` that `available` holds.
pub open spec fn first_preferred(available: Seq<Seq<char>>, preferred: Seq<Seq<char>>) -> Option<
    Seq<char>,
>
    decreases preferred.len(),
{
    if preferred.len() == 0 {
        None
    } else if available.contains(preferred[0]) {
        Some(preferred[0])
    } else {
        first_preferred(available, preferred.drop_first())
    }
}

/// The first Chinese variant in `available`.
pub open spec fn first_chinese_variant(available: Seq<Seq<char>>) -> Option<Seq<char>>
    decreases available.len(),
{
    if available.len() == 0 {
        None
    } else if is_chinese_variant(available[0]) {
        Some(available[0])
    } else {
        first_chinese_variant(available.drop_first())
    }
}

/// The fallback language: the first preferred code that is available, else the
/// first Chinese variant, else the first available code, else the default.
pub open spec fn fallback_choice(available: Seq<Seq<char>>, preferred: Seq<Seq<char>>) -> Seq<
    char,
> {
    match first_preferred(available, preferred) {
        Some(l) => l,
        None => match first_chinese_variant(available) {
            Some(l) => l,
            None => if available.len() > 0 {
                available[0]
            } else {
                DEFAULT_LANGUAGE@
            },
        },
    }
}

/// The preference list used when a requested language is missing.
pub open spec fn fallback_preferences() -> Seq<Seq<char>> {
    seq!["en"@, "zh-HK"@, "zh-TW"@]
}

/// `parts` joined, with `sep` between each two.
pub open spec fn joined_with(parts: Seq<Seq<char>>, sep: Seq<char>) -> Seq<char>
    decreases parts.len(),
{
    if parts.len() == 0 {
        seq![]
    } else if parts.len() == 1 {
        parts[0]
    } else {
        joined_with(parts.drop_last(), sep) + sep + parts.last()
    }
}

/// The note telling the user which language was used instead of the one asked for.
pub open spec fn fallback_notice_text(
    requested: Seq<char>,
    fallback: Seq<char>,
    available: Seq<Seq<char>>,
) -> Seq<char> {
    "Requested language '"@ + requested + "' not available. Using fallback language '"@ + fallback
        + "'. Available languages: "@ + joined_with(available, ", "@)
}

fn contains_language(available: &[String], lang: &String) -> (r: bool)
    ensures
        r == string_views(available@).contains(lang@),
{
    let mut j: usize = 0;
    while j < available.len()
        invariant
            0 <= j <= available@.len(),
            forall|k: int| 0 <= k < j ==> available@[k]@ != lang@,
        decreases available@.len() - j,
    {
        if available[j] == *lang {
            assert(string_views(available@)[j as int] == lang@);
            return true;
        }
        j += 1;
    }
    proof {
        if string_views(available@).contains(lang@) {
            let k = choose|k: int|
                0 <= k < string_views(available@).len() && string_views(available@)[k] == lang@;
            assert(available@[k]@ == lang@);
        }
    }
    false
}

fn starts_with_zh(l: &String) -> (r: bool)
    ensures
        r == is_chinese_variant(l@),
{
    let s = l.as_str();
    s.unicode_len() >= 2 && s.get_char(0) == 'z' && s.get_char(1) == 'h'
}

impl TranscriptService {
    /// Picks a language from `available_langs`: the first entry of `preferred`
    /// that it holds, else its first code starting with "zh", else its first
    /// code, else "en".
    pub fn select_fallback_language(available_langs: &[String], preferred: &[&str]) -> (r: String)
        ensures
            r@ == fallback_choice(string_views(available_langs@), str_views(preferred@)),
    {
        let ghost av = string_views(available_langs@);
        let ghost pv = str_views(preferred@);
        let mut i: usize = 0;
        assert(pv.skip(0) =~= pv);
        while i < preferred.len()
            invariant
                0 <= i <= preferred@.len(),
                av == string_views(available_langs@),
                pv == str_views(preferred@),
                first_preferred(av, pv) == first_preferred(av, pv.skip(i as int)),
                av.len() == available_langs@.len(),
            decreases preferred@.len() - i,
        {
            let lang = preferred[i].to_owned();
            assert(pv.skip(i as int)[0] == lang@);
            assert(pv.skip(i as int).drop_first() =~= pv.skip(i + 1));
            if contains_language(available_langs, &lang) {
                return lang;
            }
            i += 1;
        }
        assert(pv.skip(i as int) =~= Seq::<Seq<char>>::empty());
        let mut j: usize = 0;
        assert(av.skip(0) =~= av);
        while j < available_langs.len()
            invariant
                0 <= j <= available_langs@.len(),
                av == string_views(available_langs@),
                pv == str_views(preferred@),
                first_preferred(av, pv) is None,
                first_chinese_variant(av) == first_chinese_variant(av.skip(j as int)),
            decreases available_langs@.len() - j,
        {
            assert(av.skip(j as int)[0] == available_langs@[j as int]@);
            assert(av.skip(j as int).drop_first() =~= av.skip(j + 1));
            if starts_with_zh(&available_langs[j]) {
                let found = available_langs[j].clone();
                assert(first_chinese_variant(av.skip(j as int)) == Some(found@));
                return found;
            }
            j += 1;
        }
        assert(av.skip(j as int) =~= Seq::<Seq<char>>::empty());
        if available_langs.len() > 0 {
            available_langs[0].clone()
        } else {
            DEFAULT_LANGUAGE.to_owned()
        }
    }

    /// Picks the language to retry with when the requested one is missing,
    /// preferring "en", then "zh-HK", then "zh-TW".
    pub fn fallback_language(available_langs: &[String]) -> (r: String)
        ensures
            r@ == fallback_choice(string_views(available_langs@), fallback_preferences()),
    {
        let preferred: [&str; 3] = ["en", "zh-HK", "zh-TW"];
        assert(str_views(preferred@) =~= fallback_preferences());
        TranscriptService::select_fallback_language(available_langs, preferred.as_slice())
    }

    /// The note telling the user that `fallback` is used because `requested`
    /// is missing, with the languages that are available.
    pub fn fallback_notice(requested: &str, fallback: &str, available_langs: &[String]) -> (r:
        String)
        ensures
            r@ == fallback_notice_text(requested@, fallback@, string_views(available_langs@)),
    {
        let ghost av = string_views(available_langs@);
        let mut list = String::new();
        let mut i: usize = 0;
        while i < available_langs.len()
            invariant
                0 <= i <= available_langs@.len(),
                av == string_views(available_langs@),
                list@ == joined_with(av.take(i as int), ", "@),
            decreases available_langs@.len() - i,
        {
            let ghost before = av.take(i as int);
            if i > 0 {
                list.append(", ");
            }
            list.append(available_langs[i].as_str());
            proof {
                let after = av.take(i + 1);
                assert(after.drop_last() =~= before);
                assert(after.last() == av[i as int]);
                if i == 0 {
                    assert(before.len() == 0);
                    assert(list@ =~= av[0]);
                }
            }
            i += 1;
        }
        assert(av.take(i as int) =~= av);
        let mut r = String::from_str("Requested language '");
        r.append(requested);
        r.append("' not available. Using fallback language '");
        r.append(fallback);
        r.append("'. Available languages: ");
        r.append(list.as_str());
        r
    }
}

} // verus!
