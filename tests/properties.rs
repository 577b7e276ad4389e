use tofuboi::accumulator::{pack_fragments, ChunkAccumulator};
use tofuboi::decode::{decode_fragment, transcript_messages};
use tofuboi::formatter::{split_safe_utf8, BUDGET_TOO_SMALL, INVALID_BUDGET};
use tofuboi::transcript::TranscriptService;

fn strings(items: &[&str]) -> Vec<String> {
    items.iter().map(|s| s.to_string()).collect()
}

#[test]
fn split_round_trip_reassembles_text() {
    let text = "Grüße aus 東京 — naïve café 🎉 done";
    for budget in 4..20 {
        let chunks = split_safe_utf8(text, budget).expect("every character fits");
        assert_eq!(chunks.concat(), text);
    }
}

#[test]
fn split_chunks_stay_within_budget() {
    let text = "αβγδε ζηθ 🎉🎉 abc";
    let chunks = split_safe_utf8(text, 5).expect("every character fits");
    assert!(!chunks.is_empty());
    for chunk in &chunks {
        assert!(!chunk.is_empty());
        assert!(chunk.len() <= 5);
    }
    assert_eq!(chunks, vec!["αβ", "γδ", "ε ζ", "ηθ ", "🎉", "🎉 ", "abc"]);
}

#[test]
fn split_fails_only_for_wide_characters() {
    assert_eq!(split_safe_utf8("abc", 1), Ok(vec!["a", "b", "c"]));
    assert_eq!(split_safe_utf8("aé", 1), Err(BUDGET_TOO_SMALL));
    assert_eq!(split_safe_utf8("é", 2), Ok(vec!["é"]));
    assert_eq!(split_safe_utf8("x🎉", 3), Err(BUDGET_TOO_SMALL));
    assert_eq!(split_safe_utf8("x🎉", 4), Ok(vec!["x", "🎉"]));
}

#[test]
fn split_edge_cases() {
    assert_eq!(split_safe_utf8("", 3), Ok(vec![]));
    assert_eq!(split_safe_utf8("", 0), Err(INVALID_BUDGET));
    assert_eq!(split_safe_utf8("abc", 3), Ok(vec!["abc"]));
    assert_eq!(split_safe_utf8("abc", usize::MAX), Ok(vec!["abc"]));
}

fn pick(available: &[&str], preferred: &[&str]) -> String {
    TranscriptService::select_fallback_language(&strings(available), preferred)
}

#[test]
fn selector_precedence() {
    assert_eq!(pick(&["es", "zh-HK"], &["fr", "en", "zh-HK"]), "zh-HK");
    assert_eq!(pick(&["en", "es"], &["fr", "en"]), "en");
    assert_eq!(pick(&[], &["fr", "en"]), "en");
    assert_eq!(pick(&["zh-TW"], &["fr"]), "zh-TW");
    assert_eq!(pick(&["de", "zh-TW", "zh-HK"], &["fr"]), "zh-TW");
    assert_eq!(pick(&["de", "es"], &["fr"]), "de");
    assert_eq!(pick(&["z", "zhx"], &[]), "zhx");
}

#[test]
fn fallback_language_prefers_english_then_chinese() {
    assert_eq!(TranscriptService::fallback_language(&strings(&["es", "en"])), "en");
    assert_eq!(TranscriptService::fallback_language(&strings(&["es", "zh-TW", "zh-HK"])), "zh-HK");
    assert_eq!(TranscriptService::fallback_language(&strings(&["es", "zh-CN"])), "zh-CN");
    assert_eq!(TranscriptService::fallback_language(&strings(&["es", "de"])), "es");
    assert_eq!(TranscriptService::fallback_language(&[]), "en");
}

#[test]
fn fallback_notice_lists_languages() {
    let notice = TranscriptService::fallback_notice("fr", "en", &strings(&["en", "es"]));
    assert_eq!(
        notice,
        "Requested language 'fr' not available. Using fallback language 'en'. Available languages: en, es"
    );
    let notice = TranscriptService::fallback_notice("fr", "en", &[]);
    assert_eq!(
        notice,
        "Requested language 'fr' not available. Using fallback language 'en'. Available languages: "
    );
}

#[test]
fn pack_joins_fragments_greedily() {
    let frags = strings(&["hello", "world", "foo", "barbazqux"]);
    let messages = pack_fragments(&frags, 11).unwrap();
    assert_eq!(messages, vec!["hello\nworld", "foo", "barbazqux"]);
    for m in &messages {
        assert!(m.len() <= 11);
    }
}

#[test]
fn pack_preserves_content_in_order() {
    let frags = strings(&["a", "bb", "ccc", "dddd", "eeeee", "ffffff"]);
    let messages = pack_fragments(&frags, 7).unwrap();
    assert_eq!(messages, vec!["a\nbb", "ccc", "dddd", "eeeee", "ffffff"]);
    let rebuilt: String = messages.iter().map(|m| m.replace('\n', "")).collect();
    assert_eq!(rebuilt, frags.concat());
}

#[test]
fn oversized_fragment_flushes_then_splits() {
    let big = "x".repeat(9000);
    let frags = vec!["intro".to_string(), big.clone(), "outro".to_string()];
    let messages = pack_fragments(&frags, 4000).unwrap();
    assert_eq!(messages.len(), 5);
    assert_eq!(messages[0], "intro");
    assert_eq!(messages[1].len(), 4000);
    assert_eq!(messages[2].len(), 4000);
    assert_eq!(messages[3].len(), 1000);
    assert_eq!(messages[4], "outro");
    for m in &messages {
        assert!(m.len() <= 4000);
    }
    assert_eq!(messages[1..4].concat(), big);
}

#[test]
fn pack_nothing_to_deliver() {
    assert_eq!(pack_fragments(&[], 10), Ok(vec![]));
    assert_eq!(pack_fragments(&strings(&["", "", ""]), 10), Ok(vec![]));
}

#[test]
fn pack_errors() {
    assert_eq!(pack_fragments(&strings(&["abc"]), 0), Err(INVALID_BUDGET));
    assert_eq!(pack_fragments(&strings(&["ok", "日本"]), 2), Err(BUDGET_TOO_SMALL));
    assert!(ChunkAccumulator::new(0).is_err());
}

#[test]
fn accumulator_emits_as_it_goes() {
    let mut acc = ChunkAccumulator::new(8).unwrap();
    assert_eq!(acc.push("abc"), Ok(vec![]));
    assert_eq!(acc.push("de"), Ok(vec![]));
    assert_eq!(acc.push("fgh"), Ok(vec!["abc\nde".to_string()]));
    assert_eq!(acc.push("ééééé"), Ok(vec!["fgh".to_string(), "éééé".to_string(), "é".to_string()]));
    assert_eq!(acc.push("日本"), Ok(vec![]));
    assert_eq!(acc.finish(), Some("日本".to_string()));
    assert_eq!(acc.finish(), None);
}

#[test]
fn accumulator_keeps_state_on_error() {
    let mut acc = ChunkAccumulator::new(2).unwrap();
    assert_eq!(acc.push("a"), Ok(vec![]));
    assert_eq!(acc.push("日"), Err(BUDGET_TOO_SMALL));
    assert_eq!(acc.finish(), Some("a".to_string()));
}

#[test]
fn decode_fragment_resolves_markup() {
    assert_eq!(decode_fragment("Tom &amp; Jerry&#39;s"), "Tom & Jerry's");
    assert_eq!(decode_fragment("it&amp;#39;s"), "it's");
    assert_eq!(decode_fragment("&lt;b&gt;"), "<b>");
    assert_eq!(decode_fragment("plain text"), "plain text");
}

#[test]
fn transcript_messages_decodes_then_packs() {
    let entries = strings(&["I&#39;m here", "&amp; there", "and everywhere"]);
    let messages = transcript_messages(&entries, 20).unwrap();
    assert_eq!(messages, vec!["I'm here\n& there", "and everywhere"]);
    assert_eq!(transcript_messages(&[], 20), Ok(vec![]));
    assert_eq!(transcript_messages(&entries, 0), Err(INVALID_BUDGET));
}
