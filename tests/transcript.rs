use tofuboi::transcript::TranscriptService;

#[test]
fn test_select_fallback_language() {
    let available = vec!["en".to_string(), "es".to_string(), "zh-HK".to_string()];
    assert_eq!(
        TranscriptService::select_fallback_language(&available, &["fr", "en", "es"]),
        "en"
    );

    let available = vec!["es".to_string(), "zh-HK".to_string()];
    assert_eq!(
        TranscriptService::select_fallback_language(&available, &["fr", "en", "zh-HK"]),
        "zh-HK"
    );

    let available: Vec<String> = vec![];
    assert_eq!(
        TranscriptService::select_fallback_language(&available, &["fr", "en", "es"]),
        "en"
    );
}
