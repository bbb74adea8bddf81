use rewindos::chat::{IntentCategory, IntentClassifier};
use rewindos::text::{chars_of, fold_vec};

const NOW: i64 = 1706137200;

fn folded(query: &str) -> Vec<char> {
    fold_vec(&chars_of(query))
}

#[test]
fn test_classify_recall() {
    let intent = IntentClassifier::classify("What was that error I saw in VS Code?");
    assert_eq!(intent.category, IntentCategory::AppSpecific);
    assert_eq!(intent.app_filter, Some("code".to_string()));
    assert!(intent.search_terms.contains(&"error".to_string()));
}

#[test]
fn test_classify_productivity() {
    let intent = IntentClassifier::classify("How long did I spend on GitHub today?");
    assert_eq!(intent.category, IntentCategory::Productivity);
    assert!(intent.time_range.is_some());
}

#[test]
fn test_classify_time_based() {
    let intent = IntentClassifier::classify("What happened yesterday?");
    assert_eq!(intent.category, IntentCategory::TimeBased);
    assert!(intent.time_range.is_some());
}

#[test]
fn test_classify_general() {
    let intent = IntentClassifier::classify("Hi there");
    assert_eq!(intent.category, IntentCategory::General);
}

#[test]
fn test_extract_time_range_last_hours() {
    let q = folded("what did i do in the last 3 hours");
    let range = IntentClassifier::extract_time_range(&q, NOW);
    assert!(range.is_some());
    let (start, end) = range.unwrap();
    assert!(end - start >= 3 * 3600 - 10);
}

#[test]
fn test_extract_app_filter() {
    assert_eq!(
        IntentClassifier::extract_app_filter(&folded("error in vs code")),
        Some("code".to_string())
    );
    assert_eq!(
        IntentClassifier::extract_app_filter(&folded("what was in firefox yesterday")),
        Some("firefox".to_string())
    );
}

#[test]
fn test_extract_time_range_last_time() {
    let range = IntentClassifier::extract_time_range(&folded("last time i played chess"), NOW);
    assert!(range.is_some());
    let (start, end) = range.unwrap();
    assert!(end - start >= 29 * 86400);
}

#[test]
fn test_extract_time_range_when_did() {
    let range = IntentClassifier::extract_time_range(&folded("when did i visit that website"), NOW);
    assert!(range.is_some());
    let (start, end) = range.unwrap();
    assert!(end - start >= 29 * 86400);
}

#[test]
fn test_extract_time_range_when_was() {
    let range = IntentClassifier::extract_time_range(&folded("when was the last meeting"), NOW);
    assert!(range.is_some());
}

#[test]
fn test_extract_time_range_last_week() {
    let range = IntentClassifier::extract_time_range(&folded("what did i do last week"), NOW);
    assert!(range.is_some());
    let (start, end) = range.unwrap();
    assert!(end - start >= 6 * 86400);
    assert!(end - start <= 8 * 86400);
}

#[test]
fn test_extract_time_range_last_n_days() {
    let range =
        IntentClassifier::extract_time_range(&folded("show me activity from the last 5 days"), NOW);
    assert!(range.is_some());
    let (start, end) = range.unwrap();
    assert!(end - start >= 4 * 86400);
    assert!(end - start <= 6 * 86400);
}

#[test]
fn test_extract_time_range_yesterday_window() {
    // yesterday spans exactly the previous midnight-to-midnight day
    let range = IntentClassifier::extract_time_range(&folded("what happened yesterday"), NOW);
    let (start, end) = range.unwrap();
    let today_start = NOW - (NOW % 86400);
    assert_eq!(start, today_start - 86400);
    assert_eq!(end, today_start);
}

#[test]
fn test_classify_is_deterministic_for_fixed_clock() {
    let a = IntentClassifier::classify_at("errors in kitty this week", NOW);
    let b = IntentClassifier::classify_at("errors in kitty this week", NOW);
    assert_eq!(a.category, b.category);
    assert_eq!(a.search_terms, b.search_terms);
    assert_eq!(a.time_range, b.time_range);
    assert_eq!(a.app_filter, b.app_filter);
    assert_eq!(a.app_filter, Some("kitty".to_string()));
}

#[test]
fn test_content_hash_collapses_case_variants() {
    // the dedup key folds case and normalizes whitespace
    let a = rewindos::chat::simple_content_hash("Hello  World from the  screen");
    let b = rewindos::chat::simple_content_hash("hello world FROM the screen");
    assert_eq!(a, b);
    let c = rewindos::chat::simple_content_hash("entirely different content");
    assert_ne!(a, c);
}

#[test]
fn test_context_from_search_results() {
    let results = vec![(
        1i64,
        1706137200i64,
        Some("firefox".to_string()),
        Some("Test Page".to_string()),
        "path.webp".to_string(),
        "Some OCR text here".to_string(),
    )];
    let (context, refs) = rewindos::chat::ContextAssembler::from_search_results(&results);
    assert!(context.contains("[Screenshot ID:1]"));
    assert!(context.contains("firefox"));
    assert_eq!(refs.len(), 1);
    assert_eq!(refs[0].id, 1);
}

#[test]
fn test_context_from_search_results_dedups_repeats() {
    let entry = |id: i64, text: &str| {
        (
            id,
            1706137200i64,
            Some("firefox".to_string()),
            None::<String>,
            "p.webp".to_string(),
            text.to_string(),
        )
    };
    let results = vec![
        entry(1, "same content on screen"),
        entry(2, "same content on screen"),
        entry(3, "other content entirely"),
    ];
    let (_, refs) = rewindos::chat::ContextAssembler::from_search_results(&results);
    assert_eq!(refs.len(), 2);
    assert_eq!(refs[0].id, 1);
    assert_eq!(refs[1].id, 3);
}

#[test]
fn test_sessions_with_refs_caps_references() {
    let mut sessions = Vec::new();
    let mut i: i64 = 0;
    while i < 25 {
        sessions.push((
            i,
            Some("code".to_string()),
            Some("main.rs".to_string()),
            1706137200 + i,
            format!("shot-{i}.webp"),
            format!("source text number {i} with enough words"),
        ));
        i += 1;
    }
    let (context, refs) = rewindos::chat::ContextAssembler::from_sessions_with_refs(&sessions);
    assert_eq!(refs.len(), 20);
    assert_eq!(refs[0].id, 0);
    assert_eq!(refs[19].id, 19);
    assert!(context.starts_with("## Activity Timeline"));
}
