use rewindos::db::Database;
use rewindos::schema::{NewScreenshot, SearchFilters};

fn make_test_db() -> Database {
    Database::open_in_memory().unwrap()
}

fn make_screenshot(ts: i64) -> NewScreenshot {
    let scrambled: i64 = ts.wrapping_mul(6364136223846793005);
    NewScreenshot {
        timestamp: ts,
        timestamp_ms: ts * 1000,
        app_name: Some("firefox".to_string()),
        window_title: Some("Test Page".to_string()),
        window_class: Some("Navigator".to_string()),
        file_path: format!("screenshots/2025-01-01/{ts}.webp"),
        thumbnail_path: Some(format!("screenshots/2025-01-01/thumbs/{ts}.webp")),
        width: 1920,
        height: 1080,
        file_size_bytes: 75000,
        perceptual_hash: scrambled.to_le_bytes().to_vec(),
    }
}

fn filters(query: &str) -> SearchFilters {
    SearchFilters {
        query: query.to_string(),
        start_time: None,
        end_time: None,
        app_name: None,
        limit: 10,
        offset: 0,
    }
}

#[test]
fn test_deduplicate_results_groups_identical_hashes() {
    // S4: three identical perceptual hashes collapse to one representative
    // carrying the group size and all member ids.
    let mut db = make_test_db();
    let hash = vec![0xAA; 8];
    let mut i: i64 = 0;
    while i < 3 {
        let mut ss = make_screenshot(1000 + i);
        ss.perceptual_hash = hash.clone();
        let id = db.insert_screenshot(&ss).unwrap();
        db.insert_ocr_text(id, &format!("test text {i}"), 2).unwrap();
        i += 1;
    }
    let raw = db.search_deduped(&filters("test text"), 0).unwrap();
    assert_eq!(raw.results.len(), 3);

    let deduped = db.search(&filters("test text")).unwrap();
    assert_eq!(deduped.results.len(), 1);
    assert_eq!(deduped.results[0].group_count, Some(3));
    assert_eq!(
        deduped.results[0].group_screenshot_ids.as_ref().unwrap().len(),
        3
    );
}

#[test]
fn test_deduplicate_results_keeps_distinct_hashes() {
    let mut db = make_test_db();
    let hashes: Vec<Vec<u8>> = vec![vec![0x00; 8], vec![0xFF; 8], vec![0x55; 8]];
    let mut i: usize = 0;
    while i < hashes.len() {
        let mut ss = make_screenshot(1000 + i as i64);
        ss.perceptual_hash = hashes[i].clone();
        let id = db.insert_screenshot(&ss).unwrap();
        db.insert_ocr_text(id, &format!("distinct content {i}"), 2).unwrap();
        i += 1;
    }
    let deduped = db.search(&filters("distinct content")).unwrap();
    assert_eq!(deduped.results.len(), 3);
    for r in &deduped.results {
        assert!(r.group_count.is_none());
    }
}

#[test]
fn test_deduplicate_results_empty() {
    let db = make_test_db();
    let results = db.deduplicate_results(Vec::new(), 5).unwrap();
    assert!(results.is_empty());
}

#[test]
fn test_dedup_is_idempotent_on_concrete_input() {
    // running scene dedup on an already deduplicated list changes nothing
    let mut db = make_test_db();
    let hash = vec![0xAA; 8];
    let mut i: i64 = 0;
    while i < 3 {
        let mut ss = make_screenshot(1000 + i);
        ss.perceptual_hash = hash.clone();
        let id = db.insert_screenshot(&ss).unwrap();
        db.insert_ocr_text(id, &format!("repeated scene {i}"), 2).unwrap();
        i += 1;
    }
    let raw = db.search_deduped(&filters("repeated scene"), 0).unwrap();
    let once = db.deduplicate_results(raw.results, 5).unwrap();
    let twice = db
        .deduplicate_results(
            once.iter().map(|r| r.duplicate()).collect(),
            5,
        )
        .unwrap();
    assert_eq!(once.len(), twice.len());
    let mut k = 0;
    while k < once.len() {
        assert_eq!(once[k].id, twice[k].id);
        assert_eq!(once[k].group_count, twice[k].group_count);
        assert_eq!(once[k].group_screenshot_ids, twice[k].group_screenshot_ids);
        k += 1;
    }
}

#[test]
fn test_hybrid_search_without_vector_is_keyword_mode() {
    let mut db = make_test_db();
    let id = db.insert_screenshot(&make_screenshot(1000)).unwrap();
    db.insert_ocr_text(id, "hybrid keyword fallback text", 4).unwrap();
    let resp = db.hybrid_search(&filters("hybrid keyword"), None).unwrap();
    assert_eq!(resp.search_mode.as_deref(), Some("keyword"));
    assert_eq!(resp.total_count, 1);
    assert_eq!(resp.results[0].id, id);
}

#[test]
fn test_hybrid_search_fuses_vector_only_hits() {
    let mut db = make_test_db();
    let id1 = db.insert_screenshot(&make_screenshot(1000)).unwrap();
    db.insert_ocr_text(id1, "alpha keyword text", 3).unwrap();
    let id2 = db.insert_screenshot(&make_screenshot(2000)).unwrap();
    db.insert_ocr_text(id2, "completely unrelated body", 3).unwrap();
    // the vector index returns the second screenshot for this query
    let vec_ids = vec![id2];
    let resp = db
        .hybrid_search(&filters("alpha keyword"), Some(&vec_ids))
        .unwrap();
    assert_eq!(resp.search_mode.as_deref(), Some("hybrid"));
    assert_eq!(resp.total_count, 2);
    let ids: Vec<i64> = resp.results.iter().map(|r| r.id).collect();
    assert!(ids.contains(&id1));
    assert!(ids.contains(&id2));
    // the keyword hit carries a highlighted snippet
    let kw = resp.results.iter().find(|r| r.id == id1).unwrap();
    assert!(kw.matched_text.contains("<mark>"));
}

#[test]
fn test_hybrid_search_skips_unknown_vector_ids() {
    let mut db = make_test_db();
    let id = db.insert_screenshot(&make_screenshot(1000)).unwrap();
    db.insert_ocr_text(id, "only this one exists", 4).unwrap();
    let vec_ids = vec![4242];
    let resp = db.hybrid_search(&filters("exists"), Some(&vec_ids)).unwrap();
    assert_eq!(resp.total_count, 1);
    assert_eq!(resp.results[0].id, id);
}

#[test]
fn scenario_fts_match_any_token_run() {
    // S1 follow-on: every contiguous token run of the stored text matches
    let mut db = make_test_db();
    let id = db.insert_screenshot(&make_screenshot(1706137200)).unwrap();
    db.insert_ocr_text(id, "The quick brown fox jumps over the lazy dog", 9)
        .unwrap();
    for q in ["The quick", "brown fox jumps", "lazy dog", "dog"] {
        let resp = db.search(&filters(q)).unwrap();
        assert_eq!(resp.total_count, 1, "query {q} should match");
        assert!(resp.results[0].matched_text.contains("<mark>"));
    }
    // a query with a token the text lacks does not match
    let resp = db.search(&filters("quick purple fox")).unwrap();
    assert_eq!(resp.total_count, 0);
}
