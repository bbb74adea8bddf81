use rewindos::db::Database;
use rewindos::schema::{NewBoundingBox, NewScreenshot, OcrStatus, SearchFilters};

fn make_test_db() -> Database {
    Database::open_in_memory().unwrap()
}

fn make_screenshot(ts: i64) -> NewScreenshot {
    // spread the bits so adjacent timestamps give very different hashes
    let scrambled: i64 = ts.wrapping_mul(6364136223846793005);
    NewScreenshot {
        timestamp: ts,
        timestamp_ms: ts * 1000,
        app_name: Some("firefox".to_string()),
        window_title: Some("Test Page".to_string()),
        window_class: Some("Navigator".to_string()),
        file_path: format!("screenshots/2025-01-01/{ts}.webp"),
        thumbnail_path: Some(format!("screenshots/2025-01-01/thumbs/{ts}.webp")),
        width: 1920,
        height: 1080,
        file_size_bytes: 75000,
        perceptual_hash: scrambled.to_le_bytes().to_vec(),
    }
}

fn filters(query: &str, start: Option<i64>, end: Option<i64>, app: Option<&str>) -> SearchFilters {
    SearchFilters {
        query: query.to_string(),
        start_time: start,
        end_time: end,
        app_name: app.map(|a| a.to_string()),
        limit: 10,
        offset: 0,
    }
}

#[test]
fn test_migration_runs() {
    let _db = make_test_db();
}

#[test]
fn test_insert_and_get_screenshot() {
    let mut db = make_test_db();
    let new = make_screenshot(1706137200);
    let id = db.insert_screenshot(&new).unwrap();
    assert!(id > 0);
    let got = db.get_screenshot(id).unwrap().expect("screenshot not found");
    assert_eq!(got.id, id);
    assert_eq!(got.timestamp, 1706137200);
    assert_eq!(got.app_name.as_deref(), Some("firefox"));
    assert_eq!(got.window_title.as_deref(), Some("Test Page"));
    assert_eq!(got.width, 1920);
    assert_eq!(got.height, 1080);
    assert_eq!(got.ocr_status, OcrStatus::Pending);
    assert_eq!(
        got.perceptual_hash,
        1706137200i64
            .wrapping_mul(6364136223846793005)
            .to_le_bytes()
            .to_vec()
    );
}

#[test]
fn test_get_nonexistent_screenshot() {
    let db = make_test_db();
    let got = db.get_screenshot(999).unwrap();
    assert!(got.is_none());
}

#[test]
fn test_ocr_text_and_fts5_search() {
    let mut db = make_test_db();
    let id = db.insert_screenshot(&make_screenshot(1706137200)).unwrap();
    db.insert_ocr_text(id, "The quick brown fox jumps over the lazy dog", 9)
        .unwrap();
    db.update_ocr_status(id, OcrStatus::Done).unwrap();
    let response = db.search(&filters("quick brown fox", None, None, None)).unwrap();
    assert_eq!(response.total_count, 1);
    assert_eq!(response.results.len(), 1);
    assert_eq!(response.results[0].id, id);
    assert!(response.results[0].matched_text.contains("<mark>"));
}

#[test]
fn test_search_with_date_filter() {
    let mut db = make_test_db();
    let id1 = db.insert_screenshot(&make_screenshot(1000)).unwrap();
    let id2 = db.insert_screenshot(&make_screenshot(2000)).unwrap();
    let id3 = db.insert_screenshot(&make_screenshot(3000)).unwrap();
    db.insert_ocr_text(id1, "hello world from screenshot one", 5).unwrap();
    db.insert_ocr_text(id2, "hello world from screenshot two", 5).unwrap();
    db.insert_ocr_text(id3, "hello world from screenshot three", 5).unwrap();

    let response = db.search(&filters("hello world", Some(1500), None, None)).unwrap();
    assert_eq!(response.total_count, 2);

    let response = db
        .search(&filters("hello world", Some(1500), Some(2500), None))
        .unwrap();
    assert_eq!(response.total_count, 1);
    assert_eq!(response.results[0].id, id2);
}

#[test]
fn test_search_with_app_filter() {
    let mut db = make_test_db();
    let mut ss1 = make_screenshot(1000);
    ss1.app_name = Some("firefox".to_string());
    let id1 = db.insert_screenshot(&ss1).unwrap();
    let mut ss2 = make_screenshot(2000);
    ss2.app_name = Some("code".to_string());
    let id2 = db.insert_screenshot(&ss2).unwrap();
    db.insert_ocr_text(id1, "search query text in firefox", 5).unwrap();
    db.insert_ocr_text(id2, "search query text in vscode", 5).unwrap();

    let response = db
        .search(&filters("search query", None, None, Some("firefox")))
        .unwrap();
    assert_eq!(response.total_count, 1);
    assert_eq!(response.results[0].id, id1);
}

#[test]
fn test_search_pagination() {
    let mut db = make_test_db();
    let mut i: i64 = 0;
    while i < 5 {
        let id = db.insert_screenshot(&make_screenshot(1000 + i)).unwrap();
        db.insert_ocr_text(id, &format!("common search term item {i}"), 4)
            .unwrap();
        i += 1;
    }
    let page = |offset: i64| SearchFilters {
        query: "common search term".to_string(),
        start_time: None,
        end_time: None,
        app_name: None,
        limit: 2,
        offset,
    };
    let response = db.search(&page(0)).unwrap();
    assert_eq!(response.total_count, 5);
    assert_eq!(response.results.len(), 2);
    let response = db.search(&page(2)).unwrap();
    assert_eq!(response.results.len(), 2);
    let response = db.search(&page(4)).unwrap();
    assert_eq!(response.results.len(), 1);
}

#[test]
fn test_search_pagination_pages_cover_everything_once() {
    let mut db = make_test_db();
    let mut i: i64 = 0;
    while i < 5 {
        let id = db.insert_screenshot(&make_screenshot(1000 + i)).unwrap();
        db.insert_ocr_text(id, &format!("common search term item {i}"), 4)
            .unwrap();
        i += 1;
    }
    let mut seen: Vec<i64> = Vec::new();
    for offset in [0i64, 2, 4] {
        let response = db
            .search(&SearchFilters {
                query: "common search term".to_string(),
                start_time: None,
                end_time: None,
                app_name: None,
                limit: 2,
                offset,
            })
            .unwrap();
        for r in &response.results {
            assert!(!seen.contains(&r.id));
            seen.push(r.id);
        }
    }
    assert_eq!(seen.len(), 5);
}

#[test]
fn test_search_empty_query_is_rejected() {
    let mut db = make_test_db();
    let id = db.insert_screenshot(&make_screenshot(1000)).unwrap();
    db.insert_ocr_text(id, "anything at all", 3).unwrap();
    assert!(db.search(&filters("", None, None, None)).is_err());
    assert!(db.search(&filters("  ... ", None, None, None)).is_err());
}

#[test]
fn test_recent_hashes() {
    let mut db = make_test_db();
    let mut ss1 = make_screenshot(100);
    ss1.perceptual_hash = vec![0xAA; 8];
    db.insert_screenshot(&ss1).unwrap();
    let mut ss2 = make_screenshot(200);
    ss2.perceptual_hash = vec![0xBB; 8];
    db.insert_screenshot(&ss2).unwrap();
    let mut ss3 = make_screenshot(300);
    ss3.perceptual_hash = vec![0xCC; 8];
    db.insert_screenshot(&ss3).unwrap();

    let hashes = db.get_recent_hashes(150, 10).unwrap();
    assert_eq!(hashes.len(), 2);
    // ordered newest first
    assert_eq!(hashes[0].1, vec![0xCC; 8]);
    assert_eq!(hashes[1].1, vec![0xBB; 8]);
}

#[test]
fn test_delete_screenshots_before() {
    let mut db = make_test_db();
    db.insert_screenshot(&make_screenshot(100)).unwrap();
    db.insert_screenshot(&make_screenshot(200)).unwrap();
    db.insert_screenshot(&make_screenshot(300)).unwrap();
    let (deleted, _paths) = db.delete_screenshots_before(250).unwrap();
    assert_eq!(deleted, 2);
    let hashes = db.get_recent_hashes(0, 100).unwrap();
    assert_eq!(hashes.len(), 1);
}

#[test]
fn test_update_ocr_status() {
    let mut db = make_test_db();
    let id = db.insert_screenshot(&make_screenshot(1000)).unwrap();
    let ss = db.get_screenshot(id).unwrap().unwrap();
    assert_eq!(ss.ocr_status, OcrStatus::Pending);
    db.update_ocr_status(id, OcrStatus::Processing).unwrap();
    let ss = db.get_screenshot(id).unwrap().unwrap();
    assert_eq!(ss.ocr_status, OcrStatus::Processing);
    db.update_ocr_status(id, OcrStatus::Done).unwrap();
    let ss = db.get_screenshot(id).unwrap().unwrap();
    assert_eq!(ss.ocr_status, OcrStatus::Done);
}

#[test]
fn test_insert_bounding_boxes() {
    let mut db = make_test_db();
    let id = db.insert_screenshot(&make_screenshot(1000)).unwrap();
    let boxes = vec![
        NewBoundingBox {
            text_content: "Hello".to_string(),
            x: 10,
            y: 20,
            width: 80,
            height: 20,
            confidence_hundredths: Some(9500),
        },
        NewBoundingBox {
            text_content: "World".to_string(),
            x: 100,
            y: 20,
            width: 90,
            height: 20,
            confidence_hundredths: Some(9250),
        },
    ];
    db.insert_bounding_boxes(id, &boxes).unwrap();
    let stored = db.get_bounding_boxes(id).unwrap();
    assert_eq!(stored.len(), 2);
    assert_eq!(stored[0].text_content, "Hello");
    assert_eq!(stored[1].confidence_hundredths, Some(9250));
}

#[test]
fn test_cascade_delete_ocr() {
    let mut db = make_test_db();
    let id = db.insert_screenshot(&make_screenshot(100)).unwrap();
    db.insert_ocr_text(id, "some text content", 3).unwrap();
    db.insert_bounding_boxes(
        id,
        &vec![NewBoundingBox {
            text_content: "some".to_string(),
            x: 0,
            y: 0,
            width: 50,
            height: 20,
            confidence_hundredths: Some(9000),
        }],
    )
    .unwrap();
    db.delete_screenshots_before(200).unwrap();
    assert!(db.get_ocr_text(id).unwrap().is_none());
    assert!(db.get_bounding_boxes(id).unwrap().is_empty());
}

#[test]
fn scenario_delete_cascade_removes_all_tables_and_reports_files() {
    // S6: insert screenshot, OCR text and boxes, then delete everything
    // before ts + 1: all four tables lose the row and the backing file
    // paths come back for the caller to unlink.
    let mut db = make_test_db();
    let ts = 1706137200;
    let id = db.insert_screenshot(&make_screenshot(ts)).unwrap();
    db.insert_ocr_text(id, "cascading delete target", 3).unwrap();
    db.insert_bounding_boxes(
        id,
        &vec![NewBoundingBox {
            text_content: "cascading".to_string(),
            x: 1,
            y: 2,
            width: 3,
            height: 4,
            confidence_hundredths: None,
        }],
    )
    .unwrap();
    let (deleted, paths) = db.delete_screenshots_before(ts + 1).unwrap();
    assert_eq!(deleted, 1);
    assert!(db.get_screenshot(id).unwrap().is_none());
    assert!(db.get_ocr_text(id).unwrap().is_none());
    assert!(db.get_bounding_boxes(id).unwrap().is_empty());
    // a later search cannot find the text either (the shadow row is gone)
    assert_eq!(
        db.search(&filters("cascading delete", None, None, None))
            .unwrap()
            .total_count,
        0
    );
    assert!(paths.contains(&format!("screenshots/2025-01-01/{ts}.webp")));
    assert!(paths.contains(&format!("screenshots/2025-01-01/thumbs/{ts}.webp")));
}

#[test]
fn test_delete_screenshots_in_range() {
    let mut db = make_test_db();
    db.insert_screenshot(&make_screenshot(100)).unwrap();
    db.insert_screenshot(&make_screenshot(200)).unwrap();
    db.insert_screenshot(&make_screenshot(300)).unwrap();
    let (deleted, _) = db.delete_screenshots_in_range(150, 250).unwrap();
    assert_eq!(deleted, 1);
    assert_eq!(db.get_recent_hashes(0, 100).unwrap().len(), 2);
}

#[test]
fn test_browse_screenshots_newest_first() {
    let mut db = make_test_db();
    let mut ss = make_screenshot(100);
    ss.app_name = Some("code".to_string());
    db.insert_screenshot(&ss).unwrap();
    db.insert_screenshot(&make_screenshot(300)).unwrap();
    db.insert_screenshot(&make_screenshot(200)).unwrap();
    let all = db.browse_screenshots(None, None, None, 10, 0).unwrap();
    assert_eq!(all.len(), 3);
    assert_eq!(all[0].timestamp, 300);
    assert_eq!(all[1].timestamp, 200);
    assert_eq!(all[2].timestamp, 100);
    let firefox_only = db
        .browse_screenshots(None, None, Some("firefox"), 10, 0)
        .unwrap();
    assert_eq!(firefox_only.len(), 2);
}

#[test]
fn test_daemon_state_upsert() {
    let mut db = make_test_db();
    assert!(db.get_daemon_state("portal-token").unwrap().is_none());
    db.set_daemon_state("portal-token", "abc").unwrap();
    assert_eq!(db.get_daemon_state("portal-token").unwrap().as_deref(), Some("abc"));
    db.set_daemon_state("portal-token", "xyz").unwrap();
    assert_eq!(db.get_daemon_state("portal-token").unwrap().as_deref(), Some("xyz"));
}

#[test]
fn test_daily_summary_cache_roundtrip() {
    let mut db = make_test_db();
    assert!(db.get_daily_summary_cache("2024-01-25").unwrap().is_none());
    let summary = rewindos::schema::CachedDailySummary {
        date_key: "2024-01-25".to_string(),
        summary_text: Some("a quiet day".to_string()),
        app_breakdown: "[]".to_string(),
        total_sessions: 4,
        time_range: "09:00-17:00".to_string(),
        model_name: None,
        generated_at: "2024-01-25 18:00:00".to_string(),
        screenshot_count: 120,
    };
    db.set_daily_summary_cache(&summary).unwrap();
    let got = db.get_daily_summary_cache("2024-01-25").unwrap().unwrap();
    assert_eq!(got.summary_text.as_deref(), Some("a quiet day"));
    assert_eq!(got.screenshot_count, 120);
}

#[test]
fn test_embeddings_pending_and_insert() {
    let mut db = make_test_db();
    let id1 = db.insert_screenshot(&make_screenshot(1000)).unwrap();
    let id2 = db.insert_screenshot(&make_screenshot(2000)).unwrap();
    db.insert_ocr_text(id1, "first text", 2).unwrap();
    db.insert_ocr_text(id2, "second text", 2).unwrap();
    db.update_ocr_status(id1, OcrStatus::Done).unwrap();
    db.update_ocr_status(id2, OcrStatus::Done).unwrap();
    let pending = db.get_pending_embeddings(10).unwrap();
    assert_eq!(pending.len(), 2);
    assert_eq!(pending[0].0, id1);
    assert_eq!(pending[0].1, "first text");
    db.insert_embedding(id1, &vec![0u8; 16]).unwrap();
    let pending = db.get_pending_embeddings(10).unwrap();
    assert_eq!(pending.len(), 1);
    assert_eq!(pending[0].0, id2);
    // a second embedding for the same screenshot is refused
    assert!(db.insert_embedding(id1, &vec![0u8; 16]).is_err());
    // an unknown screenshot is refused
    assert!(db.insert_embedding(999, &vec![0u8; 16]).is_err());
}

#[test]
fn test_insert_ocr_text_errors() {
    let mut db = make_test_db();
    assert!(db.insert_ocr_text(42, "no such row", 3).is_err());
    let id = db.insert_screenshot(&make_screenshot(1000)).unwrap();
    db.insert_ocr_text(id, "first", 1).unwrap();
    assert!(db.insert_ocr_text(id, "second", 1).is_err());
}

#[test]
fn test_update_screenshot_file() {
    let mut db = make_test_db();
    let id = db.insert_screenshot(&make_screenshot(1000)).unwrap();
    db.update_screenshot_file(id, 960, 540, 12345).unwrap();
    let got = db.get_screenshot(id).unwrap().unwrap();
    assert_eq!(got.width, 960);
    assert_eq!(got.height, 540);
    assert_eq!(got.file_size_bytes, 12345);
    // updating a missing id succeeds and changes nothing
    db.update_screenshot_file(999, 1, 1, 1).unwrap();
    assert!(db.get_screenshot(999).unwrap().is_none());
}

#[test]
fn test_get_all_screenshot_paths_and_count() {
    let mut db = make_test_db();
    db.insert_screenshot(&make_screenshot(100)).unwrap();
    db.insert_screenshot(&make_screenshot(200)).unwrap();
    let paths = db.get_all_screenshot_paths().unwrap();
    assert_eq!(paths.len(), 2);
    assert_eq!(paths[0].1, "screenshots/2025-01-01/100.webp");
    assert_eq!(db.get_screenshot_count_in_range(0, 150).unwrap(), 1);
    assert_eq!(db.get_screenshot_count_in_range(0, 1000).unwrap(), 2);
}
