use rewindos::db::Database;
use rewindos::schema::NewScreenshot;

fn make_test_db() -> Database {
    Database::open_in_memory().unwrap()
}

fn make_screenshot(ts: i64) -> NewScreenshot {
    let scrambled: i64 = ts.wrapping_mul(6364136223846793005);
    NewScreenshot {
        timestamp: ts,
        timestamp_ms: ts * 1000,
        app_name: Some("firefox".to_string()),
        window_title: Some("Test Page".to_string()),
        window_class: Some("Navigator".to_string()),
        file_path: format!("screenshots/2025-01-01/{ts}.webp"),
        thumbnail_path: None,
        width: 1920,
        height: 1080,
        file_size_bytes: 75000,
        perceptual_hash: scrambled.to_le_bytes().to_vec(),
    }
}

#[test]
fn test_get_app_names() {
    let mut db = make_test_db();
    let mut ss1 = make_screenshot(100);
    ss1.app_name = Some("firefox".to_string());
    db.insert_screenshot(&ss1).unwrap();
    let mut ss2 = make_screenshot(200);
    ss2.app_name = Some("code".to_string());
    db.insert_screenshot(&ss2).unwrap();
    let mut ss3 = make_screenshot(300);
    ss3.app_name = Some("firefox".to_string());
    db.insert_screenshot(&ss3).unwrap();

    let names = db.get_app_names().unwrap();
    assert_eq!(names, vec!["code", "firefox"]);
}

#[test]
fn test_get_app_names_skips_missing() {
    let mut db = make_test_db();
    let mut ss = make_screenshot(100);
    ss.app_name = None;
    db.insert_screenshot(&ss).unwrap();
    assert!(db.get_app_names().unwrap().is_empty());
}

#[test]
fn test_get_daily_activity() {
    let mut db = make_test_db();
    // two screenshots on one day, one on the next (times in UTC)
    let day_start = 1706140800; // midnight
    let mut ss1 = make_screenshot(day_start);
    ss1.app_name = Some("firefox".to_string());
    db.insert_screenshot(&ss1).unwrap();
    let mut ss2 = make_screenshot(day_start + 3600);
    ss2.app_name = Some("code".to_string());
    db.insert_screenshot(&ss2).unwrap();
    let mut ss3 = make_screenshot(day_start + 86400);
    ss3.app_name = Some("firefox".to_string());
    db.insert_screenshot(&ss3).unwrap();

    let daily = db.get_daily_activity(0, None).unwrap();
    assert_eq!(daily.len(), 2);
    assert_eq!(daily[0].screenshot_count + daily[1].screenshot_count, 3);
    assert_eq!(daily[0].date, "2024-01-25");
    assert_eq!(daily[0].screenshot_count, 2);
    assert_eq!(daily[0].unique_apps, 2);
    assert_eq!(daily[1].date, "2024-01-26");
    assert_eq!(daily[1].unique_apps, 1);
}

#[test]
fn test_get_hourly_activity() {
    let mut db = make_test_db();
    let day_start = 1706140800;
    db.insert_screenshot(&make_screenshot(day_start)).unwrap();
    db.insert_screenshot(&make_screenshot(day_start + 3600)).unwrap();
    db.insert_screenshot(&make_screenshot(day_start + 3600 + 60)).unwrap();

    let hourly = db.get_hourly_activity(0, None).unwrap();
    assert!(!hourly.is_empty());
    let total: i64 = hourly.iter().map(|h| h.screenshot_count).sum();
    assert_eq!(total, 3);
    assert_eq!(hourly.len(), 2);
    assert_eq!(hourly[0].hour, 0);
    assert_eq!(hourly[0].screenshot_count, 1);
    assert_eq!(hourly[1].hour, 1);
    assert_eq!(hourly[1].screenshot_count, 2);
}

#[test]
fn test_hourly_activity_window_filter() {
    let mut db = make_test_db();
    let day_start = 1706140800;
    db.insert_screenshot(&make_screenshot(day_start)).unwrap();
    db.insert_screenshot(&make_screenshot(day_start + 7200)).unwrap();
    // only the second survives the since filter
    let hourly = db.get_hourly_activity(day_start + 1, None).unwrap();
    assert_eq!(hourly.len(), 1);
    assert_eq!(hourly[0].hour, 2);
}

#[test]
fn test_get_app_usage_stats() {
    let mut db = make_test_db();
    let mut ss1 = make_screenshot(1000);
    ss1.app_name = Some("firefox".to_string());
    db.insert_screenshot(&ss1).unwrap();
    let mut ss2 = make_screenshot(2000);
    ss2.app_name = Some("firefox".to_string());
    db.insert_screenshot(&ss2).unwrap();
    let mut ss3 = make_screenshot(3000);
    ss3.app_name = Some("code".to_string());
    db.insert_screenshot(&ss3).unwrap();

    let stats = db.get_app_usage_stats(0, None).unwrap();
    assert_eq!(stats.len(), 2);
    // firefox should be first (most screenshots)
    assert_eq!(stats[0].app_name, "firefox");
    assert_eq!(stats[0].screenshot_count, 2);
    assert!((stats[0].percentage_hundredths - 6666).abs() < 100);
    assert_eq!(stats[1].app_name, "code");
    assert_eq!(stats[1].screenshot_count, 1);
}

#[test]
fn test_get_app_usage_stats_empty() {
    let db = make_test_db();
    let stats = db.get_app_usage_stats(0, None).unwrap();
    assert!(stats.is_empty());
}

#[test]
fn ocr_sessions_order_and_limit() {
    let mut db = make_test_db();
    let a = db.insert_screenshot(&make_screenshot(300)).unwrap();
    let b = db.insert_screenshot(&make_screenshot(100)).unwrap();
    let c = db.insert_screenshot(&make_screenshot(200)).unwrap();
    db.insert_ocr_text(a, "the latest screen of them all", 6).unwrap();
    db.insert_ocr_text(b, "the earliest screen of them all", 6).unwrap();
    db.insert_ocr_text(c, "short text", 2).unwrap(); // ten characters: filtered out

    let all = db.get_ocr_sessions_with_ids(0, 1000, 10).unwrap();
    assert_eq!(all.len(), 2);
    assert_eq!(all[0].0, b);
    assert_eq!(all[0].3, 100);
    assert_eq!(all[1].0, a);
    assert_eq!(all[1].3, 300);

    let first = db.get_ocr_sessions(0, 1000, 1).unwrap();
    assert_eq!(first.len(), 1);
    assert_eq!(first[0].2, 100);
    assert_eq!(first[0].3, "the earliest screen of them all");
}
