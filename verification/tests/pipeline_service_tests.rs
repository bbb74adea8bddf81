use rewindos::db::Database;
use rewindos::pipeline::{ocr_action, should_embed, should_store_frame, OcrAction, PipelineMetrics};
use rewindos::schema::{ActiveBlock, NewScreenshot, OcrStatus};
use rewindos::service::{effective_filters, make_status, DaemonService};
use rewindos::detect::{detect_desktop_from, detect_session_from, DesktopEnvironment, SessionType};
use rewindos::config::AppConfig;

fn make_screenshot(ts: i64) -> NewScreenshot {
    let scrambled: i64 = ts.wrapping_mul(6364136223846793005);
    NewScreenshot {
        timestamp: ts,
        timestamp_ms: ts * 1000,
        app_name: Some("firefox".to_string()),
        window_title: None,
        window_class: None,
        file_path: format!("s/{ts}.webp"),
        thumbnail_path: None,
        width: 1920,
        height: 1080,
        file_size_bytes: 1000,
        perceptual_hash: scrambled.to_le_bytes().to_vec(),
    }
}

#[test]
fn scenario_active_blocks_split_on_gap() {
    // S5: timestamps [0, 10, 20, 200, 210] with a 5-second capture interval
    // give two blocks: (0, 25, 25) and (200, 215, 15).
    let mut db = Database::open_in_memory().unwrap();
    for ts in [0i64, 10, 20, 200, 210] {
        db.insert_screenshot(&make_screenshot(ts)).unwrap();
    }
    let blocks = db.get_active_blocks(0, 1000, 5).unwrap();
    assert_eq!(blocks.len(), 2);
    assert_eq!(
        blocks[0],
        ActiveBlock { start_time: 0, end_time: 25, duration_secs: 25 }
    );
    assert_eq!(
        blocks[1],
        ActiveBlock { start_time: 200, end_time: 215, duration_secs: 15 }
    );
}

#[test]
fn active_blocks_duration_matches_span() {
    let mut db = Database::open_in_memory().unwrap();
    for ts in [100i64, 130, 160, 400, 900, 930] {
        db.insert_screenshot(&make_screenshot(ts)).unwrap();
    }
    let blocks = db.get_active_blocks(0, 10000, 7).unwrap();
    assert_eq!(blocks.len(), 3);
    for b in &blocks {
        assert_eq!(b.duration_secs, b.end_time - b.start_time);
    }
    // blocks are separated by gaps of more than 60 seconds
    let mut k = 1;
    while k < blocks.len() {
        assert!(blocks[k].start_time - (blocks[k - 1].end_time - 7) > 60);
        k += 1;
    }
}

#[test]
fn active_blocks_empty_range() {
    let db = Database::open_in_memory().unwrap();
    assert!(db.get_active_blocks(0, 1000, 5).unwrap().is_empty());
}

#[test]
fn pipeline_dedup_drops_identical_frames_in_window() {
    // an identical frame inside the 30-second window is not stored twice
    let mut db = Database::open_in_memory().unwrap();
    let mut ss = make_screenshot(1000);
    ss.perceptual_hash = vec![0xAB; 8];
    db.insert_screenshot(&ss).unwrap();
    let recent = db.get_recent_hashes(1000 - 30, 10).unwrap();
    assert!(!should_store_frame(&vec![0xAB; 8], &recent, 3));
    // a clearly different frame is stored
    assert!(should_store_frame(&vec![0x00; 8], &recent, 3));
}

#[test]
fn pipeline_metrics_count_saturating() {
    let mut m = PipelineMetrics::new();
    m.add_captured();
    m.add_captured();
    m.add_deduplicated();
    m.add_ocr_pending();
    m.sub_ocr_pending();
    m.sub_ocr_pending();
    m.add_indexed();
    assert_eq!(m.frames_captured, 2);
    assert_eq!(m.frames_deduplicated, 1);
    assert_eq!(m.frames_ocr_pending, 0);
    assert_eq!(m.frames_indexed, 1);
}

#[test]
fn ocr_stage_decisions() {
    let empty = rewindos::ocr::parse_tsv_output("header\n").unwrap();
    assert_eq!(ocr_action(&Ok(empty)), OcrAction::MarkDone);
    let good = rewindos::ocr::parse_tsv_output(
        "header\n5\t1\t1\t1\t1\t1\t0\t0\t5\t5\t90\tWord",
    )
    .unwrap();
    assert_eq!(ocr_action(&Ok(good)), OcrAction::ForwardToIndex);
    assert_eq!(
        ocr_action(&Err(rewindos::error::CoreError::Ocr("boom".to_string()))),
        OcrAction::MarkFailed
    );
    assert!(should_embed(true, &"some text".to_string()));
    assert!(!should_embed(true, &"   ".to_string()));
    assert!(!should_embed(false, &"some text".to_string()));
}

#[test]
fn service_pause_resume() {
    let mut svc = DaemonService::new(true);
    assert!(svc.is_capturing());
    assert!(svc.pause().is_ok());
    assert!(!svc.is_capturing());
    // pausing again fails
    assert!(svc.pause().is_err());
    assert!(svc.resume().is_ok());
    assert!(svc.is_capturing());
    assert!(svc.resume().is_err());
}

#[test]
fn service_effective_filters() {
    let defaults = effective_filters("find me", None);
    assert_eq!(defaults.query, "find me");
    assert_eq!(defaults.limit, 50);
    assert_eq!(defaults.offset, 0);
    assert!(defaults.start_time.is_none());

    let custom = rewindos::schema::SearchFilters {
        query: "ignored".to_string(),
        start_time: Some(5),
        end_time: Some(9),
        app_name: Some("code".to_string()),
        limit: 7,
        offset: 2,
    };
    let merged = effective_filters("real query", Some(custom));
    assert_eq!(merged.query, "real query");
    assert_eq!(merged.start_time, Some(5));
    assert_eq!(merged.limit, 7);
}

#[test]
fn service_status_projection() {
    let mut m = PipelineMetrics::new();
    m.add_captured();
    m.add_ocr_pending();
    let status = make_status(
        true,
        &m,
        360,
        1024,
        5,
        Some(1706137200),
        Some("portal".to_string()),
        Some("noop".to_string()),
        None,
        None,
    );
    assert!(status.is_capturing);
    assert_eq!(status.frames_captured_today, 1);
    assert_eq!(status.queue_depths.ocr, 1);
    assert_eq!(status.queue_depths.capture, 0);
    assert_eq!(status.uptime_seconds, 360);
    assert_eq!(status.capture_backend.as_deref(), Some("portal"));
}

#[test]
fn detect_decisions() {
    assert_eq!(
        detect_desktop_from(true, false, &None, false, false),
        DesktopEnvironment::Hyprland
    );
    assert_eq!(
        detect_desktop_from(false, false, &Some("KDE".to_string()), false, true),
        DesktopEnvironment::KdePlasma
    );
    assert_eq!(
        detect_desktop_from(false, false, &Some("ubuntu:GNOME".to_string()), false, true),
        DesktopEnvironment::Gnome
    );
    assert_eq!(
        detect_desktop_from(false, false, &None, true, false),
        DesktopEnvironment::X11
    );
    assert_eq!(
        detect_session_from(true, &None, false),
        SessionType::Wayland
    );
    assert_eq!(
        detect_session_from(false, &Some("x11".to_string()), false),
        SessionType::X11
    );
    assert_eq!(detect_session_from(false, &None, true), SessionType::X11);
}

#[test]
fn config_defaults() {
    let config = AppConfig::default();
    assert_eq!(config.capture.interval_seconds, 5);
    assert_eq!(config.capture.change_threshold, 3);
    assert!(config.capture.enabled);
    assert_eq!(config.storage.retention_days, 90);
    assert_eq!(config.storage.screenshot_quality, 80);
    assert_eq!(config.ocr.tesseract_lang, "eng");
    assert_eq!(config.ui.theme, "system");
    assert!(config
        .privacy
        .excluded_apps
        .contains(&"keepassxc".to_string()));
}

#[test]
fn ocr_status_string_roundtrip() {
    for st in [
        OcrStatus::Pending,
        OcrStatus::Processing,
        OcrStatus::Done,
        OcrStatus::Failed,
    ] {
        assert_eq!(OcrStatus::parse(st.as_str()), st);
    }
    assert_eq!(OcrStatus::parse("garbage"), OcrStatus::Pending);
}

#[test]
fn scenario_round_trip_s1_fields() {
    // P1 on concrete values: what goes in comes back unchanged, with both
    // statuses defaulted.
    let mut db = Database::open_in_memory().unwrap();
    let new = make_screenshot(1706137200);
    let id = db.insert_screenshot(&new).unwrap();
    let got = db.get_screenshot(id).unwrap().unwrap();
    assert_eq!(got.timestamp, new.timestamp);
    assert_eq!(got.timestamp_ms, new.timestamp_ms);
    assert_eq!(got.app_name, new.app_name);
    assert_eq!(got.file_path, new.file_path);
    assert_eq!(got.perceptual_hash, new.perceptual_hash);
    assert_eq!(got.ocr_status, rewindos::schema::OcrStatus::Pending);
    // the fresh row is pending embedding, too
    db.insert_ocr_text(id, "text", 1).unwrap();
    db.update_ocr_status(id, rewindos::schema::OcrStatus::Done).unwrap();
    assert_eq!(db.get_pending_embeddings(10).unwrap().len(), 1);
}
