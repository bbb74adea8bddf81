use rewindos::window_info::{is_excluded, non_empty, WindowInfo, WindowTracker};

fn make_info(app: &str, title: &str, class: &str) -> WindowInfo {
    WindowInfo {
        app_name: non_empty(app.to_string()),
        window_title: non_empty(title.to_string()),
        window_class: non_empty(class.to_string()),
    }
}

fn strings(items: &[&str]) -> Vec<String> {
    let mut v = Vec::new();
    for s in items {
        v.push(s.to_string());
    }
    v
}

#[test]
fn window_info_is_excluded_should_match_app_name() {
    let info = make_info("keepassxc", "KeePassXC - Passwords", "keepassxc");
    let excluded_apps = strings(&["keepassxc"]);
    assert!(is_excluded(&info, &excluded_apps, &Vec::new()));
}

#[test]
fn window_info_is_excluded_should_be_case_insensitive() {
    let info = make_info("KeePassXC", "Passwords", "KeePassXC");
    let excluded_apps = strings(&["keepassxc"]);
    assert!(is_excluded(&info, &excluded_apps, &Vec::new()));
}

#[test]
fn window_info_is_excluded_should_match_window_class() {
    let info = make_info("firefox", "Some Page", "bitwarden");
    let excluded_apps = strings(&["bitwarden"]);
    assert!(is_excluded(&info, &excluded_apps, &Vec::new()));
}

#[test]
fn window_info_is_excluded_should_match_title_pattern() {
    let info = make_info("firefox", "Gmail - Private Browsing", "Navigator");
    let patterns = strings(&["Private Browsing"]);
    assert!(is_excluded(&info, &Vec::new(), &patterns));
}

#[test]
fn window_info_is_excluded_should_match_title_pattern_case_insensitive() {
    let info = make_info("firefox", "Some Page - INCOGNITO", "Navigator");
    let patterns = strings(&["incognito"]);
    assert!(is_excluded(&info, &Vec::new(), &patterns));
}

#[test]
fn window_info_is_excluded_should_allow_non_excluded_apps() {
    let info = make_info("firefox", "GitHub - Pull Request", "Navigator");
    let excluded_apps = strings(&["keepassxc", "bitwarden"]);
    let patterns = strings(&["Private Browsing"]);
    assert!(!is_excluded(&info, &excluded_apps, &patterns));
}

#[test]
fn window_info_is_excluded_should_handle_empty_window_info() {
    let info = WindowInfo {
        app_name: None,
        window_title: None,
        window_class: None,
    };
    let excluded_apps = strings(&["keepassxc"]);
    assert!(!is_excluded(&info, &excluded_apps, &Vec::new()));
}

#[test]
fn mod_is_excluded_should_match_app_name() {
    let info = make_info("keepassxc", "KeePassXC - Passwords", "keepassxc");
    let excluded_apps = strings(&["keepassxc"]);
    assert!(is_excluded(&info, &excluded_apps, &Vec::new()));
}

#[test]
fn mod_is_excluded_should_be_case_insensitive() {
    let info = make_info("KeePassXC", "Passwords", "KeePassXC");
    let excluded_apps = strings(&["keepassxc"]);
    assert!(is_excluded(&info, &excluded_apps, &Vec::new()));
}

#[test]
fn mod_is_excluded_should_match_window_class() {
    let info = make_info("firefox", "Some Page", "bitwarden");
    let excluded_apps = strings(&["bitwarden"]);
    assert!(is_excluded(&info, &excluded_apps, &Vec::new()));
}

#[test]
fn mod_is_excluded_should_match_title_pattern() {
    let info = make_info("firefox", "Gmail - Private Browsing", "Navigator");
    let patterns = strings(&["Private Browsing"]);
    assert!(is_excluded(&info, &Vec::new(), &patterns));
}

#[test]
fn mod_is_excluded_should_match_title_pattern_case_insensitive() {
    let info = make_info("firefox", "Some Page - INCOGNITO", "Navigator");
    let patterns = strings(&["incognito"]);
    assert!(is_excluded(&info, &Vec::new(), &patterns));
}

#[test]
fn mod_is_excluded_should_allow_non_excluded_apps() {
    let info = make_info("firefox", "GitHub - Pull Request", "Navigator");
    let excluded_apps = strings(&["keepassxc", "bitwarden"]);
    let patterns = strings(&["Private Browsing"]);
    assert!(!is_excluded(&info, &excluded_apps, &patterns));
}

#[test]
fn mod_is_excluded_should_handle_empty_window_info() {
    let info = WindowInfo {
        app_name: None,
        window_title: None,
        window_class: None,
    };
    let excluded_apps = strings(&["keepassxc"]);
    assert!(!is_excluded(&info, &excluded_apps, &Vec::new()));
}

#[test]
fn window_tracker_update_and_current() {
    let mut tracker = WindowTracker::new();
    let empty = tracker.current();
    assert!(empty.app_name.is_none());
    tracker.update(
        "Editing main.rs".to_string(),
        "code".to_string(),
        "code".to_string(),
    );
    let cur = tracker.current();
    assert_eq!(cur.window_title, Some("Editing main.rs".to_string()));
    assert_eq!(cur.window_class, Some("code".to_string()));
    assert_eq!(cur.app_name, Some("code".to_string()));
    // empty strings mean the field is unknown
    tracker.update(String::new(), String::new(), "firefox".to_string());
    let cur = tracker.current();
    assert!(cur.window_title.is_none());
    assert!(cur.window_class.is_none());
    assert_eq!(cur.app_name, Some("firefox".to_string()));
}

#[test]
fn enrich_frame_attaches_metadata_or_drops() {
    let frame = rewindos::schema::RawFrame {
        pixels: vec![0u8; 16],
        width: 2,
        height: 2,
        timestamp: 1706137200000,
        app_name: None,
        window_title: None,
        window_class: None,
    };
    let info = make_info("keepassxc", "Passwords", "keepassxc");
    let excluded = strings(&["keepassxc"]);
    assert!(rewindos::capture::enrich_frame(frame.clone(), &info, &excluded, &Vec::new()).is_none());
    let ok_info = make_info("firefox", "Docs", "Navigator");
    let enriched =
        rewindos::capture::enrich_frame(frame, &ok_info, &excluded, &Vec::new()).unwrap();
    assert_eq!(enriched.app_name, Some("firefox".to_string()));
    assert_eq!(enriched.width, 2);
}
