//! Configuration sections and their defaults. Reading and writing the
//! configuration file is the surrounding process's job; the library owns
//! the shape and the default values.

use vstd::prelude::*;

verus! {

#[derive(Debug, Clone)]
pub struct CaptureConfig {
    pub interval_seconds: u32,
    pub change_threshold: u32,
    pub enabled: bool,
}

impl Default for CaptureConfig {
    fn default() -> (r: CaptureConfig)
        ensures
            r.interval_seconds == 5,
            r.change_threshold == 3,
            r.enabled,
    {
        CaptureConfig { interval_seconds: 5, change_threshold: 3, enabled: true }
    }
}

#[derive(Debug, Clone)]
pub struct StorageConfig {
    pub base_dir: String,
    pub retention_days: u32,
    pub screenshot_quality: u8,
    pub thumbnail_width: u32,
}

impl Default for StorageConfig {
    fn default() -> (r: StorageConfig)
        ensures
            r.base_dir@ == "~/.rewindos"@,
            r.retention_days == 90,
            r.screenshot_quality == 80,
            r.thumbnail_width == 320,
    {
        StorageConfig {
            base_dir: String::from_str("~/.rewindos"),
            retention_days: 90,
            screenshot_quality: 80,
            thumbnail_width: 320,
        }
    }
}

#[derive(Debug, Clone)]
pub struct PrivacyConfig {
    pub excluded_apps: Vec<String>,
    pub excluded_title_patterns: Vec<String>,
}

impl Default for PrivacyConfig {
    fn default() -> (r: PrivacyConfig)
        ensures
            crate::window_info::str_views(r.excluded_apps@) =~= seq![
                "rewindos"@,
                "keepassxc"@,
                "1password"@,
                "bitwarden"@,
                "gnome-keyring"@,
            ],
            crate::window_info::str_views(r.excluded_title_patterns@) =~= seq![
                "Private Browsing"@,
                "Incognito"@,
                "Lock Screen"@,
                "Screen Locker"@,
            ],
    {
        let mut apps: Vec<String> = Vec::new();
        apps.push(String::from_str("rewindos"));
        apps.push(String::from_str("keepassxc"));
        apps.push(String::from_str("1password"));
        apps.push(String::from_str("bitwarden"));
        apps.push(String::from_str("gnome-keyring"));
        let mut patterns: Vec<String> = Vec::new();
        patterns.push(String::from_str("Private Browsing"));
        patterns.push(String::from_str("Incognito"));
        patterns.push(String::from_str("Lock Screen"));
        patterns.push(String::from_str("Screen Locker"));
        PrivacyConfig { excluded_apps: apps, excluded_title_patterns: patterns }
    }
}

#[derive(Debug, Clone)]
pub struct OcrConfig {
    pub enabled: bool,
    pub tesseract_lang: String,
    pub max_workers: u32,
}

impl Default for OcrConfig {
    fn default() -> (r: OcrConfig)
        ensures
            r.enabled,
            r.tesseract_lang@ == "eng"@,
            r.max_workers == 2,
    {
        OcrConfig { enabled: true, tesseract_lang: String::from_str("eng"), max_workers: 2 }
    }
}

#[derive(Debug, Clone)]
pub struct UiConfig {
    pub global_hotkey: String,
    pub theme: String,
}

impl Default for UiConfig {
    fn default() -> (r: UiConfig)
        ensures
            r.global_hotkey@ == "Ctrl+Shift+Space"@,
            r.theme@ == "system"@,
    {
        UiConfig {
            global_hotkey: String::from_str("Ctrl+Shift+Space"),
            theme: String::from_str("system"),
        }
    }
}

#[derive(Debug, Clone)]
pub struct SemanticConfig {
    pub enabled: bool,
    pub ollama_url: String,
    pub model: String,
    pub embedding_dimensions: usize,
}

impl Default for SemanticConfig {
    fn default() -> (r: SemanticConfig)
        ensures
            !r.enabled,
            r.ollama_url@ == "http://localhost:11434"@,
            r.model@ == "nomic-embed-text"@,
            r.embedding_dimensions == 768,
    {
        SemanticConfig {
            enabled: false,
            ollama_url: String::from_str("http://localhost:11434"),
            model: String::from_str("nomic-embed-text"),
            embedding_dimensions: 768,
        }
    }
}

/// Chat settings. The model temperature is carried in thousandths so the
/// configuration stays within integer arithmetic.
#[derive(Debug, Clone)]
pub struct ChatConfig {
    pub enabled: bool,
    pub ollama_url: String,
    pub model: String,
    pub max_context_tokens: usize,
    pub max_history_messages: usize,
    pub temperature_milli: u32,
}

impl Default for ChatConfig {
    fn default() -> (r: ChatConfig)
        ensures
            r.enabled,
            r.ollama_url@ == "http://localhost:11434"@,
            r.model@ == "qwen2.5:3b"@,
            r.max_context_tokens == 4096,
            r.max_history_messages == 20,
            r.temperature_milli == 300,
    {
        ChatConfig {
            enabled: true,
            ollama_url: String::from_str("http://localhost:11434"),
            model: String::from_str("qwen2.5:3b"),
            max_context_tokens: 4096,
            max_history_messages: 20,
            temperature_milli: 300,
        }
    }
}

/// Focus-timer settings. Category rules pair a category name with the app
/// keywords that fall under it.
#[derive(Debug, Clone)]
pub struct FocusConfig {
    pub work_minutes: u32,
    pub short_break_minutes: u32,
    pub long_break_minutes: u32,
    pub sessions_before_long_break: u32,
    pub daily_goal_minutes: u32,
    pub distraction_apps: Vec<String>,
    pub auto_start_breaks: bool,
    pub auto_start_work: bool,
    pub category_rules: Vec<(String, Vec<String>)>,
}

impl Default for FocusConfig {
    fn default() -> (r: FocusConfig)
        ensures
            r.work_minutes == 25,
            r.short_break_minutes == 5,
            r.long_break_minutes == 15,
            r.sessions_before_long_break == 4,
            r.daily_goal_minutes == 480,
            crate::window_info::str_views(r.distraction_apps@) =~= seq![
                "discord"@,
                "slack"@,
                "twitter"@,
                "reddit"@,
            ],
            r.auto_start_breaks,
            !r.auto_start_work,
            r.category_rules@.len() == 0,
    {
        let mut distraction: Vec<String> = Vec::new();
        distraction.push(String::from_str("discord"));
        distraction.push(String::from_str("slack"));
        distraction.push(String::from_str("twitter"));
        distraction.push(String::from_str("reddit"));
        FocusConfig {
            work_minutes: 25,
            short_break_minutes: 5,
            long_break_minutes: 15,
            sessions_before_long_break: 4,
            daily_goal_minutes: 480,
            distraction_apps: distraction,
            auto_start_breaks: true,
            auto_start_work: false,
            category_rules: Vec::new(),
        }
    }
}

/// The whole configuration, one section per subsystem.
#[derive(Debug, Clone)]
pub struct AppConfig {
    pub capture: CaptureConfig,
    pub storage: StorageConfig,
    pub privacy: PrivacyConfig,
    pub ocr: OcrConfig,
    pub ui: UiConfig,
    pub semantic: SemanticConfig,
    pub chat: ChatConfig,
    pub focus: FocusConfig,
}

impl Default for AppConfig {
    fn default() -> (r: AppConfig)
        ensures
            r.capture.interval_seconds == 5,
            r.capture.change_threshold == 3,
            r.capture.enabled,
            r.storage.retention_days == 90,
            r.storage.screenshot_quality == 80,
            r.storage.thumbnail_width == 320,
            r.ocr.enabled,
            r.ocr.tesseract_lang@ == "eng"@,
            r.ui.theme@ == "system"@,
    {
        AppConfig {
            capture: CaptureConfig::default(),
            storage: StorageConfig::default(),
            privacy: PrivacyConfig::default(),
            ocr: OcrConfig::default(),
            ui: UiConfig::default(),
            semantic: SemanticConfig::default(),
            chat: ChatConfig::default(),
            focus: FocusConfig::default(),
        }
    }
}

} // verus!
