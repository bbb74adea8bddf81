//! Row types of the storage engine and the values exchanged by the pipeline
//! stages.
//!
//! Confidence values and percentages are carried as integer hundredths so
//! that the contracts can speak about them exactly.

use vstd::prelude::*;
use crate::text;

verus! {

// ---------------------------------------------------------------------------
// Database model types
// ---------------------------------------------------------------------------

/// A stored screenshot row.
#[derive(Debug, Clone)]
pub struct Screenshot {
    pub id: i64,
    pub timestamp: i64,
    pub timestamp_ms: i64,
    pub app_name: Option<String>,
    pub window_title: Option<String>,
    pub window_class: Option<String>,
    pub file_path: String,
    pub thumbnail_path: Option<String>,
    pub width: i32,
    pub height: i32,
    pub file_size_bytes: i64,
    pub perceptual_hash: Vec<u8>,
    pub ocr_status: OcrStatus,
    pub created_at: String,
}

/// The mathematical value of a screenshot row.
#[verifier::ext_equal]
pub ghost struct ScreenshotV {
    pub id: int,
    pub timestamp: int,
    pub timestamp_ms: int,
    pub app_name: Option<Seq<char>>,
    pub window_title: Option<Seq<char>>,
    pub window_class: Option<Seq<char>>,
    pub file_path: Seq<char>,
    pub thumbnail_path: Option<Seq<char>>,
    pub width: int,
    pub height: int,
    pub file_size_bytes: int,
    pub perceptual_hash: Seq<u8>,
    pub ocr_status: OcrStatus,
    pub created_at: Seq<char>,
}

impl View for Screenshot {
    type V = ScreenshotV;

    open spec fn view(&self) -> ScreenshotV {
        ScreenshotV {
            id: self.id as int,
            timestamp: self.timestamp as int,
            timestamp_ms: self.timestamp_ms as int,
            app_name: self.app_name.deep_view(),
            window_title: self.window_title.deep_view(),
            window_class: self.window_class.deep_view(),
            file_path: self.file_path@,
            thumbnail_path: self.thumbnail_path.deep_view(),
            width: self.width as int,
            height: self.height as int,
            file_size_bytes: self.file_size_bytes as int,
            perceptual_hash: self.perceptual_hash@,
            ocr_status: self.ocr_status,
            created_at: self.created_at@,
        }
    }
}

/// Fields needed to create a new screenshot record.
#[derive(Debug, Clone)]
pub struct NewScreenshot {
    pub timestamp: i64,
    pub timestamp_ms: i64,
    pub app_name: Option<String>,
    pub window_title: Option<String>,
    pub window_class: Option<String>,
    pub file_path: String,
    pub thumbnail_path: Option<String>,
    pub width: i32,
    pub height: i32,
    pub file_size_bytes: i64,
    pub perceptual_hash: Vec<u8>,
}

/// The mathematical value of an insert request.
#[verifier::ext_equal]
pub ghost struct NewScreenshotV {
    pub timestamp: int,
    pub timestamp_ms: int,
    pub app_name: Option<Seq<char>>,
    pub window_title: Option<Seq<char>>,
    pub window_class: Option<Seq<char>>,
    pub file_path: Seq<char>,
    pub thumbnail_path: Option<Seq<char>>,
    pub width: int,
    pub height: int,
    pub file_size_bytes: int,
    pub perceptual_hash: Seq<u8>,
}

impl View for NewScreenshot {
    type V = NewScreenshotV;

    open spec fn view(&self) -> NewScreenshotV {
        NewScreenshotV {
            timestamp: self.timestamp as int,
            timestamp_ms: self.timestamp_ms as int,
            app_name: self.app_name.deep_view(),
            window_title: self.window_title.deep_view(),
            window_class: self.window_class.deep_view(),
            file_path: self.file_path@,
            thumbnail_path: self.thumbnail_path.deep_view(),
            width: self.width as int,
            height: self.height as int,
            file_size_bytes: self.file_size_bytes as int,
            perceptual_hash: self.perceptual_hash@,
        }
    }
}

/// OCR text attached to a screenshot (at most one row per screenshot).
#[derive(Debug, Clone)]
pub struct OcrText {
    pub id: i64,
    pub screenshot_id: i64,
    pub text_content: String,
    pub word_count: i32,
}

/// The mathematical value of an OCR text row.
#[verifier::ext_equal]
pub ghost struct OcrTextV {
    pub id: int,
    pub screenshot_id: int,
    pub text_content: Seq<char>,
    pub word_count: int,
}

impl View for OcrText {
    type V = OcrTextV;

    open spec fn view(&self) -> OcrTextV {
        OcrTextV {
            id: self.id as int,
            screenshot_id: self.screenshot_id as int,
            text_content: self.text_content@,
            word_count: self.word_count as int,
        }
    }
}

/// A word-level bounding box from OCR. `confidence_hundredths` carries the
/// OCR confidence scaled by 100 (so 96.5% is 9650).
#[derive(Debug, Clone)]
pub struct BoundingBox {
    pub id: i64,
    pub screenshot_id: i64,
    pub text_content: String,
    pub x: i32,
    pub y: i32,
    pub width: i32,
    pub height: i32,
    pub confidence_hundredths: Option<i64>,
}

/// The mathematical value of a bounding box row.
#[verifier::ext_equal]
pub ghost struct BoundingBoxV {
    pub id: int,
    pub screenshot_id: int,
    pub text_content: Seq<char>,
    pub x: int,
    pub y: int,
    pub width: int,
    pub height: int,
    pub confidence_hundredths: Option<int>,
}

impl View for BoundingBox {
    type V = BoundingBoxV;

    open spec fn view(&self) -> BoundingBoxV {
        BoundingBoxV {
            id: self.id as int,
            screenshot_id: self.screenshot_id as int,
            text_content: self.text_content@,
            x: self.x as int,
            y: self.y as int,
            width: self.width as int,
            height: self.height as int,
            confidence_hundredths: match self.confidence_hundredths {
                Some(c) => Some(c as int),
                None => None,
            },
        }
    }
}

/// Bounding box insert DTO (no id).
#[derive(Debug, Clone)]
pub struct NewBoundingBox {
    pub text_content: String,
    pub x: i32,
    pub y: i32,
    pub width: i32,
    pub height: i32,
    pub confidence_hundredths: Option<i64>,
}

/// The mathematical value of a bounding box insert request.
#[verifier::ext_equal]
pub ghost struct NewBoundingBoxV {
    pub text_content: Seq<char>,
    pub x: int,
    pub y: int,
    pub width: int,
    pub height: int,
    pub confidence_hundredths: Option<int>,
}

impl View for NewBoundingBox {
    type V = NewBoundingBoxV;

    open spec fn view(&self) -> NewBoundingBoxV {
        NewBoundingBoxV {
            text_content: self.text_content@,
            x: self.x as int,
            y: self.y as int,
            width: self.width as int,
            height: self.height as int,
            confidence_hundredths: match self.confidence_hundredths {
                Some(c) => Some(c as int),
                None => None,
            },
        }
    }
}

// ---------------------------------------------------------------------------
// Search types
// ---------------------------------------------------------------------------

/// One search hit. `rank` is the position of the hit in the engine's ranking
/// (0 is best). A representative of a collapsed scene group carries the
/// group size and the ids of its members.
#[derive(Debug, Clone)]
pub struct SearchResult {
    pub id: i64,
    pub timestamp: i64,
    pub app_name: Option<String>,
    pub window_title: Option<String>,
    pub thumbnail_path: Option<String>,
    pub file_path: String,
    pub matched_text: String,
    pub rank: i64,
    pub group_count: Option<i64>,
    pub group_screenshot_ids: Option<Vec<i64>>,
}

/// The mathematical value of a search hit.
#[verifier::ext_equal]
pub ghost struct SearchResultV {
    pub id: int,
    pub timestamp: int,
    pub app_name: Option<Seq<char>>,
    pub window_title: Option<Seq<char>>,
    pub thumbnail_path: Option<Seq<char>>,
    pub file_path: Seq<char>,
    pub matched_text: Seq<char>,
    pub rank: int,
    pub group_count: Option<int>,
    pub group_screenshot_ids: Option<Seq<int>>,
}

impl View for SearchResult {
    type V = SearchResultV;

    open spec fn view(&self) -> SearchResultV {
        SearchResultV {
            id: self.id as int,
            timestamp: self.timestamp as int,
            app_name: self.app_name.deep_view(),
            window_title: self.window_title.deep_view(),
            thumbnail_path: self.thumbnail_path.deep_view(),
            file_path: self.file_path@,
            matched_text: self.matched_text@,
            rank: self.rank as int,
            group_count: match self.group_count {
                Some(c) => Some(c as int),
                None => None,
            },
            group_screenshot_ids: match &self.group_screenshot_ids {
                Some(ids) => Some(ids@.map(|i: int, x: i64| x as int)),
                None => None,
            },
        }
    }
}

#[derive(Debug, Clone)]
pub struct SearchFilters {
    pub query: String,
    pub start_time: Option<i64>,
    pub end_time: Option<i64>,
    pub app_name: Option<String>,
    pub limit: i64,
    pub offset: i64,
}

#[derive(Debug, Clone)]
pub struct SearchResponse {
    pub results: Vec<SearchResult>,
    pub total_count: i64,
    pub search_mode: Option<String>,
}

// ---------------------------------------------------------------------------
// Daemon status
// ---------------------------------------------------------------------------

#[derive(Debug, Clone)]
pub struct DaemonStatus {
    pub is_capturing: bool,
    pub frames_captured_today: u64,
    pub frames_deduplicated_today: u64,
    pub frames_ocr_pending: u64,
    pub queue_depths: QueueDepths,
    pub uptime_seconds: u64,
    pub disk_usage_bytes: u64,
    pub capture_interval: u32,
    pub last_capture_timestamp: Option<i64>,
    pub capture_backend: Option<String>,
    pub window_info_provider: Option<String>,
    pub desktop: Option<String>,
    pub session: Option<String>,
}

#[derive(Debug, Clone, Copy, PartialEq, Eq, Structural)]
pub struct QueueDepths {
    pub capture: u64,
    pub hash: u64,
    pub ocr: u64,
    pub index: u64,
}

// ---------------------------------------------------------------------------
// OCR status
// ---------------------------------------------------------------------------

/// Lifecycle of OCR for one screenshot. Moves forward only:
/// pending, then processing, then done or failed.
#[derive(Debug, Clone, Copy, PartialEq, Eq, Structural)]
pub enum OcrStatus {
    Pending,
    Processing,
    Done,
    Failed,
}

impl OcrStatus {
    /// The stored string form of a status.
    pub open spec fn spec_str(self) -> Seq<char> {
        match self {
            OcrStatus::Pending => "pending"@,
            OcrStatus::Processing => "processing"@,
            OcrStatus::Done => "done"@,
            OcrStatus::Failed => "failed"@,
        }
    }

    /// The status a stored string denotes; anything unknown reads as pending.
    pub open spec fn spec_parse(s: Seq<char>) -> OcrStatus {
        if s == "processing"@ {
            OcrStatus::Processing
        } else if s == "done"@ {
            OcrStatus::Done
        } else if s == "failed"@ {
            OcrStatus::Failed
        } else {
            OcrStatus::Pending
        }
    }

    pub fn as_str(&self) -> (r: &'static str)
        ensures
            r@ == self.spec_str(),
    {
        match self {
            OcrStatus::Pending => "pending",
            OcrStatus::Processing => "processing",
            OcrStatus::Done => "done",
            OcrStatus::Failed => "failed",
        }
    }

    pub fn parse(s: &str) -> (r: Self)
        ensures
            r == Self::spec_parse(s@),
    {
        if text::str_eq(s, "processing") {
            OcrStatus::Processing
        } else if text::str_eq(s, "done") {
            OcrStatus::Done
        } else if text::str_eq(s, "failed") {
            OcrStatus::Failed
        } else {
            OcrStatus::Pending
        }
    }
}

/// Parsing the stored form of a status gives the status back.
pub proof fn lemma_status_roundtrip(st: OcrStatus)
    ensures
        OcrStatus::spec_parse(st.spec_str()) == st,
{
    reveal_strlit("pending");
    reveal_strlit("processing");
    reveal_strlit("done");
    reveal_strlit("failed");
    assert("pending"@.len() == 7);
    assert("processing"@.len() == 10);
    assert("done"@.len() == 4);
    assert("failed"@.len() == 6);
}

// ---------------------------------------------------------------------------
// Activity / analytics types
// ---------------------------------------------------------------------------

/// Per-app share of captures in a window. `percentage_hundredths` is the
/// share of all attributed captures, in hundredths of a percent.
#[derive(Debug, Clone)]
pub struct AppUsageStat {
    pub app_name: String,
    pub screenshot_count: i64,
    pub percentage_hundredths: i64,
}

#[derive(Debug, Clone)]
pub struct DailyActivity {
    pub date: String,
    pub screenshot_count: i64,
    pub unique_apps: i64,
}

#[derive(Debug, Clone, Copy, PartialEq, Eq, Structural)]
pub struct HourlyActivity {
    pub hour: i32,
    pub screenshot_count: i64,
}

#[derive(Debug, Clone)]
pub struct ActivityResponse {
    pub app_usage: Vec<AppUsageStat>,
    pub daily_activity: Vec<DailyActivity>,
    pub hourly_activity: Vec<HourlyActivity>,
    pub total_screenshots: i64,
    pub total_apps: i64,
}

#[derive(Debug, Clone)]
pub struct TaskUsageStat {
    pub app_name: String,
    pub window_title: Option<String>,
    pub screenshot_count: i64,
    pub estimated_seconds: i64,
}

/// A run of captures with no gap longer than the threshold.
#[derive(Debug, Clone, Copy, PartialEq, Eq, Structural)]
pub struct ActiveBlock {
    pub start_time: i64,
    pub end_time: i64,
    pub duration_secs: i64,
}

// ---------------------------------------------------------------------------
// Pipeline types
// ---------------------------------------------------------------------------

/// A captured frame as handed out by a capture backend, enriched with window
/// metadata by the capture manager.
#[derive(Debug, Clone)]
pub struct RawFrame {
    pub pixels: Vec<u8>,
    pub width: u32,
    pub height: u32,
    pub timestamp: i64,
    pub app_name: Option<String>,
    pub window_title: Option<String>,
    pub window_class: Option<String>,
}

/// A frame that survived dedup and was persisted.
#[derive(Debug, Clone)]
pub struct ProcessedFrame {
    pub screenshot_id: i64,
    pub file_path: String,
    pub thumbnail_path: String,
    pub timestamp: i64,
}

#[derive(Debug, Clone)]
pub struct OcrResult {
    pub screenshot_id: i64,
    pub full_text: String,
    pub bounding_boxes: Vec<NewBoundingBox>,
}

#[derive(Debug, Clone)]
pub struct EmbedRequest {
    pub screenshot_id: i64,
    pub text: String,
}

// ---------------------------------------------------------------------------
// Daily summary cache
// ---------------------------------------------------------------------------

#[derive(Debug, Clone)]
pub struct CachedDailySummary {
    pub date_key: String,
    pub summary_text: Option<String>,
    pub app_breakdown: String,
    pub total_sessions: i64,
    pub time_range: String,
    pub model_name: Option<String>,
    pub generated_at: String,
    pub screenshot_count: i64,
}

// ---------------------------------------------------------------------------
// Copy helpers with known contracts
// ---------------------------------------------------------------------------

/// A copy of an optional string, equal to the original.
pub fn clone_opt_string(o: &Option<String>) -> (r: Option<String>)
    ensures
        r == *o,
{
    match o {
        Some(s) => Some(s.clone()),
        None => None,
    }
}

/// A copy of a byte vector, equal to the original.
pub fn copy_bytes(v: &Vec<u8>) -> (r: Vec<u8>)
    ensures
        r@ == v@,
{
    let mut r: Vec<u8> = Vec::new();
    let mut i: usize = 0;
    while i < v.len()
        invariant
            i <= v.len(),
            r@ == v@.subrange(0, i as int),
        decreases v.len() - i,
    {
        r.push(v[i]);
        i = i + 1;
        proof {
            assert(r@ =~= v@.subrange(0, i as int));
        }
    }
    proof {
        assert(v@.subrange(0, v@.len() as int) =~= v@);
    }
    r
}

/// A copy of an id vector, equal to the original.
pub fn copy_ids(v: &Vec<i64>) -> (r: Vec<i64>)
    ensures
        r@ == v@,
{
    let mut r: Vec<i64> = Vec::new();
    let mut i: usize = 0;
    while i < v.len()
        invariant
            i <= v.len(),
            r@ == v@.subrange(0, i as int),
        decreases v.len() - i,
    {
        r.push(v[i]);
        i = i + 1;
        proof {
            assert(r@ =~= v@.subrange(0, i as int));
        }
    }
    proof {
        assert(v@.subrange(0, v@.len() as int) =~= v@);
    }
    r
}

impl Screenshot {
    /// A copy of the row, equal to the original.
    pub fn duplicate(&self) -> (r: Screenshot)
        ensures
            r@ == self@,
    {
        Screenshot {
            id: self.id,
            timestamp: self.timestamp,
            timestamp_ms: self.timestamp_ms,
            app_name: clone_opt_string(&self.app_name),
            window_title: clone_opt_string(&self.window_title),
            window_class: clone_opt_string(&self.window_class),
            file_path: self.file_path.clone(),
            thumbnail_path: clone_opt_string(&self.thumbnail_path),
            width: self.width,
            height: self.height,
            file_size_bytes: self.file_size_bytes,
            perceptual_hash: copy_bytes(&self.perceptual_hash),
            ocr_status: self.ocr_status,
            created_at: self.created_at.clone(),
        }
    }
}

impl SearchResult {
    /// A copy of the result, equal to the original.
    pub fn duplicate(&self) -> (r: SearchResult)
        ensures
            r@ == self@,
    {
        SearchResult {
            id: self.id,
            timestamp: self.timestamp,
            app_name: clone_opt_string(&self.app_name),
            window_title: clone_opt_string(&self.window_title),
            thumbnail_path: clone_opt_string(&self.thumbnail_path),
            file_path: self.file_path.clone(),
            matched_text: self.matched_text.clone(),
            rank: self.rank,
            group_count: self.group_count,
            group_screenshot_ids: match &self.group_screenshot_ids {
                Some(ids) => Some(copy_ids(ids)),
                None => None,
            },
        }
    }
}

impl BoundingBox {
    /// A copy of the row, equal to the original.
    pub fn duplicate(&self) -> (r: BoundingBox)
        ensures
            r@ == self@,
    {
        BoundingBox {
            id: self.id,
            screenshot_id: self.screenshot_id,
            text_content: self.text_content.clone(),
            x: self.x,
            y: self.y,
            width: self.width,
            height: self.height,
            confidence_hundredths: self.confidence_hundredths,
        }
    }
}

} // verus!
