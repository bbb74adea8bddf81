//! The capture boundary: the backend contract, capture errors, and the
//! frame-enrichment decision the capture manager makes for every frame.
//!
//! Concrete backends talk to a compositor or a portal and live outside the
//! library; they hand frames in as plain pixel buffers.

use vstd::prelude::*;
use crate::schema::RawFrame;
use crate::window_info;
use crate::window_info::WindowInfo;

verus! {

/// Why a capture failed.
#[derive(Debug, Clone)]
pub enum CaptureError {
    Unavailable(String),
    Backend(String),
    Io(String),
}

impl CaptureError {
    /// The message carried by the error.
    pub fn message(&self) -> (r: &String)
        ensures
            r@ == self.spec_message(),
    {
        match self {
            CaptureError::Unavailable(m) => m,
            CaptureError::Backend(m) => m,
            CaptureError::Io(m) => m,
        }
    }

    pub open spec fn spec_message(&self) -> Seq<char> {
        match self {
            CaptureError::Unavailable(m) => m@,
            CaptureError::Backend(m) => m@,
            CaptureError::Io(m) => m@,
        }
    }
}

/// Contract for screen capture backends, implemented by the surrounding
/// process (one per compositor protocol).
pub trait CaptureBackend {
    /// Human-readable name for logging.
    fn name(&self) -> &'static str;

    /// Verify availability and set up resources.
    fn initialize(&mut self) -> Result<(), CaptureError>;

    /// Capture a single frame of raw RGBA pixels.
    fn capture_frame(&mut self) -> Result<RawFrame, CaptureError>;

    /// Release resources.
    fn shutdown(&mut self) -> Result<(), CaptureError>;
}

/// The capture manager's per-frame decision: attach the active window's
/// metadata, or drop the frame when the window is excluded by the privacy
/// rules. The pixels always pass through unchanged.
pub fn enrich_frame(
    frame: RawFrame,
    window: &WindowInfo,
    excluded_apps: &Vec<String>,
    excluded_title_patterns: &Vec<String>,
) -> (r: Option<RawFrame>)
    ensures
        window_info::spec_excluded(
            window@,
            window_info::str_views(excluded_apps@),
            window_info::str_views(excluded_title_patterns@),
        ) <==> r is None,
        r matches Some(f) ==> {
            &&& f.pixels@ == frame.pixels@
            &&& f.width == frame.width
            &&& f.height == frame.height
            &&& f.timestamp == frame.timestamp
            &&& f.app_name.deep_view() == window@.app_name
            &&& f.window_title.deep_view() == window@.window_title
            &&& f.window_class.deep_view() == window@.window_class
        },
{
    if window_info::is_excluded(window, excluded_apps, excluded_title_patterns) {
        return None;
    }
    let mut f = frame;
    f.app_name = crate::schema::clone_opt_string(&window.app_name);
    f.window_title = crate::schema::clone_opt_string(&window.window_title);
    f.window_class = crate::schema::clone_opt_string(&window.window_class);
    Some(f)
}

} // verus!
