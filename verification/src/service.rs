//! The control surface the daemon exposes over IPC: pause/resume state,
//! the default search filters, and the status projection. The transport
//! itself lives in the surrounding process.

use vstd::prelude::*;
use crate::error::CoreError;
use crate::schema::{DaemonStatus, QueueDepths, SearchFilters};

verus! {

/// The daemon's capture switch, as the IPC service sees it.
pub struct DaemonService {
    capturing: bool,
}

impl DaemonService {
    /// Whether capture currently runs.
    pub closed spec fn is_capturing_state(&self) -> bool {
        self.capturing
    }

    /// A service whose capture switch starts in the given position.
    pub fn new(capturing: bool) -> (r: DaemonService)
        ensures
            r.is_capturing_state() == capturing,
    {
        DaemonService { capturing }
    }

    /// Pause capture. Fails exactly when capture is already paused.
    pub fn pause(&mut self) -> (r: Result<(), CoreError>)
        ensures
            r is Ok <==> old(self).is_capturing_state(),
            !final(self).is_capturing_state(),
    {
        if !self.capturing {
            return Err(CoreError::Database(String::from_str("not capturing")));
        }
        self.capturing = false;
        Ok(())
    }

    /// Resume capture. Fails exactly when capture already runs.
    pub fn resume(&mut self) -> (r: Result<(), CoreError>)
        ensures
            r is Ok <==> !old(self).is_capturing_state(),
            final(self).is_capturing_state(),
    {
        if self.capturing {
            return Err(CoreError::Database(String::from_str("already capturing")));
        }
        self.capturing = true;
        Ok(())
    }

    /// Read the capture switch.
    pub fn is_capturing(&self) -> (r: bool)
        ensures
            r == self.is_capturing_state(),
    {
        self.capturing
    }
}

/// The filters a search request uses: the caller's filters when it sent
/// any, the defaults otherwise, with the query always taken from the
/// request's first argument.
pub fn effective_filters(query: &str, parsed: Option<SearchFilters>) -> (r: SearchFilters)
    ensures
        r.query@ == query@,
        match parsed {
            Some(f) => r.start_time == f.start_time && r.end_time == f.end_time
                && r.app_name.deep_view() == f.app_name.deep_view() && r.limit == f.limit
                && r.offset == f.offset,
            None => r.start_time is None && r.end_time is None && r.app_name is None && r.limit
                == 50 && r.offset == 0,
        },
{
    match parsed {
        Some(mut f) => {
            f.query = String::from_str(query);
            f
        },
        None => SearchFilters {
            query: String::from_str(query),
            start_time: None,
            end_time: None,
            app_name: None,
            limit: 50,
            offset: 0,
        },
    }
}

/// Project the daemon's state into the status record the IPC surface
/// serves: the metrics counters, uptime, disk usage, and environment
/// names; the OCR queue depth is the pending-OCR counter.
pub fn make_status(
    is_capturing: bool,
    metrics: &crate::pipeline::PipelineMetrics,
    uptime_seconds: u64,
    disk_usage_bytes: u64,
    capture_interval: u32,
    last_capture_timestamp: Option<i64>,
    capture_backend: Option<String>,
    window_info_provider: Option<String>,
    desktop: Option<String>,
    session: Option<String>,
) -> (r: DaemonStatus)
    ensures
        r.is_capturing == is_capturing,
        r.frames_captured_today == metrics.frames_captured,
        r.frames_deduplicated_today == metrics.frames_deduplicated,
        r.frames_ocr_pending == metrics.frames_ocr_pending,
        r.queue_depths == (QueueDepths {
            capture: 0u64,
            hash: 0u64,
            ocr: metrics.frames_ocr_pending,
            index: 0u64,
        }),
        r.uptime_seconds == uptime_seconds,
        r.disk_usage_bytes == disk_usage_bytes,
        r.capture_interval == capture_interval,
        r.last_capture_timestamp == last_capture_timestamp,
        r.capture_backend.deep_view() == capture_backend.deep_view(),
        r.window_info_provider.deep_view() == window_info_provider.deep_view(),
        r.desktop.deep_view() == desktop.deep_view(),
        r.session.deep_view() == session.deep_view(),
{
    DaemonStatus {
        is_capturing,
        frames_captured_today: metrics.frames_captured,
        frames_deduplicated_today: metrics.frames_deduplicated,
        frames_ocr_pending: metrics.frames_ocr_pending,
        queue_depths: QueueDepths {
            capture: 0,
            hash: 0,
            ocr: metrics.frames_ocr_pending,
            index: 0,
        },
        uptime_seconds,
        disk_usage_bytes,
        capture_interval,
        last_capture_timestamp,
        capture_backend,
        window_info_provider,
        desktop,
        session,
    }
}

} // verus!
