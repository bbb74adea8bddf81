//! The decision core of the capture pipeline.
//!
//! Stages run as tasks in the surrounding process, joined by bounded
//! queues; the decisions each stage makes per frame — drop a near-duplicate,
//! pick the OCR outcome, forward text to embedding — live here, with the
//! shared metrics counters.

use vstd::prelude::*;
use crate::error::CoreError;
use crate::hasher;
use crate::ocr::TesseractOutput;
use crate::text;

verus! {

/// How far the dedup look-back window reaches, in seconds.
pub const DEDUP_WINDOW_SECS: i64 = 30;

/// How many recent hashes the dedup check consults.
pub const DEDUP_RECENT_LIMIT: usize = 10;

/// Counters shared between the pipeline stages and the status report.
/// Saturating so that a counter can never wrap.
#[derive(Debug, Clone, Copy, PartialEq, Eq, Structural)]
pub struct PipelineMetrics {
    pub frames_captured: u64,
    pub frames_deduplicated: u64,
    pub frames_ocr_pending: u64,
    pub frames_indexed: u64,
}

impl PipelineMetrics {
    /// All counters at zero.
    pub fn new() -> (r: PipelineMetrics)
        ensures
            r.frames_captured == 0,
            r.frames_deduplicated == 0,
            r.frames_ocr_pending == 0,
            r.frames_indexed == 0,
    {
        PipelineMetrics {
            frames_captured: 0,
            frames_deduplicated: 0,
            frames_ocr_pending: 0,
            frames_indexed: 0,
        }
    }

    /// One more frame captured.
    pub fn add_captured(&mut self)
        ensures
            final(self).frames_captured == sat_inc(old(self).frames_captured),
            final(self).frames_deduplicated == old(self).frames_deduplicated,
            final(self).frames_ocr_pending == old(self).frames_ocr_pending,
            final(self).frames_indexed == old(self).frames_indexed,
    {
        if self.frames_captured < u64::MAX {
            self.frames_captured = self.frames_captured + 1;
        }
    }

    /// One more frame dropped as a near-duplicate.
    pub fn add_deduplicated(&mut self)
        ensures
            final(self).frames_deduplicated == sat_inc(old(self).frames_deduplicated),
            final(self).frames_captured == old(self).frames_captured,
            final(self).frames_ocr_pending == old(self).frames_ocr_pending,
            final(self).frames_indexed == old(self).frames_indexed,
    {
        if self.frames_deduplicated < u64::MAX {
            self.frames_deduplicated = self.frames_deduplicated + 1;
        }
    }

    /// One more frame waiting for OCR.
    pub fn add_ocr_pending(&mut self)
        ensures
            final(self).frames_ocr_pending == sat_inc(old(self).frames_ocr_pending),
            final(self).frames_captured == old(self).frames_captured,
            final(self).frames_deduplicated == old(self).frames_deduplicated,
            final(self).frames_indexed == old(self).frames_indexed,
    {
        if self.frames_ocr_pending < u64::MAX {
            self.frames_ocr_pending = self.frames_ocr_pending + 1;
        }
    }

    /// One frame left the OCR queue (whatever its outcome).
    pub fn sub_ocr_pending(&mut self)
        ensures
            final(self).frames_ocr_pending == (if old(self).frames_ocr_pending > 0 {
                (old(self).frames_ocr_pending - 1) as u64
            } else {
                0u64
            }),
            final(self).frames_captured == old(self).frames_captured,
            final(self).frames_deduplicated == old(self).frames_deduplicated,
            final(self).frames_indexed == old(self).frames_indexed,
    {
        if self.frames_ocr_pending > 0 {
            self.frames_ocr_pending = self.frames_ocr_pending - 1;
        }
    }

    /// One more frame fully indexed.
    pub fn add_indexed(&mut self)
        ensures
            final(self).frames_indexed == sat_inc(old(self).frames_indexed),
            final(self).frames_captured == old(self).frames_captured,
            final(self).frames_deduplicated == old(self).frames_deduplicated,
            final(self).frames_ocr_pending == old(self).frames_ocr_pending,
    {
        if self.frames_indexed < u64::MAX {
            self.frames_indexed = self.frames_indexed + 1;
        }
    }
}

/// Saturating increment.
pub open spec fn sat_inc(x: u64) -> u64 {
    if x < u64::MAX {
        (x + 1) as u64
    } else {
        x
    }
}

/// The hash stage's dedup decision: store the frame only when no recent
/// hash lies within the change threshold.
pub fn should_store_frame(hash: &Vec<u8>, recent: &Vec<(i64, Vec<u8>)>, threshold: u32) -> (r:
    bool)
    ensures
        r == !(exists|i: int|
            0 <= i < recent@.len() && hasher::spec_hamming(hash@, (#[trigger] recent@[i]).1@)
                <= threshold),
{
    !hasher::PerceptualHasher::is_duplicate(hash.as_slice(), recent, threshold)
}

/// The start of the dedup look-back window for a capture at
/// `timestamp_secs`.
pub fn dedup_window_start(timestamp_secs: i64) -> (r: i64)
    requires
        i64::MIN + DEDUP_WINDOW_SECS <= timestamp_secs,
    ensures
        r == timestamp_secs - DEDUP_WINDOW_SECS,
{
    timestamp_secs - DEDUP_WINDOW_SECS
}

/// What the OCR stage does with a finished OCR attempt.
#[derive(Debug, Clone, Copy, PartialEq, Eq, Structural)]
pub enum OcrAction {
    ForwardToIndex,
    MarkDone,
    MarkFailed,
}

/// The OCR stage's decision: a failure marks the screenshot failed, empty
/// text marks it done and drops the message, and non-empty text goes on to
/// the index stage.
pub fn ocr_action(outcome: &Result<TesseractOutput, CoreError>) -> (r: OcrAction)
    ensures
        match outcome {
            Err(_) => r == OcrAction::MarkFailed,
            Ok(out) => if text::spec_trim(out.full_text@).len() == 0 {
                r == OcrAction::MarkDone
            } else {
                r == OcrAction::ForwardToIndex
            },
        },
{
    match outcome {
        Err(_) => OcrAction::MarkFailed,
        Ok(out) => {
            let chars = text::chars_of(out.full_text.as_str());
            let trimmed = text::trim_chars(&chars);
            if trimmed.len() == 0 {
                OcrAction::MarkDone
            } else {
                OcrAction::ForwardToIndex
            }
        },
    }
}

/// The index stage's decision: forward text to the embedding stage only
/// when semantic search is on and the text is not blank.
pub fn should_embed(semantic_enabled: bool, full_text: &String) -> (r: bool)
    ensures
        r == (semantic_enabled && text::spec_trim(full_text@).len() > 0),
{
    if !semantic_enabled {
        return false;
    }
    let chars = text::chars_of(full_text.as_str());
    let trimmed = text::trim_chars(&chars);
    trimmed.len() > 0
}

/// Pipeline non-duplication: when a frame's hash lies within the threshold
/// of a stored row in the look-back window, and the window holds no more
/// rows than the dedup check fetches, the recent-hash list is bound to
/// contain a close hash — so the store decision is negative and no second
/// row is written for that window.
pub proof fn lemma_window_dedup(
    rows: Seq<crate::schema::ScreenshotV>,
    ranked: Seq<crate::schema::ScreenshotV>,
    fetched: Seq<(i64, Vec<u8>)>,
    h: Seq<u8>,
    threshold: u32,
    since: i64,
    limit: usize,
)
    requires
        ranked.to_multiset() == rows.filter(
            |x: crate::schema::ScreenshotV| x.timestamp > since,
        ).to_multiset(),
        fetched.len() == (if limit <= ranked.len() {
            limit as int
        } else {
            ranked.len() as int
        }),
        forall|k: int|
            0 <= k < fetched.len() ==> (#[trigger] fetched[k]).0 == ranked[k].id && fetched[k].1@
                == ranked[k].perceptual_hash,
        rows.filter(|x: crate::schema::ScreenshotV| x.timestamp > since).len() <= limit,
        exists|i: int|
            0 <= i < rows.len() && (#[trigger] rows[i]).timestamp > since && hasher::spec_hamming(
                h,
                rows[i].perceptual_hash,
            ) <= threshold,
    ensures
        exists|k: int|
            0 <= k < fetched.len() && hasher::spec_hamming(h, (#[trigger] fetched[k]).1@)
                <= threshold,
{
    broadcast use vstd::seq_lib::group_to_multiset_ensures;

    let pr = |x: crate::schema::ScreenshotV| x.timestamp > since;
    let windowed = rows.filter(pr);
    let i = choose|i: int|
        0 <= i < rows.len() && (#[trigger] rows[i]).timestamp > since && hasher::spec_hamming(
            h,
            rows[i].perceptual_hash,
        ) <= threshold;
    rows.filter_lemma(pr);
    assert(windowed.contains(rows[i]));
    vstd::seq_lib::to_multiset_contains::<crate::schema::ScreenshotV>(windowed, rows[i]);
    vstd::seq_lib::to_multiset_contains::<crate::schema::ScreenshotV>(ranked, rows[i]);
    assert(ranked.contains(rows[i]));
    let k = choose|k: int| 0 <= k < ranked.len() && ranked[k] == rows[i];
    vstd::seq_lib::to_multiset_len::<crate::schema::ScreenshotV>(windowed);
    vstd::seq_lib::to_multiset_len::<crate::schema::ScreenshotV>(ranked);
    assert(ranked.len() == windowed.len());
    assert(ranked.len() <= limit);
    assert(fetched.len() == ranked.len());
    assert(fetched[k].1@ == ranked[k].perceptual_hash);
}

} // verus!
