//! Core library of a local desktop "time machine": a capture pipeline that
//! stores screenshots with OCR text, and the search/retrieval layer over them.
//!
//! The storage engine keeps its tables in memory; the surrounding process is
//! responsible for durability and for everything that touches the outside
//! world (compositors, subprocesses, the session bus).

pub mod capture;
pub mod chat;
pub mod config;
pub mod db;
pub mod detect;
pub mod error;
pub mod hasher;
pub mod ocr;
pub mod pipeline;
pub mod schema;
pub mod service;
pub mod text;
pub mod time;
pub mod window_info;

use vstd::prelude::*;

verus! {

/// Hamming-distance threshold under which two perceptual hashes are
/// considered the same scene.
pub const DEDUP_THRESHOLD: u32 = 5;

} // verus!
