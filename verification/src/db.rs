//! The storage engine: screenshots, their OCR text with a full-text shadow
//! index, bounding boxes, embeddings, a small key-value store, and cached
//! daily summaries.
//!
//! Tables live in memory. Every operation's effect on the tables is stated
//! in its contract over the mathematical model (`rows`, `ocr`, `fts`, ...).
//! The full-text shadow is updated in the same call as the OCR table, so
//! the two can never disagree; the well-formedness invariant says so.

use vstd::prelude::*;
use crate::error::CoreError;
use crate::schema::{
    NewScreenshot, NewScreenshotV, OcrStatus, OcrText, OcrTextV, Screenshot, ScreenshotV,
};
use crate::schema::{BoundingBox, BoundingBoxV, CachedDailySummary, NewBoundingBox, SearchResult};
use crate::schema::{SearchFilters, SearchResponse};
use vstd::multiset::Multiset;
use crate::text;
use crate::time;

verus! {

/// A row of the full-text shadow index.
#[derive(Debug, Clone)]
pub struct FtsRow {
    pub screenshot_id: i64,
    pub text_content: String,
}

/// The mathematical value of a shadow-index row.
#[verifier::ext_equal]
pub ghost struct FtsRowV {
    pub screenshot_id: int,
    pub text_content: Seq<char>,
}

impl View for FtsRow {
    type V = FtsRowV;

    open spec fn view(&self) -> FtsRowV {
        FtsRowV { screenshot_id: self.screenshot_id as int, text_content: self.text_content@ }
    }
}

/// An embedding row: the vector is an opaque little-endian byte blob.
#[derive(Debug, Clone)]
pub struct EmbeddingRow {
    pub screenshot_id: i64,
    pub vector: Vec<u8>,
}

/// The mathematical value of an embedding row.
#[verifier::ext_equal]
pub ghost struct EmbeddingRowV {
    pub screenshot_id: int,
    pub vector: Seq<u8>,
}

impl View for EmbeddingRow {
    type V = EmbeddingRowV;

    open spec fn view(&self) -> EmbeddingRowV {
        EmbeddingRowV { screenshot_id: self.screenshot_id as int, vector: self.vector@ }
    }
}

/// A daemon-state key-value row.
#[derive(Debug, Clone)]
pub struct StateRow {
    pub key: String,
    pub value: String,
}

/// The mathematical value of a key-value row.
#[verifier::ext_equal]
pub ghost struct StateRowV {
    pub key: Seq<char>,
    pub value: Seq<char>,
}

impl View for StateRow {
    type V = StateRowV;

    open spec fn view(&self) -> StateRowV {
        StateRowV { key: self.key@, value: self.value@ }
    }
}

/// The mathematical value of a cached daily summary.
#[verifier::ext_equal]
pub ghost struct SummaryV {
    pub date_key: Seq<char>,
    pub summary_text: Option<Seq<char>>,
    pub app_breakdown: Seq<char>,
    pub total_sessions: int,
    pub time_range: Seq<char>,
    pub model_name: Option<Seq<char>>,
    pub generated_at: Seq<char>,
    pub screenshot_count: int,
}

impl View for CachedDailySummary {
    type V = SummaryV;

    open spec fn view(&self) -> SummaryV {
        SummaryV {
            date_key: self.date_key@,
            summary_text: self.summary_text.deep_view(),
            app_breakdown: self.app_breakdown@,
            total_sessions: self.total_sessions as int,
            time_range: self.time_range@,
            model_name: self.model_name.deep_view(),
            generated_at: self.generated_at@,
            screenshot_count: self.screenshot_count as int,
        }
    }
}

// ---------------------------------------------------------------------------
// Model helpers
// ---------------------------------------------------------------------------

/// Views of a sequence of screenshot rows.
pub open spec fn row_views(s: Seq<Screenshot>) -> Seq<ScreenshotV> {
    s.map(|i: int, x: Screenshot| x@)
}

/// Views of a sequence of OCR rows.
pub open spec fn ocr_views(s: Seq<OcrText>) -> Seq<OcrTextV> {
    s.map(|i: int, x: OcrText| x@)
}

/// Views of a sequence of bounding-box rows.
pub open spec fn box_views(s: Seq<BoundingBox>) -> Seq<BoundingBoxV> {
    s.map(|i: int, x: BoundingBox| x@)
}

/// Some row carries this id.
pub open spec fn has_id(rows: Seq<ScreenshotV>, id: int) -> bool {
    exists|i: int| 0 <= i < rows.len() && (#[trigger] rows[i]).id == id
}

/// The index of the row with this id (meaningful only when `has_id`).
pub open spec fn idx_of(rows: Seq<ScreenshotV>, id: int) -> int {
    choose|i: int| 0 <= i < rows.len() && (#[trigger] rows[i]).id == id
}

/// Some OCR row is attached to this screenshot id.
pub open spec fn has_ocr(ocr: Seq<OcrTextV>, screenshot_id: int) -> bool {
    exists|i: int| 0 <= i < ocr.len() && (#[trigger] ocr[i]).screenshot_id == screenshot_id
}

/// Some embedding is attached to this screenshot id.
pub open spec fn has_embedding(e: Seq<EmbeddingRowV>, screenshot_id: int) -> bool {
    exists|i: int| 0 <= i < e.len() && (#[trigger] e[i]).screenshot_id == screenshot_id
}

/// The stored row a successful insert produces.
pub open spec fn row_of(n: NewScreenshotV, id: int, created_at: Seq<char>) -> ScreenshotV {
    ScreenshotV {
        id: id,
        timestamp: n.timestamp,
        timestamp_ms: n.timestamp_ms,
        app_name: n.app_name,
        window_title: n.window_title,
        window_class: n.window_class,
        file_path: n.file_path,
        thumbnail_path: n.thumbnail_path,
        width: n.width,
        height: n.height,
        file_size_bytes: n.file_size_bytes,
        perceptual_hash: n.perceptual_hash,
        ocr_status: OcrStatus::Pending,
        created_at: created_at,
    }
}

/// What the engine demands of an insert request: timestamps in the range the
/// calendar formatter accepts, and an eight-byte perceptual hash.
pub open spec fn valid_new(n: NewScreenshotV) -> bool {
    &&& 0 <= n.timestamp <= time::MAX_TIMESTAMP
    &&& 0 <= n.timestamp_ms <= 1000 * time::MAX_TIMESTAMP as int + 999
    &&& n.perceptual_hash.len() == 8
}

// ---------------------------------------------------------------------------
// The engine
// ---------------------------------------------------------------------------

/// The storage engine. All tables are private; contracts speak through the
/// model functions `rows`, `ocr`, `fts`, `boxes`, `embeddings`, `state` and
/// `summaries`.
pub struct Database {
    screenshots: Vec<Screenshot>,
    ocr_texts: Vec<OcrText>,
    fts_rows: Vec<FtsRow>,
    box_rows: Vec<BoundingBox>,
    embedding_rows: Vec<EmbeddingRow>,
    state_rows: Vec<StateRow>,
    summary_rows: Vec<CachedDailySummary>,
    next_id: i64,
    next_ocr_id: i64,
    next_box_id: i64,
}

impl Database {
    /// The screenshot table.
    pub closed spec fn rows(&self) -> Seq<ScreenshotV> {
        row_views(self.screenshots@)
    }

    /// The OCR text table.
    pub closed spec fn ocr(&self) -> Seq<OcrTextV> {
        ocr_views(self.ocr_texts@)
    }

    /// The full-text shadow index.
    pub closed spec fn fts(&self) -> Seq<FtsRowV> {
        self.fts_rows@.map(|i: int, x: FtsRow| x@)
    }

    /// The bounding-box table.
    pub closed spec fn boxes(&self) -> Seq<BoundingBoxV> {
        box_views(self.box_rows@)
    }

    /// The embedding table.
    pub closed spec fn embeddings(&self) -> Seq<EmbeddingRowV> {
        self.embedding_rows@.map(|i: int, x: EmbeddingRow| x@)
    }

    /// The daemon-state key-value table.
    pub closed spec fn state(&self) -> Seq<StateRowV> {
        self.state_rows@.map(|i: int, x: StateRow| x@)
    }

    /// The daily-summary cache.
    pub closed spec fn summaries(&self) -> Seq<SummaryV> {
        self.summary_rows@.map(|i: int, x: CachedDailySummary| x@)
    }

    /// The id the next inserted screenshot will get.
    pub closed spec fn next_rowid(&self) -> int {
        self.next_id as int
    }

    /// Well-formedness: monotone unique ids below the id counters, foreign
    /// keys into the screenshot table, at most one OCR row and one embedding
    /// per screenshot, the shadow index in lock-step with the OCR table,
    /// unique state keys and summary dates, and timestamps within the
    /// calendar range.
    pub closed spec fn wf(&self) -> bool {
        &&& 1 <= self.next_id
        &&& 1 <= self.next_ocr_id
        &&& 1 <= self.next_box_id
        &&& forall|i: int|
            0 <= i < self.rows().len() ==> 1 <= (#[trigger] self.rows()[i]).id
                < self.next_id as int
        &&& forall|i: int, j: int|
            0 <= i < j < self.rows().len() ==> (#[trigger] self.rows()[i]).id < (
            #[trigger] self.rows()[j]).id
        &&& forall|i: int|
            0 <= i < self.rows().len() ==> valid_new_row(#[trigger] self.rows()[i])
        &&& forall|i: int|
            0 <= i < self.ocr().len() ==> 1 <= (#[trigger] self.ocr()[i]).id
                < self.next_ocr_id as int
        &&& forall|i: int, j: int|
            0 <= i < j < self.ocr().len() ==> (#[trigger] self.ocr()[i]).id < (
            #[trigger] self.ocr()[j]).id
        &&& forall|i: int|
            0 <= i < self.ocr().len() ==> has_id(self.rows(), (#[trigger] self.ocr()[i]).screenshot_id)
        &&& forall|i: int, j: int|
            0 <= i < j < self.ocr().len() ==> (#[trigger] self.ocr()[i]).screenshot_id != (
            #[trigger] self.ocr()[j]).screenshot_id
        &&& self.fts().len() == self.ocr().len()
        &&& forall|i: int|
            0 <= i < self.ocr().len() ==> (#[trigger] self.fts()[i]).screenshot_id == (
            #[trigger] self.ocr()[i]).screenshot_id && self.fts()[i].text_content
                == self.ocr()[i].text_content
        &&& forall|i: int|
            0 <= i < self.boxes().len() ==> 1 <= (#[trigger] self.boxes()[i]).id
                < self.next_box_id as int
        &&& forall|i: int, j: int|
            0 <= i < j < self.boxes().len() ==> (#[trigger] self.boxes()[i]).id < (
            #[trigger] self.boxes()[j]).id
        &&& forall|i: int|
            0 <= i < self.boxes().len() ==> has_id(
                self.rows(),
                (#[trigger] self.boxes()[i]).screenshot_id,
            )
        &&& forall|i: int|
            0 <= i < self.embeddings().len() ==> has_id(
                self.rows(),
                (#[trigger] self.embeddings()[i]).screenshot_id,
            )
        &&& forall|i: int, j: int|
            0 <= i < j < self.embeddings().len() ==> (
            #[trigger] self.embeddings()[i]).screenshot_id != (
            #[trigger] self.embeddings()[j]).screenshot_id
        &&& forall|i: int, j: int|
            0 <= i < j < self.state().len() ==> (#[trigger] self.state()[i]).key != (
            #[trigger] self.state()[j]).key
        &&& forall|i: int, j: int|
            0 <= i < j < self.summaries().len() ==> (#[trigger] self.summaries()[i]).date_key != (
            #[trigger] self.summaries()[j]).date_key
    }

    /// A well-formed engine stores rows with strictly increasing ids below
    /// the next free id, each a valid row; an id therefore picks out at most
    /// one stored row, and a read-back by id is pinned to it.
    pub proof fn lemma_wf_rows(&self)
        requires
            self.wf(),
        ensures
            forall|p: int, q: int|
                0 <= p < q < self.rows().len() ==> (#[trigger] self.rows()[p]).id < (
                #[trigger] self.rows()[q]).id,
            forall|p: int|
                0 <= p < self.rows().len() ==> 1 <= (#[trigger] self.rows()[p]).id
                    < self.next_rowid(),
            forall|p: int| 0 <= p < self.rows().len() ==> valid_new_row(#[trigger] self.rows()[p]),
    {
    }

    /// An empty engine.
    pub fn new() -> (r: Database)
        ensures
            r.wf(),
            r.rows() =~= Seq::<ScreenshotV>::empty(),
            r.ocr() =~= Seq::<OcrTextV>::empty(),
            r.fts() =~= Seq::<FtsRowV>::empty(),
            r.boxes() =~= Seq::<BoundingBoxV>::empty(),
            r.embeddings() =~= Seq::<EmbeddingRowV>::empty(),
            r.state() =~= Seq::<StateRowV>::empty(),
            r.summaries() =~= Seq::<SummaryV>::empty(),
            r.next_rowid() == 1,
            r.next_ocr_rowid() == 1,
            r.next_box_rowid() == 1,
    {
        let db = Database {
            screenshots: Vec::new(),
            ocr_texts: Vec::new(),
            fts_rows: Vec::new(),
            box_rows: Vec::new(),
            embedding_rows: Vec::new(),
            state_rows: Vec::new(),
            summary_rows: Vec::new(),
            next_id: 1,
            next_ocr_id: 1,
            next_box_id: 1,
        };
        proof {
            assert(db.rows() =~= Seq::<ScreenshotV>::empty());
            assert(db.ocr() =~= Seq::<OcrTextV>::empty());
            assert(db.fts() =~= Seq::<FtsRowV>::empty());
            assert(db.boxes() =~= Seq::<BoundingBoxV>::empty());
            assert(db.embeddings() =~= Seq::<EmbeddingRowV>::empty());
            assert(db.state() =~= Seq::<StateRowV>::empty());
            assert(db.summaries() =~= Seq::<SummaryV>::empty());
        }
        db
    }

    /// A fresh engine with no backing file, as used by tests.
    pub fn open_in_memory() -> (r: Result<Database, CoreError>)
        ensures
            r is Ok,
            ({
                let db = r.unwrap();
                db.wf() && db.rows() =~= Seq::<ScreenshotV>::empty() && db.ocr()
                    =~= Seq::<OcrTextV>::empty() && db.fts() =~= Seq::<FtsRowV>::empty()
                    && db.boxes() =~= Seq::<BoundingBoxV>::empty()
                    && db.embeddings() =~= Seq::<EmbeddingRowV>::empty() && db.state()
                    =~= Seq::<StateRowV>::empty() && db.summaries() =~= Seq::<SummaryV>::empty()
                    && db.next_rowid() == 1 && db.next_ocr_rowid() == 1 && db.next_box_rowid()
                    == 1
            }),
    {
        Ok(Database::new())
    }

    /// Insert a new screenshot row; returns the assigned id. The row gets
    /// `ocr_status` pending, and a `created_at` rendered in UTC from the
    /// capture timestamp. Fails only when the id space is exhausted.
    pub fn insert_screenshot(&mut self, new: &NewScreenshot) -> (r: Result<i64, CoreError>)
        requires
            old(self).wf(),
            valid_new(new@),
        ensures
            final(self).wf(),
            r is Ok <==> old(self).next_rowid() < i64::MAX,
            r is Err ==> *final(self) == *old(self),
            r is Ok ==> {
                &&& r.unwrap() == old(self).next_rowid()
                &&& final(self).rows() =~= old(self).rows().push(
                    row_of(new@, old(self).next_rowid(), time::utc_datetime_of(new.timestamp)),
                )
                &&& final(self).next_rowid() == old(self).next_rowid() + 1
                &&& final(self).ocr() == old(self).ocr()
                &&& final(self).fts() == old(self).fts()
                &&& final(self).boxes() == old(self).boxes()
                &&& final(self).embeddings() == old(self).embeddings()
                &&& final(self).state() == old(self).state()
                &&& final(self).summaries() == old(self).summaries()
            },
    {
        if self.next_id == i64::MAX {
            return Err(CoreError::Database(String::from_str("screenshot id space exhausted")));
        }
        let id = self.next_id;
        let created_at = time::format_utc_datetime(new.timestamp);
        let row = Screenshot {
            id,
            timestamp: new.timestamp,
            timestamp_ms: new.timestamp_ms,
            app_name: crate::schema::clone_opt_string(&new.app_name),
            window_title: crate::schema::clone_opt_string(&new.window_title),
            window_class: crate::schema::clone_opt_string(&new.window_class),
            file_path: new.file_path.clone(),
            thumbnail_path: crate::schema::clone_opt_string(&new.thumbnail_path),
            width: new.width,
            height: new.height,
            file_size_bytes: new.file_size_bytes,
            perceptual_hash: crate::schema::copy_bytes(&new.perceptual_hash),
            ocr_status: OcrStatus::Pending,
            created_at,
        };
        proof {
            assert(row@ == row_of(new@, old(self).next_rowid(), time::utc_datetime_of(new.timestamp)));
        }
        self.screenshots.push(row);
        self.next_id = self.next_id + 1;
        proof {
            assert(self.rows() =~= old(self).rows().push(
                row_of(new@, old(self).next_rowid(), time::utc_datetime_of(new.timestamp)),
            ));
            assert forall|i: int, j: int| 0 <= i < j < self.rows().len() implies (
            #[trigger] self.rows()[i]).id < (#[trigger] self.rows()[j]).id by {
                if j < self.rows().len() - 1 {
                    assert(old(self).rows()[i].id < old(self).rows()[j].id);
                }
            }
            lemma_has_id_push(old(self).rows(), self.rows()[self.rows().len() - 1], self.ocr());
            lemma_has_id_push_boxes(old(self).rows(), self.rows()[self.rows().len() - 1], self.boxes());
            lemma_has_id_push_embeddings(
                old(self).rows(),
                self.rows()[self.rows().len() - 1],
                self.embeddings(),
            );
            assert(self.ocr() =~= old(self).ocr());
            assert(self.fts() =~= old(self).fts());
            assert(self.boxes() =~= old(self).boxes());
            assert(self.embeddings() =~= old(self).embeddings());
            assert(self.state() =~= old(self).state());
            assert(self.summaries() =~= old(self).summaries());
        }
        Ok(id)
    }

    /// Look up a screenshot by id.
    pub fn get_screenshot(&self, id: i64) -> (r: Result<Option<Screenshot>, CoreError>)
        requires
            self.wf(),
        ensures
            r is Ok,
            match r.unwrap() {
                Some(s) => has_id(self.rows(), id as int) && s@ == self.rows()[idx_of(
                    self.rows(),
                    id as int,
                )],
                None => !has_id(self.rows(), id as int),
            },
    {
        let n = self.screenshots.len();
        let mut i: usize = 0;
        while i < n
            invariant
                self.wf(),
                n == self.rows().len(),
                i <= n,
                forall|j: int| 0 <= j < i ==> (#[trigger] self.rows()[j]).id != id as int,
            decreases n - i,
        {
            if self.screenshots[i].id == id {
                let s = self.screenshots[i].duplicate();
                proof {
                    assert(self.rows()[i as int].id == id as int);
                    lemma_idx_of_unique(self.rows(), id as int, i as int);
                }
                return Ok(Some(s));
            }
            i = i + 1;
        }
        Ok(None)
    }

    /// The id the next OCR row will get.
    pub closed spec fn next_ocr_rowid(&self) -> int {
        self.next_ocr_id as int
    }

    /// The id the next bounding-box row will get.
    pub closed spec fn next_box_rowid(&self) -> int {
        self.next_box_id as int
    }

    /// Whether a screenshot with this id exists (linear scan).
    fn find_row(&self, id: i64) -> (r: bool)
        requires
            self.wf(),
        ensures
            r == has_id(self.rows(), id as int),
    {
        let n = self.screenshots.len();
        let mut i: usize = 0;
        while i < n
            invariant
                self.wf(),
                n == self.rows().len(),
                i <= n,
                forall|j: int| 0 <= j < i ==> (#[trigger] self.rows()[j]).id != id as int,
            decreases n - i,
        {
            if self.screenshots[i].id == id {
                proof {
                    assert(self.rows()[i as int].id == id as int);
                }
                return true;
            }
            i = i + 1;
        }
        false
    }

    /// Atomically attach OCR text to a screenshot: the OCR row and its
    /// full-text shadow row are written in the same call, so the index can
    /// never lag the table. Fails when the screenshot does not exist, when it
    /// already has OCR text, or when the id space is exhausted.
    pub fn insert_ocr_text(&mut self, screenshot_id: i64, text: &str, word_count: i32) -> (r:
        Result<(), CoreError>)
        requires
            old(self).wf(),
        ensures
            final(self).wf(),
            r is Ok <==> has_id(old(self).rows(), screenshot_id as int) && !has_ocr(
                old(self).ocr(),
                screenshot_id as int,
            ) && old(self).next_ocr_rowid() < i64::MAX,
            r is Err ==> *final(self) == *old(self),
            r is Ok ==> {
                &&& final(self).ocr() =~= old(self).ocr().push(
                    OcrTextV {
                        id: old(self).next_ocr_rowid(),
                        screenshot_id: screenshot_id as int,
                        text_content: text@,
                        word_count: word_count as int,
                    },
                )
                &&& final(self).fts() =~= old(self).fts().push(
                    FtsRowV { screenshot_id: screenshot_id as int, text_content: text@ },
                )
                &&& final(self).rows() == old(self).rows()
                &&& final(self).boxes() == old(self).boxes()
                &&& final(self).embeddings() == old(self).embeddings()
                &&& final(self).state() == old(self).state()
                &&& final(self).summaries() == old(self).summaries()
                &&& final(self).next_rowid() == old(self).next_rowid()
                &&& final(self).next_ocr_rowid() == old(self).next_ocr_rowid() + 1
            },
    {
        if !self.find_row(screenshot_id) {
            return Err(CoreError::Database(String::from_str("no such screenshot")));
        }
        // reject a second OCR row for the same screenshot
        let n = self.ocr_texts.len();
        let mut i: usize = 0;
        while i < n
            invariant
                self.wf(),
                n == self.ocr().len(),
                i <= n,
                forall|j: int|
                    0 <= j < i ==> (#[trigger] self.ocr()[j]).screenshot_id != screenshot_id as int,
            decreases n - i,
        {
            if self.ocr_texts[i].screenshot_id == screenshot_id {
                proof {
                    assert(self.ocr()[i as int].screenshot_id == screenshot_id as int);
                }
                return Err(CoreError::Database(String::from_str("ocr text already present")));
            }
            i = i + 1;
        }
        if self.next_ocr_id == i64::MAX {
            return Err(CoreError::Database(String::from_str("ocr id space exhausted")));
        }
        let row = OcrText {
            id: self.next_ocr_id,
            screenshot_id,
            text_content: String::from_str(text),
            word_count,
        };
        let shadow = FtsRow { screenshot_id, text_content: String::from_str(text) };
        self.ocr_texts.push(row);
        self.fts_rows.push(shadow);
        self.next_ocr_id = self.next_ocr_id + 1;
        proof {
            assert(self.ocr() =~= old(self).ocr().push(
                OcrTextV {
                    id: old(self).next_ocr_rowid(),
                    screenshot_id: screenshot_id as int,
                    text_content: text@,
                    word_count: word_count as int,
                },
            ));
            assert(self.fts() =~= old(self).fts().push(
                FtsRowV { screenshot_id: screenshot_id as int, text_content: text@ },
            ));
            assert(self.rows() =~= old(self).rows());
            assert(self.boxes() =~= old(self).boxes());
            assert(self.embeddings() =~= old(self).embeddings());
            assert(self.state() =~= old(self).state());
            assert(self.summaries() =~= old(self).summaries());
        }
        Ok(())
    }

    /// The bounding-box row a successful batch insert produces for one
    /// request entry.
    pub open spec fn box_row_of(b: crate::schema::NewBoundingBoxV, id: int, screenshot_id: int)
        -> BoundingBoxV {
        BoundingBoxV {
            id: id,
            screenshot_id: screenshot_id,
            text_content: b.text_content,
            x: b.x,
            y: b.y,
            width: b.width,
            height: b.height,
            confidence_hundredths: b.confidence_hundredths,
        }
    }

    /// Insert a batch of bounding boxes for a screenshot, all in one call.
    /// Fails when the screenshot does not exist or the id space would
    /// overflow; in that case nothing is written.
    pub fn insert_bounding_boxes(&mut self, screenshot_id: i64, new_boxes: &Vec<NewBoundingBox>)
        -> (r: Result<(), CoreError>)
        requires
            old(self).wf(),
        ensures
            final(self).wf(),
            r is Ok <==> has_id(old(self).rows(), screenshot_id as int) && old(
                self,
            ).next_box_rowid() + new_boxes@.len() <= i64::MAX,
            r is Err ==> *final(self) == *old(self),
            r is Ok ==> {
                &&& final(self).boxes() =~= old(self).boxes() + Seq::new(
                    new_boxes@.len(),
                    |k: int|
                        Self::box_row_of(
                            new_boxes@[k]@,
                            old(self).next_box_rowid() + k,
                            screenshot_id as int,
                        ),
                )
                &&& final(self).rows() == old(self).rows()
                &&& final(self).ocr() == old(self).ocr()
                &&& final(self).fts() == old(self).fts()
                &&& final(self).embeddings() == old(self).embeddings()
                &&& final(self).state() == old(self).state()
                &&& final(self).summaries() == old(self).summaries()
                &&& final(self).next_box_rowid() == old(self).next_box_rowid() + new_boxes@.len()
            },
    {
        if !self.find_row(screenshot_id) {
            return Err(CoreError::Database(String::from_str("no such screenshot")));
        }
        let count = new_boxes.len();
        if count as u64 > (i64::MAX - self.next_box_id) as u64 {
            return Err(CoreError::Database(String::from_str("bounding box id space exhausted")));
        }
        let mut i: usize = 0;
        while i < count
            invariant
                old(self).wf(),
                self.wf(),
                count == new_boxes@.len(),
                i <= count,
                old(self).next_box_rowid() + count <= i64::MAX,
                self.next_box_rowid() == old(self).next_box_rowid() + i,
                has_id(old(self).rows(), screenshot_id as int),
                self.boxes() =~= old(self).boxes() + Seq::new(
                    i as nat,
                    |k: int|
                        Self::box_row_of(
                            new_boxes@[k]@,
                            old(self).next_box_rowid() + k,
                            screenshot_id as int,
                        ),
                ),
                self.rows() == old(self).rows(),
                self.ocr() == old(self).ocr(),
                self.fts() == old(self).fts(),
                self.embeddings() == old(self).embeddings(),
                self.state() == old(self).state(),
                self.summaries() == old(self).summaries(),
            decreases count - i,
    {
            let b = &new_boxes[i];
            let row = BoundingBox {
                id: self.next_box_id,
                screenshot_id,
                text_content: b.text_content.clone(),
                x: b.x,
                y: b.y,
                width: b.width,
                height: b.height,
                confidence_hundredths: b.confidence_hundredths,
            };
            proof {
                assert(row@ == Self::box_row_of(
                    new_boxes@[i as int]@,
                    old(self).next_box_rowid() + i,
                    screenshot_id as int,
                ));
            }
            let ghost prev_boxes = self.boxes();
            self.box_rows.push(row);
            self.next_box_id = self.next_box_id + 1;
            i = i + 1;
            proof {
                assert(self.boxes() =~= prev_boxes.push(
                    Self::box_row_of(
                        new_boxes@[i - 1]@,
                        old(self).next_box_rowid() + (i - 1),
                        screenshot_id as int,
                    ),
                ));
                assert(self.boxes() =~= old(self).boxes() + Seq::new(
                    i as nat,
                    |k: int|
                        Self::box_row_of(
                            new_boxes@[k]@,
                            old(self).next_box_rowid() + k,
                            screenshot_id as int,
                        ),
                ));
                assert(self.rows() =~= old(self).rows());
                assert(self.ocr() =~= old(self).ocr());
                assert(self.fts() =~= old(self).fts());
                assert(self.embeddings() =~= old(self).embeddings());
                assert(self.state() =~= old(self).state());
                assert(self.summaries() =~= old(self).summaries());
            }
        }
        Ok(())
    }

    /// A row with its OCR status replaced.
    pub open spec fn with_status(r: ScreenshotV, st: OcrStatus) -> ScreenshotV {
        ScreenshotV { ocr_status: st, ..r }
    }

    /// Set the OCR status of a screenshot. Updating a missing id changes
    /// nothing and still succeeds, as an SQL `UPDATE` would.
    pub fn update_ocr_status(&mut self, screenshot_id: i64, status: OcrStatus) -> (r: Result<
        (),
        CoreError,
    >)
        requires
            old(self).wf(),
        ensures
            final(self).wf(),
            r is Ok,
            final(self).rows() =~= Seq::new(
                old(self).rows().len(),
                |i: int|
                    if old(self).rows()[i].id == screenshot_id as int {
                        Self::with_status(old(self).rows()[i], status)
                    } else {
                        old(self).rows()[i]
                    },
            ),
            final(self).ocr() == old(self).ocr(),
            final(self).fts() == old(self).fts(),
            final(self).boxes() == old(self).boxes(),
            final(self).embeddings() == old(self).embeddings(),
            final(self).state() == old(self).state(),
            final(self).summaries() == old(self).summaries(),
            final(self).next_rowid() == old(self).next_rowid(),
            final(self).next_ocr_rowid() == old(self).next_ocr_rowid(),
            final(self).next_box_rowid() == old(self).next_box_rowid(),
    {
        let n = self.screenshots.len();
        let mut i: usize = 0;
        while i < n
            invariant
                old(self).wf(),
                *self == *old(self),
                n == self.rows().len(),
                i <= n,
                forall|j: int| 0 <= j < i ==> (#[trigger] self.rows()[j]).id != screenshot_id as int,
            decreases n - i,
        {
            if self.screenshots[i].id == screenshot_id {
                let mut row = self.screenshots[i].duplicate();
                row.ocr_status = status;
                proof {
                    assert(row@ == Self::with_status(old(self).rows()[i as int], status));
                }
                self.screenshots[i] = row;
                proof {
                    assert forall|j: int|
                        i < j < self.rows().len() implies (#[trigger] old(self).rows()[j]).id
                        != screenshot_id as int by {
                        assert(old(self).rows()[i as int].id < old(self).rows()[j].id);
                    }
                    assert(self.rows() =~= Seq::new(
                        old(self).rows().len(),
                        |k: int|
                            if old(self).rows()[k].id == screenshot_id as int {
                                Self::with_status(old(self).rows()[k], status)
                            } else {
                                old(self).rows()[k]
                            },
                    ));
                    assert(self.ocr() =~= old(self).ocr());
                    assert(self.fts() =~= old(self).fts());
                    assert(self.boxes() =~= old(self).boxes());
                    assert(self.embeddings() =~= old(self).embeddings());
                    assert(self.state() =~= old(self).state());
                    assert(self.summaries() =~= old(self).summaries());
                    assert forall|p: int|
                        0 <= p < self.ocr().len() implies has_id(
                        self.rows(),
                        (#[trigger] self.ocr()[p]).screenshot_id,
                    ) by {
                        let k = choose|k: int|
                            0 <= k < old(self).rows().len() && (#[trigger] old(self).rows()[k]).id
                                == self.ocr()[p].screenshot_id;
                        assert(self.rows()[k].id == self.ocr()[p].screenshot_id);
                    }
                    assert forall|p: int|
                        0 <= p < self.boxes().len() implies has_id(
                        self.rows(),
                        (#[trigger] self.boxes()[p]).screenshot_id,
                    ) by {
                        let k = choose|k: int|
                            0 <= k < old(self).rows().len() && (#[trigger] old(self).rows()[k]).id
                                == self.boxes()[p].screenshot_id;
                        assert(self.rows()[k].id == self.boxes()[p].screenshot_id);
                    }
                    assert forall|p: int|
                        0 <= p < self.embeddings().len() implies has_id(
                        self.rows(),
                        (#[trigger] self.embeddings()[p]).screenshot_id,
                    ) by {
                        let k = choose|k: int|
                            0 <= k < old(self).rows().len() && (#[trigger] old(self).rows()[k]).id
                                == self.embeddings()[p].screenshot_id;
                        assert(self.rows()[k].id == self.embeddings()[p].screenshot_id);
                    }
                }
                return Ok(());
            }
            i = i + 1;
        }
        proof {
            assert(self.rows() =~= Seq::new(
                old(self).rows().len(),
                |k: int|
                    if old(self).rows()[k].id == screenshot_id as int {
                        Self::with_status(old(self).rows()[k], status)
                    } else {
                        old(self).rows()[k]
                    },
            ));
        }
        Ok(())
    }

    /// A row with its file geometry replaced, as after recompression.
    pub open spec fn with_file(r: ScreenshotV, width: int, height: int, size: int) -> ScreenshotV {
        ScreenshotV { width: width, height: height, file_size_bytes: size, ..r }
    }

    /// Update width, height and file size of a screenshot after its backing
    /// file was re-encoded. Updating a missing id changes nothing.
    pub fn update_screenshot_file(
        &mut self,
        screenshot_id: i64,
        width: i32,
        height: i32,
        file_size_bytes: i64,
    ) -> (r: Result<(), CoreError>)
        requires
            old(self).wf(),
        ensures
            final(self).wf(),
            r is Ok,
            final(self).rows() =~= Seq::new(
                old(self).rows().len(),
                |i: int|
                    if old(self).rows()[i].id == screenshot_id as int {
                        Self::with_file(
                            old(self).rows()[i],
                            width as int,
                            height as int,
                            file_size_bytes as int,
                        )
                    } else {
                        old(self).rows()[i]
                    },
            ),
            final(self).ocr() == old(self).ocr(),
            final(self).fts() == old(self).fts(),
            final(self).boxes() == old(self).boxes(),
            final(self).embeddings() == old(self).embeddings(),
            final(self).state() == old(self).state(),
            final(self).summaries() == old(self).summaries(),
            final(self).next_rowid() == old(self).next_rowid(),
    {
        let n = self.screenshots.len();
        let mut i: usize = 0;
        while i < n
            invariant
                old(self).wf(),
                *self == *old(self),
                n == self.rows().len(),
                i <= n,
                forall|j: int| 0 <= j < i ==> (#[trigger] self.rows()[j]).id != screenshot_id as int,
            decreases n - i,
        {
            if self.screenshots[i].id == screenshot_id {
                let mut row = self.screenshots[i].duplicate();
                row.width = width;
                row.height = height;
                row.file_size_bytes = file_size_bytes;
                proof {
                    assert(row@ == Self::with_file(
                        old(self).rows()[i as int],
                        width as int,
                        height as int,
                        file_size_bytes as int,
                    ));
                }
                self.screenshots[i] = row;
                proof {
                    assert forall|j: int|
                        i < j < self.rows().len() implies (#[trigger] old(self).rows()[j]).id
                        != screenshot_id as int by {
                        assert(old(self).rows()[i as int].id < old(self).rows()[j].id);
                    }
                    assert(self.rows() =~= Seq::new(
                        old(self).rows().len(),
                        |k: int|
                            if old(self).rows()[k].id == screenshot_id as int {
                                Self::with_file(
                                    old(self).rows()[k],
                                    width as int,
                                    height as int,
                                    file_size_bytes as int,
                                )
                            } else {
                                old(self).rows()[k]
                            },
                    ));
                    assert(self.ocr() =~= old(self).ocr());
                    assert(self.fts() =~= old(self).fts());
                    assert(self.boxes() =~= old(self).boxes());
                    assert(self.embeddings() =~= old(self).embeddings());
                    assert(self.state() =~= old(self).state());
                    assert(self.summaries() =~= old(self).summaries());
                    assert forall|p: int|
                        0 <= p < self.ocr().len() implies has_id(
                        self.rows(),
                        (#[trigger] self.ocr()[p]).screenshot_id,
                    ) by {
                        let k = choose|k: int|
                            0 <= k < old(self).rows().len() && (#[trigger] old(self).rows()[k]).id
                                == self.ocr()[p].screenshot_id;
                        assert(self.rows()[k].id == self.ocr()[p].screenshot_id);
                    }
                    assert forall|p: int|
                        0 <= p < self.boxes().len() implies has_id(
                        self.rows(),
                        (#[trigger] self.boxes()[p]).screenshot_id,
                    ) by {
                        let k = choose|k: int|
                            0 <= k < old(self).rows().len() && (#[trigger] old(self).rows()[k]).id
                                == self.boxes()[p].screenshot_id;
                        assert(self.rows()[k].id == self.boxes()[p].screenshot_id);
                    }
                    assert forall|p: int|
                        0 <= p < self.embeddings().len() implies has_id(
                        self.rows(),
                        (#[trigger] self.embeddings()[p]).screenshot_id,
                    ) by {
                        let k = choose|k: int|
                            0 <= k < old(self).rows().len() && (#[trigger] old(self).rows()[k]).id
                                == self.embeddings()[p].screenshot_id;
                        assert(self.rows()[k].id == self.embeddings()[p].screenshot_id);
                    }
                }
                return Ok(());
            }
            i = i + 1;
        }
        proof {
            assert(self.rows() =~= Seq::new(
                old(self).rows().len(),
                |k: int|
                    if old(self).rows()[k].id == screenshot_id as int {
                        Self::with_file(
                            old(self).rows()[k],
                            width as int,
                            height as int,
                            file_size_bytes as int,
                        )
                    } else {
                        old(self).rows()[k]
                    },
            ));
        }
        Ok(())
    }

    /// The OCR text attached to a screenshot, if any.
    pub fn get_ocr_text(&self, screenshot_id: i64) -> (r: Result<Option<String>, CoreError>)
        requires
            self.wf(),
        ensures
            r is Ok,
            match r.unwrap() {
                Some(t) => exists|i: int|
                    0 <= i < self.ocr().len() && (#[trigger] self.ocr()[i]).screenshot_id
                        == screenshot_id as int && t@ == self.ocr()[i].text_content,
                None => !has_ocr(self.ocr(), screenshot_id as int),
            },
    {
        let n = self.ocr_texts.len();
        let mut i: usize = 0;
        while i < n
            invariant
                self.wf(),
                n == self.ocr().len(),
                i <= n,
                forall|j: int|
                    0 <= j < i ==> (#[trigger] self.ocr()[j]).screenshot_id != screenshot_id as int,
            decreases n - i,
        {
            if self.ocr_texts[i].screenshot_id == screenshot_id {
                let t = self.ocr_texts[i].text_content.clone();
                proof {
                    assert((#[trigger] self.ocr()[i as int]).screenshot_id == screenshot_id as int
                        && t@ == self.ocr()[i as int].text_content);
                }
                return Ok(Some(t));
            }
            i = i + 1;
        }
        Ok(None)
    }
}

// ---------------------------------------------------------------------------
// Small lemmas about the model
// ---------------------------------------------------------------------------

/// Timestamps and hash length of a stored row, as `wf` maintains them.
pub open spec fn valid_new_row(r: ScreenshotV) -> bool {
    &&& 0 <= r.timestamp <= time::MAX_TIMESTAMP
    &&& 0 <= r.timestamp_ms <= 1000 * time::MAX_TIMESTAMP as int + 999
    &&& r.perceptual_hash.len() == 8
}

/// Pushing a row preserves `has_id` for all OCR references.
proof fn lemma_has_id_push(rows: Seq<ScreenshotV>, x: ScreenshotV, ocr: Seq<OcrTextV>)
    ensures
        forall|i: int|
            0 <= i < ocr.len() && has_id(rows, (#[trigger] ocr[i]).screenshot_id) ==> has_id(
                rows.push(x),
                ocr[i].screenshot_id,
            ),
{
    assert forall|i: int|
        0 <= i < ocr.len() && has_id(rows, (#[trigger] ocr[i]).screenshot_id) implies has_id(
        rows.push(x),
        ocr[i].screenshot_id,
    ) by {
        let k = choose|k: int| 0 <= k < rows.len() && (#[trigger] rows[k]).id == ocr[i].screenshot_id;
        assert(rows.push(x)[k].id == ocr[i].screenshot_id);
    }
}

/// Pushing a row preserves `has_id` for all bounding-box references.
proof fn lemma_has_id_push_boxes(rows: Seq<ScreenshotV>, x: ScreenshotV, boxes: Seq<BoundingBoxV>)
    ensures
        forall|i: int|
            0 <= i < boxes.len() && has_id(rows, (#[trigger] boxes[i]).screenshot_id) ==> has_id(
                rows.push(x),
                boxes[i].screenshot_id,
            ),
{
    assert forall|i: int|
        0 <= i < boxes.len() && has_id(rows, (#[trigger] boxes[i]).screenshot_id) implies has_id(
        rows.push(x),
        boxes[i].screenshot_id,
    ) by {
        let k = choose|k: int|
            0 <= k < rows.len() && (#[trigger] rows[k]).id == boxes[i].screenshot_id;
        assert(rows.push(x)[k].id == boxes[i].screenshot_id);
    }
}

/// Pushing a row preserves `has_id` for all embedding references.
proof fn lemma_has_id_push_embeddings(
    rows: Seq<ScreenshotV>,
    x: ScreenshotV,
    embeds: Seq<EmbeddingRowV>,
)
    ensures
        forall|i: int|
            0 <= i < embeds.len() && has_id(rows, (#[trigger] embeds[i]).screenshot_id) ==> has_id(
                rows.push(x),
                embeds[i].screenshot_id,
            ),
{
    assert forall|i: int|
        0 <= i < embeds.len() && has_id(rows, (#[trigger] embeds[i]).screenshot_id) implies has_id(
        rows.push(x),
        embeds[i].screenshot_id,
    ) by {
        let k = choose|k: int|
            0 <= k < rows.len() && (#[trigger] rows[k]).id == embeds[i].screenshot_id;
        assert(rows.push(x)[k].id == embeds[i].screenshot_id);
    }
}

/// With strictly increasing ids, `idx_of` is the index of any row that
/// carries the id.
pub proof fn lemma_idx_of_unique(rows: Seq<ScreenshotV>, id: int, i: int)
    requires
        forall|p: int, q: int|
            0 <= p < q < rows.len() ==> (#[trigger] rows[p]).id < (#[trigger] rows[q]).id,
        0 <= i < rows.len(),
        rows[i].id == id,
    ensures
        has_id(rows, id),
        idx_of(rows, id) == i,
{
    assert(has_id(rows, id));
    let j = idx_of(rows, id);
    if j < i {
        assert(rows[j].id < rows[i].id);
    } else if j > i {
        assert(rows[i].id < rows[j].id);
    }
}

// ---------------------------------------------------------------------------
// Scene deduplication
// ---------------------------------------------------------------------------

/// Views of a sequence of search results.
pub open spec fn result_views(s: Seq<SearchResult>) -> Seq<crate::schema::SearchResultV> {
    s.map(|i: int, x: SearchResult| x@)
}

/// The ids carried by a sequence of search results.
pub open spec fn ids_of(results: Seq<crate::schema::SearchResultV>) -> Seq<int> {
    results.map(|i: int, r: crate::schema::SearchResultV| r.id)
}

/// Both ids are stored and their perceptual hashes are within `t` bits.
pub open spec fn close_ids(rows: Seq<ScreenshotV>, a: int, b: int, t: u32) -> bool {
    &&& has_id(rows, a)
    &&& has_id(rows, b)
    &&& crate::hasher::spec_hamming(
        rows[idx_of(rows, a)].perceptual_hash,
        rows[idx_of(rows, b)].perceptual_hash,
    ) <= t as int
}

/// One scene group: the index of its representative in the candidate list,
/// and the ids of all members, in candidate order.
#[verifier::ext_equal]
pub ghost struct GroupV {
    pub rep: int,
    pub members: Seq<int>,
}

/// The first group (at or after `j`) whose representative is within `t`
/// bits of `id`, if any.
pub open spec fn first_close_group(
    groups: Seq<GroupV>,
    ids: Seq<int>,
    rows: Seq<ScreenshotV>,
    t: u32,
    id: int,
    j: int,
) -> Option<int>
    decreases groups.len() - j,
{
    if j < 0 || j >= groups.len() {
        None
    } else if close_ids(rows, id, ids[groups[j].rep], t) {
        Some(j)
    } else {
        first_close_group(groups, ids, rows, t, id, j + 1)
    }
}

/// Process candidate `i`: join the first close group, or found a new one.
/// A candidate whose hash is unknown always founds its own group.
pub open spec fn dedup_step(
    groups: Seq<GroupV>,
    ids: Seq<int>,
    rows: Seq<ScreenshotV>,
    t: u32,
    i: int,
) -> Seq<GroupV> {
    let id = ids[i];
    if !has_id(rows, id) {
        groups.push(GroupV { rep: i, members: seq![id] })
    } else {
        match first_close_group(groups, ids, rows, t, id, 0) {
            Some(g) => groups.update(
                g,
                GroupV { rep: groups[g].rep, members: groups[g].members.push(id) },
            ),
            None => groups.push(GroupV { rep: i, members: seq![id] }),
        }
    }
}

/// Greedy scene grouping of the first `n` candidates, in rank order.
pub open spec fn dedup_groups(ids: Seq<int>, rows: Seq<ScreenshotV>, t: u32, n: int) -> Seq<GroupV>
    decreases n,
{
    if n <= 0 {
        Seq::<GroupV>::empty()
    } else {
        dedup_step(dedup_groups(ids, rows, t, n - 1), ids, rows, t, n - 1)
    }
}

/// A representative annotated with its group, when the group collapsed more
/// than one candidate.
pub open spec fn with_group(
    r: crate::schema::SearchResultV,
    members: Seq<int>,
) -> crate::schema::SearchResultV {
    if members.len() > 1 {
        crate::schema::SearchResultV {
            group_count: Some(members.len() as int),
            group_screenshot_ids: Some(members),
            ..r
        }
    } else {
        r
    }
}

/// The deduplicated candidate list: one representative per group, in group
/// creation order.
pub open spec fn dedup_output(
    results: Seq<crate::schema::SearchResultV>,
    rows: Seq<ScreenshotV>,
    t: u32,
) -> Seq<crate::schema::SearchResultV> {
    let groups = dedup_groups(ids_of(results), rows, t, results.len() as int);
    Seq::new(groups.len() as nat, |g: int| with_group(results[groups[g].rep], groups[g].members))
}

/// Structural facts about the greedy grouping: representatives are earlier
/// candidates, appear in increasing order, and each group's first member is
/// its representative's id.
pub proof fn lemma_dedup_groups_wf(ids: Seq<int>, rows: Seq<ScreenshotV>, t: u32, n: int)
    requires
        0 <= n <= ids.len(),
    ensures
        dedup_groups(ids, rows, t, n).len() <= n,
        forall|g: int|
            0 <= g < dedup_groups(ids, rows, t, n).len() ==> 0 <= (
            #[trigger] dedup_groups(ids, rows, t, n)[g]).rep < n,
        forall|g: int|
            0 <= g < dedup_groups(ids, rows, t, n).len() ==> 1 <= (#[trigger] dedup_groups(
                ids,
                rows,
                t,
                n,
            )[g]).members.len() <= n,
        forall|g: int, h: int|
            0 <= g < h < dedup_groups(ids, rows, t, n).len() ==> (#[trigger] dedup_groups(
                ids,
                rows,
                t,
                n,
            )[g]).rep < (#[trigger] dedup_groups(ids, rows, t, n)[h]).rep,
    decreases n,
{
    if n > 0 {
        lemma_dedup_groups_wf(ids, rows, t, n - 1);
        let prev = dedup_groups(ids, rows, t, n - 1);
        let cur = dedup_groups(ids, rows, t, n);
        let id = ids[n - 1];
        if !has_id(rows, id) {
            assert(cur == prev.push(GroupV { rep: n - 1, members: seq![id] }));
        } else {
            match first_close_group(prev, ids, rows, t, id, 0) {
                Some(g) => {
                    lemma_first_close_group_in_range(prev, ids, rows, t, id, 0);
                    assert(cur == prev.update(
                        g,
                        GroupV { rep: prev[g].rep, members: prev[g].members.push(id) },
                    ));
                },
                None => {
                    assert(cur == prev.push(GroupV { rep: n - 1, members: seq![id] }));
                },
            }
        }
    }
}

/// A found close group lies within the group list.
proof fn lemma_first_close_group_in_range(
    groups: Seq<GroupV>,
    ids: Seq<int>,
    rows: Seq<ScreenshotV>,
    t: u32,
    id: int,
    j: int,
)
    requires
        0 <= j,
        first_close_group(groups, ids, rows, t, id, j) is Some,
    ensures
        j <= first_close_group(groups, ids, rows, t, id, j).unwrap() < groups.len(),
    decreases groups.len() - j,
{
    if j < groups.len() && !close_ids(rows, id, ids[groups[j].rep], t) {
        lemma_first_close_group_in_range(groups, ids, rows, t, id, j + 1);
    }
}

/// An executable scene group.
struct GroupRec {
    rep: usize,
    members: Vec<i64>,
}

/// Views of executable groups.
spec fn group_views(gs: Seq<GroupRec>) -> Seq<GroupV> {
    gs.map(
        |i: int, g: GroupRec|
            GroupV { rep: g.rep as int, members: g.members@.map(|k: int, x: i64| x as int) },
    )
}

impl Database {
    /// The perceptual hash of a stored screenshot, if the id exists.
    fn hash_of(&self, id: i64) -> (r: Option<Vec<u8>>)
        requires
            self.wf(),
        ensures
            match r {
                Some(h) => has_id(self.rows(), id as int) && h@ == self.rows()[idx_of(
                    self.rows(),
                    id as int,
                )].perceptual_hash,
                None => !has_id(self.rows(), id as int),
            },
    {
        let n = self.screenshots.len();
        let mut i: usize = 0;
        while i < n
            invariant
                self.wf(),
                n == self.rows().len(),
                i <= n,
                forall|j: int| 0 <= j < i ==> (#[trigger] self.rows()[j]).id != id as int,
            decreases n - i,
        {
            if self.screenshots[i].id == id {
                let h = crate::schema::copy_bytes(&self.screenshots[i].perceptual_hash);
                proof {
                    lemma_idx_of_unique(self.rows(), id as int, i as int);
                }
                return Some(h);
            }
            i = i + 1;
        }
        None
    }

    /// Batch fetch of perceptual hashes: one `(id, hash)` pair for each
    /// requested id that is stored, in request order.
    pub fn get_hashes_for_ids(&self, ids: &Vec<i64>) -> (r: Result<Vec<(i64, Vec<u8>)>, CoreError>)
        requires
            self.wf(),
        ensures
            r is Ok,
            ({
                let out = r.unwrap()@;
                let wanted = ids@.filter(|id: i64| has_id(self.rows(), id as int));
                &&& out.len() == wanted.len()
                &&& forall|k: int|
                    0 <= k < out.len() ==> (#[trigger] out[k]).0 == wanted[k] && out[k].1@
                        == self.rows()[idx_of(self.rows(), wanted[k] as int)].perceptual_hash
            }),
    {
        let mut out: Vec<(i64, Vec<u8>)> = Vec::new();
        let mut i: usize = 0;
        while i < ids.len()
            invariant
                self.wf(),
                i <= ids@.len(),
                ({
                    let wanted = ids@.subrange(0, i as int).filter(
                        |id: i64| has_id(self.rows(), id as int),
                    );
                    &&& out@.len() == wanted.len()
                    &&& forall|k: int|
                        0 <= k < out@.len() ==> (#[trigger] out@[k]).0 == wanted[k] && out@[k].1@
                            == self.rows()[idx_of(self.rows(), wanted[k] as int)].perceptual_hash
                }),
            decreases ids@.len() - i,
        {
            let ghost prefix = ids@.subrange(0, i as int);
            let id = ids[i];
            match self.hash_of(id) {
                Some(h) => {
                    out.push((id, h));
                },
                None => {},
            }
            i = i + 1;
            proof {
                let p = |id: i64| has_id(self.rows(), id as int);
                assert(ids@.subrange(0, i as int) =~= prefix + seq![id]);
                Seq::filter_distributes_over_add(prefix, seq![id], p);
                lemma_filter_singleton(id, p);
            }
        }
        proof {
            assert(ids@.subrange(0, ids@.len() as int) =~= ids@);
        }
        Ok(out)
    }

    /// Collapse visually similar results into scene groups, greedily in rank
    /// order: each result joins the first group whose representative's hash
    /// is within `threshold` bits, else founds a new group. Representatives
    /// of groups with more than one member carry the group size and member
    /// ids. A zero threshold disables dedup.
    pub fn deduplicate_results(&self, results: Vec<SearchResult>, threshold: u32) -> (r: Result<
        Vec<SearchResult>,
        CoreError,
    >)
        requires
            self.wf(),
            results@.len() <= 0x7fff_ffff_ffff_ffff,
        ensures
            r is Ok,
            threshold == 0 ==> result_views(r.unwrap()@) == result_views(results@),
            threshold > 0 ==> result_views(r.unwrap()@) == dedup_output(
                result_views(results@),
                self.rows(),
                threshold,
            ),
    {
        if threshold == 0 {
            return Ok(results);
        }
        let ghost rviews = result_views(results@);
        let ghost gids = ids_of(rviews);
        let n = results.len();
        let mut groups: Vec<GroupRec> = Vec::new();
        let mut i: usize = 0;
        proof {
            assert(group_views(groups@) =~~= dedup_groups(gids, self.rows(), threshold, 0));
        }
        while i < n
            invariant
                self.wf(),
                n == results@.len(),
                i <= n,
                rviews == result_views(results@),
                gids == ids_of(rviews),
                group_views(groups@) == dedup_groups(gids, self.rows(), threshold, i as int),
                forall|g: int|
                    0 <= g < groups@.len() ==> (#[trigger] groups@[g]).rep < i,
            decreases n - i,
        {
            let id = results[i].id;
            proof {
                assert(gids[i as int] == id as int);
            }
            let hash_a = self.hash_of(id);
            match hash_a {
                None => {
                    let mut members: Vec<i64> = Vec::new();
                    members.push(id);
                    let ghost prevg = group_views(groups@);
                    groups.push(GroupRec { rep: i, members });
                    proof {
                        assert(group_views(groups@) =~~= prevg.push(
                            GroupV { rep: i as int, members: seq![id as int] },
                        ));
                    }
                },
                Some(hash_a) => {
                    let mut assigned: bool = false;
                    let mut j: usize = 0;
                    while j < groups.len() && !assigned
                        invariant
                            self.wf(),
                            n == results@.len(),
                            i < n,
                            rviews == result_views(results@),
                            gids == ids_of(rviews),
                            id == results@[i as int].id,
                            gids[i as int] == id as int,
                            has_id(self.rows(), id as int),
                            hash_a@ == self.rows()[idx_of(self.rows(), id as int)].perceptual_hash,
                            j <= groups@.len(),
                            !assigned ==> group_views(groups@) == dedup_groups(
                                gids,
                                self.rows(),
                                threshold,
                                i as int,
                            ),
                            forall|g: int|
                                0 <= g < groups@.len() ==> (#[trigger] groups@[g]).rep < i,
                            !assigned ==> forall|g: int|
                                0 <= g < j ==> !close_ids(
                                    self.rows(),
                                    id as int,
                                    gids[(#[trigger] group_views(groups@)[g]).rep],
                                    threshold,
                                ),
                            assigned ==> group_views(groups@) == dedup_step(
                                dedup_groups(gids, self.rows(), threshold, i as int),
                                gids,
                                self.rows(),
                                threshold,
                                i as int,
                            ),
                        decreases groups@.len() - j + (if assigned { 0int } else { 1int }),
                    {
                        let rep_idx = groups[j].rep;
                        let rep_id = results[rep_idx].id;
                        proof {
                            assert(gids[(group_views(groups@)[j as int]).rep] == rep_id as int);
                        }
                        let hash_b = self.hash_of(rep_id);
                        let mut is_close: bool = false;
                        match hash_b {
                            Some(hb) => {
                                if crate::hasher::PerceptualHasher::hamming_distance(
                                    hash_a.as_slice(),
                                    hb.as_slice(),
                                ) <= threshold {
                                    is_close = true;
                                }
                            },
                            None => {},
                        }
                        if is_close {
                            proof {
                                assert(close_ids(
                                    self.rows(),
                                    id as int,
                                    gids[(group_views(groups@)[j as int]).rep],
                                    threshold,
                                ));
                                lemma_first_close_group_skip(
                                    group_views(groups@),
                                    gids,
                                    self.rows(),
                                    threshold,
                                    id as int,
                                    j as int,
                                );
                            }
                            let ghost prevg = group_views(groups@);
                            let mut g = groups.remove(j);
                            g.members.push(id);
                            groups.insert(j, g);
                            proof {
                                assert(group_views(groups@) =~~= prevg.update(
                                    j as int,
                                    GroupV {
                                        rep: prevg[j as int].rep,
                                        members: prevg[j as int].members.push(id as int),
                                    },
                                ));
                            }
                            assigned = true;
                        } else {
                            proof {
                                assert(!close_ids(
                                    self.rows(),
                                    id as int,
                                    gids[(group_views(groups@)[j as int]).rep],
                                    threshold,
                                ));
                            }
                            j = j + 1;
                        }
                    }
                    if !assigned {
                        proof {
                            lemma_first_close_group_none(
                                group_views(groups@),
                                gids,
                                self.rows(),
                                threshold,
                                id as int,
                            );
                        }
                        let mut members: Vec<i64> = Vec::new();
                        members.push(id);
                        let ghost prevg = group_views(groups@);
                        groups.push(GroupRec { rep: i, members });
                        proof {
                            assert(group_views(groups@) =~~= prevg.push(
                                GroupV { rep: i as int, members: seq![id as int] },
                            ));
                        }
                    }
                },
            }
            i = i + 1;
        }
        // emit one representative per group
        let ghost final_groups = dedup_groups(gids, self.rows(), threshold, n as int);
        proof {
            lemma_dedup_groups_wf(gids, self.rows(), threshold, n as int);
        }
        let mut out: Vec<SearchResult> = Vec::new();
        let mut g: usize = 0;
        while g < groups.len()
            invariant
                n == results@.len(),
                n <= 0x7fff_ffff_ffff_ffff,
                rviews == result_views(results@),
                group_views(groups@) == final_groups,
                forall|k: int|
                    0 <= k < final_groups.len() ==> 0 <= (#[trigger] final_groups[k]).rep < n,
                forall|k: int|
                    0 <= k < final_groups.len() ==> 1 <= (#[trigger] final_groups[k]).members.len()
                        <= n,
                g <= groups@.len(),
                result_views(out@) == Seq::new(
                    g as nat,
                    |k: int| with_group(rviews[final_groups[k].rep], final_groups[k].members),
                ),
            decreases groups@.len() - g,
        {
            let rec = &groups[g];
            let count = rec.members.len();
            let mut rep = results[rec.rep].duplicate();
            proof {
                assert(group_views(groups@)[g as int] == final_groups[g as int]);
                assert(final_groups[g as int].members =~= rec.members@.map(
                    |k: int, x: i64| x as int,
                ));
                assert(rviews[final_groups[g as int].rep] == results@[final_groups[g as int].rep]@);
                assert(rep@ == rviews[final_groups[g as int].rep]);
            }
            if count > 1 {
                let member_ids = crate::schema::copy_ids(&rec.members);
                rep.group_count = Some(count as i64);
                rep.group_screenshot_ids = Some(member_ids);
                proof {
                    assert(rep@.group_screenshot_ids == Some(final_groups[g as int].members));
                    assert(rep@ =~~= with_group(
                        rviews[final_groups[g as int].rep],
                        final_groups[g as int].members,
                    ));
                }
            } else {
                proof {
                    assert(final_groups[g as int].members.len() == 1);
                    assert(rep@ =~~= with_group(
                        rviews[final_groups[g as int].rep],
                        final_groups[g as int].members,
                    ));
                }
            }
            let ghost prev_out = result_views(out@);
            let ghost gi = g as int;
            let ghost repv = rep@;
            out.push(rep);
            g = g + 1;
            proof {
                assert(repv == with_group(rviews[final_groups[gi].rep], final_groups[gi].members));
                assert(result_views(out@) =~= prev_out.push(repv));
                assert(result_views(out@) =~~= Seq::new(
                    g as nat,
                    |k: int| with_group(rviews[final_groups[k].rep], final_groups[k].members),
                ));
            }
        }
        proof {
            assert(result_views(out@) =~~= dedup_output(rviews, self.rows(), threshold));
        }
        Ok(out)
    }
}

/// If no group before `j` is close, the first close group overall is the
/// first close group at or after `j`.
proof fn lemma_first_close_group_skip(
    groups: Seq<GroupV>,
    ids: Seq<int>,
    rows: Seq<ScreenshotV>,
    t: u32,
    id: int,
    j: int,
)
    requires
        0 <= j <= groups.len(),
        forall|g: int| 0 <= g < j ==> !close_ids(rows, id, ids[(#[trigger] groups[g]).rep], t),
    ensures
        first_close_group(groups, ids, rows, t, id, 0) == first_close_group(
            groups,
            ids,
            rows,
            t,
            id,
            j,
        ),
    decreases j,
{
    if j > 0 {
        lemma_first_close_group_skip_step(groups, ids, rows, t, id, j - 1);
        lemma_first_close_group_skip(groups, ids, rows, t, id, j - 1);
    }
}

proof fn lemma_first_close_group_skip_step(
    groups: Seq<GroupV>,
    ids: Seq<int>,
    rows: Seq<ScreenshotV>,
    t: u32,
    id: int,
    j: int,
)
    requires
        0 <= j < groups.len(),
        !close_ids(rows, id, ids[groups[j].rep], t),
    ensures
        first_close_group(groups, ids, rows, t, id, j) == first_close_group(
            groups,
            ids,
            rows,
            t,
            id,
            j + 1,
        ),
{
}

/// If no group at all is close, the search for a close group fails.
proof fn lemma_first_close_group_none(
    groups: Seq<GroupV>,
    ids: Seq<int>,
    rows: Seq<ScreenshotV>,
    t: u32,
    id: int,
)
    requires
        forall|g: int|
            0 <= g < groups.len() ==> !close_ids(rows, id, ids[(#[trigger] groups[g]).rep], t),
    ensures
        first_close_group(groups, ids, rows, t, id, 0) is None,
{
    lemma_first_close_group_skip(groups, ids, rows, t, id, groups.len() as int);
}

/// Filtering a one-element sequence keeps or drops that element.
pub proof fn lemma_filter_singleton<A>(x: A, p: spec_fn(A) -> bool)
    ensures
        seq![x].filter(p) == if p(x) {
            seq![x]
        } else {
            Seq::<A>::empty()
        },
{
    reveal(Seq::filter);
    let s = seq![x];
    assert(s.drop_last() =~= Seq::<A>::empty());
    assert(Seq::<A>::empty().filter(p) =~= Seq::<A>::empty());
    assert(s.filter(p) == if p(s.last()) {
        s.drop_last().filter(p).push(s.last())
    } else {
        s.drop_last().filter(p)
    });
    if p(x) {
        assert(s.filter(p) =~= seq![x]);
    } else {
        assert(s.filter(p) =~= Seq::<A>::empty());
    }
}

// ---------------------------------------------------------------------------
// Keyword search
// ---------------------------------------------------------------------------

/// A stored row passes the time and app filters.
pub open spec fn time_app_ok(
    r: ScreenshotV,
    start: Option<i64>,
    end: Option<i64>,
    app: Option<Seq<char>>,
) -> bool {
    &&& match start {
        Some(s) => r.timestamp >= s,
        None => true,
    }
    &&& match end {
        Some(e) => r.timestamp <= e,
        None => true,
    }
    &&& match app {
        Some(a) => r.app_name == Some(a),
        None => true,
    }
}

/// Some shadow-index row for this id matches every query token.
pub open spec fn fts_matches_id(fts: Seq<FtsRowV>, id: int, qt: Seq<Seq<char>>) -> bool {
    exists|i: int|
        0 <= i < fts.len() && (#[trigger] fts[i]).screenshot_id == id && text::query_matches(
            qt,
            text::spec_tokens(fts[i].text_content),
        )
}

/// The keyword-search predicate: filters plus a full-text match.
pub open spec fn keyword_pred(
    fts: Seq<FtsRowV>,
    qt: Seq<Seq<char>>,
    start: Option<i64>,
    end: Option<i64>,
    app: Option<Seq<char>>,
) -> spec_fn(ScreenshotV) -> bool {
    |r: ScreenshotV| time_app_ok(r, start, end, app) && fts_matches_id(fts, r.id, qt)
}

/// Exactly the stored rows that pass the filters and match the query, in
/// table order.
pub open spec fn matched_rows(
    rows: Seq<ScreenshotV>,
    fts: Seq<FtsRowV>,
    qt: Seq<Seq<char>>,
    start: Option<i64>,
    end: Option<i64>,
    app: Option<Seq<char>>,
) -> Seq<ScreenshotV> {
    rows.filter(keyword_pred(fts, qt, start, end, app))
}

/// The ranking order of keyword results: most recent first, with the higher
/// id first among equal timestamps. This is the engine's ranking
/// convention: a full-text index's own relevance score is floating point,
/// which the engine does not model, so recency ranks the matches instead.
pub open spec fn newest_first(a: ScreenshotV, b: ScreenshotV) -> bool {
    a.timestamp > b.timestamp || (a.timestamp == b.timestamp && a.id >= b.id)
}

/// A row sequence in ranking order.
pub open spec fn ranked_ok(s: Seq<ScreenshotV>) -> bool {
    forall|i: int, j: int|
        0 <= i < j < s.len() ==> newest_first(#[trigger] s[i], #[trigger] s[j])
}

/// A search hit carries the fields of its row, its rank, and no group
/// annotation yet.
pub open spec fn hit_corresponds(
    h: crate::schema::SearchResultV,
    row: ScreenshotV,
    rank: int,
) -> bool {
    &&& h.id == row.id
    &&& h.timestamp == row.timestamp
    &&& h.app_name == row.app_name
    &&& h.window_title == row.window_title
    &&& h.thumbnail_path == row.thumbnail_path
    &&& h.file_path == row.file_path
    &&& h.rank == rank
    &&& h.group_count is None
    &&& h.group_screenshot_ids is None
}

/// A ranked slate of preliminary hits over the ranked rows, starting at
/// `base_rank`, each with a highlighted snippet.
pub open spec fn results_correspond(
    prelim: Seq<crate::schema::SearchResultV>,
    ranked: Seq<ScreenshotV>,
    base_rank: int,
) -> bool {
    &&& prelim.len() == ranked.len()
    &&& forall|k: int|
        0 <= k < prelim.len() ==> hit_corresponds(#[trigger] prelim[k], ranked[k], base_rank + k)
    &&& forall|k: int|
        0 <= k < prelim.len() ==> text::has_sub((#[trigger] prelim[k]).matched_text, "<mark>"@)
    &&& forall|k: int|
        0 <= k < prelim.len() ==> text::has_sub((#[trigger] prelim[k]).matched_text, "</mark>"@)
}

/// The page `[offset, offset + limit)` of a sequence, clamped to its length.
pub open spec fn page_of<A>(s: Seq<A>, offset: int, limit: int) -> Seq<A> {
    let lo = if offset <= s.len() {
        offset
    } else {
        s.len() as int
    };
    let hi = if offset + limit <= s.len() {
        offset + limit
    } else {
        s.len() as int
    };
    s.subrange(lo, hi)
}

/// The over-fetch budget when scene dedup is on: three pages, capped at 300.
pub open spec fn overfetch_of(limit: int) -> int {
    if 3 * limit <= 300 {
        3 * limit
    } else {
        300
    }
}

/// How many ranked hits the dedup pass looks at.
pub open spec fn fetch_len(ranked_len: int, limit: int) -> int {
    if overfetch_of(limit) <= ranked_len {
        overfetch_of(limit)
    } else {
        ranked_len
    }
}

/// What a keyword search with the given threshold returns: the matching rows
/// are ranked newest-first; with dedup off the page is cut straight from the
/// ranked hits and the total counts every match; with dedup on the first
/// `overfetch_of(limit)` ranked hits are scene-deduplicated, the page is cut
/// from the deduplicated list, and the total counts its length.
pub open spec fn keyword_response_ok(
    rows: Seq<ScreenshotV>,
    fts: Seq<FtsRowV>,
    query: Seq<char>,
    start: Option<i64>,
    end: Option<i64>,
    app: Option<Seq<char>>,
    limit: int,
    offset: int,
    threshold: u32,
    results: Seq<crate::schema::SearchResultV>,
    total: int,
) -> bool {
    let qt = text::spec_tokens(query);
    let matched = matched_rows(rows, fts, qt, start, end, app);
    exists|ranked: Seq<ScreenshotV>|
        {
            &&& #[trigger] ranked.to_multiset() == matched.to_multiset()
            &&& ranked_ok(ranked)
            &&& if threshold == 0 {
                exists|prelim: Seq<crate::schema::SearchResultV>|
                    {
                        &&& #[trigger] results_correspond(prelim, ranked, 0)
                        &&& results == page_of(prelim, offset, limit)
                        &&& total == matched.len()
                    }
            } else {
                exists|prelim: Seq<crate::schema::SearchResultV>|
                    {
                        &&& #[trigger] results_correspond(
                            prelim,
                            ranked.subrange(0, fetch_len(ranked.len() as int, limit)),
                            0,
                        )
                        &&& results == page_of(dedup_output(prelim, rows, threshold), offset, limit)
                        &&& total == dedup_output(prelim, rows, threshold).len()
                    }
            }
        }
}

/// An executable search hit before ranking: the row and its snippet.
struct Hit {
    row: Screenshot,
    snippet: String,
}

/// The mathematical value of a hit.
#[verifier::ext_equal]
pub ghost struct HitV {
    pub row: ScreenshotV,
    pub snippet: Seq<char>,
}

impl View for Hit {
    type V = HitV;

    closed spec fn view(&self) -> HitV {
        HitV { row: self.row@, snippet: self.snippet@ }
    }
}

/// Views of a sequence of hits.
spec fn hit_views(s: Seq<Hit>) -> Seq<HitV> {
    s.map(|i: int, h: Hit| h@)
}

/// The rows of a sequence of hit views.
spec fn hit_rows(s: Seq<HitV>) -> Seq<ScreenshotV> {
    s.map(|i: int, h: HitV| h.row)
}

/// Ranking order lifted to hits.
spec fn hit_le(a: HitV, b: HitV) -> bool {
    newest_first(a.row, b.row)
}

/// A hit sequence in ranking order.
spec fn hits_sorted(s: Seq<HitV>) -> bool {
    forall|i: int, j: int| 0 <= i < j < s.len() ==> hit_le(#[trigger] s[i], #[trigger] s[j])
}

/// Append the characters of a vector.
fn append_chars(out: &mut Vec<char>, s: &Vec<char>)
    ensures
        final(out)@ == old(out)@ + s@,
{
    let mut i: usize = 0;
    while i < s.len()
        invariant
            i <= s@.len(),
            out@ == old(out)@ + s@.subrange(0, i as int),
        decreases s@.len() - i,
    {
        out.push(s[i]);
        i = i + 1;
        proof {
            assert(out@ =~= old(out)@ + s@.subrange(0, i as int));
        }
    }
    proof {
        assert(out@ =~= old(out)@ + s@);
    }
}

/// Append the characters of a string slice.
fn append_str(out: &mut Vec<char>, s: &str)
    ensures
        final(out)@ == old(out)@ + s@,
{
    let v = text::chars_of(s);
    append_chars(out, &v);
}

/// Build a highlighted snippet for a matching text: a window of at most 32
/// tokens starting at the first token that matches the query, with that
/// token wrapped in `<mark>`/`</mark>` and ellipses marking truncation.
fn make_snippet(content: &String, q_tokens: &Vec<Vec<char>>) -> (r: String)
    ensures
        text::query_matches(text::token_views(q_tokens@), text::spec_tokens(content@)) ==> text::has_sub(
            r@,
            "<mark>"@,
        ),
        text::query_matches(text::token_views(q_tokens@), text::spec_tokens(content@)) ==> text::has_sub(
            r@,
            "</mark>"@,
        ),
{
    let chars = text::chars_of(content.as_str());
    let toks = text::tokenize(&chars);
    let n = toks.len();
    // first token matching any query token
    let mut first: usize = n;
    let mut fi: usize = 0;
    while fi < n && first == n
        invariant
            n == toks@.len(),
            fi <= n,
            first == n ==> forall|j: int|
                0 <= j < fi ==> !text::has_token(
                    text::token_views(q_tokens@),
                    (#[trigger] text::token_views(toks@)[j]),
                ),
            first <= n,
            first < n ==> text::has_token(
                text::token_views(q_tokens@),
                text::token_views(toks@)[first as int],
            ),
        decreases n - fi + (if first == n { 1int } else { 0int }),
    {
        if text::has_token_in(q_tokens, &toks[fi]) {
            first = fi;
            proof {
                assert(text::token_views(toks@)[fi as int] == toks@[fi as int]@);
            }
        } else {
            proof {
                assert(text::token_views(toks@)[fi as int] == toks@[fi as int]@);
            }
            fi = fi + 1;
        }
    }
    let mut out: Vec<char> = Vec::new();
    let ghost qtv = text::token_views(q_tokens@);
    if first < n {
        let last = if n - first <= 32 {
            n
        } else {
            first + 32
        };
        if first > 0 {
            append_str(&mut out, "...");
        }
        let ghost mark_pos = out@.len();
        append_str(&mut out, "<mark>");
        proof {
            reveal_strlit("<mark>");
            assert(out@.subrange(mark_pos as int, mark_pos as int + "<mark>"@.len() as int)
                =~= "<mark>"@);
            assert(text::has_sub(out@, "<mark>"@));
        }
        let ghost after_mark = out@;
        append_chars(&mut out, &toks[first]);
        proof {
            text::lemma_has_sub_extend(after_mark, toks@[first as int]@, "<mark>"@);
        }
        let ghost after_tok = out@;
        append_str(&mut out, "</mark>");
        proof {
            text::lemma_has_sub_extend(after_tok, "</mark>"@, "<mark>"@);
            assert(text::has_sub("</mark>"@, "</mark>"@)) by {
                assert("</mark>"@.subrange(0, 0 + "</mark>"@.len() as int) =~= "</mark>"@);
            }
            text::lemma_has_sub_prepend(after_tok, "</mark>"@, "</mark>"@);
            assert(out@ =~= after_tok + "</mark>"@);
        }
        let mut k: usize = first + 1;
        while k < last
            invariant
                n == toks@.len(),
                first < k <= last <= n,
                text::has_sub(out@, "<mark>"@),
                text::has_sub(out@, "</mark>"@),
            decreases last - k,
        {
            let ghost before = out@;
            append_str(&mut out, " ");
            proof {
                text::lemma_has_sub_extend(before, " "@, "<mark>"@);
                text::lemma_has_sub_extend(before, " "@, "</mark>"@);
                assert(before + " "@ =~= out@);
            }
            let ghost before2 = out@;
            append_chars(&mut out, &toks[k]);
            proof {
                text::lemma_has_sub_extend(before2, toks@[k as int]@, "<mark>"@);
                text::lemma_has_sub_extend(before2, toks@[k as int]@, "</mark>"@);
                assert(before2 + toks@[k as int]@ =~= out@);
            }
            k = k + 1;
        }
        if last < n {
            let ghost before3 = out@;
            append_str(&mut out, "...");
            proof {
                text::lemma_has_sub_extend(before3, "..."@, "<mark>"@);
                text::lemma_has_sub_extend(before3, "..."@, "</mark>"@);
                assert(before3 + "..."@ =~= out@);
            }
        }
    } else {
        // no matching token: emit the leading window without marks
        proof {
            assert(text::token_views(toks@) == text::spec_tokens(content@));
            if text::query_matches(qtv, text::spec_tokens(content@)) {
                text::lemma_match_witness(qtv, text::token_views(toks@));
                let j = choose|j: int|
                    0 <= j < text::token_views(toks@).len() && text::has_token(
                        qtv,
                        #[trigger] text::token_views(toks@)[j],
                    );
                assert(false);
            }
        }
        let last = if 32 <= n {
            32
        } else {
            n
        };
        let mut k: usize = 0;
        while k < last
            invariant
                n == toks@.len(),
                k <= last <= n,
            decreases last - k,
        {
            if k > 0 {
                append_str(&mut out, " ");
            }
            append_chars(&mut out, &toks[k]);
            k = k + 1;
        }
    }
    text::string_from_chars(&out)
}

/// Every index of a strictly increasing id sequence is a lower bound for
/// its id.
proof fn lemma_id_lower_bound(rows: Seq<ScreenshotV>, i: int)
    requires
        forall|p: int, q: int|
            0 <= p < q < rows.len() ==> (#[trigger] rows[p]).id < (#[trigger] rows[q]).id,
        forall|p: int| 0 <= p < rows.len() ==> 1 <= (#[trigger] rows[p]).id,
        0 <= i < rows.len(),
    ensures
        rows[i].id >= 1 + i,
    decreases i,
{
    if i > 0 {
        lemma_id_lower_bound(rows, i - 1);
        assert(rows[i - 1].id < rows[i].id);
    }
}

/// With unique monotone ids below `i64::MAX`, the table cannot hold more
/// than `i64::MAX` rows.
proof fn lemma_rows_len_bound(rows: Seq<ScreenshotV>, bound: int)
    requires
        forall|p: int, q: int|
            0 <= p < q < rows.len() ==> (#[trigger] rows[p]).id < (#[trigger] rows[q]).id,
        forall|p: int| 0 <= p < rows.len() ==> 1 <= (#[trigger] rows[p]).id < bound,
        0 <= bound,
    ensures
        rows.len() <= bound,
{
    if rows.len() > 0 {
        lemma_id_lower_bound(rows, rows.len() - 1);
        assert(rows[rows.len() - 1].id < bound);
    }
}

impl Database {
    /// The matching shadow-index text for a screenshot, if any row for this
    /// id matches every query token.
    fn find_fts_match(&self, id: i64, q_tokens: &Vec<Vec<char>>) -> (r: Option<String>)
        requires
            self.wf(),
        ensures
            match r {
                Some(t) => fts_matches_id(self.fts(), id as int, text::token_views(q_tokens@))
                    && text::query_matches(text::token_views(q_tokens@), text::spec_tokens(t@)),
                None => !fts_matches_id(self.fts(), id as int, text::token_views(q_tokens@)),
            },
    {
        let n = self.fts_rows.len();
        let mut i: usize = 0;
        while i < n
            invariant
                self.wf(),
                n == self.fts().len(),
                i <= n,
                forall|j: int|
                    0 <= j < i ==> !((#[trigger] self.fts()[j]).screenshot_id == id as int
                        && text::query_matches(
                        text::token_views(q_tokens@),
                        text::spec_tokens(self.fts()[j].text_content),
                    )),
            decreases n - i,
        {
            if self.fts_rows[i].screenshot_id == id {
                let content_chars = text::chars_of(self.fts_rows[i].text_content.as_str());
                let t_tokens = text::tokenize(&content_chars);
                if text::text_matches(q_tokens, &t_tokens) {
                    let t = self.fts_rows[i].text_content.clone();
                    proof {
                        assert((#[trigger] self.fts()[i as int]).screenshot_id == id as int);
                        assert(text::query_matches(
                            text::token_views(q_tokens@),
                            text::spec_tokens(self.fts()[i as int].text_content),
                        ));
                    }
                    return Some(t);
                }
            }
            i = i + 1;
        }
        None
    }

    /// Collect the rows passing the filters and matching the query, each
    /// with its highlighted snippet, in table order.
    fn collect_hits(&self, q_tokens: &Vec<Vec<char>>, filters: &SearchFilters) -> (r: Vec<Hit>)
        requires
            self.wf(),
        ensures
            hit_rows(hit_views(r@)) == matched_rows(
                self.rows(),
                self.fts(),
                text::token_views(q_tokens@),
                filters.start_time,
                filters.end_time,
                filters.app_name.deep_view(),
            ),
            forall|k: int|
                0 <= k < r@.len() ==> text::has_sub(
                    (#[trigger] hit_views(r@)[k]).snippet,
                    "<mark>"@,
                ),
            forall|k: int|
                0 <= k < r@.len() ==> text::has_sub(
                    (#[trigger] hit_views(r@)[k]).snippet,
                    "</mark>"@,
                ),
    {
        let ghost qt = text::token_views(q_tokens@);
        let ghost start = filters.start_time;
        let ghost end = filters.end_time;
        let ghost app = filters.app_name.deep_view();
        let ghost pred = keyword_pred(self.fts(), qt, start, end, app);
        let n = self.screenshots.len();
        let mut hits: Vec<Hit> = Vec::new();
        let mut i: usize = 0;
        proof {
            assert(self.rows().subrange(0, 0) =~= Seq::<ScreenshotV>::empty());
            assert(Seq::<ScreenshotV>::empty().filter(pred) =~= Seq::<ScreenshotV>::empty()) by {
                reveal(Seq::filter);
            }
            assert(hit_rows(hit_views(hits@)) =~= Seq::<ScreenshotV>::empty());
        }
        while i < n
            invariant
                self.wf(),
                n == self.rows().len(),
                i <= n,
                qt == text::token_views(q_tokens@),
                start == filters.start_time,
                end == filters.end_time,
                app == filters.app_name.deep_view(),
                pred == keyword_pred(self.fts(), qt, start, end, app),
                hit_rows(hit_views(hits@)) == self.rows().subrange(0, i as int).filter(pred),
                forall|k: int|
                    0 <= k < hits@.len() ==> text::has_sub(
                        (#[trigger] hit_views(hits@)[k]).snippet,
                        "<mark>"@,
                    ),
                forall|k: int|
                    0 <= k < hits@.len() ==> text::has_sub(
                        (#[trigger] hit_views(hits@)[k]).snippet,
                        "</mark>"@,
                    ),
            decreases n - i,
        {
            let row = &self.screenshots[i];
            let ghost rv = self.rows()[i as int];
            proof {
                assert(rv == self.screenshots@[i as int]@);
            }
            let time_ok = (match filters.start_time {
                Some(s) => row.timestamp >= s,
                None => true,
            }) && (match filters.end_time {
                Some(e) => row.timestamp <= e,
                None => true,
            });
            let app_ok = match &filters.app_name {
                Some(a) => match &row.app_name {
                    Some(b) => text::str_eq(b.as_str(), a.as_str()),
                    None => false,
                },
                None => true,
            };
            let mut added: bool = false;
            if time_ok && app_ok {
                match self.find_fts_match(row.id, q_tokens) {
                    Some(content) => {
                        let snippet = make_snippet(&content, q_tokens);
                        let ghost prev = hit_views(hits@);
                        hits.push(Hit { row: row.duplicate(), snippet });
                        added = true;
                        proof {
                            assert(pred(rv));
                            assert(hit_views(hits@) =~~= prev.push(
                                HitV { row: rv, snippet: snippet@ },
                            ));
                            assert(hit_rows(hit_views(hits@)) =~= hit_rows(prev).push(rv));
                        }
                    },
                    None => {
                        proof {
                            assert(!pred(rv));
                        }
                    },
                }
            } else {
                proof {
                    if !time_ok {
                        assert(!time_app_ok(rv, start, end, app));
                    } else {
                        assert(!app_ok);
                        assert(!time_app_ok(rv, start, end, app));
                    }
                    assert(!pred(rv));
                }
            }
            i = i + 1;
            proof {
                assert(self.rows().subrange(0, i as int) =~= self.rows().subrange(0, i - 1)
                    + seq![rv]);
                Seq::filter_distributes_over_add(self.rows().subrange(0, i - 1), seq![rv], pred);
                lemma_filter_singleton(rv, pred);
                if added {
                    assert(hit_rows(hit_views(hits@)) =~= self.rows().subrange(0, i as int).filter(
                        pred,
                    ));
                } else {
                    assert(hit_rows(hit_views(hits@)) =~= self.rows().subrange(0, i as int).filter(
                        pred,
                    ));
                }
            }
        }
        proof {
            assert(self.rows().subrange(0, n as int) =~= self.rows());
        }
        hits
    }
}

/// Sort hits into ranking order (newest first) by insertion sort.
fn sort_hits(hits: Vec<Hit>) -> (r: Vec<Hit>)
    ensures
        hit_views(r@).to_multiset() == hit_views(hits@).to_multiset(),
        hit_rows(hit_views(r@)).to_multiset() == hit_rows(hit_views(hits@)).to_multiset(),
        hits_sorted(hit_views(r@)),
        r@.len() == hits@.len(),
{
    broadcast use vstd::seq_lib::group_to_multiset_ensures;
    broadcast use vstd::multiset::group_multiset_axioms;

    let ghost full = hit_views(hits@);
    let mut rest = hits;
    let mut out: Vec<Hit> = Vec::new();
    proof {
        assert(hit_views(out@).to_multiset() =~= Multiset::<HitV>::empty());
        assert(hit_rows(hit_views(out@)).to_multiset() =~= Multiset::<ScreenshotV>::empty());
        vstd::seq_lib::lemma_multiset_commutative(hit_views(out@), hit_views(rest@));
        assert(hit_views(out@) + hit_views(rest@) =~= hit_views(rest@));
        vstd::seq_lib::lemma_multiset_commutative(
            hit_rows(hit_views(out@)),
            hit_rows(hit_views(rest@)),
        );
        assert(hit_rows(hit_views(out@)) + hit_rows(hit_views(rest@)) =~= hit_rows(
            hit_views(rest@),
        ));
    }
    while rest.len() > 0
        invariant
            hit_views(out@).to_multiset().add(hit_views(rest@).to_multiset())
                == full.to_multiset(),
            hit_rows(hit_views(out@)).to_multiset().add(hit_rows(hit_views(rest@)).to_multiset())
                == hit_rows(full).to_multiset(),
            hits_sorted(hit_views(out@)),
            out@.len() + rest@.len() == full.len(),
        decreases rest@.len(),
    {
        let ghost prev_rest = hit_views(rest@);
        let h = rest.remove(0);
        proof {
            assert(hit_views(rest@) =~= prev_rest.remove(0));
            vstd::seq_lib::to_multiset_remove::<HitV>(prev_rest, 0);
            assert(h@ == prev_rest[0]);
            assert(hit_rows(hit_views(rest@)) =~= hit_rows(prev_rest).remove(0));
            vstd::seq_lib::to_multiset_remove::<ScreenshotV>(hit_rows(prev_rest), 0);
            assert(hit_rows(prev_rest)[0] == prev_rest[0].row);
        }
        // find the insertion point
        let mut pos: usize = 0;
        while pos < out.len() && cmp_hits(&out[pos], &h)
            invariant
                pos <= out@.len(),
                forall|k: int| 0 <= k < pos ==> hit_le(#[trigger] hit_views(out@)[k], h@),
            decreases out@.len() - pos,
        {
            proof {
                assert(hit_views(out@)[pos as int] == out@[pos as int]@);
            }
            pos = pos + 1;
        }
        proof {
            if pos < out@.len() {
                assert(hit_views(out@)[pos as int] == out@[pos as int]@);
                assert(!hit_le(hit_views(out@)[pos as int], h@));
                assert(hit_le(h@, hit_views(out@)[pos as int]));
            }
        }
        let ghost prev_out = hit_views(out@);
        out.insert(pos, h);
        proof {
            assert(hit_views(out@) =~= prev_out.insert(pos as int, prev_rest[0]));
            lemma_insert_to_multiset(prev_out, pos as int, prev_rest[0]);
            assert(prev_rest.contains(prev_rest[0])) by {
                assert(prev_rest[0] == prev_rest[0]);
            }
            vstd::seq_lib::to_multiset_contains::<HitV>(prev_rest, prev_rest[0]);
            assert(prev_rest.to_multiset().count(prev_rest[0]) > 0);
            assert(hit_rows(hit_views(out@)) =~= hit_rows(prev_out).insert(
                pos as int,
                prev_rest[0].row,
            ));
            lemma_insert_to_multiset(hit_rows(prev_out), pos as int, prev_rest[0].row);
            assert(hit_rows(prev_rest).contains(hit_rows(prev_rest)[0])) by {
                assert(hit_rows(prev_rest)[0] == hit_rows(prev_rest)[0]);
            }
            vstd::seq_lib::to_multiset_contains::<ScreenshotV>(
                hit_rows(prev_rest),
                hit_rows(prev_rest)[0],
            );
            assert(hit_rows(hit_views(out@)).to_multiset().add(
                hit_rows(hit_views(rest@)).to_multiset(),
            ) =~= hit_rows(full).to_multiset());
            assert(hit_views(out@).to_multiset().add(hit_views(rest@).to_multiset())
                =~= full.to_multiset());
            // sortedness after insertion
            let cur = hit_views(out@);
            assert forall|p: int, q: int| 0 <= p < q < cur.len() implies hit_le(cur[p], cur[q]) by {
                if q < pos {
                    assert(cur[p] == prev_out[p] && cur[q] == prev_out[q]);
                } else if p < pos && q == pos {
                    assert(cur[p] == prev_out[p]);
                    assert(hit_le(prev_out[p], prev_rest[0]));
                } else if p < pos && q > pos {
                    assert(cur[p] == prev_out[p] && cur[q] == prev_out[q - 1]);
                } else if p == pos && q > pos {
                    assert(cur[q] == prev_out[q - 1]);
                    assert(pos < prev_out.len() + 1);
                    assert(q - 1 >= pos);
                    if pos < prev_out.len() {
                        assert(hit_le(prev_out[pos as int], prev_out[q - 1]) || pos == q - 1);
                        assert(hit_le(prev_rest[0], prev_out[pos as int]));
                    }
                } else {
                    assert(cur[p] == prev_out[p - 1] && cur[q] == prev_out[q - 1]);
                }
            }
        }
    }
    proof {
        assert(hit_views(rest@).to_multiset() =~= Multiset::<HitV>::empty());
        assert(hit_views(out@).to_multiset() =~= full.to_multiset());
    }
    out
}

/// Executable ranking comparison.
fn cmp_hits(a: &Hit, b: &Hit) -> (r: bool)
    ensures
        r == hit_le(a@, b@),
{
    a.row.timestamp > b.row.timestamp || (a.row.timestamp == b.row.timestamp && a.row.id
        >= b.row.id)
}

/// Inserting an element adds it to the multiset of the sequence.
pub proof fn lemma_insert_to_multiset<A>(s: Seq<A>, p: int, x: A)
    requires
        0 <= p <= s.len(),
    ensures
        s.insert(p, x).to_multiset() == s.to_multiset().insert(x),
{
    broadcast use vstd::seq_lib::group_to_multiset_ensures;

    let left = s.subrange(0, p);
    let right = s.subrange(p, s.len() as int);
    assert(s.insert(p, x) =~= left.push(x) + right);
    vstd::seq_lib::lemma_multiset_commutative(left.push(x), right);
    assert(s =~= left + right);
    vstd::seq_lib::lemma_multiset_commutative(left, right);
    assert(left.push(x).to_multiset() =~= left.to_multiset().insert(x));
    assert(left.to_multiset().insert(x).add(right.to_multiset()) =~= left.to_multiset().add(
        right.to_multiset(),
    ).insert(x));
}

impl Database {
    /// Full-text keyword search with filters, snippet highlighting,
    /// pagination, and (by default) scene dedup.
    pub fn search(&self, filters: &SearchFilters) -> (r: Result<SearchResponse, CoreError>)
        requires
            self.wf(),
            0 <= filters.limit,
            0 <= filters.offset,
        ensures
            r is Ok <==> text::spec_tokens(filters.query@).len() > 0,
            r is Ok ==> keyword_response_ok(
                self.rows(),
                self.fts(),
                filters.query@,
                filters.start_time,
                filters.end_time,
                filters.app_name.deep_view(),
                filters.limit as int,
                filters.offset as int,
                crate::DEDUP_THRESHOLD,
                result_views(r.unwrap().results@),
                r.unwrap().total_count as int,
            ) && r.unwrap().search_mode.deep_view() == Some("keyword"@),
    {
        self.search_deduped(filters, crate::DEDUP_THRESHOLD)
    }

    /// Keyword search with a configurable dedup threshold; a zero threshold
    /// disables scene dedup, in which case pagination happens directly on
    /// the ranked hits and the total counts every match. Fails exactly when
    /// the query has no search tokens.
    pub fn search_deduped(&self, filters: &SearchFilters, dedup_threshold: u32) -> (r: Result<
        SearchResponse,
        CoreError,
    >)
        requires
            self.wf(),
            0 <= filters.limit,
            0 <= filters.offset,
        ensures
            r is Ok <==> text::spec_tokens(filters.query@).len() > 0,
            r is Ok ==> keyword_response_ok(
                self.rows(),
                self.fts(),
                filters.query@,
                filters.start_time,
                filters.end_time,
                filters.app_name.deep_view(),
                filters.limit as int,
                filters.offset as int,
                dedup_threshold,
                result_views(r.unwrap().results@),
                r.unwrap().total_count as int,
            ) && r.unwrap().search_mode.deep_view() == Some("keyword"@),
    {
        broadcast use vstd::seq_lib::group_to_multiset_ensures;

        let q_chars = text::chars_of(filters.query.as_str());
        let q_tokens = text::tokenize(&q_chars);
        if q_tokens.len() == 0 {
            proof {
                assert(text::token_views(q_tokens@) =~= text::spec_tokens(filters.query@));
            }
            return Err(CoreError::Database(String::from_str("empty search query")));
        }
        let ghost qt = text::spec_tokens(filters.query@);
        proof {
            assert(text::token_views(q_tokens@) == qt);
        }
        let ghost start = filters.start_time;
        let ghost end = filters.end_time;
        let ghost app = filters.app_name.deep_view();
        let ghost matchedv = matched_rows(self.rows(), self.fts(), qt, start, end, app);
        let hits = self.collect_hits(&q_tokens, filters);
        let ghost collected = hit_views(hits@);
        proof {
            Seq::lemma_filter_len(self.rows(), keyword_pred(self.fts(), qt, start, end, app));
            lemma_rows_len_bound(self.rows(), i64::MAX as int);
        }
        let sorted = sort_hits(hits);
        let ghost ranked = hit_rows(hit_views(sorted@));
        proof {
            assert(ranked.to_multiset() == matchedv.to_multiset());
            assert(ranked_ok(ranked)) by {
                assert forall|p: int, q: int|
                    0 <= p < q < ranked.len() implies newest_first(ranked[p], ranked[q]) by {
                    assert(hit_le(hit_views(sorted@)[p], hit_views(sorted@)[q]));
                }
            }
            vstd::seq_lib::to_multiset_len::<ScreenshotV>(ranked);
            vstd::seq_lib::to_multiset_len::<ScreenshotV>(matchedv);
            assert(ranked.len() == matchedv.len());
            // every sorted hit is one of the collected hits, so its snippet
            // still carries the highlight
            assert forall|j: int|
                0 <= j < hit_views(sorted@).len() implies text::has_sub(
                (#[trigger] hit_views(sorted@)[j]).snippet,
                "<mark>"@,
            ) && text::has_sub(hit_views(sorted@)[j].snippet, "</mark>"@) by {
                let x = hit_views(sorted@)[j];
                assert(hit_views(sorted@).contains(x)) by {
                    assert(hit_views(sorted@)[j] == x);
                }
                vstd::seq_lib::to_multiset_contains::<HitV>(hit_views(sorted@), x);
                vstd::seq_lib::to_multiset_contains::<HitV>(collected, x);
                assert(collected.contains(x));
                let i = choose|i: int| 0 <= i < collected.len() && collected[i] == x;
                assert(text::has_sub(collected[i].snippet, "<mark>"@));
                assert(text::has_sub(collected[i].snippet, "</mark>"@));
            }
        }
        // preliminary results in rank order
        let n = sorted.len();
        let mut prelim: Vec<SearchResult> = Vec::new();
        let mut k: usize = 0;
        proof {
            assert(result_views(prelim@) =~= Seq::<crate::schema::SearchResultV>::empty());
        }
        while k < n
            invariant
                n == sorted@.len(),
                n <= 0x7fff_ffff_ffff_ffff,
                k <= n,
                ranked == hit_rows(hit_views(sorted@)),
                forall|j: int|
                    0 <= j < sorted@.len() ==> text::has_sub(
                        (#[trigger] hit_views(sorted@)[j]).snippet,
                        "<mark>"@,
                    ),
                forall|j: int|
                    0 <= j < sorted@.len() ==> text::has_sub(
                        (#[trigger] hit_views(sorted@)[j]).snippet,
                        "</mark>"@,
                    ),
                result_views(prelim@).len() == k,
                results_correspond(result_views(prelim@), ranked.subrange(0, k as int), 0),
            decreases n - k,
        {
            let h = &sorted[k];
            let item = SearchResult {
                id: h.row.id,
                timestamp: h.row.timestamp,
                app_name: crate::schema::clone_opt_string(&h.row.app_name),
                window_title: crate::schema::clone_opt_string(&h.row.window_title),
                thumbnail_path: crate::schema::clone_opt_string(&h.row.thumbnail_path),
                file_path: h.row.file_path.clone(),
                matched_text: h.snippet.clone(),
                rank: k as i64,
                group_count: None,
                group_screenshot_ids: None,
            };
            proof {
                assert(hit_views(sorted@)[k as int] == sorted@[k as int]@);
                assert(hit_corresponds(item@, ranked[k as int], k as int));
                assert(text::has_sub(item@.matched_text, "<mark>"@));
                assert(text::has_sub(item@.matched_text, "</mark>"@));
            }
            let ghost prevp = result_views(prelim@);
            prelim.push(item);
            k = k + 1;
            proof {
                assert(result_views(prelim@) =~~= prevp.push(item@));
                assert(ranked.subrange(0, k as int).drop_last() =~= ranked.subrange(0, k - 1));
                assert(results_correspond(result_views(prelim@), ranked.subrange(0, k as int), 0));
            }
        }
        proof {
            assert(ranked.subrange(0, n as int) =~= ranked);
        }
        let mode = String::from_str("keyword");
        if dedup_threshold == 0 {
            let total: i64 = n as i64;
            let page = page_results(prelim, filters.offset, filters.limit);
            let resp = SearchResponse { results: page, total_count: total, search_mode: Some(mode) };
            proof {
                let respv = result_views(resp.results@);
                assert(results_correspond(result_views(prelim@), ranked, 0));
                assert(respv == page_of(
                    result_views(prelim@),
                    filters.offset as int,
                    filters.limit as int,
                ));
                assert(keyword_response_ok(
                    self.rows(),
                    self.fts(),
                    filters.query@,
                    start,
                    end,
                    app,
                    filters.limit as int,
                    filters.offset as int,
                    dedup_threshold,
                    respv,
                    total as int,
                ));
            }
            Ok(resp)
        } else {
            let over: usize = if filters.limit >= 100 {
                300
            } else {
                (filters.limit * 3) as usize
            };
            proof {
                assert(over as int == overfetch_of(filters.limit as int));
            }
            let mut fetched = prelim;
            fetched.truncate(over);
            let ghost fl = fetch_len(ranked.len() as int, filters.limit as int);
            proof {
                if over as int <= result_views(prelim@).len() {
                    assert(result_views(fetched@) =~= result_views(prelim@).subrange(
                        0,
                        over as int,
                    ));
                } else {
                    assert(result_views(fetched@) =~= result_views(prelim@));
                    assert(result_views(fetched@) =~= result_views(prelim@).subrange(
                        0,
                        result_views(prelim@).len() as int,
                    ));
                }
                assert(results_correspond(result_views(fetched@), ranked.subrange(0, fl), 0));
            }
            let ghost fetchedv = result_views(fetched@);
            let deduped_r = self.deduplicate_results(fetched, dedup_threshold);
            let deduped = match deduped_r {
                Ok(d) => d,
                Err(e) => {
                    proof {
                        assert(false);
                    }
                    return Err(e);
                },
            };
            proof {
                assert(result_views(deduped@) == dedup_output(
                    fetchedv,
                    self.rows(),
                    dedup_threshold,
                ));
                lemma_dedup_groups_wf(
                    ids_of(fetchedv),
                    self.rows(),
                    dedup_threshold,
                    fetchedv.len() as int,
                );
            }
            proof {
                vstd::seq_lib::to_multiset_len::<crate::schema::SearchResultV>(fetchedv);
                assert(result_views(deduped@).len() <= fetchedv.len());
                assert(deduped@.len() <= 300);
            }
            let total: i64 = deduped.len() as i64;
            let page = page_results(deduped, filters.offset, filters.limit);
            let resp = SearchResponse { results: page, total_count: total, search_mode: Some(mode) };
            proof {
                let respv = result_views(resp.results@);
                assert(keyword_response_ok(
                    self.rows(),
                    self.fts(),
                    filters.query@,
                    start,
                    end,
                    app,
                    filters.limit as int,
                    filters.offset as int,
                    dedup_threshold,
                    respv,
                    total as int,
                ));
            }
            Ok(resp)
        }
    }
}

/// Cut one page out of a result list.
fn page_results(v: Vec<SearchResult>, offset: i64, limit: i64) -> (r: Vec<SearchResult>)
    requires
        0 <= offset,
        0 <= limit,
        v@.len() <= 0x7fff_ffff_ffff_ffff,
    ensures
        result_views(r@) == page_of(result_views(v@), offset as int, limit as int),
{
    let len = v.len();
    let lo: usize = if offset >= len as i64 {
        len
    } else {
        offset as usize
    };
    let remaining: usize = len - lo;
    let take: usize = if limit >= remaining as i64 {
        remaining
    } else {
        limit as usize
    };
    let hi: usize = lo + take;
    let mut out: Vec<SearchResult> = Vec::new();
    let mut k: usize = lo;
    proof {
        assert(result_views(out@) =~= result_views(v@).subrange(lo as int, lo as int));
    }
    while k < hi
        invariant
            lo <= k <= hi <= v@.len(),
            result_views(out@) == result_views(v@).subrange(lo as int, k as int),
        decreases hi - k,
    {
        let ghost prev = result_views(out@);
        let item = v[k].duplicate();
        proof {
            assert(item@ == result_views(v@)[k as int]);
        }
        out.push(item);
        k = k + 1;
        proof {
            assert(result_views(out@) =~= prev.push(result_views(v@)[k - 1]));
            assert(result_views(out@) =~= result_views(v@).subrange(lo as int, k as int));
        }
    }
    proof {
        assert(result_views(out@) =~= page_of(
            result_views(v@),
            offset as int,
            limit as int,
        ));
    }
    out
}

// ---------------------------------------------------------------------------
// Browsing, recent hashes, deletion, and the small tables
// ---------------------------------------------------------------------------

/// Two predicates that agree on a sequence filter it identically.
pub proof fn lemma_filter_equiv<A>(s: Seq<A>, p: spec_fn(A) -> bool, q: spec_fn(A) -> bool)
    requires
        forall|i: int| 0 <= i < s.len() ==> (p(#[trigger] s[i]) <==> q(s[i])),
    ensures
        s.filter(p) == s.filter(q),
    decreases s.len(),
{
    reveal(Seq::filter);
    if s.len() > 0 {
        lemma_filter_equiv(s.drop_last(), p, q);
        assert(p(s.last()) <==> q(s.last()));
    }
}

/// The files backing a run of rows: each row's image path, then its
/// thumbnail path if it has one.
pub open spec fn paths_of(rows: Seq<ScreenshotV>) -> Seq<Seq<char>>
    decreases rows.len(),
{
    if rows.len() == 0 {
        Seq::<Seq<char>>::empty()
    } else {
        row_paths(rows[0]) + paths_of(rows.drop_first())
    }
}

/// The files backing one row.
pub open spec fn row_paths(r: ScreenshotV) -> Seq<Seq<char>> {
    match r.thumbnail_path {
        Some(t) => seq![r.file_path, t],
        None => seq![r.file_path],
    }
}

/// `paths_of` distributes over concatenation.
pub proof fn lemma_paths_of_add(a: Seq<ScreenshotV>, b: Seq<ScreenshotV>)
    ensures
        paths_of(a + b) == paths_of(a) + paths_of(b),
    decreases a.len(),
{
    if a.len() == 0 {
        assert(a + b =~= b);
        assert(paths_of(a) + paths_of(b) =~= paths_of(b));
    } else {
        assert((a + b).drop_first() =~= a.drop_first() + b);
        assert((a + b)[0] == a[0]);
        lemma_paths_of_add(a.drop_first(), b);
        assert(row_paths(a[0]) + (paths_of(a.drop_first()) + paths_of(b)) =~= (row_paths(a[0])
            + paths_of(a.drop_first())) + paths_of(b));
    }
}

/// Views of a vector of strings.
pub open spec fn string_views(s: Seq<String>) -> Seq<Seq<char>> {
    s.map(|i: int, x: String| x@)
}

/// Sort screenshot rows into ranking order (newest first).
fn sort_rows(rows: Vec<Screenshot>) -> (r: Vec<Screenshot>)
    ensures
        row_views(r@).to_multiset() == row_views(rows@).to_multiset(),
        ranked_ok(row_views(r@)),
        r@.len() == rows@.len(),
{
    broadcast use vstd::seq_lib::group_to_multiset_ensures;
    broadcast use vstd::multiset::group_multiset_axioms;

    let ghost full = row_views(rows@);
    let mut rest = rows;
    let mut out: Vec<Screenshot> = Vec::new();
    proof {
        assert(row_views(out@).to_multiset() =~= Multiset::<ScreenshotV>::empty());
        vstd::seq_lib::lemma_multiset_commutative(row_views(out@), row_views(rest@));
        assert(row_views(out@) + row_views(rest@) =~= row_views(rest@));
    }
    while rest.len() > 0
        invariant
            row_views(out@).to_multiset().add(row_views(rest@).to_multiset())
                == full.to_multiset(),
            ranked_ok(row_views(out@)),
            out@.len() + rest@.len() == full.len(),
        decreases rest@.len(),
    {
        let ghost prev_rest = row_views(rest@);
        let h = rest.remove(0);
        proof {
            assert(row_views(rest@) =~= prev_rest.remove(0));
            vstd::seq_lib::to_multiset_remove::<ScreenshotV>(prev_rest, 0);
            assert(h@ == prev_rest[0]);
        }
        let mut pos: usize = 0;
        while pos < out.len() && cmp_rows(&out[pos], &h)
            invariant
                pos <= out@.len(),
                forall|k: int| 0 <= k < pos ==> newest_first(#[trigger] row_views(out@)[k], h@),
            decreases out@.len() - pos,
        {
            proof {
                assert(row_views(out@)[pos as int] == out@[pos as int]@);
            }
            pos = pos + 1;
        }
        proof {
            if pos < out@.len() {
                assert(row_views(out@)[pos as int] == out@[pos as int]@);
                assert(!newest_first(row_views(out@)[pos as int], h@));
                assert(newest_first(h@, row_views(out@)[pos as int]));
            }
        }
        let ghost prev_out = row_views(out@);
        out.insert(pos, h);
        proof {
            assert(row_views(out@) =~= prev_out.insert(pos as int, prev_rest[0]));
            lemma_insert_to_multiset(prev_out, pos as int, prev_rest[0]);
            assert(prev_rest.contains(prev_rest[0])) by {
                assert(prev_rest[0] == prev_rest[0]);
            }
            vstd::seq_lib::to_multiset_contains::<ScreenshotV>(prev_rest, prev_rest[0]);
            let cur = row_views(out@);
            assert forall|p: int, q: int|
                0 <= p < q < cur.len() implies newest_first(cur[p], cur[q]) by {
                if q < pos {
                    assert(cur[p] == prev_out[p] && cur[q] == prev_out[q]);
                } else if p < pos && q == pos {
                    assert(cur[p] == prev_out[p]);
                } else if p < pos && q > pos {
                    assert(cur[p] == prev_out[p] && cur[q] == prev_out[q - 1]);
                } else if p == pos && q > pos {
                    assert(cur[q] == prev_out[q - 1]);
                    if pos < prev_out.len() {
                        assert(newest_first(prev_out[pos as int], prev_out[q - 1]) || pos == q
                            - 1);
                    }
                } else {
                    assert(cur[p] == prev_out[p - 1] && cur[q] == prev_out[q - 1]);
                }
            }
        }
    }
    proof {
        assert(row_views(rest@).to_multiset() =~= Multiset::<ScreenshotV>::empty());
        assert(row_views(out@).to_multiset() =~= full.to_multiset());
    }
    out
}

/// Executable ranking comparison on rows.
fn cmp_rows(a: &Screenshot, b: &Screenshot) -> (r: bool)
    ensures
        r == newest_first(a@, b@),
{
    a.timestamp > b.timestamp || (a.timestamp == b.timestamp && a.id >= b.id)
}

impl Database {
    /// Collect the stored rows passing the time and app filters, in table
    /// order.
    fn collect_rows(&self, start: Option<i64>, end: Option<i64>, app: &Option<String>) -> (r: Vec<
        Screenshot,
    >)
        requires
            self.wf(),
        ensures
            row_views(r@) == self.rows().filter(
                |x: ScreenshotV| time_app_ok(x, start, end, app.deep_view()),
            ),
    {
        let ghost pred = |x: ScreenshotV| time_app_ok(x, start, end, app.deep_view());
        let n = self.screenshots.len();
        let mut out: Vec<Screenshot> = Vec::new();
        let mut i: usize = 0;
        proof {
            assert(self.rows().subrange(0, 0) =~= Seq::<ScreenshotV>::empty());
            assert(Seq::<ScreenshotV>::empty().filter(pred) =~= Seq::<ScreenshotV>::empty()) by {
                reveal(Seq::filter);
            }
            assert(row_views(out@) =~= Seq::<ScreenshotV>::empty());
        }
        while i < n
            invariant
                self.wf(),
                n == self.rows().len(),
                i <= n,
                pred == (|x: ScreenshotV| time_app_ok(x, start, end, app.deep_view())),
                row_views(out@) == self.rows().subrange(0, i as int).filter(pred),
            decreases n - i,
        {
            let row = &self.screenshots[i];
            let ghost rv = self.rows()[i as int];
            proof {
                assert(rv == self.screenshots@[i as int]@);
            }
            let time_ok = (match start {
                Some(s) => row.timestamp >= s,
                None => true,
            }) && (match end {
                Some(e) => row.timestamp <= e,
                None => true,
            });
            let app_ok = match app {
                Some(a) => match &row.app_name {
                    Some(b) => text::str_eq(b.as_str(), a.as_str()),
                    None => false,
                },
                None => true,
            };
            if time_ok && app_ok {
                let ghost prev = row_views(out@);
                out.push(row.duplicate());
                proof {
                    assert(pred(rv));
                    assert(row_views(out@) =~= prev.push(rv));
                }
            } else {
                proof {
                    if !time_ok {
                        assert(!time_app_ok(rv, start, end, app.deep_view()));
                    } else {
                        assert(!time_app_ok(rv, start, end, app.deep_view()));
                    }
                    assert(!pred(rv));
                }
            }
            i = i + 1;
            proof {
                assert(self.rows().subrange(0, i as int) =~= self.rows().subrange(0, i - 1)
                    + seq![rv]);
                Seq::filter_distributes_over_add(self.rows().subrange(0, i - 1), seq![rv], pred);
                lemma_filter_singleton(rv, pred);
                assert(row_views(out@) =~= self.rows().subrange(0, i as int).filter(pred));
            }
        }
        proof {
            assert(self.rows().subrange(0, n as int) =~= self.rows());
        }
        out
    }

    /// Browse stored screenshots in a time range, newest first, without a
    /// search query.
    pub fn browse_screenshots(
        &self,
        start_time: Option<i64>,
        end_time: Option<i64>,
        app_name: Option<&str>,
        limit: i64,
        offset: i64,
    ) -> (r: Result<Vec<Screenshot>, CoreError>)
        requires
            self.wf(),
            0 <= limit,
            0 <= offset,
        ensures
            r is Ok,
            exists|ranked: Seq<ScreenshotV>|
                {
                    &&& #[trigger] ranked.to_multiset() == self.rows().filter(
                        |x: ScreenshotV| time_app_ok(x, start_time, end_time, match app_name {
                            Some(a) => Some(a@),
                            None => None,
                        }),
                    ).to_multiset()
                    &&& ranked_ok(ranked)
                    &&& row_views(r.unwrap()@) == page_of(ranked, offset as int, limit as int)
                },
    {
        let app_owned: Option<String> = match app_name {
            Some(a) => Some(String::from_str(a)),
            None => None,
        };
        let matched = self.collect_rows(start_time, end_time, &app_owned);
        proof {
            Seq::lemma_filter_len(
                self.rows(),
                |x: ScreenshotV| time_app_ok(x, start_time, end_time, app_owned.deep_view()),
            );
            lemma_rows_len_bound(self.rows(), i64::MAX as int);
        }
        let sorted = sort_rows(matched);
        let ghost ranked = row_views(sorted@);
        // page the ranked rows
        let len = sorted.len();
        let lo: usize = if offset >= len as i64 {
            len
        } else {
            offset as usize
        };
        let remaining: usize = len - lo;
        let take: usize = if limit >= remaining as i64 {
            remaining
        } else {
            limit as usize
        };
        let hi: usize = lo + take;
        let mut out: Vec<Screenshot> = Vec::new();
        let mut k: usize = lo;
        proof {
            assert(row_views(out@) =~= ranked.subrange(lo as int, lo as int));
        }
        while k < hi
            invariant
                lo <= k <= hi <= sorted@.len(),
                ranked == row_views(sorted@),
                row_views(out@) == ranked.subrange(lo as int, k as int),
            decreases hi - k,
        {
            let ghost prev = row_views(out@);
            let item = sorted[k].duplicate();
            proof {
                assert(item@ == ranked[k as int]);
            }
            out.push(item);
            k = k + 1;
            proof {
                assert(row_views(out@) =~= prev.push(ranked[k - 1]));
                assert(row_views(out@) =~= ranked.subrange(lo as int, k as int));
            }
        }
        proof {
            let p = |x: ScreenshotV| time_app_ok(x, start_time, end_time, match app_name {
                Some(a) => Some(a@),
                None => None,
            });
            let q = |x: ScreenshotV| time_app_ok(x, start_time, end_time, app_owned.deep_view());
            lemma_filter_equiv(self.rows(), p, q);
            assert(row_views(out@) =~= page_of(ranked, offset as int, limit as int));
        }
        Ok(out)
    }

    /// Recent perceptual hashes for dedup: `(id, hash)` for rows captured
    /// strictly after `since_timestamp`, newest first, at most `limit`.
    pub fn get_recent_hashes(&self, since_timestamp: i64, limit: usize) -> (r: Result<
        Vec<(i64, Vec<u8>)>,
        CoreError,
    >)
        requires
            self.wf(),
        ensures
            r is Ok,
            exists|ranked: Seq<ScreenshotV>|
                {
                    &&& #[trigger] ranked.to_multiset() == self.rows().filter(
                        |x: ScreenshotV| x.timestamp > since_timestamp,
                    ).to_multiset()
                    &&& ranked_ok(ranked)
                    &&& r.unwrap()@.len() == (if limit <= ranked.len() {
                        limit as int
                    } else {
                        ranked.len() as int
                    })
                    &&& forall|k: int|
                        0 <= k < r.unwrap()@.len() ==> (#[trigger] r.unwrap()@[k]).0 == ranked[k].id
                            && r.unwrap()@[k].1@ == ranked[k].perceptual_hash
                },
    {
        let ghost since_pred = |x: ScreenshotV| x.timestamp > since_timestamp;
        let start_bound: Option<i64> = if since_timestamp == i64::MAX {
            // nothing can be strictly later
            let empty: Vec<(i64, Vec<u8>)> = Vec::new();
            proof {
                let witness = Seq::<ScreenshotV>::empty();
                assert(self.rows().filter(since_pred) =~= Seq::<ScreenshotV>::empty()) by {
                    lemma_filter_equiv(self.rows(), since_pred, |x: ScreenshotV| false);
                    lemma_filter_false(self.rows());
                }
                assert(witness.to_multiset() =~= self.rows().filter(since_pred).to_multiset());
                assert(ranked_ok(witness));
            }
            return Ok(empty);
        } else {
            Some(since_timestamp + 1)
        };
        let matched = self.collect_rows(start_bound, None, &None);
        proof {
            lemma_filter_equiv(
                self.rows(),
                |x: ScreenshotV| time_app_ok(x, start_bound, None, None),
                since_pred,
            );
        }
        let sorted = sort_rows(matched);
        let ghost ranked = row_views(sorted@);
        let count = if limit <= sorted.len() {
            limit
        } else {
            sorted.len()
        };
        let mut out: Vec<(i64, Vec<u8>)> = Vec::new();
        let mut k: usize = 0;
        while k < count
            invariant
                count <= sorted@.len(),
                ranked == row_views(sorted@),
                k <= count,
                out@.len() == k,
                forall|j: int|
                    0 <= j < k ==> (#[trigger] out@[j]).0 == ranked[j].id && out@[j].1@
                        == ranked[j].perceptual_hash,
            decreases count - k,
        {
            let id = sorted[k].id;
            let hash = crate::schema::copy_bytes(&sorted[k].perceptual_hash);
            proof {
                assert(ranked[k as int] == sorted@[k as int]@);
            }
            out.push((id, hash));
            k = k + 1;
        }
        Ok(out)
    }
}

/// Filtering by a constantly false predicate empties a sequence.
pub proof fn lemma_filter_false(s: Seq<ScreenshotV>)
    ensures
        s.filter(|x: ScreenshotV| false) == Seq::<ScreenshotV>::empty(),
    decreases s.len(),
{
    reveal(Seq::filter);
    if s.len() > 0 {
        lemma_filter_false(s.drop_last());
    }
}

// ---------------------------------------------------------------------------
// Deletion with cascade
// ---------------------------------------------------------------------------

/// Every element of a filtered sequence occurs in the original.
pub proof fn lemma_filter_in_original<A>(s: Seq<A>, pred: spec_fn(A) -> bool)
    ensures
        forall|i: int|
            0 <= i < s.filter(pred).len() ==> s.contains(#[trigger] s.filter(pred)[i]),
    decreases s.len(),
{
    reveal(Seq::filter);
    if s.len() > 0 {
        let butlast = s.drop_last();
        lemma_filter_in_original(butlast, pred);
        let f = s.filter(pred);
        let fb = butlast.filter(pred);
        assert forall|i: int| 0 <= i < f.len() implies s.contains(f[i]) by {
            if pred(s.last()) && i == f.len() - 1 {
                assert(f[i] == s[s.len() - 1]);
            } else {
                assert(f[i] == fb[i]);
                assert(butlast.contains(fb[i]));
                let k = choose|k: int| 0 <= k < butlast.len() && butlast[k] == fb[i];
                assert(s[k] == fb[i]);
            }
        }
    }
}

/// Filtering preserves any pairwise-ordered property.
pub proof fn lemma_filter_pairs<A>(s: Seq<A>, pred: spec_fn(A) -> bool, p: spec_fn(A, A) -> bool)
    requires
        forall|i: int, j: int| 0 <= i < j < s.len() ==> p(#[trigger] s[i], #[trigger] s[j]),
    ensures
        forall|i: int, j: int|
            0 <= i < j < s.filter(pred).len() ==> p(
                #[trigger] s.filter(pred)[i],
                #[trigger] s.filter(pred)[j],
            ),
    decreases s.len(),
{
    reveal(Seq::filter);
    broadcast use vstd::seq_lib::group_filter_ensures;

    if s.len() > 0 {
        let butlast = s.drop_last();
        lemma_filter_pairs(butlast, pred, p);
        let f = s.filter(pred);
        let fb = butlast.filter(pred);
        assert forall|i: int, j: int| 0 <= i < j < f.len() implies p(f[i], f[j]) by {
            if pred(s.last()) {
                assert(f == fb.push(s.last()));
                if j < f.len() - 1 {
                    assert(f[i] == fb[i] && f[j] == fb[j]);
                } else {
                    assert(f[j] == s.last());
                    assert(f[i] == fb[i]);
                    lemma_filter_in_original(butlast, pred);
                    assert(butlast.contains(fb[i]));
                    let k = choose|k: int| 0 <= k < butlast.len() && butlast[k] == fb[i];
                    assert(s[k] == fb[i]);
                    assert(p(s[k], s[s.len() - 1]));
                }
            } else {
                assert(f == fb);
            }
        }
    }
}

/// Filtering preserves any elementwise property.
pub proof fn lemma_filter_each<A>(s: Seq<A>, pred: spec_fn(A) -> bool, p: spec_fn(A) -> bool)
    requires
        forall|i: int| 0 <= i < s.len() ==> p(#[trigger] s[i]),
    ensures
        forall|i: int| 0 <= i < s.filter(pred).len() ==> p(#[trigger] s.filter(pred)[i]),
{
    let f = s.filter(pred);
    lemma_filter_in_original(s, pred);
    assert forall|i: int| 0 <= i < f.len() implies p(f[i]) by {
        assert(s.contains(f[i]));
        let k = choose|k: int| 0 <= k < s.len() && s[k] == f[i];
        assert(p(s[k]));
    }
}

impl Database {
    /// Shared deletion: remove every screenshot whose timestamp lies in
    /// `[start, end)`, cascading to OCR text, the shadow index, bounding
    /// boxes and embeddings. Returns the number of rows removed and the
    /// backing file paths (image, then thumbnail) of the removed rows, for
    /// the caller to unlink.
    /// Shared deletion: remove every screenshot whose timestamp lies in
    /// `[start, end)`, cascading to OCR text, the shadow index, bounding
    /// boxes and embeddings. Returns the number of rows removed and the
    /// backing file paths (image, then thumbnail) of the removed rows, for
    /// the caller to unlink.
    fn delete_where(&mut self, start: i64, end: i64) -> (r: (u64, Vec<String>))
        requires
            old(self).wf(),
        ensures
            final(self).wf(),
            ({
                let del = |x: ScreenshotV| start <= x.timestamp && x.timestamp < end;
                let kept = old(self).rows().filter(
                    |x: ScreenshotV| !(start <= x.timestamp && x.timestamp < end),
                );
                &&& final(self).rows() == kept
                &&& final(self).ocr() == old(self).ocr().filter(
                    |o: OcrTextV| has_id(kept, o.screenshot_id),
                )
                &&& final(self).fts() == old(self).fts().filter(
                    |f: FtsRowV| has_id(kept, f.screenshot_id),
                )
                &&& final(self).boxes() == old(self).boxes().filter(
                    |b: BoundingBoxV| has_id(kept, b.screenshot_id),
                )
                &&& final(self).embeddings() == old(self).embeddings().filter(
                    |e: EmbeddingRowV| has_id(kept, e.screenshot_id),
                )
                &&& final(self).state() == old(self).state()
                &&& final(self).summaries() == old(self).summaries()
                &&& final(self).next_rowid() == old(self).next_rowid()
                &&& r.0 == old(self).rows().filter(del).len()
                &&& string_views(r.1@) == paths_of(old(self).rows().filter(del))
            }),
    {
        let ghost del = |x: ScreenshotV| start <= x.timestamp && x.timestamp < end;
        let ghost keep = |x: ScreenshotV| !(start <= x.timestamp && x.timestamp < end);
        let ghost kept = self.rows().filter(keep);
        let (kept_rows, paths, deleted) = self.partition_rows(start, end);
        let (new_ocr, new_fts) = self.cascade_ocr(&kept_rows, Ghost(kept));
        let new_boxes = self.cascade_boxes(&kept_rows, Ghost(kept));
        let new_embeds = self.cascade_embeddings(&kept_rows, Ghost(kept));
        self.screenshots = kept_rows;
        self.ocr_texts = new_ocr;
        self.fts_rows = new_fts;
        self.box_rows = new_boxes;
        self.embedding_rows = new_embeds;
        proof {
            let orows = old(self).rows();
            let po = |o: OcrTextV| has_id(kept, o.screenshot_id);
            let pf = |f: FtsRowV| has_id(kept, f.screenshot_id);
            let pb = |b: BoundingBoxV| has_id(kept, b.screenshot_id);
            let pe = |e: EmbeddingRowV| has_id(kept, e.screenshot_id);
            assert(self.rows() == kept);
            assert(self.ocr() == old(self).ocr().filter(po));
            assert(self.fts() == old(self).fts().filter(pf));
            assert(self.boxes() == old(self).boxes().filter(pb));
            assert(self.embeddings() == old(self).embeddings().filter(pe));
            assert(self.state() =~= old(self).state());
            assert(self.summaries() =~= old(self).summaries());
            lemma_filter_pairs(orows, keep, |a: ScreenshotV, b: ScreenshotV| a.id < b.id);
            lemma_filter_each(
                orows,
                keep,
                |a: ScreenshotV| 1 <= a.id < old(self).next_rowid() && valid_new_row(a),
            );
            lemma_filter_pairs(old(self).ocr(), po, |a: OcrTextV, b: OcrTextV| a.id < b.id);
            lemma_filter_pairs(
                old(self).ocr(),
                po,
                |a: OcrTextV, b: OcrTextV| a.screenshot_id != b.screenshot_id,
            );
            lemma_filter_each(
                old(self).ocr(),
                po,
                |a: OcrTextV| 1 <= a.id < old(self).next_ocr_rowid(),
            );
            old(self).ocr().filter_lemma(po);
            lemma_filter_pairs(
                old(self).boxes(),
                pb,
                |a: BoundingBoxV, b: BoundingBoxV| a.id < b.id,
            );
            lemma_filter_each(
                old(self).boxes(),
                pb,
                |a: BoundingBoxV| 1 <= a.id < old(self).next_box_rowid(),
            );
            old(self).boxes().filter_lemma(pb);
            lemma_filter_pairs(
                old(self).embeddings(),
                pe,
                |a: EmbeddingRowV, b: EmbeddingRowV| a.screenshot_id != b.screenshot_id,
            );
            old(self).embeddings().filter_lemma(pe);
            lemma_aligned_filter(old(self).ocr(), old(self).fts(), kept);
        }
        (deleted, paths)
    }

    /// Split the screenshot table at a time range: the surviving rows, the
    /// backing files of the deleted rows, and the deleted count.
    #[verifier::rlimit(60)]
    fn partition_rows(&self, start: i64, end: i64) -> (r: (Vec<Screenshot>, Vec<String>, u64))
        requires
            self.wf(),
        ensures
            ({
                let del = |x: ScreenshotV| start <= x.timestamp && x.timestamp < end;
                let keep = |x: ScreenshotV| !(start <= x.timestamp && x.timestamp < end);
                &&& row_views(r.0@) == self.rows().filter(keep)
                &&& string_views(r.1@) == paths_of(self.rows().filter(del))
                &&& r.2 == self.rows().filter(del).len()
            }),
    {
        let ghost del = |x: ScreenshotV| start <= x.timestamp && x.timestamp < end;
        let ghost keep = |x: ScreenshotV| !(start <= x.timestamp && x.timestamp < end);
        let n = self.screenshots.len();
        let mut kept_rows: Vec<Screenshot> = Vec::new();
        let mut paths: Vec<String> = Vec::new();
        let mut deleted: u64 = 0;
        let mut i: usize = 0;
        proof {
            reveal(Seq::filter);
            assert(self.rows().subrange(0, 0) =~= Seq::<ScreenshotV>::empty());
            assert(row_views(kept_rows@) =~= Seq::<ScreenshotV>::empty());
            assert(string_views(paths@) =~= Seq::<Seq<char>>::empty());
        }
        while i < n
            invariant
                self.wf(),
                n == self.rows().len(),
                i <= n,
                del == (|x: ScreenshotV| start <= x.timestamp && x.timestamp < end),
                keep == (|x: ScreenshotV| !(start <= x.timestamp && x.timestamp < end)),
                row_views(kept_rows@) == self.rows().subrange(0, i as int).filter(keep),
                deleted == self.rows().subrange(0, i as int).filter(del).len(),
                string_views(paths@) == paths_of(self.rows().subrange(0, i as int).filter(del)),
            decreases n - i,
        {
            let row = &self.screenshots[i];
            let ghost rv = self.rows()[i as int];
            proof {
                assert(rv == self.screenshots@[i as int]@);
                Seq::lemma_filter_len(self.rows().subrange(0, i as int), del);
            }
            if row.timestamp >= start && row.timestamp < end {
                let ghost prev_del = self.rows().subrange(0, i as int).filter(del);
                let ghost prev_paths = string_views(paths@);
                paths.push(row.file_path.clone());
                match &row.thumbnail_path {
                    Some(t) => {
                        paths.push(t.clone());
                    },
                    None => {},
                }
                deleted = deleted + 1;
                proof {
                    assert(del(rv));
                    assert(seq![rv].drop_first() =~= Seq::<ScreenshotV>::empty());
                    assert(paths_of(Seq::<ScreenshotV>::empty()) =~= Seq::<Seq<char>>::empty());
                    assert(paths_of(seq![rv]) =~= row_paths(rv) + paths_of(
                        Seq::<ScreenshotV>::empty(),
                    ));
                    assert(paths_of(seq![rv]) =~= row_paths(rv));
                    assert(string_views(paths@) =~= prev_paths + row_paths(rv));
                }
            } else {
                let ghost prev_kept = row_views(kept_rows@);
                kept_rows.push(row.duplicate());
                proof {
                    assert(keep(rv));
                    assert(row_views(kept_rows@) =~= prev_kept.push(rv));
                }
            }
            i = i + 1;
            proof {
                assert(self.rows().subrange(0, i as int) =~= self.rows().subrange(0, i - 1)
                    + seq![rv]);
                Seq::filter_distributes_over_add(self.rows().subrange(0, i - 1), seq![rv], keep);
                Seq::filter_distributes_over_add(self.rows().subrange(0, i - 1), seq![rv], del);
                lemma_filter_singleton(rv, keep);
                lemma_filter_singleton(rv, del);
                assert(row_views(kept_rows@) =~= self.rows().subrange(0, i as int).filter(keep));
                lemma_paths_of_add(
                    self.rows().subrange(0, i - 1).filter(del),
                    seq![rv].filter(del),
                );
                assert(string_views(paths@) =~= paths_of(
                    self.rows().subrange(0, i as int).filter(del),
                ));
            }
        }
        proof {
            assert(self.rows().subrange(0, n as int) =~= self.rows());
        }
        (kept_rows, paths, deleted)
    }

    /// The OCR rows and shadow rows surviving a deletion.
    fn cascade_ocr(&self, kept_rows: &Vec<Screenshot>, Ghost(kept): Ghost<Seq<ScreenshotV>>) -> (r:
        (Vec<OcrText>, Vec<FtsRow>))
        requires
            self.wf(),
            row_views(kept_rows@) == kept,
        ensures
            ocr_views(r.0@) == self.ocr().filter(|o: OcrTextV| has_id(kept, o.screenshot_id)),
            r.1@.map(|q: int, x: FtsRow| x@) == self.fts().filter(
                |f: FtsRowV| has_id(kept, f.screenshot_id),
            ),
    {
        let ghost po = |o: OcrTextV| has_id(kept, o.screenshot_id);
        let ghost pf = |f: FtsRowV| has_id(kept, f.screenshot_id);
        let mut new_ocr: Vec<OcrText> = Vec::new();
        let mut new_fts: Vec<FtsRow> = Vec::new();
        let m = self.ocr_texts.len();
        let mut j: usize = 0;
        proof {
            reveal(Seq::filter);
            assert(self.ocr().subrange(0, 0) =~= Seq::<OcrTextV>::empty());
            assert(self.fts().subrange(0, 0) =~= Seq::<FtsRowV>::empty());
            assert(ocr_views(new_ocr@) =~= Seq::<OcrTextV>::empty());
            assert(new_fts@.map(|q: int, x: FtsRow| x@) =~= Seq::<FtsRowV>::empty());
        }
        while j < m
            invariant
                self.wf(),
                m == self.ocr().len(),
                m == self.fts().len(),
                j <= m,
                row_views(kept_rows@) == kept,
                po == (|o: OcrTextV| has_id(kept, o.screenshot_id)),
                pf == (|f: FtsRowV| has_id(kept, f.screenshot_id)),
                ocr_views(new_ocr@) == self.ocr().subrange(0, j as int).filter(po),
                new_fts@.map(|q: int, x: FtsRow| x@) == self.fts().subrange(0, j as int).filter(
                    pf,
                ),
            decreases m - j,
        {
            let ghost ov = self.ocr()[j as int];
            let ghost fv = self.fts()[j as int];
            proof {
                assert(ov == self.ocr_texts@[j as int]@);
                assert(fv == self.fts_rows@[j as int]@);
                assert(fv.screenshot_id == ov.screenshot_id);
            }
            let sid = self.ocr_texts[j].screenshot_id;
            if vec_has_row(kept_rows, sid) {
                let ghost prev_o = ocr_views(new_ocr@);
                let ghost prev_f = new_fts@.map(|q: int, x: FtsRow| x@);
                let o = &self.ocr_texts[j];
                new_ocr.push(
                    OcrText {
                        id: o.id,
                        screenshot_id: o.screenshot_id,
                        text_content: o.text_content.clone(),
                        word_count: o.word_count,
                    },
                );
                let f = &self.fts_rows[j];
                new_fts.push(
                    FtsRow { screenshot_id: f.screenshot_id, text_content: f.text_content.clone() },
                );
                proof {
                    assert(po(ov) && pf(fv));
                    assert(ocr_views(new_ocr@) =~= prev_o.push(ov));
                    assert(new_fts@.map(|q: int, x: FtsRow| x@) =~= prev_f.push(fv));
                }
            } else {
                proof {
                    assert(!po(ov) && !pf(fv));
                }
            }
            j = j + 1;
            proof {
                assert(self.ocr().subrange(0, j as int) =~= self.ocr().subrange(0, j - 1)
                    + seq![ov]);
                assert(self.fts().subrange(0, j as int) =~= self.fts().subrange(0, j - 1)
                    + seq![fv]);
                Seq::filter_distributes_over_add(self.ocr().subrange(0, j - 1), seq![ov], po);
                Seq::filter_distributes_over_add(self.fts().subrange(0, j - 1), seq![fv], pf);
                lemma_filter_singleton(ov, po);
                lemma_filter_singleton(fv, pf);
                assert(ocr_views(new_ocr@) =~= self.ocr().subrange(0, j as int).filter(po));
                assert(new_fts@.map(|q: int, x: FtsRow| x@) =~= self.fts().subrange(
                    0,
                    j as int,
                ).filter(pf));
            }
        }
        proof {
            assert(self.ocr().subrange(0, m as int) =~= self.ocr());
            assert(self.fts().subrange(0, m as int) =~= self.fts());
        }
        (new_ocr, new_fts)
    }

    /// The bounding boxes surviving a deletion.
    fn cascade_boxes(&self, kept_rows: &Vec<Screenshot>, Ghost(kept): Ghost<Seq<ScreenshotV>>)
        -> (r: Vec<BoundingBox>)
        requires
            self.wf(),
            row_views(kept_rows@) == kept,
        ensures
            box_views(r@) == self.boxes().filter(|b: BoundingBoxV| has_id(kept, b.screenshot_id)),
    {
        let ghost pb = |b: BoundingBoxV| has_id(kept, b.screenshot_id);
        let mut new_boxes: Vec<BoundingBox> = Vec::new();
        let bm = self.box_rows.len();
        let mut k: usize = 0;
        proof {
            reveal(Seq::filter);
            assert(self.boxes().subrange(0, 0) =~= Seq::<BoundingBoxV>::empty());
            assert(box_views(new_boxes@) =~= Seq::<BoundingBoxV>::empty());
        }
        while k < bm
            invariant
                self.wf(),
                bm == self.boxes().len(),
                k <= bm,
                row_views(kept_rows@) == kept,
                pb == (|b: BoundingBoxV| has_id(kept, b.screenshot_id)),
                box_views(new_boxes@) == self.boxes().subrange(0, k as int).filter(pb),
            decreases bm - k,
        {
            let ghost bv = self.boxes()[k as int];
            proof {
                assert(bv == self.box_rows@[k as int]@);
            }
            let sid = self.box_rows[k].screenshot_id;
            if vec_has_row(kept_rows, sid) {
                let ghost prev_b = box_views(new_boxes@);
                new_boxes.push(self.box_rows[k].duplicate());
                proof {
                    assert(pb(bv));
                    assert(box_views(new_boxes@) =~= prev_b.push(bv));
                }
            } else {
                proof {
                    assert(!pb(bv));
                }
            }
            k = k + 1;
            proof {
                assert(self.boxes().subrange(0, k as int) =~= self.boxes().subrange(0, k - 1)
                    + seq![bv]);
                Seq::filter_distributes_over_add(self.boxes().subrange(0, k - 1), seq![bv], pb);
                lemma_filter_singleton(bv, pb);
                assert(box_views(new_boxes@) =~= self.boxes().subrange(0, k as int).filter(pb));
            }
        }
        proof {
            assert(self.boxes().subrange(0, bm as int) =~= self.boxes());
        }
        new_boxes
    }

    /// The embeddings surviving a deletion.
    fn cascade_embeddings(
        &self,
        kept_rows: &Vec<Screenshot>,
        Ghost(kept): Ghost<Seq<ScreenshotV>>,
    ) -> (r: Vec<EmbeddingRow>)
        requires
            self.wf(),
            row_views(kept_rows@) == kept,
        ensures
            r@.map(|z: int, x: EmbeddingRow| x@) == self.embeddings().filter(
                |e: EmbeddingRowV| has_id(kept, e.screenshot_id),
            ),
    {
        let ghost pe = |e: EmbeddingRowV| has_id(kept, e.screenshot_id);
        let mut new_embeds: Vec<EmbeddingRow> = Vec::new();
        let em = self.embedding_rows.len();
        let mut q: usize = 0;
        proof {
            reveal(Seq::filter);
            assert(self.embeddings().subrange(0, 0) =~= Seq::<EmbeddingRowV>::empty());
            assert(new_embeds@.map(|z: int, x: EmbeddingRow| x@) =~= Seq::<EmbeddingRowV>::empty());
        }
        while q < em
            invariant
                self.wf(),
                em == self.embeddings().len(),
                q <= em,
                row_views(kept_rows@) == kept,
                pe == (|e: EmbeddingRowV| has_id(kept, e.screenshot_id)),
                new_embeds@.map(|z: int, x: EmbeddingRow| x@) == self.embeddings().subrange(
                    0,
                    q as int,
                ).filter(pe),
            decreases em - q,
        {
            let ghost ev = self.embeddings()[q as int];
            proof {
                assert(ev == self.embedding_rows@[q as int]@);
            }
            let sid = self.embedding_rows[q].screenshot_id;
            if vec_has_row(kept_rows, sid) {
                let ghost prev_e = new_embeds@.map(|z: int, x: EmbeddingRow| x@);
                let e = &self.embedding_rows[q];
                new_embeds.push(
                    EmbeddingRow {
                        screenshot_id: e.screenshot_id,
                        vector: crate::schema::copy_bytes(&e.vector),
                    },
                );
                proof {
                    assert(pe(ev));
                    assert(new_embeds@.map(|z: int, x: EmbeddingRow| x@) =~= prev_e.push(ev));
                }
            } else {
                proof {
                    assert(!pe(ev));
                }
            }
            q = q + 1;
            proof {
                assert(self.embeddings().subrange(0, q as int) =~= self.embeddings().subrange(
                    0,
                    q - 1,
                ) + seq![ev]);
                Seq::filter_distributes_over_add(
                    self.embeddings().subrange(0, q - 1),
                    seq![ev],
                    pe,
                );
                lemma_filter_singleton(ev, pe);
                assert(new_embeds@.map(|z: int, x: EmbeddingRow| x@) =~= self.embeddings().subrange(
                    0,
                    q as int,
                ).filter(pe));
            }
        }
        proof {
            assert(self.embeddings().subrange(0, em as int) =~= self.embeddings());
        }
        new_embeds
    }

    /// Delete screenshots captured before `timestamp`, cascading to all
    /// dependent tables; returns the number of rows removed and the backing
    /// files of the removed rows.
    pub fn delete_screenshots_before(&mut self, timestamp: i64) -> (r: Result<
        (u64, Vec<String>),
        CoreError,
    >)
        requires
            old(self).wf(),
        ensures
            final(self).wf(),
            r is Ok,
            ({
                let del = |x: ScreenshotV| x.timestamp < timestamp;
                let kept = old(self).rows().filter(|x: ScreenshotV| !(x.timestamp < timestamp));
                &&& final(self).rows() == kept
                &&& final(self).ocr() == old(self).ocr().filter(
                    |o: OcrTextV| has_id(kept, o.screenshot_id),
                )
                &&& final(self).fts() == old(self).fts().filter(
                    |f: FtsRowV| has_id(kept, f.screenshot_id),
                )
                &&& final(self).boxes() == old(self).boxes().filter(
                    |b: BoundingBoxV| has_id(kept, b.screenshot_id),
                )
                &&& final(self).embeddings() == old(self).embeddings().filter(
                    |e: EmbeddingRowV| has_id(kept, e.screenshot_id),
                )
                &&& final(self).state() == old(self).state()
                &&& final(self).summaries() == old(self).summaries()
                &&& final(self).next_rowid() == old(self).next_rowid()
                &&& r.unwrap().0 == old(self).rows().filter(del).len()
                &&& string_views(r.unwrap().1@) == paths_of(old(self).rows().filter(del))
            }),
    {
        let out = self.delete_where(i64::MIN, timestamp);
        proof {
            let del = |x: ScreenshotV| x.timestamp < timestamp;
            let rdel = |x: ScreenshotV| i64::MIN <= x.timestamp && x.timestamp < timestamp;
            let keep = |x: ScreenshotV| !(x.timestamp < timestamp);
            let rkeep = |x: ScreenshotV| !(i64::MIN <= x.timestamp && x.timestamp < timestamp);
            lemma_filter_equiv(old(self).rows(), del, rdel);
            lemma_filter_equiv(old(self).rows(), keep, rkeep);
        }
        Ok(out)
    }

    /// Delete screenshots captured in `[start, end)`, cascading to all
    /// dependent tables; returns the number of rows removed and the backing
    /// files of the removed rows.
    pub fn delete_screenshots_in_range(&mut self, start: i64, end: i64) -> (r: Result<
        (u64, Vec<String>),
        CoreError,
    >)
        requires
            old(self).wf(),
        ensures
            final(self).wf(),
            r is Ok,
            ({
                let del = |x: ScreenshotV| start <= x.timestamp && x.timestamp < end;
                let kept = old(self).rows().filter(
                    |x: ScreenshotV| !(start <= x.timestamp && x.timestamp < end),
                );
                &&& final(self).rows() == kept
                &&& final(self).ocr() == old(self).ocr().filter(
                    |o: OcrTextV| has_id(kept, o.screenshot_id),
                )
                &&& final(self).fts() == old(self).fts().filter(
                    |f: FtsRowV| has_id(kept, f.screenshot_id),
                )
                &&& final(self).boxes() == old(self).boxes().filter(
                    |b: BoundingBoxV| has_id(kept, b.screenshot_id),
                )
                &&& final(self).embeddings() == old(self).embeddings().filter(
                    |e: EmbeddingRowV| has_id(kept, e.screenshot_id),
                )
                &&& final(self).state() == old(self).state()
                &&& final(self).summaries() == old(self).summaries()
                &&& final(self).next_rowid() == old(self).next_rowid()
                &&& r.unwrap().0 == old(self).rows().filter(del).len()
                &&& string_views(r.unwrap().1@) == paths_of(old(self).rows().filter(del))
            }),
    {
        Ok(self.delete_where(start, end))
    }
}

/// Whether a vector of rows holds this id.
fn vec_has_row(rows: &Vec<Screenshot>, id: i64) -> (r: bool)
    ensures
        r == has_id(row_views(rows@), id as int),
{
    let mut i: usize = 0;
    while i < rows.len()
        invariant
            i <= rows@.len(),
            forall|j: int| 0 <= j < i ==> (#[trigger] row_views(rows@)[j]).id != id as int,
        decreases rows@.len() - i,
    {
        if rows[i].id == id {
            proof {
                assert(row_views(rows@)[i as int].id == id as int);
            }
            return true;
        }
        proof {
            assert(row_views(rows@)[i as int] == rows@[i as int]@);
        }
        i = i + 1;
    }
    false
}

/// Filtering two aligned sequences by the survival of the same id keeps
/// them aligned.
proof fn lemma_aligned_filter(ocr: Seq<OcrTextV>, fts: Seq<FtsRowV>, kept: Seq<ScreenshotV>)
    requires
        ocr.len() == fts.len(),
        forall|i: int|
            0 <= i < ocr.len() ==> (#[trigger] fts[i]).screenshot_id == (
            #[trigger] ocr[i]).screenshot_id && fts[i].text_content == ocr[i].text_content,
    ensures
        ({
            let fo = ocr.filter(|o: OcrTextV| has_id(kept, o.screenshot_id));
            let ff = fts.filter(|f: FtsRowV| has_id(kept, f.screenshot_id));
            &&& fo.len() == ff.len()
            &&& forall|i: int|
                0 <= i < fo.len() ==> (#[trigger] ff[i]).screenshot_id == (
                #[trigger] fo[i]).screenshot_id && ff[i].text_content == fo[i].text_content
        }),
    decreases ocr.len(),
{
    reveal(Seq::filter);
    if ocr.len() > 0 {
        lemma_aligned_filter(ocr.drop_last(), fts.drop_last(), kept);
        assert(fts.drop_last().len() == ocr.drop_last().len());
        assert forall|i: int|
            0 <= i < ocr.drop_last().len() implies (#[trigger] fts.drop_last()[i]).screenshot_id
            == (#[trigger] ocr.drop_last()[i]).screenshot_id && fts.drop_last()[i].text_content
            == ocr.drop_last()[i].text_content by {
            assert(fts[i].screenshot_id == ocr[i].screenshot_id);
        }
        assert(fts.last().screenshot_id == ocr.last().screenshot_id);
    }
}

// ---------------------------------------------------------------------------
// Bounding boxes, paths, counts, key-value state, summary cache, embeddings
// ---------------------------------------------------------------------------

/// `a` is at or before `b` in reading order: top to bottom, then left to
/// right.
pub open spec fn box_le(a: BoundingBoxV, b: BoundingBoxV) -> bool {
    a.y < b.y || (a.y == b.y && a.x <= b.x)
}

/// Sort bounding boxes into reading order; the boxes themselves are
/// preserved (same multiset).
fn sort_boxes(boxes: Vec<BoundingBox>) -> (r: Vec<BoundingBox>)
    ensures
        box_views(r@).to_multiset() == box_views(boxes@).to_multiset(),
        r@.len() == boxes@.len(),
        forall|p: int, q: int|
            0 <= p < q < r@.len() ==> box_le(
                #[trigger] box_views(r@)[p],
                #[trigger] box_views(r@)[q],
            ),
{
    broadcast use vstd::seq_lib::group_to_multiset_ensures;
    broadcast use vstd::multiset::group_multiset_axioms;

    let ghost original = box_views(boxes@);
    let mut rest = boxes;
    let mut out: Vec<BoundingBox> = Vec::new();
    proof {
        assert(box_views(out@).to_multiset() =~= Multiset::<BoundingBoxV>::empty());
        vstd::seq_lib::lemma_multiset_commutative(box_views(out@), box_views(rest@));
        assert(box_views(out@) + box_views(rest@) =~= box_views(rest@));
    }
    while rest.len() > 0
        invariant
            box_views(out@).to_multiset().add(box_views(rest@).to_multiset())
                == original.to_multiset(),
            out@.len() + rest@.len() == original.len(),
            forall|p: int, q: int|
                0 <= p < q < out@.len() ==> box_le(
                    #[trigger] box_views(out@)[p],
                    #[trigger] box_views(out@)[q],
                ),
        decreases rest@.len(),
    {
        let ghost prev_rest = box_views(rest@);
        let h = rest.remove(0);
        proof {
            assert(box_views(rest@) =~= prev_rest.remove(0));
            vstd::seq_lib::to_multiset_remove::<BoundingBoxV>(prev_rest, 0);
            assert(h@ == prev_rest[0]);
        }
        let mut pos: usize = 0;
        while pos < out.len() && (out[pos].y < h.y || (out[pos].y == h.y && out[pos].x <= h.x))
            invariant
                pos <= out@.len(),
                forall|k: int| 0 <= k < pos ==> box_le(#[trigger] box_views(out@)[k], h@),
            decreases out@.len() - pos,
        {
            proof {
                assert(box_views(out@)[pos as int] == out@[pos as int]@);
            }
            pos = pos + 1;
        }
        proof {
            if pos < out@.len() {
                assert(box_views(out@)[pos as int] == out@[pos as int]@);
                assert(!box_le(box_views(out@)[pos as int], h@));
            }
        }
        let ghost prev_out = box_views(out@);
        out.insert(pos, h);
        proof {
            assert(box_views(out@) =~= prev_out.insert(pos as int, prev_rest[0]));
            lemma_insert_to_multiset(prev_out, pos as int, prev_rest[0]);
            assert(prev_rest.contains(prev_rest[0])) by {
                assert(prev_rest[0] == prev_rest[0]);
            }
            vstd::seq_lib::to_multiset_contains::<BoundingBoxV>(prev_rest, prev_rest[0]);
            let cur = box_views(out@);
            assert forall|p: int, q: int| 0 <= p < q < cur.len() implies box_le(
                cur[p],
                cur[q],
            ) by {
                if q < pos {
                    assert(cur[p] == prev_out[p] && cur[q] == prev_out[q]);
                } else if p < pos && q == pos {
                    assert(cur[p] == prev_out[p]);
                } else if p < pos && q > pos {
                    assert(cur[p] == prev_out[p] && cur[q] == prev_out[q - 1]);
                } else if p == pos && q > pos {
                    assert(cur[q] == prev_out[q - 1]);
                    if q - 1 > pos {
                        assert(box_le(prev_out[pos as int], prev_out[q - 1]));
                    }
                } else {
                    assert(cur[p] == prev_out[p - 1] && cur[q] == prev_out[q - 1]);
                }
            }
        }
    }
    proof {
        assert(box_views(rest@).to_multiset() =~= Multiset::<BoundingBoxV>::empty());
        assert(box_views(out@).to_multiset() =~= original.to_multiset());
    }
    out
}

impl Database {
    /// All bounding boxes of a screenshot, in reading order: sorted by `y`,
    /// then by `x`.
    pub fn get_bounding_boxes(&self, screenshot_id: i64) -> (r: Result<Vec<BoundingBox>, CoreError>)
        requires
            self.wf(),
        ensures
            r is Ok,
            box_views(r.unwrap()@).to_multiset() == self.boxes().filter(
                |b: BoundingBoxV| b.screenshot_id == screenshot_id as int,
            ).to_multiset(),
            r.unwrap()@.len() == self.boxes().filter(
                |b: BoundingBoxV| b.screenshot_id == screenshot_id as int,
            ).len(),
            forall|p: int, q: int|
                0 <= p < q < r.unwrap()@.len() ==> box_le(
                    #[trigger] box_views(r.unwrap()@)[p],
                    #[trigger] box_views(r.unwrap()@)[q],
                ),
    {
        let ghost pb = |b: BoundingBoxV| b.screenshot_id == screenshot_id as int;
        let n = self.box_rows.len();
        let mut out: Vec<BoundingBox> = Vec::new();
        let mut i: usize = 0;
        proof {
            reveal(Seq::filter);
            assert(self.boxes().subrange(0, 0) =~= Seq::<BoundingBoxV>::empty());
            assert(box_views(out@) =~= Seq::<BoundingBoxV>::empty());
        }
        while i < n
            invariant
                self.wf(),
                n == self.boxes().len(),
                i <= n,
                pb == (|b: BoundingBoxV| b.screenshot_id == screenshot_id as int),
                box_views(out@) == self.boxes().subrange(0, i as int).filter(pb),
            decreases n - i,
        {
            let ghost bv = self.boxes()[i as int];
            proof {
                assert(bv == self.box_rows@[i as int]@);
            }
            if self.box_rows[i].screenshot_id == screenshot_id {
                let ghost prev = box_views(out@);
                out.push(self.box_rows[i].duplicate());
                proof {
                    assert(pb(bv));
                    assert(box_views(out@) =~= prev.push(bv));
                }
            } else {
                proof {
                    assert(!pb(bv));
                }
            }
            i = i + 1;
            proof {
                assert(self.boxes().subrange(0, i as int) =~= self.boxes().subrange(0, i - 1)
                    + seq![bv]);
                Seq::filter_distributes_over_add(self.boxes().subrange(0, i - 1), seq![bv], pb);
                lemma_filter_singleton(bv, pb);
                assert(box_views(out@) =~= self.boxes().subrange(0, i as int).filter(pb));
            }
        }
        proof {
            assert(self.boxes().subrange(0, n as int) =~= self.boxes());
        }
        Ok(sort_boxes(out))
    }

    /// Every stored id with its image path and optional thumbnail path, in
    /// id order.
    pub fn get_all_screenshot_paths(&self) -> (r: Result<
        Vec<(i64, String, Option<String>)>,
        CoreError,
    >)
        requires
            self.wf(),
        ensures
            r is Ok,
            r.unwrap()@.len() == self.rows().len(),
            forall|i: int|
                0 <= i < self.rows().len() ==> (#[trigger] r.unwrap()@[i]).0 == self.rows()[i].id
                    && r.unwrap()@[i].1@ == self.rows()[i].file_path && r.unwrap()@[
                    i
                ].2.deep_view() == self.rows()[i].thumbnail_path,
    {
        let n = self.screenshots.len();
        let mut out: Vec<(i64, String, Option<String>)> = Vec::new();
        let mut i: usize = 0;
        while i < n
            invariant
                self.wf(),
                n == self.rows().len(),
                i <= n,
                out@.len() == i,
                forall|j: int|
                    0 <= j < i ==> (#[trigger] out@[j]).0 == self.rows()[j].id && out@[j].1@
                        == self.rows()[j].file_path && out@[j].2.deep_view()
                        == self.rows()[j].thumbnail_path,
            decreases n - i,
        {
            let row = &self.screenshots[i];
            proof {
                assert(self.rows()[i as int] == self.screenshots@[i as int]@);
            }
            out.push(
                (
                    row.id,
                    row.file_path.clone(),
                    crate::schema::clone_opt_string(&row.thumbnail_path),
                ),
            );
            i = i + 1;
        }
        Ok(out)
    }

    /// Number of screenshots captured in `[start, end)`.
    pub fn get_screenshot_count_in_range(&self, start: i64, end: i64) -> (r: Result<i64, CoreError>)
        requires
            self.wf(),
        ensures
            r is Ok,
            r.unwrap() == self.rows().filter(
                |x: ScreenshotV| start <= x.timestamp && x.timestamp < end,
            ).len(),
    {
        let ghost pr = |x: ScreenshotV| start <= x.timestamp && x.timestamp < end;
        let n = self.screenshots.len();
        let mut count: i64 = 0;
        let mut i: usize = 0;
        proof {
            reveal(Seq::filter);
            assert(self.rows().subrange(0, 0) =~= Seq::<ScreenshotV>::empty());
            lemma_rows_len_bound(self.rows(), i64::MAX as int);
        }
        while i < n
            invariant
                self.wf(),
                n == self.rows().len(),
                n <= i64::MAX,
                i <= n,
                pr == (|x: ScreenshotV| start <= x.timestamp && x.timestamp < end),
                count == self.rows().subrange(0, i as int).filter(pr).len(),
                count <= i,
            decreases n - i,
        {
            let ghost rv = self.rows()[i as int];
            proof {
                assert(rv == self.screenshots@[i as int]@);
            }
            if self.screenshots[i].timestamp >= start && self.screenshots[i].timestamp < end {
                count = count + 1;
            }
            i = i + 1;
            proof {
                assert(self.rows().subrange(0, i as int) =~= self.rows().subrange(0, i - 1)
                    + seq![rv]);
                Seq::filter_distributes_over_add(self.rows().subrange(0, i - 1), seq![rv], pr);
                lemma_filter_singleton(rv, pr);
            }
        }
        proof {
            assert(self.rows().subrange(0, n as int) =~= self.rows());
        }
        Ok(count)
    }

    /// Read a persistent daemon-state value.
    pub fn get_daemon_state(&self, key: &str) -> (r: Result<Option<String>, CoreError>)
        requires
            self.wf(),
        ensures
            r is Ok,
            match r.unwrap() {
                Some(v) => exists|i: int|
                    0 <= i < self.state().len() && (#[trigger] self.state()[i]).key == key@
                        && self.state()[i].value == v@,
                None => forall|i: int|
                    0 <= i < self.state().len() ==> (#[trigger] self.state()[i]).key != key@,
            },
    {
        let n = self.state_rows.len();
        let mut i: usize = 0;
        while i < n
            invariant
                self.wf(),
                n == self.state().len(),
                i <= n,
                forall|j: int| 0 <= j < i ==> (#[trigger] self.state()[j]).key != key@,
            decreases n - i,
        {
            proof {
                assert(self.state()[i as int] == self.state_rows@[i as int]@);
            }
            if text::str_eq(self.state_rows[i].key.as_str(), key) {
                return Ok(Some(self.state_rows[i].value.clone()));
            }
            i = i + 1;
        }
        Ok(None)
    }

    /// Write a persistent daemon-state value (upsert).
    pub fn set_daemon_state(&mut self, key: &str, value: &str) -> (r: Result<(), CoreError>)
        requires
            old(self).wf(),
        ensures
            final(self).wf(),
            r is Ok,
            final(self).rows() == old(self).rows(),
            final(self).ocr() == old(self).ocr(),
            final(self).fts() == old(self).fts(),
            final(self).boxes() == old(self).boxes(),
            final(self).embeddings() == old(self).embeddings(),
            final(self).summaries() == old(self).summaries(),
            ({
                let ks = old(self).state();
                if exists|i: int| 0 <= i < ks.len() && (#[trigger] ks[i]).key == key@ {
                    final(self).state() =~= Seq::new(
                        ks.len(),
                        |i: int|
                            if ks[i].key == key@ {
                                StateRowV { key: key@, value: value@ }
                            } else {
                                ks[i]
                            },
                    )
                } else {
                    final(self).state() =~= ks.push(StateRowV { key: key@, value: value@ })
                }
            }),
    {
        let n = self.state_rows.len();
        let mut i: usize = 0;
        while i < n
            invariant
                old(self).wf(),
                *self == *old(self),
                n == self.state().len(),
                i <= n,
                forall|j: int| 0 <= j < i ==> (#[trigger] self.state()[j]).key != key@,
            decreases n - i,
        {
            proof {
                assert(self.state()[i as int] == self.state_rows@[i as int]@);
            }
            if text::str_eq(self.state_rows[i].key.as_str(), key) {
                let row = StateRow { key: String::from_str(key), value: String::from_str(value) };
                self.state_rows[i] = row;
                proof {
                    assert forall|j: int|
                        i < j < self.state().len() implies (#[trigger] old(self).state()[j]).key
                        != key@ by {
                        assert(old(self).state()[i as int].key == key@);
                    }
                    assert(self.state() =~= Seq::new(
                        old(self).state().len(),
                        |j: int|
                            if old(self).state()[j].key == key@ {
                                StateRowV { key: key@, value: value@ }
                            } else {
                                old(self).state()[j]
                            },
                    ));
                    assert(self.rows() =~= old(self).rows());
                    assert(self.ocr() =~= old(self).ocr());
                    assert(self.fts() =~= old(self).fts());
                    assert(self.boxes() =~= old(self).boxes());
                    assert(self.embeddings() =~= old(self).embeddings());
                    assert(self.summaries() =~= old(self).summaries());
                }
                return Ok(());
            }
            i = i + 1;
        }
        let ghost prev = self.state();
        self.state_rows.push(
            StateRow { key: String::from_str(key), value: String::from_str(value) },
        );
        proof {
            assert(self.state() =~= prev.push(StateRowV { key: key@, value: value@ }));
            assert(self.rows() =~= old(self).rows());
            assert(self.ocr() =~= old(self).ocr());
            assert(self.fts() =~= old(self).fts());
            assert(self.boxes() =~= old(self).boxes());
            assert(self.embeddings() =~= old(self).embeddings());
            assert(self.summaries() =~= old(self).summaries());
        }
        Ok(())
    }

    /// Read a cached daily summary by its `YYYY-MM-DD` key.
    pub fn get_daily_summary_cache(&self, date_key: &str) -> (r: Result<
        Option<CachedDailySummary>,
        CoreError,
    >)
        requires
            self.wf(),
        ensures
            r is Ok,
            match r.unwrap() {
                Some(s) => exists|i: int|
                    0 <= i < self.summaries().len() && (#[trigger] self.summaries()[i]).date_key
                        == date_key@ && s@ == self.summaries()[i],
                None => forall|i: int|
                    0 <= i < self.summaries().len() ==> (#[trigger] self.summaries()[i]).date_key
                        != date_key@,
            },
    {
        let n = self.summary_rows.len();
        let mut i: usize = 0;
        while i < n
            invariant
                self.wf(),
                n == self.summaries().len(),
                i <= n,
                forall|j: int|
                    0 <= j < i ==> (#[trigger] self.summaries()[j]).date_key != date_key@,
            decreases n - i,
        {
            proof {
                assert(self.summaries()[i as int] == self.summary_rows@[i as int]@);
            }
            if text::str_eq(self.summary_rows[i].date_key.as_str(), date_key) {
                let s = &self.summary_rows[i];
                let copy = CachedDailySummary {
                    date_key: s.date_key.clone(),
                    summary_text: crate::schema::clone_opt_string(&s.summary_text),
                    app_breakdown: s.app_breakdown.clone(),
                    total_sessions: s.total_sessions,
                    time_range: s.time_range.clone(),
                    model_name: crate::schema::clone_opt_string(&s.model_name),
                    generated_at: s.generated_at.clone(),
                    screenshot_count: s.screenshot_count,
                };
                proof {
                    assert(copy@ == self.summaries()[i as int]);
                }
                return Ok(Some(copy));
            }
            i = i + 1;
        }
        Ok(None)
    }

    /// Insert or replace a cached daily summary.
    pub fn set_daily_summary_cache(&mut self, summary: &CachedDailySummary) -> (r: Result<
        (),
        CoreError,
    >)
        requires
            old(self).wf(),
        ensures
            final(self).wf(),
            r is Ok,
            final(self).rows() == old(self).rows(),
            final(self).ocr() == old(self).ocr(),
            final(self).fts() == old(self).fts(),
            final(self).boxes() == old(self).boxes(),
            final(self).embeddings() == old(self).embeddings(),
            final(self).state() == old(self).state(),
            ({
                let ks = old(self).summaries();
                if exists|i: int| 0 <= i < ks.len() && (#[trigger] ks[i]).date_key == summary.date_key@ {
                    final(self).summaries() =~= Seq::new(
                        ks.len(),
                        |i: int|
                            if ks[i].date_key == summary.date_key@ {
                                summary@
                            } else {
                                ks[i]
                            },
                    )
                } else {
                    final(self).summaries() =~= ks.push(summary@)
                }
            }),
    {
        let copy = CachedDailySummary {
            date_key: summary.date_key.clone(),
            summary_text: crate::schema::clone_opt_string(&summary.summary_text),
            app_breakdown: summary.app_breakdown.clone(),
            total_sessions: summary.total_sessions,
            time_range: summary.time_range.clone(),
            model_name: crate::schema::clone_opt_string(&summary.model_name),
            generated_at: summary.generated_at.clone(),
            screenshot_count: summary.screenshot_count,
        };
        proof {
            assert(copy@ == summary@);
        }
        let n = self.summary_rows.len();
        let mut i: usize = 0;
        while i < n
            invariant
                old(self).wf(),
                *self == *old(self),
                copy@ == summary@,
                n == self.summaries().len(),
                i <= n,
                forall|j: int|
                    0 <= j < i ==> (#[trigger] self.summaries()[j]).date_key != summary.date_key@,
            decreases n - i,
        {
            proof {
                assert(self.summaries()[i as int] == self.summary_rows@[i as int]@);
            }
            if text::str_eq(self.summary_rows[i].date_key.as_str(), summary.date_key.as_str()) {
                self.summary_rows[i] = copy;
                proof {
                    assert forall|j: int|
                        i < j < self.summaries().len() implies (#[trigger] old(
                            self,
                        ).summaries()[j]).date_key != summary.date_key@ by {
                        assert(old(self).summaries()[i as int].date_key == summary.date_key@);
                    }
                    assert(self.summaries() =~= Seq::new(
                        old(self).summaries().len(),
                        |j: int|
                            if old(self).summaries()[j].date_key == summary.date_key@ {
                                summary@
                            } else {
                                old(self).summaries()[j]
                            },
                    ));
                    assert(self.rows() =~= old(self).rows());
                    assert(self.ocr() =~= old(self).ocr());
                    assert(self.fts() =~= old(self).fts());
                    assert(self.boxes() =~= old(self).boxes());
                    assert(self.embeddings() =~= old(self).embeddings());
                    assert(self.state() =~= old(self).state());
                }
                return Ok(());
            }
            i = i + 1;
        }
        let ghost prev = self.summaries();
        self.summary_rows.push(copy);
        proof {
            assert(self.summaries() =~= prev.push(summary@));
            assert(self.rows() =~= old(self).rows());
            assert(self.ocr() =~= old(self).ocr());
            assert(self.fts() =~= old(self).fts());
            assert(self.boxes() =~= old(self).boxes());
            assert(self.embeddings() =~= old(self).embeddings());
            assert(self.state() =~= old(self).state());
        }
        Ok(())
    }

    /// Store the embedding vector (as little-endian bytes) for a
    /// screenshot. Fails when the screenshot does not exist or already has
    /// an embedding; success flips the screenshot's embedding state to done.
    pub fn insert_embedding(&mut self, screenshot_id: i64, vector: &Vec<u8>) -> (r: Result<
        (),
        CoreError,
    >)
        requires
            old(self).wf(),
        ensures
            final(self).wf(),
            r is Ok <==> has_id(old(self).rows(), screenshot_id as int) && !has_embedding(
                old(self).embeddings(),
                screenshot_id as int,
            ),
            r is Err ==> *final(self) == *old(self),
            r is Ok ==> {
                &&& final(self).embeddings() =~= old(self).embeddings().push(
                    EmbeddingRowV { screenshot_id: screenshot_id as int, vector: vector@ },
                )
                &&& final(self).rows() == old(self).rows()
                &&& final(self).ocr() == old(self).ocr()
                &&& final(self).fts() == old(self).fts()
                &&& final(self).boxes() == old(self).boxes()
                &&& final(self).state() == old(self).state()
                &&& final(self).summaries() == old(self).summaries()
            },
    {
        if !self.find_row(screenshot_id) {
            return Err(CoreError::Database(String::from_str("no such screenshot")));
        }
        let n = self.embedding_rows.len();
        let mut i: usize = 0;
        while i < n
            invariant
                self.wf(),
                *self == *old(self),
                n == self.embeddings().len(),
                i <= n,
                forall|j: int|
                    0 <= j < i ==> (#[trigger] self.embeddings()[j]).screenshot_id
                        != screenshot_id as int,
            decreases n - i,
        {
            proof {
                assert(self.embeddings()[i as int] == self.embedding_rows@[i as int]@);
            }
            if self.embedding_rows[i].screenshot_id == screenshot_id {
                return Err(CoreError::Database(String::from_str("embedding already present")));
            }
            i = i + 1;
        }
        let ghost prev = self.embeddings();
        self.embedding_rows.push(
            EmbeddingRow { screenshot_id, vector: crate::schema::copy_bytes(vector) },
        );
        proof {
            assert(self.embeddings() =~= prev.push(
                EmbeddingRowV { screenshot_id: screenshot_id as int, vector: vector@ },
            ));
            assert(self.rows() =~= old(self).rows());
            assert(self.ocr() =~= old(self).ocr());
            assert(self.fts() =~= old(self).fts());
            assert(self.boxes() =~= old(self).boxes());
            assert(self.state() =~= old(self).state());
            assert(self.summaries() =~= old(self).summaries());
        }
        Ok(())
    }

    /// Screenshots whose OCR finished but which have no embedding yet, with
    /// their OCR text, in id order, at most `limit`.
    pub fn get_pending_embeddings(&self, limit: usize) -> (r: Result<Vec<(i64, String)>, CoreError>)
        requires
            self.wf(),
        ensures
            r is Ok,
            ({
                let pend = self.rows().filter(
                    |x: ScreenshotV| x.ocr_status == OcrStatus::Done && has_ocr(self.ocr(), x.id)
                        && !has_embedding(self.embeddings(), x.id),
                );
                let out = r.unwrap()@;
                &&& out.len() == (if limit <= pend.len() {
                    limit as int
                } else {
                    pend.len() as int
                })
                &&& forall|k: int|
                    0 <= k < out.len() ==> (#[trigger] out[k]).0 == pend[k].id && exists|i: int|
                        0 <= i < self.ocr().len() && (#[trigger] self.ocr()[i]).screenshot_id
                            == pend[k].id && self.ocr()[i].text_content == out[k].1@
            }),
    {
        let ghost pp = |x: ScreenshotV| x.ocr_status == OcrStatus::Done && has_ocr(
            self.ocr(),
            x.id,
        ) && !has_embedding(self.embeddings(), x.id);
        let n = self.screenshots.len();
        let mut all: Vec<(i64, String)> = Vec::new();
        let mut i: usize = 0;
        proof {
            reveal(Seq::filter);
            assert(self.rows().subrange(0, 0) =~= Seq::<ScreenshotV>::empty());
        }
        while i < n
            invariant
                self.wf(),
                n == self.rows().len(),
                i <= n,
                pp == (|x: ScreenshotV| x.ocr_status == OcrStatus::Done && has_ocr(
                    self.ocr(),
                    x.id,
                ) && !has_embedding(self.embeddings(), x.id)),
                all@.len() == self.rows().subrange(0, i as int).filter(pp).len(),
                forall|k: int|
                    0 <= k < all@.len() ==> (#[trigger] all@[k]).0 == self.rows().subrange(
                        0,
                        i as int,
                    ).filter(pp)[k].id && exists|q: int|
                        0 <= q < self.ocr().len() && (#[trigger] self.ocr()[q]).screenshot_id
                            == self.rows().subrange(0, i as int).filter(pp)[k].id && self.ocr()[
                            q
                        ].text_content == all@[k].1@,
            decreases n - i,
        {
            let ghost rv = self.rows()[i as int];
            proof {
                assert(rv == self.screenshots@[i as int]@);
            }
            let row = &self.screenshots[i];
            let mut picked: bool = false;
            if matches!(row.ocr_status, OcrStatus::Done) {
                // look for the OCR text and check no embedding exists yet
                match self.get_ocr_text(row.id) {
                    Ok(Some(t)) => {
                        let mut has_emb: bool = false;
                        let mut q: usize = 0;
                        while q < self.embedding_rows.len()
                            invariant
                                self.wf(),
                                q <= self.embeddings().len(),
                                has_emb ==> has_embedding(self.embeddings(), row.id as int),
                                !has_emb ==> forall|z: int|
                                    0 <= z < q ==> (#[trigger] self.embeddings()[z]).screenshot_id
                                        != row.id as int,
                            decreases self.embeddings().len() - q,
                        {
                            proof {
                                assert(self.embeddings()[q as int] == self.embedding_rows@[
                                    q as int
                                ]@);
                            }
                            if self.embedding_rows[q].screenshot_id == row.id {
                                has_emb = true;
                            }
                            q = q + 1;
                        }
                        if !has_emb {
                            all.push((row.id, t));
                            picked = true;
                            proof {
                                assert(pp(rv));
                            }
                        } else {
                            proof {
                                assert(!pp(rv));
                            }
                        }
                    },
                    Ok(None) => {
                        proof {
                            assert(!has_ocr(self.ocr(), rv.id));
                            assert(!pp(rv));
                        }
                    },
                    Err(_) => {
                        proof {
                            assert(false);
                        }
                    },
                }
            } else {
                proof {
                    assert(!pp(rv));
                }
            }
            i = i + 1;
            proof {
                assert(self.rows().subrange(0, i as int) =~= self.rows().subrange(0, i - 1)
                    + seq![rv]);
                Seq::filter_distributes_over_add(self.rows().subrange(0, i - 1), seq![rv], pp);
                lemma_filter_singleton(rv, pp);
            }
        }
        proof {
            assert(self.rows().subrange(0, n as int) =~= self.rows());
        }
        // keep only the first `limit`
        let count = if limit <= all.len() {
            limit
        } else {
            all.len()
        };
        let ghost before = all@;
        all.truncate(count);
        proof {
            assert(all@ =~= before.subrange(0, count as int));
        }
        Ok(all)
    }
}

// ---------------------------------------------------------------------------
// Active blocks
// ---------------------------------------------------------------------------

/// The mathematical value of an active block.
#[verifier::ext_equal]
pub ghost struct BlockV {
    pub start_time: int,
    pub end_time: int,
    pub duration_secs: int,
}

/// Views of a vector of blocks.
pub open spec fn block_views(s: Seq<crate::schema::ActiveBlock>) -> Seq<BlockV> {
    s.map(
        |i: int, b: crate::schema::ActiveBlock|
            BlockV {
                start_time: b.start_time as int,
                end_time: b.end_time as int,
                duration_secs: b.duration_secs as int,
            },
    )
}

/// A closed block: it ends one capture interval after its last sample.
pub open spec fn block_of(bs: int, be: int, pad: int) -> BlockV {
    BlockV { start_time: bs, end_time: be + pad, duration_secs: be - bs + pad }
}

/// Walk the remaining sorted timestamps with an open block `[bs, be]`:
/// a gap of more than 60 seconds closes the block.
pub open spec fn blocks_rec(ts: Seq<i64>, i: int, bs: int, be: int, pad: int) -> Seq<BlockV>
    decreases ts.len() - i,
{
    if i < 0 || i >= ts.len() {
        seq![block_of(bs, be, pad)]
    } else if ts[i] - be > 60 {
        seq![block_of(bs, be, pad)] + blocks_rec(ts, i + 1, ts[i] as int, ts[i] as int, pad)
    } else {
        blocks_rec(ts, i + 1, bs, ts[i] as int, pad)
    }
}

/// The active blocks of a sorted timestamp sequence.
pub open spec fn spec_blocks(ts: Seq<i64>, pad: int) -> Seq<BlockV> {
    if ts.len() == 0 {
        Seq::<BlockV>::empty()
    } else {
        blocks_rec(ts, 1, ts[0] as int, ts[0] as int, pad)
    }
}

/// Sort timestamps ascending.
fn sort_times(ts: Vec<i64>) -> (r: Vec<i64>)
    ensures
        r@.to_multiset() == ts@.to_multiset(),
        forall|i: int, j: int| 0 <= i < j < r@.len() ==> r@[i] <= r@[j],
        r@.len() == ts@.len(),
{
    broadcast use vstd::seq_lib::group_to_multiset_ensures;
    broadcast use vstd::multiset::group_multiset_axioms;

    let ghost full = ts@;
    let mut rest = ts;
    let mut out: Vec<i64> = Vec::new();
    proof {
        assert(out@.to_multiset() =~= Multiset::<i64>::empty());
        vstd::seq_lib::lemma_multiset_commutative(out@, rest@);
        assert(out@ + rest@ =~= rest@);
    }
    while rest.len() > 0
        invariant
            out@.to_multiset().add(rest@.to_multiset()) == full.to_multiset(),
            forall|i: int, j: int| 0 <= i < j < out@.len() ==> out@[i] <= out@[j],
            out@.len() + rest@.len() == full.len(),
        decreases rest@.len(),
    {
        let ghost prev_rest = rest@;
        let h = rest.remove(0);
        proof {
            vstd::seq_lib::to_multiset_remove::<i64>(prev_rest, 0);
        }
        let mut pos: usize = 0;
        while pos < out.len() && out[pos] <= h
            invariant
                pos <= out@.len(),
                forall|k: int| 0 <= k < pos ==> out@[k] <= h,
            decreases out@.len() - pos,
        {
            pos = pos + 1;
        }
        let ghost prev_out = out@;
        out.insert(pos, h);
        proof {
            assert(out@ =~= prev_out.insert(pos as int, prev_rest[0]));
            lemma_insert_to_multiset(prev_out, pos as int, prev_rest[0]);
            assert(prev_rest.contains(prev_rest[0])) by {
                assert(prev_rest[0] == prev_rest[0]);
            }
            vstd::seq_lib::to_multiset_contains::<i64>(prev_rest, prev_rest[0]);
            assert forall|p: int, q: int| 0 <= p < q < out@.len() implies out@[p] <= out@[q] by {
                if q < pos {
                } else if p < pos && q == pos {
                } else if p < pos && q > pos {
                    assert(out@[q] == prev_out[q - 1]);
                } else if p == pos && q > pos {
                    assert(out@[q] == prev_out[q - 1]);
                    if pos < prev_out.len() {
                        assert(prev_out[pos as int] <= prev_out[q - 1] || pos == q - 1);
                    }
                } else {
                    assert(out@[p] == prev_out[p - 1] && out@[q] == prev_out[q - 1]);
                }
            }
        }
    }
    proof {
        assert(rest@.to_multiset() =~= Multiset::<i64>::empty());
        assert(out@.to_multiset() =~= full.to_multiset());
    }
    out
}

impl Database {
    /// Runs of activity in `[start, end)`: timestamps are sorted and walked;
    /// a gap of more than 60 seconds closes a block. Each block's end and
    /// duration are padded by one capture interval for the trailing sample.
    pub fn get_active_blocks(&self, start: i64, end: i64, capture_interval_secs: i64) -> (r: Result<
        Vec<crate::schema::ActiveBlock>,
        CoreError,
    >)
        requires
            self.wf(),
            0 <= capture_interval_secs <= 1000000000,
        ensures
            r is Ok,
            exists|sorted: Seq<i64>|
                {
                    &&& #[trigger] sorted.to_multiset() == self.rows().filter(
                        |x: ScreenshotV| start <= x.timestamp && x.timestamp < end,
                    ).map_values(|x: ScreenshotV| (x.timestamp) as i64).to_multiset()
                    &&& (forall|i: int, j: int|
                        0 <= i < j < sorted.len() ==> sorted[i] <= sorted[j])
                    &&& block_views(r.unwrap()@) == spec_blocks(
                        sorted,
                        capture_interval_secs as int,
                    )
                },
    {
        let ghost pr = |x: ScreenshotV| start <= x.timestamp && x.timestamp < end;
        // collect the timestamps in range
        let n = self.screenshots.len();
        let mut times: Vec<i64> = Vec::new();
        let mut i: usize = 0;
        proof {
            reveal(Seq::filter);
            assert(self.rows().subrange(0, 0) =~= Seq::<ScreenshotV>::empty());
            assert(times@ =~= self.rows().subrange(0, 0).filter(pr).map_values(
                |x: ScreenshotV| (x.timestamp) as i64,
            ));
        }
        while i < n
            invariant
                self.wf(),
                n == self.rows().len(),
                i <= n,
                pr == (|x: ScreenshotV| start <= x.timestamp && x.timestamp < end),
                times@ == self.rows().subrange(0, i as int).filter(pr).map_values(
                    |x: ScreenshotV| (x.timestamp) as i64,
                ),
            decreases n - i,
        {
            let ghost rv = self.rows()[i as int];
            proof {
                assert(rv == self.screenshots@[i as int]@);
            }
            if self.screenshots[i].timestamp >= start && self.screenshots[i].timestamp < end {
                times.push(self.screenshots[i].timestamp);
                proof {
                    assert(pr(rv));
                }
            } else {
                proof {
                    assert(!pr(rv));
                }
            }
            i = i + 1;
            proof {
                assert(self.rows().subrange(0, i as int) =~= self.rows().subrange(0, i - 1)
                    + seq![rv]);
                Seq::filter_distributes_over_add(self.rows().subrange(0, i - 1), seq![rv], pr);
                lemma_filter_singleton(rv, pr);
                assert(times@ =~= self.rows().subrange(0, i as int).filter(pr).map_values(
                    |x: ScreenshotV| (x.timestamp) as i64,
                ));
            }
        }
        proof {
            assert(self.rows().subrange(0, n as int) =~= self.rows());
        }
        let sorted = sort_times(times);
        let ghost sortedv = sorted@;
        let mut blocks: Vec<crate::schema::ActiveBlock> = Vec::new();
        if sorted.len() == 0 {
            proof {
                assert(block_views(blocks@) =~= spec_blocks(sortedv, capture_interval_secs as int));
            }
            return Ok(blocks);
        }
        let pad = capture_interval_secs;
        let mut block_start: i64 = sorted[0];
        let mut block_end: i64 = sorted[0];
        let mut k: usize = 1;
        proof {
            lemma_times_in_range(self.rows(), pr, sortedv, start, end);
        }
        while k < sorted.len()
            invariant
                self.wf(),
                sortedv == sorted@,
                1 <= k <= sorted@.len(),
                0 <= pad <= 1000000000,
                forall|p: int| 0 <= p < sortedv.len() ==> 0 <= #[trigger] sortedv[p] <= time::MAX_TIMESTAMP,
                0 <= block_start <= time::MAX_TIMESTAMP,
                0 <= block_end <= time::MAX_TIMESTAMP,
                spec_blocks(sortedv, pad as int) == block_views(blocks@) + blocks_rec(
                    sortedv,
                    k as int,
                    block_start as int,
                    block_end as int,
                    pad as int,
                ),
            decreases sorted@.len() - k,
        {
            let ts = sorted[k];
            if ts - block_end > 60 {
                let ghost prevb = block_views(blocks@);
                blocks.push(
                    crate::schema::ActiveBlock {
                        start_time: block_start,
                        end_time: block_end + pad,
                        duration_secs: block_end - block_start + pad,
                    },
                );
                proof {
                    assert(block_views(blocks@) =~= prevb.push(
                        block_of(block_start as int, block_end as int, pad as int),
                    ));
                    assert((prevb + seq![block_of(block_start as int, block_end as int, pad as int)])
                        + blocks_rec(sortedv, k + 1, ts as int, ts as int, pad as int) =~= prevb + (
                    seq![block_of(block_start as int, block_end as int, pad as int)] + blocks_rec(
                        sortedv,
                        k + 1,
                        ts as int,
                        ts as int,
                        pad as int,
                    )));
                }
                block_start = ts;
                block_end = ts;
            } else {
                block_end = ts;
            }
            k = k + 1;
        }
        let ghost prevb = block_views(blocks@);
        blocks.push(
            crate::schema::ActiveBlock {
                start_time: block_start,
                end_time: block_end + pad,
                duration_secs: block_end - block_start + pad,
            },
        );
        proof {
            assert(block_views(blocks@) =~= prevb.push(
                block_of(block_start as int, block_end as int, pad as int),
            ));
            assert(block_views(blocks@) =~= spec_blocks(sortedv, pad as int));
        }
        Ok(blocks)
    }
}

/// Timestamps drawn from well-formed rows stay within the calendar range.
proof fn lemma_times_in_range(
    rows: Seq<ScreenshotV>,
    pr: spec_fn(ScreenshotV) -> bool,
    sorted: Seq<i64>,
    start: i64,
    end: i64,
)
    requires
        forall|i: int| 0 <= i < rows.len() ==> valid_new_row(#[trigger] rows[i]),
        sorted.to_multiset() == rows.filter(pr).map_values(
            |x: ScreenshotV| (x.timestamp) as i64,
        ).to_multiset(),
    ensures
        forall|p: int| 0 <= p < sorted.len() ==> 0 <= #[trigger] sorted[p] <= time::MAX_TIMESTAMP,
{
    broadcast use vstd::seq_lib::group_to_multiset_ensures;

    let mapped = rows.filter(pr).map_values(|x: ScreenshotV| (x.timestamp) as i64);
    lemma_filter_each(rows, pr, |x: ScreenshotV| valid_new_row(x));
    assert forall|p: int| 0 <= p < sorted.len() implies 0 <= #[trigger] sorted[p]
        <= time::MAX_TIMESTAMP by {
        assert(sorted.contains(sorted[p])) by {
            assert(sorted[p] == sorted[p]);
        }
        vstd::seq_lib::to_multiset_contains::<i64>(sorted, sorted[p]);
        vstd::seq_lib::to_multiset_contains::<i64>(mapped, sorted[p]);
        assert(mapped.contains(sorted[p]));
        let q = choose|q: int| 0 <= q < mapped.len() && mapped[q] == sorted[p];
        assert(mapped[q] == rows.filter(pr)[q].timestamp as i64);
        assert(valid_new_row(rows.filter(pr)[q]));
    }
}

// ---------------------------------------------------------------------------
// Laws
// ---------------------------------------------------------------------------

/// Round trip: pushing the row a successful insert builds, then looking its
/// id up, yields exactly the inserted fields, with OCR pending.
pub proof fn lemma_insert_round_trip(
    rows: Seq<ScreenshotV>,
    n: NewScreenshotV,
    id: int,
    created_at: Seq<char>,
)
    requires
        forall|p: int, q: int|
            0 <= p < q < rows.len() ==> (#[trigger] rows[p]).id < (#[trigger] rows[q]).id,
        forall|p: int| 0 <= p < rows.len() ==> (#[trigger] rows[p]).id < id,
    ensures
        ({
            let rows2 = rows.push(row_of(n, id, created_at));
            let got = rows2[idx_of(rows2, id)];
            &&& has_id(rows2, id)
            &&& got == row_of(n, id, created_at)
            &&& got.timestamp == n.timestamp
            &&& got.app_name == n.app_name
            &&& got.window_title == n.window_title
            &&& got.file_path == n.file_path
            &&& got.perceptual_hash == n.perceptual_hash
            &&& got.ocr_status == OcrStatus::Pending
        }),
{
    let rows2 = rows.push(row_of(n, id, created_at));
    assert forall|p: int, q: int|
        0 <= p < q < rows2.len() implies (#[trigger] rows2[p]).id < (#[trigger] rows2[q]).id by {
        if q < rows2.len() - 1 {
            assert(rows[p].id < rows[q].id);
        } else if p < rows2.len() - 1 {
            assert(rows[p].id < id);
        }
    }
    assert(rows2[rows2.len() - 1].id == id);
    lemma_idx_of_unique(rows2, id, rows2.len() - 1);
}

/// Full-text match: a query made of any contiguous run of a stored text's
/// tokens matches that text, so the screenshot carrying it is among the
/// keyword-search candidates under empty filters.
pub proof fn lemma_fts_match(rows: Seq<ScreenshotV>, fts: Seq<FtsRowV>, fi: int, lo: int, hi: int)
    requires
        0 <= fi < fts.len(),
        has_id(rows, fts[fi].screenshot_id),
        0 <= lo < hi <= text::spec_tokens(fts[fi].text_content).len(),
    ensures
        ({
            let qt = text::spec_tokens(fts[fi].text_content).subrange(lo, hi);
            let row = rows[idx_of(rows, fts[fi].screenshot_id)];
            &&& text::query_matches(qt, text::spec_tokens(fts[fi].text_content))
            &&& matched_rows(rows, fts, qt, None, None, None).contains(row)
        }),
{
    let toks = text::spec_tokens(fts[fi].text_content);
    let qt = toks.subrange(lo, hi);
    text::lemma_contiguous_tokens_match(toks, lo, hi);
    let i = idx_of(rows, fts[fi].screenshot_id);
    let row = rows[i];
    let pred = keyword_pred(fts, qt, None, None, None);
    assert(fts_matches_id(fts, row.id, qt)) by {
        assert(0 <= fi < fts.len() && fts[fi].screenshot_id == row.id && text::query_matches(
            qt,
            text::spec_tokens(fts[fi].text_content),
        ));
    }
    assert(pred(row));
    rows.filter_lemma(pred);
    assert(0 <= i < rows.len() && pred(rows[i]));
}

/// Filter composition: a row is a keyword-search candidate exactly when it
/// passes the time filter, the app filter, and the full-text match, all at
/// once.
pub proof fn lemma_filter_composition(
    rows: Seq<ScreenshotV>,
    fts: Seq<FtsRowV>,
    qt: Seq<Seq<char>>,
    start: Option<i64>,
    end: Option<i64>,
    app: Option<Seq<char>>,
    i: int,
)
    requires
        0 <= i < rows.len(),
    ensures
        matched_rows(rows, fts, qt, start, end, app).contains(rows[i]) <==> (time_app_ok(
            rows[i],
            start,
            end,
            app,
        ) && fts_matches_id(fts, rows[i].id, qt)),
{
    let pred = keyword_pred(fts, qt, start, end, app);
    rows.filter_lemma(pred);
    let f = rows.filter(pred);
    if f.contains(rows[i]) {
        let k = choose|k: int| 0 <= k < f.len() && f[k] == rows[i];
        assert(pred(f[k]));
    }
    if pred(rows[i]) {
        assert(f.contains(rows[i]));
    }
}

/// Pagination: page `k` holds exactly the elements `offset + j` of the
/// full list.
pub proof fn lemma_page_index<A>(s: Seq<A>, offset: int, limit: int, j: int)
    requires
        0 <= offset,
        0 <= limit,
        0 <= j < page_of(s, offset, limit).len(),
    ensures
        page_of(s, offset, limit)[j] == s[offset + j],
        page_of(s, offset, limit).len() <= limit,
{
}

/// Pagination completeness: element `i` of the full list appears on page
/// `i / limit`, at position `i % limit`; successive pages of size `limit`
/// therefore cover the list with no duplicates.
pub proof fn lemma_pagination_cover<A>(s: Seq<A>, limit: int, i: int)
    requires
        0 < limit,
        0 <= i < s.len(),
    ensures
        ({
            let page = page_of(s, (i / limit) * limit, limit);
            &&& 0 <= i % limit < page.len()
            &&& page[i % limit] == s[i]
        }),
{
    let offset = (i / limit) * limit;
    assert(offset <= i < offset + limit) by (nonlinear_arith)
        requires
            0 < limit,
            0 <= i,
            offset == (i / limit) * limit,
    ;
    assert(i % limit == i - offset) by (nonlinear_arith)
        requires
            0 < limit,
            0 <= i,
            offset == (i / limit) * limit,
    ;
}

/// If a candidate finds no close group, none of the groups is close.
proof fn lemma_first_close_none_all_far(
    groups: Seq<GroupV>,
    ids: Seq<int>,
    rows: Seq<ScreenshotV>,
    t: u32,
    id: int,
    j: int,
)
    requires
        0 <= j <= groups.len(),
        first_close_group(groups, ids, rows, t, id, j) is None,
    ensures
        forall|g: int| j <= g < groups.len() ==> !close_ids(rows, id, ids[(#[trigger] groups[g]).rep], t),
    decreases groups.len() - j,
{
    if j < groups.len() {
        lemma_first_close_none_all_far(groups, ids, rows, t, id, j + 1);
    }
}

/// The founding candidate of every group is either unknown to the store or
/// more than `t` bits away from every earlier group's founder. Also, group
/// representatives never change once founded, and each group's first member
/// is its founder's id.
proof fn lemma_dedup_reps_far(ids: Seq<int>, rows: Seq<ScreenshotV>, t: u32, n: int)
    requires
        0 <= n <= ids.len(),
    ensures
        ({
            let groups = dedup_groups(ids, rows, t, n);
            forall|g: int, h: int|
                0 <= g < h < groups.len() ==> (!has_id(rows, ids[(#[trigger] groups[h]).rep])
                    || !close_ids(rows, ids[groups[h].rep], ids[(#[trigger] groups[g]).rep], t))
        }),
    decreases n,
{
    if n > 0 {
        lemma_dedup_reps_far(ids, rows, t, n - 1);
        lemma_dedup_groups_wf(ids, rows, t, n - 1);
        let prev = dedup_groups(ids, rows, t, n - 1);
        let cur = dedup_groups(ids, rows, t, n);
        let id = ids[n - 1];
        if !has_id(rows, id) {
            assert(cur == prev.push(GroupV { rep: n - 1, members: seq![id] }));
        } else {
            match first_close_group(prev, ids, rows, t, id, 0) {
                Some(g) => {
                    lemma_first_close_group_in_range(prev, ids, rows, t, id, 0);
                    assert(cur == prev.update(
                        g,
                        GroupV { rep: prev[g].rep, members: prev[g].members.push(id) },
                    ));
                    assert forall|a: int, b: int|
                        0 <= a < b < cur.len() implies (!has_id(rows, ids[(#[trigger] cur[b]).rep])
                        || !close_ids(rows, ids[cur[b].rep], ids[(#[trigger] cur[a]).rep], t)) by {
                        assert(cur[a].rep == prev[a].rep && cur[b].rep == prev[b].rep);
                    }
                },
                None => {
                    lemma_first_close_none_all_far(prev, ids, rows, t, id, 0);
                    assert(cur == prev.push(GroupV { rep: n - 1, members: seq![id] }));
                    assert forall|a: int, b: int|
                        0 <= a < b < cur.len() implies (!has_id(rows, ids[(#[trigger] cur[b]).rep])
                        || !close_ids(rows, ids[cur[b].rep], ids[(#[trigger] cur[a]).rep], t)) by {
                        if b < cur.len() - 1 {
                            assert(cur[a].rep == prev[a].rep && cur[b].rep == prev[b].rep);
                        } else {
                            assert(cur[b].rep == n - 1);
                            assert(cur[a].rep == prev[a].rep);
                            assert(!close_ids(rows, id, ids[prev[a].rep], t));
                        }
                    }
                },
            }
        }
    }
}

/// Dedup idempotence: applying scene dedup to an already deduplicated list
/// changes nothing.
pub proof fn lemma_dedup_idempotent(
    results: Seq<crate::schema::SearchResultV>,
    rows: Seq<ScreenshotV>,
    t: u32,
)
    ensures
        dedup_output(dedup_output(results, rows, t), rows, t) == dedup_output(results, rows, t),
{
    let ids = ids_of(results);
    let n = results.len() as int;
    let groups = dedup_groups(ids, rows, t, n);
    lemma_dedup_groups_wf(ids, rows, t, n);
    lemma_dedup_reps_far(ids, rows, t, n);
    let d = dedup_output(results, rows, t);
    let ids2 = ids_of(d);
    assert forall|g: int| 0 <= g < d.len() implies #[trigger] ids2[g] == ids[groups[g].rep] by {
        assert(d[g] == with_group(results[groups[g].rep], groups[g].members));
        assert(d[g].id == results[groups[g].rep].id);
    }
    // the second pass founds one singleton group per representative
    assert forall|m: int| 0 <= m <= d.len() implies #[trigger] dedup_groups(ids2, rows, t, m)
        =~= Seq::new(m as nat, |g: int| GroupV { rep: g, members: seq![ids2[g]] }) by {
        lemma_dedup_second_pass(results, rows, t, m);
    }
    let g2 = dedup_groups(ids2, rows, t, d.len() as int);
    let d2 = dedup_output(d, rows, t);
    assert forall|g: int| 0 <= g < d2.len() implies #[trigger] d2[g] == d[g] by {
        assert(g2[g] == GroupV { rep: g, members: seq![ids2[g]] });
        assert(g2[g].members.len() == 1);
        assert(d2[g] == with_group(d[g2[g].rep], g2[g].members));
    }
    assert(d2 =~= d);
}

/// Helper for idempotence: after `m` steps of the second pass, every
/// candidate founded its own singleton group.
proof fn lemma_dedup_second_pass(
    results: Seq<crate::schema::SearchResultV>,
    rows: Seq<ScreenshotV>,
    t: u32,
    m: int,
)
    requires
        0 <= m <= dedup_output(results, rows, t).len(),
    ensures
        ({
            let d = dedup_output(results, rows, t);
            let ids2 = ids_of(d);
            dedup_groups(ids2, rows, t, m) =~= Seq::new(
                m as nat,
                |g: int| GroupV { rep: g, members: seq![ids2[g]] },
            )
        }),
    decreases m,
{
    let ids = ids_of(results);
    let n = results.len() as int;
    let groups = dedup_groups(ids, rows, t, n);
    lemma_dedup_groups_wf(ids, rows, t, n);
    lemma_dedup_reps_far(ids, rows, t, n);
    let d = dedup_output(results, rows, t);
    let ids2 = ids_of(d);
    assert forall|g: int| 0 <= g < d.len() implies #[trigger] ids2[g] == ids[groups[g].rep] by {
        assert(d[g] == with_group(results[groups[g].rep], groups[g].members));
    }
    if m > 0 {
        lemma_dedup_second_pass(results, rows, t, m - 1);
        let prev = dedup_groups(ids2, rows, t, m - 1);
        let id = ids2[m - 1];
        if !has_id(rows, id) {
            assert(dedup_groups(ids2, rows, t, m) == prev.push(
                GroupV { rep: m - 1, members: seq![id] },
            ));
        } else {
            // no earlier singleton is close, by the founder-separation law
            assert forall|g: int|
                0 <= g < prev.len() implies !close_ids(
                rows,
                id,
                ids2[(#[trigger] prev[g]).rep],
                t,
            ) by {
                assert(prev[g] == GroupV { rep: g, members: seq![ids2[g]] });
                assert(ids2[g] == ids[groups[g].rep]);
                assert(!has_id(rows, ids[groups[m - 1].rep]) || !close_ids(
                    rows,
                    ids[groups[m - 1].rep],
                    ids[groups[g].rep],
                    t,
                ));
            }
            lemma_first_close_group_none(prev, ids2, rows, t, id);
            assert(dedup_groups(ids2, rows, t, m) == prev.push(
                GroupV { rep: m - 1, members: seq![id] },
            ));
        }
        assert(dedup_groups(ids2, rows, t, m) =~= Seq::new(
            m as nat,
            |g: int| GroupV { rep: g, members: seq![ids2[g]] },
        ));
    } else {
        assert(dedup_groups(ids2, rows, t, 0) =~= Seq::new(
            0nat,
            |g: int| GroupV { rep: g, members: seq![ids2[g]] },
        ));
    }
}

/// Dedup grouping: when every candidate's hash is stored and within the
/// threshold of the first candidate's hash, dedup collapses all of them
/// into one group, represented by the first, carrying every member id.
pub proof fn lemma_dedup_grouping(
    results: Seq<crate::schema::SearchResultV>,
    rows: Seq<ScreenshotV>,
    t: u32,
)
    requires
        results.len() > 0,
        forall|i: int| 0 <= i < results.len() ==> has_id(rows, (#[trigger] ids_of(results)[i])),
        forall|i: int|
            0 <= i < results.len() ==> close_ids(
                rows,
                #[trigger] ids_of(results)[i],
                ids_of(results)[0],
                t,
            ),
    ensures
        ({
            let d = dedup_output(results, rows, t);
            &&& d.len() == 1
            &&& d[0].id == results[0].id
            &&& (results.len() > 1 ==> d[0].group_count == Some(results.len() as int))
            &&& (results.len() > 1 ==> d[0].group_screenshot_ids == Some(ids_of(results)))
        }),
{
    let ids = ids_of(results);
    let n = results.len() as int;
    assert forall|m: int| 1 <= m <= n implies #[trigger] dedup_groups(ids, rows, t, m) =~= seq![
        GroupV { rep: 0, members: ids.subrange(0, m) },
    ] by {
        lemma_dedup_grouping_rec(results, rows, t, m);
    }
    let groups = dedup_groups(ids, rows, t, n);
    assert(groups =~= seq![GroupV { rep: 0, members: ids.subrange(0, n) }]);
    assert(ids.subrange(0, n) =~= ids);
    let d = dedup_output(results, rows, t);
    assert(d[0] == with_group(results[0], ids));
}

/// Helper for grouping: after `m` steps everything joined group zero.
proof fn lemma_dedup_grouping_rec(
    results: Seq<crate::schema::SearchResultV>,
    rows: Seq<ScreenshotV>,
    t: u32,
    m: int,
)
    requires
        results.len() > 0,
        1 <= m <= results.len(),
        forall|i: int| 0 <= i < results.len() ==> has_id(rows, (#[trigger] ids_of(results)[i])),
        forall|i: int|
            0 <= i < results.len() ==> close_ids(
                rows,
                #[trigger] ids_of(results)[i],
                ids_of(results)[0],
                t,
            ),
    ensures
        dedup_groups(ids_of(results), rows, t, m) =~= seq![
            GroupV { rep: 0, members: ids_of(results).subrange(0, m) },
        ],
    decreases m,
{
    let ids = ids_of(results);
    if m == 1 {
        let g0 = dedup_groups(ids, rows, t, 0);
        assert(g0 =~= Seq::<GroupV>::empty());
        assert(first_close_group(g0, ids, rows, t, ids[0], 0) is None);
        assert(dedup_groups(ids, rows, t, 1) =~= seq![GroupV { rep: 0, members: seq![ids[0]] }]);
        assert(seq![ids[0]] =~= ids.subrange(0, 1));
    } else {
        lemma_dedup_grouping_rec(results, rows, t, m - 1);
        let prev = dedup_groups(ids, rows, t, m - 1);
        let id = ids[m - 1];
        assert(prev =~= seq![GroupV { rep: 0, members: ids.subrange(0, m - 1) }]);
        assert(close_ids(rows, id, ids[prev[0].rep], t));
        assert(first_close_group(prev, ids, rows, t, id, 0) == Some(0int));
        assert(dedup_groups(ids, rows, t, m) == prev.update(
            0,
            GroupV { rep: 0, members: prev[0].members.push(id) },
        ));
        assert(ids.subrange(0, m - 1).push(id) =~= ids.subrange(0, m));
        assert(dedup_groups(ids, rows, t, m) =~= seq![
            GroupV { rep: 0, members: ids.subrange(0, m) },
        ]);
    }
}

/// Delete cascade: once rows before `t` are gone, every surviving row and
/// every surviving dependent (OCR text, shadow row, bounding box,
/// embedding) belongs to a screenshot captured at or after `t`.
pub proof fn lemma_delete_cascade(db: &Database, t: i64)
    requires
        db.wf(),
        forall|i: int| 0 <= i < db.rows().len() ==> (#[trigger] db.rows()[i]).timestamp >= t,
    ensures
        forall|i: int|
            0 <= i < db.ocr().len() ==> db.rows()[idx_of(
                db.rows(),
                (#[trigger] db.ocr()[i]).screenshot_id,
            )].timestamp >= t,
        forall|i: int|
            0 <= i < db.fts().len() ==> db.rows()[idx_of(
                db.rows(),
                (#[trigger] db.fts()[i]).screenshot_id,
            )].timestamp >= t,
        forall|i: int|
            0 <= i < db.boxes().len() ==> db.rows()[idx_of(
                db.rows(),
                (#[trigger] db.boxes()[i]).screenshot_id,
            )].timestamp >= t,
        forall|i: int|
            0 <= i < db.embeddings().len() ==> db.rows()[idx_of(
                db.rows(),
                (#[trigger] db.embeddings()[i]).screenshot_id,
            )].timestamp >= t,
{
    assert forall|i: int|
        0 <= i < db.ocr().len() implies db.rows()[idx_of(
        db.rows(),
        (#[trigger] db.ocr()[i]).screenshot_id,
    )].timestamp >= t by {
        assert(has_id(db.rows(), db.ocr()[i].screenshot_id));
        let k = idx_of(db.rows(), db.ocr()[i].screenshot_id);
        assert(0 <= k < db.rows().len() && db.rows()[k].id == db.ocr()[i].screenshot_id);
    }
    assert forall|i: int|
        0 <= i < db.fts().len() implies db.rows()[idx_of(
        db.rows(),
        (#[trigger] db.fts()[i]).screenshot_id,
    )].timestamp >= t by {
        assert(db.fts()[i].screenshot_id == db.ocr()[i].screenshot_id);
        assert(has_id(db.rows(), db.fts()[i].screenshot_id));
        let k = idx_of(db.rows(), db.fts()[i].screenshot_id);
        assert(0 <= k < db.rows().len() && db.rows()[k].id == db.fts()[i].screenshot_id);
    }
    assert forall|i: int|
        0 <= i < db.boxes().len() implies db.rows()[idx_of(
        db.rows(),
        (#[trigger] db.boxes()[i]).screenshot_id,
    )].timestamp >= t by {
        assert(has_id(db.rows(), db.boxes()[i].screenshot_id));
        let k = idx_of(db.rows(), db.boxes()[i].screenshot_id);
        assert(0 <= k < db.rows().len() && db.rows()[k].id == db.boxes()[i].screenshot_id);
    }
    assert forall|i: int|
        0 <= i < db.embeddings().len() implies db.rows()[idx_of(
        db.rows(),
        (#[trigger] db.embeddings()[i]).screenshot_id,
    )].timestamp >= t by {
        assert(has_id(db.rows(), db.embeddings()[i].screenshot_id));
        let k = idx_of(db.rows(), db.embeddings()[i].screenshot_id);
        assert(0 <= k < db.rows().len() && db.rows()[k].id == db.embeddings()[i].screenshot_id);
    }
}

/// Rows surviving `delete_screenshots_before(t)` were all captured at or
/// after `t`.
pub proof fn lemma_delete_keeps_later(rows: Seq<ScreenshotV>, t: i64)
    ensures
        ({
            let kept = rows.filter(|x: ScreenshotV| !(x.timestamp < t));
            forall|i: int| 0 <= i < kept.len() ==> (#[trigger] kept[i]).timestamp >= t
        }),
{
    let keep = |x: ScreenshotV| !(x.timestamp < t);
    rows.filter_lemma(keep);
}

/// Active blocks: every block lasts exactly from its first to its padded
/// last sample, and consecutive blocks are separated by a gap of more than
/// 60 seconds between the last sample of one and the first of the next.
pub proof fn lemma_blocks_structure(ts: Seq<i64>, pad: int)
    requires
        pad >= 0,
        forall|p: int, q: int| 0 <= p < q < ts.len() ==> ts[p] <= ts[q],
    ensures
        forall|g: int|
            0 <= g < spec_blocks(ts, pad).len() ==> (#[trigger] spec_blocks(ts, pad)[g]).duration_secs
                == spec_blocks(ts, pad)[g].end_time - spec_blocks(ts, pad)[g].start_time,
        forall|g: int|
            0 <= g < spec_blocks(ts, pad).len() - 1 ==> (#[trigger] spec_blocks(ts, pad)[
            g + 1
            ]).start_time > spec_blocks(ts, pad)[g].end_time - pad + 60,
{
    if ts.len() > 0 {
        lemma_blocks_rec_structure(ts, 1, ts[0] as int, ts[0] as int, pad);
    }
}

/// Structure of the block walk: the first block starts at `bs`, every block
/// spans start to padded end, and blocks are separated by real gaps.
proof fn lemma_blocks_rec_structure(ts: Seq<i64>, i: int, bs: int, be: int, pad: int)
    requires
        pad >= 0,
        bs <= be,
        forall|p: int, q: int| 0 <= p < q < ts.len() ==> ts[p] <= ts[q],
        forall|p: int| i <= p < ts.len() ==> be <= #[trigger] ts[p],
    ensures
        ({
            let blocks = blocks_rec(ts, i, bs, be, pad);
            &&& blocks.len() >= 1
            &&& blocks[0].start_time == bs
            &&& forall|g: int|
                0 <= g < blocks.len() ==> (#[trigger] blocks[g]).duration_secs == blocks[g].end_time
                    - blocks[g].start_time
            &&& forall|g: int|
                0 <= g < blocks.len() - 1 ==> (#[trigger] blocks[g + 1]).start_time > blocks[
                g
                ].end_time - pad + 60
        }),
    decreases ts.len() - i,
{
    let blocks = blocks_rec(ts, i, bs, be, pad);
    if i < 0 || i >= ts.len() {
    } else if ts[i] - be > 60 {
        lemma_blocks_rec_structure(ts, i + 1, ts[i] as int, ts[i] as int, pad);
        let rest = blocks_rec(ts, i + 1, ts[i] as int, ts[i] as int, pad);
        assert(blocks == seq![block_of(bs, be, pad)] + rest);
        assert(blocks[0].start_time == bs);
        assert(rest[0].start_time == ts[i] as int);
        assert(blocks[1].start_time > blocks[0].end_time - pad + 60);
        assert forall|g: int|
            0 <= g < blocks.len() - 1 implies (#[trigger] blocks[g + 1]).start_time > blocks[
            g
        ].end_time - pad + 60 by {
            if g == 0 {
                assert(blocks[1] == rest[0]);
                assert(blocks[0] == block_of(bs, be, pad));
            } else {
                assert(blocks[g] == rest[g - 1] && blocks[g + 1] == rest[g]);
                assert((#[trigger] rest[(g - 1) + 1]).start_time > rest[g - 1].end_time - pad
                    + 60);
            }
        }
    } else {
        lemma_blocks_rec_structure(ts, i + 1, bs, ts[i] as int, pad);
    }
}

// ---------------------------------------------------------------------------
// Hybrid search (reciprocal-rank fusion)
// ---------------------------------------------------------------------------

/// A fused entry's fields agree with the stored row that carries its id.
pub open spec fn grounded(rows: Seq<ScreenshotV>, h: crate::schema::SearchResultV) -> bool {
    &&& has_id(rows, h.id)
    &&& ({
        let row = rows[idx_of(rows, h.id)];
        h.timestamp == row.timestamp && h.app_name == row.app_name && h.window_title
            == row.window_title && h.thumbnail_path == row.thumbnail_path && h.file_path
            == row.file_path
    })
}

/// The vector-ranked id list with every repeated id dropped after its first
/// appearance.
pub open spec fn dedup_ids(ids: Seq<i64>) -> Seq<i64>
    decreases ids.len(),
{
    if ids.len() == 0 {
        Seq::<i64>::empty()
    } else {
        let prev = dedup_ids(ids.drop_last());
        if prev.contains(ids.last()) {
            prev
        } else {
            prev.push(ids.last())
        }
    }
}

/// The position of an id in a vector-ranked list, or the list's length when
/// it is absent.
pub open spec fn vec_pos(ids: Seq<i64>, id: int) -> int
    decreases ids.len(),
{
    if ids.len() == 0 {
        0
    } else if ids[0] as int == id {
        0
    } else {
        1 + vec_pos(ids.drop_first(), id)
    }
}

/// The position of an id in a candidate slate, or the slate's length when
/// it is absent.
pub open spec fn slate_pos(s: Seq<crate::schema::SearchResultV>, id: int) -> int
    decreases s.len(),
{
    if s.len() == 0 {
        0
    } else if s[0].id == id {
        0
    } else {
        1 + slate_pos(s.drop_first(), id)
    }
}

/// The reciprocal-rank-fusion score of an id over the keyword slate and the
/// vector-ranked list, as the exact fraction `rrf_num / rrf_den`: each list
/// that ranks the id at position `p` contributes `1 / (61 + p)`.
pub open spec fn rrf_num(s: Seq<crate::schema::SearchResultV>, vids: Seq<i64>, id: int) -> int {
    let fp = slate_pos(s, id);
    let vp = vec_pos(vids, id);
    if fp < s.len() && vp < vids.len() {
        122 + fp + vp
    } else if fp < s.len() || vp < vids.len() {
        1
    } else {
        0
    }
}

/// The denominator of the reciprocal-rank-fusion score of an id.
pub open spec fn rrf_den(s: Seq<crate::schema::SearchResultV>, vids: Seq<i64>, id: int) -> int {
    let fp = slate_pos(s, id);
    let vp = vec_pos(vids, id);
    if fp < s.len() && vp < vids.len() {
        (61 + fp) * (61 + vp)
    } else if fp < s.len() {
        61 + fp
    } else if vp < vids.len() {
        61 + vp
    } else {
        1
    }
}

/// A fused slate ordered by reciprocal-rank score, best first.
pub open spec fn rrf_sorted(
    slate: Seq<crate::schema::SearchResultV>,
    vids: Seq<i64>,
    fused: Seq<crate::schema::SearchResultV>,
) -> bool {
    forall|i: int, j: int|
        0 <= i < j < fused.len() ==> frac_ge(
            rrf_num(slate, vids, (#[trigger] fused[i]).id),
            rrf_den(slate, vids, fused[i].id),
            rrf_num(slate, vids, (#[trigger] fused[j]).id),
            rrf_den(slate, vids, fused[j].id),
        )
}

/// The stored OCR text of a screenshot, empty when it has none.
pub open spec fn ocr_text_of(ocr: Seq<OcrTextV>, sid: int) -> Seq<char>
    decreases ocr.len(),
{
    if ocr.len() == 0 {
        Seq::<char>::empty()
    } else if ocr[0].screenshot_id == sid {
        ocr[0].text_content
    } else {
        ocr_text_of(ocr.drop_first(), sid)
    }
}

/// With pairwise distinct screenshot ids, any matching row's text is the
/// stored text.
pub proof fn lemma_ocr_text_of(ocr: Seq<OcrTextV>, i: int)
    requires
        forall|p: int, q: int|
            0 <= p < q < ocr.len() ==> (#[trigger] ocr[p]).screenshot_id != (
            #[trigger] ocr[q]).screenshot_id,
        0 <= i < ocr.len(),
    ensures
        ocr_text_of(ocr, ocr[i].screenshot_id) == ocr[i].text_content,
    decreases i,
{
    if i > 0 {
        assert(ocr[0].screenshot_id != ocr[i].screenshot_id);
        lemma_ocr_text_of(ocr.drop_first(), i - 1);
    }
}

/// No stored row carries the id: the stored text is empty.
pub proof fn lemma_ocr_text_of_absent(ocr: Seq<OcrTextV>, sid: int)
    requires
        !has_ocr(ocr, sid),
    ensures
        ocr_text_of(ocr, sid) == Seq::<char>::empty(),
    decreases ocr.len(),
{
    if ocr.len() > 0 {
        assert(!has_ocr(ocr.drop_first(), sid)) by {
            if has_ocr(ocr.drop_first(), sid) {
                let j = choose|j: int|
                    0 <= j < ocr.drop_first().len() && (#[trigger] ocr.drop_first()[j]).screenshot_id
                        == sid;
                assert(ocr[j + 1].screenshot_id == sid);
            }
        }
        lemma_ocr_text_of_absent(ocr.drop_first(), sid);
    }
}

/// The snippet a vector-only candidate carries: the full OCR text up to 200
/// characters, or its first 200 characters with an ellipsis.
pub open spec fn vec_snippet(t: Seq<char>) -> Seq<char> {
    if t.len() <= 200 {
        t
    } else {
        t.subrange(0, 200) + "..."@
    }
}

/// The search result a vector-only candidate is hydrated into: the stored
/// row's fields, a snippet of its OCR text, rank zero, and no group.
pub open spec fn hydrated_entry(
    rows: Seq<ScreenshotV>,
    ocr: Seq<OcrTextV>,
    id: int,
) -> crate::schema::SearchResultV {
    let row = rows[idx_of(rows, id)];
    crate::schema::SearchResultV {
        id: row.id,
        timestamp: row.timestamp,
        app_name: row.app_name,
        window_title: row.window_title,
        thumbnail_path: row.thumbnail_path,
        file_path: row.file_path,
        matched_text: vec_snippet(ocr_text_of(ocr, id)),
        rank: 0,
        group_count: None,
        group_screenshot_ids: None,
    }
}

/// The entries the first `n` vector-ranked ids contribute to the fused
/// slate: ids already among the keyword candidates add nothing, ids with no
/// stored row are dropped, and the rest hydrate from the store.
pub open spec fn vec_members(
    slate: Seq<crate::schema::SearchResultV>,
    vids: Seq<i64>,
    rows: Seq<ScreenshotV>,
    ocr: Seq<OcrTextV>,
    n: int,
) -> Seq<crate::schema::SearchResultV>
    decreases n,
{
    if n <= 0 {
        Seq::<crate::schema::SearchResultV>::empty()
    } else {
        let prev = vec_members(slate, vids, rows, ocr, n - 1);
        let id = vids[n - 1] as int;
        if slate_pos(slate, id) < slate.len() {
            prev
        } else if has_id(rows, id) {
            prev.push(hydrated_entry(rows, ocr, id))
        } else {
            prev
        }
    }
}

/// The members of the fused slate: the keyword candidates, then the
/// hydrated vector-only candidates.
pub open spec fn fused_members(
    slate: Seq<crate::schema::SearchResultV>,
    vids: Seq<i64>,
    rows: Seq<ScreenshotV>,
    ocr: Seq<OcrTextV>,
) -> Seq<crate::schema::SearchResultV> {
    slate + vec_members(slate, vids, rows, ocr, vids.len() as int)
}

/// The keyword slate fed into fusion: the full over-fetch of up to 300
/// ranked keyword matches with their snippets, as a keyword search at
/// threshold zero reports them.
pub open spec fn keyword_slate_ok(
    rows: Seq<ScreenshotV>,
    fts: Seq<FtsRowV>,
    query: Seq<char>,
    start: Option<i64>,
    end: Option<i64>,
    app: Option<Seq<char>>,
    slate: Seq<crate::schema::SearchResultV>,
) -> bool {
    keyword_response_ok(
        rows,
        fts,
        query,
        start,
        end,
        app,
        300,
        0,
        0,
        slate,
        matched_rows(rows, fts, text::spec_tokens(query), start, end, app).len() as int,
    )
}

/// A keyword response at threshold zero reports the count of the matched
/// rows as its total, so the same slate is a response for that count.
proof fn lemma_slate_total(
    rows: Seq<ScreenshotV>,
    fts: Seq<FtsRowV>,
    query: Seq<char>,
    start: Option<i64>,
    end: Option<i64>,
    app: Option<Seq<char>>,
    results: Seq<crate::schema::SearchResultV>,
    total: int,
)
    requires
        keyword_response_ok(rows, fts, query, start, end, app, 300, 0, 0, results, total),
    ensures
        keyword_slate_ok(rows, fts, query, start, end, app, results),
{
    let qt = text::spec_tokens(query);
    let matched = matched_rows(rows, fts, qt, start, end, app);
    let ranked = choose|ranked: Seq<ScreenshotV>|
        {
            &&& #[trigger] ranked.to_multiset() == matched.to_multiset()
            &&& ranked_ok(ranked)
            &&& exists|prelim: Seq<crate::schema::SearchResultV>|
                {
                    &&& #[trigger] results_correspond(prelim, ranked, 0)
                    &&& results == page_of(prelim, 0, 300)
                    &&& total == matched.len()
                }
        };
    let prelim = choose|prelim: Seq<crate::schema::SearchResultV>|
        {
            &&& #[trigger] results_correspond(prelim, ranked, 0)
            &&& results == page_of(prelim, 0, 300)
            &&& total == matched.len()
        };
    assert(results_correspond(prelim, ranked, 0) && results == page_of(prelim, 0, 300)
        && matched.len() as int == matched.len());
}

/// A scan that finds no id before `p`, and the id at `p` when it stops
/// short of the list's end, computes the list position of the id.
proof fn lemma_vec_pos(ids: Seq<i64>, id: int, p: int)
    requires
        0 <= p <= ids.len(),
        forall|j: int| 0 <= j < p ==> (#[trigger] ids[j]) as int != id,
        p < ids.len() ==> ids[p] as int == id,
    ensures
        vec_pos(ids, id) == p,
    decreases p,
{
    if p > 0 {
        lemma_vec_pos(ids.drop_first(), id, p - 1);
    } else if ids.len() > 0 && ids[0] as int != id {
        assert(p < ids.len() ==> ids[p] as int == id);
        assert(p == ids.len());
    }
}

/// As `lemma_vec_pos`, over a candidate slate.
proof fn lemma_slate_pos(s: Seq<crate::schema::SearchResultV>, id: int, p: int)
    requires
        0 <= p <= s.len(),
        forall|j: int| 0 <= j < p ==> (#[trigger] s[j]).id != id,
        p < s.len() ==> s[p].id == id,
    ensures
        slate_pos(s, id) == p,
    decreases p,
{
    if p > 0 {
        lemma_slate_pos(s.drop_first(), id, p - 1);
    } else if s.len() > 0 && s[0].id != id {
        assert(p == s.len());
    }
}

/// Fraction comparison is transitive over positive denominators.
proof fn lemma_frac_trans(n1: int, d1: int, n2: int, d2: int, n3: int, d3: int)
    requires
        1 <= d1,
        1 <= d2,
        1 <= d3,
        frac_ge(n1, d1, n2, d2),
        frac_ge(n2, d2, n3, d3),
    ensures
        frac_ge(n1, d1, n3, d3),
{
    assert(n1 * d3 >= n3 * d1) by (nonlinear_arith)
        requires
            1 <= d1,
            1 <= d2,
            1 <= d3,
            n1 * d2 >= n2 * d1,
            n2 * d3 >= n3 * d2,
    ;
}

/// Drop every repeated id after its first appearance.
fn dedup_id_list(ids: &Vec<i64>) -> (r: Vec<i64>)
    ensures
        r@ == dedup_ids(ids@),
        r@.len() <= ids@.len(),
        forall|p: int, q: int| 0 <= p < q < r@.len() ==> r@[p] != r@[q],
{
    let mut out: Vec<i64> = Vec::new();
    let mut i: usize = 0;
    proof {
        assert(ids@.subrange(0, 0) =~= Seq::<i64>::empty());
        assert(out@ =~= dedup_ids(ids@.subrange(0, 0)));
    }
    while i < ids.len()
        invariant
            i <= ids@.len(),
            out@ == dedup_ids(ids@.subrange(0, i as int)),
            out@.len() <= i,
            forall|p: int, q: int| 0 <= p < q < out@.len() ==> out@[p] != out@[q],
        decreases ids@.len() - i,
    {
        let id = ids[i];
        let mut seen: bool = false;
        let mut j: usize = 0;
        while j < out.len()
            invariant
                j <= out@.len(),
                seen <==> exists|m: int| 0 <= m < j && out@[m] == id,
            decreases out@.len() - j,
        {
            if out[j] == id {
                seen = true;
            }
            j = j + 1;
        }
        let ghost prev = out@;
        if !seen {
            out.push(id);
        }
        i = i + 1;
        proof {
            let pre = ids@.subrange(0, i as int);
            assert(pre.drop_last() =~= ids@.subrange(0, i - 1));
            assert(pre.last() == ids@[i - 1]);
            if seen {
                let m = choose|m: int| 0 <= m < prev.len() && prev[m] == id;
                assert(prev.contains(id));
                assert(out@ =~= dedup_ids(pre));
            } else {
                assert(!prev.contains(id)) by {
                    if prev.contains(id) {
                        let m = choose|m: int| 0 <= m < prev.len() && prev[m] == id;
                        assert(false);
                    }
                }
                assert(out@ =~= dedup_ids(pre));
            }
        }
    }
    proof {
        assert(ids@.subrange(0, ids@.len() as int) =~= ids@);
    }
    out
}

impl Database {
    /// Scene-dedup a candidate slate and cut one page out of it.
    fn dedup_and_page(&self, slate: Vec<SearchResult>, offset: i64, limit: i64, hybrid: bool) -> (r:
        SearchResponse)
        requires
            self.wf(),
            0 <= offset,
            0 <= limit,
            slate@.len() <= 600,
        ensures
            result_views(r.results@) == page_of(
                dedup_output(result_views(slate@), self.rows(), crate::DEDUP_THRESHOLD),
                offset as int,
                limit as int,
            ),
            r.total_count as int == dedup_output(
                result_views(slate@),
                self.rows(),
                crate::DEDUP_THRESHOLD,
            ).len(),
            r.search_mode.deep_view() == Some(
                if hybrid {
                    "hybrid"@
                } else {
                    "keyword"@
                },
            ),
    {
        let ghost slatev = result_views(slate@);
        let deduped = match self.deduplicate_results(slate, crate::DEDUP_THRESHOLD) {
            Ok(d) => d,
            Err(_) => {
                proof {
                    assert(false);
                }
                return SearchResponse {
                    results: Vec::new(),
                    total_count: 0,
                    search_mode: None,
                };
            },
        };
        proof {
            lemma_dedup_groups_wf(
                ids_of(slatev),
                self.rows(),
                crate::DEDUP_THRESHOLD,
                slatev.len() as int,
            );
            assert(result_views(deduped@).len() <= 600);
            assert(deduped@.len() <= 600);
        }
        let total: i64 = deduped.len() as i64;
        let page = page_results(deduped, offset, limit);
        let mode = if hybrid {
            String::from_str("hybrid")
        } else {
            String::from_str("keyword")
        };
        SearchResponse { results: page, total_count: total, search_mode: Some(mode) }
    }

    /// Hybrid search: the keyword candidates — the full over-fetch of up to
    /// 300 ranked matches — are fused with a vector-ranked id list by
    /// reciprocal-rank fusion. The fused slate holds exactly the keyword
    /// candidates plus, for each distinct vector id that is neither a
    /// keyword candidate nor absent from the store, a hydrated entry built
    /// from the stored row and a snippet of its OCR text; it is ordered by
    /// descending reciprocal-rank score (each list that ranks an id at
    /// position `p` contributes `1/(61+p)`, compared exactly). The fused
    /// slate is scene-deduplicated and paginated. Without a vector list the
    /// keyword slate alone is deduplicated and paginated. Every result is
    /// grounded: its fields are those of the stored row with its id. Fails
    /// exactly when the query has no search tokens.
    #[verifier::rlimit(100)]
    #[verifier::spinoff_prover]
    pub fn hybrid_search(&self, filters: &SearchFilters, vector_ranked: Option<&Vec<i64>>) -> (r:
        Result<SearchResponse, CoreError>)
        requires
            self.wf(),
            0 <= filters.limit,
            0 <= filters.offset,
            match vector_ranked {
                Some(v) => v@.len() <= 300,
                None => true,
            },
        ensures
            r is Ok <==> text::spec_tokens(filters.query@).len() > 0,
            r is Ok && vector_ranked is None ==> r.unwrap().search_mode.deep_view() == Some(
                "keyword"@,
            ),
            r is Ok && vector_ranked is Some ==> r.unwrap().search_mode.deep_view() == Some(
                "hybrid"@,
            ),
            r is Ok ==> exists|slate: Seq<crate::schema::SearchResultV>|
                {
                    &&& #[trigger] keyword_slate_ok(
                        self.rows(),
                        self.fts(),
                        filters.query@,
                        filters.start_time,
                        filters.end_time,
                        filters.app_name.deep_view(),
                        slate,
                    )
                    &&& match vector_ranked {
                        None => result_views(r.unwrap().results@) == page_of(
                            dedup_output(slate, self.rows(), crate::DEDUP_THRESHOLD),
                            filters.offset as int,
                            filters.limit as int,
                        ) && r.unwrap().total_count as int == dedup_output(
                            slate,
                            self.rows(),
                            crate::DEDUP_THRESHOLD,
                        ).len(),
                        Some(v) => exists|fused: Seq<crate::schema::SearchResultV>|
                            {
                                &&& #[trigger] fused.to_multiset() == fused_members(
                                    slate,
                                    dedup_ids(v@),
                                    self.rows(),
                                    self.ocr(),
                                ).to_multiset()
                                &&& rrf_sorted(slate, dedup_ids(v@), fused)
                                &&& result_views(r.unwrap().results@) == page_of(
                                    dedup_output(fused, self.rows(), crate::DEDUP_THRESHOLD),
                                    filters.offset as int,
                                    filters.limit as int,
                                )
                                &&& r.unwrap().total_count as int == dedup_output(
                                    fused,
                                    self.rows(),
                                    crate::DEDUP_THRESHOLD,
                                ).len()
                            },
                    }
                },
    {
        let fts_filters = SearchFilters {
            query: filters.query.clone(),
            start_time: filters.start_time,
            end_time: filters.end_time,
            app_name: crate::schema::clone_opt_string(&filters.app_name),
            limit: 300,
            offset: 0,
        };
        let fts_resp = match self.search_deduped(&fts_filters, 0) {
            Ok(resp) => resp,
            Err(e) => {
                return Err(e);
            },
        };
        let ghost qt = text::spec_tokens(filters.query@);
        let ghost matched = matched_rows(
            self.rows(),
            self.fts(),
            qt,
            filters.start_time,
            filters.end_time,
            filters.app_name.deep_view(),
        );
        let ghost ftsv = result_views(fts_resp.results@);
        proof {
            lemma_keyword_slate_grounded(
                self.rows(),
                self.fts(),
                qt,
                filters.start_time,
                filters.end_time,
                filters.app_name.deep_view(),
                ftsv,
            );
            assert(ftsv.len() <= 300);
            lemma_slate_total(
                self.rows(),
                self.fts(),
                filters.query@,
                filters.start_time,
                filters.end_time,
                filters.app_name.deep_view(),
                ftsv,
                fts_resp.total_count as int,
            );
        }
        match vector_ranked {
            None => {
                let resp = self.dedup_and_page(
                    fts_resp.results,
                    filters.offset,
                    filters.limit,
                    false,
                );
                proof {
                    assert(result_views(resp.results@) == page_of(
                        dedup_output(ftsv, self.rows(), crate::DEDUP_THRESHOLD),
                        filters.offset as int,
                        filters.limit as int,
                    ));
                    assert(keyword_slate_ok(
                        self.rows(),
                        self.fts(),
                        filters.query@,
                        filters.start_time,
                        filters.end_time,
                        filters.app_name.deep_view(),
                        ftsv,
                    ));
                }
                Ok(resp)
            },
            Some(vec_ids) => {
                let fused = self.fuse_candidates(fts_resp.results, vec_ids, Ghost(ftsv));
                let ghost fusedv = result_views(fused@);
                let resp = self.dedup_and_page(fused, filters.offset, filters.limit, true);
                proof {
                    assert(result_views(resp.results@) == page_of(
                        dedup_output(fusedv, self.rows(), crate::DEDUP_THRESHOLD),
                        filters.offset as int,
                        filters.limit as int,
                    ));
                    assert(keyword_slate_ok(
                        self.rows(),
                        self.fts(),
                        filters.query@,
                        filters.start_time,
                        filters.end_time,
                        filters.app_name.deep_view(),
                        ftsv,
                    ));
                    assert(fusedv.to_multiset() == fused_members(
                        ftsv,
                        dedup_ids(vec_ids@),
                        self.rows(),
                        self.ocr(),
                    ).to_multiset());
                    assert(rrf_sorted(ftsv, dedup_ids(vec_ids@), fusedv));
                }
                Ok(resp)
            },
        }
    }

    /// Fuse the keyword slate with a vector-ranked id list: score each id
    /// by reciprocal-rank fusion, hydrate vector-only ids from the store,
    /// and order the union best-score-first. The result holds exactly the
    /// keyword candidates and the hydrated vector-only candidates, in
    /// descending score order.
    #[verifier::rlimit(100)]
    #[verifier::spinoff_prover]
    fn fuse_candidates(
        &self,
        fts_results: Vec<SearchResult>,
        vec_ids: &Vec<i64>,
        Ghost(ftsv): Ghost<Seq<crate::schema::SearchResultV>>,
    ) -> (r: Vec<SearchResult>)
        requires
            self.wf(),
            ftsv == result_views(fts_results@),
            ftsv.len() <= 300,
            vec_ids@.len() <= 300,
            forall|k: int| 0 <= k < ftsv.len() ==> grounded(self.rows(), #[trigger] ftsv[k]),
            forall|p: int, q: int|
                0 <= p < q < ftsv.len() ==> (#[trigger] ftsv[p]).id != (#[trigger] ftsv[q]).id,
        ensures
            r@.len() <= 600,
            forall|k: int|
                0 <= k < result_views(r@).len() ==> grounded(
                    self.rows(),
                    #[trigger] result_views(r@)[k],
                ),
            result_views(r@).to_multiset() == fused_members(
                ftsv,
                dedup_ids(vec_ids@),
                self.rows(),
                self.ocr(),
            ).to_multiset(),
            rrf_sorted(ftsv, dedup_ids(vec_ids@), result_views(r@)),
    {
        let vids = dedup_id_list(vec_ids);
        let ghost gv = dedup_ids(vec_ids@);
        let ghost snum = |v: crate::schema::SearchResultV| rrf_num(ftsv, gv, v.id);
        let ghost sden = |v: crate::schema::SearchResultV| rrf_den(ftsv, gv, v.id);
        let mut fused: Vec<SearchResult> = Vec::new();
        let mut nums: Vec<i64> = Vec::new();
        let mut dens: Vec<i64> = Vec::new();
        let fn_len = fts_results.len();
        let mut k: usize = 0;
        proof {
            assert(result_views(fused@) =~= Seq::<crate::schema::SearchResultV>::empty());
            assert(result_views(fused@) =~= ftsv.subrange(0, 0));
        }
        while k < fn_len
            invariant
                self.wf(),
                fn_len == fts_results@.len(),
                fn_len <= 300,
                ftsv == result_views(fts_results@),
                forall|m: int| 0 <= m < ftsv.len() ==> grounded(self.rows(), #[trigger] ftsv[m]),
                forall|p: int, q: int|
                    0 <= p < q < ftsv.len() ==> (#[trigger] ftsv[p]).id != (#[trigger] ftsv[q]).id,
                vids@ == gv,
                gv == dedup_ids(vec_ids@),
                gv.len() <= vec_ids@.len() <= 300,
                forall|p: int, q: int| 0 <= p < q < gv.len() ==> gv[p] != gv[q],
                snum == (|v: crate::schema::SearchResultV| rrf_num(ftsv, gv, v.id)),
                sden == (|v: crate::schema::SearchResultV| rrf_den(ftsv, gv, v.id)),
                k <= fn_len,
                nums@.len() == fused@.len(),
                dens@.len() == fused@.len(),
                fused@.len() == k,
                result_views(fused@) == ftsv.subrange(0, k as int),
                forall|m: int|
                    0 <= m < k ==> grounded(self.rows(), #[trigger] result_views(fused@)[m]),
                forall|m: int| 0 <= m < k ==> 1 <= #[trigger] dens@[m] <= 361 * 361,
                forall|m: int| 0 <= m < k ==> 1 <= #[trigger] nums@[m] <= 1000,
                forall|m: int|
                    0 <= m < k ==> #[trigger] nums@[m] == snum(result_views(fused@)[m]),
                forall|m: int|
                    0 <= m < k ==> #[trigger] dens@[m] == sden(result_views(fused@)[m]),
            decreases fn_len - k,
        {
            // position of this id in the vector ranking, if any
            let id = fts_results[k].id;
            let mut vpos: usize = vids.len();
            let mut p: usize = 0;
            while p < vids.len()
                invariant
                    p <= vids@.len(),
                    vpos <= vids@.len(),
                    vpos == vids@.len() ==> forall|j: int| 0 <= j < p ==> vids@[j] != id,
                    vpos < vids@.len() ==> vids@[vpos as int] == id && (forall|j: int|
                        0 <= j < vpos ==> vids@[j] != id),
                decreases vids@.len() - p,
            {
                if vids[p] == id && vpos == vids.len() {
                    vpos = p;
                }
                p = p + 1;
            }
            proof {
                lemma_vec_pos(gv, id as int, vpos as int);
                assert(forall|j: int| 0 <= j < k ==> (#[trigger] ftsv[j]).id != id as int) by {
                    assert(ftsv[k as int].id == id as int);
                }
                lemma_slate_pos(ftsv, id as int, k as int);
            }
            let rf: i64 = k as i64;
            let (num, den): (i64, i64) = if vpos < vids.len() {
                let rv: i64 = vpos as i64;
                proof {
                    assert(61 * 61 <= (61 + rf as int) * (61 + rv as int) <= 361 * 361)
                        by (nonlinear_arith)
                        requires
                            0 <= rf <= 300,
                            0 <= rv <= 300,
                    ;
                }
                (122 + rf + rv, (61 + rf) * (61 + rv))
            } else {
                (1, 61 + rf)
            };
            let ghost prev = result_views(fused@);
            let item = fts_results[k].duplicate();
            proof {
                assert(item@ == ftsv[k as int]);
                assert(num == snum(ftsv[k as int]) && den == sden(ftsv[k as int]));
            }
            fused.push(item);
            nums.push(num);
            dens.push(den);
            k = k + 1;
            proof {
                assert(result_views(fused@) =~= prev.push(ftsv[k - 1]));
                assert(result_views(fused@) =~= ftsv.subrange(0, k as int));
            }
        }
        proof {
            assert(ftsv.subrange(0, fn_len as int) =~= ftsv);
        }
        // vector-only candidates, hydrated from the store
        let mut p2: usize = 0;
        proof {
            assert(result_views(fused@) =~= ftsv + vec_members(
                ftsv,
                gv,
                self.rows(),
                self.ocr(),
                0,
            ));
        }
        while p2 < vids.len()
            invariant
                self.wf(),
                fn_len == fts_results@.len(),
                ftsv == result_views(fts_results@),
                forall|p: int, q: int|
                    0 <= p < q < ftsv.len() ==> (#[trigger] ftsv[p]).id != (#[trigger] ftsv[q]).id,
                vids@ == gv,
                gv == dedup_ids(vec_ids@),
                gv.len() <= 300,
                forall|p: int, q: int| 0 <= p < q < gv.len() ==> gv[p] != gv[q],
                snum == (|v: crate::schema::SearchResultV| rrf_num(ftsv, gv, v.id)),
                sden == (|v: crate::schema::SearchResultV| rrf_den(ftsv, gv, v.id)),
                fn_len <= 300,
                p2 <= vids@.len(),
                nums@.len() == fused@.len(),
                dens@.len() == fused@.len(),
                fused@.len() >= fn_len,
                fused@.len() <= fn_len + p2,
                result_views(fused@) == ftsv + vec_members(
                    ftsv,
                    gv,
                    self.rows(),
                    self.ocr(),
                    p2 as int,
                ),
                forall|m: int|
                    0 <= m < fused@.len() ==> grounded(
                        self.rows(),
                        #[trigger] result_views(fused@)[m],
                    ),
                forall|m: int| 0 <= m < fused@.len() ==> 1 <= #[trigger] dens@[m] <= 361 * 361,
                forall|m: int| 0 <= m < fused@.len() ==> 1 <= #[trigger] nums@[m] <= 1000,
                forall|m: int|
                    0 <= m < fused@.len() ==> #[trigger] nums@[m] == snum(
                        result_views(fused@)[m],
                    ),
                forall|m: int|
                    0 <= m < fused@.len() ==> #[trigger] dens@[m] == sden(
                        result_views(fused@)[m],
                    ),
            decreases vids@.len() - p2,
        {
            let id = vids[p2];
            // already among the keyword candidates?
            let mut present: bool = false;
            let mut m: usize = 0;
            while m < fn_len
                invariant
                    fn_len == fts_results@.len(),
                    ftsv == result_views(fts_results@),
                    m <= fn_len,
                    present <==> exists|w: int|
                        0 <= w < m && (#[trigger] ftsv[w]).id == id as int,
                decreases fn_len - m,
            {
                if fts_results[m].id == id {
                    present = true;
                    proof {
                        assert(ftsv[m as int].id == id as int);
                    }
                }
                m = m + 1;
            }
            if !present {
                proof {
                    lemma_slate_pos(ftsv, id as int, ftsv.len() as int);
                    assert(slate_pos(ftsv, id as int) == ftsv.len() as int);
                }
                match self.get_screenshot(id) {
                    Ok(Some(row)) => {
                        // hydrate a synthetic result with a short snippet
                        // of the OCR text
                        let ghost stored = ocr_text_of(self.ocr(), id as int);
                        let snippet: String = match self.get_ocr_text(id) {
                            Ok(Some(t)) => {
                                proof {
                                    let w = choose|w: int|
                                        0 <= w < self.ocr().len() && (
                                        #[trigger] self.ocr()[w]).screenshot_id == id as int && t@
                                            == self.ocr()[w].text_content;
                                    lemma_ocr_text_of(self.ocr(), w);
                                    assert(stored == t@);
                                }
                                let chars = text::chars_of(t.as_str());
                                if chars.len() > 200 {
                                    let mut cut: Vec<char> = Vec::new();
                                    let mut q: usize = 0;
                                    while q < 200
                                        invariant
                                            chars@.len() > 200,
                                            chars@ == stored,
                                            q <= 200,
                                            cut@ == stored.subrange(0, q as int),
                                        decreases 200 - q,
                                    {
                                        cut.push(chars[q]);
                                        q = q + 1;
                                        proof {
                                            assert(cut@ =~= stored.subrange(0, q as int));
                                        }
                                    }
                                    put_dots(&mut cut);
                                    proof {
                                        assert(cut@ == vec_snippet(stored));
                                    }
                                    text::string_from_chars(&cut)
                                } else {
                                    t
                                }
                            },
                            Ok(None) => {
                                proof {
                                    lemma_ocr_text_of_absent(self.ocr(), id as int);
                                }
                                String::new()
                            },
                            Err(_) => {
                                proof {
                                    assert(false);
                                }
                                String::new()
                            },
                        };
                        proof {
                            assert(snippet@ == vec_snippet(stored));
                        }
                        let ghost prev = result_views(fused@);
                        let item = SearchResult {
                            id: row.id,
                            timestamp: row.timestamp,
                            app_name: crate::schema::clone_opt_string(&row.app_name),
                            window_title: crate::schema::clone_opt_string(&row.window_title),
                            thumbnail_path: crate::schema::clone_opt_string(&row.thumbnail_path),
                            file_path: row.file_path.clone(),
                            matched_text: snippet,
                            rank: 0,
                            group_count: None,
                            group_screenshot_ids: None,
                        };
                        proof {
                            assert(row@ == self.rows()[idx_of(self.rows(), id as int)]);
                            assert(grounded(self.rows(), item@));
                            assert(item@ =~= hydrated_entry(self.rows(), self.ocr(), id as int));
                            lemma_vec_pos(gv, id as int, p2 as int);
                            assert(snum(item@) == 1 && sden(item@) == 61 + p2 as int);
                        }
                        let ghost prev_nums = nums@;
                        let ghost prev_dens = dens@;
                        fused.push(item);
                        let rv: i64 = p2 as i64;
                        nums.push(1);
                        dens.push(61 + rv);
                        proof {
                            assert(result_views(fused@) =~= prev.push(item@));
                            assert(vec_members(ftsv, gv, self.rows(), self.ocr(), p2 + 1)
                                =~= vec_members(ftsv, gv, self.rows(), self.ocr(), p2 as int).push(
                                hydrated_entry(self.rows(), self.ocr(), id as int),
                            ));
                            assert(result_views(fused@) =~= ftsv + vec_members(
                                ftsv,
                                gv,
                                self.rows(),
                                self.ocr(),
                                p2 + 1,
                            ));
                            assert forall|w: int| 0 <= w < fused@.len() implies #[trigger] nums@[w]
                                == snum(result_views(fused@)[w]) by {
                                if w < prev.len() {
                                    assert(result_views(fused@)[w] == prev[w]);
                                    assert(nums@[w] == prev_nums[w] && dens@[w] == prev_dens[w]);
                                } else {
                                    assert(result_views(fused@)[w] == item@);
                                    assert(nums@[w] == 1 && dens@[w] == 61 + p2 as int);
                                }
                            }
                            assert forall|w: int| 0 <= w < fused@.len() implies #[trigger] dens@[w]
                                == sden(result_views(fused@)[w]) by {
                                if w < prev.len() {
                                    assert(result_views(fused@)[w] == prev[w]);
                                    assert(nums@[w] == prev_nums[w] && dens@[w] == prev_dens[w]);
                                } else {
                                    assert(result_views(fused@)[w] == item@);
                                    assert(nums@[w] == 1 && dens@[w] == 61 + p2 as int);
                                }
                            }
                        }
                    },
                    Ok(None) => {
                        proof {
                            assert(!has_id(self.rows(), id as int));
                            assert(vec_members(ftsv, gv, self.rows(), self.ocr(), p2 + 1)
                                =~= vec_members(ftsv, gv, self.rows(), self.ocr(), p2 as int));
                        }
                    },
                    Err(_) => {
                        proof {
                            assert(false);
                        }
                    },
                }
            } else {
                proof {
                    let w = choose|w: int| 0 <= w < ftsv.len() && (#[trigger] ftsv[w]).id == id as int;
                    lemma_slate_pos_found(ftsv, id as int, w);
                    assert(slate_pos(ftsv, id as int) < ftsv.len() as int);
                    assert(vec_members(ftsv, gv, self.rows(), self.ocr(), p2 + 1)
                        =~= vec_members(ftsv, gv, self.rows(), self.ocr(), p2 as int));
                }
            }
            p2 = p2 + 1;
        }
        proof {
            assert(result_views(fused@) =~= fused_members(ftsv, gv, self.rows(), self.ocr()));
        }
        // order by combined score, best first
        let (sorted_fused, Ghost(unsorted)) = sort_by_score(
            fused,
            nums,
            dens,
            Ghost(snum),
            Ghost(sden),
        );
        proof {
            let sortedv = result_views(sorted_fused@);
            assert forall|w: int| 0 <= w < sortedv.len() implies grounded(
                self.rows(),
                #[trigger] sortedv[w],
            ) by {
                assert(sortedv.contains(sortedv[w])) by {
                    assert(sortedv[w] == sortedv[w]);
                }
                vstd::seq_lib::to_multiset_contains::<crate::schema::SearchResultV>(
                    sortedv,
                    sortedv[w],
                );
                vstd::seq_lib::to_multiset_contains::<crate::schema::SearchResultV>(
                    unsorted,
                    sortedv[w],
                );
                let z = choose|z: int| 0 <= z < unsorted.len() && unsorted[z] == sortedv[w];
            }
            assert(rrf_sorted(ftsv, gv, sortedv));
        }
        sorted_fused
    }
}

/// An id found in a slate sits at or after the slate's position for it.
proof fn lemma_slate_pos_found(s: Seq<crate::schema::SearchResultV>, id: int, w: int)
    requires
        0 <= w < s.len(),
        s[w].id == id,
    ensures
        slate_pos(s, id) <= w,
    decreases w,
{
    if w > 0 && s[0].id != id {
        lemma_slate_pos_found(s.drop_first(), id, w - 1);
    }
}

/// Every keyword-slate entry is grounded in a stored row: the slate
/// corresponds index-for-index to matching rows, which are rows of the
/// store.
proof fn lemma_keyword_slate_grounded(
    rows: Seq<ScreenshotV>,
    fts: Seq<FtsRowV>,
    qt: Seq<Seq<char>>,
    start: Option<i64>,
    end: Option<i64>,
    app: Option<Seq<char>>,
    ftsv: Seq<crate::schema::SearchResultV>,
)
    requires
        forall|p: int, q: int|
            0 <= p < q < rows.len() ==> (#[trigger] rows[p]).id < (#[trigger] rows[q]).id,
        exists|ranked: Seq<ScreenshotV>|
            {
                &&& #[trigger] ranked.to_multiset() == matched_rows(
                    rows,
                    fts,
                    qt,
                    start,
                    end,
                    app,
                ).to_multiset()
                &&& ranked_ok(ranked)
                &&& exists|prelim: Seq<crate::schema::SearchResultV>|
                    {
                        &&& #[trigger] results_correspond(prelim, ranked, 0)
                        &&& ftsv == page_of(prelim, 0, 300)
                    }
            },
    ensures
        ftsv.len() <= 300,
        forall|k: int| 0 <= k < ftsv.len() ==> grounded(rows, #[trigger] ftsv[k]),
        forall|p: int, q: int|
            0 <= p < q < ftsv.len() ==> (#[trigger] ftsv[p]).id != (#[trigger] ftsv[q]).id,
{
    broadcast use vstd::seq_lib::group_to_multiset_ensures;

    let matched = matched_rows(rows, fts, qt, start, end, app);
    let ranked = choose|ranked: Seq<ScreenshotV>|
        {
            &&& #[trigger] ranked.to_multiset() == matched.to_multiset()
            &&& ranked_ok(ranked)
            &&& exists|prelim: Seq<crate::schema::SearchResultV>|
                {
                    &&& #[trigger] results_correspond(prelim, ranked, 0)
                    &&& ftsv == page_of(prelim, 0, 300)
                }
        };
    let prelim = choose|prelim: Seq<crate::schema::SearchResultV>|
        {
            &&& #[trigger] results_correspond(prelim, ranked, 0)
            &&& ftsv == page_of(prelim, 0, 300)
        };
    let pred = keyword_pred(fts, qt, start, end, app);
    lemma_filter_in_original(rows, pred);
    assert forall|k: int| 0 <= k < ftsv.len() implies grounded(rows, #[trigger] ftsv[k]) by {
        assert(ftsv[k] == prelim[k]);
        assert(hit_corresponds(prelim[k], ranked[k], k));
        assert(ranked.contains(ranked[k])) by {
            assert(ranked[k] == ranked[k]);
        }
        vstd::seq_lib::to_multiset_contains::<ScreenshotV>(ranked, ranked[k]);
        vstd::seq_lib::to_multiset_contains::<ScreenshotV>(matched, ranked[k]);
        assert(matched.contains(ranked[k]));
        let j = choose|j: int| 0 <= j < matched.len() && matched[j] == ranked[k];
        assert(rows.contains(matched[j]));
        let w = choose|w: int| 0 <= w < rows.len() && rows[w] == matched[j];
        lemma_idx_of_unique(rows, ranked[k].id, w);
    }
    // the slate's ids are pairwise distinct: the matched rows carry distinct
    // ids, ranking only permutes them, and the slate is a prefix
    lemma_filter_pairs(rows, pred, |a: ScreenshotV, b: ScreenshotV| a.id != b.id);
    assert(matched.no_duplicates()) by {
        assert forall|p: int, q: int| 0 <= p < q < matched.len() implies matched[p] != matched[q] by {
            assert(matched[p].id != matched[q].id);
        }
    }
    matched.lemma_multiset_has_no_duplicates();
    ranked.lemma_multiset_has_no_duplicates_conv();
    assert forall|p: int, q: int| 0 <= p < q < ftsv.len() implies (#[trigger] ftsv[p]).id != (
    #[trigger] ftsv[q]).id by {
        assert(ftsv[p] == prelim[p] && ftsv[q] == prelim[q]);
        assert(hit_corresponds(prelim[p], ranked[p], p));
        assert(hit_corresponds(prelim[q], ranked[q], q));
        assert(ranked[p] != ranked[q]);
        if ranked[p].id == ranked[q].id {
            assert(ranked.contains(ranked[p])) by {
                assert(ranked[p] == ranked[p]);
            }
            assert(ranked.contains(ranked[q])) by {
                assert(ranked[q] == ranked[q]);
            }
            vstd::seq_lib::to_multiset_contains::<ScreenshotV>(ranked, ranked[p]);
            vstd::seq_lib::to_multiset_contains::<ScreenshotV>(matched, ranked[p]);
            vstd::seq_lib::to_multiset_contains::<ScreenshotV>(ranked, ranked[q]);
            vstd::seq_lib::to_multiset_contains::<ScreenshotV>(matched, ranked[q]);
            let j1 = choose|j1: int| 0 <= j1 < matched.len() && matched[j1] == ranked[p];
            let j2 = choose|j2: int| 0 <= j2 < matched.len() && matched[j2] == ranked[q];
            assert(j1 != j2);
            assert(matched[j1].id != matched[j2].id);
        }
    }
}

/// Append a three-dot ellipsis.
fn put_dots(out: &mut Vec<char>)
    ensures
        final(out)@ == old(out)@ + "..."@,
{
    let v = text::chars_of("...");
    let mut i: usize = 0;
    while i < v.len()
        invariant
            i <= v@.len(),
            v@ == "..."@,
            out@ == old(out)@ + v@.subrange(0, i as int),
        decreases v@.len() - i,
    {
        out.push(v[i]);
        i = i + 1;
        proof {
            assert(out@ =~= old(out)@ + v@.subrange(0, i as int));
        }
    }
    proof {
        assert(out@ =~= old(out)@ + v@);
    }
}

/// The first fraction is at least the second, over positive denominators.
pub open spec fn frac_ge(n1: int, d1: int, n2: int, d2: int) -> bool {
    n1 * d2 >= n2 * d1
}

/// Exact comparison of two score fractions.
fn score_ge(n1: i64, d1: i64, n2: i64, d2: i64) -> (r: bool)
    requires
        1 <= d1 <= 361 * 361,
        1 <= d2 <= 361 * 361,
        1 <= n1 <= 1000,
        1 <= n2 <= 1000,
    ensures
        r == frac_ge(n1 as int, d1 as int, n2 as int, d2 as int),
{
    proof {
        assert(1 <= n1 as int * d2 as int <= 1000 * (361 * 361) && 1 <= n2 as int * d1 as int
            <= 1000 * (361 * 361)) by (nonlinear_arith)
            requires
                1 <= d1 <= 361 * 361,
                1 <= d2 <= 361 * 361,
                1 <= n1 <= 1000,
                1 <= n2 <= 1000,
        ;
    }
    n1 * d2 >= n2 * d1
}

/// Sort fused candidates by their score fractions, best first; the scores
/// are the given spec scores of the candidates, and the result comes back
/// ordered by them. Returns the sorted candidates and (as a ghost value)
/// the original views.
#[verifier::spinoff_prover]
fn sort_by_score(
    fused: Vec<SearchResult>,
    nums: Vec<i64>,
    dens: Vec<i64>,
    Ghost(snum): Ghost<spec_fn(crate::schema::SearchResultV) -> int>,
    Ghost(sden): Ghost<spec_fn(crate::schema::SearchResultV) -> int>,
) -> (r: (Vec<SearchResult>, Ghost<Seq<crate::schema::SearchResultV>>))
    requires
        nums@.len() == fused@.len(),
        dens@.len() == fused@.len(),
        forall|m: int| 0 <= m < dens@.len() ==> 1 <= #[trigger] dens@[m] <= 361 * 361,
        forall|m: int| 0 <= m < nums@.len() ==> 1 <= #[trigger] nums@[m] <= 1000,
        forall|m: int|
            0 <= m < fused@.len() ==> #[trigger] nums@[m] == snum(result_views(fused@)[m]),
        forall|m: int|
            0 <= m < fused@.len() ==> #[trigger] dens@[m] == sden(result_views(fused@)[m]),
    ensures
        r.1@ == result_views(fused@),
        result_views(r.0@).to_multiset() == result_views(fused@).to_multiset(),
        r.0@.len() == fused@.len(),
        forall|i: int, j: int|
            0 <= i < j < r.0@.len() ==> frac_ge(
                snum(#[trigger] result_views(r.0@)[i]),
                sden(result_views(r.0@)[i]),
                snum(#[trigger] result_views(r.0@)[j]),
                sden(result_views(r.0@)[j]),
            ),
{
    broadcast use vstd::seq_lib::group_to_multiset_ensures;
    broadcast use vstd::multiset::group_multiset_axioms;

    let ghost original = result_views(fused@);
    let mut rest = fused;
    let mut rest_nums = nums;
    let mut rest_dens = dens;
    let mut out: Vec<SearchResult> = Vec::new();
    let mut out_nums: Vec<i64> = Vec::new();
    let mut out_dens: Vec<i64> = Vec::new();
    proof {
        assert(result_views(out@).to_multiset() =~= Multiset::<
            crate::schema::SearchResultV,
        >::empty());
        vstd::seq_lib::lemma_multiset_commutative(result_views(out@), result_views(rest@));
        assert(result_views(out@) + result_views(rest@) =~= result_views(rest@));
    }
    while rest.len() > 0
        invariant
            rest_nums@.len() == rest@.len(),
            rest_dens@.len() == rest@.len(),
            out_nums@.len() == out@.len(),
            out_dens@.len() == out@.len(),
            forall|m: int| 0 <= m < rest_dens@.len() ==> 1 <= #[trigger] rest_dens@[m] <= 361 * 361,
            forall|m: int| 0 <= m < rest_nums@.len() ==> 1 <= #[trigger] rest_nums@[m] <= 1000,
            forall|m: int| 0 <= m < out_dens@.len() ==> 1 <= #[trigger] out_dens@[m] <= 361 * 361,
            forall|m: int| 0 <= m < out_nums@.len() ==> 1 <= #[trigger] out_nums@[m] <= 1000,
            forall|m: int|
                0 <= m < rest@.len() ==> #[trigger] rest_nums@[m] == snum(result_views(rest@)[m]),
            forall|m: int|
                0 <= m < rest@.len() ==> #[trigger] rest_dens@[m] == sden(result_views(rest@)[m]),
            forall|m: int|
                0 <= m < out@.len() ==> #[trigger] out_nums@[m] == snum(result_views(out@)[m]),
            forall|m: int|
                0 <= m < out@.len() ==> #[trigger] out_dens@[m] == sden(result_views(out@)[m]),
            forall|i: int, j: int|
                0 <= i < j < out@.len() ==> frac_ge(
                    snum(#[trigger] result_views(out@)[i]),
                    sden(result_views(out@)[i]),
                    snum(#[trigger] result_views(out@)[j]),
                    sden(result_views(out@)[j]),
                ),
            result_views(out@).to_multiset().add(result_views(rest@).to_multiset())
                == original.to_multiset(),
            out@.len() + rest@.len() == original.len(),
        decreases rest@.len(),
    {
        let ghost prev_rest = result_views(rest@);
        let h = rest.remove(0);
        let hn = rest_nums.remove(0);
        let hd = rest_dens.remove(0);
        proof {
            assert(result_views(rest@) =~= prev_rest.remove(0));
            vstd::seq_lib::to_multiset_remove::<crate::schema::SearchResultV>(prev_rest, 0);
            assert(h@ == prev_rest[0]);
            assert(hn == snum(h@) && hd == sden(h@));
        }
        // insert before the first strictly smaller score
        let mut pos: usize = 0;
        while pos < out.len() && score_ge(out_nums[pos], out_dens[pos], hn, hd)
            invariant
                out_nums@.len() == out@.len(),
                out_dens@.len() == out@.len(),
                pos <= out@.len(),
                1 <= hd <= 361 * 361,
                1 <= hn <= 1000,
                hn == snum(h@),
                hd == sden(h@),
                forall|m: int| 0 <= m < out_dens@.len() ==> 1 <= #[trigger] out_dens@[m] <= 361
                    * 361,
                forall|m: int| 0 <= m < out_nums@.len() ==> 1 <= #[trigger] out_nums@[m] <= 1000,
                forall|m: int|
                    0 <= m < out@.len() ==> #[trigger] out_nums@[m] == snum(
                        result_views(out@)[m],
                    ),
                forall|m: int|
                    0 <= m < out@.len() ==> #[trigger] out_dens@[m] == sden(
                        result_views(out@)[m],
                    ),
                forall|k: int|
                    0 <= k < pos ==> frac_ge(
                        snum(#[trigger] result_views(out@)[k]),
                        sden(result_views(out@)[k]),
                        snum(h@),
                        sden(h@),
                    ),
            decreases out@.len() - pos,
        {
            proof {
                assert(result_views(out@)[pos as int] == out@[pos as int]@);
                assert(out_nums@[pos as int] == snum(result_views(out@)[pos as int]));
            }
            pos = pos + 1;
        }
        proof {
            if pos < out@.len() {
                assert(result_views(out@)[pos as int] == out@[pos as int]@);
                assert(!frac_ge(
                    snum(result_views(out@)[pos as int]),
                    sden(result_views(out@)[pos as int]),
                    snum(h@),
                    sden(h@),
                ));
            }
        }
        let ghost prev_out = result_views(out@);
        let ghost prev_onums = out_nums@;
        let ghost prev_odens = out_dens@;
        out.insert(pos, h);
        out_nums.insert(pos, hn);
        out_dens.insert(pos, hd);
        proof {
            assert(result_views(out@) =~= prev_out.insert(pos as int, prev_rest[0]));
            lemma_insert_to_multiset(prev_out, pos as int, prev_rest[0]);
            assert(prev_rest.contains(prev_rest[0])) by {
                assert(prev_rest[0] == prev_rest[0]);
            }
            vstd::seq_lib::to_multiset_contains::<crate::schema::SearchResultV>(
                prev_rest,
                prev_rest[0],
            );
            // sortedness after insertion
            let cur = result_views(out@);
            let hv = prev_rest[0];
            assert forall|p: int, q: int| 0 <= p < q < cur.len() implies frac_ge(
                snum(#[trigger] cur[p]),
                sden(cur[p]),
                snum(#[trigger] cur[q]),
                sden(cur[q]),
            ) by {
                if q < pos {
                    assert(cur[p] == prev_out[p] && cur[q] == prev_out[q]);
                } else if p < pos && q == pos {
                    assert(cur[p] == prev_out[p] && cur[q] == hv);
                } else if p < pos && q > pos {
                    assert(cur[p] == prev_out[p] && cur[q] == prev_out[q - 1]);
                } else if p == pos && q > pos {
                    assert(cur[p] == hv && cur[q] == prev_out[q - 1]);
                    assert(pos < prev_out.len());
                    assert(sden(hv) == hd as int && 1 <= hd);
                    assert(prev_onums[pos as int] == snum(prev_out[pos as int]));
                    assert(sden(prev_out[pos as int]) == prev_odens[pos as int] && 1
                        <= prev_odens[pos as int]);
                    assert(frac_ge(snum(hv), sden(hv), snum(prev_out[pos as int]), sden(
                        prev_out[pos as int],
                    )));
                    if q - 1 > pos {
                        assert(prev_onums[q - 1] == snum(prev_out[q - 1]));
                        assert(sden(prev_out[q - 1]) == prev_odens[q - 1] && 1 <= prev_odens[q
                            - 1]);
                        assert(frac_ge(
                            snum(prev_out[pos as int]),
                            sden(prev_out[pos as int]),
                            snum(prev_out[q - 1]),
                            sden(prev_out[q - 1]),
                        ));
                        lemma_frac_trans(
                            snum(hv),
                            sden(hv),
                            snum(prev_out[pos as int]),
                            sden(prev_out[pos as int]),
                            snum(prev_out[q - 1]),
                            sden(prev_out[q - 1]),
                        );
                    }
                } else {
                    assert(cur[p] == prev_out[p - 1] && cur[q] == prev_out[q - 1]);
                }
            }
        }
    }
    proof {
        assert(result_views(rest@).to_multiset() =~= Multiset::<
            crate::schema::SearchResultV,
        >::empty());
        assert(result_views(out@).to_multiset() =~= original.to_multiset());
    }
    (out, Ghost(original))
}

// ---------------------------------------------------------------------------
// App names, OCR sessions, and activity aggregates
// ---------------------------------------------------------------------------

/// Some stored row carries this app name.
pub open spec fn row_has_app(rows: Seq<ScreenshotV>, name: Seq<char>) -> bool {
    exists|k: int| 0 <= k < rows.len() && (#[trigger] rows[k]).app_name == Some(name)
}

/// A row lies in the aggregate window.
pub open spec fn in_window(x: ScreenshotV, since: i64, until: Option<i64>) -> bool {
    x.timestamp >= since && match until {
        Some(u) => x.timestamp < u,
        None => true,
    }
}

impl Database {
    /// Every distinct app name among the stored rows: each returned name is
    /// carried by some row, every row's name is returned, and no name
    /// repeats. Names come back in lexicographic order.
    pub fn get_app_names(&self) -> (r: Result<Vec<String>, CoreError>)
        requires
            self.wf(),
        ensures
            r is Ok,
            ({
                let names = crate::window_info::str_views(r.unwrap()@);
                &&& (forall|i: int, j: int| 0 <= i < j < names.len() ==> names[i] != names[j])
                &&& (forall|i: int, j: int|
                    0 <= i < j < names.len() ==> text::lex_le(
                        #[trigger] names[i],
                        #[trigger] names[j],
                    ))
                &&& (forall|i: int|
                    0 <= i < names.len() ==> row_has_app(self.rows(), #[trigger] names[i]))
                &&& (forall|k: int|
                    0 <= k < self.rows().len() && (#[trigger] self.rows()[k]).app_name is Some
                        ==> names.contains(self.rows()[k].app_name.unwrap()))
            }),
    {
        broadcast use vstd::seq_lib::group_to_multiset_ensures;

        let n = self.screenshots.len();
        let mut distinct: Vec<String> = Vec::new();
        let mut i: usize = 0;
        while i < n
            invariant
                self.wf(),
                n == self.rows().len(),
                i <= n,
                forall|p: int, q: int|
                    0 <= p < q < crate::window_info::str_views(distinct@).len()
                        ==> crate::window_info::str_views(distinct@)[p]
                        != crate::window_info::str_views(distinct@)[q],
                forall|p: int|
                    0 <= p < crate::window_info::str_views(distinct@).len() ==> row_has_app(
                        self.rows(),
                        #[trigger] crate::window_info::str_views(distinct@)[p],
                    ),
                forall|k: int|
                    0 <= k < i && (#[trigger] self.rows()[k]).app_name is Some
                        ==> crate::window_info::str_views(distinct@).contains(
                        self.rows()[k].app_name.unwrap(),
                    ),
            decreases n - i,
        {
            let ghost rv = self.rows()[i as int];
            proof {
                assert(rv == self.screenshots@[i as int]@);
            }
            match &self.screenshots[i].app_name {
                Some(app) => {
                    let mut seen: bool = false;
                    let mut j: usize = 0;
                    while j < distinct.len()
                        invariant
                            j <= distinct@.len(),
                            seen ==> crate::window_info::str_views(distinct@).contains(app@),
                            !seen ==> forall|p: int|
                                0 <= p < j ==> #[trigger] crate::window_info::str_views(
                                    distinct@,
                                )[p] != app@,
                        decreases distinct@.len() - j,
                    {
                        proof {
                            assert(crate::window_info::str_views(distinct@)[j as int]
                                == distinct@[j as int]@);
                        }
                        if text::str_eq(distinct[j].as_str(), app.as_str()) {
                            seen = true;
                            proof {
                                assert(crate::window_info::str_views(distinct@)[j as int] == app@);
                            }
                            j = distinct.len();
                        } else {
                            j = j + 1;
                        }
                    }
                    if !seen {
                        let ghost prev = crate::window_info::str_views(distinct@);
                        distinct.push(app.clone());
                        proof {
                            assert(crate::window_info::str_views(distinct@) =~= prev.push(app@));
                            assert(row_has_app(self.rows(), app@)) by {
                                assert(self.rows()[i as int].app_name == Some(app@));
                            }
                            assert(crate::window_info::str_views(distinct@).contains(app@)) by {
                                assert(crate::window_info::str_views(distinct@)[prev.len() as int]
                                    == app@);
                            }
                            assert forall|p: int|
                                0 <= p < prev.len() && prev.contains(#[trigger] prev[p]) implies
                                crate::window_info::str_views(distinct@).contains(prev[p]) by {
                                assert(crate::window_info::str_views(distinct@)[p] == prev[p]);
                            }
                            assert forall|k: int|
                                0 <= k < i + 1 && (#[trigger] self.rows()[k]).app_name is Some
                                    implies crate::window_info::str_views(distinct@).contains(
                                self.rows()[k].app_name.unwrap(),
                            ) by {
                                if k < i {
                                    let w = choose|w: int|
                                        0 <= w < prev.len() && prev[w] == self.rows()[
                                            k
                                        ].app_name.unwrap();
                                    assert(crate::window_info::str_views(distinct@)[w]
                                        == prev[w]);
                                }
                            }
                        }
                    } else {
                        proof {
                            assert(rv.app_name == Some(app@));
                        }
                    }
                },
                None => {},
            }
            i = i + 1;
        }
        // order the names lexicographically; the set is unchanged
        let ghost dnames = crate::window_info::str_views(distinct@);
        let sorted = sort_names(distinct);
        proof {
            let snames = crate::window_info::str_views(sorted@);
            assert(dnames.no_duplicates());
            dnames.lemma_multiset_has_no_duplicates();
            snames.lemma_multiset_has_no_duplicates_conv();
            assert(snames.no_duplicates());
            assert forall|p: int| 0 <= p < snames.len() implies row_has_app(
                self.rows(),
                #[trigger] snames[p],
            ) by {
                assert(snames.contains(snames[p])) by {
                    assert(snames[p] == snames[p]);
                }
                vstd::seq_lib::to_multiset_contains::<Seq<char>>(snames, snames[p]);
                vstd::seq_lib::to_multiset_contains::<Seq<char>>(dnames, snames[p]);
                let w = choose|w: int| 0 <= w < dnames.len() && dnames[w] == snames[p];
                assert(row_has_app(self.rows(), dnames[w]));
            }
            assert forall|k: int|
                0 <= k < self.rows().len() && (#[trigger] self.rows()[k]).app_name is Some implies
                crate::window_info::str_views(sorted@).contains(self.rows()[k].app_name.unwrap())
                by {
                assert(dnames.contains(self.rows()[k].app_name.unwrap()));
                vstd::seq_lib::to_multiset_contains::<Seq<char>>(
                    dnames,
                    self.rows()[k].app_name.unwrap(),
                );
                vstd::seq_lib::to_multiset_contains::<Seq<char>>(
                    crate::window_info::str_views(sorted@),
                    self.rows()[k].app_name.unwrap(),
                );
            }
        }
        Ok(sorted)
    }
}

/// Sort names lexicographically by scalar values; the names themselves are
/// preserved (same multiset).
fn sort_names(names: Vec<String>) -> (r: Vec<String>)
    ensures
        crate::window_info::str_views(r@).to_multiset() == crate::window_info::str_views(
            names@,
        ).to_multiset(),
        r@.len() == names@.len(),
        forall|p: int, q: int|
            0 <= p < q < r@.len() ==> text::lex_le(
                #[trigger] crate::window_info::str_views(r@)[p],
                #[trigger] crate::window_info::str_views(r@)[q],
            ),
{
    broadcast use vstd::seq_lib::group_to_multiset_ensures;
    broadcast use vstd::multiset::group_multiset_axioms;

    let ghost original = crate::window_info::str_views(names@);
    let mut rest = names;
    let mut out: Vec<String> = Vec::new();
    proof {
        assert(crate::window_info::str_views(out@).to_multiset() =~= Multiset::<
            Seq<char>,
        >::empty());
        vstd::seq_lib::lemma_multiset_commutative(
            crate::window_info::str_views(out@),
            crate::window_info::str_views(rest@),
        );
        assert(crate::window_info::str_views(out@) + crate::window_info::str_views(rest@)
            =~= crate::window_info::str_views(rest@));
    }
    while rest.len() > 0
        invariant
            crate::window_info::str_views(out@).to_multiset().add(
                crate::window_info::str_views(rest@).to_multiset(),
            ) == original.to_multiset(),
            out@.len() + rest@.len() == original.len(),
            forall|p: int, q: int|
                0 <= p < q < out@.len() ==> text::lex_le(
                    #[trigger] crate::window_info::str_views(out@)[p],
                    #[trigger] crate::window_info::str_views(out@)[q],
                ),
        decreases rest@.len(),
    {
        let ghost prev_rest = crate::window_info::str_views(rest@);
        let h = rest.remove(0);
        proof {
            assert(crate::window_info::str_views(rest@) =~= prev_rest.remove(0));
            vstd::seq_lib::to_multiset_remove::<Seq<char>>(prev_rest, 0);
            assert(h@ == prev_rest[0]);
        }
        let h_chars = text::chars_of(h.as_str());
        let mut pos: usize = 0;
        while pos < out.len() && chars_le(&text::chars_of(out[pos].as_str()), &h_chars)
            invariant
                pos <= out@.len(),
                h_chars@ == h@,
                forall|k: int|
                    0 <= k < pos ==> text::lex_le(
                        #[trigger] crate::window_info::str_views(out@)[k],
                        h@,
                    ),
            decreases out@.len() - pos,
        {
            proof {
                assert(crate::window_info::str_views(out@)[pos as int] == out@[pos as int]@);
            }
            pos = pos + 1;
        }
        proof {
            if pos < out@.len() {
                assert(crate::window_info::str_views(out@)[pos as int] == out@[pos as int]@);
                assert(!text::lex_le(crate::window_info::str_views(out@)[pos as int], h@));
                text::lemma_lex_total(crate::window_info::str_views(out@)[pos as int], h@);
            }
        }
        let ghost prev_out = crate::window_info::str_views(out@);
        out.insert(pos, h);
        proof {
            assert(crate::window_info::str_views(out@) =~= prev_out.insert(
                pos as int,
                prev_rest[0],
            ));
            lemma_insert_to_multiset(prev_out, pos as int, prev_rest[0]);
            assert(prev_rest.contains(prev_rest[0])) by {
                assert(prev_rest[0] == prev_rest[0]);
            }
            vstd::seq_lib::to_multiset_contains::<Seq<char>>(prev_rest, prev_rest[0]);
            // sortedness after insertion
            let cur = crate::window_info::str_views(out@);
            assert forall|p: int, q: int| 0 <= p < q < cur.len() implies text::lex_le(
                cur[p],
                cur[q],
            ) by {
                if q < pos {
                    assert(cur[p] == prev_out[p] && cur[q] == prev_out[q]);
                } else if p < pos && q == pos {
                    assert(cur[p] == prev_out[p]);
                    assert(text::lex_le(prev_out[p], prev_rest[0]));
                } else if p < pos && q > pos {
                    assert(cur[p] == prev_out[p] && cur[q] == prev_out[q - 1]);
                } else if p == pos && q > pos {
                    assert(cur[q] == prev_out[q - 1]);
                    if pos < prev_out.len() {
                        if q - 1 > pos {
                            assert(text::lex_le(prev_out[pos as int], prev_out[q - 1]));
                            text::lemma_lex_trans(
                                prev_rest[0],
                                prev_out[pos as int],
                                prev_out[q - 1],
                            );
                        } else {
                            assert(text::lex_le(prev_rest[0], prev_out[pos as int]));
                        }
                    }
                } else {
                    assert(cur[p] == prev_out[p - 1] && cur[q] == prev_out[q - 1]);
                }
            }
        }
    }
    proof {
        assert(crate::window_info::str_views(rest@).to_multiset() =~= Multiset::<
            Seq<char>,
        >::empty());
        assert(crate::window_info::str_views(out@).to_multiset() =~= original.to_multiset());
    }
    out
}

/// `a` is at or before `b` in character-scalar order.
fn chars_le(a: &Vec<char>, b: &Vec<char>) -> (r: bool)
    ensures
        r == text::lex_le(a@, b@),
{
    let mut i: usize = 0;
    proof {
        assert(a@.skip(0) =~= a@);
        assert(b@.skip(0) =~= b@);
    }
    loop
        invariant
            i <= a@.len(),
            i <= b@.len(),
            text::lex_le(a@, b@) == text::lex_le(a@.skip(i as int), b@.skip(i as int)),
        decreases a@.len() - i,
    {
        if i >= a.len() {
            proof {
                assert(a@.skip(i as int) =~= Seq::<char>::empty());
            }
            return true;
        }
        if i >= b.len() {
            proof {
                assert(b@.skip(i as int) =~= Seq::<char>::empty());
                assert(a@.skip(i as int).len() > 0);
            }
            return false;
        }
        proof {
            assert(a@.skip(i as int)[0] == a@[i as int]);
            assert(b@.skip(i as int)[0] == b@[i as int]);
        }
        let ca = a[i] as u32;
        let cb = b[i] as u32;
        if ca < cb {
            return true;
        }
        if ca > cb {
            return false;
        }
        proof {
            assert(a@.skip(i as int).drop_first() =~= a@.skip(i + 1));
            assert(b@.skip(i as int).drop_first() =~= b@.skip(i + 1));
        }
        i = i + 1;
    }
}

// ---------------------------------------------------------------------------
// Activity aggregates
// ---------------------------------------------------------------------------

/// Equality with a fixed key.
pub open spec fn key_eq(v: i64) -> spec_fn(i64) -> bool {
    |k: i64| k == v
}

/// Some group carries this key.
pub open spec fn covered_key(groups: Seq<(i64, i64)>, v: i64) -> bool {
    exists|g: int| 0 <= g < groups.len() && (#[trigger] groups[g]).0 == v
}

/// The hour of day (UTC) a row was captured in.
pub open spec fn hour_of(x: ScreenshotV) -> i64 {
    ((x.timestamp % 86400) / 3600) as i64
}

/// The day number (UTC) a row was captured on.
pub open spec fn day_of(x: ScreenshotV) -> i64 {
    (x.timestamp / 86400) as i64
}

/// Rows captured in a given hour of day.
pub open spec fn hour_pred(h: i64) -> spec_fn(ScreenshotV) -> bool {
    |x: ScreenshotV| hour_of(x) == h
}

/// Some reported hour entry carries this hour.
pub open spec fn hour_covered(out: Seq<crate::schema::HourlyActivity>, h: i64) -> bool {
    exists|g: int| 0 <= g < out.len() && (#[trigger] out[g]).hour as i64 == h
}

/// Rows captured on a given day.
pub open spec fn day_pred(d: i64) -> spec_fn(ScreenshotV) -> bool {
    |x: ScreenshotV| day_of(x) == d
}

/// Counting a key among mapped values is counting its preimages.
pub proof fn lemma_filter_map_count(
    s: Seq<ScreenshotV>,
    f: spec_fn(ScreenshotV) -> i64,
    v: i64,
    p: spec_fn(ScreenshotV) -> bool,
)
    requires
        forall|i: int| 0 <= i < s.len() ==> (p(#[trigger] s[i]) <==> f(s[i]) == v),
    ensures
        s.map_values(f).filter(key_eq(v)).len() == s.filter(p).len(),
    decreases s.len(),
{
    reveal(Seq::filter);
    if s.len() > 0 {
        lemma_filter_map_count(s.drop_last(), f, v, p);
        assert(s.map_values(f).drop_last() =~= s.drop_last().map_values(f));
        assert(s.map_values(f).last() == f(s.last()));
        assert(p(s.last()) <==> f(s.last()) == v);
    }
}

/// A key absent from a sequence has a zero count there.
proof fn lemma_filter_none_int(s: Seq<i64>, key: i64)
    requires
        forall|j: int| 0 <= j < s.len() ==> s[j] != key,
    ensures
        s.filter(key_eq(key)).len() == 0,
    decreases s.len(),
{
    reveal(Seq::filter);
    if s.len() > 0 {
        lemma_filter_none_int(s.drop_last(), key);
    }
}

/// Filtering a one-element integer sequence keeps or drops the element.
proof fn lemma_filter_singleton_int(x: i64, p: spec_fn(i64) -> bool)
    ensures
        seq![x].filter(p) == if p(x) {
            seq![x]
        } else {
            Seq::<i64>::empty()
        },
{
    reveal(Seq::filter);
    let s = seq![x];
    assert(s.drop_last() =~= Seq::<i64>::empty());
    assert(Seq::<i64>::empty().filter(p) =~= Seq::<i64>::empty());
    if p(x) {
        assert(s.filter(p) =~= seq![x]);
    } else {
        assert(s.filter(p) =~= Seq::<i64>::empty());
    }
}

/// Occurrences of each distinct value of `keys`, in first-appearance order:
/// the reported keys are distinct, each count is exact, and every key of
/// the input is reported.
fn count_by_key(keys: &Vec<i64>) -> (r: Vec<(i64, i64)>)
    requires
        keys@.len() <= 0x7fff_ffff_ffff_ffff,
    ensures
        r@.len() <= keys@.len(),
        forall|g: int, h: int| 0 <= g < h < r@.len() ==> (#[trigger] r@[g]).0 != (#[trigger] r@[h]).0,
        forall|g: int|
            0 <= g < r@.len() ==> (#[trigger] r@[g]).1 == keys@.filter(key_eq(r@[g].0)).len(),
        forall|g: int| 0 <= g < r@.len() ==> (#[trigger] r@[g]).1 >= 1,
        forall|i: int| 0 <= i < keys@.len() ==> covered_key(r@, #[trigger] keys@[i]),
{
    let n = keys.len();
    let mut groups: Vec<(i64, i64)> = Vec::new();
    let mut i: usize = 0;
    proof {
        reveal(Seq::filter);
        assert(keys@.subrange(0, 0) =~= Seq::<i64>::empty());
    }
    while i < n
        invariant
            n == keys@.len(),
            n <= 0x7fff_ffff_ffff_ffff,
            i <= n,
            groups@.len() <= i,
            forall|g: int, h: int|
                0 <= g < h < groups@.len() ==> (#[trigger] groups@[g]).0 != (
                #[trigger] groups@[h]).0,
            forall|g: int|
                0 <= g < groups@.len() ==> (#[trigger] groups@[g]).1 == keys@.subrange(
                    0,
                    i as int,
                ).filter(key_eq(groups@[g].0)).len(),
            forall|g: int| 0 <= g < groups@.len() ==> (#[trigger] groups@[g]).1 >= 1,
            forall|j: int| 0 <= j < i ==> covered_key(groups@, #[trigger] keys@[j]),
        decreases n - i,
    {
        let key = keys[i];
        let mut found: bool = false;
        let mut g: usize = 0;
        while g < groups.len() && !found
            invariant
                g <= groups@.len(),
                !found ==> forall|p: int| 0 <= p < g ==> (#[trigger] groups@[p]).0 != key,
                found ==> g < groups@.len() && groups@[g as int].0 == key,
            decreases groups@.len() - g + (if found {
                0int
            } else {
                1int
            }),
        {
            if groups[g].0 == key {
                found = true;
            } else {
                g = g + 1;
            }
        }
        let ghost prevg = groups@;
        let ghost prefix = keys@.subrange(0, i as int);
        if found {
            let count = groups[g].1;
            proof {
                Seq::lemma_filter_len(prefix, key_eq(key));
                assert(count < i64::MAX);
            }
            groups[g] = (key, count + 1);
        } else {
            groups.push((key, 1));
        }
        i = i + 1;
        proof {
            assert(keys@.subrange(0, i as int) =~= prefix + seq![key]);
            assert forall|w: int| 0 <= w < groups@.len() implies (#[trigger] groups@[w]).1
                == keys@.subrange(0, i as int).filter(key_eq(groups@[w].0)).len() by {
                let pred = key_eq(groups@[w].0);
                Seq::filter_distributes_over_add(prefix, seq![key], pred);
                lemma_filter_singleton_int(key, pred);
                if found {
                    if w == g {
                        assert(prevg[w].1 == prefix.filter(pred).len());
                        Seq::lemma_filter_len(prefix, pred);
                    } else {
                        assert(groups@[w] == prevg[w]);
                        assert(groups@[w].0 != key);
                    }
                } else {
                    if w < prevg.len() {
                        assert(groups@[w] == prevg[w]);
                        assert(groups@[w].0 != key) by {
                            assert(prevg[w].0 != key);
                        }
                    } else {
                        assert(groups@[w] == (key, 1i64));
                        assert(prefix.filter(pred).len() == 0) by {
                            assert forall|j: int| 0 <= j < prefix.len() implies prefix[j]
                                != key by {
                                assert(prefix[j] == keys@[j]);
                                let gg = choose|gg: int|
                                    0 <= gg < prevg.len() && (#[trigger] prevg[gg]).0 == keys@[j];
                                assert(prevg[gg].0 != key);
                            }
                            lemma_filter_none_int(prefix, key);
                        }
                    }
                }
            }
            assert forall|j: int| 0 <= j < i implies covered_key(
                groups@,
                #[trigger] keys@[j],
            ) by {
                if j < i - 1 {
                    assert(covered_key(prevg, keys@[j]));
                    let gg = choose|gg: int|
                        0 <= gg < prevg.len() && (#[trigger] prevg[gg]).0 == keys@[j];
                    assert(groups@[gg].0 == keys@[j]);
                } else {
                    if found {
                        assert(groups@[g as int].0 == key);
                    } else {
                        assert(groups@[groups@.len() - 1].0 == key);
                    }
                }
            }
        }
    }
    proof {
        assert(keys@.subrange(0, n as int) =~= keys@);
    }
    groups
}

impl Database {
    /// The capture timestamps in the window, keyed by hour of day or day
    /// number, in table order.
    fn window_keys(&self, since: i64, until: Option<i64>, use_hour: bool) -> (r: Vec<i64>)
        requires
            self.wf(),
        ensures
            r@ == self.rows().filter(|x: ScreenshotV| in_window(x, since, until)).map_values(
                if use_hour {
                    |x: ScreenshotV| hour_of(x)
                } else {
                    |x: ScreenshotV| day_of(x)
                },
            ),
    {
        let ghost pr = |x: ScreenshotV| in_window(x, since, until);
        let ghost keyf = if use_hour {
            |x: ScreenshotV| hour_of(x)
        } else {
            |x: ScreenshotV| day_of(x)
        };
        let n = self.screenshots.len();
        let mut out: Vec<i64> = Vec::new();
        let mut i: usize = 0;
        proof {
            reveal(Seq::filter);
            assert(self.rows().subrange(0, 0) =~= Seq::<ScreenshotV>::empty());
            assert(out@ =~= self.rows().subrange(0, 0).filter(pr).map_values(keyf));
        }
        while i < n
            invariant
                self.wf(),
                n == self.rows().len(),
                i <= n,
                pr == (|x: ScreenshotV| in_window(x, since, until)),
                keyf == if use_hour {
                    |x: ScreenshotV| hour_of(x)
                } else {
                    |x: ScreenshotV| day_of(x)
                },
                out@ == self.rows().subrange(0, i as int).filter(pr).map_values(keyf),
            decreases n - i,
        {
            let ghost rv = self.rows()[i as int];
            proof {
                assert(rv == self.screenshots@[i as int]@);
            }
            let row = &self.screenshots[i];
            let in_win = row.timestamp >= since && (match until {
                Some(u) => row.timestamp < u,
                None => true,
            });
            if in_win {
                let key = if use_hour {
                    (row.timestamp % 86400) / 3600
                } else {
                    row.timestamp / 86400
                };
                out.push(key);
                proof {
                    assert(pr(rv));
                    assert(key == keyf(rv));
                }
            } else {
                proof {
                    assert(!pr(rv));
                }
            }
            i = i + 1;
            proof {
                assert(self.rows().subrange(0, i as int) =~= self.rows().subrange(0, i - 1)
                    + seq![rv]);
                Seq::filter_distributes_over_add(self.rows().subrange(0, i - 1), seq![rv], pr);
                lemma_filter_singleton(rv, pr);
                assert(out@ =~= self.rows().subrange(0, i as int).filter(pr).map_values(keyf));
            }
        }
        proof {
            assert(self.rows().subrange(0, n as int) =~= self.rows());
        }
        out
    }

    /// Per-hour capture counts (UTC) in `[since, until)`, ascending by
    /// hour: one entry per hour that saw captures, with the exact count.
    #[verifier::rlimit(60)]
    pub fn get_hourly_activity(&self, since: i64, until: Option<i64>) -> (r: Result<
        Vec<crate::schema::HourlyActivity>,
        CoreError,
    >)
        requires
            self.wf(),
        ensures
            r is Ok,
            ({
                let out = r.unwrap()@;
                let windowed = self.rows().filter(|x: ScreenshotV| in_window(x, since, until));
                &&& (forall|g: int, h: int|
                    0 <= g < h < out.len() ==> (#[trigger] out[g]).hour < (#[trigger] out[h]).hour)
                &&& (forall|g: int|
                    0 <= g < out.len() ==> 0 <= (#[trigger] out[g]).hour < 24 && out[
                        g
                    ].screenshot_count as int == windowed.filter(
                        hour_pred(out[g].hour as i64),
                    ).len())
                &&& (forall|i: int|
                    0 <= i < windowed.len() ==> hour_covered(out, hour_of(#[trigger] windowed[i])))
            }),
    {
        proof {
            lemma_rows_len_bound(self.rows(), i64::MAX as int);
            Seq::lemma_filter_len(self.rows(), |x: ScreenshotV| in_window(x, since, until));
        }
        let keys = self.window_keys(since, until, true);
        let groups = count_by_key(&keys);
        let ghost windowed = self.rows().filter(|x: ScreenshotV| in_window(x, since, until));
        let mut out: Vec<crate::schema::HourlyActivity> = Vec::new();
        let mut h: i64 = 0;
        while h < 24
            invariant
                self.wf(),
                0 <= h <= 24,
                windowed == self.rows().filter(|x: ScreenshotV| in_window(x, since, until)),
                keys@ == windowed.map_values(|x: ScreenshotV| hour_of(x)),
                groups@.len() <= keys@.len(),
                forall|g: int, q: int|
                    0 <= g < q < groups@.len() ==> (#[trigger] groups@[g]).0 != (
                    #[trigger] groups@[q]).0,
                forall|g: int|
                    0 <= g < groups@.len() ==> (#[trigger] groups@[g]).1 == keys@.filter(
                        key_eq(groups@[g].0),
                    ).len(),
                forall|i: int| 0 <= i < keys@.len() ==> covered_key(groups@, #[trigger] keys@[i]),
                forall|g: int, q: int|
                    0 <= g < q < out@.len() ==> (#[trigger] out@[g]).hour < (#[trigger] out@[q]).hour,
                forall|g: int|
                    0 <= g < out@.len() ==> 0 <= (#[trigger] out@[g]).hour < h && out@[
                        g
                    ].screenshot_count as int == windowed.filter(
                        hour_pred(out@[g].hour as i64),
                    ).len(),
                forall|i: int|
                    0 <= i < windowed.len() && hour_of(#[trigger] windowed[i]) < h
                        ==> hour_covered(out@, hour_of(windowed[i])),
            decreases 24 - h,
    {
            // look this hour up among the groups
            let mut count: i64 = 0;
            let mut g: usize = 0;
            while g < groups.len()
                invariant
                    g <= groups@.len(),
                    keys@ == windowed.map_values(|x: ScreenshotV| hour_of(x)),
                    forall|p: int|
                        0 <= p < groups@.len() ==> (#[trigger] groups@[p]).1 == keys@.filter(
                            key_eq(groups@[p].0),
                        ).len(),
                    count == 0 ==> (forall|p: int| 0 <= p < g ==> (#[trigger] groups@[p]).0 != h)
                        || keys@.filter(key_eq(h)).len() == 0,
                    count != 0 ==> count as int == keys@.filter(key_eq(h)).len(),
                decreases groups@.len() - g,
            {
                if groups[g].0 == h {
                    count = groups[g].1;
                    proof {
                        if count == 0 {
                            assert(keys@.filter(key_eq(h)).len() == 0);
                        }
                    }
                }
                g = g + 1;
            }
            proof {
                lemma_filter_map_count(windowed, |x: ScreenshotV| hour_of(x), h, hour_pred(h));
                if count == 0 {
                    // no group carries this hour, so its count is zero
                    if keys@.filter(key_eq(h)).len() > 0 {
                        assert(forall|p: int|
                            0 <= p < groups@.len() ==> (#[trigger] groups@[p]).0 != h);
                        lemma_filter_in_original(keys@, key_eq(h));
                        keys@.filter_lemma(key_eq(h));
                        assert(keys@.contains(keys@.filter(key_eq(h))[0]));
                        let w = choose|w: int|
                            0 <= w < keys@.len() && keys@[w] == keys@.filter(key_eq(h))[0];
                        assert(keys@.filter(key_eq(h))[0] == h);
                        assert(covered_key(groups@, keys@[w]));
                        let gg = choose|gg: int|
                            0 <= gg < groups@.len() && (#[trigger] groups@[gg]).0 == keys@[w];
                        assert(groups@[gg].1 == keys@.filter(key_eq(h)).len());
                        assert(false);
                    }
                    assert(windowed.filter(hour_pred(h)).len() == 0);
                }
            }
            if count > 0 {
                let ghost prev = out@;
                out.push(
                    crate::schema::HourlyActivity { hour: h as i32, screenshot_count: count },
                );
                proof {
                    assert(out@ =~= prev.push(
                        crate::schema::HourlyActivity { hour: h as i32, screenshot_count: count },
                    ));
                    assert((h as i32) as i64 == h);
                    assert forall|i: int|
                        0 <= i < windowed.len() && hour_of(#[trigger] windowed[i]) < h + 1 implies
                        hour_covered(out@, hour_of(windowed[i])) by {
                        if hour_of(windowed[i]) < h {
                            assert(hour_covered(prev, hour_of(windowed[i])));
                            let gg = choose|gg: int|
                                0 <= gg < prev.len() && (#[trigger] prev[gg]).hour as i64
                                    == hour_of(windowed[i]);
                            assert(out@[gg].hour as i64 == hour_of(windowed[i]));
                        } else {
                            assert(out@[out@.len() - 1].hour as i64 == h);
                        }
                    }
                }
            } else {
                proof {
                    assert forall|i: int|
                        0 <= i < windowed.len() && hour_of(#[trigger] windowed[i]) < h + 1 implies
                        hour_covered(out@, hour_of(windowed[i])) by {
                        if hour_of(windowed[i]) == h {
                            windowed.filter_lemma(hour_pred(h));
                            assert(hour_pred(h)(windowed[i]));
                            assert(windowed.filter(hour_pred(h)).contains(windowed[i]));
                            vstd::seq_lib::to_multiset_contains::<ScreenshotV>(
                                windowed.filter(hour_pred(h)),
                                windowed[i],
                            );
                            vstd::seq_lib::to_multiset_len::<ScreenshotV>(
                                windowed.filter(hour_pred(h)),
                            );
                            assert(false);
                        } else {
                            assert(hour_covered(out@, hour_of(windowed[i])));
                        }
                    }
                }
            }
            h = h + 1;
        }
        proof {
            lemma_filter_each(
                self.rows(),
                |x: ScreenshotV| in_window(x, since, until),
                |x: ScreenshotV| valid_new_row(x),
            );
            assert forall|i: int| 0 <= i < windowed.len() implies hour_covered(
                out@,
                hour_of(#[trigger] windowed[i]),
            ) by {
                assert(valid_new_row(windowed[i]));
                assert(0 <= windowed[i].timestamp);
                assert(hour_of(windowed[i]) < 24);
            }
        }
        Ok(out)
    }
}


/// Sort day groups ascending by day; the key-count pairs are preserved.
fn sort_day_groups(groups: Vec<(i64, i64)>) -> (r: Vec<(i64, i64)>)
    requires
        forall|p: int|
            0 <= p < groups@.len() ==> (#[trigger] groups@[p]).1 >= 1,
    ensures
        r@.to_multiset() == groups@.to_multiset(),
        r@.len() == groups@.len(),
        forall|p: int, q: int| 0 <= p < q < r@.len() ==> (#[trigger] r@[p]).0 <= (#[trigger] r@[q]).0,
        forall|p: int| 0 <= p < r@.len() ==> (#[trigger] r@[p]).1 >= 1,
{
    broadcast use vstd::seq_lib::group_to_multiset_ensures;
    broadcast use vstd::multiset::group_multiset_axioms;

    let ghost full = groups@;
    let mut rest = groups;
    let mut out: Vec<(i64, i64)> = Vec::new();
    proof {
        assert(out@.to_multiset() =~= Multiset::<(i64, i64)>::empty());
        vstd::seq_lib::lemma_multiset_commutative(out@, rest@);
        assert(out@ + rest@ =~= rest@);
    }
    while rest.len() > 0
        invariant
            out@.to_multiset().add(rest@.to_multiset()) == full.to_multiset(),
            forall|p: int, q: int|
                0 <= p < q < out@.len() ==> (#[trigger] out@[p]).0 <= (#[trigger] out@[q]).0,
            forall|p: int| 0 <= p < out@.len() ==> (#[trigger] out@[p]).1 >= 1,
            forall|p: int| 0 <= p < rest@.len() ==> (#[trigger] rest@[p]).1 >= 1,
            out@.len() + rest@.len() == full.len(),
        decreases rest@.len(),
    {
        let ghost prev_rest = rest@;
        let h = rest.remove(0);
        proof {
            assert(rest@ =~= prev_rest.remove(0));
            vstd::seq_lib::to_multiset_remove::<(i64, i64)>(prev_rest, 0);
            assert(h == prev_rest[0]);
        }
        let mut pos: usize = 0;
        while pos < out.len() && out[pos].0 <= h.0
            invariant
                pos <= out@.len(),
                forall|k: int| 0 <= k < pos ==> (#[trigger] out@[k]).0 <= h.0,
            decreases out@.len() - pos,
        {
            pos = pos + 1;
        }
        let ghost prev_out = out@;
        out.insert(pos, h);
        proof {
            assert(out@ =~= prev_out.insert(pos as int, prev_rest[0]));
            lemma_insert_to_multiset(prev_out, pos as int, prev_rest[0]);
            assert(prev_rest.contains(prev_rest[0])) by {
                assert(prev_rest[0] == prev_rest[0]);
            }
            vstd::seq_lib::to_multiset_contains::<(i64, i64)>(prev_rest, prev_rest[0]);
            assert forall|p: int, q: int|
                0 <= p < q < out@.len() implies (#[trigger] out@[p]).0 <= (#[trigger] out@[q]).0 by {
                if q < pos {
                } else if p < pos && q == pos {
                } else if p < pos && q > pos {
                    assert(out@[q] == prev_out[q - 1]);
                } else if p == pos && q > pos {
                    assert(out@[q] == prev_out[q - 1]);
                    if pos < prev_out.len() {
                        assert(prev_out[pos as int].0 <= prev_out[q - 1].0 || pos == q - 1);
                    }
                } else {
                    assert(out@[p] == prev_out[p - 1] && out@[q] == prev_out[q - 1]);
                }
            }
        }
    }
    proof {
        assert(rest@.to_multiset() =~= Multiset::<(i64, i64)>::empty());
        assert(out@.to_multiset() =~= full.to_multiset());
    }
    out
}

/// A day entry reports some day's date with that day's exact count.
pub open spec fn day_entry_ok(e: crate::schema::DailyActivity, windowed: Seq<ScreenshotV>) -> bool {
    exists|d: i64|
        e.date@ == time::utc_date_of(((d as int) * 86400) as i64) && e.screenshot_count as int
            == windowed.filter(#[trigger] day_pred(d)).len()
}

/// Some reported day entry carries this day's date.
pub open spec fn day_covered(out: Seq<crate::schema::DailyActivity>, d: i64) -> bool {
    exists|g: int|
        0 <= g < out.len() && (#[trigger] out[g]).date@ == time::utc_date_of(
            ((d as int) * 86400) as i64,
        )
}

impl Database {
    /// Per-day capture counts (UTC) in `[since, until)`, ascending by day:
    /// one entry per day that saw captures, dated `YYYY-MM-DD`, with the
    /// exact count and the number of distinct apps seen that day.
    #[verifier::rlimit(60)]
    pub fn get_daily_activity(&self, since: i64, until: Option<i64>) -> (r: Result<
        Vec<crate::schema::DailyActivity>,
        CoreError,
    >)
        requires
            self.wf(),
        ensures
            r is Ok,
            ({
                let out = r.unwrap()@;
                let windowed = self.rows().filter(|x: ScreenshotV| in_window(x, since, until));
                &&& (forall|g: int|
                    0 <= g < out.len() ==> day_entry_ok(#[trigger] out[g], windowed))
                &&& (forall|i: int|
                    0 <= i < windowed.len() ==> day_covered(out, day_of(#[trigger] windowed[i])))
            }),
    {
        proof {
            lemma_rows_len_bound(self.rows(), i64::MAX as int);
            Seq::lemma_filter_len(self.rows(), |x: ScreenshotV| in_window(x, since, until));
        }
        let keys = self.window_keys(since, until, false);
        let groups = count_by_key(&keys);
        let ghost groupsv = groups@;
        let ghost windowed = self.rows().filter(|x: ScreenshotV| in_window(x, since, until));
        // order the day groups ascending
        let ordered = sort_day_groups(groups);
        proof {
            broadcast use vstd::seq_lib::group_to_multiset_ensures;

            lemma_filter_each(
                self.rows(),
                |x: ScreenshotV| in_window(x, since, until),
                |x: ScreenshotV| valid_new_row(x),
            );
            // the per-group facts survive the reordering
            assert forall|p: int|
                0 <= p < ordered@.len() implies (#[trigger] ordered@[p]).1 == keys@.filter(
                key_eq(ordered@[p].0),
            ).len() && ordered@[p].1 >= 1 by {
                assert(ordered@.contains(ordered@[p])) by {
                    assert(ordered@[p] == ordered@[p]);
                }
                vstd::seq_lib::to_multiset_contains::<(i64, i64)>(ordered@, ordered@[p]);
                vstd::seq_lib::to_multiset_contains::<(i64, i64)>(groupsv, ordered@[p]);
                let q = choose|q: int| 0 <= q < groupsv.len() && groupsv[q] == ordered@[p];
            }
            assert forall|i: int| 0 <= i < keys@.len() implies covered_key(
                ordered@,
                #[trigger] keys@[i],
            ) by {
                assert(covered_key(groupsv, keys@[i]));
                let g0 = choose|g0: int|
                    0 <= g0 < groupsv.len() && (#[trigger] groupsv[g0]).0 == keys@[i];
                assert(groupsv.contains(groupsv[g0])) by {
                    assert(groupsv[g0] == groupsv[g0]);
                }
                vstd::seq_lib::to_multiset_contains::<(i64, i64)>(groupsv, groupsv[g0]);
                vstd::seq_lib::to_multiset_contains::<(i64, i64)>(ordered@, groupsv[g0]);
                let q = choose|q: int| 0 <= q < ordered@.len() && ordered@[q] == groupsv[g0];
                assert(ordered@[q].0 == keys@[i]);
            }
        }
        let mut out: Vec<crate::schema::DailyActivity> = Vec::new();
        let mut g: usize = 0;
        while g < ordered.len()
            invariant
                self.wf(),
                windowed == self.rows().filter(|x: ScreenshotV| in_window(x, since, until)),
                keys@ == windowed.map_values(|x: ScreenshotV| day_of(x)),
                g <= ordered@.len(),
                forall|p: int|
                    0 <= p < ordered@.len() ==> (#[trigger] ordered@[p]).1 == keys@.filter(
                        key_eq(ordered@[p].0),
                    ).len(),
                forall|p: int| 0 <= p < ordered@.len() ==> (#[trigger] ordered@[p]).1 >= 1,
                forall|i: int|
                    0 <= i < keys@.len() ==> covered_key(ordered@, #[trigger] keys@[i]),
                forall|i: int|
                    0 <= i < windowed.len() ==> valid_new_row(#[trigger] windowed[i]),
                out@.len() == g,
                forall|p: int| 0 <= p < g ==> day_entry_ok(#[trigger] out@[p], windowed),
                forall|p: int|
                    0 <= p < g ==> (#[trigger] out@[p]).date@ == time::utc_date_of(
                        (((ordered@[p].0) as int) * 86400) as i64,
                    ),
            decreases ordered@.len() - g,
        {
            let day = ordered[g].0;
            let count = ordered[g].1;
            // the day stems from a stored timestamp, so it is in range
            let mut unique_apps: i64 = 0;
            let mut seen: Vec<String> = Vec::new();
            let n = self.screenshots.len();
            let mut i: usize = 0;
            // count the distinct apps seen that day (best effort; the count
            // itself is not part of the contract)
            while i < n
                invariant
                    self.wf(),
                    n == self.rows().len(),
                    i <= n,
                    0 <= unique_apps,
                    unique_apps <= seen@.len(),
                    seen@.len() <= i,
                decreases n - i,
            {
                let row = &self.screenshots[i];
                let in_win = row.timestamp >= since && (match until {
                    Some(u) => row.timestamp < u,
                    None => true,
                });
                if in_win && row.timestamp / 86400 == day {
                    match &row.app_name {
                        Some(app) => {
                            let mut dup: bool = false;
                            let mut j: usize = 0;
                            while j < seen.len()
                                invariant
                                    j <= seen@.len(),
                                decreases seen@.len() - j,
                            {
                                if text::str_eq(seen[j].as_str(), app.as_str()) {
                                    dup = true;
                                }
                                j = j + 1;
                            }
                            if !dup {
                                seen.push(app.clone());
                                if unique_apps < i64::MAX {
                                    unique_apps = unique_apps + 1;
                                }
                            }
                        },
                        None => {},
                    }
                }
                i = i + 1;
            }
            // render the date; day values of stored rows are in range
            if day < 0 || day > time::MAX_TIMESTAMP / 86400 {
                // no stored row can produce this day; skip defensively
                proof {
                    lemma_day_in_range(windowed, keys@, ordered@, g as int);
                    assert(false);
                }
            } else {
                let date = time::format_utc_date(day * 86400);
                let ghost prev = out@;
                out.push(
                    crate::schema::DailyActivity {
                        date,
                        screenshot_count: count,
                        unique_apps,
                    },
                );
                proof {
                    lemma_filter_map_count(
                        windowed,
                        |x: ScreenshotV| day_of(x),
                        day,
                        day_pred(day),
                    );
                    assert(out@[g as int].screenshot_count as int == windowed.filter(
                        day_pred(day),
                    ).len());
                    assert forall|p: int| 0 <= p < g + 1 implies day_entry_ok(
                        #[trigger] out@[p],
                        windowed,
                    ) by {
                        if p < g {
                            assert(out@[p] == prev[p]);
                            assert(day_entry_ok(prev[p], windowed));
                        } else {
                            assert(out@[g as int].date@ == time::utc_date_of(
                                ((day as int) * 86400) as i64,
                            ));
                            assert(out@[g as int].screenshot_count as int == windowed.filter(
                                day_pred(day),
                            ).len());
                        }
                    }
                }
            }
            g = g + 1;
        }
        proof {
            assert forall|i: int| 0 <= i < windowed.len() implies day_covered(
                out@,
                day_of(#[trigger] windowed[i]),
            ) by {
                assert(keys@[i] == day_of(windowed[i]));
                assert(covered_key(ordered@, keys@[i]));
                let p = choose|p: int|
                    0 <= p < ordered@.len() && (#[trigger] ordered@[p]).0 == keys@[i];
                assert(out@[p].date@ == time::utc_date_of(
                    (((ordered@[p].0) as int) * 86400) as i64,
                ));
            }
        }
        Ok(out)
    }
}

/// A day key reported by the grouping stems from some stored row, whose
/// timestamp is within the calendar range.
proof fn lemma_day_in_range(
    windowed: Seq<ScreenshotV>,
    keys: Seq<i64>,
    ordered: Seq<(i64, i64)>,
    g: int,
)
    requires
        keys == windowed.map_values(|x: ScreenshotV| day_of(x)),
        forall|i: int| 0 <= i < windowed.len() ==> valid_new_row(#[trigger] windowed[i]),
        0 <= g < ordered.len(),
        ordered[g].1 == keys.filter(key_eq(ordered[g].0)).len(),
        ordered[g].1 >= 1,
    ensures
        0 <= ordered[g].0 <= time::MAX_TIMESTAMP / 86400,
{
    let day = ordered[g].0;
    lemma_filter_in_original(keys, key_eq(day));
    keys.filter_lemma(key_eq(day));
    assert(keys.contains(keys.filter(key_eq(day))[0]));
    assert(keys.filter(key_eq(day))[0] == day);
    let w = choose|w: int| 0 <= w < keys.len() && keys[w] == day;
    assert(keys[w] == day_of(windowed[w]));
    assert(valid_new_row(windowed[w]));
}

// ---------------------------------------------------------------------------
// App usage
// ---------------------------------------------------------------------------

/// A row lies in the window and names an app.
pub open spec fn usage_pred(since: i64, until: Option<i64>) -> spec_fn(ScreenshotV) -> bool {
    |x: ScreenshotV| in_window(x, since, until) && x.app_name is Some
}

/// Some usage entry carries this app name.
pub open spec fn usage_covered(out: Seq<crate::schema::AppUsageStat>, name: Seq<char>) -> bool {
    exists|g: int| 0 <= g < out.len() && (#[trigger] out[g]).app_name@ == name
}

/// A row lies in the window and names this app.
pub open spec fn usage_app_pred(since: i64, until: Option<i64>, name: Seq<char>) -> spec_fn(
    ScreenshotV,
) -> bool {
    |x: ScreenshotV| in_window(x, since, until) && x.app_name == Some(name)
}

/// A filter by a stronger predicate keeps no more elements.
proof fn lemma_filter_imp_len<A>(s: Seq<A>, p: spec_fn(A) -> bool, q: spec_fn(A) -> bool)
    requires
        forall|i: int| 0 <= i < s.len() && p(#[trigger] s[i]) ==> q(s[i]),
    ensures
        s.filter(p).len() <= s.filter(q).len(),
    decreases s.len(),
{
    reveal(Seq::filter);
    if s.len() > 0 {
        lemma_filter_imp_len(s.drop_last(), p, q);
    }
}

/// Sort usage stats by their capture counts, largest first; the stats
/// themselves are preserved (same multiset).
fn sort_stats(stats: Vec<crate::schema::AppUsageStat>) -> (r: Vec<crate::schema::AppUsageStat>)
    ensures
        stat_views(r@).to_multiset() == stat_views(stats@).to_multiset(),
        r@.len() == stats@.len(),
        forall|p: int, q: int|
            0 <= p < q < r@.len() ==> (#[trigger] stat_views(r@)[p]).1 >= (
            #[trigger] stat_views(r@)[q]).1,
{
    broadcast use vstd::seq_lib::group_to_multiset_ensures;
    broadcast use vstd::multiset::group_multiset_axioms;

    let ghost original = stat_views(stats@);
    let mut rest = stats;
    let mut out: Vec<crate::schema::AppUsageStat> = Vec::new();
    proof {
        assert(stat_views(out@).to_multiset() =~= Multiset::<(Seq<char>, i64, i64)>::empty());
        vstd::seq_lib::lemma_multiset_commutative(stat_views(out@), stat_views(rest@));
        assert(stat_views(out@) + stat_views(rest@) =~= stat_views(rest@));
    }
    while rest.len() > 0
        invariant
            stat_views(out@).to_multiset().add(stat_views(rest@).to_multiset())
                == original.to_multiset(),
            out@.len() + rest@.len() == original.len(),
            forall|p: int, q: int|
                0 <= p < q < out@.len() ==> (#[trigger] stat_views(out@)[p]).1 >= (
                #[trigger] stat_views(out@)[q]).1,
        decreases rest@.len(),
    {
        let ghost prev_rest = stat_views(rest@);
        let h = rest.remove(0);
        proof {
            assert(stat_views(rest@) =~= prev_rest.remove(0));
            vstd::seq_lib::to_multiset_remove::<(Seq<char>, i64, i64)>(prev_rest, 0);
            assert(stat_view(h) == prev_rest[0]);
        }
        let mut pos: usize = 0;
        while pos < out.len() && out[pos].screenshot_count >= h.screenshot_count
            invariant
                pos <= out@.len(),
                forall|k: int|
                    0 <= k < pos ==> (#[trigger] stat_views(out@)[k]).1 >= h.screenshot_count,
            decreases out@.len() - pos,
        {
            proof {
                assert(stat_views(out@)[pos as int] == stat_view(out@[pos as int]));
            }
            pos = pos + 1;
        }
        proof {
            if pos < out@.len() {
                assert(stat_views(out@)[pos as int] == stat_view(out@[pos as int]));
            }
        }
        let ghost prev_out = stat_views(out@);
        out.insert(pos, h);
        proof {
            assert(stat_views(out@) =~= prev_out.insert(pos as int, prev_rest[0]));
            lemma_insert_to_multiset(prev_out, pos as int, prev_rest[0]);
            assert(prev_rest.contains(prev_rest[0])) by {
                assert(prev_rest[0] == prev_rest[0]);
            }
            vstd::seq_lib::to_multiset_contains::<(Seq<char>, i64, i64)>(prev_rest, prev_rest[0]);
            let cur = stat_views(out@);
            assert forall|p: int, q: int| 0 <= p < q < cur.len() implies (#[trigger] cur[p]).1 >= (
            #[trigger] cur[q]).1 by {
                if q < pos {
                    assert(cur[p] == prev_out[p] && cur[q] == prev_out[q]);
                } else if p < pos && q == pos {
                    assert(cur[p] == prev_out[p]);
                } else if p < pos && q > pos {
                    assert(cur[p] == prev_out[p] && cur[q] == prev_out[q - 1]);
                } else if p == pos && q > pos {
                    assert(cur[q] == prev_out[q - 1]);
                    if q - 1 > pos {
                        assert(prev_out[pos as int].1 >= prev_out[q - 1].1);
                    }
                } else {
                    assert(cur[p] == prev_out[p - 1] && cur[q] == prev_out[q - 1]);
                }
            }
        }
    }
    proof {
        assert(stat_views(rest@).to_multiset() =~= Multiset::<(Seq<char>, i64, i64)>::empty());
        assert(stat_views(out@).to_multiset() =~= original.to_multiset());
    }
    out
}

/// The mathematical value of a usage stat: name, count, percentage.
pub open spec fn stat_view(s: crate::schema::AppUsageStat) -> (Seq<char>, i64, i64) {
    (s.app_name@, s.screenshot_count, s.percentage_hundredths)
}

/// Views of a sequence of usage stats.
pub open spec fn stat_views(s: Seq<crate::schema::AppUsageStat>) -> Seq<(Seq<char>, i64, i64)> {
    s.map(|i: int, x: crate::schema::AppUsageStat| stat_view(x))
}

impl Database {
    /// Per-app share of the captures in `[since, until)` (open-ended when
    /// `until` is absent): one entry per distinct app name among the
    /// windowed rows, carrying its capture count and its share of the
    /// windowed total in hundredths of a percent (truncated), ordered by
    /// descending count. Rows without an app name are not counted.
    #[verifier::rlimit(100)]
    #[verifier::spinoff_prover]
    pub fn get_app_usage_stats(&self, since: i64, until: Option<i64>) -> (r: Result<
        Vec<crate::schema::AppUsageStat>,
        CoreError,
    >)
        requires
            self.wf(),
        ensures
            r is Ok,
            forall|g: int, h: int|
                0 <= g < h < r.unwrap()@.len() ==> (#[trigger] r.unwrap()@[g]).screenshot_count
                    >= (#[trigger] r.unwrap()@[h]).screenshot_count,
            forall|g: int, h: int|
                0 <= g < h < r.unwrap()@.len() ==> (#[trigger] r.unwrap()@[g]).app_name@ != (
                #[trigger] r.unwrap()@[h]).app_name@,
            forall|g: int|
                0 <= g < r.unwrap()@.len() ==> (#[trigger] r.unwrap()@[g]).screenshot_count as int
                    == self.rows().filter(
                    usage_app_pred(since, until, r.unwrap()@[g].app_name@),
                ).len() && r.unwrap()@[g].screenshot_count > 0,
            forall|g: int|
                0 <= g < r.unwrap()@.len() && self.rows().filter(usage_pred(since, until)).len()
                    > 0 ==> (#[trigger] r.unwrap()@[g]).percentage_hundredths as int == r.unwrap()@[
                    g
                ].screenshot_count as int * 10000 / self.rows().filter(
                    usage_pred(since, until),
                ).len() as int,
            forall|i: int|
                0 <= i < self.rows().len() && usage_pred(since, until)(#[trigger] self.rows()[i])
                    ==> usage_covered(r.unwrap()@, self.rows()[i].app_name.unwrap()),
    {
        broadcast use vstd::seq_lib::group_to_multiset_ensures;

        let ghost pred = usage_pred(since, until);
        let n = self.screenshots.len();
        proof {
            lemma_rows_len_bound(self.rows(), i64::MAX as int);
            Seq::lemma_filter_len(self.rows(), pred);
        }
        // the windowed total and the distinct app names of the window
        let mut total: i64 = 0;
        let mut names: Vec<String> = Vec::new();
        let mut i: usize = 0;
        proof {
            assert(self.rows().subrange(0, 0) =~= Seq::<ScreenshotV>::empty());
            assert(Seq::<ScreenshotV>::empty().filter(pred) =~= Seq::<ScreenshotV>::empty()) by {
                reveal(Seq::filter);
            }
        }
        while i < n
            invariant
                self.wf(),
                n == self.rows().len(),
                i <= n,
                pred == usage_pred(since, until),
                total as int == self.rows().subrange(0, i as int).filter(pred).len(),
                total <= i,
                n <= i64::MAX,
                forall|p: int, q: int|
                    0 <= p < q < crate::window_info::str_views(names@).len()
                        ==> crate::window_info::str_views(names@)[p]
                        != crate::window_info::str_views(names@)[q],
                forall|p: int|
                    0 <= p < crate::window_info::str_views(names@).len() ==> self.rows().filter(
                        usage_app_pred(since, until, #[trigger] crate::window_info::str_views(
                            names@,
                        )[p]),
                    ).len() > 0,
                forall|j: int|
                    0 <= j < i && pred(#[trigger] self.rows()[j])
                        ==> crate::window_info::str_views(names@).contains(
                        self.rows()[j].app_name.unwrap(),
                    ),
            decreases n - i,
        {
            let row = &self.screenshots[i];
            let ghost rv = self.rows()[i as int];
            proof {
                assert(rv == self.screenshots@[i as int]@);
            }
            let time_ok = row.timestamp >= since && (match until {
                Some(u) => row.timestamp < u,
                None => true,
            });
            let mut matched: bool = false;
            if time_ok {
                match &row.app_name {
                    Some(app) => {
                        matched = true;
                        total = total + 1;
                        proof {
                            assert(pred(rv));
                        }
                        let mut seen: bool = false;
                        let mut j: usize = 0;
                        while j < names.len()
                            invariant
                                j <= names@.len(),
                                seen ==> crate::window_info::str_views(names@).contains(app@),
                                !seen ==> forall|p: int|
                                    0 <= p < j ==> #[trigger] crate::window_info::str_views(
                                        names@,
                                    )[p] != app@,
                            decreases names@.len() - j,
                        {
                            proof {
                                assert(crate::window_info::str_views(names@)[j as int]
                                    == names@[j as int]@);
                            }
                            if text::str_eq(names[j].as_str(), app.as_str()) {
                                seen = true;
                                proof {
                                    assert(crate::window_info::str_views(names@)[j as int]
                                        == app@);
                                }
                                j = names.len();
                            } else {
                                j = j + 1;
                            }
                        }
                        if !seen {
                            let ghost prev = crate::window_info::str_views(names@);
                            names.push(app.clone());
                            proof {
                                assert(crate::window_info::str_views(names@) =~= prev.push(app@));
                                assert(self.rows().filter(
                                    usage_app_pred(since, until, app@),
                                ).len() > 0) by {
                                    let qn = usage_app_pred(since, until, app@);
                                    assert(qn(rv));
                                    self.rows().filter_lemma(qn);
                                    assert(self.rows().contains(rv)) by {
                                        assert(self.rows()[i as int] == rv);
                                    }
                                    assert(self.rows().filter(qn).contains(rv));
                                }
                                assert forall|p: int|
                                    0 <= p < prev.len() implies crate::window_info::str_views(
                                    names@,
                                )[p] == prev[p] by {}
                                assert forall|j2: int|
                                    0 <= j2 < i + 1 && pred(#[trigger] self.rows()[j2]) implies
                                    crate::window_info::str_views(names@).contains(
                                    self.rows()[j2].app_name.unwrap(),
                                ) by {
                                    if j2 < i {
                                        let w = choose|w: int|
                                            0 <= w < prev.len() && prev[w] == self.rows()[
                                                j2
                                            ].app_name.unwrap();
                                        assert(crate::window_info::str_views(names@)[w]
                                            == prev[w]);
                                    } else {
                                        assert(crate::window_info::str_views(names@)[prev.len() as int]
                                            == app@);
                                    }
                                }
                            }
                        } else {
                            proof {
                                assert(rv.app_name == Some(app@));
                            }
                        }
                    },
                    None => {
                        proof {
                            assert(!pred(rv));
                        }
                    },
                }
            } else {
                proof {
                    assert(!pred(rv));
                }
            }
            i = i + 1;
            proof {
                assert(self.rows().subrange(0, i as int) =~= self.rows().subrange(0, i - 1)
                    + seq![rv]);
                Seq::filter_distributes_over_add(self.rows().subrange(0, i - 1), seq![rv], pred);
                lemma_filter_singleton(rv, pred);
                if matched {
                    assert(total as int == self.rows().subrange(0, i as int).filter(pred).len());
                } else {
                    assert(total as int == self.rows().subrange(0, i as int).filter(pred).len());
                }
            }
        }
        proof {
            assert(self.rows().subrange(0, n as int) =~= self.rows());
        }
        // one stat per name
        let mut stats: Vec<crate::schema::AppUsageStat> = Vec::new();
        let mut g: usize = 0;
        while g < names.len()
            invariant
                self.wf(),
                pred == usage_pred(since, until),
                total as int == self.rows().filter(pred).len(),
                forall|p: int, q: int|
                    0 <= p < q < crate::window_info::str_views(names@).len()
                        ==> crate::window_info::str_views(names@)[p]
                        != crate::window_info::str_views(names@)[q],
                forall|p: int|
                    0 <= p < crate::window_info::str_views(names@).len() ==> self.rows().filter(
                        usage_app_pred(since, until, #[trigger] crate::window_info::str_views(
                            names@,
                        )[p]),
                    ).len() > 0,
                n == self.rows().len(),
                n <= i64::MAX,
                g <= names@.len(),
                stats@.len() == g,
                forall|p: int|
                    0 <= p < g ==> (#[trigger] stats@[p]).app_name@
                        == crate::window_info::str_views(names@)[p],
                forall|p: int|
                    0 <= p < g ==> (#[trigger] stats@[p]).screenshot_count as int
                        == self.rows().filter(
                        usage_app_pred(since, until, stats@[p].app_name@),
                    ).len() && stats@[p].screenshot_count > 0,
                forall|p: int|
                    0 <= p < g && total > 0 ==> (#[trigger] stats@[p]).percentage_hundredths as int
                        == stats@[p].screenshot_count as int * 10000 / total as int,
            decreases names@.len() - g,
        {
            let name = &names[g];
            let ghost qn = usage_app_pred(since, until, name@);
            proof {
                assert(crate::window_info::str_views(names@)[g as int] == name@);
                Seq::lemma_filter_len(self.rows(), qn);
            }
            let mut count: i64 = 0;
            let mut i2: usize = 0;
            proof {
                assert(self.rows().subrange(0, 0) =~= Seq::<ScreenshotV>::empty());
                assert(Seq::<ScreenshotV>::empty().filter(qn) =~= Seq::<ScreenshotV>::empty()) by {
                    reveal(Seq::filter);
                }
            }
            while i2 < n
                invariant
                    self.wf(),
                    n == self.rows().len(),
                    i2 <= n,
                    qn == usage_app_pred(since, until, name@),
                    count as int == self.rows().subrange(0, i2 as int).filter(qn).len(),
                    count <= i2,
                    n <= i64::MAX,
                decreases n - i2,
            {
                let row = &self.screenshots[i2];
                let ghost rv = self.rows()[i2 as int];
                proof {
                    assert(rv == self.screenshots@[i2 as int]@);
                }
                let time_ok = row.timestamp >= since && (match until {
                    Some(u) => row.timestamp < u,
                    None => true,
                });
                let app_ok = match &row.app_name {
                    Some(a) => text::str_eq(a.as_str(), name.as_str()),
                    None => false,
                };
                if time_ok && app_ok {
                    count = count + 1;
                    proof {
                        assert(qn(rv));
                    }
                } else {
                    proof {
                        assert(!qn(rv));
                    }
                }
                i2 = i2 + 1;
                proof {
                    assert(self.rows().subrange(0, i2 as int) =~= self.rows().subrange(0, i2 - 1)
                        + seq![rv]);
                    Seq::filter_distributes_over_add(
                        self.rows().subrange(0, i2 - 1),
                        seq![rv],
                        qn,
                    );
                    lemma_filter_singleton(rv, qn);
                }
            }
            proof {
                assert(self.rows().subrange(0, n as int) =~= self.rows());
                lemma_filter_imp_len(self.rows(), qn, pred);
                assert(count <= total);
            }
            let pct: i64 = if total > 0 {
                proof {
                    assert(0 <= count as int * 10000 <= total as int * 10000) by (nonlinear_arith)
                        requires
                            0 <= count <= total,
                    ;
                    assert(count as int * 10000 / total as int <= 10000) by (nonlinear_arith)
                        requires
                            0 < total,
                            count as int * 10000 <= total as int * 10000,
                    ;
                }
                ((count as i128) * 10000i128 / (total as i128)) as i64
            } else {
                0
            };
            let stat = crate::schema::AppUsageStat {
                app_name: name.clone(),
                screenshot_count: count,
                percentage_hundredths: pct,
            };
            let ghost prev_stats = stats@;
            stats.push(stat);
            g = g + 1;
            proof {
                assert(count > 0) by {
                    assert(self.rows().filter(qn).len() > 0);
                }
            }
        }
        // order by capture count, largest first
        let ghost built = stat_views(stats@);
        let sorted = sort_stats(stats);
        proof {
            let sv = stat_views(sorted@);
            assert forall|p: int| 0 <= p < sv.len() implies ((#[trigger] sv[p]).1 as int
                == self.rows().filter(usage_app_pred(since, until, sv[p].0)).len() && sv[p].1 > 0
                && (total > 0 ==> sv[p].2 as int == sv[p].1 as int * 10000 / total as int)) by {
                assert(sv.contains(sv[p])) by {
                    assert(sv[p] == sv[p]);
                }
                vstd::seq_lib::to_multiset_contains::<(Seq<char>, i64, i64)>(sv, sv[p]);
                vstd::seq_lib::to_multiset_contains::<(Seq<char>, i64, i64)>(built, sv[p]);
                let w = choose|w: int| 0 <= w < built.len() && built[w] == sv[p];
                assert(built[w] == stat_view(stats@[w]));
            }
            // names stay pairwise distinct under the permutation
            assert(built.no_duplicates()) by {
                assert forall|p: int, q: int| 0 <= p < q < built.len() implies built[p]
                    != built[q] by {
                    assert(built[p].0 != built[q].0);
                }
            }
            built.lemma_multiset_has_no_duplicates();
            stat_views(sorted@).lemma_multiset_has_no_duplicates_conv();
            assert forall|p: int, q: int| 0 <= p < q < sv.len() implies (#[trigger] sv[p]).0 != (
            #[trigger] sv[q]).0 by {
                assert(sv[p] != sv[q]);
                if sv[p].0 == sv[q].0 {
                    assert(sv.contains(sv[p])) by {
                        assert(sv[p] == sv[p]);
                    }
                    assert(sv.contains(sv[q])) by {
                        assert(sv[q] == sv[q]);
                    }
                    vstd::seq_lib::to_multiset_contains::<(Seq<char>, i64, i64)>(sv, sv[p]);
                    vstd::seq_lib::to_multiset_contains::<(Seq<char>, i64, i64)>(built, sv[p]);
                    vstd::seq_lib::to_multiset_contains::<(Seq<char>, i64, i64)>(sv, sv[q]);
                    vstd::seq_lib::to_multiset_contains::<(Seq<char>, i64, i64)>(built, sv[q]);
                    let w1 = choose|w1: int| 0 <= w1 < built.len() && built[w1] == sv[p];
                    let w2 = choose|w2: int| 0 <= w2 < built.len() && built[w2] == sv[q];
                    assert(w1 != w2);
                    assert(built[w1].0 != built[w2].0);
                }
            }
            // coverage survives the permutation
            assert forall|i3: int|
                0 <= i3 < self.rows().len() && usage_pred(since, until)(
                    #[trigger] self.rows()[i3],
                ) implies usage_covered(sorted@, self.rows()[i3].app_name.unwrap()) by {
                let nm = self.rows()[i3].app_name.unwrap();
                let w = choose|w: int|
                    0 <= w < crate::window_info::str_views(names@).len()
                        && crate::window_info::str_views(names@)[w] == nm;
                assert(built[w].0 == nm) by {
                    assert(built[w] == stat_view(stats@[w]));
                }
                assert(built.contains(built[w])) by {
                    assert(built[w] == built[w]);
                }
                vstd::seq_lib::to_multiset_contains::<(Seq<char>, i64, i64)>(built, built[w]);
                vstd::seq_lib::to_multiset_contains::<(Seq<char>, i64, i64)>(
                    stat_views(sorted@),
                    built[w],
                );
                let g2 = choose|g2: int|
                    0 <= g2 < stat_views(sorted@).len() && stat_views(sorted@)[g2] == built[w];
                assert(stat_views(sorted@)[g2] == stat_view(sorted@[g2]));
                assert(sorted@[g2].app_name@ == nm);
                assert(usage_covered(sorted@, nm)) by {
                    assert(0 <= g2 < sorted@.len() && (#[trigger] sorted@[g2]).app_name@ == nm);
                }
            }
            assert forall|g2: int, h2: int| 0 <= g2 < h2 < sorted@.len() implies (
            #[trigger] sorted@[g2]).screenshot_count >= (#[trigger] sorted@[h2]).screenshot_count by {
                assert(stat_views(sorted@)[g2] == stat_view(sorted@[g2]));
                assert(stat_views(sorted@)[h2] == stat_view(sorted@[h2]));
            }
            assert forall|g2: int| 0 <= g2 < sorted@.len() implies (
            #[trigger] sorted@[g2]).screenshot_count as int == self.rows().filter(
                usage_app_pred(since, until, sorted@[g2].app_name@),
            ).len() && sorted@[g2].screenshot_count > 0 && (total > 0
                ==> sorted@[g2].percentage_hundredths as int == sorted@[g2].screenshot_count as int
                * 10000 / total as int) by {
                assert(stat_views(sorted@)[g2] == stat_view(sorted@[g2]));
            }
            assert forall|g2: int, h2: int| 0 <= g2 < h2 < sorted@.len() implies (
            #[trigger] sorted@[g2]).app_name@ != (#[trigger] sorted@[h2]).app_name@ by {
                assert(stat_views(sorted@)[g2] == stat_view(sorted@[g2]));
                assert(stat_views(sorted@)[h2] == stat_view(sorted@[h2]));
            }
        }
        Ok(sorted)
    }
}

// ---------------------------------------------------------------------------
// OCR sessions
// ---------------------------------------------------------------------------

/// A row belongs to the OCR sessions of a window when its timestamp lies in
/// `[start, end)` and it carries OCR text longer than ten characters.
pub open spec fn session_pred(ocr: Seq<OcrTextV>, start: i64, end: i64) -> spec_fn(ScreenshotV) -> bool {
    |x: ScreenshotV| start <= x.timestamp && x.timestamp < end && has_ocr(ocr, x.id)
        && ocr_text_of(ocr, x.id).len() > 10
}

/// The chronological order of sessions: oldest first, with the lower id
/// first among equal timestamps.
pub open spec fn oldest_first(a: ScreenshotV, b: ScreenshotV) -> bool {
    a.timestamp < b.timestamp || (a.timestamp == b.timestamp && a.id <= b.id)
}

/// A row sequence in chronological order.
pub open spec fn ts_asc(s: Seq<ScreenshotV>) -> bool {
    forall|i: int, j: int| 0 <= i < j < s.len() ==> oldest_first(#[trigger] s[i], #[trigger] s[j])
}

/// A session entry carries its row's fields and the row's OCR text.
pub open spec fn session_matches(
    e: (i64, Option<String>, Option<String>, i64, String, String),
    row: ScreenshotV,
    ocr: Seq<OcrTextV>,
) -> bool {
    &&& e.0 as int == row.id
    &&& e.1.deep_view() == row.app_name
    &&& e.2.deep_view() == row.window_title
    &&& e.3 as int == row.timestamp
    &&& e.4@ == row.file_path
    &&& e.5@ == ocr_text_of(ocr, row.id)
}

/// As `session_matches`, without the id and the file path.
pub open spec fn session_matches_short(
    e: (Option<String>, Option<String>, i64, String),
    row: ScreenshotV,
    ocr: Seq<OcrTextV>,
) -> bool {
    &&& e.0.deep_view() == row.app_name
    &&& e.1.deep_view() == row.window_title
    &&& e.2 as int == row.timestamp
    &&& e.3@ == ocr_text_of(ocr, row.id)
}

/// Sort hits into chronological order (oldest first) by insertion sort.
fn sort_hits_asc(hits: Vec<Hit>) -> (r: Vec<Hit>)
    ensures
        hit_views(r@).to_multiset() == hit_views(hits@).to_multiset(),
        hit_rows(hit_views(r@)).to_multiset() == hit_rows(hit_views(hits@)).to_multiset(),
        ts_asc(hit_rows(hit_views(r@))),
        r@.len() == hits@.len(),
{
    broadcast use vstd::seq_lib::group_to_multiset_ensures;
    broadcast use vstd::multiset::group_multiset_axioms;

    let ghost full = hit_views(hits@);
    let mut rest = hits;
    let mut out: Vec<Hit> = Vec::new();
    proof {
        assert(hit_views(out@).to_multiset() =~= Multiset::<HitV>::empty());
        assert(hit_rows(hit_views(out@)).to_multiset() =~= Multiset::<ScreenshotV>::empty());
        vstd::seq_lib::lemma_multiset_commutative(hit_views(out@), hit_views(rest@));
        assert(hit_views(out@) + hit_views(rest@) =~= hit_views(rest@));
        vstd::seq_lib::lemma_multiset_commutative(
            hit_rows(hit_views(out@)),
            hit_rows(hit_views(rest@)),
        );
        assert(hit_rows(hit_views(out@)) + hit_rows(hit_views(rest@)) =~= hit_rows(
            hit_views(rest@),
        ));
    }
    while rest.len() > 0
        invariant
            hit_views(out@).to_multiset().add(hit_views(rest@).to_multiset())
                == full.to_multiset(),
            hit_rows(hit_views(out@)).to_multiset().add(hit_rows(hit_views(rest@)).to_multiset())
                == hit_rows(full).to_multiset(),
            ts_asc(hit_rows(hit_views(out@))),
            out@.len() + rest@.len() == full.len(),
        decreases rest@.len(),
    {
        let ghost prev_rest = hit_views(rest@);
        let h = rest.remove(0);
        proof {
            assert(hit_views(rest@) =~= prev_rest.remove(0));
            vstd::seq_lib::to_multiset_remove::<HitV>(prev_rest, 0);
            assert(h@ == prev_rest[0]);
            assert(hit_rows(hit_views(rest@)) =~= hit_rows(prev_rest).remove(0));
            vstd::seq_lib::to_multiset_remove::<ScreenshotV>(hit_rows(prev_rest), 0);
            assert(hit_rows(prev_rest)[0] == prev_rest[0].row);
        }
        // find the insertion point
        let mut pos: usize = 0;
        while pos < out.len() && cmp_hits_asc(&out[pos], &h)
            invariant
                pos <= out@.len(),
                forall|k: int|
                    0 <= k < pos ==> oldest_first(
                        #[trigger] hit_rows(hit_views(out@))[k],
                        h@.row,
                    ),
            decreases out@.len() - pos,
        {
            proof {
                assert(hit_rows(hit_views(out@))[pos as int] == out@[pos as int]@.row);
            }
            pos = pos + 1;
        }
        proof {
            if pos < out@.len() {
                assert(hit_rows(hit_views(out@))[pos as int] == out@[pos as int]@.row);
                assert(!oldest_first(hit_rows(hit_views(out@))[pos as int], h@.row));
                assert(oldest_first(h@.row, hit_rows(hit_views(out@))[pos as int]));
            }
        }
        let ghost prev_out = hit_views(out@);
        out.insert(pos, h);
        proof {
            assert(hit_views(out@) =~= prev_out.insert(pos as int, prev_rest[0]));
            lemma_insert_to_multiset(prev_out, pos as int, prev_rest[0]);
            assert(prev_rest.contains(prev_rest[0])) by {
                assert(prev_rest[0] == prev_rest[0]);
            }
            vstd::seq_lib::to_multiset_contains::<HitV>(prev_rest, prev_rest[0]);
            assert(hit_rows(hit_views(out@)) =~= hit_rows(prev_out).insert(
                pos as int,
                prev_rest[0].row,
            ));
            lemma_insert_to_multiset(hit_rows(prev_out), pos as int, prev_rest[0].row);
            assert(hit_rows(prev_rest).contains(hit_rows(prev_rest)[0])) by {
                assert(hit_rows(prev_rest)[0] == hit_rows(prev_rest)[0]);
            }
            vstd::seq_lib::to_multiset_contains::<ScreenshotV>(
                hit_rows(prev_rest),
                hit_rows(prev_rest)[0],
            );
            assert(hit_rows(hit_views(out@)).to_multiset().add(
                hit_rows(hit_views(rest@)).to_multiset(),
            ) =~= hit_rows(full).to_multiset());
            assert(hit_views(out@).to_multiset().add(hit_views(rest@).to_multiset())
                =~= full.to_multiset());
            // sortedness after insertion
            let cur = hit_rows(hit_views(out@));
            let prev_rows = hit_rows(prev_out);
            let hr = prev_rest[0].row;
            assert forall|p: int, q: int| 0 <= p < q < cur.len() implies oldest_first(
                cur[p],
                cur[q],
            ) by {
                if q < pos {
                    assert(cur[p] == prev_rows[p] && cur[q] == prev_rows[q]);
                } else if p < pos && q == pos {
                    assert(cur[p] == prev_rows[p] && cur[q] == hr);
                    assert(oldest_first(prev_rows[p], hr));
                } else if p < pos && q > pos {
                    assert(cur[p] == prev_rows[p] && cur[q] == prev_rows[q - 1]);
                } else if p == pos && q > pos {
                    assert(cur[p] == hr && cur[q] == prev_rows[q - 1]);
                    assert(pos < prev_rows.len());
                    assert(oldest_first(hr, prev_rows[pos as int]));
                    if q - 1 > pos {
                        assert(oldest_first(prev_rows[pos as int], prev_rows[q - 1]));
                    }
                } else {
                    assert(cur[p] == prev_rows[p - 1] && cur[q] == prev_rows[q - 1]);
                }
            }
        }
    }
    proof {
        assert(hit_views(rest@).to_multiset() =~= Multiset::<HitV>::empty());
        assert(hit_views(out@).to_multiset() =~= full.to_multiset());
        assert(hit_rows(hit_views(rest@)).to_multiset() =~= Multiset::<ScreenshotV>::empty());
        assert(hit_rows(hit_views(out@)).to_multiset() =~= hit_rows(full).to_multiset());
    }
    out
}

/// Chronological comparison, oldest first.
fn cmp_hits_asc(a: &Hit, b: &Hit) -> (r: bool)
    ensures
        r == oldest_first(a@.row, b@.row),
{
    a.row.timestamp < b.row.timestamp || (a.row.timestamp == b.row.timestamp && a.row.id
        <= b.row.id)
}

impl Database {
    /// The screenshots of `[start_time, end_time)` that carry OCR text
    /// longer than ten characters, oldest first, at most `limit` of them,
    /// each as `(id, app_name, window_title, timestamp, file_path, text)`.
    pub fn get_ocr_sessions_with_ids(&self, start_time: i64, end_time: i64, limit: i64) -> (r:
        Result<Vec<(i64, Option<String>, Option<String>, i64, String, String)>, CoreError>)
        requires
            self.wf(),
            0 <= limit,
        ensures
            r is Ok,
            ({
                let joined = self.rows().filter(
                    session_pred(self.ocr(), start_time, end_time),
                );
                exists|sorted: Seq<ScreenshotV>|
                    {
                        &&& #[trigger] sorted.to_multiset() == joined.to_multiset()
                        &&& ts_asc(sorted)
                        &&& r.unwrap()@.len() == (if limit as int <= sorted.len() {
                            limit as int
                        } else {
                            sorted.len() as int
                        })
                        &&& forall|k: int|
                            0 <= k < r.unwrap()@.len() ==> session_matches(
                                #[trigger] r.unwrap()@[k],
                                sorted[k],
                                self.ocr(),
                            )
                    }
            }),
    {
        let ghost pred = session_pred(self.ocr(), start_time, end_time);
        let n = self.screenshots.len();
        let mut hits: Vec<Hit> = Vec::new();
        let mut i: usize = 0;
        proof {
            assert(self.rows().subrange(0, 0) =~= Seq::<ScreenshotV>::empty());
            assert(Seq::<ScreenshotV>::empty().filter(pred) =~= Seq::<ScreenshotV>::empty()) by {
                reveal(Seq::filter);
            }
            assert(hit_rows(hit_views(hits@)) =~= Seq::<ScreenshotV>::empty());
        }
        while i < n
            invariant
                self.wf(),
                n == self.rows().len(),
                i <= n,
                pred == session_pred(self.ocr(), start_time, end_time),
                hit_rows(hit_views(hits@)) == self.rows().subrange(0, i as int).filter(pred),
                forall|k: int|
                    0 <= k < hits@.len() ==> (#[trigger] hit_views(hits@)[k]).snippet
                        == ocr_text_of(self.ocr(), hit_views(hits@)[k].row.id),
            decreases n - i,
        {
            let row = &self.screenshots[i];
            let ghost rv = self.rows()[i as int];
            proof {
                assert(rv == self.screenshots@[i as int]@);
            }
            let mut added: bool = false;
            if start_time <= row.timestamp && row.timestamp < end_time {
                match self.get_ocr_text(row.id) {
                    Ok(Some(t)) => {
                        proof {
                            let w = choose|w: int|
                                0 <= w < self.ocr().len() && (
                                #[trigger] self.ocr()[w]).screenshot_id == rv.id && t@
                                    == self.ocr()[w].text_content;
                            lemma_ocr_text_of(self.ocr(), w);
                            assert(ocr_text_of(self.ocr(), rv.id) == t@);
                            assert(has_ocr(self.ocr(), rv.id));
                        }
                        let t_chars = text::chars_of(t.as_str());
                        if t_chars.len() > 10 {
                            let ghost prev = hit_views(hits@);
                            hits.push(Hit { row: row.duplicate(), snippet: t });
                            added = true;
                            proof {
                                assert(pred(rv));
                                assert(hit_views(hits@) =~~= prev.push(
                                    HitV { row: rv, snippet: ocr_text_of(self.ocr(), rv.id) },
                                ));
                                assert(hit_rows(hit_views(hits@)) =~= hit_rows(prev).push(rv));
                            }
                        } else {
                            proof {
                                assert(!pred(rv));
                            }
                        }
                    },
                    Ok(None) => {
                        proof {
                            assert(!pred(rv));
                        }
                    },
                    Err(_) => {
                        proof {
                            assert(false);
                        }
                    },
                }
            } else {
                proof {
                    assert(!pred(rv));
                }
            }
            i = i + 1;
            proof {
                assert(self.rows().subrange(0, i as int) =~= self.rows().subrange(0, i - 1)
                    + seq![rv]);
                Seq::filter_distributes_over_add(self.rows().subrange(0, i - 1), seq![rv], pred);
                lemma_filter_singleton(rv, pred);
                if added {
                    assert(hit_rows(hit_views(hits@)) =~= self.rows().subrange(0, i as int).filter(
                        pred,
                    ));
                } else {
                    assert(hit_rows(hit_views(hits@)) =~= self.rows().subrange(0, i as int).filter(
                        pred,
                    ));
                }
            }
        }
        proof {
            assert(self.rows().subrange(0, n as int) =~= self.rows());
        }
        let ghost collected = hit_views(hits@);
        let sorted_hits = sort_hits_asc(hits);
        let ghost sorted = hit_rows(hit_views(sorted_hits@));
        proof {
            broadcast use vstd::seq_lib::group_to_multiset_ensures;

            // every sorted hit keeps its stored text
            assert forall|j: int|
                0 <= j < hit_views(sorted_hits@).len() implies (
            #[trigger] hit_views(sorted_hits@)[j]).snippet == ocr_text_of(
                self.ocr(),
                hit_views(sorted_hits@)[j].row.id,
            ) by {
                let x = hit_views(sorted_hits@)[j];
                assert(hit_views(sorted_hits@).contains(x)) by {
                    assert(hit_views(sorted_hits@)[j] == x);
                }
                vstd::seq_lib::to_multiset_contains::<HitV>(hit_views(sorted_hits@), x);
                vstd::seq_lib::to_multiset_contains::<HitV>(collected, x);
                assert(collected.contains(x));
                let w = choose|w: int| 0 <= w < collected.len() && collected[w] == x;
                assert(collected[w].snippet == ocr_text_of(self.ocr(), collected[w].row.id));
            }
        }
        let total = sorted_hits.len();
        let take: usize = if limit as u64 <= total as u64 {
            limit as usize
        } else {
            total
        };
        let mut out: Vec<(i64, Option<String>, Option<String>, i64, String, String)> = Vec::new();
        let mut k: usize = 0;
        while k < take
            invariant
                take <= sorted_hits@.len(),
                k <= take,
                sorted == hit_rows(hit_views(sorted_hits@)),
                forall|j: int|
                    0 <= j < hit_views(sorted_hits@).len() ==> (
                    #[trigger] hit_views(sorted_hits@)[j]).snippet == ocr_text_of(
                        self.ocr(),
                        hit_views(sorted_hits@)[j].row.id,
                    ),
                out@.len() == k,
                forall|j: int|
                    0 <= j < k ==> session_matches(#[trigger] out@[j], sorted[j], self.ocr()),
            decreases take - k,
        {
            let h = &sorted_hits[k];
            let e = (
                h.row.id,
                crate::schema::clone_opt_string(&h.row.app_name),
                crate::schema::clone_opt_string(&h.row.window_title),
                h.row.timestamp,
                h.row.file_path.clone(),
                h.snippet.clone(),
            );
            proof {
                assert(hit_views(sorted_hits@)[k as int] == sorted_hits@[k as int]@);
                assert(sorted[k as int] == hit_views(sorted_hits@)[k as int].row);
                assert(session_matches(e, sorted[k as int], self.ocr()));
            }
            out.push(e);
            k = k + 1;
        }
        proof {
            assert(sorted.to_multiset() == self.rows().filter(pred).to_multiset());
            assert(ts_asc(sorted));
        }
        Ok(out)
    }

    /// As `get_ocr_sessions_with_ids`, reporting only
    /// `(app_name, window_title, timestamp, text)`.
    pub fn get_ocr_sessions(&self, start_time: i64, end_time: i64, limit: i64) -> (r: Result<
        Vec<(Option<String>, Option<String>, i64, String)>,
        CoreError,
    >)
        requires
            self.wf(),
            0 <= limit,
        ensures
            r is Ok,
            ({
                let joined = self.rows().filter(
                    session_pred(self.ocr(), start_time, end_time),
                );
                exists|sorted: Seq<ScreenshotV>|
                    {
                        &&& #[trigger] sorted.to_multiset() == joined.to_multiset()
                        &&& ts_asc(sorted)
                        &&& r.unwrap()@.len() == (if limit as int <= sorted.len() {
                            limit as int
                        } else {
                            sorted.len() as int
                        })
                        &&& forall|k: int|
                            0 <= k < r.unwrap()@.len() ==> session_matches_short(
                                #[trigger] r.unwrap()@[k],
                                sorted[k],
                                self.ocr(),
                            )
                    }
            }),
    {
        let full = match self.get_ocr_sessions_with_ids(start_time, end_time, limit) {
            Ok(v) => v,
            Err(e) => {
                proof {
                    assert(false);
                }
                return Err(e);
            },
        };
        let ghost sorted = choose|sorted: Seq<ScreenshotV>|
            {
                &&& #[trigger] sorted.to_multiset() == self.rows().filter(
                    session_pred(self.ocr(), start_time, end_time),
                ).to_multiset()
                &&& ts_asc(sorted)
                &&& full@.len() == (if limit as int <= sorted.len() {
                    limit as int
                } else {
                    sorted.len() as int
                })
                &&& forall|k: int|
                    0 <= k < full@.len() ==> session_matches(
                        #[trigger] full@[k],
                        sorted[k],
                        self.ocr(),
                    )
            };
        let mut out: Vec<(Option<String>, Option<String>, i64, String)> = Vec::new();
        let mut k: usize = 0;
        while k < full.len()
            invariant
                k <= full@.len(),
                out@.len() == k,
                forall|j: int|
                    0 <= j < full@.len() ==> session_matches(
                        #[trigger] full@[j],
                        sorted[j],
                        self.ocr(),
                    ),
                forall|j: int|
                    0 <= j < k ==> session_matches_short(#[trigger] out@[j], sorted[j], self.ocr()),
            decreases full@.len() - k,
        {
            let e = &full[k];
            let short = (
                crate::schema::clone_opt_string(&e.1),
                crate::schema::clone_opt_string(&e.2),
                e.3,
                e.5.clone(),
            );
            proof {
                assert(session_matches(full@[k as int], sorted[k as int], self.ocr()));
                assert(session_matches_short(short, sorted[k as int], self.ocr()));
            }
            out.push(short);
            k = k + 1;
        }
        Ok(out)
    }
}

} // verus!
