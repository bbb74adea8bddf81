//! Query understanding for the retrieval layer: a heuristic classifier that
//! maps a natural-language question to a structured search intent, and the
//! context assemblers that turn stored records into prompt text with
//! screenshot references.
//!
//! All text comparison folds ASCII case; the query is classified against
//! its folded form.

use vstd::prelude::*;
use crate::text;
use crate::time;

verus! {

// ---------------------------------------------------------------------------
// Chat types
// ---------------------------------------------------------------------------

#[derive(Debug, Clone)]
pub struct ChatMessage {
    pub role: ChatRole,
    pub content: String,
}

#[derive(Debug, Clone, Copy, PartialEq, Eq, Structural)]
pub enum ChatRole {
    System,
    User,
    Assistant,
}

#[derive(Debug, Clone)]
pub struct ChatStreamChunk {
    pub token: String,
    pub done: bool,
}

#[derive(Debug, Clone, Copy, PartialEq, Eq, Structural)]
pub enum IntentCategory {
    Recall,
    TimeBased,
    Productivity,
    AppSpecific,
    General,
}

#[derive(Debug, Clone, Copy, PartialEq, Eq, Structural)]
pub enum QueryConfidence {
    High,
    Medium,
    Low,
}

/// The structured interpretation of a query.
#[derive(Debug, Clone)]
pub struct QueryIntent {
    pub category: IntentCategory,
    pub search_terms: Vec<String>,
    pub time_range: Option<(i64, i64)>,
    pub app_filter: Option<String>,
    pub confidence: QueryConfidence,
}

/// The mathematical value of a query intent.
#[verifier::ext_equal]
pub ghost struct QueryIntentV {
    pub category: IntentCategory,
    pub search_terms: Seq<Seq<char>>,
    pub time_range: Option<(int, int)>,
    pub app_filter: Option<Seq<char>>,
    pub confidence: QueryConfidence,
}

impl View for QueryIntent {
    type V = QueryIntentV;

    open spec fn view(&self) -> QueryIntentV {
        QueryIntentV {
            category: self.category,
            search_terms: crate::window_info::str_views(self.search_terms@),
            time_range: match self.time_range {
                Some((a, b)) => Some((a as int, b as int)),
                None => None,
            },
            app_filter: self.app_filter.deep_view(),
            confidence: self.confidence,
        }
    }
}

/// A record pointing a chat answer back at one screenshot.
#[derive(Debug, Clone)]
pub struct ScreenshotReference {
    pub id: i64,
    pub timestamp: i64,
    pub app_name: Option<String>,
    pub window_title: Option<String>,
    pub file_path: String,
}

/// The mathematical value of a screenshot reference.
#[verifier::ext_equal]
pub ghost struct ScreenshotReferenceV {
    pub id: int,
    pub timestamp: int,
    pub app_name: Option<Seq<char>>,
    pub window_title: Option<Seq<char>>,
    pub file_path: Seq<char>,
}

impl View for ScreenshotReference {
    type V = ScreenshotReferenceV;

    open spec fn view(&self) -> ScreenshotReferenceV {
        ScreenshotReferenceV {
            id: self.id as int,
            timestamp: self.timestamp as int,
            app_name: self.app_name.deep_view(),
            window_title: self.window_title.deep_view(),
            file_path: self.file_path@,
        }
    }
}

// ---------------------------------------------------------------------------
// Classifier spec
// ---------------------------------------------------------------------------

/// A word the classifier never keeps as a search term.
pub open spec fn is_stop_word(w: Seq<char>) -> bool {
    ||| w == "what"@
    ||| w == "was"@
    ||| w == "that"@
    ||| w == "the"@
    ||| w == "i"@
    ||| w == "saw"@
    ||| w == "in"@
    ||| w == "did"@
    ||| w == "do"@
    ||| w == "show"@
    ||| w == "me"@
    ||| w == "when"@
    ||| w == "how"@
    ||| w == "long"@
    ||| w == "much"@
    ||| w == "time"@
    ||| w == "spent"@
    ||| w == "on"@
    ||| w == "a"@
    ||| w == "an"@
    ||| w == "is"@
    ||| w == "it"@
    ||| w == "my"@
    ||| w == "have"@
    ||| w == "has"@
    ||| w == "been"@
    ||| w == "were"@
    ||| w == "are"@
    ||| w == "this"@
    ||| w == "last"@
    ||| w == "yesterday"@
    ||| w == "today"@
    ||| w == "week"@
    ||| w == "month"@
    ||| w == "find"@
    ||| w == "search"@
    ||| w == "look"@
    ||| w == "for"@
    ||| w == "about"@
    ||| w == "with"@
    ||| w == "from"@
    ||| w == "to"@
    ||| w == "at"@
    ||| w == "of"@
    ||| w == "can"@
    ||| w == "you"@
    ||| w == "tell"@
    ||| w == "give"@
    ||| w == "get"@
    ||| w == "happened"@
    ||| w == "there"@
    ||| w == "doing"@
    ||| w == "worked"@
    ||| w == "working"@
    ||| w == "used"@
    ||| w == "using"@
    ||| w == "opened"@
    ||| w == "visited"@
    ||| w == "played"@
}

/// The query asks about time spent or a summary of work.
pub open spec fn spec_is_productivity(fq: Seq<char>) -> bool {
    ||| text::has_sub(fq, "how long"@)
    ||| text::has_sub(fq, "how much time"@)
    ||| text::has_sub(fq, "time spent"@)
    ||| text::has_sub(fq, "productivity"@)
    ||| text::has_sub(fq, "what did i work on"@)
    ||| text::has_sub(fq, "what have i been doing"@)
    ||| text::has_sub(fq, "what did i do"@)
    ||| text::has_sub(fq, "summary"@)
    ||| text::has_sub(fq, "summarize"@)
    ||| text::has_sub(fq, "breakdown"@)
}

/// The app a query targets: the first entry of the alias table whose
/// pattern occurs in the folded query.
pub open spec fn spec_app_filter(fq: Seq<char>) -> Option<Seq<char>> {
    if text::has_sub(fq, "vs code"@) {
        Some("code"@)
    } else if text::has_sub(fq, "vscode"@) {
        Some("code"@)
    } else if text::has_sub(fq, "visual studio code"@) {
        Some("code"@)
    } else if text::has_sub(fq, "firefox"@) {
        Some("firefox"@)
    } else if text::has_sub(fq, "chrome"@) {
        Some("google-chrome"@)
    } else if text::has_sub(fq, "chromium"@) {
        Some("chromium"@)
    } else if text::has_sub(fq, "brave"@) {
        Some("brave-browser"@)
    } else if text::has_sub(fq, "terminal"@) {
        Some("terminal"@)
    } else if text::has_sub(fq, "konsole"@) {
        Some("konsole"@)
    } else if text::has_sub(fq, "kitty"@) {
        Some("kitty"@)
    } else if text::has_sub(fq, "slack"@) {
        Some("slack"@)
    } else if text::has_sub(fq, "discord"@) {
        Some("discord"@)
    } else if text::has_sub(fq, "obsidian"@) {
        Some("obsidian"@)
    } else if text::has_sub(fq, "notion"@) {
        Some("notion"@)
    } else if text::has_sub(fq, "github"@) {
        Some("firefox"@)
    } else if text::has_sub(fq, "spotify"@) {
        Some("spotify"@)
    } else {
        None
    }
}

/// Length of the run of ASCII digits at the front of `s`.
pub open spec fn digit_run(s: Seq<char>) -> nat
    decreases s.len(),
{
    if s.len() == 0 || !(48 <= (s[0] as u32) && (s[0] as u32) <= 57) {
        0
    } else {
        1 + digit_run(s.drop_first())
    }
}

/// A `last <number> <unit>` phrase begins at `i`: the literal `last `, one
/// or more digits, a space, then the unit prefix.
pub open spec fn phrase_at(fq: Seq<char>, unit: Seq<char>, i: int) -> bool {
    let d = digit_run(fq.subrange(i + 5, fq.len() as int)) as int;
    &&& 0 <= i
    &&& i + 5 <= fq.len()
    &&& fq.subrange(i, i + 5) == "last "@
    &&& d >= 1
    &&& i + 5 + d < fq.len()
    &&& fq[i + 5 + d] == ' '
    &&& i + 6 + d + unit.len() <= fq.len()
    &&& fq.subrange(i + 6 + d, i + 6 + d + unit.len() as int) == unit
}

/// The number of the first `last <number> <unit>` phrase at or after `i`,
/// when the number fits the accepted range.
pub open spec fn find_phrase(fq: Seq<char>, unit: Seq<char>, i: int) -> Option<int>
    decreases fq.len() - i,
{
    if i < 0 || i >= fq.len() {
        None
    } else if phrase_at(fq, unit, i) {
        let d = digit_run(fq.subrange(i + 5, fq.len() as int)) as int;
        let v = text::digits_value(fq.subrange(i + 5, i + 5 + d)) as int;
        if v <= 1000000000000 {
            Some(v)
        } else {
            None
        }
    } else {
        find_phrase(fq, unit, i + 1)
    }
}

/// Midnight before `now`.
pub open spec fn spec_today_start(now: int) -> int {
    now - (now % 86400)
}

/// The time window a query asks about, against the clock value `now`.
pub open spec fn spec_time_range(fq: Seq<char>, now: int) -> Option<(int, int)> {
    let ts0 = spec_today_start(now);
    if text::has_sub(fq, "yesterday"@) {
        Some((ts0 - 86400, ts0))
    } else if text::has_sub(fq, "today"@) || text::has_sub(fq, "this morning"@) {
        Some((ts0, now))
    } else if text::has_sub(fq, "this week"@) {
        Some((now - 604800, now))
    } else if text::has_sub(fq, "this month"@) {
        Some((now - 2592000, now))
    } else if find_phrase(fq, "hour"@, 0) is Some {
        Some((now - find_phrase(fq, "hour"@, 0).unwrap() * 3600, now))
    } else if find_phrase(fq, "min"@, 0) is Some {
        Some((now - find_phrase(fq, "min"@, 0).unwrap() * 60, now))
    } else if find_phrase(fq, "day"@, 0) is Some {
        Some((now - find_phrase(fq, "day"@, 0).unwrap() * 86400, now))
    } else if text::has_sub(fq, "last week"@) {
        Some((now - 604800, now))
    } else if text::has_sub(fq, "last time"@) || starts_with(fq, "when did"@) || starts_with(
        fq,
        "when was"@,
    ) {
        Some((now - 2592000, now))
    } else {
        None
    }
}

/// `s` begins with `prefix`.
pub open spec fn starts_with(s: Seq<char>, prefix: Seq<char>) -> bool {
    prefix.len() <= s.len() && s.subrange(0, prefix.len() as int) == prefix
}

/// The search terms of a folded query: its whitespace words, trimmed of
/// punctuation, that are longer than two characters and are not stop words.
pub open spec fn spec_search_terms(fq: Seq<char>) -> Seq<Seq<char>> {
    spec_ws_trimmed(fq).filter(|w: Seq<char>| w.len() > 2 && !is_stop_word(w))
}

/// The whitespace words of the query, each trimmed of punctuation.
pub open spec fn spec_ws_trimmed(fq: Seq<char>) -> Seq<Seq<char>> {
    text::spec_ws_words(fq).map(|i: int, w: Seq<char>| text::spec_trim_word(w))
}

/// The full classification of a query against the clock value `now`.
pub open spec fn spec_classify(query: Seq<char>, now: int) -> QueryIntentV {
    let fq = text::fold_chars(query);
    let tr = spec_time_range(fq, now);
    let app = spec_app_filter(fq);
    let terms = spec_search_terms(fq);
    let category = if spec_is_productivity(fq) {
        IntentCategory::Productivity
    } else if app is Some {
        IntentCategory::AppSpecific
    } else if tr is Some && terms.len() == 0 {
        IntentCategory::TimeBased
    } else if terms.len() > 0 {
        IntentCategory::Recall
    } else {
        IntentCategory::General
    };
    QueryIntentV {
        category: category,
        search_terms: terms,
        time_range: tr,
        app_filter: app,
        confidence: QueryConfidence::Medium,
    }
}

// ---------------------------------------------------------------------------
// Classifier implementation
// ---------------------------------------------------------------------------

/// Whether a trimmed word is a stop word.
fn is_stop_word_at(w: &Vec<char>) -> (r: bool)
    ensures
        r == is_stop_word(w@),
{
    false
        || text::chars_eq(w, &text::chars_of("what"))
        || text::chars_eq(w, &text::chars_of("was"))
        || text::chars_eq(w, &text::chars_of("that"))
        || text::chars_eq(w, &text::chars_of("the"))
        || text::chars_eq(w, &text::chars_of("i"))
        || text::chars_eq(w, &text::chars_of("saw"))
        || text::chars_eq(w, &text::chars_of("in"))
        || text::chars_eq(w, &text::chars_of("did"))
        || text::chars_eq(w, &text::chars_of("do"))
        || text::chars_eq(w, &text::chars_of("show"))
        || text::chars_eq(w, &text::chars_of("me"))
        || text::chars_eq(w, &text::chars_of("when"))
        || text::chars_eq(w, &text::chars_of("how"))
        || text::chars_eq(w, &text::chars_of("long"))
        || text::chars_eq(w, &text::chars_of("much"))
        || text::chars_eq(w, &text::chars_of("time"))
        || text::chars_eq(w, &text::chars_of("spent"))
        || text::chars_eq(w, &text::chars_of("on"))
        || text::chars_eq(w, &text::chars_of("a"))
        || text::chars_eq(w, &text::chars_of("an"))
        || text::chars_eq(w, &text::chars_of("is"))
        || text::chars_eq(w, &text::chars_of("it"))
        || text::chars_eq(w, &text::chars_of("my"))
        || text::chars_eq(w, &text::chars_of("have"))
        || text::chars_eq(w, &text::chars_of("has"))
        || text::chars_eq(w, &text::chars_of("been"))
        || text::chars_eq(w, &text::chars_of("were"))
        || text::chars_eq(w, &text::chars_of("are"))
        || text::chars_eq(w, &text::chars_of("this"))
        || text::chars_eq(w, &text::chars_of("last"))
        || text::chars_eq(w, &text::chars_of("yesterday"))
        || text::chars_eq(w, &text::chars_of("today"))
        || text::chars_eq(w, &text::chars_of("week"))
        || text::chars_eq(w, &text::chars_of("month"))
        || text::chars_eq(w, &text::chars_of("find"))
        || text::chars_eq(w, &text::chars_of("search"))
        || text::chars_eq(w, &text::chars_of("look"))
        || text::chars_eq(w, &text::chars_of("for"))
        || text::chars_eq(w, &text::chars_of("about"))
        || text::chars_eq(w, &text::chars_of("with"))
        || text::chars_eq(w, &text::chars_of("from"))
        || text::chars_eq(w, &text::chars_of("to"))
        || text::chars_eq(w, &text::chars_of("at"))
        || text::chars_eq(w, &text::chars_of("of"))
        || text::chars_eq(w, &text::chars_of("can"))
        || text::chars_eq(w, &text::chars_of("you"))
        || text::chars_eq(w, &text::chars_of("tell"))
        || text::chars_eq(w, &text::chars_of("give"))
        || text::chars_eq(w, &text::chars_of("get"))
        || text::chars_eq(w, &text::chars_of("happened"))
        || text::chars_eq(w, &text::chars_of("there"))
        || text::chars_eq(w, &text::chars_of("doing"))
        || text::chars_eq(w, &text::chars_of("worked"))
        || text::chars_eq(w, &text::chars_of("working"))
        || text::chars_eq(w, &text::chars_of("used"))
        || text::chars_eq(w, &text::chars_of("using"))
        || text::chars_eq(w, &text::chars_of("opened"))
        || text::chars_eq(w, &text::chars_of("visited"))
        || text::chars_eq(w, &text::chars_of("played"))
}

/// Heuristic query classifier; the fallback when no language model is
/// available.
pub struct IntentClassifier;

impl IntentClassifier {
    /// Classify a query against the current wall clock. The shape of the
    /// intent depends on the query alone; only the bounds of the time
    /// window come from the clock.
    pub fn classify(query: &str) -> (r: QueryIntent)
        ensures
            exists|now: i64|
                0 <= now <= time::MAX_TIMESTAMP && r@ == spec_classify(query@, now as int),
    {
        let raw_now = time::now_timestamp();
        let now: i64 = if raw_now < 0 {
            0
        } else if raw_now > time::MAX_TIMESTAMP {
            time::MAX_TIMESTAMP
        } else {
            raw_now
        };
        Self::classify_at(query, now)
    }

    /// Classify a query against a caller-supplied clock value.
    pub fn classify_at(query: &str, now: i64) -> (r: QueryIntent)
        requires
            0 <= now <= time::MAX_TIMESTAMP,
        ensures
            r@ == spec_classify(query@, now as int),
    {
        let chars = text::chars_of(query);
        let fq = text::fold_vec(&chars);
        let tr = Self::extract_time_range(&fq, now);
        let app = Self::extract_app_filter(&fq);
        let terms = Self::extract_search_terms(&fq);
        let category = if Self::is_productivity(&fq) {
            IntentCategory::Productivity
        } else if app.is_some() {
            IntentCategory::AppSpecific
        } else if tr.is_some() && terms.len() == 0 {
            IntentCategory::TimeBased
        } else if terms.len() > 0 {
            IntentCategory::Recall
        } else {
            IntentCategory::General
        };
        let r = QueryIntent {
            category,
            search_terms: terms,
            time_range: tr,
            app_filter: app,
            confidence: QueryConfidence::Medium,
        };
        proof {
            assert(r@ =~~= spec_classify(query@, now as int));
        }
        r
    }

    /// The query asks about time spent or a summary of work.
    pub fn is_productivity(fq: &Vec<char>) -> (r: bool)
        ensures
            r == spec_is_productivity(fq@),
    {
        false
        || text::contains_chars(fq, &text::chars_of("how long"))
        || text::contains_chars(fq, &text::chars_of("how much time"))
        || text::contains_chars(fq, &text::chars_of("time spent"))
        || text::contains_chars(fq, &text::chars_of("productivity"))
        || text::contains_chars(fq, &text::chars_of("what did i work on"))
        || text::contains_chars(fq, &text::chars_of("what have i been doing"))
        || text::contains_chars(fq, &text::chars_of("what did i do"))
        || text::contains_chars(fq, &text::chars_of("summary"))
        || text::contains_chars(fq, &text::chars_of("summarize"))
        || text::contains_chars(fq, &text::chars_of("breakdown"))
    }

    /// The app the query targets, by the alias table.
    pub fn extract_app_filter(fq: &Vec<char>) -> (r: Option<String>)
        ensures
            r.deep_view() == spec_app_filter(fq@),
    {
    if text::contains_chars(fq, &text::chars_of("vs code")) {
        return Some(String::from_str("code"));
    }
    if text::contains_chars(fq, &text::chars_of("vscode")) {
        return Some(String::from_str("code"));
    }
    if text::contains_chars(fq, &text::chars_of("visual studio code")) {
        return Some(String::from_str("code"));
    }
    if text::contains_chars(fq, &text::chars_of("firefox")) {
        return Some(String::from_str("firefox"));
    }
    if text::contains_chars(fq, &text::chars_of("chrome")) {
        return Some(String::from_str("google-chrome"));
    }
    if text::contains_chars(fq, &text::chars_of("chromium")) {
        return Some(String::from_str("chromium"));
    }
    if text::contains_chars(fq, &text::chars_of("brave")) {
        return Some(String::from_str("brave-browser"));
    }
    if text::contains_chars(fq, &text::chars_of("terminal")) {
        return Some(String::from_str("terminal"));
    }
    if text::contains_chars(fq, &text::chars_of("konsole")) {
        return Some(String::from_str("konsole"));
    }
    if text::contains_chars(fq, &text::chars_of("kitty")) {
        return Some(String::from_str("kitty"));
    }
    if text::contains_chars(fq, &text::chars_of("slack")) {
        return Some(String::from_str("slack"));
    }
    if text::contains_chars(fq, &text::chars_of("discord")) {
        return Some(String::from_str("discord"));
    }
    if text::contains_chars(fq, &text::chars_of("obsidian")) {
        return Some(String::from_str("obsidian"));
    }
    if text::contains_chars(fq, &text::chars_of("notion")) {
        return Some(String::from_str("notion"));
    }
    if text::contains_chars(fq, &text::chars_of("github")) {
        return Some(String::from_str("firefox"));
    }
    if text::contains_chars(fq, &text::chars_of("spotify")) {
        return Some(String::from_str("spotify"));
    }
    None
    }

    /// The time window the query asks about.
    pub fn extract_time_range(fq: &Vec<char>, now: i64) -> (r: Option<(i64, i64)>)
        requires
            0 <= now <= time::MAX_TIMESTAMP,
        ensures
            match r {
                Some((a, b)) => spec_time_range(fq@, now as int) == Some((a as int, b as int)),
                None => spec_time_range(fq@, now as int) is None,
            },
    {
        let ts0 = now - (now % 86400);
        if text::contains_chars(fq, &text::chars_of("yesterday")) {
            return Some((ts0 - 86400, ts0));
        }
        if text::contains_chars(fq, &text::chars_of("today")) || text::contains_chars(
            fq,
            &text::chars_of("this morning"),
        ) {
            return Some((ts0, now));
        }
        if text::contains_chars(fq, &text::chars_of("this week")) {
            return Some((now - 604800, now));
        }
        if text::contains_chars(fq, &text::chars_of("this month")) {
            return Some((now - 2592000, now));
        }
        match Self::find_phrase_num(fq, &text::chars_of("hour")) {
            Some(h) => {
                return Some((now - h * 3600, now));
            },
            None => {},
        }
        match Self::find_phrase_num(fq, &text::chars_of("min")) {
            Some(m) => {
                return Some((now - m * 60, now));
            },
            None => {},
        }
        match Self::find_phrase_num(fq, &text::chars_of("day")) {
            Some(d) => {
                return Some((now - d * 86400, now));
            },
            None => {},
        }
        if text::contains_chars(fq, &text::chars_of("last week")) {
            return Some((now - 604800, now));
        }
        let when_did = text::chars_of("when did");
        let when_was = text::chars_of("when was");
        if text::contains_chars(fq, &text::chars_of("last time")) || text::seq_eq_at(
            fq,
            0,
            &when_did,
        ) || text::seq_eq_at(fq, 0, &when_was) {
            return Some((now - 2592000, now));
        }
        None
    }

    /// Find the first `last <number> <unit>` phrase and parse its number.
    fn find_phrase_num(fq: &Vec<char>, unit: &Vec<char>) -> (r: Option<i64>)
        ensures
            match r {
                Some(v) => find_phrase(fq@, unit@, 0) == Some(v as int) && 0 <= v
                    <= 1000000000000,
                None => find_phrase(fq@, unit@, 0) is None,
            },
    {
        let n = fq.len();
        let last_pat = text::chars_of("last ");
        proof {
            reveal_strlit("last ");
            assert(last_pat@.len() == 5);
        }
        let mut i: usize = 0;
        while i < n
            invariant
                n == fq@.len(),
                i <= n,
                last_pat@ == "last "@,
                last_pat@.len() == 5,
                find_phrase(fq@, unit@, 0) == find_phrase(fq@, unit@, i as int),
            decreases n - i,
        {
            let mut matched: bool = false;
            let mut value: i64 = 0;
            if text::seq_eq_at(fq, i, &last_pat) {
                // count the digits after the phrase head
                let mut d: usize = 0;
                while i + 5 + d < n && is_digit_char(fq[i + 5 + d])
                    invariant
                        n == fq@.len(),
                        i + 5 <= n,
                        d <= n - i - 5,
                        forall|k: int|
                            0 <= k < d ==> 48 <= (#[trigger] fq@[i + 5 + k]) as u32 <= 57,
                    decreases n - i - 5 - d,
                {
                    d = d + 1;
                }
                proof {
                    let rest = fq@.subrange(i + 5, n as int);
                    lemma_digit_run(rest);
                    assert forall|k: int| 0 <= k < d implies 48 <= (#[trigger] rest[k]) as u32
                        <= 57 by {
                        assert(rest[k] == fq@[i + 5 + k]);
                    }
                    if digit_run(rest) < d {
                        assert(48 <= (rest[digit_run(rest) as int]) as u32 <= 57);
                        assert(false);
                    }
                    if digit_run(rest) > d {
                        assert(d < rest.len());
                        assert(48 <= (rest[d as int]) as u32 <= 57);
                        assert(rest[d as int] == fq@[i + 5 + d]);
                        assert(false);
                    }
                    assert(digit_run(rest) == d as nat);
                }
                if d >= 1 && i + 5 + d < n && fq[i + 5 + d] == ' ' && unit.len() <= n - (i + 6
                    + d) && text::seq_eq_at(fq, i + 6 + d, unit) {
                    proof {
                        assert(fq@.subrange(i + 5, i + 5 + d) =~= fq@.subrange(i + 5, n as int)
                            .subrange(0, d as int));
                        assert(phrase_at(fq@, unit@, i as int));
                    }
                    match text::parse_digits(fq, i + 5, i + 5 + d) {
                        Some(v) => {
                            if v <= 1000000000000u64 {
                                matched = true;
                                value = v as i64;
                            } else {
                                proof {
                                    assert(find_phrase(fq@, unit@, i as int) is None) by {
                                        text::lemma_digits_value_mono(
                                            fq@.subrange(i + 5, i + 5 + d),
                                            d as int,
                                        );
                                    }
                                }
                                return None;
                            }
                        },
                        None => {
                            // digits overflow the machine range, so the
                            // phrase number is out of the accepted range
                            proof {
                                assert(text::all_digits(fq@.subrange(i + 5, i + 5 + d)));
                                assert(text::digits_value(fq@.subrange(i + 5, i + 5 + d))
                                    > u64::MAX);
                                assert(find_phrase(fq@, unit@, i as int) is None);
                            }
                            return None;
                        },
                    }
                } else {
                    proof {
                        assert(!phrase_at(fq@, unit@, i as int));
                    }
                }
            } else {
                proof {
                    assert(!phrase_at(fq@, unit@, i as int));
                }
            }
            if matched {
                proof {
                    assert(find_phrase(fq@, unit@, i as int) == Some(value as int));
                }
                return Some(value);
            }
            i = i + 1;
        }
        None
    }

    /// The search terms of the folded query.
    pub fn extract_search_terms(fq: &Vec<char>) -> (r: Vec<String>)
        ensures
            crate::window_info::str_views(r@) == spec_search_terms(fq@),
    {
        let ghost keep = |w: Seq<char>| w.len() > 2 && !is_stop_word(w);
        let words = text::ws_words(fq);
        let mut out: Vec<String> = Vec::new();
        let mut i: usize = 0;
        proof {
            reveal(Seq::filter);
            assert(spec_ws_trimmed(fq@).subrange(0, 0) =~= Seq::<Seq<char>>::empty());
            assert(crate::window_info::str_views(out@) =~= Seq::<Seq<char>>::empty());
        }
        while i < words.len()
            invariant
                text::token_views(words@) == text::spec_ws_words(fq@),
                i <= words@.len(),
                keep == (|w: Seq<char>| w.len() > 2 && !is_stop_word(w)),
                crate::window_info::str_views(out@) == spec_ws_trimmed(fq@).subrange(
                    0,
                    i as int,
                ).filter(keep),
            decreases words@.len() - i,
        {
            let ghost wv = spec_ws_trimmed(fq@)[i as int];
            proof {
                assert(text::token_views(words@)[i as int] == words@[i as int]@);
                assert(spec_ws_trimmed(fq@)[i as int] == text::spec_trim_word(
                    text::spec_ws_words(fq@)[i as int],
                ));
            }
            let trimmed = text::trim_word(&words[i]);
            if trimmed.len() > 2 && !is_stop_word_at(&trimmed) {
                let ghost prev = crate::window_info::str_views(out@);
                out.push(text::string_from_chars(&trimmed));
                proof {
                    assert(keep(wv));
                    assert(crate::window_info::str_views(out@) =~= prev.push(wv));
                }
            } else {
                proof {
                    assert(!keep(wv));
                }
            }
            i = i + 1;
            proof {
                assert(spec_ws_trimmed(fq@).subrange(0, i as int) =~= spec_ws_trimmed(
                    fq@,
                ).subrange(0, i - 1) + seq![wv]);
                Seq::filter_distributes_over_add(
                    spec_ws_trimmed(fq@).subrange(0, i - 1),
                    seq![wv],
                    keep,
                );
                crate::db::lemma_filter_singleton(wv, keep);
                assert(crate::window_info::str_views(out@) =~= spec_ws_trimmed(fq@).subrange(
                    0,
                    i as int,
                ).filter(keep));
            }
        }
        proof {
            assert(spec_ws_trimmed(fq@).subrange(0, spec_ws_trimmed(fq@).len() as int)
                =~= spec_ws_trimmed(fq@));
        }
        out
    }
}

/// An ASCII digit.
fn is_digit_char(c: char) -> (r: bool)
    ensures
        r == (48 <= (c as u32) && (c as u32) <= 57),
{
    let u = c as u32;
    48 <= u && u <= 57
}

/// Facts about the digit run: its characters are digits, and it is maximal.
proof fn lemma_digit_run(s: Seq<char>)
    ensures
        digit_run(s) <= s.len(),
        forall|j: int| 0 <= j < digit_run(s) ==> 48 <= (#[trigger] s[j]) as u32 <= 57,
        digit_run(s) < s.len() ==> !(48 <= (s[digit_run(s) as int]) as u32 <= 57),
    decreases s.len(),
{
    if s.len() != 0 && 48 <= (s[0] as u32) && (s[0] as u32) <= 57 {
        let rest = s.drop_first();
        lemma_digit_run(rest);
        assert forall|j: int| 0 <= j < digit_run(s) implies 48 <= (#[trigger] s[j]) as u32
            <= 57 by {
            if j > 0 {
                assert(48 <= (rest[j - 1]) as u32 <= 57);
                assert(rest[j - 1] == s[j]);
            }
        }
        if digit_run(s) < s.len() {
            let k = digit_run(s) as int;
            assert(!(48 <= (rest[k - 1]) as u32 <= 57));
            assert(rest[k - 1] == s[k]);
        }
    }
}

// ---------------------------------------------------------------------------
// Content hashing for context dedup
// ---------------------------------------------------------------------------

/// One step of the 64-bit FNV-1a fold.
pub open spec fn fnv_step(h: u64, c: char) -> u64 {
    (((h ^ (c as u64)) as int * 0x100000001b3) % 0x10000000000000000) as u64
}

/// The FNV-1a hash of a character sequence.
pub open spec fn fnv_hash(s: Seq<char>) -> u64
    decreases s.len(),
{
    if s.len() == 0 {
        0xcbf29ce484222325u64
    } else {
        fnv_step(fnv_hash(s.drop_last()), s.last())
    }
}

/// The normalized prefix used as a dedup key: the first 30 whitespace
/// words, joined by single spaces, folded to lower case.
pub open spec fn spec_normalized(s: Seq<char>) -> Seq<char> {
    let words = text::spec_ws_words(text::fold_chars(s));
    let take = if words.len() <= 30 {
        words
    } else {
        words.subrange(0, 30)
    };
    join_spaces(take, 0, Seq::<char>::empty())
}

/// Words joined by single spaces.
pub open spec fn join_spaces(words: Seq<Seq<char>>, i: int, acc: Seq<char>) -> Seq<char>
    decreases words.len() - i,
{
    if i < 0 || i >= words.len() {
        acc
    } else if acc.len() == 0 && i == 0 {
        join_spaces(words, i + 1, words[0])
    } else {
        join_spaces(words, i + 1, acc.push(' ') + words[i])
    }
}

/// The dedup key of a context entry.
pub open spec fn spec_content_hash(s: Seq<char>) -> u64 {
    fnv_hash(spec_normalized(s))
}

/// Hash of the first 30 whitespace-normalized, case-folded words; used to
/// collapse near-identical context entries.
pub fn simple_content_hash(content: &str) -> (r: u64)
    ensures
        r == spec_content_hash(content@),
{
    let chars = text::chars_of(content);
    let folded = text::fold_vec(&chars);
    let words = text::ws_words(&folded);
    let take: usize = if words.len() <= 30 {
        words.len()
    } else {
        30
    };
    let ghost wv = text::token_views(words@);
    let ghost taken = if wv.len() <= 30 { wv } else { wv.subrange(0, 30) };
    let mut joined: Vec<char> = Vec::new();
    let mut i: usize = 0;
    while i < take
        invariant
            wv.len() == words@.len(),
            take <= words@.len(),
            take == (if wv.len() <= 30 {
                wv.len() as int
            } else {
                30int
            }),
            taken == (if wv.len() <= 30 {
                wv
            } else {
                wv.subrange(0, 30)
            }),
            wv == text::token_views(words@),
            i <= take,
            i == 0 ==> joined@.len() == 0,
            join_spaces(taken, 0, Seq::<char>::empty()) == join_spaces(taken, i as int, joined@),
            i > 0 ==> joined@.len() > 0 || join_spaces(taken, 0, Seq::<char>::empty())
                == join_spaces(taken, i as int, joined@),
        decreases take - i,
    {
        proof {
            assert(text::token_views(words@)[i as int] == words@[i as int]@);
            assert(taken[i as int] == wv[i as int]);
        }
        if i == 0 && joined.len() == 0 {
            let ghost before = joined@;
            let mut q: usize = 0;
            while q < words[0].len()
                invariant
                    0 < words@.len(),
                    q <= words@[0]@.len(),
                    joined@ == words@[0]@.subrange(0, q as int),
                decreases words@[0]@.len() - q,
            {
                joined.push(words[0][q]);
                q = q + 1;
                proof {
                    assert(joined@ =~= words@[0]@.subrange(0, q as int));
                }
            }
            proof {
                assert(joined@ =~= wv[0]);
            }
        } else {
            joined.push(' ');
            let ghost before = joined@;
            let mut q: usize = 0;
            while q < words[i].len()
                invariant
                    i < words@.len(),
                    q <= words@[i as int]@.len(),
                    joined@ == before + words@[i as int]@.subrange(0, q as int),
                decreases words@[i as int]@.len() - q,
            {
                joined.push(words[i][q]);
                q = q + 1;
                proof {
                    assert(joined@ =~= before + words@[i as int]@.subrange(0, q as int));
                }
            }
            proof {
                assert(joined@ =~= before + wv[i as int]);
            }
        }
        i = i + 1;
    }
    proof {
        assert(spec_normalized(content@) == join_spaces(taken, take as int, joined@));
        assert(join_spaces(taken, take as int, joined@) == joined@);
    }
    // FNV-1a over the joined characters
    let mut h: u64 = 0xcbf29ce484222325u64;
    let mut k: usize = 0;
    while k < joined.len()
        invariant
            k <= joined@.len(),
            h == fnv_hash(joined@.subrange(0, k as int)),
        decreases joined@.len() - k,
    {
        let c = joined[k];
        h = (h ^ (c as u64)).wrapping_mul(0x100000001b3u64);
        k = k + 1;
        proof {
            assert(joined@.subrange(0, k as int).drop_last() =~= joined@.subrange(0, k - 1));
            assert(joined@.subrange(0, k as int).last() == joined@[k - 1]);
        }
    }
    proof {
        assert(joined@.subrange(0, joined@.len() as int) =~= joined@);
    }
    h
}

// ---------------------------------------------------------------------------
// Context assembly
// ---------------------------------------------------------------------------

/// Append the characters of a vector to a buffer.
fn put_chars(out: &mut Vec<char>, s: &Vec<char>)
    ensures
        final(out)@ == old(out)@ + s@,
{
    let mut i: usize = 0;
    while i < s.len()
        invariant
            i <= s@.len(),
            out@ == old(out)@ + s@.subrange(0, i as int),
        decreases s@.len() - i,
    {
        out.push(s[i]);
        i = i + 1;
        proof {
            assert(out@ =~= old(out)@ + s@.subrange(0, i as int));
        }
    }
    proof {
        assert(out@ =~= old(out)@ + s@);
    }
}

/// Append a string slice to a buffer.
fn put_str(out: &mut Vec<char>, s: &str)
    ensures
        final(out)@ == old(out)@ + s@,
{
    let v = text::chars_of(s);
    put_chars(out, &v);
}

/// A local wall-clock rendering of a timestamp, or its decimal form when
/// the timestamp lies outside the calendar range.
fn local_datetime_or_number(ts: i64) -> (r: String) {
    if 0 <= ts && ts <= time::MAX_TIMESTAMP {
        time::format_local_datetime(ts)
    } else {
        text::i64_to_string(ts)
    }
}

/// A local time-of-day rendering of a timestamp, or its decimal form.
fn local_time_or_number(ts: i64) -> (r: String) {
    if 0 <= ts && ts <= time::MAX_TIMESTAMP {
        time::format_local_time(ts)
    } else {
        text::i64_to_string(ts)
    }
}

/// A search-result row handed to the assembler:
/// `(id, timestamp, app_name, window_title, file_path, ocr_text)`.
pub type ResultEntry = (i64, i64, Option<String>, Option<String>, String, String);

/// A session row handed to the assembler:
/// `(id, app_name, window_title, timestamp, file_path, ocr_text)`.
pub type SessionEntry = (i64, Option<String>, Option<String>, i64, String, String);

/// An earlier entry has the same content hash.
pub open spec fn dup_earlier(s: Seq<ResultEntry>, i: int) -> bool {
    exists|j: int|
        0 <= j < i && spec_content_hash((#[trigger] s[j]).5@) == spec_content_hash(s[i].5@)
}

/// The indices of the entries that survive content dedup, in order.
pub open spec fn kept_idxs(s: Seq<ResultEntry>, n: int) -> Seq<int>
    decreases n,
{
    if n <= 0 {
        Seq::<int>::empty()
    } else if dup_earlier(s, n - 1) {
        kept_idxs(s, n - 1)
    } else {
        kept_idxs(s, n - 1).push(n - 1)
    }
}

/// The reference a result entry produces.
pub open spec fn ref_of_result(e: ResultEntry) -> ScreenshotReferenceV {
    ScreenshotReferenceV {
        id: e.0 as int,
        timestamp: e.1 as int,
        app_name: e.2.deep_view(),
        window_title: e.3.deep_view(),
        file_path: e.4@,
    }
}

/// The reference a session entry produces.
pub open spec fn ref_of_session(e: SessionEntry) -> ScreenshotReferenceV {
    ScreenshotReferenceV {
        id: e.0 as int,
        timestamp: e.3 as int,
        app_name: e.1.deep_view(),
        window_title: e.2.deep_view(),
        file_path: e.4@,
    }
}

/// Views of a reference list.
pub open spec fn ref_views(s: Seq<ScreenshotReference>) -> Seq<ScreenshotReferenceV> {
    s.map(|i: int, r: ScreenshotReference| r@)
}

/// The heading of a timeline context: the entry count in parentheses,
/// clamped to the signed 64-bit range.
pub open spec fn timeline_header(n: int) -> Seq<char> {
    "## Activity Timeline ("@ + text::dec_string(
        if n > i64::MAX as int {
            i64::MAX as int
        } else {
            n
        },
    ) + " entries)\n\n"@
}

/// The marker a rendered session line carries for its screenshot id.
pub open spec fn ref_marker(id: int) -> Seq<char> {
    "[REF:"@ + text::dec_string(id) + "] "@
}

/// The marker a rendered timeline line carries for its window title.
pub open spec fn title_marker(title: Seq<char>) -> Seq<char> {
    "] "@ + title + ": "@
}

/// One app group as it is written into the context: the app's label in
/// bold, then the group's lines.
pub open spec fn group_render(app: Option<Seq<char>>, g: Seq<char>) -> Seq<char> {
    "**"@ + (match app {
        Some(a) => a,
        None => "Unknown"@,
    }) + "**:\n  - "@ + g + "\n\n"@
}

/// One line of the app-usage breakdown.
pub open spec fn stat_line(s: (String, i64, usize)) -> Seq<char> {
    "- **"@ + s.0@ + "**: "@ + text::dec_string(s.1 as int) + " minutes ("@ + text::dec_string(
        if s.2 as int > i64::MAX as int {
            i64::MAX as int
        } else {
            s.2 as int
        },
    ) + " sessions)\n"@
}

/// The first `n` lines of the app-usage breakdown.
pub open spec fn stats_lines(stats: Seq<(String, i64, usize)>, n: int) -> Seq<char>
    decreases n,
{
    if n <= 0 {
        Seq::<char>::empty()
    } else {
        stats_lines(stats, n - 1) + stat_line(stats[n - 1])
    }
}

/// The total of the positive per-app minutes over the first `n` entries,
/// leaving out any addition that would overflow.
pub open spec fn tracked_total(stats: Seq<(String, i64, usize)>, n: int) -> int
    decreases n,
{
    if n <= 0 {
        0
    } else {
        let t = tracked_total(stats, n - 1);
        let m = stats[n - 1].1 as int;
        if m > 0 && t <= i64::MAX as int - m {
            t + m
        } else {
            t
        }
    }
}

/// The app-usage breakdown block: a heading, one line per app, and the
/// total.
pub open spec fn stats_block(stats: Seq<(String, i64, usize)>) -> Seq<char> {
    "## App Usage Breakdown\n\n"@ + stats_lines(stats, stats.len() as int)
        + "\n**Total tracked time**: "@ + text::dec_string(
        tracked_total(stats, stats.len() as int),
    ) + " minutes\n\n"@
}

/// Builds prompt context and screenshot references from stored records.
pub struct ContextAssembler;

impl ContextAssembler {
    /// Context from search results: entries whose normalized content
    /// repeats an earlier entry are collapsed, every surviving entry is
    /// rendered into the context with its id and a snippet, and the
    /// references list holds exactly the surviving entries in order.
    pub fn from_search_results(results: &Vec<ResultEntry>) -> (r: (String, Vec<ScreenshotReference>))
        ensures
            ({
                let kept = kept_idxs(results@, results@.len() as int);
                &&& ref_views(r.1@).len() == kept.len()
                &&& forall|k: int|
                    0 <= k < kept.len() ==> #[trigger] ref_views(r.1@)[k] == ref_of_result(
                        results@[kept[k]],
                    )
                &&& r.0@.len() >= "## Relevant Screenshots (showing "@.len()
                &&& r.0@.subrange(0, "## Relevant Screenshots (showing "@.len() as int)
                    == "## Relevant Screenshots (showing "@
            }),
    {
        let n = results.len();
        // content hashes of every entry
        let mut hashes: Vec<u64> = Vec::new();
        let mut i: usize = 0;
        while i < n
            invariant
                n == results@.len(),
                i <= n,
                hashes@.len() == i,
                forall|j: int|
                    0 <= j < i ==> #[trigger] hashes@[j] == spec_content_hash(results@[j].5@),
            decreases n - i,
        {
            let h = simple_content_hash(results[i].5.as_str());
            hashes.push(h);
            i = i + 1;
        }
        let mut refs: Vec<ScreenshotReference> = Vec::new();
        let mut body: Vec<char> = Vec::new();
        let mut kept_count: usize = 0;
        let mut i2: usize = 0;
        proof {
            assert(ref_views(refs@) =~= Seq::<ScreenshotReferenceV>::empty());
        }
        while i2 < n
            invariant
                n == results@.len(),
                i2 <= n,
                hashes@.len() == n,
                forall|j: int|
                    0 <= j < n ==> #[trigger] hashes@[j] == spec_content_hash(results@[j].5@),
                ref_views(refs@).len() == kept_idxs(results@, i2 as int).len(),
                kept_count == kept_idxs(results@, i2 as int).len(),
                kept_count <= i2,
                forall|k: int|
                    0 <= k < kept_idxs(results@, i2 as int).len() ==> #[trigger] ref_views(
                        refs@,
                    )[k] == ref_of_result(results@[kept_idxs(results@, i2 as int)[k]]),
            decreases n - i2,
        {
            // is an earlier entry's content the same?
            let mut dup: bool = false;
            let mut j: usize = 0;
            while j < i2
                invariant
                    i2 < n,
                    n == results@.len(),
                    hashes@.len() == n,
                    forall|p: int|
                        0 <= p < n ==> #[trigger] hashes@[p] == spec_content_hash(results@[p].5@),
                    j <= i2,
                    dup ==> dup_earlier(results@, i2 as int),
                    !dup ==> forall|p: int|
                        0 <= p < j ==> spec_content_hash((#[trigger] results@[p]).5@)
                            != spec_content_hash(results@[i2 as int].5@),
                decreases i2 - j,
            {
                if hashes[j] == hashes[i2] {
                    dup = true;
                    proof {
                        assert(spec_content_hash(results@[j as int].5@) == spec_content_hash(
                            results@[i2 as int].5@,
                        ));
                    }
                    j = i2;
                } else {
                    j = j + 1;
                }
            }
            if !dup {
                let e = &results[i2];
                let time_str = local_datetime_or_number(e.1);
                put_str(&mut body, "### [Screenshot ID:");
                let id_str = text::i64_to_string(e.0);
                put_str(&mut body, id_str.as_str());
                put_str(&mut body, "] \u{2014} ");
                put_str(&mut body, time_str.as_str());
                put_str(&mut body, "\nApp: ");
                match &e.2 {
                    Some(a) => put_str(&mut body, a.as_str()),
                    None => put_str(&mut body, "Unknown"),
                }
                put_str(&mut body, " | Window: ");
                match &e.3 {
                    Some(t) => put_str(&mut body, t.as_str()),
                    None => put_str(&mut body, "Untitled"),
                }
                put_str(&mut body, "\nContent: ");
                // snippet of at most 1000 characters
                let text_chars = text::chars_of(e.5.as_str());
                let cap: usize = if text_chars.len() <= 1000 {
                    text_chars.len()
                } else {
                    1000
                };
                let mut q: usize = 0;
                while q < cap
                    invariant
                        cap <= text_chars@.len(),
                        q <= cap,
                    decreases cap - q,
                {
                    body.push(text_chars[q]);
                    q = q + 1;
                }
                put_str(&mut body, "\n\n");
                let ghost prev_refs = ref_views(refs@);
                refs.push(
                    ScreenshotReference {
                        id: e.0,
                        timestamp: e.1,
                        app_name: crate::schema::clone_opt_string(&e.2),
                        window_title: crate::schema::clone_opt_string(&e.3),
                        file_path: e.4.clone(),
                    },
                );
                kept_count = kept_count + 1;
                proof {
                    assert(!dup_earlier(results@, i2 as int));
                    assert(kept_idxs(results@, i2 + 1) =~= kept_idxs(results@, i2 as int).push(
                        i2 as int,
                    ));
                    assert(ref_views(refs@) =~= prev_refs.push(
                        ref_of_result(results@[i2 as int]),
                    ));
                }
            } else {
                proof {
                    assert(kept_idxs(results@, i2 + 1) =~= kept_idxs(results@, i2 as int));
                }
            }
            i2 = i2 + 1;
        }
        // assemble the header and body
        let mut out: Vec<char> = Vec::new();
        put_str(&mut out, "## Relevant Screenshots (showing ");
        let ghost header = out@;
        let shown: i64 = if kept_count as u64 > i64::MAX as u64 {
            i64::MAX
        } else {
            kept_count as i64
        };
        let count_str = text::i64_to_string(shown);
        put_str(&mut out, count_str.as_str());
        put_str(&mut out, " results)\n\n");
        put_chars(&mut out, &body);
        proof {
            assert(out@.subrange(0, header.len() as int) =~= header);
        }
        (text::string_from_chars(&out), refs)
    }

    /// Context from time-ordered sessions, grouped by app; produces no
    /// references. The context opens with the timeline heading, and every
    /// titled entry with nonblank text leaves its title marker in it.
    pub fn from_sessions(sessions: &Vec<(Option<String>, Option<String>, i64, String)>) -> (r: (
        String,
        Vec<ScreenshotReference>,
    ))
        ensures
            r.1@.len() == 0,
            r.0@.len() >= timeline_header(sessions@.len() as int).len(),
            r.0@.subrange(0, timeline_header(sessions@.len() as int).len() as int)
                == timeline_header(sessions@.len() as int),
            forall|k: int|
                0 <= k < sessions@.len() && (#[trigger] sessions@[k]).1 is Some && text::spec_trim(
                    sessions@[k].3@,
                ).len() > 0 ==> text::has_sub(r.0@, title_marker(sessions@[k].1.unwrap()@)),
    {
        let ghost hdr = timeline_header(sessions@.len() as int);
        let mut out: Vec<char> = Vec::new();
        put_str(&mut out, "## Activity Timeline (");
        let n_entries: i64 = if sessions.len() as u64 > i64::MAX as u64 {
            i64::MAX
        } else {
            sessions.len() as i64
        };
        let count_str = text::i64_to_string(n_entries);
        put_str(&mut out, count_str.as_str());
        put_str(&mut out, " entries)\n\n");
        proof {
            assert(out@ =~= hdr);
            assert(out@.subrange(0, hdr.len() as int) =~= hdr);
        }
        let mut current_app: Option<String> = None;
        let mut group: Vec<char> = Vec::new();
        let mut i: usize = 0;
        while i < sessions.len()
            invariant
                i <= sessions@.len(),
                hdr == timeline_header(sessions@.len() as int),
                out@.len() >= hdr.len(),
                out@.subrange(0, hdr.len() as int) == hdr,
                forall|k: int|
                    0 <= k < i && (#[trigger] sessions@[k]).1 is Some && text::spec_trim(
                        sessions@[k].3@,
                    ).len() > 0 ==> text::has_sub(
                        out@,
                        title_marker(sessions@[k].1.unwrap()@),
                    ) || text::has_sub(group@, title_marker(sessions@[k].1.unwrap()@)),
            decreases sessions@.len() - i,
        {
            let e = &sessions[i];
            let app_label: String = match &e.0 {
                Some(a) => a.clone(),
                None => String::from_str("Unknown"),
            };
            let switch = match &current_app {
                Some(cur) => !text::str_eq(cur.as_str(), app_label.as_str()),
                None => true,
            };
            if switch {
                if group.len() > 0 {
                    let ghost out0 = out@;
                    let ghost group0 = group@;
                    let _ = flush_group_counted(&mut out, &current_app, &group);
                    proof {
                        assert(out@.subrange(0, hdr.len() as int) =~= out0.subrange(
                            0,
                            hdr.len() as int,
                        ));
                        assert forall|k: int|
                            0 <= k < i && (#[trigger] sessions@[k]).1 is Some && text::spec_trim(
                                sessions@[k].3@,
                            ).len() > 0 implies text::has_sub(
                            out@,
                            title_marker(sessions@[k].1.unwrap()@),
                        ) by {
                            let m = title_marker(sessions@[k].1.unwrap()@);
                            if text::has_sub(out0, m) {
                                text::lemma_has_sub_extend(
                                    out0,
                                    group_render(current_app.deep_view(), group0),
                                    m,
                                );
                            } else {
                                let deco = "**"@ + (match current_app.deep_view() {
                                    Some(a) => a,
                                    None => "Unknown"@,
                                }) + "**:\n  - "@;
                                text::lemma_has_sub_prepend(deco, group0, m);
                                text::lemma_has_sub_extend(deco + group0, "\n\n"@, m);
                                assert(group_render(current_app.deep_view(), group0) =~= (deco
                                    + group0) + "\n\n"@);
                                text::lemma_has_sub_prepend(
                                    out0,
                                    group_render(current_app.deep_view(), group0),
                                    m,
                                );
                            }
                        }
                    }
                    group = Vec::new();
                }
                current_app = Some(app_label);
            }
            let time_str = local_time_or_number(e.2);
            let text_chars = text::chars_of(e.3.as_str());
            let cap: usize = if text_chars.len() <= 400 {
                text_chars.len()
            } else {
                400
            };
            let trimmed = text::trim_chars(&text_chars);
            if trimmed.len() > 0 {
                // build the whole line, then append it to the group
                let mut line: Vec<char> = Vec::new();
                put_str(&mut line, "[");
                put_str(&mut line, time_str.as_str());
                let ghost pre_marker = line@;
                put_str(&mut line, "] ");
                match &e.1 {
                    Some(t) => put_str(&mut line, t.as_str()),
                    None => {},
                }
                put_str(&mut line, ": ");
                let ghost line3 = line@;
                proof {
                    if sessions@[i as int].1 is Some {
                        let m = title_marker(sessions@[i as int].1.unwrap()@);
                        assert(line@ =~= pre_marker + m);
                        assert(text::has_sub(m, m)) by {
                            assert(m.subrange(0, 0 + m.len() as int) =~= m);
                        }
                        text::lemma_has_sub_prepend(pre_marker, m, m);
                    }
                }
                let mut q: usize = 0;
                while q < cap
                    invariant
                        cap <= text_chars@.len(),
                        q <= cap,
                        sessions@[i as int].1 is Some ==> text::has_sub(
                            line@,
                            title_marker(sessions@[i as int].1.unwrap()@),
                        ),
                        0 <= i < sessions@.len(),
                    decreases cap - q,
                {
                    let ghost lp = line@;
                    line.push(text_chars[q]);
                    proof {
                        if sessions@[i as int].1 is Some {
                            text::lemma_has_sub_extend(
                                lp,
                                seq![text_chars@[q as int]],
                                title_marker(sessions@[i as int].1.unwrap()@),
                            );
                            assert(line@ =~= lp + seq![text_chars@[q as int]]);
                        }
                    }
                    q = q + 1;
                }
                let ghost group_before = group@;
                put_chars(&mut group, &line);
                proof {
                    if sessions@[i as int].1 is Some {
                        text::lemma_has_sub_prepend(
                            group_before,
                            line@,
                            title_marker(sessions@[i as int].1.unwrap()@),
                        );
                    }
                    assert forall|k: int|
                        0 <= k < i && (#[trigger] sessions@[k]).1 is Some && text::spec_trim(
                            sessions@[k].3@,
                        ).len() > 0 implies text::has_sub(
                        out@,
                        title_marker(sessions@[k].1.unwrap()@),
                    ) || text::has_sub(group@, title_marker(sessions@[k].1.unwrap()@)) by {
                        let m = title_marker(sessions@[k].1.unwrap()@);
                        if text::has_sub(group_before, m) {
                            text::lemma_has_sub_extend(group_before, line@, m);
                        }
                    }
                }
            }
            i = i + 1;
        }
        if group.len() > 0 {
            let ghost out0 = out@;
            let ghost group0 = group@;
            let _ = flush_group_counted(&mut out, &current_app, &group);
            proof {
                assert(out@.subrange(0, hdr.len() as int) =~= out0.subrange(0, hdr.len() as int));
                assert forall|k: int|
                    0 <= k < i && (#[trigger] sessions@[k]).1 is Some && text::spec_trim(
                        sessions@[k].3@,
                    ).len() > 0 implies text::has_sub(
                    out@,
                    title_marker(sessions@[k].1.unwrap()@),
                ) by {
                    let m = title_marker(sessions@[k].1.unwrap()@);
                    if text::has_sub(out0, m) {
                        text::lemma_has_sub_extend(
                            out0,
                            group_render(current_app.deep_view(), group0),
                            m,
                        );
                    } else {
                        let deco = "**"@ + (match current_app.deep_view() {
                            Some(a) => a,
                            None => "Unknown"@,
                        }) + "**:\n  - "@;
                        text::lemma_has_sub_prepend(deco, group0, m);
                        text::lemma_has_sub_extend(deco + group0, "\n\n"@, m);
                        assert(group_render(current_app.deep_view(), group0) =~= (deco + group0)
                            + "\n\n"@);
                        text::lemma_has_sub_prepend(
                            out0,
                            group_render(current_app.deep_view(), group0),
                            m,
                        );
                    }
                }
            }
        } else {
            proof {
                reveal_strlit("] ");
                assert forall|k: int|
                    0 <= k < i && (#[trigger] sessions@[k]).1 is Some && text::spec_trim(
                        sessions@[k].3@,
                    ).len() > 0 implies text::has_sub(
                    out@,
                    title_marker(sessions@[k].1.unwrap()@),
                ) by {
                    let m = title_marker(sessions@[k].1.unwrap()@);
                    assert(m.len() >= "] "@.len());
                    assert("] "@.len() == 2);
                    assert(!text::has_sub(group@, m));
                }
            }
        }
        let refs: Vec<ScreenshotReference> = Vec::new();
        (text::string_from_chars(&out), refs)
    }

    /// Context from sessions that carry screenshot ids, with references for
    /// the answer to point back at; uses the default budget and reference
    /// cap.
    pub fn from_sessions_with_refs(sessions: &Vec<SessionEntry>) -> (r: (
        String,
        Vec<ScreenshotReference>,
    ))
        ensures
            r.1@.len() <= 20,
            r.1@.len() <= sessions@.len(),
            forall|k: int|
                0 <= k < r.1@.len() ==> #[trigger] ref_views(r.1@)[k] == ref_of_session(
                    sessions@[k],
                ),
            r.1@.len() < sessions@.len() && r.1@.len() < 20 ==> 16384 < r.0@.len() + 200,
            r.0@.len() >= timeline_header(sessions@.len() as int).len(),
            r.0@.subrange(0, timeline_header(sessions@.len() as int).len() as int)
                == timeline_header(sessions@.len() as int),
            forall|k: int|
                0 <= k < r.1@.len() && text::spec_trim((#[trigger] sessions@[k]).5@).len() > 0
                    ==> text::has_sub(r.0@, ref_marker(sessions@[k].0 as int)),
    {
        Self::from_sessions_with_refs_budgeted(sessions, 4096, 20)
    }

    /// Token-budgeted session context: entries are rendered in order until
    /// the budget runs out (four characters approximate one token), and the
    /// references are the first rendered entries, at most `max_refs` of
    /// them, in order. The context opens with the timeline heading; every
    /// referenced entry with nonblank text leaves its id marker in the
    /// context; and the references fall short of the cap only once the
    /// rendered context has all but filled the character budget.
    pub fn from_sessions_with_refs_budgeted(
        sessions: &Vec<SessionEntry>,
        max_context_tokens: usize,
        max_refs: usize,
    ) -> (r: (String, Vec<ScreenshotReference>))
        ensures
            r.1@.len() <= max_refs,
            r.1@.len() <= sessions@.len(),
            forall|k: int|
                0 <= k < r.1@.len() ==> #[trigger] ref_views(r.1@)[k] == ref_of_session(
                    sessions@[k],
                ),
            r.1@.len() < sessions@.len() && r.1@.len() < max_refs ==> 4 * max_context_tokens
                < r.0@.len() + 200,
            r.0@.len() >= timeline_header(sessions@.len() as int).len(),
            r.0@.subrange(0, timeline_header(sessions@.len() as int).len() as int)
                == timeline_header(sessions@.len() as int),
            forall|k: int|
                0 <= k < r.1@.len() && text::spec_trim((#[trigger] sessions@[k]).5@).len() > 0
                    ==> text::has_sub(r.0@, ref_marker(sessions@[k].0 as int)),
    {
        let ghost hdr = timeline_header(sessions@.len() as int);
        let mut out: Vec<char> = Vec::new();
        put_str(&mut out, "## Activity Timeline (");
        let n_entries: i64 = if sessions.len() as u64 > i64::MAX as u64 {
            i64::MAX
        } else {
            sessions.len() as i64
        };
        let count_str = text::i64_to_string(n_entries);
        put_str(&mut out, count_str.as_str());
        put_str(&mut out, " entries)\n\n");
        proof {
            assert(out@ =~= hdr);
        }
        let mut budget: usize = if max_context_tokens > out.len() / 4 {
            max_context_tokens - out.len() / 4
        } else {
            0
        };
        let mut refs: Vec<ScreenshotReference> = Vec::new();
        let mut current_app: Option<String> = None;
        let mut group: Vec<char> = Vec::new();
        let mut i: usize = 0;
        let mut cut: bool = false;
        proof {
            assert(ref_views(refs@) =~= Seq::<ScreenshotReferenceV>::empty());
            assert(out@.subrange(0, hdr.len() as int) =~= hdr);
        }
        while i < sessions.len() && !cut
            invariant
                i <= sessions@.len(),
                hdr == timeline_header(sessions@.len() as int),
                out@.len() >= hdr.len(),
                out@.subrange(0, hdr.len() as int) == hdr,
                4 * budget + out@.len() >= 4 * max_context_tokens,
                cut ==> 4 * max_context_tokens < out@.len() + 200,
                refs@.len() <= max_refs,
                refs@.len() <= i,
                forall|k: int|
                    0 <= k < refs@.len() ==> #[trigger] ref_views(refs@)[k] == ref_of_session(
                        sessions@[k],
                    ),
                refs@.len() == (if i <= max_refs {
                    i as int
                } else {
                    max_refs as int
                }),
                forall|k: int|
                    0 <= k < i && text::spec_trim((#[trigger] sessions@[k]).5@).len() > 0
                        ==> text::has_sub(out@, ref_marker(sessions@[k].0 as int)) || text::has_sub(
                        group@,
                        ref_marker(sessions@[k].0 as int),
                    ),
            decreases sessions@.len() - i + (if cut {
                0int
            } else {
                1int
            }),
        {
            if budget < 50 {
                // out of budget: stop rendering
                cut = true;
            } else {
                let e = &sessions[i];
                let app_label: String = match &e.1 {
                    Some(a) => a.clone(),
                    None => String::from_str("Unknown"),
                };
                let switch = match &current_app {
                    Some(cur) => !text::str_eq(cur.as_str(), app_label.as_str()),
                    None => true,
                };
                if switch {
                    if group.len() > 0 {
                        let ghost out0 = out@;
                        let ghost group0 = group@;
                        let spent = flush_group_counted(&mut out, &current_app, &group);
                        proof {
                            assert(out@.subrange(0, hdr.len() as int) =~= out0.subrange(
                                0,
                                hdr.len() as int,
                            ));
                            assert forall|k: int|
                                0 <= k < i && text::spec_trim(
                                    (#[trigger] sessions@[k]).5@,
                                ).len() > 0 implies text::has_sub(
                                out@,
                                ref_marker(sessions@[k].0 as int),
                            ) by {
                                let m = ref_marker(sessions@[k].0 as int);
                                if text::has_sub(out0, m) {
                                    text::lemma_has_sub_extend(
                                        out0,
                                        group_render(current_app.deep_view(), group0),
                                        m,
                                    );
                                } else {
                                    let deco = "**"@ + (match current_app.deep_view() {
                                        Some(a) => a,
                                        None => "Unknown"@,
                                    }) + "**:\n  - "@;
                                    text::lemma_has_sub_prepend(deco, group0, m);
                                    text::lemma_has_sub_extend(deco + group0, "\n\n"@, m);
                                    assert(group_render(current_app.deep_view(), group0) =~= (deco
                                        + group0) + "\n\n"@);
                                    text::lemma_has_sub_prepend(
                                        out0,
                                        group_render(current_app.deep_view(), group0),
                                        m,
                                    );
                                }
                            }
                        }
                        budget = if budget > spent / 4 {
                            budget - spent / 4
                        } else {
                            0
                        };
                        group = Vec::new();
                    }
                    current_app = Some(app_label);
                }
                let time_str = local_time_or_number(e.3);
                let text_chars = text::chars_of(e.5.as_str());
                let snippet_cap: usize = if budget <= 100 {
                    budget * 4
                } else {
                    400
                };
                let cap: usize = if text_chars.len() <= snippet_cap {
                    text_chars.len()
                } else {
                    snippet_cap
                };
                let trimmed = text::trim_chars(&text_chars);
                if trimmed.len() > 0 {
                    // build the whole line, then append it to the group
                    let mut line: Vec<char> = Vec::new();
                    put_str(&mut line, "[");
                    put_str(&mut line, time_str.as_str());
                    put_str(&mut line, "] ");
                    let ghost pre_marker = line@;
                    put_str(&mut line, "[REF:");
                    let id_str = text::i64_to_string(e.0);
                    put_str(&mut line, id_str.as_str());
                    put_str(&mut line, "] ");
                    let ghost marker = ref_marker(sessions@[i as int].0 as int);
                    proof {
                        assert(line@ =~= pre_marker + marker);
                        assert(text::has_sub(marker, marker)) by {
                            assert(marker.subrange(0, 0 + marker.len() as int) =~= marker);
                        }
                        text::lemma_has_sub_prepend(pre_marker, marker, marker);
                    }
                    let ghost line1 = line@;
                    match &e.2 {
                        Some(t) => put_str(&mut line, t.as_str()),
                        None => {},
                    }
                    proof {
                        if line@ != line1 {
                            text::lemma_has_sub_extend(line1, line@.skip(line1.len() as int), marker);
                            assert(line@ =~= line1 + line@.skip(line1.len() as int));
                        }
                    }
                    let ghost line2 = line@;
                    put_str(&mut line, ": ");
                    proof {
                        text::lemma_has_sub_extend(line2, ": "@, marker);
                    }
                    let ghost line3 = line@;
                    let mut q: usize = 0;
                    while q < cap
                        invariant
                            cap <= text_chars@.len(),
                            q <= cap,
                            text::has_sub(line@, marker),
                        decreases cap - q,
                    {
                        let ghost lp = line@;
                        line.push(text_chars[q]);
                        proof {
                            text::lemma_has_sub_extend(lp, seq![text_chars@[q as int]], marker);
                            assert(line@ =~= lp + seq![text_chars@[q as int]]);
                        }
                        q = q + 1;
                    }
                    let ghost group_before = group@;
                    put_chars(&mut group, &line);
                    proof {
                        text::lemma_has_sub_prepend(group_before, line@, marker);
                        assert forall|k: int|
                            0 <= k < i && text::spec_trim((#[trigger] sessions@[k]).5@).len() > 0
                                implies text::has_sub(
                            out@,
                            ref_marker(sessions@[k].0 as int),
                        ) || text::has_sub(group@, ref_marker(sessions@[k].0 as int)) by {
                            let m = ref_marker(sessions@[k].0 as int);
                            if text::has_sub(group_before, m) {
                                text::lemma_has_sub_extend(group_before, line@, m);
                            }
                        }
                    }
                }
                if refs.len() < max_refs {
                    let ghost prev_refs = ref_views(refs@);
                    refs.push(
                        ScreenshotReference {
                            id: e.0,
                            timestamp: e.3,
                            app_name: crate::schema::clone_opt_string(&e.1),
                            window_title: crate::schema::clone_opt_string(&e.2),
                            file_path: e.4.clone(),
                        },
                    );
                    proof {
                        assert(ref_views(refs@) =~= prev_refs.push(
                            ref_of_session(sessions@[i as int]),
                        ));
                    }
                }
                i = i + 1;
            }
        }
        if group.len() > 0 {
            let ghost out0 = out@;
            let ghost group0 = group@;
            let _ = flush_group_counted(&mut out, &current_app, &group);
            proof {
                assert(out@.subrange(0, hdr.len() as int) =~= out0.subrange(0, hdr.len() as int));
                assert forall|k: int|
                    0 <= k < i && text::spec_trim((#[trigger] sessions@[k]).5@).len() > 0 implies
                    text::has_sub(out@, ref_marker(sessions@[k].0 as int)) by {
                    let m = ref_marker(sessions@[k].0 as int);
                    if text::has_sub(out0, m) {
                        text::lemma_has_sub_extend(
                            out0,
                            group_render(current_app.deep_view(), group0),
                            m,
                        );
                    } else {
                        let deco = "**"@ + (match current_app.deep_view() {
                            Some(a) => a,
                            None => "Unknown"@,
                        }) + "**:\n  - "@;
                        text::lemma_has_sub_prepend(deco, group0, m);
                        text::lemma_has_sub_extend(deco + group0, "\n\n"@, m);
                        assert(group_render(current_app.deep_view(), group0) =~= (deco + group0)
                            + "\n\n"@);
                        text::lemma_has_sub_prepend(
                            out0,
                            group_render(current_app.deep_view(), group0),
                            m,
                        );
                    }
                }
            }
        } else {
            proof {
                reveal_strlit("[REF:");
                assert forall|k: int|
                    0 <= k < i && text::spec_trim((#[trigger] sessions@[k]).5@).len() > 0 implies
                    text::has_sub(out@, ref_marker(sessions@[k].0 as int)) by {
                    let m = ref_marker(sessions@[k].0 as int);
                    assert(m.len() >= "[REF:"@.len());
                    assert(!text::has_sub(group@, m));
                }
            }
        }
        (text::string_from_chars(&out), refs)
    }

    /// Context for productivity queries: the per-app minutes breakdown —
    /// rendered exactly, one line per app, with the total — followed by
    /// session detail under the remaining budget, with references from the
    /// sessions.
    pub fn from_app_stats(
        stats: &Vec<(String, i64, usize)>,
        sessions: &Vec<SessionEntry>,
        max_context_tokens: usize,
    ) -> (r: (String, Vec<ScreenshotReference>))
        ensures
            r.1@.len() <= 20,
            r.1@.len() <= sessions@.len(),
            forall|k: int|
                0 <= k < r.1@.len() ==> #[trigger] ref_views(r.1@)[k] == ref_of_session(
                    sessions@[k],
                ),
            r.1@.len() < sessions@.len() && r.1@.len() < 20 ==> 4 * max_context_tokens < r.0@.len()
                + 200,
            r.0@.len() >= stats_block(stats@).len(),
            r.0@.subrange(0, stats_block(stats@).len() as int) == stats_block(stats@),
            forall|k: int|
                0 <= k < r.1@.len() && text::spec_trim((#[trigger] sessions@[k]).5@).len() > 0
                    ==> text::has_sub(r.0@, ref_marker(sessions@[k].0 as int)),
    {
        let mut out: Vec<char> = Vec::new();
        put_str(&mut out, "## App Usage Breakdown\n\n");
        let mut total: i64 = 0;
        let mut i: usize = 0;
        proof {
            assert(out@ =~= "## App Usage Breakdown\n\n"@ + stats_lines(stats@, 0));
        }
        while i < stats.len()
            invariant
                i <= stats@.len(),
                out@ == "## App Usage Breakdown\n\n"@ + stats_lines(stats@, i as int),
                total == tracked_total(stats@, i as int),
            decreases stats@.len() - i,
        {
            let ghost pre = out@;
            let s = &stats[i];
            put_str(&mut out, "- **");
            put_str(&mut out, s.0.as_str());
            put_str(&mut out, "**: ");
            let m_str = text::i64_to_string(s.1);
            put_str(&mut out, m_str.as_str());
            put_str(&mut out, " minutes (");
            let c: i64 = if s.2 as u64 > i64::MAX as u64 {
                i64::MAX
            } else {
                s.2 as i64
            };
            let c_str = text::i64_to_string(c);
            put_str(&mut out, c_str.as_str());
            put_str(&mut out, " sessions)\n");
            if s.1 > 0 && total <= i64::MAX - s.1 {
                total = total + s.1;
            }
            i = i + 1;
            proof {
                assert(out@ =~= pre + stat_line(stats@[i - 1]));
                assert(out@ =~= "## App Usage Breakdown\n\n"@ + stats_lines(stats@, i as int));
            }
        }
        put_str(&mut out, "\n**Total tracked time**: ");
        let t_str = text::i64_to_string(total);
        put_str(&mut out, t_str.as_str());
        put_str(&mut out, " minutes\n\n");
        let ghost block = stats_block(stats@);
        proof {
            assert(out@ =~= block);
        }
        let used = out.len() / 4;
        let remaining: usize = if max_context_tokens > used {
            max_context_tokens - used
        } else {
            0
        };
        let (detail, refs) = Self::from_sessions_with_refs_budgeted(sessions, remaining, 20);
        let detail_chars = text::chars_of(detail.as_str());
        let ghost before_detail = out@;
        put_chars(&mut out, &detail_chars);
        proof {
            assert(out@.subrange(0, block.len() as int) =~= block);
            assert forall|k: int|
                0 <= k < refs@.len() && text::spec_trim((#[trigger] sessions@[k]).5@).len() > 0
                    implies text::has_sub(out@, ref_marker(sessions@[k].0 as int)) by {
                text::lemma_has_sub_prepend(
                    before_detail,
                    detail@,
                    ref_marker(sessions@[k].0 as int),
                );
            }
            if refs@.len() < sessions@.len() && refs@.len() < 20 {
                // the budget clause chains through the remaining budget
                assert(4 * (block.len() as int / 4) <= block.len() as int);
                assert(4 * max_context_tokens < out@.len() + 200);
            }
        }
        (text::string_from_chars(&out), refs)
    }
}

/// Write one app group into the context — the app's label in bold, then one
/// bullet per line of the group — returning how many characters were
/// written.
fn flush_group_counted(out: &mut Vec<char>, current_app: &Option<String>, group: &Vec<char>) -> (r:
    usize)
    ensures
        final(out)@ == old(out)@ + group_render(current_app.deep_view(), group@),
        final(out)@.len() == old(out)@.len() + r,
{
    let before = out.len();
    put_str(out, "**");
    match current_app {
        Some(a) => put_str(out, a.as_str()),
        None => put_str(out, "Unknown"),
    }
    put_str(out, "**:\n  - ");
    put_chars(out, group);
    put_str(out, "\n\n");
    proof {
        assert(out@ =~= old(out)@ + group_render(current_app.deep_view(), group@));
    }
    let after = out.len();
    after - before
}

} // verus!
