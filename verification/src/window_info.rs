//! Active-window metadata and the privacy exclusion rules.
//!
//! A window is excluded when its app name or window class equals an entry
//! of the excluded-apps list, or its title contains an excluded pattern;
//! all comparisons fold ASCII case.

use vstd::prelude::*;
use crate::text;

verus! {

/// Metadata about the currently active window.
#[derive(Debug, Clone)]
pub struct WindowInfo {
    pub app_name: Option<String>,
    pub window_title: Option<String>,
    pub window_class: Option<String>,
}

/// The mathematical value of a window-info record.
#[verifier::ext_equal]
pub ghost struct WindowInfoV {
    pub app_name: Option<Seq<char>>,
    pub window_title: Option<Seq<char>>,
    pub window_class: Option<Seq<char>>,
}

impl View for WindowInfo {
    type V = WindowInfoV;

    open spec fn view(&self) -> WindowInfoV {
        WindowInfoV {
            app_name: self.app_name.deep_view(),
            window_title: self.window_title.deep_view(),
            window_class: self.window_class.deep_view(),
        }
    }
}

impl Default for WindowInfo {
    /// The empty record: no window known.
    fn default() -> (r: WindowInfo)
        ensures
            r@.app_name is None,
            r@.window_title is None,
            r@.window_class is None,
    {
        WindowInfo { app_name: None, window_title: None, window_class: None }
    }
}

/// The views of a list of strings.
pub open spec fn str_views(s: Seq<String>) -> Seq<Seq<char>> {
    s.map(|i: int, x: String| x@)
}

/// An entry of the excluded-apps list hits this window: it equals the app
/// name or the window class, ignoring ASCII case.
pub open spec fn app_entry_hits(info: WindowInfoV, entry: Seq<char>) -> bool {
    ||| match info.app_name {
        Some(a) => text::fold_chars(a) == text::fold_chars(entry),
        None => false,
    }
    ||| match info.window_class {
        Some(c) => text::fold_chars(c) == text::fold_chars(entry),
        None => false,
    }
}

/// An excluded-title pattern hits this window: the title contains it,
/// ignoring ASCII case.
pub open spec fn title_pattern_hits(info: WindowInfoV, pattern: Seq<char>) -> bool {
    match info.window_title {
        Some(t) => text::has_sub(text::fold_chars(t), text::fold_chars(pattern)),
        None => false,
    }
}

/// The window must not be captured.
pub open spec fn spec_excluded(
    info: WindowInfoV,
    apps: Seq<Seq<char>>,
    patterns: Seq<Seq<char>>,
) -> bool {
    (exists|i: int| 0 <= i < apps.len() && app_entry_hits(info, #[trigger] apps[i])) || (exists|
        i: int,
    |
        0 <= i < patterns.len() && title_pattern_hits(info, #[trigger] patterns[i]))
}

/// Check the active window against the privacy lists: excluded when the
/// app name or window class equals an excluded app (case-insensitively),
/// or the title contains an excluded pattern (case-insensitively).
pub fn is_excluded(
    info: &WindowInfo,
    excluded_apps: &Vec<String>,
    excluded_title_patterns: &Vec<String>,
) -> (r: bool)
    ensures
        r == spec_excluded(info@, str_views(excluded_apps@), str_views(excluded_title_patterns@)),
{
    let app_chars: Option<Vec<char>> = match &info.app_name {
        Some(a) => Some(text::chars_of(a.as_str())),
        None => None,
    };
    let class_chars: Option<Vec<char>> = match &info.window_class {
        Some(c) => Some(text::chars_of(c.as_str())),
        None => None,
    };
    let mut i: usize = 0;
    while i < excluded_apps.len()
        invariant
            i <= excluded_apps@.len(),
            match &app_chars {
                Some(v) => info@.app_name == Some(v@),
                None => info@.app_name is None,
            },
            match &class_chars {
                Some(v) => info@.window_class == Some(v@),
                None => info@.window_class is None,
            },
            forall|j: int|
                0 <= j < i ==> !app_entry_hits(info@, #[trigger] str_views(excluded_apps@)[j]),
        decreases excluded_apps@.len() - i,
    {
        let entry = text::chars_of(excluded_apps[i].as_str());
        proof {
            assert(str_views(excluded_apps@)[i as int] == excluded_apps@[i as int]@);
        }
        let mut hit: bool = false;
        match &app_chars {
            Some(a) => {
                if text::chars_eq_folded(a, &entry) {
                    hit = true;
                }
            },
            None => {},
        }
        match &class_chars {
            Some(c) => {
                if text::chars_eq_folded(c, &entry) {
                    hit = true;
                }
            },
            None => {},
        }
        if hit {
            proof {
                assert(app_entry_hits(info@, str_views(excluded_apps@)[i as int]));
            }
            return true;
        }
        proof {
            assert(!app_entry_hits(info@, str_views(excluded_apps@)[i as int]));
        }
        i = i + 1;
    }
    match &info.window_title {
        Some(title) => {
            let title_chars = text::chars_of(title.as_str());
            let mut k: usize = 0;
            while k < excluded_title_patterns.len()
                invariant
                    k <= excluded_title_patterns@.len(),
                    info@.window_title == Some(title_chars@),
                    forall|j: int|
                        0 <= j < k ==> !title_pattern_hits(
                            info@,
                            #[trigger] str_views(excluded_title_patterns@)[j],
                        ),
                decreases excluded_title_patterns@.len() - k,
            {
                let pat = text::chars_of(excluded_title_patterns[k].as_str());
                proof {
                    assert(str_views(excluded_title_patterns@)[k as int]
                        == excluded_title_patterns@[k as int]@);
                }
                if text::contains_chars_folded(&title_chars, &pat) {
                    proof {
                        assert(title_pattern_hits(
                            info@,
                            str_views(excluded_title_patterns@)[k as int],
                        ));
                    }
                    return true;
                }
                k = k + 1;
            }
        },
        None => {
            proof {
                assert(forall|j: int|
                    0 <= j < str_views(excluded_title_patterns@).len()
                        ==> !title_pattern_hits(
                        info@,
                        #[trigger] str_views(excluded_title_patterns@)[j],
                    ));
            }
        },
    }
    false
}

/// An empty string reads as "unknown".
pub fn non_empty(s: String) -> (r: Option<String>)
    ensures
        r.deep_view() == spec_non_empty(s@),
{
    if s.as_str().unicode_len() == 0 {
        None
    } else {
        Some(s)
    }
}

/// The value an empty-capable field takes.
pub open spec fn spec_non_empty(s: Seq<char>) -> Option<Seq<char>> {
    if s.len() == 0 {
        None
    } else {
        Some(s)
    }
}

/// Tracks the most recent active-window report from the compositor.
pub struct WindowTracker {
    cached: WindowInfo,
}

impl WindowTracker {
    /// The cached record.
    pub closed spec fn cached_info(&self) -> WindowInfoV {
        self.cached@
    }

    /// A tracker that has seen no window yet.
    pub fn new() -> (r: WindowTracker)
        ensures
            r.cached_info().app_name is None,
            r.cached_info().window_title is None,
            r.cached_info().window_class is None,
    {
        WindowTracker { cached: WindowInfo::default() }
    }

    /// The latest cached active-window info.
    pub fn current(&self) -> (r: WindowInfo)
        ensures
            r@ == self.cached_info(),
    {
        WindowInfo {
            app_name: crate::schema::clone_opt_string(&self.cached.app_name),
            window_title: crate::schema::clone_opt_string(&self.cached.window_title),
            window_class: crate::schema::clone_opt_string(&self.cached.window_class),
        }
    }

    /// Record a window-activation report; empty strings mean the field is
    /// unknown.
    pub fn update(&mut self, caption: String, resource_class: String, resource_name: String)
        ensures
            final(self).cached_info().window_title == spec_non_empty(caption@),
            final(self).cached_info().window_class == spec_non_empty(resource_class@),
            final(self).cached_info().app_name == spec_non_empty(resource_name@),
    {
        self.cached.window_title = non_empty(caption);
        self.cached.window_class = non_empty(resource_class);
        self.cached.app_name = non_empty(resource_name);
    }
}

/// Why a window-info provider failed.
#[derive(Debug, Clone)]
pub enum WindowInfoError {
    Bus(String),
    Provider(String),
}

impl WindowInfoError {
    /// The message carried by the error.
    pub fn message(&self) -> (r: &String)
        ensures
            r@ == self.spec_message(),
    {
        match self {
            WindowInfoError::Bus(m) => m,
            WindowInfoError::Provider(m) => m,
        }
    }

    pub open spec fn spec_message(&self) -> Seq<char> {
        match self {
            WindowInfoError::Bus(m) => m@,
            WindowInfoError::Provider(m) => m@,
        }
    }
}

/// Contract for active-window information providers, implemented per
/// desktop by the surrounding process.
pub trait WindowInfoProvider {
    /// Human-readable name for logging.
    fn name(&self) -> &'static str;

    /// Whether this provider works on the current system.
    fn probe(&self) -> bool;

    /// Start tracking the active window.
    fn start(&mut self) -> Result<(), WindowInfoError>;

    /// The current active window, from the provider's cache.
    fn current(&self) -> WindowInfo;

    /// Stop tracking and release resources.
    fn stop(&mut self) -> Result<(), WindowInfoError>;
}

/// The provider used when no desktop-specific one applies: it reports no
/// window, ever.
pub struct NoopWindowInfo;

impl WindowInfoProvider for NoopWindowInfo {
    fn name(&self) -> &'static str {
        "noop"
    }

    fn probe(&self) -> bool {
        true
    }

    fn start(&mut self) -> Result<(), WindowInfoError> {
        Ok(())
    }

    fn current(&self) -> WindowInfo {
        WindowInfo::default()
    }

    fn stop(&mut self) -> Result<(), WindowInfoError> {
        Ok(())
    }
}

} // verus!
