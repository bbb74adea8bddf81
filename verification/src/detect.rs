//! Environment detection decisions. The surrounding process reads the
//! session's environment variables and hands their values in; the decision
//! rules live here.

use vstd::prelude::*;
use crate::text;

verus! {

#[derive(Debug, Clone, Copy, PartialEq, Eq, Structural)]
pub enum DesktopEnvironment {
    KdePlasma,
    Gnome,
    Hyprland,
    Sway,
    X11,
    Unknown,
}

#[derive(Debug, Clone, Copy, PartialEq, Eq, Structural)]
pub enum SessionType {
    Wayland,
    X11,
    Unknown,
}

/// The desktop a session runs, decided from the environment: a Hyprland or
/// Sway marker wins, then the current-desktop string (containing `kde` or
/// `gnome`, ignoring case), then a bare X11 display.
pub open spec fn spec_desktop(
    hyprland: bool,
    sway: bool,
    current_desktop: Option<Seq<char>>,
    display: bool,
    wayland_display: bool,
) -> DesktopEnvironment {
    if hyprland {
        DesktopEnvironment::Hyprland
    } else if sway {
        DesktopEnvironment::Sway
    } else if current_desktop matches Some(d) && text::has_sub(text::fold_chars(d), "kde"@) {
        DesktopEnvironment::KdePlasma
    } else if current_desktop matches Some(d) && text::has_sub(text::fold_chars(d), "gnome"@) {
        DesktopEnvironment::Gnome
    } else if display && !wayland_display {
        DesktopEnvironment::X11
    } else {
        DesktopEnvironment::Unknown
    }
}

/// Decide the desktop environment from the relevant environment values.
pub fn detect_desktop_from(
    hyprland: bool,
    sway: bool,
    current_desktop: &Option<String>,
    display: bool,
    wayland_display: bool,
) -> (r: DesktopEnvironment)
    ensures
        r == spec_desktop(hyprland, sway, current_desktop.deep_view(), display, wayland_display),
{
    if hyprland {
        return DesktopEnvironment::Hyprland;
    }
    if sway {
        return DesktopEnvironment::Sway;
    }
    match current_desktop {
        Some(d) => {
            let chars = text::chars_of(d.as_str());
            if text::contains_chars_folded(&chars, &text::chars_of("kde")) {
                proof {
                    reveal_strlit("kde");
                    assert(text::fold_chars("kde"@) =~= "kde"@) by {
                        assert(('k' as u32) == 107 && ('d' as u32) == 100 && ('e' as u32) == 101);
                    }
                }
                return DesktopEnvironment::KdePlasma;
            }
            if text::contains_chars_folded(&chars, &text::chars_of("gnome")) {
                proof {
                    reveal_strlit("kde");
                    reveal_strlit("gnome");
                    assert(text::fold_chars("kde"@) =~= "kde"@) by {
                        assert(('k' as u32) == 107 && ('d' as u32) == 100 && ('e' as u32) == 101);
                    }
                    assert(text::fold_chars("gnome"@) =~= "gnome"@) by {
                        assert(('g' as u32) == 103 && ('n' as u32) == 110 && ('o' as u32) == 111
                            && ('m' as u32) == 109 && ('e' as u32) == 101);
                    }
                }
                return DesktopEnvironment::Gnome;
            }
            proof {
                reveal_strlit("kde");
                reveal_strlit("gnome");
                assert(text::fold_chars("kde"@) =~= "kde"@) by {
                    assert(('k' as u32) == 107 && ('d' as u32) == 100 && ('e' as u32) == 101);
                }
                assert(text::fold_chars("gnome"@) =~= "gnome"@) by {
                    assert(('g' as u32) == 103 && ('n' as u32) == 110 && ('o' as u32) == 111 && (
                    'm' as u32) == 109 && ('e' as u32) == 101);
                }
            }
        },
        None => {},
    }
    if display && !wayland_display {
        return DesktopEnvironment::X11;
    }
    DesktopEnvironment::Unknown
}

/// The session type, decided from the environment: a Wayland display wins,
/// then the declared session type, then a bare X11 display.
pub open spec fn spec_session(
    wayland_display: bool,
    session_type: Option<Seq<char>>,
    display: bool,
) -> SessionType {
    if wayland_display {
        SessionType::Wayland
    } else {
        match session_type {
            Some(t) => {
                if text::fold_chars(t) == "wayland"@ {
                    SessionType::Wayland
                } else if text::fold_chars(t) == "x11"@ {
                    SessionType::X11
                } else {
                    SessionType::Unknown
                }
            },
            None => {
                if display {
                    SessionType::X11
                } else {
                    SessionType::Unknown
                }
            },
        }
    }
}

/// Decide the session type from the relevant environment values.
pub fn detect_session_from(
    wayland_display: bool,
    session_type: &Option<String>,
    display: bool,
) -> (r: SessionType)
    ensures
        r == spec_session(wayland_display, session_type.deep_view(), display),
{
    if wayland_display {
        return SessionType::Wayland;
    }
    match session_type {
        Some(t) => {
            let chars = text::chars_of(t.as_str());
            let folded = text::fold_vec(&chars);
            if text::chars_eq(&folded, &text::chars_of("wayland")) {
                SessionType::Wayland
            } else if text::chars_eq(&folded, &text::chars_of("x11")) {
                SessionType::X11
            } else {
                SessionType::Unknown
            }
        },
        None => {
            if display {
                SessionType::X11
            } else {
                SessionType::Unknown
            }
        },
    }
}

} // verus!
