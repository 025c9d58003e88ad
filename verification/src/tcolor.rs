//! Colors for the terminal.

use vstd::prelude::*;
use vstd::string::*;

verus! {

pub const ERROR_COLOR: &'static str = "\x1b[38;5;203m";

pub const WARN_COLOR: &'static str = "\x1b[38;5;184m";

pub const ROOT_COLOR: &'static str = "\x1b[38;5;220m";

pub const DIR_COLOR: &'static str = "\x1b[38;5;80m";

pub const EXEC_COLOR: &'static str = "\x1b[38;5;211m";

pub const SYM_COLOR: &'static str = "\x1b[38;5;147m";

pub const DETAILS_COLOR: &'static str = "\x1b[38;5;248m";

pub const MATCHES_COLOR: &'static str = "\x1b[38;5;42m";

pub const SEARCH_COLOR: &'static str = "\x1b[38;5;220m";

pub const ZERO_COLOR: &'static str = "\x1b[38;5;220m";

/// The escape sequences used for each part of the output; `None` leaves the
/// part unstyled.
#[derive(Debug, Clone, Copy, PartialEq, Eq)]
pub struct RippySchema {
    pub root: Option<&'static str>,
    pub dir: Option<&'static str>,
    pub executable: Option<&'static str>,
    pub file: Option<&'static str>,
    pub sym: Option<&'static str>,
    pub detail: Option<&'static str>,
    pub search: Option<&'static str>,
    pub window: Option<&'static str>,
    pub muted: Option<&'static str>,
    pub zero: Option<&'static str>,
}

impl RippySchema {
    /// True when no part carries a color.
    pub open spec fn is_plain(&self) -> bool {
        &&& self.root is None
        &&& self.dir is None
        &&& self.executable is None
        &&& self.file is None
        &&& self.sym is None
        &&& self.detail is None
        &&& self.search is None
        &&& self.window is None
        &&& self.muted is None
        &&& self.zero is None
    }

    /// The 8-bit palette.
    pub open spec fn is_palette(&self) -> bool {
        &&& self.root == Some(ROOT_COLOR)
        &&& self.dir == Some(DIR_COLOR)
        &&& self.executable == Some(EXEC_COLOR)
        &&& self.file is None
        &&& self.sym == Some(SYM_COLOR)
        &&& self.detail == Some(DETAILS_COLOR)
        &&& self.search == Some(SEARCH_COLOR)
        &&& self.window == Some(MATCHES_COLOR)
        &&& self.muted == Some(DETAILS_COLOR)
        &&& self.zero == Some(ZERO_COLOR)
    }

    /// The schema for grayscale output, or the 8-bit palette.
    pub fn get_color_schema(is_grayscale: bool) -> (schema: Self)
        ensures
            is_grayscale ==> schema.is_plain(),
            !is_grayscale ==> schema.is_palette(),
    {
        if is_grayscale {
            RippySchema {
                root: None,
                dir: None,
                executable: None,
                file: None,
                sym: None,
                detail: None,
                search: None,
                window: None,
                muted: None,
                zero: None,
            }
        } else {
            RippySchema {
                root: Some(ROOT_COLOR),
                dir: Some(DIR_COLOR),
                executable: Some(EXEC_COLOR),
                file: None,
                sym: Some(SYM_COLOR),
                detail: Some(DETAILS_COLOR),
                search: Some(SEARCH_COLOR),
                window: Some(MATCHES_COLOR),
                muted: Some(DETAILS_COLOR),
                zero: Some(ZERO_COLOR),
            }
        }
    }
}

/// The characters of an optional color code; nothing for `None`.
pub open spec fn color_view(color: Option<&'static str>) -> Option<Seq<char>> {
    match color {
        Some(code) => Some(code@),
        None => None,
    }
}

/// `text` wrapped in the escape sequences for `color`, with the bold sequence
/// in front when `bold` is set, and the reset sequence behind. Without a color
/// the text stands as it is, bold or not.
pub open spec fn styled(color: Option<Seq<char>>, bold: bool, text: Seq<char>) -> Seq<char> {
    match color {
        Some(code) => (if bold {
            "\x1b[1m"@
        } else {
            Seq::empty()
        }) + code + text + "\x1b[0m"@,
        None => text,
    }
}

/// Styles `text` for the terminal.
pub fn ansi_color(color: Option<&'static str>, bold: bool, text: &str) -> (r: String)
    ensures
        r@ == styled(color_view(color), bold, text@),
{
    match color {
        Some(code) => {
            let mut r = String::new();
            if bold {
                r.append("\x1b[1m");
            }
            r.append(code);
            r.append(text);
            r.append("\x1b[0m");
            r
        },
        None => String::from_str(text),
    }
}

/// Whether escape sequences can be used: always off Windows, and on Windows
/// when the console accepted the virtual-terminal mode. `windows_console` is
/// `None` off Windows, and otherwise tells whether the mode could be set.
pub fn enable_ansi_support(windows_console: Option<bool>) -> (ok: bool)
    ensures
        ok == match windows_console {
            Some(enabled) => enabled,
            None => true,
        },
{
    match windows_console {
        Some(enabled) => enabled,
        None => true,
    }
}

} // verus!
