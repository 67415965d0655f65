//! The decisions the desktop shell makes around the history: when a pasteboard
//! change is new content, how the bar reacts to the hotkey and to losing focus, what
//! a selected item is written back as, where the paste keystroke goes, the tray menu.
use vstd::prelude::*;

use crate::history::{opt_bytes, opt_str, opt_strs, FullItem};
use crate::text::{trim, trim_str};

verus! {

broadcast use vstd::string::group_string_axioms;

/// After a paste the bar ignores losing focus for this many milliseconds.
pub const PASTE_BLUR_GRACE_MS: u128 = 1500;

/// Settings key recording that launch at login was switched on once.
pub const AUTOSTART_INITIALIZED_KEY: &'static str = "autostart_initialized";

/// Settings key of the screenshot-capture switch.
pub const CAPTURE_SCREENSHOTS_KEY: &'static str = "capture_screenshots";

/// What the clipboard watcher does with a pasteboard change count.
#[derive(Debug, PartialEq, Eq, Clone, Copy)]
pub enum PollStep {
    /// Nothing changed since the last look.
    Unchanged,
    /// The change is the bar's own write-back; remember it and capture nothing.
    OwnWrite,
    /// New content: read and capture it.
    Capture,
}

/// The step for change count `count`, given the last count seen and the count of the
/// bar's own last write.
pub fn poll_step(count: i64, last_change: i64, self_change: i64) -> (s: PollStep)
    ensures
        s == (if count == last_change {
            PollStep::Unchanged
        } else if count == self_change {
            PollStep::OwnWrite
        } else {
            PollStep::Capture
        }),
{
    if count == last_change {
        PollStep::Unchanged
    } else if count == self_change {
        PollStep::OwnWrite
    } else {
        PollStep::Capture
    }
}

/// What the hotkey does to the bar.
#[derive(Debug, PartialEq, Eq, Clone, Copy)]
pub enum BarAction {
    Ignore,
    Show,
    Hide,
}

/// The hotkey's effect: nothing while the bar is mid-hide or when there is no bar
/// window (`visible` is `None`), else hide a visible bar and show a hidden one.
pub fn toggle_action(hiding: bool, visible: Option<bool>) -> (a: BarAction)
    ensures
        a == (if hiding {
            BarAction::Ignore
        } else {
            match visible {
                None => BarAction::Ignore,
                Some(true) => BarAction::Hide,
                Some(false) => BarAction::Show,
            }
        }),
{
    if hiding {
        return BarAction::Ignore;
    }
    match visible {
        None => BarAction::Ignore,
        Some(v) => if v {
            BarAction::Hide
        } else {
            BarAction::Show
        },
    }
}

/// Whether losing focus hides the bar: not while it is mid-hide, not within 1.5 s of
/// a paste (`since_paste_ms`), and only when the bar window exists and is visible.
pub fn blur_hides(hiding: bool, since_paste_ms: Option<u128>, visible: Option<bool>) -> (b: bool)
    ensures
        b == (!hiding && !(since_paste_ms matches Some(ms) && ms < PASTE_BLUR_GRACE_MS) && visible
            == Some(true)),
{
    if hiding {
        return false;
    }
    if let Some(ms) = since_paste_ms {
        if ms < PASTE_BLUR_GRACE_MS {
            return false;
        }
    }
    match visible {
        Some(v) => v,
        None => false,
    }
}

/// What a selected item is written back to the pasteboard as.
#[derive(Debug)]
pub enum PastePlan {
    /// The PNG stored at `path`.
    Image { path: String },
    /// File references.
    Files { paths: Vec<String> },
    /// Text with its rich flavours.
    Text { plain: String, rtf: Option<Vec<u8>>, html: Option<String> },
}

/// How a selected item is pasted: an `image` needs its file path, `files` its paths,
/// anything else is pasted as text (empty when it has none). Errors as the shell
/// reports them: `item not found`, `image file missing`, `file paths missing`.
pub fn paste_plan(item: Option<FullItem>) -> (r: Result<PastePlan, String>)
    ensures
        match item {
            None => r matches Err(e) && e@ == "item not found"@,
            Some(it) => if it.kind@ == "image"@ {
                match it.image_path {
                    Some(p) => r matches Ok(PastePlan::Image { path }) && path@ == p@,
                    None => r matches Err(e) && e@ == "image file missing"@,
                }
            } else if it.kind@ == "files"@ {
                match it.file_paths {
                    Some(ps) => r matches Ok(PastePlan::Files { paths }) && paths.deep_view()
                        == ps.deep_view(),
                    None => r matches Err(e) && e@ == "file paths missing"@,
                }
            } else {
                r matches Ok(PastePlan::Text { plain, rtf, html }) && plain@ == (match it.plain_text {
                    Some(t) => t@,
                    None => Seq::<char>::empty(),
                }) && opt_bytes(rtf) == opt_bytes(it.rtf) && opt_str(html) == opt_str(it.html)
            },
        },
{
    let it = match item {
        None => return Err("item not found".to_owned()),
        Some(it) => it,
    };
    if it.kind == "image".to_owned() {
        match it.image_path {
            Some(p) => Ok(PastePlan::Image { path: p }),
            None => Err("image file missing".to_owned()),
        }
    } else if it.kind == "files".to_owned() {
        match it.file_paths {
            Some(ps) => Ok(PastePlan::Files { paths: ps }),
            None => Err("file paths missing".to_owned()),
        }
    } else {
        let plain = match it.plain_text {
            Some(t) => t,
            None => String::new(),
        };
        Ok(PastePlan::Text { plain, rtf: it.rtf, html: it.html })
    }
}

/// The process the paste keystroke is posted to: the remembered frontmost app when its
/// pid is known (positive), else the system-wide event tap (`None`).
pub fn paste_target(pid: Option<i32>) -> (r: Option<i32>)
    ensures
        r == (match pid {
            Some(p) => if p > 0 {
                Some(p)
            } else {
                None
            },
            None => None,
        }),
{
    match pid {
        Some(p) => if p > 0 {
            Some(p)
        } else {
            None
        },
        None => None,
    }
}

/// An entry of the tray menu.
#[derive(Debug, PartialEq, Eq, Clone, Copy)]
pub enum MenuAction {
    ToggleBar,
    ClearHistory,
    ToggleScreenshots,
    ToggleLaunchAtLogin,
    Quit,
    Nothing,
}

/// The action of the tray menu entry with id `id`.
pub fn menu_action(id: &str) -> (a: MenuAction)
    ensures
        a == (if id@ == "toggle"@ {
            MenuAction::ToggleBar
        } else if id@ == "clear"@ {
            MenuAction::ClearHistory
        } else if id@ == "screenshots"@ {
            MenuAction::ToggleScreenshots
        } else if id@ == "login"@ {
            MenuAction::ToggleLaunchAtLogin
        } else if id@ == "quit"@ {
            MenuAction::Quit
        } else {
            MenuAction::Nothing
        }),
{
    let s = id.to_owned();
    if s == "toggle".to_owned() {
        MenuAction::ToggleBar
    } else if s == "clear".to_owned() {
        MenuAction::ClearHistory
    } else if s == "screenshots".to_owned() {
        MenuAction::ToggleScreenshots
    } else if s == "login".to_owned() {
        MenuAction::ToggleLaunchAtLogin
    } else if s == "quit".to_owned() {
        MenuAction::Quit
    } else {
        MenuAction::Nothing
    }
}

/// Screenshot capture is on unless the setting is exactly `0`.
pub fn capture_screenshots_enabled(setting: Option<&str>) -> (b: bool)
    ensures
        b == !(setting matches Some(v) && v@ == "0"@),
{
    match setting {
        Some(v) => !(v.to_owned() == "0".to_owned()),
        None => true,
    }
}

/// The stored value of the screenshot-capture switch.
pub fn screenshot_setting_value(on: bool) -> (v: &'static str)
    ensures
        v@ == (if on {
            "1"@
        } else {
            "0"@
        }),
{
    if on {
        "1"
    } else {
        "0"
    }
}

/// Launch at login is switched on once, on the first run: when the marker setting is
/// absent.
pub fn needs_autostart_init(setting: Option<&str>) -> (b: bool)
    ensures
        b == setting is None,
{
    setting.is_none()
}

/// The search text of a list request: the query, trimmed; empty when absent.
pub fn search_text(query: Option<&str>) -> (s: String)
    ensures
        s@ == (match query {
            Some(q) => trim(q@),
            None => trim(""@),
        }),
{
    match query {
        Some(q) => trim_str(q),
        None => trim_str(""),
    }
}

} // verus!
