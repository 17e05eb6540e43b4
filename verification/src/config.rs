//! Configuration data model.
//!
//! The UI reads its settings from a TOML file; the process around the
//! library does that parsing and hands the values over as this plain
//! data.  The one piece of logic the model owns is applying a command
//! line `key=value` override.

use vstd::prelude::*;

verus! {

use vstd::string::StringExecFns;

/// All settings of the UI.
pub struct Config {
    pub icon_spacing: u8,
    pub status_line_spacing: u8,
    pub path_line_spacing: u8,
    pub indent_first_level: bool,
    pub selection_symbol: String,
    pub indent_guide: String,
    pub indent_spaces: u8,
    pub mouse: bool,
    pub show_hidden: bool,
    pub shell: Vec<String>,
    pub info: Vec<String>,
    pub status: Status,
    pub keys: Keys,
    pub style: Style,
    pub files: Vec<Files>,
}

/// What the status line shows, by region.
pub struct Status {
    pub left: Vec<String>,
    pub center: Vec<String>,
    pub right: Vec<String>,
}

/// The key bindings, one action name per key.
pub struct Keys {
    pub l: String,
    pub up: String,
    pub k: String,
    pub down: String,
    pub j: String,
    pub left: String,
    pub semicolon: String,
    pub right: String,
    pub a: String,
    pub f: String,
    pub n: String,
    pub shift_n: String,
    pub shift_v: String,
    pub e: String,
    pub shift_e: String,
    pub s: String,
    pub shift_s: String,
    pub ctrl_s: String,
    pub space: String,
    pub y: String,
    pub c: String,
    pub p: String,
    pub shift_c: String,
    pub shift_t: String,
    pub escape: String,
    pub colon: String,
    pub q: String,
    pub shift_q: String,
    pub i: String,
    pub o: String,
    pub r: String,
    pub slash: String,
    pub question_mark: String,
    pub shift_i: String,
    pub shift_d: String,
    pub shift_l: String,
    pub ctrl_r: String,
    pub g: Goto,
}

/// The two-stroke bindings behind the `g` prefix.
pub struct Goto {
    pub g: String,
    pub e: String,
}

/// Colors and modifiers for every drawn element.
pub struct Style {
    pub default: InterfaceStyle,
    pub cursor_line: InterfaceStyle,
    pub status_line: InterfaceStyle,
    pub command_line: InterfaceStyle,
    pub path_line: InterfaceStyle,
    pub directory: FilesStyle,
    pub file: FilesStyle,
    pub archive: FilesStyle,
    pub video: FilesStyle,
    pub audio: FilesStyle,
    pub image: FilesStyle,
    pub document: FilesStyle,
    pub link: FilesStyle,
    pub executable: FilesStyle,
}

/// Colors and modifiers of one interface element.
pub struct InterfaceStyle {
    pub fg: String,
    pub bg: String,
    pub modifiers: Vec<String>,
}

/// Icon, colors and modifiers of one file kind.
pub struct FilesStyle {
    pub icon: String,
    pub fg: String,
    pub bg: String,
    pub modifiers: Vec<String>,
}

/// A style assignment for a group of file name extensions.
pub struct Files {
    pub extensions: Vec<String>,
    pub style: String,
}

/// `c` with its `show_hidden` flag set to `b` and all else as it was.
pub open spec fn with_show_hidden(c: Config, b: bool) -> Config {
    Config { show_hidden: b, ..c }
}

impl Config {
    /// Applies one `key=value` override from the command line.  Only the
    /// key `show_hidden` is recognized: it becomes true exactly when the
    /// value is the token `true`.  Any other key changes nothing.  The
    /// call always succeeds.
    pub fn set_key(&mut self, key: &str, value: &str) -> (r: Result<(), ()>)
        ensures
            r is Ok,
            key@ == "show_hidden"@ ==> *final(self) == with_show_hidden(
                *old(self),
                value@ == "true"@,
            ),
            key@ != "show_hidden"@ ==> *final(self) == *old(self),
    {
        let k = String::from_str(key);
        let target = String::from_str("show_hidden");
        if k == target {
            let v = String::from_str(value);
            let tr = String::from_str("true");
            self.show_hidden = v == tr;
        }
        Ok(())
    }
}

} // verus!
