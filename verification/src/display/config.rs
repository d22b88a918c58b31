//! Which panel is pinned.
use vstd::prelude::*;
use crate::display::key::DisplayKey;
use crate::paths;
use crate::text;

verus! {

/// Which panel should hold the menu bar whenever it is connected.
#[derive(Debug, Clone, Copy, PartialEq, Eq, Structural)]
pub struct Prefs {
    pub preferred_main: Option<DisplayKey>,
}

impl Default for Prefs {
    fn default() -> (r: Self)
        ensures
            r.preferred_main is None,
    {
        Prefs { preferred_main: None }
    }
}

/// Where the preferences are kept.
pub open spec fn prefs_at(home: Option<Seq<char>>) -> Seq<char> {
    paths::below(
        match home {
            Some(h) => h,
            None => "."@,
        },
        ".config/wsctl/display.json"@,
    )
}

/// Where the preferences are kept.
pub fn config_path(home: &Option<String>) -> (r: String)
    ensures
        r@ == prefs_at(text::text_opt(*home)),
{
    match home {
        Some(h) => paths::join(h, ".config/wsctl/display.json"),
        None => paths::join(".", ".config/wsctl/display.json"),
    }
}

/// What reading a file came to.
#[derive(Debug)]
pub enum Raw {
    /// There is none.
    Missing,
    /// It could not be read.
    Unreadable,
    /// What it holds.
    Text(String),
}

/// The preferences in a file: none where there is no file or nothing in it, and
/// otherwise what its text was read as. A text that could not be read is an error
/// rather than a silent reset.
pub fn load_from(path: &str, raw: &Raw, parsed: Option<Prefs>) -> (r: Result<Prefs, String>)
    ensures
        match *raw {
            Raw::Missing => r matches Ok(p) && p.preferred_main is None,
            Raw::Unreadable => r matches Err(e) && e@ == "failed to read "@ + path@,
            Raw::Text(t) => if text::trimmed(t@).len() == 0 {
                r matches Ok(p) && p.preferred_main is None
            } else {
                match parsed {
                    Some(p) => r == Ok::<Prefs, String>(p),
                    None => r matches Err(e) && e@ == "failed to parse "@ + path@,
                }
            },
        },
{
    match raw {
        Raw::Missing => Ok(Prefs::default()),
        Raw::Unreadable => {
            let mut out: String = "failed to read ".to_owned();
            out.append(path);
            Err(out)
        },
        Raw::Text(t) => {
            let bare = text::trim(t);
            if bare.as_str().is_empty() {
                return Ok(Prefs::default());
            }
            match parsed {
                Some(p) => Ok(p),
                None => {
                    let mut out: String = "failed to parse ".to_owned();
                    out.append(path);
                    Err(out)
                },
            }
        },
    }
}

/// The preferences of the user.
pub fn load(home: &Option<String>, raw: &Raw, parsed: Option<Prefs>) -> (r: Result<Prefs, String>)
    ensures
        match *raw {
            Raw::Missing => r matches Ok(p) && p.preferred_main is None,
            Raw::Unreadable => r matches Err(e) && e@ == "failed to read "@ + prefs_at(
                text::text_opt(*home),
            ),
            Raw::Text(t) => if text::trimmed(t@).len() == 0 {
                r matches Ok(p) && p.preferred_main is None
            } else {
                match parsed {
                    Some(p) => r == Ok::<Prefs, String>(p),
                    None => r matches Err(e) && e@ == "failed to parse "@ + prefs_at(
                        text::text_opt(*home),
                    ),
                }
            },
        },
{
    let path = config_path(home);
    load_from(&path, raw, parsed)
}

/// What is written to the file: the text of the preferences and a line feed.
pub fn save_to(raw: &str) -> (r: String)
    ensures
        r@ == raw@.push('\n'),
{
    let mut out: String = raw.to_owned();
    out.push('\n');
    out
}

} // verus!
