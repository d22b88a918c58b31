//! Whether every panel keeps its own set of Spaces.
use vstd::prelude::*;
use crate::resource::Launch;
use crate::text;
use crate::text::texts;

verus! {

/// Where the setting is stored.
pub const DOMAIN: &'static str = "com.apple.spaces";

pub const KEY: &'static str = "spans-displays";

/// The stored value stretches one Space across all panels.
pub open spec fn is_spanning(raw: Seq<char>) -> bool {
    let bare = text::trimmed(raw);
    bare == "1"@ || bare == "true"@ || bare == "YES"@
}

/// Whether the stored value stretches one Space across all panels.
pub fn spans(raw: &str) -> (r: bool)
    ensures
        r == is_spanning(raw@),
{
    let bare = text::trim(raw);
    text::same(&bare, "1") || text::same(&bare, "true") || text::same(&bare, "YES")
}

/// Whether every panel keeps its own Spaces, as reading the key came to. The stored key is
/// the inverse of the checkbox. A missing key or domain makes the reading fail, and an unset
/// key means separate Spaces. Nothing can be said where `defaults` could not be run.
pub fn separate_spaces_enabled(read: &Launch) -> (r: Result<bool, String>)
    ensures
        match read {
            Launch::Ran(out) => r matches Ok(separate) && separate == (!out.success
                || !is_spanning(out.stdout@)),
            _ => r matches Err(e) && e@ == "failed to run `defaults read`"@,
        },
{
    match read {
        Launch::Ran(out) => Ok(!out.success || !spans(&out.stdout)),
        _ => Err("failed to run `defaults read`".to_owned()),
    }
}

/// The arguments of the command that reads the setting.
pub fn read_args(domain: &str) -> (r: Vec<String>)
    ensures
        texts(r@) == seq!["read"@, domain@, "spans-displays"@],
{
    let v: Vec<String> = vec!["read".to_owned(), domain.to_owned(), "spans-displays".to_owned()];
    assert(texts(v@) =~= seq!["read"@, domain@, "spans-displays"@]);
    v
}

/// The arguments of the command that turns separate Spaces on or off.
pub open spec fn write_args(domain: Seq<char>, enabled: bool) -> Seq<Seq<char>> {
    seq![
        "write"@,
        domain,
        "spans-displays"@,
        "-bool"@,
        if enabled {
            "false"@
        } else {
            "true"@
        },
    ]
}

/// The arguments of the command that turns separate Spaces on or off.
pub fn set_separate_spaces(domain: &str, enabled: bool) -> (r: Vec<String>)
    ensures
        texts(r@) == write_args(domain@, enabled),
{
    let value: &str = if enabled {
        "false"
    } else {
        "true"
    };
    let v: Vec<String> = vec![
        "write".to_owned(),
        domain.to_owned(),
        "spans-displays".to_owned(),
        "-bool".to_owned(),
        value.to_owned(),
    ];
    assert(texts(v@) =~= write_args(domain@, enabled));
    v
}

/// Why writing the key failed.
pub open spec fn write_failure(domain: Seq<char>, enabled: bool, stderr: Seq<char>) -> Seq<char> {
    "`defaults write "@ + domain + " spans-displays -bool "@ + (if enabled {
        "false"@
    } else {
        "true"@
    }) + "` failed: "@ + text::trimmed(stderr)
}

/// Why writing the key failed.
pub fn write_failed(domain: &str, enabled: bool, stderr: &str) -> (r: String)
    ensures
        r@ == write_failure(domain@, enabled, stderr@),
{
    let value: &str = if enabled {
        "false"
    } else {
        "true"
    };
    let mut out: String = "`defaults write ".to_owned();
    out.append(domain);
    out.append(" spans-displays -bool ");
    out.append(value);
    out.append("` failed: ");
    let why = text::trim(stderr);
    out.append(why.as_str());
    out
}

/// What writing the setting came to.
pub fn written(domain: &str, enabled: bool, wrote: &Launch) -> (r: Result<(), String>)
    ensures
        match wrote {
            Launch::Ran(out) => if out.success {
                r is Ok
            } else {
                r matches Err(e) && e@ == write_failure(domain@, enabled, out.stderr@)
            },
            _ => r matches Err(e) && e@ == "failed to run `defaults write`"@,
        },
{
    match wrote {
        Launch::Ran(out) => {
            if out.success {
                Ok(())
            } else {
                Err(write_failed(domain, enabled, &out.stderr))
            }
        },
        _ => Err("failed to run `defaults write`".to_owned()),
    }
}

/// What was written reads back: `defaults` prints a true value as 1 and a false one
/// as 0.
pub proof fn law_a_written_setting_reads_back(enabled: bool)
    ensures
        ({
            let printed = if enabled {
                "0"@
            } else {
                "1"@
            };
            !is_spanning(printed) == enabled
        }),
{
    reveal_strlit("0");
    reveal_strlit("1");
    reveal_strlit("true");
    reveal_strlit("YES");
    assert(text::trimmed("0"@) == "0"@) by {
        assert(text::trimmed_start("0"@) == "0"@);
    }
    assert(text::trimmed("1"@) == "1"@) by {
        assert(text::trimmed_start("1"@) == "1"@);
    }
    assert("0"@[0] != "1"@[0]);
}

/// What is written for a setting is what reads back as it.
pub proof fn law_what_is_written_reads_back(domain: Seq<char>, enabled: bool)
    ensures
        write_args(domain, enabled)[1] == domain,
        is_spanning(write_args(domain, enabled).last()) == !enabled,
{
    reveal_strlit("1");
    reveal_strlit("true");
    reveal_strlit("false");
    reveal_strlit("YES");
    assert("1"@.len() == 1 && "true"@.len() == 4 && "YES"@.len() == 3 && "false"@.len() == 5);
    assert(text::trimmed("true"@) == "true"@) by {
        assert(text::trimmed_start("true"@) == "true"@);
        assert(text::trimmed_end("true"@) == "true"@);
    }
    assert(text::trimmed("false"@) == "false"@) by {
        assert(text::trimmed_start("false"@) == "false"@);
        assert(text::trimmed_end("false"@) == "false"@);
    }
}

} // verus!
