//! The job that refreshes the cached disk report.
use vstd::prelude::*;
use crate::paths;
use crate::text;

verus! {

/// The name of the job, and of its property list inside the bundle.
pub const LABEL: &'static str = "dev.pj.workstation.disk-report";

/// The bundle that the jobs belong to.
pub const BUNDLE_ID: &'static str = "dev.pj.workstation";

/// The executable inside the bundle.
pub const NAME: &'static str = "Workstation";

/// Labels earlier versions loaded. The current one is among them because it first
/// shipped that way too.
pub const LEGACY_LABELS: [&'static str; 3] = [
    "dev.pj.workstation.disk-report",
    "com.priyanshujain.workstation.disk-report",
    "com.priyanshujain.wsctl.disk-report",
];

/// Hours at which the refresh runs. Fixed clock times: a missed slot is coalesced
/// into one catch-up run instead of a backlog.
pub const REFRESH_HOURS: [u32; 4] = [0, 6, 12, 18];

/// Where the job writes what it has to say.
pub open spec fn log_at(home: Option<Seq<char>>) -> Seq<char> {
    paths::below(
        match home {
            Some(h) => h,
            None => "."@,
        },
        "Library/Logs/wsctl-disk-report.log"@,
    )
}

/// Where the job writes what it has to say.
pub fn log_path(home: &Option<String>) -> (r: String)
    ensures
        r@ == log_at(text::text_opt(*home)),
{
    match home {
        Some(h) => paths::join(h, "Library/Logs/wsctl-disk-report.log"),
        None => paths::join(".", "Library/Logs/wsctl-disk-report.log"),
    }
}

/// A text with the characters that XML reserves written as entities.
pub open spec fn escaped(s: Seq<char>) -> Seq<char> {
    text::replaced(
        text::replaced(text::replaced(s, '&', "&amp;"@), '<', "&lt;"@),
        '>',
        "&gt;"@,
    )
}

/// Writes the characters that XML reserves as entities.
pub fn xml_escape(s: &str) -> (r: String)
    ensures
        r@ == escaped(s@),
{
    let a = text::replace_char(s, '&', "&amp;");
    let b = text::replace_char(&a, '<', "&lt;");
    text::replace_char(&b, '>', "&gt;")
}

/// One entry of the schedule.
pub open spec fn slot(hour: int) -> Seq<char> {
    "        <dict>\n            <key>Hour</key>\n            <integer>"@ + text::decimal(
        hour as nat,
    )
        + "</integer>\n            <key>Minute</key>\n            <integer>0</integer>\n        </dict>\n"@
}

/// The entries for a run of hours.
pub open spec fn schedule(hours: Seq<u32>) -> Seq<char>
    decreases hours.len(),
{
    if hours.len() == 0 {
        Seq::empty()
    } else {
        schedule(hours.drop_last()) + slot(hours.last() as int)
    }
}

/// The property list of the job.
pub open spec fn plist_of(label: Seq<char>, log: Seq<char>) -> Seq<char> {
    "<?xml version=\"1.0\" encoding=\"UTF-8\"?>\n<!DOCTYPE plist PUBLIC \"-//Apple//DTD PLIST 1.0//EN\" \"http://www.apple.com/DTDs/PropertyList-1.0.dtd\">\n<plist version=\"1.0\">\n<dict>\n    <key>Label</key>\n    <string>"@
        + label
        + "</string>\n    <key>BundleProgram</key>\n    <string>Contents/MacOS/"@ + "Workstation"@
        + "</string>\n    <key>ProgramArguments</key>\n    <array>\n        <string>"@
        + "Workstation"@
        + "</string>\n        <string>disk</string>\n        <string>agent</string>\n        <string>refresh</string>\n    </array>\n    <key>RunAtLoad</key>\n    <false/>\n    <key>StartCalendarInterval</key>\n    <array>\n"@
        + schedule(REFRESH_HOURS@)
        + "    </array>\n    <key>ProcessType</key>\n    <string>Background</string>\n    <key>LowPriorityIO</key>\n    <true/>\n    <key>Nice</key>\n    <integer>10</integer>\n    <key>StandardOutPath</key>\n    <string>"@
        + escaped(log) + "</string>\n    <key>StandardErrorPath</key>\n    <string>"@ + escaped(log)
        + "</string>\n</dict>\n</plist>\n"@
}

fn calendar() -> (r: String)
    ensures
        r@ == schedule(REFRESH_HOURS@),
{
    let hours = REFRESH_HOURS;
    let ghost all = hours@;
    let mut out = String::new();
    assert(out@ =~= schedule(all.take(0)));
    for i in 0..4
        invariant
            all == hours@,
            all.len() == 4,
            out@ == schedule(all.take(i as int)),
    {
        assert(all.take(i + 1).drop_last() =~= all.take(i as int));
        let ghost before = out@;
        let mut entry: String =
            "        <dict>\n            <key>Hour</key>\n            <integer>".to_owned();
        let hour = text::dec(hours[i] as u64);
        entry.append(hour.as_str());
        entry.append(
            "</integer>\n            <key>Minute</key>\n            <integer>0</integer>\n        </dict>\n",
        );
        out.append(entry.as_str());
    }
    assert(all.take(4) =~= all);
    out
}

/// The property list of the job. It runs the refresh that leaves closed what would
/// raise a dialog, never at login, and yields to foreground work.
pub fn plist_contents(label: &str, log: &str) -> (r: String)
    ensures
        r@ == plist_of(label@, log@),
{
    let log = xml_escape(log);
    let mut out: String =
        "<?xml version=\"1.0\" encoding=\"UTF-8\"?>\n<!DOCTYPE plist PUBLIC \"-//Apple//DTD PLIST 1.0//EN\" \"http://www.apple.com/DTDs/PropertyList-1.0.dtd\">\n<plist version=\"1.0\">\n<dict>\n    <key>Label</key>\n    <string>".to_owned();
    out.append(label);
    out.append("</string>\n    <key>BundleProgram</key>\n    <string>Contents/MacOS/");
    out.append("Workstation");
    out.append("</string>\n    <key>ProgramArguments</key>\n    <array>\n        <string>");
    out.append("Workstation");
    out.append(
        "</string>\n        <string>disk</string>\n        <string>agent</string>\n        <string>refresh</string>\n    </array>\n    <key>RunAtLoad</key>\n    <false/>\n    <key>StartCalendarInterval</key>\n    <array>\n",
    );
    let slots = calendar();
    out.append(slots.as_str());
    out.append(
        "    </array>\n    <key>ProcessType</key>\n    <string>Background</string>\n    <key>LowPriorityIO</key>\n    <true/>\n    <key>Nice</key>\n    <integer>10</integer>\n    <key>StandardOutPath</key>\n    <string>",
    );
    out.append(log.as_str());
    out.append("</string>\n    <key>StandardErrorPath</key>\n    <string>");
    out.append(log.as_str());
    out.append("</string>\n</dict>\n</plist>\n");
    out
}

/// The session domain of the user that `id -u` names: where a logged-in user's jobs
/// live.
pub fn domain(uid: &str) -> (r: Option<String>)
    ensures
        text::text_opt(r) == (if text::trimmed(uid@).len() == 0 {
            None
        } else {
            Some("gui/"@ + text::trimmed(uid@))
        }),
{
    let bare = text::trim(uid);
    if bare.as_str().is_empty() {
        return None;
    }
    let mut out: String = "gui/".to_owned();
    out.append(bare.as_str());
    Some(out)
}

proof fn lemma_replaced_absent(s: Seq<char>, from: char, to: Seq<char>)
    requires
        !s.contains(from),
    ensures
        text::replaced(s, from, to) == s,
    decreases s.len(),
{
    if s.len() > 0 {
        assert(s.contains(s[s.len() - 1]));
        let rest = s.drop_last();
        assert forall|i: int| 0 <= i < rest.len() implies rest[i] != from by {
            assert(s.contains(s[i]));
        }
        lemma_replaced_absent(rest, from, to);
        assert(text::replaced(s, from, to) =~= s);
    } else {
        assert(text::replaced(s, from, to) =~= s);
    }
}

/// A text without reserved characters is written as it is.
pub proof fn law_ordinary_text_is_left_alone(s: Seq<char>)
    requires
        !s.contains('&'),
        !s.contains('<'),
        !s.contains('>'),
    ensures
        escaped(s) == s,
{
    lemma_replaced_absent(s, '&', "&amp;"@);
    lemma_replaced_absent(s, '<', "&lt;"@);
    lemma_replaced_absent(s, '>', "&gt;"@);
}

proof fn lemma_replaced_lacks(s: Seq<char>, from: char, to: Seq<char>, c: char)
    requires
        !to.contains(c),
        c == from || !s.contains(c),
    ensures
        !text::replaced(s, from, to).contains(c),
    decreases s.len(),
{
    if s.len() > 0 {
        let rest = s.drop_last();
        if c != from {
            assert forall|i: int| 0 <= i < rest.len() implies rest[i] != c by {
                assert(s.contains(s[i]));
            }
            assert(s.contains(s[s.len() - 1]));
        }
        lemma_replaced_lacks(rest, from, to, c);
        let before = text::replaced(rest, from, to);
        let whole = text::replaced(s, from, to);
        assert forall|i: int| 0 <= i < whole.len() implies whole[i] != c by {
            if i < before.len() {
                assert(before.contains(before[i]));
            } else if s.last() == from {
                assert(to.contains(to[i - before.len()]));
            }
        }
    }
}

/// No tag can be opened or closed from inside an escaped text.
pub proof fn law_escaped_text_holds_no_tag(s: Seq<char>)
    ensures
        !escaped(s).contains('<'),
        !escaped(s).contains('>'),
{
    reveal_strlit("&amp;");
    reveal_strlit("&lt;");
    reveal_strlit("&gt;");
    let a = text::replaced(s, '&', "&amp;"@);
    let b = text::replaced(a, '<', "&lt;"@);
    lemma_replaced_lacks(a, '<', "&lt;"@, '<');
    lemma_replaced_lacks(b, '>', "&gt;"@, '<');
    lemma_replaced_lacks(b, '>', "&gt;"@, '>');
}

proof fn lemma_replaced_joined(a: Seq<char>, b: Seq<char>, from: char, to: Seq<char>)
    ensures
        text::replaced(a + b, from, to) == text::replaced(a, from, to) + text::replaced(
            b,
            from,
            to,
        ),
    decreases b.len(),
{
    let whole = a + b;
    if b.len() == 0 {
        assert(whole =~= a);
        assert(text::replaced(a, from, to) + text::replaced(b, from, to) =~= text::replaced(
            a,
            from,
            to,
        ));
    } else {
        lemma_replaced_joined(a, b.drop_last(), from, to);
        assert(whole.drop_last() =~= a + b.drop_last());
        assert(whole.last() == b.last());
        assert(text::replaced(whole, from, to) =~= text::replaced(a, from, to) + text::replaced(
            b,
            from,
            to,
        ));
    }
}

/// Escaping goes character by character: each of the three that XML reserves becomes its
/// entity, and any other stays.
pub proof fn law_each_character_is_escaped_by_itself(s: Seq<char>, c: char)
    ensures
        escaped(Seq::<char>::empty()) == Seq::<char>::empty(),
        escaped(s.push(c)) == escaped(s) + (if c == '&' {
            seq!['&', 'a', 'm', 'p', ';']
        } else if c == '<' {
            seq!['&', 'l', 't', ';']
        } else if c == '>' {
            seq!['&', 'g', 't', ';']
        } else {
            seq![c]
        }),
{
    reveal_strlit("&amp;");
    reveal_strlit("&lt;");
    reveal_strlit("&gt;");
    let amp = "&amp;"@;
    let lt = "&lt;"@;
    let gt = "&gt;"@;
    assert(amp =~= seq!['&', 'a', 'm', 'p', ';']);
    assert(lt =~= seq!['&', 'l', 't', ';']);
    assert(gt =~= seq!['&', 'g', 't', ';']);
    let one = if c == '&' {
        amp
    } else {
        seq![c]
    };
    let two = if c == '<' {
        lt
    } else {
        one
    };
    let three = if c == '>' {
        gt
    } else {
        two
    };
    let a = text::replaced(s, '&', amp);
    text::law_replacing_goes_character_by_character(s, c, '&', amp);
    assert(text::replaced(s.push(c), '&', amp) == a + one);
    lemma_replaced_joined(a, one, '<', lt);
    let b = text::replaced(a, '<', lt);
    assert(text::replaced(one, '<', lt) == two) by {
        if c == '<' {
            text::law_replacing_goes_character_by_character(Seq::empty(), c, '<', lt);
            assert(Seq::<char>::empty().push(c) =~= one);
            assert(Seq::<char>::empty() + lt =~= lt);
        } else {
            lemma_replaced_absent(one, '<', lt);
        }
    }
    lemma_replaced_joined(b, two, '>', gt);
    assert(text::replaced(two, '>', gt) == three) by {
        if c == '>' {
            text::law_replacing_goes_character_by_character(Seq::empty(), c, '>', gt);
            assert(Seq::<char>::empty().push(c) =~= two);
            assert(Seq::<char>::empty() + gt =~= gt);
        } else {
            lemma_replaced_absent(two, '>', gt);
        }
    }
}

/// The job runs at midnight, six, noon and six, on the hour.
pub proof fn law_the_job_runs_every_six_hours(k: int)
    requires
        0 <= k < 4,
    ensures
        REFRESH_HOURS@.len() == 4,
        REFRESH_HOURS@[k] == 6 * k,
{
}

} // verus!
