//! Sessions that mirror the device.
use vstd::prelude::*;
use crate::text;
use crate::text::texts;

verus! {

/// What a scrcpy session is for.
#[derive(Debug, Clone, Copy, PartialEq, Eq, Structural)]
pub enum Mode {
    /// Clipboard bridge only. scrcpy pushes the device clipboard to the computer whenever
    /// it changes, which is the one way to read it at all.
    Clip,
    /// Full mirror. A superset of the clipboard bridge: it adds the screen.
    Mirror,
}

/// The arguments of a session.
pub open spec fn mode_args(mode: Mode, serial: Seq<char>) -> Seq<Seq<char>> {
    match mode {
        Mode::Clip => seq!["-s"@, serial, "--no-window"@, "--no-video"@, "--no-audio"@],
        Mode::Mirror => seq!["-s"@, serial],
    }
}

impl Mode {
    /// The arguments of a session for the device with a serial.
    pub fn args(&self, serial: &str) -> (r: Vec<String>)
        ensures
            texts(r@) == mode_args(*self, serial@),
    {
        let mut args: Vec<String> = vec!["-s".to_owned(), serial.to_owned()];
        match self {
            Mode::Clip => {
                args.push("--no-window".to_owned());
                args.push("--no-video".to_owned());
                args.push("--no-audio".to_owned());
            },
            Mode::Mirror => {},
        }
        assert(texts(args@) =~= mode_args(*self, serial@));
        args
    }
}

/// What a session came to, given the status it exited with. A signal exit is Ctrl-C,
/// which is how a session is meant to be stopped.
pub fn run(code: Option<i32>) -> (r: Result<(), String>)
    ensures
        match code {
            Some(c) => if c == 0 {
                r is Ok
            } else {
                r matches Err(e) && e@ == "scrcpy exited with status "@ + text::signed_decimal(
                    c as int,
                )
            },
            None => r is Ok,
        },
{
    match code {
        None => Ok(()),
        Some(c) => {
            if c == 0 {
                return Ok(());
            }
            let mut out: String = "scrcpy exited with status ".to_owned();
            let n = text::dec_i64(c as i64);
            out.append(n.as_str());
            Err(out)
        },
    }
}

/// The binary is scrcpy, wherever it lies.
pub open spec fn names_scrcpy(binary: Seq<char>) -> bool {
    text::pieces(binary, '/').last() == "scrcpy"@
}

/// A flag and a serial stand side by side.
pub open spec fn flagged(words: Seq<Seq<char>>, serial: Seq<char>, i: int) -> bool {
    (words[i] == "-s"@ || words[i] == "--serial"@) && words[i + 1] == serial
}

/// A flag holds the serial.
pub open spec fn attached(word: Seq<char>, serial: Seq<char>) -> bool {
    text::behind(word, "--serial="@) == Some(serial)
}

/// The arguments name a serial.
pub open spec fn names_serial(words: Seq<Seq<char>>, serial: Seq<char>) -> bool {
    ||| exists|i: int| 0 <= i < words.len() - 1 && #[trigger] flagged(words, serial, i)
    ||| exists|i: int| 0 <= i < words.len() && attached(#[trigger] words[i], serial)
}

/// The session that a line of `ps` lists.
pub open spec fn session_in(line: Seq<char>, serial: Seq<char>) -> Option<u32> {
    match text::cut_space(text::trimmed_start(line)) {
        None => None,
        Some((pid, args)) => {
            let words = text::words(args);
            if words.len() > 0 && names_scrcpy(words[0]) && names_serial(words, serial) {
                match text::unsigned_value(pid, u32::MAX as int) {
                    Some(n) => Some(n as u32),
                    None => None,
                }
            } else {
                None
            }
        },
    }
}

/// The sessions that lines of `ps` list.
pub open spec fn sessions_in(lines: Seq<Seq<char>>, serial: Seq<char>) -> Seq<u32>
    decreases lines.len(),
{
    if lines.len() == 0 {
        Seq::empty()
    } else {
        let before = sessions_in(lines.drop_last(), serial);
        match session_in(lines.last(), serial) {
            Some(pid) => before.push(pid),
            None => before,
        }
    }
}

fn is_scrcpy(binary: &str) -> (r: bool)
    ensures
        r == names_scrcpy(binary@),
{
    broadcast use text::lemma_pieces_nonempty;

    let parts = text::split_on(binary, '/');
    let ghost all = text::pieces(binary@, '/');
    assert(parts@.len() == all.len() && all.len() > 0);
    assert(parts@[parts@.len() - 1]@ == all.last());
    text::same(&parts[parts.len() - 1], "scrcpy")
}

fn targets(words: &Vec<String>, serial: &str) -> (r: bool)
    ensures
        r == names_serial(texts(words@), serial@),
{
    let ghost all = texts(words@);
    for i in 0..words.len()
        invariant
            all == texts(words@),
            forall|j: int| 0 <= j < i && j < words@.len() - 1 ==> !#[trigger] flagged(all, serial@, j),
            forall|j: int| 0 <= j < i ==> !attached(#[trigger] all[j], serial@),
    {
        assert(words@[i as int]@ == all[i as int]);
        if i + 1 < words.len() {
            assert(words@[i + 1]@ == all[i + 1]);
            if (text::same(&words[i], "-s") || text::same(&words[i], "--serial")) && text::same(
                &words[i + 1],
                serial,
            ) {
                assert(flagged(all, serial@, i as int));
                return true;
            }
        }
        if let Some(rest) = text::strip_prefix(&words[i], "--serial=") {
            if text::same(&rest, serial) {
                assert(attached(all[i as int], serial@));
                return true;
            }
        }
    }
    false
}

fn session_of(line: &str, serial: &str) -> (r: Option<u32>)
    ensures
        r == session_in(line@, serial@),
{
    let bare = text::trim_start(line);
    match text::split_space(&bare) {
        None => None,
        Some((pid, args)) => {
            let words = text::split_words(&args);
            assert(words@.len() == text::words(args@).len());
            if words.len() == 0 {
                return None;
            }
            assert(words@[0]@ == text::words(args@)[0]);
            if !is_scrcpy(&words[0]) || !targets(&words, serial) {
                return None;
            }
            text::parse_u32(&pid)
        },
    }
}

/// Process ids of scrcpy sessions for the device with a serial, from the output of
/// `ps -Ao pid=,args=`.
///
/// Matching on the first argument rather than the whole line matters: a shell that
/// launched scrcpy carries the same text, and killing that instead would leave the
/// session alive.
pub fn sessions_for(ps_output: &str, serial: &str) -> (r: Vec<u32>)
    ensures
        r@ == sessions_in(text::lines(ps_output@), serial@),
{
    let lines = text::split_lines(ps_output);
    let ghost all = text::lines(ps_output@);
    let mut out: Vec<u32> = Vec::new();
    for i in 0..lines.len()
        invariant
            texts(lines@) == all,
            out@ == sessions_in(all.take(i as int), serial@),
    {
        assert(all.take(i + 1).drop_last() =~= all.take(i as int));
        assert(lines@[i as int]@ == all[i as int]);
        if let Some(pid) = session_of(&lines[i], serial) {
            out.push(pid);
        }
    }
    assert(all.take(all.len() as int) =~= all);
    out
}

/// The sessions to stop before one for the same device is started: every one that drives
/// it. The two modes are exclusive, since both would race to set the computer clipboard.
pub fn stop_sessions(ps_output: &str, serial: &str) -> (r: (Vec<u32>, usize))
    ensures
        r.0@ == sessions_in(text::lines(ps_output@), serial@),
        r.1 == r.0@.len(),
{
    let pids = sessions_for(ps_output, serial);
    let n = pids.len();
    (pids, n)
}

/// A line lists a process whose binary is scrcpy and whose arguments name the device.
pub open spec fn is_session(line: Seq<char>, serial: Seq<char>) -> bool {
    match text::cut_space(text::trimmed_start(line)) {
        Some((_, args)) => names_scrcpy(text::words(args)[0]) && names_serial(
            text::words(args),
            serial,
        ),
        None => false,
    }
}

/// A session is only ever one whose own binary is scrcpy and whose own arguments name
/// the device.
pub proof fn law_only_scrcpy_is_stopped(lines: Seq<Seq<char>>, serial: Seq<char>, pid: u32)
    requires
        sessions_in(lines, serial).contains(pid),
    ensures
        exists|i: int|
            0 <= i < lines.len() && #[trigger] session_in(lines[i], serial) == Some(pid) && is_session(
                lines[i],
                serial,
            ),
    decreases lines.len(),
{
    if lines.len() > 0 {
        let rest = lines.drop_last();
        if session_in(lines.last(), serial) == Some(pid) {
            assert(session_in(lines[lines.len() - 1], serial) == Some(pid));
        } else {
            let k = choose|k: int|
                0 <= k < sessions_in(lines, serial).len() && sessions_in(lines, serial)[k] == pid;
            assert(sessions_in(rest, serial)[k] == pid);
            law_only_scrcpy_is_stopped(rest, serial, pid);
            let i = choose|i: int|
                0 <= i < rest.len() && #[trigger] session_in(rest[i], serial) == Some(pid);
            assert(lines[i] == rest[i]);
            assert(session_in(lines[i], serial) == Some(pid));
        }
    }
}

/// A line of `ps` reads as a number, a space and what the process was started with.
pub open spec fn is_process_line(line: Seq<char>, pid: nat, args: Seq<char>) -> bool {
    exists|indent: Seq<char>|
        {
            &&& forall|i: int| 0 <= i < indent.len() ==> #[trigger] indent[i] == ' '
            &&& line == #[trigger] (indent + (text::decimal(pid).push(' ') + args))
        }
}

/// Words start `scrcpy`, by its name or a path that ends in it, and name a serial behind a flag
/// for it or in one word with it.
pub open spec fn starts_scrcpy_on(words: Seq<Seq<char>>, serial: Seq<char>) -> bool {
    &&& words.len() > 0
    &&& words[0] == "scrcpy"@ || exists|dir: Seq<char>| words[0] == #[trigger] dir.push('/')
        + "scrcpy"@
    &&& exists|i: int|
        0 <= i < words.len() && (#[trigger] words[i] == "--serial="@ + serial || (i + 1
            < words.len() && (words[i] == "-s"@ || words[i] == "--serial"@) && words[i + 1]
            == serial))
}

proof fn lemma_is_scrcpy(binary: Seq<char>)
    ensures
        names_scrcpy(binary) <==> binary == "scrcpy"@ || exists|dir: Seq<char>|
            binary == #[trigger] dir.push('/') + "scrcpy"@,
{
    broadcast use text::lemma_pieces_nonempty;

    reveal_strlit("scrcpy");
    let name = "scrcpy"@;
    assert(!name.contains('/'));
    text::lemma_one_line(name, '/');
    if exists|dir: Seq<char>| binary == #[trigger] dir.push('/') + name {
        let dir = choose|dir: Seq<char>| binary == #[trigger] dir.push('/') + name;
        crate::paths::lemma_pieces_joined(dir, name, '/');
        assert(text::pieces(binary, '/').last() == name);
    }
    if names_scrcpy(binary) {
        text::law_a_cut_text_goes_together_again(binary, '/');
        match text::cut_last(binary, '/') {
            Some((dir, last)) => {
                crate::paths::lemma_pieces_joined(dir, last, '/');
                text::lemma_one_line(last, '/');
                assert(text::pieces(binary, '/').last() == last);
                assert(binary == dir.push('/') + name);
            },
            None => {
                text::lemma_one_line(binary, '/');
            },
        }
    }
}

proof fn lemma_names_serial(words: Seq<Seq<char>>, serial: Seq<char>)
    ensures
        names_serial(words, serial) <==> exists|i: int|
            0 <= i < words.len() && (#[trigger] words[i] == "--serial="@ + serial || (i + 1
                < words.len() && (words[i] == "-s"@ || words[i] == "--serial"@) && words[i + 1]
                == serial)),
{
    let flag = "--serial="@;
    let n = flag.len() as int;
    assert forall|i: int| 0 <= i < words.len() implies attached(#[trigger] words[i], serial) == (
    words[i] == flag + serial) by {
        let w = words[i];
        if attached(w, serial) {
            assert(w.subrange(0, n) == flag);
            assert(w =~= w.subrange(0, n) + w.skip(n));
        }
        if w == flag + serial {
            assert(w.subrange(0, n) =~= flag);
            assert(w.skip(n) =~= serial);
        }
    }
    if exists|i: int| 0 <= i < words.len() - 1 && #[trigger] flagged(words, serial, i) {
        let i = choose|i: int| 0 <= i < words.len() - 1 && #[trigger] flagged(words, serial, i);
        assert(words[i] == "-s"@ || words[i] == "--serial"@);
    }
    if exists|i: int|
        0 <= i < words.len() && (#[trigger] words[i] == flag + serial || (i + 1 < words.len() && (
        words[i] == "-s"@ || words[i] == "--serial"@) && words[i + 1] == serial)) {
        let i = choose|i: int|
            0 <= i < words.len() && (#[trigger] words[i] == flag + serial || (i + 1 < words.len()
                && (words[i] == "-s"@ || words[i] == "--serial"@) && words[i + 1] == serial));
        if words[i] != flag + serial {
            assert(flagged(words, serial, i));
        }
    }
}

/// Every process of the report that was started as `scrcpy` on a serial is stopped for it, and
/// one that was started as anything else, or on another serial, is not.
pub proof fn law_every_session_is_stopped(
    lines: Seq<Seq<char>>,
    k: int,
    pid: nat,
    args: Seq<char>,
    serial: Seq<char>,
)
    requires
        0 <= k < lines.len(),
        is_process_line(lines[k], pid, args),
        pid <= u32::MAX,
    ensures
        starts_scrcpy_on(text::words(args), serial) ==> sessions_in(lines, serial).contains(
            pid as u32,
        ),
        !starts_scrcpy_on(text::words(args), serial) ==> session_in(lines[k], serial) is None,
{
    let indent = choose|indent: Seq<char>|
        {
            &&& forall|i: int| 0 <= i < indent.len() ==> #[trigger] indent[i] == ' '
            &&& lines[k] == #[trigger] (indent + (text::decimal(pid).push(' ') + args))
        };
    let d = text::decimal(pid);
    let bare = d.push(' ') + args;
    text::lemma_decimal_reads_back(pid);
    assert forall|i: int| 0 <= i < d.len() implies !text::is_space(#[trigger] d[i]) by {
        assert(text::is_digit(d[i]));
    }
    assert(bare[0] == d[0]);
    text::law_space_in_front_is_dropped(indent, bare);
    text::law_a_text_is_cut_at_its_first_space(d, ' ', args);
    text::law_a_written_number_reads_back(pid, u32::MAX as int);
    let words = text::words(args);
    if words.len() > 0 {
        lemma_is_scrcpy(words[0]);
    }
    lemma_names_serial(words, serial);
    if starts_scrcpy_on(words, serial) {
        assert(session_in(lines[k], serial) == Some(pid as u32));
        lemma_session_kept(lines, serial, k);
    }
}

proof fn lemma_session_kept(lines: Seq<Seq<char>>, serial: Seq<char>, k: int)
    requires
        0 <= k < lines.len(),
        session_in(lines[k], serial) is Some,
    ensures
        sessions_in(lines, serial).contains(session_in(lines[k], serial)->0),
    decreases lines.len(),
{
    let pid = session_in(lines[k], serial)->0;
    let before = sessions_in(lines.drop_last(), serial);
    let all = sessions_in(lines, serial);
    if k == lines.len() - 1 {
        assert(all[before.len() as int] == pid);
    } else {
        assert(lines.drop_last()[k] == lines[k]);
        lemma_session_kept(lines.drop_last(), serial, k);
        let i = choose|i: int| 0 <= i < before.len() && before[i] == pid;
        assert(all[i] == pid);
    }
}

} // verus!
