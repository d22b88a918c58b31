//! What every running process is touching.
use vstd::prelude::*;
use crate::order;
use crate::paths;
use crate::text;
use crate::text::texts;

verus! {

/// Why a path must not be deleted right now.
#[derive(Debug)]
pub enum Busy {
    /// A process is sitting in this directory.
    Cwd { pid: i32, name: String },
    /// A process named this path on its command line.
    Argv { pid: i32, name: String },
}

/// Why a path is in use, in mathematical terms.
#[verifier::ext_equal]
pub ghost enum Reason {
    Cwd { pid: i32, name: Seq<char> },
    Argv { pid: i32, name: Seq<char> },
}

impl Reason {
    /// The process.
    pub open spec fn pid(self) -> i32 {
        match self {
            Reason::Cwd { pid, .. } => pid,
            Reason::Argv { pid, .. } => pid,
        }
    }

    /// The reason as it is shown.
    pub open spec fn shown(self) -> Seq<char> {
        match self {
            Reason::Cwd { pid, name } => name + " (pid "@ + text::signed_decimal(pid as int)
                + ") is working in it"@,
            Reason::Argv { pid, name } => name + " (pid "@ + text::signed_decimal(pid as int)
                + ") has it open"@,
        }
    }
}

impl Busy {
    /// The reason.
    pub open spec fn view(&self) -> Reason {
        match *self {
            Busy::Cwd { pid, name } => Reason::Cwd { pid, name: name@ },
            Busy::Argv { pid, name } => Reason::Argv { pid, name: name@ },
        }
    }

    /// The reason as it is shown.
    pub fn describe(&self) -> (r: String)
        ensures
            r@ == self@.shown(),
    {
        match self {
            Busy::Cwd { pid, name } => {
                let mut out = name.clone();
                out.append(" (pid ");
                let number = text::dec_i64(*pid as i64);
                out.append(number.as_str());
                out.append(") is working in it");
                out
            },
            Busy::Argv { pid, name } => {
                let mut out = name.clone();
                out.append(" (pid ");
                let number = text::dec_i64(*pid as i64);
                out.append(number.as_str());
                out.append(") has it open");
                out
            },
        }
    }
}

/// The reasons of a list.
pub open spec fn reasons(v: Seq<Busy>) -> Seq<Reason> {
    Seq::new(v.len(), |i: int| v[i]@)
}

/// A process with its name and one thing it touches, in mathematical terms.
pub open spec fn touch(t: (i32, String, String)) -> (i32, Seq<char>, Seq<char>) {
    (t.0, t.1@, t.2@)
}

/// The processes of a list.
pub open spec fn touches(v: Seq<(i32, String, String)>) -> Seq<(i32, Seq<char>, Seq<char>)> {
    Seq::new(v.len(), |i: int| touch(v[i]))
}

/// A snapshot of what every running process is touching.
#[derive(Debug)]
pub struct Liveness {
    cwds: Vec<(i32, String, String)>,
    argv: Vec<(i32, String, String)>,
}

/// A process is among the reasons already.
pub open spec fn mentions(out: Seq<Reason>, pid: i32) -> bool {
    exists|i: int| 0 <= i < out.len() && (#[trigger] out[i]).pid() == pid
}

/// The reasons with one more, unless its process is among them already.
pub open spec fn noted(out: Seq<Reason>, r: Reason) -> Seq<Reason> {
    if mentions(out, r.pid()) {
        out
    } else {
        out.push(r)
    }
}

/// The processes whose working directory is at or below a path.
pub open spec fn working_in(
    cwds: Seq<(i32, Seq<char>, Seq<char>)>,
    path: Seq<char>,
) -> Seq<Reason>
    decreases cwds.len(),
{
    if cwds.len() == 0 {
        Seq::empty()
    } else {
        let before = working_in(cwds.drop_last(), path);
        let (pid, name, cwd) = cwds.last();
        if paths::is_under(cwd, path) {
            noted(before, Reason::Cwd { pid, name })
        } else {
            before
        }
    }
}

/// Those and the processes whose command line names the path.
pub open spec fn in_use(
    cwds: Seq<(i32, Seq<char>, Seq<char>)>,
    argv: Seq<(i32, Seq<char>, Seq<char>)>,
    path: Seq<char>,
) -> Seq<Reason>
    decreases argv.len(),
{
    if argv.len() == 0 {
        working_in(cwds, path)
    } else {
        let before = in_use(cwds, argv.drop_last(), path);
        let (pid, name, cmd) = argv.last();
        if text::occurs(cmd, path) {
            noted(before, Reason::Argv { pid, name })
        } else {
            before
        }
    }
}

fn pid_noted(out: &Vec<Busy>, pid: i32) -> (r: bool)
    ensures
        r == mentions(reasons(out@), pid),
{
    for i in 0..out.len()
        invariant
            forall|j: int| 0 <= j < i ==> (#[trigger] reasons(out@)[j]).pid() != pid,
    {
        let here: i32 = match &out[i] {
            Busy::Cwd { pid, .. } => *pid,
            Busy::Argv { pid, .. } => *pid,
        };
        if here == pid {
            assert(reasons(out@)[i as int].pid() == pid);
            return true;
        }
    }
    false
}

impl Liveness {
    /// The processes and their working directories.
    pub closed spec fn cwds(&self) -> Seq<(i32, Seq<char>, Seq<char>)> {
        touches(self.cwds@)
    }

    /// The processes and their command lines.
    pub closed spec fn argv(&self) -> Seq<(i32, Seq<char>, Seq<char>)> {
        touches(self.argv@)
    }

    /// The snapshot that the reports of `lsof` and `ps` come to. A report that
    /// could not be had lists no process.
    pub fn snapshot(lsof: &Option<String>, ps: &Option<String>, self_pid: i32) -> (r: Self)
        ensures
            r.cwds() == (match text::text_opt(*lsof) {
                Some(t) => cwd_records(t),
                None => Seq::empty(),
            }),
            r.argv() == (match text::text_opt(*ps) {
                Some(t) => ps_records(t, self_pid),
                None => Seq::empty(),
            }),
    {
        let cwds: Vec<(i32, String, String)> = match lsof {
            Some(t) => process_cwds(t),
            None => Vec::new(),
        };
        let argv: Vec<(i32, String, String)> = match ps {
            Some(t) => process_argv(t, self_pid),
            None => Vec::new(),
        };
        assert(lsof is None ==> touches(cwds@) =~= Seq::<(i32, Seq<char>, Seq<char>)>::empty());
        assert(ps is None ==> touches(argv@) =~= Seq::<(i32, Seq<char>, Seq<char>)>::empty());
        Liveness { cwds, argv }
    }

    /// Nothing running.
    pub fn empty() -> (r: Self)
        ensures
            r.cwds().len() == 0,
            r.argv().len() == 0,
    {
        Liveness { cwds: Vec::new(), argv: Vec::new() }
    }

    /// Every reason `path` is in use, one for each process. None means safe to
    /// remove.
    pub fn check(&self, path: &str) -> (r: Vec<Busy>)
        ensures
            reasons(r@) == in_use(self.cwds(), self.argv(), path@),
    {
        let ghost cwds = self.cwds();
        let ghost argv = self.argv();
        let mut out: Vec<Busy> = Vec::new();
        assert(reasons(out@) =~= working_in(cwds.take(0), path@));
        for i in 0..self.cwds.len()
            invariant
                cwds == touches(self.cwds@),
                reasons(out@) == working_in(cwds.take(i as int), path@),
        {
            assert(cwds.take(i + 1).drop_last() =~= cwds.take(i as int));
            let ghost before = reasons(out@);
            let entry = &self.cwds[i];
            assert(cwds[i as int] == touch(*entry));
            if paths::starts_with(&entry.2, path) && !pid_noted(&out, entry.0) {
                let reason = Busy::Cwd { pid: entry.0, name: entry.1.clone() };
                out.push(reason);
                assert(reasons(out@) =~= before.push(reason@));
            }
        }
        assert(cwds.take(cwds.len() as int) =~= cwds);
        assert(in_use(cwds, argv.take(0), path@) == working_in(cwds, path@));
        for i in 0..self.argv.len()
            invariant
                argv == touches(self.argv@),
                reasons(out@) == in_use(cwds, argv.take(i as int), path@),
        {
            assert(argv.take(i + 1).drop_last() =~= argv.take(i as int));
            let ghost before = reasons(out@);
            let entry = &self.argv[i];
            assert(argv[i as int] == touch(*entry));
            if text::contains(&entry.2, path) && !pid_noted(&out, entry.0) {
                let reason = Busy::Argv { pid: entry.0, name: entry.1.clone() };
                out.push(reason);
                assert(reasons(out@) =~= before.push(reason@));
            }
        }
        assert(argv.take(argv.len() as int) =~= argv);
        out
    }

    /// Whether anything is using `path`.
    pub fn is_busy(&self, path: &str) -> (r: bool)
        ensures
            r == (in_use(self.cwds(), self.argv(), path@).len() > 0),
    {
        self.check(path).len() > 0
    }
}

/// What reading a stream of `lsof -F` records has come to: the processes with a
/// working directory, and the process and name the stream is at.
pub ghost struct Records {
    pub found: Seq<(i32, Seq<char>, Seq<char>)>,
    pub pid: i32,
    pub name: Seq<char>,
}

/// The records after one more line. A line's first character says what it is.
pub open spec fn recorded(r: Records, line: Seq<char>) -> Records {
    if line.len() == 0 {
        r
    } else {
        let rest = line.skip(1);
        if line[0] == 'p' {
            Records {
                pid: match text::i32_value(rest) {
                    Some(n) => n as i32,
                    None => 0,
                },
                ..r
            }
        } else if line[0] == 'c' {
            Records { name: rest, ..r }
        } else if line[0] == 'n' && r.pid != 0 && rest.len() > 0 && rest[0] == '/' {
            Records { found: r.found.push((r.pid, r.name, rest)), ..r }
        } else {
            r
        }
    }
}

/// The records after a run of lines.
pub open spec fn all_recorded(lines: Seq<Seq<char>>) -> Records
    decreases lines.len(),
{
    if lines.len() == 0 {
        Records { found: Seq::empty(), pid: 0, name: Seq::empty() }
    } else {
        recorded(all_recorded(lines.drop_last()), lines.last())
    }
}

/// The processes with a working directory in a report of `lsof -F`.
pub open spec fn cwd_records(report: Seq<char>) -> Seq<(i32, Seq<char>, Seq<char>)> {
    all_recorded(text::lines(report)).found
}

/// Reads a report of `lsof -F`.
pub fn process_cwds(report: &str) -> (r: Vec<(i32, String, String)>)
    ensures
        touches(r@) == cwd_records(report@),
{
    let lines = text::split_lines(report);
    let ghost all = text::lines(report@);
    let mut out: Vec<(i32, String, String)> = Vec::new();
    let mut pid: i32 = 0;
    let mut name = String::new();
    assert(touches(out@) =~= Seq::<(i32, Seq<char>, Seq<char>)>::empty());
    for i in 0..lines.len()
        invariant
            texts(lines@) == all,
            ({
                let s = all_recorded(all.take(i as int));
                touches(out@) == s.found && pid == s.pid && name@ == s.name
            }),
    {
        assert(all.take(i + 1).drop_last() =~= all.take(i as int));
        let ghost before = touches(out@);
        let line = text::chars_of(&lines[i]);
        assert(line@ == all[i as int]);
        if line.len() > 0 {
            let rest = text::text_between(&line, 1, line.len());
            assert(rest@ =~= line@.skip(1));
            if line[0] == 'p' {
                pid = match text::parse_i32(&rest) {
                    Some(n) => n,
                    None => 0,
                };
            } else if line[0] == 'c' {
                name = rest;
            } else if line[0] == 'n' && pid != 0 && line.len() > 1 && line[1] == '/' {
                out.push((pid, name.clone(), rest));
                assert(touches(out@) =~= before.push((pid, name@, rest@)));
            }
        }
    }
    assert(all.take(all.len() as int) =~= all);
    out
}

/// One row of `ps -o pid=,args=`: the process, its name, and its command line.
/// The name is the last part of the first word, which is never truncated.
pub open spec fn ps_row(line: Seq<char>) -> Option<(i32, Seq<char>, Seq<char>)> {
    match text::cut_space(text::trimmed_start(line)) {
        None => None,
        Some((number, tail)) => {
            let args = text::trimmed_start(tail);
            match text::i32_value(number) {
                None => None,
                Some(pid) => if args.len() == 0 {
                    None
                } else {
                    let words = text::words(args);
                    let first = if words.len() > 0 {
                        words[0]
                    } else {
                        args
                    };
                    let name = match paths::name_of(first) {
                        Some(n) => n,
                        None => first,
                    };
                    Some((pid as i32, name, args))
                },
            }
        },
    }
}

/// A row, in mathematical terms.
pub open spec fn touch_opt(
    t: Option<(i32, String, String)>,
) -> Option<(i32, Seq<char>, Seq<char>)> {
    match t {
        Some(p) => Some(touch(p)),
        None => None,
    }
}

/// Splits one row of `ps -o pid=,args=`.
pub fn parse_ps_line(line: &str) -> (r: Option<(i32, String, String)>)
    ensures
        touch_opt(r) == ps_row(line@),
{
    let bare = text::trim_start(line);
    match text::split_space(&bare) {
        None => None,
        Some((number, tail)) => {
            let args = text::trim_start(&tail);
            match text::parse_i32(&number) {
                None => None,
                Some(pid) => {
                    if args.as_str().is_empty() {
                        return None;
                    }
                    let words = text::split_words(&args);
                    assert(words@.len() == text::words(args@).len());
                    let first: String = if words.len() > 0 {
                        assert(words@[0]@ == text::words(args@)[0]);
                        words[0].clone()
                    } else {
                        args.clone()
                    };
                    let name = match paths::file_name(&first) {
                        Some(n) => n,
                        None => first,
                    };
                    Some((pid, name, args))
                },
            }
        },
    }
}

/// The rows of a run of lines, but for the process asking.
pub open spec fn rows_but(
    lines: Seq<Seq<char>>,
    self_pid: i32,
) -> Seq<(i32, Seq<char>, Seq<char>)>
    decreases lines.len(),
{
    if lines.len() == 0 {
        Seq::empty()
    } else {
        let before = rows_but(lines.drop_last(), self_pid);
        match ps_row(lines.last()) {
            Some(row) => if row.0 != self_pid {
                before.push(row)
            } else {
                before
            },
            None => before,
        }
    }
}

/// The processes in a report of `ps`, but for the one asking.
pub open spec fn ps_records(report: Seq<char>, self_pid: i32) -> Seq<(i32, Seq<char>, Seq<char>)> {
    rows_but(text::lines(report), self_pid)
}

/// Reads a report of `ps -o pid=,args=`.
pub fn process_argv(report: &str, self_pid: i32) -> (r: Vec<(i32, String, String)>)
    ensures
        touches(r@) == ps_records(report@, self_pid),
{
    let lines = text::split_lines(report);
    let ghost all = text::lines(report@);
    let mut out: Vec<(i32, String, String)> = Vec::new();
    assert(touches(out@) =~= Seq::<(i32, Seq<char>, Seq<char>)>::empty());
    for i in 0..lines.len()
        invariant
            texts(lines@) == all,
            touches(out@) == rows_but(all.take(i as int), self_pid),
    {
        assert(all.take(i + 1).drop_last() =~= all.take(i as int));
        let ghost before = touches(out@);
        assert(lines@[i as int]@ == all[i as int]);
        if let Some(row) = parse_ps_line(&lines[i]) {
            if row.0 != self_pid {
                out.push(row);
                assert(touches(out@) =~= before.push(touch(row)));
            }
        }
    }
    assert(all.take(all.len() as int) =~= all);
    out
}

/// A process works at or below a path.
pub open spec fn works_in(cwds: Seq<(i32, Seq<char>, Seq<char>)>, path: Seq<char>, pid: i32) -> bool {
    exists|i: int|
        0 <= i < cwds.len() && (#[trigger] cwds[i]).0 == pid && paths::is_under(cwds[i].2, path)
}

/// A process names a path on its command line.
pub open spec fn names(argv: Seq<(i32, Seq<char>, Seq<char>)>, path: Seq<char>, pid: i32) -> bool {
    exists|i: int|
        0 <= i < argv.len() && (#[trigger] argv[i]).0 == pid && text::occurs(argv[i].2, path)
}

/// The process of a reason.
pub open spec fn reason_pid() -> spec_fn(Reason) -> i32 {
    |r: Reason| r.pid()
}

proof fn lemma_noted(out: Seq<Reason>, r: Reason)
    requires
        order::apart(out, reason_pid()),
    ensures
        order::apart(noted(out, r), reason_pid()),
        forall|pid: i32| #[trigger]
            mentions(noted(out, r), pid) <==> mentions(out, pid) || pid == r.pid(),
{
    let now = noted(out, r);
    if !mentions(out, r.pid()) {
        assert forall|i: int, j: int| 0 <= i < j < now.len() implies reason_pid()(
            #[trigger] now[i],
        ) != reason_pid()(#[trigger] now[j]) by {
            if j < out.len() {
                assert(reason_pid()(out[i]) != reason_pid()(out[j]));
            } else {
                assert(out[i].pid() != r.pid());
            }
        }
        assert forall|pid: i32| #[trigger]
            mentions(now, pid) <==> mentions(out, pid) || pid == r.pid() by {
            if mentions(out, pid) {
                let i = choose|i: int| 0 <= i < out.len() && (#[trigger] out[i]).pid() == pid;
                assert(now[i].pid() == pid);
            }
            if pid == r.pid() {
                assert(now[out.len() as int].pid() == pid);
            }
        }
    }
}

/// One more record is one more way to touch a path.
proof fn lemma_more_works(cwds: Seq<(i32, Seq<char>, Seq<char>)>, path: Seq<char>, pid: i32)
    requires
        cwds.len() > 0,
    ensures
        works_in(cwds, path, pid) <==> works_in(cwds.drop_last(), path, pid) || (cwds.last().0
            == pid && paths::is_under(cwds.last().2, path)),
{
    let t = cwds.drop_last();
    if works_in(t, path, pid) {
        let i = choose|i: int|
            0 <= i < t.len() && (#[trigger] t[i]).0 == pid && paths::is_under(t[i].2, path);
        assert(cwds[i] == t[i]);
    }
    if works_in(cwds, path, pid) {
        let i = choose|i: int|
            0 <= i < cwds.len() && (#[trigger] cwds[i]).0 == pid && paths::is_under(
                cwds[i].2,
                path,
            );
        if i < t.len() {
            assert(t[i] == cwds[i]);
        }
    }
    assert(cwds[cwds.len() - 1] == cwds.last());
}

proof fn lemma_more_names(argv: Seq<(i32, Seq<char>, Seq<char>)>, path: Seq<char>, pid: i32)
    requires
        argv.len() > 0,
    ensures
        names(argv, path, pid) <==> names(argv.drop_last(), path, pid) || (argv.last().0 == pid
            && text::occurs(argv.last().2, path)),
{
    let t = argv.drop_last();
    if names(t, path, pid) {
        let i = choose|i: int|
            0 <= i < t.len() && (#[trigger] t[i]).0 == pid && text::occurs(t[i].2, path);
        assert(argv[i] == t[i]);
    }
    if names(argv, path, pid) {
        let i = choose|i: int|
            0 <= i < argv.len() && (#[trigger] argv[i]).0 == pid && text::occurs(argv[i].2, path);
        if i < t.len() {
            assert(t[i] == argv[i]);
        }
    }
    assert(argv[argv.len() - 1] == argv.last());
}

proof fn lemma_working_in(cwds: Seq<(i32, Seq<char>, Seq<char>)>, path: Seq<char>)
    ensures
        ({
            let out = working_in(cwds, path);
            &&& order::apart(out, reason_pid())
            &&& forall|pid: i32| #[trigger] mentions(out, pid) <==> works_in(cwds, path, pid)
            &&& forall|i: int| 0 <= i < out.len() ==> #[trigger] out[i] is Cwd
        }),
    decreases cwds.len(),
{
    if cwds.len() > 0 {
        lemma_working_in(cwds.drop_last(), path);
        let before = working_in(cwds.drop_last(), path);
        let (pid, name, _cwd) = cwds.last();
        lemma_noted(before, Reason::Cwd { pid, name });
        assert forall|pid: i32| #[trigger]
            mentions(working_in(cwds, path), pid) <==> works_in(cwds, path, pid) by {
            lemma_more_works(cwds, path, pid);
            assert(mentions(before, pid) <==> works_in(cwds.drop_last(), path, pid));
        }
    }
}

/// A process is among the reasons if and only if it works at or below the path or names it
/// on its command line. It is there once, for working there where it does both. Those that
/// work there come first.
pub proof fn law_each_process_is_reported_once(
    cwds: Seq<(i32, Seq<char>, Seq<char>)>,
    argv: Seq<(i32, Seq<char>, Seq<char>)>,
    path: Seq<char>,
)
    ensures
        ({
            let out = in_use(cwds, argv, path);
            &&& forall|pid: i32| #[trigger]
                mentions(out, pid) <==> works_in(cwds, path, pid) || names(argv, path, pid)
            &&& order::apart(out, reason_pid())
            &&& forall|i: int|
                0 <= i < out.len() ==> (#[trigger] out[i] is Cwd <==> works_in(
                    cwds,
                    path,
                    out[i].pid(),
                ))
            &&& forall|i: int, j: int|
                0 <= i < j < out.len() && #[trigger] out[j] is Cwd ==> #[trigger] out[i] is Cwd
        }),
    decreases argv.len(),
{
    lemma_working_in(cwds, path);
    let out = in_use(cwds, argv, path);
    if argv.len() == 0 {
        assert forall|i: int| 0 <= i < out.len() implies (#[trigger] out[i] is Cwd <==> works_in(
            cwds,
            path,
            out[i].pid(),
        )) by {
            assert(mentions(out, out[i].pid()));
        }
    } else {
        let t = argv.drop_last();
        law_each_process_is_reported_once(cwds, t, path);
        let before = in_use(cwds, t, path);
        let (pid, name, _cmd) = argv.last();
        lemma_noted(before, Reason::Argv { pid, name });
        assert forall|p: i32| #[trigger]
            mentions(out, p) <==> works_in(cwds, path, p) || names(argv, path, p) by {
            lemma_more_names(argv, path, p);
            assert(mentions(before, p) <==> works_in(cwds, path, p) || names(t, path, p));
        }
        assert forall|i: int| 0 <= i < out.len() implies (#[trigger] out[i] is Cwd <==> works_in(
            cwds,
            path,
            out[i].pid(),
        )) by {
            if i < before.len() {
                assert(out[i] == before[i]);
            } else {
                assert(!mentions(before, pid));
            }
        }
    }
}

/// A path is in use exactly where some process works at or below it, or names it on its command
/// line.
pub proof fn law_a_path_is_in_use_where_a_process_touches_it(
    cwds: Seq<(i32, Seq<char>, Seq<char>)>,
    argv: Seq<(i32, Seq<char>, Seq<char>)>,
    path: Seq<char>,
)
    ensures
        in_use(cwds, argv, path).len() > 0 <==> {
            ||| exists|i: int|
                0 <= i < cwds.len() && paths::components(path).is_prefix_of(
                    paths::components((#[trigger] cwds[i]).2),
                )
            ||| exists|i: int, k: int|
                #![trigger argv[i], argv[i].2.subrange(k, k + path.len())]
                0 <= i < argv.len() && 0 <= k && k + path.len() <= argv[i].2.len()
                    && argv[i].2.subrange(k, k + path.len()) == path
        },
    decreases argv.len(),
{
    if argv.len() == 0 {
        lemma_somebody_works_in(cwds, path);
    } else {
        let rest = argv.drop_last();
        let n = argv.len() - 1;
        law_a_path_is_in_use_where_a_process_touches_it(cwds, rest, path);
        let before = in_use(cwds, rest, path);
        let cmd = argv.last().2;
        if text::occurs(cmd, path) {
            let k = choose|k: int| text::stands_at(cmd, path, k);
            assert(argv[n].2.subrange(k, k + path.len()) == path);
            assert(in_use(cwds, argv, path).len() > 0) by {
                let r = Reason::Argv { pid: argv.last().0, name: argv.last().1 };
                if mentions(before, r.pid()) {
                    let i = choose|i: int|
                        0 <= i < before.len() && (#[trigger] before[i]).pid() == r.pid();
                }
            }
        } else {
            if exists|i: int, k: int|
                #![trigger rest[i], rest[i].2.subrange(k, k + path.len())]
                0 <= i < rest.len() && 0 <= k && k + path.len() <= rest[i].2.len()
                    && rest[i].2.subrange(k, k + path.len()) == path {
                let (i, k) = choose|i: int, k: int|
                    #![trigger rest[i], rest[i].2.subrange(k, k + path.len())]
                    0 <= i < rest.len() && 0 <= k && k + path.len() <= rest[i].2.len()
                        && rest[i].2.subrange(k, k + path.len()) == path;
                assert(argv[i].2.subrange(k, k + path.len()) == path);
            }
            if exists|i: int, k: int|
                #![trigger argv[i], argv[i].2.subrange(k, k + path.len())]
                0 <= i < argv.len() && 0 <= k && k + path.len() <= argv[i].2.len()
                    && argv[i].2.subrange(k, k + path.len()) == path {
                let (i, k) = choose|i: int, k: int|
                    #![trigger argv[i], argv[i].2.subrange(k, k + path.len())]
                    0 <= i < argv.len() && 0 <= k && k + path.len() <= argv[i].2.len()
                        && argv[i].2.subrange(k, k + path.len()) == path;
                if i == n {
                    assert(text::stands_at(cmd, path, k));
                } else {
                    assert(rest[i].2.subrange(k, k + path.len()) == path);
                }
            }
        }
    }
}

proof fn lemma_somebody_works_in(cwds: Seq<(i32, Seq<char>, Seq<char>)>, path: Seq<char>)
    ensures
        working_in(cwds, path).len() > 0 <==> exists|i: int|
            0 <= i < cwds.len() && paths::components(path).is_prefix_of(
                paths::components((#[trigger] cwds[i]).2),
            ),
    decreases cwds.len(),
{
    if cwds.len() > 0 {
        let rest = cwds.drop_last();
        let n = cwds.len() - 1;
        lemma_somebody_works_in(rest, path);
        let before = working_in(rest, path);
        if paths::is_under(cwds.last().2, path) {
            assert(paths::components(path).is_prefix_of(paths::components(cwds[n].2)));
            let r = Reason::Cwd { pid: cwds.last().0, name: cwds.last().1 };
            if mentions(before, r.pid()) {
                let i = choose|i: int|
                    0 <= i < before.len() && (#[trigger] before[i]).pid() == r.pid();
            }
        } else {
            if before.len() > 0 {
                let i = choose|i: int|
                    0 <= i < rest.len() && paths::components(path).is_prefix_of(
                        paths::components((#[trigger] rest[i]).2),
                    );
                assert(cwds[i] == rest[i]);
            }
            if exists|i: int|
                0 <= i < cwds.len() && paths::components(path).is_prefix_of(
                    paths::components((#[trigger] cwds[i]).2),
                ) {
                let i = choose|i: int|
                    0 <= i < cwds.len() && paths::components(path).is_prefix_of(
                        paths::components((#[trigger] cwds[i]).2),
                    );
                assert(rest[i] == cwds[i]);
            }
        }
    }
}

/// Whatever stands before it in the report of `lsof`, a process with its number, its name and a
/// directory is read as that process in that directory.
pub proof fn law_a_process_and_its_directory_are_read(
    before: Seq<Seq<char>>,
    pid: nat,
    name: Seq<char>,
    dir: Seq<char>,
)
    requires
        0 < pid <= i32::MAX,
        dir.len() > 0,
        dir[0] == '/',
    ensures
        all_recorded(
            before.push(seq!['p'] + text::decimal(pid)).push(seq!['c'] + name).push(
                seq!['n'] + dir,
            ),
        ).found == all_recorded(before).found.push((pid as i32, name, dir)),
{
    let p = seq!['p'] + text::decimal(pid);
    let c = seq!['c'] + name;
    let n = seq!['n'] + dir;
    assert(p.skip(1) =~= text::decimal(pid));
    assert(c.skip(1) =~= name);
    assert(n.skip(1) =~= dir);
    text::lemma_decimal_reads_back(pid);
    assert(text::decimal(pid)[0] != '-' && text::decimal(pid)[0] != '+') by {
        assert(text::is_digit(text::decimal(pid)[0]));
    }
    assert(text::i32_value(text::decimal(pid)) == Some(pid as int));
    assert(before.push(p).push(c).push(n).drop_last() =~= before.push(p).push(c));
    assert(before.push(p).push(c).drop_last() =~= before.push(p));
    assert(before.push(p).drop_last() =~= before);
    let a = all_recorded(before);
    let r1 = all_recorded(before.push(p));
    assert(r1 == recorded(a, p));
    assert(r1.pid == pid as i32);
    let r2 = all_recorded(before.push(p).push(c));
    assert(r2 == recorded(r1, c));
}

/// A process is listed by `ps` where its row can be read, unless it is the one asking.
pub proof fn law_every_process_but_this_one_is_listed(
    lines: Seq<Seq<char>>,
    self_pid: i32,
    row: (i32, Seq<char>, Seq<char>),
)
    ensures
        rows_but(lines, self_pid).contains(row) <==> row.0 != self_pid && exists|i: int|
            0 <= i < lines.len() && ps_row(#[trigger] lines[i]) == Some(row),
    decreases lines.len(),
{
    if lines.len() > 0 {
        let rest = lines.drop_last();
        let n = lines.len() - 1;
        let before = rows_but(rest, self_pid);
        let now = rows_but(lines, self_pid);
        law_every_process_but_this_one_is_listed(rest, self_pid, row);
        if before.contains(row) {
            let i = choose|i: int| 0 <= i < rest.len() && ps_row(#[trigger] rest[i]) == Some(row);
            assert(lines[i] == rest[i]);
            let j = choose|j: int| 0 <= j < before.len() && before[j] == row;
            assert(now[j] == row);
        }
        if now.contains(row) && !before.contains(row) {
            let j = choose|j: int| 0 <= j < now.len() && now[j] == row;
            if j < before.len() {
                assert(before[j] == row);
            }
            assert(ps_row(lines[n]) == Some(row));
        }
        if row.0 != self_pid && exists|i: int|
            0 <= i < lines.len() && ps_row(#[trigger] lines[i]) == Some(row) {
            let i = choose|i: int| 0 <= i < lines.len() && ps_row(#[trigger] lines[i]) == Some(row);
            if i < n {
                assert(rest[i] == lines[i]);
            } else {
                assert(now[before.len() as int] == row);
            }
        }
    }
}

/// A row of `ps` is the process with its number, and the whole of the command line, whatever
/// stands in it; the name is the last part of the first word.
pub proof fn law_a_row_of_ps_is_read_whole(
    indent: Seq<char>,
    pid: nat,
    gap: Seq<char>,
    dir: Seq<char>,
    name: Seq<char>,
    rest: Seq<char>,
)
    requires
        forall|i: int| 0 <= i < indent.len() ==> #[trigger] indent[i] == ' ',
        forall|i: int| 0 <= i < gap.len() ==> #[trigger] gap[i] == ' ',
        pid <= i32::MAX,
        dir.len() > 0,
        dir[0] == '/',
        forall|i: int| 0 <= i < dir.len() ==> !text::is_space(#[trigger] dir[i]),
        name.len() > 0,
        !name.contains('/'),
        paths::is_name(name),
        forall|i: int| 0 <= i < name.len() ==> !text::is_space(#[trigger] name[i]),
    ensures
        ({
            let args = (dir.push('/') + name).push(' ') + rest;
            let line = indent + (text::decimal(pid).push(' ') + (gap + args));
            ps_row(line) == Some((pid as i32, name, args))
        }),
{
    let program = dir.push('/') + name;
    let args = program.push(' ') + rest;
    let d = text::decimal(pid);
    let tail = gap + args;
    let bare = d.push(' ') + tail;
    text::lemma_decimal_reads_back(pid);
    assert forall|i: int| 0 <= i < d.len() implies !text::is_space(#[trigger] d[i]) by {
        assert(text::is_digit(d[i]));
    }
    assert(bare[0] == d[0]);
    text::law_space_in_front_is_dropped(indent, bare);
    text::law_a_text_is_cut_at_its_first_space(d, ' ', tail);
    assert(args[0] == '/');
    text::law_space_in_front_is_dropped(gap, args);
    text::law_a_written_number_reads_back(pid, i32::MAX as int);
    assert(text::signed_decimal(pid as int) == d);
    text::law_space_keeps_words_apart(program, ' ', rest);
    assert forall|i: int| 0 <= i < program.len() implies !text::is_space(
        #[trigger] program[i],
    ) by {
        if i < dir.len() {
            assert(program[i] == dir[i]);
        } else if i > dir.len() {
            assert(program[i] == name[i - dir.len() - 1]);
        }
    }
    text::law_a_solid_text_is_one_word(program);
    assert(text::words(args)[0] == program);
    paths::law_names_side_by_side_are_apart(dir, name, name);
}

/// Each line of `lsof` says one thing, by its first letter: the process, its name, or a path it
/// has open, which counts where it begins at the root and the process is known. Any other line
/// changes nothing.
pub proof fn law_each_line_of_lsof_says_one_thing(
    before: Seq<Seq<char>>,
    line: Seq<char>,
    said: Seq<char>,
    pid: nat,
)
    requires
        pid <= i32::MAX,
    ensures
        ({
            let now = all_recorded(before);
            let numbered = all_recorded(before.push(seq!['p'] + text::decimal(pid)));
            let called = all_recorded(before.push(seq!['c'] + said));
            let opened = all_recorded(before.push(seq!['n'] + said));
            let other = all_recorded(before.push(line));
            &&& numbered.pid == pid && numbered.name == now.name && numbered.found == now.found
            &&& called.pid == now.pid && called.name == said && called.found == now.found
            &&& opened.pid == now.pid && opened.name == now.name
            &&& opened.found == (if now.pid != 0 && said.len() > 0 && said[0] == '/' {
                now.found.push((now.pid, now.name, said))
            } else {
                now.found
            })
            &&& line.len() == 0 || (line[0] != 'p' && line[0] != 'c' && line[0] != 'n') ==> other
                == now
        }),
        all_recorded(Seq::empty()).found.len() == 0,
        all_recorded(Seq::empty()).pid == 0,
{
    let p = seq!['p'] + text::decimal(pid);
    let c = seq!['c'] + said;
    let n = seq!['n'] + said;
    assert(p.skip(1) =~= text::decimal(pid));
    assert(c.skip(1) =~= said);
    assert(n.skip(1) =~= said);
    assert(before.push(p).drop_last() =~= before);
    assert(before.push(c).drop_last() =~= before);
    assert(before.push(n).drop_last() =~= before);
    assert(before.push(line).drop_last() =~= before);
    text::law_a_written_number_reads_back(pid, i32::MAX as int);
    assert(text::signed_decimal(pid as int) == text::decimal(pid));
}

} // verus!
