//! Stops an app, then deletes what the scan turned up.
use vstd::prelude::*;
use crate::apps::bundle::AppBundle;
use crate::apps::leftovers::{display_of, target_of, Kind, KindRow, Leftover, LeftoverRow};
use crate::paths;
use crate::resource::CommandOutput;
use crate::text;
use crate::text::{text_opt, texts};

verus! {

/// What becomes of what is removed.
#[derive(Debug, Clone, Copy, PartialEq, Eq, Structural)]
pub enum Mode {
    /// Move to the Trash, recoverable from Finder.
    Trash,
    /// Unlink for good.
    Purge,
}

/// What a removal came to.
#[derive(Debug)]
pub struct Report {
    pub removed: Vec<String>,
    pub failed: Vec<(String, String)>,
    pub freed: u64,
    /// Root-owned items are deleted outright: the Trash is per-user.
    pub forced_purge: Vec<String>,
}

/// What a removal came to.
pub ghost struct ReportRow {
    pub removed: Seq<Seq<char>>,
    pub failed: Seq<(Seq<char>, Seq<char>)>,
    pub freed: int,
    pub forced: Seq<Seq<char>>,
}

/// The characters of failures.
pub open spec fn failures(v: Seq<(String, String)>) -> Seq<(Seq<char>, Seq<char>)> {
    v.map_values(|f: (String, String)| (f.0@, f.1@))
}

impl Report {
    pub open spec fn row(self) -> ReportRow {
        ReportRow {
            removed: texts(self.removed@),
            failed: failures(self.failed@),
            freed: self.freed as int,
            forced: texts(self.forced_purge@),
        }
    }
}

/// A report of nothing.
pub open spec fn blank() -> ReportRow {
    ReportRow {
        removed: Seq::empty(),
        failed: Seq::empty(),
        freed: 0,
        forced: Seq::empty(),
    }
}

impl Default for Report {
    fn default() -> (r: Self)
        ensures
            r.row() == blank(),
    {
        let r = Report {
            removed: Vec::new(),
            failed: Vec::new(),
            freed: 0,
            forced_purge: Vec::new(),
        };
        assert(texts(r.removed@) =~= Seq::<Seq<char>>::empty());
        assert(failures(r.failed@) =~= Seq::<(Seq<char>, Seq<char>)>::empty());
        assert(texts(r.forced_purge@) =~= Seq::<Seq<char>>::empty());
        r
    }
}

/// A reason that only the privacy layer gives.
pub open spec fn is_privacy_denial(err: Seq<char>) -> bool {
    let e = text::lowercase(err);
    text::occurs(e, "operation not permitted"@) || text::occurs(e, "permission to access"@)
}

/// macOS refuses to let an app touch another app's container unless the caller holds
/// Full Disk Access. Sudo does not substitute for it: this is the privacy layer, not
/// file permissions.
pub fn is_tcc_denial(err: &str) -> (r: bool)
    ensures
        r == is_privacy_denial(err@),
{
    let e = text::to_lowercase(err);
    text::contains(&e, "operation not permitted") || text::contains(&e, "permission to access")
}

/// The directory that can be listed only with Full Disk Access.
pub fn access_probe(home: &Option<String>) -> (r: Option<String>)
    ensures
        text_opt(r) == (match text_opt(*home) {
            Some(h) => Some(paths::below(h, "Library/Application Support/com.apple.TCC"@)),
            None => None,
        }),
{
    match home {
        Some(h) => Some(paths::join(h, "Library/Application Support/com.apple.TCC")),
        None => None,
    }
}

/// Whether this process holds Full Disk Access, given whether the probe could be listed.
pub fn has_full_disk_access(home: &Option<String>, listed: bool) -> (r: bool)
    ensures
        r == (home is Some && listed),
{
    home.is_some() && listed
}

/// True if anything in `items` sits outside the user's control.
pub fn requires_root(items: &[Leftover]) -> (r: bool)
    ensures
        r == exists|i: int| 0 <= i < items@.len() && (#[trigger] items@[i]).needs_root,
{
    for i in 0..items.len()
        invariant
            forall|j: int| 0 <= j < i ==> !(#[trigger] items@[j]).needs_root,
    {
        if items[i].needs_root {
            return true;
        }
    }
    false
}

/// What asking for the rights of root up front came to, so that removal does not stall
/// on a password prompt halfway through.
pub fn escalate(ended: &Result<bool, String>) -> (r: Result<(), String>)
    ensures
        match *ended {
            Ok(success) => if success {
                r is Ok
            } else {
                r matches Err(e) && e@ == "sudo authentication failed"@
            },
            Err(why) => r matches Err(e) && e@ == "could not run sudo: "@ + why@,
        },
{
    match ended {
        Ok(success) => {
            if *success {
                Ok(())
            } else {
                Err("sudo authentication failed".to_owned())
            }
        },
        Err(why) => {
            let mut out: String = "could not run sudo: ".to_owned();
            out.append(why.as_str());
            Err(out)
        },
    }
}

/// The process of a line of `ps` whose executable lies inside a bundle.
pub open spec fn pid_in(line: Seq<char>, bundle: Seq<char>) -> Option<u32> {
    match text::cut_first(text::trimmed_start(line), ' ') {
        Some((pid, command)) => if (bundle + "/"@).is_prefix_of(text::trimmed_start(command)) {
            match text::unsigned_value(pid, u32::MAX as int) {
                Some(n) => Some(n as u32),
                None => None,
            }
        } else {
            None
        },
        None => None,
    }
}

/// The processes whose executable lies inside a bundle.
pub open spec fn pids_in(lines: Seq<Seq<char>>, bundle: Seq<char>) -> Seq<u32>
    decreases lines.len(),
{
    if lines.len() == 0 {
        Seq::empty()
    } else {
        let before = pids_in(lines.drop_last(), bundle);
        match pid_in(lines.last(), bundle) {
            Some(pid) => before.push(pid),
            None => before,
        }
    }
}

fn parse_pid(line: &str, prefix: &str, bundle: &str) -> (r: Option<u32>)
    requires
        prefix@ == bundle@ + "/"@,
    ensures
        r == pid_in(line@, bundle@),
{
    let bare = text::trim_start(line);
    match text::split_once(&bare, ' ') {
        Some((pid, command)) => {
            let rest = text::trim_start(&command);
            if text::starts_with(&rest, prefix) {
                text::parse_u32(&pid)
            } else {
                None
            }
        },
        None => None,
    }
}

/// PIDs of processes whose executable lives inside `bundle`, from the output of
/// `ps -Ao pid=,comm=`.
///
/// Matching on the executable path means that a grep or editor that merely mentions the
/// bundle is never mistaken for the app.
pub fn parse_pids(ps_output: &str, bundle: &str) -> (r: Vec<u32>)
    ensures
        r@ == pids_in(text::lines(ps_output@), bundle@),
{
    let mut prefix: String = bundle.to_owned();
    prefix.append("/");
    let lines = text::split_lines(ps_output);
    let ghost all = text::lines(ps_output@);
    let mut out: Vec<u32> = Vec::new();
    for i in 0..lines.len()
        invariant
            texts(lines@) == all,
            prefix@ == bundle@ + "/"@,
            out@ == pids_in(all.take(i as int), bundle@),
    {
        assert(all.take(i + 1).drop_last() =~= all.take(i as int));
        assert(lines@[i as int]@ == all[i as int]);
        if let Some(pid) = parse_pid(&lines[i], &prefix, bundle) {
            out.push(pid);
        }
    }
    assert(all.take(all.len() as int) =~= all);
    out
}

/// The processes of an app, from what `ps` printed where it ran.
pub open spec fn running(app: AppBundle, ps: Option<String>) -> Seq<u32> {
    match ps {
        Some(printed) => pids_in(text::lines(printed@), app.path@),
        None => Seq::empty(),
    }
}

/// The processes of an app, from what `ps` printed where it ran.
pub fn running_pids(app: &AppBundle, ps: &Option<String>) -> (r: Vec<u32>)
    ensures
        r@ == running(*app, *ps),
{
    match ps {
        Some(printed) => parse_pids(printed, &app.path),
        None => Vec::new(),
    }
}

/// Whether an app is running.
pub fn is_running(app: &AppBundle, ps: &Option<String>) -> (r: bool)
    ensures
        r == (running(*app, *ps).len() > 0),
{
    running_pids(app, ps).len() > 0
}

/// What to do next about an app that is to quit.
#[derive(Debug)]
pub enum QuitStep {
    /// Nothing more. Says whether it had been running.
    Done(bool),
    /// Run a script that asks it to quit, where it can be asked.
    Ask(Option<String>),
    /// Wait a moment.
    Wait,
    /// Kill these processes, never a pattern.
    Kill(Vec<u32>),
}

/// How often an app that was asked to quit is looked at before it is killed.
pub const QUIT_POLLS: u8 = 10;

/// How long to wait between two looks, in milliseconds.
pub const QUIT_WAIT_MS: u64 = 300;

/// An app that is asked to quit, and killed if it ignores the request.
#[derive(Debug, Clone, Copy)]
pub struct Quit {
    /// Whether it was asked.
    pub asked: bool,
    /// How often it was looked at since.
    pub polls: u8,
    /// Whether it was killed.
    pub killed: bool,
}

/// The script that asks an app to quit.
pub open spec fn quit_script(id: Option<Seq<char>>) -> Option<Seq<char>> {
    match id {
        Some(id) => Some("tell application id \""@ + id + "\" to quit"@),
        None => None,
    }
}

impl Quit {
    /// Nothing done yet.
    pub fn start() -> (r: Self)
        ensures
            r == (Quit { asked: false, polls: 0, killed: false }),
    {
        Quit { asked: false, polls: 0, killed: false }
    }

    /// What to do next, given what `ps` prints now.
    pub fn quit(&mut self, app: &AppBundle, ps: &Option<String>) -> (r: QuitStep)
        requires
            old(self).polls <= QUIT_POLLS,
        ensures
            final(self).polls <= QUIT_POLLS,
            ({
                let up = running(*app, *ps);
                let before = *old(self);
                if before.killed {
                    r == QuitStep::Done(true) && *final(self) == before
                } else if !before.asked {
                    if up.len() == 0 {
                        r == QuitStep::Done(false) && *final(self) == before
                    } else {
                        &&& r matches QuitStep::Ask(script)
                        &&& text_opt(script) == quit_script(text_opt(app.bundle_id))
                        &&& *final(self) == (Quit { asked: true, ..before })
                    }
                } else if up.len() == 0 {
                    r == QuitStep::Done(true) && *final(self) == before
                } else if before.polls < QUIT_POLLS {
                    r == QuitStep::Wait && *final(self) == (Quit {
                        polls: (before.polls + 1) as u8,
                        ..before
                    })
                } else {
                    &&& r matches QuitStep::Kill(pids)
                    &&& pids@ == up
                    &&& *final(self) == (Quit { killed: true, ..before })
                }
            }),
    {
        if self.killed {
            return QuitStep::Done(true);
        }
        let up = running_pids(app, ps);
        if !self.asked {
            if up.len() == 0 {
                return QuitStep::Done(false);
            }
            self.asked = true;
            match &app.bundle_id {
                Some(id) => {
                    let mut script: String = "tell application id \"".to_owned();
                    script.append(id.as_str());
                    script.append("\" to quit");
                    return QuitStep::Ask(Some(script));
                },
                None => {
                    return QuitStep::Ask(None);
                },
            }
        }
        if up.len() == 0 {
            return QuitStep::Done(true);
        }
        if self.polls < QUIT_POLLS {
            self.polls = self.polls + 1;
            return QuitStep::Wait;
        }
        self.killed = true;
        QuitStep::Kill(up)
    }
}

/// What is done about an item.
#[derive(Debug, Clone, Copy, PartialEq, Eq, Structural)]
pub enum Action {
    /// Nothing: it is already gone.
    Skip,
    /// Its receipt is forgotten.
    Forget,
    /// It is moved to the Trash with the rest of the batch.
    Batch,
    /// It is deleted as root.
    Sudo,
    /// It is deleted.
    Unlink,
}

/// What is done about an item.
pub open spec fn action_of(kind: KindRow, needs_root: bool, gone: bool, mode: Mode) -> Action {
    if target_of(kind) is None {
        Action::Forget
    } else if gone {
        Action::Skip
    } else if needs_root {
        Action::Sudo
    } else {
        match mode {
            Mode::Trash => Action::Batch,
            Mode::Purge => Action::Unlink,
        }
    }
}

/// What is done about an item, given whether its file is already gone. The Trash is
/// per-user, so a root-owned item is deleted outright.
pub fn action_for(item: &Leftover, gone: bool, mode: Mode) -> (r: Action)
    ensures
        r == action_of(item.row().kind, item.needs_root, gone, mode),
{
    match &item.kind {
        Kind::Receipt(_) => Action::Forget,
        _ => {
            if gone {
                Action::Skip
            } else if item.needs_root {
                Action::Sudo
            } else {
                match mode {
                    Mode::Trash => Action::Batch,
                    Mode::Purge => Action::Unlink,
                }
            }
        },
    }
}

/// The command that does what is to be done about an item. Nothing for what no command
/// does.
pub open spec fn command_of(kind: KindRow, action: Action) -> Option<Seq<Seq<char>>> {
    match (action, kind, target_of(kind)) {
        (Action::Forget, KindRow::Receipt(id), _) => Some(
            seq!["sudo"@, "pkgutil"@, "--forget"@, id],
        ),
        (Action::Sudo, _, Some(path)) => Some(seq!["sudo"@, "rm"@, "-rf"@, path]),
        (Action::Unlink, _, Some(path)) => Some(seq!["rm"@, "-rf"@, path]),
        _ => None,
    }
}

/// The command that does what is to be done about an item.
pub fn remove_path(item: &Leftover, action: Action) -> (r: Option<Vec<String>>)
    ensures
        match r {
            Some(v) => command_of(item.row().kind, action) == Some(texts(v@)),
            None => command_of(item.row().kind, action) is None,
        },
{
    match action {
        Action::Forget => match &item.kind {
            Kind::Receipt(id) => {
                let v: Vec<String> = vec![
                    "sudo".to_owned(),
                    "pkgutil".to_owned(),
                    "--forget".to_owned(),
                    id.clone(),
                ];
                assert(texts(v@) =~= seq!["sudo"@, "pkgutil"@, "--forget"@, id@]);
                Some(v)
            },
            _ => None,
        },
        Action::Sudo => match item.target_path() {
            Some(p) => {
                let v: Vec<String> = vec![
                    "sudo".to_owned(),
                    "rm".to_owned(),
                    "-rf".to_owned(),
                    p.clone(),
                ];
                assert(texts(v@) =~= seq!["sudo"@, "rm"@, "-rf"@, p@]);
                Some(v)
            },
            None => None,
        },
        Action::Unlink => match item.target_path() {
            Some(p) => {
                let v: Vec<String> = vec!["rm".to_owned(), "-rf".to_owned(), p.clone()];
                assert(texts(v@) =~= seq!["rm"@, "-rf"@, p@]);
                Some(v)
            },
            None => None,
        },
        _ => None,
    }
}

/// What a command came to, with its label before the reason it could not be started and
/// what it complained of otherwise.
pub fn command_outcome(label: &str, ended: &Result<CommandOutput, String>) -> (r: Result<
    (),
    String,
>)
    ensures
        match *ended {
            Err(why) => r matches Err(e) && e@ == label@ + ": "@ + why@,
            Ok(out) => if out.success {
                r is Ok
            } else {
                r matches Err(e) && e@ == text::trimmed(out.stderr@)
            },
        },
{
    match ended {
        Err(why) => {
            let mut out: String = label.to_owned();
            out.append(": ");
            out.append(why.as_str());
            Err(out)
        },
        Ok(done) => {
            if done.success {
                Ok(())
            } else {
                Err(text::trim(&done.stderr))
            }
        },
    }
}

/// The command that boots a launchd job out.
pub open spec fn bootout_of(domain: Seq<char>, label: Seq<char>, needs_root: bool) -> Seq<
    Seq<char>,
> {
    if needs_root {
        seq!["sudo"@, "launchctl"@, "bootout"@, domain + "/"@ + label]
    } else {
        seq!["launchctl"@, "bootout"@, domain + "/"@ + label]
    }
}

/// The commands that boot the launchd jobs among items out.
pub open spec fn bootouts_of(items: Seq<Leftover>) -> Seq<Seq<Seq<char>>>
    decreases items.len(),
{
    if items.len() == 0 {
        Seq::empty()
    } else {
        let before = bootouts_of(items.drop_last());
        match items.last().row().kind {
            KindRow::Job { label, domain, .. } => before.push(
                bootout_of(domain, label, items.last().needs_root),
            ),
            _ => before,
        }
    }
}

/// The texts of commands.
pub open spec fn commands(v: Seq<Vec<String>>) -> Seq<Seq<Seq<char>>> {
    v.map_values(|c: Vec<String>| texts(c@))
}

fn bootout(domain: &str, label: &str, needs_root: bool) -> (r: Vec<String>)
    ensures
        texts(r@) == bootout_of(domain@, label@, needs_root),
{
    let mut target: String = domain.to_owned();
    target.append("/");
    target.append(label);
    let mut v: Vec<String> = Vec::new();
    if needs_root {
        v.push("sudo".to_owned());
    }
    v.push("launchctl".to_owned());
    v.push("bootout".to_owned());
    v.push(target);
    assert(texts(v@) =~= bootout_of(domain@, label@, needs_root));
    v
}

/// What is done before anything is removed: a running daemon rewrites its support files
/// as they vanish, so the jobs go first.
pub fn bootouts(items: &[Leftover]) -> (r: Vec<Vec<String>>)
    ensures
        commands(r@) == bootouts_of(items@),
{
    let mut out: Vec<Vec<String>> = Vec::new();
    assert(commands(out@) =~= Seq::<Seq<Seq<char>>>::empty());
    for i in 0..items.len()
        invariant
            commands(out@) == bootouts_of(items@.take(i as int)),
    {
        assert(items@.take(i + 1).drop_last() =~= items@.take(i as int));
        let ghost before = commands(out@);
        if let Kind::LaunchdJob { label, domain, .. } = &items[i].kind {
            let c = bootout(domain, label, items[i].needs_root);
            let ghost row = texts(c@);
            out.push(c);
            assert(commands(out@) =~= before.push(row));
        }
    }
    assert(items@.take(items@.len() as int) =~= items@);
    out
}

/// What came of what was done about an item.
#[derive(Debug)]
pub struct Facts {
    /// Whether its file was gone before anything was done.
    pub gone: bool,
    /// What deleting it, or forgetting its receipt, came to.
    pub outcome: Result<(), String>,
    /// Whether its file was gone once the batch had failed.
    pub gone_after: bool,
    /// What moving it to the Trash on its own came to.
    pub retry: Result<(), String>,
}

/// An outcome with its error as characters.
pub open spec fn outcome_text(r: Result<(), String>) -> Result<(), Seq<char>> {
    match r {
        Ok(_) => Ok(()),
        Err(e) => Err(e@),
    }
}

/// A report with one more outcome in it.
pub open spec fn recorded(
    report: ReportRow,
    row: LeftoverRow,
    outcome: Result<(), Seq<char>>,
) -> ReportRow {
    match outcome {
        Ok(_) => ReportRow {
            removed: report.removed.push(display_of(row.kind)),
            freed: report.freed + row.size,
            ..report
        },
        Err(e) => ReportRow { failed: report.failed.push((display_of(row.kind), e)), ..report },
    }
}

/// What is done about one of the items.
pub open spec fn action_at(items: Seq<Leftover>, facts: Seq<Facts>, mode: Mode, i: int) -> Action {
    action_of(items[i].row().kind, items[i].needs_root, facts[i].gone, mode)
}

/// The report once the first `n` items that are not for the Trash were dealt with.
pub open spec fn directly(items: Seq<Leftover>, facts: Seq<Facts>, mode: Mode, n: int) -> ReportRow
    decreases n,
{
    if n <= 0 {
        blank()
    } else {
        let before = directly(items, facts, mode, n - 1);
        let row = items[n - 1].row();
        let outcome = outcome_text(facts[n - 1].outcome);
        match action_at(items, facts, mode, n - 1) {
            Action::Skip => before,
            Action::Batch => before,
            Action::Sudo => recorded(
                if mode == Mode::Trash {
                    ReportRow { forced: before.forced.push(target_of(row.kind)->0), ..before }
                } else {
                    before
                },
                row,
                outcome,
            ),
            _ => recorded(before, row, outcome),
        }
    }
}

/// What became of an item of the batch. A partially applied batch already moved some of
/// them.
pub open spec fn batch_outcome(f: Facts, batch_ok: bool) -> Result<(), Seq<char>> {
    if batch_ok || f.gone_after {
        Ok(())
    } else {
        outcome_text(f.retry)
    }
}

/// The report once the first `n` items of the batch were dealt with as well.
pub open spec fn trashed(
    items: Seq<Leftover>,
    facts: Seq<Facts>,
    mode: Mode,
    batch_ok: bool,
    n: int,
) -> ReportRow
    decreases n,
{
    if n <= 0 {
        directly(items, facts, mode, items.len() as int)
    } else {
        let before = trashed(items, facts, mode, batch_ok, n - 1);
        if action_at(items, facts, mode, n - 1) == Action::Batch {
            recorded(before, items[n - 1].row(), batch_outcome(facts[n - 1], batch_ok))
        } else {
            before
        }
    }
}

/// The bytes of the first `n` items.
pub open spec fn bytes_to(items: Seq<Leftover>, n: int) -> int
    decreases n,
{
    if n <= 0 {
        0
    } else {
        bytes_to(items, n - 1) + items[n - 1].size
    }
}

/// The bytes of those of the first `n` items that are for the Trash.
pub open spec fn batch_bytes(items: Seq<Leftover>, facts: Seq<Facts>, mode: Mode, n: int) -> int
    decreases n,
{
    if n <= 0 {
        0
    } else {
        batch_bytes(items, facts, mode, n - 1) + if action_at(items, facts, mode, n - 1)
            == Action::Batch {
            items[n - 1].size as int
        } else {
            0
        }
    }
}

proof fn lemma_direct_bytes(items: Seq<Leftover>, facts: Seq<Facts>, mode: Mode, n: int)
    requires
        0 <= n,
    ensures
        0 <= directly(items, facts, mode, n).freed,
        directly(items, facts, mode, n).freed + batch_bytes(items, facts, mode, n) <= bytes_to(
            items,
            n,
        ),
        0 <= batch_bytes(items, facts, mode, n),
    decreases n,
{
    if n > 0 {
        lemma_direct_bytes(items, facts, mode, n - 1);
    }
}

proof fn lemma_batch_bytes_grow(items: Seq<Leftover>, facts: Seq<Facts>, mode: Mode, n: int, m: int)
    requires
        0 <= n <= m,
    ensures
        batch_bytes(items, facts, mode, n) <= batch_bytes(items, facts, mode, m),
        bytes_to(items, n) <= bytes_to(items, m),
    decreases m,
{
    if n < m {
        lemma_batch_bytes_grow(items, facts, mode, n, m - 1);
    }
}

proof fn lemma_trashed_bytes(
    items: Seq<Leftover>,
    facts: Seq<Facts>,
    mode: Mode,
    batch_ok: bool,
    n: int,
)
    requires
        0 <= n,
    ensures
        0 <= trashed(items, facts, mode, batch_ok, n).freed,
        trashed(items, facts, mode, batch_ok, n).freed <= directly(
            items,
            facts,
            mode,
            items.len() as int,
        ).freed + batch_bytes(items, facts, mode, n),
    decreases n,
{
    if n > 0 {
        lemma_trashed_bytes(items, facts, mode, batch_ok, n - 1);
    } else {
        lemma_direct_bytes(items, facts, mode, items.len() as int);
    }
}

fn record(report: &mut Report, item: &Leftover, outcome: Result<(), String>)
    requires
        old(report).freed + item.size <= u64::MAX,
    ensures
        final(report).row() == recorded(old(report).row(), item.row(), outcome_text(outcome)),
{
    let shown = item.display();
    let ghost before = report.row();
    match outcome {
        Ok(_) => {
            report.freed = report.freed + item.size;
            let ghost name = shown@;
            report.removed.push(shown);
            assert(texts(report.removed@) =~= before.removed.push(name));
        },
        Err(e) => {
            let ghost pair = (shown@, e@);
            report.failed.push((shown, e));
            assert(failures(report.failed@) =~= before.failed.push(pair));
        },
    }
}

fn copied(r: &Result<(), String>) -> (c: Result<(), String>)
    ensures
        outcome_text(c) == outcome_text(*r),
{
    match r {
        Ok(_) => Ok(()),
        Err(e) => Err(e.clone()),
    }
}

/// What removing items came to: those that are deleted or forgotten in order, then the
/// batch for the Trash, item by item where the batch as a whole failed.
pub fn execute(items: &[Leftover], facts: &Vec<Facts>, mode: Mode, batch_ok: bool) -> (r: Report)
    requires
        facts@.len() == items@.len(),
        bytes_to(items@, items@.len() as int) <= u64::MAX,
    ensures
        r.row() == trashed(items@, facts@, mode, batch_ok, items@.len() as int),
{
    let mut report: Report = Report::default();
    for i in 0..items.len()
        invariant
            facts@.len() == items@.len(),
            bytes_to(items@, items@.len() as int) <= u64::MAX,
            report.row() == directly(items@, facts@, mode, i as int),
    {
        let item = &items[i];
        let action = action_for(item, facts[i].gone, mode);
        proof {
            lemma_direct_bytes(items@, facts@, mode, i as int);
            lemma_batch_bytes_grow(items@, facts@, mode, i + 1, items@.len() as int);
        }
        match action {
            Action::Skip => {},
            Action::Batch => {},
            Action::Sudo => {
                let trash: bool = match mode {
                    Mode::Trash => true,
                    Mode::Purge => false,
                };
                if trash {
                    if let Some(p) = item.target_path() {
                        let ghost before = report.row();
                        report.forced_purge.push(p.clone());
                        assert(texts(report.forced_purge@) =~= before.forced.push(p@));
                        assert(report.row() == (ReportRow {
                            forced: before.forced.push(p@),
                            ..before
                        }));
                    }
                }
                record(&mut report, item, copied(&facts[i].outcome));
            },
            _ => {
                record(&mut report, item, copied(&facts[i].outcome));
            },
        }
    }
    for i in 0..items.len()
        invariant
            facts@.len() == items@.len(),
            bytes_to(items@, items@.len() as int) <= u64::MAX,
            report.row() == trashed(items@, facts@, mode, batch_ok, i as int),
    {
        let item = &items[i];
        let action = action_for(item, facts[i].gone, mode);
        proof {
            lemma_direct_bytes(items@, facts@, mode, items@.len() as int);
            lemma_trashed_bytes(items@, facts@, mode, batch_ok, i as int);
            lemma_batch_bytes_grow(items@, facts@, mode, i + 1, items@.len() as int);
        }
        if action == Action::Batch {
            let outcome = if batch_ok || facts[i].gone_after {
                Ok(())
            } else {
                copied(&facts[i].retry)
            };
            record(&mut report, item, outcome);
        }
    }
    report
}

/// The items of the batch for the Trash.
pub fn to_trash<'a>(items: &'a [Leftover], facts: &Vec<Facts>, mode: Mode) -> (r: Vec<&'a Leftover>)
    requires
        facts@.len() == items@.len(),
    ensures
        r@.unref() == batch(items@, facts@, mode, items@.len() as int),
{
    let mut out: Vec<&Leftover> = Vec::new();
    assert(out@.unref() =~= Seq::<Leftover>::empty());
    for i in 0..items.len()
        invariant
            facts@.len() == items@.len(),
            out@.unref() == batch(items@, facts@, mode, i as int),
    {
        let action = action_for(&items[i], facts[i].gone, mode);
        if action == Action::Batch {
            let ghost before = out@.unref();
            out.push(&items[i]);
            assert(out@.unref() =~= before.push(items@[i as int]));
        }
    }
    out
}

/// Those of the first `n` items that are for the Trash.
pub open spec fn batch(items: Seq<Leftover>, facts: Seq<Facts>, mode: Mode, n: int) -> Seq<Leftover>
    decreases n,
{
    if n <= 0 {
        Seq::empty()
    } else {
        let before = batch(items, facts, mode, n - 1);
        if action_at(items, facts, mode, n - 1) == Action::Batch {
            before.push(items[n - 1])
        } else {
            before
        }
    }
}

/// How many of the first `n` items were already gone.
pub open spec fn skipped(items: Seq<Leftover>, facts: Seq<Facts>, mode: Mode, n: int) -> int
    decreases n,
{
    if n <= 0 {
        0
    } else {
        skipped(items, facts, mode, n - 1) + if action_at(items, facts, mode, n - 1)
            == Action::Skip {
            1int
        } else {
            0
        }
    }
}

proof fn lemma_counted(
    items: Seq<Leftover>,
    facts: Seq<Facts>,
    mode: Mode,
    batch_ok: bool,
    n: int,
)
    requires
        0 <= n,
    ensures
        ({
            let d = directly(items, facts, mode, n);
            let all = directly(items, facts, mode, items.len() as int);
            let t = trashed(items, facts, mode, batch_ok, n);
            let b = batch(items, facts, mode, n).len();
            &&& d.removed.len() + d.failed.len() + b + skipped(items, facts, mode, n) == n
            &&& t.removed.len() + t.failed.len() == all.removed.len() + all.failed.len() + b
        }),
    decreases n,
{
    if n > 0 {
        lemma_counted(items, facts, mode, batch_ok, n - 1);
    }
}

/// Every item is either removed, reported as failed, or was gone before.
pub proof fn law_every_item_is_accounted_for(
    items: Seq<Leftover>,
    facts: Seq<Facts>,
    mode: Mode,
    batch_ok: bool,
)
    requires
        facts.len() == items.len(),
    ensures
        ({
            let n = items.len() as int;
            let r = trashed(items, facts, mode, batch_ok, n);
            r.removed.len() + r.failed.len() + skipped(items, facts, mode, n) == n
        }),
{
    lemma_counted(items, facts, mode, batch_ok, items.len() as int);
}

/// No more is ever reported as freed than the items hold.
pub proof fn law_no_more_is_freed_than_there_was(
    items: Seq<Leftover>,
    facts: Seq<Facts>,
    mode: Mode,
    batch_ok: bool,
)
    requires
        facts.len() == items.len(),
    ensures
        ({
            let n = items.len() as int;
            0 <= trashed(items, facts, mode, batch_ok, n).freed <= bytes_to(items, n)
        }),
{
    let n = items.len() as int;
    lemma_direct_bytes(items, facts, mode, n);
    lemma_trashed_bytes(items, facts, mode, batch_ok, n);
}

/// Nothing that is owned by root is moved to the Trash, and nothing at all is where
/// everything is to go for good.
pub proof fn law_the_trash_takes_only_the_users_own(kind: KindRow, needs_root: bool, gone: bool, mode: Mode)
    requires
        action_of(kind, needs_root, gone, mode) == Action::Batch,
    ensures
        !needs_root,
        !gone,
        mode == Mode::Trash,
        target_of(kind) is Some,
{
}

/// Removing an item worked: its receipt was forgotten, or it was there and was unlinked, or
/// moved with the others, or was gone after that, or moved by itself.
pub open spec fn has_worked(item: Leftover, f: Facts, mode: Mode, batch_ok: bool) -> bool {
    if item.row().kind is Receipt {
        f.outcome is Ok
    } else if f.gone {
        false
    } else if item.needs_root || mode == Mode::Purge {
        f.outcome is Ok
    } else {
        batch_ok || f.gone_after || f.retry is Ok
    }
}

/// Why removing an item that was there did not work.
pub open spec fn why_not(item: Leftover, f: Facts, mode: Mode) -> Seq<char> {
    if item.row().kind is Receipt || item.needs_root || mode == Mode::Purge {
        f.outcome->Err_0@
    } else {
        f.retry->Err_0@
    }
}

/// The bytes of the first items that removing worked for.
pub open spec fn worked_bytes(
    items: Seq<Leftover>,
    facts: Seq<Facts>,
    mode: Mode,
    batch_ok: bool,
    n: int,
) -> int
    decreases n,
{
    if n <= 0 {
        0
    } else {
        worked_bytes(items, facts, mode, batch_ok, n - 1) + if has_worked(
            items[n - 1],
            facts[n - 1],
            mode,
            batch_ok,
        ) {
            items[n - 1].size as int
        } else {
            0
        }
    }
}

spec fn freed_in_batch(
    items: Seq<Leftover>,
    facts: Seq<Facts>,
    mode: Mode,
    batch_ok: bool,
    n: int,
) -> int
    decreases n,
{
    if n <= 0 {
        0
    } else {
        freed_in_batch(items, facts, mode, batch_ok, n - 1) + if action_at(
            items,
            facts,
            mode,
            n - 1,
        ) == Action::Batch && batch_outcome(facts[n - 1], batch_ok) is Ok {
            items[n - 1].size as int
        } else {
            0
        }
    }
}

proof fn lemma_freed(
    items: Seq<Leftover>,
    facts: Seq<Facts>,
    mode: Mode,
    batch_ok: bool,
    n: int,
)
    requires
        0 <= n,
    ensures
        directly(items, facts, mode, n).freed + freed_in_batch(items, facts, mode, batch_ok, n)
            == worked_bytes(items, facts, mode, batch_ok, n),
        trashed(items, facts, mode, batch_ok, n).freed == directly(
            items,
            facts,
            mode,
            items.len() as int,
        ).freed + freed_in_batch(items, facts, mode, batch_ok, n),
    decreases n,
{
    if n > 0 {
        lemma_freed(items, facts, mode, batch_ok, n - 1);
    }
}

/// What is freed is what the items hold that removing worked for, each counted once.
pub proof fn law_what_worked_is_what_is_freed(
    items: Seq<Leftover>,
    facts: Seq<Facts>,
    mode: Mode,
    batch_ok: bool,
)
    requires
        facts.len() == items.len(),
    ensures
        trashed(items, facts, mode, batch_ok, items.len() as int).freed == worked_bytes(
            items,
            facts,
            mode,
            batch_ok,
            items.len() as int,
        ),
{
    lemma_freed(items, facts, mode, batch_ok, items.len() as int);
}

/// A report says at least what another does.
spec fn says_more(a: ReportRow, b: ReportRow) -> bool {
    &&& a.removed.is_prefix_of(b.removed)
    &&& a.failed.is_prefix_of(b.failed)
}

proof fn lemma_recorded_says_more(a: ReportRow, row: LeftoverRow, outcome: Result<(), Seq<char>>)
    ensures
        says_more(a, recorded(a, row, outcome)),
{
    let b = recorded(a, row, outcome);
    assert(a.removed =~= b.removed.subrange(0, a.removed.len() as int));
    assert(a.failed =~= b.failed.subrange(0, a.failed.len() as int));
}

proof fn lemma_says_more_twice(a: ReportRow, b: ReportRow, c: ReportRow)
    requires
        says_more(a, b),
        says_more(b, c),
    ensures
        says_more(a, c),
{
    assert(a.removed =~= c.removed.subrange(0, a.removed.len() as int)) by {
        assert forall|i: int| 0 <= i < a.removed.len() implies a.removed[i] == c.removed[i] by {
            assert(b.removed.subrange(0, a.removed.len() as int)[i] == b.removed[i]);
            assert(c.removed.subrange(0, b.removed.len() as int)[i] == c.removed[i]);
        }
    }
    assert(a.failed =~= c.failed.subrange(0, a.failed.len() as int)) by {
        assert forall|i: int| 0 <= i < a.failed.len() implies a.failed[i] == c.failed[i] by {
            assert(b.failed.subrange(0, a.failed.len() as int)[i] == b.failed[i]);
            assert(c.failed.subrange(0, b.failed.len() as int)[i] == c.failed[i]);
        }
    }
}

proof fn lemma_directly_grows(items: Seq<Leftover>, facts: Seq<Facts>, mode: Mode, n: int, m: int)
    requires
        0 <= n <= m,
    ensures
        says_more(directly(items, facts, mode, n), directly(items, facts, mode, m)),
    decreases m,
{
    let a = directly(items, facts, mode, n);
    if n == m {
        assert(a.removed.subrange(0, a.removed.len() as int) =~= a.removed);
        assert(a.failed.subrange(0, a.failed.len() as int) =~= a.failed);
    } else {
        lemma_directly_grows(items, facts, mode, n, m - 1);
        let b = directly(items, facts, mode, m - 1);
        let row = items[m - 1].row();
        let outcome = outcome_text(facts[m - 1].outcome);
        let forced = ReportRow { forced: b.forced.push(target_of(row.kind)->0), ..b };
        lemma_recorded_says_more(b, row, outcome);
        lemma_recorded_says_more(forced, row, outcome);
        let c = directly(items, facts, mode, m);
        assert(b.removed.subrange(0, b.removed.len() as int) =~= b.removed);
        assert(b.failed.subrange(0, b.failed.len() as int) =~= b.failed);
        assert(says_more(b, c));
        lemma_says_more_twice(a, b, c);
    }
}

proof fn lemma_trashed_grows(
    items: Seq<Leftover>,
    facts: Seq<Facts>,
    mode: Mode,
    batch_ok: bool,
    n: int,
    m: int,
)
    requires
        0 <= n <= m,
    ensures
        says_more(
            trashed(items, facts, mode, batch_ok, n),
            trashed(items, facts, mode, batch_ok, m),
        ),
    decreases m,
{
    let a = trashed(items, facts, mode, batch_ok, n);
    if n == m {
        assert(a.removed.subrange(0, a.removed.len() as int) =~= a.removed);
        assert(a.failed.subrange(0, a.failed.len() as int) =~= a.failed);
    } else {
        lemma_trashed_grows(items, facts, mode, batch_ok, n, m - 1);
        let b = trashed(items, facts, mode, batch_ok, m - 1);
        let c = trashed(items, facts, mode, batch_ok, m);
        lemma_recorded_says_more(b, items[m - 1].row(), batch_outcome(facts[m - 1], batch_ok));
        assert(b.removed.subrange(0, b.removed.len() as int) =~= b.removed);
        assert(b.failed.subrange(0, b.failed.len() as int) =~= b.failed);
        lemma_says_more_twice(a, b, c);
    }
}

proof fn lemma_said(a: ReportRow, row: LeftoverRow, outcome: Result<(), Seq<char>>, b: ReportRow)
    requires
        says_more(recorded(a, row, outcome), b),
    ensures
        match outcome {
            Ok(_) => b.removed.contains(display_of(row.kind)),
            Err(e) => b.failed.contains((display_of(row.kind), e)),
        },
{
    let c = recorded(a, row, outcome);
    match outcome {
        Ok(_) => {
            let i = a.removed.len() as int;
            assert(c.removed[i] == display_of(row.kind));
            assert(b.removed.subrange(0, c.removed.len() as int)[i] == b.removed[i]);
        },
        Err(e) => {
            let i = a.failed.len() as int;
            assert(c.failed[i] == (display_of(row.kind), e));
            assert(b.failed.subrange(0, c.failed.len() as int)[i] == b.failed[i]);
        },
    }
}

/// Every item that removing worked for is reported as removed, and every other that was there
/// is reported as failed, with the reason.
pub proof fn law_every_item_is_reported_as_it_went(
    items: Seq<Leftover>,
    facts: Seq<Facts>,
    mode: Mode,
    batch_ok: bool,
    k: int,
)
    requires
        facts.len() == items.len(),
        0 <= k < items.len(),
    ensures
        ({
            let r = trashed(items, facts, mode, batch_ok, items.len() as int);
            let shown = display_of(items[k].row().kind);
            if has_worked(items[k], facts[k], mode, batch_ok) {
                r.removed.contains(shown)
            } else {
                (items[k].row().kind is Receipt || !facts[k].gone) ==> r.failed.contains(
                    (shown, why_not(items[k], facts[k], mode)),
                )
            }
        }),
{
    let n = items.len() as int;
    let r = trashed(items, facts, mode, batch_ok, n);
    let row = items[k].row();
    lemma_trashed_grows(items, facts, mode, batch_ok, 0, n);
    lemma_trashed_grows(items, facts, mode, batch_ok, k + 1, n);
    lemma_directly_grows(items, facts, mode, k + 1, n);
    let a = directly(items, facts, mode, k);
    let b = directly(items, facts, mode, k + 1);
    let c = directly(items, facts, mode, n);
    lemma_says_more_twice(b, c, r);
    match action_at(items, facts, mode, k) {
        Action::Skip => {},
        Action::Batch => {
            lemma_said(
                trashed(items, facts, mode, batch_ok, k),
                row,
                batch_outcome(facts[k], batch_ok),
                r,
            );
        },
        Action::Sudo => {
            let from = if mode == Mode::Trash {
                ReportRow { forced: a.forced.push(target_of(row.kind)->0), ..a }
            } else {
                a
            };
            lemma_said(from, row, outcome_text(facts[k].outcome), r);
        },
        _ => {
            lemma_said(a, row, outcome_text(facts[k].outcome), r);
        },
    }
}

/// Every process of the report that was started from inside the bundle is seen as running, and
/// one that was started from anywhere else, also beside it, is not.
pub proof fn law_every_process_of_the_bundle_is_seen(
    lines: Seq<Seq<char>>,
    k: int,
    indent: Seq<char>,
    pid: nat,
    command: Seq<char>,
    bundle: Seq<char>,
)
    requires
        0 <= k < lines.len(),
        forall|i: int| 0 <= i < indent.len() ==> #[trigger] indent[i] == ' ',
        lines[k] == indent + (text::decimal(pid).push(' ') + command),
        pid <= u32::MAX,
        command.len() > 0,
        command[0] == '/',
    ensures
        bundle.push('/').is_prefix_of(command) ==> pids_in(lines, bundle).contains(pid as u32),
        !bundle.push('/').is_prefix_of(command) ==> pid_in(lines[k], bundle) is None,
{
    let d = text::decimal(pid);
    let bare = d.push(' ') + command;
    text::lemma_decimal_reads_back(pid);
    assert(text::is_digit(d[0]));
    assert(bare[0] == d[0]);
    text::law_space_in_front_is_dropped(indent, bare);
    text::law_a_cut_text_goes_together_again(bare, ' ');
    let n = d.len() as int;
    assert(bare[n] == ' ');
    assert(bare.contains(bare[n]));
    let (a, b) = text::cut_first(bare, ' ')->0;
    let i = a.len() as int;
    assert(bare[i] == ' ');
    if i < n {
        assert(text::is_digit(d[i]));
    }
    if i > n {
        assert(a[n] == bare[n]);
        assert(a.contains(a[n]));
    }
    assert(i == n);
    assert(bare.take(n) =~= d);
    assert(bare.skip(n + 1) =~= command);
    assert(bare == a.push(' ') + b);
    assert(a =~= bare.take(n));
    assert(b =~= bare.skip(n + 1));
    text::law_a_written_number_reads_back(pid, u32::MAX as int);
    assert(Seq::<char>::empty() + command =~= command);
    text::law_space_in_front_is_dropped(Seq::empty(), command);
    reveal_strlit("/");
    assert(bundle + "/"@ =~= bundle.push('/'));
    if bundle.push('/').is_prefix_of(command) {
        lemma_pid_kept(lines, bundle, k);
    }
}

proof fn lemma_pid_kept(lines: Seq<Seq<char>>, bundle: Seq<char>, k: int)
    requires
        0 <= k < lines.len(),
        pid_in(lines[k], bundle) is Some,
    ensures
        pids_in(lines, bundle).contains(pid_in(lines[k], bundle)->0),
    decreases lines.len(),
{
    let pid = pid_in(lines[k], bundle)->0;
    let before = pids_in(lines.drop_last(), bundle);
    let all = pids_in(lines, bundle);
    if k == lines.len() - 1 {
        assert(all[before.len() as int] == pid);
    } else {
        assert(lines.drop_last()[k] == lines[k]);
        lemma_pid_kept(lines.drop_last(), bundle, k);
        let i = choose|i: int| 0 <= i < before.len() && before[i] == pid;
        assert(all[i] == pid);
    }
}

/// Every job of an application is stopped in its own domain, as root where it takes that.
pub proof fn law_every_job_is_booted_out(items: Seq<Leftover>, k: int)
    requires
        0 <= k < items.len(),
        items[k].row().kind is Job,
    ensures
        bootouts_of(items).contains(
            (if items[k].needs_root {
                seq!["sudo"@]
            } else {
                Seq::<Seq<char>>::empty()
            }) + seq![
                "launchctl"@,
                "bootout"@,
                items[k].row().kind->domain + "/"@ + items[k].row().kind->label,
            ],
        ),
    decreases items.len(),
{
    let kind = items[k].row().kind;
    let command = (if items[k].needs_root {
        seq!["sudo"@]
    } else {
        Seq::<Seq<char>>::empty()
    }) + seq!["launchctl"@, "bootout"@, kind->domain + "/"@ + kind->label];
    assert(command =~= bootout_of(kind->domain, kind->label, items[k].needs_root));
    let before = bootouts_of(items.drop_last());
    let all = bootouts_of(items);
    if k == items.len() - 1 {
        assert(all[before.len() as int] == command);
    } else {
        assert(items.drop_last()[k] == items[k]);
        law_every_job_is_booted_out(items.drop_last(), k);
        let i = choose|i: int| 0 <= i < before.len() && before[i] == command;
        assert(all[i] == command);
    }
}

/// What is done with an item: a receipt is forgotten, what is gone is passed over, what takes
/// root is removed as root, and anything else goes to the trash or is unlinked, as was asked.
pub proof fn law_what_is_done_with_an_item(
    kind: KindRow,
    needs_root: bool,
    gone: bool,
    mode: Mode,
)
    ensures
        kind is Receipt ==> action_of(kind, needs_root, gone, mode) == Action::Forget,
        !(kind is Receipt) && gone ==> action_of(kind, needs_root, gone, mode) == Action::Skip,
        !(kind is Receipt) && !gone && needs_root ==> action_of(kind, needs_root, gone, mode)
            == Action::Sudo,
        !(kind is Receipt) && !gone && !needs_root ==> action_of(kind, needs_root, gone, mode) == (
        if mode == Mode::Trash {
            Action::Batch
        } else {
            Action::Unlink
        }),
{
}

/// A command that removes names what it removes last, and nothing else: the receipt by its id,
/// anything else by its own path. It is run as root exactly where that is asked for.
pub proof fn law_a_command_names_only_its_target(kind: KindRow, action: Action)
    ensures
        command_of(kind, action) matches Some(c) ==> {
            &&& kind is Receipt ==> action == Action::Forget && c.last() == kind->Receipt_0
            &&& !(kind is Receipt) ==> target_of(kind) is Some && c.last() == target_of(kind)->0
                && c[c.len() - 2] == "-rf"@ && c[c.len() - 3] == "rm"@
            &&& c[0] == "sudo"@ <==> action != Action::Unlink
        },
        action == Action::Sudo && !(kind is Receipt) ==> command_of(kind, action) is Some,
        action == Action::Unlink && !(kind is Receipt) ==> command_of(kind, action) is Some,
        action == Action::Forget && kind is Receipt ==> command_of(kind, action) is Some,
        action == Action::Skip || action == Action::Batch ==> command_of(kind, action) is None,
{
    reveal_strlit("sudo");
    reveal_strlit("rm");
    assert("sudo"@.len() == 4 && "rm"@.len() == 2);
}

/// Exactly the items that are the user's own and still there go to the trash together, each of
/// them, and only where that is what was asked.
pub proof fn law_the_trash_takes_all_of_the_users_own(
    items: Seq<Leftover>,
    facts: Seq<Facts>,
    mode: Mode,
    n: int,
    k: int,
)
    requires
        0 <= k < n,
        mode == Mode::Trash,
        !(items[k].row().kind is Receipt),
        !items[k].needs_root,
        !facts[k].gone,
    ensures
        batch(items, facts, mode, n).contains(items[k]),
        batch(items, facts, Mode::Purge, n).len() == 0,
    decreases n,
{
    let all = batch(items, facts, mode, n);
    let before = batch(items, facts, mode, n - 1);
    if k == n - 1 {
        assert(all[before.len() as int] == items[k]);
    } else {
        law_the_trash_takes_all_of_the_users_own(items, facts, mode, n - 1, k);
        let i = choose|i: int| 0 <= i < before.len() && before[i] == items[k];
        assert(all[i] == items[k]);
    }
    lemma_nothing_batched(items, facts, n);
}

proof fn lemma_nothing_batched(items: Seq<Leftover>, facts: Seq<Facts>, n: int)
    ensures
        batch(items, facts, Mode::Purge, n).len() == 0,
    decreases n,
{
    if n > 0 {
        lemma_nothing_batched(items, facts, n - 1);
    }
}

} // verus!
