//! Projects with build artifacts that can be rebuilt.
use vstd::prelude::*;
use crate::disk::util::{days_between, Moment, DAY, SECOND};
use crate::order;
use crate::order::{sum_of, Ranked};
use crate::paths;
use crate::text;
use crate::text::texts;

verus! {

/// The toolchain a project is built with.
#[derive(Debug, Clone, Copy, PartialEq, Eq, Structural)]
pub enum ProjectKind {
    Cargo,
    Node,
    Python,
    Gradle,
}

/// The files that mark a project of a kind.
pub open spec fn markers_of(kind: ProjectKind) -> Seq<Seq<char>> {
    match kind {
        ProjectKind::Cargo => seq!["Cargo.toml"@],
        ProjectKind::Node => seq!["package.json"@],
        ProjectKind::Python => seq!["pyproject.toml"@, "requirements.txt"@, "setup.py"@],
        ProjectKind::Gradle => seq![
            "build.gradle"@,
            "build.gradle.kts"@,
            "settings.gradle"@,
            "settings.gradle.kts"@,
        ],
    }
}

/// The directories that a build of a kind leaves behind.
pub open spec fn artifacts_of(kind: ProjectKind) -> Seq<Seq<char>> {
    match kind {
        ProjectKind::Cargo => seq!["target"@],
        ProjectKind::Node => seq!["node_modules"@],
        ProjectKind::Python => seq![".venv"@, "venv"@],
        ProjectKind::Gradle => seq!["build"@, ".gradle"@],
    }
}

/// Directory names never descended into, whichever project owns them.
pub open spec fn is_pruned(name: Seq<char>) -> bool {
    ||| name == "target"@
    ||| name == "node_modules"@
    ||| name == ".venv"@
    ||| name == "venv"@
    ||| name == ".git"@
    ||| name == ".gradle"@
    ||| name == "__pycache__"@
    ||| name == "build"@
}

/// Whether directories of this name are never descended into.
pub fn prunes(name: &str) -> (r: bool)
    ensures
        r == is_pruned(name@),
{
    text::same(name, "target") || text::same(name, "node_modules") || text::same(name, ".venv")
        || text::same(name, "venv") || text::same(name, ".git") || text::same(name, ".gradle")
        || text::same(name, "__pycache__") || text::same(name, "build")
}

impl ProjectKind {
    /// The kind as it is shown.
    pub fn label(&self) -> (r: String)
        ensures
            r@ == (match *self {
                ProjectKind::Cargo => "cargo"@,
                ProjectKind::Node => "node"@,
                ProjectKind::Python => "python"@,
                ProjectKind::Gradle => "gradle"@,
            }),
    {
        match self {
            ProjectKind::Cargo => "cargo".to_owned(),
            ProjectKind::Node => "node".to_owned(),
            ProjectKind::Python => "python".to_owned(),
            ProjectKind::Gradle => "gradle".to_owned(),
        }
    }

    /// How to rebuild what cleanup removes.
    pub fn rebuild_hint(&self) -> (r: String)
        ensures
            r@ == (match *self {
                ProjectKind::Cargo => "cargo build"@,
                ProjectKind::Node => "npm install"@,
                ProjectKind::Python => "recreate the virtualenv"@,
                ProjectKind::Gradle => "gradle build"@,
            }),
    {
        match self {
            ProjectKind::Cargo => "cargo build".to_owned(),
            ProjectKind::Node => "npm install".to_owned(),
            ProjectKind::Python => "recreate the virtualenv".to_owned(),
            ProjectKind::Gradle => "gradle build".to_owned(),
        }
    }

    /// The files that mark a project of this kind.
    pub fn markers(&self) -> (r: Vec<String>)
        ensures
            texts(r@) == markers_of(*self),
    {
        let r: Vec<String> = match self {
            ProjectKind::Cargo => vec!["Cargo.toml".to_owned()],
            ProjectKind::Node => vec!["package.json".to_owned()],
            ProjectKind::Python => vec![
                "pyproject.toml".to_owned(),
                "requirements.txt".to_owned(),
                "setup.py".to_owned(),
            ],
            ProjectKind::Gradle => vec![
                "build.gradle".to_owned(),
                "build.gradle.kts".to_owned(),
                "settings.gradle".to_owned(),
                "settings.gradle.kts".to_owned(),
            ],
        };
        assert(texts(r@) =~= markers_of(*self));
        r
    }

    /// The directories that a build of this kind leaves behind.
    pub fn artifact_dirs(&self) -> (r: Vec<String>)
        ensures
            texts(r@) == artifacts_of(*self),
    {
        let r: Vec<String> = match self {
            ProjectKind::Cargo => vec!["target".to_owned()],
            ProjectKind::Node => vec!["node_modules".to_owned()],
            ProjectKind::Python => vec![".venv".to_owned(), "venv".to_owned()],
            ProjectKind::Gradle => vec!["build".to_owned(), ".gradle".to_owned()],
        };
        assert(texts(r@) =~= artifacts_of(*self));
        r
    }
}

/// One directory a build left behind.
#[derive(Debug)]
pub struct Artifact {
    pub path: String,
    pub size: u64,
}

/// A project with artifacts on disk.
#[derive(Debug)]
pub struct Project {
    pub root: String,
    pub kind: ProjectKind,
    pub artifacts: Vec<Artifact>,
    /// The newest change among the project's own sources, artifacts excluded.
    pub last_active: Option<Moment>,
}

/// The bytes of an artifact.
pub open spec fn artifact_bytes() -> spec_fn(Artifact) -> int {
    |a: Artifact| a.size as int
}

/// Activity that could not be determined is never idle.
pub open spec fn is_idle(last: Option<Moment>, days: int, now: Moment) -> bool {
    last matches Some(t) && days_between(t, now) >= days
}

impl Project {
    /// The bytes of all artifacts.
    pub open spec fn bytes(&self) -> int {
        sum_of(self.artifacts@, artifact_bytes())
    }

    fn wide_size(&self) -> (r: u128)
        ensures
            r == self.bytes(),
    {
        let mut s: u128 = 0;
        for i in 0..self.artifacts.len()
            invariant
                s == sum_of(self.artifacts@.take(i as int), artifact_bytes()),
                s <= i * 0xffff_ffff_ffff_ffff,
        {
            proof {
                assert(self.artifacts@.take(i + 1).drop_last() =~= self.artifacts@.take(i as int));
                assert(i < 0x1_0000_0000_0000_0000);
                assert(i * 0xffff_ffff_ffff_ffff + 0xffff_ffff_ffff_ffff
                    <= 0x1_0000_0000_0000_0000 * 0xffff_ffff_ffff_ffff);
            }
            s = s + self.artifacts[i].size as u128;
        }
        assert(self.artifacts@.take(self.artifacts@.len() as int) =~= self.artifacts@);
        s
    }

    /// The bytes of all artifacts.
    pub fn artifact_size(&self) -> (r: u64)
        requires
            self.bytes() <= u64::MAX,
        ensures
            r == self.bytes(),
    {
        self.wide_size() as u64
    }

    /// Whole days since a source file last changed. None where activity could
    /// not be determined, which callers must treat as not idle.
    pub fn idle_days(&self, now: Moment) -> (r: Option<u128>)
        ensures
            match self.last_active {
                Some(t) => r matches Some(d) && d == days_between(t, now),
                None => r is None,
            },
    {
        crate::disk::util::idle_days(self.last_active, now)
    }

    /// Whether no source file changed for a number of days.
    pub fn is_idle_for(&self, days: u64, now: Moment) -> (r: bool)
        ensures
            r == is_idle(self.last_active, days as int, now),
    {
        match self.idle_days(now) {
            Some(d) => d >= days as u128,
            None => false,
        }
    }
}

/// Projects in falling order of what their artifacts hold.
impl Ranked for Project {
    open spec fn le(&self, other: &Self) -> bool {
        self.bytes() >= other.bytes()
    }

    proof fn le_total(a: &Self, b: &Self) {
    }

    proof fn le_transitive(a: &Self, b: &Self, c: &Self) {
    }

    fn leq(&self, other: &Self) -> (r: bool) {
        self.wide_size() >= other.wide_size()
    }
}

/// As the clock goes on, a project that is idle stays idle.
pub proof fn law_idleness_only_grows(last: Option<Moment>, days: int, now: Moment, later: Moment)
    requires
        is_idle(last, days, now),
        now.nanos <= later.nanos,
    ensures
        is_idle(last, days, later),
{
    let a = now.gap(last->0);
    let b = later.gap(last->0);
    assert(a / SECOND as int <= b / SECOND as int) by (nonlinear_arith)
        requires
            a <= b,
    ;
    assert((a / SECOND as int) / DAY as int <= (b / SECOND as int) / DAY as int)
        by (nonlinear_arith)
        requires
            a / SECOND as int <= b / SECOND as int,
    ;
}

/// What an entry of the file system is, links not followed.
#[derive(Debug, Clone, Copy, PartialEq, Eq, Structural)]
pub enum TreeKind {
    Directory,
    File,
    Other,
}

/// An entry of the file system and what lies below it.
#[derive(Debug)]
pub struct TreeEntry {
    pub name: String,
    pub path: String,
    pub kind: TreeKind,
    /// Whether it is a file, links followed.
    pub is_file: bool,
    /// Whether it is a directory, links followed.
    pub is_dir: bool,
    pub modified: Option<Moment>,
    /// The size of everything at and below it on disk.
    pub size: u64,
    pub entries: Vec<TreeEntry>,
}

/// An entry that a walk passes over together with everything below it.
pub open spec fn passed_over(e: TreeEntry, depth: int) -> bool {
    depth > 0 && e.kind == TreeKind::Directory && is_pruned(e.name@)
}

/// Everything a walk comes by at and below an entry, each before what lies below
/// it, no deeper than `max`.
pub open spec fn visited(e: TreeEntry, depth: int, max: int) -> Seq<TreeEntry>
    decreases e,
{
    if passed_over(e, depth) {
        Seq::empty()
    } else if depth < max && (depth == 0 || e.kind == TreeKind::Directory) {
        seq![e] + visited_all(e.entries@, depth + 1, max)
    } else {
        seq![e]
    }
}

/// Everything a walk comes by at and below a list of entries.
pub open spec fn visited_all(entries: Seq<TreeEntry>, depth: int, max: int) -> Seq<TreeEntry>
    decreases entries,
{
    if entries.len() == 0 {
        Seq::empty()
    } else {
        visited_all(entries.drop_last(), depth, max) + visited(entries.last(), depth, max)
    }
}

/// Appends everything a walk comes by.
fn walk<'a>(e: &'a TreeEntry, depth: usize, max: usize, out: &mut Vec<&'a TreeEntry>)
    ensures
        final(out)@.unref() == old(out)@.unref() + visited(*e, depth as int, max as int),
    decreases *e,
{
    if depth > 0 && e.kind == TreeKind::Directory && prunes(&e.name) {
        assert(out@.unref() + Seq::<TreeEntry>::empty() =~= out@.unref());
        return;
    }
    let ghost before = out@.unref();
    out.push(e);
    assert(out@.unref() =~= before.push(*e));
    if depth < max && (depth == 0 || e.kind == TreeKind::Directory) {
        assert(out@.unref() =~= before + (seq![*e] + visited_all(e.entries@.take(0), depth + 1, max as int)));
        for i in 0..e.entries.len()
            invariant
                depth < max,
                out@.unref() == before + (seq![*e] + visited_all(
                    e.entries@.take(i as int),
                    depth + 1,
                    max as int,
                )),
        {
            proof {
                assert(e.entries@.take(i + 1).drop_last() =~= e.entries@.take(i as int));
                assert(decreases_to!(*e => e.entries@[i as int]));
            }
            let ghost upto = visited_all(e.entries@.take(i as int), depth + 1, max as int);
            walk(&e.entries[i], depth + 1, max, out);
            assert(out@.unref() =~= before + (seq![*e] + (upto + visited(
                e.entries@[i as int],
                depth + 1,
                max as int,
            ))));
        }
        assert(e.entries@.take(e.entries@.len() as int) =~= e.entries@);
    } else {
        assert(before.push(*e) =~= before + seq![*e]);
    }
}

/// How many entries are looked at for the newest change.
pub const MAX_ENTRIES: usize = 20_000;

/// How deep the sources of a project are looked at, and how deep projects are
/// looked for.
pub const MAX_DEPTH: usize = 8;

/// The newest of the changes to files in a run of entries.
pub open spec fn newest_file(seen: Seq<TreeEntry>) -> Option<Moment>
    decreases seen.len(),
{
    if seen.len() == 0 {
        None
    } else {
        let before = newest_file(seen.drop_last());
        let e = seen.last();
        if e.kind == TreeKind::File && e.modified is Some {
            match before {
                Some(t) => if t.nanos >= e.modified->0.nanos {
                    before
                } else {
                    e.modified
                },
                None => e.modified,
            }
        } else {
            before
        }
    }
}

/// The newest change among the sources of a project, artifacts passed over.
pub open spec fn newest_source(dir: TreeEntry) -> Option<Moment> {
    let seen = visited(dir, 0, MAX_DEPTH as int);
    newest_file(
        if seen.len() <= MAX_ENTRIES {
            seen
        } else {
            seen.take(MAX_ENTRIES as int)
        },
    )
}

/// The newest change among the sources of a project. Capped, because the answer
/// only needs to be good enough to tell a project that is worked on from one
/// that is not.
pub fn newest_source_mtime(dir: &TreeEntry) -> (r: Option<Moment>)
    ensures
        r == newest_source(*dir),
{
    let mut seen: Vec<&TreeEntry> = Vec::new();
    assert(seen@.unref() =~= Seq::<TreeEntry>::empty());
    walk(dir, 0, MAX_DEPTH, &mut seen);
    let ghost all = visited(*dir, 0, MAX_DEPTH as int);
    assert(seen@.unref() =~= all);
    let n: usize = if seen.len() <= MAX_ENTRIES {
        seen.len()
    } else {
        MAX_ENTRIES
    };
    let mut newest: Option<Moment> = None;
    for i in 0..n
        invariant
            n <= seen@.len(),
            seen@.unref() == all,
            newest == newest_file(all.take(i as int)),
    {
        assert(all.take(i + 1).drop_last() =~= all.take(i as int));
        let e = seen[i];
        assert(*e == all[i as int]);
        if e.kind == TreeKind::File {
            if let Some(t) = e.modified {
                newest = match newest {
                    Some(best) => if best.nanos >= t.nanos {
                        Some(best)
                    } else {
                        Some(t)
                    },
                    None => Some(t),
                };
            }
        }
    }
    assert(all.take(all.len() as int) =~= all);
    newest
}

/// Some entry of a directory has this name and is a file.
pub open spec fn has_file(entries: Seq<TreeEntry>, name: Seq<char>) -> bool {
    exists|i: int| 0 <= i < entries.len() && (#[trigger] entries[i]).name@ == name && entries[i].is_file
}

/// The first entry of a directory with this name.
pub open spec fn child_named(entries: Seq<TreeEntry>, name: Seq<char>) -> Option<TreeEntry>
    decreases entries.len(),
{
    if entries.len() == 0 {
        None
    } else {
        match child_named(entries.drop_last(), name) {
            Some(e) => Some(e),
            None => if entries.last().name@ == name {
                Some(entries.last())
            } else {
                None
            },
        }
    }
}

/// An artifact, in mathematical terms.
pub open spec fn artifact_row() -> spec_fn(Artifact) -> (Seq<char>, u64) {
    |a: Artifact| (a.path@, a.size)
}

/// The artifacts among the directories of these names that hold something.
pub open spec fn artifacts_in(dir: TreeEntry, names: Seq<Seq<char>>) -> Seq<(Seq<char>, u64)>
    decreases names.len(),
{
    if names.len() == 0 {
        Seq::empty()
    } else {
        let before = artifacts_in(dir, names.drop_last());
        match child_named(dir.entries@, names.last()) {
            Some(e) => if e.is_dir && e.size > 0 {
                before.push((paths::below(dir.path@, names.last()), e.size))
            } else {
                before
            },
            None => before,
        }
    }
}

/// A directory holds one of the files that mark a kind.
pub open spec fn is_marked(dir: TreeEntry, kind: ProjectKind) -> bool {
    exists|i: int|
        0 <= i < markers_of(kind).len() && has_file(dir.entries@, #[trigger] markers_of(kind)[i])
}

/// A project, in mathematical terms.
#[verifier::ext_equal]
pub ghost struct ProjectRow {
    pub root: Seq<char>,
    pub kind: ProjectKind,
    pub artifacts: Seq<(Seq<char>, u64)>,
    pub last_active: Option<Moment>,
}

/// What a project says.
pub open spec fn project_row() -> spec_fn(Project) -> ProjectRow {
    |p: Project|
        ProjectRow {
            root: p.root@,
            kind: p.kind,
            artifacts: p.artifacts@.map_values(artifact_row()),
            last_active: p.last_active,
        }
}

/// The project of a kind that a directory is: one that is marked and has
/// artifacts.
pub open spec fn project_in(dir: TreeEntry, kind: ProjectKind) -> Option<ProjectRow> {
    let artifacts = artifacts_in(dir, artifacts_of(kind));
    if is_marked(dir, kind) && artifacts.len() > 0 {
        Some(
            ProjectRow { root: dir.path@, kind, artifacts, last_active: newest_source(dir) },
        )
    } else {
        None
    }
}

fn find_file(entries: &Vec<TreeEntry>, name: &str) -> (r: bool)
    ensures
        r == has_file(entries@, name@),
{
    for i in 0..entries.len()
        invariant
            forall|j: int|
                0 <= j < i ==> !((#[trigger] entries@[j]).name@ == name@ && entries@[j].is_file),
    {
        if text::same(&entries[i].name, name) && entries[i].is_file {
            return true;
        }
    }
    false
}

fn find_child<'a>(entries: &'a Vec<TreeEntry>, name: &str) -> (r: Option<&'a TreeEntry>)
    ensures
        match r {
            Some(e) => child_named(entries@, name@) == Some(*e),
            None => child_named(entries@, name@) is None,
        },
{
    for i in 0..entries.len()
        invariant
            child_named(entries@.take(i as int), name@) is None,
    {
        assert(entries@.take(i + 1).drop_last() =~= entries@.take(i as int));
        if text::same(&entries[i].name, name) {
            proof {
                lemma_child_prefix(entries@, name@, i + 1);
            }
            return Some(&entries[i]);
        }
    }
    assert(entries@.take(entries@.len() as int) =~= entries@);
    None
}

proof fn lemma_child_prefix(entries: Seq<TreeEntry>, name: Seq<char>, n: int)
    requires
        0 <= n <= entries.len(),
        child_named(entries.take(n), name) is Some,
    ensures
        child_named(entries, name) == child_named(entries.take(n), name),
    decreases entries.len() - n,
{
    if n == entries.len() {
        assert(entries.take(n) =~= entries);
    } else {
        assert(entries.take(n + 1).drop_last() =~= entries.take(n));
        lemma_child_prefix(entries, name, n + 1);
    }
}

/// The project of a kind that a directory is, if it is one.
pub fn classify(dir: &TreeEntry, kind: ProjectKind) -> (r: Option<Project>)
    ensures
        match r {
            Some(p) => project_in(*dir, kind) == Some(project_row()(p)),
            None => project_in(*dir, kind) is None,
        },
{
    let markers = kind.markers();
    let ghost marks = markers_of(kind);
    let mut marked: bool = false;
    for i in 0..markers.len()
        invariant
            texts(markers@) == marks,
            marked == (exists|j: int| 0 <= j < i && has_file(dir.entries@, #[trigger] marks[j])),
    {
        assert(marks[i as int] == markers@[i as int]@);
        if find_file(&dir.entries, &markers[i]) {
            marked = true;
        }
    }
    if !marked {
        return None;
    }
    let names = kind.artifact_dirs();
    let ghost wanted = artifacts_of(kind);
    let mut artifacts: Vec<Artifact> = Vec::new();
    assert(artifacts@.map_values(artifact_row()) =~= artifacts_in(*dir, wanted.take(0)));
    for i in 0..names.len()
        invariant
            texts(names@) == wanted,
            artifacts@.map_values(artifact_row()) == artifacts_in(*dir, wanted.take(i as int)),
    {
        assert(wanted.take(i + 1).drop_last() =~= wanted.take(i as int));
        assert(wanted[i as int] == names@[i as int]@);
        let ghost before = artifacts@.map_values(artifact_row());
        if let Some(e) = find_child(&dir.entries, &names[i]) {
            if e.is_dir && e.size > 0 {
                let a = Artifact { path: paths::join(&dir.path, &names[i]), size: e.size };
                let ghost row = artifact_row()(a);
                artifacts.push(a);
                assert(artifacts@.map_values(artifact_row()) =~= before.push(row));
            }
        }
    }
    assert(wanted.take(wanted.len() as int) =~= wanted);
    if artifacts.len() == 0 {
        return None;
    }
    let p = Project {
        root: dir.path.clone(),
        kind,
        artifacts,
        last_active: newest_source_mtime(dir),
    };
    assert(project_row()(p) =~= project_in(*dir, kind)->0);
    Some(p)
}

/// The projects that one directory is, one for each kind at most.
pub open spec fn projects_at(dir: TreeEntry) -> Seq<ProjectRow> {
    let one = |kind: ProjectKind|
        match project_in(dir, kind) {
            Some(p) => seq![p],
            None => Seq::<ProjectRow>::empty(),
        };
    one(ProjectKind::Cargo) + one(ProjectKind::Node) + one(ProjectKind::Python) + one(
        ProjectKind::Gradle,
    )
}

/// The projects that the directories of a run of entries are.
pub open spec fn projects_among(seen: Seq<TreeEntry>) -> Seq<ProjectRow>
    decreases seen.len(),
{
    if seen.len() == 0 {
        Seq::empty()
    } else {
        let before = projects_among(seen.drop_last());
        if seen.last().kind == TreeKind::Directory {
            before + projects_at(seen.last())
        } else {
            before
        }
    }
}

/// The projects under a list of roots, in the order a walk comes by them.
pub open spec fn projects_under(roots: Seq<TreeEntry>, max: int) -> Seq<ProjectRow>
    decreases roots.len(),
{
    if roots.len() == 0 {
        Seq::empty()
    } else {
        let before = projects_under(roots.drop_last(), max);
        if roots.last().is_dir {
            before + projects_among(visited(roots.last(), 0, max))
        } else {
            before
        }
    }
}

/// The bytes of a project's artifacts.
pub open spec fn row_bytes(p: ProjectRow) -> int {
    sum_of(p.artifacts, |a: (Seq<char>, u64)| a.1 as int)
}

/// Projects in falling order of what their artifacts hold.
pub open spec fn project_order() -> spec_fn(ProjectRow, ProjectRow) -> bool {
    |a: ProjectRow, b: ProjectRow| row_bytes(a) >= row_bytes(b)
}

proof fn lemma_row_bytes(v: Seq<Artifact>)
    ensures
        sum_of(v.map_values(artifact_row()), |a: (Seq<char>, u64)| a.1 as int) == sum_of(
            v,
            artifact_bytes(),
        ),
    decreases v.len(),
{
    if v.len() > 0 {
        lemma_row_bytes(v.drop_last());
        assert(v.map_values(artifact_row()).drop_last() =~= v.drop_last().map_values(
            artifact_row(),
        ));
    }
}

fn add_kind(found: &mut Vec<Project>, dir: &TreeEntry, kind: ProjectKind)
    ensures
        final(found)@.map_values(project_row()) == old(found)@.map_values(project_row()) + (
        match project_in(*dir, kind) {
            Some(p) => seq![p],
            None => Seq::<ProjectRow>::empty(),
        }),
{
    let ghost before = found@.map_values(project_row());
    match classify(dir, kind) {
        Some(p) => {
            let ghost row = project_row()(p);
            found.push(p);
            assert(found@.map_values(project_row()) =~= before + seq![row]);
        },
        None => {
            assert(before + Seq::<ProjectRow>::empty() =~= before);
        },
    }
}

fn add_all(found: &mut Vec<Project>, dir: &TreeEntry)
    ensures
        final(found)@.map_values(project_row()) == old(found)@.map_values(project_row())
            + projects_at(*dir),
{
    let ghost before = found@.map_values(project_row());
    add_kind(found, dir, ProjectKind::Cargo);
    add_kind(found, dir, ProjectKind::Node);
    add_kind(found, dir, ProjectKind::Python);
    add_kind(found, dir, ProjectKind::Gradle);
    assert(found@.map_values(project_row()) =~= before + projects_at(*dir));
}

/// Every project under `roots` with build artifacts on disk, the one with the
/// most to reclaim first. A directory can yield more than one project when
/// markers for different toolchains sit side by side.
pub fn discover(roots: &Vec<TreeEntry>, max_depth: usize) -> (r: Vec<Project>)
    ensures
        r@.map_values(project_row()) == order::arranged(
            projects_under(roots@, max_depth as int),
            project_order(),
        ),
{
    let mut found: Vec<Project> = Vec::new();
    assert(found@.map_values(project_row()) =~= projects_under(roots@.take(0), max_depth as int));
    for k in 0..roots.len()
        invariant
            found@.map_values(project_row()) == projects_under(
                roots@.take(k as int),
                max_depth as int,
            ),
    {
        assert(roots@.take(k + 1).drop_last() =~= roots@.take(k as int));
        let root = &roots[k];
        if root.is_dir {
            let ghost before = found@.map_values(project_row());
            let mut seen: Vec<&TreeEntry> = Vec::new();
            assert(seen@.unref() =~= Seq::<TreeEntry>::empty());
            walk(root, 0, max_depth, &mut seen);
            let ghost all = visited(*root, 0, max_depth as int);
            assert(seen@.unref() =~= all);
            assert(before + projects_among(all.take(0)) =~= before);
            for i in 0..seen.len()
                invariant
                    seen@.unref() == all,
                    found@.map_values(project_row()) == before + projects_among(
                        all.take(i as int),
                    ),
            {
                assert(all.take(i + 1).drop_last() =~= all.take(i as int));
                let dir = seen[i];
                assert(*dir == all[i as int]);
                let ghost upto = projects_among(all.take(i as int));
                if dir.kind == TreeKind::Directory {
                    add_all(&mut found, dir);
                    assert(found@.map_values(project_row()) =~= before + (upto + projects_at(*dir)));
                }
            }
            assert(all.take(all.len() as int) =~= all);
        }
    }
    assert(roots@.take(roots@.len() as int) =~= roots@);
    proof {
        assert forall|a: Project, b: Project| #[trigger] a.le(&b) == project_order()(
            project_row()(a),
            project_row()(b),
        ) by {
            lemma_row_bytes(a.artifacts@);
            lemma_row_bytes(b.artifacts@);
        }
        order::lemma_arranged(found@, project_row(), project_order());
    }
    order::sort(found)
}

/// A directory that is never descended into yields no project, whatever lies in
/// it.
pub proof fn law_artifacts_are_never_searched(e: TreeEntry, depth: int, max: int)
    requires
        depth > 0,
        e.kind == TreeKind::Directory,
        is_pruned(e.name@),
    ensures
        projects_among(visited(e, depth, max)).len() == 0,
{
}

/// The directories looked at by default: those of the usual two below the home
/// directory that are there.
pub fn default_roots(home: &Option<String>, workspace_is_dir: bool, go_is_dir: bool) -> (r: Vec<
    String,
>)
    ensures
        texts(r@) == (match text::text_opt(*home) {
            Some(h) => (if workspace_is_dir {
                seq![paths::below(h, "Workspace"@)]
            } else {
                Seq::empty()
            }) + (if go_is_dir {
                seq![paths::below(h, "go/src"@)]
            } else {
                Seq::empty()
            }),
            None => Seq::empty(),
        }),
{
    let mut out: Vec<String> = Vec::new();
    if let Some(h) = home {
        if workspace_is_dir {
            out.push(paths::join(h, "Workspace"));
        }
        if go_is_dir {
            out.push(paths::join(h, "go/src"));
        }
    }
    assert(texts(out@) =~= (match text::text_opt(*home) {
        Some(h) => (if workspace_is_dir {
            seq![paths::below(h, "Workspace"@)]
        } else {
            Seq::empty()
        }) + (if go_is_dir {
            seq![paths::below(h, "go/src"@)]
        } else {
            Seq::empty()
        }),
        None => Seq::empty(),
    }));
    out
}

/// The newest change in a run of entries is one to a file in it, and no file in it changed
/// later.
pub proof fn law_no_file_is_newer_than_the_newest(seen: Seq<TreeEntry>)
    ensures
        match newest_file(seen) {
            Some(t) => {
                &&& exists|i: int|
                    0 <= i < seen.len() && (#[trigger] seen[i]).kind == TreeKind::File
                        && seen[i].modified == Some(t)
                &&& forall|i: int|
                    0 <= i < seen.len() && (#[trigger] seen[i]).kind == TreeKind::File
                        && seen[i].modified is Some ==> seen[i].modified->0.nanos <= t.nanos
            },
            None => forall|i: int|
                0 <= i < seen.len() && (#[trigger] seen[i]).kind == TreeKind::File
                    ==> seen[i].modified is None,
        },
    decreases seen.len(),
{
    if seen.len() > 0 {
        let before = seen.drop_last();
        law_no_file_is_newer_than_the_newest(before);
        assert forall|i: int| 0 <= i < before.len() implies before[i] == #[trigger] seen[i] by {}
        if let Some(t) = newest_file(before) {
            let k = choose|i: int|
                0 <= i < before.len() && (#[trigger] before[i]).kind == TreeKind::File
                    && before[i].modified == Some(t);
            assert(seen[k].modified == Some(t));
        }
        assert(seen[seen.len() - 1] == seen.last());
    }
}

/// A project is idle for so many days exactly where it is known when it last changed and so
/// many times 86400 seconds have passed since.
pub proof fn law_idle_means_that_many_days_have_passed(
    last: Option<Moment>,
    days: int,
    now: Moment,
)
    requires
        days >= 1,
    ensures
        is_idle(last, days, now) <==> last is Some && now.nanos - last->0.nanos >= days
            * 86_400_000_000_000,
{
    if let Some(t) = last {
        crate::disk::cleanup::lemma_whole_days(t, now, days);
    }
}

/// The entry that is come to from another by going down by these places, one after the other.
pub open spec fn descendant(e: TreeEntry, steps: Seq<int>) -> TreeEntry
    decreases steps.len(),
{
    if steps.len() == 0 {
        e
    } else {
        descendant(e.entries@[steps[0]], steps.drop_first())
    }
}

/// Going down by these places leads through directories alone, and into none that a build, a
/// package manager or a repository fills. What the way starts from may be a link to a directory.
pub open spec fn is_way(e: TreeEntry, steps: Seq<int>, start: bool) -> bool
    decreases steps.len(),
{
    steps.len() > 0 ==> {
        let next = e.entries@[steps[0]];
        &&& 0 <= steps[0] < e.entries@.len()
        &&& start || e.kind == TreeKind::Directory
        &&& next.kind == TreeKind::Directory ==> {
            &&& next.name@ != "target"@
            &&& next.name@ != "node_modules"@
            &&& next.name@ != ".venv"@
            &&& next.name@ != "venv"@
            &&& next.name@ != ".git"@
            &&& next.name@ != ".gradle"@
            &&& next.name@ != "__pycache__"@
            &&& next.name@ != "build"@
        }
        &&& is_way(next, steps.drop_first(), false)
    }
}

proof fn lemma_visited_all_of(entries: Seq<TreeEntry>, depth: int, max: int, k: int, x: TreeEntry)
    requires
        0 <= k < entries.len(),
        visited(entries[k], depth, max).contains(x),
    ensures
        visited_all(entries, depth, max).contains(x),
    decreases entries.len(),
{
    let front = visited_all(entries.drop_last(), depth, max);
    let back = visited(entries.last(), depth, max);
    let all = visited_all(entries, depth, max);
    assert(all == front + back);
    if k == entries.len() - 1 {
        let i = choose|i: int| 0 <= i < back.len() && back[i] == x;
        assert(all[front.len() + i] == x);
    } else {
        assert(entries.drop_last()[k] == entries[k]);
        lemma_visited_all_of(entries.drop_last(), depth, max, k, x);
        let i = choose|i: int| 0 <= i < front.len() && front[i] == x;
        assert(all[i] == x);
    }
}

proof fn lemma_way_is_walked(e: TreeEntry, steps: Seq<int>, depth: int, max: int)
    requires
        0 <= depth,
        depth + steps.len() <= max,
        is_way(e, steps, depth == 0),
        !passed_over(e, depth),
    ensures
        visited(e, depth, max).contains(descendant(e, steps)),
    decreases steps.len(),
{
    let all = visited(e, depth, max);
    assert(all[0] == e);
    if steps.len() > 0 {
        let next = e.entries@[steps[0]];
        let x = descendant(e, steps);
        lemma_way_is_walked(next, steps.drop_first(), depth + 1, max);
        lemma_visited_all_of(e.entries@, depth + 1, max, steps[0], x);
        let below = visited_all(e.entries@, depth + 1, max);
        let i = choose|i: int| 0 <= i < below.len() && below[i] == x;
        assert(all[i + 1] == x);
    }
}

proof fn lemma_walked_all_from(
    entries: Seq<TreeEntry>,
    depth: int,
    max: int,
    x: TreeEntry,
) -> (k: int)
    requires
        visited_all(entries, depth, max).contains(x),
    ensures
        0 <= k < entries.len(),
        visited(entries[k], depth, max).contains(x),
    decreases entries.len(),
{
    let front = visited_all(entries.drop_last(), depth, max);
    let back = visited(entries.last(), depth, max);
    let all = visited_all(entries, depth, max);
    let i = choose|i: int| 0 <= i < all.len() && all[i] == x;
    assert(entries.len() > 0);
    assert(all == front + back);
    if i < front.len() {
        assert(front[i] == x);
        lemma_walked_all_from(entries.drop_last(), depth, max, x)
    } else {
        assert(back[i - front.len()] == x);
        entries.len() - 1
    }
}

proof fn lemma_walked_is_way(e: TreeEntry, depth: int, max: int, x: TreeEntry) -> (steps: Seq<int>)
    requires
        0 <= depth <= max,
        visited(e, depth, max).contains(x),
    ensures
        depth + steps.len() <= max,
        is_way(e, steps, depth == 0),
        !passed_over(e, depth),
        descendant(e, steps) == x,
    decreases e,
{
    let all = visited(e, depth, max);
    let i = choose|i: int| 0 <= i < all.len() && all[i] == x;
    if i == 0 {
        Seq::empty()
    } else {
        let below = visited_all(e.entries@, depth + 1, max);
        assert(below[i - 1] == x);
        let k = lemma_walked_all_from(e.entries@, depth + 1, max, x);
        assert(decreases_to!(e => e.entries@[k]));
        let rest = lemma_walked_is_way(e.entries@[k], depth + 1, max, x);
        let steps = seq![k] + rest;
        assert(steps.drop_first() =~= rest);
        steps
    }
}

/// A walk comes by what a way of no more steps than are allowed leads to, and by nothing else.
pub proof fn law_a_walk_comes_by_all_that_is_near(root: TreeEntry, max: int, x: TreeEntry)
    requires
        max >= 0,
    ensures
        visited(root, 0, max).contains(x) <==> exists|steps: Seq<int>|
            steps.len() <= max && is_way(root, steps, true) && #[trigger] descendant(root, steps)
                == x,
{
    if visited(root, 0, max).contains(x) {
        let steps = lemma_walked_is_way(root, 0, max, x);
        assert(descendant(root, steps) == x);
    }
    if exists|steps: Seq<int>|
        steps.len() <= max && is_way(root, steps, true) && #[trigger] descendant(root, steps) == x {
        let steps = choose|steps: Seq<int>|
            steps.len() <= max && is_way(root, steps, true) && #[trigger] descendant(root, steps)
                == x;
        lemma_way_is_walked(root, steps, 0, max);
    }
}

/// The first entry of this name is a directory that holds something.
pub open spec fn is_filled(entries: Seq<TreeEntry>, name: Seq<char>, size: u64) -> bool {
    exists|j: int|
        {
            &&& 0 <= j < entries.len()
            &&& (#[trigger] entries[j]).name@ == name
            &&& entries[j].is_dir
            &&& entries[j].size == size > 0
            &&& forall|i: int| 0 <= i < j ==> (#[trigger] entries[i]).name@ != name
        }
}

/// Some entry of this name is a file.
pub open spec fn is_there(entries: Seq<TreeEntry>, name: Seq<char>) -> bool {
    exists|j: int|
        0 <= j < entries.len() && (#[trigger] entries[j]).name@ == name && entries[j].is_file
}

proof fn lemma_child_is_first(entries: Seq<TreeEntry>, name: Seq<char>)
    ensures
        match child_named(entries, name) {
            Some(e) => exists|j: int|
                {
                    &&& 0 <= j < entries.len()
                    &&& #[trigger] entries[j] == e
                    &&& e.name@ == name
                    &&& forall|i: int| 0 <= i < j ==> (#[trigger] entries[i]).name@ != name
                },
            None => forall|i: int| 0 <= i < entries.len() ==> (#[trigger] entries[i]).name@ != name,
        },
    decreases entries.len(),
{
    if entries.len() > 0 {
        let before = entries.drop_last();
        lemma_child_is_first(before, name);
        assert forall|i: int| 0 <= i < before.len() implies before[i] == #[trigger] entries[i] by {}
        match child_named(before, name) {
            Some(e) => {
                let k = choose|j: int|
                    {
                        &&& 0 <= j < before.len()
                        &&& #[trigger] before[j] == e
                        &&& e.name@ == name
                        &&& forall|i: int| 0 <= i < j ==> (#[trigger] before[i]).name@ != name
                    };
                assert(entries[k] == e);
                assert forall|i: int| 0 <= i < k implies (#[trigger] entries[i]).name@ != name by {
                    assert(before[i].name@ != name);
                }
            },
            None => {
                assert forall|i: int| 0 <= i < before.len() implies (
                #[trigger] entries[i]).name@ != name by {
                    assert(before[i].name@ != name);
                }
                assert(entries[entries.len() - 1] == entries.last());
            },
        }
    }
}

proof fn lemma_filled(dir: TreeEntry, name: Seq<char>, size: u64)
    ensures
        is_filled(dir.entries@, name, size) == (child_named(dir.entries@, name) is Some
            && child_named(dir.entries@, name)->0.is_dir && child_named(dir.entries@, name)->0.size
            == size > 0),
{
    let all = dir.entries@;
    lemma_child_is_first(all, name);
    match child_named(all, name) {
        Some(e) => {
            let k = choose|j: int|
                {
                    &&& 0 <= j < all.len()
                    &&& #[trigger] all[j] == e
                    &&& e.name@ == name
                    &&& forall|i: int| 0 <= i < j ==> (#[trigger] all[i]).name@ != name
                };
            assert(all[k].name@ == name);
            if is_filled(all, name, size) {
                let j = choose|j: int|
                    {
                        &&& 0 <= j < all.len()
                        &&& (#[trigger] all[j]).name@ == name
                        &&& all[j].is_dir
                        &&& all[j].size == size > 0
                        &&& forall|i: int| 0 <= i < j ==> (#[trigger] all[i]).name@ != name
                    };
                assert(j == k);
            }
        },
        None => {},
    }
}

proof fn lemma_artifact_from(
    dir: TreeEntry,
    names: Seq<Seq<char>>,
    size: u64,
    path: Seq<char>,
) -> (k: int)
    requires
        artifacts_in(dir, names).contains((path, size)),
    ensures
        0 <= k < names.len(),
        is_filled(dir.entries@, names[k], size),
        path == paths::below(dir.path@, names[k]),
    decreases names.len(),
{
    let all = artifacts_in(dir, names);
    let i = choose|i: int| 0 <= i < all.len() && all[i] == (path, size);
    assert(names.len() > 0);
    let before = artifacts_in(dir, names.drop_last());
    if i < before.len() {
        assert(before[i] == (path, size));
        lemma_artifact_from(dir, names.drop_last(), size, path)
    } else {
        lemma_filled(dir, names.last(), size);
        names.len() - 1
    }
}

proof fn lemma_artifact_in(dir: TreeEntry, names: Seq<Seq<char>>, size: u64, k: int)
    requires
        0 <= k < names.len(),
        is_filled(dir.entries@, names[k], size),
    ensures
        artifacts_in(dir, names).contains((paths::below(dir.path@, names[k]), size)),
    decreases names.len(),
{
    let all = artifacts_in(dir, names);
    let row = (paths::below(dir.path@, names[k]), size);
    let before = artifacts_in(dir, names.drop_last());
    if k == names.len() - 1 {
        lemma_filled(dir, names.last(), size);
        assert(all[before.len() as int] == row);
    } else {
        assert(names.drop_last()[k] == names[k]);
        lemma_artifact_in(dir, names.drop_last(), size, k);
        let i = choose|i: int| 0 <= i < before.len() && before[i] == row;
        assert(all[i] == row);
    }
}

/// A directory is a project of a kind exactly where one of the files that mark the kind stands
/// in it and one of the directories that its builds fill does too. The artifacts of the project
/// are all of those directories, each with what it holds.
pub proof fn law_a_project_has_a_marker_and_artifacts(
    dir: TreeEntry,
    kind: ProjectKind,
    path: Seq<char>,
    size: u64,
)
    ensures
        project_in(dir, kind) is Some <==> {
            &&& match kind {
                ProjectKind::Cargo => is_there(dir.entries@, "Cargo.toml"@),
                ProjectKind::Node => is_there(dir.entries@, "package.json"@),
                ProjectKind::Python => {
                    ||| is_there(dir.entries@, "pyproject.toml"@)
                    ||| is_there(dir.entries@, "requirements.txt"@)
                    ||| is_there(dir.entries@, "setup.py"@)
                },
                ProjectKind::Gradle => {
                    ||| is_there(dir.entries@, "build.gradle"@)
                    ||| is_there(dir.entries@, "build.gradle.kts"@)
                    ||| is_there(dir.entries@, "settings.gradle"@)
                    ||| is_there(dir.entries@, "settings.gradle.kts"@)
                },
            }
            &&& match kind {
                ProjectKind::Cargo => exists|held: u64| #[trigger]
                    is_filled(dir.entries@, "target"@, held),
                ProjectKind::Node => exists|held: u64| #[trigger]
                    is_filled(dir.entries@, "node_modules"@, held),
                ProjectKind::Python => {
                    ||| exists|held: u64| #[trigger] is_filled(dir.entries@, ".venv"@, held)
                    ||| exists|held: u64| #[trigger] is_filled(dir.entries@, "venv"@, held)
                },
                ProjectKind::Gradle => {
                    ||| exists|held: u64| #[trigger] is_filled(dir.entries@, "build"@, held)
                    ||| exists|held: u64| #[trigger] is_filled(dir.entries@, ".gradle"@, held)
                },
            }
        },
        project_in(dir, kind) matches Some(p) ==> {
            &&& p.root == dir.path@
            &&& p.kind == kind
            &&& p.artifacts.contains((path, size)) <==> match kind {
                ProjectKind::Cargo => path == paths::below(dir.path@, "target"@) && is_filled(
                    dir.entries@,
                    "target"@,
                    size,
                ),
                ProjectKind::Node => path == paths::below(dir.path@, "node_modules"@) && is_filled(
                    dir.entries@,
                    "node_modules"@,
                    size,
                ),
                ProjectKind::Python => {
                    ||| path == paths::below(dir.path@, ".venv"@) && is_filled(
                        dir.entries@,
                        ".venv"@,
                        size,
                    )
                    ||| path == paths::below(dir.path@, "venv"@) && is_filled(
                        dir.entries@,
                        "venv"@,
                        size,
                    )
                },
                ProjectKind::Gradle => {
                    ||| path == paths::below(dir.path@, "build"@) && is_filled(
                        dir.entries@,
                        "build"@,
                        size,
                    )
                    ||| path == paths::below(dir.path@, ".gradle"@) && is_filled(
                        dir.entries@,
                        ".gradle"@,
                        size,
                    )
                },
            }
        },
{
    lemma_marked(dir, kind);
    lemma_names(kind);
    let names = artifacts_of(kind);
    lemma_some_artifact(dir, names);
    lemma_one_artifact(dir, names, path, size);
}

/// The artifact directories of a kind are two at most.
proof fn lemma_names(kind: ProjectKind)
    ensures
        artifacts_of(kind).len() == (match kind {
            ProjectKind::Cargo | ProjectKind::Node => 1int,
            _ => 2,
        }),
        artifacts_of(kind)[0] == (match kind {
            ProjectKind::Cargo => "target"@,
            ProjectKind::Node => "node_modules"@,
            ProjectKind::Python => ".venv"@,
            ProjectKind::Gradle => "build"@,
        }),
        kind == ProjectKind::Python ==> artifacts_of(kind)[1] == "venv"@,
        kind == ProjectKind::Gradle ==> artifacts_of(kind)[1] == ".gradle"@,
{
}

proof fn lemma_some_artifact(dir: TreeEntry, names: Seq<Seq<char>>)
    requires
        1 <= names.len() <= 2,
    ensures
        artifacts_in(dir, names).len() > 0 <==> {
            ||| exists|held: u64| #[trigger] is_filled(dir.entries@, names[0], held)
            ||| names.len() == 2 && exists|held: u64| #[trigger]
                is_filled(dir.entries@, names[1], held)
        },
{
    let all = artifacts_in(dir, names);
    if all.len() > 0 {
        let (p, held) = all[0];
        assert(all.contains((p, held)));
        let k = lemma_artifact_from(dir, names, held, p);
        assert(is_filled(dir.entries@, names[k], held));
        assert(k == 0 || k == 1);
    }
    if exists|held: u64| #[trigger] is_filled(dir.entries@, names[0], held) {
        let held = choose|held: u64| #[trigger] is_filled(dir.entries@, names[0], held);
        lemma_artifact_in(dir, names, held, 0);
    }
    if names.len() == 2 && exists|held: u64| #[trigger] is_filled(dir.entries@, names[1], held) {
        let held = choose|held: u64| #[trigger] is_filled(dir.entries@, names[1], held);
        lemma_artifact_in(dir, names, held, 1);
    }
}

proof fn lemma_one_artifact(dir: TreeEntry, names: Seq<Seq<char>>, path: Seq<char>, size: u64)
    requires
        1 <= names.len() <= 2,
    ensures
        artifacts_in(dir, names).contains((path, size)) <==> {
            ||| path == paths::below(dir.path@, names[0]) && is_filled(
                dir.entries@,
                names[0],
                size,
            )
            ||| names.len() == 2 && path == paths::below(dir.path@, names[1]) && is_filled(
                dir.entries@,
                names[1],
                size,
            )
        },
{
    if artifacts_in(dir, names).contains((path, size)) {
        let k = lemma_artifact_from(dir, names, size, path);
        assert(k == 0 || k == 1);
    }
    if is_filled(dir.entries@, names[0], size) {
        lemma_artifact_in(dir, names, size, 0);
    }
    if names.len() == 2 && is_filled(dir.entries@, names[1], size) {
        lemma_artifact_in(dir, names, size, 1);
    }
}

proof fn lemma_marked(dir: TreeEntry, kind: ProjectKind)
    ensures
        is_marked(dir, kind) == match kind {
            ProjectKind::Cargo => is_there(dir.entries@, "Cargo.toml"@),
            ProjectKind::Node => is_there(dir.entries@, "package.json"@),
            ProjectKind::Python => {
                ||| is_there(dir.entries@, "pyproject.toml"@)
                ||| is_there(dir.entries@, "requirements.txt"@)
                ||| is_there(dir.entries@, "setup.py"@)
            },
            ProjectKind::Gradle => {
                ||| is_there(dir.entries@, "build.gradle"@)
                ||| is_there(dir.entries@, "build.gradle.kts"@)
                ||| is_there(dir.entries@, "settings.gradle"@)
                ||| is_there(dir.entries@, "settings.gradle.kts"@)
            },
        },
{
    let marks = markers_of(kind);
    assert forall|i: int| 0 <= i < marks.len() implies has_file(dir.entries@, #[trigger] marks[i])
        == is_there(dir.entries@, marks[i]) by {}
    assert(marks[0] == marks[0]);
    if marks.len() > 1 {
        assert(marks[1] == marks[1]);
        assert(marks[2] == marks[2]);
    }
    if marks.len() > 3 {
        assert(marks[3] == marks[3]);
    }
}

proof fn lemma_among(seen: Seq<TreeEntry>, dir: TreeEntry, row: ProjectRow)
    requires
        seen.contains(dir),
        dir.kind == TreeKind::Directory,
        projects_at(dir).contains(row),
    ensures
        projects_among(seen).contains(row),
    decreases seen.len(),
{
    let k = choose|k: int| 0 <= k < seen.len() && seen[k] == dir;
    let front = projects_among(seen.drop_last());
    let all = projects_among(seen);
    if k == seen.len() - 1 {
        let own = projects_at(dir);
        let i = choose|i: int| 0 <= i < own.len() && own[i] == row;
        assert(all[front.len() + i] == row);
    } else {
        assert(seen.drop_last()[k] == dir);
        lemma_among(seen.drop_last(), dir, row);
        let i = choose|i: int| 0 <= i < front.len() && front[i] == row;
        assert(all[i] == row);
    }
}

proof fn lemma_under(roots: Seq<TreeEntry>, max: int, k: int, row: ProjectRow)
    requires
        0 <= k < roots.len(),
        roots[k].is_dir,
        projects_among(visited(roots[k], 0, max)).contains(row),
    ensures
        projects_under(roots, max).contains(row),
    decreases roots.len(),
{
    let front = projects_under(roots.drop_last(), max);
    let all = projects_under(roots, max);
    if k == roots.len() - 1 {
        let own = projects_among(visited(roots[k], 0, max));
        let i = choose|i: int| 0 <= i < own.len() && own[i] == row;
        assert(all[front.len() + i] == row);
    } else {
        assert(roots.drop_last()[k] == roots[k]);
        lemma_under(roots.drop_last(), max, k, row);
        let i = choose|i: int| 0 <= i < front.len() && front[i] == row;
        assert(all[i] == row);
    }
}

/// Every directory near enough to a root that is a project of a kind is listed as one, whatever
/// other kinds it is a project of and whatever lies in other directories.
pub proof fn law_every_project_near_a_root_is_found(
    roots: Seq<TreeEntry>,
    k: int,
    steps: Seq<int>,
    kind: ProjectKind,
    max: int,
)
    requires
        0 <= k < roots.len(),
        roots[k].is_dir,
        steps.len() <= max,
        is_way(roots[k], steps, true),
        descendant(roots[k], steps).kind == TreeKind::Directory,
        project_in(descendant(roots[k], steps), kind) is Some,
    ensures
        order::arranged(projects_under(roots, max), project_order()).contains(
            project_in(descendant(roots[k], steps), kind)->0,
        ),
{
    let dir = descendant(roots[k], steps);
    let row = project_in(dir, kind)->0;
    lemma_way_is_walked(roots[k], steps, 0, max);
    let one = |kind: ProjectKind|
        match project_in(dir, kind) {
            Some(p) => seq![p],
            None => Seq::<ProjectRow>::empty(),
        };
    let a = one(ProjectKind::Cargo);
    let b = one(ProjectKind::Node);
    let c = one(ProjectKind::Python);
    let d = one(ProjectKind::Gradle);
    let own = projects_at(dir);
    assert(own =~= a + b + c + d);
    match kind {
        ProjectKind::Cargo => {
            assert(own[0] == row);
        },
        ProjectKind::Node => {
            assert(own[a.len() as int] == row);
        },
        ProjectKind::Python => {
            assert(own[a.len() as int + b.len()] == row);
        },
        ProjectKind::Gradle => {
            assert(own[a.len() as int + b.len() + c.len()] == row);
        },
    }
    lemma_among(visited(roots[k], 0, max), dir, row);
    lemma_under(roots, max, k, row);
    order::lemma_arranged_keeps(projects_under(roots, max), project_order(), row);
}

/// A file that changed keeps its project from being older than that, however deep it lies within
/// the eight levels that are looked at, and unless a project has more than twenty thousand
/// entries: artifacts aside, the newest change is no earlier than any of them.
pub proof fn law_a_changed_file_dates_its_project(dir: TreeEntry, steps: Seq<int>)
    requires
        steps.len() <= 8,
        is_way(dir, steps, true),
        descendant(dir, steps).kind == TreeKind::File,
        descendant(dir, steps).modified is Some,
        visited(dir, 0, 8).len() <= 20_000,
    ensures
        newest_source(dir) is Some,
        newest_source(dir)->0.nanos >= descendant(dir, steps).modified->0.nanos,
{
    let file = descendant(dir, steps);
    let seen = visited(dir, 0, 8);
    lemma_way_is_walked(dir, steps, 0, 8);
    law_no_file_is_newer_than_the_newest(seen);
    let i = choose|i: int| 0 <= i < seen.len() && seen[i] == file;
    assert(seen[i].kind == TreeKind::File);
}

/// No project is listed before one whose artifacts hold more.
pub proof fn law_the_largest_project_is_listed_first(
    roots: Seq<TreeEntry>,
    max: int,
    i: int,
    j: int,
)
    requires
        0 <= i < j < order::arranged(projects_under(roots, max), project_order()).len(),
    ensures
        ({
            let listed = order::arranged(projects_under(roots, max), project_order());
            let held = |p: ProjectRow| sum_of(p.artifacts, |a: (Seq<char>, u64)| a.1 as int);
            held(listed[i]) >= held(listed[j])
        }),
{
    let listed = order::arranged(projects_under(roots, max), project_order());
    order::lemma_arranged_ordered(projects_under(roots, max), project_order());
    assert(project_order()(listed[i], listed[j]));
}

} // verus!
