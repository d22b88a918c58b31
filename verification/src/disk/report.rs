//! The cached result of a scan.
use vstd::prelude::*;
use crate::disk::audit::{Audit, Category, CategoryPath};
use crate::disk::projects::{Artifact, Project, ProjectKind};
use crate::disk::sweep::{count_denials, Denial, RootUsage, Unreadable};
use crate::disk::util::{Moment, Span, SECOND};
use crate::paths;
use crate::text;
use crate::text::texts;

verus! {

/// Bumped whenever the shape below changes. A cache of another version is
/// discarded.
pub const SCHEMA: u32 = 2;

/// Past this many seconds the cache is ignored even if present.
pub const MAX_AGE: u64 = 86_400;

/// A scan as it is cached.
#[derive(Debug)]
pub struct Report {
    pub schema: u32,
    /// Seconds since the start of 1970. An instant, never an age, so everything
    /// derived from it stays right as the cache gets older.
    pub generated_at: u64,
    pub roots: Vec<RootSnap>,
    pub categories: Vec<CategorySnap>,
    pub projects: Vec<ProjectSnap>,
}

#[derive(Debug)]
pub struct RootSnap {
    pub name: String,
    pub path: String,
    pub total: u64,
    pub unattributed_total: u64,
    pub unattributed: Vec<(String, u64)>,
    pub unreadable: Vec<UnreadableSnap>,
    pub unreadable_count: usize,
}

#[derive(Debug)]
pub struct UnreadableSnap {
    pub path: String,
    pub protected: bool,
}

#[derive(Debug)]
pub struct CategorySnap {
    pub name: String,
    pub total_size: u64,
    pub paths: Vec<PathSnap>,
}

#[derive(Debug)]
pub struct PathSnap {
    pub label: String,
    pub path: String,
    pub size: u64,
}

#[derive(Debug)]
pub struct ProjectSnap {
    pub root: String,
    pub kind: ProjectKind,
    pub artifacts: Vec<ArtifactSnap>,
    /// Seconds since the start of 1970 of the newest source file at scan time.
    pub last_active: Option<u64>,
}

#[derive(Debug)]
pub struct ArtifactSnap {
    pub path: String,
    pub size: u64,
}

/// Where a set of numbers came from.
#[derive(Debug, Clone, Copy, PartialEq, Eq, Structural)]
pub enum Source {
    Fresh,
    Cache { age: Span },
}

/// Sizes by path are the same.
pub open spec fn same_sizes(a: Seq<(String, u64)>, b: Seq<(String, u64)>) -> bool {
    &&& a.len() == b.len()
    &&& forall|i: int| 0 <= i < a.len() ==> (#[trigger] a[i]).0@ == b[i].0@ && a[i].1 == b[i].1
}

/// A path of a category and its snapshot say the same.
pub open spec fn same_path_snap(p: CategoryPath, s: PathSnap) -> bool {
    p.label@ == s.label@ && p.path@ == s.path@ && p.size == s.size
}

/// A category and its snapshot say the same.
pub open spec fn same_category(c: Category, s: CategorySnap) -> bool {
    &&& c.name@ == s.name@
    &&& c.total_size == s.total_size
    &&& c.paths@.len() == s.paths@.len()
    &&& forall|i: int| 0 <= i < c.paths@.len() ==> same_path_snap(#[trigger] c.paths@[i], s.paths@[i])
}

/// Categories and their snapshots say the same.
pub open spec fn same_categories(c: Seq<Category>, s: Seq<CategorySnap>) -> bool {
    &&& c.len() == s.len()
    &&& forall|i: int| 0 <= i < c.len() ==> same_category(#[trigger] c[i], s[i])
}

/// The kind of refusal that a snapshot stands for.
pub open spec fn snap_denial(protected: bool) -> Denial {
    if protected {
        Denial::Protected
    } else {
        Denial::Forbidden
    }
}

/// A root and its snapshot agree on everything but how its refusals are told
/// apart.
pub open spec fn same_root(u: RootUsage, s: RootSnap) -> bool {
    &&& u.name@ == s.name@
    &&& u.path@ == s.path@
    &&& u.total == s.total
    &&& u.unattributed_total == s.unattributed_total
    &&& same_sizes(u.unattributed@, s.unattributed@)
    &&& u.unreadable@.len() == s.unreadable@.len()
    &&& forall|i: int|
        0 <= i < u.unreadable@.len() ==> (#[trigger] u.unreadable@[i]).path@ == s.unreadable@[i].path@
    &&& u.unreadable_count == s.unreadable_count
}

/// A root read back from its snapshot. The snapshot keeps no children, and tells
/// the refusals apart only in the sample.
pub open spec fn root_read(u: RootUsage, s: RootSnap) -> bool {
    &&& same_root(u, s)
    &&& forall|i: int|
        0 <= i < u.unreadable@.len() ==> (#[trigger] u.unreadable@[i]).denial == snap_denial(
            s.unreadable@[i].protected,
        )
    &&& u.children@.len() == 0
    &&& u.refused_children@.len() == 0
    &&& u.denials.counts(u.unreadable@)
}

/// A root put into a snapshot.
pub open spec fn root_written(u: RootUsage, s: RootSnap) -> bool {
    &&& same_root(u, s)
    &&& forall|i: int|
        0 <= i < u.unreadable@.len() ==> s.unreadable@[i].protected == ((
        #[trigger] u.unreadable@[i]).denial == Denial::Protected)
}

/// An artifact and its snapshot say the same.
pub open spec fn same_artifacts(a: Seq<Artifact>, s: Seq<ArtifactSnap>) -> bool {
    &&& a.len() == s.len()
    &&& forall|i: int|
        0 <= i < a.len() ==> (#[trigger] a[i]).path@ == s[i].path@ && a[i].size == s[i].size
}

/// A project read back from its snapshot.
pub open spec fn project_read(p: Project, s: ProjectSnap) -> bool {
    &&& p.root@ == s.root@
    &&& p.kind == s.kind
    &&& same_artifacts(p.artifacts@, s.artifacts@)
    &&& match s.last_active {
        Some(t) => p.last_active matches Some(m) && m.nanos == t * SECOND,
        None => p.last_active is None,
    }
}

/// A project put into a snapshot: the moment is kept to the second, and not at all where
/// it lies before 1970.
pub open spec fn project_written(p: Project, s: ProjectSnap) -> bool {
    &&& p.root@ == s.root@
    &&& p.kind == s.kind
    &&& same_artifacts(p.artifacts@, s.artifacts@)
    &&& match p.last_active {
        Some(m) => match m.epoch_secs() {
            Some(secs) => s.last_active matches Some(t) && t == secs,
            None => s.last_active is None,
        },
        None => s.last_active is None,
    }
}

/// A moment that sixty-four bits of whole seconds can name.
pub open spec fn has_seconds(m: Moment) -> bool {
    m.nanos as int / SECOND as int <= u64::MAX
}

/// Every artifact of a list of projects.
pub open spec fn all_artifacts(projects: Seq<ProjectSnap>) -> Seq<ArtifactSnap>
    decreases projects.len(),
{
    if projects.len() == 0 {
        Seq::empty()
    } else {
        all_artifacts(projects.drop_last()) + projects.last().artifacts@
    }
}

/// The first `n` of a run of artifacts that changed after a moment, where a change
/// is known.
pub open spec fn changed_since(
    artifacts: Seq<ArtifactSnap>,
    modified: Seq<Option<Moment>>,
    cutoff: int,
    n: nat,
) -> Seq<Seq<char>>
    decreases n,
{
    if n == 0 {
        Seq::empty()
    } else {
        let before = changed_since(artifacts, modified, cutoff, (n - 1) as nat);
        if n - 1 < modified.len() && modified[n - 1] is Some && modified[n - 1]->0.nanos > cutoff {
            before.push(artifacts[n - 1].path@)
        } else {
            before
        }
    }
}

fn copy_sizes(v: &Vec<(String, u64)>) -> (r: Vec<(String, u64)>)
    ensures
        same_sizes(r@, v@),
{
    let mut out: Vec<(String, u64)> = Vec::new();
    for i in 0..v.len()
        invariant
            out@.len() == i,
            forall|j: int|
                0 <= j < i ==> (#[trigger] out@[j]).0@ == v@[j].0@ && out@[j].1 == v@[j].1,
    {
        out.push((v[i].0.clone(), v[i].1));
    }
    out
}

impl Report {
    /// The moment of the scan, in nanoseconds since the start of 1970.
    pub open spec fn scanned_at(&self) -> int {
        self.generated_at * SECOND
    }

    /// How old the scan is.
    pub open spec fn age_at(&self, now: Moment) -> int {
        if now.nanos >= self.scanned_at() {
            now.nanos - self.scanned_at()
        } else {
            0
        }
    }

    /// How old the scan is. None where the clock stands before it.
    pub fn age(&self, now: Moment) -> (r: Span)
        ensures
            r.nanos == self.age_at(now),
    {
        now.since(Moment::from_secs(self.generated_at))
    }

    /// The categories of the scan.
    pub fn to_categories(&self) -> (r: Vec<Category>)
        ensures
            same_categories(r@, self.categories@),
    {
        let mut out: Vec<Category> = Vec::new();
        for i in 0..self.categories.len()
            invariant
                out@.len() == i,
                forall|j: int|
                    0 <= j < i ==> same_category(#[trigger] out@[j], self.categories@[j]),
        {
            let c = &self.categories[i];
            let mut listed: Vec<CategoryPath> = Vec::new();
            for k in 0..c.paths.len()
                invariant
                    listed@.len() == k,
                    forall|j: int|
                        0 <= j < k ==> same_path_snap(#[trigger] listed@[j], c.paths@[j]),
            {
                let p = &c.paths[k];
                listed.push(
                    CategoryPath { label: p.label.clone(), path: p.path.clone(), size: p.size },
                );
            }
            out.push(
                Category { name: c.name.clone(), total_size: c.total_size, paths: listed },
            );
        }
        out
    }

    /// The roots of the scan.
    pub fn to_roots(&self) -> (r: Vec<RootUsage>)
        ensures
            r@.len() == self.roots@.len(),
            forall|i: int| 0 <= i < r@.len() ==> root_read(#[trigger] r@[i], self.roots@[i]),
    {
        let mut out: Vec<RootUsage> = Vec::new();
        for i in 0..self.roots.len()
            invariant
                out@.len() == i,
                forall|j: int| 0 <= j < i ==> root_read(#[trigger] out@[j], self.roots@[j]),
        {
            let s = &self.roots[i];
            let mut unreadable: Vec<Unreadable> = Vec::new();
            for k in 0..s.unreadable.len()
                invariant
                    unreadable@.len() == k,
                    forall|j: int|
                        0 <= j < k ==> (#[trigger] unreadable@[j]).path@ == s.unreadable@[j].path@
                            && unreadable@[j].denial == snap_denial(s.unreadable@[j].protected),
            {
                let u = &s.unreadable[k];
                let denial = if u.protected {
                    Denial::Protected
                } else {
                    Denial::Forbidden
                };
                unreadable.push(Unreadable { path: u.path.clone(), denial });
            }
            let denials = count_denials(&unreadable);
            out.push(
                RootUsage {
                    name: s.name.clone(),
                    path: s.path.clone(),
                    total: s.total,
                    children: Vec::new(),
                    refused_children: Vec::new(),
                    unattributed_total: s.unattributed_total,
                    unattributed: copy_sizes(&s.unattributed),
                    unreadable,
                    unreadable_count: s.unreadable_count,
                    denials,
                },
            );
        }
        out
    }

    /// The scan as an audit.
    pub fn to_audit(&self) -> (r: Audit)
        ensures
            same_categories(r.categories@, self.categories@),
            r.roots@.len() == self.roots@.len(),
            forall|i: int|
                0 <= i < r.roots@.len() ==> root_read(#[trigger] r.roots@[i], self.roots@[i]),
    {
        Audit { roots: self.to_roots(), categories: self.to_categories() }
    }

    /// The projects of the scan.
    pub fn to_projects(&self) -> (r: Vec<Project>)
        ensures
            r@.len() == self.projects@.len(),
            forall|i: int| 0 <= i < r@.len() ==> project_read(#[trigger] r@[i], self.projects@[i]),
    {
        let mut out: Vec<Project> = Vec::new();
        for i in 0..self.projects.len()
            invariant
                out@.len() == i,
                forall|j: int| 0 <= j < i ==> project_read(#[trigger] out@[j], self.projects@[j]),
        {
            let s = &self.projects[i];
            let mut artifacts: Vec<Artifact> = Vec::new();
            for k in 0..s.artifacts.len()
                invariant
                    artifacts@.len() == k,
                    forall|j: int|
                        0 <= j < k ==> (#[trigger] artifacts@[j]).path@ == s.artifacts@[j].path@
                            && artifacts@[j].size == s.artifacts@[j].size,
            {
                artifacts.push(
                    Artifact { path: s.artifacts[k].path.clone(), size: s.artifacts[k].size },
                );
            }
            let last_active: Option<Moment> = match s.last_active {
                Some(t) => Some(Moment::from_secs(t)),
                None => None,
            };
            out.push(Project { root: s.root.clone(), kind: s.kind, artifacts, last_active });
        }
        out
    }

    /// The artifacts touched since the scan, whose cached size is now a guess.
    /// `modified` says, by position over all artifacts of all projects, when each
    /// last changed.
    pub fn stale_paths(&self, modified: &Vec<Option<Moment>>) -> (r: Vec<String>)
        ensures
            texts(r@) == changed_since(
                all_artifacts(self.projects@),
                modified@,
                self.scanned_at(),
                all_artifacts(self.projects@).len(),
            ),
    {
        broadcast use text::lemma_texts_push;

        let cutoff = Moment::from_secs(self.generated_at);
        let ghost all = all_artifacts(self.projects@);
        let mut out: Vec<String> = Vec::new();
        let mut at: usize = 0;
        let mut ended: bool = false;
        assert(texts(out@) =~= changed_since(all, modified@, self.scanned_at(), 0));
        for i in 0..self.projects.len()
            invariant
                cutoff.nanos == self.scanned_at(),
                all == all_artifacts(self.projects@),
                at <= modified@.len(),
                ended ==> at == modified@.len(),
                at <= all_artifacts(self.projects@.take(i as int)).len(),
                !ended ==> at == all_artifacts(self.projects@.take(i as int)).len(),
                texts(out@) == changed_since(
                    all,
                    modified@,
                    self.scanned_at(),
                    all_artifacts(self.projects@.take(i as int)).len(),
                ),
        {
            let p = &self.projects[i];
            let ghost upto = all_artifacts(self.projects@.take(i as int));
            proof {
                assert(self.projects@.take(i + 1).drop_last() =~= self.projects@.take(i as int));
                lemma_artifacts_prefix(self.projects@, i + 1);
            }
            for k in 0..p.artifacts.len()
                invariant
                    i < self.projects@.len(),
                    *p == self.projects@[i as int],
                    cutoff.nanos == self.scanned_at(),
                    all == all_artifacts(self.projects@),
                    upto == all_artifacts(self.projects@.take(i as int)),
                    all_artifacts(self.projects@.take(i + 1)) == upto + p.artifacts@,
                    all_artifacts(self.projects@.take(i + 1)).is_prefix_of(all),
                    at <= modified@.len(),
                    ended ==> at == modified@.len(),
                    at <= upto.len() + k,
                    !ended ==> at == upto.len() + k,
                    texts(out@) == changed_since(
                        all,
                        modified@,
                        self.scanned_at(),
                        (upto.len() + k) as nat,
                    ),
            {
                broadcast use text::lemma_texts_push;

                let a = &p.artifacts[k];
                proof {
                    let next = all_artifacts(self.projects@.take(i + 1));
                    assert(next[upto.len() + k] == *a);
                    assert(all.subrange(0, next.len() as int)[upto.len() + k] == all[upto.len()
                        + k]);
                }
                if at < modified.len() && !ended {
                    if let Some(m) = modified[at] {
                        if m.nanos > cutoff.nanos {
                            out.push(a.path.clone());
                        }
                    }
                    at = at + 1;
                } else {
                    ended = true;
                }
            }
        }
        assert(self.projects@.take(self.projects@.len() as int) =~= self.projects@);
        out
    }

    /// Whether a cached scan is used: one of this version, no older than the limit.
    pub open spec fn is_usable(&self, now: Moment) -> bool {
        self.schema == SCHEMA && self.age_at(now) <= MAX_AGE * SECOND
    }
}

proof fn lemma_artifacts_prefix(projects: Seq<ProjectSnap>, n: int)
    requires
        0 <= n <= projects.len(),
    ensures
        all_artifacts(projects.take(n)).is_prefix_of(all_artifacts(projects)),
    decreases projects.len() - n,
{
    let a = all_artifacts(projects.take(n));
    if n == projects.len() {
        assert(projects.take(n) =~= projects);
        assert(a.subrange(0, a.len() as int) =~= a);
    } else {
        lemma_artifacts_prefix(projects, n + 1);
        assert(projects.take(n + 1).drop_last() =~= projects.take(n));
        let b = all_artifacts(projects.take(n + 1));
        let c = all_artifacts(projects);
        assert(b == a + projects[n].artifacts@);
        assert(c.subrange(0, a.len() as int) =~= a) by {
            assert forall|i: int| 0 <= i < a.len() implies c[i] == a[i] by {
                assert(c.subrange(0, b.len() as int)[i] == b[i]);
            }
        }
    }
}

/// The cached scan, where it is used.
pub fn load(parsed: Option<Report>, now: Moment) -> (r: Option<Report>)
    ensures
        r == (match parsed {
            Some(report) => if report.is_usable(now) {
                Some(report)
            } else {
                None
            },
            None => None,
        }),
{
    match parsed {
        Some(report) => {
            if report.schema != SCHEMA {
                return None;
            }
            if report.age(now).nanos > MAX_AGE as u128 * SECOND {
                return None;
            }
            Some(report)
        },
        None => None,
    }
}

/// The cached scan and where it came from, where it is used. None means that the
/// disk has to be walked: the caller asked for it, or there is no scan to use.
pub fn load_or_refresh(parsed: Option<Report>, no_cache: bool, now: Moment) -> (r: Option<
    (Report, Source),
>)
    ensures
        match r {
            Some((report, source)) => {
                &&& !no_cache
                &&& parsed == Some(report)
                &&& report.is_usable(now)
                &&& source matches Source::Cache { age } && age.nanos == report.age_at(now)
            },
            None => no_cache || parsed is None || !parsed->0.is_usable(now),
        },
{
    if no_cache {
        return None;
    }
    match load(parsed, now) {
        Some(report) => {
            let age = report.age(now);
            Some((report, Source::Cache { age }))
        },
        None => None,
    }
}

/// Where the scan is cached. Not among the caches, which cleanup empties.
pub fn cache_path(data_dir: &Option<String>) -> (r: Option<String>)
    ensures
        text::text_opt(r) == (match text::text_opt(*data_dir) {
            Some(d) => Some(paths::below(paths::below(d, "wsctl"@), "disk-report.json"@)),
            None => None,
        }),
{
    match data_dir {
        Some(d) => {
            let dir = paths::join(d, "wsctl");
            Some(paths::join(&dir, "disk-report.json"))
        },
        None => None,
    }
}

fn snap_root(r: RootUsage) -> (s: RootSnap)
    ensures
        root_written(r, s),
{
    let mut unreadable: Vec<UnreadableSnap> = Vec::new();
    for k in 0..r.unreadable.len()
        invariant
            unreadable@.len() == k,
            forall|j: int|
                0 <= j < k ==> (#[trigger] unreadable@[j]).path@ == r.unreadable@[j].path@
                    && unreadable@[j].protected == (r.unreadable@[j].denial == Denial::Protected),
    {
        let u = &r.unreadable[k];
        unreadable.push(
            UnreadableSnap { path: u.path.clone(), protected: u.denial == Denial::Protected },
        );
    }
    RootSnap {
        name: r.name,
        path: r.path,
        total: r.total,
        unattributed_total: r.unattributed_total,
        unattributed: r.unattributed,
        unreadable,
        unreadable_count: r.unreadable_count,
    }
}

fn snap_category(c: Category) -> (s: CategorySnap)
    ensures
        same_category(c, s),
{
    let mut listed: Vec<PathSnap> = Vec::new();
    for k in 0..c.paths.len()
        invariant
            listed@.len() == k,
            forall|j: int| 0 <= j < k ==> same_path_snap(c.paths@[j], #[trigger] listed@[j]),
    {
        let p = &c.paths[k];
        listed.push(PathSnap { label: p.label.clone(), path: p.path.clone(), size: p.size });
    }
    CategorySnap { name: c.name, total_size: c.total_size, paths: listed }
}

fn snap_project(p: Project) -> (s: ProjectSnap)
    requires
        p.last_active matches Some(m) ==> has_seconds(m),
    ensures
        project_written(p, s),
{
    let mut artifacts: Vec<ArtifactSnap> = Vec::new();
    for k in 0..p.artifacts.len()
        invariant
            artifacts@.len() == k,
            forall|j: int|
                0 <= j < k ==> p.artifacts@[j].path@ == (#[trigger] artifacts@[j]).path@
                    && p.artifacts@[j].size == artifacts@[j].size,
    {
        artifacts.push(
            ArtifactSnap { path: p.artifacts[k].path.clone(), size: p.artifacts[k].size },
        );
    }
    let last_active: Option<u64> = match p.last_active {
        Some(m) => match m.since_epoch() {
            Some(span) => Some(span.as_secs() as u64),
            None => None,
        },
        None => None,
    };
    ProjectSnap { root: p.root, kind: p.kind, artifacts, last_active }
}

/// A fresh report of what a scan found.
pub fn generate(audit: Audit, projects: Vec<Project>, now: Moment) -> (r: Report)
    requires
        has_seconds(now),
        forall|i: int|
            0 <= i < projects@.len() ==> ((#[trigger] projects@[i]).last_active matches Some(m)
                ==> has_seconds(m)),
    ensures
        r.schema == SCHEMA,
        r.generated_at == (match now.epoch_secs() {
            Some(secs) => secs,
            None => 0,
        }),
        r.roots@.len() == audit.roots@.len(),
        forall|i: int| 0 <= i < r.roots@.len() ==> root_written(audit.roots@[i], #[trigger] r.roots@[i]),
        same_categories(audit.categories@, r.categories@),
        r.projects@.len() == projects@.len(),
        forall|i: int|
            0 <= i < r.projects@.len() ==> project_written(projects@[i], #[trigger] r.projects@[i]),
{
    let ghost from_roots = audit.roots@;
    let mut roots: Vec<RootSnap> = Vec::new();
    for u in it: audit.roots
        invariant
            it.seq() == from_roots,
            roots@.len() == it.index(),
            forall|j: int| 0 <= j < roots@.len() ==> root_written(from_roots[j], #[trigger] roots@[j]),
    {
        roots.push(snap_root(u));
    }
    let ghost from_categories = audit.categories@;
    let mut categories: Vec<CategorySnap> = Vec::new();
    for c in it: audit.categories
        invariant
            it.seq() == from_categories,
            categories@.len() == it.index(),
            forall|j: int|
                0 <= j < categories@.len() ==> same_category(
                    from_categories[j],
                    #[trigger] categories@[j],
                ),
    {
        categories.push(snap_category(c));
    }
    let ghost from_projects = projects@;
    let mut snaps: Vec<ProjectSnap> = Vec::new();
    for p in it: projects
        invariant
            it.seq() == from_projects,
            snaps@.len() == it.index(),
            forall|i: int|
                0 <= i < from_projects.len() ==> ((
                #[trigger] from_projects[i]).last_active matches Some(m) ==> has_seconds(m)),
            forall|j: int|
                0 <= j < snaps@.len() ==> project_written(from_projects[j], #[trigger] snaps@[j]),
    {
        assert(from_projects[it.index() as int] == p);
        snaps.push(snap_project(p));
    }
    let generated_at: u64 = match now.since_epoch() {
        Some(span) => span.as_secs() as u64,
        None => 0,
    };
    Report {
        schema: SCHEMA,
        generated_at,
        roots,
        categories,
        projects: snaps,
    }
}

/// How old something is, as it is shown.
pub open spec fn shown_age(secs: int) -> Seq<char> {
    let mins = secs / 60;
    let hours = mins / 60;
    if secs < 90 {
        "just now"@
    } else if mins < 90 {
        text::decimal(mins as nat) + "m ago"@
    } else if hours < 36 {
        text::decimal(hours as nat) + "h ago"@
    } else {
        text::decimal((hours / 24) as nat) + "d ago"@
    }
}

/// How old the numbers are, as it is shown.
pub fn humanize_age(age: Span) -> (r: String)
    requires
        age.secs() <= u64::MAX,
    ensures
        r@ == shown_age(age.secs()),
{
    let secs = age.as_secs() as u64;
    if secs < 90 {
        return "just now".to_owned();
    }
    let mins = secs / 60;
    if mins < 90 {
        let mut out = text::dec(mins);
        out.append("m ago");
        return out;
    }
    let hours = mins / 60;
    if hours < 36 {
        let mut out = text::dec(hours);
        out.append("h ago");
        return out;
    }
    let mut out = text::dec(hours / 24);
    out.append("d ago");
    out
}

/// A root that is written to the cache and read back keeps its name, its path, its
/// numbers and its unattributed children.
pub proof fn law_a_cached_root_keeps_its_numbers(u: RootUsage, s: RootSnap, back: RootUsage)
    requires
        root_written(u, s),
        root_read(back, s),
    ensures
        back.name@ == u.name@,
        back.path@ == u.path@,
        back.total == u.total,
        back.unattributed_total == u.unattributed_total,
        same_sizes(back.unattributed@, u.unattributed@),
        back.unreadable_count == u.unreadable_count,
{
    assert forall|i: int| 0 <= i < back.unattributed@.len() implies (
    #[trigger] back.unattributed@[i]).0@ == u.unattributed@[i].0@ && back.unattributed@[i].1
        == u.unattributed@[i].1 by {
        assert(u.unattributed@[i].0@ == s.unattributed@[i].0@);
    }
}

/// The age of a report grows with the clock: it is derived, never stored.
pub proof fn law_a_report_ages_with_the_clock(r: Report, now: Moment, later: Moment)
    requires
        r.scanned_at() <= now.nanos <= later.nanos,
    ensures
        r.age_at(later) == r.age_at(now) + (later.nanos - now.nanos),
{
}

/// A cached scan is used for a day, by its own clock, and only by the version that wrote it.
pub proof fn law_a_cached_scan_is_used_for_a_day(r: Report, now: Moment)
    ensures
        r.is_usable(now) <==> r.schema == 2 && now.nanos <= r.generated_at * 1_000_000_000
            + 86_400_000_000_000,
{
}

/// An artifact is called stale exactly where it changed after the scan.
pub proof fn law_what_changed_since_the_scan_is_stale(
    artifacts: Seq<ArtifactSnap>,
    modified: Seq<Option<Moment>>,
    cutoff: int,
    n: nat,
    path: Seq<char>,
)
    requires
        n <= artifacts.len(),
    ensures
        changed_since(artifacts, modified, cutoff, n).contains(path) <==> exists|k: int|
            0 <= k < n && k < modified.len() && (#[trigger] modified[k]) is Some
                && modified[k]->0.nanos > cutoff && artifacts[k].path@ == path,
    decreases n,
{
    if n > 0 {
        law_what_changed_since_the_scan_is_stale(
            artifacts,
            modified,
            cutoff,
            (n - 1) as nat,
            path,
        );
        let before = changed_since(artifacts, modified, cutoff, (n - 1) as nat);
        let now = changed_since(artifacts, modified, cutoff, n);
        if before.contains(path) {
            let i = choose|i: int| 0 <= i < before.len() && before[i] == path;
            assert(now[i] == path);
        }
        if now.contains(path) && !before.contains(path) {
            let i = choose|i: int| 0 <= i < now.len() && now[i] == path;
            if i < before.len() {
                assert(before[i] == path);
            }
            assert(modified[n - 1] is Some);
        }
        if n - 1 < modified.len() && modified[n - 1] is Some && modified[n - 1]->0.nanos > cutoff
            && artifacts[n - 1].path@ == path {
            assert(now[before.len() as int] == path);
        }
    }
}

/// The artifacts that are looked at are those of every project.
pub proof fn law_the_artifacts_of_every_project_are_looked_at(
    projects: Seq<ProjectSnap>,
    k: int,
    j: int,
)
    requires
        0 <= k < projects.len(),
        0 <= j < projects[k].artifacts@.len(),
    ensures
        all_artifacts(projects).contains(projects[k].artifacts@[j]),
    decreases projects.len(),
{
    let rest = projects.drop_last();
    let before = all_artifacts(rest);
    let all = all_artifacts(projects);
    if k < rest.len() {
        law_the_artifacts_of_every_project_are_looked_at(rest, k, j);
        let i = choose|i: int| 0 <= i < before.len() && before[i] == rest[k].artifacts@[j];
        assert(all[i] == before[i]);
    } else {
        assert(all[before.len() + j] == projects[k].artifacts@[j]);
    }
}

/// A project that is written to the cache and read back is the same project, with its last
/// change to the second.
pub proof fn law_a_cached_project_reads_back(p: Project, s: ProjectSnap, back: Project)
    requires
        project_written(p, s),
        project_read(back, s),
    ensures
        back.root@ == p.root@,
        back.kind == p.kind,
        back.artifacts@.len() == p.artifacts@.len(),
        forall|i: int|
            0 <= i < p.artifacts@.len() ==> (#[trigger] back.artifacts@[i]).path@
                == p.artifacts@[i].path@ && back.artifacts@[i].size == p.artifacts@[i].size,
        p.last_active is Some && p.last_active->0.nanos >= 0 ==> (back.last_active matches Some(b)
            && b.nanos <= p.last_active->0.nanos < b.nanos + 1_000_000_000),
        p.last_active is None || p.last_active->0.nanos < 0 ==> back.last_active is None,
{
    assert forall|i: int| 0 <= i < p.artifacts@.len() implies (
    #[trigger] back.artifacts@[i]).path@ == p.artifacts@[i].path@ && back.artifacts@[i].size
        == p.artifacts@[i].size by {
        assert(p.artifacts@[i].path@ == s.artifacts@[i].path@);
    }
}

/// A category that is written to the cache and read back lists the same paths with the same
/// sizes.
pub proof fn law_a_cached_category_reads_back(c: Category, s: CategorySnap, back: Category)
    requires
        same_category(c, s),
        same_category(back, s),
    ensures
        back.name@ == c.name@,
        back.total_size == c.total_size,
        back.paths@.len() == c.paths@.len(),
        forall|i: int|
            0 <= i < c.paths@.len() ==> (#[trigger] back.paths@[i]).label@ == c.paths@[i].label@
                && back.paths@[i].path@ == c.paths@[i].path@ && back.paths@[i].size
                == c.paths@[i].size,
{
    assert forall|i: int| 0 <= i < c.paths@.len() implies (#[trigger] back.paths@[i]).label@
        == c.paths@[i].label@ && back.paths@[i].path@ == c.paths@[i].path@ && back.paths@[i].size
        == c.paths@[i].size by {
        assert(same_path_snap(c.paths@[i], s.paths@[i]));
    }
}

/// What would not open reads back in the same order, and what macOS protects stays told apart
/// from what is merely forbidden.
pub proof fn law_cached_refusals_read_back(u: RootUsage, s: RootSnap, back: RootUsage, i: int)
    requires
        root_written(u, s),
        root_read(back, s),
        0 <= i < u.unreadable@.len(),
    ensures
        back.unreadable@.len() == u.unreadable@.len(),
        back.unreadable@[i].path@ == u.unreadable@[i].path@,
        (back.unreadable@[i].denial is Protected) == (u.unreadable@[i].denial is Protected),
{
    assert(u.unreadable@[i].path@ == s.unreadable@[i].path@);
    assert(back.unreadable@[i].path@ == s.unreadable@[i].path@);
}

/// The age that is shown is the whole number of minutes, hours or days that have passed.
pub proof fn law_the_age_shown_is_the_age(secs: int)
    requires
        secs >= 0,
    ensures
        secs < 90 ==> shown_age(secs) == "just now"@,
        90 <= secs < 5400 ==> exists|n: nat|
            shown_age(secs) == #[trigger] text::decimal(n) + "m ago"@ && n * 60 <= secs < n * 60
                + 60,
        5400 <= secs < 129_600 ==> exists|n: nat|
            shown_age(secs) == #[trigger] text::decimal(n) + "h ago"@ && n * 3600 <= secs < n
                * 3600 + 3600,
        129_600 <= secs ==> exists|n: nat|
            shown_age(secs) == #[trigger] text::decimal(n) + "d ago"@ && n * 86_400 <= secs < n
                * 86_400 + 86_400,
{
    let mins = secs / 60;
    let hours = mins / 60;
    let days = hours / 24;
    assert(text::decimal(mins as nat).len() >= 0 && text::decimal(hours as nat).len() >= 0
        && text::decimal(days as nat).len() >= 0);
}

} // verus!
