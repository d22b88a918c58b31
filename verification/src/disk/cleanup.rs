//! What can be cleaned, how much it would free, and what cleaning it takes.
use vstd::prelude::*;
use crate::disk::liveness::{in_use, Liveness};
use crate::disk::sweep::{charge, charge_of, Denials, Meta, Root, Seen};
use crate::disk::util::{days_between, Moment};
use crate::order;
use crate::order::{sum_of, Ranked};
use crate::paths;
use crate::text;
use crate::text::texts;

verus! {

/// What is known about a target's reclaimable bytes.
#[derive(Debug, Clone, Copy, PartialEq, Eq, Structural)]
pub enum Size {
    /// Being measured. The bytes so far are a floor, never a total.
    Counting(u64),
    /// The walk finished. Any denial leaves `bytes` a floor too.
    Measured { bytes: u64, denials: Denials },
    /// Nobody is going to measure this.
    Unknown(u64),
}

impl Size {
    /// What has been counted so far.
    pub open spec fn floor(self) -> u64 {
        match self {
            Size::Counting(bytes) => bytes,
            Size::Unknown(bytes) => bytes,
            Size::Measured { bytes, .. } => bytes,
        }
    }

    /// The number is complete.
    pub open spec fn is_complete(self) -> bool {
        self matches Size::Measured { denials, .. } && denials.sum() == 0
    }

    /// A finished measurement with nothing refused.
    pub fn known(bytes: u64) -> (r: Self)
        ensures
            r.is_complete(),
            r.floor() == bytes,
            r == (Size::Measured {
                bytes,
                denials: Denials { protected: 0, forbidden: 0, unattended: 0 },
            }),
    {
        Size::Measured { bytes, denials: Denials::default() }
    }

    /// What has been counted so far. Safe to sort by, never safe to present as a
    /// total on its own.
    pub fn bytes(self) -> (r: u64)
        ensures
            r == self.floor(),
    {
        match self {
            Size::Counting(bytes) => bytes,
            Size::Unknown(bytes) => bytes,
            Size::Measured { bytes, .. } => bytes,
        }
    }

    /// The number, only when it is complete.
    pub fn total(self) -> (r: Option<u64>)
        ensures
            r == (if self.is_complete() {
                Some(self.floor())
            } else {
                None
            }),
    {
        match self {
            Size::Measured { bytes, denials } => {
                if denials.protected == 0 && denials.forbidden == 0 && denials.unattended == 0 {
                    Some(bytes)
                } else {
                    None
                }
            },
            _ => None,
        }
    }

    /// What refused to open.
    pub fn denials(self) -> (r: Denials)
        ensures
            r == (match self {
                Size::Measured { denials, .. } => denials,
                _ => Denials { protected: 0, forbidden: 0, unattended: 0 },
            }),
    {
        match self {
            Size::Measured { denials, .. } => denials,
            _ => Denials::default(),
        }
    }
}

/// How a target's size gets measured.
#[derive(Debug)]
pub enum Measure {
    /// Everything under this path.
    Tree(String),
    /// One walk for each idle child.
    IdleChildren { dir: String, idle_days: u64 },
    /// Nothing left to do.
    Nothing,
}

/// What cleaning a target does.
#[derive(Debug)]
pub enum CleanAction {
    /// Empty a directory but keep the directory itself.
    RemoveContents(String),
    /// Delete a directory and everything inside it.
    RemoveDir(String),
    /// Delete a single file.
    RemoveFile(String),
    RunCommand(String, Vec<String>),
    RemoveByExtension(String, String),
    /// Delete only those immediate children of `dir` that nothing has touched in
    /// `idle_days` and that no running process is using.
    RemoveIdleChildren { dir: String, idle_days: u64 },
}

/// The directory an action would empty outright, if it empties one at all.
pub open spec fn emptied(action: CleanAction) -> Option<Seq<char>> {
    match action {
        CleanAction::RemoveContents(p) => Some(p@),
        CleanAction::RemoveDir(p) => Some(p@),
        _ => None,
    }
}

/// One thing that can be cleaned.
#[derive(Debug)]
pub struct Target {
    pub name: String,
    pub description: String,
    pub size: Size,
    pub measure: Measure,
    pub action: CleanAction,
}

impl Target {
    /// What is known about its size.
    pub open spec fn sized(&self) -> Size {
        self.size
    }

    /// How it gets measured.
    pub open spec fn measured_by(&self) -> Measure {
        self.measure
    }

    /// What cleaning it does.
    pub open spec fn does(&self) -> CleanAction {
        self.action
    }

    /// A target whose size is already in hand.
    pub fn new(name: &str, description: &str, size: u64, action: CleanAction) -> (r: Self)
        ensures
            r.name@ == name@,
            r.description@ == description@,
            r.sized().is_complete(),
            r.sized().floor() == size,
            r.measured_by() is Nothing,
            r.does() == action,
    {
        Target {
            name: name.to_owned(),
            description: description.to_owned(),
            size: Size::known(size),
            measure: Measure::Nothing,
            action,
        }
    }

    /// A target listed before it is measured.
    pub fn pending(
        name: &str,
        description: &str,
        measure: Measure,
        action: CleanAction,
    ) -> (r: Self)
        ensures
            r.name@ == name@,
            r.description@ == description@,
            r.sized() == Size::Counting(0),
            r.measured_by() == measure,
            r.does() == action,
    {
        Target {
            name: name.to_owned(),
            description: description.to_owned(),
            size: Size::Counting(0),
            measure,
            action,
        }
    }

    /// A target nothing can size up front.
    pub fn unknown(name: &str, description: &str, action: CleanAction) -> (r: Self)
        ensures
            r.name@ == name@,
            r.description@ == description@,
            r.sized() == Size::Unknown(0),
            r.measured_by() is Nothing,
            r.does() == action,
    {
        Target {
            name: name.to_owned(),
            description: description.to_owned(),
            size: Size::Unknown(0),
            measure: Measure::Nothing,
            action,
        }
    }

    /// What is known about its size.
    pub fn size(&self) -> (r: Size)
        ensures
            r == self.sized(),
    {
        self.size
    }

    /// Notes what is known about its size.
    pub fn set_size(&mut self, size: Size)
        ensures
            final(self).sized() == size,
            final(self).name == old(self).name,
            final(self).description == old(self).description,
            final(self).measured_by() == old(self).measured_by(),
            final(self).does() == old(self).does(),
    {
        self.size = size;
    }

    /// How it gets measured.
    pub fn measure(&self) -> (r: &Measure)
        ensures
            *r == self.measured_by(),
    {
        &self.measure
    }

    /// What cleaning it does.
    pub fn action(&self) -> (r: &CleanAction)
        ensures
            *r == self.does(),
    {
        &self.action
    }
}

/// What a walk says of one entry below a scratch directory.
#[derive(Debug)]
pub struct WalkEntry {
    /// Unset where the entry would not say.
    pub meta: Option<Meta>,
    pub modified: Option<Moment>,
}

/// What a walk comes to: the newest change, the bytes, and the entries with
/// several names that were charged.
pub ghost struct Summary {
    pub newest: Option<Moment>,
    pub bytes: int,
    pub seen: Set<(u64, u64)>,
}

/// The later of two moments, where there are any.
pub open spec fn later(a: Option<Moment>, b: Option<Moment>) -> Option<Moment> {
    match (a, b) {
        (Some(x), Some(y)) => if x.nanos >= y.nanos {
            a
        } else {
            b
        },
        (None, _) => b,
        (_, None) => a,
    }
}

/// What a walk comes to after a run of entries.
pub open spec fn summary(entries: Seq<WalkEntry>) -> Summary
    decreases entries.len(),
{
    if entries.len() == 0 {
        Summary { newest: None, bytes: 0, seen: Set::empty() }
    } else {
        let before = summary(entries.drop_last());
        let e = entries.last();
        match e.meta {
            None => before,
            Some(m) => Summary {
                newest: later(before.newest, e.modified),
                bytes: before.bytes + charge_of(m, before.seen),
                seen: if m.nlink > 1 {
                    before.seen.insert((m.dev, m.ino))
                } else {
                    before.seen
                },
            },
        }
    }
}

/// The bytes of every entry, each name counted.
pub open spec fn entry_weight() -> spec_fn(WalkEntry) -> int {
    |e: WalkEntry|
        match e.meta {
            Some(m) => m.bytes(),
            None => 0,
        }
}

proof fn lemma_summary_bound(entries: Seq<WalkEntry>)
    ensures
        0 <= summary(entries).bytes <= sum_of(entries, entry_weight()),
    decreases entries.len(),
{
    if entries.len() > 0 {
        lemma_summary_bound(entries.drop_last());
        if let Some(m) = entries.last().meta {
            assert(m.bytes() >= 0);
        }
    }
}

proof fn lemma_weight_upto(entries: Seq<WalkEntry>, n: int)
    requires
        0 <= n <= entries.len(),
    ensures
        sum_of(entries.take(n), entry_weight()) <= sum_of(entries, entry_weight()),
        0 <= n < entries.len() ==> sum_of(entries.take(n), entry_weight()) + entry_weight()(
            entries[n],
        ) <= sum_of(entries, entry_weight()),
{
    assert forall|i: int| 0 <= i < entries.len() implies entry_weight()(#[trigger] entries[i])
        >= 0 by {
        if let Some(m) = entries[i].meta {
            assert(m.bytes() >= 0);
        }
    }
    order::lemma_sum_prefix(entries, entry_weight(), n);
    if n < entries.len() {
        order::lemma_sum_prefix(entries, entry_weight(), n + 1);
        assert(entries.take(n + 1).drop_last() =~= entries.take(n));
    }
}

/// The newest change and the bytes of a tree, from one walk.
pub fn walk_summary(entries: &Vec<WalkEntry>) -> (r: (Option<Moment>, u64))
    requires
        sum_of(entries@, entry_weight()) <= u64::MAX,
    ensures
        r.0 == summary(entries@).newest,
        r.1 == summary(entries@).bytes,
{
    let mut newest: Option<Moment> = None;
    let mut bytes: u64 = 0;
    let mut seen = Seen::new();
    for i in 0..entries.len()
        invariant
            sum_of(entries@, entry_weight()) <= u64::MAX,
            ({
                let s = summary(entries@.take(i as int));
                newest == s.newest && bytes == s.bytes && seen@ == s.seen
            }),
    {
        proof {
            assert(entries@.take(i + 1).drop_last() =~= entries@.take(i as int));
            lemma_summary_bound(entries@.take(i as int));
            lemma_weight_upto(entries@, i as int);
        }
        let e = &entries[i];
        if let Some(meta) = &e.meta {
            assert(entry_weight()(entries@[i as int]) == meta.bytes());
            newest = match (newest, e.modified) {
                (Some(a), Some(b)) => if a.nanos >= b.nanos {
                    Some(a)
                } else {
                    Some(b)
                },
                (None, b) => b,
                (a, None) => a,
            };
            let more = charge(meta, &mut seen);
            bytes = bytes + more;
        }
    }
    assert(entries@.take(entries@.len() as int) =~= entries@);
    (newest, bytes)
}

/// One child of a scratch directory, and what a walk below it says.
#[derive(Debug)]
pub struct Candidate {
    pub path: String,
    pub is_symlink: bool,
    pub entries: Vec<WalkEntry>,
}

/// Candidates in the order of their paths.
impl Ranked for Candidate {
    open spec fn le(&self, other: &Self) -> bool {
        paths::path_le(self.path@, other.path@)
    }

    proof fn le_total(a: &Self, b: &Self) {
        paths::lemma_components_le_total(
            paths::components(a.path@),
            paths::components(b.path@),
        );
    }

    proof fn le_transitive(a: &Self, b: &Self, c: &Self) {
        paths::lemma_components_le_transitive(
            paths::components(a.path@),
            paths::components(b.path@),
            paths::components(c.path@),
        );
    }

    fn leq(&self, other: &Self) -> (r: bool) {
        paths::path_leq(&self.path, &other.path)
    }
}

/// Every child worth asking about: those that are no links, in the order of
/// their paths.
pub fn idle_candidates(children: Vec<Candidate>) -> (r: Vec<Candidate>)
    ensures
        r@ == order::sorted(children@.filter(|c: Candidate| !c.is_symlink)),
{
    let ghost all = children@;
    let ghost solid = |c: Candidate| !c.is_symlink;
    let mut kept: Vec<Candidate> = Vec::new();
    proof {
        reveal(Seq::filter);
    }
    for c in it: children
        invariant
            it.seq() == all,
            solid == (|c: Candidate| !c.is_symlink),
            kept@ == all.take(it.index() as int).filter(solid),
    {
        proof {
            let n = it.index() as int;
            assert(all.take(n + 1) =~= all.take(n).push(c));
            all.take(n).lemma_filter_push(c, solid);
        }
        if !c.is_symlink {
            kept.push(c);
        }
    }
    assert(all.take(all.len() as int) =~= all);
    order::sort(kept)
}

/// The bytes a child would free: those of one that is no link, that nothing is
/// using, and whose newest change is old enough.
pub open spec fn idle_bytes(
    c: Candidate,
    idle_days: int,
    cwds: Seq<(i32, Seq<char>, Seq<char>)>,
    argv: Seq<(i32, Seq<char>, Seq<char>)>,
    now: Moment,
) -> Option<int> {
    let s = summary(c.entries@);
    if c.is_symlink || in_use(cwds, argv, c.path@).len() > 0 {
        None
    } else {
        match s.newest {
            Some(t) => if days_between(t, now) >= idle_days {
                Some(s.bytes)
            } else {
                None
            },
            None => None,
        }
    }
}

/// The bytes a child would free, or nothing when it is too fresh or in use.
pub fn idle_child(c: &Candidate, idle_days: u64, live: &Liveness, now: Moment) -> (r: Option<u64>)
    requires
        sum_of(c.entries@, entry_weight()) <= u64::MAX,
    ensures
        match r {
            Some(b) => idle_bytes(*c, idle_days as int, live.cwds(), live.argv(), now) == Some(
                b as int,
            ),
            None => idle_bytes(*c, idle_days as int, live.cwds(), live.argv(), now) is None,
        },
{
    if c.is_symlink || live.is_busy(&c.path) {
        return None;
    }
    let (newest, bytes) = walk_summary(&c.entries);
    match crate::disk::util::idle_days(newest, now) {
        Some(days) => if days >= idle_days as u128 {
            Some(bytes)
        } else {
            None
        },
        None => None,
    }
}

/// What a child frees, in mathematical terms.
pub open spec fn freed_rows(v: Seq<(String, u64)>) -> Seq<(Seq<char>, int)> {
    Seq::new(v.len(), |i: int| (v[i].0@, v[i].1 as int))
}

/// The children that are old enough and that nothing is using, in the order they
/// are listed.
pub open spec fn idle_rows(
    children: Seq<Candidate>,
    idle_days: int,
    cwds: Seq<(i32, Seq<char>, Seq<char>)>,
    argv: Seq<(i32, Seq<char>, Seq<char>)>,
    now: Moment,
) -> Seq<(Seq<char>, int)>
    decreases children.len(),
{
    if children.len() == 0 {
        Seq::empty()
    } else {
        let before = idle_rows(children.drop_last(), idle_days, cwds, argv, now);
        match idle_bytes(children.last(), idle_days, cwds, argv, now) {
            Some(b) => before.push((children.last().path@, b)),
            None => before,
        }
    }
}

/// The children that are old enough and that nothing is using, with what each
/// would free. Shared by the estimate and by the removal, so the number shown
/// and the set removed cannot drift apart.
pub fn idle_children_with(
    children: Vec<Candidate>,
    idle_days: u64,
    live: &Liveness,
    now: Moment,
) -> (r: Vec<(String, u64)>)
    requires
        forall|i: int|
            0 <= i < children@.len() ==> sum_of(
                (#[trigger] children@[i]).entries@,
                entry_weight(),
            ) <= u64::MAX,
    ensures
        freed_rows(r@) == idle_rows(
            order::sorted(children@.filter(|c: Candidate| !c.is_symlink)),
            idle_days as int,
            live.cwds(),
            live.argv(),
            now,
        ),
{
    let ghost all = children@;
    let ghost solid = |c: Candidate| !c.is_symlink;
    let candidates = idle_candidates(children);
    let ghost days = idle_days as int;
    proof {
        assert forall|i: int| 0 <= i < candidates@.len() implies sum_of(
            (#[trigger] candidates@[i]).entries@,
            entry_weight(),
        ) <= u64::MAX by {
            let kept = all.filter(solid);
            order::lemma_sorted_multiset(kept);
            lemma_same_members(candidates@, kept, candidates@[i]);
            assert(kept.contains(candidates@[i]));
            all.lemma_filter_contains_rev(solid, candidates@[i]);
            let j = choose|j: int| 0 <= j < all.len() && all[j] == candidates@[i];
            assert(sum_of(all[j].entries@, entry_weight()) <= u64::MAX);
        }
    }
    let mut out: Vec<(String, u64)> = Vec::new();
    assert(freed_rows(out@) =~= Seq::<(Seq<char>, int)>::empty());
    for i in 0..candidates.len()
        invariant
            days == idle_days,
            forall|i: int|
                0 <= i < candidates@.len() ==> sum_of(
                    (#[trigger] candidates@[i]).entries@,
                    entry_weight(),
                ) <= u64::MAX,
            freed_rows(out@) == idle_rows(
                candidates@.take(i as int),
                days,
                live.cwds(),
                live.argv(),
                now,
            ),
    {
        assert(candidates@.take(i + 1).drop_last() =~= candidates@.take(i as int));
        let ghost before = freed_rows(out@);
        let c = &candidates[i];
        assert(sum_of(candidates@[i as int].entries@, entry_weight()) <= u64::MAX);
        if let Some(bytes) = idle_child(c, idle_days, live, now) {
            out.push((c.path.clone(), bytes));
            assert(freed_rows(out@) =~= before.push((c.path@, bytes as int)));
        }
    }
    assert(candidates@.take(candidates@.len() as int) =~= candidates@);
    out
}

/// Two lists with the same elements as often contain the same.
proof fn lemma_same_members<T>(a: Seq<T>, b: Seq<T>, x: T)
    requires
        a.to_multiset() == b.to_multiset(),
        a.contains(x),
    ensures
        b.contains(x),
{
    broadcast use vstd::seq_lib::group_to_multiset_ensures;

    assert(a.to_multiset().count(x) > 0);
    assert(b.to_multiset().count(x) > 0);
}

/// The children of a scratch directory that can go, as the reports of `lsof` and
/// `ps` tell what is running.
pub fn idle_children(
    children: Vec<Candidate>,
    idle_days: u64,
    lsof: &Option<String>,
    ps: &Option<String>,
    self_pid: i32,
    now: Moment,
) -> (r: Vec<(String, u64)>)
    requires
        forall|i: int|
            0 <= i < children@.len() ==> sum_of(
                (#[trigger] children@[i]).entries@,
                entry_weight(),
            ) <= u64::MAX,
    ensures
        freed_rows(r@) == idle_rows(
            order::sorted(children@.filter(|c: Candidate| !c.is_symlink)),
            idle_days as int,
            match text::text_opt(*lsof) {
                Some(t) => crate::disk::liveness::cwd_records(t),
                None => Seq::empty(),
            },
            match text::text_opt(*ps) {
                Some(t) => crate::disk::liveness::ps_records(t, self_pid),
                None => Seq::empty(),
            },
            now,
        ),
{
    let live = Liveness::snapshot(lsof, ps, self_pid);
    idle_children_with(children, idle_days, &live, now)
}

/// A child that anything is using is never offered, however old it looks.
pub proof fn law_a_busy_child_is_never_offered(
    c: Candidate,
    idle_days: int,
    cwds: Seq<(i32, Seq<char>, Seq<char>)>,
    argv: Seq<(i32, Seq<char>, Seq<char>)>,
    now: Moment,
)
    requires
        in_use(cwds, argv, c.path@).len() > 0,
    ensures
        idle_bytes(c, idle_days, cwds, argv, now) is None,
{
}

/// A declared path: its category, its label, where it is, and whether a directory
/// is there.
#[derive(Debug)]
pub struct Cleanable {
    pub category: String,
    pub label: String,
    pub path: String,
    pub is_dir: bool,
}

/// Some target of a list empties this directory outright.
pub open spec fn is_emptied(targets: Seq<Target>, path: Seq<char>) -> bool {
    exists|i: int|
        0 <= i < targets.len() && emptied((#[trigger] targets[i]).does()) is Some
            && paths::same_path(emptied(targets[i].does())->0, path)
}

/// The declarations that turn into rows: directories that are there and that no
/// curated target empties already.
pub open spec fn is_offered(targets: Seq<Target>) -> spec_fn(Cleanable) -> bool {
    |c: Cleanable| c.is_dir && !is_emptied(targets, c.path@)
}

/// The row that a declaration turns into.
pub open spec fn is_row_for(t: Target, c: Cleanable) -> bool {
    &&& t.name@ == c.category@ + " > "@ + c.label@
    &&& t.description@ == c.path@
    &&& t.sized() == Size::Counting(0)
    &&& t.measured_by() matches Measure::Tree(p) && p@ == c.path@
    &&& t.does() matches CleanAction::RemoveContents(p) && p@ == c.path@
}

fn empties(targets: &Vec<Target>, n: usize, path: &str) -> (r: bool)
    requires
        n <= targets@.len(),
    ensures
        r == is_emptied(targets@.take(n as int), path@),
{
    for i in 0..n
        invariant
            n <= targets@.len(),
            forall|j: int|
                0 <= j < i ==> !(emptied((#[trigger] targets@[j]).does()) is Some
                    && paths::same_path(emptied(targets@[j].does())->0, path@)),
    {
        let hit: bool = match &targets[i].action {
            CleanAction::RemoveContents(p) => paths::same(p, path),
            CleanAction::RemoveDir(p) => paths::same(p, path),
            _ => false,
        };
        if hit {
            assert(targets@.take(n as int)[i as int] == targets@[i as int]);
            return true;
        }
    }
    assert forall|j: int| 0 <= j < n implies !(emptied(
        (#[trigger] targets@.take(n as int)[j]).does(),
    ) is Some && paths::same_path(emptied(targets@.take(n as int)[j].does())->0, path@)) by {
        assert(targets@.take(n as int)[j] == targets@[j]);
    }
    false
}

/// Adds a row for every declaration that turns into one, behind the targets that
/// are there.
pub fn push_cleanable(targets: &mut Vec<Target>, cleanable: &Vec<Cleanable>)
    ensures
        ({
            let kept = cleanable@.filter(is_offered(old(targets)@));
            let n = old(targets)@.len() as int;
            &&& final(targets)@.len() == n + kept.len()
            &&& forall|i: int| 0 <= i < n ==> final(targets)@[i] == old(targets)@[i]
            &&& forall|i: int|
                0 <= i < kept.len() ==> is_row_for(#[trigger] final(targets)@[n + i], kept[i])
        }),
{
    let n = targets.len();
    let ghost before = targets@;
    let ghost wanted = is_offered(before);
    proof {
        reveal(Seq::filter);
    }
    for k in 0..cleanable.len()
        invariant
            n == before.len(),
            wanted == is_offered(before),
            n <= targets@.len(),
            targets@.take(n as int) == before,
            ({
                let kept = cleanable@.take(k as int).filter(wanted);
                &&& targets@.len() == n + kept.len()
                &&& forall|i: int|
                    0 <= i < kept.len() ==> is_row_for(#[trigger] targets@[n + i], kept[i])
            }),
    {
        let c = &cleanable[k];
        let ghost upto = cleanable@.take(k as int);
        proof {
            assert(cleanable@.take(k + 1) =~= upto.push(*c));
            upto.lemma_filter_push(*c, wanted);
        }
        if !empties(targets, n, &c.path) && c.is_dir {
            let mut name = c.category.clone();
            name.append(" > ");
            name.append(c.label.as_str());
            let t = Target::pending(
                &name,
                &c.path,
                Measure::Tree(c.path.clone()),
                CleanAction::RemoveContents(c.path.clone()),
            );
            let ghost older = targets@;
            targets.push(t);
            proof {
                assert(targets@.take(n as int) =~= older.take(n as int));
                let kept = upto.filter(wanted);
                let next = cleanable@.take(k + 1).filter(wanted);
                assert(next == kept.push(*c));
                assert forall|i: int| 0 <= i < next.len() implies is_row_for(
                    #[trigger] targets@[n + i],
                    next[i],
                ) by {
                    if i < kept.len() {
                        assert(older[n + i] == targets@[n + i]);
                        assert(is_row_for(older[n + i], kept[i]));
                    }
                }
            }
        }
    }
    assert(cleanable@.take(cleanable@.len() as int) =~= cleanable@);
    assert forall|i: int| 0 <= i < n implies targets@[i] == before[i] by {
        assert(targets@.take(n as int)[i] == targets@[i]);
    }
}

/// Whether one of two paths lies at or under the other.
pub open spec fn overlap(a: Seq<char>, b: Seq<char>) -> bool {
    paths::is_under(a, b) || paths::is_under(b, a)
}

/// Whether one of two paths lies at or under the other.
pub fn overlaps(a: &str, b: &str) -> (r: bool)
    ensures
        r == overlap(a@, b@),
{
    paths::starts_with(a, b) || paths::starts_with(b, a)
}

/// A root to measure for one target, in mathematical terms.
pub ghost struct GroupItem {
    pub index: int,
    pub name: Seq<char>,
    pub path: Seq<char>,
}

/// The roots of one walk.
pub open spec fn group_items(v: Seq<(usize, Root)>) -> Seq<GroupItem> {
    Seq::new(
        v.len(),
        |i: int| GroupItem { index: v[i].0 as int, name: v[i].1.name@, path: v[i].1.path@ },
    )
}

/// The roots of every walk.
pub open spec fn all_groups(v: Seq<Vec<(usize, Root)>>) -> Seq<Seq<GroupItem>> {
    Seq::new(v.len(), |i: int| group_items(v[i]@))
}

/// No root of a walk overlaps a path.
pub open spec fn is_clear(group: Seq<GroupItem>, path: Seq<char>) -> bool {
    forall|i: int| 0 <= i < group.len() ==> !overlap((#[trigger] group[i]).path, path)
}

/// The first walk none of whose roots overlaps a path.
pub open spec fn first_clear(groups: Seq<Seq<GroupItem>>, path: Seq<char>) -> Option<int>
    decreases groups.len(),
{
    if groups.len() == 0 {
        None
    } else {
        match first_clear(groups.drop_last(), path) {
            Some(i) => Some(i),
            None => if is_clear(groups.last(), path) {
                Some(groups.len() - 1)
            } else {
                None
            },
        }
    }
}

/// The walks with one more root put into the first it does not overlap in, or
/// into a walk of its own.
pub open spec fn joined_by(groups: Seq<Seq<GroupItem>>, item: GroupItem) -> Seq<Seq<GroupItem>> {
    match first_clear(groups, item.path) {
        Some(i) => groups.update(i, groups[i].push(item)),
        None => groups.push(seq![item]),
    }
}

/// The tree that a target is measured by.
pub open spec fn tree_of(t: Target) -> Option<Seq<char>> {
    match t.measured_by() {
        Measure::Tree(p) => Some(p@),
        _ => None,
    }
}

/// The walks that a list of targets takes.
pub open spec fn groups_for(targets: Seq<Target>) -> Seq<Seq<GroupItem>>
    decreases targets.len(),
{
    if targets.len() == 0 {
        Seq::empty()
    } else {
        let before = groups_for(targets.drop_last());
        match tree_of(targets.last()) {
            Some(path) => joined_by(
                before,
                GroupItem { index: targets.len() - 1, name: targets.last().name@, path },
            ),
            None => before,
        }
    }
}

fn group_is_clear(group: &Vec<(usize, Root)>, path: &str) -> (r: bool)
    ensures
        r == is_clear(group_items(group@), path@),
{
    for i in 0..group.len()
        invariant
            forall|j: int|
                0 <= j < i ==> !overlap((#[trigger] group_items(group@)[j]).path, path@),
    {
        if overlaps(&group[i].1.path, path) {
            assert(overlap(group_items(group@)[i as int].path, path@));
            return false;
        }
    }
    true
}

proof fn lemma_first_clear(groups: Seq<Seq<GroupItem>>, path: Seq<char>)
    ensures
        first_clear(groups, path) matches Some(i) ==> 0 <= i < groups.len() && is_clear(
            groups[i],
            path,
        ),
    decreases groups.len(),
{
    if groups.len() > 0 {
        lemma_first_clear(groups.drop_last(), path);
    }
}

proof fn lemma_first_clear_prefix(groups: Seq<Seq<GroupItem>>, path: Seq<char>, n: int)
    requires
        0 <= n <= groups.len(),
        first_clear(groups.take(n), path) is Some,
    ensures
        first_clear(groups, path) == first_clear(groups.take(n), path),
    decreases groups.len() - n,
{
    if n == groups.len() {
        assert(groups.take(n) =~= groups);
    } else {
        assert(groups.take(n + 1).drop_last() =~= groups.take(n));
        lemma_first_clear_prefix(groups, path, n + 1);
    }
}

fn find_clear(groups: &Vec<Vec<(usize, Root)>>, path: &str) -> (r: Option<usize>)
    ensures
        match r {
            Some(i) => first_clear(all_groups(groups@), path@) == Some(i as int) && i
                < groups@.len(),
            None => first_clear(all_groups(groups@), path@) is None,
        },
{
    let ghost all = all_groups(groups@);
    for i in 0..groups.len()
        invariant
            all == all_groups(groups@),
            first_clear(all.take(i as int), path@) is None,
    {
        assert(all.take(i + 1).drop_last() =~= all.take(i as int));
        if group_is_clear(&groups[i], path) {
            proof {
                lemma_first_clear_prefix(all, path@, i + 1);
            }
            return Some(i);
        }
    }
    assert(all.take(all.len() as int) =~= all);
    None
}

/// The roots of the walks that measure every target with a tree, so grouped that
/// no two roots of one walk overlap. A cleanup row has to state what its own
/// action deletes, so a path and something inside it get separate walks.
pub fn measurement_groups(targets: &Vec<Target>) -> (r: Vec<Vec<(usize, Root)>>)
    ensures
        all_groups(r@) == groups_for(targets@),
{
    let mut groups: Vec<Vec<(usize, Root)>> = Vec::new();
    assert(all_groups(groups@) =~= groups_for(targets@.take(0)));
    for k in 0..targets.len()
        invariant
            all_groups(groups@) == groups_for(targets@.take(k as int)),
    {
        assert(targets@.take(k + 1).drop_last() =~= targets@.take(k as int));
        let t = &targets[k];
        if let Measure::Tree(path) = &t.measure {
            let ghost before = all_groups(groups@);
            let root = Root { name: t.name.clone(), path: path.clone() };
            let ghost item = GroupItem { index: k as int, name: root.name@, path: root.path@ };
            match find_clear(&groups, path) {
                Some(i) => {
                    let mut g = groups.remove(i);
                    let ghost older = group_items(g@);
                    g.push((k, root));
                    assert(group_items(g@) =~= older.push(item));
                    groups.insert(i, g);
                    assert(all_groups(groups@) =~= before.update(i as int, older.push(item)));
                },
                None => {
                    let mut g: Vec<(usize, Root)> = Vec::new();
                    g.push((k, root));
                    assert(group_items(g@) =~= seq![item]);
                    groups.push(g);
                    assert(all_groups(groups@) =~= before.push(seq![item]));
                },
            }
        }
    }
    assert(targets@.take(targets@.len() as int) =~= targets@);
    groups
}

/// No two roots of one walk overlap.
pub open spec fn all_clear(groups: Seq<Seq<GroupItem>>) -> bool {
    forall|g: int, i: int, j: int|
        0 <= g < groups.len() && 0 <= i < j < groups[g].len() ==> !overlap(
            (#[trigger] groups[g][i]).path,
            (#[trigger] groups[g][j]).path,
        )
}

/// No two roots of one walk overlap, so no walk charges bytes that belong to two
/// rows to only one of them.
pub proof fn law_no_walk_measures_overlapping_roots(targets: Seq<Target>)
    ensures
        all_clear(groups_for(targets)),
    decreases targets.len(),
{
    if targets.len() > 0 {
        law_no_walk_measures_overlapping_roots(targets.drop_last());
        let before = groups_for(targets.drop_last());
        if let Some(path) = tree_of(targets.last()) {
            lemma_first_clear(before, path);
            let after = groups_for(targets);
            assert forall|g: int, i: int, j: int|
                0 <= g < after.len() && 0 <= i < j < after[g].len() implies !overlap(
                (#[trigger] after[g][i]).path,
                (#[trigger] after[g][j]).path,
            ) by {
                match first_clear(before, path) {
                    Some(q) => {
                        if g == q && j == before[q].len() {
                            assert(!overlap(before[q][i].path, path));
                        } else {
                            assert(before[g][i] == after[g][i]);
                            assert(before[g][j] == after[g][j]);
                        }
                    },
                    None => {
                        if g < before.len() {
                            assert(before[g][i] == after[g][i]);
                            assert(before[g][j] == after[g][j]);
                        }
                    },
                }
            }
        }
    }
}

/// How often a target is measured in one walk.
pub open spec fn times_in(group: Seq<GroupItem>, index: int) -> nat
    decreases group.len(),
{
    if group.len() == 0 {
        0
    } else {
        times_in(group.drop_last(), index) + (if group.last().index == index {
            1nat
        } else {
            0
        })
    }
}

/// How often a target is measured.
pub open spec fn times_measured(groups: Seq<Seq<GroupItem>>, index: int) -> int {
    sum_of(groups, |g: Seq<GroupItem>| times_in(g, index) as int)
}

proof fn lemma_times_update(groups: Seq<Seq<GroupItem>>, at: int, item: GroupItem, index: int)
    requires
        0 <= at < groups.len(),
    ensures
        times_measured(groups.update(at, groups[at].push(item)), index) == times_measured(
            groups,
            index,
        ) + (if item.index == index {
            1int
        } else {
            0
        }),
    decreases groups.len(),
{
    let f = |g: Seq<GroupItem>| times_in(g, index) as int;
    let next = groups.update(at, groups[at].push(item));
    assert(groups[at].push(item).drop_last() =~= groups[at]);
    if at == groups.len() - 1 {
        assert(next.drop_last() =~= groups.drop_last());
    } else {
        lemma_times_update(groups.drop_last(), at, item, index);
        assert(next.drop_last() =~= groups.drop_last().update(at, groups[at].push(item)));
    }
}

/// Every target with a tree is measured exactly once, and no other at all.
pub proof fn law_every_tree_is_measured_once(targets: Seq<Target>, index: int)
    requires
        0 <= index,
    ensures
        times_measured(groups_for(targets), index) == (if index < targets.len() && tree_of(
            targets[index],
        ) is Some {
            1int
        } else {
            0
        }),
    decreases targets.len(),
{
    if targets.len() > 0 {
        let rest = targets.drop_last();
        law_every_tree_is_measured_once(rest, index);
        let before = groups_for(rest);
        if let Some(path) = tree_of(targets.last()) {
            let item = GroupItem { index: targets.len() - 1, name: targets.last().name@, path };
            lemma_first_clear(before, path);
            match first_clear(before, path) {
                Some(i) => {
                    lemma_times_update(before, i, item, index);
                },
                None => {
                    let f = |g: Seq<GroupItem>| times_in(g, index) as int;
                    order::lemma_sum_push(before, seq![item], f);
                    assert(seq![item].drop_last() =~= Seq::<GroupItem>::empty());
                    assert(times_in(seq![item].drop_last(), index) == 0);
                },
            }
        }
    }
}

/// What the file system says of the path that an action names.
#[derive(Debug)]
pub struct CleanFacts {
    pub exists: bool,
    /// The size of everything at and below the path on disk.
    pub size: u64,
    /// The length of the file at the path.
    pub file_len: u64,
    /// The entries of the directory at the path, or why it would not open.
    pub listing: Result<Vec<String>, String>,
    /// The files of the directory at the path with their lengths, where they
    /// would say.
    pub files: Vec<(String, Option<u64>)>,
    /// The children that are idle, with what each would free.
    pub idle: Vec<(String, u64)>,
}

/// How running a command went.
#[derive(Debug)]
pub enum CommandRun {
    /// It could not be started.
    NotStarted(String),
    /// It ran and failed, with this on its error output.
    Failed(String),
    Succeeded,
}

/// The extension of the file name a path ends in.
pub open spec fn extension_of(path: Seq<char>) -> Option<Seq<char>> {
    match paths::name_of(path) {
        Some(n) => paths::stem_and_extension(n).1,
        None => None,
    }
}

/// A file that goes by its extension, of a length that is known.
pub open spec fn goes_by(ext: Seq<char>) -> spec_fn((String, Option<u64>)) -> bool {
    |f: (String, Option<u64>)| extension_of(f.0@) == Some(ext) && f.1 is Some
}

/// The length of a file.
pub open spec fn file_bytes() -> spec_fn((String, Option<u64>)) -> int {
    |f: (String, Option<u64>)|
        match f.1 {
            Some(n) => n as int,
            None => 0,
        }
}

/// What an idle child frees.
pub open spec fn idle_freed() -> spec_fn((String, u64)) -> int {
    |c: (String, u64)| c.1 as int
}

/// The paths of a list of files.
pub open spec fn file_paths(v: Seq<(String, Option<u64>)>) -> Seq<Seq<char>> {
    Seq::new(v.len(), |i: int| v[i].0@)
}

/// The paths of a list of children.
pub open spec fn idle_paths(v: Seq<(String, u64)>) -> Seq<Seq<char>> {
    Seq::new(v.len(), |i: int| v[i].0@)
}

/// The paths that an action removes, in order, or why it cannot be told.
pub open spec fn removals(
    action: CleanAction,
    facts: CleanFacts,
) -> Result<Seq<Seq<char>>, Seq<char>> {
    match action {
        CleanAction::RemoveContents(_) => if facts.exists {
            match facts.listing {
                Ok(entries) => Ok(texts(entries@)),
                Err(e) => Err(e@),
            }
        } else {
            Ok(Seq::empty())
        },
        CleanAction::RemoveDir(p) => Ok(
            if facts.exists {
                seq![p@]
            } else {
                Seq::empty()
            },
        ),
        CleanAction::RemoveFile(p) => Ok(
            if facts.exists {
                seq![p@]
            } else {
                Seq::empty()
            },
        ),
        CleanAction::RunCommand(_, _) => Ok(Seq::empty()),
        CleanAction::RemoveByExtension(_, ext) => Ok(
            file_paths(facts.files@.filter(goes_by(ext@))),
        ),
        CleanAction::RemoveIdleChildren { .. } => Ok(idle_paths(facts.idle@)),
    }
}

/// The bytes that an action frees.
pub open spec fn freed(action: CleanAction, size: Size, facts: CleanFacts) -> int {
    match action {
        CleanAction::RemoveContents(_) => facts.size as int,
        CleanAction::RemoveDir(_) => facts.size as int,
        CleanAction::RemoveFile(_) => facts.file_len as int,
        CleanAction::RunCommand(_, _) => size.floor() as int,
        CleanAction::RemoveByExtension(_, ext) => sum_of(
            facts.files@.filter(goes_by(ext@)),
            file_bytes(),
        ),
        CleanAction::RemoveIdleChildren { .. } => sum_of(facts.idle@, idle_freed()),
    }
}

/// The paths of a list, or the reason there is none.
pub open spec fn paths_or(r: Result<Vec<String>, String>) -> Result<Seq<Seq<char>>, Seq<char>> {
    match r {
        Ok(v) => Ok(texts(v@)),
        Err(e) => Err(e@),
    }
}

/// The first reason in a list.
pub open spec fn first_failure(failures: Seq<Option<String>>) -> Option<Seq<char>>
    decreases failures.len(),
{
    if failures.len() == 0 {
        None
    } else {
        match first_failure(failures.drop_last()) {
            Some(e) => Some(e),
            None => text::text_opt(failures.last()),
        }
    }
}

/// How cleaning a target ends.
pub open spec fn outcome(
    action: CleanAction,
    size: Size,
    facts: CleanFacts,
    failures: Seq<Option<String>>,
    run: CommandRun,
) -> Result<int, Seq<char>> {
    match removals(action, facts) {
        Err(e) => Err(e),
        Ok(_) => match first_failure(failures) {
            Some(e) => Err(e),
            None => match (action, run) {
                (CleanAction::RunCommand(cmd, _), CommandRun::NotStarted(e)) => Err(
                    cmd@ + ": "@ + e@,
                ),
                (CleanAction::RunCommand(cmd, _), CommandRun::Failed(stderr)) => Err(
                    cmd@ + " failed: "@ + stderr@,
                ),
                _ => Ok(freed(action, size, facts)),
            },
        },
    }
}

/// The reason that removing a path failed.
pub fn removal_failed(path: &str, stderr: &str) -> (r: String)
    ensures
        r@ == "rm -rf "@ + path@ + ": "@ + text::trimmed(stderr@),
{
    let mut out: String = "rm -rf ".to_owned();
    out.append(path);
    out.append(": ");
    let why = text::trim(stderr);
    out.append(why.as_str());
    out
}

/// The extension of the file name a path ends in.
fn path_extension(path: &str) -> (r: Option<String>)
    ensures
        text::text_opt(r) == extension_of(path@),
{
    match paths::file_name(path) {
        Some(n) => paths::extension(&n),
        None => None,
    }
}

fn has_extension(path: &str, ext: &str) -> (r: bool)
    ensures
        r == (extension_of(path@) == Some(ext@)),
{
    match path_extension(path) {
        Some(e) => text::same(&e, ext),
        None => false,
    }
}

/// The bytes of the files with an extension.
pub fn files_by_extension_size(files: &Vec<(String, Option<u64>)>, ext: &str) -> (r: u64)
    requires
        sum_of(files@.filter(goes_by(ext@)), file_bytes()) <= u64::MAX,
    ensures
        r == sum_of(files@.filter(goes_by(ext@)), file_bytes()),
{
    let ghost keep = goes_by(ext@);
    let mut s: u64 = 0;
    proof {
        reveal(Seq::filter);
    }
    for i in 0..files.len()
        invariant
            keep == goes_by(ext@),
            sum_of(files@.filter(keep), file_bytes()) <= u64::MAX,
            s == sum_of(files@.take(i as int).filter(keep), file_bytes()),
    {
        let f = &files[i];
        proof {
            let upto = files@.take(i as int);
            assert(files@.take(i + 1) =~= upto.push(*f));
            upto.lemma_filter_push(*f, keep);
            order::lemma_sum_push(upto.filter(keep), *f, file_bytes());
            lemma_files_upto(files@, ext@, i + 1);
        }
        if has_extension(&f.0, ext) {
            if let Some(n) = f.1 {
                s = s + n;
            }
        }
    }
    assert(files@.take(files@.len() as int) =~= files@);
    s
}

proof fn lemma_files_upto(files: Seq<(String, Option<u64>)>, ext: Seq<char>, n: int)
    requires
        0 <= n <= files.len(),
    ensures
        sum_of(files.take(n).filter(goes_by(ext)), file_bytes()) <= sum_of(
            files.filter(goes_by(ext)),
            file_bytes(),
        ),
    decreases files.len() - n,
{
    if n == files.len() {
        assert(files.take(n) =~= files);
    } else {
        lemma_files_upto(files, ext, n + 1);
        assert(files.take(n + 1) =~= files.take(n).push(files[n]));
        files.take(n).lemma_filter_push(files[n], goes_by(ext));
        order::lemma_sum_push(files.take(n).filter(goes_by(ext)), files[n], file_bytes());
    }
}

fn sum_idle(v: &Vec<(String, u64)>) -> (r: u64)
    requires
        sum_of(v@, idle_freed()) <= u64::MAX,
    ensures
        r == sum_of(v@, idle_freed()),
{
    let mut s: u64 = 0;
    for i in 0..v.len()
        invariant
            sum_of(v@, idle_freed()) <= u64::MAX,
            s == sum_of(v@.take(i as int), idle_freed()),
    {
        proof {
            assert(v@.take(i + 1).drop_last() =~= v@.take(i as int));
            order::lemma_sum_prefix(v@, idle_freed(), i + 1);
        }
        s = s + v[i].1;
    }
    assert(v@.take(v@.len() as int) =~= v@);
    s
}

impl Target {
    /// The paths to remove, in order, or why they cannot be told.
    pub fn to_remove(&self, facts: &CleanFacts) -> (r: Result<Vec<String>, String>)
        ensures
            paths_or(r) == removals(self.does(), *facts),
    {
        broadcast use text::lemma_texts_push;

        let mut out: Vec<String> = Vec::new();
        assert(texts(out@) =~= Seq::<Seq<char>>::empty());
        match &self.action {
            CleanAction::RemoveContents(_) => {
                if facts.exists {
                    match &facts.listing {
                        Ok(entries) => {
                            for i in 0..entries.len()
                                invariant
                                    texts(out@) == texts(entries@).take(i as int),
                            {
                                broadcast use text::lemma_texts_push;

                                assert(texts(entries@).take(i + 1) =~= texts(entries@).take(
                                    i as int,
                                ).push(entries@[i as int]@));
                                out.push(entries[i].clone());
                            }
                            assert(texts(entries@).take(entries@.len() as int) =~= texts(entries@));
                        },
                        Err(e) => {
                            return Err(e.clone());
                        },
                    }
                }
            },
            CleanAction::RemoveDir(p) => {
                if facts.exists {
                    out.push(p.clone());
                    assert(texts(out@) =~= seq![p@]);
                }
            },
            CleanAction::RemoveFile(p) => {
                if facts.exists {
                    out.push(p.clone());
                    assert(texts(out@) =~= seq![p@]);
                }
            },
            CleanAction::RunCommand(_, _) => {},
            CleanAction::RemoveByExtension(_, ext) => {
                let ghost keep = goes_by(ext@);
                proof {
                    reveal(Seq::filter);
                    assert(texts(out@) =~= file_paths(facts.files@.take(0).filter(keep)));
                }
                for i in 0..facts.files.len()
                    invariant
                        keep == goes_by(ext@),
                        texts(out@) == file_paths(facts.files@.take(i as int).filter(keep)),
                {
                    let f = &facts.files[i];
                    let ghost upto = facts.files@.take(i as int);
                    let ghost before = texts(out@);
                    proof {
                        assert(facts.files@.take(i + 1) =~= upto.push(*f));
                        upto.lemma_filter_push(*f, keep);
                    }
                    if has_extension(&f.0, ext) && f.1.is_some() {
                        out.push(f.0.clone());
                        assert(texts(out@) =~= before.push(f.0@));
                        assert(file_paths(upto.filter(keep).push(*f)) =~= before.push(f.0@));
                    }
                }
                assert(facts.files@.take(facts.files@.len() as int) =~= facts.files@);
            },
            CleanAction::RemoveIdleChildren { .. } => {
                for i in 0..facts.idle.len()
                    invariant
                        texts(out@) == idle_paths(facts.idle@).take(i as int),
                {
                    broadcast use text::lemma_texts_push;

                    assert(idle_paths(facts.idle@).take(i + 1) =~= idle_paths(facts.idle@).take(
                        i as int,
                    ).push(facts.idle@[i as int].0@));
                    out.push(facts.idle[i].0.clone());
                }
                assert(idle_paths(facts.idle@).take(facts.idle@.len() as int) =~= idle_paths(
                    facts.idle@,
                ));
            },
        }
        Ok(out)
    }

    /// How cleaning ends, given why each removal failed, in order and up to the
    /// first that did, and how the command went where there is one.
    pub fn clean(
        &self,
        facts: &CleanFacts,
        failures: &Vec<Option<String>>,
        run: &CommandRun,
    ) -> (r: Result<u64, String>)
        requires
            freed(self.does(), self.sized(), *facts) <= u64::MAX,
        ensures
            match r {
                Ok(n) => outcome(self.does(), self.sized(), *facts, failures@, *run) == Ok::<
                    int,
                    Seq<char>,
                >(n as int),
                Err(e) => outcome(self.does(), self.sized(), *facts, failures@, *run) == Err::<
                    int,
                    Seq<char>,
                >(e@),
            },
    {
        match self.to_remove(facts) {
            Err(e) => {
                return Err(e);
            },
            Ok(_) => {},
        }
        for i in 0..failures.len()
            invariant
                first_failure(failures@.take(i as int)) is None,
                removals(self.does(), *facts) is Ok,
        {
            assert(failures@.take(i + 1).drop_last() =~= failures@.take(i as int));
            if let Some(e) = &failures[i] {
                proof {
                    lemma_first_failure_prefix(failures@, i + 1);
                }
                return Err(e.clone());
            }
        }
        assert(failures@.take(failures@.len() as int) =~= failures@);
        match &self.action {
            CleanAction::RemoveContents(_) => Ok(facts.size),
            CleanAction::RemoveDir(_) => Ok(facts.size),
            CleanAction::RemoveFile(_) => Ok(facts.file_len),
            CleanAction::RunCommand(cmd, _) => match run {
                CommandRun::NotStarted(e) => {
                    let mut out = cmd.clone();
                    out.append(": ");
                    out.append(e.as_str());
                    Err(out)
                },
                CommandRun::Failed(stderr) => {
                    let mut out = cmd.clone();
                    out.append(" failed: ");
                    out.append(stderr.as_str());
                    Err(out)
                },
                CommandRun::Succeeded => Ok(self.size.bytes()),
            },
            CleanAction::RemoveByExtension(_, ext) => Ok(
                files_by_extension_size(&facts.files, ext),
            ),
            CleanAction::RemoveIdleChildren { .. } => Ok(sum_idle(&facts.idle)),
        }
    }
}

proof fn lemma_first_failure_prefix(failures: Seq<Option<String>>, n: int)
    requires
        0 <= n <= failures.len(),
        first_failure(failures.take(n)) is Some,
    ensures
        first_failure(failures) == first_failure(failures.take(n)),
    decreases failures.len() - n,
{
    if n == failures.len() {
        assert(failures.take(n) =~= failures);
    } else {
        assert(failures.take(n + 1).drop_last() =~= failures.take(n));
        lemma_first_failure_prefix(failures, n + 1);
    }
}

/// A number is a total only where the walk finished and nothing refused.
pub proof fn law_a_floor_is_never_a_total(s: Size)
    ensures
        s is Counting ==> !s.is_complete(),
        s is Unknown ==> !s.is_complete(),
        s matches Size::Measured { denials, .. } && denials.sum() > 0 ==> !s.is_complete(),
{
}

/// How a target gets measured, in mathematical terms.
#[verifier::ext_equal]
pub ghost enum MeasureRow {
    Tree(Seq<char>),
    IdleChildren { dir: Seq<char>, idle_days: int },
    Nothing,
}

/// What cleaning a target does, in mathematical terms.
#[verifier::ext_equal]
pub ghost enum ActionRow {
    RemoveContents(Seq<char>),
    RemoveDir(Seq<char>),
    RemoveFile(Seq<char>),
    RunCommand(Seq<char>, Seq<Seq<char>>),
    RemoveByExtension(Seq<char>, Seq<char>),
    RemoveIdleChildren { dir: Seq<char>, idle_days: int },
}

/// A target, in mathematical terms.
#[verifier::ext_equal]
pub ghost struct TargetRow {
    pub name: Seq<char>,
    pub description: Seq<char>,
    pub size: Size,
    pub measure: MeasureRow,
    pub action: ActionRow,
}

impl Measure {
    /// How a target gets measured.
    pub open spec fn view(&self) -> MeasureRow {
        match *self {
            Measure::Tree(p) => MeasureRow::Tree(p@),
            Measure::IdleChildren { dir, idle_days } => MeasureRow::IdleChildren {
                dir: dir@,
                idle_days: idle_days as int,
            },
            Measure::Nothing => MeasureRow::Nothing,
        }
    }
}

impl CleanAction {
    /// What cleaning a target does.
    pub open spec fn view(&self) -> ActionRow {
        match *self {
            CleanAction::RemoveContents(p) => ActionRow::RemoveContents(p@),
            CleanAction::RemoveDir(p) => ActionRow::RemoveDir(p@),
            CleanAction::RemoveFile(p) => ActionRow::RemoveFile(p@),
            CleanAction::RunCommand(cmd, args) => ActionRow::RunCommand(cmd@, texts(args@)),
            CleanAction::RemoveByExtension(dir, ext) => ActionRow::RemoveByExtension(dir@, ext@),
            CleanAction::RemoveIdleChildren { dir, idle_days } => ActionRow::RemoveIdleChildren {
                dir: dir@,
                idle_days: idle_days as int,
            },
        }
    }
}

impl Target {
    /// The target.
    pub open spec fn view(&self) -> TargetRow {
        TargetRow {
            name: self.name@,
            description: self.description@,
            size: self.size,
            measure: self.measure@,
            action: self.action@,
        }
    }
}

/// The targets of a list.
pub open spec fn target_rows(v: Seq<Target>) -> Seq<TargetRow> {
    Seq::new(v.len(), |i: int| v[i]@)
}

/// The components of a child's path.
pub open spec fn child_place() -> spec_fn(Candidate) -> Seq<Seq<char>> {
    |c: Candidate| paths::components(c.path@)
}

/// The components of a listed path.
pub open spec fn row_place() -> spec_fn((Seq<char>, int)) -> Seq<Seq<char>> {
    |r: (Seq<char>, int)| paths::components(r.0)
}

/// Listed paths in rising order.
pub open spec fn row_order() -> spec_fn((Seq<char>, int), (Seq<char>, int)) -> bool {
    |a: (Seq<char>, int), b: (Seq<char>, int)| paths::path_le(a.0, b.0)
}

/// A pair is the path of an idle child with what it would free.
pub open spec fn is_idle_pair(
    children: Seq<Candidate>,
    idle_days: int,
    cwds: Seq<(i32, Seq<char>, Seq<char>)>,
    argv: Seq<(i32, Seq<char>, Seq<char>)>,
    now: Moment,
    row: (Seq<char>, int),
) -> bool {
    exists|k: int|
        0 <= k < children.len() && (#[trigger] children[k]).path@ == row.0 && idle_bytes(
            children[k],
            idle_days,
            cwds,
            argv,
            now,
        ) == Some(row.1)
}

proof fn lemma_idle_rows(
    children: Seq<Candidate>,
    idle_days: int,
    cwds: Seq<(i32, Seq<char>, Seq<char>)>,
    argv: Seq<(i32, Seq<char>, Seq<char>)>,
    now: Moment,
)
    ensures
        ({
            let rows = idle_rows(children, idle_days, cwds, argv, now);
            &&& forall|row: (Seq<char>, int)| #[trigger]
                rows.contains(row) <==> is_idle_pair(children, idle_days, cwds, argv, now, row)
            &&& (forall|i: int, j: int|
                0 <= i < j < children.len() ==> paths::path_le(
                    (#[trigger] children[i]).path@,
                    (#[trigger] children[j]).path@,
                )) ==> order::is_ordered(rows, row_order())
            &&& order::apart(children, child_place()) ==> order::apart(rows, row_place())
        }),
    decreases children.len(),
{
    let rows = idle_rows(children, idle_days, cwds, argv, now);
    if children.len() > 0 {
        let t = children.drop_last();
        let n = children.len() - 1;
        lemma_idle_rows(t, idle_days, cwds, argv, now);
        let before = idle_rows(t, idle_days, cwds, argv, now);
        assert forall|row: (Seq<char>, int)| is_idle_pair(t, idle_days, cwds, argv, now, row)
            implies is_idle_pair(children, idle_days, cwds, argv, now, row) by {
            let k = choose|k: int|
                0 <= k < t.len() && (#[trigger] t[k]).path@ == row.0 && idle_bytes(
                    t[k],
                    idle_days,
                    cwds,
                    argv,
                    now,
                ) == Some(row.1);
            assert(children[k] == t[k]);
        }
        assert forall|row: (Seq<char>, int)| #[trigger]
            rows.contains(row) <==> is_idle_pair(children, idle_days, cwds, argv, now, row) by {
            if rows.contains(row) {
                let i = choose|i: int| 0 <= i < rows.len() && rows[i] == row;
                if i < before.len() {
                    assert(before[i] == row);
                    assert(before.contains(row));
                } else {
                    assert(children[n].path@ == row.0);
                }
            }
            if is_idle_pair(children, idle_days, cwds, argv, now, row) {
                let k = choose|k: int|
                    0 <= k < children.len() && (#[trigger] children[k]).path@ == row.0
                        && idle_bytes(children[k], idle_days, cwds, argv, now) == Some(row.1);
                if k < n {
                    assert(t[k] == children[k]);
                    assert(before.contains(row));
                    let i = choose|i: int| 0 <= i < before.len() && before[i] == row;
                    assert(rows[i] == row);
                } else {
                    assert(rows[before.len() as int] == row);
                }
            }
        }
        assert forall|i: int| 0 <= i < before.len() implies exists|k: int|
            0 <= k < n && (#[trigger] children[k]).path@ == (#[trigger] before[i]).0 by {
            assert(before.contains(before[i]));
            let k = choose|k: int|
                0 <= k < t.len() && (#[trigger] t[k]).path@ == before[i].0 && idle_bytes(
                    t[k],
                    idle_days,
                    cwds,
                    argv,
                    now,
                ) == Some(before[i].1);
            assert(children[k] == t[k]);
        }
        if forall|i: int, j: int|
            0 <= i < j < children.len() ==> paths::path_le(
                (#[trigger] children[i]).path@,
                (#[trigger] children[j]).path@,
            ) {
            assert forall|i: int, j: int| 0 <= i < j < t.len() implies paths::path_le(
                (#[trigger] t[i]).path@,
                (#[trigger] t[j]).path@,
            ) by {
                assert(paths::path_le(children[i].path@, children[j].path@));
            }
            assert forall|i: int, j: int| 0 <= i < j < rows.len() implies row_order()(
                #[trigger] rows[i],
                #[trigger] rows[j],
            ) by {
                if j < before.len() {
                    assert(row_order()(before[i], before[j]));
                } else {
                    assert(rows[i] == before[i]);
                    let k = choose|k: int|
                        0 <= k < n && (#[trigger] children[k]).path@ == before[i].0;
                    assert(paths::path_le(children[k].path@, children[n].path@));
                }
            }
        }
        if order::apart(children, child_place()) {
            assert forall|i: int, j: int| 0 <= i < j < t.len() implies child_place()(
                #[trigger] t[i],
            ) != child_place()(#[trigger] t[j]) by {
                assert(child_place()(children[i]) != child_place()(children[j]));
            }
            assert forall|i: int, j: int| 0 <= i < j < rows.len() implies row_place()(
                #[trigger] rows[i],
            ) != row_place()(#[trigger] rows[j]) by {
                if j < before.len() {
                    assert(row_place()(before[i]) != row_place()(before[j]));
                } else {
                    assert(rows[i] == before[i]);
                    let k = choose|k: int|
                        0 <= k < n && (#[trigger] children[k]).path@ == before[i].0;
                    assert(child_place()(children[k]) != child_place()(children[n]));
                }
            }
        }
    }
}

/// One child measured alone agrees with the whole set: a path is listed with its bytes if
/// and only if its child is idle with that many. The paths rise, and none is listed twice
/// where no two children are at one path.
pub proof fn law_a_child_is_listed_if_and_only_if_idle(
    children: Seq<Candidate>,
    idle_days: int,
    cwds: Seq<(i32, Seq<char>, Seq<char>)>,
    argv: Seq<(i32, Seq<char>, Seq<char>)>,
    now: Moment,
)
    ensures
        ({
            let solid = children.filter(|c: Candidate| !c.is_symlink);
            let rows = idle_rows(order::sorted(solid), idle_days, cwds, argv, now);
            &&& forall|row: (Seq<char>, int)| #[trigger]
                rows.contains(row) <==> is_idle_pair(children, idle_days, cwds, argv, now, row)
            &&& order::is_ordered(rows, row_order())
            &&& order::apart(children, child_place()) ==> order::apart(rows, row_place())
        }),
{
    let keep = |c: Candidate| !c.is_symlink;
    let solid = children.filter(keep);
    let listed = order::sorted(solid);
    let rows = idle_rows(listed, idle_days, cwds, argv, now);
    lemma_idle_rows(listed, idle_days, cwds, argv, now);
    order::lemma_sorted_multiset(solid);
    order::lemma_sorted_ordered(solid);
    assert forall|row: (Seq<char>, int)| #[trigger]
        rows.contains(row) <==> is_idle_pair(children, idle_days, cwds, argv, now, row) by {
        if rows.contains(row) {
            let k = choose|k: int|
                0 <= k < listed.len() && (#[trigger] listed[k]).path@ == row.0 && idle_bytes(
                    listed[k],
                    idle_days,
                    cwds,
                    argv,
                    now,
                ) == Some(row.1);
            lemma_same_members(listed, solid, listed[k]);
            children.lemma_filter_contains_rev(keep, listed[k]);
            let q = choose|q: int| 0 <= q < children.len() && children[q] == listed[k];
            assert(children[q].path@ == row.0);
        }
        if is_idle_pair(children, idle_days, cwds, argv, now, row) {
            let k = choose|k: int|
                0 <= k < children.len() && (#[trigger] children[k]).path@ == row.0 && idle_bytes(
                    children[k],
                    idle_days,
                    cwds,
                    argv,
                    now,
                ) == Some(row.1);
            children.lemma_filter_contains(keep, k);
            lemma_same_members(solid, listed, children[k]);
            let q = choose|q: int| 0 <= q < listed.len() && listed[q] == children[k];
            assert(listed[q].path@ == row.0);
            assert(is_idle_pair(listed, idle_days, cwds, argv, now, row));
        }
    }
    assert forall|i: int, j: int| 0 <= i < j < listed.len() implies paths::path_le(
        (#[trigger] listed[i]).path@,
        (#[trigger] listed[j]).path@,
    ) by {
        assert(listed[i].le(&listed[j]));
    }
    if order::apart(children, child_place()) {
        order::lemma_filtered_apart(children, keep, child_place());
        order::lemma_shuffled_apart(solid, listed, child_place());
    }
}

/// The newest change of a walk is that of an entry that answered, and no entry that answered
/// has changed since.
pub proof fn law_no_entry_is_newer_than_the_newest(entries: Seq<WalkEntry>)
    ensures
        match summary(entries).newest {
            Some(t) => {
                &&& exists|i: int|
                    0 <= i < entries.len() && (#[trigger] entries[i]).meta is Some
                        && entries[i].modified == Some(t)
                &&& forall|i: int|
                    0 <= i < entries.len() && (#[trigger] entries[i]).meta is Some
                        && entries[i].modified is Some ==> entries[i].modified->0.nanos <= t.nanos
            },
            None => forall|i: int|
                0 <= i < entries.len() && (#[trigger] entries[i]).meta is Some
                    ==> entries[i].modified is None,
        },
    decreases entries.len(),
{
    if entries.len() > 0 {
        let rest = entries.drop_last();
        let n = entries.len() - 1;
        law_no_entry_is_newer_than_the_newest(rest);
        assert forall|i: int| 0 <= i < n implies #[trigger] entries[i] == rest[i] by {}
        if let Some(t) = summary(rest).newest {
            let i = choose|i: int|
                0 <= i < rest.len() && (#[trigger] rest[i]).meta is Some && rest[i].modified == Some(
                    t,
                );
            assert(entries[i].modified == Some(t));
        }
        if entries[n].meta is Some && entries[n].modified is Some {
            assert(entries[n].modified == Some(entries[n].modified->0));
        }
        if let Some(t) = summary(entries).newest {
            assert forall|i: int|
                0 <= i < entries.len() && (#[trigger] entries[i]).meta is Some
                    && entries[i].modified is Some implies entries[i].modified->0.nanos
                <= t.nanos by {
                if i < n {
                    assert(rest[i].modified->0.nanos <= summary(rest).newest->0.nanos);
                }
            }
        } else {
            assert forall|i: int| 0 <= i < entries.len() && (#[trigger] entries[i]).meta is Some
                implies entries[i].modified is None by {
                if i < n {
                    assert(rest[i].modified is None);
                }
            }
        }
    }
}

/// So many whole days lie between two moments exactly where so many times 86400 seconds do.
pub proof fn lemma_whole_days(last: Moment, now: Moment, days: int)
    requires
        days >= 1,
    ensures
        (days_between(last, now) >= days) == (now.nanos - last.nanos >= days
            * 86_400_000_000_000),
{
    let gap = now.gap(last) as int;
    vstd::arithmetic::div_mod::lemma_div_denominator(gap, 1_000_000_000, 86_400);
    assert(gap / 1_000_000_000 / 86_400 == gap / 86_400_000_000_000);
    vstd::arithmetic::div_mod::lemma_fundamental_div_mod(gap, 86_400_000_000_000);
    vstd::arithmetic::div_mod::lemma_mod_bound(gap, 86_400_000_000_000);
}

/// A child can go exactly where it is no link, nothing is using it, something in it says when
/// it changed, and everything in it that does has been left alone for that many days.
pub proof fn law_a_child_goes_only_when_all_of_it_is_old(
    c: Candidate,
    idle_days: int,
    cwds: Seq<(i32, Seq<char>, Seq<char>)>,
    argv: Seq<(i32, Seq<char>, Seq<char>)>,
    now: Moment,
)
    requires
        idle_days >= 1,
    ensures
        idle_bytes(c, idle_days, cwds, argv, now) is Some <==> {
            &&& !c.is_symlink
            &&& in_use(cwds, argv, c.path@).len() == 0
            &&& exists|i: int|
                0 <= i < c.entries@.len() && (#[trigger] c.entries@[i]).meta is Some
                    && c.entries@[i].modified is Some
            &&& forall|i: int|
                0 <= i < c.entries@.len() && (#[trigger] c.entries@[i]).meta is Some
                    && c.entries@[i].modified is Some ==> now.nanos
                    - c.entries@[i].modified->0.nanos >= idle_days * 86_400_000_000_000
        },
{
    let all = c.entries@;
    law_no_entry_is_newer_than_the_newest(all);
    if let Some(t) = summary(all).newest {
        lemma_whole_days(t, now, idle_days);
        let k = choose|i: int|
            0 <= i < all.len() && (#[trigger] all[i]).meta is Some && all[i].modified == Some(t);
        assert(all[k].modified->0 == t);
        assert forall|i: int|
            0 <= i < all.len() && (#[trigger] all[i]).meta is Some && all[i].modified is Some
                && now.nanos - t.nanos >= idle_days * 86_400_000_000_000 implies now.nanos
            - all[i].modified->0.nanos >= idle_days * 86_400_000_000_000 by {
            assert(all[i].modified->0.nanos <= t.nanos);
        }
    }
}

/// The entries with several names that a walk has charged are those that answered.
proof fn lemma_summary_seen(entries: Seq<WalkEntry>, id: (u64, u64))
    ensures
        summary(entries).seen.contains(id) <==> exists|j: int|
            0 <= j < entries.len() && (#[trigger] entries[j]).meta is Some
                && entries[j].meta->0.nlink > 1 && (
            entries[j].meta->0.dev,
            entries[j].meta->0.ino,
            ) == id,
    decreases entries.len(),
{
    if entries.len() > 0 {
        let rest = entries.drop_last();
        let n = entries.len() - 1;
        lemma_summary_seen(rest, id);
        if summary(rest).seen.contains(id) {
            let j = choose|j: int|
                0 <= j < rest.len() && (#[trigger] rest[j]).meta is Some && rest[j].meta->0.nlink
                    > 1 && (rest[j].meta->0.dev, rest[j].meta->0.ino) == id;
            assert(entries[j] == rest[j]);
        }
        if exists|j: int|
            0 <= j < entries.len() && (#[trigger] entries[j]).meta is Some
                && entries[j].meta->0.nlink > 1 && (
            entries[j].meta->0.dev,
            entries[j].meta->0.ino,
            ) == id {
            let j = choose|j: int|
                0 <= j < entries.len() && (#[trigger] entries[j]).meta is Some
                    && entries[j].meta->0.nlink > 1 && (
                entries[j].meta->0.dev,
                entries[j].meta->0.ino,
                ) == id;
            if j < n {
                assert(rest[j] == entries[j]);
            }
        }
    }
}

/// What a child would free is what is allocated to everything in it, a file with several
/// names counted under the first of them.
pub proof fn law_a_child_frees_each_of_its_files_once(entries: Seq<WalkEntry>, freed: Seq<int>)
    requires
        freed.len() == entries.len(),
        forall|i: int|
            0 <= i < entries.len() ==> #[trigger] freed[i] == (match entries[i].meta {
                None => 0,
                Some(m) => if m.nlink > 1 && exists|j: int|
                    0 <= j < i && (#[trigger] entries[j]).meta is Some
                        && entries[j].meta->0.nlink > 1 && entries[j].meta->0.dev == m.dev
                        && entries[j].meta->0.ino == m.ino {
                    0
                } else {
                    m.blocks * 512
                },
            }),
    ensures
        summary(entries).bytes == crate::disk::sweep::total_of(freed),
    decreases entries.len(),
{
    if entries.len() > 0 {
        let rest = entries.drop_last();
        let n = entries.len() - 1;
        let fewer = freed.drop_last();
        assert forall|i: int| 0 <= i < rest.len() implies #[trigger] fewer[i] == (match rest[i].meta {
            None => 0,
            Some(m) => if m.nlink > 1 && exists|j: int|
                0 <= j < i && (#[trigger] rest[j]).meta is Some && rest[j].meta->0.nlink > 1
                    && rest[j].meta->0.dev == m.dev && rest[j].meta->0.ino == m.ino {
                0
            } else {
                m.blocks * 512
            },
        }) by {
            assert(freed[i] == fewer[i]);
            assert forall|j: int| 0 <= j < i implies #[trigger] entries[j] == rest[j] by {}
            assert forall|j: int| 0 <= j < i implies #[trigger] rest[j] == entries[j] by {}
        }
        law_a_child_frees_each_of_its_files_once(rest, fewer);
        assert(freed[n] == freed.last());
        if let Some(m) = entries[n].meta {
            lemma_summary_seen(rest, (m.dev, m.ino));
            assert forall|j: int| 0 <= j < n implies #[trigger] entries[j] == rest[j] by {}
            assert forall|j: int| 0 <= j < n implies #[trigger] rest[j] == entries[j] by {}
        }
    }
}

/// The first reason in a list is the earliest there is, and there is none exactly where no entry
/// has one.
pub proof fn law_the_first_failure_is_the_earliest(failures: Seq<Option<String>>)
    ensures
        match first_failure(failures) {
            Some(e) => exists|k: int|
                {
                    &&& 0 <= k < failures.len()
                    &&& (#[trigger] failures[k]) is Some
                    &&& failures[k]->0@ == e
                    &&& forall|i: int| 0 <= i < k ==> (#[trigger] failures[i]) is None
                },
            None => forall|i: int| 0 <= i < failures.len() ==> (#[trigger] failures[i]) is None,
        },
    decreases failures.len(),
{
    if failures.len() > 0 {
        let before = failures.drop_last();
        law_the_first_failure_is_the_earliest(before);
        assert forall|i: int| 0 <= i < before.len() implies before[i] == #[trigger] failures[i] by {}
        match first_failure(before) {
            Some(e) => {
                let k = choose|k: int|
                    {
                        &&& 0 <= k < before.len()
                        &&& (#[trigger] before[k]) is Some
                        &&& before[k]->0@ == e
                        &&& forall|i: int| 0 <= i < k ==> (#[trigger] before[i]) is None
                    };
                assert(failures[k] is Some);
                assert forall|i: int| 0 <= i < k implies (#[trigger] failures[i]) is None by {
                    assert(before[i] is None);
                }
            },
            None => {
                assert forall|i: int| 0 <= i < before.len() implies (
                #[trigger] failures[i]) is None by {
                    assert(before[i] is None);
                }
                let last = failures.len() - 1;
                assert(failures[last] == failures.last());
            },
        }
    }
}

/// The last name of a path is a stem that is not empty, a dot and these letters, the last dot
/// of the name being that one.
pub open spec fn is_called(path: Seq<char>, ext: Seq<char>) -> bool {
    !ext.contains('.') && exists|stem: Seq<char>|
        stem.len() > 0 && paths::name_of(path) == Some(#[trigger] stem.push('.') + ext)
}

proof fn lemma_extension_is_called(path: Seq<char>, ext: Seq<char>)
    ensures
        (extension_of(path) == Some(ext)) == is_called(path, ext),
{
    if let Some(name) = paths::name_of(path) {
        paths::law_a_name_is_its_stem_and_extension(name);
        let (stem, found) = paths::stem_and_extension(name);
        if found == Some(ext) {
            assert(paths::name_of(path) == Some(stem.push('.') + ext));
        }
        if is_called(path, ext) {
            let s = choose|stem: Seq<char>|
                stem.len() > 0 && paths::name_of(path) == Some(#[trigger] stem.push('.') + ext);
            let whole = s.push('.') + ext;
            assert(name == whole);
            assert(whole[s.len() as int] == '.');
            text::lemma_last_index(name, '.');
            let i = text::last_index(name, '.')->0;
            assert(i >= s.len());
            if i > s.len() {
                assert(whole[i] == ext[i - s.len() - 1]);
                assert(ext.contains(ext[i - s.len() - 1]));
            }
            assert(name.skip(i + 1) =~= ext);
        }
    }
}

proof fn lemma_files_gone(files: Seq<(String, Option<u64>)>, ext: Seq<char>, p: Seq<char>)
    ensures
        file_paths(files.filter(goes_by(ext))).contains(p) <==> exists|i: int|
            0 <= i < files.len() && (#[trigger] files[i]).0@ == p && files[i].1 is Some
                && is_called(p, ext),
{
    broadcast use vstd::seq_lib::group_filter_ensures;

    let keep = goes_by(ext);
    let kept = files.filter(keep);
    let all = file_paths(kept);
    lemma_extension_is_called(p, ext);
    if all.contains(p) {
        let k = choose|k: int| 0 <= k < all.len() && all[k] == p;
        assert(kept.contains(kept[k]));
        files.lemma_filter_contains_rev(keep, kept[k]);
        files.lemma_filter_pred(keep, k);
        let i = choose|i: int| 0 <= i < files.len() && files[i] == kept[k];
        assert(files[i].0@ == p);
    }
    if exists|i: int|
        0 <= i < files.len() && (#[trigger] files[i]).0@ == p && files[i].1 is Some && is_called(
            p,
            ext,
        ) {
        let i = choose|i: int|
            0 <= i < files.len() && (#[trigger] files[i]).0@ == p && files[i].1 is Some
                && is_called(p, ext);
        assert(keep(files[i]));
        assert(files.contains(files[i]));
        assert(kept.contains(files[i]));
        let k = choose|k: int| 0 <= k < kept.len() && kept[k] == files[i];
        assert(all[k] == p);
    }
}

/// What an action removes: what is listed in a directory that is to be emptied, a directory or
/// file itself where it is there, the files of known length that are called by an extension,
/// or the children that were found idle; and nothing besides.
pub proof fn law_an_action_removes_what_it_says(action: CleanAction, facts: CleanFacts, p: Seq<char>)
    requires
        removals(action, facts) is Ok,
    ensures
        removals(action, facts)->Ok_0.contains(p) <==> match action {
            CleanAction::RemoveContents(_) => facts.exists && facts.listing is Ok && exists|i: int|
                0 <= i < facts.listing->Ok_0@.len() && (#[trigger] facts.listing->Ok_0@[i])@ == p,
            CleanAction::RemoveDir(d) => facts.exists && p == d@,
            CleanAction::RemoveFile(f) => facts.exists && p == f@,
            CleanAction::RunCommand(_, _) => false,
            CleanAction::RemoveByExtension(_, ext) => exists|i: int|
                0 <= i < facts.files@.len() && (#[trigger] facts.files@[i]).0@ == p
                    && facts.files@[i].1 is Some && is_called(p, ext@),
            CleanAction::RemoveIdleChildren { .. } => exists|i: int|
                0 <= i < facts.idle@.len() && (#[trigger] facts.idle@[i]).0@ == p,
        },
{
    let all = removals(action, facts)->Ok_0;
    match action {
        CleanAction::RemoveContents(_) => {
            if facts.exists {
                let listed = facts.listing->Ok_0@;
                assert(all == texts(listed));
                if all.contains(p) {
                    let i = choose|i: int| 0 <= i < all.len() && all[i] == p;
                    assert(listed[i]@ == p);
                }
                if exists|i: int| 0 <= i < listed.len() && (#[trigger] listed[i])@ == p {
                    let i = choose|i: int| 0 <= i < listed.len() && (#[trigger] listed[i])@ == p;
                    assert(all[i] == p);
                }
            }
        },
        CleanAction::RemoveDir(d) => {
            if facts.exists {
                assert(all[0] == d@);
            }
        },
        CleanAction::RemoveFile(f) => {
            if facts.exists {
                assert(all[0] == f@);
            }
        },
        CleanAction::RunCommand(_, _) => {},
        CleanAction::RemoveByExtension(_, ext) => {
            lemma_files_gone(facts.files@, ext@, p);
        },
        CleanAction::RemoveIdleChildren { .. } => {
            let idle = facts.idle@;
            if all.contains(p) {
                let i = choose|i: int| 0 <= i < all.len() && all[i] == p;
                assert(idle[i].0@ == p);
            }
            if exists|i: int| 0 <= i < idle.len() && (#[trigger] idle[i]).0@ == p {
                let i = choose|i: int| 0 <= i < idle.len() && (#[trigger] idle[i]).0@ == p;
                assert(all[i] == p);
            }
        },
    }
}

/// Cleaning succeeds exactly where what to remove can be told, no removal failed, and a command
/// that was to be run came through.
pub proof fn law_cleaning_succeeds_only_if_all_of_it_did(
    action: CleanAction,
    size: Size,
    facts: CleanFacts,
    failures: Seq<Option<String>>,
    run: CommandRun,
)
    ensures
        outcome(action, size, facts, failures, run) is Ok <==> {
            &&& action is RemoveContents && facts.exists ==> facts.listing is Ok
            &&& forall|i: int| 0 <= i < failures.len() ==> (#[trigger] failures[i]) is None
            &&& action is RunCommand ==> run is Succeeded
        },
{
    law_the_first_failure_is_the_earliest(failures);
}

proof fn lemma_sum_kept(files: Seq<(String, Option<u64>)>, ext: Seq<char>)
    ensures
        sum_of(files.filter(goes_by(ext)), file_bytes()) == sum_of(
            files,
            |f: (String, Option<u64>)|
                if is_called(f.0@, ext) && f.1 is Some {
                    f.1->0 as int
                } else {
                    0
                },
        ),
    decreases files.len(),
{
    reveal(Seq::filter);
    let keep = goes_by(ext);
    if files.len() > 0 {
        let before = files.drop_last();
        let last = files.last();
        lemma_sum_kept(before, ext);
        lemma_extension_is_called(last.0@, ext);
        assert(files =~= before.push(last));
        before.lemma_filter_push(last, keep);
        order::lemma_sum_push(before.filter(keep), last, file_bytes());
    }
}

/// What removing by extension frees is the length of each file that goes, and of no other.
pub proof fn law_files_that_go_free_their_length(
    dir: String,
    ext: String,
    size: Size,
    facts: CleanFacts,
)
    ensures
        freed(CleanAction::RemoveByExtension(dir, ext), size, facts) == sum_of(
            facts.files@,
            |f: (String, Option<u64>)|
                if is_called(f.0@, ext@) && f.1 is Some {
                    f.1->0 as int
                } else {
                    0
                },
        ),
{
    lemma_sum_kept(facts.files@, ext@);
}

/// A declaration turns into a row exactly where it is a directory and no target that is there
/// already empties or removes the same place.
pub proof fn law_a_declaration_is_offered_unless_it_is_emptied(targets: Seq<Target>, c: Cleanable)
    ensures
        is_offered(targets)(c) <==> c.is_dir && forall|i: int|
            0 <= i < targets.len() ==> match (#[trigger] targets[i]).does() {
                CleanAction::RemoveContents(p) => paths::components(p@) != paths::components(
                    c.path@,
                ),
                CleanAction::RemoveDir(p) => paths::components(p@) != paths::components(c.path@),
                _ => true,
            },
{
}

/// Two trees overlap exactly where the components of one begin with those of the other, whichever
/// of the two is named first.
pub proof fn law_two_trees_overlap_where_one_holds_the_other(a: Seq<char>, b: Seq<char>)
    ensures
        overlap(a, b) <==> paths::components(a).is_prefix_of(paths::components(b))
            || paths::components(b).is_prefix_of(paths::components(a)),
        overlap(a, b) == overlap(b, a),
        overlap(a, a),
{
    paths::lemma_is_under_itself(a);
}

} // verus!
