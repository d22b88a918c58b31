//! A sweep as it is seen while it runs.
use vstd::prelude::*;
use crate::disk::sweep;
use crate::disk::sweep::{
    all_unreadable, count_denials, fresh, headcount_all, ints, job_bytes, job_fits, job_node,
    job_refusals, job_views, jobs_headcount, jobs_weight, of_root, planned, refusals, root_paths,
    rule_paths, seed_bytes, seed_refusals, total_of, walked, weight_all, Denial, Denials, Ground,
    JobResult, JobView, Node, Plan, Root, RootSeed, RootUsage, Rule, Seen, Sweep, Tally,
    Unreadable,
};
use crate::order;
use crate::order::sum_of;
use crate::paths;
use crate::paths::PathList;
use crate::text;
use crate::text::texts;

verus! {

/// What a sweep says while it is still running.
#[derive(Debug)]
pub enum Progress {
    /// Always first. The rows to draw, in the order they were discovered.
    Started { roots: Vec<Root>, jobs: usize },
    /// One immediate child of a root finished. `root_bytes` is that root's
    /// running total, already including its loose files.
    Scanned { root: usize, path: String, root_bytes: u64, remaining: usize },
    /// Every job for this root is in. Its number is final, and so is the count
    /// of what refused to open.
    RootDone { root: usize, denials: Denials, bytes: u64 },
    /// Nothing new.
    Tick,
}

/// What an event says, in mathematical terms.
#[verifier::ext_equal]
pub ghost enum Event {
    Started { roots: Seq<(Seq<char>, Seq<char>)>, jobs: int },
    Scanned { root: int, path: Seq<char>, root_bytes: int, remaining: int },
    RootDone { root: int, denials: Denials, bytes: int },
    Tick,
}

/// The names and paths of a list of roots.
pub open spec fn root_rows(roots: Seq<Root>) -> Seq<(Seq<char>, Seq<char>)> {
    Seq::new(roots.len(), |i: int| (roots[i].name@, roots[i].path@))
}

impl Progress {
    /// What the event says.
    pub open spec fn view(&self) -> Event {
        match *self {
            Progress::Started { roots, jobs } => Event::Started {
                roots: root_rows(roots@),
                jobs: jobs as int,
            },
            Progress::Scanned { root, path, root_bytes, remaining } => Event::Scanned {
                root: root as int,
                path: path@,
                root_bytes: root_bytes as int,
                remaining: remaining as int,
            },
            Progress::RootDone { root, denials, bytes } => Event::RootDone {
                root: root as int,
                denials,
                bytes: bytes as int,
            },
            Progress::Tick => Event::Tick,
        }
    }
}

/// What the events of a list say.
pub open spec fn events(v: Seq<Progress>) -> Seq<Event> {
    Seq::new(v.len(), |i: int| v[i]@)
}

/// A caller's answer to each [`Progress`]. `Cancel` stops the walk.
#[derive(Debug, Clone, Copy, PartialEq, Eq, Structural)]
pub enum Flow {
    Continue,
    Cancel,
}

/// Where a sweep stands between two results.
#[derive(Debug)]
pub struct Tracker {
    pub root_bytes: Vec<u64>,
    pub root_denials: Vec<Denials>,
    pub root_pending: Vec<usize>,
    pub remaining: usize,
}

/// Where a sweep stands, in mathematical terms.
#[verifier::ext_equal]
pub ghost struct Standing {
    pub bytes: Seq<u64>,
    pub denials: Seq<Denials>,
    pub pending: Seq<usize>,
    pub remaining: int,
}

/// Two counts of refusals together.
pub open spec fn merged(a: Denials, b: Denials) -> Denials {
    Denials {
        protected: (a.protected + b.protected) as usize,
        forbidden: (a.forbidden + b.forbidden) as usize,
        unattended: (a.unattended + b.unattended) as usize,
    }
}

/// The counts of the refusals in a list.
pub open spec fn counted(entries: Seq<Unreadable>) -> Denials {
    Denials {
        protected: refusals(entries, Denial::Protected) as usize,
        forbidden: refusals(entries, Denial::Forbidden) as usize,
        unattended: refusals(entries, Denial::Unattended) as usize,
    }
}

/// Where a sweep stands after one more result.
pub open spec fn advanced(s: Standing, r: JobResult) -> Standing {
    let k = r.root as int;
    Standing {
        bytes: s.bytes.update(k, (s.bytes[k] + r.total) as u64),
        denials: s.denials.update(k, merged(s.denials[k], counted(r.unreadable@))),
        pending: s.pending.update(k, (s.pending[k] - 1) as usize),
        remaining: s.remaining - 1,
    }
}

/// That a root is done.
pub open spec fn done_event(s: Standing, root: int) -> Event {
    Event::RootDone { root, denials: s.denials[root], bytes: s.bytes[root] as int }
}

/// What a result gives rise to, the sweep then standing at `s`.
pub open spec fn result_events(s: Standing, r: JobResult) -> Seq<Event> {
    let k = r.root as int;
    let scanned = Event::Scanned {
        root: k,
        path: r.path@,
        root_bytes: s.bytes[k] as int,
        remaining: s.remaining,
    };
    if s.pending[k] == 0 {
        seq![scanned, done_event(s, k)]
    } else {
        seq![scanned]
    }
}

/// The roots among the first `n` that are done before any result is in.
pub open spec fn idle_events(s: Standing, n: nat) -> Seq<Event>
    decreases n,
{
    if n == 0 {
        Seq::empty()
    } else {
        let before = idle_events(s, (n - 1) as nat);
        if s.pending[n - 1] == 0 {
            before.push(done_event(s, n - 1))
        } else {
            before
        }
    }
}

/// What is said before any result is in.
pub open spec fn opening_events(roots: Seq<Root>, s: Standing) -> Seq<Event> {
    seq![Event::Started { roots: root_rows(roots), jobs: s.remaining }] + idle_events(
        s,
        roots.len(),
    )
}

/// Where a sweep stands after a run of results.
pub open spec fn standing_after(s: Standing, results: Seq<JobResult>) -> Standing
    decreases results.len(),
{
    if results.len() == 0 {
        s
    } else {
        advanced(standing_after(s, results.drop_last()), results.last())
    }
}

/// Everything that is said up to the last of a run of results.
pub open spec fn told(roots: Seq<Root>, s: Standing, results: Seq<JobResult>) -> Seq<Event>
    decreases results.len(),
{
    if results.len() == 0 {
        opening_events(roots, s)
    } else {
        told(roots, s, results.drop_last()) + result_events(
            standing_after(s, results),
            results.last(),
        )
    }
}

/// The jobs that belong to a root.
pub open spec fn jobs_of(jobs: Seq<JobView>, root: int) -> nat
    decreases jobs.len(),
{
    if jobs.len() == 0 {
        0
    } else {
        jobs_of(jobs.drop_last(), root) + (if jobs.last().root == root {
            1nat
        } else {
            0
        })
    }
}

/// Where a sweep stands before any result is in.
pub open spec fn first_standing(seeds: Seq<RootSeed>, jobs: Seq<JobView>) -> Standing {
    Standing {
        bytes: Seq::new(seeds.len(), |k: int| seeds[k].loose_bytes),
        denials: Seq::new(seeds.len(), |k: int| counted(seeds[k].unreadable@)),
        pending: Seq::new(seeds.len(), |k: int| jobs_of(jobs, k) as usize),
        remaining: jobs.len() as int,
    }
}

proof fn lemma_jobs_of_bound(jobs: Seq<JobView>, root: int)
    ensures
        jobs_of(jobs, root) <= jobs.len(),
    decreases jobs.len(),
{
    if jobs.len() > 0 {
        lemma_jobs_of_bound(jobs.drop_last(), root);
    }
}

proof fn lemma_counted(d: Denials, entries: Seq<Unreadable>)
    requires
        d.counts(entries),
    ensures
        d == counted(entries),
{
    assert(d.count(Denial::Protected) == refusals(entries, Denial::Protected));
    assert(d.count(Denial::Forbidden) == refusals(entries, Denial::Forbidden));
    assert(d.count(Denial::Unattended) == refusals(entries, Denial::Unattended));
}

impl Tracker {
    /// Where the sweep stands.
    pub open spec fn view(&self) -> Standing {
        Standing {
            bytes: self.root_bytes@,
            denials: self.root_denials@,
            pending: self.root_pending@,
            remaining: self.remaining as int,
        }
    }

    /// Where a planned sweep stands before any result is in. Loose files are
    /// already measured, so a root with nothing but files is final at once.
    pub fn start(plan: &Plan) -> (r: Self)
        ensures
            r@ == first_standing(plan.roots@, job_views(plan.jobs@)),
    {
        let ghost jobs = job_views(plan.jobs@);
        let mut root_bytes: Vec<u64> = Vec::new();
        let mut root_denials: Vec<Denials> = Vec::new();
        let mut root_pending: Vec<usize> = Vec::new();
        for k in 0..plan.roots.len()
            invariant
                root_bytes@ == Seq::new(k as nat, |j: int| plan.roots@[j].loose_bytes),
                root_denials@ == Seq::new(k as nat, |j: int| counted(plan.roots@[j].unreadable@)),
                root_pending@.len() == k,
                forall|j: int| 0 <= j < k ==> root_pending@[j] == jobs_of(jobs, j),
                jobs == job_views(plan.jobs@),
        {
            root_bytes.push(plan.roots[k].loose_bytes);
            let d = count_denials(&plan.roots[k].unreadable);
            proof {
                lemma_counted(d, plan.roots@[k as int].unreadable@);
            }
            root_denials.push(d);
            let mut pending: usize = 0;
            for i in 0..plan.jobs.len()
                invariant
                    jobs == job_views(plan.jobs@),
                    pending == jobs_of(jobs.take(i as int), k as int),
                    pending <= i,
            {
                assert(jobs.take(i + 1).drop_last() =~= jobs.take(i as int));
                if plan.jobs[i].root == k {
                    pending = pending + 1;
                }
            }
            assert(jobs.take(jobs.len() as int) =~= jobs);
            root_pending.push(pending);
            assert(root_bytes@ =~= Seq::new((k + 1) as nat, |j: int| plan.roots@[j].loose_bytes));
            assert(root_denials@ =~= Seq::new(
                (k + 1) as nat,
                |j: int| counted(plan.roots@[j].unreadable@),
            ));
        }
        let r = Tracker { root_bytes, root_denials, root_pending, remaining: plan.jobs.len() };
        assert(r@.pending =~= first_standing(plan.roots@, jobs).pending);
        assert(r@ =~= first_standing(plan.roots@, jobs));
        r
    }

    /// What is said before any result is in.
    pub fn opening(&self, roots: &Vec<Root>) -> (r: Vec<Progress>)
        requires
            self@.bytes.len() == roots@.len(),
            self@.denials.len() == roots@.len(),
            self@.pending.len() == roots@.len(),
        ensures
            events(r@) == opening_events(roots@, self@),
    {
        let mut rows: Vec<Root> = Vec::new();
        for i in 0..roots.len()
            invariant
                rows@.len() == i,
                forall|j: int|
                    0 <= j < i ==> (#[trigger] rows@[j]).name@ == roots@[j].name@ && rows@[j].path@
                        == roots@[j].path@,
        {
            rows.push(Root { name: roots[i].name.clone(), path: roots[i].path.clone() });
        }
        assert(root_rows(rows@) =~= root_rows(roots@));
        let mut out: Vec<Progress> = Vec::new();
        let started = Progress::Started { roots: rows, jobs: self.remaining };
        let ghost first = started@;
        out.push(started);
        assert(events(out@) =~= seq![first] + idle_events(self@, 0));
        for k in 0..roots.len()
            invariant
                self@.bytes.len() == roots@.len(),
                self@.denials.len() == roots@.len(),
                self@.pending.len() == roots@.len(),
                events(out@) == seq![first] + idle_events(self@, k as nat),
        {
            if self.root_pending[k] == 0 {
                let done = Progress::RootDone {
                    root: k,
                    denials: self.root_denials[k],
                    bytes: self.root_bytes[k],
                };
                let ghost said = events(out@);
                out.push(done);
                assert(events(out@) =~= said.push(done@));
                assert(events(out@) =~= seq![first] + idle_events(self@, (k + 1) as nat));
            }
        }
        out
    }

    /// Takes in one result and says what it gives rise to.
    pub fn advance(&mut self, result: &JobResult) -> (r: Vec<Progress>)
        requires
            result.root < old(self)@.bytes.len(),
            result.root < old(self)@.denials.len(),
            result.root < old(self)@.pending.len(),
            old(self)@.pending[result.root as int] > 0,
            old(self)@.remaining > 0,
            old(self)@.bytes[result.root as int] + result.total <= u64::MAX,
            old(self)@.denials[result.root as int].sum() + result.unreadable@.len() <= usize::MAX,
        ensures
            final(self)@ == advanced(old(self)@, *result),
            events(r@) == result_events(final(self)@, *result),
    {
        let k = result.root;
        let found = count_denials(&result.unreadable);
        proof {
            lemma_counted(found, result.unreadable@);
        }
        let bytes = self.root_bytes[k] + result.total;
        self.root_bytes.set(k, bytes);
        let old_denials = self.root_denials[k];
        let denials = Denials {
            protected: old_denials.protected + found.protected,
            forbidden: old_denials.forbidden + found.forbidden,
            unattended: old_denials.unattended + found.unattended,
        };
        self.root_denials.set(k, denials);
        let pending = self.root_pending[k] - 1;
        self.root_pending.set(k, pending);
        self.remaining = self.remaining - 1;
        assert(self@ =~= advanced(old(self)@, *result));
        let mut out: Vec<Progress> = Vec::new();
        out.push(
            Progress::Scanned {
                root: k,
                path: result.path.clone(),
                root_bytes: bytes,
                remaining: self.remaining,
            },
        );
        if pending == 0 {
            out.push(Progress::RootDone { root: k, denials, bytes });
        }
        assert(events(out@) =~= result_events(self@, *result));
        out
    }
}

/// A sweep stands where the seeds and the results so far put it, with `left`
/// still to come.
pub open spec fn tracks(
    s: Standing,
    seeds: Seq<RootSeed>,
    left: Seq<JobView>,
    results: Seq<JobResult>,
) -> bool {
    &&& s.bytes.len() == seeds.len()
    &&& s.denials.len() == seeds.len()
    &&& s.pending.len() == seeds.len()
    &&& s.remaining == left.len()
    &&& forall|k: int|
        0 <= k < seeds.len() ==> #[trigger] s.bytes[k] == seeds[k].loose_bytes + sum_of(
            of_root(results, k),
            job_bytes(),
        )
    &&& forall|k: int|
        0 <= k < seeds.len() ==> (#[trigger] s.denials[k]).counts(
            seeds[k].unreadable@ + all_unreadable(of_root(results, k)),
        )
    &&& forall|k: int| 0 <= k < seeds.len() ==> #[trigger] s.pending[k] == jobs_of(left, k)
}

proof fn lemma_first_tracks(seeds: Seq<RootSeed>, jobs: Seq<JobView>)
    requires
        jobs.len() <= usize::MAX,
        forall|k: int| 0 <= k < seeds.len() ==> (#[trigger] seeds[k]).unreadable@.len() <= usize::MAX,
    ensures
        tracks(first_standing(seeds, jobs), seeds, jobs, Seq::empty()),
{
    reveal(Seq::filter);
    let s = first_standing(seeds, jobs);
    let none = Seq::<JobResult>::empty();
    assert forall|k: int| 0 <= k < seeds.len() implies (#[trigger] s.denials[k]).counts(
        seeds[k].unreadable@ + all_unreadable(of_root(none, k)),
    ) by {
        let u = seeds[k].unreadable@;
        assert(u + all_unreadable(of_root(none, k)) =~= u);
        sweep::lemma_refusals_total(u);
        assert(seeds[k].unreadable@.len() <= usize::MAX);
        assert forall|d: Denial| #[trigger] s.denials[k].count(d) == refusals(u, d) by {
            match d {
                Denial::Protected => {},
                Denial::Forbidden => {},
                Denial::Unattended => {},
            }
        }
    }
    assert forall|k: int| 0 <= k < seeds.len() implies #[trigger] s.pending[k] == jobs_of(
        jobs,
        k,
    ) by {
        lemma_jobs_of_bound(jobs, k);
    }
}

/// A count of refusals adds up to as many as there are.
proof fn lemma_counts_sum(d: Denials, entries: Seq<Unreadable>)
    requires
        d.counts(entries),
    ensures
        d.sum() == entries.len(),
{
    sweep::lemma_refusals_total(entries);
    assert(d.count(Denial::Protected) == refusals(entries, Denial::Protected));
    assert(d.count(Denial::Forbidden) == refusals(entries, Denial::Forbidden));
    assert(d.count(Denial::Unattended) == refusals(entries, Denial::Unattended));
}

proof fn lemma_tracks_step(
    s: Standing,
    seeds: Seq<RootSeed>,
    left: Seq<JobView>,
    results: Seq<JobResult>,
    r: JobResult,
)
    requires
        tracks(s, seeds, left, results),
        left.len() > 0,
        r.root == left.last().root,
        r.root < seeds.len(),
        s.bytes[r.root as int] + r.total <= u64::MAX,
        s.denials[r.root as int].sum() + r.unreadable@.len() <= usize::MAX,
    ensures
        s.pending[r.root as int] > 0,
        tracks(advanced(s, r), seeds, left.drop_last(), results.push(r)),
{
    let q = r.root as int;
    let next = advanced(s, r);
    let now = results.push(r);
    assert(s.pending[q] == jobs_of(left, q));
    assert forall|k: int| 0 <= k < seeds.len() implies #[trigger] next.bytes[k]
        == seeds[k].loose_bytes + sum_of(of_root(now, k), job_bytes()) by {
        results.lemma_filter_push(r, |x: JobResult| x.root == k);
        order::lemma_sum_push(of_root(results, k), r, job_bytes());
        assert(s.bytes[k] == seeds[k].loose_bytes + sum_of(of_root(results, k), job_bytes()));
    }
    assert forall|k: int| 0 <= k < seeds.len() implies (#[trigger] next.denials[k]).counts(
        seeds[k].unreadable@ + all_unreadable(of_root(now, k)),
    ) by {
        results.lemma_filter_push(r, |x: JobResult| x.root == k);
        let own = seeds[k].unreadable@;
        let before = own + all_unreadable(of_root(results, k));
        assert(s.denials[k].counts(before));
        if k == q {
            let mine = of_root(results, k);
            assert(mine.push(r).drop_last() =~= mine);
            assert(own + all_unreadable(of_root(now, k)) =~= before + r.unreadable@);
            sweep::lemma_refusals_total(r.unreadable@);
            assert forall|d: Denial| #[trigger] next.denials[k].count(d) == refusals(
                own + all_unreadable(of_root(now, k)),
                d,
            ) by {
                sweep::lemma_refusals_concat(before, r.unreadable@, d);
                assert(s.denials[k].count(d) == refusals(before, d));
                assert(refusals(r.unreadable@, d) <= r.unreadable@.len());
                match d {
                    Denial::Protected => {},
                    Denial::Forbidden => {},
                    Denial::Unattended => {},
                }
            }
        }
    }
    assert forall|k: int| 0 <= k < seeds.len() implies #[trigger] next.pending[k] == jobs_of(
        left.drop_last(),
        k,
    ) by {
        assert(s.pending[k] == jobs_of(left, k));
    }
}

/// What walking the first `n` jobs gives, the last of the list being walked
/// first.
pub open spec fn ran(
    rules: Seq<Seq<Seq<char>>>,
    skip: Seq<Seq<Seq<char>>>,
    closed: Seq<Seq<Seq<char>>>,
    nodes: Seq<Node>,
    jobs: Seq<JobView>,
    seen: Set<(u64, u64)>,
    n: nat,
) -> (Seq<Tally>, Set<(u64, u64)>)
    decreases n,
{
    if n == 0 {
        (Seq::empty(), seen)
    } else {
        let (before, s) = ran(rules, skip, closed, nodes, jobs, seen, (n - 1) as nat);
        let job = jobs[jobs.len() - n];
        let g = Ground { rules, skip, closed, dev: job.dev };
        let t = walked(g, job_node(nodes, job), job.rule, fresh(rules.len(), s));
        (before.push(t), t.seen)
    }
}

/// The results report what walking the jobs gave, the last of the list first.
pub open spec fn reported(
    results: Seq<JobResult>,
    jobs: Seq<JobView>,
    tallies: Seq<Tally>,
) -> bool {
    &&& results.len() == tallies.len()
    &&& results.len() <= jobs.len()
    &&& forall|i: int|
        0 <= i < results.len() ==> (#[trigger] results[i]).reports(
            jobs[jobs.len() - 1 - i],
            tallies[i],
        )
}

/// The seeds report what enumerating the roots gave.
pub open spec fn seeded(seeds: Seq<RootSeed>, tallies: Seq<Tally>) -> bool {
    &&& seeds.len() == tallies.len()
    &&& forall|k: int| 0 <= k < seeds.len() ==> (#[trigger] seeds[k]).reports(tallies[k])
}

/// The first of the first `n` answers that is to stop.
pub open spec fn first_cancel(answers: Seq<Flow>, n: nat) -> Option<int>
    decreases n,
{
    if n == 0 {
        None
    } else {
        match first_cancel(answers, (n - 1) as nat) {
            Some(i) => Some(i),
            None => if n - 1 < answers.len() && answers[n - 1] == Flow::Cancel {
                Some(n - 1)
            } else {
                None
            },
        }
    }
}

proof fn lemma_first_cancel_more(answers: Seq<Flow>, n: nat, m: nat)
    requires
        n <= m,
        first_cancel(answers, n) is Some,
    ensures
        first_cancel(answers, m) == first_cancel(answers, n),
    decreases m,
{
    if n < m {
        lemma_first_cancel_more(answers, n, (m - 1) as nat);
    }
}

/// What a run of a sweep comes to: everything was said and the sweep added up,
/// or the caller stopped it and nothing was said after that.
pub open spec fn comes_to(
    said: Seq<Event>,
    outcome: Option<Sweep>,
    roots: Seq<Root>,
    rules: nat,
    seeds: Seq<RootSeed>,
    jobs: Seq<JobView>,
    results: Seq<JobResult>,
    answers: Seq<Flow>,
) -> bool {
    let all = told(roots, first_standing(seeds, jobs), results);
    match outcome {
        Some(sweep) => {
            &&& results.len() == jobs.len()
            &&& said == all
            &&& first_cancel(answers, all.len()) is None
            &&& sweep.adds_up(roots, rules, seeds, results)
            &&& sweep.fits()
        },
        None => {
            &&& first_cancel(answers, all.len()) matches Some(i)
            &&& said == all.take(i + 1)
            &&& results.len() > 0 ==> told(
                roots,
                first_standing(seeds, jobs),
                results.drop_last(),
            ).len() <= i
        },
    }
}

/// A run of a sweep over what the file system answered: the seeds report what
/// enumerating the roots gives, the results what walking the jobs gives, and the
/// run comes to what they come to.
pub open spec fn sweeps(
    said: Seq<Event>,
    outcome: Option<Sweep>,
    roots: Seq<Root>,
    rules: Seq<Rule>,
    closed: Seq<Seq<char>>,
    nodes: Seq<Node>,
    answers: Seq<Flow>,
    seeds: Seq<RootSeed>,
    results: Seq<JobResult>,
) -> bool {
    let rl = paths::all_components(rule_paths(rules));
    let sk = paths::all_components(root_paths(roots));
    let cl = paths::all_components(closed);
    let p = planned(rl, sk, cl, root_paths(roots), nodes, roots.len());
    &&& seeded(seeds, p.seeds)
    &&& reported(results, p.jobs, ran(rl, sk, cl, nodes, p.jobs, p.seen, results.len()).0)
    &&& forall|k: int| 0 <= k < seeds.len() ==> (#[trigger] seeds[k]).wf(rules.len())
    &&& forall|k: int| 0 <= k < results.len() ==> (#[trigger] results[k]).wf(rules.len())
    &&& comes_to(said, outcome, roots, rules.len(), seeds, p.jobs, results, answers)
}

/// Says a run of events one by one, stopping where the caller stops it.
fn say(out: &mut Vec<Progress>, batch: Vec<Progress>, answers: &Vec<Flow>) -> (stopped: bool)
    requires
        first_cancel(answers@, old(out)@.len()) is None,
    ensures
        ({
            let all = events(old(out)@) + events(batch@);
            match first_cancel(answers@, all.len()) {
                None => !stopped && events(final(out)@) == all,
                Some(i) => stopped && events(final(out)@) == all.take(i + 1) && i >= old(
                    out,
                )@.len(),
            }
        }),
{
    let ghost before = events(out@);
    let ghost more = events(batch@);
    let ghost items = batch@;
    assert(before + more.take(0) =~= before);
    for p in it: batch
        invariant
            it.seq() == items,
            more == events(items),
            before == events(old(out)@),
            events(out@) == before + more.take(it.index() as int),
            out@.len() == before.len() + it.index(),
            first_cancel(answers@, out@.len()) is None,
    {
        let ghost n = it.index() as int;
        let ghost prev = events(out@);
        let at = out.len();
        out.push(p);
        assert(events(out@) =~= prev.push(p@));
        assert(before + more.take(n + 1) =~= prev.push(p@));
        if at < answers.len() && answers[at] == Flow::Cancel {
            proof {
                lemma_first_cancel_more(
                    answers@,
                    out@.len(),
                    (before + more).len(),
                );
                assert((before + more).take(at + 1) =~= events(out@));
            }
            return true;
        }
    }
    assert(more.take(more.len() as int) =~= more);
    false
}

/// Walks every root once and reports as it goes. The caller's answers are given
/// by position, the first to the first event; where there is none the walk goes
/// on. There is no sweep where the caller stopped it.
pub fn sweep_unattended_streaming(
    roots: &Vec<Root>,
    rules: &Vec<Rule>,
    closed: &Vec<String>,
    nodes: &Vec<Node>,
    answers: &Vec<Flow>,
) -> (r: (Vec<Progress>, Option<Sweep>))
    requires
        nodes@.len() == roots@.len(),
        weight_all(nodes@) <= u64::MAX,
        headcount_all(nodes@) <= usize::MAX,
    ensures
        exists|seeds: Seq<RootSeed>, results: Seq<JobResult>| #[trigger]
            sweeps(
                events(r.0@),
                r.1,
                roots@,
                rules@,
                texts(closed@),
                nodes@,
                answers@,
                seeds,
                results,
            ),
        is_run(events(r.0@), r.1, roots@, answers@),
{
    let ghost n_rules = rules@.len();
    let mut rule_list: Vec<String> = Vec::new();
    for i in 0..rules.len()
        invariant
            rule_list@.len() == i,
            forall|j: int| 0 <= j < i ==> rule_list@[j]@ == rules@[j].path@,
    {
        rule_list.push(rules[i].path.clone());
    }
    let mut root_list: Vec<String> = Vec::new();
    for i in 0..roots.len()
        invariant
            root_list@.len() == i,
            forall|j: int| 0 <= j < i ==> root_list@[j]@ == roots@[j].path@,
    {
        root_list.push(roots[i].path.clone());
    }
    assert(texts(rule_list@) =~= rule_paths(rules@));
    assert(texts(root_list@) =~= root_paths(roots@));
    let by_path = PathList::new(&rule_list);
    let skip = PathList::new(&root_list);
    let shut = PathList::new(closed);
    let mut seen = Seen::new();
    let work = sweep::plan(roots, nodes, &by_path, rules.len(), &skip, &shut, &mut seen);
    let ghost p = planned(by_path@, skip@, shut@, root_paths(roots@), nodes@, roots@.len());
    let ghost seeds = work.roots@;
    let ghost jobs = job_views(work.jobs@);
    let ghost first = first_standing(seeds, jobs);
    let ghost base = sum_of(seeds, seed_bytes());
    let ghost base_refused = sum_of(seeds, seed_refusals());
    let mut tracker = Tracker::start(&work);
    let mut out: Vec<Progress> = Vec::new();
    let opening = tracker.opening(roots);
    assert(events(out@) + events(opening@) =~= events(opening@));
    let stopped = say(&mut out, opening, answers);
    let mut results: Vec<JobResult> = Vec::new();
    assert(told(roots@, first, Seq::empty()) == opening_events(roots@, first));
    assert(ran(by_path@, skip@, shut@, nodes@, jobs, p.seen, 0).0 =~= Seq::<Tally>::empty());
    if stopped {
        let r: (Vec<Progress>, Option<Sweep>) = (out, None);
        proof {
            lemma_stopped_run(roots@, first, results@, answers@, events(r.0@));
        }
        assert(sweeps(
            events(r.0@),
            r.1,
            roots@,
            rules@,
            texts(closed@),
            nodes@,
            answers@,
            seeds,
            results@,
        ));
        return r;
    }
    proof {
        assert forall|k: int| 0 <= k < seeds.len() implies (#[trigger] seeds[k]).unreadable@.len()
            <= usize::MAX by {
            assert(seeds[k].unreadable.len() <= usize::MAX);
        }
        lemma_first_tracks(seeds, jobs);
        lemma_opening_in_step(roots@, first);
        assert(jobs.take(jobs.len() as int) =~= jobs);
    }
    let mut at: usize = work.jobs.len();
    while at > 0
        invariant
            at <= work.jobs@.len(),
            nodes@.len() == roots@.len(),
            weight_all(nodes@) <= u64::MAX,
            headcount_all(nodes@) <= usize::MAX,
            n_rules == rules@.len(),
            by_path@ == paths::all_components(rule_paths(rules@)),
            skip@ == paths::all_components(root_paths(roots@)),
            shut@ == paths::all_components(texts(closed@)),
            by_path@.len() == n_rules,
            p == planned(by_path@, skip@, shut@, root_paths(roots@), nodes@, roots@.len()),
            seeds == work.roots@,
            seeds.len() == roots@.len(),
            jobs == job_views(work.jobs@),
            jobs == p.jobs,
            seeded(seeds, p.seeds),
            forall|k: int| 0 <= k < seeds.len() ==> (#[trigger] seeds[k]).wf(n_rules),
            forall|k: int|
                0 <= k < work.jobs@.len() ==> job_fits(nodes@, n_rules, #[trigger] work.jobs@[k]@),
            first == first_standing(seeds, jobs),
            results@.len() + at == jobs.len(),
            tracker@ == standing_after(first, results@),
            tracks(tracker@, seeds, jobs.take(at as int), results@),
            events(out@) == told(roots@, first, results@),
            keeps_step(events(out@), tracker@, roots@.len()),
            first_cancel(answers@, out@.len()) is None,
            forall|k: int| 0 <= k < results@.len() ==> (#[trigger] results@[k]).wf(n_rules),
            reported(
                results@,
                jobs,
                ran(by_path@, skip@, shut@, nodes@, jobs, p.seen, results@.len()).0,
            ),
            seen@ == ran(by_path@, skip@, shut@, nodes@, jobs, p.seen, results@.len()).1,
            base == sum_of(seeds, seed_bytes()),
            base_refused == sum_of(seeds, seed_refusals()),
            base + sum_of(results@, job_bytes()) + jobs_weight(nodes@, jobs.take(at as int))
                <= weight_all(nodes@),
            base_refused + sum_of(results@, job_refusals()) + jobs_headcount(
                nodes@,
                jobs.take(at as int),
            ) <= headcount_all(nodes@),
        decreases at,
    {
        let ghost left = jobs.take(at as int);
        let ghost done = results@;
        let job = &work.jobs[at - 1];
        let ghost jv = job@;
        proof {
            assert(job_fits(nodes@, n_rules, work.jobs@[at - 1]@));
            assert(jobs[at - 1] == jv);
            assert(left.drop_last() =~= jobs.take(at - 1));
            assert(left.last() == jv);
            lemma_jobs_nonneg(nodes@, jobs.take(at - 1));
        }
        match &nodes[job.root].listing {
            sweep::Listing::Refused(_) => {
                assert(false);
            },
            sweep::Listing::Opened(entries) => {
                let node = &entries[job.entry];
                assert(*node == job_node(nodes@, jv));
                proof {
                    lemma_sums_nonneg(seeds, done);
                }
                let result = sweep::run_job(
                    job,
                    node,
                    &by_path,
                    rules.len(),
                    &skip,
                    &shut,
                    &mut seen,
                );
                proof {
                    lemma_result_fits(tracker@, seeds, left, done, result);
                    order::lemma_sum_push(done, result, job_bytes());
                    order::lemma_sum_push(done, result, job_refusals());
                    lemma_tracks_step(tracker@, seeds, left, done, result);
                    lemma_result_in_step(events(out@), tracker@, result, roots@.len());
                    assert(done.push(result).drop_last() =~= done);
                }
                let batch = tracker.advance(&result);
                results.push(result);
                at = at - 1;
                let ghost n = results@.len();
                proof {
                    assert(jobs[jobs.len() - n] == jv);
                    let tallies = ran(by_path@, skip@, shut@, nodes@, jobs, p.seen, n).0;
                    let older = ran(by_path@, skip@, shut@, nodes@, jobs, p.seen, (n - 1) as nat).0;
                    assert(tallies.drop_last() =~= older);
                    assert forall|i: int| 0 <= i < results@.len() implies (
                    #[trigger] results@[i]).reports(jobs[jobs.len() - 1 - i], tallies[i]) by {
                        if i < done.len() {
                            assert(done[i].reports(jobs[jobs.len() - 1 - i], older[i]));
                        }
                    }
                }
                if say(&mut out, batch, answers) {
                    let r: (Vec<Progress>, Option<Sweep>) = (out, None);
                    proof {
                        lemma_stopped_run(roots@, first, results@, answers@, events(r.0@));
                    }
                    assert(sweeps(
                        events(r.0@),
                        r.1,
                        roots@,
                        rules@,
                        texts(closed@),
                        nodes@,
                        answers@,
                        seeds,
                        results@,
                    ));
                    return r;
                }
            },
        }
    }
    proof {
        lemma_jobs_nonneg(nodes@, jobs.take(0));
    }
    let swept = sweep::collect(roots, rules.len(), &work.roots, &results);
    let r: (Vec<Progress>, Option<Sweep>) = (out, Some(swept));
    proof {
        assert(jobs.take(0) =~= Seq::<JobView>::empty());
        lemma_full_run(
            roots@,
            rules@.len(),
            seeds,
            jobs,
            results@,
            answers@,
            events(r.0@),
            swept,
        );
    }
    assert(sweeps(
        events(r.0@),
        r.1,
        roots@,
        rules@,
        texts(closed@),
        nodes@,
        answers@,
        seeds,
        results@,
    ));
    r
}

proof fn lemma_jobs_nonneg(nodes: Seq<Node>, jobs: Seq<JobView>)
    ensures
        jobs_weight(nodes, jobs) >= 0,
        jobs_headcount(nodes, jobs) >= 0,
    decreases jobs.len(),
{
    if jobs.len() > 0 {
        lemma_jobs_nonneg(nodes, jobs.drop_last());
        sweep::lemma_weight_nonneg(job_node(nodes, jobs.last()));
    }
}

proof fn lemma_sums_nonneg(seeds: Seq<RootSeed>, results: Seq<JobResult>)
    ensures
        sum_of(seeds, seed_bytes()) >= 0,
        sum_of(seeds, seed_refusals()) >= 0,
        sum_of(results, job_bytes()) >= 0,
        sum_of(results, job_refusals()) >= 0,
{
    order::lemma_sum_prefix(seeds, seed_bytes(), seeds.len() as int);
    order::lemma_sum_prefix(seeds, seed_refusals(), seeds.len() as int);
    order::lemma_sum_prefix(results, job_bytes(), results.len() as int);
    order::lemma_sum_prefix(results, job_refusals(), results.len() as int);
}

/// One more result fits where the sums over everything fit.
proof fn lemma_result_fits(
    s: Standing,
    seeds: Seq<RootSeed>,
    left: Seq<JobView>,
    results: Seq<JobResult>,
    r: JobResult,
)
    requires
        tracks(s, seeds, left, results),
        r.root < seeds.len(),
        sum_of(seeds, seed_bytes()) + sum_of(results, job_bytes()) + r.total <= u64::MAX,
        sum_of(seeds, seed_refusals()) + sum_of(results, job_refusals()) + r.unreadable@.len()
            <= usize::MAX,
    ensures
        s.bytes[r.root as int] + r.total <= u64::MAX,
        s.denials[r.root as int].sum() + r.unreadable@.len() <= usize::MAX,
{
    let k = r.root as int;
    let mine = |x: JobResult| x.root == k;
    order::lemma_sum_prefix(seeds, seed_bytes(), k);
    order::lemma_sum_prefix(seeds, seed_bytes(), k + 1);
    order::lemma_sum_prefix(seeds, seed_refusals(), k);
    order::lemma_sum_prefix(seeds, seed_refusals(), k + 1);
    assert(seeds.take(k + 1).drop_last() =~= seeds.take(k));
    assert(seeds.take(k + 1).last() == seeds[k]);
    sweep::lemma_part_sum(results, mine, job_bytes());
    sweep::lemma_part_sum(results, mine, job_refusals());
    sweep::lemma_all_unreadable_len(of_root(results, k));
    assert(s.bytes[k] == seeds[k].loose_bytes + sum_of(of_root(results, k), job_bytes()));
    lemma_counts_sum(s.denials[k], seeds[k].unreadable@ + all_unreadable(of_root(results, k)));
}

/// The same walk with nothing left closed.
pub fn sweep_streaming(
    roots: &Vec<Root>,
    rules: &Vec<Rule>,
    nodes: &Vec<Node>,
    answers: &Vec<Flow>,
) -> (r: (Vec<Progress>, Option<Sweep>))
    requires
        nodes@.len() == roots@.len(),
        weight_all(nodes@) <= u64::MAX,
        headcount_all(nodes@) <= usize::MAX,
    ensures
        exists|seeds: Seq<RootSeed>, results: Seq<JobResult>| #[trigger]
            sweeps(
                events(r.0@),
                r.1,
                roots@,
                rules@,
                Seq::empty(),
                nodes@,
                answers@,
                seeds,
                results,
            ),
        is_run(events(r.0@), r.1, roots@, answers@),
{
    let closed: Vec<String> = Vec::new();
    assert(texts(closed@) =~= Seq::<Seq<char>>::empty());
    sweep_unattended_streaming(roots, rules, &closed, nodes, answers)
}

proof fn lemma_no_cancel(n: nat)
    ensures
        first_cancel(Seq::<Flow>::empty(), n) is None,
    decreases n,
{
    if n > 0 {
        lemma_no_cancel((n - 1) as nat);
    }
}

/// Walks every root once, charging each byte to at most one rule, with `closed`
/// left unopened: each of those is recorded as unattended, so its bytes read as
/// unknown rather than zero.
pub fn sweep_unattended(
    roots: &Vec<Root>,
    rules: &Vec<Rule>,
    closed: &Vec<String>,
    nodes: &Vec<Node>,
) -> (r: Sweep)
    requires
        nodes@.len() == roots@.len(),
        weight_all(nodes@) <= u64::MAX,
        headcount_all(nodes@) <= usize::MAX,
    ensures
        exists|said: Seq<Event>, seeds: Seq<RootSeed>, results: Seq<JobResult>| #[trigger]
            sweeps(
                said,
                Some(r),
                roots@,
                rules@,
                texts(closed@),
                nodes@,
                Seq::empty(),
                seeds,
                results,
            ),
        r.fits(),
        r.roots@.len() == roots@.len(),
        r.rule_sizes@.len() == rules@.len(),
        sum_of(r.roots@, sweep::usage_total()) == total_of(ints(r.rule_sizes@)) + sum_of(
            r.roots@,
            sweep::usage_unattributed(),
        ),
{
    let answers: Vec<Flow> = Vec::new();
    let (said, outcome) = sweep_unattended_streaming(roots, rules, closed, nodes, &answers);
    let ghost (seeds, results) = choose|seeds: Seq<RootSeed>, results: Seq<JobResult>| #[trigger]
        sweeps(
            events(said@),
            outcome,
            roots@,
            rules@,
            texts(closed@),
            nodes@,
            answers@,
            seeds,
            results,
        );
    proof {
        assert(answers@ =~= Seq::<Flow>::empty());
        assert(sweeps(
            events(said@),
            outcome,
            roots@,
            rules@,
            texts(closed@),
            nodes@,
            Seq::empty(),
            seeds,
            results,
        ));
        let jobs = planned(
            paths::all_components(rule_paths(rules@)),
            paths::all_components(root_paths(roots@)),
            paths::all_components(texts(closed@)),
            root_paths(roots@),
            nodes@,
            roots@.len(),
        ).jobs;
        lemma_no_cancel(told(roots@, first_standing(seeds, jobs), results).len());
    }
    match outcome {
        Some(r) => {
            proof {
                assert(seeds.len() == roots@.len()) by {
                    lemma_planned_len(
                        paths::all_components(rule_paths(rules@)),
                        paths::all_components(root_paths(roots@)),
                        paths::all_components(texts(closed@)),
                        root_paths(roots@),
                        nodes@,
                        roots@.len(),
                    );
                }
                sweep::law_every_byte_is_accounted_for(
                    r,
                    roots@,
                    rules@.len(),
                    seeds,
                    results,
                );
            }
            r
        },
        None => {
            assert(false);
            Sweep { roots: Vec::new(), rule_sizes: Vec::new() }
        },
    }
}

proof fn lemma_planned_len(
    rules: Seq<Seq<Seq<char>>>,
    skip: Seq<Seq<Seq<char>>>,
    closed: Seq<Seq<Seq<char>>>,
    roots: Seq<Seq<char>>,
    nodes: Seq<Node>,
    n: nat,
)
    ensures
        planned(rules, skip, closed, roots, nodes, n).seeds.len() == n,
    decreases n,
{
    if n > 0 {
        lemma_planned_len(rules, skip, closed, roots, nodes, (n - 1) as nat);
    }
}

/// Walks every root once, charging each byte to at most one rule. What was
/// measured is what the rules claim and what no rule claims.
pub fn sweep(roots: &Vec<Root>, rules: &Vec<Rule>, nodes: &Vec<Node>) -> (r: Sweep)
    requires
        nodes@.len() == roots@.len(),
        weight_all(nodes@) <= u64::MAX,
        headcount_all(nodes@) <= usize::MAX,
    ensures
        exists|said: Seq<Event>, seeds: Seq<RootSeed>, results: Seq<JobResult>| #[trigger]
            sweeps(
                said,
                Some(r),
                roots@,
                rules@,
                Seq::empty(),
                nodes@,
                Seq::empty(),
                seeds,
                results,
            ),
        r.fits(),
        r.roots@.len() == roots@.len(),
        r.rule_sizes@.len() == rules@.len(),
        sum_of(r.roots@, sweep::usage_total()) == total_of(ints(r.rule_sizes@)) + sum_of(
            r.roots@,
            sweep::usage_unattributed(),
        ),
{
    let closed: Vec<String> = Vec::new();
    assert(texts(closed@) =~= Seq::<Seq<char>>::empty());
    sweep_unattended(roots, rules, &closed, nodes)
}

/// The number and the refusals that a root is reported done with are the ones it
/// ends up with, whatever comes in later for other roots.
pub proof fn law_a_done_root_is_final(
    s: Standing,
    seeds: Seq<RootSeed>,
    left: Seq<JobView>,
    done: Seq<JobResult>,
    later: Seq<JobResult>,
    k: int,
    root: Root,
    u: RootUsage,
)
    requires
        tracks(s, seeds, left, done),
        0 <= k < seeds.len(),
        forall|i: int| 0 <= i < later.len() ==> (#[trigger] later[i]).root != k,
        u.adds_up(root, seeds[k], of_root(done + later, k)),
    ensures
        u.total == s.bytes[k],
        u.denials == s.denials[k],
{
    let mine = |r: JobResult| r.root == k;
    Seq::filter_distributes_over_add(done, later, mine);
    assert(later.filter(mine) =~= Seq::<JobResult>::empty()) by {
        later.lemma_all_neg_filter_empty(mine);
    }
    assert(of_root(done + later, k) =~= of_root(done, k));
    let whole = seeds[k].unreadable@ + all_unreadable(of_root(done, k));
    assert(s.bytes[k] == seeds[k].loose_bytes + sum_of(of_root(done, k), job_bytes()));
    assert(s.denials[k].counts(whole));
    lemma_counted(s.denials[k], whole);
    lemma_counted(u.denials, whole);
}

/// A root's running total only grows.
pub proof fn law_a_running_total_only_grows(s: Standing, r: JobResult, k: int)
    requires
        0 <= k < s.bytes.len(),
        r.root < s.bytes.len(),
        s.bytes[r.root as int] + r.total <= u64::MAX,
    ensures
        s.bytes[k] <= advanced(s, r).bytes[k],
{
}

/// How often a root is reported done.
pub open spec fn dones(said: Seq<Event>, k: int) -> nat
    decreases said.len(),
{
    if said.len() == 0 {
        0
    } else {
        dones(said.drop_last(), k) + (match said.last() {
            Event::RootDone { root, .. } if root == k => 1nat,
            _ => 0nat,
        })
    }
}

proof fn lemma_dones_concat(a: Seq<Event>, b: Seq<Event>, k: int)
    ensures
        dones(a + b, k) == dones(a, k) + dones(b, k),
    decreases b.len(),
{
    if b.len() == 0 {
        assert(a + b =~= a);
    } else {
        lemma_dones_concat(a, b.drop_last(), k);
        assert((a + b).drop_last() =~= a + b.drop_last());
    }
}

proof fn lemma_dones_idle(s: Standing, n: nat, k: int)
    requires
        0 <= k,
    ensures
        dones(idle_events(s, n), k) == (if k < n && s.pending[k] == 0 {
            1nat
        } else {
            0
        }),
    decreases n,
{
    if n > 0 {
        lemma_dones_idle(s, (n - 1) as nat, k);
        let before = idle_events(s, (n - 1) as nat);
        assert(before.push(done_event(s, n - 1)).drop_last() =~= before);
    }
}

/// The results come from the jobs, the last of the list first.
pub open spec fn from_jobs(results: Seq<JobResult>, jobs: Seq<JobView>, roots: int) -> bool {
    &&& results.len() <= jobs.len()
    &&& forall|i: int|
        0 <= i < results.len() ==> (#[trigger] results[i]).root == jobs[jobs.len() - 1 - i].root
            && results[i].root < roots
}

proof fn lemma_pending(seeds: Seq<RootSeed>, jobs: Seq<JobView>, results: Seq<JobResult>, k: int)
    requires
        jobs.len() <= usize::MAX,
        from_jobs(results, jobs, seeds.len() as int),
        0 <= k < seeds.len(),
    ensures
        standing_after(first_standing(seeds, jobs), results).pending.len() == seeds.len(),
        standing_after(first_standing(seeds, jobs), results).pending[k] == jobs_of(
            jobs.take(jobs.len() - results.len()),
            k,
        ),
    decreases results.len(),
{
    let n = results.len() as int;
    if n == 0 {
        assert(jobs.take(jobs.len() as int) =~= jobs);
        lemma_jobs_of_bound(jobs, k);
    } else {
        let rest = results.drop_last();
        assert forall|i: int| 0 <= i < rest.len() implies (#[trigger] rest[i]).root
            == jobs[jobs.len() - 1 - i].root && rest[i].root < seeds.len() by {
            assert(results[i].root < seeds.len());
        }
        lemma_pending(seeds, jobs, rest, k);
        let left = jobs.take(jobs.len() - n + 1);
        assert(left.drop_last() =~= jobs.take(jobs.len() - n));
        assert(results[n - 1].root == jobs[jobs.len() - n].root);
        lemma_jobs_of_bound(left, k);
    }
}

/// While a sweep runs, a root has been reported done once if nothing is left to
/// do for it, and otherwise not at all; so in a full run every root is reported
/// done exactly once.
pub proof fn law_each_root_is_done_once(
    roots: Seq<Root>,
    seeds: Seq<RootSeed>,
    jobs: Seq<JobView>,
    results: Seq<JobResult>,
    k: int,
)
    requires
        seeds.len() == roots.len(),
        jobs.len() <= usize::MAX,
        from_jobs(results, jobs, seeds.len() as int),
        0 <= k < roots.len(),
    ensures
        dones(told(roots, first_standing(seeds, jobs), results), k) == (if jobs_of(
            jobs.take(jobs.len() - results.len()),
            k,
        ) == 0 {
            1nat
        } else {
            0
        }),
        results.len() == jobs.len() ==> dones(told(roots, first_standing(seeds, jobs), results), k)
            == 1,
    decreases results.len(),
{
    let first = first_standing(seeds, jobs);
    let n = results.len() as int;
    lemma_pending(seeds, jobs, results, k);
    if n == 0 {
        let started = seq![Event::Started { roots: root_rows(roots), jobs: first.remaining }];
        lemma_dones_concat(started, idle_events(first, roots.len()), k);
        lemma_dones_idle(first, roots.len(), k);
        assert(started.drop_last() =~= Seq::<Event>::empty());
        assert(dones(started.drop_last(), k) == 0);
        assert(dones(started, k) == 0);
    } else {
        let rest = results.drop_last();
        assert forall|i: int| 0 <= i < rest.len() implies (#[trigger] rest[i]).root
            == jobs[jobs.len() - 1 - i].root && rest[i].root < seeds.len() by {
            assert(results[i].root < seeds.len());
        }
        law_each_root_is_done_once(roots, seeds, jobs, rest, k);
        let s = standing_after(first, results);
        let more = result_events(s, results.last());
        lemma_dones_concat(told(roots, first, rest), more, k);
        let left = jobs.take(jobs.len() - n + 1);
        assert(left.drop_last() =~= jobs.take(jobs.len() - n));
        assert(results[n - 1].root == jobs[jobs.len() - n].root);
        reveal_with_fuel(dones, 3);
        assert(more.drop_last().len() <= 1);
        if more.len() == 2 {
            assert(more.drop_last().drop_last() =~= Seq::<Event>::empty());
        } else {
            assert(more.drop_last() =~= Seq::<Event>::empty());
        }
        lemma_pending(seeds, jobs, results, results.last().root as int);
    }
    if results.len() == jobs.len() {
        assert(jobs.take(0) =~= Seq::<JobView>::empty());
    }
}

/// How many children are reported scanned.
pub open spec fn scans(said: Seq<Event>) -> nat
    decreases said.len(),
{
    if said.len() == 0 {
        0
    } else {
        scans(said.drop_last()) + (if said.last() is Scanned {
            1nat
        } else {
            0nat
        })
    }
}

/// The root that an event reports done, where it reports one.
pub open spec fn done_root(e: Event) -> Option<int> {
    match e {
        Event::RootDone { root, .. } => Some(root),
        _ => None,
    }
}

/// The root that an event reports a child of, where it reports one.
pub open spec fn scanned_root(e: Event) -> Option<int> {
    match e {
        Event::Scanned { root, .. } => Some(root),
        _ => None,
    }
}

/// No root is reported done twice, none is scanned after it was reported done, and no
/// running total falls.
pub open spec fn in_step(said: Seq<Event>) -> bool {
    &&& forall|i: int, j: int|
        0 <= i < j < said.len() && done_root(#[trigger] said[i]) is Some ==> done_root(
            #[trigger] said[j],
        ) != done_root(said[i]) && scanned_root(said[j]) != done_root(said[i])
    &&& forall|i: int, j: int|
        0 <= i < j < said.len() && scanned_root(#[trigger] said[i]) is Some && scanned_root(
            #[trigger] said[j],
        ) == scanned_root(said[i]) ==> said[i]->root_bytes <= said[j]->root_bytes
}

/// A root is reported done with what it ends up with.
pub open spec fn is_reported(said: Seq<Event>, root: int, u: RootUsage) -> bool {
    exists|i: int|
        0 <= i < said.len() && #[trigger] said[i] == (Event::RootDone {
            root,
            denials: u.denials,
            bytes: u.total as int,
        })
}

/// The answer to an event is to stop.
pub open spec fn is_stop(answers: Seq<Flow>, i: int) -> bool {
    i < answers.len() && answers[i] == Flow::Cancel
}

/// What a run says from beginning to end. It begins with the roots. It ends with the
/// first event that is answered by a stop, and a sweep comes of it where none is. Then as
/// many children were scanned as there were jobs, and every root was reported done: once,
/// with its final number and refusals, and after the last of its children.
pub open spec fn is_run(
    said: Seq<Event>,
    outcome: Option<Sweep>,
    roots: Seq<Root>,
    answers: Seq<Flow>,
) -> bool {
    &&& said.len() > 0
    &&& said[0] matches Event::Started { roots: rows, jobs } && rows == root_rows(roots)
    &&& forall|i: int| 0 <= i < said.len() - 1 ==> !#[trigger] is_stop(answers, i)
    &&& outcome is None <==> is_stop(answers, said.len() - 1)
    &&& outcome matches Some(s) ==> {
        &&& s.roots@.len() == roots.len()
        &&& in_step(said)
        &&& scans(said) == said[0]->jobs
        &&& forall|k: int| 0 <= k < roots.len() ==> is_reported(said, k, #[trigger] s.roots@[k])
    }
}

/// What was said so far is in step with where the sweep stands.
spec fn keeps_step(said: Seq<Event>, s: Standing, n: nat) -> bool {
    &&& in_step(said)
    &&& said.len() > 0
    &&& said[0] is Started
    &&& scans(said) + s.remaining == said[0]->jobs
    &&& forall|i: int|
        0 <= i < said.len() ==> match #[trigger] said[i] {
            Event::RootDone { root, .. } => 0 <= root < n && s.pending[root] == 0,
            Event::Scanned { root, root_bytes, .. } => 0 <= root < n && root_bytes
                <= s.bytes[root],
            _ => true,
        }
    &&& forall|k: int|
        0 <= k < n && #[trigger] s.pending[k] == 0 ==> said.contains(done_event(s, k))
}

proof fn lemma_scans_concat(a: Seq<Event>, b: Seq<Event>)
    ensures
        scans(a + b) == scans(a) + scans(b),
    decreases b.len(),
{
    if b.len() == 0 {
        assert(a + b =~= a);
    } else {
        lemma_scans_concat(a, b.drop_last());
        assert((a + b).drop_last() =~= a + b.drop_last());
    }
}

proof fn lemma_idle_events(s: Standing, n: nat)
    ensures
        scans(idle_events(s, n)) == 0,
        in_step(idle_events(s, n)),
        forall|i: int|
            0 <= i < idle_events(s, n).len() ==> match #[trigger] idle_events(s, n)[i] {
                Event::RootDone { root, .. } => 0 <= root < n && s.pending[root] == 0,
                _ => false,
            },
        forall|k: int|
            0 <= k < n && #[trigger] s.pending[k] == 0 ==> idle_events(s, n).contains(
                done_event(s, k),
            ),
    decreases n,
{
    if n > 0 {
        let m = (n - 1) as nat;
        lemma_idle_events(s, m);
        let before = idle_events(s, m);
        let now = idle_events(s, n);
        if s.pending[n - 1] == 0 {
            assert(now.drop_last() =~= before);
            assert(now[before.len() as int] == done_event(s, n - 1));
        }
        assert forall|k: int| 0 <= k < n && #[trigger] s.pending[k] == 0 implies now.contains(
            done_event(s, k),
        ) by {
            if k < m {
                assert(before.contains(done_event(s, k)));
                let i = choose|i: int| 0 <= i < before.len() && before[i] == done_event(s, k);
                assert(now[i] == done_event(s, k));
            }
        }
    }
}

proof fn lemma_opening_in_step(roots: Seq<Root>, s: Standing)
    requires
        s.pending.len() == roots.len(),
    ensures
        keeps_step(opening_events(roots, s), s, roots.len()),
{
    let started = seq![Event::Started { roots: root_rows(roots), jobs: s.remaining }];
    let idle = idle_events(s, roots.len());
    let said = opening_events(roots, s);
    lemma_idle_events(s, roots.len());
    lemma_scans_concat(started, idle);
    assert(started.drop_last() =~= Seq::<Event>::empty());
    assert(scans(started.drop_last()) == 0);
    assert forall|i: int| 0 < i < said.len() implies #[trigger] said[i] == idle[i - 1] by {}
    assert forall|k: int| 0 <= k < roots.len() && #[trigger] s.pending[k] == 0 implies said.contains(
        done_event(s, k),
    ) by {
        assert(idle.contains(done_event(s, k)));
        let i = choose|i: int| 0 <= i < idle.len() && idle[i] == done_event(s, k);
        assert(said[i + 1] == done_event(s, k));
    }
}

proof fn lemma_result_in_step(said: Seq<Event>, s: Standing, r: JobResult, n: nat)
    requires
        keeps_step(said, s, n),
        r.root < n,
        s.bytes.len() == n,
        s.denials.len() == n,
        s.pending.len() == n,
        s.pending[r.root as int] > 0,
        s.bytes[r.root as int] + r.total <= u64::MAX,
    ensures
        keeps_step(said + result_events(advanced(s, r), r), advanced(s, r), n),
{
    let k = r.root as int;
    let next = advanced(s, r);
    let more = result_events(next, r);
    let now = said + more;
    let m = said.len() as int;
    lemma_scans_concat(said, more);
    reveal_with_fuel(scans, 3);
    if more.len() == 2 {
        assert(more.drop_last().drop_last() =~= Seq::<Event>::empty());
    } else {
        assert(more.drop_last() =~= Seq::<Event>::empty());
    }
    assert(scans(more) == 1);
    assert(now[m] == more[0]);
    assert forall|i: int| 0 <= i < m implies #[trigger] now[i] == said[i] && done_root(said[i])
        != Some(k) by {}
    assert forall|q: int| 0 <= q < n && #[trigger] next.pending[q] == 0 implies now.contains(
        done_event(next, q),
    ) by {
        if q == k {
            assert(now[m + 1] == done_event(next, k));
        } else {
            assert(s.pending[q] == 0);
            assert(said.contains(done_event(s, q)));
            let i = choose|i: int| 0 <= i < said.len() && said[i] == done_event(s, q);
            assert(now[i] == done_event(next, q));
        }
    }
    assert(in_step(now)) by {
        assert forall|i: int, j: int|
            0 <= i < j < now.len() && done_root(#[trigger] now[i]) is Some implies done_root(
            #[trigger] now[j],
        ) != done_root(now[i]) && scanned_root(now[j]) != done_root(now[i]) by {
            if j < m {
                assert(done_root(said[i]) is Some && said[j] == now[j]);
            }
        }
        assert forall|i: int, j: int|
            0 <= i < j < now.len() && scanned_root(#[trigger] now[i]) is Some && scanned_root(
                #[trigger] now[j],
            ) == scanned_root(now[i]) implies now[i]->root_bytes <= now[j]->root_bytes by {
            if j < m {
                assert(said[i] == now[i] && said[j] == now[j]);
            } else {
                assert(i < m && j == m);
                assert(said[i] == now[i]);
            }
        }
    }
}

/// The first stop is the first.
proof fn lemma_first_cancel(answers: Seq<Flow>, n: nat)
    ensures
        match first_cancel(answers, n) {
            None => forall|i: int| 0 <= i < n ==> !#[trigger] is_stop(answers, i),
            Some(k) => 0 <= k < n && is_stop(answers, k) && forall|i: int|
                0 <= i < k ==> !#[trigger] is_stop(answers, i),
        },
    decreases n,
{
    if n > 0 {
        lemma_first_cancel(answers, (n - 1) as nat);
    }
}

proof fn lemma_told_starts(roots: Seq<Root>, s: Standing, results: Seq<JobResult>)
    ensures
        told(roots, s, results).len() > 0,
        told(roots, s, results)[0] == (Event::Started {
            roots: root_rows(roots),
            jobs: s.remaining,
        }),
    decreases results.len(),
{
    if results.len() > 0 {
        lemma_told_starts(roots, s, results.drop_last());
    }
}

/// A run that the caller stopped says nothing after that.
proof fn lemma_stopped_run(
    roots: Seq<Root>,
    s: Standing,
    results: Seq<JobResult>,
    answers: Seq<Flow>,
    said: Seq<Event>,
)
    requires
        first_cancel(answers, told(roots, s, results).len()) matches Some(i) && said == told(
            roots,
            s,
            results,
        ).take(i + 1),
    ensures
        is_run(said, None, roots, answers),
{
    lemma_told_starts(roots, s, results);
    lemma_first_cancel(answers, told(roots, s, results).len());
}

/// A run that nobody stopped says everything.
proof fn lemma_full_run(
    roots: Seq<Root>,
    rules: nat,
    seeds: Seq<RootSeed>,
    jobs: Seq<JobView>,
    results: Seq<JobResult>,
    answers: Seq<Flow>,
    said: Seq<Event>,
    swept: Sweep,
)
    requires
        seeds.len() == roots.len(),
        said == told(roots, first_standing(seeds, jobs), results),
        first_cancel(answers, said.len()) is None,
        swept.adds_up(roots, rules, seeds, results),
        tracks(
            standing_after(first_standing(seeds, jobs), results),
            seeds,
            Seq::empty(),
            results,
        ),
        keeps_step(said, standing_after(first_standing(seeds, jobs), results), roots.len()),
    ensures
        is_run(said, Some(swept), roots, answers),
{
    let first = first_standing(seeds, jobs);
    let s = standing_after(first, results);
    lemma_told_starts(roots, first, results);
    lemma_first_cancel(answers, said.len());
    assert forall|k: int| 0 <= k < roots.len() implies is_reported(
        said,
        k,
        #[trigger] swept.roots@[k],
    ) by {
        let u = swept.roots@[k];
        let none = Seq::<JobResult>::empty();
        assert(results + none =~= results);
        law_a_done_root_is_final(s, seeds, Seq::empty(), results, none, k, roots[k], u);
        assert(s.pending[k] == 0);
        assert(said.contains(done_event(s, k)));
        let i = choose|i: int| 0 <= i < said.len() && said[i] == done_event(s, k);
        assert(said[i] == (Event::RootDone { root: k, denials: u.denials, bytes: u.total as int }));
    }
}

} // verus!
