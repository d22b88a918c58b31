//! What would not open, and how much of it is told.
use vstd::prelude::*;
use crate::disk::sweep::{
    charged, child_gaps, child_refusals, child_sizes, denial_of, planned_root, refusal_in,
    refusals, rule_at, sample, turned_away, views, walked, walked_all, Denial, Denials, Ground,
    JobResult, JobView, Listing, Node, OpenError, Root, RootSeed, RootUsage, Tally, Unreadable,
};
use crate::order;
use crate::paths;

verus! {

/// The node that is come to from another by going down by these places, one after the other.
pub open spec fn node_at(dir: Node, steps: Seq<int>) -> Node
    decreases steps.len(),
{
    match dir.listing {
        Listing::Opened(entries) if steps.len() > 0 => node_at(entries@[steps[0]], steps.drop_first()),
        _ => dir,
    }
}

/// Going down by these places, a walk opens every directory on the way: each is on its volume,
/// is no root of its own, is not to be left closed, and lists what comes next.
pub open spec fn is_open_way(g: Ground, dir: Node, steps: Seq<int>) -> bool
    decreases steps.len(),
{
    steps.len() > 0 ==> {
        &&& !g.closed.contains(paths::components(dir.path@))
        &&& dir.listing matches Listing::Opened(entries)
        &&& 0 <= steps[0] < entries@.len()
        &&& entries@[steps[0]].meta matches Ok(m)
        &&& m.dev == g.dev
        &&& m.is_dir
        &&& !g.skip.contains(paths::components(entries@[steps[0]].path@))
        &&& is_open_way(g, entries@[steps[0]], steps.drop_first())
    }
}

proof fn lemma_kept(g: Ground, dir: Node, rule: Option<int>, t: Tally, x: (Seq<char>, Denial))
    requires
        t.refused.contains(x),
    ensures
        walked(g, dir, rule, t).refused.contains(x),
    decreases dir,
{
    let own = match dir.meta {
        Ok(m) => charged(t, m, rule),
        Err(_) => t,
    };
    assert(own.refused == t.refused);
    let i = choose|i: int| 0 <= i < t.refused.len() && t.refused[i] == x;
    if g.closed.contains(paths::components(dir.path@)) {
        assert(turned_away(own, dir.path@, Denial::Unattended).refused[i] == x);
    } else {
        match dir.listing {
            Listing::Refused(e) => {
                assert(turned_away(own, dir.path@, denial_of(e.errno)).refused[i] == x);
            },
            Listing::Opened(entries) => {
                lemma_kept_all(g, entries@, rule, own, x);
            },
        }
    }
}

proof fn lemma_kept_all(
    g: Ground,
    entries: Seq<Node>,
    rule: Option<int>,
    t: Tally,
    x: (Seq<char>, Denial),
)
    requires
        t.refused.contains(x),
    ensures
        walked_all(g, entries, rule, t).refused.contains(x),
    decreases entries,
{
    if entries.len() > 0 {
        lemma_kept_all(g, entries.drop_last(), rule, t, x);
        lemma_kept_last(g, entries, rule, t, x);
    }
}

proof fn lemma_kept_last(
    g: Ground,
    entries: Seq<Node>,
    rule: Option<int>,
    t: Tally,
    x: (Seq<char>, Denial),
)
    requires
        entries.len() > 0,
        walked_all(g, entries.drop_last(), rule, t).refused.contains(x),
    ensures
        walked_all(g, entries, rule, t).refused.contains(x),
    decreases entries, 0int,
{
    let before = walked_all(g, entries.drop_last(), rule, t);
    let e = entries.last();
    if let Ok(m) = e.meta {
        if m.dev == g.dev && m.is_dir && !g.skip.contains(paths::components(e.path@)) {
            assert(decreases_to!(entries => entries[entries.len() - 1]));
            lemma_kept(g, e, rule_at(g.rules, e.path@, rule), before, x);
        }
    }
}

proof fn lemma_found(
    g: Ground,
    dir: Node,
    steps: Seq<int>,
    rule: Option<int>,
    t: Tally,
    x: (Seq<char>, Denial),
)
    requires
        is_open_way(g, dir, steps),
        is_turned_away(g, node_at(dir, steps), x),
    ensures
        walked(g, dir, rule, t).refused.contains(x),
    decreases steps.len(), 0nat,
{
    let own = match dir.meta {
        Ok(m) => charged(t, m, rule),
        Err(_) => t,
    };
    if steps.len() == 0 {
        let n = own.refused.len() as int;
        assert(walked(g, dir, rule, t).refused[n] == x);
    } else if let Listing::Opened(entries) = dir.listing {
        lemma_found_all(g, entries@, steps, rule, own, x);
    }
}

proof fn lemma_found_all(
    g: Ground,
    entries: Seq<Node>,
    steps: Seq<int>,
    rule: Option<int>,
    t: Tally,
    x: (Seq<char>, Denial),
)
    requires
        steps.len() > 0,
        0 <= steps[0] < entries.len(),
        entries[steps[0]].meta matches Ok(m) && m.dev == g.dev && m.is_dir,
        !g.skip.contains(paths::components(entries[steps[0]].path@)),
        is_open_way(g, entries[steps[0]], steps.drop_first()),
        is_turned_away(g, node_at(entries[steps[0]], steps.drop_first()), x),
    ensures
        walked_all(g, entries, rule, t).refused.contains(x),
    decreases steps.len() - 1, entries.len(),
{
    let front = entries.drop_last();
    let before = walked_all(g, front, rule, t);
    let e = entries.last();
    if steps[0] == entries.len() - 1 {
        lemma_found(g, e, steps.drop_first(), rule_at(g.rules, e.path@, rule), before, x);
    } else {
        assert(front[steps[0]] == entries[steps[0]]);
        lemma_found_all(g, front, steps, rule, t, x);
        lemma_kept_last(g, entries, rule, t, x);
    }
}

/// A directory is told as one that would not open, and why: it was to be left closed, or it was
/// refused, by the policy on privacy where the error is the one for that and else by ordinary
/// permissions.
pub open spec fn is_turned_away(g: Ground, dir: Node, x: (Seq<char>, Denial)) -> bool {
    &&& x.0 == dir.path@
    &&& if g.closed.contains(paths::components(dir.path@)) {
        x.1 == Denial::Unattended
    } else {
        dir.listing matches Listing::Refused(e) && x.1 == (if e.errno is Some && e.errno->0 == 1 {
            Denial::Protected
        } else {
            Denial::Forbidden
        })
    }
}

/// Every directory that a walk comes by and that would not open is recorded with the reason,
/// however deep it lies.
pub proof fn law_what_would_not_open_is_recorded(
    g: Ground,
    dir: Node,
    steps: Seq<int>,
    rule: Option<int>,
    t: Tally,
    x: (Seq<char>, Denial),
)
    requires
        is_open_way(g, dir, steps),
        is_turned_away(g, node_at(dir, steps), x),
    ensures
        walked(g, dir, rule, t).refused.contains(x),
{
    lemma_found(g, dir, steps, rule, t, x);
}

proof fn lemma_from(
    g: Ground,
    dir: Node,
    rule: Option<int>,
    t: Tally,
    x: (Seq<char>, Denial),
) -> (steps: Seq<int>)
    requires
        walked(g, dir, rule, t).refused.contains(x),
        !t.refused.contains(x),
    ensures
        is_open_way(g, dir, steps),
        is_turned_away(g, node_at(dir, steps), x),
    decreases dir,
{
    let own = match dir.meta {
        Ok(m) => charged(t, m, rule),
        Err(_) => t,
    };
    assert(own.refused == t.refused);
    let all = walked(g, dir, rule, t).refused;
    let i = choose|i: int| 0 <= i < all.len() && all[i] == x;
    let none = Seq::<int>::empty();
    if g.closed.contains(paths::components(dir.path@)) {
        if i < t.refused.len() {
            assert(t.refused[i] == x);
        }
        none
    } else {
        match dir.listing {
            Listing::Refused(e) => {
                if i < t.refused.len() {
                    assert(t.refused[i] == x);
                }
                none
            },
            Listing::Opened(entries) => {
                let (k, rest) = lemma_from_all(g, entries@, rule, own, x);
                let steps = seq![k] + rest;
                assert(steps.drop_first() =~= rest);
                steps
            },
        }
    }
}

proof fn lemma_from_all(
    g: Ground,
    entries: Seq<Node>,
    rule: Option<int>,
    t: Tally,
    x: (Seq<char>, Denial),
) -> (r: (int, Seq<int>))
    requires
        walked_all(g, entries, rule, t).refused.contains(x),
        !t.refused.contains(x),
    ensures
        0 <= r.0 < entries.len(),
        entries[r.0].meta matches Ok(m) && m.dev == g.dev && m.is_dir,
        !g.skip.contains(paths::components(entries[r.0].path@)),
        is_open_way(g, entries[r.0], r.1),
        is_turned_away(g, node_at(entries[r.0], r.1), x),
    decreases entries,
{
    let before = walked_all(g, entries.drop_last(), rule, t);
    let e = entries.last();
    assert(entries.len() > 0);
    if before.refused.contains(x) {
        lemma_from_all(g, entries.drop_last(), rule, t, x)
    } else {
        let last = entries.len() - 1;
        assert(decreases_to!(entries => entries[last]));
        let rest = lemma_from(g, e, rule_at(g.rules, e.path@, rule), before, x);
        (last, rest)
    }
}

/// Nothing is recorded as one that would not open but a directory that a walk comes by and that
/// would not.
pub proof fn law_nothing_else_is_recorded(
    g: Ground,
    dir: Node,
    rule: Option<int>,
    t: Tally,
    x: (Seq<char>, Denial),
)
    requires
        walked(g, dir, rule, t).refused.contains(x),
    ensures
        t.refused.contains(x) || exists|steps: Seq<int>| #[trigger]
            is_open_way(g, dir, steps) && is_turned_away(g, node_at(dir, steps), x),
{
    if !t.refused.contains(x) {
        let steps = lemma_from(g, dir, rule, t, x);
        assert(is_open_way(g, dir, steps) && is_turned_away(g, node_at(dir, steps), x));
    }
}

/// The sample that is kept begins with all of the root's own and goes on with what lies deeper,
/// in order, up to twenty in all; where there are no more than that nothing is left out.
pub proof fn law_the_sample_is_cut_only_where_it_is_long(
    own: Seq<Unreadable>,
    more: Seq<Unreadable>,
)
    ensures
        sample(own, more).is_prefix_of(own + more),
        own.is_prefix_of(sample(own, more)),
        own.len() + more.len() <= 20 ==> sample(own, more) == own + more,
        own.len() <= 20 <= own.len() + more.len() ==> sample(own, more).len() == 20,
{
    let all = own + more;
    let s = sample(own, more);
    assert(s =~= all.subrange(0, s.len() as int));
    assert(own =~= s.subrange(0, own.len() as int));
    assert(own.len() + more.len() <= 20 ==> s =~= all);
}

/// Every directory right below a root that was walked is listed with what it holds, the largest
/// first; where some of that is no rule's it is listed with that too, and where the directory
/// itself would not open it is listed as refused.
pub proof fn law_every_child_of_a_root_is_listed(
    u: RootUsage,
    root: Root,
    seed: RootSeed,
    mine: Seq<JobResult>,
    i: int,
)
    requires
        u.adds_up(root, seed, mine),
        0 <= i < mine.len(),
    ensures
        u.children@.contains((mine[i].path, mine[i].total)),
        mine[i].unattributed > 0 ==> u.unattributed@.contains(
            (mine[i].path, mine[i].unattributed),
        ),
        mine[i].refused is Some ==> views(u.refused_children@).contains(
            (mine[i].path@, mine[i].refused->0),
        ),
        u.children@.len() == mine.len(),
        forall|a: int, b: int|
            0 <= a < b < u.children@.len() ==> (#[trigger] u.children@[a]).1 >= (
            #[trigger] u.children@[b]).1,
        forall|a: int, b: int|
            0 <= a < b < u.unattributed@.len() ==> (#[trigger] u.unattributed@[a]).1 >= (
            #[trigger] u.unattributed@[b]).1,
{
    broadcast use vstd::seq_lib::group_to_multiset_ensures, vstd::seq_lib::group_filter_ensures;

    let sizes = child_sizes(mine);
    let gaps = child_gaps(mine);
    order::lemma_sorted_ordered(sizes);
    order::lemma_sorted_multiset(sizes);
    order::lemma_sorted_ordered(gaps);
    order::lemma_sorted_multiset(gaps);
    assert(sizes[i] == (mine[i].path, mine[i].total));
    assert(sizes.to_multiset().count(sizes[i]) > 0);
    assert(mine.contains(mine[i]));
    if mine[i].unattributed > 0 {
        let p = |r: JobResult| r.unattributed > 0;
        assert(p(mine[i]));
        let some = mine.filter(p);
        assert(some.contains(mine[i]));
        let k = choose|k: int| 0 <= k < some.len() && some[k] == mine[i];
        assert(gaps[k] == (mine[i].path, mine[i].unattributed));
        assert(gaps.to_multiset().count(gaps[k]) > 0);
    }
    if mine[i].refused is Some {
        let p = |r: JobResult| r.refused is Some;
        assert(p(mine[i]));
        let some = mine.filter(p);
        assert(some.contains(mine[i]));
        let k = choose|k: int| 0 <= k < some.len() && some[k] == mine[i];
        assert(child_refusals(mine)[k] == (mine[i].path@, mine[i].refused->0));
    }
    let c = u.children@;
    assert forall|a: int, b: int| 0 <= a < b < c.len() implies (#[trigger] c[a]).1 >= (
    #[trigger] c[b]).1 by {
        assert(order::Ranked::le(&c[a], &c[b]));
    }
    let n = u.unattributed@;
    assert forall|a: int, b: int| 0 <= a < b < n.len() implies (#[trigger] n[a]).1 >= (
    #[trigger] n[b]).1 by {
        assert(order::Ranked::le(&n[a], &n[b]));
    }
}

/// A root that is to be left closed is recorded so, and one that was refused is recorded with the
/// reason, while one that is gone, or is no directory, holds nothing; none of them is walked.
pub proof fn law_a_root_that_would_not_open_is_recorded(
    rules: Seq<Seq<Seq<char>>>,
    skip: Seq<Seq<Seq<char>>>,
    closed: Seq<Seq<Seq<char>>>,
    root: int,
    path: Seq<char>,
    node: Node,
    seen: Set<(u64, u64)>,
    jobs: Seq<JobView>,
)
    ensures
        ({
            let (t, after) = planned_root(rules, skip, closed, root, path, node, seen, jobs);
            let failed = |e: OpenError|
                if !e.permission_denied {
                    Seq::empty()
                } else if e.errno is Some && e.errno->0 == 1 {
                    seq![(path, Denial::Protected)]
                } else {
                    seq![(path, Denial::Forbidden)]
                };
            match node.meta {
                Err(e) => t.refused == failed(e) && t.bytes == 0 && after == jobs,
                Ok(_) => if closed.contains(paths::components(path)) {
                    t.refused == seq![(path, Denial::Unattended)] && t.bytes == 0 && after == jobs
                } else {
                    node.listing matches Listing::Refused(e) ==> t.refused == failed(e) && t.bytes
                        == 0 && after == jobs
                },
            }
        }),
{
    let none = Seq::<(Seq<char>, Denial)>::empty();
    assert(none.push((path, Denial::Unattended)) =~= seq![(path, Denial::Unattended)]);
    assert(none.push((path, Denial::Protected)) =~= seq![(path, Denial::Protected)]);
    assert(none.push((path, Denial::Forbidden)) =~= seq![(path, Denial::Forbidden)]);
}

/// The reason told for a path is the first that was recorded for it, and there is none exactly
/// where none was.
pub proof fn law_the_reason_told_is_the_first_recorded(
    refused: Seq<(Seq<char>, Denial)>,
    path: Seq<char>,
)
    ensures
        match refusal_in(refused, path) {
            Some(d) => exists|k: int|
                {
                    &&& 0 <= k < refused.len()
                    &&& (#[trigger] refused[k]).1 == d
                    &&& paths::components(refused[k].0) == paths::components(path)
                    &&& forall|i: int|
                        0 <= i < k ==> paths::components((#[trigger] refused[i]).0)
                            != paths::components(path)
                },
            None => forall|i: int|
                0 <= i < refused.len() ==> paths::components((#[trigger] refused[i]).0)
                    != paths::components(path),
        },
    decreases refused.len(),
{
    if refused.len() > 0 {
        let before = refused.drop_last();
        let last = refused.len() - 1;
        law_the_reason_told_is_the_first_recorded(before, path);
        assert forall|i: int| 0 <= i < before.len() implies before[i] == #[trigger] refused[i] by {}
        assert(refused[last] == refused.last());
        match refusal_in(before, path) {
            Some(d) => {
                let k = choose|k: int|
                    {
                        &&& 0 <= k < before.len()
                        &&& (#[trigger] before[k]).1 == d
                        &&& paths::components(before[k].0) == paths::components(path)
                        &&& forall|i: int|
                            0 <= i < k ==> paths::components((#[trigger] before[i]).0)
                                != paths::components(path)
                    };
                assert(refused[k].1 == d);
                assert forall|i: int| 0 <= i < k implies paths::components(
                    (#[trigger] refused[i]).0,
                ) != paths::components(path) by {
                    assert(paths::components(before[i].0) != paths::components(path));
                }
            },
            None => {
                assert forall|i: int| 0 <= i < last implies paths::components(
                    (#[trigger] refused[i]).0,
                ) != paths::components(path) by {
                    assert(paths::components(before[i].0) != paths::components(path));
                }
            },
        }
    }
}

/// Each directory that would not open is counted once, under its own reason.
pub proof fn law_each_refusal_is_counted_once(
    entries: Seq<Unreadable>,
    u: Unreadable,
    denial: Denial,
    d: Denials,
)
    ensures
        refusals(entries.push(u), denial) == refusals(entries, denial) + (if u.denial == denial {
            1nat
        } else {
            0nat
        }),
        refusals(Seq::empty(), denial) == 0,
        d.counts(entries) ==> d.protected == refusals(entries, Denial::Protected) && d.forbidden
            == refusals(entries, Denial::Forbidden) && d.unattended == refusals(
            entries,
            Denial::Unattended,
        ),
{
    reveal(Seq::filter);
    entries.lemma_filter_push(u, |e: Unreadable| e.denial == denial);
    if d.counts(entries) {
        assert(d.count(Denial::Protected) == refusals(entries, Denial::Protected));
        assert(d.count(Denial::Forbidden) == refusals(entries, Denial::Forbidden));
        assert(d.count(Denial::Unattended) == refusals(entries, Denial::Unattended));
    }
}

} // verus!
