//! Whose bytes are whose: what a walk meets, and which rule each of it goes to.
use vstd::prelude::*;
use crate::disk::progress::{ran, sweeps, Event, Flow};
use crate::disk::sweep::{
    charge_of, charged, enumerated, fresh, ints, job_node, job_rule, of_roots, planned,
    planned_root, root_paths, rule_at, rule_paths, rule_total, seed_rule, total_of, walked,
    walked_all, weight, weight_all, Ground, JobResult, JobView, Listing, Meta, Node, Root,
    RootSeed, Rule, Sweep, Tally,
};
use crate::order;
use crate::order::sum_of;
use crate::paths;

verus! {

/// Something that a walk charges: what the file system says of it, and the paths that lead to
/// it from where the walk began, its own the last.
pub ghost struct Charge {
    pub chain: Seq<Seq<char>>,
    pub meta: Meta,
}

/// What a walk of a directory charges, in order, whatever the rules are.
pub open spec fn met(g: Ground, dir: Node, chain: Seq<Seq<char>>) -> Seq<Charge>
    decreases dir,
{
    let own = match dir.meta {
        Ok(meta) => seq![Charge { chain, meta }],
        Err(_) => Seq::empty(),
    };
    if g.closed.contains(paths::components(dir.path@)) {
        own
    } else {
        match dir.listing {
            Listing::Refused(_) => own,
            Listing::Opened(entries) => own + met_all(g, entries@, chain),
        }
    }
}

/// What a walk of the entries of a directory charges.
pub open spec fn met_all(g: Ground, entries: Seq<Node>, chain: Seq<Seq<char>>) -> Seq<Charge>
    decreases entries,
{
    if entries.len() == 0 {
        Seq::empty()
    } else {
        let before = met_all(g, entries.drop_last(), chain);
        let e = entries.last();
        let there = chain.push(e.path@);
        match e.meta {
            Err(_) => before,
            Ok(meta) => if meta.dev != g.dev {
                before
            } else if !meta.is_dir {
                before.push(Charge { chain: there, meta })
            } else if g.skip.contains(paths::components(e.path@)) {
                before
            } else {
                before + met(g, e, there)
            },
        }
    }
}

/// What the `k`th of the charges costs: its blocks, and nothing where it is a further name of
/// a file that was charged before.
pub open spec fn price(log: Seq<Charge>, seen: Set<(u64, u64)>, k: int) -> int {
    let m = log[k].meta;
    if m.nlink > 1 && (seen.contains((m.dev, m.ino)) || exists|j: int|
        0 <= j < k && (#[trigger] log[j]).meta.nlink > 1 && log[j].meta.dev == m.dev
            && log[j].meta.ino == m.ino) {
        0
    } else {
        m.blocks * 512
    }
}

/// The rule is the one for a path: of several for it, the last.
pub open spec fn is_for(rules: Seq<Seq<Seq<char>>>, i: int, path: Seq<char>) -> bool {
    &&& 0 <= i < rules.len()
    &&& rules[i] == paths::components(path)
    &&& forall|j: int| i < j < rules.len() ==> #[trigger] rules[j] != paths::components(path)
}

/// No rule is for any of the paths from the `k`th on.
pub open spec fn unruled(rules: Seq<Seq<Seq<char>>>, chain: Seq<Seq<char>>, k: int) -> bool {
    forall|j: int|
        k <= j < chain.len() ==> !rules.contains(paths::components(#[trigger] chain[j]))
}

/// The rule claims what lies at the end of a chain of paths: it is for one of them and no
/// other is for a later one, or it was in force where the chain begins and none is for any.
pub open spec fn claims(
    rules: Seq<Seq<Seq<char>>>,
    chain: Seq<Seq<char>>,
    start: Option<int>,
    i: int,
) -> bool {
    ||| start == Some(i) && unruled(rules, chain, 0)
    ||| exists|k: int|
        0 <= k < chain.len() && is_for(rules, i, #[trigger] chain[k]) && unruled(
            rules,
            chain,
            k + 1,
        )
}

/// What each of the charges costs.
pub open spec fn prices(log: Seq<Charge>, seen: Set<(u64, u64)>) -> Seq<int> {
    Seq::new(log.len(), |k: int| price(log, seen, k))
}

/// What each of the charges costs a rule.
pub open spec fn share(
    log: Seq<Charge>,
    seen: Set<(u64, u64)>,
    rules: Seq<Seq<Seq<char>>>,
    start: Option<int>,
    i: int,
) -> Seq<int> {
    Seq::new(
        log.len(),
        |k: int|
            if claims(rules, log[k].chain, start, i) {
                price(log, seen, k)
            } else {
                0
            },
    )
}

/// The rule that claims the end of a chain.
spec fn claimant(
    rules: Seq<Seq<Seq<char>>>,
    chain: Seq<Seq<char>>,
    start: Option<int>,
) -> Option<int>
    decreases chain.len(),
{
    if chain.len() == 0 {
        start
    } else {
        match paths::last_listed(rules, paths::components(chain.last())) {
            Some(i) => Some(i),
            None => claimant(rules, chain.drop_last(), start),
        }
    }
}

proof fn lemma_claimant(
    rules: Seq<Seq<Seq<char>>>,
    chain: Seq<Seq<char>>,
    start: Option<int>,
    i: int,
)
    ensures
        claims(rules, chain, start, i) <==> claimant(rules, chain, start) == Some(i),
    decreases chain.len(),
{
    if chain.len() > 0 {
        let n = chain.len() - 1;
        let rest = chain.drop_last();
        let c = paths::components(chain.last());
        lemma_claimant(rules, rest, start, i);
        paths::lemma_last_listed(rules, c);
        match paths::last_listed(rules, c) {
            Some(x) => {
                assert(is_for(rules, x, chain[n]));
                assert(unruled(rules, chain, n + 1));
                assert(rules.contains(paths::components(chain[n])));
                if claims(rules, chain, start, i) {
                    assert(!unruled(rules, chain, 0));
                    let k = choose|k: int|
                        0 <= k < chain.len() && is_for(rules, i, #[trigger] chain[k]) && unruled(
                            rules,
                            chain,
                            k + 1,
                        );
                    assert(k == n);
                    if i < x {
                        assert(rules[x] != c);
                    }
                    if x < i {
                        assert(rules[i] != c);
                    }
                }
            },
            None => {
                assert(!rules.contains(paths::components(chain[n])));
                assert forall|k: int| 0 <= k <= n implies #[trigger] unruled(rules, chain, k)
                    == unruled(rules, rest, k) by {
                    if unruled(rules, chain, k) {
                        assert forall|j: int| k <= j < rest.len() implies !rules.contains(
                            paths::components(#[trigger] rest[j]),
                        ) by {
                            assert(rest[j] == chain[j]);
                        }
                    }
                    if unruled(rules, rest, k) {
                        assert forall|j: int| k <= j < chain.len() implies !rules.contains(
                            paths::components(#[trigger] chain[j]),
                        ) by {
                            if j < n {
                                assert(rest[j] == chain[j]);
                            }
                        }
                    }
                }
                assert(unruled(rules, chain, 0) == unruled(rules, rest, 0));
                if exists|k: int|
                    0 <= k < chain.len() && is_for(rules, i, #[trigger] chain[k]) && unruled(
                        rules,
                        chain,
                        k + 1,
                    ) {
                    let k = choose|k: int|
                        0 <= k < chain.len() && is_for(rules, i, #[trigger] chain[k]) && unruled(
                            rules,
                            chain,
                            k + 1,
                        );
                    assert(k != n) by {
                        if k == n {
                            assert(rules[i] == c);
                        }
                    }
                    assert(rest[k] == chain[k]);
                    assert(unruled(rules, rest, k + 1) == unruled(rules, chain, k + 1));
                }
                if exists|k: int|
                    0 <= k < rest.len() && is_for(rules, i, #[trigger] rest[k]) && unruled(
                        rules,
                        rest,
                        k + 1,
                    ) {
                    let k = choose|k: int|
                        0 <= k < rest.len() && is_for(rules, i, #[trigger] rest[k]) && unruled(
                            rules,
                            rest,
                            k + 1,
                        );
                    assert(rest[k] == chain[k]);
                    assert(unruled(rules, rest, k + 1) == unruled(rules, chain, k + 1));
                }
            },
        }
    }
}

/// A tally without what would not open.
spec fn bare(t: Tally) -> Tally {
    Tally { refused: Seq::empty(), ..t }
}

/// The tally once every charge of a run was made to the rule that claims it.
spec fn settled(
    rules: Seq<Seq<Seq<char>>>,
    start: Option<int>,
    log: Seq<Charge>,
    t: Tally,
) -> Tally
    decreases log.len(),
{
    if log.len() == 0 {
        t
    } else {
        let x = log.last();
        charged(
            settled(rules, start, log.drop_last(), t),
            x.meta,
            claimant(rules, x.chain, start),
        )
    }
}

proof fn lemma_settled_concat(
    rules: Seq<Seq<Seq<char>>>,
    start: Option<int>,
    a: Seq<Charge>,
    b: Seq<Charge>,
    t: Tally,
)
    ensures
        settled(rules, start, a + b, t) == settled(rules, start, b, settled(rules, start, a, t)),
    decreases b.len(),
{
    if b.len() == 0 {
        assert(a + b =~= a);
    } else {
        lemma_settled_concat(rules, start, a, b.drop_last(), t);
        assert((a + b).drop_last() =~= a + b.drop_last());
    }
}

proof fn lemma_settled_one(
    rules: Seq<Seq<Seq<char>>>,
    start: Option<int>,
    x: Charge,
    t: Tally,
)
    ensures
        settled(rules, start, seq![x], t) == charged(t, x.meta, claimant(rules, x.chain, start)),
{
    assert(seq![x].drop_last() =~= Seq::<Charge>::empty());
    assert(settled(rules, start, Seq::<Charge>::empty(), t) == t);
}

proof fn lemma_walk_settles(
    g: Ground,
    dir: Node,
    chain: Seq<Seq<char>>,
    start: Option<int>,
    t: Tally,
)
    ensures
        bare(walked(g, dir, claimant(g.rules, chain, start), t)) == settled(
            g.rules,
            start,
            met(g, dir, chain),
            bare(t),
        ),
    decreases dir,
{
    let rule = claimant(g.rules, chain, start);
    let own = match dir.meta {
        Ok(m) => charged(t, m, rule),
        Err(_) => t,
    };
    let first = match dir.meta {
        Ok(meta) => seq![Charge { chain, meta }],
        Err(_) => Seq::empty(),
    };
    if let Ok(meta) = dir.meta {
        lemma_settled_one(g.rules, start, Charge { chain, meta }, bare(t));
    }
    assert(bare(own) == settled(g.rules, start, first, bare(t)));
    if !g.closed.contains(paths::components(dir.path@)) {
        if let Listing::Opened(entries) = dir.listing {
            lemma_walk_all_settles(g, entries@, chain, start, own);
            lemma_settled_concat(
                g.rules,
                start,
                first,
                met_all(g, entries@, chain),
                bare(t),
            );
        }
    }
}

proof fn lemma_walk_all_settles(
    g: Ground,
    entries: Seq<Node>,
    chain: Seq<Seq<char>>,
    start: Option<int>,
    t: Tally,
)
    ensures
        bare(walked_all(g, entries, claimant(g.rules, chain, start), t)) == settled(
            g.rules,
            start,
            met_all(g, entries, chain),
            bare(t),
        ),
    decreases entries,
{
    if entries.len() > 0 {
        let rule = claimant(g.rules, chain, start);
        let e = entries.last();
        let there = chain.push(e.path@);
        lemma_walk_all_settles(g, entries.drop_last(), chain, start, t);
        let before = walked_all(g, entries.drop_last(), rule, t);
        let log = met_all(g, entries.drop_last(), chain);
        assert(there.drop_last() =~= chain);
        assert(rule_at(g.rules, e.path@, rule) == claimant(g.rules, there, start));
        if let Ok(meta) = e.meta {
            if meta.dev == g.dev && !meta.is_dir {
                let x = Charge { chain: there, meta };
                assert(log.push(x) =~= log + seq![x]);
                lemma_settled_concat(g.rules, start, log, seq![x], bare(t));
                lemma_settled_one(g.rules, start, x, bare(before));
            } else if meta.dev == g.dev && !g.skip.contains(paths::components(e.path@)) {
                lemma_walk_settles(g, e, there, start, before);
                lemma_settled_concat(g.rules, start, log, met(g, e, there), bare(t));
            }
        }
    }
}

proof fn lemma_settled_seen(
    rules: Seq<Seq<Seq<char>>>,
    start: Option<int>,
    log: Seq<Charge>,
    t: Tally,
    dev: u64,
    ino: u64,
)
    ensures
        settled(rules, start, log, t).seen.contains((dev, ino)) <==> t.seen.contains((dev, ino))
            || exists|j: int|
            0 <= j < log.len() && (#[trigger] log[j]).meta.nlink > 1 && log[j].meta.dev == dev
                && log[j].meta.ino == ino,
    decreases log.len(),
{
    if log.len() > 0 {
        let rest = log.drop_last();
        let n = log.len() - 1;
        lemma_settled_seen(rules, start, rest, t, dev, ino);
        assert forall|j: int| 0 <= j < n implies #[trigger] log[j] == rest[j] by {}
        assert forall|j: int| 0 <= j < n implies #[trigger] rest[j] == log[j] by {}
        if log[n].meta.nlink > 1 && log[n].meta.dev == dev && log[n].meta.ino == ino {
            assert(log[n] == log.last());
        }
    }
}

proof fn lemma_settled_sums(
    rules: Seq<Seq<Seq<char>>>,
    start: Option<int>,
    log: Seq<Charge>,
    t: Tally,
    i: int,
)
    requires
        t.sizes.len() == rules.len(),
        start matches Some(r) ==> 0 <= r < rules.len(),
        0 <= i < rules.len(),
    ensures
        settled(rules, start, log, t).bytes == t.bytes + total_of(prices(log, t.seen)),
        settled(rules, start, log, t).sizes.len() == rules.len(),
        settled(rules, start, log, t).sizes[i] == t.sizes[i] + total_of(
            share(log, t.seen, rules, start, i),
        ),
    decreases log.len(),
{
    if log.len() > 0 {
        let rest = log.drop_last();
        let n = log.len() - 1;
        let x = log.last();
        lemma_settled_sums(rules, start, rest, t, i);
        lemma_settled_seen(rules, start, rest, t, x.meta.dev, x.meta.ino);
        lemma_claimant(rules, x.chain, start, i);
        lemma_claimant_listed(rules, x.chain, start);
        assert forall|j: int| 0 <= j < n implies #[trigger] log[j] == rest[j] by {}
        assert forall|j: int| 0 <= j < n implies #[trigger] rest[j] == log[j] by {}
        assert forall|k: int| 0 <= k < n implies price(log, t.seen, k) == price(
            rest,
            t.seen,
            k,
        ) by {
            assert forall|j: int| 0 <= j < k implies #[trigger] log[j] == rest[j] by {}
            assert forall|j: int| 0 <= j < k implies #[trigger] rest[j] == log[j] by {}
        }
        assert(prices(log, t.seen).drop_last() =~= prices(rest, t.seen));
        assert(share(log, t.seen, rules, start, i).drop_last() =~= share(
            rest,
            t.seen,
            rules,
            start,
            i,
        ));
        let before = settled(rules, start, rest, t);
        assert(charge_of(x.meta, before.seen) == price(log, t.seen, n));
    }
}

proof fn lemma_claimant_listed(
    rules: Seq<Seq<Seq<char>>>,
    chain: Seq<Seq<char>>,
    start: Option<int>,
)
    requires
        start matches Some(r) ==> 0 <= r < rules.len(),
    ensures
        claimant(rules, chain, start) matches Some(i) ==> 0 <= i < rules.len(),
    decreases chain.len(),
{
    if chain.len() > 0 {
        lemma_claimant_listed(rules, chain.drop_last(), start);
        paths::lemma_last_listed(rules, paths::components(chain.last()));
    }
}

/// A rule claims its whole subtree, but for what a deeper rule claims: the bytes that a walk
/// charges to a rule are those of exactly the entries whose nearest path upwards that any rule
/// is for is that rule's, at whatever depth they lie. What no rule is for on the way goes to the
/// rule that was in force where the walk began.
pub proof fn law_a_rule_claims_its_whole_subtree(
    g: Ground,
    dir: Node,
    rule: Option<int>,
    t: Tally,
    i: int,
)
    requires
        t.sizes.len() == g.rules.len(),
        rule matches Some(r) ==> 0 <= r < g.rules.len(),
        0 <= i < g.rules.len(),
    ensures
        ({
            let log = met(g, dir, Seq::empty());
            let after = walked(g, dir, rule, t);
            &&& after.bytes == t.bytes + total_of(prices(log, t.seen))
            &&& after.sizes[i] == t.sizes[i] + total_of(share(log, t.seen, g.rules, rule, i))
        }),
{
    let none = Seq::<Seq<char>>::empty();
    let log = met(g, dir, none);
    lemma_walk_settles(g, dir, none, rule, t);
    lemma_settled_sums(g.rules, rule, log, bare(t), i);
    assert(walked(g, dir, rule, t).bytes == bare(walked(g, dir, rule, t)).bytes);
}

/// No rule is for any path below.
pub open spec fn is_unclaimed(rules: Seq<Seq<Seq<char>>>, dir: Node) -> bool
    decreases dir,
{
    match dir.listing {
        Listing::Opened(entries) => all_unclaimed(rules, entries@),
        Listing::Refused(_) => true,
    }
}

/// No rule is for any of the entries, nor for any path below them.
pub open spec fn all_unclaimed(rules: Seq<Seq<Seq<char>>>, entries: Seq<Node>) -> bool
    decreases entries,
{
    if entries.len() == 0 {
        true
    } else {
        &&& all_unclaimed(rules, entries.drop_last())
        &&& !rules.contains(paths::components(entries.last().path@))
        &&& is_unclaimed(rules, entries.last())
    }
}

/// A walk into a tree that no other rule is for gives every byte of it to the rule it began
/// with, and to no other.
pub proof fn law_an_unclaimed_subtree_goes_to_the_rule_above_it(
    g: Ground,
    dir: Node,
    i: int,
    t: Tally,
)
    requires
        t.sizes.len() == g.rules.len(),
        0 <= i < g.rules.len(),
        is_unclaimed(g.rules, dir),
    ensures
        ({
            let after = walked(g, dir, Some(i), t);
            after.sizes == t.sizes.update(i, t.sizes[i] + after.bytes - t.bytes)
        }),
    decreases dir,
{
    let own = match dir.meta {
        Ok(m) => charged(t, m, Some(i)),
        Err(_) => t,
    };
    assert(own.sizes =~= t.sizes.update(i, t.sizes[i] + own.bytes - t.bytes));
    if !g.closed.contains(paths::components(dir.path@)) {
        if let Listing::Opened(entries) = dir.listing {
            lemma_all_unclaimed(g, entries@, i, own);
            let after = walked_all(g, entries@, Some(i), own);
            assert(after.sizes =~= t.sizes.update(i, t.sizes[i] + after.bytes - t.bytes));
        }
    }
}

proof fn lemma_all_unclaimed(g: Ground, entries: Seq<Node>, i: int, t: Tally)
    requires
        t.sizes.len() == g.rules.len(),
        0 <= i < g.rules.len(),
        all_unclaimed(g.rules, entries),
    ensures
        ({
            let after = walked_all(g, entries, Some(i), t);
            after.sizes == t.sizes.update(i, t.sizes[i] + after.bytes - t.bytes)
        }),
    decreases entries,
{
    if entries.len() == 0 {
        assert(t.sizes =~= t.sizes.update(i, t.sizes[i] + 0));
    } else {
        let e = entries.last();
        lemma_all_unclaimed(g, entries.drop_last(), i, t);
        let before = walked_all(g, entries.drop_last(), Some(i), t);
        paths::lemma_last_listed(g.rules, paths::components(e.path@));
        let after = walked_all(g, entries, Some(i), t);
        if let Ok(m) = e.meta {
            if m.dev == g.dev && m.is_dir && !g.skip.contains(paths::components(e.path@)) {
                law_an_unclaimed_subtree_goes_to_the_rule_above_it(g, e, i, before);
            }
        }
        assert(after.sizes =~= t.sizes.update(i, t.sizes[i] + after.bytes - t.bytes));
    }
}

/// Everything at and below can be read on this volume, nothing has two names, and nothing is
/// to be left out.
pub open spec fn is_plain_tree(g: Ground, node: Node) -> bool
    decreases node,
{
    &&& node.meta matches Ok(m) && m.dev == g.dev && m.nlink <= 1
    &&& match node.listing {
        Listing::Refused(_) => false,
        Listing::Opened(entries) => if node.meta->Ok_0.is_dir {
            &&& !g.closed.contains(paths::components(node.path@))
            &&& !g.skip.contains(paths::components(node.path@))
            &&& are_plain_trees(g, entries@)
        } else {
            entries@.len() == 0
        },
    }
}

/// The same of every entry of a list.
pub open spec fn are_plain_trees(g: Ground, entries: Seq<Node>) -> bool
    decreases entries,
{
    entries.len() == 0 || (are_plain_trees(g, entries.drop_last()) && is_plain_tree(
        g,
        entries.last(),
    ))
}

/// A walk leaves nothing out: where everything can be read and nothing is to be left out, it
/// counts exactly what is there, and turns away from nothing.
pub proof fn law_a_readable_tree_is_counted_whole(
    g: Ground,
    dir: Node,
    rule: Option<int>,
    t: Tally,
)
    requires
        is_plain_tree(g, dir),
        dir.meta->Ok_0.is_dir,
    ensures
        walked(g, dir, rule, t).bytes == t.bytes + weight(dir),
        walked(g, dir, rule, t).refused == t.refused,
        walked(g, dir, rule, t).seen == t.seen,
    decreases dir,
{
    let own = charged(t, dir.meta->Ok_0, rule);
    if let Listing::Opened(entries) = dir.listing {
        lemma_readable_all(g, entries@, rule, own);
    }
}

proof fn lemma_readable_all(g: Ground, entries: Seq<Node>, rule: Option<int>, t: Tally)
    requires
        are_plain_trees(g, entries),
    ensures
        walked_all(g, entries, rule, t).bytes == t.bytes + weight_all(entries),
        walked_all(g, entries, rule, t).refused == t.refused,
        walked_all(g, entries, rule, t).seen == t.seen,
    decreases entries,
{
    if entries.len() > 0 {
        let e = entries.last();
        lemma_readable_all(g, entries.drop_last(), rule, t);
        let before = walked_all(g, entries.drop_last(), rule, t);
        let r = rule_at(g.rules, e.path@, rule);
        assert(is_plain_tree(g, e));
        assert(weight_all(entries) == weight_all(entries.drop_last()) + weight(e));
        if e.meta->Ok_0.is_dir {
            law_a_readable_tree_is_counted_whole(g, e, r, before);
        } else if let Listing::Opened(none) = e.listing {
            assert(none@.len() == 0);
            assert(weight_all(none@) == 0);
            assert(weight(e) == e.meta->Ok_0.bytes());
        }
    }
}

/// The files right below a root, in order, each at the end of the chain from the root.
pub open spec fn loose_files(dev: u64, root: Seq<char>, entries: Seq<Node>) -> Seq<Charge>
    decreases entries.len(),
{
    if entries.len() == 0 {
        Seq::empty()
    } else {
        let before = loose_files(dev, root, entries.drop_last());
        let e = entries.last();
        match e.meta {
            Ok(meta) if meta.dev == dev && !meta.is_dir => before.push(
                Charge { chain: seq![root, e.path@], meta },
            ),
            _ => before,
        }
    }
}

/// Where the directories right below a root that are no roots themselves stand in its listing.
pub open spec fn subdirectories(dev: u64, skip: Seq<Seq<Seq<char>>>, entries: Seq<Node>) -> Seq<int>
    decreases entries.len(),
{
    if entries.len() == 0 {
        Seq::empty()
    } else {
        let before = subdirectories(dev, skip, entries.drop_last());
        let e = entries.last();
        match e.meta {
            Ok(meta) if meta.dev == dev && meta.is_dir && !skip.contains(
                paths::components(e.path@),
            ) => before.push(entries.len() - 1),
            _ => before,
        }
    }
}

/// The entries of a root, where it says what it is, is not to be left closed, and opens.
pub open spec fn opened(closed: Seq<Seq<Seq<char>>>, root: Seq<char>, node: Node) -> Seq<Node> {
    match (node.meta, node.listing) {
        (Ok(_), Listing::Opened(entries)) => if closed.contains(paths::components(root)) {
            Seq::empty()
        } else {
            entries@
        },
        _ => Seq::empty(),
    }
}

/// The volume that a root lies on.
pub open spec fn volume(node: Node) -> u64 {
    match node.meta {
        Ok(m) => m.dev,
        Err(_) => 0,
    }
}

/// The files right below the first `n` roots.
pub open spec fn all_loose(
    closed: Seq<Seq<Seq<char>>>,
    roots: Seq<Seq<char>>,
    nodes: Seq<Node>,
    n: nat,
) -> Seq<Charge>
    decreases n,
{
    if n == 0 {
        Seq::empty()
    } else {
        let k = n - 1;
        all_loose(closed, roots, nodes, k as nat) + loose_files(
            volume(nodes[k]),
            roots[k],
            opened(closed, roots[k], nodes[k]),
        )
    }
}

/// The directories right below the first `n` roots, each with its root and its place there.
pub open spec fn all_subdirectories(
    skip: Seq<Seq<Seq<char>>>,
    closed: Seq<Seq<Seq<char>>>,
    roots: Seq<Seq<char>>,
    nodes: Seq<Node>,
    n: nat,
) -> Seq<(int, int)>
    decreases n,
{
    if n == 0 {
        Seq::empty()
    } else {
        let k = n - 1;
        let here = subdirectories(volume(nodes[k]), skip, opened(closed, roots[k], nodes[k]));
        all_subdirectories(skip, closed, roots, nodes, k as nat) + here.map_values(
            |entry: int| (k, entry),
        )
    }
}

/// What walking the last `n` of the directories charges, the last of the list first.
pub open spec fn all_deeper(
    rules: Seq<Seq<Seq<char>>>,
    skip: Seq<Seq<Seq<char>>>,
    closed: Seq<Seq<Seq<char>>>,
    roots: Seq<Seq<char>>,
    nodes: Seq<Node>,
    dirs: Seq<(int, int)>,
    n: nat,
) -> Seq<Charge>
    decreases n,
{
    if n == 0 {
        Seq::empty()
    } else {
        let (r, entry) = dirs[dirs.len() - n];
        let dir = nodes[r].listing->Opened_0@[entry];
        let g = Ground { rules, skip, closed, dev: volume(nodes[r]) };
        all_deeper(rules, skip, closed, roots, nodes, dirs, (n - 1) as nat) + met(
            g,
            dir,
            seq![roots[r], dir.path@],
        )
    }
}

/// Everything that a sweep charges, in order, whatever the rules are: the files right below the
/// roots, and then what lies at and below their directories.
pub open spec fn everything(
    rules: Seq<Seq<Seq<char>>>,
    skip: Seq<Seq<Seq<char>>>,
    closed: Seq<Seq<Seq<char>>>,
    roots: Seq<Seq<char>>,
    nodes: Seq<Node>,
) -> Seq<Charge> {
    let dirs = all_subdirectories(skip, closed, roots, nodes, roots.len());
    all_loose(closed, roots, nodes, roots.len()) + all_deeper(
        rules,
        skip,
        closed,
        roots,
        nodes,
        dirs,
        dirs.len(),
    )
}

/// The job is to walk that directory, and begins with the rule that claims it.
spec fn is_job_for(
    rules: Seq<Seq<Seq<char>>>,
    roots: Seq<Seq<char>>,
    nodes: Seq<Node>,
    job: JobView,
    dir: (int, int),
) -> bool {
    let node = nodes[dir.0].listing->Opened_0@[dir.1];
    &&& job.root == dir.0
    &&& job.entry == dir.1
    &&& job.path == node.path@
    &&& job.rule == claimant(rules, seq![roots[dir.0], node.path@], None)
    &&& job.dev == volume(nodes[dir.0])
}

proof fn lemma_pair_claimant(rules: Seq<Seq<Seq<char>>>, root: Seq<char>, path: Seq<char>)
    ensures
        rule_at(rules, path, paths::last_listed(rules, paths::components(root))) == claimant(
            rules,
            seq![root, path],
            None,
        ),
{
    let chain = seq![root, path];
    assert(chain.drop_last() =~= seq![root]);
    assert(seq![root].drop_last() =~= Seq::<Seq<char>>::empty());
    assert(claimant(rules, Seq::<Seq<char>>::empty(), None) == None::<int>);
    assert(claimant(rules, seq![root], None) == paths::last_listed(
        rules,
        paths::components(root),
    ));
}

proof fn lemma_enumerated_settles(
    g: Ground,
    root: int,
    path: Seq<char>,
    entries: Seq<Node>,
    t: Tally,
    jobs: Seq<JobView>,
)
    ensures
        ({
            let inherited = paths::last_listed(g.rules, paths::components(path));
            let (after, found) = enumerated(g, root, entries, inherited, t, jobs);
            let here = subdirectories(g.dev, g.skip, entries);
            &&& bare(after) == settled(
                g.rules,
                None,
                loose_files(g.dev, path, entries),
                bare(t),
            )
            &&& found.len() == jobs.len() + here.len()
            &&& found.take(jobs.len() as int) == jobs
            &&& forall|q: int|
                0 <= q < here.len() ==> {
                    let job = #[trigger] found[jobs.len() + q];
                    &&& 0 <= here[q] < entries.len()
                    &&& job.root == root
                    &&& job.entry == here[q]
                    &&& job.path == entries[here[q]].path@
                    &&& job.rule == claimant(
                        g.rules,
                        seq![path, entries[here[q]].path@],
                        None,
                    )
                    &&& job.dev == g.dev
                }
        }),
    decreases entries.len(),
{
    let inherited = paths::last_listed(g.rules, paths::components(path));
    let (after, found) = enumerated(g, root, entries, inherited, t, jobs);
    let here = subdirectories(g.dev, g.skip, entries);
    if entries.len() == 0 {
        assert(found.take(jobs.len() as int) =~= jobs);
    } else {
        let rest = entries.drop_last();
        let e = entries.last();
        lemma_enumerated_settles(g, root, path, rest, t, jobs);
        lemma_pair_claimant(g.rules, path, e.path@);
        let (before, fewer) = enumerated(g, root, rest, inherited, t, jobs);
        let less = subdirectories(g.dev, g.skip, rest);
        let log = loose_files(g.dev, path, rest);
        if let Ok(meta) = e.meta {
            if meta.dev == g.dev && !meta.is_dir {
                let x = Charge { chain: seq![path, e.path@], meta };
                assert(log.push(x) =~= log + seq![x]);
                lemma_settled_concat(g.rules, None, log, seq![x], bare(t));
                lemma_settled_one(g.rules, None, x, bare(before));
            }
        }
        assert(found.take(jobs.len() as int) =~= fewer.take(jobs.len() as int));
        assert forall|q: int| 0 <= q < here.len() implies {
            let job = #[trigger] found[jobs.len() + q];
            &&& 0 <= here[q] < entries.len()
            &&& job.root == root
            &&& job.entry == here[q]
            &&& job.path == entries[here[q]].path@
            &&& job.rule == claimant(g.rules, seq![path, entries[here[q]].path@], None)
            &&& job.dev == g.dev
        } by {
            if q < less.len() {
                assert(found[jobs.len() + q] == fewer[jobs.len() + q]);
                assert(entries[here[q]] == rest[less[q]]);
            }
        }
    }
}

proof fn lemma_same_seen(
    rules: Seq<Seq<Seq<char>>>,
    start: Option<int>,
    log: Seq<Charge>,
    a: Tally,
    b: Tally,
)
    requires
        a.seen == b.seen,
    ensures
        settled(rules, start, log, a).seen == settled(rules, start, log, b).seen,
    decreases log.len(),
{
    if log.len() > 0 {
        lemma_same_seen(rules, start, log.drop_last(), a, b);
    }
}

/// What a tally gives to rule `i`.
spec fn given(i: int) -> spec_fn(Tally) -> int {
    |t: Tally| t.sizes[i]
}

/// What a tally counted.
spec fn counted() -> spec_fn(Tally) -> int {
    |t: Tally| t.bytes
}

/// A run of charges made afresh adds as much as it does on top of what was counted.
proof fn lemma_settled_on_top(
    rules: Seq<Seq<Seq<char>>>,
    log: Seq<Charge>,
    t: Tally,
    i: int,
)
    requires
        t.sizes.len() == rules.len(),
        0 <= i < rules.len(),
    ensures
        ({
            let alone = settled(rules, None, log, fresh(rules.len(), t.seen));
            let after = settled(rules, None, log, t);
            &&& after.bytes == t.bytes + alone.bytes
            &&& after.sizes[i] == t.sizes[i] + alone.sizes[i]
            &&& after.sizes.len() == rules.len()
            &&& after.seen == alone.seen
        }),
{
    let zero = fresh(rules.len(), t.seen);
    lemma_settled_sums(rules, None, log, zero, i);
    lemma_settled_sums(rules, None, log, t, i);
    lemma_same_seen(rules, None, log, zero, t);
}

proof fn lemma_planned_settles(
    rules: Seq<Seq<Seq<char>>>,
    skip: Seq<Seq<Seq<char>>>,
    closed: Seq<Seq<Seq<char>>>,
    roots: Seq<Seq<char>>,
    nodes: Seq<Node>,
    n: nat,
    i: int,
)
    requires
        n <= roots.len(),
        nodes.len() == roots.len(),
        0 <= i < rules.len(),
    ensures
        ({
            let p = planned(rules, skip, closed, roots, nodes, n);
            let zero = fresh(rules.len(), Set::empty());
            let after = settled(rules, None, all_loose(closed, roots, nodes, n), zero);
            let dirs = all_subdirectories(skip, closed, roots, nodes, n);
            &&& p.seeds.len() == n
            &&& p.seen == after.seen
            &&& sum_of(p.seeds, given(i)) == after.sizes[i]
            &&& sum_of(p.seeds, counted()) == after.bytes
            &&& after.sizes.len() == rules.len()
            &&& p.jobs.len() == dirs.len()
            &&& forall|q: int|
                0 <= q < dirs.len() ==> is_job_for(
                    rules,
                    roots,
                    nodes,
                    #[trigger] p.jobs[q],
                    dirs[q],
                ) && 0 <= dirs[q].0 < n
        }),
    decreases n,
{
    let p = planned(rules, skip, closed, roots, nodes, n);
    let zero = fresh(rules.len(), Set::empty());
    if n == 0 {
        assert(settled(rules, None, Seq::<Charge>::empty(), zero) == zero);
    } else {
        let k = n - 1;
        lemma_planned_settles(rules, skip, closed, roots, nodes, k as nat, i);
        let before = planned(rules, skip, closed, roots, nodes, k as nat);
        let (t, jobs) = planned_root(
            rules,
            skip,
            closed,
            k,
            roots[k],
            nodes[k],
            before.seen,
            before.jobs,
        );
        let dev = volume(nodes[k]);
        let entries = opened(closed, roots[k], nodes[k]);
        let log = loose_files(dev, roots[k], entries);
        let here = subdirectories(dev, skip, entries);
        let first = fresh(rules.len(), before.seen);
        let g = Ground { rules, skip, closed, dev };
        lemma_enumerated_settles(g, k, roots[k], entries, first, before.jobs);
        assert(bare(first) == first);
        assert(bare(t) == settled(rules, None, log, first));
        let so_far = settled(rules, None, all_loose(closed, roots, nodes, k as nat), zero);
        lemma_settled_concat(rules, None, all_loose(closed, roots, nodes, k as nat), log, zero);
        lemma_settled_on_top(rules, log, so_far, i);
        order::lemma_sum_push(before.seeds, t, given(i));
        order::lemma_sum_push(before.seeds, t, counted());
        let old_dirs = all_subdirectories(skip, closed, roots, nodes, k as nat);
        let dirs = all_subdirectories(skip, closed, roots, nodes, n);
        assert(p.jobs == jobs);
        assert(jobs.len() == before.jobs.len() + here.len());
        assert forall|q: int| 0 <= q < dirs.len() implies is_job_for(
            rules,
            roots,
            nodes,
            #[trigger] p.jobs[q],
            dirs[q],
        ) && 0 <= dirs[q].0 < n by {
            if q < old_dirs.len() {
                assert(dirs[q] == old_dirs[q]);
                assert(jobs.take(before.jobs.len() as int)[q] == jobs[q]);
                assert(is_job_for(rules, roots, nodes, before.jobs[q], old_dirs[q]));
            } else {
                let r = q - old_dirs.len();
                assert(dirs[q] == (k, here[r]));
                assert(jobs[before.jobs.len() + r].root == k);
                assert(entries == nodes[k].listing->Opened_0@);
            }
        }
    }
}

proof fn lemma_ran_settles(
    rules: Seq<Seq<Seq<char>>>,
    skip: Seq<Seq<Seq<char>>>,
    closed: Seq<Seq<Seq<char>>>,
    roots: Seq<Seq<char>>,
    nodes: Seq<Node>,
    jobs: Seq<JobView>,
    dirs: Seq<(int, int)>,
    t: Tally,
    n: nat,
    i: int,
)
    requires
        n <= jobs.len(),
        jobs.len() == dirs.len(),
        t.sizes.len() == rules.len(),
        0 <= i < rules.len(),
        forall|q: int|
            0 <= q < dirs.len() ==> is_job_for(rules, roots, nodes, #[trigger] jobs[q], dirs[q]),
    ensures
        ({
            let (tallies, seen) = ran(rules, skip, closed, nodes, jobs, t.seen, n);
            let log = all_deeper(rules, skip, closed, roots, nodes, dirs, n);
            let after = settled(rules, None, log, t);
            &&& tallies.len() == n
            &&& seen == after.seen
            &&& after.sizes.len() == rules.len()
            &&& after.sizes[i] == t.sizes[i] + sum_of(tallies, given(i))
            &&& after.bytes == t.bytes + sum_of(tallies, counted())
        }),
    decreases n,
{
    if n > 0 {
        lemma_ran_settles(
            rules,
            skip,
            closed,
            roots,
            nodes,
            jobs,
            dirs,
            t,
            (n - 1) as nat,
            i,
        );
        let (before, s) = ran(rules, skip, closed, nodes, jobs, t.seen, (n - 1) as nat);
        let q = jobs.len() - n;
        let job = jobs[q];
        assert(is_job_for(rules, roots, nodes, jobs[q], dirs[q]));
        let g = Ground { rules, skip, closed, dev: job.dev };
        let dir = job_node(nodes, job);
        let chain = seq![roots[dirs[q].0], dir.path@];
        let zero = fresh(rules.len(), s);
        let one = walked(g, dir, job.rule, zero);
        let log = met(g, dir, chain);
        lemma_walk_settles(g, dir, chain, None, zero);
        assert(bare(zero) == zero);
        let more = all_deeper(rules, skip, closed, roots, nodes, dirs, (n - 1) as nat);
        lemma_settled_concat(rules, None, more, log, t);
        let so_far = settled(rules, None, more, t);
        lemma_settled_on_top(rules, log, so_far, i);
        order::lemma_sum_push(before, one, given(i));
        order::lemma_sum_push(before, one, counted());
    }
}

/// Sums over two lists that agree position by position are the same.
proof fn lemma_sums_agree<A, B>(
    a: Seq<A>,
    b: Seq<B>,
    f: spec_fn(A) -> int,
    g: spec_fn(B) -> int,
)
    requires
        a.len() == b.len(),
        forall|k: int| 0 <= k < a.len() ==> f(#[trigger] a[k]) == g(b[k]),
    ensures
        sum_of(a, f) == sum_of(b, g),
    decreases a.len(),
{
    if a.len() > 0 {
        let n = a.len() - 1;
        assert forall|k: int| 0 <= k < n implies f(#[trigger] a.drop_last()[k]) == g(
            b.drop_last()[k],
        ) by {
            assert(f(a[k]) == g(b[k]));
        }
        lemma_sums_agree(a.drop_last(), b.drop_last(), f, g);
        assert(f(a[n]) == g(b[n]));
    }
}

proof fn lemma_all_of_roots(results: Seq<JobResult>, n: int)
    requires
        forall|k: int| 0 <= k < results.len() ==> (#[trigger] results[k]).root < n,
    ensures
        of_roots(results, n) == results,
    decreases results.len(),
{
    reveal(Seq::filter);
    if results.len() > 0 {
        let rest = results.drop_last();
        assert forall|k: int| 0 <= k < rest.len() implies (#[trigger] rest[k]).root < n by {
            assert(results[k].root < n);
        }
        lemma_all_of_roots(rest, n);
        assert(results[results.len() - 1].root < n);
        assert(rest.push(results.last()) =~= results);
    } else {
        assert(of_roots(results, n) =~= results);
    }
}

/// Where every byte of the disk went: a sweep gives each rule the bytes of exactly those
/// entries whose nearest path upwards that any rule is for is that rule's, the root among those
/// paths, and counts each file once.
pub proof fn law_a_sweep_gives_each_rule_its_whole_subtree(
    said: Seq<Event>,
    sweep: Sweep,
    roots: Seq<Root>,
    rules: Seq<Rule>,
    closed: Seq<Seq<char>>,
    nodes: Seq<Node>,
    answers: Seq<Flow>,
    seeds: Seq<RootSeed>,
    results: Seq<JobResult>,
    i: int,
)
    requires
        sweeps(said, Some(sweep), roots, rules, closed, nodes, answers, seeds, results),
        nodes.len() == roots.len(),
        0 <= i < rules.len(),
    ensures
        ({
            let rl = paths::all_components(rule_paths(rules));
            let sk = paths::all_components(root_paths(roots));
            let cl = paths::all_components(closed);
            let log = everything(rl, sk, cl, root_paths(roots), nodes);
            sweep.rule_sizes@[i] == total_of(share(log, Set::empty(), rl, None, i))
        }),
{
    let rl = paths::all_components(rule_paths(rules));
    let sk = paths::all_components(root_paths(roots));
    let cl = paths::all_components(closed);
    let at = root_paths(roots);
    let n = roots.len();
    let p = planned(rl, sk, cl, at, nodes, n);
    let zero = fresh(rl.len(), Set::empty());
    let dirs = all_subdirectories(sk, cl, at, nodes, n);
    let loose = all_loose(cl, at, nodes, n);
    let deeper = all_deeper(rl, sk, cl, at, nodes, dirs, dirs.len());
    lemma_planned_settles(rl, sk, cl, at, nodes, n, i);
    let half = settled(rl, None, loose, zero);
    lemma_ran_settles(rl, sk, cl, at, nodes, p.jobs, dirs, half, dirs.len(), i);
    let (tallies, _) = ran(rl, sk, cl, nodes, p.jobs, p.seen, results.len());
    lemma_settled_concat(rl, None, loose, deeper, zero);
    lemma_settled_sums(rl, None, loose + deeper, zero, i);
    assert(sum_of(seeds, seed_rule(i)) == sum_of(p.seeds, given(i))) by {
        assert forall|k: int| 0 <= k < seeds.len() implies seed_rule(i)(#[trigger] seeds[k])
            == given(i)(p.seeds[k]) by {
            assert(seeds[k].reports(p.seeds[k]));
            assert(seeds[k].wf(rules.len()));
            assert(ints(seeds[k].rule_sizes@)[i] == p.seeds[k].sizes[i]);
        }
        lemma_sums_agree(seeds, p.seeds, seed_rule(i), given(i));
    }
    assert forall|k: int| 0 <= k < results.len() implies (#[trigger] results[k]).root < n
        && job_rule(i)(results[k]) == given(i)(tallies[k]) by {
        let q = p.jobs.len() - 1 - k;
        assert(results[k].reports(p.jobs[q], tallies[k]));
        assert(results[k].wf(rules.len()));
        assert(is_job_for(rl, at, nodes, p.jobs[q], dirs[q]));
        assert(ints(results[k].rule_sizes@)[i] == tallies[k].sizes[i]);
    }
    lemma_sums_agree(results, tallies, job_rule(i), given(i));
    lemma_all_of_roots(results, n as int);
    assert(sweep.rule_sizes@[i] == rule_total(i, seeds, results));
}

/// What an entry takes is its blocks, at 512 bytes each, whatever it is; a second name of a file
/// that was met takes nothing more.
pub proof fn law_a_block_is_512_bytes(m: Meta, seen: Set<(u64, u64)>)
    ensures
        m.bytes() == m.blocks * 512,
        m.nlink <= 1 || !seen.contains((m.dev, m.ino)) ==> charge_of(m, seen) == m.blocks * 512,
        m.nlink > 1 && seen.contains((m.dev, m.ino)) ==> charge_of(m, seen) == 0,
{
}

} // verus!
