//! A measured partition of the data volume.
//!
//! The roots come from the volume itself, every byte lands in exactly one root,
//! and whatever no rule claims is reported as unattributed rather than dropped.
//! What the file system answered is handed in as [`Node`] values; what is made
//! of the answers is decided here.
use vstd::prelude::*;
use std::collections::HashSet;
use crate::order;
use crate::order::{sum_of, Ranked};
use crate::paths;
use crate::paths::PathList;
use crate::text;

verus! {

/// Everything the data volume holds hangs off here, firmlinks included.
pub const DATA_VOLUME: &'static str = "/System/Volumes/Data";

/// Per root, so one pathological tree cannot fill the report.
pub const MAX_UNREADABLE_LISTED: usize = 20;

/// The size of the blocks that allocation is counted in.
pub const BLOCK: u64 = 512;

/// Why a directory would not open.
#[derive(Debug, Clone, Copy, PartialEq, Eq, Structural)]
pub enum Denial {
    /// EPERM. Privacy policy: Full Disk Access for the terminal app lifts it.
    Protected,
    /// EACCES. Ordinary permissions: needs sudo.
    Forbidden,
    /// Never tried, because nobody was present to answer the dialog that opening
    /// it raises.
    Unattended,
}

/// How an attempt to stat or open a path failed.
#[derive(Debug, Clone, Copy, PartialEq, Eq, Structural)]
pub struct OpenError {
    /// The number the operating system gave, if it gave one.
    pub errno: Option<i32>,
    /// Whether the failure is a refusal, as opposed to a path that is gone.
    pub permission_denied: bool,
}

/// The kind of refusal that an error number stands for.
pub open spec fn denial_of(errno: Option<i32>) -> Denial {
    if errno == Some(1i32) {
        Denial::Protected
    } else {
        Denial::Forbidden
    }
}

impl Denial {
    /// The one place an error number is read.
    pub fn of(error: &OpenError) -> (r: Self)
        ensures
            r == denial_of(error.errno),
    {
        match error.errno {
            Some(n) => if n == 1 {
                Denial::Protected
            } else {
                Denial::Forbidden
            },
            None => Denial::Forbidden,
        }
    }
}

/// A directory that would not open.
#[derive(Debug)]
pub struct Unreadable {
    pub path: String,
    pub denial: Denial,
}

impl Unreadable {
    /// The path and the reason.
    pub open spec fn view(&self) -> (Seq<char>, Denial) {
        (self.path@, self.denial)
    }

    /// The same entry once more.
    pub fn copied(&self) -> (r: Self)
        ensures
            r == *self,
    {
        Unreadable { path: self.path.clone(), denial: self.denial }
    }
}

/// How many entries of a list were refused in one way.
pub open spec fn refusals(entries: Seq<Unreadable>, denial: Denial) -> nat {
    entries.filter(|e: Unreadable| e.denial == denial).len()
}

/// Exact counts of what would not open, by kind.
#[derive(Debug, Clone, Copy, PartialEq, Eq, Structural)]
pub struct Denials {
    pub protected: usize,
    pub forbidden: usize,
    pub unattended: usize,
}

impl Default for Denials {
    fn default() -> (r: Self)
        ensures
            r == (Denials { protected: 0, forbidden: 0, unattended: 0 }),
    {
        Denials { protected: 0, forbidden: 0, unattended: 0 }
    }
}

impl Denials {
    /// The count of one kind.
    pub open spec fn count(&self, denial: Denial) -> usize {
        match denial {
            Denial::Protected => self.protected,
            Denial::Forbidden => self.forbidden,
            Denial::Unattended => self.unattended,
        }
    }

    /// The counts of all kinds together.
    pub open spec fn sum(&self) -> int {
        self.protected + self.forbidden + self.unattended
    }

    /// These are the counts of the refusals in a list.
    pub open spec fn counts(&self, entries: Seq<Unreadable>) -> bool {
        forall|d: Denial| #[trigger] self.count(d) == refusals(entries, d)
    }

    /// A single refusal.
    pub fn one(denial: Denial) -> (r: Self)
        ensures
            forall|d: Denial| #[trigger] r.count(d) == (if d == denial { 1int } else { 0 }),
    {
        let mut one = Denials::default();
        one.record(denial);
        one
    }

    /// Refusals of every kind.
    pub fn total(&self) -> (r: usize)
        requires
            self.sum() <= usize::MAX,
        ensures
            r == self.sum(),
    {
        self.protected + self.forbidden + self.unattended
    }

    /// Refusals of one kind.
    pub fn of(&self, denial: Denial) -> (r: usize)
        ensures
            r == self.count(denial),
    {
        match denial {
            Denial::Protected => self.protected,
            Denial::Forbidden => self.forbidden,
            Denial::Unattended => self.unattended,
        }
    }

    /// One more refusal.
    pub fn record(&mut self, denial: Denial)
        requires
            old(self).count(denial) < usize::MAX,
        ensures
            forall|d: Denial|
                #[trigger] final(self).count(d) == old(self).count(d) + (if d == denial {
                    1int
                } else {
                    0
                }),
    {
        match denial {
            Denial::Protected => self.protected = self.protected + 1,
            Denial::Forbidden => self.forbidden = self.forbidden + 1,
            Denial::Unattended => self.unattended = self.unattended + 1,
        }
    }

    /// The refusals of another count on top of these.
    pub fn merge(&mut self, other: Denials)
        requires
            forall|d: Denial| #[trigger] old(self).count(d) + other.count(d) <= usize::MAX,
        ensures
            forall|d: Denial| #[trigger] final(self).count(d) == old(self).count(d) + other.count(d),
    {
        assert(self.count(Denial::Protected) + other.count(Denial::Protected) <= usize::MAX);
        assert(self.count(Denial::Forbidden) + other.count(Denial::Forbidden) <= usize::MAX);
        assert(self.count(Denial::Unattended) + other.count(Denial::Unattended) <= usize::MAX);
        self.protected = self.protected + other.protected;
        self.forbidden = self.forbidden + other.forbidden;
        self.unattended = self.unattended + other.unattended;
    }
}

/// Every refusal in a list is of exactly one kind.
pub proof fn lemma_refusals_total(entries: Seq<Unreadable>)
    ensures
        refusals(entries, Denial::Protected) + refusals(entries, Denial::Forbidden) + refusals(
            entries,
            Denial::Unattended,
        ) == entries.len(),
        forall|d: Denial| #[trigger] refusals(entries, d) <= entries.len(),
    decreases entries.len(),
{
    reveal(Seq::filter);
    if entries.len() > 0 {
        lemma_refusals_total(entries.drop_last());
        assert forall|d: Denial| #[trigger] refusals(entries, d) <= entries.len() by {
            assert(refusals(entries.drop_last(), d) <= entries.len() - 1);
        }
    }
}

/// One more entry counts once, for its own kind.
pub proof fn lemma_refusals_push(entries: Seq<Unreadable>, e: Unreadable, d: Denial)
    ensures
        refusals(entries.push(e), d) == refusals(entries, d) + (if e.denial == d {
            1nat
        } else {
            0
        }),
{
    entries.lemma_filter_push(e, |x: Unreadable| x.denial == d);
}

/// Two lists one behind the other hold the refusals of both.
pub proof fn lemma_refusals_concat(a: Seq<Unreadable>, b: Seq<Unreadable>, d: Denial)
    ensures
        refusals(a + b, d) == refusals(a, d) + refusals(b, d),
{
    Seq::filter_distributes_over_add(a, b, |x: Unreadable| x.denial == d);
}

/// Counts the refusals of a list.
pub fn count_denials(entries: &Vec<Unreadable>) -> (r: Denials)
    ensures
        r.counts(entries@),
        r.sum() == entries@.len(),
{
    let mut denials = Denials::default();
    proof {
        reveal(Seq::filter);
    }
    for i in 0..entries.len()
        invariant
            denials.counts(entries@.take(i as int)),
    {
        let ghost before = entries@.take(i as int);
        proof {
            assert(entries@.take(i + 1) =~= before.push(entries@[i as int]));
            lemma_refusals_total(before);
            assert forall|d: Denial| true implies refusals(entries@.take(i + 1), d) == refusals(
                before,
                d,
            ) + (if entries@[i as int].denial == d {
                1nat
            } else {
                0
            }) by {
                lemma_refusals_push(before, entries@[i as int], d);
            }
            let mine = entries@[i as int].denial;
            assert(denials.count(mine) == refusals(before, mine));
            assert(refusals(before, mine) <= before.len());
        }
        denials.record(entries[i].denial);
    }
    proof {
        assert(entries@.take(entries@.len() as int) =~= entries@);
        lemma_refusals_total(entries@);
        assert(denials.count(Denial::Protected) == refusals(entries@, Denial::Protected));
        assert(denials.count(Denial::Forbidden) == refusals(entries@, Denial::Forbidden));
        assert(denials.count(Denial::Unattended) == refusals(entries@, Denial::Unattended));
    }
    denials
}

/// What the file system says of one entry.
#[derive(Debug, Clone, Copy, PartialEq, Eq, Structural)]
pub struct Meta {
    /// The volume it lies on.
    pub dev: u64,
    /// Its number on that volume.
    pub ino: u64,
    /// How many names it has.
    pub nlink: u64,
    /// The blocks allocated to it.
    pub blocks: u64,
    /// Whether it is a directory, as opposed to a file or a link.
    pub is_dir: bool,
}

impl Meta {
    /// The bytes allocated to the entry.
    pub open spec fn bytes(&self) -> int {
        self.blocks * BLOCK
    }
}

/// One entry of the file system as it answered: what it says of the entry, and,
/// of a directory, what opening it gave.
#[derive(Debug)]
pub struct Node {
    pub path: String,
    pub meta: Result<Meta, OpenError>,
    pub listing: Listing,
}

/// What opening a directory gave.
#[derive(Debug)]
pub enum Listing {
    Opened(Vec<Node>),
    Refused(OpenError),
}

/// The bytes of everything at and below an entry, each name counted.
pub open spec fn weight(node: Node) -> int
    decreases node,
{
    let own = match node.meta {
        Ok(m) => m.bytes(),
        Err(_) => 0,
    };
    match node.listing {
        Listing::Opened(entries) => own + weight_all(entries@),
        Listing::Refused(_) => own,
    }
}

/// The bytes of everything at and below a list of entries.
pub open spec fn weight_all(entries: Seq<Node>) -> int
    decreases entries,
{
    if entries.len() == 0 {
        0
    } else {
        weight_all(entries.drop_last()) + weight(entries.last())
    }
}

/// The entries at and below one.
pub open spec fn headcount(node: Node) -> nat
    decreases node,
{
    match node.listing {
        Listing::Opened(entries) => 1 + headcount_all(entries@),
        Listing::Refused(_) => 1,
    }
}

/// The entries at and below a list of entries.
pub open spec fn headcount_all(entries: Seq<Node>) -> nat
    decreases entries,
{
    if entries.len() == 0 {
        0
    } else {
        headcount_all(entries.drop_last()) + headcount(entries.last())
    }
}

pub(crate) proof fn lemma_weight_nonneg(node: Node)
    ensures
        weight(node) >= 0,
        node.meta matches Ok(m) ==> m.bytes() <= weight(node),
        node.listing matches Listing::Opened(entries) ==> weight_all(entries@) <= weight(node),
    decreases node,
{
    match node.listing {
        Listing::Opened(entries) => {
            lemma_weight_all_nonneg(entries@);
        },
        Listing::Refused(_) => {},
    }
    match node.meta {
        Ok(m) => {
            assert(m.bytes() >= 0);
        },
        Err(_) => {},
    }
}

proof fn lemma_weight_all_nonneg(entries: Seq<Node>)
    ensures
        weight_all(entries) >= 0,
    decreases entries,
{
    if entries.len() > 0 {
        lemma_weight_all_nonneg(entries.drop_last());
        lemma_weight_nonneg(entries.last());
    }
}

proof fn lemma_weight_prefix(entries: Seq<Node>, n: int)
    requires
        0 <= n <= entries.len(),
    ensures
        weight_all(entries.take(n)) <= weight_all(entries),
    decreases entries.len() - n,
{
    if n == entries.len() {
        assert(entries.take(n) =~= entries);
    } else {
        lemma_weight_prefix(entries, n + 1);
        assert(entries.take(n + 1).drop_last() =~= entries.take(n));
        lemma_weight_nonneg(entries[n]);
    }
}

/// What a walk has counted so far.
#[verifier::ext_equal]
pub ghost struct Tally {
    /// Bytes charged.
    pub bytes: int,
    /// Bytes charged to each rule.
    pub sizes: Seq<int>,
    /// Entries with more than one name that were charged already, as volume and
    /// number.
    pub seen: Set<(u64, u64)>,
    /// Directories that would not open, in the order they were met.
    pub refused: Seq<(Seq<char>, Denial)>,
}

/// The bytes that charging an entry adds: nothing for a second name of one that
/// was charged already.
pub open spec fn charge_of(m: Meta, seen: Set<(u64, u64)>) -> int {
    if m.nlink > 1 && seen.contains((m.dev, m.ino)) {
        0
    } else {
        m.bytes()
    }
}

/// The tally after an entry is charged to a rule, or to none.
pub open spec fn charged(t: Tally, m: Meta, rule: Option<int>) -> Tally {
    let bytes = charge_of(m, t.seen);
    Tally {
        bytes: t.bytes + bytes,
        sizes: match rule {
            Some(r) => t.sizes.update(r, t.sizes[r] + bytes),
            None => t.sizes,
        },
        seen: if m.nlink > 1 {
            t.seen.insert((m.dev, m.ino))
        } else {
            t.seen
        },
        refused: t.refused,
    }
}

/// The tally after a directory is recorded as one that would not open.
pub open spec fn turned_away(t: Tally, path: Seq<char>, denial: Denial) -> Tally {
    Tally { refused: t.refused.push((path, denial)), ..t }
}

/// What a walk goes by: the paths of the rules, of the roots, of the directories
/// to leave closed, and the volume to stay on.
pub ghost struct Ground {
    pub rules: Seq<Seq<Seq<char>>>,
    pub skip: Seq<Seq<Seq<char>>>,
    pub closed: Seq<Seq<Seq<char>>>,
    pub dev: u64,
}

/// The rule for a path: its own, or else the one above it.
pub open spec fn rule_at(
    rules: Seq<Seq<Seq<char>>>,
    path: Seq<char>,
    inherited: Option<int>,
) -> Option<int> {
    match paths::last_listed(rules, paths::components(path)) {
        Some(i) => Some(i),
        None => inherited,
    }
}

/// The tally after a directory is walked, itself included.
pub open spec fn walked(g: Ground, dir: Node, rule: Option<int>, t: Tally) -> Tally
    decreases dir,
{
    let own = match dir.meta {
        Ok(m) => charged(t, m, rule),
        Err(_) => t,
    };
    if g.closed.contains(paths::components(dir.path@)) {
        turned_away(own, dir.path@, Denial::Unattended)
    } else {
        match dir.listing {
            Listing::Refused(e) => turned_away(own, dir.path@, denial_of(e.errno)),
            Listing::Opened(entries) => walked_all(g, entries@, rule, own),
        }
    }
}

/// The tally after every entry of a directory is walked.
pub open spec fn walked_all(g: Ground, entries: Seq<Node>, rule: Option<int>, t: Tally) -> Tally
    decreases entries,
{
    if entries.len() == 0 {
        t
    } else {
        let before = walked_all(g, entries.drop_last(), rule, t);
        let e = entries.last();
        match e.meta {
            Err(_) => before,
            Ok(m) => {
                let r = rule_at(g.rules, e.path@, rule);
                if m.dev != g.dev {
                    before
                } else if !m.is_dir {
                    charged(before, m, r)
                } else if g.skip.contains(paths::components(e.path@)) {
                    before
                } else {
                    walked(g, e, r, before)
                }
            },
        }
    }
}

/// The entries with more than one name that were charged already.
pub struct Seen {
    keys: HashSet<u128>,
}

/// A volume and a number on it as one integer.
spec fn inode_key(dev: u64, ino: u64) -> u128 {
    (dev * 0x1_0000_0000_0000_0000 + ino) as u128
}

impl Seen {
    /// The entries seen, as volume and number.
    pub closed spec fn view(&self) -> Set<(u64, u64)> {
        Set::new(|p: (u64, u64)| self.keys@.contains(inode_key(p.0, p.1)))
    }

    /// Nothing seen yet.
    pub fn new() -> (r: Self)
        ensures
            r@ == Set::<(u64, u64)>::empty(),
    {
        broadcast use vstd::std_specs::hash::group_hash_axioms;

        let r = Seen { keys: HashSet::new() };
        assert(r@ =~= Set::<(u64, u64)>::empty());
        r
    }

    /// Notes an entry and says whether it was new.
    pub fn note(&mut self, dev: u64, ino: u64) -> (fresh: bool)
        ensures
            fresh == !old(self)@.contains((dev, ino)),
            final(self)@ == old(self)@.insert((dev, ino)),
    {
        broadcast use vstd::std_specs::hash::group_hash_axioms;

        let key: u128 = dev as u128 * 0x1_0000_0000_0000_0000u128 + ino as u128;
        assert(key == inode_key(dev, ino));
        let fresh = self.keys.insert(key);
        assert(final(self)@ =~= old(self)@.insert((dev, ino)));
        fresh
    }
}

/// The bytes to charge for an entry, noting it where it has several names.
pub fn charge(meta: &Meta, seen: &mut Seen) -> (r: u64)
    requires
        meta.bytes() <= u64::MAX,
    ensures
        r == charge_of(*meta, old(seen)@),
        final(seen)@ == (if meta.nlink > 1 {
            old(seen)@.insert((meta.dev, meta.ino))
        } else {
            old(seen)@
        }),
{
    if meta.nlink > 1 && !seen.note(meta.dev, meta.ino) {
        return 0;
    }
    meta.blocks * BLOCK
}

/// The lengths of a run of counters as integers.
pub open spec fn ints(v: Seq<u64>) -> Seq<int> {
    Seq::new(v.len(), |i: int| v[i] as int)
}

/// The sum of a run of counters.
pub open spec fn total_of(v: Seq<int>) -> int {
    sum_of(v, |x: int| x)
}

/// The reasons recorded for a list of refusals.
pub open spec fn views(v: Seq<Unreadable>) -> Seq<(Seq<char>, Denial)> {
    Seq::new(v.len(), |i: int| v[i]@)
}

/// Raising one counter raises the sum by as much.
pub proof fn lemma_total_update(v: Seq<int>, i: int, x: int)
    requires
        0 <= i < v.len(),
    ensures
        total_of(v.update(i, x)) == total_of(v) - v[i] + x,
    decreases v.len(),
{
    let w = v.update(i, x);
    if i == v.len() - 1 {
        assert(w.drop_last() =~= v.drop_last());
    } else {
        lemma_total_update(v.drop_last(), i, x);
        assert(w.drop_last() =~= v.drop_last().update(i, x));
    }
}

/// Where no counter is negative, none is larger than the sum.
pub proof fn lemma_total_bounds(v: Seq<int>, i: int)
    requires
        0 <= i < v.len(),
        forall|k: int| 0 <= k < v.len() ==> 0 <= #[trigger] v[k],
    ensures
        0 <= v[i] <= total_of(v),
    decreases v.len(),
{
    order::lemma_sum_prefix(v, |x: int| x, i);
    order::lemma_sum_prefix(v, |x: int| x, i + 1);
    assert(v.take(i + 1).drop_last() =~= v.take(i));
}

/// One walk through a directory tree.
pub struct Walker<'a> {
    rules: &'a PathList,
    skip: &'a PathList,
    closed: &'a PathList,
    dev: u64,
    bytes: u64,
    rule_sizes: Vec<u64>,
    unreadable: Vec<Unreadable>,
}

impl<'a> Walker<'a> {
    /// What the walk goes by.
    pub closed spec fn ground(&self) -> Ground {
        Ground { rules: self.rules@, skip: self.skip@, closed: self.closed@, dev: self.dev }
    }

    /// What the walk has counted, with the entries seen before and since.
    pub closed spec fn tally(&self, seen: Set<(u64, u64)>) -> Tally {
        Tally {
            bytes: self.bytes as int,
            sizes: ints(self.rule_sizes@),
            seen,
            refused: views(self.unreadable@),
        }
    }

    /// The rules account for no more than was charged.
    pub closed spec fn wf(&self) -> bool {
        &&& self.rule_sizes@.len() == self.rules@.len()
        &&& total_of(ints(self.rule_sizes@)) <= self.bytes
    }

    fn charge_to(&mut self, meta: &Meta, rule: Option<usize>, seen: &mut Seen) -> (r: u64)
        requires
            old(self).wf(),
            rule matches Some(r) ==> r < old(self).rules@.len(),
            old(self).bytes + meta.bytes() <= u64::MAX,
        ensures
            final(self).wf(),
            final(self).ground() == old(self).ground(),
            r == charge_of(*meta, old(seen)@),
            final(self).bytes == old(self).bytes + r,
            r <= meta.bytes(),
            final(self).unreadable@ == old(self).unreadable@,
            final(self).tally(final(seen)@) == charged(
                old(self).tally(old(seen)@),
                *meta,
                match rule {
                    Some(r) => Some(r as int),
                    None => None,
                },
            ),
    {
        let ghost sizes = ints(self.rule_sizes@);
        let bytes = charge(meta, seen);
        self.bytes = self.bytes + bytes;
        if let Some(r) = rule {
            proof {
                assert forall|k: int| 0 <= k < sizes.len() implies 0 <= #[trigger] sizes[k] by {}
                lemma_total_bounds(sizes, r as int);
                lemma_total_update(sizes, r as int, sizes[r as int] + bytes);
            }
            let size = self.rule_sizes[r];
            self.rule_sizes.set(r, size + bytes);
            assert(ints(self.rule_sizes@) =~= sizes.update(r as int, sizes[r as int] + bytes));
        }
        bytes
    }

    fn turn_away(&mut self, path: &String, denial: Denial, seen: Ghost<Set<(u64, u64)>>)
        requires
            old(self).wf(),
        ensures
            final(self).wf(),
            final(self).ground() == old(self).ground(),
            final(self).bytes == old(self).bytes,
            final(self).unreadable@.len() == old(self).unreadable@.len() + 1,
            final(self).tally(seen@) == turned_away(old(self).tally(seen@), path@, denial),
    {
        self.unreadable.push(Unreadable { path: path.clone(), denial });
        assert(views(self.unreadable@) =~= views(old(self).unreadable@).push((path@, denial)));
    }

    /// Counts a directory and everything below it on top of what was counted.
    fn visit(&mut self, dir: &Node, rule: Option<usize>, seen: &mut Seen)
        requires
            old(self).wf(),
            rule matches Some(r) ==> r < old(self).rules@.len(),
            old(self).bytes + weight(*dir) <= u64::MAX,
        ensures
            final(self).wf(),
            final(self).ground() == old(self).ground(),
            final(self).bytes <= old(self).bytes + weight(*dir),
            final(self).unreadable@.len() <= old(self).unreadable@.len() + headcount(*dir),
            final(self).tally(final(seen)@) == walked(
                old(self).ground(),
                *dir,
                match rule {
                    Some(r) => Some(r as int),
                    None => None,
                },
                old(self).tally(old(seen)@),
            ),
        decreases *dir,
    {
        let ghost g = self.ground();
        let ghost up = match rule {
            Some(r) => Some(r as int),
            None => None,
        };
        proof {
            lemma_weight_nonneg(*dir);
        }
        if let Ok(meta) = &dir.meta {
            self.charge_to(meta, rule, seen);
        }
        let here = paths::split_path(&dir.path);
        if self.closed.has(&here) {
            self.turn_away(&dir.path, Denial::Unattended, Ghost(seen@));
            return;
        }
        match &dir.listing {
            Listing::Refused(e) => {
                self.turn_away(&dir.path, Denial::of(e), Ghost(seen@));
            },
            Listing::Opened(entries) => {
                let ghost own = self.tally(seen@);
                let ghost base = self.bytes as int;
                let ghost listed = self.unreadable@.len();
                for i in 0..entries.len()
                    invariant
                        self.wf(),
                        self.ground() == g,
                        g.rules == self.rules@,
                        g.skip == self.skip@,
                        g.dev == self.dev,
                        dir.listing == Listing::Opened(*entries),
                        rule matches Some(r) ==> r < g.rules.len(),
                        up == (match rule {
                            Some(r) => Some(r as int),
                            None => None,
                        }),
                        base + weight_all(entries@) <= u64::MAX,
                        self.bytes <= base + weight_all(entries@.take(i as int)),
                        self.unreadable@.len() <= listed + headcount_all(entries@.take(i as int)),
                        self.tally(seen@) == walked_all(g, entries@.take(i as int), up, own),
                {
                    let ghost before = entries@.take(i as int);
                    let e = &entries[i];
                    proof {
                        assert(entries@.take(i + 1).drop_last() =~= before);
                        assert(entries@.take(i + 1).last() == entries@[i as int]);
                        lemma_weight_prefix(entries@, i + 1);
                        lemma_weight_nonneg(*e);
                        assert(*e == dir.listing->Opened_0@[i as int]);
                        assert(decreases_to!(*dir => dir.listing->Opened_0@[i as int]));
                    }
                    if let Ok(meta) = &e.meta {
                        if meta.dev == self.dev {
                            let there = paths::split_path(&e.path);
                            let own_rule = self.rules.find(&there);
                            proof {
                                paths::lemma_last_listed(self.rules@, paths::components(e.path@));
                            }
                            let r: Option<usize> = match own_rule {
                                Some(k) => Some(k),
                                None => rule,
                            };
                            if meta.is_dir {
                                if !self.skip.has(&there) {
                                    self.visit(e, r, seen);
                                }
                            } else {
                                self.charge_to(meta, r, seen);
                            }
                        }
                    }
                }
                assert(entries@.take(entries@.len() as int) =~= entries@);
            },
        }
    }
}

/// Nothing counted yet, with the entries that others have seen.
pub open spec fn fresh(rules: nat, seen: Set<(u64, u64)>) -> Tally {
    Tally { bytes: 0, sizes: Seq::new(rules, |i: int| 0int), seen, refused: Seq::empty() }
}

/// An index as an integer.
pub open spec fn index_opt(rule: Option<usize>) -> Option<int> {
    match rule {
        Some(r) => Some(r as int),
        None => None,
    }
}

/// A run of zeros adds up to nothing.
pub proof fn lemma_zero_total(n: nat)
    ensures
        total_of(Seq::new(n, |i: int| 0int)) == 0,
    decreases n,
{
    let v = Seq::new(n, |i: int| 0int);
    if n > 0 {
        lemma_zero_total((n - 1) as nat);
        assert(v.drop_last() =~= Seq::new((n - 1) as nat, |i: int| 0int));
    }
}

/// A run of `n` zeros.
fn zeros(n: usize) -> (r: Vec<u64>)
    ensures
        ints(r@) == Seq::new(n as nat, |i: int| 0int),
{
    let mut v: Vec<u64> = Vec::new();
    for i in 0..n
        invariant
            v@.len() == i,
            forall|k: int| 0 <= k < i ==> v@[k] == 0,
    {
        v.push(0);
    }
    assert(ints(v@) =~= Seq::new(n as nat, |i: int| 0int));
    v
}

impl<'a> Walker<'a> {
    /// A walk that has counted nothing.
    pub fn new(
        rules: &'a PathList,
        rule_count: usize,
        skip: &'a PathList,
        closed: &'a PathList,
        dev: u64,
    ) -> (r: Self)
        requires
            rule_count == rules@.len(),
        ensures
            r.wf(),
            r.ground() == (Ground { rules: rules@, skip: skip@, closed: closed@, dev }),
            forall|seen: Set<(u64, u64)>|
                #[trigger] r.tally(seen) == fresh(rules@.len(), seen),
    {
        let rule_sizes = zeros(rule_count);
        proof {
            lemma_zero_total(rule_count as nat);
        }
        let r = Walker {
            rules,
            skip,
            closed,
            dev,
            bytes: 0,
            rule_sizes,
            unreadable: Vec::new(),
        };
        assert(views(r.unreadable@) =~= Seq::<(Seq<char>, Denial)>::empty());
        r
    }

    /// Counts `dir` and everything below it, each byte charged to `rule` unless
    /// something deeper claims it, and gives the bytes counted.
    pub fn walk(&mut self, dir: &Node, rule: Option<usize>, seen: &mut Seen) -> (total: u64)
        requires
            old(self).wf(),
            rule matches Some(r) ==> r < old(self).ground().rules.len(),
            old(self).tally(old(seen)@).bytes + weight(*dir) <= u64::MAX,
        ensures
            final(self).wf(),
            final(self).ground() == old(self).ground(),
            final(self).tally(final(seen)@) == walked(
                old(self).ground(),
                *dir,
                index_opt(rule),
                old(self).tally(old(seen)@),
            ),
            total == final(self).tally(final(seen)@).bytes - old(self).tally(old(seen)@).bytes,
    {
        proof {
            lemma_walked_grows(self.ground(), *dir, index_opt(rule), self.tally(seen@));
        }
        let before = self.bytes;
        self.visit(dir, rule, seen);
        self.bytes - before
    }

    /// Why `dir` itself would not open, if it would not.
    pub fn refusal_at(&self, dir: &str) -> (r: Option<Denial>)
        ensures
            forall|seen: Set<(u64, u64)>|
                r == refusal_in((#[trigger] self.tally(seen)).refused, dir@),
    {
        let ghost all = views(self.unreadable@);
        for i in 0..self.unreadable.len()
            invariant
                all == views(self.unreadable@),
                refusal_in(all.take(i as int), dir@) is None,
        {
            assert(all.take(i + 1).drop_last() =~= all.take(i as int));
            if paths::same(&self.unreadable[i].path, dir) {
                proof {
                    lemma_refusal_prefix(all, dir@, i + 1);
                }
                return Some(self.unreadable[i].denial);
            }
        }
        assert(all.take(all.len() as int) =~= all);
        None
    }
}

/// A walk never takes back a byte it counted.
pub proof fn lemma_walked_grows(g: Ground, dir: Node, rule: Option<int>, t: Tally)
    ensures
        t.bytes <= walked(g, dir, rule, t).bytes,
    decreases dir,
{
    let own = match dir.meta {
        Ok(m) => charged(t, m, rule),
        Err(_) => t,
    };
    match dir.listing {
        Listing::Opened(entries) => {
            lemma_walked_all_grows(g, entries@, rule, own);
        },
        Listing::Refused(_) => {},
    }
    if let Ok(m) = dir.meta {
        assert(m.bytes() >= 0);
    }
}

proof fn lemma_walked_all_grows(g: Ground, entries: Seq<Node>, rule: Option<int>, t: Tally)
    ensures
        t.bytes <= walked_all(g, entries, rule, t).bytes,
    decreases entries,
{
    if entries.len() > 0 {
        lemma_walked_all_grows(g, entries.drop_last(), rule, t);
        let before = walked_all(g, entries.drop_last(), rule, t);
        let e = entries.last();
        lemma_walked_grows(g, e, rule_at(g.rules, e.path@, rule), before);
        if let Ok(m) = e.meta {
            assert(m.bytes() >= 0);
        }
    }
}

/// The first reason recorded for a path.
pub open spec fn refusal_in(refused: Seq<(Seq<char>, Denial)>, path: Seq<char>) -> Option<Denial>
    decreases refused.len(),
{
    if refused.len() == 0 {
        None
    } else {
        match refusal_in(refused.drop_last(), path) {
            Some(d) => Some(d),
            None => if paths::same_path(refused.last().0, path) {
                Some(refused.last().1)
            } else {
                None
            },
        }
    }
}

proof fn lemma_refusal_prefix(refused: Seq<(Seq<char>, Denial)>, path: Seq<char>, n: int)
    requires
        0 <= n <= refused.len(),
        refusal_in(refused.take(n), path) is Some,
    ensures
        refusal_in(refused, path) == refusal_in(refused.take(n), path),
    decreases refused.len() - n,
{
    if n == refused.len() {
        assert(refused.take(n) =~= refused);
    } else {
        assert(refused.take(n + 1).drop_last() =~= refused.take(n));
        lemma_refusal_prefix(refused, path, n + 1);
    }
}

/// One directory right below a root, to be walked by itself.
#[derive(Debug)]
pub struct Job {
    /// The root it lies under.
    pub root: usize,
    /// Its place in the listing of that root.
    pub entry: usize,
    pub path: String,
    /// The rule that its bytes go to unless something deeper claims them.
    pub rule: Option<usize>,
    pub dev: u64,
}

/// What a job is, in mathematical terms.
pub ghost struct JobView {
    pub root: int,
    pub entry: int,
    pub path: Seq<char>,
    pub rule: Option<int>,
    pub dev: u64,
}

impl Job {
    /// What the job is.
    pub open spec fn view(&self) -> JobView {
        JobView {
            root: self.root as int,
            entry: self.entry as int,
            path: self.path@,
            rule: index_opt(self.rule),
            dev: self.dev,
        }
    }
}

/// What the jobs of a list are.
pub open spec fn job_views(v: Seq<Job>) -> Seq<JobView> {
    Seq::new(v.len(), |i: int| v[i]@)
}

/// What walking one job gave.
#[derive(Debug)]
pub struct JobResult {
    pub root: usize,
    pub path: String,
    pub total: u64,
    /// Set when this child's own directory would not open, as opposed to
    /// something deeper inside it refusing.
    pub refused: Option<Denial>,
    pub unattributed: u64,
    pub rule_sizes: Vec<u64>,
    pub unreadable: Vec<Unreadable>,
}

impl JobResult {
    /// The result accounts for every byte: to a rule, or to none.
    pub open spec fn wf(&self, rules: nat) -> bool {
        &&& self.rule_sizes@.len() == rules
        &&& total_of(ints(self.rule_sizes@)) + self.unattributed == self.total
    }

    /// The result reports what a walk counted.
    pub open spec fn reports(&self, job: JobView, t: Tally) -> bool {
        &&& self.root == job.root
        &&& self.path@ == job.path
        &&& self.total == t.bytes
        &&& self.refused == refusal_in(t.refused, job.path)
        &&& self.unattributed == t.bytes - total_of(t.sizes)
        &&& ints(self.rule_sizes@) == t.sizes
        &&& views(self.unreadable@) == t.refused
    }
}

/// The sum of a run of counters.
fn sum(v: &Vec<u64>) -> (r: u64)
    requires
        total_of(ints(v@)) <= u64::MAX,
    ensures
        r == total_of(ints(v@)),
{
    let ghost all = ints(v@);
    let mut s: u64 = 0;
    for i in 0..v.len()
        invariant
            all == ints(v@),
            total_of(all) <= u64::MAX,
            s == total_of(all.take(i as int)),
    {
        proof {
            assert(all.take(i + 1).drop_last() =~= all.take(i as int));
            assert forall|k: int| 0 <= k < all.len() implies 0 <= #[trigger] all[k] by {}
            order::lemma_sum_prefix(all, |x: int| x, i + 1);
        }
        s = s + v[i];
    }
    assert(all.take(all.len() as int) =~= all);
    s
}

/// Walks one job.
pub fn run_job(
    job: &Job,
    dir: &Node,
    rules: &PathList,
    rule_count: usize,
    skip: &PathList,
    closed: &PathList,
    seen: &mut Seen,
) -> (r: JobResult)
    requires
        rule_count == rules@.len(),
        job.rule matches Some(r) ==> r < rules@.len(),
        weight(*dir) <= u64::MAX,
    ensures
        ({
            let g = Ground { rules: rules@, skip: skip@, closed: closed@, dev: job.dev };
            let t = walked(g, *dir, index_opt(job.rule), fresh(rules@.len(), old(seen)@));
            r.reports(job@, t) && final(seen)@ == t.seen
        }),
        r.wf(rules@.len()),
        r.total <= weight(*dir),
        r.unreadable@.len() <= headcount(*dir),
{
    let mut walker = Walker::new(rules, rule_count, skip, closed, job.dev);
    assert(walker.tally(seen@) == fresh(rules@.len(), seen@));
    assert(walker.unreadable@.len() == 0) by {
        assert(walker.tally(seen@).refused.len() == 0);
    }
    assert(walker.bytes == 0) by {
        assert(walker.tally(seen@).bytes == 0);
    }
    walker.visit(dir, job.rule, seen);
    let total = walker.bytes;
    proof {
        let all = ints(walker.rule_sizes@);
        assert forall|k: int| 0 <= k < all.len() implies 0 <= #[trigger] all[k] by {}
        order::lemma_sum_prefix(all, |x: int| x, all.len() as int);
        assert(all.take(all.len() as int) =~= all);
    }
    let attributed = sum(&walker.rule_sizes);
    let refused = walker.refusal_at(&job.path);
    let ghost t = walker.tally(seen@);
    assert(refused == refusal_in(t.refused, job.path@));
    JobResult {
        root: job.root,
        path: job.path.clone(),
        total,
        refused,
        unattributed: total - attributed,
        rule_sizes: walker.rule_sizes,
        unreadable: walker.unreadable,
    }
}

/// A named slice of the volume. Roots never overlap: one is skipped whenever the
/// walk of another reaches it.
#[derive(Debug)]
pub struct Root {
    pub name: String,
    pub path: String,
}

/// A path whose bytes get a category name. A byte no rule matches still counts,
/// it just counts as unattributed.
#[derive(Debug)]
pub struct Rule {
    pub category: String,
    pub label: String,
    pub path: String,
}

/// The paths of a list of roots.
pub open spec fn root_paths(roots: Seq<Root>) -> Seq<Seq<char>> {
    Seq::new(roots.len(), |i: int| roots[i].path@)
}

/// The paths of a list of rules.
pub open spec fn rule_paths(rules: Seq<Rule>) -> Seq<Seq<char>> {
    Seq::new(rules.len(), |i: int| rules[i].path@)
}

/// What enumerating a root itself gave: its loose files, and what refused.
#[derive(Debug)]
pub struct RootSeed {
    pub loose_bytes: u64,
    pub rule_sizes: Vec<u64>,
    pub unreadable: Vec<Unreadable>,
}

impl RootSeed {
    /// The rules account for no more than the loose files hold.
    pub open spec fn wf(&self, rules: nat) -> bool {
        &&& self.rule_sizes@.len() == rules
        &&& total_of(ints(self.rule_sizes@)) <= self.loose_bytes
    }

    /// The seed reports what was counted.
    pub open spec fn reports(&self, t: Tally) -> bool {
        &&& self.loose_bytes == t.bytes
        &&& ints(self.rule_sizes@) == t.sizes
        &&& views(self.unreadable@) == t.refused
    }
}

/// The tally after a failure at a root: only a refusal is recorded. A path that
/// is gone, or is no directory, holds nothing.
pub open spec fn failed_at(t: Tally, path: Seq<char>, e: OpenError) -> Tally {
    if e.permission_denied {
        turned_away(t, path, denial_of(e.errno))
    } else {
        t
    }
}

/// What enumerating the entries of a root gives: loose files are counted, and
/// every directory that is no root becomes a job.
pub open spec fn enumerated(
    g: Ground,
    root: int,
    entries: Seq<Node>,
    inherited: Option<int>,
    t: Tally,
    jobs: Seq<JobView>,
) -> (Tally, Seq<JobView>)
    decreases entries.len(),
{
    if entries.len() == 0 {
        (t, jobs)
    } else {
        let (before, found) = enumerated(g, root, entries.drop_last(), inherited, t, jobs);
        let e = entries.last();
        match e.meta {
            Err(_) => (before, found),
            Ok(m) => {
                let rule = rule_at(g.rules, e.path@, inherited);
                if m.dev != g.dev {
                    (before, found)
                } else if !m.is_dir {
                    (charged(before, m, rule), found)
                } else if g.skip.contains(paths::components(e.path@)) {
                    (before, found)
                } else {
                    let job = JobView {
                        root,
                        entry: entries.len() - 1,
                        path: e.path@,
                        rule,
                        dev: g.dev,
                    };
                    (before, found.push(job))
                }
            },
        }
    }
}

/// What enumerating one root gives.
pub open spec fn planned_root(
    rules: Seq<Seq<Seq<char>>>,
    skip: Seq<Seq<Seq<char>>>,
    closed: Seq<Seq<Seq<char>>>,
    root: int,
    path: Seq<char>,
    node: Node,
    seen: Set<(u64, u64)>,
    jobs: Seq<JobView>,
) -> (Tally, Seq<JobView>) {
    let t = fresh(rules.len(), seen);
    match node.meta {
        Err(e) => (failed_at(t, path, e), jobs),
        Ok(m) => if closed.contains(paths::components(path)) {
            (turned_away(t, path, Denial::Unattended), jobs)
        } else {
            match node.listing {
                Listing::Refused(e) => (failed_at(t, path, e), jobs),
                Listing::Opened(entries) => enumerated(
                    Ground { rules, skip, closed, dev: m.dev },
                    root,
                    entries@,
                    paths::last_listed(rules, paths::components(path)),
                    t,
                    jobs,
                ),
            }
        },
    }
}

/// What enumerating the roots gives: a tally for each, the jobs, and the entries
/// seen.
pub ghost struct Planned {
    pub seeds: Seq<Tally>,
    pub jobs: Seq<JobView>,
    pub seen: Set<(u64, u64)>,
}

/// What enumerating the first `n` roots gives.
pub open spec fn planned(
    rules: Seq<Seq<Seq<char>>>,
    skip: Seq<Seq<Seq<char>>>,
    closed: Seq<Seq<Seq<char>>>,
    roots: Seq<Seq<char>>,
    nodes: Seq<Node>,
    n: nat,
) -> Planned
    decreases n,
{
    if n == 0 {
        Planned { seeds: Seq::empty(), jobs: Seq::empty(), seen: Set::empty() }
    } else {
        let k = n - 1;
        let before = planned(rules, skip, closed, roots, nodes, k as nat);
        let (t, jobs) = planned_root(
            rules,
            skip,
            closed,
            k,
            roots[k],
            nodes[k],
            before.seen,
            before.jobs,
        );
        Planned { seeds: before.seeds.push(t), jobs, seen: t.seen }
    }
}

/// The node that a job is to walk.
pub open spec fn job_node(nodes: Seq<Node>, job: JobView) -> Node {
    nodes[job.root].listing->Opened_0@[job.entry]
}

/// A job names an entry of the listing of its root, by the path it has there.
pub open spec fn job_fits(nodes: Seq<Node>, rules: nat, job: JobView) -> bool {
    &&& 0 <= job.root < nodes.len()
    &&& nodes[job.root].listing is Opened
    &&& 0 <= job.entry < nodes[job.root].listing->Opened_0@.len()
    &&& job.path == job_node(nodes, job).path@
    &&& (job.rule matches Some(r) ==> 0 <= r < rules)
}

/// The bytes at and below the nodes of a list of jobs.
pub open spec fn jobs_weight(nodes: Seq<Node>, jobs: Seq<JobView>) -> int {
    sum_of(jobs, |j: JobView| weight(job_node(nodes, j)))
}

/// The entries at and below the nodes of a list of jobs.
pub open spec fn jobs_headcount(nodes: Seq<Node>, jobs: Seq<JobView>) -> int {
    sum_of(jobs, |j: JobView| headcount(job_node(nodes, j)) as int)
}

/// A refusal, if the failure is one.
pub fn refusal(path: &str, error: &OpenError) -> (r: Option<Unreadable>)
    ensures
        match r {
            Some(u) => error.permission_denied && u@ == (path@, denial_of(error.errno)),
            None => !error.permission_denied,
        },
{
    if error.permission_denied {
        Some(Unreadable { path: path.to_owned(), denial: Denial::of(error) })
    } else {
        None
    }
}

/// The record of a directory that was left closed.
pub fn unattended(path: &str) -> (r: Unreadable)
    ensures
        r@ == (path@, Denial::Unattended),
{
    Unreadable { path: path.to_owned(), denial: Denial::Unattended }
}

/// The work that a sweep comes down to: what was measured while enumerating the
/// roots themselves, and one job for every directory right below them.
#[derive(Debug)]
pub struct Plan {
    pub jobs: Vec<Job>,
    pub roots: Vec<RootSeed>,
}

fn plan_entries(
    root: usize,
    entries: &Vec<Node>,
    inherited: Option<usize>,
    walker: &mut Walker<'_>,
    seen: &mut Seen,
    jobs: &mut Vec<Job>,
    nodes: Ghost<Seq<Node>>,
)
    requires
        old(walker).wf(),
        old(walker).bytes == 0,
        inherited matches Some(r) ==> r < old(walker).rules@.len(),
        weight_all(entries@) <= u64::MAX,
        root < nodes@.len(),
        nodes@[root as int].listing == Listing::Opened(*entries),
        forall|k: int|
            0 <= k < old(jobs)@.len() ==> job_fits(
                nodes@,
                old(walker).rules@.len(),
                #[trigger] old(jobs)@[k]@,
            ),
    ensures
        final(walker).wf(),
        final(walker).ground() == old(walker).ground(),
        final(walker).unreadable@ == old(walker).unreadable@,
        (final(walker).tally(final(seen)@), job_views(final(jobs)@)) == enumerated(
            old(walker).ground(),
            root as int,
            entries@,
            index_opt(inherited),
            old(walker).tally(old(seen)@),
            job_views(old(jobs)@),
        ),
        forall|k: int|
            0 <= k < final(jobs)@.len() ==> job_fits(
                nodes@,
                old(walker).rules@.len(),
                #[trigger] final(jobs)@[k]@,
            ),
        final(walker).bytes + jobs_weight(nodes@, job_views(final(jobs)@)) <= weight_all(entries@)
            + jobs_weight(nodes@, job_views(old(jobs)@)),
        jobs_headcount(nodes@, job_views(final(jobs)@)) <= headcount_all(entries@)
            + jobs_headcount(nodes@, job_views(old(jobs)@)),
{
    let ghost g = walker.ground();
    let ghost t = walker.tally(seen@);
    let ghost first = job_views(jobs@);
    let ghost heavy = |j: JobView| weight(job_node(nodes@, j));
    let ghost heads = |j: JobView| headcount(job_node(nodes@, j)) as int;
    let ghost count = walker.rules@.len();
    for i in 0..entries.len()
        invariant
            walker.wf(),
            walker.ground() == g,
            walker.unreadable@ == old(walker).unreadable@,
            g.rules == walker.rules@,
            g.skip == walker.skip@,
            g.dev == walker.dev,
            count == g.rules.len(),
            inherited matches Some(r) ==> r < count,
            weight_all(entries@) <= u64::MAX,
            root < nodes@.len(),
            nodes@[root as int].listing == Listing::Opened(*entries),
            heavy == (|j: JobView| weight(job_node(nodes@, j))),
            heads == (|j: JobView| headcount(job_node(nodes@, j)) as int),
            walker.bytes <= weight_all(entries@.take(i as int)),
            (walker.tally(seen@), job_views(jobs@)) == enumerated(
                g,
                root as int,
                entries@.take(i as int),
                index_opt(inherited),
                t,
                first,
            ),
            forall|k: int| 0 <= k < jobs@.len() ==> job_fits(nodes@, count, #[trigger] jobs@[k]@),
            walker.bytes + sum_of(job_views(jobs@), heavy) <= weight_all(entries@.take(i as int))
                + sum_of(first, heavy),
            sum_of(job_views(jobs@), heads) <= headcount_all(entries@.take(i as int)) + sum_of(
                first,
                heads,
            ),
    {
        let ghost before = entries@.take(i as int);
        let ghost found = job_views(jobs@);
        let e = &entries[i];
        proof {
            assert(entries@.take(i + 1).drop_last() =~= before);
            assert(entries@.take(i + 1).last() == *e);
            lemma_weight_prefix(entries@, i + 1);
            lemma_weight_nonneg(*e);
        }
        if let Ok(meta) = &e.meta {
            if meta.dev == walker.dev {
                let there = paths::split_path(&e.path);
                proof {
                    paths::lemma_last_listed(walker.rules@, paths::components(e.path@));
                }
                let rule: Option<usize> = match walker.rules.find(&there) {
                    Some(k) => Some(k),
                    None => inherited,
                };
                if !meta.is_dir {
                    walker.charge_to(meta, rule, seen);
                } else if !walker.skip.has(&there) {
                    let job = Job {
                        root,
                        entry: i,
                        path: e.path.clone(),
                        rule,
                        dev: walker.dev,
                    };
                    let ghost jv = job@;
                    jobs.push(job);
                    proof {
                        assert(job_views(jobs@) =~= found.push(jv));
                        order::lemma_sum_push(found, jv, heavy);
                        order::lemma_sum_push(found, jv, heads);
                        assert(job_node(nodes@, jv) == *e);
                    }
                }
            }
        }
    }
    assert(entries@.take(entries@.len() as int) =~= entries@);
}

/// Enumerates every root: counts its loose files and lists its directories.
pub fn plan(
    roots: &Vec<Root>,
    nodes: &Vec<Node>,
    rules: &PathList,
    rule_count: usize,
    skip: &PathList,
    closed: &PathList,
    seen: &mut Seen,
) -> (r: Plan)
    requires
        rule_count == rules@.len(),
        nodes@.len() == roots@.len(),
        weight_all(nodes@) <= u64::MAX,
        old(seen)@ == Set::<(u64, u64)>::empty(),
    ensures
        ({
            let p = planned(rules@, skip@, closed@, root_paths(roots@), nodes@, roots@.len());
            &&& final(seen)@ == p.seen
            &&& job_views(r.jobs@) == p.jobs
            &&& r.roots@.len() == p.seeds.len()
            &&& forall|k: int|
                0 <= k < p.seeds.len() ==> (#[trigger] r.roots@[k]).reports(p.seeds[k])
        }),
        r.roots@.len() == roots@.len(),
        forall|k: int| 0 <= k < r.roots@.len() ==> (#[trigger] r.roots@[k]).wf(rules@.len()),
        forall|k: int|
            0 <= k < r.jobs@.len() ==> job_fits(nodes@, rules@.len(), #[trigger] r.jobs@[k]@),
        sum_of(r.roots@, seed_bytes()) + jobs_weight(nodes@, job_views(r.jobs@)) <= weight_all(
            nodes@,
        ),
        sum_of(r.roots@, seed_refusals()) + jobs_headcount(nodes@, job_views(r.jobs@))
            <= headcount_all(nodes@),
{
    let mut jobs: Vec<Job> = Vec::new();
    let mut seeds: Vec<RootSeed> = Vec::new();
    let ghost at = root_paths(roots@);
    assert(job_views(jobs@) =~= Seq::<JobView>::empty());
    for k in 0..roots.len()
        invariant
            rule_count == rules@.len(),
            nodes@.len() == roots@.len(),
            weight_all(nodes@) <= u64::MAX,
            at == root_paths(roots@),
            seeds@.len() == k,
            ({
                let p = planned(rules@, skip@, closed@, at, nodes@, k as nat);
                &&& seen@ == p.seen
                &&& job_views(jobs@) == p.jobs
                &&& p.seeds.len() == k
                &&& forall|j: int| 0 <= j < k ==> (#[trigger] seeds@[j]).reports(p.seeds[j])
            }),
            forall|j: int| 0 <= j < k ==> (#[trigger] seeds@[j]).wf(rules@.len()),
            forall|j: int|
                0 <= j < jobs@.len() ==> job_fits(nodes@, rules@.len(), #[trigger] jobs@[j]@),
            sum_of(seeds@, seed_bytes()) + jobs_weight(nodes@, job_views(jobs@)) <= weight_all(
                nodes@.take(k as int),
            ),
            sum_of(seeds@, seed_refusals()) + jobs_headcount(nodes@, job_views(jobs@))
                <= headcount_all(nodes@.take(k as int)),
    {
        let root = &roots[k];
        let node = &nodes[k];
        let ghost before = seeds@;
        let ghost found = job_views(jobs@);
        let ghost old_seen = seen@;
        proof {
            assert(nodes@.take(k + 1).drop_last() =~= nodes@.take(k as int));
            lemma_weight_prefix(nodes@, k + 1);
            lemma_weight_all_nonneg(nodes@.take(k as int));
            lemma_weight_nonneg(*node);
            assert(headcount_all(nodes@.take(k + 1)) == headcount_all(nodes@.take(k as int))
                + headcount(*node));
            assert(headcount(*node) >= 1);
        }
        let here = paths::split_path(&root.path);
        let dev: u64 = match &node.meta {
            Ok(m) => m.dev,
            Err(_) => 0,
        };
        let mut walker = Walker::new(rules, rule_count, skip, closed, dev);
        assert(walker.tally(seen@) == fresh(rules@.len(), seen@));
        assert(walker.unreadable@.len() == 0) by {
            assert(walker.tally(seen@).refused.len() == 0);
        }
        assert(walker.bytes == 0) by {
            assert(walker.tally(seen@).bytes == 0);
        }
        match &node.meta {
            Err(e) => {
                if e.permission_denied {
                    walker.turn_away(&root.path, Denial::of(e), Ghost(seen@));
                }
            },
            Ok(m) => {
                if closed.has(&here) {
                    walker.turn_away(&root.path, Denial::Unattended, Ghost(seen@));
                } else {
                    match &node.listing {
                        Listing::Refused(e) => {
                            if e.permission_denied {
                                walker.turn_away(&root.path, Denial::of(e), Ghost(seen@));
                            }
                        },
                        Listing::Opened(entries) => {
                            let inherited = rules.find(&here);
                            proof {
                                paths::lemma_last_listed(rules@, paths::components(root.path@));
                            }
                            plan_entries(
                                k,
                                entries,
                                inherited,
                                &mut walker,
                                seen,
                                &mut jobs,
                                Ghost(nodes@),
                            );
                        },
                    }
                }
            },
        }
        let ghost t = walker.tally(seen@);
        proof {
            let whole = planned_root(
                rules@,
                skip@,
                closed@,
                k as int,
                at[k as int],
                *node,
                old_seen,
                found,
            );
            assert(whole == (t, job_views(jobs@)));
            assert(node.listing matches Listing::Opened(entries) ==> headcount(*node) == 1
                + headcount_all(entries@));
            assert(walker.unreadable@.len() + jobs_headcount(nodes@, job_views(jobs@))
                <= jobs_headcount(nodes@, found) + headcount(*node));
        }
        let seed = RootSeed {
            loose_bytes: walker.bytes,
            rule_sizes: walker.rule_sizes,
            unreadable: walker.unreadable,
        };
        proof {
            order::lemma_sum_push(before, seed, seed_bytes());
            order::lemma_sum_push(before, seed, seed_refusals());
        }
        seeds.push(seed);
    }
    assert(nodes@.take(nodes@.len() as int) =~= nodes@);
    Plan { jobs, roots: seeds }
}

/// The loose bytes of a seed.
pub open spec fn seed_bytes() -> spec_fn(RootSeed) -> int {
    |s: RootSeed| s.loose_bytes as int
}

/// The refusals of a seed.
pub open spec fn seed_refusals() -> spec_fn(RootSeed) -> int {
    |s: RootSeed| s.unreadable@.len() as int
}

/// The bytes of a result.
pub open spec fn job_bytes() -> spec_fn(JobResult) -> int {
    |r: JobResult| r.total as int
}

/// The bytes of a result that no rule claims.
pub open spec fn job_unattributed() -> spec_fn(JobResult) -> int {
    |r: JobResult| r.unattributed as int
}

/// The refusals of a result.
pub open spec fn job_refusals() -> spec_fn(JobResult) -> int {
    |r: JobResult| r.unreadable@.len() as int
}

/// The bytes that a seed gives to rule `i`.
pub open spec fn seed_rule(i: int) -> spec_fn(RootSeed) -> int {
    |s: RootSeed| s.rule_sizes@[i] as int
}

/// The bytes that a result gives to rule `i`.
pub open spec fn job_rule(i: int) -> spec_fn(JobResult) -> int {
    |r: JobResult| r.rule_sizes@[i] as int
}

/// The results that belong to a root.
pub open spec fn of_root(results: Seq<JobResult>, root: int) -> Seq<JobResult> {
    results.filter(|r: JobResult| r.root == root)
}

/// The results that belong to any of the first `n` roots.
pub open spec fn of_roots(results: Seq<JobResult>, n: int) -> Seq<JobResult> {
    results.filter(|r: JobResult| r.root < n)
}

/// Sizes in falling order.
impl Ranked for (String, u64) {
    open spec fn le(&self, other: &Self) -> bool {
        self.1 >= other.1
    }

    proof fn le_total(a: &Self, b: &Self) {
    }

    proof fn le_transitive(a: &Self, b: &Self, c: &Self) {
    }

    fn leq(&self, other: &Self) -> (r: bool) {
        self.1 >= other.1
    }
}

/// Each immediate child with its size, in the order the results came.
pub open spec fn child_sizes(mine: Seq<JobResult>) -> Seq<(String, u64)> {
    mine.map_values(|r: JobResult| (r.path, r.total))
}

/// Each immediate child with bytes that no rule claims, and how many.
pub open spec fn child_gaps(mine: Seq<JobResult>) -> Seq<(String, u64)> {
    mine.filter(|r: JobResult| r.unattributed > 0).map_values(
        |r: JobResult| (r.path, r.unattributed),
    )
}

/// Each immediate child whose own directory would not open.
pub open spec fn child_refusals(mine: Seq<JobResult>) -> Seq<(Seq<char>, Denial)> {
    mine.filter(|r: JobResult| r.refused is Some).map_values(
        |r: JobResult| (r.path@, r.refused->0),
    )
}

/// Everything below the immediate children that would not open.
pub open spec fn all_unreadable(mine: Seq<JobResult>) -> Seq<Unreadable>
    decreases mine.len(),
{
    if mine.len() == 0 {
        Seq::empty()
    } else {
        all_unreadable(mine.drop_last()) + mine.last().unreadable@
    }
}

/// The sample that is kept of what would not open: all of the root's own, and as
/// many more as the limit leaves room for.
pub open spec fn sample(own: Seq<Unreadable>, more: Seq<Unreadable>) -> Seq<Unreadable> {
    let room = MAX_UNREADABLE_LISTED - own.len();
    if room <= 0 {
        own
    } else if more.len() <= room {
        own + more
    } else {
        own + more.take(room)
    }
}

/// What was measured of one root.
#[derive(Debug)]
pub struct RootUsage {
    pub name: String,
    pub path: String,
    pub total: u64,
    /// Every immediate child with its subtree size, biggest first.
    pub children: Vec<(String, u64)>,
    /// The immediate children whose own directory would not open. Their size is
    /// unknown: nothing ever looked inside them.
    pub refused_children: Vec<Unreadable>,
    pub unattributed_total: u64,
    /// Immediate children holding unattributed bytes, biggest first.
    pub unattributed: Vec<(String, u64)>,
    /// A capped sample of the directories that could not be opened.
    pub unreadable: Vec<Unreadable>,
    /// How many could not be opened, whatever the sample holds.
    pub unreadable_count: usize,
    /// Exact, unlike the length of the sample.
    pub denials: Denials,
}

impl RootUsage {
    /// The usage adds up what was counted for its root.
    pub open spec fn adds_up(&self, root: Root, seed: RootSeed, mine: Seq<JobResult>) -> bool {
        &&& self.name@ == root.name@
        &&& self.path@ == root.path@
        &&& self.total == seed.loose_bytes + sum_of(mine, job_bytes())
        &&& self.children@ == order::sorted(child_sizes(mine))
        &&& views(self.refused_children@) == child_refusals(mine)
        &&& self.unattributed_total == seed.loose_bytes - total_of(ints(seed.rule_sizes@)) + sum_of(
            mine,
            job_unattributed(),
        )
        &&& self.unattributed@ == order::sorted(child_gaps(mine))
        &&& self.unreadable@ == sample(seed.unreadable@, all_unreadable(mine))
        &&& self.denials.counts(seed.unreadable@ + all_unreadable(mine))
        &&& self.unreadable_count == seed.unreadable@.len() + all_unreadable(mine).len()
    }
}

/// The sums over the results of one root are part of the sums over all.
pub(crate) proof fn lemma_part_sum<T>(s: Seq<T>, p: spec_fn(T) -> bool, f: spec_fn(T) -> int)
    requires
        forall|i: int| 0 <= i < s.len() ==> f(#[trigger] s[i]) >= 0,
    ensures
        0 <= sum_of(s.filter(p), f) <= sum_of(s, f),
    decreases s.len(),
{
    reveal(Seq::filter);
    if s.len() > 0 {
        lemma_part_sum(s.drop_last(), p, f);
        assert(f(s[s.len() - 1]) >= 0);
        if p(s.last()) {
            order::lemma_sum_push(s.drop_last().filter(p), s.last(), f);
        }
    }
}

/// As many entries would not open as the results list.
pub(crate) proof fn lemma_all_unreadable_len(mine: Seq<JobResult>)
    ensures
        all_unreadable(mine).len() == sum_of(mine, job_refusals()),
    decreases mine.len(),
{
    if mine.len() > 0 {
        lemma_all_unreadable_len(mine.drop_last());
    }
}

/// Adds up what was counted for one root.
fn collect_root(
    root: &Root,
    index: usize,
    seed: &RootSeed,
    results: &Vec<JobResult>,
    rules: Ghost<nat>,
) -> (u: RootUsage)
    requires
        seed.wf(rules@),
        forall|k: int| 0 <= k < results@.len() ==> (#[trigger] results@[k]).wf(rules@),
        seed.loose_bytes + sum_of(results@, job_bytes()) <= u64::MAX,
        seed.unreadable@.len() + sum_of(results@, job_refusals()) <= usize::MAX,
    ensures
        u.adds_up(*root, *seed, of_root(results@, index as int)),
{
    let ghost is_mine = |r: JobResult| r.root == index as int;
    let ghost has_gap = |r: JobResult| r.unattributed > 0;
    let ghost is_refused = |r: JobResult| r.refused is Some;
    let ghost own = seed.unreadable@;
    let mut total = seed.loose_bytes;
    let mut children: Vec<(String, u64)> = Vec::new();
    let mut refused_children: Vec<Unreadable> = Vec::new();
    proof {
        let all = ints(seed.rule_sizes@);
        assert forall|k: int| 0 <= k < all.len() implies 0 <= #[trigger] all[k] by {}
        order::lemma_sum_prefix(all, |x: int| x, all.len() as int);
        assert(all.take(all.len() as int) =~= all);
    }
    let claimed = sum(&seed.rule_sizes);
    let mut unattributed_total = seed.loose_bytes - claimed;
    let mut unattributed: Vec<(String, u64)> = Vec::new();
    let mut unreadable: Vec<Unreadable> = Vec::new();
    for i in 0..seed.unreadable.len()
        invariant
            unreadable@ == seed.unreadable@.take(i as int),
    {
        assert(seed.unreadable@.take(i + 1) =~= seed.unreadable@.take(i as int).push(
            seed.unreadable@[i as int],
        ));
        unreadable.push(seed.unreadable[i].copied());
    }
    assert(seed.unreadable@.take(seed.unreadable@.len() as int) =~= own);
    let mut denials = count_denials(&seed.unreadable);
    proof {
        reveal(Seq::filter);
        let none = results@.take(0);
        assert(none.filter(is_mine) =~= Seq::<JobResult>::empty());
        assert(own + Seq::<Unreadable>::empty() =~= own);
        assert(children@ =~= child_sizes(Seq::<JobResult>::empty()));
        assert(unattributed@ =~= child_gaps(Seq::<JobResult>::empty()));
        assert(views(refused_children@) =~= child_refusals(Seq::<JobResult>::empty()));
    }
    for i in 0..results.len()
        invariant
            is_mine == (|r: JobResult| r.root == index as int),
            has_gap == (|r: JobResult| r.unattributed > 0),
            is_refused == (|r: JobResult| r.refused is Some),
            own == seed.unreadable@,
            seed.wf(rules@),
            forall|k: int| 0 <= k < results@.len() ==> (#[trigger] results@[k]).wf(rules@),
            seed.loose_bytes + sum_of(results@, job_bytes()) <= u64::MAX,
            seed.unreadable@.len() + sum_of(results@, job_refusals()) <= usize::MAX,
            ({
                let mine = results@.take(i as int).filter(is_mine);
                &&& total == seed.loose_bytes + sum_of(mine, job_bytes())
                &&& children@ == child_sizes(mine)
                &&& views(refused_children@) == child_refusals(mine)
                &&& unattributed_total == seed.loose_bytes - total_of(ints(seed.rule_sizes@))
                    + sum_of(mine, job_unattributed())
                &&& unattributed_total <= total
                &&& unattributed@ == child_gaps(mine)
                &&& unreadable@ == sample(own, all_unreadable(mine))
                &&& denials.counts(own + all_unreadable(mine))
            }),
    {
        let result = &results[i];
        let ghost upto = results@.take(i as int);
        let ghost mine = upto.filter(is_mine);
        proof {
            assert(results@.take(i + 1) =~= upto.push(*result));
            upto.lemma_filter_push(*result, is_mine);
        }
        if result.root == index {
            let ghost next = mine.push(*result);
            let ghost more = all_unreadable(mine);
            proof {
                assert(results@.take(i + 1).filter(is_mine) == next);
                order::lemma_sum_push(mine, *result, job_bytes());
                order::lemma_sum_push(mine, *result, job_unattributed());
                assert forall|k: int| 0 <= k < results@.len() implies job_bytes()(
                    #[trigger] results@[k],
                ) >= 0 by {}
                order::lemma_sum_prefix(results@, job_bytes(), i + 1);
                assert forall|k: int| 0 <= k < results@.take(i + 1).len() implies job_bytes()(
                    #[trigger] results@.take(i + 1)[k],
                ) >= 0 by {}
                lemma_part_sum(results@.take(i + 1), is_mine, job_bytes());
                assert forall|k: int| 0 <= k < results@.len() implies job_refusals()(
                    #[trigger] results@[k],
                ) >= 0 by {}
                order::lemma_sum_prefix(results@, job_refusals(), i + 1);
                assert forall|k: int| 0 <= k < results@.take(i + 1).len() implies job_refusals()(
                    #[trigger] results@.take(i + 1)[k],
                ) >= 0 by {}
                lemma_part_sum(results@.take(i + 1), is_mine, job_refusals());
                mine.lemma_filter_push(*result, has_gap);
                mine.lemma_filter_push(*result, is_refused);
                assert(next.drop_last() =~= mine);
                assert(all_unreadable(next) == more + result.unreadable@);
                lemma_all_unreadable_len(next);
                assert(result.wf(rules@));
                let sizes = ints(result.rule_sizes@);
                assert forall|k: int| 0 <= k < sizes.len() implies 0 <= #[trigger] sizes[k] by {}
                order::lemma_sum_prefix(sizes, |x: int| x, sizes.len() as int);
                assert(sizes.take(sizes.len() as int) =~= sizes);
            }
            if let Some(denial) = result.refused {
                let ghost old_refused = refused_children@;
                let entry = Unreadable { path: result.path.clone(), denial };
                refused_children.push(entry);
                assert(views(refused_children@) =~= views(old_refused).push(entry@));
                assert(views(refused_children@) =~= child_refusals(next));
            }
            total = total + result.total;
            children.push((result.path.clone(), result.total));
            assert(children@ =~= child_sizes(next));
            unattributed_total = unattributed_total + result.unattributed;
            if result.unattributed > 0 {
                unattributed.push((result.path.clone(), result.unattributed));
            }
            assert(unattributed@ =~= child_gaps(next));
            let found = count_denials(&result.unreadable);
            proof {
                lemma_refusals_total(own + all_unreadable(next));
                assert(own + all_unreadable(next) =~= (own + more) + result.unreadable@);
                assert forall|d: Denial| #[trigger]
                    denials.count(d) + found.count(d) <= usize::MAX && refusals(
                        own + all_unreadable(next),
                        d,
                    ) == denials.count(d) + found.count(d) by {
                    lemma_refusals_concat(own + more, result.unreadable@, d);
                    assert(denials.count(d) == refusals(own + more, d));
                    assert(found.count(d) == refusals(result.unreadable@, d));
                    assert(refusals(own + all_unreadable(next), d) <= (own + all_unreadable(next)).len());
                }
            }
            denials.merge(found);
            let mut j: usize = 0;
            assert(more + result.unreadable@.take(0) =~= more);
            while j < result.unreadable.len()
                invariant
                    j <= result.unreadable@.len(),
                    unreadable@ == sample(own, more + result.unreadable@.take(j as int)),
                decreases result.unreadable@.len() - j,
            {
                let ghost seen_now = more + result.unreadable@.take(j as int);
                assert(more + result.unreadable@.take(j + 1) =~= seen_now.push(
                    result.unreadable@[j as int],
                ));
                if unreadable.len() < MAX_UNREADABLE_LISTED {
                    unreadable.push(result.unreadable[j].copied());
                }
                assert(unreadable@ =~= sample(own, more + result.unreadable@.take(j + 1)));
                j = j + 1;
            }
            assert(result.unreadable@.take(result.unreadable@.len() as int) =~= result.unreadable@);
        }
    }
    proof {
        assert(results@.take(results@.len() as int) =~= results@);
        let mine = of_root(results@, index as int);
        lemma_all_unreadable_len(mine);
        assert forall|k: int| 0 <= k < results@.len() implies job_refusals()(
            #[trigger] results@[k],
        ) >= 0 by {}
        lemma_part_sum(results@, is_mine, job_refusals());
        let whole = own + all_unreadable(mine);
        lemma_refusals_total(whole);
        assert(denials.count(Denial::Protected) == refusals(whole, Denial::Protected));
        assert(denials.count(Denial::Forbidden) == refusals(whole, Denial::Forbidden));
        assert(denials.count(Denial::Unattended) == refusals(whole, Denial::Unattended));
    }
    let unreadable_count = denials.total();
    RootUsage {
        name: root.name.clone(),
        path: root.path.clone(),
        total,
        children: order::sort(children),
        refused_children,
        unattributed_total,
        unattributed: order::sort(unattributed),
        unreadable,
        unreadable_count,
        denials,
    }
}

/// One pass over the volume.
#[derive(Debug)]
pub struct Sweep {
    pub roots: Vec<RootUsage>,
    /// Bytes per rule, positionally matching the rules of the sweep.
    pub rule_sizes: Vec<u64>,
}

/// The bytes of a root.
pub open spec fn usage_total() -> spec_fn(RootUsage) -> int {
    |u: RootUsage| u.total as int
}

/// The bytes of a root that no rule claims.
pub open spec fn usage_unattributed() -> spec_fn(RootUsage) -> int {
    |u: RootUsage| u.unattributed_total as int
}

/// The refusals of one kind in a root.
pub open spec fn usage_denials(d: Denial) -> spec_fn(RootUsage) -> int {
    |u: RootUsage| u.denials.count(d) as int
}

/// The bytes that rule `i` was given by the seeds and by the results of the
/// roots.
pub open spec fn rule_total(i: int, seeds: Seq<RootSeed>, results: Seq<JobResult>) -> int {
    sum_of(seeds, seed_rule(i)) + sum_of(of_roots(results, seeds.len() as int), job_rule(i))
}

impl Sweep {
    /// The sweep adds up what was counted.
    pub open spec fn adds_up(
        &self,
        roots: Seq<Root>,
        rules: nat,
        seeds: Seq<RootSeed>,
        results: Seq<JobResult>,
    ) -> bool {
        &&& self.roots@.len() == roots.len()
        &&& forall|k: int|
            0 <= k < roots.len() ==> (#[trigger] self.roots@[k]).adds_up(
                roots[k],
                seeds[k],
                of_root(results, k),
            )
        &&& self.rule_sizes@.len() == rules
        &&& forall|i: int|
            0 <= i < rules ==> #[trigger] self.rule_sizes@[i] == rule_total(i, seeds, results)
    }

    /// The sums over the roots can be held by the machine.
    pub open spec fn fits(&self) -> bool {
        &&& sum_of(self.roots@, usage_total()) <= u64::MAX
        &&& sum_of(self.roots@, usage_unattributed()) <= u64::MAX
        &&& sum_of(self.roots@, usage_denials(Denial::Protected)) + sum_of(
            self.roots@,
            usage_denials(Denial::Forbidden),
        ) + sum_of(self.roots@, usage_denials(Denial::Unattended)) <= usize::MAX
    }

    /// Everything the walk could see.
    pub fn total(&self) -> (r: u64)
        requires
            sum_of(self.roots@, usage_total()) <= u64::MAX,
        ensures
            r == sum_of(self.roots@, usage_total()),
    {
        sum_totals(&self.roots)
    }

    /// What no rule claims.
    pub fn unattributed(&self) -> (r: u64)
        requires
            sum_of(self.roots@, usage_unattributed()) <= u64::MAX,
        ensures
            r == sum_of(self.roots@, usage_unattributed()),
    {
        sum_gaps(&self.roots)
    }

    /// What would not open, by kind.
    pub fn denials(&self) -> (r: Denials)
        requires
            forall|d: Denial| #[trigger] sum_of(self.roots@, usage_denials(d)) <= usize::MAX,
        ensures
            forall|d: Denial| #[trigger] r.count(d) == sum_of(self.roots@, usage_denials(d)),
    {
        let mut total = Denials::default();
        for i in 0..self.roots.len()
            invariant
                forall|d: Denial| #[trigger] sum_of(self.roots@, usage_denials(d)) <= usize::MAX,
                forall|d: Denial|
                    #[trigger] total.count(d) == sum_of(
                        self.roots@.take(i as int),
                        usage_denials(d),
                    ),
        {
            let ghost before = self.roots@.take(i as int);
            proof {
                assert(self.roots@.take(i + 1) =~= before.push(self.roots@[i as int]));
                assert forall|d: Denial| #[trigger]
                    total.count(d) + self.roots@[i as int].denials.count(d) <= usize::MAX && sum_of(
                        self.roots@.take(i + 1),
                        usage_denials(d),
                    ) == total.count(d) + self.roots@[i as int].denials.count(d) by {
                    order::lemma_sum_push(before, self.roots@[i as int], usage_denials(d));
                    order::lemma_sum_prefix(self.roots@, usage_denials(d), i + 1);
                    assert(sum_of(self.roots@, usage_denials(d)) <= usize::MAX);
                }
            }
            total.merge(self.roots[i].denials);
        }
        assert(self.roots@.take(self.roots@.len() as int) =~= self.roots@);
        total
    }

    /// How much would not open.
    pub fn unreadable_count(&self) -> (r: usize)
        requires
            sum_of(self.roots@, usage_denials(Denial::Protected)) + sum_of(
                self.roots@,
                usage_denials(Denial::Forbidden),
            ) + sum_of(self.roots@, usage_denials(Denial::Unattended)) <= usize::MAX,
        ensures
            r == sum_of(self.roots@, usage_denials(Denial::Protected)) + sum_of(
                self.roots@,
                usage_denials(Denial::Forbidden),
            ) + sum_of(self.roots@, usage_denials(Denial::Unattended)),
    {
        proof {
            assert forall|d: Denial| #[trigger]
                sum_of(self.roots@, usage_denials(d)) <= usize::MAX by {
                let n = self.roots@.len() as int;
                order::lemma_sum_prefix(self.roots@, usage_denials(Denial::Protected), n);
                order::lemma_sum_prefix(self.roots@, usage_denials(Denial::Forbidden), n);
                order::lemma_sum_prefix(self.roots@, usage_denials(Denial::Unattended), n);
                match d {
                    Denial::Protected => {},
                    Denial::Forbidden => {},
                    Denial::Unattended => {},
                }
            }
        }
        let d = self.denials();
        assert(d.count(Denial::Protected) == d.protected);
        assert(d.count(Denial::Forbidden) == d.forbidden);
        assert(d.count(Denial::Unattended) == d.unattended);
        d.total()
    }
}

/// The sum of what was measured of each root.
pub(crate) fn sum_totals(roots: &Vec<RootUsage>) -> (r: u64)
    requires
        sum_of(roots@, usage_total()) <= u64::MAX,
    ensures
        r == sum_of(roots@, usage_total()),
{
    let mut s: u64 = 0;
    for i in 0..roots.len()
        invariant
            sum_of(roots@, usage_total()) <= u64::MAX,
            s == sum_of(roots@.take(i as int), usage_total()),
    {
        proof {
            assert(roots@.take(i + 1).drop_last() =~= roots@.take(i as int));
            order::lemma_sum_prefix(roots@, usage_total(), i + 1);
        }
        s = s + roots[i].total;
    }
    assert(roots@.take(roots@.len() as int) =~= roots@);
    s
}

/// The sum of what no rule claims of each root.
pub(crate) fn sum_gaps(roots: &Vec<RootUsage>) -> (r: u64)
    requires
        sum_of(roots@, usage_unattributed()) <= u64::MAX,
    ensures
        r == sum_of(roots@, usage_unattributed()),
{
    let mut s: u64 = 0;
    for i in 0..roots.len()
        invariant
            sum_of(roots@, usage_unattributed()) <= u64::MAX,
            s == sum_of(roots@.take(i as int), usage_unattributed()),
    {
        proof {
            assert(roots@.take(i + 1).drop_last() =~= roots@.take(i as int));
            order::lemma_sum_prefix(roots@, usage_unattributed(), i + 1);
        }
        s = s + roots[i].unattributed_total;
    }
    assert(roots@.take(roots@.len() as int) =~= roots@);
    s
}

/// A sum of smaller values is smaller.
proof fn lemma_sum_le<T>(s: Seq<T>, f: spec_fn(T) -> int, g: spec_fn(T) -> int)
    requires
        forall|i: int| 0 <= i < s.len() ==> f(#[trigger] s[i]) <= g(s[i]),
    ensures
        sum_of(s, f) <= sum_of(s, g),
    decreases s.len(),
{
    if s.len() > 0 {
        assert forall|i: int| 0 <= i < s.drop_last().len() implies f(#[trigger] s.drop_last()[i])
            <= g(s.drop_last()[i]) by {
            assert(f(s[i]) <= g(s[i]));
        }
        lemma_sum_le(s.drop_last(), f, g);
        assert(f(s[s.len() - 1]) <= g(s[s.len() - 1]));
    }
}

/// The bytes given to rule `i`.
fn rule_bytes(i: usize, seeds: &Vec<RootSeed>, results: &Vec<JobResult>, rules: Ghost<nat>) -> (r:
    u64)
    requires
        i < rules@,
        forall|k: int| 0 <= k < seeds@.len() ==> (#[trigger] seeds@[k]).wf(rules@),
        forall|k: int| 0 <= k < results@.len() ==> (#[trigger] results@[k]).wf(rules@),
        sum_of(seeds@, seed_bytes()) + sum_of(results@, job_bytes()) <= u64::MAX,
    ensures
        r == rule_total(i as int, seeds@, results@),
{
    let ghost n = seeds@.len() as int;
    let ghost kept = |r: JobResult| r.root < n;
    let ghost f = seed_rule(i as int);
    let ghost g = job_rule(i as int);
    proof {
        assert forall|k: int| 0 <= k < seeds@.len() implies 0 <= f(#[trigger] seeds@[k])
            <= seed_bytes()(seeds@[k]) by {
            assert(seeds@[k].wf(rules@));
            lemma_total_bounds(ints(seeds@[k].rule_sizes@), i as int);
        }
        assert forall|k: int| 0 <= k < results@.len() implies 0 <= g(#[trigger] results@[k])
            <= job_bytes()(results@[k]) by {
            assert(results@[k].wf(rules@));
            lemma_total_bounds(ints(results@[k].rule_sizes@), i as int);
        }
        lemma_sum_le(seeds@, f, seed_bytes());
        lemma_sum_le(results@, g, job_bytes());
        order::lemma_sum_prefix(results@, g, results@.len() as int);
    }
    let mut s: u64 = 0;
    for k in 0..seeds.len()
        invariant
            i < rules@,
            f == seed_rule(i as int),
            forall|k: int| 0 <= k < seeds@.len() ==> (#[trigger] seeds@[k]).wf(rules@),
            forall|k: int| 0 <= k < seeds@.len() ==> 0 <= f(#[trigger] seeds@[k]),
            sum_of(seeds@, f) <= u64::MAX,
            s == sum_of(seeds@.take(k as int), f),
    {
        proof {
            assert(seeds@.take(k + 1).drop_last() =~= seeds@.take(k as int));
            order::lemma_sum_prefix(seeds@, f, k + 1);
            assert(seeds@[k as int].wf(rules@));
        }
        s = s + seeds[k].rule_sizes[i];
    }
    assert(seeds@.take(seeds@.len() as int) =~= seeds@);
    let ghost base = s as int;
    proof {
        reveal(Seq::filter);
        order::lemma_sum_prefix(results@, g, results@.len() as int);
        assert(results@.take(results@.len() as int) =~= results@);
    }
    for k in 0..results.len()
        invariant
            i < rules@,
            g == job_rule(i as int),
            n == seeds@.len(),
            kept == (|r: JobResult| r.root < n),
            forall|k: int| 0 <= k < results@.len() ==> (#[trigger] results@[k]).wf(rules@),
            forall|k: int| 0 <= k < results@.len() ==> 0 <= g(#[trigger] results@[k]),
            base + sum_of(results@, g) <= u64::MAX,
            s == base + sum_of(results@.take(k as int).filter(kept), g),
    {
        proof {
            let upto = results@.take(k as int);
            assert(results@.take(k + 1) =~= upto.push(results@[k as int]));
            upto.lemma_filter_push(results@[k as int], kept);
            order::lemma_sum_push(upto.filter(kept), results@[k as int], g);
            order::lemma_sum_prefix(results@, g, k + 1);
            assert forall|j: int| 0 <= j < results@.take(k + 1).len() implies 0 <= g(
                #[trigger] results@.take(k + 1)[j],
            ) by {
                assert(0 <= g(results@[j]));
            }
            lemma_part_sum(results@.take(k + 1), kept, g);
            assert(results@[k as int].wf(rules@));
        }
        if results[k].root < seeds.len() {
            s = s + results[k].rule_sizes[i];
        }
    }
    assert(results@.take(results@.len() as int) =~= results@);
    s
}

/// Adds up what was counted, root by root and rule by rule.
pub fn collect(
    roots: &Vec<Root>,
    rule_count: usize,
    seeds: &Vec<RootSeed>,
    results: &Vec<JobResult>,
) -> (r: Sweep)
    requires
        seeds@.len() == roots@.len(),
        forall|k: int| 0 <= k < seeds@.len() ==> (#[trigger] seeds@[k]).wf(rule_count as nat),
        forall|k: int| 0 <= k < results@.len() ==> (#[trigger] results@[k]).wf(rule_count as nat),
        sum_of(seeds@, seed_bytes()) + sum_of(results@, job_bytes()) <= u64::MAX,
        sum_of(seeds@, seed_refusals()) + sum_of(results@, job_refusals()) <= usize::MAX,
    ensures
        r.adds_up(roots@, rule_count as nat, seeds@, results@),
        r.fits(),
{
    let mut usage: Vec<RootUsage> = Vec::new();
    for k in 0..roots.len()
        invariant
            seeds@.len() == roots@.len(),
            forall|k: int| 0 <= k < seeds@.len() ==> (#[trigger] seeds@[k]).wf(rule_count as nat),
            forall|k: int|
                0 <= k < results@.len() ==> (#[trigger] results@[k]).wf(rule_count as nat),
            sum_of(seeds@, seed_bytes()) + sum_of(results@, job_bytes()) <= u64::MAX,
            sum_of(seeds@, seed_refusals()) + sum_of(results@, job_refusals()) <= usize::MAX,
            usage@.len() == k,
            forall|j: int|
                0 <= j < k ==> (#[trigger] usage@[j]).adds_up(
                    roots@[j],
                    seeds@[j],
                    of_root(results@, j),
                ),
    {
        proof {
            order::lemma_sum_prefix(seeds@, seed_bytes(), k as int);
            order::lemma_sum_prefix(seeds@, seed_bytes(), k + 1);
            order::lemma_sum_prefix(seeds@, seed_refusals(), k as int);
            order::lemma_sum_prefix(seeds@, seed_refusals(), k + 1);
            assert(seeds@.take(k + 1).drop_last() =~= seeds@.take(k as int));
            assert(seeds@.take(k + 1).last() == seeds@[k as int]);
        }
        usage.push(collect_root(&roots[k], k, &seeds[k], results, Ghost(rule_count as nat)));
    }
    let mut rule_sizes: Vec<u64> = Vec::new();
    for i in 0..rule_count
        invariant
            forall|k: int| 0 <= k < seeds@.len() ==> (#[trigger] seeds@[k]).wf(rule_count as nat),
            forall|k: int|
                0 <= k < results@.len() ==> (#[trigger] results@[k]).wf(rule_count as nat),
            sum_of(seeds@, seed_bytes()) + sum_of(results@, job_bytes()) <= u64::MAX,
            rule_sizes@.len() == i,
            forall|j: int| 0 <= j < i ==> #[trigger] rule_sizes@[j] == rule_total(j, seeds@, results@),
    {
        rule_sizes.push(rule_bytes(i, seeds, results, Ghost(rule_count as nat)));
    }
    let r = Sweep { roots: usage, rule_sizes };
    proof {
        lemma_fits(r, roots@, rule_count as nat, seeds@, results@);
    }
    r
}

/// Totals of runs of counters added position by position add up.
proof fn lemma_total_pointwise(a: Seq<int>, b: Seq<int>, c: Seq<int>)
    requires
        a.len() == b.len() == c.len(),
        forall|i: int| 0 <= i < c.len() ==> #[trigger] c[i] == a[i] + b[i],
    ensures
        total_of(c) == total_of(a) + total_of(b),
    decreases a.len(),
{
    if a.len() > 0 {
        lemma_total_pointwise(a.drop_last(), b.drop_last(), c.drop_last());
        assert(c[c.len() - 1] == a[a.len() - 1] + b[b.len() - 1]);
    }
}

/// The bytes that the rules claim of a seed.
pub open spec fn seed_claimed() -> spec_fn(RootSeed) -> int {
    |s: RootSeed| total_of(ints(s.rule_sizes@))
}

/// The bytes that the rules claim of a result.
pub open spec fn job_claimed() -> spec_fn(JobResult) -> int {
    |r: JobResult| total_of(ints(r.rule_sizes@))
}

proof fn lemma_seed_exchange(seeds: Seq<RootSeed>, rules: nat)
    requires
        forall|k: int| 0 <= k < seeds.len() ==> (#[trigger] seeds[k]).wf(rules),
    ensures
        total_of(Seq::new(rules, |i: int| sum_of(seeds, seed_rule(i)))) == sum_of(
            seeds,
            seed_claimed(),
        ),
    decreases seeds.len(),
{
    let c = Seq::new(rules, |i: int| sum_of(seeds, seed_rule(i)));
    if seeds.len() == 0 {
        assert(c =~= Seq::new(rules, |i: int| 0int));
        lemma_zero_total(rules);
    } else {
        let rest = seeds.drop_last();
        assert forall|k: int| 0 <= k < rest.len() implies (#[trigger] rest[k]).wf(rules) by {
            assert(seeds[k].wf(rules));
        }
        lemma_seed_exchange(rest, rules);
        let a = Seq::new(rules, |i: int| sum_of(rest, seed_rule(i)));
        let b = ints(seeds.last().rule_sizes@);
        assert(seeds[seeds.len() - 1].wf(rules));
        lemma_total_pointwise(a, b, c);
    }
}

proof fn lemma_job_exchange(results: Seq<JobResult>, rules: nat)
    requires
        forall|k: int| 0 <= k < results.len() ==> (#[trigger] results[k]).wf(rules),
    ensures
        total_of(Seq::new(rules, |i: int| sum_of(results, job_rule(i)))) == sum_of(
            results,
            job_claimed(),
        ),
    decreases results.len(),
{
    let c = Seq::new(rules, |i: int| sum_of(results, job_rule(i)));
    if results.len() == 0 {
        assert(c =~= Seq::new(rules, |i: int| 0int));
        lemma_zero_total(rules);
    } else {
        let rest = results.drop_last();
        assert forall|k: int| 0 <= k < rest.len() implies (#[trigger] rest[k]).wf(rules) by {
            assert(results[k].wf(rules));
        }
        lemma_job_exchange(rest, rules);
        let a = Seq::new(rules, |i: int| sum_of(rest, job_rule(i)));
        let b = ints(results.last().rule_sizes@);
        assert(results[results.len() - 1].wf(rules));
        lemma_total_pointwise(a, b, c);
    }
}

/// The results of the first `n` roots are those of the first `n - 1` and those
/// of the last.
proof fn lemma_roots_split(results: Seq<JobResult>, n: int, f: spec_fn(JobResult) -> int)
    requires
        n > 0,
    ensures
        sum_of(of_roots(results, n), f) == sum_of(of_roots(results, n - 1), f) + sum_of(
            of_root(results, n - 1),
            f,
        ),
    decreases results.len(),
{
    reveal(Seq::filter);
    if results.len() > 0 {
        let rest = results.drop_last();
        let x = results.last();
        lemma_roots_split(rest, n, f);
        order::lemma_sum_push(of_roots(rest, n), x, f);
        order::lemma_sum_push(of_roots(rest, n - 1), x, f);
        order::lemma_sum_push(of_root(rest, n - 1), x, f);
    }
}

proof fn lemma_no_roots(results: Seq<JobResult>)
    ensures
        of_roots(results, 0) == Seq::<JobResult>::empty(),
    decreases results.len(),
{
    reveal(Seq::filter);
    if results.len() > 0 {
        lemma_no_roots(results.drop_last());
    }
}

proof fn lemma_conserved_upto(
    sweep: Sweep,
    roots: Seq<Root>,
    rules: nat,
    seeds: Seq<RootSeed>,
    results: Seq<JobResult>,
    n: int,
)
    requires
        sweep.adds_up(roots, rules, seeds, results),
        seeds.len() == roots.len(),
        forall|k: int| 0 <= k < results.len() ==> (#[trigger] results[k]).wf(rules),
        0 <= n <= roots.len(),
    ensures
        sum_of(sweep.roots@.take(n), usage_total()) == sum_of(
            sweep.roots@.take(n),
            usage_unattributed(),
        ) + sum_of(seeds.take(n), seed_claimed()) + sum_of(of_roots(results, n), job_claimed()),
    decreases n,
{
    if n == 0 {
        lemma_no_roots(results);
    } else {
        lemma_conserved_upto(sweep, roots, rules, seeds, results, n - 1);
        assert(sweep.roots@.take(n).drop_last() =~= sweep.roots@.take(n - 1));
        assert(seeds.take(n).drop_last() =~= seeds.take(n - 1));
        lemma_roots_split(results, n, job_claimed());
        let mine = of_root(results, n - 1);
        assert(sweep.roots@[n - 1].adds_up(roots[n - 1], seeds[n - 1], mine));
        lemma_accounted(mine, results, n - 1, rules);
    }
}

/// Every byte of the results of a root is claimed by a rule or by none.
proof fn lemma_accounted(mine: Seq<JobResult>, results: Seq<JobResult>, root: int, rules: nat)
    requires
        forall|k: int| 0 <= k < results.len() ==> (#[trigger] results[k]).wf(rules),
        mine == of_root(results, root),
    ensures
        sum_of(mine, job_bytes()) == sum_of(mine, job_unattributed()) + sum_of(mine, job_claimed()),
    decreases results.len(),
{
    reveal(Seq::filter);
    if results.len() > 0 {
        let rest = results.drop_last();
        let x = results.last();
        assert forall|k: int| 0 <= k < rest.len() implies (#[trigger] rest[k]).wf(rules) by {
            assert(results[k].wf(rules));
        }
        assert(results[results.len() - 1].wf(rules));
        lemma_accounted(of_root(rest, root), rest, root, rules);
        order::lemma_sum_push(of_root(rest, root), x, job_bytes());
        order::lemma_sum_push(of_root(rest, root), x, job_unattributed());
        order::lemma_sum_push(of_root(rest, root), x, job_claimed());
    }
}

/// Every byte that was measured is attributed to a rule or reported as
/// unattributed: the roots of a sweep hold exactly what the rules claim and what
/// no rule claims.
pub proof fn law_every_byte_is_accounted_for(
    sweep: Sweep,
    roots: Seq<Root>,
    rules: nat,
    seeds: Seq<RootSeed>,
    results: Seq<JobResult>,
)
    requires
        sweep.adds_up(roots, rules, seeds, results),
        seeds.len() == roots.len(),
        forall|k: int| 0 <= k < seeds.len() ==> (#[trigger] seeds[k]).wf(rules),
        forall|k: int| 0 <= k < results.len() ==> (#[trigger] results[k]).wf(rules),
    ensures
        sum_of(sweep.roots@, usage_total()) == total_of(ints(sweep.rule_sizes@)) + sum_of(
            sweep.roots@,
            usage_unattributed(),
        ),
{
    let n = roots.len() as int;
    let kept = of_roots(results, n);
    lemma_conserved_upto(sweep, roots, rules, seeds, results, n);
    assert(sweep.roots@.take(n) =~= sweep.roots@);
    assert(seeds.take(n) =~= seeds);
    lemma_seed_exchange(seeds, rules);
    assert forall|k: int| 0 <= k < kept.len() implies (#[trigger] kept[k]).wf(rules) by {
        let p = |r: JobResult| r.root < n;
        results.lemma_filter_contains_rev(p, kept[k]);
        assert(results.filter(p).contains(kept[k]));
        let j = choose|j: int| 0 <= j < results.len() && results[j] == kept[k];
        assert(results[j].wf(rules));
    }
    lemma_job_exchange(kept, rules);
    let a = Seq::new(rules, |i: int| sum_of(seeds, seed_rule(i)));
    let b = Seq::new(rules, |i: int| sum_of(kept, job_rule(i)));
    lemma_total_pointwise(a, b, ints(sweep.rule_sizes@));
}

/// A file with several names is charged for the first that is met and for no
/// other.
pub proof fn law_a_hard_link_is_charged_once(t: Tally, m: Meta, r1: Option<int>, r2: Option<int>)
    requires
        m.nlink > 1,
    ensures
        charge_of(m, charged(t, m, r1).seen) == 0,
        charged(charged(t, m, r1), m, r2).bytes == charged(t, m, r1).bytes,
{
}

/// A root that lies inside another is left to its own walk: reaching it changes
/// nothing.
pub proof fn law_a_nested_root_is_counted_once(
    g: Ground,
    entries: Seq<Node>,
    nested: Node,
    rule: Option<int>,
    t: Tally,
)
    requires
        nested.meta matches Ok(m) && m.is_dir,
        g.skip.contains(paths::components(nested.path@)),
    ensures
        walked_all(g, entries.push(nested), rule, t) == walked_all(g, entries, rule, t),
{
    assert(entries.push(nested).drop_last() =~= entries);
}

/// Another volume mounted inside the tree is not entered.
pub proof fn law_a_walk_stays_on_its_volume(
    g: Ground,
    entries: Seq<Node>,
    mounted: Node,
    rule: Option<int>,
    t: Tally,
)
    requires
        mounted.meta matches Ok(m) && m.dev != g.dev,
    ensures
        walked_all(g, entries.push(mounted), rule, t) == walked_all(g, entries, rule, t),
{
    assert(entries.push(mounted).drop_last() =~= entries);
}

/// A directory left closed is recorded as unknown, and nothing inside it is
/// looked at.
pub proof fn law_a_closed_directory_is_unknown(g: Ground, dir: Node, rule: Option<int>, t: Tally)
    requires
        g.closed.contains(paths::components(dir.path@)),
    ensures
        walked(g, dir, rule, t).refused == t.refused.push((dir.path@, Denial::Unattended)),
        walked(g, dir, rule, t).bytes == t.bytes + (match dir.meta {
            Ok(m) => charge_of(m, t.seen),
            Err(_) => 0,
        }),
{
}

proof fn lemma_fits_upto(
    sweep: Sweep,
    roots: Seq<Root>,
    rules: nat,
    seeds: Seq<RootSeed>,
    results: Seq<JobResult>,
    n: int,
)
    requires
        sweep.adds_up(roots, rules, seeds, results),
        seeds.len() == roots.len(),
        forall|k: int| 0 <= k < seeds.len() ==> (#[trigger] seeds[k]).wf(rules),
        forall|k: int| 0 <= k < results.len() ==> (#[trigger] results[k]).wf(rules),
        0 <= n <= roots.len(),
    ensures
        sum_of(sweep.roots@.take(n), usage_total()) == sum_of(seeds.take(n), seed_bytes()) + sum_of(
            of_roots(results, n),
            job_bytes(),
        ),
        sum_of(sweep.roots@.take(n), usage_unattributed()) <= sum_of(
            sweep.roots@.take(n),
            usage_total(),
        ),
        sum_of(sweep.roots@.take(n), usage_denials(Denial::Protected)) + sum_of(
            sweep.roots@.take(n),
            usage_denials(Denial::Forbidden),
        ) + sum_of(sweep.roots@.take(n), usage_denials(Denial::Unattended)) == sum_of(
            seeds.take(n),
            seed_refusals(),
        ) + sum_of(of_roots(results, n), job_refusals()),
    decreases n,
{
    if n == 0 {
        lemma_no_roots(results);
    } else {
        lemma_fits_upto(sweep, roots, rules, seeds, results, n - 1);
        assert(sweep.roots@.take(n).drop_last() =~= sweep.roots@.take(n - 1));
        assert(seeds.take(n).drop_last() =~= seeds.take(n - 1));
        lemma_roots_split(results, n, job_bytes());
        lemma_roots_split(results, n, job_refusals());
        let mine = of_root(results, n - 1);
        let u = sweep.roots@[n - 1];
        let seed = seeds[n - 1];
        assert(u.adds_up(roots[n - 1], seed, mine));
        lemma_accounted(mine, results, n - 1, rules);
        lemma_claimed_nonneg(mine);
        let sizes = ints(seed.rule_sizes@);
        assert forall|k: int| 0 <= k < sizes.len() implies 0 <= #[trigger] sizes[k] by {}
        order::lemma_sum_prefix(sizes, |x: int| x, sizes.len() as int);
        assert(sizes.take(sizes.len() as int) =~= sizes);
        let whole = seed.unreadable@ + all_unreadable(mine);
        lemma_refusals_total(whole);
        lemma_all_unreadable_len(mine);
        assert(u.denials.count(Denial::Protected) == refusals(whole, Denial::Protected));
        assert(u.denials.count(Denial::Forbidden) == refusals(whole, Denial::Forbidden));
        assert(u.denials.count(Denial::Unattended) == refusals(whole, Denial::Unattended));
    }
}

proof fn lemma_claimed_nonneg(mine: Seq<JobResult>)
    ensures
        sum_of(mine, job_claimed()) >= 0,
    decreases mine.len(),
{
    if mine.len() > 0 {
        lemma_claimed_nonneg(mine.drop_last());
        let sizes = ints(mine.last().rule_sizes@);
        assert forall|k: int| 0 <= k < sizes.len() implies 0 <= #[trigger] sizes[k] by {}
        order::lemma_sum_prefix(sizes, |x: int| x, sizes.len() as int);
    }
}

proof fn lemma_fits(
    sweep: Sweep,
    roots: Seq<Root>,
    rules: nat,
    seeds: Seq<RootSeed>,
    results: Seq<JobResult>,
)
    requires
        sweep.adds_up(roots, rules, seeds, results),
        seeds.len() == roots.len(),
        forall|k: int| 0 <= k < seeds.len() ==> (#[trigger] seeds[k]).wf(rules),
        forall|k: int| 0 <= k < results.len() ==> (#[trigger] results[k]).wf(rules),
        sum_of(seeds, seed_bytes()) + sum_of(results, job_bytes()) <= u64::MAX,
        sum_of(seeds, seed_refusals()) + sum_of(results, job_refusals()) <= usize::MAX,
    ensures
        sweep.fits(),
{
    let n = roots.len() as int;
    let kept = |r: JobResult| r.root < n;
    lemma_fits_upto(sweep, roots, rules, seeds, results, n);
    assert(sweep.roots@.take(n) =~= sweep.roots@);
    assert(seeds.take(n) =~= seeds);
    lemma_part_sum(results, kept, job_bytes());
    lemma_part_sum(results, kept, job_refusals());
}

} // verus!
