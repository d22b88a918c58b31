//! One pass over the volume, read two ways: by root, which always adds up to the
//! volume, and by category, which is a naming layer over the same bytes.
use vstd::prelude::*;
use crate::disk::platform;
use crate::disk::progress;
use crate::disk::progress::{sweeps, Event};
use crate::disk::sweep;
use crate::disk::sweep::{
    headcount_all,
    ints,
    total_of,
    usage_total,
    usage_unattributed,
    weight_all,
    JobResult,
    Node,
    Root,
    RootSeed,
    RootUsage,
    Rule,
    Sweep,
};
use crate::order;
use crate::order::{sum_of, Ranked};
use crate::text;

verus! {

/// The paths that go by one name, and their bytes together.
#[derive(Debug)]
pub struct Category {
    pub name: String,
    pub paths: Vec<CategoryPath>,
    pub total_size: u64,
}

/// One path of a category.
#[derive(Debug)]
pub struct CategoryPath {
    pub label: String,
    pub path: String,
    pub size: u64,
}

/// One path of a category, in mathematical terms.
pub ghost struct PathRow {
    pub label: Seq<char>,
    pub path: Seq<char>,
    pub size: int,
}

/// A category, in mathematical terms.
#[verifier::ext_equal]
pub ghost struct CategoryRow {
    pub name: Seq<char>,
    pub paths: Seq<PathRow>,
    pub total: int,
}

/// What a path of a category says.
pub open spec fn path_row() -> spec_fn(CategoryPath) -> PathRow {
    |p: CategoryPath| PathRow { label: p.label@, path: p.path@, size: p.size as int }
}

/// What a category says.
pub open spec fn category_row() -> spec_fn(Category) -> CategoryRow {
    |c: Category|
        CategoryRow {
            name: c.name@,
            paths: c.paths@.map_values(path_row()),
            total: c.total_size as int,
        }
}

/// Paths in falling order of size.
pub open spec fn path_order() -> spec_fn(PathRow, PathRow) -> bool {
    |a: PathRow, b: PathRow| a.size >= b.size
}

/// Categories in falling order of size.
pub open spec fn category_order() -> spec_fn(CategoryRow, CategoryRow) -> bool {
    |a: CategoryRow, b: CategoryRow| a.total >= b.total
}

impl Ranked for CategoryPath {
    open spec fn le(&self, other: &Self) -> bool {
        self.size >= other.size
    }

    proof fn le_total(a: &Self, b: &Self) {
    }

    proof fn le_transitive(a: &Self, b: &Self, c: &Self) {
    }

    fn leq(&self, other: &Self) -> (r: bool) {
        self.size >= other.size
    }
}

impl Ranked for Category {
    open spec fn le(&self, other: &Self) -> bool {
        self.total_size >= other.total_size
    }

    proof fn le_total(a: &Self, b: &Self) {
    }

    proof fn le_transitive(a: &Self, b: &Self, c: &Self) {
    }

    fn leq(&self, other: &Self) -> (r: bool) {
        self.total_size >= other.total_size
    }
}

/// Where a category of a given name stands in a list.
pub open spec fn named(rows: Seq<CategoryRow>, name: Seq<char>) -> Option<int>
    decreases rows.len(),
{
    if rows.len() == 0 {
        None
    } else {
        match named(rows.drop_last(), name) {
            Some(i) => Some(i),
            None => if rows.last().name == name {
                Some(rows.len() - 1)
            } else {
                None
            },
        }
    }
}

/// The categories with one more path put into the one it belongs to.
pub open spec fn filed(rows: Seq<CategoryRow>, name: Seq<char>, p: PathRow) -> Seq<CategoryRow> {
    match named(rows, name) {
        Some(i) => rows.update(
            i,
            CategoryRow {
                name: rows[i].name,
                paths: rows[i].paths.push(p),
                total: rows[i].total + p.size,
            },
        ),
        None => rows.push(CategoryRow { name, paths: seq![p], total: p.size }),
    }
}

/// The first `n` rules that matched something, put into the categories they
/// name, in the order the categories come up.
pub open spec fn grouped(rules: Seq<Rule>, sizes: Seq<u64>, n: nat) -> Seq<CategoryRow>
    decreases n,
{
    if n == 0 {
        Seq::empty()
    } else {
        let before = grouped(rules, sizes, (n - 1) as nat);
        let rule = rules[n - 1];
        let size = sizes[n - 1];
        if size == 0 {
            before
        } else {
            filed(
                before,
                rule.category@,
                PathRow { label: rule.label@, path: rule.path@, size: size as int },
            )
        }
    }
}

/// A category with its paths in falling order of size.
pub open spec fn tidied() -> spec_fn(CategoryRow) -> CategoryRow {
    |c: CategoryRow| CategoryRow { paths: order::arranged(c.paths, path_order()), ..c }
}

/// How many rules have a size to go with them.
pub open spec fn paired(rules: Seq<Rule>, sizes: Seq<u64>) -> nat {
    if rules.len() <= sizes.len() {
        rules.len()
    } else {
        sizes.len()
    }
}

/// The bytes of a category.
pub open spec fn category_total() -> spec_fn(Category) -> int {
    |c: Category| c.total_size as int
}

/// The bytes of a row.
pub open spec fn row_total() -> spec_fn(CategoryRow) -> int {
    |c: CategoryRow| c.total
}

proof fn lemma_named(rows: Seq<CategoryRow>, name: Seq<char>)
    ensures
        match named(rows, name) {
            Some(i) => 0 <= i < rows.len() && rows[i].name == name,
            None => forall|i: int| 0 <= i < rows.len() ==> (#[trigger] rows[i]).name != name,
        },
    decreases rows.len(),
{
    if rows.len() > 0 {
        lemma_named(rows.drop_last(), name);
        if named(rows, name) is None {
            assert forall|i: int| 0 <= i < rows.len() implies (#[trigger] rows[i]).name != name by {
                if i < rows.len() - 1 {
                    assert(rows.drop_last()[i].name != name);
                }
            }
        }
    }
}

proof fn lemma_sum_update<T>(s: Seq<T>, f: spec_fn(T) -> int, i: int, x: T)
    requires
        0 <= i < s.len(),
    ensures
        sum_of(s.update(i, x), f) == sum_of(s, f) - f(s[i]) + f(x),
    decreases s.len(),
{
    let w = s.update(i, x);
    if i == s.len() - 1 {
        assert(w.drop_last() =~= s.drop_last());
    } else {
        lemma_sum_update(s.drop_last(), f, i, x);
        assert(w.drop_last() =~= s.drop_last().update(i, x));
    }
}

/// Grouping loses no byte: the categories hold what the rules hold.
pub proof fn law_categories_hold_what_the_rules_hold(rules: Seq<Rule>, sizes: Seq<u64>, n: nat)
    requires
        n <= rules.len(),
        n <= sizes.len(),
    ensures
        sum_of(grouped(rules, sizes, n), row_total()) == total_of(ints(sizes.take(n as int))),
    decreases n,
{
    if n == 0 {
        assert(ints(sizes.take(0)) =~= Seq::<int>::empty());
    } else {
        law_categories_hold_what_the_rules_hold(rules, sizes, (n - 1) as nat);
        let before = grouped(rules, sizes, (n - 1) as nat);
        let now = ints(sizes.take(n as int));
        assert(now.drop_last() =~= ints(sizes.take(n - 1)));
        let rule = rules[n - 1];
        lemma_named(before, rule.category@);
        let p = PathRow { label: rule.label@, path: rule.path@, size: sizes[n - 1] as int };
        if sizes[n - 1] != 0 {
            match named(before, rule.category@) {
                Some(i) => {
                    lemma_sum_update(before, row_total(), i, filed(before, rule.category@, p)[i]);
                },
                None => {
                    order::lemma_sum_push(
                        before,
                        CategoryRow { name: rule.category@, paths: seq![p], total: p.size },
                        row_total(),
                    );
                },
            }
        }
    }
}

/// The name of a row.
pub open spec fn row_name() -> spec_fn(CategoryRow) -> Seq<char> {
    |c: CategoryRow| c.name
}

/// The size of a path.
pub open spec fn path_size() -> spec_fn(PathRow) -> int {
    |p: PathRow| p.size
}

/// A path is that of a rule of the category.
pub open spec fn is_by_rule(rules: Seq<Rule>, category: Seq<char>, p: PathRow) -> bool {
    exists|k: int|
        0 <= k < rules.len() && (#[trigger] rules[k]).category@ == category && rules[k].label@
            == p.label && rules[k].path@ == p.path
}

/// A category holds what its paths hold, each of them something, and each by one of the
/// rules.
pub open spec fn is_backed(rules: Seq<Rule>, c: CategoryRow) -> bool {
    &&& c.total == sum_of(c.paths, path_size())
    &&& c.total > 0
    &&& forall|j: int|
        0 <= j < c.paths.len() ==> (#[trigger] c.paths[j]).size > 0 && is_by_rule(
            rules,
            c.name,
            c.paths[j],
        )
}

/// Categories as they are listed: none twice, the largest first, each with its largest
/// path first, and each backed by the rules.
pub open spec fn are_listed(rules: Seq<Rule>, rows: Seq<CategoryRow>) -> bool {
    &&& order::apart(rows, row_name())
    &&& order::is_ordered(rows, category_order())
    &&& forall|i: int|
        0 <= i < rows.len() ==> is_backed(rules, #[trigger] rows[i]) && order::is_ordered(
            rows[i].paths,
            path_order(),
        )
}

proof fn lemma_grouped_backed(rules: Seq<Rule>, sizes: Seq<u64>, n: nat)
    requires
        n <= rules.len(),
        n <= sizes.len(),
    ensures
        order::apart(grouped(rules, sizes, n), row_name()),
        forall|i: int|
            0 <= i < grouped(rules, sizes, n).len() ==> is_backed(
                rules,
                #[trigger] grouped(rules, sizes, n)[i],
            ),
    decreases n,
{
    if n > 0 {
        lemma_grouped_backed(rules, sizes, (n - 1) as nat);
        let before = grouped(rules, sizes, (n - 1) as nat);
        let now = grouped(rules, sizes, n);
        let rule = rules[n - 1];
        let p = PathRow { label: rule.label@, path: rule.path@, size: sizes[n - 1] as int };
        lemma_named(before, rule.category@);
        if sizes[n - 1] != 0 {
            assert(is_by_rule(rules, rule.category@, p));
            match named(before, rule.category@) {
                Some(k) => {
                    assert(is_backed(rules, before[k]));
                    order::lemma_sum_push(before[k].paths, p, path_size());
                    assert forall|j: int| 0 <= j < now[k].paths.len() implies (
                    #[trigger] now[k].paths[j]).size > 0 && is_by_rule(
                        rules,
                        now[k].name,
                        now[k].paths[j],
                    ) by {
                        if j < before[k].paths.len() {
                            assert(now[k].paths[j] == before[k].paths[j]);
                        }
                    }
                    assert forall|i: int| 0 <= i < now.len() implies is_backed(
                        rules,
                        #[trigger] now[i],
                    ) by {
                        assert(is_backed(rules, before[i]));
                    }
                    assert forall|i: int, j: int| 0 <= i < j < now.len() implies row_name()(
                        #[trigger] now[i],
                    ) != row_name()(#[trigger] now[j]) by {
                        assert(row_name()(before[i]) != row_name()(before[j]));
                    }
                },
                None => {
                    let fresh = CategoryRow { name: rule.category@, paths: seq![p], total: p.size };
                    order::lemma_sum_push(Seq::<PathRow>::empty(), p, path_size());
                    assert(Seq::<PathRow>::empty().push(p) =~= fresh.paths);
                    assert(sum_of(Seq::<PathRow>::empty(), path_size()) == 0);
                    assert(is_backed(rules, fresh));
                    assert forall|i: int| 0 <= i < now.len() implies is_backed(
                        rules,
                        #[trigger] now[i],
                    ) by {
                        if i < before.len() {
                            assert(is_backed(rules, before[i]));
                        }
                    }
                    assert forall|i: int, j: int| 0 <= i < j < now.len() implies row_name()(
                        #[trigger] now[i],
                    ) != row_name()(#[trigger] now[j]) by {
                        if j < before.len() {
                            assert(row_name()(before[i]) != row_name()(before[j]));
                        } else {
                            assert(before[i].name != rule.category@);
                        }
                    }
                },
            }
        }
    }
}

/// However the rules come, a category is listed once, with the bytes of its paths, and
/// every path in it is one that a rule puts there. Nothing empty is listed, and the largest
/// comes first.
pub proof fn law_every_category_is_backed_by_its_paths(rules: Seq<Rule>, sizes: Seq<u64>, n: nat)
    requires
        n <= rules.len(),
        n <= sizes.len(),
    ensures
        are_listed(
            rules,
            order::arranged(grouped(rules, sizes, n).map_values(tidied()), category_order()),
        ),
{
    let raw = grouped(rules, sizes, n);
    let tidy = raw.map_values(tidied());
    let rows = order::arranged(tidy, category_order());
    lemma_grouped_backed(rules, sizes, n);
    assert forall|i: int, j: int| 0 <= i < j < tidy.len() implies row_name()(#[trigger] tidy[i])
        != row_name()(#[trigger] tidy[j]) by {
        assert(row_name()(raw[i]) != row_name()(raw[j]));
    }
    order::lemma_arranged_multiset(tidy, category_order());
    order::lemma_shuffled_apart(tidy, rows, row_name());
    order::lemma_arranged_ordered(tidy, category_order());
    order::lemma_arranged_members(tidy, category_order());
    assert forall|i: int| 0 <= i < rows.len() implies is_backed(rules, #[trigger] rows[i])
        && order::is_ordered(rows[i].paths, path_order()) by {
        assert(tidy.contains(rows[i]));
        let k = choose|k: int| 0 <= k < tidy.len() && tidy[k] == rows[i];
        let c = raw[k];
        assert(is_backed(rules, c));
        order::lemma_arranged_ordered(c.paths, path_order());
        order::lemma_arranged_members(c.paths, path_order());
        order::lemma_arranged_sum(c.paths, path_order(), path_size());
        assert forall|j: int| 0 <= j < rows[i].paths.len() implies (#[trigger] rows[i].paths[j]).size
            > 0 && is_by_rule(rules, rows[i].name, rows[i].paths[j]) by {
            assert(c.paths.contains(rows[i].paths[j]));
            let q = choose|q: int| 0 <= q < c.paths.len() && c.paths[q] == rows[i].paths[j];
            assert(c.paths[q].size > 0);
        }
    }
}

/// The rows of a list of categories.
pub open spec fn rows_of(v: Seq<Category>) -> Seq<CategoryRow> {
    v.map_values(category_row())
}

proof fn lemma_rows_sum(v: Seq<Category>)
    ensures
        sum_of(rows_of(v), row_total()) == sum_of(v, category_total()),
    decreases v.len(),
{
    if v.len() > 0 {
        lemma_rows_sum(v.drop_last());
        assert(rows_of(v).drop_last() =~= rows_of(v.drop_last()));
    }
}

proof fn lemma_filed_rows_nonneg(rules: Seq<Rule>, sizes: Seq<u64>, n: nat)
    requires
        n <= rules.len(),
        n <= sizes.len(),
    ensures
        forall|i: int|
            0 <= i < grouped(rules, sizes, n).len() ==> 0 <= (#[trigger] grouped(
                rules,
                sizes,
                n,
            )[i]).total,
    decreases n,
{
    if n > 0 {
        lemma_filed_rows_nonneg(rules, sizes, (n - 1) as nat);
        let before = grouped(rules, sizes, (n - 1) as nat);
        lemma_named(before, rules[n - 1].category@);
    }
}

/// Where a category of a given name stands.
fn find_category(v: &Vec<Category>, name: &str) -> (r: Option<usize>)
    ensures
        match r {
            Some(i) => named(rows_of(v@), name@) == Some(i as int),
            None => named(rows_of(v@), name@) is None,
        },
{
    let ghost rows = rows_of(v@);
    for i in 0..v.len()
        invariant
            rows == rows_of(v@),
            named(rows.take(i as int), name@) is None,
    {
        assert(rows.take(i + 1).drop_last() =~= rows.take(i as int));
        if text::same(&v[i].name, name) {
            proof {
                lemma_named_prefix(rows, name@, i + 1);
            }
            return Some(i);
        }
    }
    assert(rows.take(rows.len() as int) =~= rows);
    None
}

proof fn lemma_named_prefix(rows: Seq<CategoryRow>, name: Seq<char>, n: int)
    requires
        0 <= n <= rows.len(),
        named(rows.take(n), name) is Some,
    ensures
        named(rows, name) == named(rows.take(n), name),
    decreases rows.len() - n,
{
    if n == rows.len() {
        assert(rows.take(n) =~= rows);
    } else {
        assert(rows.take(n + 1).drop_last() =~= rows.take(n));
        lemma_named_prefix(rows, name, n + 1);
    }
}

/// Rolls per-rule bytes back up into categories, largest first. Rules that
/// matched nothing are left out.
pub fn group(rules: &Vec<Rule>, sizes: &Vec<u64>) -> (r: Vec<Category>)
    requires
        total_of(ints(sizes@.take(paired(rules@, sizes@) as int))) <= u64::MAX,
    ensures
        rows_of(r@) == order::arranged(
            grouped(rules@, sizes@, paired(rules@, sizes@)).map_values(tidied()),
            category_order(),
        ),
        sum_of(r@, category_total()) == total_of(
            ints(sizes@.take(paired(rules@, sizes@) as int)),
        ),
{
    let n: usize = if rules.len() <= sizes.len() {
        rules.len()
    } else {
        sizes.len()
    };
    let mut categories: Vec<Category> = Vec::new();
    let ghost whole = ints(sizes@.take(n as int));
    assert(rows_of(categories@) =~= grouped(rules@, sizes@, 0));
    for k in 0..n
        invariant
            n == paired(rules@, sizes@),
            n <= rules@.len(),
            n <= sizes@.len(),
            whole == ints(sizes@.take(n as int)),
            total_of(whole) <= u64::MAX,
            rows_of(categories@) == grouped(rules@, sizes@, k as nat),
    {
        let rule = &rules[k];
        let size = sizes[k];
        let ghost before = rows_of(categories@);
        if size != 0 {
            let entry = CategoryPath {
                label: rule.label.clone(),
                path: rule.path.clone(),
                size,
            };
            let ghost p = path_row()(entry);
            let at = find_category(&categories, &rule.category);
            proof {
                lemma_named(before, rule.category@);
            }
            match at {
                Some(i) => {
                    proof {
                        law_categories_hold_what_the_rules_hold(
                            rules@,
                            sizes@,
                            (k + 1) as nat,
                        );
                        law_categories_hold_what_the_rules_hold(rules@, sizes@, k as nat);
                        assert forall|j: int| 0 <= j < whole.len() implies 0 <= #[trigger] whole[j] by {}
                        order::lemma_sum_prefix(whole, |x: int| x, k + 1);
                        assert(whole.take(k + 1) =~= ints(sizes@.take(k + 1)));
                        lemma_filed_rows_nonneg(rules@, sizes@, k as nat);
                        assert forall|j: int| 0 <= j < before.len() implies row_total()(
                            #[trigger] before[j],
                        ) >= 0 by {}
                        order::lemma_sum_prefix(before, row_total(), i as int);
                        order::lemma_sum_prefix(before, row_total(), i + 1);
                        assert(before.take(i + 1).drop_last() =~= before.take(i as int));
                        assert(ints(sizes@.take(k + 1)).drop_last() =~= ints(
                            sizes@.take(k as int),
                        ));
                        assert(before[i as int].total == categories@[i as int].total_size);
                    }
                    let mut existing = categories.remove(i);
                    let ghost row = category_row()(existing);
                    let ghost listed = existing.paths@;
                    existing.total_size = existing.total_size + size;
                    existing.paths.push(entry);
                    assert(existing.paths@.map_values(path_row()) =~= listed.map_values(
                        path_row(),
                    ).push(p));
                    categories.insert(i, existing);
                    assert(rows_of(categories@) =~= filed(before, rule.category@, p));
                },
                None => {
                    let mut paths: Vec<CategoryPath> = Vec::new();
                    paths.push(entry);
                    assert(paths@.map_values(path_row()) =~= seq![p]);
                    let fresh = Category {
                        name: rule.category.clone(),
                        paths,
                        total_size: size,
                    };
                    let ghost row = category_row()(fresh);
                    categories.push(fresh);
                    assert(rows_of(categories@) =~= before.push(row));
                    assert(rows_of(categories@) =~= filed(before, rule.category@, p));
                },
            }
        }
    }
    let ghost raw = grouped(rules@, sizes@, n as nat);
    proof {
        law_categories_hold_what_the_rules_hold(rules@, sizes@, n as nat);
        lemma_rows_sum(categories@);
    }
    let ghost unsorted = categories@;
    let mut tidy: Vec<Category> = Vec::new();
    for c in it: categories
        invariant
            it.seq() == unsorted,
            rows_of(unsorted) == raw,
            tidy@.len() == it.index(),
            forall|j: int|
                0 <= j < tidy@.len() ==> category_row()(#[trigger] tidy@[j]) == tidied()(raw[j]),
            sum_of(tidy@, category_total()) == sum_of(
                unsorted.take(it.index() as int),
                category_total(),
            ),
    {
        let ghost n = it.index() as int;
        proof {
            order::lemma_arranged(c.paths@, path_row(), path_order());
            assert(raw[n] == category_row()(c));
            assert(unsorted.take(n + 1).drop_last() =~= unsorted.take(n));
        }
        let paths = order::sort(c.paths);
        let done = Category { name: c.name, paths, total_size: c.total_size };
        assert(category_row()(done) =~= tidied()(raw[n]));
        let ghost prev = tidy@;
        tidy.push(done);
        proof {
            order::lemma_sum_push(prev, done, category_total());
        }
    }
    assert(unsorted.take(unsorted.len() as int) =~= unsorted);
    assert(rows_of(tidy@) =~= raw.map_values(tidied()));
    proof {
        order::lemma_arranged(tidy@, category_row(), category_order());
        order::lemma_sorted_sum(tidy@, category_total());
    }
    order::sort(tidy)
}

/// One pass over the volume, read two ways.
#[derive(Debug)]
pub struct Audit {
    pub roots: Vec<RootUsage>,
    pub categories: Vec<Category>,
}

/// The refusals of a root.
pub open spec fn usage_unreadable() -> spec_fn(RootUsage) -> int {
    |u: RootUsage| u.unreadable_count as int
}

/// Every unattributed child of every root, in the order of the roots.
pub open spec fn all_gaps(roots: Seq<RootUsage>) -> Seq<(String, u64)>
    decreases roots.len(),
{
    if roots.len() == 0 {
        Seq::empty()
    } else {
        all_gaps(roots.drop_last()) + roots.last().unattributed@
    }
}

impl Audit {
    /// Everything the walk could see.
    pub fn measured(&self) -> (r: u64)
        requires
            sum_of(self.roots@, usage_total()) <= u64::MAX,
        ensures
            r == sum_of(self.roots@, usage_total()),
    {
        sweep::sum_totals(&self.roots)
    }

    /// Everything that has a name.
    pub fn attributed(&self) -> (r: u64)
        requires
            sum_of(self.categories@, category_total()) <= u64::MAX,
        ensures
            r == sum_of(self.categories@, category_total()),
    {
        let mut s: u64 = 0;
        for i in 0..self.categories.len()
            invariant
                sum_of(self.categories@, category_total()) <= u64::MAX,
                s == sum_of(self.categories@.take(i as int), category_total()),
        {
            proof {
                assert(self.categories@.take(i + 1).drop_last() =~= self.categories@.take(
                    i as int,
                ));
                order::lemma_sum_prefix(self.categories@, category_total(), i + 1);
            }
            s = s + self.categories[i].total_size;
        }
        assert(self.categories@.take(self.categories@.len() as int) =~= self.categories@);
        s
    }

    /// Measured but unnamed.
    pub fn unattributed(&self) -> (r: u64)
        requires
            sum_of(self.roots@, usage_unattributed()) <= u64::MAX,
        ensures
            r == sum_of(self.roots@, usage_unattributed()),
    {
        sweep::sum_gaps(&self.roots)
    }

    /// How much would not open.
    pub fn unreadable_count(&self) -> (r: usize)
        requires
            sum_of(self.roots@, usage_unreadable()) <= usize::MAX,
        ensures
            r == sum_of(self.roots@, usage_unreadable()),
    {
        let mut s: usize = 0;
        for i in 0..self.roots.len()
            invariant
                sum_of(self.roots@, usage_unreadable()) <= usize::MAX,
                s == sum_of(self.roots@.take(i as int), usage_unreadable()),
        {
            proof {
                assert(self.roots@.take(i + 1).drop_last() =~= self.roots@.take(i as int));
                order::lemma_sum_prefix(self.roots@, usage_unreadable(), i + 1);
            }
            s = s + self.roots[i].unreadable_count;
        }
        assert(self.roots@.take(self.roots@.len() as int) =~= self.roots@);
        s
    }

    /// The biggest unnamed directories anywhere, at most `limit` of them.
    pub fn largest_unattributed(&self, limit: usize) -> (r: Vec<(String, u64)>)
        ensures
            ({
                let all = order::sorted(all_gaps(self.roots@));
                r@ == (if all.len() <= limit {
                    all
                } else {
                    all.take(limit as int)
                })
            }),
    {
        let mut all: Vec<(String, u64)> = Vec::new();
        for i in 0..self.roots.len()
            invariant
                all@ == all_gaps(self.roots@.take(i as int)),
        {
            assert(self.roots@.take(i + 1).drop_last() =~= self.roots@.take(i as int));
            let gaps = &self.roots[i].unattributed;
            let ghost before = all@;
            assert(before + gaps@.take(0) =~= before);
            for j in 0..gaps.len()
                invariant
                    all@ == before + gaps@.take(j as int),
            {
                assert(before + gaps@.take(j + 1) =~= (before + gaps@.take(j as int)).push(
                    gaps@[j as int],
                ));
                all.push((gaps[j].0.clone(), gaps[j].1));
            }
            assert(gaps@.take(gaps@.len() as int) =~= gaps@);
        }
        assert(self.roots@.take(self.roots@.len() as int) =~= self.roots@);
        let mut out = order::sort(all);
        let ghost full = out@;
        if out.len() > limit {
            out.truncate(limit);
            assert(out@ =~= full.take(limit as int));
        }
        out
    }
}

/// An audit is that of roots by rules: what was measured is what the categories hold and
/// what is unattributed, root by root as the sweep found it and category by category as
/// the rules name it. Each category is listed once, with the bytes of its paths.
pub open spec fn audits(r: Audit, roots: Seq<Root>, rules: Seq<Rule>, nodes: Seq<Node>) -> bool {
    &&& sum_of(r.roots@, usage_total()) == sum_of(r.categories@, category_total()) + sum_of(
        r.roots@,
        usage_unattributed(),
    )
    &&& sum_of(r.roots@, usage_total()) <= u64::MAX
    &&& r.roots@.len() == roots.len()
    &&& are_listed(rules, rows_of(r.categories@))
    &&& exists|swept: Sweep, said: Seq<Event>, seeds: Seq<RootSeed>, results: Seq<JobResult>|
        #![trigger sweeps(said, Some(swept), roots, rules, Seq::empty(), nodes, Seq::empty(), seeds, results)]
        {
            &&& sweeps(
                said,
                Some(swept),
                roots,
                rules,
                Seq::empty(),
                nodes,
                Seq::empty(),
                seeds,
                results,
            )
            &&& r.roots == swept.roots
            &&& rows_of(r.categories@) == order::arranged(
                grouped(rules, swept.rule_sizes@, rules.len()).map_values(tidied()),
                category_order(),
            )
        }
}

/// Measures every root and names what can be named. What was measured is what
/// the categories hold and what is unattributed.
pub fn scan_with(roots: &Vec<Root>, rules: &Vec<Rule>, nodes: &Vec<Node>) -> (r: Audit)
    requires
        nodes@.len() == roots@.len(),
        weight_all(nodes@) <= u64::MAX,
        headcount_all(nodes@) <= usize::MAX,
    ensures
        audits(r, roots@, rules@, nodes@),
{
    let swept = progress::sweep(roots, rules, nodes);
    let ghost whole = swept;
    proof {
        let sizes = swept.rule_sizes@;
        assert(sizes.take(rules@.len() as int) =~= sizes);
        order::lemma_sum_prefix(swept.roots@, usage_unattributed(), swept.roots@.len() as int);
        law_every_category_is_backed_by_its_paths(rules@, sizes, rules@.len());
    }
    let categories = group(rules, &swept.rule_sizes);
    Audit { roots: swept.roots, categories }
}

/// Walks the volume and names what can be named, by the rules of the machine.
pub fn scan(
    system: platform::System,
    home: &Option<String>,
    go_cache: &Option<String>,
    assistant: &platform::Assistant,
    roots: &Vec<Root>,
    nodes: &Vec<Node>,
) -> (r: Audit)
    requires
        nodes@.len() == roots@.len(),
        weight_all(nodes@) <= u64::MAX,
        headcount_all(nodes@) <= usize::MAX,
    ensures
        exists|rules: Seq<Rule>|
            platform::rule_rows(rules) == platform::rules_of(
                match platform::home_on(system, text::text_opt(*home)) {
                    Some(h) => platform::audit_table(
                        h,
                        platform::go_cache_at(h, text::text_opt(*go_cache)),
                        assistant@,
                    ),
                    None => Seq::empty(),
                },
            ) && #[trigger] audits(r, roots@, rules, nodes@),
{
    let rules = platform::attribution_rules(system, home, go_cache, assistant);
    let r = scan_with(roots, &rules, nodes);
    assert(audits(r, roots@, rules@, nodes@));
    r
}

/// The row lists the path under the name, with that size.
pub open spec fn lists(c: CategoryRow, name: Seq<char>, p: PathRow) -> bool {
    c.name == name && c.paths.contains(p)
}

proof fn lemma_grouped_lists(rules: Seq<Rule>, sizes: Seq<u64>, n: nat, k: int)
    requires
        0 <= k < n <= rules.len(),
        n <= sizes.len(),
        sizes[k] > 0,
    ensures
        exists|i: int|
            0 <= i < grouped(rules, sizes, n).len() && lists(
                #[trigger] grouped(rules, sizes, n)[i],
                rules[k].category@,
                PathRow { label: rules[k].label@, path: rules[k].path@, size: sizes[k] as int },
            ),
    decreases n,
{
    let before = grouped(rules, sizes, (n - 1) as nat);
    let now = grouped(rules, sizes, n);
    let p = PathRow { label: rules[k].label@, path: rules[k].path@, size: sizes[k] as int };
    let name = rules[n - 1].category@;
    lemma_named(before, name);
    if k == n - 1 {
        match named(before, name) {
            Some(i) => {
                assert(now[i].paths[before[i].paths.len() as int] == p);
                assert(lists(now[i], name, p));
            },
            None => {
                let i = before.len() as int;
                assert(now[i].paths[0] == p);
                assert(lists(now[i], name, p));
            },
        }
    } else {
        lemma_grouped_lists(rules, sizes, (n - 1) as nat, k);
        let i = choose|i: int|
            0 <= i < before.len() && lists(#[trigger] before[i], rules[k].category@, p);
        let j = choose|j: int| 0 <= j < before[i].paths.len() && before[i].paths[j] == p;
        assert(now[i].paths[j] == p);
        assert(lists(now[i], rules[k].category@, p));
    }
}

/// Whatever a rule was given is listed: in the category it names, under its own label and path,
/// with its bytes.
pub proof fn law_every_rule_with_bytes_is_listed(
    rules: Seq<Rule>,
    sizes: Seq<u64>,
    n: nat,
    k: int,
)
    requires
        0 <= k < n <= rules.len(),
        n <= sizes.len(),
        sizes[k] > 0,
    ensures
        ({
            let rows = order::arranged(
                grouped(rules, sizes, n).map_values(tidied()),
                category_order(),
            );
            exists|i: int, j: int|
                #![trigger rows[i].paths[j]]
                {
                    &&& 0 <= i < rows.len()
                    &&& rows[i].name == rules[k].category@
                    &&& 0 <= j < rows[i].paths.len()
                    &&& rows[i].paths[j].label == rules[k].label@
                    &&& rows[i].paths[j].path == rules[k].path@
                    &&& rows[i].paths[j].size == sizes[k]
                }
        }),
{
    let raw = grouped(rules, sizes, n);
    let tidy = raw.map_values(tidied());
    let rows = order::arranged(tidy, category_order());
    let p = PathRow { label: rules[k].label@, path: rules[k].path@, size: sizes[k] as int };
    lemma_grouped_lists(rules, sizes, n, k);
    let q = choose|q: int| 0 <= q < raw.len() && lists(#[trigger] raw[q], rules[k].category@, p);
    order::lemma_arranged_keeps(raw[q].paths, path_order(), p);
    assert(tidy[q].paths.contains(p));
    assert(tidy.contains(tidy[q]));
    order::lemma_arranged_keeps(tidy, category_order(), tidy[q]);
    let i = choose|i: int| 0 <= i < rows.len() && rows[i] == tidy[q];
    let j = choose|j: int| 0 <= j < rows[i].paths.len() && rows[i].paths[j] == p;
    assert(rows[i].paths[j].label == rules[k].label@);
}

/// Every directory that holds something unnamed is among those that are ranked, whichever root
/// it lies below, and none is that is not.
pub proof fn law_the_gaps_of_every_root_are_ranked(roots: Seq<RootUsage>, gap: (String, u64))
    ensures
        order::sorted(all_gaps(roots)).contains(gap) <==> exists|k: int|
            0 <= k < roots.len() && (#[trigger] roots[k]).unattributed@.contains(gap),
        forall|i: int, j: int|
            0 <= i < j < order::sorted(all_gaps(roots)).len() ==> (#[trigger] order::sorted(
                all_gaps(roots),
            )[i]).1 >= (#[trigger] order::sorted(all_gaps(roots))[j]).1,
{
    let all = all_gaps(roots);
    let s = order::sorted(all);
    order::lemma_sorted_ordered(all);
    order::lemma_sorted_multiset(all);
    lemma_gaps(roots, gap);
    broadcast use vstd::seq_lib::group_to_multiset_ensures;

    assert(all.to_multiset().count(gap) > 0 <==> all.contains(gap));
    assert(s.to_multiset().count(gap) > 0 <==> s.contains(gap));
    assert forall|i: int, j: int| 0 <= i < j < s.len() implies (#[trigger] s[i]).1 >= (
    #[trigger] s[j]).1 by {
        assert(Ranked::le(&s[i], &s[j]));
    }
}

proof fn lemma_gaps(roots: Seq<RootUsage>, gap: (String, u64))
    ensures
        all_gaps(roots).contains(gap) <==> exists|k: int|
            0 <= k < roots.len() && (#[trigger] roots[k]).unattributed@.contains(gap),
    decreases roots.len(),
{
    if roots.len() > 0 {
        let rest = roots.drop_last();
        let n = roots.len() - 1;
        let before = all_gaps(rest);
        let all = all_gaps(roots);
        let last = roots.last().unattributed@;
        lemma_gaps(rest, gap);
        if all.contains(gap) {
            let i = choose|i: int| 0 <= i < all.len() && all[i] == gap;
            if i < before.len() {
                assert(before[i] == gap);
                let k = choose|k: int|
                    0 <= k < rest.len() && (#[trigger] rest[k]).unattributed@.contains(gap);
                assert(roots[k].unattributed@.contains(gap));
            } else {
                assert(last[i - before.len()] == gap);
                assert(roots[n].unattributed@.contains(gap));
            }
        }
        if exists|k: int|
            0 <= k < roots.len() && (#[trigger] roots[k]).unattributed@.contains(gap) {
            let k = choose|k: int|
                0 <= k < roots.len() && (#[trigger] roots[k]).unattributed@.contains(gap);
            if k < n {
                assert(rest[k].unattributed@.contains(gap));
                let i = choose|i: int| 0 <= i < before.len() && before[i] == gap;
                assert(all[i] == gap);
            } else {
                let i = choose|i: int| 0 <= i < last.len() && last[i] == gap;
                assert(all[before.len() + i] == gap);
            }
        }
    }
}

/// No category is listed before one that holds more, and in a category no path before one that
/// does.
pub proof fn law_the_largest_category_is_listed_first(
    rules: Seq<Rule>,
    sizes: Seq<u64>,
    n: nat,
    i: int,
    j: int,
)
    requires
        n <= rules.len(),
        n <= sizes.len(),
    ensures
        ({
            let rows = order::arranged(
                grouped(rules, sizes, n).map_values(tidied()),
                category_order(),
            );
            &&& 0 <= i < j < rows.len() ==> rows[i].total >= rows[j].total
            &&& forall|k: int|
                0 <= k < rows.len() && 0 <= i < j < (#[trigger] rows[k]).paths.len()
                    ==> rows[k].paths[i].size >= rows[k].paths[j].size
        }),
{
    let rows = order::arranged(grouped(rules, sizes, n).map_values(tidied()), category_order());
    law_every_category_is_backed_by_its_paths(rules, sizes, n);
    if 0 <= i < j < rows.len() {
        assert(category_order()(rows[i], rows[j]));
    }
    assert forall|k: int|
        0 <= k < rows.len() && 0 <= i < j < (#[trigger] rows[k]).paths.len() implies
        rows[k].paths[i].size >= rows[k].paths[j].size by {
        assert(order::is_ordered(rows[k].paths, path_order()));
        assert(path_order()(rows[k].paths[i], rows[k].paths[j]));
    }
}

} // verus!
