//! One level of a directory with the size of everything below it.
use vstd::prelude::*;
use crate::order;
use crate::order::{sum_of, Ranked};

verus! {

/// What a directory entry is.
#[derive(Debug, Clone, Copy, PartialEq, Eq, Structural)]
pub enum FileKind {
    Directory,
    Link,
    Other,
}

/// An entry of a directory as it was read, with the size of everything below it.
#[derive(Debug)]
pub struct ScanEntry {
    pub name: String,
    pub path: String,
    /// Unset where the entry would not say what it is.
    pub kind: Option<FileKind>,
    pub size: u64,
}

/// A directory one level deep.
#[derive(Debug)]
pub struct ScanResult {
    pub path: String,
    pub total_size: u64,
    pub children: Vec<ChildEntry>,
}

/// One child of a scanned directory.
#[derive(Debug)]
pub struct ChildEntry {
    pub name: String,
    pub path: String,
    pub size: u64,
    pub is_dir: bool,
}

/// One child, in mathematical terms.
pub ghost struct ChildRow {
    pub name: Seq<char>,
    pub path: Seq<char>,
    pub size: u64,
    pub is_dir: bool,
}

/// What a child says.
pub open spec fn child_row() -> spec_fn(ChildEntry) -> ChildRow {
    |c: ChildEntry| ChildRow { name: c.name@, path: c.path@, size: c.size, is_dir: c.is_dir }
}

/// Children in falling order of size.
pub open spec fn child_order() -> spec_fn(ChildRow, ChildRow) -> bool {
    |a: ChildRow, b: ChildRow| a.size >= b.size
}

impl Ranked for ChildEntry {
    open spec fn le(&self, other: &Self) -> bool {
        self.size >= other.size
    }

    proof fn le_total(a: &Self, b: &Self) {
    }

    proof fn le_transitive(a: &Self, b: &Self, c: &Self) {
    }

    fn leq(&self, other: &Self) -> (r: bool) {
        self.size >= other.size
    }
}

/// An entry that is listed: one that says what it is, and is no link.
pub open spec fn is_listed() -> spec_fn(ScanEntry) -> bool {
    |e: ScanEntry| e.kind matches Some(k) && k != FileKind::Link
}

/// The row an entry is listed as.
pub open spec fn entry_row() -> spec_fn(ScanEntry) -> ChildRow {
    |e: ScanEntry|
        ChildRow {
            name: e.name@,
            path: e.path@,
            size: e.size,
            is_dir: e.kind == Some(FileKind::Directory),
        }
}

/// The size of an entry.
pub open spec fn entry_size() -> spec_fn(ScanEntry) -> int {
    |e: ScanEntry| e.size as int
}

/// Lists a directory one level deep, biggest child first. Links are not
/// followed, and a directory that is not there or would not open holds nothing.
pub fn scan_dir(dir: &str, listing: &Option<Vec<ScanEntry>>) -> (r: ScanResult)
    requires
        listing matches Some(v) ==> sum_of(v@.filter(is_listed()), entry_size()) <= u64::MAX,
    ensures
        r.path@ == dir@,
        match listing {
            Some(v) => {
                let kept = v@.filter(is_listed());
                &&& r.children@.map_values(child_row()) == order::arranged(
                    kept.map_values(entry_row()),
                    child_order(),
                )
                &&& r.total_size == sum_of(kept, entry_size())
            },
            None => r.children@.len() == 0 && r.total_size == 0,
        },
{
    match listing {
        None => ScanResult { path: dir.to_owned(), total_size: 0, children: Vec::new() },
        Some(v) => {
            let ghost keep = is_listed();
            let mut children: Vec<ChildEntry> = Vec::new();
            let mut total_size: u64 = 0;
            proof {
                reveal(Seq::filter);
                assert(children@.map_values(child_row()) =~= Seq::<ScanEntry>::empty().map_values(
                    entry_row(),
                ));
            }
            for i in 0..v.len()
                invariant
                    keep == is_listed(),
                    sum_of(v@.filter(keep), entry_size()) <= u64::MAX,
                    children@.map_values(child_row()) == v@.take(i as int).filter(keep).map_values(
                        entry_row(),
                    ),
                    total_size == sum_of(v@.take(i as int).filter(keep), entry_size()),
            {
                let e = &v[i];
                let ghost before = v@.take(i as int);
                proof {
                    assert(v@.take(i + 1) =~= before.push(*e));
                    before.lemma_filter_push(*e, keep);
                    order::lemma_sum_push(before.filter(keep), *e, entry_size());
                    lemma_filter_prefix_sum(v@, i + 1);
                }
                let listed: bool = match e.kind {
                    Some(k) => k != FileKind::Link,
                    None => false,
                };
                if listed {
                    let is_dir: bool = match e.kind {
                        Some(k) => k == FileKind::Directory,
                        None => false,
                    };
                    let child = ChildEntry {
                        name: e.name.clone(),
                        path: e.path.clone(),
                        size: e.size,
                        is_dir,
                    };
                    let ghost rows = children@.map_values(child_row());
                    children.push(child);
                    total_size = total_size + e.size;
                    assert(children@.map_values(child_row()) =~= rows.push(child_row()(child)));
                    assert(v@.take(i + 1).filter(keep).map_values(entry_row()) =~= rows.push(
                        entry_row()(*e),
                    ));
                }
            }
            assert(v@.take(v@.len() as int) =~= v@);
            proof {
                order::lemma_arranged(children@, child_row(), child_order());
            }
            ScanResult { path: dir.to_owned(), total_size, children: order::sort(children) }
        },
    }
}

proof fn lemma_filter_prefix_sum(v: Seq<ScanEntry>, n: int)
    requires
        0 <= n <= v.len(),
    ensures
        sum_of(v.take(n).filter(is_listed()), entry_size()) <= sum_of(
            v.filter(is_listed()),
            entry_size(),
        ),
    decreases v.len() - n,
{
    if n == v.len() {
        assert(v.take(n) =~= v);
    } else {
        lemma_filter_prefix_sum(v, n + 1);
        assert(v.take(n + 1) =~= v.take(n).push(v[n]));
        v.take(n).lemma_filter_push(v[n], is_listed());
        order::lemma_sum_push(v.take(n).filter(is_listed()), v[n], entry_size());
    }
}

/// Every entry that says what it is and is no link is listed by its name, path and size, as a
/// directory exactly where it is one, and nothing else is listed.
pub proof fn law_all_but_links_are_listed(entries: Seq<ScanEntry>, row: ChildRow)
    ensures
        order::arranged(
            entries.filter(is_listed()).map_values(entry_row()),
            child_order(),
        ).contains(row) <==> exists|i: int|
            {
                &&& 0 <= i < entries.len()
                &&& (#[trigger] entries[i]).kind == Some(FileKind::Directory) || entries[i].kind
                    == Some(FileKind::Other)
                &&& row.name == entries[i].name@
                &&& row.path == entries[i].path@
                &&& row.size == entries[i].size
                &&& row.is_dir == (entries[i].kind == Some(FileKind::Directory))
            },
{
    broadcast use vstd::seq_lib::group_filter_ensures;

    let kept = entries.filter(is_listed());
    let rows = kept.map_values(entry_row());
    let all = order::arranged(rows, child_order());
    order::lemma_arranged_members(rows, child_order());
    if all.contains(row) {
        let j = choose|j: int| 0 <= j < all.len() && all[j] == row;
        assert(rows.contains(all[j]));
        let k = choose|k: int| 0 <= k < rows.len() && rows[k] == row;
        assert(kept.contains(kept[k]));
        entries.lemma_filter_contains_rev(is_listed(), kept[k]);
        let i = choose|i: int| 0 <= i < entries.len() && entries[i] == kept[k];
        entries.lemma_filter_pred(is_listed(), k);
        assert(is_listed()(entries[i]));
        assert(entries[i].name@ == row.name);
    }
    if exists|i: int|
        {
            &&& 0 <= i < entries.len()
            &&& (#[trigger] entries[i]).kind == Some(FileKind::Directory) || entries[i].kind
                == Some(FileKind::Other)
            &&& row.name == entries[i].name@
            &&& row.path == entries[i].path@
            &&& row.size == entries[i].size
            &&& row.is_dir == (entries[i].kind == Some(FileKind::Directory))
        } {
        let i = choose|i: int|
            {
                &&& 0 <= i < entries.len()
                &&& (#[trigger] entries[i]).kind == Some(FileKind::Directory) || entries[i].kind
                    == Some(FileKind::Other)
                &&& row.name == entries[i].name@
                &&& row.path == entries[i].path@
                &&& row.size == entries[i].size
                &&& row.is_dir == (entries[i].kind == Some(FileKind::Directory))
            };
        assert(is_listed()(entries[i]));
        assert(entries.contains(entries[i]));
        assert(kept.contains(entries[i]));
        let k = choose|k: int| 0 <= k < kept.len() && kept[k] == entries[i];
        assert(rows[k] == row);
        order::lemma_arranged_keeps(rows, child_order(), row);
    }
}

proof fn lemma_row_sizes(kept: Seq<ScanEntry>)
    ensures
        sum_of(kept.map_values(entry_row()), |r: ChildRow| r.size as int) == sum_of(
            kept,
            entry_size(),
        ),
    decreases kept.len(),
{
    if kept.len() > 0 {
        lemma_row_sizes(kept.drop_last());
        assert(kept.map_values(entry_row()).drop_last() =~= kept.drop_last().map_values(
            entry_row(),
        ));
    }
}

/// The total is what the listed children hold, no child counted twice or left out, and no child
/// stands before a larger one.
pub proof fn law_the_children_add_up_to_the_total(entries: Seq<ScanEntry>)
    ensures
        ({
            let listed = order::arranged(
                entries.filter(is_listed()).map_values(entry_row()),
                child_order(),
            );
            &&& sum_of(entries.filter(is_listed()), entry_size()) == sum_of(
                listed,
                |r: ChildRow| r.size as int,
            )
            &&& forall|i: int, j: int|
                0 <= i < j < listed.len() ==> (#[trigger] listed[i]).size >= (
                #[trigger] listed[j]).size
        }),
{
    let kept = entries.filter(is_listed());
    let rows = kept.map_values(entry_row());
    lemma_row_sizes(kept);
    order::lemma_arranged_sum(rows, child_order(), |r: ChildRow| r.size as int);
    order::lemma_arranged_ordered(rows, child_order());
}

} // verus!
