//! The volume's own top level, named.
use vstd::prelude::*;
use crate::disk::progress::root_rows;
use crate::disk::sweep::{Root, DATA_VOLUME};
use crate::order;
use crate::order::Ranked;
use crate::paths;
use crate::text;

verus! {

/// One entry of the top level of the data volume.
#[derive(Debug)]
pub struct VolumeEntry {
    pub path: String,
    pub is_dir: bool,
    /// Whether the same directory is also reached by its name right below `/`.
    pub short_is_same: bool,
}

/// Entries in the order of their paths.
impl Ranked for VolumeEntry {
    open spec fn le(&self, other: &Self) -> bool {
        paths::path_le(self.path@, other.path@)
    }

    proof fn le_total(a: &Self, b: &Self) {
        paths::lemma_components_le_total(
            paths::components(a.path@),
            paths::components(b.path@),
        );
    }

    proof fn le_transitive(a: &Self, b: &Self, c: &Self) {
        paths::lemma_components_le_transitive(
            paths::components(a.path@),
            paths::components(b.path@),
            paths::components(c.path@),
        );
    }

    fn leq(&self, other: &Self) -> (r: bool) {
        paths::path_leq(&self.path, &other.path)
    }
}

/// The place of a root among the others: the ones worth looking at first.
pub open spec fn rank_of_root(name: Seq<char>) -> int {
    if name == "Home"@ {
        0
    } else if name == "User Library"@ {
        1
    } else if name == "Applications"@ {
        2
    } else if name == "System Library"@ {
        3
    } else if name == "opt"@ {
        4
    } else if name == "System data"@ {
        5
    } else if name == "System runtime"@ {
        6
    } else if name == "usr"@ {
        7
    } else if name == "Other users"@ {
        8
    } else {
        9
    }
}

/// The place of a root among the others.
pub fn display_rank(name: &str) -> (r: u8)
    ensures
        r == rank_of_root(name@),
{
    if text::same(name, "Home") {
        0
    } else if text::same(name, "User Library") {
        1
    } else if text::same(name, "Applications") {
        2
    } else if text::same(name, "System Library") {
        3
    } else if text::same(name, "opt") {
        4
    } else if text::same(name, "System data") {
        5
    } else if text::same(name, "System runtime") {
        6
    } else if text::same(name, "usr") {
        7
    } else if text::same(name, "Other users") {
        8
    } else {
        9
    }
}

/// The order roots are listed in: by place, and by name where that is the same.
pub open spec fn row_le(a: (Seq<char>, Seq<char>), b: (Seq<char>, Seq<char>)) -> bool {
    let (x, y) = (rank_of_root(a.0), rank_of_root(b.0));
    x < y || (x == y && order::text_le(a.0, b.0))
}

/// Roots in the order they are listed in.
impl Ranked for Root {
    open spec fn le(&self, other: &Self) -> bool {
        row_le((self.name@, self.path@), (other.name@, other.path@))
    }

    proof fn le_total(a: &Self, b: &Self) {
        order::lemma_text_le_total(a.name@, b.name@);
    }

    proof fn le_transitive(a: &Self, b: &Self, c: &Self) {
        if rank_of_root(a.name@) == rank_of_root(b.name@) && rank_of_root(b.name@) == rank_of_root(
            c.name@,
        ) {
            order::lemma_text_le_transitive(a.name@, b.name@, c.name@);
        }
    }

    fn leq(&self, other: &Self) -> (r: bool) {
        let x = display_rank(&self.name);
        let y = display_rank(&other.name);
        x < y || (x == y && order::text_leq(&self.name, &other.name))
    }
}

/// The name a top-level directory is shown under.
pub open spec fn shown_name(name: Seq<char>) -> Seq<char> {
    if name == "Library"@ {
        "System Library"@
    } else if name == "System"@ {
        "System data"@
    } else if name == "private"@ {
        "System runtime"@
    } else if name == "MobileSoftwareUpdate"@ {
        "macOS installers"@
    } else if name == ".Spotlight-V100"@ {
        "Spotlight index"@
    } else if name == ".fseventsd"@ {
        "FSEvents log"@
    } else if name == ".DocumentRevisions-V100"@ {
        "Document versions"@
    } else if name == ".TemporaryItems"@ {
        "Temporary items"@
    } else {
        name
    }
}

/// The name a top-level directory is shown under. Anything unrecognised keeps
/// its own.
pub fn friendly_name(name: &str) -> (r: String)
    ensures
        r@ == shown_name(name@),
{
    if text::same(name, "Library") {
        "System Library".to_owned()
    } else if text::same(name, "System") {
        "System data".to_owned()
    } else if text::same(name, "private") {
        "System runtime".to_owned()
    } else if text::same(name, "MobileSoftwareUpdate") {
        "macOS installers".to_owned()
    } else if text::same(name, ".Spotlight-V100") {
        "Spotlight index".to_owned()
    } else if text::same(name, ".fseventsd") {
        "FSEvents log".to_owned()
    } else if text::same(name, ".DocumentRevisions-V100") {
        "Document versions".to_owned()
    } else if text::same(name, ".TemporaryItems") {
        "Temporary items".to_owned()
    } else {
        name.to_owned()
    }
}

/// The path a top-level directory is shown at.
pub open spec fn short_path(path: Seq<char>, short_is_same: bool) -> Seq<char> {
    match paths::name_of(path) {
        Some(name) => if short_is_same {
            paths::below("/"@, name)
        } else {
            path
        },
        None => path,
    }
}

/// The short form of a path where it is the same directory: it is what the user
/// types and what every other tool prints.
pub fn firmlinked(data_child: &str, short_is_same: bool) -> (r: String)
    ensures
        r@ == short_path(data_child@, short_is_same),
{
    match paths::file_name(data_child) {
        Some(name) => if short_is_same {
            paths::join("/", &name)
        } else {
            data_child.to_owned()
        },
        None => data_child.to_owned(),
    }
}

/// The rows that stand for the users' directories.
pub open spec fn user_rows(home: Option<Seq<char>>) -> Seq<(Seq<char>, Seq<char>)> {
    match home {
        Some(h) => seq![
            ("User Library"@, paths::below(h, "Library"@)),
            ("Home"@, h),
            ("Other users"@, "/Users"@),
        ],
        None => seq![("Other users"@, "/Users"@)],
    }
}

/// Home split from its library: they are the two biggest things on a workstation
/// and lumping them together hides which one is growing.
pub fn user_roots(home: &Option<String>) -> (r: Vec<Root>)
    ensures
        root_rows(r@) == user_rows(text::text_opt(*home)),
{
    let mut roots: Vec<Root> = Vec::new();
    if let Some(h) = home {
        roots.push(Root { name: "User Library".to_owned(), path: paths::join(h, "Library") });
        roots.push(Root { name: "Home".to_owned(), path: h.clone() });
    }
    roots.push(Root { name: "Other users".to_owned(), path: "/Users".to_owned() });
    assert(root_rows(roots@) =~= user_rows(text::text_opt(*home)));
    roots
}

/// The rows that a run of top-level directories comes to.
pub open spec fn volume_rows(
    children: Seq<VolumeEntry>,
    home: Option<Seq<char>>,
) -> Seq<(Seq<char>, Seq<char>)>
    decreases children.len(),
{
    if children.len() == 0 {
        Seq::empty()
    } else {
        let before = volume_rows(children.drop_last(), home);
        let c = children.last();
        match paths::name_of(c.path@) {
            None => before,
            Some(name) => if name == "Users"@ {
                before + user_rows(home)
            } else if name == "Volumes"@ {
                before
            } else {
                before.push((shown_name(name), short_path(c.path@, c.short_is_same)))
            },
        }
    }
}

/// The rows of the volume, in no order yet. Where the volume lists nothing, the
/// users' directories stand for it.
pub open spec fn discovered_rows(
    entries: Option<Seq<VolumeEntry>>,
    home: Option<Seq<char>>,
) -> Seq<(Seq<char>, Seq<char>)> {
    let found = match entries {
        Some(all) => volume_rows(order::sorted(all.filter(|e: VolumeEntry| e.is_dir)), home),
        None => Seq::empty(),
    };
    if found.len() == 0 {
        user_rows(home)
    } else {
        found
    }
}

/// The roots of the volume. Anything unrecognised keeps its directory name
/// rather than being left out, so a top level that gains a directory still gets
/// counted.
pub fn discover_roots(entries: Option<Vec<VolumeEntry>>, home: &Option<String>) -> (r: Vec<Root>)
    ensures
        root_rows(r@) == order::arranged(
            discovered_rows(
                match entries {
                    Some(v) => Some(v@),
                    None => None,
                },
                text::text_opt(*home),
            ),
            |a: (Seq<char>, Seq<char>), b: (Seq<char>, Seq<char>)| row_le(a, b),
        ),
{
    let ghost h = text::text_opt(*home);
    let mut roots: Vec<Root> = Vec::new();
    let ghost mut found: Seq<(Seq<char>, Seq<char>)> = Seq::empty();
    assert(root_rows(roots@) =~= found);
    match entries {
        Some(all) => {
            let ghost everything = all@;
            let ghost is_dir = |e: VolumeEntry| e.is_dir;
            let mut children: Vec<VolumeEntry> = Vec::new();
            proof {
                reveal(Seq::filter);
            }
            for e in it: all
                invariant
                    it.seq() == everything,
                    is_dir == (|e: VolumeEntry| e.is_dir),
                    children@ == everything.take(it.index() as int).filter(is_dir),
            {
                proof {
                    let n = it.index() as int;
                    assert(everything.take(n + 1) =~= everything.take(n).push(e));
                    everything.take(n).lemma_filter_push(e, is_dir);
                }
                if e.is_dir {
                    children.push(e);
                }
            }
            assert(everything.take(everything.len() as int) =~= everything);
            let ordered = order::sort(children);
            proof {
                found = volume_rows(ordered@, h);
            }
            for i in 0..ordered.len()
                invariant
                    h == text::text_opt(*home),
                    root_rows(roots@) == volume_rows(ordered@.take(i as int), h),
            {
                let ghost before = root_rows(roots@);
                assert(ordered@.take(i + 1).drop_last() =~= ordered@.take(i as int));
                let child = &ordered[i];
                if let Some(name) = paths::file_name(&child.path) {
                    if text::same(&name, "Users") {
                        let mut more = user_roots(home);
                        let ghost a = roots@;
                        let ghost b = more@;
                        roots.append(&mut more);
                        assert(root_rows(roots@) =~= root_rows(a) + root_rows(b));
                    } else if !text::same(&name, "Volumes") {
                        let root = Root {
                            name: friendly_name(&name),
                            path: firmlinked(&child.path, child.short_is_same),
                        };
                        let ghost a = roots@;
                        roots.push(root);
                        assert(root_rows(roots@) =~= before.push((root.name@, root.path@)));
                    }
                }
            }
            assert(ordered@.take(ordered@.len() as int) =~= ordered@);
        },
        None => {},
    }
    assert(found.len() == roots@.len());
    if roots.len() == 0 {
        roots = user_roots(home);
    }
    let ghost f = |r: Root| (r.name@, r.path@);
    let ghost le = |a: (Seq<char>, Seq<char>), b: (Seq<char>, Seq<char>)| row_le(a, b);
    let ghost raw = roots@;
    proof {
        order::lemma_arranged(raw, f, le);
        assert(raw.map_values(f) =~= root_rows(raw));
    }
    let r = order::sort(roots);
    assert(r@.map_values(f) =~= root_rows(r@));
    r
}

/// Some character is in upper case.
pub open spec fn has_upper(s: Seq<char>) -> bool {
    exists|i: int| 0 <= i < s.len() && text::is_upper(#[trigger] s[i])
}

/// The name under which a terminal program is listed in System Settings.
pub open spec fn listed_name(term_program: Option<Seq<char>>) -> Seq<char> {
    match term_program {
        None => "your terminal app"@,
        Some(t) => {
            let trimmed = text::trimmed(t);
            let name = match text::ahead_of(trimmed, ".app"@) {
                Some(n) => n,
                None => trimmed,
            };
            if trimmed.len() == 0 {
                "your terminal app"@
            } else if name == "Apple_Terminal"@ {
                "Terminal"@
            } else if name == "vscode"@ {
                "VS Code"@
            } else if name.len() == 0 || has_upper(name) {
                name
            } else {
                text::uppercase(name[0]) + name.skip(1)
            }
        },
    }
}

/// The application Full Disk Access has to be granted to, named the way its
/// entry in System Settings is.
pub fn app_name(term_program: &Option<String>) -> (r: String)
    ensures
        r@ == listed_name(text::text_opt(*term_program)),
{
    match term_program {
        None => "your terminal app".to_owned(),
        Some(t) => {
            let trimmed = text::trim(t);
            if trimmed.as_str().is_empty() {
                return "your terminal app".to_owned();
            }
            let name = match text::strip_suffix(&trimmed, ".app") {
                Some(n) => n,
                None => trimmed,
            };
            if text::same(&name, "Apple_Terminal") {
                return "Terminal".to_owned();
            }
            if text::same(&name, "vscode") {
                return "VS Code".to_owned();
            }
            capitalised(name)
        },
    }
}

/// A name as it is where it has a capital, else with its first character in
/// upper case.
fn capitalised(name: String) -> (r: String)
    ensures
        r@ == (if name@.len() == 0 || has_upper(name@) {
            name@
        } else {
            text::uppercase(name@[0]) + name@.skip(1)
        }),
{
    let v = text::chars_of(&name);
    for i in 0..v.len()
        invariant
            v@ == name@,
            forall|j: int| 0 <= j < i ==> !text::is_upper(#[trigger] name@[j]),
    {
        if text::is_uppercase(v[i]) {
            assert(text::is_upper(name@[i as int]));
            return name;
        }
    }
    if v.len() == 0 {
        return name;
    }
    let mut out = text::to_uppercase(v[0]);
    let rest = text::text_between(&v, 1, v.len());
    assert(rest@ =~= name@.skip(1));
    out.append(rest.as_str());
    out
}

/// An entry lies right below the data volume, by its own name.
pub open spec fn is_top_level(e: VolumeEntry) -> bool {
    match paths::name_of(e.path@) {
        Some(name) => {
            &&& !name.contains('/')
            &&& name.len() > 0
            &&& e.path@ == DATA_VOLUME@.push('/') + name
        },
        None => false,
    }
}

/// The path of a row.
pub open spec fn row_path() -> spec_fn((Seq<char>, Seq<char>)) -> Seq<char> {
    |r: (Seq<char>, Seq<char>)| r.1
}

/// The path of an entry.
pub open spec fn entry_path() -> spec_fn(VolumeEntry) -> Seq<char> {
    |e: VolumeEntry| e.path@
}

/// A home directory is none of the directories of the volume, nor is its library.
pub open spec fn is_own_home(children: Seq<VolumeEntry>, home: Option<Seq<char>>) -> bool {
    match home {
        Some(h) => {
            let library = paths::below(h, "Library"@);
            &&& h != "/Users"@
            &&& library != "/Users"@
            &&& forall|k: int|
                #![trigger children[k]]
                0 <= k < children.len() ==> {
                    let p = short_path(children[k].path@, children[k].short_is_same);
                    p != h && p != library
                }
        },
        None => true,
    }
}

/// Entries of different names are shown at different paths.
proof fn lemma_shown_apart(a: VolumeEntry, b: VolumeEntry)
    requires
        is_top_level(a),
        is_top_level(b),
        a.path@ != b.path@,
    ensures
        short_path(a.path@, a.short_is_same) != short_path(b.path@, b.short_is_same),
{
    let x = paths::name_of(a.path@)->0;
    let y = paths::name_of(b.path@)->0;
    let base = DATA_VOLUME@.push('/');
    reveal_strlit("/");
    reveal_strlit("/System/Volumes/Data");
    assert(x != y);
    assert(x[0] != '/') by {
        assert(x.contains(x[0]));
    }
    assert(y[0] != '/') by {
        assert(y.contains(y[0]));
    }
    let short_x = "/"@ + x;
    let short_y = "/"@ + y;
    assert(short_x.skip(1) =~= x && short_y.skip(1) =~= y);
    // A short path holds one slash, and a long one holds more.
    assert(base[7] == '/');
    if a.short_is_same && !b.short_is_same {
        if short_x == b.path@ {
            assert(short_x[7] == '/');
            assert(x[6] == '/');
            assert(x.contains(x[6]));
        }
    }
    if !a.short_is_same && b.short_is_same {
        if short_y == a.path@ {
            assert(short_y[7] == '/');
            assert(y[6] == '/');
            assert(y.contains(y[6]));
        }
    }
}

/// Where a row of the volume comes from: an entry that is shown by itself, or the users'
/// directories.
proof fn lemma_row_source(children: Seq<VolumeEntry>, home: Option<Seq<char>>, i: int) -> (k: int)
    requires
        0 <= i < volume_rows(children, home).len(),
    ensures
        0 <= k < children.len(),
        paths::name_of(children[k].path@) is Some,
        ({
            let name = paths::name_of(children[k].path@)->0;
            let row = volume_rows(children, home)[i];
            if name == "Users"@ {
                user_rows(home).contains(row)
            } else {
                name != "Volumes"@ && row.1 == short_path(
                    children[k].path@,
                    children[k].short_is_same,
                )
            }
        }),
    decreases children.len(),
{
    let last = children.len() - 1;
    let before = volume_rows(children.drop_last(), home);
    if i < before.len() {
        assert(volume_rows(children, home)[i] == before[i]);
        lemma_row_source(children.drop_last(), home, i)
    } else {
        let name = paths::name_of(children.last().path@)->0;
        if name == "Users"@ {
            let at = i - before.len();
            assert(volume_rows(children, home)[i] == user_rows(home)[at]);
        }
        last
    }
}

proof fn lemma_user_rows_apart(home: Option<Seq<char>>)
    requires
        home matches Some(h) ==> h != "/Users"@ && paths::below(h, "Library"@) != "/Users"@,
    ensures
        order::apart(user_rows(home), row_path()),
{
    reveal_strlit("Library");
    if let Some(h) = home {
        let library = paths::below(h, "Library"@);
        assert(library.len() > h.len());
    }
}

/// The path of an entry that is shown by itself is none of the users'.
proof fn lemma_shown_is_no_users(
    children: Seq<VolumeEntry>,
    home: Option<Seq<char>>,
    k: int,
    row: (Seq<char>, Seq<char>),
)
    requires
        0 <= k < children.len(),
        is_top_level(children[k]),
        paths::name_of(children[k].path@)->0 != "Users"@,
        is_own_home(children, home),
        user_rows(home).contains(row),
    ensures
        short_path(children[k].path@, children[k].short_is_same) != row.1,
{
    let e = children[k];
    let name = paths::name_of(e.path@)->0;
    reveal_strlit("/");
    reveal_strlit("/Users");
    reveal_strlit("Users");
    reveal_strlit("/System/Volumes/Data");
    assert(name[0] != '/') by {
        assert(name.contains(name[0]));
    }
    let p = short_path(e.path@, e.short_is_same);
    if p == "/Users"@ {
        if e.short_is_same {
            assert(p == "/"@ + name);
            assert(p.skip(1) =~= name);
            assert("/Users"@.skip(1) =~= "Users"@);
        } else {
            assert(p[1] == 'S');
        }
    }
}

proof fn lemma_volume_rows_apart(children: Seq<VolumeEntry>, home: Option<Seq<char>>)
    requires
        forall|k: int| 0 <= k < children.len() ==> is_top_level(#[trigger] children[k]),
        order::apart(children, entry_path()),
        is_own_home(children, home),
    ensures
        order::apart(volume_rows(children, home), row_path()),
    decreases children.len(),
{
    if children.len() > 0 {
        let t = children.drop_last();
        let c = children.last();
        let n = children.len() - 1;
        let before = volume_rows(t, home);
        let rows = volume_rows(children, home);
        assert forall|k: int| 0 <= k < t.len() implies is_top_level(#[trigger] t[k]) by {
            assert(is_top_level(children[k]));
        }
        assert forall|i: int, j: int| 0 <= i < j < t.len() implies entry_path()(#[trigger] t[i])
            != entry_path()(#[trigger] t[j]) by {
            assert(entry_path()(children[i]) != entry_path()(children[j]));
        }
        assert(is_own_home(t, home)) by {
            assert forall|k: int| #![trigger t[k]] 0 <= k < t.len() implies t[k] == children[k] by {}
        }
        lemma_volume_rows_apart(t, home);
        lemma_user_rows_apart(home);
        assert(is_top_level(children[n]));
        let name = paths::name_of(c.path@)->0;
        assert forall|i: int, j: int| 0 <= i < j < rows.len() implies row_path()(#[trigger] rows[i])
            != row_path()(#[trigger] rows[j]) by {
            if j < before.len() {
                assert(row_path()(before[i]) != row_path()(before[j]));
            } else if i >= before.len() {
                let u = user_rows(home);
                assert(name == "Users"@);
                assert(row_path()(u[i - before.len()]) != row_path()(u[j - before.len()]));
            } else {
                assert(rows[i] == before[i]);
                let k = lemma_row_source(t, home, i);
                assert(t[k] == children[k] && entry_path()(children[k]) != entry_path()(
                    children[n],
                ));
                let other = paths::name_of(children[k].path@)->0;
                assert(is_top_level(children[k]));
                assert(other != name) by {
                    if other == name {
                        assert(children[k].path@ == c.path@);
                    }
                }
                if name == "Users"@ {
                    let u = user_rows(home);
                    assert(rows[j] == u[j - before.len()]);
                    assert(u.contains(rows[j]));
                    lemma_shown_is_no_users(children, home, k, rows[j]);
                } else if other == "Users"@ {
                    lemma_shown_is_no_users(children, home, n, rows[i]);
                } else {
                    lemma_shown_apart(children[k], c);
                }
            }
        }
    }
}

/// No two roots are the same directory. It takes entries of the data volume that are
/// themselves distinct, and a home directory that is none of them.
pub proof fn law_no_two_roots_share_a_path(
    entries: Seq<VolumeEntry>,
    home: Option<Seq<char>>,
    le: spec_fn((Seq<char>, Seq<char>), (Seq<char>, Seq<char>)) -> bool,
)
    requires
        forall|k: int| 0 <= k < entries.len() ==> is_top_level(#[trigger] entries[k]),
        order::apart(entries, entry_path()),
        is_own_home(entries, home),
    ensures
        order::apart(order::arranged(discovered_rows(Some(entries), home), le), row_path()),
{
    let keep = |e: VolumeEntry| e.is_dir;
    let kept = entries.filter(keep);
    let children = order::sorted(kept);
    order::lemma_filtered_apart(entries, keep, entry_path());
    order::lemma_sorted_multiset(kept);
    order::lemma_shuffled_apart(kept, children, entry_path());
    assert forall|k: int| #![trigger children[k]] 0 <= k < children.len() implies entries.contains(
        children[k],
    ) by {
        broadcast use vstd::seq_lib::group_to_multiset_ensures;

        assert(children.to_multiset().count(children[k]) > 0);
        assert(kept.contains(children[k]));
        entries.lemma_filter_contains_rev(keep, children[k]);
    }
    assert forall|k: int| 0 <= k < children.len() implies is_top_level(#[trigger] children[k]) by {
        let p = choose|p: int| 0 <= p < entries.len() && entries[p] == children[k];
        assert(is_top_level(entries[p]));
    }
    assert(is_own_home(children, home)) by {
        if let Some(h) = home {
            let library = paths::below(h, "Library"@);
            assert forall|k: int| #![trigger children[k]] 0 <= k < children.len() implies {
                let p = short_path(children[k].path@, children[k].short_is_same);
                p != h && p != library
            } by {
                let p = choose|p: int| 0 <= p < entries.len() && entries[p] == children[k];
                assert(entries[p] == children[k]);
            }
        }
    }
    lemma_volume_rows_apart(children, home);
    lemma_user_rows_apart(home);
    let rows = discovered_rows(Some(entries), home);
    order::lemma_arranged_multiset(rows, le);
    order::lemma_shuffled_apart(rows, order::arranged(rows, le), row_path());
}

proof fn lemma_child_has_rows(children: Seq<VolumeEntry>, home: Option<Seq<char>>, k: int, row: (
    Seq<char>,
    Seq<char>,
))
    requires
        0 <= k < children.len(),
        paths::name_of(children[k].path@) is Some,
        ({
            let name = paths::name_of(children[k].path@)->0;
            if name == "Users"@ {
                user_rows(home).contains(row)
            } else {
                name != "Volumes"@ && row == (
                    shown_name(name),
                    short_path(children[k].path@, children[k].short_is_same),
                )
            }
        }),
    ensures
        volume_rows(children, home).contains(row),
    decreases children.len(),
{
    let before = volume_rows(children.drop_last(), home);
    let all = volume_rows(children, home);
    if k == children.len() - 1 {
        let name = paths::name_of(children[k].path@)->0;
        if name == "Users"@ {
            let users = user_rows(home);
            let i = choose|i: int| 0 <= i < users.len() && users[i] == row;
            assert(all[before.len() + i] == row);
        } else {
            assert(all[before.len() as int] == row);
        }
    } else {
        assert(children.drop_last()[k] == children[k]);
        lemma_child_has_rows(children.drop_last(), home, k, row);
        let i = choose|i: int| 0 <= i < before.len() && before[i] == row;
        assert(all[i] == row);
    }
}

/// No directory at the top of the volume is left out: each is a root, by the path it is typed
/// at where that is the same directory. The users' are home, its library, and the rest; only
/// where other volumes are mounted is passed over.
pub proof fn law_every_directory_of_the_volume_is_a_root(
    entries: Seq<VolumeEntry>,
    home: Option<Seq<char>>,
    k: int,
    le: spec_fn((Seq<char>, Seq<char>), (Seq<char>, Seq<char>)) -> bool,
)
    requires
        0 <= k < entries.len(),
        entries[k].is_dir,
        is_top_level(entries[k]),
    ensures
        ({
            let name = paths::name_of(entries[k].path@)->0;
            let roots = order::arranged(discovered_rows(Some(entries), home), le);
            &&& name == "Users"@ ==> roots.contains(("Other users"@, "/Users"@))
            &&& name == "Users"@ && home is Some ==> roots.contains(("Home"@, home->0))
                && roots.contains(("User Library"@, paths::below(home->0, "Library"@)))
            &&& name != "Users"@ && name != "Volumes"@ && entries[k].short_is_same ==> exists|i: int|
                0 <= i < roots.len() && (#[trigger] roots[i]).1 == seq!['/'] + name
            &&& name != "Users"@ && name != "Volumes"@ && !entries[k].short_is_same
                ==> exists|i: int|
                0 <= i < roots.len() && (#[trigger] roots[i]).1 == entries[k].path@
        }),
{
    broadcast use vstd::seq_lib::group_filter_ensures, vstd::seq_lib::group_to_multiset_ensures;

    let keep = |e: VolumeEntry| e.is_dir;
    let kept = entries.filter(keep);
    let children = order::sorted(kept);
    order::lemma_sorted_multiset(kept);
    assert(keep(entries[k]));
    assert(entries.contains(entries[k]));
    assert(kept.contains(entries[k]));
    assert(children.to_multiset().count(entries[k]) > 0);
    assert(children.contains(entries[k]));
    let c = choose|c: int| 0 <= c < children.len() && children[c] == entries[k];
    let name = paths::name_of(entries[k].path@)->0;
    let rows = discovered_rows(Some(entries), home);
    let roots = order::arranged(rows, le);
    reveal_strlit("/");
    if name == "Users"@ {
        let users = user_rows(home);
        let last = ("Other users"@, "/Users"@);
        assert(users[users.len() - 1] == last);
        lemma_child_has_rows(children, home, c, last);
        order::lemma_arranged_keeps(rows, le, last);
        if let Some(h) = home {
            let library = ("User Library"@, paths::below(h, "Library"@));
            let own = ("Home"@, h);
            assert(users[0] == library);
            assert(users[1] == own);
            lemma_child_has_rows(children, home, c, library);
            lemma_child_has_rows(children, home, c, own);
            order::lemma_arranged_keeps(rows, le, library);
            order::lemma_arranged_keeps(rows, le, own);
        }
    } else if name != "Volumes"@ {
        let row = (shown_name(name), short_path(entries[k].path@, entries[k].short_is_same));
        lemma_child_has_rows(children, home, c, row);
        order::lemma_arranged_keeps(rows, le, row);
        let i = choose|i: int| 0 <= i < roots.len() && roots[i] == row;
        assert(roots[i].1 == row.1);
        if entries[k].short_is_same {
            assert(name[0] != '/') by {
                assert(name.contains(name[0]));
            }
            assert("/"@ =~= seq!['/']);
            assert(row.1 =~= seq!['/'] + name);
        }
    }
}

/// The terminal goes by the name it is listed under, with or without the ending of an
/// application; one that is not told, or blank, by no name of its own.
pub proof fn law_the_terminal_goes_by_its_listed_name(t: Seq<char>, ended: Seq<char>)
    requires
        text::trimmed(t).len() > 0,
        !".app"@.is_suffix_of(text::trimmed(t)),
        text::trimmed(ended) == text::trimmed(t) + ".app"@,
    ensures
        listed_name(Some(ended)) == listed_name(Some(t)),
        text::trimmed(t) == "Apple_Terminal"@ ==> listed_name(Some(t)) == "Terminal"@,
        text::trimmed(t) == "vscode"@ ==> listed_name(Some(t)) == "VS Code"@,
        text::trimmed(t) != "Apple_Terminal"@ && text::trimmed(t) != "vscode"@ && has_upper(
            text::trimmed(t),
        ) ==> listed_name(Some(t)) == text::trimmed(t),
        listed_name(None) == "your terminal app"@,
{
    reveal_strlit(".app");
    reveal_strlit("Apple_Terminal");
    reveal_strlit("vscode");
    let bare = text::trimmed(t);
    let long = bare + ".app"@;
    assert(long.subrange(long.len() - 4, long.len() as int) =~= ".app"@);
    assert(".app"@.is_suffix_of(long));
    assert(long.take(long.len() - 4) =~= bare);
    assert("Apple_Terminal"@[0] != "vscode"@[0]);
}

/// The roots are listed with the ones worth looking at first: home, its library, applications,
/// the system's library, and so on; what has no place of its own comes last, by its name.
pub proof fn law_home_is_listed_first(a: Seq<char>, b: Seq<char>, p: Seq<char>, q: Seq<char>)
    requires
        a != b,
    ensures
        a == "Home"@ ==> row_le((a, p), (b, q)) && !row_le((b, q), (a, p)),
        a == "User Library"@ && b != "Home"@ ==> row_le((a, p), (b, q)) && !row_le((b, q), (a, p)),
        a == "Applications"@ && b != "Home"@ && b != "User Library"@ ==> row_le((a, p), (b, q))
            && !row_le((b, q), (a, p)),
        a == "System Library"@ && b != "Home"@ && b != "User Library"@ && b != "Applications"@
            ==> row_le((a, p), (b, q)) && !row_le((b, q), (a, p)),
        rank_of_root(a) == 9 && rank_of_root(b) == 9 ==> (row_le((a, p), (b, q))
            <==> order::text_le(a, b)),
        rank_of_root(a) < 9 && rank_of_root(b) == 9 ==> row_le((a, p), (b, q)) && !row_le(
            (b, q),
            (a, p),
        ),
        rank_of_root(a) < 9 ==> {
            ||| a == "Home"@
            ||| a == "User Library"@
            ||| a == "Applications"@
            ||| a == "System Library"@
            ||| a == "opt"@
            ||| a == "System data"@
            ||| a == "System runtime"@
            ||| a == "usr"@
            ||| a == "Other users"@
        },
{
    reveal_strlit("Home");
    reveal_strlit("User Library");
    reveal_strlit("Applications");
    reveal_strlit("System Library");
    assert("Home"@.len() == 4);
    assert("User Library"@.len() == 12 && "User Library"@[0] == 'U');
    assert("Applications"@.len() == 12 && "Applications"@[0] == 'A');
    assert("System Library"@.len() == 14);
}

} // verus!
