//! What a search for leftovers is bound to find, and why whatever it finds is listed.
use vstd::prelude::*;
use crate::apps::bundle::{extension_of, prefix_of, vendor_of, AppBundle};
use crate::apps::leftovers::{
    bare_stem, derives, entry_path, folder_at, gathered, library_subdirs,
    launchd_subdirs, links, named_for, order_of, over_entries, over_folder, over_subs, peeled, real_bins,
    real_libraries, receipts, runs_bundle, searched, searched_in, sighted, strong, sure,
    vendor_subdirs, weak, Confidence, Entry, Folder, KindRow,
    LeftoverRow, Measure, Pass,
};
use crate::order;
use crate::paths;
use crate::text;
use crate::text::text_opt;

verus! {

/// The row is at the path: a file there, or a launchd job whose property list is there.
pub open spec fn stands_at(row: LeftoverRow, path: Seq<char>) -> bool {
    match row.kind {
        KindRow::Path(p) => paths::components(p) == paths::components(path),
        KindRow::Job { plist, .. } => paths::components(plist) == paths::components(path),
        KindRow::Receipt(_) => false,
    }
}

/// A list goes on from another.
spec fn goes_on(a: Seq<LeftoverRow>, b: Seq<LeftoverRow>) -> bool {
    a.len() <= b.len() && forall|j: int| 0 <= j < a.len() ==> b[j] == #[trigger] a[j]
}

proof fn lemma_goes_on(a: Seq<LeftoverRow>, b: Seq<LeftoverRow>, row: LeftoverRow)
    requires
        goes_on(a, b),
        a.contains(row),
    ensures
        b.contains(row),
{
    let j = choose|j: int| 0 <= j < a.len() && a[j] == row;
    assert(b[j] == a[j]);
}

/// The directory is the first of the disk with a path.
pub open spec fn is_listing_of(disk: Seq<Folder>, d: int, dir: Seq<char>) -> bool {
    &&& 0 <= d < disk.len()
    &&& disk[d].path@ == dir
    &&& forall|j: int| 0 <= j < d ==> (#[trigger] disk[j]).path@ != dir
}

proof fn lemma_folder_at(disk: Seq<Folder>, d: int, dir: Seq<char>)
    requires
        is_listing_of(disk, d, dir),
    ensures
        folder_at(disk, dir) == Some(disk[d]),
    decreases disk.len(),
{
    let rest = disk.drop_last();
    if d < rest.len() {
        lemma_folder_at(rest, d, dir);
    } else {
        lemma_no_folder(rest, dir);
    }
}

proof fn lemma_no_folder(disk: Seq<Folder>, dir: Seq<char>)
    requires
        forall|j: int| 0 <= j < disk.len() ==> (#[trigger] disk[j]).path@ != dir,
    ensures
        folder_at(disk, dir) is None,
    decreases disk.len(),
{
    if disk.len() > 0 {
        lemma_no_folder(disk.drop_last(), dir);
        assert(disk[disk.len() - 1].path@ != dir);
    }
}

proof fn lemma_folder_listed(disk: Seq<Folder>, dir: Seq<char>)
    ensures
        folder_at(disk, dir) matches Some(f) ==> f.path@ == dir && exists|d: int|
            0 <= d < disk.len() && #[trigger] disk[d] == f,
    decreases disk.len(),
{
    if disk.len() > 0 {
        lemma_folder_listed(disk.drop_last(), dir);
        if let Some(f) = folder_at(disk, dir) {
            if folder_at(disk.drop_last(), dir) is Some {
                let d = choose|d: int|
                    0 <= d < disk.drop_last().len() && #[trigger] disk.drop_last()[d] == f;
                assert(disk[d] == f);
            } else {
                assert(disk[disk.len() - 1] == f);
            }
        }
    }
}

/// What there was when an entry was looked at is still there, and so is what that added.
proof fn lemma_entries_find(
    pass: Pass,
    app: AppBundle,
    uid: u32,
    sub: Seq<char>,
    f: Folder,
    entries: Seq<Entry>,
    out: Seq<LeftoverRow>,
    k: int,
) -> (mid: Seq<LeftoverRow>)
    requires
        0 <= k <= entries.len(),
    ensures
        goes_on(out, mid),
        goes_on(mid, over_entries(pass, app, uid, sub, f, entries, out)),
        k < entries.len() ==> (sighted(pass, app, uid, sub, f, entries[k], mid) matches Some(row)
            ==> over_entries(pass, app, uid, sub, f, entries, out).contains(row)),
    decreases entries.len(),
{
    let all = over_entries(pass, app, uid, sub, f, entries, out);
    if entries.len() == 0 {
        out
    } else {
        let rest = entries.drop_last();
        let n = entries.len() - 1;
        let before = over_entries(pass, app, uid, sub, f, rest, out);
        let at = if k <= n {
            k
        } else {
            n
        };
        let mid = lemma_entries_find(pass, app, uid, sub, f, rest, out, at);
        assert(goes_on(before, all));
        if k < n {
            if let Some(row) = sighted(pass, app, uid, sub, f, entries[k], mid) {
                assert(rest[k] == entries[k]);
                lemma_goes_on(before, all, row);
            }
            mid
        } else if k == n {
            if let Some(row) = sighted(pass, app, uid, sub, f, entries[n], before) {
                assert(all[before.len() as int] == row);
            }
            before
        } else {
            all
        }
    }
}

proof fn lemma_subs_find(
    pass: Pass,
    app: AppBundle,
    uid: u32,
    disk: Seq<Folder>,
    library: Seq<char>,
    subs: Seq<Seq<char>>,
    out: Seq<LeftoverRow>,
    s: int,
    d: int,
    k: int,
) -> (mid: Seq<LeftoverRow>)
    requires
        0 <= s <= subs.len(),
        s < subs.len() ==> is_listing_of(disk, d, paths::below(library, subs[s])) && 0 <= k
            < disk[d].entries@.len(),
    ensures
        goes_on(out, mid),
        goes_on(mid, over_subs(pass, app, uid, disk, library, subs, out)),
        s < subs.len() ==> (sighted(
            pass,
            app,
            uid,
            subs[s],
            disk[d],
            disk[d].entries@[k],
            mid,
        ) matches Some(row) ==> over_subs(pass, app, uid, disk, library, subs, out).contains(row)),
    decreases subs.len(),
{
    let all = over_subs(pass, app, uid, disk, library, subs, out);
    if subs.len() == 0 {
        out
    } else {
        let rest = subs.drop_last();
        let n = subs.len() - 1;
        let before = over_subs(pass, app, uid, disk, library, rest, out);
        let dir = paths::below(library, subs.last());
        let at = if s <= n {
            s
        } else {
            n
        };
        let mid = lemma_subs_find(pass, app, uid, disk, library, rest, out, at, d, k);
        if let Some(f) = folder_at(disk, dir) {
            let len = f.entries@.len() as int;
            let unused = lemma_entries_find(pass, app, uid, subs.last(), f, f.entries@, before, len);
        }
        assert(goes_on(before, all));
        if s < n {
            if let Some(row) = sighted(
                pass,
                app,
                uid,
                subs[s],
                disk[d],
                disk[d].entries@[k],
                mid,
            ) {
                assert(rest[s] == subs[s]);
                lemma_goes_on(before, all, row);
            }
            mid
        } else if s == n {
            lemma_folder_at(disk, d, dir);
            let f = disk[d];
            lemma_entries_find(pass, app, uid, subs.last(), f, f.entries@, before, k)
        } else {
            all
        }
    }
}

proof fn lemma_strong_find(
    pass: Pass,
    app: AppBundle,
    uid: u32,
    disk: Seq<Folder>,
    libraries: Seq<Seq<char>>,
    out: Seq<LeftoverRow>,
    l: int,
    s: int,
    d: int,
    k: int,
) -> (mid: Seq<LeftoverRow>)
    requires
        0 <= l <= libraries.len(),
        l < libraries.len() ==> {
            &&& pass is ById || pass is Jobs
            &&& 0 <= s < (if pass is ById {
                library_subdirs()
            } else {
                launchd_subdirs()
            }).len()
            &&& is_listing_of(
                disk,
                d,
                paths::below(
                    libraries[l],
                    (if pass is ById {
                        library_subdirs()
                    } else {
                        launchd_subdirs()
                    })[s],
                ),
            )
            &&& 0 <= k < disk[d].entries@.len()
        },
    ensures
        goes_on(out, mid),
        goes_on(mid, strong(app, uid, disk, libraries, out)),
        l < libraries.len() ==> (sighted(
            pass,
            app,
            uid,
            (if pass is ById {
                library_subdirs()
            } else {
                launchd_subdirs()
            })[s],
            disk[d],
            disk[d].entries@[k],
            mid,
        ) matches Some(row) ==> strong(app, uid, disk, libraries, out).contains(row)),
    decreases libraries.len(),
{
    let all = strong(app, uid, disk, libraries, out);
    if libraries.len() == 0 {
        out
    } else {
        let rest = libraries.drop_last();
        let n = libraries.len() - 1;
        let lib = libraries.last();
        let before = strong(app, uid, disk, rest, out);
        let data = over_subs(Pass::ById, app, uid, disk, lib, library_subdirs(), before);
        let at = if l <= n {
            l
        } else {
            n
        };
        let mid = lemma_strong_find(pass, app, uid, disk, rest, out, at, s, d, k);
        let a = library_subdirs().len() as int;
        let b = launchd_subdirs().len() as int;
        let unused = lemma_subs_find(
            Pass::ById,
            app,
            uid,
            disk,
            lib,
            library_subdirs(),
            before,
            a,
            d,
            k,
        );
        let unused2 = lemma_subs_find(
            Pass::Jobs,
            app,
            uid,
            disk,
            lib,
            launchd_subdirs(),
            data,
            b,
            d,
            k,
        );
        assert(goes_on(before, data) && goes_on(data, all));
        if l < n {
            if let Some(row) = sighted(
                pass,
                app,
                uid,
                (if pass is ById {
                    library_subdirs()
                } else {
                    launchd_subdirs()
                })[s],
                disk[d],
                disk[d].entries@[k],
                mid,
            ) {
                assert(rest[l] == libraries[l]);
                lemma_goes_on(before, all, row);
            }
            mid
        } else if l == n {
            if pass is ById {
                let m = lemma_subs_find(
                    Pass::ById,
                    app,
                    uid,
                    disk,
                    lib,
                    library_subdirs(),
                    before,
                    s,
                    d,
                    k,
                );
                if let Some(row) = sighted(
                    pass,
                    app,
                    uid,
                    library_subdirs()[s],
                    disk[d],
                    disk[d].entries@[k],
                    m,
                ) {
                    lemma_goes_on(data, all, row);
                }
                m
            } else {
                lemma_subs_find(
                    Pass::Jobs,
                    app,
                    uid,
                    disk,
                    lib,
                    launchd_subdirs(),
                    data,
                    s,
                    d,
                    k,
                )
            }
        } else {
            all
        }
    }
}

/// The directories that a weak pass searches.
spec fn weak_subs(pass: Pass) -> Seq<Seq<char>> {
    match pass {
        Pass::Vendor => vendor_subdirs(),
        Pass::Namespace => library_subdirs(),
        _ => launchd_subdirs(),
    }
}

proof fn lemma_weak_find(
    pass: Pass,
    app: AppBundle,
    uid: u32,
    disk: Seq<Folder>,
    libraries: Seq<Seq<char>>,
    out: Seq<LeftoverRow>,
    l: int,
    s: int,
    d: int,
    k: int,
) -> (mid: Seq<LeftoverRow>)
    requires
        0 <= l <= libraries.len(),
        l < libraries.len() ==> {
            &&& pass is Vendor || pass is Namespace || pass is NamespaceJobs
            &&& 0 <= s < weak_subs(pass).len()
            &&& is_listing_of(disk, d, paths::below(libraries[l], weak_subs(pass)[s]))
            &&& 0 <= k < disk[d].entries@.len()
        },
    ensures
        goes_on(out, mid),
        goes_on(mid, weak(app, uid, disk, libraries, out)),
        l < libraries.len() ==> (sighted(
            pass,
            app,
            uid,
            weak_subs(pass)[s],
            disk[d],
            disk[d].entries@[k],
            mid,
        ) matches Some(row) ==> weak(app, uid, disk, libraries, out).contains(row)),
    decreases libraries.len(),
{
    let all = weak(app, uid, disk, libraries, out);
    if libraries.len() == 0 {
        out
    } else {
        let rest = libraries.drop_last();
        let n = libraries.len() - 1;
        let lib = libraries.last();
        let before = weak(app, uid, disk, rest, out);
        let named = over_subs(Pass::Vendor, app, uid, disk, lib, vendor_subdirs(), before);
        let data = over_subs(Pass::Namespace, app, uid, disk, lib, library_subdirs(), named);
        let at = if l <= n {
            l
        } else {
            n
        };
        let mid = lemma_weak_find(pass, app, uid, disk, rest, out, at, s, d, k);
        let v = vendor_subdirs().len() as int;
        let a = library_subdirs().len() as int;
        let b = launchd_subdirs().len() as int;
        let u1 = lemma_subs_find(
            Pass::Vendor,
            app,
            uid,
            disk,
            lib,
            vendor_subdirs(),
            before,
            v,
            d,
            k,
        );
        let u2 = lemma_subs_find(
            Pass::Namespace,
            app,
            uid,
            disk,
            lib,
            library_subdirs(),
            named,
            a,
            d,
            k,
        );
        let u3 = lemma_subs_find(
            Pass::NamespaceJobs,
            app,
            uid,
            disk,
            lib,
            launchd_subdirs(),
            data,
            b,
            d,
            k,
        );
        assert(goes_on(before, named) && goes_on(named, data) && goes_on(data, all));
        if l < n {
            if let Some(row) = sighted(
                pass,
                app,
                uid,
                weak_subs(pass)[s],
                disk[d],
                disk[d].entries@[k],
                mid,
            ) {
                assert(rest[l] == libraries[l]);
                lemma_goes_on(before, all, row);
            }
            mid
        } else if l == n {
            let m = match pass {
                Pass::Vendor => lemma_subs_find(
                    pass,
                    app,
                    uid,
                    disk,
                    lib,
                    vendor_subdirs(),
                    before,
                    s,
                    d,
                    k,
                ),
                Pass::Namespace => lemma_subs_find(
                    pass,
                    app,
                    uid,
                    disk,
                    lib,
                    library_subdirs(),
                    named,
                    s,
                    d,
                    k,
                ),
                _ => lemma_subs_find(
                    pass,
                    app,
                    uid,
                    disk,
                    lib,
                    launchd_subdirs(),
                    data,
                    s,
                    d,
                    k,
                ),
            };
            if let Some(row) = sighted(
                pass,
                app,
                uid,
                weak_subs(pass)[s],
                disk[d],
                disk[d].entries@[k],
                m,
            ) {
                if pass is Vendor {
                    lemma_goes_on(named, all, row);
                } else if pass is Namespace {
                    lemma_goes_on(data, all, row);
                }
            }
            m
        } else {
            all
        }
    }
}

proof fn lemma_links_find(
    app: AppBundle,
    disk: Seq<Folder>,
    dirs: Seq<Seq<char>>,
    out: Seq<LeftoverRow>,
    b: int,
    d: int,
    k: int,
) -> (mid: Seq<LeftoverRow>)
    requires
        0 <= b <= dirs.len(),
        b < dirs.len() ==> is_listing_of(disk, d, dirs[b]) && 0 <= k < disk[d].entries@.len(),
    ensures
        goes_on(out, mid),
        goes_on(mid, links(app, disk, dirs, out)),
        b < dirs.len() ==> (sighted(
            Pass::Links,
            app,
            0,
            ""@,
            disk[d],
            disk[d].entries@[k],
            mid,
        ) matches Some(row) ==> links(app, disk, dirs, out).contains(row)),
    decreases dirs.len(),
{
    let all = links(app, disk, dirs, out);
    if dirs.len() == 0 {
        out
    } else {
        let rest = dirs.drop_last();
        let n = dirs.len() - 1;
        let before = links(app, disk, rest, out);
        let at = if b <= n {
            b
        } else {
            n
        };
        let mid = lemma_links_find(app, disk, rest, out, at, d, k);
        if let Some(f) = folder_at(disk, dirs.last()) {
            let len = f.entries@.len() as int;
            let unused = lemma_entries_find(
                Pass::Links,
                app,
                0,
                ""@,
                f,
                f.entries@,
                before,
                len,
            );
        }
        assert(goes_on(before, all));
        if b < n {
            if let Some(row) = sighted(
                Pass::Links,
                app,
                0,
                ""@,
                disk[d],
                disk[d].entries@[k],
                mid,
            ) {
                assert(rest[b] == dirs[b]);
                lemma_goes_on(before, all, row);
            }
            mid
        } else if b == n {
            lemma_folder_at(disk, d, dirs[b]);
            let f = disk[d];
            lemma_entries_find(Pass::Links, app, 0, ""@, f, f.entries@, before, k)
        } else {
            all
        }
    }
}

proof fn lemma_receipts_go_on(lines: Seq<Seq<char>>, id: Seq<char>, out: Seq<LeftoverRow>)
    ensures
        goes_on(out, receipts(lines, id, out)),
    decreases lines.len(),
{
    if lines.len() > 0 {
        lemma_receipts_go_on(lines.drop_last(), id, out);
    }
}

/// The first find: the bundle, where it is there.
spec fn bundle_alone(app: AppBundle, bundle: Option<Measure>) -> Seq<LeftoverRow> {
    match bundle {
        Some(m) => seq![crate::apps::leftovers::bundle_row(app.path@, m)],
        None => Seq::empty(),
    }
}

/// What the sure passes found stays found.
proof fn lemma_sure_goes_on(
    app: AppBundle,
    libraries: Seq<Seq<char>>,
    bins: Seq<Seq<char>>,
    uid: u32,
    disk: Seq<Folder>,
    bundle: Option<Measure>,
    pkgs: Option<Seq<char>>,
)
    ensures
        ({
            let first = bundle_alone(app, bundle);
            let found = strong(app, uid, disk, libraries, first);
            let linked = links(app, disk, bins, found);
            let certain = sure(app, libraries, bins, uid, disk, bundle, pkgs);
            &&& goes_on(first, found)
            &&& goes_on(found, linked)
            &&& goes_on(linked, certain)
            &&& goes_on(certain, gathered(app, libraries, bins, uid, disk, bundle, pkgs))
        }),
{
    let first = bundle_alone(app, bundle);
    let found = strong(app, uid, disk, libraries, first);
    let linked = links(app, disk, bins, found);
    let certain = sure(app, libraries, bins, uid, disk, bundle, pkgs);
    let l = libraries.len() as int;
    let b = bins.len() as int;
    let u1 = lemma_strong_find(Pass::ById, app, uid, disk, libraries, first, l, 0, 0, 0);
    let u2 = lemma_links_find(app, disk, bins, found, b, 0, 0);
    let u3 = lemma_weak_find(Pass::Vendor, app, uid, disk, libraries, certain, l, 0, 0, 0);
    if let (Some(id), Some(raw)) = (text_opt(app.bundle_id), pkgs) {
        lemma_receipts_go_on(text::lines(raw), id, linked);
    }
}

/// The bundle itself is always among what is found, and for sure.
pub proof fn law_the_bundle_is_found(
    app: AppBundle,
    libraries: Seq<Seq<char>>,
    bins: Seq<Seq<char>>,
    uid: u32,
    disk: Seq<Folder>,
    m: Measure,
    pkgs: Option<Seq<char>>,
)
    ensures
        ({
            let all = gathered(app, libraries, bins, uid, disk, Some(m), pkgs);
            exists|i: int|
                {
                    &&& 0 <= i < all.len()
                    &&& (#[trigger] all[i]).kind == KindRow::Path(app.path@)
                    &&& all[i].confidence is Exact
                    &&& all[i].size == m.size
                    &&& all[i].needs_root == m.needs_root
                }
        }),
{
    lemma_sure_goes_on(app, libraries, bins, uid, disk, Some(m), pkgs);
    let all = gathered(app, libraries, bins, uid, disk, Some(m), pkgs);
    let first = bundle_alone(app, Some(m));
    assert(all[0] == first[0]);
}

/// Everything named for the bundle id is found for sure, in each directory of each library
/// where apps keep things.
pub proof fn law_what_is_named_for_the_id_is_found(
    app: AppBundle,
    libraries: Seq<Seq<char>>,
    bins: Seq<Seq<char>>,
    uid: u32,
    disk: Seq<Folder>,
    bundle: Option<Measure>,
    pkgs: Option<Seq<char>>,
    l: int,
    sub: Seq<char>,
    d: int,
    k: int,
)
    requires
        0 <= l < libraries.len(),
        sub == "Application Support"@ || sub == "Application Scripts"@ || sub
            == "Autosave Information"@ || sub == "Caches"@ || sub == "Containers"@ || sub
            == "Cookies"@ || sub == "Group Containers"@ || sub == "HTTPStorages"@ || sub
            == "Internet Plug-Ins"@ || sub == "Logs"@ || sub == "Preferences"@ || sub
            == "Preferences/ByHost"@ || sub == "PrivilegedHelperTools"@ || sub
            == "Saved Application State"@ || sub == "WebKit"@,
        is_listing_of(disk, d, paths::below(libraries[l], sub)),
        0 <= k < disk[d].entries@.len(),
        app.bundle_id is Some,
        named_for(disk[d].entries@[k].name@, app.bundle_id->0@),
    ensures
        ({
            let all = gathered(app, libraries, bins, uid, disk, bundle, pkgs);
            exists|i: int|
                {
                    &&& 0 <= i < all.len()
                    &&& (#[trigger] all[i]).kind == KindRow::Path(
                        paths::below(disk[d].path@, disk[d].entries@[k].name@),
                    )
                    &&& all[i].confidence is Exact
                    &&& all[i].size == disk[d].entries@[k].size
                    &&& all[i].needs_root == !disk[d].writable
                }
        }),
{
    let subs = library_subdirs();
    let s = choose|s: int| 0 <= s < subs.len() && subs[s] == sub;
    assert(exists|s: int| 0 <= s < subs.len() && subs[s] == sub) by {
        assert(subs[0] == "Application Support"@ && subs[1] == "Application Scripts"@ && subs[2]
            == "Autosave Information"@ && subs[3] == "Caches"@ && subs[4] == "Containers"@
            && subs[5] == "Cookies"@ && subs[6] == "Group Containers"@ && subs[7]
            == "HTTPStorages"@ && subs[8] == "Internet Plug-Ins"@ && subs[9] == "Logs"@
            && subs[10] == "Preferences"@ && subs[11] == "Preferences/ByHost"@ && subs[12]
            == "PrivilegedHelperTools"@ && subs[13] == "Saved Application State"@ && subs[14]
            == "WebKit"@);
    }
    let first = bundle_alone(app, bundle);
    lemma_sure_goes_on(app, libraries, bins, uid, disk, bundle, pkgs);
    let mid = lemma_strong_find(Pass::ById, app, uid, disk, libraries, first, l, s, d, k);
    let row = sighted(Pass::ById, app, uid, subs[s], disk[d], disk[d].entries@[k], mid)->0;
    lemma_reaches_the_end(app, libraries, bins, uid, disk, bundle, pkgs, row);
    let all = gathered(app, libraries, bins, uid, disk, bundle, pkgs);
    let i = choose|i: int| 0 <= i < all.len() && all[i] == row;
    assert(all[i].kind == KindRow::Path(paths::below(disk[d].path@, disk[d].entries@[k].name@)));
}

proof fn lemma_reaches_the_end(
    app: AppBundle,
    libraries: Seq<Seq<char>>,
    bins: Seq<Seq<char>>,
    uid: u32,
    disk: Seq<Folder>,
    bundle: Option<Measure>,
    pkgs: Option<Seq<char>>,
    row: LeftoverRow,
)
    requires
        strong(app, uid, disk, libraries, bundle_alone(app, bundle)).contains(row) || links(
            app,
            disk,
            bins,
            strong(app, uid, disk, libraries, bundle_alone(app, bundle)),
        ).contains(row) || sure(app, libraries, bins, uid, disk, bundle, pkgs).contains(row),
    ensures
        gathered(app, libraries, bins, uid, disk, bundle, pkgs).contains(row),
{
    lemma_sure_goes_on(app, libraries, bins, uid, disk, bundle, pkgs);
    let found = strong(app, uid, disk, libraries, bundle_alone(app, bundle));
    let linked = links(app, disk, bins, found);
    let certain = sure(app, libraries, bins, uid, disk, bundle, pkgs);
    let all = gathered(app, libraries, bins, uid, disk, bundle, pkgs);
    if found.contains(row) {
        lemma_goes_on(found, linked, row);
    }
    if linked.contains(row) {
        lemma_goes_on(linked, certain, row);
    }
    lemma_goes_on(certain, all, row);
}

/// Every launchd job that is named for the bundle id, or that runs a program of the bundle, is
/// found for sure as a job, of the user's session or of the system as its directory says.
pub proof fn law_the_jobs_of_an_app_are_found(
    app: AppBundle,
    libraries: Seq<Seq<char>>,
    bins: Seq<Seq<char>>,
    uid: u32,
    disk: Seq<Folder>,
    bundle: Option<Measure>,
    pkgs: Option<Seq<char>>,
    l: int,
    sub: Seq<char>,
    d: int,
    k: int,
)
    requires
        0 <= l < libraries.len(),
        sub == "LaunchAgents"@ || sub == "LaunchDaemons"@,
        is_listing_of(disk, d, paths::below(libraries[l], sub)),
        0 <= k < disk[d].entries@.len(),
        extension_of(paths::below(disk[d].path@, disk[d].entries@[k].name@)) == Some("plist"@),
        (app.bundle_id is Some && named_for(disk[d].entries@[k].name@, app.bundle_id->0@))
            || runs_bundle(disk[d].entries@[k], app.path@),
    ensures
        ({
            let all = gathered(app, libraries, bins, uid, disk, bundle, pkgs);
            exists|i: int|
                {
                    &&& 0 <= i < all.len()
                    &&& (#[trigger] all[i]).kind matches KindRow::Job { plist, domain, .. }
                    &&& plist == paths::below(disk[d].path@, disk[d].entries@[k].name@)
                    &&& domain == (if sub == "LaunchDaemons"@ {
                        "system"@
                    } else {
                        "gui/"@ + text::decimal(uid as nat)
                    })
                    &&& all[i].confidence is Exact
                    &&& all[i].needs_root == !disk[d].writable
                }
        }),
{
    let subs = launchd_subdirs();
    assert(subs[0] == "LaunchAgents"@ && subs[1] == "LaunchDaemons"@);
    let s = if sub == "LaunchAgents"@ {
        0int
    } else {
        1int
    };
    let first = bundle_alone(app, bundle);
    lemma_sure_goes_on(app, libraries, bins, uid, disk, bundle, pkgs);
    let mid = lemma_strong_find(Pass::Jobs, app, uid, disk, libraries, first, l, s, d, k);
    let row = sighted(Pass::Jobs, app, uid, subs[s], disk[d], disk[d].entries@[k], mid)->0;
    lemma_reaches_the_end(app, libraries, bins, uid, disk, bundle, pkgs, row);
    let all = gathered(app, libraries, bins, uid, disk, bundle, pkgs);
    let i = choose|i: int| 0 <= i < all.len() && all[i] == row;
    assert(all[i].kind is Job);
}

/// Every command that is a link into the bundle is found for sure.
pub proof fn law_links_into_the_bundle_are_found(
    app: AppBundle,
    libraries: Seq<Seq<char>>,
    bins: Seq<Seq<char>>,
    uid: u32,
    disk: Seq<Folder>,
    bundle: Option<Measure>,
    pkgs: Option<Seq<char>>,
    b: int,
    d: int,
    k: int,
)
    requires
        0 <= b < bins.len(),
        is_listing_of(disk, d, bins[b]),
        0 <= k < disk[d].entries@.len(),
        disk[d].entries@[k].link matches Some(t) && paths::components(
            app.path@,
        ).is_prefix_of(paths::components(t@)),
    ensures
        ({
            let all = gathered(app, libraries, bins, uid, disk, bundle, pkgs);
            exists|i: int|
                {
                    &&& 0 <= i < all.len()
                    &&& (#[trigger] all[i]).kind == KindRow::Path(
                        paths::below(disk[d].path@, disk[d].entries@[k].name@),
                    )
                    &&& all[i].confidence is Exact
                }
        }),
{
    let first = bundle_alone(app, bundle);
    let found = strong(app, uid, disk, libraries, first);
    lemma_sure_goes_on(app, libraries, bins, uid, disk, bundle, pkgs);
    let mid = lemma_links_find(app, disk, bins, found, b, d, k);
    let row = sighted(Pass::Links, app, 0, ""@, disk[d], disk[d].entries@[k], mid)->0;
    lemma_reaches_the_end(app, libraries, bins, uid, disk, bundle, pkgs, row);
    let all = gathered(app, libraries, bins, uid, disk, bundle, pkgs);
    let i = choose|i: int| 0 <= i < all.len() && all[i] == row;
    assert(all[i].kind == KindRow::Path(paths::below(disk[d].path@, disk[d].entries@[k].name@)));
}

proof fn lemma_receipt_found(lines: Seq<Seq<char>>, id: Seq<char>, out: Seq<LeftoverRow>, k: int)
    requires
        0 <= k < lines.len(),
        text::trimmed(lines[k]).len() > 0,
        named_for(text::trimmed(lines[k]), id) || named_for(id, text::trimmed(lines[k])),
    ensures
        ({
            let all = receipts(lines, id, out);
            exists|i: int|
                {
                    &&& 0 <= i < all.len()
                    &&& (#[trigger] all[i]).kind == KindRow::Receipt(text::trimmed(lines[k]))
                    &&& all[i].confidence is Exact
                    &&& all[i].needs_root
                }
        }),
    decreases lines.len(),
{
    let rest = lines.drop_last();
    let all = receipts(lines, id, out);
    let before = receipts(rest, id, out);
    if k < rest.len() {
        lemma_receipt_found(rest, id, out, k);
        let i = choose|i: int|
            {
                &&& 0 <= i < before.len()
                &&& (#[trigger] before[i]).kind == KindRow::Receipt(text::trimmed(rest[k]))
                &&& before[i].confidence is Exact
                &&& before[i].needs_root
            };
        assert(all[i] == before[i]);
    } else {
        assert(all[before.len() as int].kind == KindRow::Receipt(text::trimmed(lines[k])));
    }
}

/// Every installer receipt that is named for the bundle id, or that the bundle id is named for,
/// is found for sure.
pub proof fn law_the_receipts_of_an_app_are_found(
    app: AppBundle,
    libraries: Seq<Seq<char>>,
    bins: Seq<Seq<char>>,
    uid: u32,
    disk: Seq<Folder>,
    bundle: Option<Measure>,
    pkgs: Seq<char>,
    k: int,
)
    requires
        app.bundle_id is Some,
        0 <= k < text::lines(pkgs).len(),
        text::trimmed(text::lines(pkgs)[k]).len() > 0,
        named_for(text::trimmed(text::lines(pkgs)[k]), app.bundle_id->0@) || named_for(
            app.bundle_id->0@,
            text::trimmed(text::lines(pkgs)[k]),
        ),
    ensures
        ({
            let all = gathered(app, libraries, bins, uid, disk, bundle, Some(pkgs));
            exists|i: int|
                {
                    &&& 0 <= i < all.len()
                    &&& (#[trigger] all[i]).kind == KindRow::Receipt(
                        text::trimmed(text::lines(pkgs)[k]),
                    )
                    &&& all[i].confidence is Exact
                    &&& all[i].needs_root
                }
        }),
{
    lemma_sure_goes_on(app, libraries, bins, uid, disk, bundle, Some(pkgs));
    let id = app.bundle_id->0@;
    let lines = text::lines(pkgs);
    let linked = links(
        app,
        disk,
        bins,
        strong(app, uid, disk, libraries, bundle_alone(app, bundle)),
    );
    lemma_receipt_found(lines, id, linked, k);
    let certain = sure(app, libraries, bins, uid, disk, bundle, Some(pkgs));
    assert(certain == receipts(lines, id, linked));
    let all = gathered(app, libraries, bins, uid, disk, bundle, Some(pkgs));
    let i = choose|i: int|
        {
            &&& 0 <= i < certain.len()
            &&& (#[trigger] certain[i]).kind == KindRow::Receipt(text::trimmed(lines[k]))
            &&& certain[i].confidence is Exact
            &&& certain[i].needs_root
        };
    assert(all[i] == certain[i]);
}

/// Where a weak pass sights an entry or passes it over as found already, it is found.
proof fn lemma_weak_sighting(
    pass: Pass,
    app: AppBundle,
    libraries: Seq<Seq<char>>,
    bins: Seq<Seq<char>>,
    uid: u32,
    disk: Seq<Folder>,
    bundle: Option<Measure>,
    pkgs: Option<Seq<char>>,
    l: int,
    s: int,
    d: int,
    k: int,
)
    requires
        pass is Vendor || pass is Namespace || pass is NamespaceJobs,
        0 <= l < libraries.len(),
        0 <= s < weak_subs(pass).len(),
        is_listing_of(disk, d, paths::below(libraries[l], weak_subs(pass)[s])),
        0 <= k < disk[d].entries@.len(),
        forall|mid: Seq<LeftoverRow>|
            !crate::apps::leftovers::already(mid, entry_path(disk[d], disk[d].entries@[k])) ==> (
            #[trigger] sighted(
                pass,
                app,
                uid,
                weak_subs(pass)[s],
                disk[d],
                disk[d].entries@[k],
                mid,
            )) is Some,
    ensures
        ({
            let all = gathered(app, libraries, bins, uid, disk, bundle, pkgs);
            exists|i: int|
                {
                    &&& 0 <= i < all.len()
                    &&& stands_at(
                        #[trigger] all[i],
                        paths::below(disk[d].path@, disk[d].entries@[k].name@),
                    )
                }
        }),
{
    let certain = sure(app, libraries, bins, uid, disk, bundle, pkgs);
    let all = gathered(app, libraries, bins, uid, disk, bundle, pkgs);
    let e = disk[d].entries@[k];
    let path = paths::below(disk[d].path@, e.name@);
    let mid = lemma_weak_find(pass, app, uid, disk, libraries, certain, l, s, d, k);
    let looked = sighted(pass, app, uid, weak_subs(pass)[s], disk[d], e, mid);
    if crate::apps::leftovers::already(mid, path) {
        let j = choose|j: int|
            0 <= j < mid.len() && crate::apps::leftovers::is_at(#[trigger] mid[j], path);
        assert(all[j] == mid[j]);
        assert(stands_at(all[j], path));
    } else {
        let row = looked->0;
        let i = choose|i: int| 0 <= i < all.len() && all[i] == row;
        assert(stands_at(all[i], path));
    }
}

/// Everything called what the app is called, in whatever case and with or without `.plist`, is
/// found in the directories of each library where vendors keep things under a plain name.
pub proof fn law_what_is_called_like_the_app_is_found(
    app: AppBundle,
    libraries: Seq<Seq<char>>,
    bins: Seq<Seq<char>>,
    uid: u32,
    disk: Seq<Folder>,
    bundle: Option<Measure>,
    pkgs: Option<Seq<char>>,
    l: int,
    sub: Seq<char>,
    d: int,
    k: int,
    called: Seq<char>,
)
    requires
        0 <= l < libraries.len(),
        sub == "Application Support"@ || sub == "Caches"@ || sub == "Logs"@ || sub
            == "Preferences"@,
        is_listing_of(disk, d, paths::below(libraries[l], sub)),
        0 <= k < disk[d].entries@.len(),
        disk[d].entries@[k].name@ == called + ".plist"@ || (disk[d].entries@[k].name@ == called
            && !".plist"@.is_suffix_of(called)),
        text::lowercase(called) == text::lowercase(app.name@) || vendor_of(
            text_opt(app.bundle_id),
        ) == Some(text::lowercase(called)),
    ensures
        ({
            let all = gathered(app, libraries, bins, uid, disk, bundle, pkgs);
            exists|i: int|
                {
                    &&& 0 <= i < all.len()
                    &&& stands_at(
                        #[trigger] all[i],
                        paths::below(disk[d].path@, disk[d].entries@[k].name@),
                    )
                }
        }),
{
    let subs = vendor_subdirs();
    assert(subs[0] == "Application Support"@ && subs[1] == "Caches"@ && subs[2] == "Logs"@
        && subs[3] == "Preferences"@);
    let s = if sub == "Application Support"@ {
        0int
    } else if sub == "Caches"@ {
        1int
    } else if sub == "Logs"@ {
        2int
    } else {
        3int
    };
    let e = disk[d].entries@[k];
    if e.name@ == called + ".plist"@ {
        assert(".plist"@.is_suffix_of(e.name@));
        assert(e.name@.take(e.name@.len() - ".plist"@.len()) =~= called);
    }
    lemma_weak_sighting(
        Pass::Vendor,
        app,
        libraries,
        bins,
        uid,
        disk,
        bundle,
        pkgs,
        l,
        s,
        d,
        k,
    );
}

/// Everything in the vendor's namespace is found as well, as data and as launchd jobs.
pub proof fn law_what_is_in_the_vendors_namespace_is_found(
    app: AppBundle,
    libraries: Seq<Seq<char>>,
    bins: Seq<Seq<char>>,
    uid: u32,
    disk: Seq<Folder>,
    bundle: Option<Measure>,
    pkgs: Option<Seq<char>>,
    l: int,
    sub: Seq<char>,
    d: int,
    k: int,
)
    requires
        0 <= l < libraries.len(),
        library_subdirs().contains(sub) || ((sub == "LaunchAgents"@ || sub == "LaunchDaemons"@)
            && extension_of(paths::below(disk[d].path@, disk[d].entries@[k].name@)) == Some(
            "plist"@,
        )),
        is_listing_of(disk, d, paths::below(libraries[l], sub)),
        0 <= k < disk[d].entries@.len(),
        prefix_of(text_opt(app.bundle_id)) matches Some(p) && named_for(
            disk[d].entries@[k].name@,
            p,
        ),
    ensures
        ({
            let all = gathered(app, libraries, bins, uid, disk, bundle, pkgs);
            exists|i: int|
                {
                    &&& 0 <= i < all.len()
                    &&& stands_at(
                        #[trigger] all[i],
                        paths::below(disk[d].path@, disk[d].entries@[k].name@),
                    )
                }
        }),
{
    if library_subdirs().contains(sub) {
        let s = choose|s: int| 0 <= s < library_subdirs().len() && library_subdirs()[s] == sub;
        lemma_weak_sighting(
            Pass::Namespace,
            app,
            libraries,
            bins,
            uid,
            disk,
            bundle,
            pkgs,
            l,
            s,
            d,
            k,
        );
    } else {
        let subs = launchd_subdirs();
        assert(subs[0] == "LaunchAgents"@ && subs[1] == "LaunchDaemons"@);
        let s = if sub == "LaunchAgents"@ {
            0int
        } else {
            1int
        };
        lemma_weak_sighting(
            Pass::NamespaceJobs,
            app,
            libraries,
            bins,
            uid,
            disk,
            bundle,
            pkgs,
            l,
            s,
            d,
            k,
        );
    }
}

/// The entry is called what the app or its vendor is called.
pub open spec fn is_called_like(app: AppBundle, name: Seq<char>) -> bool {
    exists|called: Seq<char>|
        {
            &&& name == called || name == called + ".plist"@
            &&& text::lowercase(called) == text::lowercase(app.name@) || vendor_of(
                text_opt(app.bundle_id),
            ) == Some(#[trigger] text::lowercase(called))
        }
}

/// An entry of the disk at that path gives a reason to be that sure.
pub open spec fn gives_reason(
    app: AppBundle,
    f: Folder,
    e: Entry,
    row: LeftoverRow,
) -> bool {
    let by_id = app.bundle_id is Some && named_for(e.name@, app.bundle_id->0@);
    let by_prefix = prefix_of(text_opt(app.bundle_id)) matches Some(p) && named_for(e.name@, p);
    let by_link = e.link matches Some(t) && paths::components(app.path@).is_prefix_of(
        paths::components(t@),
    );
    &&& row.size == e.size
    &&& row.needs_root == !f.writable
    &&& match row.kind {
        KindRow::Path(p) => p == paths::below(f.path@, e.name@) && match row.confidence {
            Confidence::Exact => by_id || by_link,
            Confidence::Likely => by_prefix || is_called_like(app, e.name@),
        },
        KindRow::Job { plist, .. } => plist == paths::below(f.path@, e.name@)
            && match row.confidence {
            Confidence::Exact => by_id || runs_bundle(e, app.path@),
            Confidence::Likely => by_prefix,
        },
        KindRow::Receipt(_) => false,
    }
}

/// The row is the bundle, a receipt that goes by the bundle id, or an entry of the disk that
/// gives a reason.
pub open spec fn is_justified(app: AppBundle, disk: Seq<Folder>, row: LeftoverRow) -> bool {
    ||| row.kind == KindRow::Path(app.path@) && row.confidence is Exact
    ||| row.kind matches KindRow::Receipt(pkg) && row.confidence is Exact && app.bundle_id is Some
        && (named_for(pkg, app.bundle_id->0@) || named_for(app.bundle_id->0@, pkg))
    ||| exists|d: int, k: int|
        0 <= d < disk.len() && 0 <= k < disk[d].entries@.len() && #[trigger] gives_reason(
            app,
            disk[d],
            disk[d].entries@[k],
            row,
        )
}

/// Every row of a list is there for a reason.
pub open spec fn all_justified(app: AppBundle, disk: Seq<Folder>, v: Seq<LeftoverRow>) -> bool {
    forall|i: int| 0 <= i < v.len() ==> is_justified(app, disk, #[trigger] v[i])
}

proof fn lemma_entries_justified(
    pass: Pass,
    app: AppBundle,
    uid: u32,
    sub: Seq<char>,
    disk: Seq<Folder>,
    d: int,
    n: nat,
    out: Seq<LeftoverRow>,
)
    requires
        0 <= d < disk.len(),
        n <= disk[d].entries@.len(),
        all_justified(app, disk, out),
    ensures
        all_justified(
            app,
            disk,
            over_entries(pass, app, uid, sub, disk[d], disk[d].entries@.take(n as int), out),
        ),
    decreases n,
{
    if n > 0 {
        let k = n - 1;
        let f = disk[d];
        let some = f.entries@.take(n as int);
        assert(some.drop_last() =~= f.entries@.take(k));
        lemma_entries_justified(pass, app, uid, sub, disk, d, k as nat, out);
        let before = over_entries(pass, app, uid, sub, f, some.drop_last(), out);
        let e = f.entries@[k];
        assert(some.last() == e);
        if let Some(row) = sighted(pass, app, uid, sub, f, e, before) {
            if pass is Vendor {
                let called = match text::ahead_of(e.name@, ".plist"@) {
                    Some(s) => s,
                    None => e.name@,
                };
                if ".plist"@.is_suffix_of(e.name@) {
                    assert(e.name@ =~= called + ".plist"@);
                }
                assert(text::lowercase(called) == text::lowercase(app.name@) || vendor_of(
                    text_opt(app.bundle_id),
                ) == Some(text::lowercase(called)));
                assert(is_called_like(app, e.name@));
            }
            assert(gives_reason(app, disk[d], disk[d].entries@[k], row));
            assert(is_justified(app, disk, row));
        }
    }
}

proof fn lemma_folder_justified(
    pass: Pass,
    app: AppBundle,
    uid: u32,
    sub: Seq<char>,
    disk: Seq<Folder>,
    dir: Seq<char>,
    out: Seq<LeftoverRow>,
)
    requires
        all_justified(app, disk, out),
    ensures
        all_justified(app, disk, over_folder(pass, app, uid, sub, disk, dir, out)),
{
    lemma_folder_listed(disk, dir);
    if let Some(f) = folder_at(disk, dir) {
        let d = choose|d: int| 0 <= d < disk.len() && #[trigger] disk[d] == f;
        lemma_entries_justified(pass, app, uid, sub, disk, d, f.entries@.len(), out);
        assert(f.entries@.take(f.entries@.len() as int) =~= f.entries@);
    }
}

proof fn lemma_subs_justified(
    pass: Pass,
    app: AppBundle,
    uid: u32,
    disk: Seq<Folder>,
    library: Seq<char>,
    subs: Seq<Seq<char>>,
    out: Seq<LeftoverRow>,
)
    requires
        all_justified(app, disk, out),
    ensures
        all_justified(app, disk, over_subs(pass, app, uid, disk, library, subs, out)),
    decreases subs.len(),
{
    if subs.len() > 0 {
        lemma_subs_justified(pass, app, uid, disk, library, subs.drop_last(), out);
        let before = over_subs(pass, app, uid, disk, library, subs.drop_last(), out);
        let dir = paths::below(library, subs.last());
        lemma_folder_justified(pass, app, uid, subs.last(), disk, dir, before);
    }
}

proof fn lemma_strong_justified(
    app: AppBundle,
    uid: u32,
    disk: Seq<Folder>,
    libraries: Seq<Seq<char>>,
    out: Seq<LeftoverRow>,
)
    requires
        all_justified(app, disk, out),
    ensures
        all_justified(app, disk, strong(app, uid, disk, libraries, out)),
    decreases libraries.len(),
{
    if libraries.len() > 0 {
        let lib = libraries.last();
        lemma_strong_justified(app, uid, disk, libraries.drop_last(), out);
        let before = strong(app, uid, disk, libraries.drop_last(), out);
        lemma_subs_justified(Pass::ById, app, uid, disk, lib, library_subdirs(), before);
        let data = over_subs(Pass::ById, app, uid, disk, lib, library_subdirs(), before);
        lemma_subs_justified(Pass::Jobs, app, uid, disk, lib, launchd_subdirs(), data);
    }
}

proof fn lemma_weak_justified(
    app: AppBundle,
    uid: u32,
    disk: Seq<Folder>,
    libraries: Seq<Seq<char>>,
    out: Seq<LeftoverRow>,
)
    requires
        all_justified(app, disk, out),
    ensures
        all_justified(app, disk, weak(app, uid, disk, libraries, out)),
    decreases libraries.len(),
{
    if libraries.len() > 0 {
        let lib = libraries.last();
        lemma_weak_justified(app, uid, disk, libraries.drop_last(), out);
        let before = weak(app, uid, disk, libraries.drop_last(), out);
        lemma_subs_justified(Pass::Vendor, app, uid, disk, lib, vendor_subdirs(), before);
        let named = over_subs(Pass::Vendor, app, uid, disk, lib, vendor_subdirs(), before);
        lemma_subs_justified(Pass::Namespace, app, uid, disk, lib, library_subdirs(), named);
        let data = over_subs(Pass::Namespace, app, uid, disk, lib, library_subdirs(), named);
        lemma_subs_justified(Pass::NamespaceJobs, app, uid, disk, lib, launchd_subdirs(), data);
    }
}

proof fn lemma_links_justified(
    app: AppBundle,
    disk: Seq<Folder>,
    dirs: Seq<Seq<char>>,
    out: Seq<LeftoverRow>,
)
    requires
        all_justified(app, disk, out),
    ensures
        all_justified(app, disk, links(app, disk, dirs, out)),
    decreases dirs.len(),
{
    if dirs.len() > 0 {
        lemma_links_justified(app, disk, dirs.drop_last(), out);
        let before = links(app, disk, dirs.drop_last(), out);
        lemma_folder_justified(Pass::Links, app, 0, ""@, disk, dirs.last(), before);
    }
}

proof fn lemma_receipts_justified(
    app: AppBundle,
    disk: Seq<Folder>,
    lines: Seq<Seq<char>>,
    out: Seq<LeftoverRow>,
)
    requires
        app.bundle_id is Some,
        all_justified(app, disk, out),
    ensures
        all_justified(app, disk, receipts(lines, app.bundle_id->0@, out)),
    decreases lines.len(),
{
    if lines.len() > 0 {
        lemma_receipts_justified(app, disk, lines.drop_last(), out);
    }
}

/// Nothing is listed without a reason: every find is the bundle, a receipt that goes by the
/// bundle id, or an entry of a directory that was listed, with its own size, that is named for
/// the app, runs it, points into it, or shares its name, its vendor's, or their namespace. Only
/// the last three are guesses, and they are said to be.
pub proof fn law_nothing_is_found_without_a_reason(
    app: AppBundle,
    libraries: Seq<Seq<char>>,
    bins: Seq<Seq<char>>,
    uid: u32,
    disk: Seq<Folder>,
    bundle: Option<Measure>,
    pkgs: Option<Seq<char>>,
)
    ensures
        all_justified(app, disk, gathered(app, libraries, bins, uid, disk, bundle, pkgs)),
{
    let first = bundle_alone(app, bundle);
    assert(all_justified(app, disk, first));
    lemma_strong_justified(app, uid, disk, libraries, first);
    let found = strong(app, uid, disk, libraries, first);
    lemma_links_justified(app, disk, bins, found);
    let linked = links(app, disk, bins, found);
    if let (Some(id), Some(raw)) = (text_opt(app.bundle_id), pkgs) {
        lemma_receipts_justified(app, disk, text::lines(raw), linked);
    }
    let certain = sure(app, libraries, bins, uid, disk, bundle, pkgs);
    lemma_weak_justified(app, uid, disk, libraries, certain);
}

/// Whatever is named for an id holds it as whole dotted words: a dot or nothing stands before
/// it, and a dot or nothing behind it.
pub proof fn law_what_is_named_for_an_id_holds_it_whole(entry: Seq<char>, id: Seq<char>)
    requires
        named_for(entry, id),
    ensures
        exists|pre: Seq<char>, rest: Seq<char>|
            {
                &&& entry == #[trigger] (pre + id + rest)
                &&& pre.len() == 0 || pre.last() == '.'
                &&& rest.len() == 0 || rest[0] == '.'
            },
{
    let stem = bare_stem(entry);
    lemma_bare_stem(entry);
    let ext = entry.skip(stem.len() as int);
    assert(entry =~= stem + ext);
    let (pre, name) = lemma_derived_part(stem, id);
    let rest = lemma_derived_rest(name, id);
    let tail = rest + ext;
    lemma_regrouped(pre, id, rest, ext);
    assert(entry == pre + id + tail);
    assert(tail.len() == 0 || tail[0] == '.');
}

proof fn lemma_regrouped(a: Seq<char>, b: Seq<char>, c: Seq<char>, d: Seq<char>)
    ensures
        (a + (b + c)) + d == a + b + (c + d),
{
    assert((a + (b + c)) + d =~= a + b + (c + d));
}

/// What of a stem derives from an id, behind the prefixes that containers carry.
proof fn lemma_derived_part(stem: Seq<char>, id: Seq<char>) -> (r: (Seq<char>, Seq<char>))
    requires
        derives(stem, id) || (peeled(stem) matches Some(once) && (derives(once, id) || (peeled(
            once,
        ) matches Some(twice) && derives(twice, id)))),
    ensures
        stem == r.0 + r.1,
        derives(r.1, id),
        r.0.len() == 0 || r.0.last() == '.',
{
    if derives(stem, id) {
        assert(stem =~= Seq::<char>::empty() + stem);
        (Seq::empty(), stem)
    } else {
        lemma_peeled(stem);
        let once = peeled(stem)->0;
        let p = stem.take(stem.len() - once.len());
        assert(stem =~= p + once);
        if derives(once, id) {
            (p, once)
        } else {
            lemma_peeled(once);
            let twice = peeled(once)->0;
            let q = once.take(once.len() - twice.len());
            assert(once =~= q + twice);
            assert(p + (q + twice) =~= (p + q) + twice);
            assert((p + q).last() == q.last());
            (p + q, twice)
        }
    }
}

/// What stands behind an id in a name that derives from it.
proof fn lemma_derived_rest(name: Seq<char>, id: Seq<char>) -> (rest: Seq<char>)
    requires
        derives(name, id),
    ensures
        name == id + rest,
        rest.len() == 0 || rest[0] == '.',
{
    reveal_strlit(".");
    let rest = name.skip(id.len() as int);
    if name == id {
        assert(name =~= id + rest);
    } else {
        let whole = id + "."@;
        assert(whole =~= name.take(whole.len() as int));
        assert forall|i: int| 0 <= i < id.len() implies name[i] == id[i] by {
            assert(whole[i] == name.take(whole.len() as int)[i]);
        }
        assert(whole[id.len() as int] == name.take(whole.len() as int)[id.len() as int]);
        assert(name =~= id + rest);
    }
    rest
}

/// An extension is cut off an entry, with its dot, or nothing is.
proof fn lemma_bare_stem(entry: Seq<char>)
    ensures
        bare_stem(entry).len() <= entry.len(),
        bare_stem(entry) == entry.take(bare_stem(entry).len() as int),
        bare_stem(entry).len() < entry.len() ==> entry[bare_stem(entry).len() as int] == '.',
{
    reveal_strlit(".plist");
    reveal_strlit(".binarycookies");
    reveal_strlit(".savedState");
    reveal_strlit(".sfl3");
    reveal_strlit(".sfl2");
    assert(entry.take(entry.len() as int) =~= entry);
    let stem = bare_stem(entry);
    if stem.len() < entry.len() {
        let n = stem.len() as int;
        if ".plist"@.is_suffix_of(entry) {
            assert(entry.skip(n)[0] == ".plist"@[0]);
        } else if ".binarycookies"@.is_suffix_of(entry) {
            assert(entry.skip(n)[0] == ".binarycookies"@[0]);
        } else if ".savedState"@.is_suffix_of(entry) {
            assert(entry.skip(n)[0] == ".savedState"@[0]);
        } else if ".sfl3"@.is_suffix_of(entry) {
            assert(entry.skip(n)[0] == ".sfl3"@[0]);
        } else if ".sfl2"@.is_suffix_of(entry) {
            assert(entry.skip(n)[0] == ".sfl2"@[0]);
        }
    }
}

/// What is peeled off a name ends in a dot.
proof fn lemma_peeled(s: Seq<char>)
    requires
        peeled(s) is Some,
    ensures
        peeled(s)->0.len() < s.len(),
        peeled(s)->0 == s.skip(s.len() - peeled(s)->0.len()),
        s[s.len() - peeled(s)->0.len() - 1] == '.',
{
    reveal_strlit("group.");
    if "group."@.is_prefix_of(s) {
        assert(s.take(6)[5] == "group."@[5]);
    } else {
        text::lemma_first_index(s, '.');
    }
}

/// None of the extensions that say what sort of file an entry is stands at its end.
pub open spec fn has_no_kind(s: Seq<char>) -> bool {
    &&& !".plist"@.is_suffix_of(s)
    &&& !".binarycookies"@.is_suffix_of(s)
    &&& !".savedState"@.is_suffix_of(s)
    &&& !".sfl3"@.is_suffix_of(s)
    &&& !".sfl2"@.is_suffix_of(s)
}

/// What is named for an id stays so with any of the extensions that say what sort of file it
/// is, and nothing else comes to be.
pub proof fn law_the_kind_of_file_does_not_matter(s: Seq<char>, id: Seq<char>, kind: Seq<char>)
    requires
        has_no_kind(s),
        kind == ".plist"@ || kind == ".binarycookies"@ || kind == ".savedState"@ || kind
            == ".sfl3"@ || kind == ".sfl2"@,
    ensures
        named_for(s + kind, id) == named_for(s, id),
{
    reveal_strlit(".plist");
    reveal_strlit(".binarycookies");
    reveal_strlit(".savedState");
    reveal_strlit(".sfl3");
    reveal_strlit(".sfl2");
    let whole = s + kind;
    assert(kind.is_suffix_of(whole)) by {
        assert(whole.skip(s.len() as int) =~= kind);
    }
    assert(whole.take(whole.len() - kind.len()) =~= s);
    assert(whole.last() == kind.last());
    lemma_last_of_suffix(whole, ".plist"@);
    lemma_last_of_suffix(whole, ".binarycookies"@);
    lemma_last_of_suffix(whole, ".savedState"@);
    lemma_last_of_suffix(whole, ".sfl3"@);
    lemma_last_of_suffix(whole, ".sfl2"@);
    assert(bare_stem(whole) == s);
    assert(bare_stem(s) == s);
}

proof fn lemma_last_of_suffix(s: Seq<char>, end: Seq<char>)
    requires
        end.len() > 0,
    ensures
        end.is_suffix_of(s) ==> s.last() == end.last(),
{
    if end.is_suffix_of(s) {
        assert(s.skip(s.len() - end.len()).last() == end.last());
    }
}

/// An id is found in an entry that is the id or goes on behind it with a dot, also behind the
/// prefix of an app group or of a team.
pub proof fn law_a_name_that_derives_from_an_id_is_named_for_it(
    pre: Seq<char>,
    id: Seq<char>,
    rest: Seq<char>,
)
    requires
        has_no_kind(pre + (id + rest)),
        rest.len() == 0 || rest[0] == '.',
        pre.len() == 0 || pre == "group."@ || (pre.len() == 11 && pre[10] == '.' && forall|i: int|
            0 <= i < 10 ==> ('A' <= #[trigger] pre[i] <= 'Z') || ('0' <= pre[i] <= '9')),
    ensures
        named_for(pre + (id + rest), id),
{
    reveal_strlit(".");
    reveal_strlit("group.");
    let name = id + rest;
    let entry = pre + name;
    assert(bare_stem(entry) == entry);
    assert(derives(name, id)) by {
        if rest.len() == 0 {
            assert(name =~= id);
        } else {
            assert((id + "."@) =~= name.take(id.len() as int + 1));
        }
    }
    if pre.len() == 0 {
        assert(entry =~= name);
    } else if pre == "group."@ {
        assert(entry.take(6) =~= "group."@);
        assert(entry.skip(6) =~= name);
    } else {
        assert(!"group."@.is_prefix_of(entry)) by {
            if "group."@.is_prefix_of(entry) {
                assert(entry.take(6)[0] == 'g');
                assert(entry[0] == pre[0]);
            }
        }
        text::lemma_first_index(entry, '.');
        assert(entry[10] == '.');
        assert forall|i: int| 0 <= i < 10 implies entry[i] != '.' by {
            assert(entry[i] == pre[i]);
        }
        assert(text::first_index(entry, '.') == Some(10int));
        let team = entry.take(10);
        assert forall|i: int| 0 <= i < team.len() implies ('A' <= #[trigger] team[i] <= 'Z') || (
        '0' <= team[i] <= '9') by {
            assert(team[i] == pre[i]);
        }
        assert(entry.skip(11) =~= name);
    }
}

/// The places where applications leave things are all looked in: the user's library before the
/// machine's, and the directories for commands.
pub proof fn law_every_usual_place_is_looked_in(home: Seq<char>)
    ensures
        real_libraries(Some(home)) == seq![paths::below(home, "Library"@), "/Library"@],
        real_libraries(None) == seq!["/Library"@],
        real_bins().contains("/usr/local/bin"@),
        real_bins().contains("/opt/homebrew/bin"@),
        real_bins().contains("/usr/local/sbin"@),
        library_subdirs().contains("Application Support"@),
        library_subdirs().contains("Application Scripts"@),
        library_subdirs().contains("Autosave Information"@),
        library_subdirs().contains("Caches"@),
        library_subdirs().contains("Containers"@),
        library_subdirs().contains("Cookies"@),
        library_subdirs().contains("Group Containers"@),
        library_subdirs().contains("HTTPStorages"@),
        library_subdirs().contains("Internet Plug-Ins"@),
        library_subdirs().contains("Logs"@),
        library_subdirs().contains("Preferences"@),
        library_subdirs().contains("Preferences/ByHost"@),
        library_subdirs().contains("PrivilegedHelperTools"@),
        library_subdirs().contains("Saved Application State"@),
        library_subdirs().contains("WebKit"@),
        forall|i: int|
            0 <= i < vendor_subdirs().len() ==> library_subdirs().contains(
                #[trigger] vendor_subdirs()[i],
            ),
        vendor_subdirs().contains("Application Support"@),
        vendor_subdirs().contains("Caches"@),
        vendor_subdirs().contains("Logs"@),
        vendor_subdirs().contains("Preferences"@),
        launchd_subdirs().contains("LaunchAgents"@),
        launchd_subdirs().contains("LaunchDaemons"@),
{
    let subs = library_subdirs();
    assert(subs.len() == 15);
    assert(subs[0] == "Application Support"@);
    assert(subs[1] == "Application Scripts"@);
    assert(subs[2] == "Autosave Information"@);
    assert(subs[3] == "Caches"@);
    assert(subs[4] == "Containers"@);
    assert(subs[5] == "Cookies"@);
    assert(subs[6] == "Group Containers"@);
    assert(subs[7] == "HTTPStorages"@);
    assert(subs[8] == "Internet Plug-Ins"@);
    assert(subs[9] == "Logs"@);
    assert(subs[10] == "Preferences"@);
    assert(subs[11] == "Preferences/ByHost"@);
    assert(subs[12] == "PrivilegedHelperTools"@);
    assert(subs[13] == "Saved Application State"@);
    assert(subs[14] == "WebKit"@);
    let vendors = vendor_subdirs();
    assert(vendors[0] == "Application Support"@);
    assert(vendors[1] == "Caches"@);
    assert(vendors[2] == "Logs"@);
    assert(vendors[3] == "Preferences"@);
    let jobs = launchd_subdirs();
    assert(jobs[0] == "LaunchAgents"@);
    assert(jobs[1] == "LaunchDaemons"@);
    let bins = real_bins();
    assert(bins[0] == "/usr/local/bin"@);
    assert(bins[1] == "/opt/homebrew/bin"@);
    assert(bins[2] == "/usr/local/sbin"@);
}

/// Every directory of every library is listed to be searched, whatever library comes before it,
/// and so is every directory for commands.
pub proof fn law_every_library_is_searched_whole(
    libraries: Seq<Seq<char>>,
    bins: Seq<Seq<char>>,
    i: int,
    j: int,
)
    requires
        0 <= i < libraries.len(),
    ensures
        0 <= j < library_subdirs().len() ==> searched(libraries, bins).contains(
            paths::below(libraries[i], library_subdirs()[j]),
        ),
        0 <= j < launchd_subdirs().len() ==> searched(libraries, bins).contains(
            paths::below(libraries[i], launchd_subdirs()[j]),
        ),
        0 <= j < bins.len() ==> searched(libraries, bins).contains(bins[j]),
    decreases libraries.len(),
{
    let all = searched(libraries, bins);
    let own = searched_in(libraries[0]);
    let rest = searched(libraries.drop_first(), bins);
    let subs = library_subdirs();
    let jobs = launchd_subdirs();
    if i == 0 {
        if 0 <= j < subs.len() {
            assert(all[j] == paths::below(libraries[i], subs[j]));
        }
        if 0 <= j < jobs.len() {
            assert((subs + jobs)[subs.len() + j] == jobs[j]);
            assert(all[subs.len() + j] == paths::below(libraries[i], jobs[j]));
        }
    } else {
        assert(libraries.drop_first()[i - 1] == libraries[i]);
        law_every_library_is_searched_whole(libraries.drop_first(), bins, i - 1, j);
        if 0 <= j < subs.len() {
            let p = paths::below(libraries[i], subs[j]);
            let k = choose|k: int| 0 <= k < rest.len() && rest[k] == p;
            assert(all[own.len() + k] == p);
        }
        if 0 <= j < jobs.len() {
            let p = paths::below(libraries[i], jobs[j]);
            let k = choose|k: int| 0 <= k < rest.len() && rest[k] == p;
            assert(all[own.len() + k] == p);
        }
    }
    lemma_bins_searched(libraries, bins, j);
}

proof fn lemma_bins_searched(libraries: Seq<Seq<char>>, bins: Seq<Seq<char>>, j: int)
    ensures
        0 <= j < bins.len() ==> searched(libraries, bins).contains(bins[j]),
    decreases libraries.len(),
{
    if 0 <= j < bins.len() {
        if libraries.len() == 0 {
            assert(searched(libraries, bins)[j] == bins[j]);
        } else {
            let own = searched_in(libraries[0]);
            let rest = searched(libraries.drop_first(), bins);
            lemma_bins_searched(libraries.drop_first(), bins, j);
            let k = choose|k: int| 0 <= k < rest.len() && rest[k] == bins[j];
            assert(searched(libraries, bins)[own.len() + k] == bins[j]);
        }
    }
}

/// What is sure is listed before what is not, and of either the larger first.
pub proof fn law_sure_finds_are_listed_first(found: Seq<LeftoverRow>, i: int, j: int)
    requires
        0 <= i < j < found.len(),
    ensures
        ({
            let listed = order::arranged(found, order_of());
            &&& listed.len() == found.len()
            &&& listed[j].confidence is Exact ==> listed[i].confidence is Exact
            &&& listed[i].confidence == listed[j].confidence ==> listed[i].size >= listed[j].size
        }),
{
    broadcast use vstd::seq_lib::group_to_multiset_ensures;

    order::lemma_arranged_multiset(found, order_of());
    order::lemma_arranged_ordered(found, order_of());
    let listed = order::arranged(found, order_of());
    assert(found.to_multiset().len() == found.len());
    assert(listed.to_multiset().len() == listed.len());
    assert(order_of()(listed[i], listed[j]));
}

/// The prefix of an app group, or of a team of ten capital letters or digits.
pub open spec fn is_carried(p: Seq<char>) -> bool {
    p == "group."@ || (p.len() == 11 && p[10] == '.' && forall|i: int|
        0 <= i < 10 ==> ('A' <= #[trigger] p[i] <= 'Z') || ('0' <= p[i] <= '9'))
}

proof fn lemma_carried_comes_off(p: Seq<char>, rest: Seq<char>)
    requires
        is_carried(p),
    ensures
        peeled(p + rest) == Some(rest),
{
    reveal_strlit("group.");
    let s = p + rest;
    text::law_a_prefix_and_a_suffix_come_off(rest, p);
    if p != "group."@ {
        assert(!"group."@.is_prefix_of(s)) by {
            if "group."@.is_prefix_of(s) {
                assert(s.subrange(0, 6)[0] == s[0]);
                assert(s[0] == p[0]);
            }
        }
        text::law_a_cut_text_goes_together_again(s, '.');
        assert(s[10] == '.');
        assert(s.contains(s[10]));
        let (first, behind) = text::cut_first(s, '.')->0;
        let k = first.len() as int;
        assert(s[k] == '.');
        if k < 10 {
            assert(s[k] == p[k]);
        }
        if k > 10 {
            assert(first[10] == s[10]);
            assert(first.contains(first[10]));
        }
        assert(k == 10);
        assert(s == first.push('.') + behind);
        assert(behind =~= s.skip(11));
        assert(rest =~= s.skip(11));
        assert forall|i: int| 0 <= i < 10 implies ('A' <= #[trigger] first[i] <= 'Z') || ('0'
            <= first[i] <= '9') by {
            assert(first[i] == s[i] && s[i] == p[i]);
        }
    }
}

proof fn lemma_what_came_off_was_carried(s: Seq<char>) -> (p: Seq<char>)
    requires
        peeled(s) is Some,
    ensures
        is_carried(p),
        s == p + peeled(s)->0,
{
    reveal_strlit("group.");
    text::law_a_prefix_and_a_suffix_come_off(s, "group."@);
    if text::behind(s, "group."@) is Some {
        "group."@
    } else {
        text::law_a_cut_text_goes_together_again(s, '.');
        let (first, rest) = text::cut_first(s, '.')->0;
        let p = first.push('.');
        assert forall|i: int| 0 <= i < 10 implies ('A' <= #[trigger] p[i] <= 'Z') || ('0' <= p[i]
            <= '9') by {
            assert(p[i] == first[i]);
        }
        p
    }
}

/// An id is found behind two such prefixes as well, in either order.
pub proof fn law_an_id_is_found_behind_two_prefixes(
    a: Seq<char>,
    b: Seq<char>,
    id: Seq<char>,
    rest: Seq<char>,
)
    requires
        is_carried(a),
        is_carried(b),
        has_no_kind(a + (b + (id + rest))),
        rest.len() == 0 || rest[0] == '.',
    ensures
        named_for(a + (b + (id + rest)), id),
{
    reveal_strlit(".");
    let name = id + rest;
    assert(derives(name, id)) by {
        if rest.len() == 0 {
            assert(name =~= id);
        } else {
            assert((id + "."@) =~= name.take(id.len() as int + 1));
        }
    }
    lemma_carried_comes_off(b, name);
    lemma_carried_comes_off(a, b + name);
    assert(bare_stem(a + (b + name)) == a + (b + name));
}

/// A name is an id behind up to two such prefixes, with a dot or nothing behind it.
pub open spec fn is_behind(
    entry: Seq<char>,
    a: Seq<char>,
    b: Seq<char>,
    id: Seq<char>,
    rest: Seq<char>,
) -> bool {
    &&& entry == a + (b + (id + rest))
    &&& a.len() == 0 || is_carried(a)
    &&& b.len() == 0 || is_carried(b)
    &&& rest.len() == 0 || rest[0] == '.'
}

proof fn lemma_behind(
    stem: Seq<char>,
    ext: Seq<char>,
    a: Seq<char>,
    b: Seq<char>,
    name: Seq<char>,
    id: Seq<char>,
)
    requires
        stem == a + (b + name),
        derives(name, id),
        a.len() == 0 || is_carried(a),
        b.len() == 0 || is_carried(b),
        ext.len() == 0 || ext[0] == '.',
    ensures
        exists|rest: Seq<char>| #[trigger] is_behind(stem + ext, a, b, id, rest),
{
    let rest = lemma_derived_rest(name, id);
    let tail = rest + ext;
    assert(stem + ext =~= a + (b + (id + tail)));
    assert(is_behind(stem + ext, a, b, id, tail));
}

/// What is named for an id begins with it, up to two such prefixes aside, and goes on behind it
/// with a dot or not at all: an id that stands deeper in a name is another's.
pub proof fn law_only_two_prefixes_come_off(entry: Seq<char>, id: Seq<char>)
    requires
        named_for(entry, id),
    ensures
        exists|a: Seq<char>, b: Seq<char>, rest: Seq<char>| #[trigger]
            is_behind(entry, a, b, id, rest),
{
    let none = Seq::<char>::empty();
    let stem = bare_stem(entry);
    lemma_bare_stem(entry);
    let ext = entry.skip(stem.len() as int);
    assert(entry =~= stem + ext);
    if derives(stem, id) {
        assert(none + (none + stem) =~= stem);
        lemma_behind(stem, ext, none, none, stem, id);
    } else {
        let a = lemma_what_came_off_was_carried(stem);
        let once = peeled(stem)->0;
        if derives(once, id) {
            assert(none + once =~= once);
            lemma_behind(stem, ext, a, none, once, id);
        } else {
            let b = lemma_what_came_off_was_carried(once);
            lemma_behind(stem, ext, a, b, peeled(once)->0, id);
        }
    }
}

} // verus!
