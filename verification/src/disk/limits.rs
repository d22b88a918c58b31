//! What cleanup may not do: empty a path twice, or touch what is the user's own.
use vstd::prelude::*;
use crate::disk::cleanup;
use crate::disk::cleanup::{emptied, is_row_for, Cleanable, Target};
use crate::disk::platform::{
    cleanable_on,
    cleanable_table,
    curated,
    go_cache_at,
    lemma_curated_row,
    listed_as,
    usual_targets,
    Declared,
    Machine,
};
use crate::order;
use crate::paths;
use crate::text;

verus! {

/// The directories that hold what only the user can bring back.
pub open spec fn own_directories(h: Seq<char>) -> Seq<Seq<char>> {
    seq![
        paths::below(h, "Documents"@),
        paths::below(h, "dotfiles"@),
        paths::below(h, "Desktop"@),
        paths::below(h, "Downloads"@),
        paths::below(h, "go/src"@),
    ]
}

/// A path is one of them.
pub open spec fn is_own(h: Seq<char>, p: Seq<char>) -> bool {
    exists|i: int| 0 <= i < 5 && paths::same_path(p, #[trigger] own_directories(h)[i])
}

/// What a path ends in.
spec fn ends_in(p: Seq<char>, w: Seq<char>) -> bool {
    paths::components(p).len() > 0 && paths::components(p).last() == w
}

proof fn lemma_ends_in(h: Seq<char>, rel: Seq<char>, front: Seq<char>, w: Seq<char>)
    requires
        w.len() > 1,
        !w.contains('/'),
        rel == w || rel == front.push('/') + w,
        rel[0] != '/',
    ensures
        ends_in(paths::below(h, rel), w),
{
    let p = paths::below(h, rel);
    if rel == w {
        if h.len() == 0 {
            assert(p =~= w);
            paths::lemma_last_component(h, w);
        } else if h.last() == '/' {
            assert(p =~= h.drop_last().push('/') + w);
            paths::lemma_last_component(h.drop_last(), w);
        } else {
            paths::lemma_last_component(h, w);
        }
    } else if h.len() == 0 || h.last() == '/' {
        assert(p =~= (h + front).push('/') + w);
        paths::lemma_last_component(h + front, w);
    } else {
        assert(p =~= (h.push('/') + front).push('/') + w);
        paths::lemma_last_component(h.push('/') + front, w);
    }
}

/// A name that none of the user's own directories has.
spec fn is_other_name(w: Seq<char>) -> bool {
    w != "Documents"@ && w != "dotfiles"@ && w != "Desktop"@ && w != "Downloads"@ && w != "src"@
}

proof fn lemma_own_names(h: Seq<char>)
    ensures
        ends_in(own_directories(h)[0], "Documents"@),
        ends_in(own_directories(h)[1], "dotfiles"@),
        ends_in(own_directories(h)[2], "Desktop"@),
        ends_in(own_directories(h)[3], "Downloads"@),
        ends_in(own_directories(h)[4], "src"@),
{
    reveal_strlit("Documents");
    lemma_ends_in(h, "Documents"@, Seq::empty(), "Documents"@);
    reveal_strlit("dotfiles");
    lemma_ends_in(h, "dotfiles"@, Seq::empty(), "dotfiles"@);
    reveal_strlit("Desktop");
    lemma_ends_in(h, "Desktop"@, Seq::empty(), "Desktop"@);
    reveal_strlit("Downloads");
    lemma_ends_in(h, "Downloads"@, Seq::empty(), "Downloads"@);
    reveal_strlit("go/src");
    reveal_strlit("src");
    reveal_strlit("go");
    assert("go/src"@ =~= "go"@.push('/') + "src"@);
    lemma_ends_in(h, "go/src"@, "go"@, "src"@);
}

proof fn lemma_entry_0_is_other(h: Seq<char>)
    ensures
        ends_in(paths::below(h, "go/pkg"@), "pkg"@),
        is_other_name("pkg"@),
{
    reveal_strlit("Documents");
    reveal_strlit("dotfiles");
    reveal_strlit("Desktop");
    reveal_strlit("Downloads");
    reveal_strlit("src");
    reveal_strlit("go/pkg");
    reveal_strlit("pkg");
    reveal_strlit("go");
    assert("go/pkg"@ =~= "go"@.push('/') + "pkg"@);
    lemma_ends_in(h, "go/pkg"@, "go"@, "pkg"@);
    assert("pkg"@[0] != "src"@[0]);
}

proof fn lemma_entry_2_is_other(h: Seq<char>)
    ensures
        ends_in(paths::below(h, "Library/Caches/goimports"@), "goimports"@),
        is_other_name("goimports"@),
{
    reveal_strlit("Documents");
    reveal_strlit("dotfiles");
    reveal_strlit("Desktop");
    reveal_strlit("Downloads");
    reveal_strlit("src");
    reveal_strlit("Library/Caches/goimports");
    reveal_strlit("goimports");
    reveal_strlit("Library/Caches");
    assert("Library/Caches/goimports"@ =~= "Library/Caches"@.push('/') + "goimports"@);
    lemma_ends_in(h, "Library/Caches/goimports"@, "Library/Caches"@, "goimports"@);
    assert("goimports"@[0] != "Documents"@[0]);
    assert("goimports"@[0] != "Downloads"@[0]);
}

proof fn lemma_entry_3_is_other(h: Seq<char>)
    ensures
        ends_in(paths::below(h, ".npm"@), ".npm"@),
        is_other_name(".npm"@),
{
    reveal_strlit("Documents");
    reveal_strlit("dotfiles");
    reveal_strlit("Desktop");
    reveal_strlit("Downloads");
    reveal_strlit("src");
    reveal_strlit(".npm");
    lemma_ends_in(h, ".npm"@, Seq::empty(), ".npm"@);
}

proof fn lemma_entry_4_is_other(h: Seq<char>)
    ensures
        ends_in(paths::below(h, "Library/Caches/pnpm"@), "pnpm"@),
        is_other_name("pnpm"@),
{
    reveal_strlit("Documents");
    reveal_strlit("dotfiles");
    reveal_strlit("Desktop");
    reveal_strlit("Downloads");
    reveal_strlit("src");
    reveal_strlit("Library/Caches/pnpm");
    reveal_strlit("pnpm");
    reveal_strlit("Library/Caches");
    assert("Library/Caches/pnpm"@ =~= "Library/Caches"@.push('/') + "pnpm"@);
    lemma_ends_in(h, "Library/Caches/pnpm"@, "Library/Caches"@, "pnpm"@);
}

proof fn lemma_entry_5_is_other(h: Seq<char>)
    ensures
        ends_in(paths::below(h, ".bun/install/cache"@), "cache"@),
        is_other_name("cache"@),
{
    reveal_strlit("Documents");
    reveal_strlit("dotfiles");
    reveal_strlit("Desktop");
    reveal_strlit("Downloads");
    reveal_strlit("src");
    reveal_strlit(".bun/install/cache");
    reveal_strlit("cache");
    reveal_strlit(".bun/install");
    assert(".bun/install/cache"@ =~= ".bun/install"@.push('/') + "cache"@);
    lemma_ends_in(h, ".bun/install/cache"@, ".bun/install"@, "cache"@);
}

proof fn lemma_entry_6_is_other(h: Seq<char>)
    ensures
        ends_in(paths::below(h, ".cache/uv"@), "uv"@),
        is_other_name("uv"@),
{
    reveal_strlit("Documents");
    reveal_strlit("dotfiles");
    reveal_strlit("Desktop");
    reveal_strlit("Downloads");
    reveal_strlit("src");
    reveal_strlit(".cache/uv");
    reveal_strlit("uv");
    reveal_strlit(".cache");
    assert(".cache/uv"@ =~= ".cache"@.push('/') + "uv"@);
    lemma_ends_in(h, ".cache/uv"@, ".cache"@, "uv"@);
}

proof fn lemma_entry_7_is_other(h: Seq<char>)
    ensures
        ends_in(paths::below(h, "Library/Caches/pip"@), "pip"@),
        is_other_name("pip"@),
{
    reveal_strlit("Documents");
    reveal_strlit("dotfiles");
    reveal_strlit("Desktop");
    reveal_strlit("Downloads");
    reveal_strlit("src");
    reveal_strlit("Library/Caches/pip");
    reveal_strlit("pip");
    reveal_strlit("Library/Caches");
    assert("Library/Caches/pip"@ =~= "Library/Caches"@.push('/') + "pip"@);
    lemma_ends_in(h, "Library/Caches/pip"@, "Library/Caches"@, "pip"@);
    assert("pip"@[0] != "src"@[0]);
}

proof fn lemma_entry_8_is_other(h: Seq<char>)
    ensures
        ends_in(paths::below(h, ".cargo/registry"@), "registry"@),
        is_other_name("registry"@),
{
    reveal_strlit("Documents");
    reveal_strlit("dotfiles");
    reveal_strlit("Desktop");
    reveal_strlit("Downloads");
    reveal_strlit("src");
    reveal_strlit(".cargo/registry");
    reveal_strlit("registry");
    reveal_strlit(".cargo");
    assert(".cargo/registry"@ =~= ".cargo"@.push('/') + "registry"@);
    lemma_ends_in(h, ".cargo/registry"@, ".cargo"@, "registry"@);
    assert("registry"@[0] != "dotfiles"@[0]);
}

proof fn lemma_entry_9_is_other(h: Seq<char>)
    ensures
        ends_in(paths::below(h, ".konan"@), ".konan"@),
        is_other_name(".konan"@),
{
    reveal_strlit("Documents");
    reveal_strlit("dotfiles");
    reveal_strlit("Desktop");
    reveal_strlit("Downloads");
    reveal_strlit("src");
    reveal_strlit(".konan");
    lemma_ends_in(h, ".konan"@, Seq::empty(), ".konan"@);
}

proof fn lemma_entry_10_is_other(h: Seq<char>)
    ensures
        ends_in(paths::below(h, ".gradle/caches"@), "caches"@),
        is_other_name("caches"@),
{
    reveal_strlit("Documents");
    reveal_strlit("dotfiles");
    reveal_strlit("Desktop");
    reveal_strlit("Downloads");
    reveal_strlit("src");
    reveal_strlit(".gradle/caches");
    reveal_strlit("caches");
    reveal_strlit(".gradle");
    assert(".gradle/caches"@ =~= ".gradle"@.push('/') + "caches"@);
    lemma_ends_in(h, ".gradle/caches"@, ".gradle"@, "caches"@);
}

proof fn lemma_entry_11_is_other(h: Seq<char>)
    ensures
        ends_in(paths::below(h, ".gradle/wrapper/dists"@), "dists"@),
        is_other_name("dists"@),
{
    reveal_strlit("Documents");
    reveal_strlit("dotfiles");
    reveal_strlit("Desktop");
    reveal_strlit("Downloads");
    reveal_strlit("src");
    reveal_strlit(".gradle/wrapper/dists");
    reveal_strlit("dists");
    reveal_strlit(".gradle/wrapper");
    assert(".gradle/wrapper/dists"@ =~= ".gradle/wrapper"@.push('/') + "dists"@);
    lemma_ends_in(h, ".gradle/wrapper/dists"@, ".gradle/wrapper"@, "dists"@);
}

proof fn lemma_entry_12_is_other(h: Seq<char>)
    ensures
        ends_in(paths::below(h, ".m2/repository"@), "repository"@),
        is_other_name("repository"@),
{
    reveal_strlit("Documents");
    reveal_strlit("dotfiles");
    reveal_strlit("Desktop");
    reveal_strlit("Downloads");
    reveal_strlit("src");
    reveal_strlit(".m2/repository");
    reveal_strlit("repository");
    reveal_strlit(".m2");
    assert(".m2/repository"@ =~= ".m2"@.push('/') + "repository"@);
    lemma_ends_in(h, ".m2/repository"@, ".m2"@, "repository"@);
}

proof fn lemma_entry_13_is_other(h: Seq<char>)
    ensures
        ends_in(paths::below(h, "Library/Developer/Xcode/DerivedData"@), "DerivedData"@),
        is_other_name("DerivedData"@),
{
    reveal_strlit("Documents");
    reveal_strlit("dotfiles");
    reveal_strlit("Desktop");
    reveal_strlit("Downloads");
    reveal_strlit("src");
    reveal_strlit("Library/Developer/Xcode/DerivedData");
    reveal_strlit("DerivedData");
    reveal_strlit("Library/Developer/Xcode");
    assert("Library/Developer/Xcode/DerivedData"@ =~= "Library/Developer/Xcode"@.push('/') + "DerivedData"@);
    lemma_ends_in(h, "Library/Developer/Xcode/DerivedData"@, "Library/Developer/Xcode"@, "DerivedData"@);
}

proof fn lemma_entry_14_is_other(h: Seq<char>)
    ensures
        ends_in(paths::below(h, "Library/Developer/Xcode/iOS DeviceSupport"@), "iOS DeviceSupport"@),
        is_other_name("iOS DeviceSupport"@),
{
    reveal_strlit("Documents");
    reveal_strlit("dotfiles");
    reveal_strlit("Desktop");
    reveal_strlit("Downloads");
    reveal_strlit("src");
    reveal_strlit("Library/Developer/Xcode/iOS DeviceSupport");
    reveal_strlit("iOS DeviceSupport");
    reveal_strlit("Library/Developer/Xcode");
    assert("Library/Developer/Xcode/iOS DeviceSupport"@ =~= "Library/Developer/Xcode"@.push('/') + "iOS DeviceSupport"@);
    lemma_ends_in(h, "Library/Developer/Xcode/iOS DeviceSupport"@, "Library/Developer/Xcode"@, "iOS DeviceSupport"@);
}

proof fn lemma_entry_15_is_other(h: Seq<char>)
    ensures
        ends_in(paths::below(h, "Library/Caches/org.swift.swiftpm"@), "org.swift.swiftpm"@),
        is_other_name("org.swift.swiftpm"@),
{
    reveal_strlit("Documents");
    reveal_strlit("dotfiles");
    reveal_strlit("Desktop");
    reveal_strlit("Downloads");
    reveal_strlit("src");
    reveal_strlit("Library/Caches/org.swift.swiftpm");
    reveal_strlit("org.swift.swiftpm");
    reveal_strlit("Library/Caches");
    assert("Library/Caches/org.swift.swiftpm"@ =~= "Library/Caches"@.push('/') + "org.swift.swiftpm"@);
    lemma_ends_in(h, "Library/Caches/org.swift.swiftpm"@, "Library/Caches"@, "org.swift.swiftpm"@);
}

proof fn lemma_entry_16_is_other(h: Seq<char>)
    ensures
        ends_in(paths::below(h, "Library/Caches/Homebrew"@), "Homebrew"@),
        is_other_name("Homebrew"@),
{
    reveal_strlit("Documents");
    reveal_strlit("dotfiles");
    reveal_strlit("Desktop");
    reveal_strlit("Downloads");
    reveal_strlit("src");
    reveal_strlit("Library/Caches/Homebrew");
    reveal_strlit("Homebrew");
    reveal_strlit("Library/Caches");
    assert("Library/Caches/Homebrew"@ =~= "Library/Caches"@.push('/') + "Homebrew"@);
    lemma_ends_in(h, "Library/Caches/Homebrew"@, "Library/Caches"@, "Homebrew"@);
    assert("Homebrew"@[0] != "dotfiles"@[0]);
}

proof fn lemma_entry_17_is_other(h: Seq<char>)
    ensures
        ends_in(paths::below(h, "Library/Caches/JetBrains"@), "JetBrains"@),
        is_other_name("JetBrains"@),
{
    reveal_strlit("Documents");
    reveal_strlit("dotfiles");
    reveal_strlit("Desktop");
    reveal_strlit("Downloads");
    reveal_strlit("src");
    reveal_strlit("Library/Caches/JetBrains");
    reveal_strlit("JetBrains");
    reveal_strlit("Library/Caches");
    assert("Library/Caches/JetBrains"@ =~= "Library/Caches"@.push('/') + "JetBrains"@);
    lemma_ends_in(h, "Library/Caches/JetBrains"@, "Library/Caches"@, "JetBrains"@);
    assert("JetBrains"@[0] != "Documents"@[0]);
    assert("JetBrains"@[0] != "Downloads"@[0]);
}

proof fn lemma_entry_18_is_other(h: Seq<char>)
    ensures
        ends_in(paths::below(h, "Library/Caches/ms-playwright"@), "ms-playwright"@),
        is_other_name("ms-playwright"@),
{
    reveal_strlit("Documents");
    reveal_strlit("dotfiles");
    reveal_strlit("Desktop");
    reveal_strlit("Downloads");
    reveal_strlit("src");
    reveal_strlit("Library/Caches/ms-playwright");
    reveal_strlit("ms-playwright");
    reveal_strlit("Library/Caches");
    assert("Library/Caches/ms-playwright"@ =~= "Library/Caches"@.push('/') + "ms-playwright"@);
    lemma_ends_in(h, "Library/Caches/ms-playwright"@, "Library/Caches"@, "ms-playwright"@);
}

proof fn lemma_entry_19_is_other(h: Seq<char>)
    ensures
        ends_in(paths::below(h, "Library/Caches/Google"@), "Google"@),
        is_other_name("Google"@),
{
    reveal_strlit("Documents");
    reveal_strlit("dotfiles");
    reveal_strlit("Desktop");
    reveal_strlit("Downloads");
    reveal_strlit("src");
    reveal_strlit("Library/Caches/Google");
    reveal_strlit("Google");
    reveal_strlit("Library/Caches");
    assert("Library/Caches/Google"@ =~= "Library/Caches"@.push('/') + "Google"@);
    lemma_ends_in(h, "Library/Caches/Google"@, "Library/Caches"@, "Google"@);
}

proof fn lemma_entry_20_is_other(h: Seq<char>)
    ensures
        ends_in(paths::below(h, "Library/Caches/com.tinyspeck.slackmacgap.ShipIt"@), "com.tinyspeck.slackmacgap.ShipIt"@),
        is_other_name("com.tinyspeck.slackmacgap.ShipIt"@),
{
    reveal_strlit("Documents");
    reveal_strlit("dotfiles");
    reveal_strlit("Desktop");
    reveal_strlit("Downloads");
    reveal_strlit("src");
    reveal_strlit("Library/Caches/com.tinyspeck.slackmacgap.ShipIt");
    reveal_strlit("com.tinyspeck.slackmacgap.ShipIt");
    reveal_strlit("Library/Caches");
    assert("Library/Caches/com.tinyspeck.slackmacgap.ShipIt"@ =~= "Library/Caches"@.push('/') + "com.tinyspeck.slackmacgap.ShipIt"@);
    lemma_ends_in(h, "Library/Caches/com.tinyspeck.slackmacgap.ShipIt"@, "Library/Caches"@, "com.tinyspeck.slackmacgap.ShipIt"@);
}

/// A path that ends in another name is none of the user's own.
proof fn lemma_not_own(h: Seq<char>, p: Seq<char>, w: Seq<char>)
    requires
        ends_in(p, w),
        is_other_name(w),
    ensures
        !is_own(h, p),
{
    lemma_own_names(h);
}

/// Nothing of the user's own may be emptied. It takes a Go build cache that is elsewhere.
pub proof fn law_nothing_of_the_users_own_is_cleanable(h: Seq<char>, g: Seq<char>, i: int)
    requires
        !is_own(h, g),
        0 <= i < cleanable_table(h, g).len(),
    ensures
        !is_own(h, cleanable_table(h, g)[i].2),
{
    if i == 0 {
        lemma_entry_0_is_other(h);
        lemma_not_own(h, paths::below(h, "go/pkg"@), "pkg"@);
    } else if i == 2 {
        lemma_entry_2_is_other(h);
        lemma_not_own(h, paths::below(h, "Library/Caches/goimports"@), "goimports"@);
    } else if i == 3 {
        lemma_entry_3_is_other(h);
        lemma_not_own(h, paths::below(h, ".npm"@), ".npm"@);
    } else if i == 4 {
        lemma_entry_4_is_other(h);
        lemma_not_own(h, paths::below(h, "Library/Caches/pnpm"@), "pnpm"@);
    } else if i == 5 {
        lemma_entry_5_is_other(h);
        lemma_not_own(h, paths::below(h, ".bun/install/cache"@), "cache"@);
    } else if i == 6 {
        lemma_entry_6_is_other(h);
        lemma_not_own(h, paths::below(h, ".cache/uv"@), "uv"@);
    } else if i == 7 {
        lemma_entry_7_is_other(h);
        lemma_not_own(h, paths::below(h, "Library/Caches/pip"@), "pip"@);
    } else if i == 8 {
        lemma_entry_8_is_other(h);
        lemma_not_own(h, paths::below(h, ".cargo/registry"@), "registry"@);
    } else if i == 9 {
        lemma_entry_9_is_other(h);
        lemma_not_own(h, paths::below(h, ".konan"@), ".konan"@);
    } else if i == 10 {
        lemma_entry_10_is_other(h);
        lemma_not_own(h, paths::below(h, ".gradle/caches"@), "caches"@);
    } else if i == 11 {
        lemma_entry_11_is_other(h);
        lemma_not_own(h, paths::below(h, ".gradle/wrapper/dists"@), "dists"@);
    } else if i == 12 {
        lemma_entry_12_is_other(h);
        lemma_not_own(h, paths::below(h, ".m2/repository"@), "repository"@);
    } else if i == 13 {
        lemma_entry_13_is_other(h);
        lemma_not_own(h, paths::below(h, "Library/Developer/Xcode/DerivedData"@), "DerivedData"@);
    } else if i == 14 {
        lemma_entry_14_is_other(h);
        lemma_not_own(h, paths::below(h, "Library/Developer/Xcode/iOS DeviceSupport"@), "iOS DeviceSupport"@);
    } else if i == 15 {
        lemma_entry_15_is_other(h);
        lemma_not_own(h, paths::below(h, "Library/Caches/org.swift.swiftpm"@), "org.swift.swiftpm"@);
    } else if i == 16 {
        lemma_entry_16_is_other(h);
        lemma_not_own(h, paths::below(h, "Library/Caches/Homebrew"@), "Homebrew"@);
    } else if i == 17 {
        lemma_entry_17_is_other(h);
        lemma_not_own(h, paths::below(h, "Library/Caches/JetBrains"@), "JetBrains"@);
    } else if i == 18 {
        lemma_entry_18_is_other(h);
        lemma_not_own(h, paths::below(h, "Library/Caches/ms-playwright"@), "ms-playwright"@);
    } else if i == 19 {
        lemma_entry_19_is_other(h);
        lemma_not_own(h, paths::below(h, "Library/Caches/Google"@), "Google"@);
    } else if i == 20 {
        lemma_entry_20_is_other(h);
        lemma_not_own(h, paths::below(h, "Library/Caches/com.tinyspeck.slackmacgap.ShipIt"@), "com.tinyspeck.slackmacgap.ShipIt"@);
    }
}

/// The components of a declared path.
pub open spec fn declared_place() -> spec_fn(Declared) -> Seq<Seq<char>> {
    |d: Declared| paths::components(d.2)
}

/// Where a curated target that empties a directory stands among the declarations.
proof fn lemma_curated_is_declared(m: Machine, i: int) -> (k: int)
    requires
        0 <= i < curated(m).len(),
        curated(m)[i].action is RemoveContents || curated(m)[i].action is RemoveDir,
    ensures
        4 <= i < 8,
        k == (if i == 7 {
            13int
        } else {
            i + 14
        }),
        0 <= k < cleanable_on(m).len(),
        curated(m)[i].action == cleanup::ActionRow::RemoveContents(cleanable_on(m)[k].2),
{
    lemma_curated_row(m, i);
    let h = text::text_opt(m.home)->0;
    let g = go_cache_at(h, text::text_opt(m.go_cache));
    assert(cleanable_on(m) == cleanable_table(h, g));
    assert(curated(m)[i] == usual_targets(h, g)[i]);
    if i == 7 {
        13
    } else {
        if i == 4 {
        } else if i == 5 {
        } else {
            assert(i == 6);
        }
        i + 14
    }
}

/// No path has two targets that empty it. It takes declarations that are themselves apart.
pub proof fn law_no_path_is_emptied_twice(
    r: Seq<Target>,
    front: Seq<Target>,
    declared: Seq<Cleanable>,
    m: Machine,
    is_dir: Seq<bool>,
    i: int,
    j: int,
)
    requires
        listed_as(r, front, declared, m, is_dir),
        order::apart(cleanable_on(m), declared_place()),
        0 <= i < j < r.len(),
        emptied(r[i].does()) is Some,
        emptied(r[j].does()) is Some,
    ensures
        !paths::same_path(emptied(r[i].does())->0, emptied(r[j].does())->0),
{
    let n = front.len() as int;
    let keep = cleanup::is_offered(front);
    let kept = declared.filter(keep);
    let table = cleanable_on(m);
    let place = |c: Cleanable| paths::components(c.path@);
    if j < n {
        assert(r[i] == front[i] && r[j] == front[j]);
        assert(cleanup::target_rows(front)[i] == front[i]@);
        assert(cleanup::target_rows(front)[j] == front[j]@);
        let a = lemma_curated_is_declared(m, i);
        let b = lemma_curated_is_declared(m, j);
        if a < b {
            assert(declared_place()(table[a]) != declared_place()(table[b]));
        } else {
            assert(declared_place()(table[b]) != declared_place()(table[a]));
        }
    } else {
        let y = j - n;
        assert(is_row_for(r[n + y], kept[y]));
        assert(kept.contains(kept[y]));
        declared.lemma_filter_contains_rev(keep, kept[y]);
        assert(keep(kept[y])) by {
            declared.lemma_filter_pred(keep, y);
        }
        if i < n {
            assert(r[i] == front[i]);
        } else {
            let x = i - n;
            assert(is_row_for(r[n + x], kept[x]));
            assert forall|p: int, q: int| 0 <= p < q < declared.len() implies place(
                #[trigger] declared[p],
            ) != place(#[trigger] declared[q]) by {
                assert(declared_place()(table[p]) != declared_place()(table[q]));
            }
            order::lemma_filtered_apart(declared, keep, place);
            assert(place(kept[x]) != place(kept[y]));
        }
    }
}

} // verus!
