//! No two rules claim one path.
use vstd::prelude::*;
use crate::disk::platform::{
    agent_tooling_rows,
    android_rows,
    apps_rows,
    audit_table,
    cloud_clis_rows,
    containers_rows,
    editors_rows,
    go_rows,
    gradle_rows,
    haskell_rows,
    homebrew_rows,
    kotlin_native_rows,
    lean_rows,
    node_js_rows,
    ocaml_rows,
    personal_rows,
    python_rows,
    rules_in,
    rules_of,
    rust_rows,
    xcode_rows,
    Row,
    Tool,
};
use crate::order;
use crate::paths;

verus! {

/// A path that comes from outside: the Go build cache, or a directory of the assistant.
pub open spec fn is_given(h: Seq<char>, g: Seq<char>, a: Tool, p: Seq<char>) -> bool {
    ||| p == g
    ||| p == paths::below(h, "."@ + a.slug)
    ||| p == paths::below(h, "."@ + a.slug + "-science"@)
    ||| p == paths::below(h, "Library/Application Support/"@ + a.title)
}

/// The path of a rule, by its components: two texts that name one directory are one path.
pub open spec fn rule_path() -> spec_fn((Seq<char>, Seq<char>, Seq<char>)) -> Seq<Seq<char>> {
    |r: (Seq<char>, Seq<char>, Seq<char>)| paths::components(r.2)
}

/// What comes from outside is claimed by one rule only.
pub open spec fn given_are_apart(h: Seq<char>, g: Seq<char>, a: Tool) -> bool {
    let rules = rules_of(audit_table(h, g, a));
    forall|i: int, j: int|
        0 <= i < rules.len() && 0 <= j < rules.len() && i != j && is_given(
            h,
            g,
            a,
            (#[trigger] rules[i]).2,
        ) ==> !paths::same_path(rules[i].2, (#[trigger] rules[j]).2)
}

/// What a path holds after the home directory.
spec fn tail(h: Seq<char>, p: Seq<char>) -> Seq<char> {
    if h.len() == 0 || h.last() == '/' {
        p.skip(h.len() as int)
    } else {
        p.skip(h.len() as int + 1)
    }
}

/// The place of a directory in the table: its category's, times ten, and its own.
/// Its length and two of its letters tell it from every other.
#[verifier::opaque]
spec fn place(t: Seq<char>) -> int {
    let n = t.len() as int;
    let x = t[n - 2];
    let y = t[n - 3];
    if n == 3 {
        if x == 'd' && y == 's' {
            3
        } else if x == 'm' && y == '.' {
            81
        } else {
            -1
        }
    } else if n == 4 {
        if x == 'v' && y == 'n' {
            10
        } else if x == 'p' && y == 'n' {
            11
        } else if x == 'u' && y == 'b' {
            14
        } else {
            -1
        }
    } else if n == 5 {
        if x == 'n' && y == 'e' {
            15
        } else if x == 'a' && y == 'p' {
            50
        } else if x == 'a' && y == 'l' {
            60
        } else if x == 'm' && y == 'i' {
            124
        } else {
            -1
        }
    } else if n == 6 {
        if x == 'r' && y == 's' {
            0
        } else if x == 'k' && y == 'p' {
            1
        } else if x == 'i' && y == 'b' {
            2
        } else if x == 'n' && y == 'e' {
            21
        } else if x == 'g' && y == 'r' {
            31
        } else if x == 'u' && y == 'c' {
            40
        } else if x == 'a' && y == 'b' {
            41
        } else if x == 'c' && y == 'a' {
            42
        } else if x == 'a' && y == 'n' {
            70
        } else if x == 'a' && y == 'c' {
            161
        } else {
            -1
        }
    } else if n == 7 {
        if x == 'u' && y == 't' {
            30
        } else if x == 'l' && y == 'd' {
            80
        } else if x == 'e' && y == 'k' {
            121
        } else if x == 'm' && y == 'i' {
            123
        } else if x == 'd' && y == 'o' {
            131
        } else if x == 'o' && y == 's' {
            132
        } else if x == 'o' && y == 't' {
            173
        } else {
            -1
        }
    } else if n == 8 {
        if x == 'i' && y == 'o' {
            91
        } else if x == 'e' && y == 'l' {
            172
        } else {
            -1
        }
    } else if n == 9 {
        if x == 'u' && y == '/' {
            20
        } else if x == 'c' && y == 'a' {
            122
        } else if x == 'd' && y == 'a' {
            170
        } else if x == 't' && y == 'n' {
            171
        } else {
            -1
        }
    } else if n == 12 {
        if x == 'p' && y == 'n' {
            12
        } else if x == 'v' && y == 'a' {
            90
        } else {
            -1
        }
    } else if n == 16 {
        160
    } else if n == 18 {
        22
    } else if n == 19 {
        13
    } else if n == 21 {
        151
    } else if n == 23 {
        111
    } else if n == 24 {
        if x == 't' && y == 'r' {
            5
        } else if x == 'n' && y == 'i' {
            134
        } else {
            -1
        }
    } else if n == 28 {
        143
    } else if n == 31 {
        101
    } else if n == 32 {
        if x == 'e' && y == 'v' {
            102
        } else if x == 'p' && y == 't' {
            104
        } else if x == 'd' && y == 'o' {
            130
        } else if x == 'c' && y == 'm' {
            144
        } else {
            -1
        }
    } else if n == 33 {
        152
    } else if n == 34 {
        150
    } else if n == 35 {
        if x == 't' && y == 'a' {
            100
        } else if x == 'r' && y == 'o' {
            154
        } else {
            -1
        }
    } else if n == 37 {
        133
    } else if n == 41 {
        if x == 'r' && y == 'o' {
            103
        } else if x == 't' && y == 'a' {
            120
        } else {
            -1
        }
    } else if n == 47 {
        153
    } else if n == 59 {
        155
    } else {
        -1
    }
}

/// Every path of a category comes from outside, or is where it is alone.
#[verifier::opaque]
spec fn are_placed(h: Seq<char>, g: Seq<char>, a: Tool, c: int, listed: Seq<Row>) -> bool {
    &&& listed.len() <= 10
    &&& forall|i: int|
        0 <= i < listed.len() ==> is_placed(h, g, a, 10 * c + i, (#[trigger] listed[i]).1)
}

spec fn is_placed(h: Seq<char>, g: Seq<char>, a: Tool, k: int, p: Seq<char>) -> bool {
    ||| is_given(h, g, a, p)
    ||| (p == "/opt/homebrew"@ && k == 110)
    ||| (k != 110 && is_below(h, p) && place(tail(h, p)) == k)
}

/// A plain path below the home directory that does not end in Homebrew's own component.
spec fn is_below(h: Seq<char>, p: Seq<char>) -> bool {
    let t = tail(h, p);
    &&& paths::is_plain(t)
    &&& p == paths::below(h, t)
    &&& t.last() != 'w' || t[t.len() - 8] != 'h'
}

proof fn lemma_placed(h: Seq<char>, g: Seq<char>, a: Tool, k: int, rel: Seq<char>)
    requires
        paths::is_plain(rel),
        rel.last() != 'w' || rel[rel.len() - 8] != 'h',
        k != 110,
        place(rel) == k,
    ensures
        is_placed(h, g, a, k, paths::below(h, rel)),
{
    let p = paths::below(h, rel);
    assert(rel[0] != '/');
    assert(tail(h, p) =~= rel);
}

/// Homebrew's own directory is none of the plain ones below the home directory.
proof fn lemma_not_homebrew(h: Seq<char>, p: Seq<char>)
    requires
        is_below(h, p),
    ensures
        !paths::same_path(p, "/opt/homebrew"@),
{
    reveal_strlit("/opt/homebrew");
    reveal_strlit("/opt");
    reveal_strlit("homebrew");
    let t = tail(h, p);
    paths::lemma_plain_end(h, t);
    assert(paths::below("/opt"@, "homebrew"@) =~= "/opt/homebrew"@);
    paths::lemma_plain_end("/opt"@, "homebrew"@);
    paths::lemma_last_component("/opt"@, "homebrew"@);
    if paths::same_path(p, "/opt/homebrew"@) {
        let w = paths::components(p).last();
        assert(w == "homebrew"@);
        assert(w[7] == t.last());
        assert(w[0] == t[t.len() - 8]);
    }
}

proof fn lemma_go_placed(h: Seq<char>, g: Seq<char>, a: Tool)
    ensures
        are_placed(h, g, a, 0, go_rows(h, g)),
{
    reveal(go_rows);
    reveal(are_placed);
    reveal(place);
    reveal_strlit("go/src");
    lemma_placed(h, g, a, 0, "go/src"@);
    reveal_strlit("go/pkg");
    lemma_placed(h, g, a, 1, "go/pkg"@);
    reveal_strlit("go/bin");
    lemma_placed(h, g, a, 2, "go/bin"@);
    reveal_strlit("sdk");
    lemma_placed(h, g, a, 3, "sdk"@);
    reveal_strlit("Library/Caches/goimports");
    lemma_placed(h, g, a, 5, "Library/Caches/goimports"@);
}

proof fn lemma_node_js_placed(h: Seq<char>, g: Seq<char>, a: Tool)
    ensures
        are_placed(h, g, a, 1, node_js_rows(h, g)),
{
    reveal(node_js_rows);
    reveal(are_placed);
    reveal(place);
    reveal_strlit(".nvm");
    lemma_placed(h, g, a, 10, ".nvm"@);
    reveal_strlit(".npm");
    lemma_placed(h, g, a, 11, ".npm"@);
    reveal_strlit("Library/pnpm");
    lemma_placed(h, g, a, 12, "Library/pnpm"@);
    reveal_strlit("Library/Caches/pnpm");
    lemma_placed(h, g, a, 13, "Library/Caches/pnpm"@);
    reveal_strlit(".bun");
    lemma_placed(h, g, a, 14, ".bun"@);
    reveal_strlit(".deno");
    lemma_placed(h, g, a, 15, ".deno"@);
}

proof fn lemma_python_placed(h: Seq<char>, g: Seq<char>, a: Tool)
    ensures
        are_placed(h, g, a, 2, python_rows(h, g)),
{
    reveal(python_rows);
    reveal(are_placed);
    reveal(place);
    reveal_strlit(".cache/uv");
    lemma_placed(h, g, a, 20, ".cache/uv"@);
    reveal_strlit(".pyenv");
    lemma_placed(h, g, a, 21, ".pyenv"@);
    reveal_strlit("Library/Caches/pip");
    lemma_placed(h, g, a, 22, "Library/Caches/pip"@);
}

proof fn lemma_rust_placed(h: Seq<char>, g: Seq<char>, a: Tool)
    ensures
        are_placed(h, g, a, 3, rust_rows(h, g)),
{
    reveal(rust_rows);
    reveal(are_placed);
    reveal(place);
    reveal_strlit(".rustup");
    lemma_placed(h, g, a, 30, ".rustup"@);
    reveal_strlit(".cargo");
    lemma_placed(h, g, a, 31, ".cargo"@);
}

proof fn lemma_haskell_placed(h: Seq<char>, g: Seq<char>, a: Tool)
    ensures
        are_placed(h, g, a, 4, haskell_rows(h, g)),
{
    reveal(haskell_rows);
    reveal(are_placed);
    reveal(place);
    reveal_strlit(".ghcup");
    lemma_placed(h, g, a, 40, ".ghcup"@);
    reveal_strlit(".cabal");
    lemma_placed(h, g, a, 41, ".cabal"@);
    reveal_strlit(".stack");
    lemma_placed(h, g, a, 42, ".stack"@);
}

proof fn lemma_ocaml_placed(h: Seq<char>, g: Seq<char>, a: Tool)
    ensures
        are_placed(h, g, a, 5, ocaml_rows(h, g)),
{
    reveal(ocaml_rows);
    reveal(are_placed);
    reveal(place);
    reveal_strlit(".opam");
    lemma_placed(h, g, a, 50, ".opam"@);
}

proof fn lemma_lean_placed(h: Seq<char>, g: Seq<char>, a: Tool)
    ensures
        are_placed(h, g, a, 6, lean_rows(h, g)),
{
    reveal(lean_rows);
    reveal(are_placed);
    reveal(place);
    reveal_strlit(".elan");
    lemma_placed(h, g, a, 60, ".elan"@);
}

proof fn lemma_kotlin_native_placed(h: Seq<char>, g: Seq<char>, a: Tool)
    ensures
        are_placed(h, g, a, 7, kotlin_native_rows(h, g)),
{
    reveal(kotlin_native_rows);
    reveal(are_placed);
    reveal(place);
    reveal_strlit(".konan");
    lemma_placed(h, g, a, 70, ".konan"@);
}

proof fn lemma_gradle_placed(h: Seq<char>, g: Seq<char>, a: Tool)
    ensures
        are_placed(h, g, a, 8, gradle_rows(h, g)),
{
    reveal(gradle_rows);
    reveal(are_placed);
    reveal(place);
    reveal_strlit(".gradle");
    lemma_placed(h, g, a, 80, ".gradle"@);
    reveal_strlit(".m2");
    lemma_placed(h, g, a, 81, ".m2"@);
}

proof fn lemma_android_placed(h: Seq<char>, g: Seq<char>, a: Tool)
    ensures
        are_placed(h, g, a, 9, android_rows(h, g)),
{
    reveal(android_rows);
    reveal(are_placed);
    reveal(place);
    reveal_strlit(".android/avd");
    lemma_placed(h, g, a, 90, ".android/avd"@);
    reveal_strlit(".android");
    lemma_placed(h, g, a, 91, ".android"@);
}

proof fn lemma_xcode_placed(h: Seq<char>, g: Seq<char>, a: Tool)
    ensures
        are_placed(h, g, a, 10, xcode_rows(h, g)),
{
    reveal(xcode_rows);
    reveal(are_placed);
    reveal(place);
    reveal_strlit("Library/Developer/Xcode/DerivedData");
    lemma_placed(h, g, a, 100, "Library/Developer/Xcode/DerivedData"@);
    reveal_strlit("Library/Developer/CoreSimulator");
    lemma_placed(h, g, a, 101, "Library/Developer/CoreSimulator"@);
    reveal_strlit("Library/Developer/Xcode/Archives");
    lemma_placed(h, g, a, 102, "Library/Developer/Xcode/Archives"@);
    reveal_strlit("Library/Developer/Xcode/iOS DeviceSupport");
    lemma_placed(h, g, a, 103, "Library/Developer/Xcode/iOS DeviceSupport"@);
    reveal_strlit("Library/Caches/org.swift.swiftpm");
    lemma_placed(h, g, a, 104, "Library/Caches/org.swift.swiftpm"@);
}

proof fn lemma_homebrew_placed(h: Seq<char>, g: Seq<char>, a: Tool)
    ensures
        are_placed(h, g, a, 11, homebrew_rows(h, g)),
{
    reveal(homebrew_rows);
    reveal(are_placed);
    reveal(place);
    reveal_strlit("Library/Caches/Homebrew");
    lemma_placed(h, g, a, 111, "Library/Caches/Homebrew"@);
}

proof fn lemma_containers_placed(h: Seq<char>, g: Seq<char>, a: Tool)
    ensures
        are_placed(h, g, a, 12, containers_rows(h, g)),
{
    reveal(containers_rows);
    reveal(are_placed);
    reveal(place);
    reveal_strlit("Library/Containers/com.docker.docker/Data");
    lemma_placed(h, g, a, 120, "Library/Containers/com.docker.docker/Data"@);
    reveal_strlit(".docker");
    lemma_placed(h, g, a, 121, ".docker"@);
    reveal_strlit(".orbstack");
    lemma_placed(h, g, a, 122, ".orbstack"@);
    reveal_strlit(".colima");
    lemma_placed(h, g, a, 123, ".colima"@);
    reveal_strlit(".lima");
    lemma_placed(h, g, a, 124, ".lima"@);
}

proof fn lemma_editors_placed(h: Seq<char>, g: Seq<char>, a: Tool)
    ensures
        are_placed(h, g, a, 13, editors_rows(h, g)),
{
    reveal(editors_rows);
    reveal(are_placed);
    reveal(place);
    reveal_strlit("Library/Application Support/Code");
    lemma_placed(h, g, a, 130, "Library/Application Support/Code"@);
    reveal_strlit(".vscode");
    lemma_placed(h, g, a, 131, ".vscode"@);
    reveal_strlit(".cursor");
    lemma_placed(h, g, a, 132, ".cursor"@);
    reveal_strlit("Library/Application Support/JetBrains");
    lemma_placed(h, g, a, 133, "Library/Application Support/JetBrains"@);
    reveal_strlit("Library/Caches/JetBrains");
    lemma_placed(h, g, a, 134, "Library/Caches/JetBrains"@);
}

proof fn lemma_agent_tooling_placed(h: Seq<char>, g: Seq<char>, a: Tool)
    ensures
        are_placed(h, g, a, 14, agent_tooling_rows(h, a)),
{
    reveal(agent_tooling_rows);
    reveal(are_placed);
    reveal(place);
    reveal_strlit("Library/Caches/ms-playwright");
    lemma_placed(h, g, a, 143, "Library/Caches/ms-playwright"@);
    reveal_strlit("Library/Caches/ms-playwright-mcp");
    lemma_placed(h, g, a, 144, "Library/Caches/ms-playwright-mcp"@);
}

proof fn lemma_apps_placed(h: Seq<char>, g: Seq<char>, a: Tool)
    ensures
        are_placed(h, g, a, 15, apps_rows(h, g)),
{
    reveal(apps_rows);
    reveal(are_placed);
    reveal(place);
    reveal_strlit("Library/Application Support/Google");
    lemma_placed(h, g, a, 150, "Library/Application Support/Google"@);
    reveal_strlit("Library/Caches/Google");
    lemma_placed(h, g, a, 151, "Library/Caches/Google"@);
    reveal_strlit("Library/Application Support/Slack");
    lemma_placed(h, g, a, 152, "Library/Application Support/Slack"@);
    reveal_strlit("Library/Caches/com.tinyspeck.slackmacgap.ShipIt");
    lemma_placed(h, g, a, 153, "Library/Caches/com.tinyspeck.slackmacgap.ShipIt"@);
    reveal_strlit("Library/Application Support/discord");
    lemma_placed(h, g, a, 154, "Library/Application Support/discord"@);
    reveal_strlit("Library/Group Containers/group.net.whatsapp.WhatsApp.shared");
    lemma_placed(h, g, a, 155, "Library/Group Containers/group.net.whatsapp.WhatsApp.shared"@);
}

proof fn lemma_cloud_clis_placed(h: Seq<char>, g: Seq<char>, a: Tool)
    ensures
        are_placed(h, g, a, 16, cloud_clis_rows(h, g)),
{
    reveal(cloud_clis_rows);
    reveal(are_placed);
    reveal(place);
    reveal_strlit("google-cloud-sdk");
    lemma_placed(h, g, a, 160, "google-cloud-sdk"@);
    reveal_strlit(".local");
    lemma_placed(h, g, a, 161, ".local"@);
}

proof fn lemma_personal_placed(h: Seq<char>, g: Seq<char>, a: Tool)
    ensures
        are_placed(h, g, a, 17, personal_rows(h, g)),
{
    reveal(personal_rows);
    reveal(are_placed);
    reveal(place);
    reveal_strlit("Downloads");
    lemma_placed(h, g, a, 170, "Downloads"@);
    reveal_strlit("Documents");
    lemma_placed(h, g, a, 171, "Documents"@);
    reveal_strlit("dotfiles");
    lemma_placed(h, g, a, 172, "dotfiles"@);
    reveal_strlit("Desktop");
    lemma_placed(h, g, a, 173, "Desktop"@);
}

proof fn lemma_table_placed(h: Seq<char>, g: Seq<char>, a: Tool, c: int)
    requires
        0 <= c < audit_table(h, g, a).len(),
    ensures
        are_placed(h, g, a, c, audit_table(h, g, a)[c].1),
{
    if c == 0 {
        lemma_go_placed(h, g, a);
    } else if c == 1 {
        lemma_node_js_placed(h, g, a);
    } else if c == 2 {
        lemma_python_placed(h, g, a);
    } else if c == 3 {
        lemma_rust_placed(h, g, a);
    } else if c == 4 {
        lemma_haskell_placed(h, g, a);
    } else if c == 5 {
        lemma_ocaml_placed(h, g, a);
    } else if c == 6 {
        lemma_lean_placed(h, g, a);
    } else if c == 7 {
        lemma_kotlin_native_placed(h, g, a);
    } else if c == 8 {
        lemma_gradle_placed(h, g, a);
    } else if c == 9 {
        lemma_android_placed(h, g, a);
    } else if c == 10 {
        lemma_xcode_placed(h, g, a);
    } else if c == 11 {
        lemma_homebrew_placed(h, g, a);
    } else if c == 12 {
        lemma_containers_placed(h, g, a);
    } else if c == 13 {
        lemma_editors_placed(h, g, a);
    } else if c == 14 {
        lemma_agent_tooling_placed(h, g, a);
    } else if c == 15 {
        lemma_apps_placed(h, g, a);
    } else if c == 16 {
        lemma_cloud_clis_placed(h, g, a);
    } else if c == 17 {
        lemma_personal_placed(h, g, a);
    }
}

/// Where a rule stands in its table.
proof fn lemma_rule_source(table: Seq<(Seq<char>, Seq<Row>)>, k: int) -> (r: (int, int))
    requires
        0 <= k < rules_of(table).len(),
    ensures
        0 <= r.0 < table.len(),
        0 <= r.1 < table[r.0].1.len(),
        rules_of(table)[k].2 == table[r.0].1[r.1].1,
        k == rules_of(table.take(r.0)).len() + r.1,
    decreases table.len(),
{
    let n = table.len() - 1;
    let front = table.drop_last();
    assert(table.take(n) =~= front);
    if k < rules_of(front).len() {
        let r = lemma_rule_source(front, k);
        assert(front.take(r.0) =~= table.take(r.0));
        r
    } else {
        let i = k - rules_of(front).len();
        assert(rules_of(table)[k] == rules_in(table.last().0, table.last().1)[i]);
        (n, i)
    }
}

/// No two rules claim one path, so none of them stays at zero for good. It takes a Go
/// build cache and an assistant whose directories are not another rule's.
pub proof fn law_no_two_rules_claim_the_same_path(h: Seq<char>, g: Seq<char>, a: Tool)
    requires
        given_are_apart(h, g, a),
    ensures
        order::apart(rules_of(audit_table(h, g, a)), rule_path()),
{
    let table = audit_table(h, g, a);
    let rules = rules_of(table);
    assert forall|j: int, k: int| 0 <= j < k < rules.len() implies rule_path()(#[trigger] rules[j])
        != rule_path()(#[trigger] rules[k]) by {
        let (c, x) = lemma_rule_source(table, j);
        let (d, y) = lemma_rule_source(table, k);
        lemma_table_placed(h, g, a, c);
        lemma_table_placed(h, g, a, d);
        reveal(are_placed);
        let p = table[c].1[x].1;
        let q = table[d].1[y].1;
        assert(is_placed(h, g, a, 10 * c + x, p));
        assert(is_placed(h, g, a, 10 * d + y, q));
        if !is_given(h, g, a, p) && !is_given(h, g, a, q) && paths::same_path(p, q) {
            if is_below(h, p) {
                lemma_not_homebrew(h, p);
            }
            if is_below(h, q) {
                lemma_not_homebrew(h, q);
            }
            if is_below(h, p) && is_below(h, q) {
                paths::lemma_plain_apart(h, tail(h, p), tail(h, q));
            }
            assert(10 * c + x == 10 * d + y);
            assert(c == d && x == y);
        }
    }
}

} // verus!
