//! The paths that have a name on a macOS workstation, and which of them may be
//! emptied.
use vstd::prelude::*;
use crate::disk::cleanup;
use crate::disk::cleanup::{
    emptied,
    is_row_for,
    CleanAction,
    Cleanable,
    Measure,
    Size,
    Target,
};
use crate::disk::sweep::Rule;
use crate::paths;
use crate::text;
use crate::text::texts;

verus! {

/// A label with its path, in mathematical terms.
pub type Row = (Seq<char>, Seq<char>);

/// The labels with their paths.
pub open spec fn rows(v: Seq<(String, String)>) -> Seq<Row> {
    Seq::new(v.len(), |i: int| (v[i].0@, v[i].1@))
}

fn at(label: &str, home: &str, rel: &str) -> (r: (String, String))
    ensures
        (r.0@, r.1@) == (label@, paths::below(home@, rel@)),
{
    (label.to_owned(), paths::join(home, rel))
}

fn fixed(label: &str, path: &str) -> (r: (String, String))
    ensures
        (r.0@, r.1@) == (label@, path@),
{
    (label.to_owned(), path.to_owned())
}

/// The system that the machine runs.
#[derive(Debug, Clone, Copy, PartialEq, Eq, Structural)]
pub enum System {
    MacOs,
    Other,
}

/// The home directory that paths are named under. Only a Mac has any that are named.
pub open spec fn home_on(system: System, home: Option<Seq<char>>) -> Option<Seq<char>> {
    if system == System::MacOs {
        home
    } else {
        None
    }
}

/// What goes by the name "Go".
#[verifier::opaque]
pub open spec fn go_rows(h: Seq<char>, g: Seq<char>) -> Seq<Row> {
    seq![
        ("Source (~/go/src)"@, paths::below(h, "go/src"@)),
        ("Packages (~/go/pkg)"@, paths::below(h, "go/pkg"@)),
        ("Binaries (~/go/bin)"@, paths::below(h, "go/bin"@)),
        ("Toolchains (~/sdk)"@, paths::below(h, "sdk"@)),
        ("Build cache"@, g),
        ("goimports cache"@, paths::below(h, "Library/Caches/goimports"@)),
    ]
}

fn go_paths(home: &str, go_cache: &str) -> (r: Vec<(String, String)>)
    ensures
        rows(r@) == go_rows(home@, go_cache@),
{
    let v: Vec<(String, String)> = vec![
        at("Source (~/go/src)", home, "go/src"),
        at("Packages (~/go/pkg)", home, "go/pkg"),
        at("Binaries (~/go/bin)", home, "go/bin"),
        at("Toolchains (~/sdk)", home, "sdk"),
        fixed("Build cache", go_cache),
        at("goimports cache", home, "Library/Caches/goimports"),
    ];
    reveal(go_rows);
    assert(rows(v@) =~= go_rows(home@, go_cache@));
    v
}

/// What goes by the name "Node.js".
#[verifier::opaque]
pub open spec fn node_js_rows(h: Seq<char>, g: Seq<char>) -> Seq<Row> {
    seq![
        ("nvm"@, paths::below(h, ".nvm"@)),
        ("npm cache"@, paths::below(h, ".npm"@)),
        ("pnpm"@, paths::below(h, "Library/pnpm"@)),
        ("pnpm cache"@, paths::below(h, "Library/Caches/pnpm"@)),
        ("bun"@, paths::below(h, ".bun"@)),
        ("deno"@, paths::below(h, ".deno"@)),
    ]
}

fn node_js_paths(home: &str, go_cache: &str) -> (r: Vec<(String, String)>)
    ensures
        rows(r@) == node_js_rows(home@, go_cache@),
{
    let v: Vec<(String, String)> = vec![
        at("nvm", home, ".nvm"),
        at("npm cache", home, ".npm"),
        at("pnpm", home, "Library/pnpm"),
        at("pnpm cache", home, "Library/Caches/pnpm"),
        at("bun", home, ".bun"),
        at("deno", home, ".deno"),
    ];
    reveal(node_js_rows);
    assert(rows(v@) =~= node_js_rows(home@, go_cache@));
    v
}

/// What goes by the name "Python".
#[verifier::opaque]
pub open spec fn python_rows(h: Seq<char>, g: Seq<char>) -> Seq<Row> {
    seq![
        ("uv cache"@, paths::below(h, ".cache/uv"@)),
        ("pyenv"@, paths::below(h, ".pyenv"@)),
        ("pip cache"@, paths::below(h, "Library/Caches/pip"@)),
    ]
}

fn python_paths(home: &str, go_cache: &str) -> (r: Vec<(String, String)>)
    ensures
        rows(r@) == python_rows(home@, go_cache@),
{
    let v: Vec<(String, String)> = vec![
        at("uv cache", home, ".cache/uv"),
        at("pyenv", home, ".pyenv"),
        at("pip cache", home, "Library/Caches/pip"),
    ];
    reveal(python_rows);
    assert(rows(v@) =~= python_rows(home@, go_cache@));
    v
}

/// What goes by the name "Rust".
#[verifier::opaque]
pub open spec fn rust_rows(h: Seq<char>, g: Seq<char>) -> Seq<Row> {
    seq![
        ("rustup"@, paths::below(h, ".rustup"@)),
        ("cargo"@, paths::below(h, ".cargo"@)),
    ]
}

fn rust_paths(home: &str, go_cache: &str) -> (r: Vec<(String, String)>)
    ensures
        rows(r@) == rust_rows(home@, go_cache@),
{
    let v: Vec<(String, String)> = vec![
        at("rustup", home, ".rustup"),
        at("cargo", home, ".cargo"),
    ];
    reveal(rust_rows);
    assert(rows(v@) =~= rust_rows(home@, go_cache@));
    v
}

/// What goes by the name "Haskell".
#[verifier::opaque]
pub open spec fn haskell_rows(h: Seq<char>, g: Seq<char>) -> Seq<Row> {
    seq![
        ("ghcup"@, paths::below(h, ".ghcup"@)),
        ("cabal"@, paths::below(h, ".cabal"@)),
        ("stack"@, paths::below(h, ".stack"@)),
    ]
}

fn haskell_paths(home: &str, go_cache: &str) -> (r: Vec<(String, String)>)
    ensures
        rows(r@) == haskell_rows(home@, go_cache@),
{
    let v: Vec<(String, String)> = vec![
        at("ghcup", home, ".ghcup"),
        at("cabal", home, ".cabal"),
        at("stack", home, ".stack"),
    ];
    reveal(haskell_rows);
    assert(rows(v@) =~= haskell_rows(home@, go_cache@));
    v
}

/// What goes by the name "OCaml".
#[verifier::opaque]
pub open spec fn ocaml_rows(h: Seq<char>, g: Seq<char>) -> Seq<Row> {
    seq![
        ("opam"@, paths::below(h, ".opam"@)),
    ]
}

fn ocaml_paths(home: &str, go_cache: &str) -> (r: Vec<(String, String)>)
    ensures
        rows(r@) == ocaml_rows(home@, go_cache@),
{
    let v: Vec<(String, String)> = vec![
        at("opam", home, ".opam"),
    ];
    reveal(ocaml_rows);
    assert(rows(v@) =~= ocaml_rows(home@, go_cache@));
    v
}

/// What goes by the name "Lean".
#[verifier::opaque]
pub open spec fn lean_rows(h: Seq<char>, g: Seq<char>) -> Seq<Row> {
    seq![
        ("elan"@, paths::below(h, ".elan"@)),
    ]
}

fn lean_paths(home: &str, go_cache: &str) -> (r: Vec<(String, String)>)
    ensures
        rows(r@) == lean_rows(home@, go_cache@),
{
    let v: Vec<(String, String)> = vec![
        at("elan", home, ".elan"),
    ];
    reveal(lean_rows);
    assert(rows(v@) =~= lean_rows(home@, go_cache@));
    v
}

/// What goes by the name "Kotlin/Native".
#[verifier::opaque]
pub open spec fn kotlin_native_rows(h: Seq<char>, g: Seq<char>) -> Seq<Row> {
    seq![
        ("konan"@, paths::below(h, ".konan"@)),
    ]
}

fn kotlin_native_paths(home: &str, go_cache: &str) -> (r: Vec<(String, String)>)
    ensures
        rows(r@) == kotlin_native_rows(home@, go_cache@),
{
    let v: Vec<(String, String)> = vec![
        at("konan", home, ".konan"),
    ];
    reveal(kotlin_native_rows);
    assert(rows(v@) =~= kotlin_native_rows(home@, go_cache@));
    v
}

/// What goes by the name "Gradle".
#[verifier::opaque]
pub open spec fn gradle_rows(h: Seq<char>, g: Seq<char>) -> Seq<Row> {
    seq![
        ("gradle"@, paths::below(h, ".gradle"@)),
        ("maven"@, paths::below(h, ".m2"@)),
    ]
}

fn gradle_paths(home: &str, go_cache: &str) -> (r: Vec<(String, String)>)
    ensures
        rows(r@) == gradle_rows(home@, go_cache@),
{
    let v: Vec<(String, String)> = vec![
        at("gradle", home, ".gradle"),
        at("maven", home, ".m2"),
    ];
    reveal(gradle_rows);
    assert(rows(v@) =~= gradle_rows(home@, go_cache@));
    v
}

/// What goes by the name "Android".
#[verifier::opaque]
pub open spec fn android_rows(h: Seq<char>, g: Seq<char>) -> Seq<Row> {
    seq![
        ("Emulator images"@, paths::below(h, ".android/avd"@)),
        ("SDK state"@, paths::below(h, ".android"@)),
    ]
}

fn android_paths(home: &str, go_cache: &str) -> (r: Vec<(String, String)>)
    ensures
        rows(r@) == android_rows(home@, go_cache@),
{
    let v: Vec<(String, String)> = vec![
        at("Emulator images", home, ".android/avd"),
        at("SDK state", home, ".android"),
    ];
    reveal(android_rows);
    assert(rows(v@) =~= android_rows(home@, go_cache@));
    v
}

/// What goes by the name "Xcode".
#[verifier::opaque]
pub open spec fn xcode_rows(h: Seq<char>, g: Seq<char>) -> Seq<Row> {
    seq![
        ("DerivedData"@, paths::below(h, "Library/Developer/Xcode/DerivedData"@)),
        ("Simulators"@, paths::below(h, "Library/Developer/CoreSimulator"@)),
        ("Archives"@, paths::below(h, "Library/Developer/Xcode/Archives"@)),
        ("Device support"@, paths::below(h, "Library/Developer/Xcode/iOS DeviceSupport"@)),
        ("SwiftPM cache"@, paths::below(h, "Library/Caches/org.swift.swiftpm"@)),
    ]
}

fn xcode_paths(home: &str, go_cache: &str) -> (r: Vec<(String, String)>)
    ensures
        rows(r@) == xcode_rows(home@, go_cache@),
{
    let v: Vec<(String, String)> = vec![
        at("DerivedData", home, "Library/Developer/Xcode/DerivedData"),
        at("Simulators", home, "Library/Developer/CoreSimulator"),
        at("Archives", home, "Library/Developer/Xcode/Archives"),
        at("Device support", home, "Library/Developer/Xcode/iOS DeviceSupport"),
        at("SwiftPM cache", home, "Library/Caches/org.swift.swiftpm"),
    ];
    reveal(xcode_rows);
    assert(rows(v@) =~= xcode_rows(home@, go_cache@));
    v
}

/// What goes by the name "Homebrew".
#[verifier::opaque]
pub open spec fn homebrew_rows(h: Seq<char>, g: Seq<char>) -> Seq<Row> {
    seq![
        ("Installation"@, "/opt/homebrew"@),
        ("Cache"@, paths::below(h, "Library/Caches/Homebrew"@)),
    ]
}

fn homebrew_paths(home: &str, go_cache: &str) -> (r: Vec<(String, String)>)
    ensures
        rows(r@) == homebrew_rows(home@, go_cache@),
{
    let v: Vec<(String, String)> = vec![
        fixed("Installation", "/opt/homebrew"),
        at("Cache", home, "Library/Caches/Homebrew"),
    ];
    reveal(homebrew_rows);
    assert(rows(v@) =~= homebrew_rows(home@, go_cache@));
    v
}

/// What goes by the name "Containers".
#[verifier::opaque]
pub open spec fn containers_rows(h: Seq<char>, g: Seq<char>) -> Seq<Row> {
    seq![
        ("Docker data"@, paths::below(h, "Library/Containers/com.docker.docker/Data"@)),
        ("Docker config"@, paths::below(h, ".docker"@)),
        ("OrbStack"@, paths::below(h, ".orbstack"@)),
        ("colima"@, paths::below(h, ".colima"@)),
        ("lima"@, paths::below(h, ".lima"@)),
    ]
}

fn containers_paths(home: &str, go_cache: &str) -> (r: Vec<(String, String)>)
    ensures
        rows(r@) == containers_rows(home@, go_cache@),
{
    let v: Vec<(String, String)> = vec![
        at("Docker data", home, "Library/Containers/com.docker.docker/Data"),
        at("Docker config", home, ".docker"),
        at("OrbStack", home, ".orbstack"),
        at("colima", home, ".colima"),
        at("lima", home, ".lima"),
    ];
    reveal(containers_rows);
    assert(rows(v@) =~= containers_rows(home@, go_cache@));
    v
}

/// What goes by the name "Editors".
#[verifier::opaque]
pub open spec fn editors_rows(h: Seq<char>, g: Seq<char>) -> Seq<Row> {
    seq![
        ("VS Code"@, paths::below(h, "Library/Application Support/Code"@)),
        ("VS Code extensions"@, paths::below(h, ".vscode"@)),
        ("Cursor"@, paths::below(h, ".cursor"@)),
        ("JetBrains"@, paths::below(h, "Library/Application Support/JetBrains"@)),
        ("JetBrains cache"@, paths::below(h, "Library/Caches/JetBrains"@)),
    ]
}

fn editors_paths(home: &str, go_cache: &str) -> (r: Vec<(String, String)>)
    ensures
        rows(r@) == editors_rows(home@, go_cache@),
{
    let v: Vec<(String, String)> = vec![
        at("VS Code", home, "Library/Application Support/Code"),
        at("VS Code extensions", home, ".vscode"),
        at("Cursor", home, ".cursor"),
        at("JetBrains", home, "Library/Application Support/JetBrains"),
        at("JetBrains cache", home, "Library/Caches/JetBrains"),
    ];
    reveal(editors_rows);
    assert(rows(v@) =~= editors_rows(home@, go_cache@));
    v
}

/// How a coding assistant goes by: in titles, and in the names of its directories.
#[derive(Debug)]
pub struct Assistant {
    pub title: String,
    pub slug: String,
}

/// How an assistant goes by, in mathematical terms.
pub struct Tool {
    pub title: Seq<char>,
    pub slug: Seq<char>,
}

impl View for Assistant {
    type V = Tool;

    open spec fn view(&self) -> Tool {
        Tool { title: self.title@, slug: self.slug@ }
    }
}

/// What goes by the name "Agent tooling".
#[verifier::opaque]
pub open spec fn agent_tooling_rows(h: Seq<char>, a: Tool) -> Seq<Row> {
    seq![
        (a.title + " Code"@, paths::below(h, "."@ + a.slug)),
        (a.title + " experiments"@, paths::below(h, "."@ + a.slug + "-science"@)),
        (a.title + " desktop"@, paths::below(h, "Library/Application Support/"@ + a.title)),
        ("Playwright browsers"@, paths::below(h, "Library/Caches/ms-playwright"@)),
        ("Playwright MCP"@, paths::below(h, "Library/Caches/ms-playwright-mcp"@)),
    ]
}

fn agent_tooling_paths(home: &str, assistant: &Assistant) -> (r: Vec<(String, String)>)
    ensures
        rows(r@) == agent_tooling_rows(home@, assistant@),
{
    let code = joined(&assistant.title, " Code");
    let experiments = joined(&assistant.title, " experiments");
    let desktop = joined(&assistant.title, " desktop");
    let dotted = joined(".", &assistant.slug);
    let science = joined(&dotted, "-science");
    let support = joined("Library/Application Support/", &assistant.title);
    let v: Vec<(String, String)> = vec![
        at(&code, home, &dotted),
        at(&experiments, home, &science),
        at(&desktop, home, &support),
        at("Playwright browsers", home, "Library/Caches/ms-playwright"),
        at("Playwright MCP", home, "Library/Caches/ms-playwright-mcp"),
    ];
    reveal(agent_tooling_rows);
    assert(rows(v@) =~= agent_tooling_rows(home@, assistant@));
    v
}

fn joined(front: &str, back: &str) -> (r: String)
    ensures
        r@ == front@ + back@,
{
    let mut out: String = front.to_owned();
    out.append(back);
    out
}

/// What goes by the name "Apps".
#[verifier::opaque]
pub open spec fn apps_rows(h: Seq<char>, g: Seq<char>) -> Seq<Row> {
    seq![
        ("Chrome"@, paths::below(h, "Library/Application Support/Google"@)),
        ("Chrome cache"@, paths::below(h, "Library/Caches/Google"@)),
        ("Slack"@, paths::below(h, "Library/Application Support/Slack"@)),
        ("Slack updates"@, paths::below(h, "Library/Caches/com.tinyspeck.slackmacgap.ShipIt"@)),
        ("Discord"@, paths::below(h, "Library/Application Support/discord"@)),
        ("WhatsApp"@, paths::below(h, "Library/Group Containers/group.net.whatsapp.WhatsApp.shared"@)),
    ]
}

fn apps_paths(home: &str, go_cache: &str) -> (r: Vec<(String, String)>)
    ensures
        rows(r@) == apps_rows(home@, go_cache@),
{
    let v: Vec<(String, String)> = vec![
        at("Chrome", home, "Library/Application Support/Google"),
        at("Chrome cache", home, "Library/Caches/Google"),
        at("Slack", home, "Library/Application Support/Slack"),
        at("Slack updates", home, "Library/Caches/com.tinyspeck.slackmacgap.ShipIt"),
        at("Discord", home, "Library/Application Support/discord"),
        at("WhatsApp", home, "Library/Group Containers/group.net.whatsapp.WhatsApp.shared"),
    ];
    reveal(apps_rows);
    assert(rows(v@) =~= apps_rows(home@, go_cache@));
    v
}

/// What goes by the name "Cloud CLIs".
#[verifier::opaque]
pub open spec fn cloud_clis_rows(h: Seq<char>, g: Seq<char>) -> Seq<Row> {
    seq![
        ("gcloud"@, paths::below(h, "google-cloud-sdk"@)),
        ("~/.local"@, paths::below(h, ".local"@)),
    ]
}

fn cloud_clis_paths(home: &str, go_cache: &str) -> (r: Vec<(String, String)>)
    ensures
        rows(r@) == cloud_clis_rows(home@, go_cache@),
{
    let v: Vec<(String, String)> = vec![
        at("gcloud", home, "google-cloud-sdk"),
        at("~/.local", home, ".local"),
    ];
    reveal(cloud_clis_rows);
    assert(rows(v@) =~= cloud_clis_rows(home@, go_cache@));
    v
}

/// What goes by the name "Personal".
#[verifier::opaque]
pub open spec fn personal_rows(h: Seq<char>, g: Seq<char>) -> Seq<Row> {
    seq![
        ("~/Downloads"@, paths::below(h, "Downloads"@)),
        ("~/Documents"@, paths::below(h, "Documents"@)),
        ("~/dotfiles"@, paths::below(h, "dotfiles"@)),
        ("~/Desktop"@, paths::below(h, "Desktop"@)),
    ]
}

fn personal_paths(home: &str, go_cache: &str) -> (r: Vec<(String, String)>)
    ensures
        rows(r@) == personal_rows(home@, go_cache@),
{
    let v: Vec<(String, String)> = vec![
        at("~/Downloads", home, "Downloads"),
        at("~/Documents", home, "Documents"),
        at("~/dotfiles", home, "dotfiles"),
        at("~/Desktop", home, "Desktop"),
    ];
    reveal(personal_rows);
    assert(rows(v@) =~= personal_rows(home@, go_cache@));
    v
}

/// Every category with its labels and paths.
pub open spec fn audit_table(h: Seq<char>, g: Seq<char>, a: Tool) -> Seq<(Seq<char>, Seq<Row>)> {
    seq![
        ("Go"@, go_rows(h, g)),
        ("Node.js"@, node_js_rows(h, g)),
        ("Python"@, python_rows(h, g)),
        ("Rust"@, rust_rows(h, g)),
        ("Haskell"@, haskell_rows(h, g)),
        ("OCaml"@, ocaml_rows(h, g)),
        ("Lean"@, lean_rows(h, g)),
        ("Kotlin/Native"@, kotlin_native_rows(h, g)),
        ("Gradle"@, gradle_rows(h, g)),
        ("Android"@, android_rows(h, g)),
        ("Xcode"@, xcode_rows(h, g)),
        ("Homebrew"@, homebrew_rows(h, g)),
        ("Containers"@, containers_rows(h, g)),
        ("Editors"@, editors_rows(h, g)),
        ("Agent tooling"@, agent_tooling_rows(h, a)),
        ("Apps"@, apps_rows(h, g)),
        ("Cloud CLIs"@, cloud_clis_rows(h, g)),
        ("Personal"@, personal_rows(h, g)),
    ]
}

/// Categories in mathematical terms.
pub open spec fn category_rows(v: Seq<(String, Vec<(String, String)>)>) -> Seq<
    (Seq<char>, Seq<Row>),
> {
    Seq::new(v.len(), |i: int| (v[i].0@, rows(v[i].1@)))
}

/// Where the Go build cache is when Go does not say otherwise.
pub open spec fn go_cache_at(h: Seq<char>, go_cache: Option<Seq<char>>) -> Seq<char> {
    match go_cache {
        Some(g) => g,
        None => paths::below(h, "Library/Caches/go-build"@),
    }
}

fn go_cache_path(home: &str, go_cache: &Option<String>) -> (r: String)
    ensures
        r@ == go_cache_at(home@, text::text_opt(*go_cache)),
{
    match go_cache {
        Some(g) => g.clone(),
        None => paths::join(home, "Library/Caches/go-build"),
    }
}

fn named(category: &str, v: Vec<(String, String)>) -> (r: (String, Vec<(String, String)>))
    ensures
        (r.0@, r.1@) == (category@, v@),
{
    (category.to_owned(), v)
}

/// The paths that get a category name. This decides what a byte is called, never
/// whether it is counted.
pub fn audit_categories(
    system: System,
    home: &Option<String>,
    go_cache: &Option<String>,
    assistant: &Assistant,
) -> (r: Vec<(String, Vec<(String, String)>)>)
    ensures
        category_rows(r@) == (match home_on(system, text::text_opt(*home)) {
            Some(h) => audit_table(h, go_cache_at(h, text::text_opt(*go_cache)), assistant@),
            None => Seq::empty(),
        }),
{
    let named_under: &Option<String> = if system == System::MacOs {
        home
    } else {
        &None
    };
    match named_under {
        None => {
            let v: Vec<(String, Vec<(String, String)>)> = Vec::new();
            assert(category_rows(v@) =~= Seq::<(Seq<char>, Seq<Row>)>::empty());
            v
        },
        Some(h) => {
            let g = go_cache_path(h, go_cache);
            let v: Vec<(String, Vec<(String, String)>)> = vec![
                named("Go", go_paths(h, &g)),
                named("Node.js", node_js_paths(h, &g)),
                named("Python", python_paths(h, &g)),
                named("Rust", rust_paths(h, &g)),
                named("Haskell", haskell_paths(h, &g)),
                named("OCaml", ocaml_paths(h, &g)),
                named("Lean", lean_paths(h, &g)),
                named("Kotlin/Native", kotlin_native_paths(h, &g)),
                named("Gradle", gradle_paths(h, &g)),
                named("Android", android_paths(h, &g)),
                named("Xcode", xcode_paths(h, &g)),
                named("Homebrew", homebrew_paths(h, &g)),
                named("Containers", containers_paths(h, &g)),
                named("Editors", editors_paths(h, &g)),
                named("Agent tooling", agent_tooling_paths(h, assistant)),
                named("Apps", apps_paths(h, &g)),
                named("Cloud CLIs", cloud_clis_paths(h, &g)),
                named("Personal", personal_paths(h, &g)),
            ];
            assert(category_rows(v@) =~= audit_table(h@, g@, assistant@));
            v
        },
    }
}

/// A rule, in mathematical terms.
pub open spec fn rule_rows(v: Seq<Rule>) -> Seq<(Seq<char>, Seq<char>, Seq<char>)> {
    Seq::new(v.len(), |i: int| (v[i].category@, v[i].label@, v[i].path@))
}

/// The rules of one category.
pub open spec fn rules_in(category: Seq<char>, v: Seq<Row>) -> Seq<
    (Seq<char>, Seq<char>, Seq<char>),
> {
    Seq::new(v.len(), |i: int| (category, v[i].0, v[i].1))
}

/// The rules of a list of categories.
pub open spec fn rules_of(table: Seq<(Seq<char>, Seq<Row>)>) -> Seq<
    (Seq<char>, Seq<char>, Seq<char>),
>
    decreases table.len(),
{
    if table.len() == 0 {
        Seq::empty()
    } else {
        rules_of(table.drop_last()) + rules_in(table.last().0, table.last().1)
    }
}

/// A rule for every path that has a name.
pub fn attribution_rules(
    system: System,
    home: &Option<String>,
    go_cache: &Option<String>,
    assistant: &Assistant,
) -> (r: Vec<Rule>)
    ensures
        rule_rows(r@) == rules_of(
            match home_on(system, text::text_opt(*home)) {
                Some(h) => audit_table(h, go_cache_at(h, text::text_opt(*go_cache)), assistant@),
                None => Seq::empty(),
            },
        ),
{
    let table = audit_categories(system, home, go_cache, assistant);
    let ghost all = category_rows(table@);
    let mut out: Vec<Rule> = Vec::new();
    assert(rule_rows(out@) =~= rules_of(all.take(0)));
    for i in 0..table.len()
        invariant
            all == category_rows(table@),
            rule_rows(out@) == rules_of(all.take(i as int)),
    {
        assert(all.take(i + 1).drop_last() =~= all.take(i as int));
        let ghost before = rule_rows(out@);
        let category = &table[i].0;
        let listed = &table[i].1;
        let ghost more = rules_in(category@, rows(listed@));
        assert(before + more.take(0) =~= before);
        for j in 0..listed.len()
            invariant
                more == rules_in(category@, rows(listed@)),
                rule_rows(out@) == before + more.take(j as int),
        {
            let ghost now = rule_rows(out@);
            let rule = Rule {
                category: category.clone(),
                label: listed[j].0.clone(),
                path: listed[j].1.clone(),
            };
            let ghost row = (rule.category@, rule.label@, rule.path@);
            out.push(rule);
            assert(rule_rows(out@) =~= now.push(row));
            assert(before + more.take(j + 1) =~= now.push(row));
        }
        assert(more.take(more.len() as int) =~= more);
    }
    assert(all.take(all.len() as int) =~= all);
    out
}

/// A declared path: its category, its label, and where it is.
pub type Declared = (Seq<char>, Seq<char>, Seq<char>);

/// Every path that may be emptied. It qualifies only when what it holds is derived
/// and comes back on its own.
pub open spec fn cleanable_table(h: Seq<char>, g: Seq<char>) -> Seq<Declared> {
    seq![
        ("Go"@, "Packages (~/go/pkg)"@, paths::below(h, "go/pkg"@)),
        ("Go"@, "Build cache"@, g),
        ("Go"@, "goimports cache"@, paths::below(h, "Library/Caches/goimports"@)),
        ("Node.js"@, "npm cache"@, paths::below(h, ".npm"@)),
        ("Node.js"@, "pnpm cache"@, paths::below(h, "Library/Caches/pnpm"@)),
        ("Node.js"@, "bun package cache"@, paths::below(h, ".bun/install/cache"@)),
        ("Python"@, "uv cache"@, paths::below(h, ".cache/uv"@)),
        ("Python"@, "pip cache"@, paths::below(h, "Library/Caches/pip"@)),
        ("Rust"@, "cargo registry"@, paths::below(h, ".cargo/registry"@)),
        ("Kotlin/Native"@, "konan"@, paths::below(h, ".konan"@)),
        ("Gradle"@, "gradle caches"@, paths::below(h, ".gradle/caches"@)),
        ("Gradle"@, "gradle wrapper dists"@, paths::below(h, ".gradle/wrapper/dists"@)),
        ("Gradle"@, "maven repository"@, paths::below(h, ".m2/repository"@)),
        ("Xcode"@, "DerivedData"@, paths::below(h, "Library/Developer/Xcode/DerivedData"@)),
        ("Xcode"@, "Device support"@, paths::below(h, "Library/Developer/Xcode/iOS DeviceSupport"@)),
        ("Xcode"@, "SwiftPM cache"@, paths::below(h, "Library/Caches/org.swift.swiftpm"@)),
        ("Homebrew"@, "Cache"@, paths::below(h, "Library/Caches/Homebrew"@)),
        ("Editors"@, "JetBrains cache"@, paths::below(h, "Library/Caches/JetBrains"@)),
        ("Agent tooling"@, "Playwright browsers"@, paths::below(h, "Library/Caches/ms-playwright"@)),
        ("Apps"@, "Chrome cache"@, paths::below(h, "Library/Caches/Google"@)),
        ("Apps"@, "Slack updates"@, paths::below(h, "Library/Caches/com.tinyspeck.slackmacgap.ShipIt"@)),
    ]
}

/// Declared paths, in mathematical terms.
pub open spec fn declared_rows(v: Seq<(String, String, String)>) -> Seq<Declared> {
    Seq::new(v.len(), |i: int| (v[i].0@, v[i].1@, v[i].2@))
}

fn declare(category: &str, label: &str, path: String) -> (r: (String, String, String))
    ensures
        (r.0@, r.1@, r.2@) == (category@, label@, path@),
{
    (category.to_owned(), label.to_owned(), path)
}

/// The paths the cleanup screen is allowed to empty. Accounting and deletion are
/// different questions, so they get different lists.
pub fn cleanable_paths(
    system: System,
    home: &Option<String>,
    go_cache: &Option<String>,
) -> (r: Vec<(String, String, String)>)
    ensures
        declared_rows(r@) == (match home_on(system, text::text_opt(*home)) {
            Some(h) => cleanable_table(h, go_cache_at(h, text::text_opt(*go_cache))),
            None => Seq::empty(),
        }),
{
    let named_under: &Option<String> = if system == System::MacOs {
        home
    } else {
        &None
    };
    match named_under {
        None => {
            let v: Vec<(String, String, String)> = Vec::new();
            assert(declared_rows(v@) =~= Seq::<Declared>::empty());
            v
        },
        Some(h) => {
            let g = go_cache_path(h, go_cache);
            let v: Vec<(String, String, String)> = vec![
                declare("Go", "Packages (~/go/pkg)", paths::join(h, "go/pkg")),
                declare("Go", "Build cache", g.clone()),
                declare("Go", "goimports cache", paths::join(h, "Library/Caches/goimports")),
                declare("Node.js", "npm cache", paths::join(h, ".npm")),
                declare("Node.js", "pnpm cache", paths::join(h, "Library/Caches/pnpm")),
                declare("Node.js", "bun package cache", paths::join(h, ".bun/install/cache")),
                declare("Python", "uv cache", paths::join(h, ".cache/uv")),
                declare("Python", "pip cache", paths::join(h, "Library/Caches/pip")),
                declare("Rust", "cargo registry", paths::join(h, ".cargo/registry")),
                declare("Kotlin/Native", "konan", paths::join(h, ".konan")),
                declare("Gradle", "gradle caches", paths::join(h, ".gradle/caches")),
                declare("Gradle", "gradle wrapper dists", paths::join(h, ".gradle/wrapper/dists")),
                declare("Gradle", "maven repository", paths::join(h, ".m2/repository")),
                declare("Xcode", "DerivedData", paths::join(h, "Library/Developer/Xcode/DerivedData")),
                declare("Xcode", "Device support", paths::join(h, "Library/Developer/Xcode/iOS DeviceSupport")),
                declare("Xcode", "SwiftPM cache", paths::join(h, "Library/Caches/org.swift.swiftpm")),
                declare("Homebrew", "Cache", paths::join(h, "Library/Caches/Homebrew")),
                declare("Editors", "JetBrains cache", paths::join(h, "Library/Caches/JetBrains")),
                declare("Agent tooling", "Playwright browsers", paths::join(h, "Library/Caches/ms-playwright")),
                declare("Apps", "Chrome cache", paths::join(h, "Library/Caches/Google")),
                declare("Apps", "Slack updates", paths::join(h, "Library/Caches/com.tinyspeck.slackmacgap.ShipIt")),
            ];
            assert(declared_rows(v@) =~= cleanable_table(h@, g@));
            v
        },
    }
}

/// A path lies at or under one of a category.
#[verifier::opaque]
pub open spec fn is_listed(listed: Seq<Row>, p: Seq<char>) -> bool {
    exists|i: int| 0 <= i < listed.len() && paths::is_under(p, (#[trigger] listed[i]).1)
}

/// A path lies at or under one that is accounted for.
#[verifier::opaque]
pub open spec fn is_accounted(h: Seq<char>, g: Seq<char>, a: Tool, p: Seq<char>) -> bool {
    exists|c: int|
        0 <= c < audit_table(h, g, a).len() && is_listed((#[trigger] audit_table(h, g, a)[c]).1, p)
}

proof fn lemma_listed(listed: Seq<Row>, i: int, p: Seq<char>)
    requires
        0 <= i < listed.len(),
        paths::is_under(p, listed[i].1),
    ensures
        is_listed(listed, p),
{
    reveal(is_listed);
}

proof fn lemma_go_is_audited(h: Seq<char>, g: Seq<char>, a: Tool, p: Seq<char>)
    requires
        is_listed(go_rows(h, g), p),
    ensures
        is_accounted(h, g, a, p),
{
    reveal(is_accounted);
    assert(audit_table(h, g, a)[0].1 == go_rows(h, g));
}

proof fn lemma_go_accounts(h: Seq<char>, g: Seq<char>)
    ensures
        is_listed(go_rows(h, g), paths::below(h, "go/pkg"@)),
        is_listed(go_rows(h, g), g),
        is_listed(go_rows(h, g), paths::below(h, "Library/Caches/goimports"@)),
{
    reveal(go_rows);
    let listed = go_rows(h, g);
    paths::lemma_is_under_itself(paths::below(h, "go/pkg"@));
    lemma_listed(listed, 1, paths::below(h, "go/pkg"@));
    paths::lemma_is_under_itself(g);
    lemma_listed(listed, 4, g);
    paths::lemma_is_under_itself(paths::below(h, "Library/Caches/goimports"@));
    lemma_listed(listed, 5, paths::below(h, "Library/Caches/goimports"@));
}

proof fn lemma_node_js_is_audited(h: Seq<char>, g: Seq<char>, a: Tool, p: Seq<char>)
    requires
        is_listed(node_js_rows(h, g), p),
    ensures
        is_accounted(h, g, a, p),
{
    reveal(is_accounted);
    assert(audit_table(h, g, a)[1].1 == node_js_rows(h, g));
}

proof fn lemma_node_js_accounts(h: Seq<char>, g: Seq<char>)
    ensures
        is_listed(node_js_rows(h, g), paths::below(h, ".npm"@)),
        is_listed(node_js_rows(h, g), paths::below(h, "Library/Caches/pnpm"@)),
        is_listed(node_js_rows(h, g), paths::below(h, ".bun/install/cache"@)),
{
    reveal(node_js_rows);
    let listed = node_js_rows(h, g);
    paths::lemma_is_under_itself(paths::below(h, ".npm"@));
    lemma_listed(listed, 1, paths::below(h, ".npm"@));
    paths::lemma_is_under_itself(paths::below(h, "Library/Caches/pnpm"@));
    lemma_listed(listed, 3, paths::below(h, "Library/Caches/pnpm"@));
    reveal_strlit(".bun/install/cache");
    reveal_strlit(".bun");
    reveal_strlit("install/cache");
    assert(".bun/install/cache"@ =~= ".bun"@.push('/') + "install/cache"@);
    paths::lemma_deeper_is_under(h, ".bun"@, "install/cache"@);
    lemma_listed(listed, 4, paths::below(h, ".bun/install/cache"@));
}

proof fn lemma_python_is_audited(h: Seq<char>, g: Seq<char>, a: Tool, p: Seq<char>)
    requires
        is_listed(python_rows(h, g), p),
    ensures
        is_accounted(h, g, a, p),
{
    reveal(is_accounted);
    assert(audit_table(h, g, a)[2].1 == python_rows(h, g));
}

proof fn lemma_python_accounts(h: Seq<char>, g: Seq<char>)
    ensures
        is_listed(python_rows(h, g), paths::below(h, ".cache/uv"@)),
        is_listed(python_rows(h, g), paths::below(h, "Library/Caches/pip"@)),
{
    reveal(python_rows);
    let listed = python_rows(h, g);
    paths::lemma_is_under_itself(paths::below(h, ".cache/uv"@));
    lemma_listed(listed, 0, paths::below(h, ".cache/uv"@));
    paths::lemma_is_under_itself(paths::below(h, "Library/Caches/pip"@));
    lemma_listed(listed, 2, paths::below(h, "Library/Caches/pip"@));
}

proof fn lemma_rust_is_audited(h: Seq<char>, g: Seq<char>, a: Tool, p: Seq<char>)
    requires
        is_listed(rust_rows(h, g), p),
    ensures
        is_accounted(h, g, a, p),
{
    reveal(is_accounted);
    assert(audit_table(h, g, a)[3].1 == rust_rows(h, g));
}

proof fn lemma_rust_accounts(h: Seq<char>, g: Seq<char>)
    ensures
        is_listed(rust_rows(h, g), paths::below(h, ".cargo/registry"@)),
{
    reveal(rust_rows);
    let listed = rust_rows(h, g);
    reveal_strlit(".cargo/registry");
    reveal_strlit(".cargo");
    reveal_strlit("registry");
    assert(".cargo/registry"@ =~= ".cargo"@.push('/') + "registry"@);
    paths::lemma_deeper_is_under(h, ".cargo"@, "registry"@);
    lemma_listed(listed, 1, paths::below(h, ".cargo/registry"@));
}

proof fn lemma_kotlin_native_is_audited(h: Seq<char>, g: Seq<char>, a: Tool, p: Seq<char>)
    requires
        is_listed(kotlin_native_rows(h, g), p),
    ensures
        is_accounted(h, g, a, p),
{
    reveal(is_accounted);
    assert(audit_table(h, g, a)[7].1 == kotlin_native_rows(h, g));
}

proof fn lemma_kotlin_native_accounts(h: Seq<char>, g: Seq<char>)
    ensures
        is_listed(kotlin_native_rows(h, g), paths::below(h, ".konan"@)),
{
    reveal(kotlin_native_rows);
    let listed = kotlin_native_rows(h, g);
    paths::lemma_is_under_itself(paths::below(h, ".konan"@));
    lemma_listed(listed, 0, paths::below(h, ".konan"@));
}

proof fn lemma_gradle_is_audited(h: Seq<char>, g: Seq<char>, a: Tool, p: Seq<char>)
    requires
        is_listed(gradle_rows(h, g), p),
    ensures
        is_accounted(h, g, a, p),
{
    reveal(is_accounted);
    assert(audit_table(h, g, a)[8].1 == gradle_rows(h, g));
}

proof fn lemma_gradle_accounts(h: Seq<char>, g: Seq<char>)
    ensures
        is_listed(gradle_rows(h, g), paths::below(h, ".gradle/caches"@)),
        is_listed(gradle_rows(h, g), paths::below(h, ".gradle/wrapper/dists"@)),
        is_listed(gradle_rows(h, g), paths::below(h, ".m2/repository"@)),
{
    reveal(gradle_rows);
    let listed = gradle_rows(h, g);
    reveal_strlit(".gradle/caches");
    reveal_strlit(".gradle");
    reveal_strlit("caches");
    assert(".gradle/caches"@ =~= ".gradle"@.push('/') + "caches"@);
    paths::lemma_deeper_is_under(h, ".gradle"@, "caches"@);
    lemma_listed(listed, 0, paths::below(h, ".gradle/caches"@));
    reveal_strlit(".gradle/wrapper/dists");
    reveal_strlit(".gradle");
    reveal_strlit("wrapper/dists");
    assert(".gradle/wrapper/dists"@ =~= ".gradle"@.push('/') + "wrapper/dists"@);
    paths::lemma_deeper_is_under(h, ".gradle"@, "wrapper/dists"@);
    lemma_listed(listed, 0, paths::below(h, ".gradle/wrapper/dists"@));
    reveal_strlit(".m2/repository");
    reveal_strlit(".m2");
    reveal_strlit("repository");
    assert(".m2/repository"@ =~= ".m2"@.push('/') + "repository"@);
    paths::lemma_deeper_is_under(h, ".m2"@, "repository"@);
    lemma_listed(listed, 1, paths::below(h, ".m2/repository"@));
}

proof fn lemma_xcode_is_audited(h: Seq<char>, g: Seq<char>, a: Tool, p: Seq<char>)
    requires
        is_listed(xcode_rows(h, g), p),
    ensures
        is_accounted(h, g, a, p),
{
    reveal(is_accounted);
    assert(audit_table(h, g, a)[10].1 == xcode_rows(h, g));
}

proof fn lemma_xcode_accounts(h: Seq<char>, g: Seq<char>)
    ensures
        is_listed(xcode_rows(h, g), paths::below(h, "Library/Developer/Xcode/DerivedData"@)),
        is_listed(xcode_rows(h, g), paths::below(h, "Library/Developer/Xcode/iOS DeviceSupport"@)),
        is_listed(xcode_rows(h, g), paths::below(h, "Library/Caches/org.swift.swiftpm"@)),
{
    reveal(xcode_rows);
    let listed = xcode_rows(h, g);
    paths::lemma_is_under_itself(paths::below(h, "Library/Developer/Xcode/DerivedData"@));
    lemma_listed(listed, 0, paths::below(h, "Library/Developer/Xcode/DerivedData"@));
    paths::lemma_is_under_itself(paths::below(h, "Library/Developer/Xcode/iOS DeviceSupport"@));
    lemma_listed(listed, 3, paths::below(h, "Library/Developer/Xcode/iOS DeviceSupport"@));
    paths::lemma_is_under_itself(paths::below(h, "Library/Caches/org.swift.swiftpm"@));
    lemma_listed(listed, 4, paths::below(h, "Library/Caches/org.swift.swiftpm"@));
}

proof fn lemma_homebrew_is_audited(h: Seq<char>, g: Seq<char>, a: Tool, p: Seq<char>)
    requires
        is_listed(homebrew_rows(h, g), p),
    ensures
        is_accounted(h, g, a, p),
{
    reveal(is_accounted);
    assert(audit_table(h, g, a)[11].1 == homebrew_rows(h, g));
}

proof fn lemma_homebrew_accounts(h: Seq<char>, g: Seq<char>)
    ensures
        is_listed(homebrew_rows(h, g), paths::below(h, "Library/Caches/Homebrew"@)),
{
    reveal(homebrew_rows);
    let listed = homebrew_rows(h, g);
    paths::lemma_is_under_itself(paths::below(h, "Library/Caches/Homebrew"@));
    lemma_listed(listed, 1, paths::below(h, "Library/Caches/Homebrew"@));
}

proof fn lemma_editors_is_audited(h: Seq<char>, g: Seq<char>, a: Tool, p: Seq<char>)
    requires
        is_listed(editors_rows(h, g), p),
    ensures
        is_accounted(h, g, a, p),
{
    reveal(is_accounted);
    assert(audit_table(h, g, a)[13].1 == editors_rows(h, g));
}

proof fn lemma_editors_accounts(h: Seq<char>, g: Seq<char>)
    ensures
        is_listed(editors_rows(h, g), paths::below(h, "Library/Caches/JetBrains"@)),
{
    reveal(editors_rows);
    let listed = editors_rows(h, g);
    paths::lemma_is_under_itself(paths::below(h, "Library/Caches/JetBrains"@));
    lemma_listed(listed, 4, paths::below(h, "Library/Caches/JetBrains"@));
}

proof fn lemma_agent_tooling_is_audited(h: Seq<char>, g: Seq<char>, a: Tool, p: Seq<char>)
    requires
        is_listed(agent_tooling_rows(h, a), p),
    ensures
        is_accounted(h, g, a, p),
{
    reveal(is_accounted);
    assert(audit_table(h, g, a)[14].1 == agent_tooling_rows(h, a));
}

proof fn lemma_agent_tooling_accounts(h: Seq<char>, a: Tool)
    ensures
        is_listed(agent_tooling_rows(h, a), paths::below(h, "Library/Caches/ms-playwright"@)),
{
    reveal(agent_tooling_rows);
    let listed = agent_tooling_rows(h, a);
    paths::lemma_is_under_itself(paths::below(h, "Library/Caches/ms-playwright"@));
    lemma_listed(listed, 3, paths::below(h, "Library/Caches/ms-playwright"@));
}

proof fn lemma_apps_is_audited(h: Seq<char>, g: Seq<char>, a: Tool, p: Seq<char>)
    requires
        is_listed(apps_rows(h, g), p),
    ensures
        is_accounted(h, g, a, p),
{
    reveal(is_accounted);
    assert(audit_table(h, g, a)[15].1 == apps_rows(h, g));
}

proof fn lemma_apps_accounts(h: Seq<char>, g: Seq<char>)
    ensures
        is_listed(apps_rows(h, g), paths::below(h, "Library/Caches/Google"@)),
        is_listed(apps_rows(h, g), paths::below(h, "Library/Caches/com.tinyspeck.slackmacgap.ShipIt"@)),
{
    reveal(apps_rows);
    let listed = apps_rows(h, g);
    paths::lemma_is_under_itself(paths::below(h, "Library/Caches/Google"@));
    lemma_listed(listed, 1, paths::below(h, "Library/Caches/Google"@));
    paths::lemma_is_under_itself(paths::below(h, "Library/Caches/com.tinyspeck.slackmacgap.ShipIt"@));
    lemma_listed(listed, 3, paths::below(h, "Library/Caches/com.tinyspeck.slackmacgap.ShipIt"@));
}

/// Every path that may be emptied is one the audit accounts for, so nothing can be
/// deleted while nothing explains where its bytes came from.
pub proof fn law_every_cleanable_path_is_accounted_for(
    h: Seq<char>,
    g: Seq<char>,
    a: Tool,
    k: int,
)
    requires
        0 <= k < cleanable_table(h, g).len(),
    ensures
        is_accounted(h, g, a, cleanable_table(h, g)[k].2),
{
    let p = cleanable_table(h, g)[k].2;
    if k == 0 || k == 1 || k == 2 {
        lemma_go_accounts(h, g);
        lemma_go_is_audited(h, g, a, p);
    } else if k == 3 || k == 4 || k == 5 {
        lemma_node_js_accounts(h, g);
        lemma_node_js_is_audited(h, g, a, p);
    } else if k == 6 || k == 7 {
        lemma_python_accounts(h, g);
        lemma_python_is_audited(h, g, a, p);
    } else if k == 8 {
        lemma_rust_accounts(h, g);
        lemma_rust_is_audited(h, g, a, p);
    } else if k == 9 {
        lemma_kotlin_native_accounts(h, g);
        lemma_kotlin_native_is_audited(h, g, a, p);
    } else if k == 10 || k == 11 || k == 12 {
        lemma_gradle_accounts(h, g);
        lemma_gradle_is_audited(h, g, a, p);
    } else if k == 13 || k == 14 || k == 15 {
        lemma_xcode_accounts(h, g);
        lemma_xcode_is_audited(h, g, a, p);
    } else if k == 16 {
        lemma_homebrew_accounts(h, g);
        lemma_homebrew_is_audited(h, g, a, p);
    } else if k == 17 {
        lemma_editors_accounts(h, g);
        lemma_editors_is_audited(h, g, a, p);
    } else if k == 18 {
        lemma_agent_tooling_accounts(h, a);
        lemma_agent_tooling_is_audited(h, g, a, p);
    } else if k == 19 || k == 20 {
        lemma_apps_accounts(h, g);
        lemma_apps_is_audited(h, g, a, p);
    }
}

/// What is known of the machine when the targets are listed.
#[derive(Debug)]
pub struct Machine {
    pub system: System,
    pub home: Option<String>,
    /// Where Go says its build cache is.
    pub go_cache: Option<String>,
    pub assistant: Assistant,
    pub has_xcrun: bool,
    pub has_docker: bool,
    /// The directory of session scratchpads, where there is one.
    pub scratch_dir: Option<String>,
    /// The bytes of the disk images in the downloads.
    pub dmg_bytes: u64,
}

/// How long a session has to be idle before its scratchpad goes.
pub const SCRATCH_IDLE_DAYS: u64 = 7;

/// A target that runs a command, with a tree to measure.
pub open spec fn measured_command(
    name: Seq<char>,
    description: Seq<char>,
    tree: Seq<char>,
    cmd: Seq<char>,
    args: Seq<Seq<char>>,
) -> cleanup::TargetRow {
    cleanup::TargetRow {
        name,
        description,
        size: Size::Counting(0),
        measure: cleanup::MeasureRow::Tree(tree),
        action: cleanup::ActionRow::RunCommand(cmd, args),
    }
}

/// A target that runs a command nothing can size up front.
pub open spec fn unsized_command(
    name: Seq<char>,
    description: Seq<char>,
    cmd: Seq<char>,
    args: Seq<Seq<char>>,
) -> cleanup::TargetRow {
    cleanup::TargetRow {
        name,
        description,
        size: Size::Unknown(0),
        measure: cleanup::MeasureRow::Nothing,
        action: cleanup::ActionRow::RunCommand(cmd, args),
    }
}

/// A target that empties a directory.
pub open spec fn emptied_tree(
    name: Seq<char>,
    description: Seq<char>,
    path: Seq<char>,
) -> cleanup::TargetRow {
    cleanup::TargetRow {
        name,
        description,
        size: Size::Counting(0),
        measure: cleanup::MeasureRow::Tree(path),
        action: cleanup::ActionRow::RemoveContents(path),
    }
}

/// The targets every machine has.
pub open spec fn usual_targets(h: Seq<char>, g: Seq<char>) -> Seq<cleanup::TargetRow> {
    seq![
        measured_command(
            "Homebrew cache"@,
            "Old bottles and stale downloads"@,
            paths::below(h, "Library/Caches/Homebrew"@),
            "brew"@,
            seq!["cleanup"@, "--prune=all"@],
        ),
        measured_command(
            "Go build cache"@,
            "Compiled build artifacts"@,
            g,
            "go"@,
            seq!["clean"@, "-cache"@],
        ),
        measured_command(
            "npm cache"@,
            "Package download cache"@,
            paths::below(h, ".npm/_cacache"@),
            "npm"@,
            seq!["cache"@, "clean"@, "--force"@],
        ),
        unsized_command(
            "pnpm store (unreferenced)"@,
            "Unreferenced packages in pnpm store"@,
            "pnpm"@,
            seq!["store"@, "prune"@],
        ),
        emptied_tree(
            "Playwright browsers"@,
            "Cached browser binaries for testing"@,
            paths::below(h, "Library/Caches/ms-playwright"@),
        ),
        emptied_tree(
            "Chrome cache"@,
            "Google Chrome browser cache"@,
            paths::below(h, "Library/Caches/Google"@),
        ),
        emptied_tree(
            "Slack update cache"@,
            "Slack auto-update downloads"@,
            paths::below(h, "Library/Caches/com.tinyspeck.slackmacgap.ShipIt"@),
        ),
        emptied_tree(
            "Xcode DerivedData"@,
            "Build artifacts from Xcode projects"@,
            paths::below(h, "Library/Developer/Xcode/DerivedData"@),
        ),
    ]
}

/// The targets of a machine with Xcode's tools.
pub open spec fn xcode_targets(has_xcrun: bool) -> Seq<cleanup::TargetRow> {
    if has_xcrun {
        seq![
            unsized_command(
                "Xcode stale simulators"@,
                "Unavailable simulator runtimes"@,
                "xcrun"@,
                seq!["simctl"@, "delete"@, "unavailable"@],
            ),
            unsized_command(
                "Simulator runtimes unused 180 days"@,
                "Whole iOS/tvOS/watchOS runtime images nothing has booted"@,
                "xcrun"@,
                seq!["simctl"@, "runtime"@, "delete"@, "--notUsedSinceDays"@, "180"@],
            ),
        ]
    } else {
        Seq::empty()
    }
}

/// The target for session scratchpads, where there are any.
pub open spec fn scratch_targets(title: Seq<char>, scratch: Option<Seq<char>>) -> Seq<cleanup::TargetRow> {
    match scratch {
        Some(dir) => seq![
            cleanup::TargetRow {
                name: title + " session scratchpads"@,
                description: "Scratch dirs from sessions idle over a week, live ones kept"@,
                size: Size::Counting(0),
                measure: cleanup::MeasureRow::IdleChildren {
                    dir,
                    idle_days: SCRATCH_IDLE_DAYS as int,
                },
                action: cleanup::ActionRow::RemoveIdleChildren {
                    dir,
                    idle_days: SCRATCH_IDLE_DAYS as int,
                },
            },
        ],
        None => Seq::empty(),
    }
}

/// The target of a machine with Docker.
pub open spec fn docker_targets(has_docker: bool) -> Seq<cleanup::TargetRow> {
    if has_docker {
        seq![
            unsized_command(
                "Docker unused data"@,
                "Dangling images, stopped containers, unused networks"@,
                "docker"@,
                seq!["system"@, "prune"@, "-f"@],
            ),
        ]
    } else {
        Seq::empty()
    }
}

/// The target for disk images among the downloads.
pub open spec fn dmg_target(h: Seq<char>, bytes: u64) -> cleanup::TargetRow {
    cleanup::TargetRow {
        name: "DMG installers"@,
        description: "Downloaded .dmg files in ~/Downloads"@,
        size: Size::Measured {
            bytes,
            denials: crate::disk::sweep::Denials { protected: 0, forbidden: 0, unattended: 0 },
        },
        measure: cleanup::MeasureRow::Nothing,
        action: cleanup::ActionRow::RemoveByExtension(paths::below(h, "Downloads"@), "dmg"@),
    }
}

/// The curated targets of a machine.
pub open spec fn curated(m: Machine) -> Seq<cleanup::TargetRow> {
    match home_on(m.system, text::text_opt(m.home)) {
        None => Seq::empty(),
        Some(h) => usual_targets(h, go_cache_at(h, text::text_opt(m.go_cache))) + xcode_targets(
            m.has_xcrun,
        ) + scratch_targets(m.assistant.title@, text::text_opt(m.scratch_dir)) + docker_targets(m.has_docker) + seq![
            dmg_target(h, m.dmg_bytes),
        ],
    }
}

fn command(cmd: &str, args: Vec<String>) -> (r: CleanAction)
    ensures
        r@ == cleanup::ActionRow::RunCommand(cmd@, texts(args@)),
{
    CleanAction::RunCommand(cmd.to_owned(), args)
}

fn words(a: &str, b: &str) -> (r: Vec<String>)
    ensures
        texts(r@) == seq![a@, b@],
{
    let v: Vec<String> = vec![a.to_owned(), b.to_owned()];
    assert(texts(v@) =~= seq![a@, b@]);
    v
}

fn words3(a: &str, b: &str, c: &str) -> (r: Vec<String>)
    ensures
        texts(r@) == seq![a@, b@, c@],
{
    let v: Vec<String> = vec![a.to_owned(), b.to_owned(), c.to_owned()];
    assert(texts(v@) =~= seq![a@, b@, c@]);
    v
}

fn empty_tree(name: &str, description: &str, home: &str, rel: &str) -> (r: Target)
    ensures
        r@ == emptied_tree(name@, description@, paths::below(home@, rel@)),
{
    let path = paths::join(home, rel);
    Target::pending(
        name,
        description,
        Measure::Tree(path.clone()),
        CleanAction::RemoveContents(path),
    )
}

fn usual(home: &str, go_cache: &str) -> (r: Vec<Target>)
    ensures
        cleanup::target_rows(r@) == usual_targets(home@, go_cache@),
{
    let v: Vec<Target> = vec![
        Target::pending(
            "Homebrew cache",
            "Old bottles and stale downloads",
            Measure::Tree(paths::join(home, "Library/Caches/Homebrew")),
            command("brew", words("cleanup", "--prune=all")),
        ),
        Target::pending(
            "Go build cache",
            "Compiled build artifacts",
            Measure::Tree(go_cache.to_owned()),
            command("go", words("clean", "-cache")),
        ),
        Target::pending(
            "npm cache",
            "Package download cache",
            Measure::Tree(paths::join(home, ".npm/_cacache")),
            command("npm", words3("cache", "clean", "--force")),
        ),
        Target::unknown(
            "pnpm store (unreferenced)",
            "Unreferenced packages in pnpm store",
            command("pnpm", words("store", "prune")),
        ),
        empty_tree(
            "Playwright browsers",
            "Cached browser binaries for testing",
            home,
            "Library/Caches/ms-playwright",
        ),
        empty_tree(
            "Chrome cache",
            "Google Chrome browser cache",
            home,
            "Library/Caches/Google",
        ),
        empty_tree(
            "Slack update cache",
            "Slack auto-update downloads",
            home,
            "Library/Caches/com.tinyspeck.slackmacgap.ShipIt",
        ),
        empty_tree(
            "Xcode DerivedData",
            "Build artifacts from Xcode projects",
            home,
            "Library/Developer/Xcode/DerivedData",
        ),
    ];
    assert(cleanup::target_rows(v@) =~= usual_targets(home@, go_cache@));
    v
}

fn simulators() -> (r: Vec<Target>)
    ensures
        cleanup::target_rows(r@) == xcode_targets(true),
{
    let args: Vec<String> = vec![
        "simctl".to_owned(),
        "runtime".to_owned(),
        "delete".to_owned(),
        "--notUsedSinceDays".to_owned(),
        "180".to_owned(),
    ];
    assert(texts(args@) =~= seq![
        "simctl"@,
        "runtime"@,
        "delete"@,
        "--notUsedSinceDays"@,
        "180"@,
    ]);
    let v: Vec<Target> = vec![
        Target::unknown(
            "Xcode stale simulators",
            "Unavailable simulator runtimes",
            command("xcrun", words3("simctl", "delete", "unavailable")),
        ),
        Target::unknown(
            "Simulator runtimes unused 180 days",
            "Whole iOS/tvOS/watchOS runtime images nothing has booted",
            command("xcrun", args),
        ),
    ];
    assert(cleanup::target_rows(v@) =~= xcode_targets(true));
    v
}

/// Appends targets to a list.
fn extend(targets: &mut Vec<Target>, more: Vec<Target>)
    ensures
        cleanup::target_rows(final(targets)@) == cleanup::target_rows(old(targets)@)
            + cleanup::target_rows(more@),
{
    let ghost a = targets@;
    let ghost b = more@;
    let mut rest = more;
    targets.append(&mut rest);
    assert(cleanup::target_rows(targets@) =~= cleanup::target_rows(a) + cleanup::target_rows(b));
}

/// The curated actions, listed without measuring any of them.
pub fn cleanup_targets(m: &Machine) -> (r: Vec<Target>)
    ensures
        cleanup::target_rows(r@) == curated(*m),
{
    let named_under: &Option<String> = if m.system == System::MacOs {
        &m.home
    } else {
        &None
    };
    let h: &String = match named_under {
        Some(h) => h,
        None => {
            let v: Vec<Target> = Vec::new();
            assert(cleanup::target_rows(v@) =~= Seq::<cleanup::TargetRow>::empty());
            return v;
        },
    };
    let g = go_cache_path(h, &m.go_cache);
    let mut targets = usual(h, &g);
    let ghost first = usual_targets(h@, g@);
    if m.has_xcrun {
        extend(&mut targets, simulators());
    }
    assert(cleanup::target_rows(targets@) =~= first + xcode_targets(m.has_xcrun));
    if let Some(scratch) = &m.scratch_dir {
        let name = joined(&m.assistant.title, " session scratchpads");
        let v: Vec<Target> = vec![
            Target::pending(
                &name,
                "Scratch dirs from sessions idle over a week, live ones kept",
                Measure::IdleChildren { dir: scratch.clone(), idle_days: SCRATCH_IDLE_DAYS },
                CleanAction::RemoveIdleChildren {
                    dir: scratch.clone(),
                    idle_days: SCRATCH_IDLE_DAYS,
                },
            ),
        ];
        assert(cleanup::target_rows(v@) =~= scratch_targets(m.assistant.title@, Some(scratch@)));
        extend(&mut targets, v);
    }
    let ghost second = first + xcode_targets(m.has_xcrun) + scratch_targets(
        m.assistant.title@,
        text::text_opt(m.scratch_dir),
    );
    assert(cleanup::target_rows(targets@) =~= second);
    if m.has_docker {
        let v: Vec<Target> = vec![
            Target::unknown(
                "Docker unused data",
                "Dangling images, stopped containers, unused networks",
                command("docker", words3("system", "prune", "-f")),
            ),
        ];
        assert(cleanup::target_rows(v@) =~= docker_targets(true));
        extend(&mut targets, v);
    }
    assert(cleanup::target_rows(targets@) =~= second + docker_targets(m.has_docker));
    let v: Vec<Target> = vec![
        Target::new(
            "DMG installers",
            "Downloaded .dmg files in ~/Downloads",
            m.dmg_bytes,
            CleanAction::RemoveByExtension(paths::join(h, "Downloads"), "dmg".to_owned()),
        ),
    ];
    assert(cleanup::target_rows(v@) =~= seq![dmg_target(h@, m.dmg_bytes)]);
    extend(&mut targets, v);
    targets
}

/// The directory of session scratchpads that an assistant keeps for the user that
/// `id -u` names.
pub fn scratch_path(assistant: &Assistant, uid: &str) -> (r: Option<String>)
    ensures
        text::text_opt(r) == (if text::trimmed(uid@).len() == 0 {
            None
        } else {
            Some("/private/tmp/"@ + assistant.slug@ + "-"@ + text::trimmed(uid@))
        }),
{
    let bare = text::trim(uid);
    if bare.as_str().is_empty() {
        return None;
    }
    let mut out: String = "/private/tmp/".to_owned();
    out.append(assistant.slug.as_str());
    out.append("-");
    out.append(bare.as_str());
    Some(out)
}

/// Where `go env GOCACHE` says the build cache is.
pub fn go_cache_dir(answer: &str) -> (r: Option<String>)
    ensures
        text::text_opt(r) == (if text::trimmed(answer@).len() == 0 {
            None
        } else {
            Some(text::trimmed(answer@))
        }),
{
    let bare = text::trim(answer);
    if bare.as_str().is_empty() {
        None
    } else {
        Some(bare)
    }
}

/// The declarations for a machine, the directories that are there marked by
/// position.
pub open spec fn declared_are(
    v: Seq<Cleanable>,
    table: Seq<Declared>,
    is_dir: Seq<bool>,
) -> bool {
    &&& v.len() == table.len()
    &&& forall|i: int|
        0 <= i < v.len() ==> {
            &&& (#[trigger] v[i]).category@ == table[i].0
            &&& v[i].label@ == table[i].1
            &&& v[i].path@ == table[i].2
            &&& v[i].is_dir == (i < is_dir.len() && is_dir[i])
        }
}

/// Everything that may be emptied on a machine.
pub open spec fn cleanable_on(m: Machine) -> Seq<Declared> {
    match home_on(m.system, text::text_opt(m.home)) {
        Some(h) => cleanable_table(h, go_cache_at(h, text::text_opt(m.go_cache))),
        None => Seq::empty(),
    }
}

fn declarations(m: &Machine, is_dir: &Vec<bool>) -> (r: Vec<Cleanable>)
    ensures
        declared_are(r@, cleanable_on(*m), is_dir@),
{
    let listed = cleanable_paths(m.system, &m.home, &m.go_cache);
    let ghost table = cleanable_on(*m);
    let mut out: Vec<Cleanable> = Vec::new();
    for i in 0..listed.len()
        invariant
            declared_rows(listed@) == table,
            out@.len() == i,
            forall|k: int|
                0 <= k < i ==> {
                    &&& (#[trigger] out@[k]).category@ == table[k].0
                    &&& out@[k].label@ == table[k].1
                    &&& out@[k].path@ == table[k].2
                    &&& out@[k].is_dir == (k < is_dir@.len() && is_dir@[k])
                },
    {
        assert(table[i as int] == (listed@[i as int].0@, listed@[i as int].1@, listed@[i as int].2@));
        let there: bool = i < is_dir.len() && is_dir[i];
        out.push(
            Cleanable {
                category: listed[i].0.clone(),
                label: listed[i].1.clone(),
                path: listed[i].2.clone(),
                is_dir: there,
            },
        );
    }
    out
}

/// The unified cleanup list, unmeasured: the curated targets, then a row for every
/// declared path that is there and that none of them empties. `is_dir` says by
/// position which of the declared paths are directories.
pub fn discover_all_targets(m: &Machine, is_dir: &Vec<bool>) -> (r: Vec<Target>)
    ensures
        exists|front: Seq<Target>, declared: Seq<Cleanable>|
            #[trigger] listed_as(r@, front, declared, *m, is_dir@),
{
    let mut targets = cleanup_targets(m);
    let ghost front = targets@;
    let declared = declarations(m, is_dir);
    cleanup::push_cleanable(&mut targets, &declared);
    assert(listed_as(targets@, front, declared@, *m, is_dir@));
    targets
}

/// A list of targets is the curated ones followed by the declared ones that are
/// offered.
pub open spec fn listed_as(
    r: Seq<Target>,
    front: Seq<Target>,
    declared: Seq<Cleanable>,
    m: Machine,
    is_dir: Seq<bool>,
) -> bool {
    let kept = declared.filter(cleanup::is_offered(front));
    let n = front.len() as int;
    &&& cleanup::target_rows(front) == curated(m)
    &&& declared_are(declared, cleanable_on(m), is_dir)
    &&& r.len() == n + kept.len()
    &&& forall|i: int| 0 <= i < n ==> r[i] == front[i]
    &&& forall|i: int| 0 <= i < kept.len() ==> is_row_for(#[trigger] r[n + i], kept[i])
}

/// What holds of every curated target: it is measured later if it has anything to
/// walk, and only the four that empty a cache empty a directory.
pub proof fn lemma_curated_row(m: Machine, i: int)
    requires
        0 <= i < curated(m).len(),
    ensures
        curated(m)[i].measure !is Nothing ==> curated(m)[i].size == Size::Counting(0),
        curated(m)[i].action is RemoveContents || curated(m)[i].action is RemoveDir ==> 4 <= i < 8,
        i < 8 ==> m.home is Some && curated(m)[i] == usual_targets(
            m.home->0@,
            go_cache_at(m.home->0@, text::text_opt(m.go_cache)),
        )[i],
{
    let h = text::text_opt(m.home)->0;
    let g = go_cache_at(h, text::text_opt(m.go_cache));
    let a = usual_targets(h, g);
    let b = xcode_targets(m.has_xcrun);
    let c = scratch_targets(m.assistant.title@, text::text_opt(m.scratch_dir));
    let d = docker_targets(m.has_docker);
    let all = curated(m);
    assert(a.len() == 8);
    if i < 8 {
        assert(all[i] == a[i]);
        if i == 0 {
        } else if i == 1 {
        } else if i == 2 {
        } else if i == 3 {
        } else if i == 4 {
        } else if i == 5 {
        } else if i == 6 {
        } else {
            assert(i == 7);
        }
    } else if i < 8 + b.len() {
        assert(all[i] == b[i - 8]);
        assert(i == 8 || i == 9);
    } else if i < 8 + b.len() + c.len() {
        assert(all[i] == c[i - 8 - b.len()]);
    } else if i < 8 + b.len() + c.len() + d.len() {
        assert(all[i] == d[i - 8 - b.len() - c.len()]);
    } else {
        assert(all[i] == dmg_target(h, m.dmg_bytes));
    }
}

/// Discovery measures nothing: a target with a tree or with idle children to walk
/// arrives as one that is still being counted.
pub proof fn law_discovery_measures_nothing(
    r: Seq<Target>,
    front: Seq<Target>,
    declared: Seq<Cleanable>,
    m: Machine,
    is_dir: Seq<bool>,
    i: int,
)
    requires
        listed_as(r, front, declared, m, is_dir),
        0 <= i < r.len(),
        !(r[i].measured_by() is Nothing),
    ensures
        r[i].sized() == Size::Counting(0),
{
    let n = front.len() as int;
    if i < n {
        assert(cleanup::target_rows(front)[i] == front[i]@);
        lemma_curated_row(m, i);
        assert(r[i] == front[i]);
        assert(curated(m)[i] == front[i]@);
    } else {
        let kept = declared.filter(cleanup::is_offered(front));
        assert(is_row_for(r[n + (i - n)], kept[i - n]));
    }
}

/// Nothing is offered for emptying that is not declared to be cleanable: a path that
/// is only accounted for has no delete key.
pub proof fn law_only_cleanable_paths_are_emptied(
    r: Seq<Target>,
    front: Seq<Target>,
    declared: Seq<Cleanable>,
    m: Machine,
    is_dir: Seq<bool>,
    i: int,
)
    requires
        listed_as(r, front, declared, m, is_dir),
        0 <= i < r.len(),
        emptied(r[i].does()) is Some,
    ensures
        exists|k: int|
            0 <= k < cleanable_on(m).len() && (#[trigger] cleanable_on(m)[k]).2 == emptied(
                r[i].does(),
            )->0,
{
    let n = front.len() as int;
    let p = emptied(r[i].does())->0;
    if i < n {
        assert(cleanup::target_rows(front)[i] == front[i]@);
        lemma_curated_row(m, i);
        let row = curated(m)[i];
        assert(r[i] == front[i]);
        assert(row == front[i]@);
        let h = text::text_opt(m.home)->0;
        let g = go_cache_at(h, text::text_opt(m.go_cache));
        let table = cleanable_table(h, g);
        assert(row.action == cleanup::ActionRow::RemoveContents(p) || row.action
            == cleanup::ActionRow::RemoveDir(p));
        assert(4 <= i < 8);
        assert(row == usual_targets(h, g)[i]);
        if i == 4 {
            assert(table[18].2 == p);
        } else if i == 5 {
            assert(table[19].2 == p);
        } else if i == 6 {
            assert(table[20].2 == p);
        } else {
            assert(table[13].2 == p);
        }
    } else {
        let keep = cleanup::is_offered(front);
        let kept = declared.filter(keep);
        assert(is_row_for(r[n + (i - n)], kept[i - n]));
        assert(kept.contains(kept[i - n]));
        declared.lemma_filter_contains_rev(keep, kept[i - n]);
        let k = choose|k: int| 0 <= k < declared.len() && declared[k] == kept[i - n];
        assert(cleanable_on(m)[k].2 == declared[k].path@);
    }
}

/// Every path of a category begins at the root.
#[verifier::opaque]
pub open spec fn all_absolute(listed: Seq<Row>) -> bool {
    forall|i: int| 0 <= i < listed.len() ==> paths::is_absolute((#[trigger] listed[i]).1)
}

/// Where every path is given or lies below an absolute one, all of them begin at
/// the root.
proof fn lemma_all_absolute(listed: Seq<Row>, h: Seq<char>, g: Seq<char>)
    requires
        paths::is_absolute(h),
        paths::is_absolute(g),
        forall|i: int|
            0 <= i < listed.len() ==> {
                let p = (#[trigger] listed[i]).1;
                p == g || p == "/opt/homebrew"@ || exists|rel: Seq<char>|
                    p == #[trigger] paths::below(h, rel)
            },
    ensures
        all_absolute(listed),
{
    reveal(all_absolute);
    reveal_strlit("/opt/homebrew");
    assert forall|i: int| 0 <= i < listed.len() implies paths::is_absolute(
        (#[trigger] listed[i]).1,
    ) by {
        let p = listed[i].1;
        if exists|rel: Seq<char>| p == #[trigger] paths::below(h, rel) {
            let rel = choose|rel: Seq<char>| p == #[trigger] paths::below(h, rel);
            paths::lemma_below_absolute(h, rel);
        }
    }
}

/// With a home directory and a Go build cache at absolute paths, every path that has
/// a name is absolute.
pub proof fn law_every_rule_path_is_absolute(
    h: Seq<char>,
    g: Seq<char>,
    a: Tool,
    c: int,
    i: int,
)
    requires
        paths::is_absolute(h),
        paths::is_absolute(g),
        0 <= c < audit_table(h, g, a).len(),
        0 <= i < audit_table(h, g, a)[c].1.len(),
    ensures
        paths::is_absolute(audit_table(h, g, a)[c].1[i].1),
{
    assert(all_absolute(audit_table(h, g, a)[c].1)) by {
        lemma_table_absolute(h, g, a, c);
    }
    reveal(all_absolute);
}

proof fn lemma_table_absolute(h: Seq<char>, g: Seq<char>, a: Tool, c: int)
    requires
        paths::is_absolute(h),
        paths::is_absolute(g),
        0 <= c < audit_table(h, g, a).len(),
    ensures
        all_absolute(audit_table(h, g, a)[c].1),
{
    if c == 0 {
        lemma_go_absolute(h, g);
    } else if c == 1 {
        lemma_node_js_absolute(h, g);
    } else if c == 2 {
        lemma_python_absolute(h, g);
    } else if c == 3 {
        lemma_rust_absolute(h, g);
    } else if c == 4 {
        lemma_haskell_absolute(h, g);
    } else if c == 5 {
        lemma_ocaml_absolute(h, g);
    } else if c == 6 {
        lemma_lean_absolute(h, g);
    } else if c == 7 {
        lemma_kotlin_native_absolute(h, g);
    } else if c == 8 {
        lemma_gradle_absolute(h, g);
    } else if c == 9 {
        lemma_android_absolute(h, g);
    } else if c == 10 {
        lemma_xcode_absolute(h, g);
    } else if c == 11 {
        lemma_homebrew_absolute(h, g);
    } else if c == 12 {
        lemma_containers_absolute(h, g);
    } else if c == 13 {
        lemma_editors_absolute(h, g);
    } else if c == 14 {
        lemma_agent_tooling_absolute(h, g, a);
    } else if c == 15 {
        lemma_apps_absolute(h, g);
    } else if c == 16 {
        lemma_cloud_clis_absolute(h, g);
    } else if c == 17 {
        lemma_personal_absolute(h, g);
    }
}

proof fn lemma_go_absolute(h: Seq<char>, g: Seq<char>)
    requires
        paths::is_absolute(h),
        paths::is_absolute(g),
    ensures
        all_absolute(go_rows(h, g)),
{
    reveal(go_rows);
    lemma_all_absolute(go_rows(h, g), h, g);
}

proof fn lemma_node_js_absolute(h: Seq<char>, g: Seq<char>)
    requires
        paths::is_absolute(h),
        paths::is_absolute(g),
    ensures
        all_absolute(node_js_rows(h, g)),
{
    reveal(node_js_rows);
    lemma_all_absolute(node_js_rows(h, g), h, g);
}

proof fn lemma_python_absolute(h: Seq<char>, g: Seq<char>)
    requires
        paths::is_absolute(h),
        paths::is_absolute(g),
    ensures
        all_absolute(python_rows(h, g)),
{
    reveal(python_rows);
    lemma_all_absolute(python_rows(h, g), h, g);
}

proof fn lemma_rust_absolute(h: Seq<char>, g: Seq<char>)
    requires
        paths::is_absolute(h),
        paths::is_absolute(g),
    ensures
        all_absolute(rust_rows(h, g)),
{
    reveal(rust_rows);
    lemma_all_absolute(rust_rows(h, g), h, g);
}

proof fn lemma_haskell_absolute(h: Seq<char>, g: Seq<char>)
    requires
        paths::is_absolute(h),
        paths::is_absolute(g),
    ensures
        all_absolute(haskell_rows(h, g)),
{
    reveal(haskell_rows);
    lemma_all_absolute(haskell_rows(h, g), h, g);
}

proof fn lemma_ocaml_absolute(h: Seq<char>, g: Seq<char>)
    requires
        paths::is_absolute(h),
        paths::is_absolute(g),
    ensures
        all_absolute(ocaml_rows(h, g)),
{
    reveal(ocaml_rows);
    lemma_all_absolute(ocaml_rows(h, g), h, g);
}

proof fn lemma_lean_absolute(h: Seq<char>, g: Seq<char>)
    requires
        paths::is_absolute(h),
        paths::is_absolute(g),
    ensures
        all_absolute(lean_rows(h, g)),
{
    reveal(lean_rows);
    lemma_all_absolute(lean_rows(h, g), h, g);
}

proof fn lemma_kotlin_native_absolute(h: Seq<char>, g: Seq<char>)
    requires
        paths::is_absolute(h),
        paths::is_absolute(g),
    ensures
        all_absolute(kotlin_native_rows(h, g)),
{
    reveal(kotlin_native_rows);
    lemma_all_absolute(kotlin_native_rows(h, g), h, g);
}

proof fn lemma_gradle_absolute(h: Seq<char>, g: Seq<char>)
    requires
        paths::is_absolute(h),
        paths::is_absolute(g),
    ensures
        all_absolute(gradle_rows(h, g)),
{
    reveal(gradle_rows);
    lemma_all_absolute(gradle_rows(h, g), h, g);
}

proof fn lemma_android_absolute(h: Seq<char>, g: Seq<char>)
    requires
        paths::is_absolute(h),
        paths::is_absolute(g),
    ensures
        all_absolute(android_rows(h, g)),
{
    reveal(android_rows);
    lemma_all_absolute(android_rows(h, g), h, g);
}

proof fn lemma_xcode_absolute(h: Seq<char>, g: Seq<char>)
    requires
        paths::is_absolute(h),
        paths::is_absolute(g),
    ensures
        all_absolute(xcode_rows(h, g)),
{
    reveal(xcode_rows);
    lemma_all_absolute(xcode_rows(h, g), h, g);
}

proof fn lemma_homebrew_absolute(h: Seq<char>, g: Seq<char>)
    requires
        paths::is_absolute(h),
        paths::is_absolute(g),
    ensures
        all_absolute(homebrew_rows(h, g)),
{
    reveal(homebrew_rows);
    lemma_all_absolute(homebrew_rows(h, g), h, g);
}

proof fn lemma_containers_absolute(h: Seq<char>, g: Seq<char>)
    requires
        paths::is_absolute(h),
        paths::is_absolute(g),
    ensures
        all_absolute(containers_rows(h, g)),
{
    reveal(containers_rows);
    lemma_all_absolute(containers_rows(h, g), h, g);
}

proof fn lemma_editors_absolute(h: Seq<char>, g: Seq<char>)
    requires
        paths::is_absolute(h),
        paths::is_absolute(g),
    ensures
        all_absolute(editors_rows(h, g)),
{
    reveal(editors_rows);
    lemma_all_absolute(editors_rows(h, g), h, g);
}

proof fn lemma_agent_tooling_absolute(h: Seq<char>, g: Seq<char>, a: Tool)
    requires
        paths::is_absolute(h),
        paths::is_absolute(g),
    ensures
        all_absolute(agent_tooling_rows(h, a)),
{
    reveal(agent_tooling_rows);
    lemma_all_absolute(agent_tooling_rows(h, a), h, g);
}

proof fn lemma_apps_absolute(h: Seq<char>, g: Seq<char>)
    requires
        paths::is_absolute(h),
        paths::is_absolute(g),
    ensures
        all_absolute(apps_rows(h, g)),
{
    reveal(apps_rows);
    lemma_all_absolute(apps_rows(h, g), h, g);
}

proof fn lemma_cloud_clis_absolute(h: Seq<char>, g: Seq<char>)
    requires
        paths::is_absolute(h),
        paths::is_absolute(g),
    ensures
        all_absolute(cloud_clis_rows(h, g)),
{
    reveal(cloud_clis_rows);
    lemma_all_absolute(cloud_clis_rows(h, g), h, g);
}

proof fn lemma_personal_absolute(h: Seq<char>, g: Seq<char>)
    requires
        paths::is_absolute(h),
        paths::is_absolute(g),
    ensures
        all_absolute(personal_rows(h, g)),
{
    reveal(personal_rows);
    lemma_all_absolute(personal_rows(h, g), h, g);
}

/// Every place of every category has a rule under the name of its category and its own, and
/// there is no other rule.
pub proof fn law_every_place_of_a_category_has_a_rule(
    table: Seq<(Seq<char>, Seq<Row>)>,
    rule: (Seq<char>, Seq<char>, Seq<char>),
)
    ensures
        rules_of(table).contains(rule) <==> exists|i: int, j: int|
            {
                &&& 0 <= i < table.len()
                &&& 0 <= j < table[i].1.len()
                &&& rule.0 == table[i].0
                &&& (rule.1, rule.2) == #[trigger] table[i].1[j]
            },
    decreases table.len(),
{
    let all = rules_of(table);
    if table.len() > 0 {
        let front = table.drop_last();
        let before = rules_of(front);
        let own = rules_in(table.last().0, table.last().1);
        let last = table.len() - 1;
        law_every_place_of_a_category_has_a_rule(front, rule);
        assert forall|i: int| 0 <= i < front.len() implies front[i] == #[trigger] table[i] by {}
        assert(table[last] == table.last());
        if all.contains(rule) {
            let k = choose|k: int| 0 <= k < all.len() && all[k] == rule;
            if k < before.len() {
                assert(before[k] == rule);
                let (i, j) = choose|i: int, j: int|
                    {
                        &&& 0 <= i < front.len()
                        &&& 0 <= j < front[i].1.len()
                        &&& rule.0 == front[i].0
                        &&& (rule.1, rule.2) == #[trigger] front[i].1[j]
                    };
                assert((rule.1, rule.2) == table[i].1[j]);
            } else {
                let j = k - before.len();
                assert(own[j] == rule);
                assert((rule.1, rule.2) == table[last].1[j]);
            }
        }
        if exists|i: int, j: int|
            {
                &&& 0 <= i < table.len()
                &&& 0 <= j < table[i].1.len()
                &&& rule.0 == table[i].0
                &&& (rule.1, rule.2) == #[trigger] table[i].1[j]
            } {
            let (i, j) = choose|i: int, j: int|
                {
                    &&& 0 <= i < table.len()
                    &&& 0 <= j < table[i].1.len()
                    &&& rule.0 == table[i].0
                    &&& (rule.1, rule.2) == #[trigger] table[i].1[j]
                };
            if i < last {
                assert((rule.1, rule.2) == front[i].1[j]);
                let k = choose|k: int| 0 <= k < before.len() && before[k] == rule;
                assert(all[k] == rule);
            } else {
                assert(own[j] == rule);
                assert(all[before.len() + j] == rule);
            }
        }
    }
}

/// What a target sizes is what it takes away: the tree that is emptied is the one that is
/// measured, and the children that go are those that were found idle for as long.
pub open spec fn is_sized_by_what_goes(t: cleanup::TargetRow) -> bool {
    match t.action {
        cleanup::ActionRow::RemoveContents(p) => t.measure == cleanup::MeasureRow::Tree(p),
        cleanup::ActionRow::RemoveIdleChildren { dir, idle_days } => t.measure
            == cleanup::MeasureRow::IdleChildren { dir, idle_days },
        _ => true,
    }
}

/// A machine without a home directory, or that is no Mac, is offered nothing. Any other is
/// offered the caches every machine has, what its tools can clear where it has them, the scratch
/// directories that were left alone for seven days, and the disk images among its downloads.
pub proof fn law_a_machine_is_offered_what_it_has(m: Machine)
    ensures
        m.system != System::MacOs || m.home is None ==> curated(m).len() == 0,
        m.system == System::MacOs && m.home is Some ==> {
            let h = m.home->0@;
            let all = curated(m);
            &&& forall|i: int| 0 <= i < all.len() ==> is_sized_by_what_goes(#[trigger] all[i])
            &&& offers(all, cleanup::ActionRow::RemoveByExtension(paths::below(h, "Downloads"@), "dmg"@))
            &&& m.has_docker ==> offers(
                all,
                cleanup::ActionRow::RunCommand("docker"@, seq!["system"@, "prune"@, "-f"@]),
            )
            &&& m.has_xcrun ==> offers(
                all,
                cleanup::ActionRow::RunCommand(
                    "xcrun"@,
                    seq!["simctl"@, "delete"@, "unavailable"@],
                ),
            )
            &&& m.scratch_dir is Some ==> offers(
                all,
                cleanup::ActionRow::RemoveIdleChildren { dir: m.scratch_dir->0@, idle_days: 7 },
            )
            &&& offers(
                all,
                cleanup::ActionRow::RunCommand("brew"@, seq!["cleanup"@, "--prune=all"@]),
            )
            &&& offers(all, cleanup::ActionRow::RunCommand("go"@, seq!["clean"@, "-cache"@]))
            &&& offers(
                all,
                cleanup::ActionRow::RunCommand("npm"@, seq!["cache"@, "clean"@, "--force"@]),
            )
            &&& offers(all, cleanup::ActionRow::RunCommand("pnpm"@, seq!["store"@, "prune"@]))
            &&& offers(
                all,
                cleanup::ActionRow::RemoveContents(
                    paths::below(h, "Library/Developer/Xcode/DerivedData"@),
                ),
            )
            &&& offers(
                all,
                cleanup::ActionRow::RemoveContents(paths::below(h, "Library/Caches/ms-playwright"@)),
            )
            &&& offers(
                all,
                cleanup::ActionRow::RemoveContents(paths::below(h, "Library/Caches/Google"@)),
            )
        },
{
    if m.system == System::MacOs && m.home is Some {
        let h = m.home->0@;
        let all = curated(m);
        let a = usual_targets(h, go_cache_at(h, text::text_opt(m.go_cache)));
        let b = xcode_targets(m.has_xcrun);
        let c = scratch_targets(m.assistant.title@, text::text_opt(m.scratch_dir));
        let d = docker_targets(m.has_docker);
        let e = seq![dmg_target(h, m.dmg_bytes)];
        assert(all =~= a + b + c + d + e);
        assert(a.len() == 8);
        let at_c = 8 + b.len();
        let at_d = at_c + c.len();
        let at_e = at_d + d.len();
        assert(all[0] == a[0] && all[1] == a[1] && all[2] == a[2] && all[3] == a[3]);
        assert(all[4] == a[4] && all[5] == a[5] && all[6] == a[6] && all[7] == a[7]);
        if b.len() > 0 {
            assert(all[8] == b[0]);
        }
        if c.len() > 0 {
            assert(all[at_c as int] == c[0]);
        }
        if d.len() > 0 {
            assert(all[at_d as int] == d[0]);
        }
        assert(all[at_e as int] == e[0]);
        assert forall|i: int| 0 <= i < all.len() implies is_sized_by_what_goes(
            #[trigger] all[i],
        ) by {
            if i < 8 {
                assert(all[i] == a[i]);
            } else if i < at_c {
                assert(all[i] == b[i - 8]);
            } else if i < at_d {
                assert(all[i] == c[i - at_c]);
            } else if i < at_e {
                assert(all[i] == d[i - at_d]);
            } else {
                assert(all[i] == e[i - at_e]);
            }
        }
    }
}

/// Some target of a list does this.
pub open spec fn offers(targets: Seq<cleanup::TargetRow>, action: cleanup::ActionRow) -> bool {
    exists|i: int| 0 <= i < targets.len() && (#[trigger] targets[i]).action == action
}

} // verus!
