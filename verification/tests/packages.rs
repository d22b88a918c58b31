//! Brewfiles, what is installed and what is asked of brew.
use workstation::packages::brew::brewfile::{
    discover_with, parse, places, remove_entries, BrewfileSource, EntryKind, Env, RemoveTarget,
};
use workstation::packages::brew::cask::Cask;
use workstation::packages::brew::formula::Formula;
use workstation::packages::brew::info::{
    attach_sizes, brew_prefix, can_attach, du_args, fetch_args, fetch_installed, package_path,
    parse_installed, BrewInfoV2, CaskInfo, FormulaInfo, FormulaInstalled, PkgKind,
};
use workstation::packages::brew::ops::{
    autoremove, bundle_dump, bundle_dump_args, dependents, dependents_args, is_installed,
    is_installed_args, uninstall_cask_zap, uninstall_cask_zap_args, uninstall_formula,
    uninstall_formula_args,
};
use workstation::resource::{Change, CommandOutput, Failure, ResourceState};

fn success(stdout: &str) -> CommandOutput {
    CommandOutput { stdout: stdout.to_string(), stderr: String::new(), success: true }
}

fn failure(stderr: &str) -> CommandOutput {
    CommandOutput { stdout: String::new(), stderr: stderr.to_string(), success: false }
}

#[test]
fn parses_simple_formula() {
    let entries = parse(r#"brew "ripgrep""#);
    assert_eq!(entries.len(), 1);
    assert_eq!(entries[0].kind, EntryKind::Formula);
    assert_eq!(entries[0].name, "ripgrep");
    assert_eq!(entries[0].full_name, "ripgrep");
    assert_eq!(entries[0].line_number, 1);
}

#[test]
fn parses_formula_with_options() {
    let entries = parse(r#"brew "postgresql@14", restart_service: :changed"#);
    assert_eq!(entries.len(), 1);
    assert_eq!(entries[0].name, "postgresql@14");
}

#[test]
fn strips_tap_prefix_from_formula_name() {
    let entries = parse(r#"brew "mobile-dev-inc/tap/maestro""#);
    assert_eq!(entries[0].name, "maestro");
    assert_eq!(entries[0].full_name, "mobile-dev-inc/tap/maestro");
}

#[test]
fn parses_cask_and_strips_tap_prefix() {
    let entries = parse("cask \"visual-studio-code\"\ncask \"ngrok/ngrok/ngrok\"");
    assert_eq!(entries.len(), 2);
    assert_eq!(entries[0].kind, EntryKind::Cask);
    assert_eq!(entries[0].name, "visual-studio-code");
    assert_eq!(entries[1].name, "ngrok");
    assert_eq!(entries[1].full_name, "ngrok/ngrok/ngrok");
}

#[test]
fn parses_tap_without_stripping() {
    let entries = parse(r#"tap "antoniorodr/memo""#);
    assert_eq!(entries[0].kind, EntryKind::Tap);
    assert_eq!(entries[0].name, "antoniorodr/memo");
}

#[test]
fn skips_comments_blanks_and_unsupported_dsl() {
    let input = "# header comment\n\nvscode \"rust-lang.rust-analyzer\"\ngo \"x/y\"\ncargo \"loc\"\nnpm \"pkg\"\nkrew \"graph\"\nmas \"App\", id: 1\n";
    let entries = parse(input);
    assert!(entries.is_empty());
}

#[test]
fn preserves_raw_line_and_line_number() {
    let input = "tap \"a/b\"\n  brew \"fzf\"\n";
    let entries = parse(input);
    assert_eq!(entries.len(), 2);
    assert_eq!(entries[1].line_number, 2);
    assert_eq!(entries[1].raw, "  brew \"fzf\"");
    assert_eq!(entries[1].name, "fzf");
}

fn env(bundle_file: Option<&str>, cwd: Option<&str>, home: Option<&str>) -> Env {
    Env {
        bundle_file: bundle_file.map(String::from),
        xdg_config_home: None,
        cwd: cwd.map(String::from),
        home: home.map(String::from),
    }
}

fn found(env: &Env, files: &[&str]) -> Option<(String, BrewfileSource)> {
    discover_with(env, &files.iter().map(|f| f.to_string()).collect())
}

#[test]
fn discover_prefers_env_override() {
    let file = "/t/custom-Brewfile";
    let env = env(Some(file), None, None);
    assert_eq!(found(&env, &[file]), Some((file.to_string(), BrewfileSource::Env)));
}

#[test]
fn discover_returns_cwd_source_when_cwd_brewfile_present() {
    let env = env(None, Some("/t"), Some("/t/home"));
    assert_eq!(
        found(&env, &["/t/Brewfile"]),
        Some(("/t/Brewfile".to_string(), BrewfileSource::Cwd))
    );
}

#[test]
fn discover_falls_through_to_home_then_xdg() {
    let env = env(None, Some("/t/nowhere"), Some("/t/home"));
    let xdg = "/t/home/.config/homebrew/Brewfile";
    assert_eq!(found(&env, &[xdg]), Some((xdg.to_string(), BrewfileSource::Xdg)));
    assert!(places(&env).iter().any(|(p, _)| p == xdg));
}

#[test]
fn discover_returns_none_when_missing() {
    assert!(found(&env(None, Some("/t/nowhere"), Some("/t/home")), &[]).is_none());
}

fn target(kind: EntryKind, name: &str) -> RemoveTarget {
    RemoveTarget { kind, name: name.into() }
}

#[test]
fn remove_entries_removes_matching_and_preserves_rest() {
    let original =
        "tap \"a/b\"\n# header\nbrew \"ripgrep\"\nbrew \"fzf\"\ncask \"vlc\"\nvscode \"x.y\"\n";
    let targets = vec![
        target(EntryKind::Formula, "fzf"),
        target(EntryKind::Cask, "vlc"),
    ];
    let summary = remove_entries("/t/Brewfile", original, &targets);

    assert_eq!(summary.removed.len(), 2);
    assert_eq!(summary.backup.as_deref(), Some("/t/Brewfile.bak"));
    assert_eq!(
        summary.content.as_deref(),
        Some("tap \"a/b\"\n# header\nbrew \"ripgrep\"\nvscode \"x.y\"\n")
    );
}

#[test]
fn remove_entries_matches_tap_prefixed_packages() {
    let summary = remove_entries(
        "/t/Brewfile",
        "brew \"mobile-dev-inc/tap/maestro\"\nbrew \"fzf\"\n",
        &[target(EntryKind::Formula, "maestro")],
    );
    assert_eq!(summary.removed.len(), 1);
    assert_eq!(summary.content.as_deref(), Some("brew \"fzf\"\n"));
}

#[test]
fn remove_entries_noop_when_no_matches() {
    let summary = remove_entries(
        "/t/Brewfile",
        "brew \"ripgrep\"\n",
        &[target(EntryKind::Formula, "fzf")],
    );
    assert!(summary.backup.is_none());
    assert!(summary.removed.is_empty());
    assert!(summary.content.is_none());
}

#[test]
fn remove_entries_preserves_no_trailing_newline() {
    let summary = remove_entries(
        "/t/Brewfile",
        "brew \"a\"\nbrew \"b\"",
        &[target(EntryKind::Formula, "a")],
    );
    assert_eq!(summary.content.as_deref(), Some("brew \"b\""));
}

#[test]
fn remove_entries_does_not_match_across_kinds() {
    let summary = remove_entries(
        "/t/Brewfile",
        "brew \"foo\"\ncask \"foo\"\n",
        &[target(EntryKind::Cask, "foo")],
    );
    assert_eq!(summary.content.as_deref(), Some("brew \"foo\"\n"));
}

#[test]
fn what_was_removed_is_gone_when_read_again() {
    let content = "brew \"a\"\ncask \"b\"\n# c\nbrew \"a\"\n";
    let summary = remove_entries("/t/Brewfile", content, &[target(EntryKind::Formula, "a")]);
    let left = parse(&summary.content.unwrap());
    assert_eq!(left.len(), 1);
    assert_eq!(left[0].name, "b");
}

#[test]
fn test_brew_cask_detect_installed() {
    let cask = Cask::new("raycast");
    assert_eq!(cask.list_args(), ["list", "--cask", "raycast"]);
    assert_eq!(cask.version_args(), ["list", "--cask", "--versions", "raycast"]);
    let state = cask.detect(&success(""), &success("raycast 1.65.0"));
    assert!(matches!(
        state,
        ResourceState::Present { version: Some(v) } if v == "1.65.0"
    ));
}

#[test]
fn test_brew_cask_apply_install() {
    let cask = Cask::new("docker");
    assert_eq!(
        cask.apply_args(&Change::Create).unwrap(),
        ["install", "--cask", "docker"]
    );
    cask.apply(&Change::Create, &success("==> Installing docker")).unwrap();
    assert_eq!(cask.description(), "Homebrew cask: docker");
}

#[test]
fn test_brew_formula_detect_installed() {
    let formula = Formula::new("git");
    assert_eq!(formula.list_args(), ["list", "--formula", "git"]);
    assert_eq!(formula.version_args(), ["list", "--versions", "git"]);
    let state = formula.detect(&success(""), &success("git 2.43.0"));
    assert!(matches!(
        state,
        ResourceState::Present { version: Some(v) } if v == "2.43.0"
    ));
}

#[test]
fn test_brew_formula_detect_not_installed() {
    let formula = Formula::new("ripgrep");
    let state = formula.detect(&failure("Error: No such keg"), &success(""));
    assert!(matches!(state, ResourceState::Absent));
}

#[test]
fn test_brew_formula_diff_needs_install() {
    let formula = Formula::new("fzf");
    let change = formula.diff(&ResourceState::Absent);
    assert!(matches!(change, Change::Create));
}

#[test]
fn test_brew_formula_diff_already_installed() {
    let formula = Formula::new("fzf");
    let change = formula.diff(&ResourceState::present_with_version("0.45.0"));
    assert!(matches!(change, Change::NoOp));
}

#[test]
fn test_brew_formula_apply_install() {
    let formula = Formula::new("neovim");
    assert_eq!(formula.apply_args(&Change::Create).unwrap(), ["install", "neovim"]);
    formula.apply(&Change::Create, &success("==> Installing neovim")).unwrap();
    assert!(formula.apply_args(&Change::NoOp).is_none());
}

#[test]
fn test_brew_formula_apply_install_failure() {
    let formula = Formula::new("nonexistent");
    let result = formula.apply(&Change::Create, &failure("Error: No formulae found"));
    assert!(result.is_err());
}

fn formula(name: &str, version: &str, time: u64, deps: &[&str]) -> FormulaInfo {
    FormulaInfo {
        name: name.to_string(),
        installed: vec![FormulaInstalled {
            version: version.to_string(),
            time: Some(time),
            runtime_dependencies: deps.iter().map(|d| d.to_string()).collect(),
        }],
    }
}

fn sample() -> Result<BrewInfoV2, String> {
    Ok(BrewInfoV2 {
        formulae: vec![
            formula("ripgrep", "14.0.3", 1700000000, &["pcre2"]),
            formula(
                "maestro",
                "1.0",
                1710000000,
                &["openjdk@17", "mobile-dev-inc/tap/idb-companion"],
            ),
        ],
        casks: vec![CaskInfo {
            token: "ghostty".to_string(),
            installed: Some("1.0.1".to_string()),
            installed_time: Some(1720000000),
            formula_deps: vec!["libssh".to_string()],
            cask_deps: vec![],
        }],
    })
}

#[test]
fn parses_formulae_and_casks() {
    let pkgs = parse_installed(&sample()).unwrap();
    assert_eq!(pkgs.len(), 3);

    let rg = &pkgs[0];
    assert_eq!(rg.name, "ripgrep");
    assert_eq!(rg.kind, PkgKind::Formula);
    assert_eq!(rg.version.as_deref(), Some("14.0.3"));
    assert_eq!(rg.installed_at, Some(1700000000));
    assert_eq!(rg.deps, vec!["pcre2"]);

    let maestro = &pkgs[1];
    assert_eq!(maestro.name, "maestro");
    assert_eq!(maestro.deps, vec!["openjdk@17", "idb-companion"]);

    let ghostty = &pkgs[2];
    assert_eq!(ghostty.name, "ghostty");
    assert_eq!(ghostty.kind, PkgKind::Cask);
    assert_eq!(ghostty.version.as_deref(), Some("1.0.1"));
    assert_eq!(ghostty.deps, vec!["libssh"]);
}

#[test]
fn parse_tolerates_missing_optional_fields() {
    let read = Ok(BrewInfoV2 {
        formulae: vec![FormulaInfo {
            name: "x".to_string(),
            installed: vec![FormulaInstalled {
                version: "1".to_string(),
                time: None,
                runtime_dependencies: vec![],
            }],
        }],
        casks: vec![],
    });
    let pkgs = parse_installed(&read).unwrap();
    assert_eq!(pkgs.len(), 1);
    assert_eq!(pkgs[0].deps.len(), 0);
    assert!(pkgs[0].installed_at.is_none());
}

#[test]
fn parse_handles_empty_lists() {
    let pkgs = parse_installed(&Ok(BrewInfoV2 { formulae: vec![], casks: vec![] })).unwrap();
    assert!(pkgs.is_empty());
    assert!(parse_installed(&Err("EOF".to_string())).is_err());
}

#[test]
fn fetch_installed_invokes_brew() {
    assert_eq!(fetch_args(), ["info", "--json=v2", "--installed"]);
    let pkgs = fetch_installed(&success("{}"), &sample()).unwrap();
    assert_eq!(pkgs.len(), 3);
    assert!(fetch_installed(&failure("no brew"), &sample()).is_err());
}

#[test]
fn brew_prefix_trims_output() {
    let prefix = brew_prefix(&success("/opt/homebrew\n")).unwrap();
    assert_eq!(prefix, "/opt/homebrew");
    assert!(brew_prefix(&failure("")).is_err());
}

#[test]
fn sizes_come_from_one_du_over_what_is_there() {
    let pkgs = parse_installed(&sample()).unwrap();
    let there = vec![true, false, true];
    let prefix = "/opt/homebrew";
    assert_eq!(package_path(prefix, &pkgs[2]), "/opt/homebrew/Caskroom/ghostty");
    assert_eq!(
        du_args(prefix, &pkgs, &there),
        ["-sk", "/opt/homebrew/Cellar/ripgrep", "/opt/homebrew/Caskroom/ghostty"]
    );
    let du = "12\t/opt/homebrew/Cellar/ripgrep\n3\t/opt/homebrew/Caskroom/ghostty\nnoise\n";
    assert!(can_attach(du));
    assert_eq!(
        attach_sizes(prefix, &pkgs, &there, &Some(du.to_string())),
        vec![12 * 1024, 0, 3 * 1024]
    );
    assert_eq!(attach_sizes(prefix, &pkgs, &there, &None), vec![0, 0, 0]);
    assert!(!can_attach("18446744073709551615\t/opt/homebrew/Cellar/ripgrep\n"));
}

#[test]
fn uninstall_formula_invokes_brew() {
    assert_eq!(uninstall_formula_args("fzf"), ["uninstall", "fzf"]);
    uninstall_formula("fzf", &success("")).unwrap();
}

#[test]
fn uninstall_formula_surfaces_failure() {
    let err = uninstall_formula(
        "pcre2",
        &failure("Refusing to uninstall: ripgrep depends on it"),
    )
    .unwrap_err();
    let msg = err.message();
    assert!(msg.contains("depends on it"), "got: {msg}");
    assert!(matches!(err, Failure::CommandFailed { .. }));
}

#[test]
fn uninstall_cask_uses_zap_flag() {
    assert_eq!(
        uninstall_cask_zap_args("ghostty"),
        ["uninstall", "--cask", "--zap", "ghostty"]
    );
    uninstall_cask_zap("ghostty", &success("")).unwrap();
}

#[test]
fn bundle_dump_passes_file_flag() {
    assert_eq!(bundle_dump_args("/tmp/Brewfile"), ["bundle", "dump", "--file=/tmp/Brewfile"]);
    bundle_dump("/tmp/Brewfile", &success("")).unwrap();
}

#[test]
fn autoremove_returns_stdout() {
    let out = autoremove(&success("Uninstalling pcre2\n")).unwrap();
    assert!(out.contains("pcre2"));
    assert!(autoremove(&failure("no")).is_err());
}

#[test]
fn is_installed_distinguishes_kind() {
    assert_eq!(is_installed_args("fzf", PkgKind::Formula), ["list", "--formula", "fzf"]);
    assert_eq!(is_installed_args("vlc", PkgKind::Cask), ["list", "--cask", "vlc"]);
    assert!(is_installed(&success("")));
    assert!(!is_installed(&failure("")));
}

#[test]
fn dependents_splits_whitespace_output() {
    assert_eq!(dependents_args("pcre2"), ["uses", "--installed", "pcre2"]);
    let deps = dependents("pcre2", &success("ripgrep\nfd\nbat\n")).unwrap();
    assert_eq!(deps, vec!["ripgrep", "fd", "bat"]);
}

#[test]
fn dependents_empty_when_no_uses() {
    let deps = dependents("orphan", &success("")).unwrap();
    assert!(deps.is_empty());
}
