//! What may be removed, and what the audit makes of the rest.
use workstation::disk::audit::{group, scan, scan_with};
use workstation::disk::cleanup::{
    files_by_extension_size, idle_candidates, idle_child, idle_children, idle_children_with,
    measurement_groups, overlaps, push_cleanable, removal_failed, Candidate, CleanAction, CleanFacts,
    Cleanable, CommandRun, Measure, Size, Target, WalkEntry,
};
use workstation::disk::liveness::Liveness;
use workstation::disk::platform::{
    attribution_rules, audit_categories, cleanable_paths, cleanup_targets, discover_all_targets,
    go_cache_dir, scratch_path, Assistant, Machine, System,
};
use workstation::disk::sweep::{Denials, Listing, Meta, Node, Root, Rule};
use workstation::disk::util::Moment;

const NOW: u64 = 1_755_300_000;

fn home() -> Option<String> {
    Some("/Users/me".to_string())
}

fn assistant() -> Assistant {
    Assistant { title: "Helper".to_string(), slug: "helper".to_string() }
}

fn machine() -> Machine {
    Machine {
        system: System::MacOs,
        home: home(),
        go_cache: None,
        assistant: assistant(),
        has_xcrun: true,
        has_docker: true,
        scratch_dir: scratch_path(&assistant(), "501\n"),
        dmg_bytes: 12,
    }
}

/// Every target of a machine on which everything that is declared is there.
fn all_targets() -> Vec<Target> {
    let there = cleanable_paths(System::MacOs, &home(), &None).iter().map(|_| true).collect();
    discover_all_targets(&machine(), &there)
}

#[test]
fn a_size_is_only_a_total_once_the_walk_finished() {
    // Sorting wants the floor; a total shown to a user wants the truth.
    assert_eq!(Size::Counting(4096).bytes(), 4096);
    assert_eq!(Size::Counting(4096).total(), None);
    assert_eq!(Size::Unknown(4096).total(), None);
    assert_eq!(Size::known(4096).total(), Some(4096));
}

#[test]
fn a_refusal_leaves_the_bytes_a_floor() {
    // du returns 0 for a directory it was not allowed to open. A number
    // built on top of one of those is not a measurement of anything.
    let refused = Size::Measured {
        bytes: 8192,
        denials: Denials {
            protected: 1,
            ..Denials::default()
        },
    };
    assert_eq!(refused.total(), None);
    assert_eq!(refused.bytes(), 8192);
    assert_eq!(refused.denials().protected, 1);
}

#[test]
fn discovery_measures_nothing() {
    // The screen has to draw before any of this is walked, so discovery is
    // allowed to stat and nothing else.
    let targets = all_targets();
    for target in &targets {
        match target.measure() {
            Measure::Tree(_) | Measure::IdleChildren { .. } => assert_eq!(
                target.size(),
                Size::Counting(0),
                "{} arrived already measured",
                target.name
            ),
            Measure::Nothing => {}
        }
    }
}

#[test]
fn a_nested_pair_of_paths_is_measured_by_two_separate_walks() {
    // One sweep charges nested bytes to the innermost root only, which is
    // right for attribution and wrong for a cleanup row: emptying
    // ~/.android takes ~/.android/avd with it, so its number has to
    // include it.
    let outer = String::from("/tmp/wsctl-groups/.android");
    let inner = format!("{outer}/avd");
    let elsewhere = String::from("/tmp/wsctl-groups/.npm");
    let targets = vec![
        Target::pending(
            "outer",
            "",
            Measure::Tree(outer.clone()),
            CleanAction::RemoveContents(outer),
        ),
        Target::pending(
            "inner",
            "",
            Measure::Tree(inner.clone()),
            CleanAction::RemoveContents(inner),
        ),
        Target::pending(
            "elsewhere",
            "",
            Measure::Tree(elsewhere.clone()),
            CleanAction::RemoveContents(elsewhere),
        ),
    ];

    let groups = measurement_groups(&targets);

    assert_eq!(groups.len(), 2, "{groups:?}");
    let names: Vec<Vec<&str>> = groups
        .iter()
        .map(|g| g.iter().map(|(_, r)| r.name.as_str()).collect())
        .collect();
    assert_eq!(names, vec![vec!["outer", "elsewhere"], vec!["inner"]]);
}

#[test]
fn the_same_path_twice_is_measured_twice() {
    // Two rows can share a directory: one runs `brew cleanup`, the other
    // empties the cache outright. Both have to state their own size.
    let path = String::from("/tmp/wsctl-groups/Homebrew");
    let targets = vec![
        Target::pending(
            "curated",
            "",
            Measure::Tree(path.clone()),
            CleanAction::RunCommand("brew".into(), vec![]),
        ),
        Target::pending(
            "audit",
            "",
            Measure::Tree(path.clone()),
            CleanAction::RemoveContents(path),
        ),
    ];

    assert_eq!(measurement_groups(&targets).len(), 2);
}

#[test]
fn a_target_with_nothing_to_walk_gets_no_root() {
    let targets = vec![Target::unknown(
        "pnpm store",
        "",
        CleanAction::RunCommand("pnpm".into(), vec![]),
    )];
    assert!(measurement_groups(&targets).is_empty());
}

#[test]
fn a_sibling_with_a_shared_name_prefix_is_not_nested() {
    // /a/bc is not inside /a/b, whatever a string comparison says.
    let first = String::from("/tmp/wsctl-groups/cache");
    let second = String::from("/tmp/wsctl-groups/cache-2");
    let targets = vec![
        Target::pending(
            "first",
            "",
            Measure::Tree(first.clone()),
            CleanAction::RemoveContents(first),
        ),
        Target::pending(
            "second",
            "",
            Measure::Tree(second.clone()),
            CleanAction::RemoveContents(second),
        ),
    ];

    assert_eq!(measurement_groups(&targets).len(), 1);
}

/// The directory an action would empty outright, if it empties one at all.
fn emptied_dir(action: &CleanAction) -> Option<&str> {
    match action {
        CleanAction::RemoveContents(path) | CleanAction::RemoveDir(path) => Some(path),
        _ => None,
    }
}

fn audited_paths() -> Vec<String> {
    audit_categories(System::MacOs, &home(), &None, &assistant())
        .into_iter()
        .flat_map(|(_, paths)| paths.into_iter().map(|(_, path)| path))
        .collect()
}

fn declared(label: &str, path: &str, is_dir: bool) -> Cleanable {
    Cleanable { category: "Test".into(), label: label.into(), path: path.into(), is_dir }
}

#[test]
fn a_declared_cleanable_path_becomes_a_target() {
    let mut targets = Vec::new();
    push_cleanable(
        &mut targets,
        &vec![declared("cache", "/t/cache", true), declared("absent", "/t/absent", false)],
    );

    assert_eq!(targets.len(), 1, "a path that does not exist got a row");
    assert_eq!(targets[0].name, "Test > cache");
    assert_eq!(emptied_dir(targets[0].action()), Some("/t/cache"));
}

#[test]
fn a_curated_target_keeps_its_directory_from_getting_a_second_row() {
    let mut targets = vec![Target::pending(
        "Curated",
        "",
        Measure::Tree("/t/cache".into()),
        CleanAction::RemoveContents("/t/cache".into()),
    )];
    push_cleanable(&mut targets, &vec![declared("cache", "/t/cache", true)]);

    assert_eq!(targets.len(), 1, "duplicate row for /t/cache");
    assert_eq!(targets[0].name, "Curated");
}

#[test]
fn a_curated_directory_gets_exactly_one_row_in_the_real_list() {
    let derived = "/Users/me/Library/Developer/Xcode/DerivedData";
    let targets = all_targets();
    let rows: Vec<&str> = targets
        .iter()
        .filter(|t| emptied_dir(t.action()) == Some(derived))
        .map(|t| t.name.as_str())
        .collect();

    assert_eq!(rows.len(), 1, "{rows:?}");
}

#[test]
fn no_accounting_only_path_is_offered_for_deletion() {
    // Accounting-only is everything the audit names and the cleanable list
    // does not, so a new audit category is undeletable by default.
    let cleanable: Vec<String> = cleanable_paths(System::MacOs, &home(), &None)
        .into_iter()
        .map(|(_, _, path)| path)
        .collect();
    let accounting_only: Vec<String> = audited_paths()
        .into_iter()
        .filter(|path| !cleanable.contains(path))
        .collect();

    for target in all_targets() {
        if let Some(path) = emptied_dir(target.action()) {
            assert!(
                !accounting_only.iter().any(|p| p == path),
                "{} would empty {path}, which is accounted for and not cleanable",
                target.name,
            );
        }
    }
}

#[test]
fn the_directories_that_hold_work_have_no_delete_key() {
    // Named one by one so reintroducing any of them fails loudly. Emptying
    // a source tree or someone's Documents is data loss, not cleanup.
    let targets = all_targets();

    for relative in ["Documents", "dotfiles", "Desktop", "Downloads", "go/src"] {
        let path = format!("/Users/me/{relative}");
        let rows: Vec<&str> = targets
            .iter()
            .filter(|t| emptied_dir(t.action()) == Some(path.as_str()))
            .map(|t| t.name.as_str())
            .collect();
        assert!(rows.is_empty(), "~/{relative} can be emptied by {rows:?}");
    }
}

#[test]
fn the_audit_still_accounts_for_what_cleanup_will_not_delete() {
    // Nothing moved out of the audit: these paths lost their delete key,
    // not their place in "where did the bytes go".
    let audited = audited_paths();

    for relative in [
        "Documents",
        "dotfiles",
        "Desktop",
        "Downloads",
        "go/src",
        "go/bin",
        "sdk",
        ".cargo",
        ".rustup",
        ".android",
        ".android/avd",
        "Library/pnpm",
        "Library/Application Support/Google",
        "Library/Group Containers/group.net.whatsapp.WhatsApp.shared",
    ] {
        let path = format!("/Users/me/{relative}");
        assert!(
            audited.contains(&path),
            "~/{relative} dropped out of the audit"
        );
    }
}

#[test]
fn every_cleanable_path_is_one_the_audit_accounts_for() {
    // Otherwise the two lists drift into a row that can be deleted while
    // nothing explains where its bytes came from.
    let audited = audited_paths();

    for (category, label, path) in cleanable_paths(System::MacOs, &home(), &None) {
        assert!(
            audited
                .iter()
                .any(|counted| path == *counted || path.starts_with(&format!("{counted}/"))),
            "{category} > {label} ({path}) is cleanable but unaccounted for",
        );
    }
}

#[test]
fn every_rule_path_is_absolute() {
    // A relative rule path would never match a walked path, and would
    // fail silently as a category that is always zero.
    for rule in attribution_rules(System::MacOs, &home(), &None, &assistant()) {
        assert!(
            rule.path.starts_with('/'),
            "{} / {} is relative: {}",
            rule.category,
            rule.label,
            rule.path
        );
    }
}

#[test]
fn no_two_rules_claim_the_same_path() {
    // Attribution is keyed by path, so a duplicate would make one of the
    // two rules permanently zero.
    let rules = attribution_rules(System::MacOs, &home(), &None, &assistant());
    let mut seen = std::collections::HashSet::new();
    for rule in &rules {
        assert!(
            seen.insert(rule.path.clone()),
            "{} is claimed twice",
            rule.path
        );
    }
}

#[test]
fn what_a_machine_has_decides_what_is_offered() {
    let names = |m: &Machine| -> Vec<String> {
        cleanup_targets(m).into_iter().map(|t| t.name).collect()
    };
    let all = names(&machine());
    assert!(all.contains(&"Helper session scratchpads".to_string()), "{all:?}");
    assert!(all.contains(&"Docker unused data".to_string()));
    let bare = names(&Machine { has_docker: false, scratch_dir: None, ..machine() });
    assert_eq!(bare.len(), all.len() - 2);
    assert!(names(&Machine { home: None, ..machine() }).is_empty());
    assert_eq!(scratch_path(&assistant(), "501\n").as_deref(), Some("/private/tmp/helper-501"));
    assert_eq!(scratch_path(&assistant(), " "), None);
    assert_eq!(go_cache_dir("/c/go\n").as_deref(), Some("/c/go"));
    assert_eq!(go_cache_dir("\n"), None);
}

fn meta(ino: u64, bytes: u64) -> Meta {
    Meta { dev: 1, ino, nlink: 1, blocks: bytes / 512, is_dir: false }
}

fn child(name: &str, days_ago: u64, bytes: u64) -> Candidate {
    Candidate {
        path: format!("/s/{name}"),
        is_symlink: false,
        entries: vec![WalkEntry {
            meta: Some(meta(1, bytes)),
            modified: Some(Moment::from_secs(NOW - days_ago * 86_400)),
        }],
    }
}

fn now() -> Moment {
    Moment::from_secs(NOW)
}

#[test]
fn idle_children_picks_only_the_old_ones() {
    let children = vec![child("session-stale", 30, 4096), child("session-fresh", 0, 4096)];
    let picked = idle_children_with(children, 7, &Liveness::empty(), now());
    assert_eq!(picked, vec![("/s/session-stale".to_string(), 4096)]);
}

#[test]
fn idle_children_never_returns_a_busy_child() {
    // The exact failure this action exists to prevent: an old-looking
    // scratch dir that a live process is still working in.
    let stale = || vec![child("session-stale", 30, 4096)];
    let free = idle_children(stale(), 7, &None, &None, 1, now());
    assert_eq!(free.len(), 1, "expected the stale dir to be picked");

    let lsof = Some("p41\ncsh\nfcwd\nn/s/session-stale\n".to_string());
    let picked = idle_children(stale(), 7, &lsof, &None, 1, now());
    assert!(picked.is_empty(), "stale-but-busy dir was offered for deletion: {picked:?}");
}

#[test]
fn idle_children_ignores_symlinks() {
    let link = Candidate { is_symlink: true, ..child("link", 60, 8192) };
    let picked = idle_children_with(vec![link], 7, &Liveness::empty(), now());
    assert!(picked.is_empty(), "symlink was followed: {picked:?}");
}

#[test]
fn candidates_are_listed_without_walking_anything() {
    let link = Candidate { is_symlink: true, ..child("link", 0, 0) };
    let candidates =
        idle_candidates(vec![child("session-b", 0, 0), link, child("session-a", 0, 0)]);
    let names: Vec<&str> = candidates.iter().map(|c| c.path.as_str()).collect();
    assert_eq!(names, vec!["/s/session-a", "/s/session-b"]);
}

#[test]
fn one_child_measured_alone_agrees_with_the_whole_set() {
    // The screen measures these one at a time so it can report between
    // them; the delete asks for the whole set. Both have to say the same
    // thing about the same child.
    let live = Liveness::empty();
    let one = idle_child(&child("session-stale", 30, 8192), 7, &live, now())
        .expect("stale enough to count");
    let all = idle_children_with(vec![child("session-stale", 30, 8192)], 7, &live, now());

    assert_eq!(all.len(), 1);
    assert_eq!(all[0].1, one);
    assert!(one >= 8192, "{one}");
}

#[test]
fn a_fresh_child_is_worth_nothing_to_the_estimate() {
    assert_eq!(
        idle_child(&child("session-fresh", 0, 8192), 7, &Liveness::empty(), now()),
        None
    );
}

fn facts() -> CleanFacts {
    CleanFacts {
        exists: true,
        size: 30,
        file_len: 5,
        listing: Ok(vec!["/c/a.bin".to_string(), "/c/sub".to_string()]),
        files: vec![("/c/x.dmg".to_string(), Some(9)), ("/c/y.txt".to_string(), Some(4))],
        idle: vec![("/c/old".to_string(), 7)],
    }
}

#[test]
fn remove_contents_keeps_parent_dir() {
    let target = Target::new("test", "", 0, CleanAction::RemoveContents("/c".into()));
    let gone = target.to_remove(&facts()).unwrap();
    assert_eq!(gone, ["/c/a.bin", "/c/sub"]);
    assert!(!gone.contains(&"/c".to_string()), "parent dir must remain");
}

#[test]
fn emptying_a_directory_frees_all_that_was_in_it() {
    let target = Target::new("test", "", 0, CleanAction::RemoveContents("/c".into()));
    let ran = CommandRun::Succeeded;
    assert_eq!(target.clean(&facts(), &vec![None, None], &ran), Ok(30));
    let refused = vec![None, Some(removal_failed("/c/sub", " denied\n"))];
    assert_eq!(target.clean(&facts(), &refused, &ran).unwrap_err(), "rm -rf /c/sub: denied");
    let closed = CleanFacts { listing: Err("read /c: denied".to_string()), ..facts() };
    assert_eq!(target.clean(&closed, &vec![], &ran).unwrap_err(), "read /c: denied");
    let gone = CleanFacts { exists: false, size: 0, ..facts() };
    assert_eq!(target.to_remove(&gone), Ok(vec![]));
    assert_eq!(target.clean(&gone, &vec![], &ran), Ok(0));
}

#[test]
fn each_action_says_what_goes_and_what_that_frees() {
    let ran = CommandRun::Succeeded;
    let ok = |n: usize| -> Vec<Option<String>> { (0..n).map(|_| None).collect() };
    let dmg = Target::new("d", "", 9, CleanAction::RemoveByExtension("/c".into(), "dmg".into()));
    assert_eq!(dmg.to_remove(&facts()).unwrap(), ["/c/x.dmg"]);
    assert_eq!(dmg.clean(&facts(), &ok(1), &ran), Ok(9));
    let idle =
        Target::new("i", "", 0, CleanAction::RemoveIdleChildren { dir: "/c".into(), idle_days: 7 });
    assert_eq!(idle.to_remove(&facts()).unwrap(), ["/c/old"]);
    assert_eq!(idle.clean(&facts(), &ok(1), &ran), Ok(7));
    let command = Target::unknown("c", "", CleanAction::RunCommand("brew".into(), vec![]));
    assert!(command.to_remove(&facts()).unwrap().is_empty());
    assert!(command.clean(&facts(), &ok(0), &ran).is_ok());
    assert!(command
        .clean(&facts(), &ok(0), &CommandRun::Failed("no kegs".to_string()))
        .is_err());
    assert!(command
        .clean(&facts(), &ok(0), &CommandRun::NotStarted("not found".to_string()))
        .is_err());
    assert_eq!(files_by_extension_size(&facts().files, "dmg"), 9);
    assert!(removal_failed("/c/a.bin", "denied").contains("/c/a.bin"));
    assert!(overlaps("/a/b", "/a/b/c") && !overlaps("/a/b", "/a/bc"));
}

fn dir_node(path: &str, entries: Vec<Node>) -> Node {
    Node {
        path: path.to_string(),
        meta: Ok(Meta { is_dir: true, ..meta(2, 0) }),
        listing: Listing::Opened(entries),
    }
}

fn file_node(path: &str, ino: u64, bytes: u64) -> Node {
    Node { path: path.to_string(), meta: Ok(meta(ino, bytes)), listing: Listing::Opened(vec![]) }
}

fn root(path: &str) -> Root {
    Root { name: "test".into(), path: path.to_string() }
}

fn rule(category: &str, label: &str, path: &str) -> Rule {
    Rule { category: category.into(), label: label.into(), path: path.into() }
}

fn volume() -> Node {
    dir_node(
        "/v",
        vec![
            dir_node("/v/one", vec![file_node("/v/one/a.bin", 11, 64 * 1024)]),
            dir_node("/v/two", vec![file_node("/v/two/b.bin", 12, 128 * 1024)]),
            dir_node(
                "/v/nobody-listed-this",
                vec![file_node("/v/nobody-listed-this/big.bin", 13, 512 * 1024)],
            ),
        ],
    )
}

#[test]
fn categories_and_unattributed_together_equal_what_was_measured() {
    // The categories and the rest are tied to the disk they describe.
    let rules = vec![rule("Named", "named", "/v/one")];
    let audit = scan_with(&vec![root("/v")], &rules, &vec![volume()]);

    assert_eq!(audit.measured(), audit.attributed() + audit.unattributed());
    assert_eq!(audit.categories.len(), 1);
    assert_eq!(audit.categories[0].name, "Named");
    assert_eq!(audit.unreadable_count(), 0);
}

#[test]
fn the_biggest_unnamed_directory_is_named_in_the_gap() {
    let audit = scan_with(&vec![root("/v")], &vec![], &vec![volume()]);

    let largest = audit.largest_unattributed(3);
    assert_eq!(largest[0].0, "/v/nobody-listed-this");
    assert!(largest[0].1 >= 512 * 1024);
}

#[test]
fn paths_sharing_a_category_are_summed_into_it() {
    let rules = vec![rule("Tools", "one", "/v/one"), rule("Tools", "two", "/v/two")];
    let audit = scan_with(&vec![root("/v")], &rules, &vec![volume()]);

    assert_eq!(audit.categories.len(), 1);
    assert_eq!(audit.categories[0].paths.len(), 2);
    assert_eq!(audit.categories[0].paths[0].label, "two", "not sorted");
    assert!(audit.categories[0].total_size >= 192 * 1024);
}

#[test]
fn rules_that_matched_nothing_are_left_out() {
    let rules = vec![rule("Ghost", "missing", "/v/does-not-exist")];
    let audit = scan_with(&vec![root("/v")], &rules, &vec![volume()]);
    assert!(audit.categories.is_empty());
    assert!(group(&rules, &vec![0]).is_empty());
    assert_eq!(group(&rules, &vec![5])[0].total_size, 5);
}

#[test]
fn the_machines_own_rules_name_what_they_name() {
    let home_node = dir_node(
        "/Users/me",
        vec![dir_node("/Users/me/.cargo", vec![file_node("/Users/me/.cargo/x", 21, 4096)])],
    );
    let audit = scan(
        System::MacOs,
        &home(),
        &None,
        &assistant(),
        &vec![root("/Users/me")],
        &vec![home_node],
    );
    assert_eq!(audit.categories.len(), 1);
    assert_eq!(audit.categories[0].name, "Rust");
}

#[test]
fn idle_children_rise_by_path_and_none_comes_twice() {
    let names = ["b", "a", "c/d", "c"];
    let children: Vec<Candidate> = names.iter().map(|n| child(n, 30, 512)).collect();
    let picked = idle_children_with(children, 7, &Liveness::empty(), now());
    let paths: Vec<&str> = picked.iter().map(|(p, _)| p.as_str()).collect();
    assert_eq!(paths, ["/s/a", "/s/b", "/s/c", "/s/c/d"]);
}

#[test]
fn no_directory_has_two_rows_that_empty_it() {
    let mut seen: Vec<String> = Vec::new();
    for target in all_targets() {
        if let Some(path) = emptied_dir(target.action()) {
            assert!(!seen.contains(&path.to_string()), "{path} is emptied twice");
            seen.push(path.to_string());
        }
    }
    assert!(!seen.is_empty());
}

#[test]
fn a_category_is_listed_once_with_the_bytes_of_its_paths() {
    let rules = vec![
        rule("Tools", "one", "/v/one"),
        rule("Other", "rest", "/v/nobody-listed-this"),
        rule("Tools", "two", "/v/two"),
        rule("Tools", "none", "/v/none"),
    ];
    let audit = scan_with(&vec![root("/v")], &rules, &vec![volume()]);
    let names: Vec<&str> = audit.categories.iter().map(|c| c.name.as_str()).collect();
    assert_eq!(names, ["Other", "Tools"]);
    for category in &audit.categories {
        let sum: u64 = category.paths.iter().map(|p| p.size).sum();
        assert_eq!(category.total_size, sum);
        for path in &category.paths {
            assert!(path.size > 0);
            assert!(rules.iter().any(|r| r.category == category.name
                && r.label == path.label
                && r.path == path.path));
        }
    }
}

#[test]
fn only_a_mac_is_known_well_enough_to_name_anything() {
    let elsewhere = System::Other;
    assert!(audit_categories(elsewhere, &home(), &None, &assistant()).is_empty());
    assert!(attribution_rules(elsewhere, &home(), &None, &assistant()).is_empty());
    assert!(cleanable_paths(elsewhere, &home(), &None).is_empty());
    assert!(cleanup_targets(&Machine { system: elsewhere, ..machine() }).is_empty());
    assert!(!attribution_rules(System::MacOs, &home(), &None, &assistant()).is_empty());
}
