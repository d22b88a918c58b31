//! One walk of the volume: every byte lands somewhere, and only once.
use workstation::disk::progress::{
    sweep, sweep_streaming, sweep_unattended, sweep_unattended_streaming, Flow, Progress,
};
use workstation::disk::roots::{
    app_name, discover_roots, display_rank, firmlinked, friendly_name, user_roots, VolumeEntry,
};
use workstation::disk::sweep::{
    charge, refusal, Denial, Denials, Listing, Meta, Node, OpenError, Root, Rule, Seen, MAX_UNREADABLE_LISTED,
};

const PROTECTED: OpenError = OpenError { errno: Some(1), permission_denied: true };
const FORBIDDEN: OpenError = OpenError { errno: Some(13), permission_denied: true };
const MISSING: OpenError = OpenError { errno: Some(2), permission_denied: false };

fn root(name: &str, path: &str) -> Root {
    Root { name: name.into(), path: path.into() }
}

fn rule(category: &str, path: &str) -> Rule {
    Rule { category: category.into(), label: category.into(), path: path.into() }
}

fn meta(ino: u64, nlink: u64, bytes: u64, is_dir: bool) -> Meta {
    Meta { dev: 1, ino, nlink, blocks: bytes / 512, is_dir }
}

fn dir(path: &str, entries: Vec<Node>) -> Node {
    Node {
        path: path.into(),
        meta: Ok(meta(1, 2, 0, true)),
        listing: Listing::Opened(entries),
    }
}

fn locked(path: &str, error: OpenError) -> Node {
    Node { listing: Listing::Refused(error), ..dir(path, vec![]) }
}

fn file(path: &str, ino: u64, bytes: u64) -> Node {
    Node {
        path: path.into(),
        meta: Ok(meta(ino, 1, bytes, false)),
        listing: Listing::Opened(vec![]),
    }
}

#[test]
fn every_byte_lands_somewhere() {
    // Total equals attributed plus unattributed, always.
    let disk = dir(
        "/t",
        vec![
            dir("/t/known", vec![file("/t/known/a.bin", 11, 128 * 1024)]),
            dir("/t/unknown", vec![file("/t/unknown/b.bin", 12, 256 * 1024)]),
        ],
    );
    let swept = sweep(&vec![root("test", "/t")], &vec![rule("Known", "/t/known")], &vec![disk]);

    let attributed: u64 = swept.rule_sizes.iter().sum();
    assert_eq!(swept.total(), attributed + swept.unattributed());
    assert!(attributed >= 128 * 1024, "attributed {attributed}");
    assert!(swept.unattributed() >= 256 * 1024, "unattributed {}", swept.unattributed());
}

#[test]
fn every_immediate_child_is_kept_with_its_size() {
    // Drilling one level should not need a second walk: the sweep already
    // measured each child to arrive at the root total.
    let disk = dir(
        "/t",
        vec![
            dir("/t/small", vec![file("/t/small/f.bin", 11, 16 * 1024)]),
            dir("/t/big", vec![file("/t/big/f.bin", 12, 512 * 1024)]),
        ],
    );
    let swept = sweep(&vec![root("test", "/t")], &vec![], &vec![disk]);
    let children = &swept.roots[0].children;

    assert_eq!(children.len(), 2);
    assert!(children[0].0.ends_with("big"), "not biggest first");
    assert!(children[0].1 >= 512 * 1024);
    assert_eq!(
        children.iter().map(|(_, s)| s).sum::<u64>(),
        swept.roots[0].total,
        "the children must account for the root"
    );
}

#[test]
fn unattributed_bytes_are_reported_not_dropped() {
    let stray = "/t/nobody-listed-this";
    let disk = dir("/t", vec![dir(stray, vec![file(&format!("{stray}/big.bin"), 11, 512 * 1024)])]);
    let swept = sweep(&vec![root("test", "/t")], &vec![], &vec![disk]);

    let usage = &swept.roots[0];
    assert!(usage.unattributed_total >= 512 * 1024);
    assert_eq!(usage.unattributed[0].0, stray);
}

#[test]
fn nested_rules_beat_the_rule_above_them() {
    let disk = dir(
        "/t",
        vec![dir(
            "/t/outer",
            vec![
                file("/t/outer/outer.bin", 11, 64 * 1024),
                dir("/t/outer/inner", vec![file("/t/outer/inner/inner.bin", 12, 256 * 1024)]),
            ],
        )],
    );
    let swept = sweep(
        &vec![root("test", "/t")],
        &vec![rule("Outer", "/t/outer"), rule("Inner", "/t/outer/inner")],
        &vec![disk],
    );
    assert_eq!(swept.rule_sizes, vec![64 * 1024, 256 * 1024]);
}

#[test]
fn a_nested_root_is_counted_once_by_the_inner_root() {
    // Home and ~/Library overlap on disk. Whichever root is more specific
    // owns the bytes, and the outer one must not count them again.
    let library = || dir("/t/Library", vec![file("/t/Library/big.bin", 11, 512 * 1024)]);
    let outer = dir("/t", vec![library(), file("/t/small.bin", 12, 16 * 1024)]);
    let swept = sweep(
        &vec![root("Home", "/t"), root("Library", "/t/Library")],
        &vec![],
        &vec![outer, library()],
    );

    let home = swept.roots.iter().find(|r| r.name == "Home").unwrap();
    let library = swept.roots.iter().find(|r| r.name == "Library").unwrap();
    assert!(library.total >= 512 * 1024, "library {}", library.total);
    assert!(home.total < 512 * 1024, "home double-counted the nested root: {}", home.total);
}

#[test]
fn a_hardlink_across_two_roots_is_charged_once() {
    let linked = |path: &str| Node {
        meta: Ok(meta(77, 2, 1024 * 1024, false)),
        ..file(path, 77, 0)
    };
    let swept = sweep(
        &vec![root("a", "/t/a"), root("b", "/t/b")],
        &vec![],
        &vec![
            dir("/t/a", vec![linked("/t/a/file.bin")]),
            dir("/t/b", vec![linked("/t/b/file.bin")]),
        ],
    );
    assert_eq!(swept.total(), 1024 * 1024, "hardlink billed to both roots");
    let mut seen = Seen::new();
    let twice = meta(5, 2, 512, false);
    assert_eq!((charge(&twice, &mut seen), charge(&twice, &mut seen)), (512, 0));
}

#[test]
fn an_unreadable_directory_is_unknown_not_empty() {
    let disk = dir("/t", vec![locked("/t/locked", FORBIDDEN)]);
    let swept = sweep(&vec![root("test", "/t")], &vec![], &vec![disk]);

    assert_eq!(swept.unreadable_count(), 1);
    assert_eq!(swept.roots[0].unreadable[0].path, "/t/locked");
    // A unix refusal, not a privacy one. Telling the user to grant Full Disk
    // Access here would be advice that cannot work.
    assert_eq!(swept.roots[0].unreadable[0].denial, Denial::Forbidden);
    assert_eq!(swept.denials().forbidden, 1);
    assert_eq!(swept.denials().protected, 0);

    let private = dir("/t", vec![locked("/t/tcc", PROTECTED)]);
    let swept = sweep(&vec![root("test", "/t")], &vec![], &vec![private]);
    assert_eq!(swept.denials().of(Denial::Protected), 1);
}

#[test]
fn a_closed_directory_is_left_unopened_and_reads_as_unknown() {
    // The dialog is raised by the open, so the only way to not raise it is
    // to not open. Nothing inside gets counted, and the row says why.
    let gated = "/t/Documents";
    let disk = dir(
        "/t",
        vec![
            dir(gated, vec![file("/t/Documents/secret.bin", 11, 256 * 1024)]),
            dir("/t/open", vec![file("/t/open/plain.bin", 12, 64 * 1024)]),
        ],
    );
    let swept = sweep_unattended(
        &vec![root("test", "/t")],
        &vec![],
        &vec![gated.to_string()],
        &vec![disk],
    );

    let usage = &swept.roots[0];
    assert!(
        swept.total() < 256 * 1024,
        "the closed directory was opened: {}",
        swept.total()
    );
    assert!(swept.total() >= 64 * 1024, "the open one was not measured");
    assert_eq!(usage.refused_children.len(), 1);
    assert_eq!(usage.refused_children[0].path, gated);
    assert_eq!(usage.refused_children[0].denial, Denial::Unattended);
    assert_eq!(
        swept.denials(),
        Denials {
            unattended: 1,
            ..Denials::default()
        }
    );
}

#[test]
fn denial_counts_survive_the_sample_cap() {
    // The sample is capped so one bad tree cannot fill the report, which
    // means counting the sample would understate the truth. Anything
    // printed as a count has to come from the counters instead.
    let locked_count = MAX_UNREADABLE_LISTED + 7;
    let holder = dir(
        "/t/holder",
        (0..locked_count).map(|i| locked(&format!("/t/holder/{i}"), FORBIDDEN)).collect(),
    );
    let swept = sweep(&vec![root("test", "/t")], &vec![], &vec![dir("/t", vec![holder])]);
    assert_eq!(swept.roots[0].unreadable.len(), MAX_UNREADABLE_LISTED);
    assert_eq!(swept.roots[0].unreadable_count, locked_count);
    assert_eq!(swept.denials().total(), locked_count);
}

#[test]
fn a_root_that_is_not_there_is_not_a_refusal() {
    // Nothing to measure and nothing to grant: advice about sudo or Full
    // Disk Access here would be advice about a path that does not exist.
    let gone = Node {
        path: "/t/gone".into(),
        meta: Err(MISSING),
        listing: Listing::Refused(MISSING),
    };
    let swept = sweep(&vec![root("gone", "/t/gone")], &vec![], &vec![gone]);

    assert_eq!(swept.total(), 0);
    assert_eq!(swept.denials().total(), 0);
    assert!(refusal("/t/gone", &MISSING).is_none());
}

fn eight() -> Node {
    dir(
        "/t",
        (0..8)
            .map(|i| {
                dir(&format!("/t/sub{i}"), vec![file(&format!("/t/sub{i}/f"), 11 + i, 65_536)])
            })
            .collect(),
    )
}

#[test]
fn streaming_announces_roots_then_finishes_every_one() {
    let disk = dir(
        "/t",
        ["a", "b"]
            .iter()
            .enumerate()
            .map(|(i, name)| {
                let path = format!("/t/{name}");
                dir(&path, vec![file(&format!("{path}/f.bin"), 11 + i as u64, 128 * 1024)])
            })
            .collect(),
    );
    let (events, result) =
        sweep_streaming(&vec![root("test", "/t")], &vec![], &vec![disk], &vec![]);

    let swept = result.expect("not cancelled");
    assert!(matches!(events.first(), Some(Progress::Started { jobs: 2, .. })));
    let done: Vec<&Progress> =
        events.iter().filter(|e| matches!(e, Progress::RootDone { .. })).collect();
    assert_eq!(done.len(), 1, "each root must be finished exactly once");
    match done[0] {
        Progress::RootDone { bytes, denials, .. } => {
            assert_eq!(*bytes, swept.roots[0].total);
            assert_eq!(*denials, swept.roots[0].denials);
        }
        other => panic!("{other:?}"),
    }
    let scanned: Vec<u64> = events
        .iter()
        .filter_map(|e| match e {
            Progress::Scanned { root_bytes, .. } => Some(*root_bytes),
            _ => None,
        })
        .collect();
    assert_eq!(scanned.len(), 2, "one event per immediate child");
    assert!(
        scanned.windows(2).all(|w| w[0] <= w[1]),
        "the running total must only grow: {scanned:?}"
    );
    assert_eq!(*scanned.last().unwrap(), swept.total());
}

#[test]
fn cancelling_stops_the_walk_and_returns_nothing() {
    let answers = vec![Flow::Continue, Flow::Cancel];
    let (said, result) =
        sweep_streaming(&vec![root("test", "/t")], &vec![], &vec![eight()], &answers);
    assert!(result.is_none(), "a cancelled sweep has no result to give");
    assert!(said.len() < 8);
    let (_, unattended) = sweep_unattended_streaming(
        &vec![root("test", "/t")],
        &vec![],
        &vec![],
        &vec![eight()],
        &vec![Flow::Cancel],
    );
    assert!(unattended.is_none());
}

#[test]
fn a_hardlink_between_a_loose_file_and_a_subtree_is_charged_once() {
    // The root's own files are measured while planning and its
    // subdirectories by the workers. Both have to consult the same set of
    // seen inodes or a link spanning the two gets billed twice.
    let linked = |path: &str| Node {
        meta: Ok(meta(77, 2, 1024 * 1024, false)),
        ..file(path, 77, 0)
    };
    let disk =
        dir("/t", vec![linked("/t/loose.bin"), dir("/t/sub", vec![linked("/t/sub/same.bin")])]);
    let swept = sweep(&vec![root("test", "/t")], &vec![], &vec![disk]);
    assert_eq!(swept.total(), 1024 * 1024);
}

#[test]
fn a_refused_immediate_child_is_named_as_refused() {
    let disk = dir(
        "/t",
        vec![
            locked("/t/locked", FORBIDDEN),
            dir("/t/open", vec![file("/t/open/plain.bin", 11, 64 * 1024)]),
        ],
    );
    let swept = sweep(&vec![root("test", "/t")], &vec![], &vec![disk]);

    let usage = &swept.roots[0];
    assert_eq!(usage.refused_children.len(), 1);
    assert_eq!(usage.refused_children[0].path, "/t/locked");
    assert_eq!(usage.refused_children[0].denial, Denial::Forbidden);
    let sized = usage.children.iter().find(|(path, _)| path == "/t/locked");
    assert!(sized.expect("a refused child is still a child").1 < 64 * 1024);
}

#[test]
fn a_refusal_deeper_down_leaves_the_child_measured() {
    // The child opened, so its number is real and merely understated.
    // Calling it unknown would throw away a measurement.
    let child = dir(
        "/t/child",
        vec![file("/t/child/plain.bin", 11, 64 * 1024), locked("/t/child/locked", FORBIDDEN)],
    );
    let swept = sweep(&vec![root("test", "/t")], &vec![], &vec![dir("/t", vec![child])]);

    let usage = &swept.roots[0];
    assert!(usage.refused_children.is_empty(), "the refusal is a grandchild");
    assert_eq!(usage.children.len(), 1);
    assert!(usage.children[0].1 >= 64 * 1024);
    assert_eq!(swept.denials().of(Denial::Forbidden), 1, "still reported as a refusal");
}

#[test]
fn a_closed_directory_deeper_down_is_left_unopened_too() {
    // The check is per open, not per root child, or a gated directory
    // two levels down would still raise its dialog.
    let gated = "/t/child/Photos Library.photoslibrary";
    let child = dir(
        "/t/child",
        vec![
            file("/t/child/plain.bin", 11, 64 * 1024),
            dir(gated, vec![file(&format!("{gated}/secret.bin"), 12, 256 * 1024)]),
        ],
    );
    let swept = sweep_unattended(
        &vec![root("test", "/t")],
        &vec![],
        &vec![gated.to_string()],
        &vec![dir("/t", vec![child])],
    );

    let usage = &swept.roots[0];
    assert!(swept.total() < 256 * 1024, "{}", swept.total());
    assert!(usage.refused_children.is_empty(), "the child itself opened");
    assert_eq!(usage.unreadable.len(), 1);
    assert_eq!(usage.unreadable[0].path, gated);
    assert_eq!(usage.unreadable[0].denial, Denial::Unattended);
}

#[test]
fn a_closed_root_is_unknown_not_empty() {
    let swept = sweep_unattended(
        &vec![root("gated", "/t")],
        &vec![],
        &vec!["/t".to_string()],
        &vec![dir("/t", vec![file("/t/f.bin", 11, 64 * 1024)])],
    );
    assert_eq!(swept.total(), 0);
    assert_eq!(swept.denials().of(Denial::Unattended), 1);
    assert_eq!(swept.roots[0].unreadable[0].denial, Denial::Unattended);
}

#[test]
fn an_attended_sweep_opens_everything() {
    let gated = dir("/t/Documents", vec![file("/t/Documents/secret.bin", 11, 256 * 1024)]);
    let swept = sweep(&vec![root("test", "/t")], &vec![], &vec![dir("/t", vec![gated])]);
    assert!(swept.total() >= 256 * 1024, "{}", swept.total());
    assert_eq!(swept.denials().total(), 0);
}

#[test]
fn a_root_with_no_subdirectories_is_finished_before_any_worker_runs() {
    let disk = dir("/t", vec![file("/t/only.bin", 11, 64 * 1024)]);
    let (said, result) = sweep_streaming(&vec![root("test", "/t")], &vec![], &vec![disk], &vec![]);
    let swept = result.unwrap();
    match &said[1] {
        Progress::RootDone { root: 0, bytes, .. } => {
            assert!(*bytes >= 64 * 1024, "loose files went missing: {bytes}");
            assert_eq!(*bytes, swept.total());
        }
        other => panic!("nothing else would ever mark it done: {other:?}"),
    }
    assert!(!said.iter().any(|p| matches!(p, Progress::Scanned { .. })));
}

#[test]
fn a_root_reports_the_same_bytes_when_it_finishes_as_the_sweep_does() {
    let disk = dir(
        "/t",
        vec![
            file("/t/loose.bin", 11, 32 * 1024),
            dir("/t/a", vec![file("/t/a/f.bin", 12, 128 * 1024)]),
            dir("/t/b", vec![file("/t/b/f.bin", 13, 128 * 1024)]),
        ],
    );
    let (said, result) = sweep_streaming(&vec![root("test", "/t")], &vec![], &vec![disk], &vec![]);
    let mut done: Vec<u64> = Vec::new();
    for p in &said {
        if let Progress::RootDone { bytes, .. } = p {
            done.push(*bytes);
        }
    }
    assert_eq!(done, vec![result.unwrap().roots[0].total]);
    assert!(done[0] >= 32 * 1024 + 256 * 1024, "{done:?}");
}

#[test]
fn a_root_that_cannot_be_stated_is_unknown_rather_than_empty() {
    // Stat is refused when a parent directory cannot be traversed. Zero bytes
    // and zero denials is exactly how an empty directory arrives.
    let inside = Node {
        path: "/t/closed/inside".into(),
        meta: Err(FORBIDDEN),
        listing: Listing::Refused(FORBIDDEN),
    };
    let (said, result) =
        sweep_streaming(&vec![root("inside", "/t/closed/inside")], &vec![], &vec![inside], &vec![]);
    let swept = result.expect("not cancelled");
    assert_eq!(swept.roots[0].total, 0);
    assert_eq!(swept.denials().total(), 1, "the refusal must be recorded");
    let mut done: Vec<(Denials, u64)> = Vec::new();
    for p in &said {
        if let Progress::RootDone { denials, bytes, .. } = p {
            done.push((*denials, *bytes));
        }
    }
    assert_eq!(done, vec![(swept.roots[0].denials, 0)]);
}

#[test]
fn symlinks_are_counted_but_not_followed() {
    // A link is an entry that is no directory: its own blocks are all it adds.
    let swept =
        sweep(&vec![root("test", "/t")], &vec![], &vec![dir("/t", vec![file("/t/link", 9, 512)])]);
    assert_eq!(swept.total(), 512);
}

#[test]
fn the_terminal_named_in_the_advice_is_the_one_running_the_scan() {
    // Full Disk Access attaches to the terminal application owning the
    // session, so naming anything else is advice that cannot work.
    let named = |term: &str| app_name(&Some(term.to_string()));
    assert_eq!(named("ghostty"), "Ghostty");
    assert_eq!(named("Apple_Terminal"), "Terminal");
    assert_eq!(named("iTerm.app"), "iTerm");
    assert_eq!(named("vscode"), "VS Code");
    assert_eq!(named("WezTerm"), "WezTerm");
}

#[test]
fn advice_stays_generic_when_the_terminal_is_unknown() {
    assert_eq!(app_name(&None), "your terminal app");
    assert_eq!(app_name(&Some("   ".to_string())), "your terminal app");
}

fn entry(name: &str) -> VolumeEntry {
    VolumeEntry {
        path: format!("/System/Volumes/Data/{name}"),
        is_dir: true,
        short_is_same: true,
    }
}

fn roots() -> Vec<Root> {
    let listed = ["cores", "mnt", "pkg", "Users", "Applications", "Library"];
    discover_roots(
        Some(listed.iter().map(|n| entry(n)).collect()),
        &Some("/Users/me".to_string()),
    )
}

#[test]
fn roots_come_from_the_volume_and_do_not_overlap() {
    let roots = roots();
    assert!(!roots.is_empty());

    for (i, a) in roots.iter().enumerate() {
        for (j, b) in roots.iter().enumerate() {
            if i == j {
                continue;
            }
            assert_ne!(a.path, b.path, "duplicate root {}", a.path);
        }
    }
}

#[test]
fn roots_use_the_short_firmlinked_path() {
    // /Applications and /System/Volumes/Data/Applications are one
    // directory; printing the long form would be technically true and
    // useless.
    let roots = roots();
    let apps = roots.iter().find(|r| r.name == "Applications").unwrap();
    assert_eq!(apps.path, "/Applications");
    let long = "/System/Volumes/Data/x";
    assert_eq!(firmlinked(long, false), long);
    assert_eq!(firmlinked(long, true), "/x");
}

#[test]
fn home_and_user_library_are_separate_roots() {
    let roots = roots();
    assert!(roots.iter().any(|r| r.name == "Home"));
    assert!(roots.iter().any(|r| r.name == "User Library"));
    assert_eq!(user_roots(&None)[0].path, "/Users");
}

#[test]
fn the_roots_worth_reading_come_first() {
    // The volume lists cores, mnt and pkg before Users. Anything reading
    // top to bottom wants the home directory first.
    let names: Vec<String> = roots().into_iter().map(|r| r.name).collect();
    assert_eq!(names[0], "Home");
    assert_eq!(names[1], "User Library");
    let home = names.iter().position(|n| n == "Home").unwrap();
    for trivial in ["cores", "mnt", "pkg"] {
        if let Some(at) = names.iter().position(|n| n == trivial) {
            assert!(at > home, "{trivial} ranked above Home");
        }
    }
    assert!(display_rank("Home") < display_rank("cores"));
    assert_eq!(friendly_name("cores"), "cores");
}
