//! What every part shares: resources, what commands came to, and how plans are shown.
use workstation::cli::{change_mark, log_filter, scope_list, tally, tally_line, Colour};
use workstation::disk::sweep::Root;
use workstation::order::sort;
use workstation::resource::{
    checked, create_if_absent, Change, CommandOutput, Failure, ResourceId, ResourceState,
};

#[test]
fn a_plan_is_tallied_by_what_it_does() {
    let changes = vec![
        Change::Create,
        Change::NoOp,
        Change::Update("1.0 -> 1.1".to_string()),
        Change::Create,
        Change::Remove,
    ];
    let counted = tally(&changes);
    assert_eq!((counted.creates, counted.updates, counted.removes), (2, 1, 1));
    assert_eq!(tally_line(counted), "2 to create, 1 to update, 1 to remove");
    let marks: Vec<(String, Colour)> = changes.iter().map(change_mark).collect();
    assert_eq!(marks[0], ("+".to_string(), Colour::Green));
    assert_eq!(marks[1], ("=".to_string(), Colour::Dim));
    assert_eq!(marks[2], ("~".to_string(), Colour::Yellow));
    assert_eq!(marks[4], ("-".to_string(), Colour::Red));
}

#[test]
fn asking_for_more_outweighs_asking_for_quiet() {
    assert_eq!(log_filter(0, true), "error");
    assert_eq!(log_filter(0, false), "warn");
    assert_eq!(log_filter(1, true), "info");
    assert_eq!(log_filter(2, false), "debug");
    assert_eq!(log_filter(9, false), "trace");
}

#[test]
fn scopes_are_listed_in_brackets() {
    assert_eq!(scope_list(&vec!["a".to_string(), "b".to_string()]), "[a, b]");
    assert_eq!(scope_list(&Vec::new()), "[]");
}

#[test]
fn what_is_absent_is_created_and_nothing_else_is_touched() {
    assert!(matches!(create_if_absent(&ResourceState::Absent), Change::Create));
    assert!(create_if_absent(&ResourceState::present()).is_noop());
    assert!(create_if_absent(&ResourceState::Unknown("?".to_string())).is_noop());
    assert!(ResourceState::present_with_version("1").is_present());
    assert!(!ResourceState::Absent.is_present());
    let id = ResourceId::new("brew::formula", "git");
    assert_eq!((id.kind.as_str(), id.name.as_str()), ("brew::formula", "git"));
}

#[test]
fn a_failed_command_is_quoted_with_what_it_said() {
    let out = |success| CommandOutput {
        stdout: String::new(),
        stderr: "no such keg".to_string(),
        success,
    };
    assert!(checked("brew list git", &out(true)).is_ok());
    let failure = checked("brew list git", &out(false)).unwrap_err();
    assert_eq!(failure.message(), "`brew list git` failed: no such keg");
    assert_eq!(Failure::Other("offline".to_string()).message(), "offline");
}

#[test]
fn what_stands_level_keeps_its_order() {
    let root = |name: &str, path: &str| Root { name: name.to_string(), path: path.to_string() };
    let sorted = sort(vec![
        root("opt", "/b"),
        root("cores", "/1"),
        root("opt", "/a"),
        root("Home", "/h"),
        root("cores", "/0"),
    ]);
    let paths: Vec<&str> = sorted.iter().map(|r| r.path.as_str()).collect();
    assert_eq!(paths, ["/h", "/b", "/a", "/1", "/0"]);
}
