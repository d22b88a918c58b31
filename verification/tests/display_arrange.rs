//! Where displays stand and what makes one of them the main one.
use workstation::display::arrange::{
    current_main, has_duplicate_key, layout_changed, plan_moves, position_label, DisplayInfo, Move,
};
use workstation::display::config::Prefs;
use workstation::display::key::{DisplayKey, KeyError};
use workstation::display::platform::{
    apply_moves, list_displays, remembered, watch, Act, Doing,
};
use workstation::display::{enforce, Outcome};

const MONITOR_1: DisplayKey = DisplayKey {
    vendor: 4268,
    model: 53466,
    serial: 911690818,
};

const MONITOR_2: DisplayKey = DisplayKey {
    vendor: 4268,
    model: 53465,
    serial: 893603394,
};

const BUILTIN: DisplayKey = DisplayKey {
    vendor: 1552,
    model: 40967,
    serial: 0,
};

fn display(id: u32, key: DisplayKey, origin: (i32, i32), main: bool) -> DisplayInfo {
    DisplayInfo {
        id,
        key,
        builtin: key == BUILTIN,
        main,
        origin,
        size: (1920, 1080),
    }
}

#[test]
fn no_moves_when_target_is_already_main() {
    let displays = vec![
        display(2, MONITOR_1, (0, 0), true),
        display(3, MONITOR_2, (1920, 0), false),
    ];
    assert_eq!(plan_moves(&displays, MONITOR_1), Some(Vec::new()));
}

#[test]
fn shifts_arrangement_so_target_lands_at_origin() {
    let displays = vec![
        display(2, MONITOR_1, (1920, 0), false),
        display(3, MONITOR_2, (0, 0), true),
    ];
    let moves = plan_moves(&displays, MONITOR_1).unwrap();
    assert_eq!(
        moves,
        vec![
            Move {
                id: 2,
                origin: (0, 0)
            },
            Move {
                id: 3,
                origin: (-1920, 0)
            },
        ]
    );
}

#[test]
fn preserves_relative_layout() {
    let displays = vec![
        display(1, BUILTIN, (0, 0), true),
        display(2, MONITOR_1, (1512, -400), false),
        display(3, MONITOR_2, (3432, -400), false),
    ];
    let moves = plan_moves(&displays, MONITOR_1).unwrap();

    let gap_before = displays[2].origin.0 - displays[1].origin.0;
    let gap_after = moves[2].origin.0 - moves[1].origin.0;
    assert_eq!(gap_before, gap_after);

    assert_eq!(moves[1].origin, (0, 0));
    assert_eq!(moves[0].origin, (-1512, 400));
    assert_eq!(moves[2].origin, (1920, 0));
}

#[test]
fn handles_vertical_stacking() {
    let displays = vec![
        display(2, MONITOR_1, (0, 1080), false),
        display(3, MONITOR_2, (0, 0), true),
    ];
    let moves = plan_moves(&displays, MONITOR_1).unwrap();
    assert_eq!(moves[0].origin, (0, 0));
    assert_eq!(moves[1].origin, (0, -1080));
}

#[test]
fn returns_none_when_target_is_disconnected() {
    let displays = vec![display(1, BUILTIN, (0, 0), true)];
    assert_eq!(plan_moves(&displays, MONITOR_1), None);
}

#[test]
fn returns_none_for_empty_display_list() {
    assert_eq!(plan_moves(&[], MONITOR_1), None);
}

#[test]
fn single_display_setup_needs_no_moves() {
    let displays = vec![display(2, MONITOR_1, (0, 0), true)];
    assert_eq!(plan_moves(&displays, MONITOR_1), Some(Vec::new()));
}

#[test]
fn finds_current_main() {
    let displays = vec![
        display(2, MONITOR_1, (1920, 0), false),
        display(3, MONITOR_2, (0, 0), true),
    ];
    assert_eq!(current_main(&displays).unwrap().key, MONITOR_2);
}

#[test]
fn falls_back_to_origin_when_main_flag_is_unset() {
    let displays = vec![
        display(2, MONITOR_1, (1920, 0), false),
        display(3, MONITOR_2, (0, 0), false),
    ];
    assert_eq!(current_main(&displays).unwrap().key, MONITOR_2);
}

#[test]
fn labels_two_side_by_side_panels() {
    // The real desk: identical model names, told apart only by position.
    let displays = vec![
        display(2, MONITOR_1, (0, 0), true),
        display(3, MONITOR_2, (1920, 0), false),
    ];
    assert_eq!(position_label(&displays, 2), "left");
    assert_eq!(position_label(&displays, 3), "right");
}

#[test]
fn label_follows_arrangement_not_listing_order() {
    // Same panels, main moved to the right-hand one, so origins go negative.
    let displays = vec![
        display(2, MONITOR_1, (-1920, 0), false),
        display(3, MONITOR_2, (0, 0), true),
    ];
    assert_eq!(position_label(&displays, 2), "left");
    assert_eq!(position_label(&displays, 3), "right");
}

#[test]
fn labels_stacked_panels_by_height() {
    let displays = vec![
        display(2, MONITOR_1, (0, 0), true),
        display(3, MONITOR_2, (0, 1080), false),
    ];
    assert_eq!(position_label(&displays, 2), "top");
    assert_eq!(position_label(&displays, 3), "bottom");
}

#[test]
fn labels_three_panels_end_to_end() {
    let displays = vec![
        display(1, BUILTIN, (1920, 0), false),
        display(2, MONITOR_1, (0, 0), true),
        display(3, MONITOR_2, (3840, 0), false),
    ];
    assert_eq!(position_label(&displays, 2), "leftmost");
    assert_eq!(position_label(&displays, 1), "#2 from left");
    assert_eq!(position_label(&displays, 3), "rightmost");
}

#[test]
fn single_display_needs_no_disambiguation() {
    let displays = vec![display(2, MONITOR_1, (0, 0), true)];
    assert_eq!(position_label(&displays, 2), "only display");
}

#[test]
fn unknown_id_does_not_panic() {
    let displays = vec![
        display(2, MONITOR_1, (0, 0), true),
        display(3, MONITOR_2, (1920, 0), false),
    ];
    assert_eq!(position_label(&displays, 99), "unknown");
}

#[test]
fn first_observation_counts_as_a_change() {
    let displays = vec![display(2, MONITOR_1, (0, 0), true)];
    assert!(layout_changed(None, &displays));
}

#[test]
fn identical_layout_is_not_a_change() {
    let displays = vec![
        display(2, MONITOR_1, (0, 0), true),
        display(3, MONITOR_2, (1920, 0), false),
    ];
    assert!(!layout_changed(Some(&displays), &displays));
}

#[test]
fn menu_bar_moving_is_a_change() {
    let before = vec![
        display(2, MONITOR_1, (0, 0), true),
        display(3, MONITOR_2, (1920, 0), false),
    ];
    let after = vec![
        display(2, MONITOR_1, (-1920, 0), false),
        display(3, MONITOR_2, (0, 0), true),
    ];
    assert!(layout_changed(Some(&before), &after));
}

#[test]
fn unplugging_a_display_is_a_change() {
    let before = vec![
        display(2, MONITOR_1, (0, 0), true),
        display(3, MONITOR_2, (1920, 0), false),
    ];
    let after = vec![display(2, MONITOR_1, (0, 0), true)];
    assert!(layout_changed(Some(&before), &after));
}

#[test]
fn detects_indistinguishable_panels() {
    let displays = vec![
        display(2, MONITOR_1, (0, 0), true),
        display(3, MONITOR_1, (1920, 0), false),
    ];
    assert!(has_duplicate_key(&displays, MONITOR_1));
    assert!(!has_duplicate_key(&displays, MONITOR_2));
}

#[test]
fn round_trips_through_string() {
    let key = DisplayKey::new(4268, 53466, 911690818);
    assert_eq!(key.to_text(), "4268:53466:911690818");
    assert_eq!(DisplayKey::from_str("4268:53466:911690818").unwrap(), key);
}

#[test]
fn hex_matches_system_profiler() {
    let key = DisplayKey::new(4268, 53466, 911690818);
    assert_eq!(key.serial_hex(), "36574c42");
    assert_eq!(key.model_hex(), "d0da");
}

#[test]
fn rejects_malformed_input() {
    assert!(DisplayKey::from_str("4268:53466").is_err());
    assert!(DisplayKey::from_str("4268:53466:912:7").is_err());
    assert!(DisplayKey::from_str("dell:p2419h:one").is_err());
    assert!(DisplayKey::from_str("").is_err());
}

#[test]
fn tolerates_surrounding_whitespace() {
    let key = DisplayKey::from_str(" 4268 : 53466 : 911690818 ").unwrap();
    assert_eq!(key, DisplayKey::new(4268, 53466, 911690818));
}

#[test]
fn zero_serial_is_ambiguous() {
    assert!(DisplayKey::new(4268, 53466, 0).is_ambiguous());
    assert!(!DisplayKey::new(4268, 53466, 1).is_ambiguous());
}

#[test]
fn a_bad_key_says_what_is_wrong_with_it() {
    match DisplayKey::from_str("4268:53466") {
        Err(KeyError::Shape { got }) => assert_eq!(got, "4268:53466"),
        other => panic!("{other:?}"),
    }
    let err = DisplayKey::from_str("4268:x\"y:1").unwrap_err();
    assert_eq!(err.message(), "\"x\\\"y\" is not a number in \"4268:x\\\"y:1\"");
}

#[test]
fn main_display_sits_at_the_origin() {
    let seen = vec![
        display(1, BUILTIN, (-1512, 0), false),
        display(2, MONITOR_1, (0, 0), true),
    ];
    let displays = list_displays(Ok(seen)).unwrap();
    if let Some(main) = displays.iter().find(|d| d.main) {
        assert_eq!(
            main.origin,
            (0, 0),
            "macOS defines the main display as the one at (0,0)"
        );
    }
}

#[test]
fn lists_at_least_one_display() {
    let seen = vec![display(1, BUILTIN, (0, 0), true)];
    let displays = list_displays(Ok(seen)).expect("listing displays should not fail");
    assert_eq!(displays.iter().filter(|d| d.main).count(), 1);
    assert_eq!(
        list_displays(Err(1001)).unwrap_err(),
        "CGGetActiveDisplayList failed (error 1001)"
    );
}

/// The steps taken for the moves, where each comes to a number, and how they end.
fn carried_out(moves: &[Move], came: impl Fn(Doing) -> i32) -> (Vec<Doing>, Result<(), String>) {
    let mut steps = Vec::new();
    let mut last = None;
    loop {
        match apply_moves(moves, last) {
            Act::Do(step) => {
                steps.push(step);
                last = Some((step, came(step)));
            }
            Act::Done(result) => return (steps, result),
        }
    }
}

#[test]
fn empty_move_list_is_a_no_op() {
    let (steps, result) = carried_out(&[], |_| 1);
    result.expect("empty plan should not touch the display config");
    assert!(steps.is_empty());
}

#[test]
fn a_whole_arrangement_is_one_transaction() {
    let moves = [Move { id: 7, origin: (0, 0) }, Move { id: 8, origin: (9, 0) }];
    let (steps, result) = carried_out(&moves, |_| 0);
    assert_eq!(steps, [Doing::Begin, Doing::Place(0), Doing::Place(1), Doing::Complete]);
    assert!(result.is_ok());
}

#[test]
fn a_failed_transaction_names_the_step() {
    let moves = [Move { id: 7, origin: (0, 0) }, Move { id: 8, origin: (9, 0) }];
    let fails = |at: Doing, err: i32| carried_out(&moves, move |d| if d == at { err } else { 0 });
    let (steps, result) = fails(Doing::Begin, -3);
    assert_eq!(steps, [Doing::Begin]);
    assert_eq!(result.unwrap_err(), "CGBeginDisplayConfiguration failed (error -3)");
    let (steps, result) = fails(Doing::Place(1), 1001);
    let cancel = Doing::Cancel { failed: 1, err: 1001 };
    assert_eq!(steps, [Doing::Begin, Doing::Place(0), Doing::Place(1), cancel]);
    assert_eq!(result.unwrap_err(), "could not move display 8 (error 1001)");
    let (steps, result) = fails(Doing::Place(0), 5);
    assert_eq!(steps.last(), Some(&Doing::Cancel { failed: 0, err: 5 }));
    assert_eq!(result.unwrap_err(), "could not move display 7 (error 5)");
    let (_, result) = fails(Doing::Complete, 5);
    assert_eq!(result.unwrap_err(), "CGCompleteDisplayConfiguration failed (error 5)");
}

#[test]
fn a_watch_looks_again_only_when_something_moved() {
    let here = || Ok(vec![display(2, MONITOR_1, (0, 0), true)]);
    let there = || Ok(vec![display(2, MONITOR_1, (9, 0), true)]);
    let failed = || Err("no displays".to_string());
    assert!(watch(&None, &here()));
    assert!(watch(&None, &failed()));
    // The pass moved the display: that is no fresh change.
    let memory = Some(remembered(here(), there()));
    assert!(!watch(&memory, &there()));
    assert!(watch(&memory, &here()));
    assert!(watch(&memory, &failed()));
    // What called for the pass stands in where the layout could not be read after it.
    let memory = Some(remembered(here(), failed()));
    assert!(!watch(&memory, &here()));
    let memory = Some(remembered(failed(), failed()));
    assert!(!watch(&memory, &failed()));
    assert!(watch(&memory, &here()));
}

#[test]
fn enforcing_says_what_it_came_to() {
    let displays = vec![
        display(2, MONITOR_1, (1920, 0), false),
        display(3, MONITOR_2, (0, 0), true),
    ];
    let pinned = |key| Prefs { preferred_main: key };
    assert_eq!(enforce(&pinned(None), &displays).0, Outcome::NotConfigured);
    assert_eq!(enforce(&pinned(Some(BUILTIN)), &displays).0, Outcome::Disconnected);
    assert_eq!(enforce(&pinned(Some(MONITOR_2)), &displays).0, Outcome::AlreadyMain);
    let (outcome, moves) = enforce(&pinned(Some(MONITOR_1)), &displays);
    assert_eq!(outcome, Outcome::Moved(MONITOR_1));
    assert_eq!(
        moves,
        vec![Move { id: 2, origin: (0, 0) }, Move { id: 3, origin: (-1920, 0) }]
    );
}
