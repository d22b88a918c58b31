//! What was measured between a speaker and a microphone, and how it is settled.
use workstation::audio::calibrate::{
    believe, check_recording, default_probes, pack_clock, play, refuse_virtual, run, settle,
    unpack_clock, Quoted, Reading, Settled, Unsettled, WARMUP_PROBES,
};
use workstation::audio::correction::{now, path, stale_now, Correction, Corrections};
use workstation::disk::util::Span;

/// What is kept of a measurement.
#[derive(Debug, Clone, Copy, PartialEq)]
struct Measured {
    measured_ms: f64,
    computed_ms: f64,
}

fn correction(output_uid: &str, measured_ms: f64) -> Correction<Measured> {
    Correction {
        output_uid: output_uid.into(),
        input_uid: INSTA.into(),
        measured: Measured { measured_ms, computed_ms: 42.0 },
        measured_at: Some(1_755_300_000),
    }
}

fn offset_ms(correction: &Correction<Measured>) -> f64 {
    correction.measured.measured_ms - correction.measured.computed_ms
}

const PHILIPS: &str = "30-21-39-26-64-C7:output";

const INSTA: &str = "AppleUSBAudioEngine:Insta360:Insta360 Link 2C:111000:3";

// The whole reason the file is keyed by both UIDs. A Bluetooth speaker's
// correction applied to the built-in ones would be a worse delay than
// never having measured anything.
#[test]
fn a_correction_for_one_pair_is_not_applied_to_another() {
    let mut corrections = Corrections::none();
    corrections = corrections.record(correction(PHILIPS, 214.0));

    assert_eq!(
        corrections.find(PHILIPS, INSTA).map(offset_ms),
        Some(172.0)
    );
    assert!(corrections.find("BuiltInSpeakerDevice", INSTA).is_none());
    assert!(
        corrections
            .find(PHILIPS, "BuiltInMicrophoneDevice")
            .is_none()
    );
    // The pair is directional: a speaker UID in the microphone slot is a
    // different pair, not the same one backwards.
    assert!(corrections.find(INSTA, PHILIPS).is_none());
}

#[test]
fn measuring_again_replaces_what_was_known() {
    let mut corrections = Corrections::none();
    corrections = corrections.record(correction(PHILIPS, 214.0));
    corrections = corrections.record(correction(PHILIPS, 168.0));
    assert_eq!(corrections.pairs.len(), 1);
    assert_eq!(
        corrections.find(PHILIPS, INSTA).map(|c| c.measured.measured_ms),
        Some(168.0)
    );
}

// Measured at 1_755_300_000, so a day later is current and five weeks
// later is not.
#[test]
fn a_measurement_goes_stale_after_a_month() {
    let fresh = correction(PHILIPS, 214.0);
    assert!(!fresh.is_stale(1_755_300_000 + 24 * 60 * 60));
    assert!(fresh.is_stale(1_755_300_000 + 35 * 24 * 60 * 60));
    assert_eq!(fresh.age_secs(1_755_300_000 + 3600), Some(3600));
}

// A clock that has gone backwards since the measurement reads as brand new
// rather than as an enormous age, because there is nothing else honest to
// say and the bridge must not refuse to start over it.
#[test]
fn a_measurement_from_the_future_is_not_stale() {
    let fresh = correction(PHILIPS, 214.0);
    assert_eq!(fresh.age_secs(1_755_200_000), Some(0));
    assert!(!fresh.is_stale(1_755_200_000));
}

// An entry from before the date was recorded could be any age at all, and
// the whole point of the field is that age is visible.
#[test]
fn a_measurement_with_no_date_is_stale() {
    let mut undated = correction(PHILIPS, 214.0);
    undated.measured_at = None;
    assert_eq!(undated.age_secs(1_755_300_000), None);
    assert!(undated.is_stale(1_755_300_000));
}

#[test]
fn a_missing_file_means_nothing_has_been_measured() {
    let corrections: Corrections<Measured> = Corrections::read(None);
    assert!(corrections.pairs.is_empty());
    assert!(corrections.find(PHILIPS, INSTA).is_none());
    let known = Corrections::none().record(correction(PHILIPS, 214.0));
    assert!(Corrections::read(Some(known)).find(PHILIPS, INSTA).is_some());
}

#[test]
fn staleness_is_told_by_the_clock_where_there_is_one() {
    let fresh = correction(PHILIPS, 214.0);
    assert!(!stale_now(Some(&fresh), Some(1_755_300_001)));
    assert!(stale_now(Some(&fresh), Some(1_765_300_000)));
    assert_eq!(now(Some(Span { nanos: 7_900_000_000 })), Some(7));
    assert_eq!(now(None), None);
    let (dir, file) = path(&Some("/d".to_string())).unwrap();
    assert_eq!((dir.as_str(), file.as_str()), ("/d/wsctl", "/d/wsctl/audio-calibration.json"));
    assert_eq!(path(&None).unwrap_err(), "no Application Support directory");
}

const CLEAR: f64 = 12.0;

fn readings(readings: &[(f64, f64)]) -> Vec<Reading> {
    readings
        .iter()
        .map(|(delay_ms, confidence)| Reading {
            clear: *confidence >= CLEAR,
            delay: delay_ms.to_bits(),
            confidence: confidence.to_bits(),
        })
        .collect()
}

fn quoted(settled: &Settled) -> Quoted {
    let (low, high) = (f64::from_bits(settled.lowest), f64::from_bits(settled.highest));
    Quoted {
        spread: format!("{:.1}", high - low),
        lowest: format!("{low:.1}"),
        highest: format!("{high:.1}"),
        measured: format!("{:.1}", f64::from_bits(settled.measured)),
        searched: "500".to_string(),
    }
}

/// Settles readings and believes them, or says why not.
fn settled(of: &[(f64, f64)]) -> Result<Settled, String> {
    let blank = Settled { measured: 0, lowest: 0, highest: 0, confidence: 0 };
    let settled = settle(&readings(of)).map_err(|e| e.message(&quoted(&blank)))?;
    let measured = f64::from_bits(settled.measured);
    let spread = f64::from_bits(settled.highest) - f64::from_bits(settled.lowest);
    match believe(spread > 12.0, measured < 2.0, measured > 475.0) {
        Ok(()) => Ok(settled),
        Err(e) => Err(e.message(&quoted(&settled))),
    }
}

#[test]
fn probes_that_agree_give_the_middle_one() {
    let settled = settled(&[
        (203.1, 22.0),
        (202.4, 31.0),
        (203.0, 18.0),
        (202.9, 27.0),
    ])
    .unwrap();
    assert_eq!(f64::from_bits(settled.measured), 203.0);
    let spread_ms = f64::from_bits(settled.highest) - f64::from_bits(settled.lowest);
    assert!((spread_ms - 0.7).abs() < 1e-9);
    assert_eq!(f64::from_bits(settled.confidence), 18.0);
}

// Weak peaks are not votes. Three good probes and three that found nothing
// is still a measurement, made only of the three that worked.
#[test]
fn probes_that_found_nothing_are_left_out_rather_than_averaged_in() {
    let settled = settled(&[
        (41.0, 61.0),
        (411.0, 4.2),
        (41.2, 55.0),
        (7.0, 4.1),
        (41.1, 48.0),
        (300.0, 5.0),
    ])
    .unwrap();
    assert_eq!(f64::from_bits(settled.measured), 41.1);
    // The number quoted is the worst of the ones that counted, not the
    // best, and not the ones that were thrown out.
    assert_eq!(f64::from_bits(settled.confidence), 48.0);
}

#[test]
fn too_few_clear_probes_is_a_failure_not_a_number() {
    let error = settled(&[
        (41.0, 55.0),
        (120.0, 4.1),
        (330.0, 4.4),
        (9.0, 5.0),
        (250.0, 4.9),
        (41.2, 11.9),
    ])
    .unwrap_err();
    assert!(error.contains("1 of 6"), "{error}");
}

// Six confident answers that do not agree with each other are six answers
// to different questions, and the median of them is a fiction.
#[test]
fn probes_that_disagree_are_a_failure_not_a_median() {
    let error = settled(&[
        (41.0, 32.0),
        (63.0, 44.0),
        (52.0, 29.0),
        (44.0, 20.0),
    ])
    .unwrap_err();
    assert!(error.contains("disagree by 22.0 ms"), "{error}");
}

#[test]
fn a_round_trip_of_nothing_is_a_failure() {
    let error = settled(&[(0.4, 30.0), (0.4, 28.0), (0.5, 25.0)]).unwrap_err();
    assert!(error.contains("too short"), "{error}");
}

#[test]
fn a_peak_at_the_end_of_the_search_is_a_failure() {
    let error = settled(&[(495.0, 30.0), (494.0, 28.0), (496.0, 25.0)]).unwrap_err();
    assert!(error.contains("far end"), "{error}");
}

// Nothing at all is a different complaint from something heard badly, and
// it sends you to look somewhere else.
#[test]
fn a_run_that_heard_nothing_says_so() {
    let error = settled(&[]).unwrap_err();
    assert!(error.contains("not one probe came back"), "{error}");
    assert_eq!(settle(&Vec::new()).unwrap_err(), Unsettled::Nothing);
}

// The trap the whole command is written around. Measuring through our own
// devices would give a tight, confident, entirely fictional number.
#[test]
fn the_virtual_devices_are_refused() {
    for uid in ["WSSpeaker_UID", "WSSpeaker_2_UID", "WSMicrophone_2_UID"] {
        let error = refuse_virtual(uid).unwrap_err();
        assert!(format!("{error}").contains("loopback"), "{uid}");
    }
    assert!(refuse_virtual("BuiltInSpeakerDevice").is_ok());
    assert!(refuse_virtual("30-21-39-26-64-C7:output").is_ok());
}

#[test]
fn calibrating_a_virtual_device_never_opens_anything() {
    assert!(run("BuiltInMicrophoneDevice", "WSSpeaker_UID", 1).is_err());
    assert!(run("WSMicrophone_UID", "BuiltInSpeakerDevice", 1).is_err());
}

#[test]
fn a_run_plays_the_warm_up_probes_too() {
    let rounds = run("BuiltInMicrophoneDevice", "BuiltInSpeakerDevice", 6).unwrap();
    assert_eq!((rounds.kept, rounds.played), (6, 6 + WARMUP_PROBES));
    let marks: Vec<usize> = (WARMUP_PROBES..WARMUP_PROBES + 6).collect();
    assert_eq!(rounds.kept_marks(), marks);
    assert_eq!(default_probes(), 6);
    let most = run("BuiltInMicrophoneDevice", "BuiltInSpeakerDevice", 900).unwrap();
    assert_eq!(most.kept, 20);
}

#[test]
fn a_recording_with_holes_is_refused() {
    assert!(check_recording(0).is_ok());
    assert!(check_recording(3).is_err());
}

#[test]
fn the_microphone_clock_packs_and_unpacks() {
    assert_eq!(unpack_clock(0), None);
    let (frames, micros) = unpack_clock(pack_clock(123_456, 7_000)).unwrap();
    assert_eq!(frames, 123_456);
    assert_eq!(micros, 7_000);
}

#[test]
fn a_sweep_is_played_block_by_block_to_its_end() {
    let mut position = None;
    let mut played = 0;
    let mut armed = 1;
    loop {
        let Some(step) = play(position, armed, 512, 1_200) else { break };
        played += step.take;
        position = step.next;
        armed = 0;
        if position.is_none() {
            break;
        }
    }
    assert_eq!(played, 1_200);
}
