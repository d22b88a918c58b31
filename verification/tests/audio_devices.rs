//! The bridge, its devices and what stands in its menu.
use workstation::audio::aec::Canceller;
use workstation::audio::bridge::{
    block_frames, correction_applies, due, endpoints, is_attached, is_running, reconcile,
    set_voice_threshold, start, stats, stop, voice_threshold, Bridge, Cancelled, Counters, Due, Look, Next, Role, Worker, FEED_UID, TAP_UID,
};
use workstation::audio::denoise::{Denoiser, Fifo, FRAME, HOLD_FRAMES};
use workstation::audio::device::{
    can_open, fan_out, find, list, not_found, open, Candidate, Direction, Reported, FLAG_IS_FLOAT,
    FORMAT_LINEAR_PCM,
};
use workstation::audio::resample::Loss;
use workstation::audio::{bundle_path, finished, install, live_devices, status, uninstall, DEVICES};
use workstation::audio_ui::bridge::{self as controls, Device};
use workstation::audio_ui::coreaudio::{devices, Direction as Way, Seen};
use workstation::audio_ui::menu::{
    gate_bits, meter, Controller, Row, Toggle, Voice, GATES, GATE_TOLERANCE, METER_CELLS,
};
use workstation::audio_ui::settings::{self, Settings};

fn reported() -> Reported {
    Reported {
        format_id: FORMAT_LINEAR_PCM,
        format_flags: FLAG_IS_FLOAT,
        bits_per_channel: 32,
        channels: 2,
        has_rate: true,
        block_frames: None,
        latency: Some(30),
        safety_offset: Some(8),
        stream_latency: None,
    }
}

fn candidate(id: u32, uid: Option<&str>, reported: Reported) -> Candidate {
    Candidate { id, uid: uid.map(String::from), reported, rate: "48000".to_string() }
}

#[test]
fn a_uid_nobody_has_is_not_found() {
    assert_eq!(find(0, 0), None);
    assert_eq!(find(560947818, 77), None);
    assert_eq!(find(0, 77), Some(77));
    assert_eq!(
        not_found("wsctl-no-such-device"),
        "no audio device with UID wsctl-no-such-device"
    );
}

#[test]
fn an_open_device_reports_a_rate_and_channels() {
    let seen = vec![
        candidate(1, Some("a"), reported()),
        candidate(2, None, reported()),
        candidate(3, Some("c"), Reported { channels: 0, ..reported() }),
        candidate(4, Some("d"), Reported { has_rate: false, ..reported() }),
        candidate(5, Some("e"), Reported { bits_per_channel: 16, ..reported() }),
    ];
    assert!(seen.iter().all(|c| can_open(&c.reported)));
    for direction in [Direction::Input, Direction::Output] {
        let found = list(direction, &seen);
        assert_eq!(found.len(), 1);
        assert_eq!((found[0].id, found[0].uid.as_str()), (1, "a"));
        assert!(found[0].opened.channels > 0, "{} has no channels", found[0].uid);
        assert!(found[0].opened.block_frames > 0, "{} has no block", found[0].uid);
        assert_eq!(found[0].opened.latency_frames, 30 + 8 + 512);
    }
}

#[test]
fn a_device_that_cannot_be_used_says_why() {
    let why = |r: Reported| open("x", Direction::Input, &r, "0").unwrap_err();
    assert_eq!(why(Reported { channels: 0, ..reported() }), "x has no Input channels");
    assert_eq!(why(Reported { has_rate: false, ..reported() }), "x reports a sample rate of 0");
    assert_eq!(
        why(Reported { format_flags: 4, ..reported() }),
        "x does not present 32-bit float samples to its clients"
    );
    assert!(!can_open(&Reported { latency: Some(u32::MAX), ..reported() }));
}

#[test]
fn a_mono_block_fills_every_channel() {
    let spread = |src: &[i32], from: usize, to: usize| {
        let mut dst = vec![9; 5];
        fan_out(src, from, &mut dst, to);
        dst
    };
    assert_eq!(spread(&[1, 2], 1, 2), [1, 1, 2, 2, 9]);
    assert_eq!(spread(&[1, 2, 3, 4], 2, 1), [1, 3, 9, 9, 9]);
    assert_eq!(spread(&[1, 2], 2, 3), [1, 2, 1, 9, 9]);
}

#[test]
fn a_frame_is_ten_milliseconds() {
    assert_eq!(Canceller::new(48_000, 0, true).frame(), 480);
    assert_eq!(Canceller::new(44_100, 0, true).frame(), 441);
}

#[test]
fn the_hint_only_moves_when_it_changes() {
    let mut canceller = Canceller::new(48_000, 100, true);
    assert!(!canceller.hint_moves(100));
    assert!(!canceller.set_delay_hint_ms(100, Ok(())).unwrap());
    assert!(canceller.set_delay_hint_ms(180, Ok(())).unwrap());
    assert!(!canceller.set_delay_hint_ms(180, Ok(())).unwrap());
    assert!(canceller.set_delay_hint_ms(200, Err("refused".to_string())).is_err());
}

// Nothing has been aligned before any audio has gone through, and saying
// so is what lets the bridge tell "not found" apart from "found at zero".
#[test]
fn nothing_is_found_before_anything_is_played() {
    let mut canceller = Canceller::new(48_000, 320, true);
    assert_eq!(canceller.found_delay_ms(), 0);
    canceller.found(218);
    assert_eq!(canceller.found_delay_ms(), 218);
}

#[test]
fn the_lifecycle_holds_together() {
    let mut bridge = Bridge::default();
    stop(&mut bridge);
    stop(&mut bridge);
    assert!(!is_running(&bridge));
    assert!(start(&mut bridge, Err("no virtual devices".to_string())).is_err());
    assert!(!is_running(&bridge));
    assert_eq!(stats(&bridge, 7), None);
    start(&mut bridge, Ok(())).unwrap();
    assert!(is_running(&bridge));
    assert_eq!(stats(&bridge, 7), Some(7));
    start(&mut bridge, Ok(())).unwrap();
    assert!(is_running(&bridge));
    stop(&mut bridge);
    stop(&mut bridge);
    assert!(!is_running(&bridge));
    assert_eq!(controls::voice(&bridge, 0.5f32), None);
}

#[test]
fn settings_outlive_the_engine() {
    let mut bridge = Bridge::default();
    controls::set_denoise(&mut bridge, true);
    controls::set_voice_threshold(&mut bridge, 0.35f32.to_bits());
    start(&mut bridge, Ok(())).unwrap();
    stop(&mut bridge);
    assert!(start(&mut bridge, Err("gone".to_string())).is_err());
    assert!(controls::denoise(&bridge));
    assert_eq!(f32::from_bits(controls::voice_threshold(&bridge)), 0.35);
}

#[test]
fn the_voice_gate_is_kept_where_a_probability_can_be() {
    for given in [0.0f32, 0.5, 1.0, 1.5, -0.5, f32::INFINITY, f32::NEG_INFINITY, 1e-40, -1e-40] {
        let mut bridge = Bridge::default();
        set_voice_threshold(&mut bridge, given.to_bits());
        assert_eq!(f32::from_bits(voice_threshold(&bridge)), given.clamp(0.0, 1.0), "{given}");
    }
    for nothing in [f32::NAN, -f32::NAN] {
        let mut bridge = Bridge { threshold: 1, ..Bridge::default() };
        set_voice_threshold(&mut bridge, nothing.to_bits());
        assert_eq!(voice_threshold(&bridge), 0);
    }
}

#[test]
fn endpoints_follow_the_devices_that_come_and_go() {
    assert_eq!(due(Some(4), None), Due::Attach);
    assert_eq!(due(Some(4), Some(4)), Due::Leave);
    assert_eq!(due(None, Some(4)), Due::Detach);
    let all = endpoints(TAP_UID, FEED_UID, "mic", "speaker");
    let there = |id| Look { live: Some(id), tried: Ok(id) };
    let gone = || Look { live: None, tried: Err("gone".to_string()) };
    let (all, _) = reconcile(all, &vec![there(1), there(2), there(3), gone()]);
    assert!(is_attached(&all, Role::Microphone));
    assert!(!is_attached(&all, Role::Speaker));
    assert!(!correction_applies(&all));
    let (all, _) = reconcile(all, &vec![there(1), there(2), there(3), there(4)]);
    assert!(is_attached(&all, Role::Speaker));
    assert!(correction_applies(&all));
}

#[test]
fn losses_add_up() {
    let mut counters = Counters::default();
    counters.count(Loss { starved: 3, dropped: 0 });
    assert_eq!(counters.glitches(1, 2, 4), 3 + 1 + 2 + 4);
    assert_eq!(block_frames(960, 2), Ok(480));
    assert_eq!(block_frames(1 << 20, 2), Err(1 << 19));
}

#[test]
fn the_worker_catches_up_by_skipping() {
    let mut worker = Worker::new(480);
    let wake = worker.wake(Some(48_000), 480 * 2);
    assert!(wake.rebuild);
    assert_eq!(wake.skip, 0);
    assert!(worker.goes_on(480 * 2) && worker.goes_on(480));
    assert!(!worker.goes_on(479));
    let wake = worker.wake(Some(48_000), 480 * 50);
    assert!(!wake.rebuild);
    assert_eq!(wake.skip, 480 * 49);
    assert_eq!(worker.frame_done(Cancelled::Cleaned), Next::Deliver);
    assert_eq!(worker.frame_done(Cancelled::Failed), Next::StopAloud);
    assert_eq!(worker.frame_done(Cancelled::Failed), Next::Stop);
}

fn pass_through(denoiser: &mut Denoiser<f32>, input: &[f32], frame: usize) -> Vec<f32> {
    let mut out = Vec::new();
    for chunk in input.chunks(frame) {
        denoiser.take_in(chunk);
        while let Some(frame) = denoiser.next_frame(0.0) {
            let emission = denoiser.model_done(frame, false, 0.0);
            if let Some(released) = emission.released {
                denoiser.put_out(&released);
            }
            denoiser.put_out(&emission.frame);
        }
        let mut given = chunk.to_vec();
        denoiser.deliver(&mut given, 0.0);
        out.extend(given);
    }
    out
}

#[test]
fn no_call_is_handed_a_hole_while_the_noise_gate_comes_and_goes() {
    let mut denoiser = Denoiser::new(FRAME, FRAME, 0.0f32);
    denoiser.set_enabled(true, 0.0);
    let mut given = 0usize;
    for (call, size) in [479usize, 480, 1, 137, 480, 2].iter().cycle().take(600).enumerate() {
        let chunk: Vec<f32> = (0..*size).map(|i| (given + i + 1) as f32).collect();
        given += size;
        denoiser.take_in(&chunk);
        while let Some(frame) = denoiser.next_frame(0.0) {
            let emission = denoiser.model_done(frame, (call / 100) % 2 == 1, 0.0);
            if let Some(released) = emission.released {
                denoiser.put_out(&released);
            }
            denoiser.put_out(&emission.frame);
        }
        assert!(denoiser.ready.len() >= *size, "call {call} fell short");
        let mut out = chunk.clone();
        denoiser.deliver(&mut out, 0.0);
    }
}

#[test]
fn turning_it_on_again_does_not_replay_the_old_buffers() {
    let mut denoiser = Denoiser::new(480, 480, 0.0);
    denoiser.set_enabled(true, 0.0);
    pass_through(&mut denoiser, &vec![1.0; 4_800], 480);
    assert!(denoiser.set_enabled(false, 0.0));
    assert!(denoiser.set_enabled(true, 0.0));
    assert!(!denoiser.set_enabled(true, 0.0));
    let out = pass_through(&mut denoiser, &vec![0.0; 4_800], 480);
    assert!(out.iter().all(|s| *s == 0.0), "the buffers came back out");
}

#[test]
fn the_noise_gate_stays_open_a_while_after_the_last_word() {
    let mut denoiser = Denoiser::new(480, 480, 0.0f32);
    assert!(!denoiser.gate(false));
    assert!(denoiser.gate(true));
    let open = (0..100).filter(|_| denoiser.gate(false)).count();
    assert_eq!(open, HOLD_FRAMES - 1);
}

#[test]
fn a_queue_hands_back_in_order() {
    let mut queue = Fifo::new(8);
    queue.push(&[1, 2, 3]);
    queue.push_one(4);
    let mut out = vec![0; 2];
    queue.pop(&mut out);
    assert_eq!(out, [1, 2]);
    queue.silence(1, 9);
    let left = queue.len();
    queue.clear();
    assert!(left > 0 && queue.len() == 0);
}

#[test]
fn the_drivers_are_told_apart_by_what_the_system_reports() {
    let report: String = DEVICES.iter().map(|d| format!("        {d}:\n")).collect();
    let all = status(true, true, &report);
    assert!(all.is_installed());
    assert_eq!(live_devices(&report).len(), DEVICES.len());
    assert!(all.is_loaded());
    let none = status(false, true, "");
    assert!(!none.is_installed() && !none.is_loaded());
    assert!(bundle_path("X.driver").starts_with("/Library/Audio/Plug-Ins/HAL/"));
    assert!(!install("/t/s").is_empty() && !uninstall("/t/s").is_empty());
    assert!(finished("install", true, "exit status: 0").is_ok());
    assert!(finished("install", false, "exit status: 1").unwrap_err().contains("exit status: 1"));
}

#[test]
fn off_is_the_first_thing_offered_and_it_is_the_default() {
    let (name, thousandths) = GATES[0];
    assert_eq!((name, thousandths as f32 / 1000.0), ("Off", 0.0));
}

#[test]
fn no_two_presets_are_near_enough_to_both_be_ticked() {
    for &(name, threshold) in &GATES {
        let near = GATES
            .iter()
            .filter(|(_, other)| threshold.abs_diff(*other) < GATE_TOLERANCE)
            .count();
        assert_eq!(near, 1, "{name} is close enough to another preset to tie");
    }
}

/// The cells that a voice of this much fills.
fn cells(voice: f32) -> usize {
    (voice.clamp(0.0, 1.0) * METER_CELLS as f32).round() as usize
}

#[test]
fn the_meter_is_the_same_width_however_loud_it_is() {
    let width = meter(cells(0.0)).chars().count();
    for step in 0..=20 {
        let title = meter(cells(step as f32 / 20.0));
        assert_eq!(title.chars().count(), width, "{title} is a different width");
    }
}

#[test]
fn the_meter_fills_as_the_voice_does() {
    let filled = |voice| meter(cells(voice)).chars().filter(|c| *c == '█').count();
    assert_eq!(filled(0.0), 0);
    assert_eq!(filled(1.0), METER_CELLS);
    assert!((1..METER_CELLS).contains(&filled(0.5)));
    assert_eq!(filled(2.0), METER_CELLS, "a bad reading ran off the end");
    assert_eq!(filled(-1.0), 0, "a bad reading ran off the other end");
    assert_eq!(meter(99), meter(METER_CELLS));
}

fn seen(uid: &str, name: &str, channels: u32) -> Seen {
    Seen { channels, uid: Some(uid.to_string()), name: Some(name.to_string()) }
}

#[test]
fn our_own_devices_are_never_offered() {
    let all: Vec<Seen> = DEVICES.iter().map(|n| seen("x", n, 2)).collect();
    assert!(devices(&all).is_empty());
    assert_eq!(devices(&vec![seen("b", "Built-in", 1)]).len(), 1);
}

#[test]
fn every_device_has_a_uid_and_a_name() {
    let listed = devices(&vec![
        seen("b", "Built-in", 1),
        Seen { channels: 1, uid: None, name: Some("nameless".to_string()) },
        Seen { channels: 1, uid: Some("u".to_string()), name: None },
        seen("q", "Quiet", 0),
    ]);
    assert_eq!(listed.len(), 1);
    assert_eq!((listed[0].uid.as_str(), listed[0].name.as_str()), ("b", "Built-in"));
    assert_ne!(Way::Input.label(), Way::Output.label());
}

fn picked() -> Settings {
    Settings {
        input_uid: Some("AppleUSBAudioEngine:Insta360:Insta360 Link 2C:111000:3".into()),
        output_uid: Some("30-21-39-26-64-C7:output".into()),
        denoise: Some(true),
        voice_threshold: Some(0.8f32.to_bits()),
    }
}

#[test]
fn settings_survives_a_round_trip() {
    let loaded = Settings::load(Some(picked()));
    assert_eq!(loaded.input_uid, picked().input_uid);
    assert_eq!(loaded.output_uid, picked().output_uid);
    assert_eq!(loaded.denoise, Some(true));
    assert_eq!(loaded.voice_threshold.map(f32::from_bits), Some(0.8));
    assert!(loaded.is_picked() && loaded.denoises());
}

#[test]
fn a_missing_file_means_nothing_is_chosen() {
    let loaded = Settings::load(None);
    assert!(loaded.input_uid.is_none() && loaded.output_uid.is_none());
    assert!(!loaded.is_picked());
    assert_eq!(settings::path(&None).unwrap_err(), "no Application Support directory");
}

#[test]
fn the_gate_is_off_until_somebody_turns_it_on() {
    let settings = Settings::blank();
    assert!(!settings.denoises());
    assert_eq!(f32::from_bits(settings.gate_bits()), 0.0);
}

#[test]
fn the_menu_follows_the_bridge() {
    let controller = Controller { settings: picked() };
    let mut bridge = Bridge::default();
    controller.restore(&mut bridge);
    assert!(bridge.denoise);
    assert_eq!(f32::from_bits(bridge.threshold), 0.8);
    assert!(matches!(controller.toggle_bridge(&bridge), Toggle::Start { .. }));
    start(&mut bridge, Ok(())).unwrap();
    assert!(matches!(controller.toggle_bridge(&bridge), Toggle::Stop));
    let inputs = vec![Device { uid: "m".to_string(), name: "Mic".to_string() }];
    let rows = controller.build(&bridge, &inputs, &Vec::new(), Voice { gate: Some(2), cells: 5 });
    assert!(rows.iter().any(|r| matches!(r, Row::Meter(e) if e.title.contains('█'))));
    let mut blank = Controller { settings: Settings::blank() };
    assert!(matches!(blank.toggle_bridge(&Bridge::default()), Toggle::Nothing));
    blank.pick_device(true, Some("m".to_string()), &Bridge::default());
    assert_eq!(blank.settings.input_uid.as_deref(), Some("m"));
}

#[test]
fn restoring_hands_back_both_settings_and_nothing_else() {
    let mut bridge = Bridge { denoise: true, threshold: 1, ..Bridge::default() };
    start(&mut bridge, Ok(())).unwrap();
    Controller { settings: Settings::blank() }.restore(&mut bridge);
    assert!(is_running(&bridge) && !bridge.denoise);
    assert_eq!(bridge.threshold, 0);
    let loud = Settings { voice_threshold: Some(7.5f32.to_bits()), ..Settings::blank() };
    Controller { settings: loud }.restore(&mut bridge);
    assert_eq!(f32::from_bits(bridge.threshold), 1.0);
}

#[test]
fn noise_suppression_is_switched_over_and_recorded() {
    let mut controller = Controller { settings: picked() };
    let mut bridge = Bridge::default();
    controller.toggle_denoise(&mut bridge);
    assert!(bridge.denoise && controller.settings.denoise == Some(true));
    controller.toggle_denoise(&mut bridge);
    assert!(!bridge.denoise && controller.settings.denoise == Some(false));
    assert_eq!(controller.settings.input_uid, picked().input_uid);
}

#[test]
fn a_preset_of_the_voice_gate_is_set_and_recorded() {
    let mut controller = Controller { settings: Settings::blank() };
    let mut bridge = Bridge::default();
    for (index, (name, thousandths)) in GATES.iter().enumerate() {
        let bits = (*thousandths as f32 / 1000.0).to_bits();
        assert_eq!(gate_bits(index), Some(bits), "{name}");
        assert!(controller.select_voice_gate(index, &mut bridge));
        assert_eq!(bridge.threshold, bits, "{name}");
        assert_eq!(controller.settings.voice_threshold, Some(bits), "{name}");
    }
    assert!(!controller.select_voice_gate(GATES.len(), &mut bridge));
    assert_eq!(bridge.threshold, gate_bits(GATES.len() - 1).unwrap());
    assert_eq!(gate_bits(GATES.len()), None);
}

#[test]
fn the_reference_that_arrives_while_a_frame_is_worked_on_is_worked_on_at_once() {
    let worker = Worker::new(480);
    let mut queued: usize = 480;
    let mut arriving = vec![480usize, 300, 180].into_iter();
    let mut frames = 0;
    while worker.goes_on(queued) {
        queued -= 480;
        queued += arriving.next().unwrap_or(0);
        frames += 1;
    }
    assert_eq!((frames, queued), (2, 300));
}

#[test]
fn switching_the_suppressor_keeps_its_room() {
    let mut denoiser = Denoiser::new(FRAME, FRAME, 0.0f32);
    let room = (denoiser.pending.capacity, denoiser.ready.capacity);
    let fresh = denoiser.ready.len();
    assert!(denoiser.set_enabled(true, 0.0));
    denoiser.take_in(&[1.0; 100]);
    denoiser.put_out(&[1.0; 100]);
    assert!(!denoiser.set_enabled(true, 0.0));
    assert_eq!((denoiser.pending.len(), denoiser.ready.len()), (100, fresh + 100));
    assert!(denoiser.set_enabled(false, 0.0));
    assert_eq!((denoiser.pending.capacity, denoiser.ready.capacity), room);
    assert_eq!((denoiser.pending.len(), denoiser.ready.len()), (0, fresh));
}
