//! The ring between two callbacks and what keeps it at its level.
use workstation::audio::resample::{Loss, Resampler, TAPS};
use workstation::audio::ring::{ring, Consumer, Producer, Shared};

#[test]
fn what_goes_in_comes_out_in_order() {
    let mut shared = ring(16, 0.0);
    let mut producer = shared.producer().unwrap();
    let mut consumer = shared.consumer().unwrap();

    assert_eq!(producer.push(&mut shared, &[1.0, 2.0, 3.0]), 3);
    let mut out = vec![0.0; 3];
    assert_eq!(consumer.pop(&mut shared, &mut out), 3);
    assert_eq!(out, [1.0, 2.0, 3.0]);
    assert_eq!(consumer.len(&shared), 0);
}

#[test]
fn it_wraps_without_losing_a_sample() {
    let mut shared = ring(8, 0.0);
    let mut producer = shared.producer().unwrap();
    let mut consumer = shared.consumer().unwrap();

    let mut expected = 0.0;
    let mut out = vec![0.0; 5];
    for round in 0..20 {
        let block: Vec<f32> = (0..5).map(|i| (round * 5 + i) as f32).collect();
        assert_eq!(producer.push(&mut shared, &block), 5);
        assert_eq!(consumer.pop(&mut shared, &mut out), 5);
        for sample in out.clone() {
            assert_eq!(sample, expected);
            expected += 1.0;
        }
    }
}

#[test]
fn a_full_ring_drops_the_newest_and_counts_it() {
    let mut shared = ring(4, 0.0);
    let mut producer = shared.producer().unwrap();
    assert_eq!(producer.push(&mut shared, &[1.0, 2.0, 3.0, 4.0, 5.0, 6.0]), 4);
    assert_eq!(shared.lost(), 2);

    let mut consumer = shared.consumer().unwrap();
    let mut out = vec![0.0; 4];
    assert_eq!(consumer.pop(&mut shared, &mut out), 4);
    assert_eq!(out, [1.0, 2.0, 3.0, 4.0]);
}

#[test]
fn an_empty_ring_leaves_the_destination_alone() {
    let mut shared = ring(4, 0.0);
    let mut consumer = shared.consumer().unwrap();
    let mut out = vec![9.0; 3];
    assert_eq!(consumer.pop(&mut shared, &mut out), 0);
    assert_eq!(out, [9.0; 3]);
}

#[test]
fn only_one_end_of_each_kind_is_ever_out() {
    let mut shared = ring(4, 0.0);
    let producer = shared.producer().unwrap();
    assert!(shared.producer().is_none());
    shared.return_producer(producer);
    assert!(shared.producer().is_some());
}

#[test]
fn clearing_drops_everything_queued() {
    let mut shared = ring(8, 0.0);
    let mut producer = shared.producer().unwrap();
    let consumer = shared.consumer().unwrap();
    producer.push(&mut shared, &[1.0, 2.0, 3.0]);
    shared.clear();
    assert_eq!(consumer.len(&shared), 0);
}

#[test]
fn skipping_leaves_the_newest_behind() {
    let mut shared = ring(8, 0.0);
    let mut producer = shared.producer().unwrap();
    let mut consumer = shared.consumer().unwrap();

    producer.push(&mut shared, &[1.0, 2.0, 3.0, 4.0]);
    assert_eq!(consumer.skip(&mut shared, 2), 2);
    let mut out = vec![0.0; 2];
    assert_eq!(consumer.pop(&mut shared, &mut out), 2);
    assert_eq!(out, [3.0, 4.0]);
    assert_eq!(consumer.skip(&mut shared, 9), 0);
}

fn rig(target: usize) -> (Resampler<f32>, Shared<f32>, Producer, Consumer) {
    let mut shared = ring(48_000, 0.0);
    let producer = shared.producer().unwrap();
    let consumer = shared.consumer().unwrap();
    (Resampler::new(1, target, 480 + TAPS, 0.0), shared, producer, consumer)
}

#[test]
fn nothing_comes_out_until_the_ring_has_filled_once() {
    let (mut resampler, mut shared, mut producer, mut consumer) = rig(480);
    producer.push(&mut shared, &vec![1.0; 100]);
    let level = resampler.begin(&mut consumer, &mut shared);
    assert!(!resampler.primed && !level.newly_primed, "primed too early");

    producer.push(&mut shared, &vec![1.0; 600]);
    let level = resampler.begin(&mut consumer, &mut shared);
    assert!(resampler.primed && level.newly_primed, "never primed");
    assert!(!resampler.begin(&mut consumer, &mut shared).newly_primed);
}

#[test]
fn a_burst_is_dropped_rather_than_drained() {
    let (mut resampler, mut shared, mut producer, mut consumer) = rig(480);

    // A second arriving at once, which is what a virtual device does when
    // it starts and catches up with the host clock.
    let pushed = producer.push(&mut shared, &vec![0.5; 48_000]);
    let level = resampler.begin(&mut consumer, &mut shared);
    assert!(level.resynced);
    assert!(
        level.dropped > pushed - 480 * 3,
        "only dropped {} of {pushed}",
        level.dropped
    );
    assert_eq!(consumer.len(&shared), 480);
}

#[test]
fn a_starved_ring_is_reported_and_recovers() {
    let (mut resampler, mut shared, mut producer, mut consumer) = rig(480);
    producer.push(&mut shared, &vec![0.5; 480]);
    resampler.begin(&mut consumer, &mut shared);
    assert!(resampler.stage(&mut consumer, &mut shared, TAPS + 400, 0.0));
    assert_eq!(resampler.starved, 0);
    assert_eq!(resampler.finish(400), 0);

    assert!(resampler.stage(&mut consumer, &mut shared, TAPS + 400, 0.0));
    let starved = resampler.starved;
    assert!(starved > 0, "a dry ring was not reported");
    assert_eq!(resampler.finish(400), starved);

    producer.push(&mut shared, &vec![0.5; 960]);
    assert!(resampler.stage(&mut consumer, &mut shared, TAPS + 400, 0.0));
    assert_eq!(resampler.finish(400), 0);
    assert_eq!(Loss::default(), Loss { starved: 0, dropped: 0 });
}
