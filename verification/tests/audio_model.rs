//! The noise suppressor with its model.
use nnnoiseless::DenoiseState;
use workstation::audio::denoise::{Denoiser, FRAME};

const RATE: f64 = 48_000.0;
/// Where the speech starts in [`noisy_speech`], in seconds.
const ONSET: f64 = 9.0;
/// The model works in these units.
const SCALE: f32 = 32_768.0;

/// A vowel: a glottal pulse train through three formants, with the pitch
/// drifting the way a real one does. Not speech, but it has the harmonic
/// structure and the spectral shape the model was trained to keep, which
/// white noise deliberately does not.
fn speech(samples: usize, rate: f64) -> Vec<f32> {
    let mut out = vec![0.0f32; samples];
    let mut resonators = [[0.0f64; 2]; 3];
    let mut phase = 0.0f64;

    for (i, sample) in out.iter_mut().enumerate() {
        let t = i as f64 / rate;
        phase += (110.0 + 35.0 * (2.0 * std::f64::consts::PI * 0.7 * t).sin()) / rate;
        let excitation = if phase >= 1.0 {
            phase -= 1.0;
            1.0
        } else {
            0.0
        };
        let mut sum = 0.0;
        for (formant, state) in [700.0, 1220.0, 2600.0].iter().zip(&mut resonators) {
            let r = 0.98;
            let theta = 2.0 * std::f64::consts::PI * formant / rate;
            let y = excitation + 2.0 * r * theta.cos() * state[0] - r * r * state[1];
            state[1] = state[0];
            state[0] = y;
            sum += y;
        }
        *sample = (sum * 0.02) as f32;
    }
    out
}

fn noise(samples: usize, gain: f32, seed: u32) -> Vec<f32> {
    let mut state = seed;
    (0..samples)
        .map(|_| {
            state = state.wrapping_mul(1_664_525).wrapping_add(1_013_904_223);
            ((state >> 8) as f32 / (1 << 23) as f32 - 1.0) * gain
        })
        .collect()
}

/// Twelve seconds at `rate`: white noise throughout, speech over the last
/// three, about 9 dB apart. High-passed, because that is how it arrives:
/// aec3 runs its high-pass filter before any of this and the model needs
/// it, so full-band noise would be measuring a case the bridge never has.
fn noisy_speech(rate: f64) -> Vec<f32> {
    let samples = (rate * 12.0) as usize;
    let onset = (rate * ONSET) as usize;
    let mut out = noise(samples, 0.03, 11);
    for (sample, voice) in out[onset..].iter_mut().zip(&speech(samples, rate)[onset..]) {
        *sample += voice;
    }
    high_pass(&out, rate)
}

/// Two poles at 80 Hz, near enough to what aec3's high-pass filter does.
fn high_pass(x: &[f32], rate: f64) -> Vec<f32> {
    let mut y = x.to_vec();
    let a = (-2.0 * std::f64::consts::PI * 80.0 / rate).exp() as f32;
    for _ in 0..2 {
        let (mut previous_in, mut previous_out) = (0.0f32, 0.0f32);
        for sample in y.iter_mut() {
            previous_out = a * (previous_out + *sample - previous_in);
            previous_in = *sample;
            *sample = previous_out;
        }
    }
    y
}

fn power(samples: &[f32]) -> f64 {
    samples.iter().map(|s| (*s as f64).powi(2)).sum::<f64>() / samples.len().max(1) as f64
}

/// The noise floor, as the median of the 10 ms frame powers. The mean is
/// no use for this: the model lets the odd frame through and a handful of
/// those carry the whole average.
fn floor(samples: &[f32], rate: f64) -> f64 {
    let mut frames: Vec<f64> = samples.chunks(rate as usize / 100).map(power).collect();
    frames.sort_by(|a, b| a.partial_cmp(b).unwrap());
    frames[frames.len() / 2]
}

fn db(a: f64, b: f64) -> f64 {
    10.0 * (a / b.max(1e-30)).log10()
}

/// How far the noise floor dropped and how much of the voice went with it,
/// both in dB. Measured at the end of each stretch: the model's noise
/// estimate climbs for the first ten seconds or so, from 8 dB of
/// suppression after one second to 50 dB after eleven, so where this looks
/// matters as much as what it looks at.
fn suppression(input: &[f32], output: &[f32], rate: f64) -> (f64, f64) {
    let at = |seconds: f64| (rate * seconds) as usize;
    let quiet = at(ONSET - 2.0)..at(ONSET);
    let loud = at(ONSET + 1.0)..input.len();
    (
        db(
            floor(&input[quiet.clone()], rate),
            floor(&output[quiet], rate),
        ),
        db(power(&input[loud.clone()]), power(&output[loud])),
    )
}

fn peak(samples: &[f32]) -> f32 {
    samples.iter().fold(0.0f32, |a, b| a.max(b.abs()))
}

/// The queues of the suppressor around the model, with the noise gate left open.
struct Suppressor {
    state: Box<DenoiseState<'static>>,
    queues: Denoiser<f32>,
}

impl Suppressor {
    fn new() -> Self {
        let mut queues = Denoiser::new(FRAME, FRAME, 0.0);
        assert!(queues.set_enabled(true, 0.0));
        Suppressor { state: DenoiseState::new(), queues }
    }

    fn process(&mut self, samples: &mut [f32]) {
        for chunk in samples.chunks_mut(FRAME) {
            self.queues.take_in(chunk);
            while let Some(frame) = self.queues.next_frame(0.0) {
                let input: Vec<f32> = frame.iter().map(|s| s * SCALE).collect();
                let mut output = vec![0.0f32; FRAME];
                self.state.process_frame(&mut output[..], &input[..]);
                for sample in output.iter_mut() {
                    *sample /= SCALE;
                }
                let emission = self.queues.model_done(output, false, 0.0);
                self.queues.put_out(&emission.frame);
            }
            let mut given = chunk.to_vec();
            self.queues.deliver(&mut given, 0.0);
            chunk.copy_from_slice(&given);
        }
    }
}

fn run(suppressor: &mut Suppressor, input: &[f32], frame: usize) -> Vec<f32> {
    let mut out = input.to_vec();
    for block in out.chunks_mut(frame) {
        suppressor.process(block);
    }
    out
}

#[test]
fn the_frame_size_it_is_handed_does_not_matter() {
    let input = noisy_speech(RATE);
    let straight = run(&mut Suppressor::new(), &input, 480);

    for frame in [1, 137, 480, 1024] {
        let odd = run(&mut Suppressor::new(), &input, frame);
        assert_eq!(odd.len(), input.len());
        let lag = (0..2 * FRAME)
            .find(|lag| {
                odd[*lag..]
                    .iter()
                    .zip(&straight)
                    .all(|(a, b)| (a - b).abs() < 1e-9)
            })
            .unwrap_or_else(|| panic!("frames of {frame} gave different audio"));
        assert!(
            lag <= FRAME,
            "frames of {frame} cost {lag} samples of delay"
        );
    }

    // Sizes that change from call to call, which is what a resampled
    // capture stream does when it is a sample short of a frame.
    let mut suppressor = Suppressor::new();
    let mut mixed = input.clone();
    let mut at = 0;
    for size in [479usize, 480, 481, 1, 960, 137].iter().cycle() {
        let end = (at + size).min(mixed.len());
        suppressor.process(&mut mixed[at..end]);
        at = end;
        if at == mixed.len() {
            break;
        }
    }
    let (noise_down, voice_down) = suppression(&input, &mixed, RATE);
    assert!(
        noise_down > 25.0,
        "only took the noise down {noise_down:.1} dB"
    );
    assert!(
        voice_down < 2.0,
        "took {voice_down:.1} dB off the voice too"
    );
}

#[test]
fn it_takes_the_noise_out_and_leaves_the_voice() {
    let input = noisy_speech(RATE);
    let output = run(&mut Suppressor::new(), &input, 480);
    let (noise_down, voice_down) = suppression(&input, &output, RATE);

    assert!(
        noise_down > 25.0,
        "only took the noise down {noise_down:.1} dB"
    );
    assert!(
        voice_down < 2.0,
        "took {voice_down:.1} dB off the voice too"
    );
    // What the far end actually hears: the two figures together, against
    // the 9 dB it started with.
    assert!(
        noise_down - voice_down > 24.0,
        "signal to noise only improved {:.1} dB",
        noise_down - voice_down
    );
}

#[test]
fn what_comes_out_is_at_the_level_that_went_in() {
    let input = noisy_speech(RATE);
    let output = run(&mut Suppressor::new(), &input, 480);
    let voiced = (RATE * (ONSET + 1.0)) as usize..;
    let (before, after) = (peak(&input[voiced.clone()]), peak(&output[voiced]));
    assert!(
        after > before * 0.25 && after < before * 2.0,
        "went in at {before:.3} and came out at {after:.3}"
    );
}
