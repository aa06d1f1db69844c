use soundbox::dat::{Algorithm, NoteEvent, Operator, Part, Slot, Waveform};
use soundbox::synth::{render, SynthesisError};
use soundbox::SAMPLE_RATE;

fn flat_operator(waveform: Waveform) -> Operator {
    Operator {
        waveform,
        frequency_ratio: 256, // 1.0
        amplitude: 1024,      // 1.0
        feedback: 0,
        attack: 0,
        decay: 0,
        sustain: 1024, // 1.0
        release: 0,
    }
}

fn single_carrier() -> Algorithm {
    Algorithm { slots: vec![Slot { target: 255, carrier: true, feedback: false }] }
}

fn one_note_part(pitch: u16, duration: u32, velocity: u16) -> Part {
    Part {
        voice_id: 0,
        score: vec![NoteEvent {
            pitch,
            duration,
            velocity,
            algorithm_ref: 0,
            operator_refs: vec![0],
        }],
    }
}

#[test]
fn one_second_renders_exactly_one_sample_rate_of_samples() {
    let ops = vec![flat_operator(Waveform::Sine)];
    let algos = vec![single_carrier()];
    let part = one_note_part(440, 44100, 1024);
    let buf = render(&part, &ops, &algos, SAMPLE_RATE).unwrap();
    assert_eq!(buf.len(), 44100);
}

#[test]
fn events_concatenate_in_time() {
    let ops = vec![flat_operator(Waveform::Sine)];
    let algos = vec![single_carrier()];
    let mut part = one_note_part(440, 100, 1024);
    part.score.push(NoteEvent {
        pitch: 880,
        duration: 50,
        velocity: 512,
        algorithm_ref: 0,
        operator_refs: vec![0],
    });
    let buf = render(&part, &ops, &algos, SAMPLE_RATE).unwrap();
    assert_eq!(buf.len(), 150);
}

#[test]
fn zero_velocity_renders_silence() {
    let ops = vec![flat_operator(Waveform::Square)];
    let algos = vec![single_carrier()];
    let part = one_note_part(440, 2000, 0);
    let buf = render(&part, &ops, &algos, SAMPLE_RATE).unwrap();
    assert_eq!(buf.len(), 2000);
    assert!(buf.iter().all(|&s| s == 0));
}

#[test]
fn summed_carriers_saturate_instead_of_wrapping() {
    // Two full-amplitude square carriers sum to twice the sample range;
    // every sample must clip to the rails, never wrap sign.
    let ops = vec![flat_operator(Waveform::Square), flat_operator(Waveform::Square)];
    let algos = vec![Algorithm {
        slots: vec![
            Slot { target: 255, carrier: true, feedback: false },
            Slot { target: 255, carrier: true, feedback: false },
        ],
    }];
    let part = Part {
        voice_id: 0,
        score: vec![NoteEvent {
            pitch: 440,
            duration: 1000,
            velocity: 1024,
            algorithm_ref: 0,
            operator_refs: vec![0, 1],
        }],
    };
    let buf = render(&part, &ops, &algos, SAMPLE_RATE).unwrap();
    assert!(buf.iter().all(|&s| s == 32767 || s == -32767));
}

#[test]
fn rendering_is_deterministic() {
    let ops = vec![flat_operator(Waveform::Triangle), flat_operator(Waveform::Saw)];
    let algos = vec![Algorithm {
        slots: vec![
            Slot { target: 1, carrier: false, feedback: true },
            Slot { target: 255, carrier: true, feedback: false },
        ],
    }];
    let part = Part {
        voice_id: 0,
        score: vec![NoteEvent {
            pitch: 523,
            duration: 4410,
            velocity: 900,
            algorithm_ref: 0,
            operator_refs: vec![0, 1],
        }],
    };
    let a = render(&part, &ops, &algos, SAMPLE_RATE).unwrap();
    let b = render(&part, &ops, &algos, SAMPLE_RATE).unwrap();
    assert_eq!(a, b);
}

#[test]
fn algorithm_ref_out_of_range_is_a_slot_mismatch() {
    let ops = vec![flat_operator(Waveform::Sine)];
    let algos = vec![single_carrier()];
    let mut part = one_note_part(440, 100, 1024);
    part.score[0].algorithm_ref = 3;
    assert_eq!(render(&part, &ops, &algos, SAMPLE_RATE), Err(SynthesisError::SlotMismatch));
}

#[test]
fn wrong_binding_count_is_a_slot_mismatch() {
    let ops = vec![flat_operator(Waveform::Sine)];
    let algos = vec![single_carrier()];
    let mut part = one_note_part(440, 100, 1024);
    part.score[0].operator_refs = vec![0, 0];
    assert_eq!(render(&part, &ops, &algos, SAMPLE_RATE), Err(SynthesisError::SlotMismatch));
}

#[test]
fn operator_ref_out_of_range_is_a_slot_mismatch() {
    let ops = vec![flat_operator(Waveform::Sine)];
    let algos = vec![single_carrier()];
    let mut part = one_note_part(440, 100, 1024);
    part.score[0].operator_refs = vec![9];
    assert_eq!(render(&part, &ops, &algos, SAMPLE_RATE), Err(SynthesisError::SlotMismatch));
}

#[test]
fn modulation_changes_the_signal() {
    let ops = vec![flat_operator(Waveform::Sine)];
    let plain = vec![single_carrier()];
    let modulated = vec![Algorithm {
        slots: vec![
            Slot { target: 1, carrier: false, feedback: false },
            Slot { target: 255, carrier: true, feedback: false },
        ],
    }];
    let plain_part = one_note_part(440, 2000, 1024);
    let mut mod_part = plain_part.clone();
    mod_part.score[0].operator_refs = vec![0, 0];
    let a = render(&plain_part, &ops, &plain, SAMPLE_RATE).unwrap();
    let b = render(&mod_part, &ops, &modulated, SAMPLE_RATE).unwrap();
    assert_eq!(a.len(), b.len());
    assert_ne!(a, b);
}

#[test]
fn feedback_changes_the_signal() {
    let ops = vec![flat_operator(Waveform::Sine), {
        let mut op = flat_operator(Waveform::Sine);
        op.feedback = 1024;
        op
    }];
    let algos = vec![single_carrier(), Algorithm {
        slots: vec![Slot { target: 255, carrier: true, feedback: true }],
    }];
    let plain_part = one_note_part(440, 2000, 1024);
    let mut fb_part = plain_part.clone();
    fb_part.score[0].algorithm_ref = 1;
    fb_part.score[0].operator_refs = vec![1];
    let a = render(&plain_part, &ops, &algos, SAMPLE_RATE).unwrap();
    let b = render(&fb_part, &ops, &algos, SAMPLE_RATE).unwrap();
    assert_ne!(a, b);
}

#[test]
fn hundred_millisecond_sine_at_440() {
    // One sine operator (ratio 1.0, flat envelope), one single-carrier
    // algorithm, one 100 ms note at 440 Hz and full velocity: 4410 samples
    // approximating a 440 Hz sine with no discontinuity anywhere.
    let ops = vec![flat_operator(Waveform::Sine)];
    let algos = vec![single_carrier()];
    let part = one_note_part(440, 4410, 1024);
    let buf = render(&part, &ops, &algos, SAMPLE_RATE).unwrap();
    assert_eq!(buf.len(), 4410);
    // starts at a zero crossing, rising
    assert_eq!(buf[0], 0);
    assert!(buf[1] > 0);
    // reaches close to the positive and negative peaks each cycle
    let max = buf.iter().copied().max().unwrap();
    let min = buf.iter().copied().min().unwrap();
    assert!(max > 30000, "max was {max}");
    assert!(min < -30000, "min was {min}");
    // one period is about 100 samples, so adjacent samples never jump far:
    // no discontinuity inside the buffer or at the cycle boundaries
    for w in buf.windows(2) {
        let step = (w[1] as i32 - w[0] as i32).abs();
        assert!(step < 4000, "discontinuity of {step}");
    }
}
