use soundbox::dat::{decode, encode, DecodeError, Waveform};

/// Bytes of one operator record: sine, ratio 1.0, full amplitude, no
/// feedback, flat envelope (instant attack, no decay, full sustain, no
/// release).
fn flat_sine_operator() -> Vec<u8> {
    let mut b: Vec<u8> = Vec::new();
    b.push(0); // waveform: sine
    b.extend_from_slice(&[0, 1]); // frequency_ratio 256 = 1.0
    b.extend_from_slice(&[0, 4]); // amplitude 1024
    b.extend_from_slice(&[0, 0]); // feedback 0
    b.extend_from_slice(&[0, 0]); // attack 0
    b.extend_from_slice(&[0, 0]); // decay 0
    b.extend_from_slice(&[0, 4]); // sustain 1024
    b.extend_from_slice(&[0, 0]); // release 0
    b
}

/// Bytes of a one-slot algorithm: a single carrier, no modulation target.
fn single_carrier_algorithm() -> Vec<u8> {
    vec![1, 255, 1]
}

/// A whole valid blob: one voice, one operator, one algorithm, one song
/// with one part holding one note event.
fn valid_blob() -> Vec<u8> {
    let mut b: Vec<u8> = vec![1, 1, 1, 1];
    b.extend_from_slice(&flat_sine_operator());
    b.extend_from_slice(&single_carrier_algorithm());
    b.push(1); // one part
    b.push(0); // voice_id 0
    b.extend_from_slice(&[1, 0]); // one event
    b.extend_from_slice(&[184, 1]); // pitch 440
    b.extend_from_slice(&[58, 17, 0, 0]); // duration 4410
    b.extend_from_slice(&[0, 4]); // velocity 1024
    b.push(0); // algorithm 0
    b.push(0); // slot 0 bound to operator 0
    b
}

#[test]
fn empty_input_is_truncated() {
    assert_eq!(decode(&Vec::new()).unwrap_err(), DecodeError::Truncated);
}

#[test]
fn short_header_is_truncated() {
    assert_eq!(decode(&vec![1, 0, 0]).unwrap_err(), DecodeError::Truncated);
}

#[test]
fn empty_tables_decode() {
    let m = decode(&vec![3, 0, 0, 0]).unwrap();
    assert_eq!(m.max_voice_count, 3);
    assert_eq!(m.operators.len(), 0);
    assert_eq!(m.algorithms.len(), 0);
    assert_eq!(m.songs.len(), 0);
}

#[test]
fn trailing_bytes_are_invalid() {
    assert_eq!(decode(&vec![3, 0, 0, 0, 9]).unwrap_err(), DecodeError::InvalidValue);
}

#[test]
fn truncated_operator_record() {
    let mut b = vec![1u8, 1, 0, 0];
    b.extend_from_slice(&flat_sine_operator()[..7]);
    assert_eq!(decode(&b).unwrap_err(), DecodeError::Truncated);
}

#[test]
fn operator_fields_decode() {
    let mut b = vec![1u8, 1, 0, 0];
    b.extend_from_slice(&flat_sine_operator());
    let m = decode(&b).unwrap();
    assert_eq!(m.operators.len(), 1);
    let op = &m.operators[0];
    assert_eq!(op.waveform, Waveform::Sine);
    assert_eq!(op.frequency_ratio, 256);
    assert_eq!(op.amplitude, 1024);
    assert_eq!(op.feedback, 0);
    assert_eq!(op.sustain, 1024);
}

#[test]
fn unknown_waveform_is_invalid() {
    let mut rec = flat_sine_operator();
    rec[0] = 4;
    let mut b = vec![1u8, 1, 0, 0];
    b.extend_from_slice(&rec);
    assert_eq!(decode(&b).unwrap_err(), DecodeError::InvalidValue);
}

#[test]
fn zero_frequency_ratio_is_invalid() {
    let mut rec = flat_sine_operator();
    rec[1] = 0;
    rec[2] = 0;
    let mut b = vec![1u8, 1, 0, 0];
    b.extend_from_slice(&rec);
    assert_eq!(decode(&b).unwrap_err(), DecodeError::InvalidValue);
}

#[test]
fn amplitude_above_one_is_invalid() {
    let mut rec = flat_sine_operator();
    rec[3] = 1; // amplitude 1025
    rec[4] = 4;
    let mut b = vec![1u8, 1, 0, 0];
    b.extend_from_slice(&rec);
    assert_eq!(decode(&b).unwrap_err(), DecodeError::InvalidValue);
}

#[test]
fn slot_target_out_of_range() {
    let mut b = vec![1u8, 0, 1, 0];
    b.extend_from_slice(&[1, 1, 1]); // one slot targeting slot 1 of 1
    assert_eq!(decode(&b).unwrap_err(), DecodeError::IndexOutOfRange);
}

#[test]
fn self_targeting_slot_is_invalid() {
    let mut b = vec![1u8, 0, 1, 0];
    b.extend_from_slice(&[1, 0, 1]); // one slot targeting itself: a cycle
    assert_eq!(decode(&b).unwrap_err(), DecodeError::InvalidValue);
}

#[test]
fn chain_not_ending_at_carrier_is_invalid() {
    let mut b = vec![1u8, 0, 1, 0];
    b.extend_from_slice(&[1, 255, 0]); // one slot, no target, not a carrier
    assert_eq!(decode(&b).unwrap_err(), DecodeError::InvalidValue);
}

#[test]
fn modulator_into_carrier_decodes() {
    let mut b = vec![1u8, 0, 1, 0];
    // slot 0 modulates slot 1; slot 1 is the carrier.
    b.extend_from_slice(&[2, 1, 0, 255, 1]);
    let m = decode(&b).unwrap();
    assert_eq!(m.algorithms.len(), 1);
    assert_eq!(m.algorithms[0].slots.len(), 2);
    assert_eq!(m.algorithms[0].slots[0].target, 1);
    assert!(m.algorithms[0].slots[1].carrier);
}

#[test]
fn unknown_slot_flags_are_invalid() {
    let mut b = vec![1u8, 0, 1, 0];
    b.extend_from_slice(&[1, 255, 5]);
    assert_eq!(decode(&b).unwrap_err(), DecodeError::InvalidValue);
}

#[test]
fn zero_slot_count_is_invalid() {
    let mut b = vec![1u8, 0, 1, 0];
    b.push(0);
    assert_eq!(decode(&b).unwrap_err(), DecodeError::InvalidValue);
}

#[test]
fn voice_id_out_of_range() {
    let mut b = valid_blob();
    // the part's voice_id byte sits right after the song's part count
    let voice_pos = 4 + 15 + 3 + 1;
    b[voice_pos] = 1; // max_voice_count is 1, so voice 1 is out of range
    assert_eq!(decode(&b).unwrap_err(), DecodeError::IndexOutOfRange);
}

#[test]
fn algorithm_ref_out_of_range() {
    let mut b = valid_blob();
    let algo_ref_pos = 4 + 15 + 3 + 1 + 1 + 2 + 2 + 4 + 2;
    b[algo_ref_pos] = 1;
    assert_eq!(decode(&b).unwrap_err(), DecodeError::IndexOutOfRange);
}

#[test]
fn operator_ref_out_of_range() {
    let mut b = valid_blob();
    let op_ref_pos = 4 + 15 + 3 + 1 + 1 + 2 + 2 + 4 + 2 + 1;
    b[op_ref_pos] = 7;
    assert_eq!(decode(&b).unwrap_err(), DecodeError::IndexOutOfRange);
}

#[test]
fn zero_pitch_is_invalid() {
    let mut b = valid_blob();
    let pitch_pos = 4 + 15 + 3 + 1 + 1 + 2;
    b[pitch_pos] = 0;
    b[pitch_pos + 1] = 0;
    assert_eq!(decode(&b).unwrap_err(), DecodeError::InvalidValue);
}

#[test]
fn velocity_above_one_is_invalid() {
    let mut b = valid_blob();
    let vel_pos = 4 + 15 + 3 + 1 + 1 + 2 + 2 + 4;
    b[vel_pos] = 1;
    b[vel_pos + 1] = 4; // velocity 1025
    assert_eq!(decode(&b).unwrap_err(), DecodeError::InvalidValue);
}

#[test]
fn whole_blob_decodes() {
    let m = decode(&valid_blob()).unwrap();
    assert_eq!(m.max_voice_count, 1);
    assert_eq!(m.songs.len(), 1);
    assert_eq!(m.songs[0].len(), 1);
    let part = &m.songs[0][0];
    assert_eq!(part.voice_id, 0);
    assert_eq!(part.score.len(), 1);
    let ev = &part.score[0];
    assert_eq!(ev.pitch, 440);
    assert_eq!(ev.duration, 4410);
    assert_eq!(ev.velocity, 1024);
    assert_eq!(ev.algorithm_ref, 0);
    assert_eq!(ev.operator_refs, vec![0]);
}

#[test]
fn decode_is_idempotent_on_its_own_output() {
    let bytes = valid_blob();
    let m1 = decode(&bytes).unwrap();
    let again = encode(&m1);
    assert_eq!(again, bytes);
    let m2 = decode(&again).unwrap();
    assert_eq!(encode(&m2), bytes);
}

#[test]
fn every_strict_prefix_is_truncated() {
    let bytes = valid_blob();
    for j in 0..bytes.len() {
        let prefix: Vec<u8> = bytes[..j].to_vec();
        assert_eq!(decode(&prefix).unwrap_err(), DecodeError::Truncated);
    }
}

#[test]
fn decode_is_deterministic() {
    let bytes = valid_blob();
    let m1 = decode(&bytes).unwrap();
    let m2 = decode(&bytes).unwrap();
    assert_eq!(encode(&m1), encode(&m2));
}
