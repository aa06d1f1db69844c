//! The synthesizer: a pure, deterministic renderer from a part's note events
//! to a buffer of signed 16-bit samples.
//!
//! All arithmetic is integer arithmetic.  Oscillator phase lives in 65536
//! units per cycle and is always reduced modulo the cycle, so it never grows
//! with time; amplitudes, envelope levels and velocities are fixed-point with
//! `LEVEL_ONE` as 1.0.  A slot's modulators add into its phase; a slot with
//! the feedback flag additionally offsets its phase by its own un-fed-back
//! output, scaled by the operator's feedback amount.  Carrier outputs are
//! summed, scaled by the event's velocity, and clipped (never wrapped) to the
//! 16-bit range.
//!
//! Evaluation recurses from each carrier into its modulators.  The recursion
//! carries explicit fuel, one unit per modulation hop; the decoder only
//! accepts algorithms whose chains are shorter than the slot count, so a fuel
//! of one per slot always suffices for decoded models, and on any other input
//! the renderer still terminates and stays in bounds.

use vstd::prelude::*;

use crate::dat::{wf_algorithm, wf_event, AlgorithmV, Algorithm, NoteEvent, NoteEventV, Operator,
    Part, PartV, Slot, Waveform, LEVEL_ONE, MAX_SLOTS, NO_TARGET};

verus! {

/// Why a part could not be rendered: a note event's bindings do not fit the
/// algorithm it references.  Unreachable for a decoded model; reported, never
/// undefined behaviour, on any other input.
#[derive(Clone, Copy, Debug, PartialEq, Eq, Structural)]
pub enum SynthesisError {
    SlotMismatch,
}

/// Clips a level to the fixed-point range `0..=LEVEL_ONE`.
pub open spec fn clamp_level(x: int) -> int {
    if x < 0 {
        0
    } else if x > LEVEL_ONE as int {
        LEVEL_ONE as int
    } else {
        x
    }
}

/// Clips a sample to the symmetric 16-bit range; saturates, never wraps.
pub open spec fn clamp_sample(x: int) -> int {
    if x > 32767 {
        32767
    } else if x < -32767 {
        -32767
    } else {
        x
    }
}

/// Signed division by 1024 that rounds toward zero.
pub open spec fn sdiv1024(x: int) -> int {
    if x >= 0 {
        x / 1024
    } else {
        -((-x) / 1024)
    }
}

/// One half-cycle of the parabolic sine approximation, `p` in `0..32768`.
pub open spec fn sine_half(p: int) -> int {
    let q = p * (32768 - p) / 8192;
    if q > 32767 {
        32767
    } else {
        q
    }
}

/// The oscillator value of waveform `w` at phase `p` (65536 units per
/// cycle), in `-32767..=32767`.
pub open spec fn wave_val(w: Waveform, p: u16) -> int {
    match w {
        Waveform::Sine => if p < 32768 {
            sine_half(p as int)
        } else {
            -sine_half(p as int - 32768)
        },
        Waveform::Square => if p < 32768 {
            32767
        } else {
            -32767
        },
        Waveform::Triangle => if p < 16384 {
            2 * p as int
        } else if p < 49152 {
            32767 - 2 * (p as int - 16384)
        } else {
            -32767 + 2 * (p as int - 49152)
        },
        Waveform::Saw => if p as int - 32768 < -32767 {
            -32767
        } else {
            p as int - 32768
        },
    }
}

/// The oscillator values stay inside the symmetric 16-bit range.
pub proof fn lemma_wave_bounds(w: Waveform, p: u16)
    ensures
        -32767 <= wave_val(w, p) <= 32767,
{
    match w {
        Waveform::Sine => {
            if p < 32768 {
                assert(p as int * (32768 - p as int) >= 0) by (nonlinear_arith)
                    requires 0 <= p < 32768;
            } else {
                assert((p as int - 32768) * (32768 - (p as int - 32768)) >= 0) by (nonlinear_arith)
                    requires 32768 <= p <= 65535;
            }
        },
        _ => {},
    }
}

/// The per-sample phase increment of an operator, in phase units: the note's
/// pitch times the operator's frequency ratio, converted to 65536 units per
/// cycle at the given sample rate, reduced modulo one cycle.
pub open spec fn phase_step(op: Operator, pitch: u16, sr: u32) -> int {
    pitch as int * op.frequency_ratio as int * 256 / sr as int % 65536
}

/// The unmodulated phase of an operator at elapsed sample `t`.
pub open spec fn base_phase(op: Operator, pitch: u16, sr: u32, t: int) -> int {
    phase_step(op, pitch, sr) * t % 65536
}

/// Reduces a phase with (bounded) signed offsets back into one cycle.
pub open spec fn wrap_phase(x: int) -> int {
    (x + 4194304) % 65536
}

/// The envelope multiplier of an operator `t` samples into a note of `dur`
/// samples, in `0..=LEVEL_ONE`: a linear attack/decay/sustain shape times a
/// linear release that begins `release` samples before the note ends.
pub open spec fn env_val(op: Operator, dur: u32, t: int) -> int {
    let a = op.attack as int;
    let d = op.decay as int;
    let s = clamp_level(op.sustain as int);
    let rl = op.release as int;
    let n = dur as int;
    let stage = if t < a {
        t * 1024 / a
    } else if t < a + d {
        let sub = (t - a) * (1024 - s) / d;
        if sub >= 1024 {
            0
        } else {
            1024 - sub
        }
    } else {
        s
    };
    let relmul = if rl > 0 && t + rl >= n {
        let q = (n - t) * 1024 / rl;
        if q > 1024 {
            1024
        } else {
            q
        }
    } else {
        1024
    };
    let stage_c = clamp_level(stage);
    let relmul_c = clamp_level(relmul);
    stage_c * relmul_c / 1024
}

/// The output of one slot at elapsed sample `t`: its oscillator at the
/// modulated (and possibly fed-back) phase, scaled by the operator's
/// amplitude and envelope, clipped to the 16-bit range.  `fuel` bounds the
/// modulation depth; exhausted fuel and out-of-range slots yield silence.
pub open spec fn slot_out(
    slots: Seq<Slot>,
    ops: Seq<Operator>,
    pitch: u16,
    sr: u32,
    dur: u32,
    t: int,
    slot: int,
    fuel: nat,
) -> int
    decreases fuel, 1int, 0int,
{
    if fuel == 0 || slot < 0 || slot >= slots.len() || slot >= ops.len() {
        0
    } else {
        let op = ops[slot];
        let base = base_phase(op, pitch, sr, t);
        let ms = mod_sum(slots, ops, pitch, sr, dur, t, slot, slots.len() as int, fuel);
        let pre = wave_val(op.waveform, wrap_phase(base + ms) as u16);
        let fb = if slots[slot].feedback {
            sdiv1024(pre * op.feedback as int)
        } else {
            0
        };
        let v = wave_val(op.waveform, wrap_phase(base + ms + fb) as u16);
        let scaled = sdiv1024(v * op.amplitude as int);
        clamp_sample(sdiv1024(scaled * env_val(op, dur, t)))
    }
}

/// The summed outputs of the slots below `idx` that modulate `target_slot`.
pub open spec fn mod_sum(
    slots: Seq<Slot>,
    ops: Seq<Operator>,
    pitch: u16,
    sr: u32,
    dur: u32,
    t: int,
    target_slot: int,
    idx: int,
    fuel: nat,
) -> int
    decreases fuel, 0int, idx,
{
    if idx <= 0 || fuel == 0 {
        0
    } else {
        let c = if 0 <= idx - 1 < slots.len() && slots[idx - 1].target != NO_TARGET && slots[idx
            - 1].target as int == target_slot {
            slot_out(slots, ops, pitch, sr, dur, t, idx - 1, (fuel - 1) as nat)
        } else {
            0
        };
        c + mod_sum(slots, ops, pitch, sr, dur, t, target_slot, idx - 1, fuel)
    }
}

/// The summed outputs of the carrier slots below `idx`.
pub open spec fn carrier_sum(
    slots: Seq<Slot>,
    ops: Seq<Operator>,
    pitch: u16,
    sr: u32,
    dur: u32,
    t: int,
    idx: int,
    fuel: nat,
) -> int
    decreases fuel, 2int, idx,
{
    if idx <= 0 {
        0
    } else {
        let c = if 0 <= idx - 1 < slots.len() && slots[idx - 1].carrier {
            slot_out(slots, ops, pitch, sr, dur, t, idx - 1, fuel)
        } else {
            0
        };
        c + carrier_sum(slots, ops, pitch, sr, dur, t, idx - 1, fuel)
    }
}

/// A slot's output stays inside the symmetric 16-bit range.
pub proof fn lemma_slot_out_bound(
    slots: Seq<Slot>,
    ops: Seq<Operator>,
    pitch: u16,
    sr: u32,
    dur: u32,
    t: int,
    slot: int,
    fuel: nat,
)
    ensures
        -32767 <= slot_out(slots, ops, pitch, sr, dur, t, slot, fuel) <= 32767,
{
}

/// A modulator sum over `idx` slots is at most `idx` slot outputs wide.
pub proof fn lemma_mod_sum_bound(
    slots: Seq<Slot>,
    ops: Seq<Operator>,
    pitch: u16,
    sr: u32,
    dur: u32,
    t: int,
    target_slot: int,
    idx: int,
    fuel: nat,
)
    requires
        idx >= 0,
    ensures
        -idx * 32767 <= mod_sum(slots, ops, pitch, sr, dur, t, target_slot, idx, fuel) <= idx
            * 32767,
    decreases idx,
{
    if idx > 0 {
        lemma_mod_sum_bound(slots, ops, pitch, sr, dur, t, target_slot, idx - 1, fuel);
        if fuel > 0 {
            lemma_slot_out_bound(slots, ops, pitch, sr, dur, t, idx - 1, (fuel - 1) as nat);
        }
        assert(idx * 32767 == (idx - 1) * 32767 + 32767) by (nonlinear_arith);
    }
}

/// A carrier sum over `idx` slots is at most `idx` slot outputs wide.
pub proof fn lemma_carrier_sum_bound(
    slots: Seq<Slot>,
    ops: Seq<Operator>,
    pitch: u16,
    sr: u32,
    dur: u32,
    t: int,
    idx: int,
    fuel: nat,
)
    requires
        idx >= 0,
    ensures
        -idx * 32767 <= carrier_sum(slots, ops, pitch, sr, dur, t, idx, fuel) <= idx * 32767,
    decreases idx,
{
    if idx > 0 {
        lemma_carrier_sum_bound(slots, ops, pitch, sr, dur, t, idx - 1, fuel);
        lemma_slot_out_bound(slots, ops, pitch, sr, dur, t, idx - 1, fuel);
        assert(idx * 32767 == (idx - 1) * 32767 + 32767) by (nonlinear_arith);
    }
}

/// One output sample of a note event: the carrier sum of its algorithm's
/// slots bound to concrete operators, scaled by the event's velocity and
/// clipped to the 16-bit range.
pub open spec fn event_sample(
    slots: Seq<Slot>,
    bound_ops: Seq<Operator>,
    pitch: u16,
    vel: u16,
    sr: u32,
    dur: u32,
    t: int,
) -> i16 {
    let s = carrier_sum(slots, bound_ops, pitch, sr, dur, t, slots.len() as int, slots.len());
    clamp_sample(sdiv1024(s * vel as int)) as i16
}

/// The operators an event binds to the slots of its algorithm, in slot order.
pub open spec fn resolve_ops(refs: Seq<u8>, table: Seq<Operator>) -> Seq<Operator> {
    Seq::new(refs.len(), |i: int| table[refs[i] as int])
}

/// Whether a note event's references fit the tables: its algorithm exists,
/// has no more than `MAX_SLOTS` slots, is bound to exactly one operator per
/// slot, and every bound operator exists.
pub open spec fn check_event(e: NoteEventV, n_ops: int, algos: Seq<AlgorithmV>) -> bool {
    &&& (e.algorithm_ref as int) < algos.len()
    &&& algos[e.algorithm_ref as int].slots.len() <= MAX_SLOTS as int
    &&& e.operator_refs.len() == algos[e.algorithm_ref as int].slots.len()
    &&& forall|i: int|
        0 <= i < e.operator_refs.len() ==> (#[trigger] e.operator_refs[i] as int) < n_ops
}

/// Whether every event of a score passes [`check_event`].
pub open spec fn all_events_ok(score: Seq<NoteEventV>, n_ops: int, algos: Seq<AlgorithmV>) -> bool {
    forall|k: int| 0 <= k < score.len() ==> check_event(#[trigger] score[k], n_ops, algos)
}

/// All samples of one note event, in time order.
pub open spec fn event_samples(
    e: NoteEventV,
    ops: Seq<Operator>,
    algos: Seq<AlgorithmV>,
    sr: u32,
) -> Seq<i16> {
    let slots = algos[e.algorithm_ref as int].slots;
    let bound = resolve_ops(e.operator_refs, ops);
    Seq::new(e.duration as nat, |t: int| event_sample(slots, bound, e.pitch, e.velocity, sr,
        e.duration, t))
}

/// The samples of the first `k` events of a score, concatenated in score
/// order: events follow each other in time, with no implicit overlap.
pub open spec fn part_samples_to(
    score: Seq<NoteEventV>,
    ops: Seq<Operator>,
    algos: Seq<AlgorithmV>,
    sr: u32,
    k: int,
) -> Seq<i16>
    decreases k,
{
    if k <= 0 {
        Seq::empty()
    } else {
        part_samples_to(score, ops, algos, sr, k - 1) + event_samples(score[k - 1], ops, algos, sr)
    }
}

/// The summed duration, in samples, of the first `k` events of a score.
pub open spec fn total_samples_to(score: Seq<NoteEventV>, k: int) -> int
    decreases k,
{
    if k <= 0 {
        0
    } else {
        total_samples_to(score, k - 1) + score[k - 1].duration as int
    }
}

/// What rendering a part means: the concatenation of every event's samples,
/// or `SlotMismatch` if any event's bindings do not fit its algorithm.
pub open spec fn spec_render(
    part: PartV,
    ops: Seq<Operator>,
    algos: Seq<AlgorithmV>,
    sr: u32,
) -> Result<Seq<i16>, SynthesisError> {
    if all_events_ok(part.score, ops.len() as int, algos) {
        Ok(part_samples_to(part.score, ops, algos, sr, part.score.len() as int))
    } else {
        Err(SynthesisError::SlotMismatch)
    }
}

/// A rendered buffer is exactly as long as its events' durations sum to.
pub proof fn lemma_part_samples_len(
    score: Seq<NoteEventV>,
    ops: Seq<Operator>,
    algos: Seq<AlgorithmV>,
    sr: u32,
    k: int,
)
    ensures
        part_samples_to(score, ops, algos, sr, k).len() == if k <= 0 {
            0int
        } else {
            total_samples_to(score, k)
        },
    decreases k,
{
    if k > 0 {
        lemma_part_samples_len(score, ops, algos, sr, k - 1);
        assert(total_samples_to(score, k) == total_samples_to(score, k - 1) + score[k
            - 1].duration as int);
    }
}

/// Every rendered sample lies in the symmetric 16-bit range: summed carrier
/// output is saturated, never wrapped.
pub proof fn lemma_part_samples_bounded(
    score: Seq<NoteEventV>,
    ops: Seq<Operator>,
    algos: Seq<AlgorithmV>,
    sr: u32,
    k: int,
)
    ensures
        forall|j: int|
            0 <= j < part_samples_to(score, ops, algos, sr, k).len() ==> -32767 <= (
            #[trigger] part_samples_to(score, ops, algos, sr, k)[j]) as int <= 32767,
    decreases k,
{
    if k > 0 {
        lemma_part_samples_bounded(score, ops, algos, sr, k - 1);
        let prev = part_samples_to(score, ops, algos, sr, k - 1);
        let e = score[k - 1];
        let ev = event_samples(e, ops, algos, sr);
        assert forall|j: int|
            0 <= j < part_samples_to(score, ops, algos, sr, k).len() implies -32767 <= (
        #[trigger] part_samples_to(score, ops, algos, sr, k)[j]) as int <= 32767 by {
            if j >= prev.len() {
                assert(part_samples_to(score, ops, algos, sr, k)[j] == ev[j - prev.len()]);
            }
        }
    }
}

/// A note event with velocity zero renders as silence: every one of its
/// samples, and so every sample of an all-zero-velocity score, is zero.
pub proof fn lemma_zero_velocity_silence(
    score: Seq<NoteEventV>,
    ops: Seq<Operator>,
    algos: Seq<AlgorithmV>,
    sr: u32,
    k: int,
)
    requires
        k <= score.len(),
        forall|i: int| 0 <= i < score.len() ==> (#[trigger] score[i]).velocity == 0,
    ensures
        forall|j: int|
            0 <= j < part_samples_to(score, ops, algos, sr, k).len() ==> (
            #[trigger] part_samples_to(score, ops, algos, sr, k)[j]) as int == 0,
    decreases k,
{
    if k > 0 {
        lemma_zero_velocity_silence(score, ops, algos, sr, k - 1);
        if 0 <= k - 1 < score.len() {
            let e = score[k - 1];
            assert forall|t: int| 0 <= t < event_samples(e, ops, algos, sr).len() implies (
            #[trigger] event_samples(e, ops, algos, sr)[t]) as int == 0 by {
                let slots = algos[e.algorithm_ref as int].slots;
                let bound = resolve_ops(e.operator_refs, ops);
                let s = carrier_sum(slots, bound, e.pitch, sr, e.duration, t, slots.len() as int,
                    slots.len());
                assert(s * 0int == 0) by (nonlinear_arith);
            }
            let prev = part_samples_to(score, ops, algos, sr, k - 1);
            let ev = event_samples(e, ops, algos, sr);
            assert forall|j: int|
                0 <= j < part_samples_to(score, ops, algos, sr, k).len() implies (
            #[trigger] part_samples_to(score, ops, algos, sr, k)[j]) as int == 0 by {
                if j >= prev.len() {
                    assert(part_samples_to(score, ops, algos, sr, k)[j] == ev[j - prev.len()]);
                }
            }
        }
    }
}

/// A well-formed part of a well-formed model always renders: the defensive
/// `SlotMismatch` error is unreachable for models the decoder produced.
pub proof fn lemma_wf_part_renders(p: PartV, ops: Seq<Operator>, algos: Seq<AlgorithmV>, sr: u32)
    requires
        forall|i: int|
            0 <= i < p.score.len() ==> wf_event(#[trigger] p.score[i], ops.len() as int, algos),
        forall|i: int| 0 <= i < algos.len() ==> wf_algorithm(#[trigger] algos[i]),
    ensures
        spec_render(p, ops, algos, sr) is Ok,
{
    assert forall|k: int| 0 <= k < p.score.len() implies check_event(#[trigger] p.score[k],
        ops.len() as int, algos) by {
        assert(wf_event(p.score[k], ops.len() as int, algos));
        assert(wf_algorithm(algos[p.score[k].algorithm_ref as int]));
    }
}

/// A value no wider than `1024 * b` shrinks to no more than `b` when divided
/// by 1024 toward zero.
pub proof fn lemma_sdiv1024_bound(x: int, b: int)
    requires
        0 <= b,
        -1024 * b <= x <= 1024 * b,
    ensures
        -b <= sdiv1024(x) <= b,
{
    if x >= 0 {
        vstd::arithmetic::div_mod::lemma_div_is_ordered(x, 1024 * b, 1024);
        vstd::arithmetic::div_mod::lemma_div_multiples_vanish(b, 1024);
        vstd::arithmetic::div_mod::lemma_div_pos_is_pos(x, 1024);
    } else {
        vstd::arithmetic::div_mod::lemma_div_is_ordered(-x, 1024 * b, 1024);
        vstd::arithmetic::div_mod::lemma_div_multiples_vanish(b, 1024);
        vstd::arithmetic::div_mod::lemma_div_pos_is_pos(-x, 1024);
    }
}

// ------------------------------------------------------------------
// The executable renderer, one function per specification function.
// ------------------------------------------------------------------

fn scale1024(x: i64) -> (r: i64)
    requires
        -0x4000_0000_0000_0000 <= x <= 0x4000_0000_0000_0000,
    ensures
        r as int == sdiv1024(x as int),
{
    if x >= 0 {
        ((x as u64) / 1024) as i64
    } else {
        let m: u64 = (-x) as u64;
        -((m / 1024) as i64)
    }
}

fn wrap_phase_exec(x: i64) -> (r: u16)
    requires
        -4194304 <= x <= 4194304,
    ensures
        r as int == wrap_phase(x as int),
{
    (((x + 4194304) as u64 % 65536) as u16)
}

fn sine_half_exec(p: u16) -> (r: i32)
    requires
        p < 32768,
    ensures
        r as int == sine_half(p as int),
{
    proof {
        assert(p as int * (32768 - p as int) <= 32768 * 32768) by (nonlinear_arith)
            requires 0 <= p <= 32768;
        assert(p as int * (32768 - p as int) >= 0) by (nonlinear_arith)
            requires 0 <= p <= 32768;
    }
    let q: u32 = (p as u32) * (32768 - p as u32) / 8192;
    if q > 32767 {
        32767
    } else {
        q as i32
    }
}

fn wave_value(w: Waveform, p: u16) -> (r: i32)
    ensures
        r as int == wave_val(w, p),
        -32767 <= r <= 32767,
{
    proof {
        lemma_wave_bounds(w, p);
    }
    match w {
        Waveform::Sine => if p < 32768 {
            sine_half_exec(p)
        } else {
            -sine_half_exec(p - 32768)
        },
        Waveform::Square => if p < 32768 {
            32767
        } else {
            -32767
        },
        Waveform::Triangle => if p < 16384 {
            2 * p as i32
        } else if p < 49152 {
            32767 - 2 * (p as i32 - 16384)
        } else {
            -32767 + 2 * (p as i32 - 49152)
        },
        Waveform::Saw => {
            let v: i32 = p as i32 - 32768;
            if v < -32767 {
                -32767
            } else {
                v
            }
        },
    }
}

fn env_value(op: &Operator, dur: u32, t: u32) -> (r: u16)
    requires
        t < dur,
    ensures
        r as int == env_val(*op, dur, t as int),
        r <= LEVEL_ONE,
{
    let a: u64 = op.attack as u64;
    let d: u64 = op.decay as u64;
    let s: u64 = if op.sustain > LEVEL_ONE {
        LEVEL_ONE as u64
    } else {
        op.sustain as u64
    };
    let rl: u64 = op.release as u64;
    let n: u64 = dur as u64;
    let tt: u64 = t as u64;
    let stage: u64 = if tt < a {
        tt * 1024 / a
    } else if tt < a + d {
        proof {
            assert((tt - a) * (1024 - s) <= 0xFFFF_FFFFu64 * 1024) by (nonlinear_arith)
                requires 0 <= a && a <= tt && tt <= 0xFFFF_FFFFu64 && 0 <= s && s <= 1024;
        }
        let sub: u64 = (tt - a) * (1024 - s) / d;
        if sub >= 1024 {
            0
        } else {
            1024 - sub
        }
    } else {
        s
    };
    let relmul: u64 = if rl > 0 && tt + rl >= n {
        let q: u64 = (n - tt) * 1024 / rl;
        if q > 1024 {
            1024
        } else {
            q
        }
    } else {
        1024
    };
    let stage_c: u64 = if stage > 1024 {
        1024
    } else {
        stage
    };
    proof {
        assert(stage_c * relmul <= 1024 * 1024) by (nonlinear_arith)
            requires stage_c <= 1024 && relmul <= 1024;
    }
    (stage_c * relmul / 1024) as u16
}

fn eval_slot(
    slots: &Vec<Slot>,
    ops: &Vec<Operator>,
    pitch: u16,
    sr: u32,
    dur: u32,
    t: u32,
    slot: usize,
    fuel: u8,
) -> (r: i64)
    requires
        sr >= 1,
        t < dur,
        slots@.len() == ops@.len(),
        slots@.len() <= MAX_SLOTS,
        slot < slots@.len(),
    ensures
        r as int == slot_out(slots@, ops@, pitch, sr, dur, t as int, slot as int, fuel as nat),
        -32767 <= r <= 32767,
    decreases fuel as int, 1int, 0int,
{
    if fuel == 0 {
        return 0;
    }
    let op = ops[slot];
    proof {
        assert(pitch as u64 * op.frequency_ratio as u64 <= 65535u64 * 65535) by (nonlinear_arith)
            requires pitch <= 65535 && op.frequency_ratio <= 65535;
    }
    let step: u64 = pitch as u64 * op.frequency_ratio as u64 * 256 / (sr as u64) % 65536;
    proof {
        assert(step * (t as u64) <= 65535u64 * 0xFFFF_FFFFu64) by (nonlinear_arith)
            requires step <= 65535 && t as u64 <= 0xFFFF_FFFFu64;
    }
    let base: u64 = step * (t as u64) % 65536;
    let ms: i64 = eval_mod_sum(slots, ops, pitch, sr, dur, t, slot, slots.len(), fuel);
    proof {
        assert(slots@.len() as int * 32767 <= 8 * 32767) by (nonlinear_arith)
            requires slots@.len() <= 8;
    }
    let basei: i64 = base as i64;
    let pre: i32 = wave_value(op.waveform, wrap_phase_exec(basei + ms));
    let fb: i64 = if slots[slot].feedback {
        proof {
            assert(-32767 * 65535 <= pre as int * op.feedback as int <= 32767 * 65535) by (
            nonlinear_arith)
                requires -32767 <= pre <= 32767 && 0 <= op.feedback <= 65535;
            lemma_sdiv1024_bound(pre as int * op.feedback as int, 2097152);
        }
        scale1024(pre as i64 * op.feedback as i64)
    } else {
        0
    };
    let v: i32 = wave_value(op.waveform, wrap_phase_exec(basei + ms + fb));
    proof {
        assert(-32767 * 65535 <= v as int * op.amplitude as int <= 32767 * 65535) by (
        nonlinear_arith)
            requires -32767 <= v <= 32767 && 0 <= op.amplitude <= 65535;
        lemma_sdiv1024_bound(v as int * op.amplitude as int, 2097152);
    }
    let scaled: i64 = scale1024(v as i64 * op.amplitude as i64);
    let e: u16 = env_value(&op, dur, t);
    proof {
        assert(-2097152 * 1024 <= scaled as int * e as int <= 2097152 * 1024) by (nonlinear_arith)
            requires -2097152 <= scaled <= 2097152 && 0 <= e <= 1024;
        lemma_sdiv1024_bound(scaled as int * e as int, 2097152);
    }
    let outv: i64 = scale1024(scaled * e as i64);
    if outv > 32767 {
        32767
    } else if outv < -32767 {
        -32767
    } else {
        outv
    }
}

fn eval_mod_sum(
    slots: &Vec<Slot>,
    ops: &Vec<Operator>,
    pitch: u16,
    sr: u32,
    dur: u32,
    t: u32,
    target_slot: usize,
    idx: usize,
    fuel: u8,
) -> (r: i64)
    requires
        sr >= 1,
        t < dur,
        slots@.len() == ops@.len(),
        slots@.len() <= MAX_SLOTS,
        target_slot < slots@.len(),
        idx <= slots@.len(),
    ensures
        r as int == mod_sum(
            slots@,
            ops@,
            pitch,
            sr,
            dur,
            t as int,
            target_slot as int,
            idx as int,
            fuel as nat,
        ),
        -(idx as int) * 32767 <= r as int <= (idx as int) * 32767,
    decreases fuel as int, 0int, idx as int,
{
    if idx == 0 || fuel == 0 {
        proof {
            lemma_mod_sum_bound(slots@, ops@, pitch, sr, dur, t as int, target_slot as int,
                idx as int, fuel as nat);
        }
        return 0;
    }
    let m: usize = idx - 1;
    let c: i64 = if slots[m].target != NO_TARGET && slots[m].target as usize == target_slot {
        eval_slot(slots, ops, pitch, sr, dur, t, m, fuel - 1)
    } else {
        0
    };
    let rest: i64 = eval_mod_sum(slots, ops, pitch, sr, dur, t, target_slot, idx - 1, fuel);
    proof {
        assert((idx as int) * 32767 == (idx as int - 1) * 32767 + 32767) by (nonlinear_arith);
    }
    c + rest
}

fn eval_carrier_sum(
    slots: &Vec<Slot>,
    ops: &Vec<Operator>,
    pitch: u16,
    sr: u32,
    dur: u32,
    t: u32,
    idx: usize,
    fuel: u8,
) -> (r: i64)
    requires
        sr >= 1,
        t < dur,
        slots@.len() == ops@.len(),
        slots@.len() <= MAX_SLOTS,
        idx <= slots@.len(),
    ensures
        r as int == carrier_sum(slots@, ops@, pitch, sr, dur, t as int, idx as int, fuel as nat),
        -(idx as int) * 32767 <= r as int <= (idx as int) * 32767,
    decreases fuel as int, 2int, idx as int,
{
    if idx == 0 {
        return 0;
    }
    let m: usize = idx - 1;
    let c: i64 = if slots[m].carrier {
        eval_slot(slots, ops, pitch, sr, dur, t, m, fuel)
    } else {
        0
    };
    let rest: i64 = eval_carrier_sum(slots, ops, pitch, sr, dur, t, idx - 1, fuel);
    proof {
        assert((idx as int) * 32767 == (idx as int - 1) * 32767 + 32767) by (nonlinear_arith);
    }
    c + rest
}

fn compute_sample(
    slots: &Vec<Slot>,
    bound_ops: &Vec<Operator>,
    pitch: u16,
    vel: u16,
    sr: u32,
    dur: u32,
    t: u32,
) -> (s: i16)
    requires
        sr >= 1,
        t < dur,
        slots@.len() == bound_ops@.len(),
        slots@.len() <= MAX_SLOTS,
    ensures
        s == event_sample(slots@, bound_ops@, pitch, vel, sr, dur, t as int),
{
    let n: usize = slots.len();
    let cs: i64 = eval_carrier_sum(slots, bound_ops, pitch, sr, dur, t, n, n as u8);
    proof {
        assert(-(8int * 32767) <= cs as int <= 8 * 32767);
        assert(-262136 * 65535 <= cs as int * vel as int <= 262136 * 65535) by (nonlinear_arith)
            requires -262136 <= cs <= 262136 && 0 <= vel <= 65535;
        lemma_sdiv1024_bound(cs as int * vel as int, 16777216);
    }
    let sc: i64 = scale1024(cs * vel as i64);
    if sc > 32767 {
        32767
    } else if sc < -32767 {
        -32767
    } else {
        sc as i16
    }
}

fn resolve(refs: &Vec<u8>, table: &Vec<Operator>) -> (r: Vec<Operator>)
    requires
        forall|i: int| 0 <= i < refs@.len() ==> ((#[trigger] refs@[i]) as int) < table@.len(),
    ensures
        r@ == resolve_ops(refs@, table@),
{
    let mut out: Vec<Operator> = Vec::new();
    let mut i: usize = 0;
    while i < refs.len()
        invariant
            i <= refs@.len(),
            out@.len() == i as int,
            forall|j: int| 0 <= j < i as int ==> out@[j] == table@[(#[trigger] refs@[j]) as int],
            forall|j: int| 0 <= j < refs@.len() ==> ((#[trigger] refs@[j]) as int) < table@.len(),
        decreases refs@.len() - i,
    {
        out.push(table[refs[i] as usize]);
        i += 1;
    }
    proof {
        assert(out@ =~= resolve_ops(refs@, table@));
    }
    out
}

fn event_ok(e: &NoteEvent, n_ops: usize, algos: &Vec<Algorithm>) -> (r: bool)
    ensures
        r == check_event(e.deep_view(), n_ops as int, algos.deep_view()),
{
    let aref: usize = e.algorithm_ref as usize;
    if aref >= algos.len() {
        return false;
    }
    proof {
        assert(algos.deep_view()[aref as int].slots =~= algos@[aref as int].slots@);
    }
    let sc: usize = algos[aref].slots.len();
    if sc > MAX_SLOTS {
        return false;
    }
    if e.operator_refs.len() != sc {
        return false;
    }
    let mut i: usize = 0;
    while i < e.operator_refs.len()
        invariant
            i <= e.operator_refs@.len(),
            forall|j: int|
                0 <= j < i as int ==> ((#[trigger] e.operator_refs@[j]) as int) < n_ops as int,
        decreases e.operator_refs@.len() - i,
    {
        if e.operator_refs[i] as usize >= n_ops {
            return false;
        }
        i += 1;
    }
    true
}

/// Renders one part into its sample buffer: every note event in score order,
/// each event's samples produced by its algorithm's carrier slots bound to
/// its operators, scaled by its velocity, clipped to the 16-bit range.
///
/// Returns exactly what [`spec_render`] says: the concatenated samples, whose
/// length is the sum of the events' durations and whose every sample lies in
/// `-32767..=32767`; or `SlotMismatch` if — impossible for a decoded model,
/// but re-checked here rather than trusted — some event's references do not
/// fit the tables.  Two calls on identical inputs return identical buffers.
pub fn render(
    part: &Part,
    operators: &Vec<Operator>,
    algorithms: &Vec<Algorithm>,
    sample_rate: u32,
) -> (r: Result<Vec<i16>, SynthesisError>)
    requires
        sample_rate >= 1,
    ensures
        r matches Ok(buf) ==> {
            &&& spec_render(part.deep_view(), operators@, algorithms.deep_view(), sample_rate)
                == Ok::<Seq<i16>, SynthesisError>(buf@)
            &&& buf@.len() == total_samples_to(
                part.deep_view().score,
                part.deep_view().score.len() as int,
            )
            &&& forall|j: int| 0 <= j < buf@.len() ==> -32767 <= (#[trigger] buf@[j]) as int
                <= 32767
        },
        r matches Err(e) ==> spec_render(
            part.deep_view(),
            operators@,
            algorithms.deep_view(),
            sample_rate,
        ) == Err::<Seq<i16>, SynthesisError>(e),
{
    let ghost scorev = part.deep_view().score;
    let ghost opsv = operators@;
    let ghost algosv = algorithms.deep_view();
    let mut i: usize = 0;
    while i < part.score.len()
        invariant
            i <= part.score@.len(),
            scorev == part.deep_view().score,
            opsv == operators@,
            algosv == algorithms.deep_view(),
            forall|k: int|
                0 <= k < i as int ==> check_event(#[trigger] scorev[k], opsv.len() as int, algosv),
        decreases part.score@.len() - i,
    {
        proof {
            assert(scorev[i as int] == part.score@[i as int].deep_view());
        }
        if !event_ok(&part.score[i], operators.len(), algorithms) {
            proof {
                assert(!check_event(scorev[i as int], opsv.len() as int, algosv));
            }
            return Err(SynthesisError::SlotMismatch);
        }
        i += 1;
    }
    assert(all_events_ok(scorev, opsv.len() as int, algosv));
    let mut buf: Vec<i16> = Vec::new();
    let mut i: usize = 0;
    while i < part.score.len()
        invariant
            i <= part.score@.len(),
            scorev == part.deep_view().score,
            opsv == operators@,
            algosv == algorithms.deep_view(),
            sample_rate >= 1,
            all_events_ok(scorev, opsv.len() as int, algosv),
            buf@ == part_samples_to(scorev, opsv, algosv, sample_rate, i as int),
        decreases part.score@.len() - i,
    {
        let ghost e = scorev[i as int];
        proof {
            assert(e == part.score@[i as int].deep_view());
            assert(check_event(e, opsv.len() as int, algosv));
        }
        let ev = &part.score[i];
        let aref: usize = ev.algorithm_ref as usize;
        proof {
            assert(algosv[aref as int].slots =~= algorithms@[aref as int].slots@);
            assert(e.operator_refs =~= ev.operator_refs@);
        }
        let slots = &algorithms[aref].slots;
        let bound = resolve(&ev.operator_refs, operators);
        proof {
            assert(bound@ =~= resolve_ops(e.operator_refs, opsv));
        }
        let dur: u32 = ev.duration;
        let pitch: u16 = ev.pitch;
        let vel: u16 = ev.velocity;
        let mut t: u32 = 0;
        while t < dur
            invariant
                t <= dur,
                sample_rate >= 1,
                slots@ == algosv[e.algorithm_ref as int].slots,
                bound@ == resolve_ops(e.operator_refs, opsv),
                slots@.len() == bound@.len(),
                slots@.len() <= MAX_SLOTS,
                dur == e.duration,
                pitch == e.pitch,
                vel == e.velocity,
                buf@ == part_samples_to(scorev, opsv, algosv, sample_rate, i as int) + Seq::new(
                    t as nat,
                    |j: int| event_sample(slots@, bound@, pitch, vel, sample_rate, dur, j),
                ),
            decreases dur - t,
        {
            let s: i16 = compute_sample(slots, &bound, pitch, vel, sample_rate, dur, t);
            buf.push(s);
            proof {
                assert(Seq::new((t + 1) as nat, |j: int| event_sample(slots@, bound@, pitch, vel,
                    sample_rate, dur, j)) =~= Seq::new(t as nat, |j: int| event_sample(slots@,
                    bound@, pitch, vel, sample_rate, dur, j)).push(event_sample(slots@, bound@,
                    pitch, vel, sample_rate, dur, t as int)));
            }
            t += 1;
        }
        proof {
            assert(event_samples(e, opsv, algosv, sample_rate) =~= Seq::new(dur as nat, |j: int|
                event_sample(slots@, bound@, pitch, vel, sample_rate, dur, j)));
            assert(buf@ =~= part_samples_to(scorev, opsv, algosv, sample_rate, i as int + 1));
        }
        i += 1;
    }
    proof {
        lemma_part_samples_len(scorev, opsv, algosv, sample_rate, scorev.len() as int);
        lemma_part_samples_bounded(scorev, opsv, algosv, sample_rate, scorev.len() as int);
    }
    Ok(buf)
}

/// Rendering is deterministic: the render of a part is a function of the
/// part, the tables and the sample rate alone, so two renders of identical
/// inputs are byte-identical.
pub proof fn lemma_render_deterministic(
    part: PartV,
    ops: Seq<Operator>,
    algos: Seq<AlgorithmV>,
    sr: u32,
    r1: Result<Seq<i16>, SynthesisError>,
    r2: Result<Seq<i16>, SynthesisError>,
)
    requires
        r1 == spec_render(part, ops, algos, sr),
        r2 == spec_render(part, ops, algos, sr),
    ensures
        r1 == r2,
{
}

} // verus!
