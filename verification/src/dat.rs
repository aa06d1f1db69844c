//! The binary music-data format: model types and the decoder.
//!
//! A blob is a four-byte header (voice count, operator count, algorithm count,
//! song count) followed by the operator table, the algorithm table and the
//! song table, in that order, so that no record ever refers forward.  All
//! multi-byte integers are little-endian.  Fractional quantities (amplitudes,
//! envelope levels, velocities) are fixed-point with `LEVEL_ONE` as 1.0, and
//! frequency ratios are fixed-point with 256 as 1.0, so the whole model is
//! made of plain integers.
//!
//! Decoding is all-or-nothing: every length read from the stream is checked
//! against the remaining bytes, every cross-reference is checked against the
//! table it points into, and every numeric field is checked against its
//! documented domain, before anything is accepted.

use vstd::prelude::*;

verus! {

/// Fixed-point unit: the value that means 1.0 for amplitudes, envelope
/// levels, feedback amounts and velocities.
pub const LEVEL_ONE: u16 = 1024;

/// Largest number of operator slots an algorithm may have.
pub const MAX_SLOTS: usize = 8;

/// Largest number of note events a single part may declare.
pub const MAX_EVENTS_PER_PART: u16 = 1024;

/// Largest duration, in samples, a single note event may declare.
pub const MAX_EVENT_SAMPLES: u32 = 2097152;

/// Sentinel value in a slot's target byte meaning "modulates nothing".
pub const NO_TARGET: u8 = 255;

/// Number of bytes in the blob header.
pub const HEADER_LEN: usize = 4;

/// Why a blob was rejected.
#[derive(Clone, Copy, Debug, PartialEq, Eq, Structural)]
pub enum DecodeError {
    /// Fewer bytes remained than a field needed.
    Truncated,
    /// A cross-reference (operator, algorithm or voice index) exceeded its table.
    IndexOutOfRange,
    /// A numeric field was outside its documented domain.
    InvalidValue,
}

/// The waveform kinds an operator's oscillator can produce.
#[derive(Clone, Copy, Debug, PartialEq, Eq, Structural)]
pub enum Waveform {
    Sine,
    Square,
    Triangle,
    Saw,
}

/// One oscillator-plus-envelope definition, shared by reference (by index)
/// across every note event that uses it.
#[derive(Clone, Copy, Debug, PartialEq, Eq, Structural)]
pub struct Operator {
    /// Which waveform the oscillator produces.
    pub waveform: Waveform,
    /// Oscillator frequency relative to the note's base frequency,
    /// fixed-point with 256 as 1.0; never zero.
    pub frequency_ratio: u16,
    /// Output amplitude scale, `0..=LEVEL_ONE`.
    pub amplitude: u16,
    /// Self-modulation amount, `0..=LEVEL_ONE`.
    pub feedback: u16,
    /// Envelope attack time, in samples.
    pub attack: u16,
    /// Envelope decay time, in samples.
    pub decay: u16,
    /// Envelope sustain level, `0..=LEVEL_ONE`.
    pub sustain: u16,
    /// Envelope release time, in samples.
    pub release: u16,
}

impl DeepView for Operator {
    type V = Operator;

    open spec fn deep_view(&self) -> Operator {
        *self
    }
}

/// One slot of an algorithm's routing graph.
#[derive(Clone, Copy, Debug, PartialEq, Eq, Structural)]
pub struct Slot {
    /// Index of the slot this slot modulates, or `NO_TARGET` for none.
    pub target: u8,
    /// Whether this slot's output is summed into the final signal.
    pub carrier: bool,
    /// Whether this slot feeds its own output back into its phase.
    pub feedback: bool,
}

impl DeepView for Slot {
    type V = Slot;

    open spec fn deep_view(&self) -> Slot {
        *self
    }
}

/// A voice-routing graph over a small set of operator slots.
#[derive(Clone, Debug)]
pub struct Algorithm {
    /// The slots, `1..=MAX_SLOTS` of them.
    pub slots: Vec<Slot>,
}

/// Ghost image of an [`Algorithm`].
pub struct AlgorithmV {
    pub slots: Seq<Slot>,
}

impl DeepView for Algorithm {
    type V = AlgorithmV;

    open spec fn deep_view(&self) -> AlgorithmV {
        AlgorithmV { slots: self.slots@ }
    }
}

/// One timed note within a part's score.
#[derive(Clone, Debug)]
pub struct NoteEvent {
    /// Base frequency of the note, in hertz; never zero.
    pub pitch: u16,
    /// Length of the note, in samples, `0..=MAX_EVENT_SAMPLES`.
    pub duration: u32,
    /// Amplitude of the note, `0..=LEVEL_ONE`.
    pub velocity: u16,
    /// Index into the algorithm table.
    pub algorithm_ref: u8,
    /// For each slot of the referenced algorithm, an index into the
    /// operator table; exactly as many entries as the algorithm has slots.
    pub operator_refs: Vec<u8>,
}

/// Ghost image of a [`NoteEvent`].
pub struct NoteEventV {
    pub pitch: u16,
    pub duration: u32,
    pub velocity: u16,
    pub algorithm_ref: u8,
    pub operator_refs: Seq<u8>,
}

impl DeepView for NoteEvent {
    type V = NoteEventV;

    open spec fn deep_view(&self) -> NoteEventV {
        NoteEventV {
            pitch: self.pitch,
            duration: self.duration,
            velocity: self.velocity,
            algorithm_ref: self.algorithm_ref,
            operator_refs: self.operator_refs@,
        }
    }
}

/// One independently rendered track of a song, bound to one output voice.
#[derive(Clone, Debug)]
pub struct Part {
    /// Which external output channel eventually plays this part;
    /// always below the model's `max_voice_count`.
    pub voice_id: u8,
    /// The ordered note events of the part.
    pub score: Vec<NoteEvent>,
}

/// Ghost image of a [`Part`].
pub struct PartV {
    pub voice_id: u8,
    pub score: Seq<NoteEventV>,
}

impl DeepView for Part {
    type V = PartV;

    open spec fn deep_view(&self) -> PartV {
        PartV { voice_id: self.voice_id, score: self.score.deep_view() }
    }
}

/// A whole decoded music model: the operator table, the algorithm table and
/// the songs, each song an ordered sequence of parts.
#[derive(Clone, Debug)]
pub struct MusicModel {
    /// How many external output voices the model may use.
    pub max_voice_count: u8,
    /// The operator table.
    pub operators: Vec<Operator>,
    /// The algorithm table.
    pub algorithms: Vec<Algorithm>,
    /// The songs, each an ordered sequence of parts.
    pub songs: Vec<Vec<Part>>,
}

/// Ghost image of a [`MusicModel`].
pub struct MusicModelV {
    pub max_voice_count: u8,
    pub operators: Seq<Operator>,
    pub algorithms: Seq<AlgorithmV>,
    pub songs: Seq<Seq<PartV>>,
}

impl DeepView for MusicModel {
    type V = MusicModelV;

    open spec fn deep_view(&self) -> MusicModelV {
        MusicModelV {
            max_voice_count: self.max_voice_count,
            operators: self.operators@,
            algorithms: self.algorithms.deep_view(),
            songs: self.songs.deep_view(),
        }
    }
}

// ------------------------------------------------------------------
// The specification-level parser.  Each function consumes bytes from a
// position and yields the parsed value and the next position, or the
// error the decoder owes for that input.
// ------------------------------------------------------------------

/// Maps an executable parse result onto the specification parser's shape.
pub open spec fn pv<T: DeepView>(r: Result<(T, usize), DecodeError>) -> Result<
    (T::V, int),
    DecodeError,
> {
    match r {
        Ok((v, p)) => Ok((v.deep_view(), p as int)),
        Err(e) => Err(e),
    }
}

pub open spec fn take_u8(b: Seq<u8>, pos: int) -> Result<(u8, int), DecodeError> {
    if 0 <= pos && pos + 1 <= b.len() {
        Ok((b[pos], pos + 1))
    } else {
        Err(DecodeError::Truncated)
    }
}

pub open spec fn take_u16(b: Seq<u8>, pos: int) -> Result<(u16, int), DecodeError> {
    if 0 <= pos && pos + 2 <= b.len() {
        Ok(((b[pos] as u16 + b[pos + 1] as u16 * 256) as u16, pos + 2))
    } else {
        Err(DecodeError::Truncated)
    }
}

pub open spec fn take_u32(b: Seq<u8>, pos: int) -> Result<(u32, int), DecodeError> {
    if 0 <= pos && pos + 4 <= b.len() {
        Ok(
            ((b[pos] as u32 + b[pos + 1] as u32 * 256 + b[pos + 2] as u32 * 65536 + b[pos
                + 3] as u32 * 16777216) as u32, pos + 4),
        )
    } else {
        Err(DecodeError::Truncated)
    }
}

/// Which waveform a (already range-checked) kind byte denotes.
pub open spec fn spec_waveform(k: u8) -> Waveform {
    if k == 0 {
        Waveform::Sine
    } else if k == 1 {
        Waveform::Square
    } else if k == 2 {
        Waveform::Triangle
    } else {
        Waveform::Saw
    }
}

pub open spec fn parse_operator(b: Seq<u8>, pos: int) -> Result<(Operator, int), DecodeError> {
    match take_u8(b, pos) {
        Err(e) => Err(e),
        Ok((w, p1)) => if w > 3 {
            Err(DecodeError::InvalidValue)
        } else {
            match take_u16(b, p1) {
                Err(e) => Err(e),
                Ok((fr, p2)) => if fr == 0 {
                    Err(DecodeError::InvalidValue)
                } else {
                    match take_u16(b, p2) {
                        Err(e) => Err(e),
                        Ok((amp, p3)) => if amp > LEVEL_ONE {
                            Err(DecodeError::InvalidValue)
                        } else {
                            match take_u16(b, p3) {
                                Err(e) => Err(e),
                                Ok((fb, p4)) => if fb > LEVEL_ONE {
                                    Err(DecodeError::InvalidValue)
                                } else {
                                    match take_u16(b, p4) {
                                        Err(e) => Err(e),
                                        Ok((att, p5)) => match take_u16(b, p5) {
                                            Err(e) => Err(e),
                                            Ok((dec, p6)) => match take_u16(b, p6) {
                                                Err(e) => Err(e),
                                                Ok((sus, p7)) => if sus > LEVEL_ONE {
                                                    Err(DecodeError::InvalidValue)
                                                } else {
                                                    match take_u16(b, p7) {
                                                        Err(e) => Err(e),
                                                        Ok((rel, p8)) => Ok(
                                                            (Operator {
                                                                waveform: spec_waveform(w),
                                                                frequency_ratio: fr,
                                                                amplitude: amp,
                                                                feedback: fb,
                                                                attack: att,
                                                                decay: dec,
                                                                sustain: sus,
                                                                release: rel,
                                                            }, p8),
                                                        ),
                                                    }
                                                },
                                            },
                                        },
                                    }
                                },
                            }
                        },
                    }
                },
            }
        },
    }
}

pub open spec fn parse_operators(b: Seq<u8>, pos: int, n: int) -> Result<
    (Seq<Operator>, int),
    DecodeError,
>
    decreases n,
{
    if n <= 0 {
        Ok((Seq::empty(), pos))
    } else {
        match parse_operator(b, pos) {
            Err(e) => Err(e),
            Ok((op, p1)) => match parse_operators(b, p1, n - 1) {
                Err(e) => Err(e),
                Ok((rest, p2)) => Ok((rest.insert(0, op), p2)),
            },
        }
    }
}

/// Whether following modulation targets from `slot` reaches, within `fuel`
/// hops, a slot that modulates nothing and is a carrier.  Cycles (including
/// a slot targeting itself) exhaust the fuel and fail.
pub open spec fn chain_ok(slots: Seq<Slot>, slot: int, fuel: nat) -> bool
    decreases fuel,
{
    if fuel == 0 {
        false
    } else if slot < 0 || slot >= slots.len() {
        false
    } else if slots[slot].target == NO_TARGET {
        slots[slot].carrier
    } else {
        chain_ok(slots, slots[slot].target as int, (fuel - 1) as nat)
    }
}

/// Whether every slot from index `i` on sits on an acyclic modulation chain
/// that ends at a carrier.
pub open spec fn valid_from(slots: Seq<Slot>, i: int) -> bool
    decreases slots.len() - i,
{
    if i >= slots.len() {
        true
    } else {
        chain_ok(slots, i, slots.len() as nat) && valid_from(slots, i + 1)
    }
}

/// The structural invariant of an algorithm's slot graph: acyclic modulation
/// chains (self-feedback excepted, it is a flag, not an edge), each ending at
/// a carrier, so every slot contributes to the final output.
pub open spec fn valid_slots(slots: Seq<Slot>) -> bool {
    valid_from(slots, 0)
}

pub open spec fn parse_slot(b: Seq<u8>, pos: int, slot_count: int) -> Result<
    (Slot, int),
    DecodeError,
> {
    match take_u8(b, pos) {
        Err(e) => Err(e),
        Ok((target, p1)) => if target != NO_TARGET && target as int >= slot_count {
            Err(DecodeError::IndexOutOfRange)
        } else {
            match take_u8(b, p1) {
                Err(e) => Err(e),
                Ok((flags, p2)) => if flags > 3 {
                    Err(DecodeError::InvalidValue)
                } else {
                    Ok((Slot { target, carrier: flags % 2 == 1, feedback: flags >= 2 }, p2))
                },
            }
        },
    }
}

pub open spec fn parse_slots(b: Seq<u8>, pos: int, n: int, slot_count: int) -> Result<
    (Seq<Slot>, int),
    DecodeError,
>
    decreases n,
{
    if n <= 0 {
        Ok((Seq::empty(), pos))
    } else {
        match parse_slot(b, pos, slot_count) {
            Err(e) => Err(e),
            Ok((s, p1)) => match parse_slots(b, p1, n - 1, slot_count) {
                Err(e) => Err(e),
                Ok((rest, p2)) => Ok((rest.insert(0, s), p2)),
            },
        }
    }
}

pub open spec fn parse_algorithm(b: Seq<u8>, pos: int) -> Result<(AlgorithmV, int), DecodeError> {
    match take_u8(b, pos) {
        Err(e) => Err(e),
        Ok((sc, p1)) => if sc == 0 || sc as usize > MAX_SLOTS {
            Err(DecodeError::InvalidValue)
        } else {
            match parse_slots(b, p1, sc as int, sc as int) {
                Err(e) => Err(e),
                Ok((slots, p2)) => if !valid_slots(slots) {
                    Err(DecodeError::InvalidValue)
                } else {
                    Ok((AlgorithmV { slots }, p2))
                },
            }
        },
    }
}

pub open spec fn parse_algorithms(b: Seq<u8>, pos: int, n: int) -> Result<
    (Seq<AlgorithmV>, int),
    DecodeError,
>
    decreases n,
{
    if n <= 0 {
        Ok((Seq::empty(), pos))
    } else {
        match parse_algorithm(b, pos) {
            Err(e) => Err(e),
            Ok((a, p1)) => match parse_algorithms(b, p1, n - 1) {
                Err(e) => Err(e),
                Ok((rest, p2)) => Ok((rest.insert(0, a), p2)),
            },
        }
    }
}

pub open spec fn parse_op_refs(b: Seq<u8>, pos: int, n: int, n_ops: int) -> Result<
    (Seq<u8>, int),
    DecodeError,
>
    decreases n,
{
    if n <= 0 {
        Ok((Seq::empty(), pos))
    } else {
        match take_u8(b, pos) {
            Err(e) => Err(e),
            Ok((rf, p1)) => if rf as int >= n_ops {
                Err(DecodeError::IndexOutOfRange)
            } else {
                match parse_op_refs(b, p1, n - 1, n_ops) {
                    Err(e) => Err(e),
                    Ok((rest, p2)) => Ok((rest.insert(0, rf), p2)),
                }
            },
        }
    }
}

pub open spec fn parse_event(b: Seq<u8>, pos: int, n_ops: int, algos: Seq<AlgorithmV>) -> Result<
    (NoteEventV, int),
    DecodeError,
> {
    match take_u16(b, pos) {
        Err(e) => Err(e),
        Ok((pitch, p1)) => if pitch == 0 {
            Err(DecodeError::InvalidValue)
        } else {
            match take_u32(b, p1) {
                Err(e) => Err(e),
                Ok((dur, p2)) => if dur > MAX_EVENT_SAMPLES {
                    Err(DecodeError::InvalidValue)
                } else {
                    match take_u16(b, p2) {
                        Err(e) => Err(e),
                        Ok((vel, p3)) => if vel > LEVEL_ONE {
                            Err(DecodeError::InvalidValue)
                        } else {
                            match take_u8(b, p3) {
                                Err(e) => Err(e),
                                Ok((aref, p4)) => if aref as int >= algos.len() {
                                    Err(DecodeError::IndexOutOfRange)
                                } else {
                                    match parse_op_refs(
                                        b,
                                        p4,
                                        algos[aref as int].slots.len() as int,
                                        n_ops,
                                    ) {
                                        Err(e) => Err(e),
                                        Ok((refs, p5)) => Ok(
                                            (NoteEventV {
                                                pitch,
                                                duration: dur,
                                                velocity: vel,
                                                algorithm_ref: aref,
                                                operator_refs: refs,
                                            }, p5),
                                        ),
                                    }
                                },
                            }
                        },
                    }
                },
            }
        },
    }
}

pub open spec fn parse_events(
    b: Seq<u8>,
    pos: int,
    n: int,
    n_ops: int,
    algos: Seq<AlgorithmV>,
) -> Result<(Seq<NoteEventV>, int), DecodeError>
    decreases n,
{
    if n <= 0 {
        Ok((Seq::empty(), pos))
    } else {
        match parse_event(b, pos, n_ops, algos) {
            Err(e) => Err(e),
            Ok((ev, p1)) => match parse_events(b, p1, n - 1, n_ops, algos) {
                Err(e) => Err(e),
                Ok((rest, p2)) => Ok((rest.insert(0, ev), p2)),
            },
        }
    }
}

pub open spec fn parse_part(
    b: Seq<u8>,
    pos: int,
    max_voice: int,
    n_ops: int,
    algos: Seq<AlgorithmV>,
) -> Result<(PartV, int), DecodeError> {
    match take_u8(b, pos) {
        Err(e) => Err(e),
        Ok((vid, p1)) => if vid as int >= max_voice {
            Err(DecodeError::IndexOutOfRange)
        } else {
            match take_u16(b, p1) {
                Err(e) => Err(e),
                Ok((ne, p2)) => if ne > MAX_EVENTS_PER_PART {
                    Err(DecodeError::InvalidValue)
                } else {
                    match parse_events(b, p2, ne as int, n_ops, algos) {
                        Err(e) => Err(e),
                        Ok((score, p3)) => Ok((PartV { voice_id: vid, score }, p3)),
                    }
                },
            }
        },
    }
}

pub open spec fn parse_parts(
    b: Seq<u8>,
    pos: int,
    n: int,
    max_voice: int,
    n_ops: int,
    algos: Seq<AlgorithmV>,
) -> Result<(Seq<PartV>, int), DecodeError>
    decreases n,
{
    if n <= 0 {
        Ok((Seq::empty(), pos))
    } else {
        match parse_part(b, pos, max_voice, n_ops, algos) {
            Err(e) => Err(e),
            Ok((pt, p1)) => match parse_parts(b, p1, n - 1, max_voice, n_ops, algos) {
                Err(e) => Err(e),
                Ok((rest, p2)) => Ok((rest.insert(0, pt), p2)),
            },
        }
    }
}

pub open spec fn parse_song(
    b: Seq<u8>,
    pos: int,
    max_voice: int,
    n_ops: int,
    algos: Seq<AlgorithmV>,
) -> Result<(Seq<PartV>, int), DecodeError> {
    match take_u8(b, pos) {
        Err(e) => Err(e),
        Ok((np, p1)) => parse_parts(b, p1, np as int, max_voice, n_ops, algos),
    }
}

pub open spec fn parse_songs(
    b: Seq<u8>,
    pos: int,
    n: int,
    max_voice: int,
    n_ops: int,
    algos: Seq<AlgorithmV>,
) -> Result<(Seq<Seq<PartV>>, int), DecodeError>
    decreases n,
{
    if n <= 0 {
        Ok((Seq::empty(), pos))
    } else {
        match parse_song(b, pos, max_voice, n_ops, algos) {
            Err(e) => Err(e),
            Ok((sg, p1)) => match parse_songs(b, p1, n - 1, max_voice, n_ops, algos) {
                Err(e) => Err(e),
                Ok((rest, p2)) => Ok((rest.insert(0, sg), p2)),
            },
        }
    }
}

/// What a byte sequence means: the model it decodes to, or the error the
/// decoder owes for it.  The decoder returns exactly this.
pub open spec fn spec_parse(b: Seq<u8>) -> Result<MusicModelV, DecodeError> {
    match take_u8(b, 0) {
        Err(e) => Err(e),
        Ok((mv, p1)) => match take_u8(b, p1) {
            Err(e) => Err(e),
            Ok((n_ops, p2)) => match take_u8(b, p2) {
                Err(e) => Err(e),
                Ok((n_algos, p3)) => match take_u8(b, p3) {
                    Err(e) => Err(e),
                    Ok((n_songs, p4)) => match parse_operators(b, p4, n_ops as int) {
                        Err(e) => Err(e),
                        Ok((ops, p5)) => match parse_algorithms(b, p5, n_algos as int) {
                            Err(e) => Err(e),
                            Ok((algos, p6)) => match parse_songs(
                                b,
                                p6,
                                n_songs as int,
                                mv as int,
                                n_ops as int,
                                algos,
                            ) {
                                Err(e) => Err(e),
                                Ok((songs, p7)) => if p7 != b.len() {
                                    Err(DecodeError::InvalidValue)
                                } else {
                                    Ok(
                                        MusicModelV {
                                            max_voice_count: mv,
                                            operators: ops,
                                            algorithms: algos,
                                            songs,
                                        },
                                    )
                                },
                            },
                        },
                    },
                },
            },
        },
    }
}

// ------------------------------------------------------------------
// Well-formedness: the invariant every decoded model satisfies.
// ------------------------------------------------------------------

/// Every fractional field in range and the frequency ratio nonzero.
pub open spec fn wf_operator(op: Operator) -> bool {
    &&& op.frequency_ratio >= 1
    &&& op.amplitude <= LEVEL_ONE
    &&& op.feedback <= LEVEL_ONE
    &&& op.sustain <= LEVEL_ONE
}

/// The slot's modulation target, if any, lies inside the algorithm.
pub open spec fn wf_slot(s: Slot, slot_count: int) -> bool {
    s.target == NO_TARGET || (s.target as int) < slot_count
}

/// Between one and `MAX_SLOTS` slots, every target in range, and every
/// modulation chain acyclic and ending at a carrier.
pub open spec fn wf_algorithm(a: AlgorithmV) -> bool {
    &&& 1 <= a.slots.len() <= MAX_SLOTS
    &&& forall|i: int| 0 <= i < a.slots.len() ==> wf_slot(#[trigger] a.slots[i], a.slots.len() as int)
    &&& valid_slots(a.slots)
}

/// Every numeric field in its domain and every reference inside its table,
/// with exactly one bound operator per slot of the referenced algorithm.
pub open spec fn wf_event(e: NoteEventV, n_ops: int, algos: Seq<AlgorithmV>) -> bool {
    &&& e.pitch >= 1
    &&& e.duration <= MAX_EVENT_SAMPLES
    &&& e.velocity <= LEVEL_ONE
    &&& (e.algorithm_ref as int) < algos.len()
    &&& e.operator_refs.len() == algos[e.algorithm_ref as int].slots.len()
    &&& forall|i: int|
        0 <= i < e.operator_refs.len() ==> ((#[trigger] e.operator_refs[i]) as int) < n_ops
}

/// The part's voice exists and every event is well-formed.
pub open spec fn wf_part(p: PartV, max_voice: int, n_ops: int, algos: Seq<AlgorithmV>) -> bool {
    &&& (p.voice_id as int) < max_voice
    &&& p.score.len() <= MAX_EVENTS_PER_PART as int
    &&& forall|i: int| 0 <= i < p.score.len() ==> wf_event(#[trigger] p.score[i], n_ops, algos)
}

/// The model invariant: every table small enough to re-encode, every
/// operator, algorithm and part well-formed, every cross-reference valid.
pub open spec fn wf_model(m: MusicModelV) -> bool {
    &&& m.operators.len() <= 255
    &&& m.algorithms.len() <= 255
    &&& m.songs.len() <= 255
    &&& forall|i: int| 0 <= i < m.operators.len() ==> wf_operator(#[trigger] m.operators[i])
    &&& forall|i: int| 0 <= i < m.algorithms.len() ==> wf_algorithm(#[trigger] m.algorithms[i])
    &&& forall|s: int| 0 <= s < m.songs.len() ==> (#[trigger] m.songs[s]).len() <= 255
    &&& forall|s: int, k: int|
        0 <= s < m.songs.len() && 0 <= k < m.songs[s].len() ==> wf_part(#[trigger] m.songs[s][k],
        m.max_voice_count as int, m.operators.len() as int, m.algorithms)
}

proof fn lemma_parse_operators_wf(b: Seq<u8>, pos: int, n: int)
    requires
        0 <= pos <= b.len(),
    ensures
        parse_operators(b, pos, n) matches Ok((s, p)) ==> {
            &&& s.len() == if n <= 0 { 0int } else { n }
            &&& pos <= p <= b.len()
            &&& forall|i: int| 0 <= i < s.len() ==> wf_operator(#[trigger] s[i])
        },
    decreases n,
{
    if n > 0 {
        match parse_operator(b, pos) {
        Ok((op, p1)) => {
            lemma_parse_operators_wf(b, p1, n - 1);
        },
        Err(_) => {},
    }
    }
}

proof fn lemma_parse_slots_wf(b: Seq<u8>, pos: int, n: int, slot_count: int)
    requires
        0 <= pos <= b.len(),
    ensures
        parse_slots(b, pos, n, slot_count) matches Ok((s, p)) ==> {
            &&& s.len() == if n <= 0 { 0int } else { n }
            &&& pos <= p <= b.len()
            &&& forall|i: int| 0 <= i < s.len() ==> wf_slot(#[trigger] s[i], slot_count)
        },
    decreases n,
{
    if n > 0 {
        match parse_slot(b, pos, slot_count) {
        Ok((s0, p1)) => {
            lemma_parse_slots_wf(b, p1, n - 1, slot_count);
        },
        Err(_) => {},
    }
    }
}

proof fn lemma_parse_algorithms_wf(b: Seq<u8>, pos: int, n: int)
    requires
        0 <= pos <= b.len(),
    ensures
        parse_algorithms(b, pos, n) matches Ok((s, p)) ==> {
            &&& s.len() == if n <= 0 { 0int } else { n }
            &&& pos <= p <= b.len()
            &&& forall|i: int| 0 <= i < s.len() ==> wf_algorithm(#[trigger] s[i])
        },
    decreases n,
{
    if n > 0 {
        match parse_algorithm(b, pos) {
        Ok((a, p1)) => {
            match take_u8(b, pos) {
        Ok((sc, q1)) => {
                lemma_parse_slots_wf(b, q1, sc as int, sc as int);
            },
        Err(_) => {},
    }
            lemma_parse_algorithms_wf(b, p1, n - 1);
        },
        Err(_) => {},
    }
    }
}

proof fn lemma_parse_op_refs_wf(b: Seq<u8>, pos: int, n: int, n_ops: int)
    requires
        0 <= pos <= b.len(),
    ensures
        parse_op_refs(b, pos, n, n_ops) matches Ok((s, p)) ==> {
            &&& s.len() == if n <= 0 { 0int } else { n }
            &&& pos <= p <= b.len()
            &&& forall|i: int| 0 <= i < s.len() ==> ((#[trigger] s[i]) as int) < n_ops
        },
    decreases n,
{
    if n > 0 {
        match take_u8(b, pos) {
        Ok((rf, p1)) => {
            lemma_parse_op_refs_wf(b, p1, n - 1, n_ops);
        },
        Err(_) => {},
    }
    }
}

proof fn lemma_parse_event_wf(b: Seq<u8>, pos: int, n_ops: int, algos: Seq<AlgorithmV>)
    requires
        0 <= pos <= b.len(),
    ensures
        parse_event(b, pos, n_ops, algos) matches Ok((e, p)) ==> {
            &&& wf_event(e, n_ops, algos)
            &&& 0 <= pos <= p <= b.len()
        },
{
    match take_u16(b, pos) {
        Ok((pitch, p1)) => {
        match take_u32(b, p1) {
        Ok((dur, p2)) => {
            match take_u16(b, p2) {
        Ok((vel, p3)) => {
                match take_u8(b, p3) {
        Ok((aref, p4)) => {
                    if (aref as int) < algos.len() {
                        lemma_parse_op_refs_wf(b, p4, algos[aref as int].slots.len() as int, n_ops);
                    }
                },
        Err(_) => {},
    }
            },
        Err(_) => {},
    }
        },
        Err(_) => {},
    }
    },
        Err(_) => {},
    }
}

proof fn lemma_parse_events_wf(b: Seq<u8>, pos: int, n: int, n_ops: int, algos: Seq<AlgorithmV>)
    requires
        0 <= pos <= b.len(),
    ensures
        parse_events(b, pos, n, n_ops, algos) matches Ok((s, p)) ==> {
            &&& s.len() == if n <= 0 { 0int } else { n }
            &&& pos <= p <= b.len()
            &&& forall|i: int| 0 <= i < s.len() ==> wf_event(#[trigger] s[i], n_ops, algos)
        },
    decreases n,
{
    if n > 0 {
        lemma_parse_event_wf(b, pos, n_ops, algos);
        match parse_event(b, pos, n_ops, algos) {
        Ok((e, p1)) => {
            lemma_parse_events_wf(b, p1, n - 1, n_ops, algos);
        },
        Err(_) => {},
    }
    }
}

proof fn lemma_parse_part_wf(
    b: Seq<u8>,
    pos: int,
    max_voice: int,
    n_ops: int,
    algos: Seq<AlgorithmV>,
)
    requires
        0 <= pos <= b.len(),
    ensures
        parse_part(b, pos, max_voice, n_ops, algos) matches Ok((pt, p)) ==> {
            &&& wf_part(pt, max_voice, n_ops, algos)
            &&& 0 <= pos <= p <= b.len()
        },
{
    match take_u8(b, pos) {
        Ok((vid, p1)) => {
        match take_u16(b, p1) {
        Ok((ne, p2)) => {
            lemma_parse_events_wf(b, p2, ne as int, n_ops, algos);
        },
        Err(_) => {},
    }
    },
        Err(_) => {},
    }
}

proof fn lemma_parse_parts_wf(
    b: Seq<u8>,
    pos: int,
    n: int,
    max_voice: int,
    n_ops: int,
    algos: Seq<AlgorithmV>,
)
    requires
        0 <= pos <= b.len(),
    ensures
        parse_parts(b, pos, n, max_voice, n_ops, algos) matches Ok((s, p)) ==> {
            &&& s.len() == if n <= 0 { 0int } else { n }
            &&& pos <= p <= b.len()
            &&& forall|i: int| 0 <= i < s.len() ==> wf_part(#[trigger] s[i], max_voice, n_ops,
                algos)
        },
    decreases n,
{
    if n > 0 {
        lemma_parse_part_wf(b, pos, max_voice, n_ops, algos);
        match parse_part(b, pos, max_voice, n_ops, algos) {
        Ok((pt, p1)) => {
            lemma_parse_parts_wf(b, p1, n - 1, max_voice, n_ops, algos);
        },
        Err(_) => {},
    }
    }
}

proof fn lemma_parse_songs_wf(
    b: Seq<u8>,
    pos: int,
    n: int,
    max_voice: int,
    n_ops: int,
    algos: Seq<AlgorithmV>,
)
    requires
        0 <= pos <= b.len(),
    ensures
        parse_songs(b, pos, n, max_voice, n_ops, algos) matches Ok((s, p)) ==> {
            &&& s.len() == if n <= 0 { 0int } else { n }
            &&& pos <= p <= b.len()
            &&& forall|i: int| 0 <= i < s.len() ==> (#[trigger] s[i]).len() <= 255
            &&& forall|i: int, k: int|
                0 <= i < s.len() && 0 <= k < s[i].len() ==> wf_part(#[trigger] s[i][k], max_voice,
                n_ops, algos)
        },
    decreases n,
{
    if n > 0 {
        match take_u8(b, pos) {
        Ok((np, q1)) => {
            lemma_parse_parts_wf(b, q1, np as int, max_voice, n_ops, algos);
        },
        Err(_) => {},
    }
        match parse_song(b, pos, max_voice, n_ops, algos) {
        Ok((sg, p1)) => {
            lemma_parse_songs_wf(b, p1, n - 1, max_voice, n_ops, algos);
        },
        Err(_) => {},
    }
    }
}

/// Cross-reference safety of accepted input: any model the parser returns
/// satisfies the whole model invariant — every operator, algorithm and voice
/// reference lies inside its table, every numeric field inside its domain.
/// An input that breaks any of this is rejected with its typed error instead.
pub proof fn lemma_spec_parse_wf(b: Seq<u8>)
    ensures
        spec_parse(b) matches Ok(m) ==> wf_model(m),
{
    match take_u8(b, 0) {
        Ok((mv, p1)) => {
        match take_u8(b, p1) {
        Ok((n_ops, p2)) => {
            match take_u8(b, p2) {
        Ok((n_algos, p3)) => {
                match take_u8(b, p3) {
        Ok((n_songs, p4)) => {
                    lemma_parse_operators_wf(b, p4, n_ops as int);
                    match parse_operators(b, p4, n_ops as int) {
        Ok((ops, p5)) => {
                        lemma_parse_algorithms_wf(b, p5, n_algos as int);
                        match parse_algorithms(b, p5, n_algos as int) {
        Ok((algos, p6)) => {
                            lemma_parse_songs_wf(b, p6, n_songs as int, mv as int, n_ops as int,
                                algos);
                        },
        Err(_) => {},
    }
                    },
        Err(_) => {},
    }
                },
        Err(_) => {},
    }
            },
        Err(_) => {},
    }
        },
        Err(_) => {},
    }
    },
        Err(_) => {},
    }
}

proof fn lemma_prefix_operator(b: Seq<u8>, pos: int, j: int)
    requires
        0 <= pos <= j <= b.len(),
        parse_operator(b, pos) is Ok,
    ensures
        parse_operator(b.take(j), pos) == (if parse_operator(b, pos)->Ok_0.1 <= j {
            parse_operator(b, pos)
        } else {
            Err::<(Operator, int), DecodeError>(DecodeError::Truncated)
        }),
{
}

proof fn lemma_prefix_operators(b: Seq<u8>, pos: int, n: int, j: int)
    requires
        0 <= pos <= j <= b.len(),
        parse_operators(b, pos, n) is Ok,
    ensures
        parse_operators(b.take(j), pos, n) == (if parse_operators(b, pos, n)->Ok_0.1 <= j {
            parse_operators(b, pos, n)
        } else {
            Err::<(Seq<Operator>, int), DecodeError>(DecodeError::Truncated)
        }),
    decreases n,
{
    if n > 0 {
        lemma_prefix_operator(b, pos, j);
        match parse_operator(b, pos) {
        Ok((op, p1)) => {
            lemma_parse_operators_wf(b, p1, n - 1);
            if p1 <= j {
                lemma_prefix_operators(b, p1, n - 1, j);
            }
        },
        Err(_) => {},
    }
    }
}

proof fn lemma_prefix_slots(b: Seq<u8>, pos: int, n: int, slot_count: int, j: int)
    requires
        0 <= pos <= j <= b.len(),
        parse_slots(b, pos, n, slot_count) is Ok,
    ensures
        parse_slots(b.take(j), pos, n, slot_count) == (if parse_slots(b, pos, n,
            slot_count)->Ok_0.1 <= j {
            parse_slots(b, pos, n, slot_count)
        } else {
            Err::<(Seq<Slot>, int), DecodeError>(DecodeError::Truncated)
        }),
    decreases n,
{
    if n > 0 {
        match parse_slot(b, pos, slot_count) {
        Ok((s0, p1)) => {
            lemma_parse_slots_wf(b, p1, n - 1, slot_count);
            if p1 <= j {
                lemma_prefix_slots(b, p1, n - 1, slot_count, j);
            }
        },
        Err(_) => {},
    }
    }
}

proof fn lemma_prefix_algorithms(b: Seq<u8>, pos: int, n: int, j: int)
    requires
        0 <= pos <= j <= b.len(),
        parse_algorithms(b, pos, n) is Ok,
    ensures
        parse_algorithms(b.take(j), pos, n) == (if parse_algorithms(b, pos, n)->Ok_0.1 <= j {
            parse_algorithms(b, pos, n)
        } else {
            Err::<(Seq<AlgorithmV>, int), DecodeError>(DecodeError::Truncated)
        }),
    decreases n,
{
    if n > 0 {
        match take_u8(b, pos) {
        Ok((sc, q1)) => {
            match parse_slots(b, q1, sc as int, sc as int) {
            Ok((slots, p1)) => {
                lemma_parse_slots_wf(b, q1, sc as int, sc as int);
                if q1 <= j {
                    lemma_prefix_slots(b, q1, sc as int, sc as int, j);
                }
                match parse_algorithm(b, pos) {
                Ok((a, pa)) => {
                    lemma_parse_algorithms_wf(b, pa, n - 1);
                    if pa <= j {
                        lemma_prefix_algorithms(b, pa, n - 1, j);
                    }
                },
                Err(_) => {},
            }
            },
            Err(_) => {},
        }
        },
        Err(_) => {},
    }
    }
}

proof fn lemma_prefix_op_refs(b: Seq<u8>, pos: int, n: int, n_ops: int, j: int)
    requires
        0 <= pos <= j <= b.len(),
        parse_op_refs(b, pos, n, n_ops) is Ok,
    ensures
        parse_op_refs(b.take(j), pos, n, n_ops) == (if parse_op_refs(b, pos, n, n_ops)->Ok_0.1
            <= j {
            parse_op_refs(b, pos, n, n_ops)
        } else {
            Err::<(Seq<u8>, int), DecodeError>(DecodeError::Truncated)
        }),
    decreases n,
{
    if n > 0 {
        match take_u8(b, pos) {
        Ok((rf, p1)) => {
            lemma_parse_op_refs_wf(b, p1, n - 1, n_ops);
            if p1 <= j {
                lemma_prefix_op_refs(b, p1, n - 1, n_ops, j);
            }
        },
        Err(_) => {},
    }
    }
}

proof fn lemma_prefix_event(b: Seq<u8>, pos: int, n_ops: int, algos: Seq<AlgorithmV>, j: int)
    requires
        0 <= pos <= j <= b.len(),
        parse_event(b, pos, n_ops, algos) is Ok,
    ensures
        parse_event(b.take(j), pos, n_ops, algos) == (if parse_event(b, pos, n_ops,
            algos)->Ok_0.1 <= j {
            parse_event(b, pos, n_ops, algos)
        } else {
            Err::<(NoteEventV, int), DecodeError>(DecodeError::Truncated)
        }),
{
    match take_u16(b, pos) {
    Ok((pitch, p1)) => {
        match take_u32(b, p1) {
        Ok((dur, p2)) => {
            match take_u16(b, p2) {
            Ok((vel, p3)) => {
                match take_u8(b, p3) {
                Ok((aref, p4)) => {
                    if 0 <= (aref as int) < algos.len() {
                        lemma_parse_op_refs_wf(b, p4, algos[aref as int].slots.len() as int, n_ops);
                        if p4 <= j {
                            lemma_prefix_op_refs(b, p4, algos[aref as int].slots.len() as int,
                                n_ops, j);
                        }
                    }
                },
                Err(_) => {},
            }
            },
            Err(_) => {},
        }
        },
        Err(_) => {},
    }
    },
    Err(_) => {},
}
}

proof fn lemma_prefix_events(b: Seq<u8>, pos: int, n: int, n_ops: int, algos: Seq<AlgorithmV>,
    j: int)
    requires
        0 <= pos <= j <= b.len(),
        parse_events(b, pos, n, n_ops, algos) is Ok,
    ensures
        parse_events(b.take(j), pos, n, n_ops, algos) == (if parse_events(b, pos, n, n_ops,
            algos)->Ok_0.1 <= j {
            parse_events(b, pos, n, n_ops, algos)
        } else {
            Err::<(Seq<NoteEventV>, int), DecodeError>(DecodeError::Truncated)
        }),
    decreases n,
{
    if n > 0 {
        lemma_prefix_event(b, pos, n_ops, algos, j);
        match parse_event(b, pos, n_ops, algos) {
        Ok((ev, p1)) => {
            lemma_parse_event_wf(b, pos, n_ops, algos);
            lemma_parse_events_wf(b, p1, n - 1, n_ops, algos);
            if p1 <= j {
                lemma_prefix_events(b, p1, n - 1, n_ops, algos, j);
            }
        },
        Err(_) => {},
    }
    }
}

proof fn lemma_prefix_part(
    b: Seq<u8>,
    pos: int,
    max_voice: int,
    n_ops: int,
    algos: Seq<AlgorithmV>,
    j: int,
)
    requires
        0 <= pos <= j <= b.len(),
        parse_part(b, pos, max_voice, n_ops, algos) is Ok,
    ensures
        parse_part(b.take(j), pos, max_voice, n_ops, algos) == (if parse_part(b, pos, max_voice,
            n_ops, algos)->Ok_0.1 <= j {
            parse_part(b, pos, max_voice, n_ops, algos)
        } else {
            Err::<(PartV, int), DecodeError>(DecodeError::Truncated)
        }),
{
    match take_u8(b, pos) {
    Ok((vid, p1)) => {
        match take_u16(b, p1) {
        Ok((ne, p2)) => {
            lemma_parse_events_wf(b, p2, ne as int, n_ops, algos);
            if p2 <= j {
                lemma_prefix_events(b, p2, ne as int, n_ops, algos, j);
            }
        },
        Err(_) => {},
    }
    },
    Err(_) => {},
}
}

proof fn lemma_prefix_parts(
    b: Seq<u8>,
    pos: int,
    n: int,
    max_voice: int,
    n_ops: int,
    algos: Seq<AlgorithmV>,
    j: int,
)
    requires
        0 <= pos <= j <= b.len(),
        parse_parts(b, pos, n, max_voice, n_ops, algos) is Ok,
    ensures
        parse_parts(b.take(j), pos, n, max_voice, n_ops, algos) == (if parse_parts(b, pos, n,
            max_voice, n_ops, algos)->Ok_0.1 <= j {
            parse_parts(b, pos, n, max_voice, n_ops, algos)
        } else {
            Err::<(Seq<PartV>, int), DecodeError>(DecodeError::Truncated)
        }),
    decreases n,
{
    if n > 0 {
        lemma_prefix_part(b, pos, max_voice, n_ops, algos, j);
        match parse_part(b, pos, max_voice, n_ops, algos) {
        Ok((pt, p1)) => {
            lemma_parse_part_wf(b, pos, max_voice, n_ops, algos);
            lemma_parse_parts_wf(b, p1, n - 1, max_voice, n_ops, algos);
            if p1 <= j {
                lemma_prefix_parts(b, p1, n - 1, max_voice, n_ops, algos, j);
            }
        },
        Err(_) => {},
    }
    }
}

proof fn lemma_prefix_songs(
    b: Seq<u8>,
    pos: int,
    n: int,
    max_voice: int,
    n_ops: int,
    algos: Seq<AlgorithmV>,
    j: int,
)
    requires
        0 <= pos <= j <= b.len(),
        parse_songs(b, pos, n, max_voice, n_ops, algos) is Ok,
    ensures
        parse_songs(b.take(j), pos, n, max_voice, n_ops, algos) == (if parse_songs(b, pos, n,
            max_voice, n_ops, algos)->Ok_0.1 <= j {
            parse_songs(b, pos, n, max_voice, n_ops, algos)
        } else {
            Err::<(Seq<Seq<PartV>>, int), DecodeError>(DecodeError::Truncated)
        }),
    decreases n,
{
    if n > 0 {
        match take_u8(b, pos) {
        Ok((np, q1)) => {
            match parse_parts(b, q1, np as int, max_voice, n_ops, algos) {
            Ok((parts, p1)) => {
                lemma_parse_parts_wf(b, q1, np as int, max_voice, n_ops, algos);
                if q1 <= j {
                    lemma_prefix_parts(b, q1, np as int, max_voice, n_ops, algos, j);
                }
                lemma_parse_songs_wf(b, p1, n - 1, max_voice, n_ops, algos);
                if p1 <= j {
                    lemma_prefix_songs(b, p1, n - 1, max_voice, n_ops, algos, j);
                }
            },
            Err(_) => {},
        }
        },
        Err(_) => {},
    }
    }
}

/// Bounds safety: every strict prefix of an accepted blob is rejected as
/// `Truncated` — some field always declares more bytes than the prefix
/// holds, and nothing past the end is ever read.
pub proof fn lemma_prefix_truncated(b: Seq<u8>, j: int)
    requires
        0 <= j < b.len(),
        spec_parse(b) is Ok,
    ensures
        spec_parse(b.take(j)) == Err::<MusicModelV, DecodeError>(DecodeError::Truncated),
{
    match take_u8(b, 0) {
    Ok((mv, p1)) => {
        match take_u8(b, p1) {
        Ok((n_ops, p2)) => {
            match take_u8(b, p2) {
            Ok((n_algos, p3)) => {
                match take_u8(b, p3) {
                Ok((n_songs, p4)) => {
                    match parse_operators(b, p4, n_ops as int) {
                    Ok((ops, p5)) => {
                        lemma_parse_operators_wf(b, p4, n_ops as int);
                        if p4 <= j {
                            lemma_prefix_operators(b, p4, n_ops as int, j);
                        }
                        match parse_algorithms(b, p5, n_algos as int) {
                        Ok((algos, p6)) => {
                            lemma_parse_algorithms_wf(b, p5, n_algos as int);
                            if p5 <= j {
                                lemma_prefix_algorithms(b, p5, n_algos as int, j);
                            }
                            match parse_songs(b, p6, n_songs as int, mv as int, n_ops as int,
                                algos) {
                            Ok((songs, p7)) => {
                                lemma_parse_songs_wf(b, p6, n_songs as int, mv as int,
                                    n_ops as int, algos);
                                if p6 <= j {
                                    lemma_prefix_songs(b, p6, n_songs as int, mv as int,
                                        n_ops as int, algos, j);
                                }
                            },
                            Err(_) => {},
                        }
                        },
                        Err(_) => {},
                    }
                    },
                    Err(_) => {},
                }
                },
                Err(_) => {},
            }
            },
            Err(_) => {},
        }
        },
        Err(_) => {},
    }
    },
    Err(_) => {},
}
}

/// Bounds safety at the head of the stream: a blob shorter than the header
/// is rejected as truncated before anything is read past its end.
pub proof fn lemma_short_input_truncated(b: Seq<u8>)
    ensures
        b.len() < HEADER_LEN ==> spec_parse(b) == Err::<MusicModelV, DecodeError>(
            DecodeError::Truncated,
        ),
{
}

/// Maps the decoder's result onto the specification parser's shape.
pub open spec fn dv(r: Result<MusicModel, DecodeError>) -> Result<MusicModelV, DecodeError> {
    match r {
        Ok(m) => Ok(m.deep_view()),
        Err(e) => Err(e),
    }
}

// ------------------------------------------------------------------
// The serializer: the canonical byte image of a well-formed model, and
// the proof that the parser reads it back unchanged.
// ------------------------------------------------------------------

pub open spec fn ser_u16(v: u16) -> Seq<u8> {
    seq![(v as int % 256) as u8, (v as int / 256) as u8]
}

pub open spec fn ser_u32(v: u32) -> Seq<u8> {
    seq![
        (v as int % 256) as u8,
        (v as int / 256 % 256) as u8,
        (v as int / 65536 % 256) as u8,
        (v as int / 16777216) as u8,
    ]
}

/// The kind byte of each waveform; inverse of [`spec_waveform`].
pub open spec fn waveform_code(w: Waveform) -> u8 {
    match w {
        Waveform::Sine => 0,
        Waveform::Square => 1,
        Waveform::Triangle => 2,
        Waveform::Saw => 3,
    }
}

pub open spec fn ser_operator(op: Operator) -> Seq<u8> {
    seq![waveform_code(op.waveform)] + (ser_u16(op.frequency_ratio) + (ser_u16(op.amplitude) + (
    ser_u16(op.feedback) + (ser_u16(op.attack) + (ser_u16(op.decay) + (ser_u16(op.sustain)
        + ser_u16(op.release)))))))
}

pub open spec fn ser_operators(s: Seq<Operator>) -> Seq<u8>
    decreases s.len(),
{
    if s.len() == 0 {
        Seq::empty()
    } else {
        ser_operator(s[0]) + ser_operators(s.drop_first())
    }
}

pub open spec fn slot_flags(s: Slot) -> u8 {
    ((if s.carrier {
        1int
    } else {
        0int
    }) + (if s.feedback {
        2int
    } else {
        0int
    })) as u8
}

pub open spec fn ser_slot(s: Slot) -> Seq<u8> {
    seq![s.target, slot_flags(s)]
}

pub open spec fn ser_slots(s: Seq<Slot>) -> Seq<u8>
    decreases s.len(),
{
    if s.len() == 0 {
        Seq::empty()
    } else {
        ser_slot(s[0]) + ser_slots(s.drop_first())
    }
}

pub open spec fn ser_algorithm(a: AlgorithmV) -> Seq<u8> {
    seq![a.slots.len() as u8] + ser_slots(a.slots)
}

pub open spec fn ser_algorithms(s: Seq<AlgorithmV>) -> Seq<u8>
    decreases s.len(),
{
    if s.len() == 0 {
        Seq::empty()
    } else {
        ser_algorithm(s[0]) + ser_algorithms(s.drop_first())
    }
}

pub open spec fn ser_op_refs(refs: Seq<u8>) -> Seq<u8>
    decreases refs.len(),
{
    if refs.len() == 0 {
        Seq::empty()
    } else {
        seq![refs[0]] + ser_op_refs(refs.drop_first())
    }
}

pub open spec fn ser_event(e: NoteEventV) -> Seq<u8> {
    ser_u16(e.pitch) + (ser_u32(e.duration) + (ser_u16(e.velocity) + (seq![e.algorithm_ref]
        + ser_op_refs(e.operator_refs))))
}

pub open spec fn ser_events(s: Seq<NoteEventV>) -> Seq<u8>
    decreases s.len(),
{
    if s.len() == 0 {
        Seq::empty()
    } else {
        ser_event(s[0]) + ser_events(s.drop_first())
    }
}

pub open spec fn ser_part(p: PartV) -> Seq<u8> {
    seq![p.voice_id] + (ser_u16(p.score.len() as u16) + ser_events(p.score))
}

pub open spec fn ser_parts(s: Seq<PartV>) -> Seq<u8>
    decreases s.len(),
{
    if s.len() == 0 {
        Seq::empty()
    } else {
        ser_part(s[0]) + ser_parts(s.drop_first())
    }
}

pub open spec fn ser_song(parts: Seq<PartV>) -> Seq<u8> {
    seq![parts.len() as u8] + ser_parts(parts)
}

pub open spec fn ser_songs(s: Seq<Seq<PartV>>) -> Seq<u8>
    decreases s.len(),
{
    if s.len() == 0 {
        Seq::empty()
    } else {
        ser_song(s[0]) + ser_songs(s.drop_first())
    }
}

/// The canonical byte image of a model: the header, then the three tables.
pub open spec fn serialize(m: MusicModelV) -> Seq<u8> {
    seq![
        m.max_voice_count,
        m.operators.len() as u8,
        m.algorithms.len() as u8,
        m.songs.len() as u8,
    ] + (ser_operators(m.operators) + (ser_algorithms(m.algorithms) + ser_songs(m.songs)))
}

/// Splits knowledge of a concatenated byte region into its two halves.
proof fn lemma_sub_split(b: Seq<u8>, pos: int, x: Seq<u8>, y: Seq<u8>)
    requires
        0 <= pos,
        pos + x.len() + y.len() <= b.len(),
        b.subrange(pos, pos + x.len() + y.len()) == x + y,
    ensures
        b.subrange(pos, pos + x.len()) == x,
        b.subrange(pos + x.len(), pos + x.len() + y.len()) == y,
{
    assert forall|i: int| 0 <= i < x.len() implies b[pos + i] == x[i] by {
        assert(b.subrange(pos, pos + x.len() + y.len())[i] == b[pos + i]);
        assert((x + y)[i] == x[i]);
    }
    assert forall|i: int| 0 <= i < y.len() implies b[pos + x.len() + i] == y[i] by {
        assert(b.subrange(pos, pos + x.len() + y.len())[x.len() + i] == b[pos + x.len() + i]);
        assert((x + y)[x.len() + i] == y[i]);
    }
    assert(b.subrange(pos, pos + x.len()) =~= x);
    assert(b.subrange(pos + x.len(), pos + x.len() + y.len()) =~= y);
}

proof fn lemma_rt_u8(b: Seq<u8>, pos: int, v: u8)
    requires
        0 <= pos,
        pos + 1 <= b.len(),
        b.subrange(pos, pos + 1) == seq![v],
    ensures
        take_u8(b, pos) == Ok::<(u8, int), DecodeError>((v, pos + 1)),
{
    assert(b.subrange(pos, pos + 1)[0] == b[pos]);
}

proof fn lemma_rt_u16(b: Seq<u8>, pos: int, v: u16)
    requires
        0 <= pos,
        pos + 2 <= b.len(),
        b.subrange(pos, pos + 2) == ser_u16(v),
    ensures
        take_u16(b, pos) == Ok::<(u16, int), DecodeError>((v, pos + 2)),
{
    assert(b.subrange(pos, pos + 2)[0] == b[pos]);
    assert(b.subrange(pos, pos + 2)[1] == b[pos + 1]);
    vstd::arithmetic::div_mod::lemma_fundamental_div_mod(v as int, 256);
}

proof fn lemma_rt_u32(b: Seq<u8>, pos: int, v: u32)
    requires
        0 <= pos,
        pos + 4 <= b.len(),
        b.subrange(pos, pos + 4) == ser_u32(v),
    ensures
        take_u32(b, pos) == Ok::<(u32, int), DecodeError>((v, pos + 4)),
{
    assert(b.subrange(pos, pos + 4)[0] == b[pos]);
    assert(b.subrange(pos, pos + 4)[1] == b[pos + 1]);
    assert(b.subrange(pos, pos + 4)[2] == b[pos + 2]);
    assert(b.subrange(pos, pos + 4)[3] == b[pos + 3]);
    let x = v as int;
    vstd::arithmetic::div_mod::lemma_fundamental_div_mod(x, 256);
    vstd::arithmetic::div_mod::lemma_fundamental_div_mod(x / 256, 256);
    vstd::arithmetic::div_mod::lemma_fundamental_div_mod(x / 65536, 256);
    vstd::arithmetic::div_mod::lemma_div_denominator(x, 256, 256);
    vstd::arithmetic::div_mod::lemma_div_denominator(x, 65536, 256);
}

proof fn lemma_rt_operator(b: Seq<u8>, pos: int, op: Operator)
    requires
        wf_operator(op),
        0 <= pos,
        pos + 15 <= b.len(),
        b.subrange(pos, pos + 15) == ser_operator(op),
    ensures
        parse_operator(b, pos) == Ok::<(Operator, int), DecodeError>((op, pos + 15)),
{
    let r1 = ser_u16(op.frequency_ratio) + (ser_u16(op.amplitude) + (ser_u16(op.feedback) + (
    ser_u16(op.attack) + (ser_u16(op.decay) + (ser_u16(op.sustain) + ser_u16(op.release))))));
    lemma_sub_split(b, pos, seq![waveform_code(op.waveform)], r1);
    lemma_rt_u8(b, pos, waveform_code(op.waveform));
    let r2 = ser_u16(op.amplitude) + (ser_u16(op.feedback) + (ser_u16(op.attack) + (ser_u16(
        op.decay,
    ) + (ser_u16(op.sustain) + ser_u16(op.release)))));
    lemma_sub_split(b, pos + 1, ser_u16(op.frequency_ratio), r2);
    lemma_rt_u16(b, pos + 1, op.frequency_ratio);
    let r3 = ser_u16(op.feedback) + (ser_u16(op.attack) + (ser_u16(op.decay) + (ser_u16(op.sustain)
        + ser_u16(op.release))));
    lemma_sub_split(b, pos + 3, ser_u16(op.amplitude), r3);
    lemma_rt_u16(b, pos + 3, op.amplitude);
    let r4 = ser_u16(op.attack) + (ser_u16(op.decay) + (ser_u16(op.sustain) + ser_u16(op.release)));
    lemma_sub_split(b, pos + 5, ser_u16(op.feedback), r4);
    lemma_rt_u16(b, pos + 5, op.feedback);
    let r5 = ser_u16(op.decay) + (ser_u16(op.sustain) + ser_u16(op.release));
    lemma_sub_split(b, pos + 7, ser_u16(op.attack), r5);
    lemma_rt_u16(b, pos + 7, op.attack);
    let r6 = ser_u16(op.sustain) + ser_u16(op.release);
    lemma_sub_split(b, pos + 9, ser_u16(op.decay), r6);
    lemma_rt_u16(b, pos + 9, op.decay);
    lemma_sub_split(b, pos + 11, ser_u16(op.sustain), ser_u16(op.release));
    lemma_rt_u16(b, pos + 11, op.sustain);
    lemma_rt_u16(b, pos + 13, op.release);
    assert(spec_waveform(waveform_code(op.waveform)) == op.waveform);
}

proof fn lemma_rt_operators(b: Seq<u8>, pos: int, s: Seq<Operator>)
    requires
        forall|i: int| 0 <= i < s.len() ==> wf_operator(#[trigger] s[i]),
        0 <= pos,
        pos + ser_operators(s).len() <= b.len(),
        b.subrange(pos, pos + ser_operators(s).len()) == ser_operators(s),
    ensures
        parse_operators(b, pos, s.len() as int) == Ok::<(Seq<Operator>, int), DecodeError>(
            (s, pos + ser_operators(s).len()),
        ),
    decreases s.len(),
{
    if s.len() == 0 {
        assert(s =~= Seq::<Operator>::empty());
    } else {
        lemma_sub_split(b, pos, ser_operator(s[0]), ser_operators(s.drop_first()));
        lemma_rt_operator(b, pos, s[0]);
        assert forall|i: int| 0 <= i < s.drop_first().len() implies wf_operator(
        #[trigger] s.drop_first()[i]) by {
            assert(s.drop_first()[i] == s[i + 1]);
        }
        lemma_rt_operators(b, pos + 15, s.drop_first());
        assert(s.drop_first().insert(0, s[0]) =~= s);
    }
}

proof fn lemma_rt_slot(b: Seq<u8>, pos: int, s: Slot, slot_count: int)
    requires
        wf_slot(s, slot_count),
        0 <= pos,
        pos + 2 <= b.len(),
        b.subrange(pos, pos + 2) == ser_slot(s),
    ensures
        parse_slot(b, pos, slot_count) == Ok::<(Slot, int), DecodeError>((s, pos + 2)),
{
    assert(ser_slot(s) =~= seq![s.target] + seq![slot_flags(s)]);
    lemma_sub_split(b, pos, seq![s.target], seq![slot_flags(s)]);
    lemma_rt_u8(b, pos, s.target);
    lemma_rt_u8(b, pos + 1, slot_flags(s));
    assert((Slot {
        target: s.target,
        carrier: slot_flags(s) % 2 == 1,
        feedback: slot_flags(s) >= 2,
    }) == s);
}

proof fn lemma_rt_slots(b: Seq<u8>, pos: int, s: Seq<Slot>, slot_count: int)
    requires
        forall|i: int| 0 <= i < s.len() ==> wf_slot(#[trigger] s[i], slot_count),
        0 <= pos,
        pos + ser_slots(s).len() <= b.len(),
        b.subrange(pos, pos + ser_slots(s).len()) == ser_slots(s),
    ensures
        parse_slots(b, pos, s.len() as int, slot_count) == Ok::<(Seq<Slot>, int), DecodeError>(
            (s, pos + ser_slots(s).len()),
        ),
    decreases s.len(),
{
    if s.len() == 0 {
        assert(s =~= Seq::<Slot>::empty());
    } else {
        lemma_sub_split(b, pos, ser_slot(s[0]), ser_slots(s.drop_first()));
        lemma_rt_slot(b, pos, s[0], slot_count);
        assert forall|i: int| 0 <= i < s.drop_first().len() implies wf_slot(
        #[trigger] s.drop_first()[i], slot_count) by {
            assert(s.drop_first()[i] == s[i + 1]);
        }
        lemma_rt_slots(b, pos + 2, s.drop_first(), slot_count);
        assert(s.drop_first().insert(0, s[0]) =~= s);
    }
}

proof fn lemma_rt_algorithm(b: Seq<u8>, pos: int, a: AlgorithmV)
    requires
        wf_algorithm(a),
        0 <= pos,
        pos + ser_algorithm(a).len() <= b.len(),
        b.subrange(pos, pos + ser_algorithm(a).len()) == ser_algorithm(a),
    ensures
        parse_algorithm(b, pos) == Ok::<(AlgorithmV, int), DecodeError>(
            (a, pos + ser_algorithm(a).len()),
        ),
{
    lemma_sub_split(b, pos, seq![a.slots.len() as u8], ser_slots(a.slots));
    lemma_rt_u8(b, pos, a.slots.len() as u8);
    lemma_rt_slots(b, pos + 1, a.slots, a.slots.len() as int);
}

proof fn lemma_rt_algorithms(b: Seq<u8>, pos: int, s: Seq<AlgorithmV>)
    requires
        forall|i: int| 0 <= i < s.len() ==> wf_algorithm(#[trigger] s[i]),
        0 <= pos,
        pos + ser_algorithms(s).len() <= b.len(),
        b.subrange(pos, pos + ser_algorithms(s).len()) == ser_algorithms(s),
    ensures
        parse_algorithms(b, pos, s.len() as int) == Ok::<(Seq<AlgorithmV>, int), DecodeError>(
            (s, pos + ser_algorithms(s).len()),
        ),
    decreases s.len(),
{
    if s.len() == 0 {
        assert(s =~= Seq::<AlgorithmV>::empty());
    } else {
        lemma_sub_split(b, pos, ser_algorithm(s[0]), ser_algorithms(s.drop_first()));
        lemma_rt_algorithm(b, pos, s[0]);
        assert forall|i: int| 0 <= i < s.drop_first().len() implies wf_algorithm(
        #[trigger] s.drop_first()[i]) by {
            assert(s.drop_first()[i] == s[i + 1]);
        }
        lemma_rt_algorithms(b, pos + ser_algorithm(s[0]).len(), s.drop_first());
        assert(s.drop_first().insert(0, s[0]) =~= s);
    }
}

proof fn lemma_rt_op_refs(b: Seq<u8>, pos: int, refs: Seq<u8>, n_ops: int)
    requires
        forall|i: int| 0 <= i < refs.len() ==> ((#[trigger] refs[i]) as int) < n_ops,
        0 <= pos,
        pos + ser_op_refs(refs).len() <= b.len(),
        b.subrange(pos, pos + ser_op_refs(refs).len()) == ser_op_refs(refs),
    ensures
        parse_op_refs(b, pos, refs.len() as int, n_ops) == Ok::<(Seq<u8>, int), DecodeError>(
            (refs, pos + ser_op_refs(refs).len()),
        ),
    decreases refs.len(),
{
    if refs.len() == 0 {
        assert(refs =~= Seq::<u8>::empty());
    } else {
        lemma_sub_split(b, pos, seq![refs[0]], ser_op_refs(refs.drop_first()));
        lemma_rt_u8(b, pos, refs[0]);
        assert forall|i: int| 0 <= i < refs.drop_first().len() implies ((
        #[trigger] refs.drop_first()[i]) as int) < n_ops by {
            assert(refs.drop_first()[i] == refs[i + 1]);
        }
        lemma_rt_op_refs(b, pos + 1, refs.drop_first(), n_ops);
        assert(refs.drop_first().insert(0, refs[0]) =~= refs);
    }
}

proof fn lemma_rt_event(b: Seq<u8>, pos: int, e: NoteEventV, n_ops: int, algos: Seq<AlgorithmV>)
    requires
        wf_event(e, n_ops, algos),
        0 <= pos,
        pos + ser_event(e).len() <= b.len(),
        b.subrange(pos, pos + ser_event(e).len()) == ser_event(e),
    ensures
        parse_event(b, pos, n_ops, algos) == Ok::<(NoteEventV, int), DecodeError>(
            (e, pos + ser_event(e).len()),
        ),
{
    let r1 = ser_u32(e.duration) + (ser_u16(e.velocity) + (seq![e.algorithm_ref] + ser_op_refs(
        e.operator_refs,
    )));
    lemma_sub_split(b, pos, ser_u16(e.pitch), r1);
    lemma_rt_u16(b, pos, e.pitch);
    let r2 = ser_u16(e.velocity) + (seq![e.algorithm_ref] + ser_op_refs(e.operator_refs));
    lemma_sub_split(b, pos + 2, ser_u32(e.duration), r2);
    lemma_rt_u32(b, pos + 2, e.duration);
    let r3 = seq![e.algorithm_ref] + ser_op_refs(e.operator_refs);
    lemma_sub_split(b, pos + 6, ser_u16(e.velocity), r3);
    lemma_rt_u16(b, pos + 6, e.velocity);
    lemma_sub_split(b, pos + 8, seq![e.algorithm_ref], ser_op_refs(e.operator_refs));
    lemma_rt_u8(b, pos + 8, e.algorithm_ref);
    lemma_rt_op_refs(b, pos + 9, e.operator_refs, n_ops);
    assert((NoteEventV {
        pitch: e.pitch,
        duration: e.duration,
        velocity: e.velocity,
        algorithm_ref: e.algorithm_ref,
        operator_refs: e.operator_refs,
    }) == e);
}

proof fn lemma_rt_events(b: Seq<u8>, pos: int, s: Seq<NoteEventV>, n_ops: int, algos: Seq<
    AlgorithmV,
>)
    requires
        forall|i: int| 0 <= i < s.len() ==> wf_event(#[trigger] s[i], n_ops, algos),
        0 <= pos,
        pos + ser_events(s).len() <= b.len(),
        b.subrange(pos, pos + ser_events(s).len()) == ser_events(s),
    ensures
        parse_events(b, pos, s.len() as int, n_ops, algos) == Ok::<(Seq<NoteEventV>, int),
            DecodeError>((s, pos + ser_events(s).len())),
    decreases s.len(),
{
    if s.len() == 0 {
        assert(s =~= Seq::<NoteEventV>::empty());
    } else {
        lemma_sub_split(b, pos, ser_event(s[0]), ser_events(s.drop_first()));
        lemma_rt_event(b, pos, s[0], n_ops, algos);
        assert forall|i: int| 0 <= i < s.drop_first().len() implies wf_event(
        #[trigger] s.drop_first()[i], n_ops, algos) by {
            assert(s.drop_first()[i] == s[i + 1]);
        }
        lemma_rt_events(b, pos + ser_event(s[0]).len(), s.drop_first(), n_ops, algos);
        assert(s.drop_first().insert(0, s[0]) =~= s);
    }
}

proof fn lemma_rt_part(
    b: Seq<u8>,
    pos: int,
    p: PartV,
    max_voice: int,
    n_ops: int,
    algos: Seq<AlgorithmV>,
)
    requires
        wf_part(p, max_voice, n_ops, algos),
        0 <= pos,
        pos + ser_part(p).len() <= b.len(),
        b.subrange(pos, pos + ser_part(p).len()) == ser_part(p),
    ensures
        parse_part(b, pos, max_voice, n_ops, algos) == Ok::<(PartV, int), DecodeError>(
            (p, pos + ser_part(p).len()),
        ),
{
    let r1 = ser_u16(p.score.len() as u16) + ser_events(p.score);
    lemma_sub_split(b, pos, seq![p.voice_id], r1);
    lemma_rt_u8(b, pos, p.voice_id);
    lemma_sub_split(b, pos + 1, ser_u16(p.score.len() as u16), ser_events(p.score));
    lemma_rt_u16(b, pos + 1, p.score.len() as u16);
    lemma_rt_events(b, pos + 3, p.score, n_ops, algos);
    assert((PartV { voice_id: p.voice_id, score: p.score }) == p);
}

proof fn lemma_rt_parts(
    b: Seq<u8>,
    pos: int,
    s: Seq<PartV>,
    max_voice: int,
    n_ops: int,
    algos: Seq<AlgorithmV>,
)
    requires
        forall|i: int| 0 <= i < s.len() ==> wf_part(#[trigger] s[i], max_voice, n_ops, algos),
        0 <= pos,
        pos + ser_parts(s).len() <= b.len(),
        b.subrange(pos, pos + ser_parts(s).len()) == ser_parts(s),
    ensures
        parse_parts(b, pos, s.len() as int, max_voice, n_ops, algos) == Ok::<(Seq<PartV>, int),
            DecodeError>((s, pos + ser_parts(s).len())),
    decreases s.len(),
{
    if s.len() == 0 {
        assert(s =~= Seq::<PartV>::empty());
    } else {
        lemma_sub_split(b, pos, ser_part(s[0]), ser_parts(s.drop_first()));
        lemma_rt_part(b, pos, s[0], max_voice, n_ops, algos);
        assert forall|i: int| 0 <= i < s.drop_first().len() implies wf_part(
        #[trigger] s.drop_first()[i], max_voice, n_ops, algos) by {
            assert(s.drop_first()[i] == s[i + 1]);
        }
        lemma_rt_parts(b, pos + ser_part(s[0]).len(), s.drop_first(), max_voice, n_ops, algos);
        assert(s.drop_first().insert(0, s[0]) =~= s);
    }
}

proof fn lemma_rt_song(
    b: Seq<u8>,
    pos: int,
    parts: Seq<PartV>,
    max_voice: int,
    n_ops: int,
    algos: Seq<AlgorithmV>,
)
    requires
        parts.len() <= 255,
        forall|i: int| 0 <= i < parts.len() ==> wf_part(#[trigger] parts[i], max_voice, n_ops,
            algos),
        0 <= pos,
        pos + ser_song(parts).len() <= b.len(),
        b.subrange(pos, pos + ser_song(parts).len()) == ser_song(parts),
    ensures
        parse_song(b, pos, max_voice, n_ops, algos) == Ok::<(Seq<PartV>, int), DecodeError>(
            (parts, pos + ser_song(parts).len()),
        ),
{
    lemma_sub_split(b, pos, seq![parts.len() as u8], ser_parts(parts));
    lemma_rt_u8(b, pos, parts.len() as u8);
    lemma_rt_parts(b, pos + 1, parts, max_voice, n_ops, algos);
}

proof fn lemma_rt_songs(
    b: Seq<u8>,
    pos: int,
    s: Seq<Seq<PartV>>,
    max_voice: int,
    n_ops: int,
    algos: Seq<AlgorithmV>,
)
    requires
        forall|i: int| 0 <= i < s.len() ==> (#[trigger] s[i]).len() <= 255,
        forall|i: int, k: int|
            0 <= i < s.len() && 0 <= k < s[i].len() ==> wf_part(#[trigger] s[i][k], max_voice,
            n_ops, algos),
        0 <= pos,
        pos + ser_songs(s).len() <= b.len(),
        b.subrange(pos, pos + ser_songs(s).len()) == ser_songs(s),
    ensures
        parse_songs(b, pos, s.len() as int, max_voice, n_ops, algos) == Ok::<(Seq<Seq<PartV>>, int),
            DecodeError>((s, pos + ser_songs(s).len())),
    decreases s.len(),
{
    if s.len() == 0 {
        assert(s =~= Seq::<Seq<PartV>>::empty());
    } else {
        lemma_sub_split(b, pos, ser_song(s[0]), ser_songs(s.drop_first()));
        assert forall|k: int| 0 <= k < s[0].len() implies wf_part(#[trigger] s[0][k], max_voice,
            n_ops, algos) by {}
        lemma_rt_song(b, pos, s[0], max_voice, n_ops, algos);
        assert forall|i: int, k: int|
            0 <= i < s.drop_first().len() && 0 <= k < s.drop_first()[i].len() implies wf_part(
        #[trigger] s.drop_first()[i][k], max_voice, n_ops, algos) by {
            assert(s.drop_first()[i] == s[i + 1]);
        }
        assert forall|i: int| 0 <= i < s.drop_first().len() implies (
        #[trigger] s.drop_first()[i]).len() <= 255 by {
            assert(s.drop_first()[i] == s[i + 1]);
        }
        lemma_rt_songs(b, pos + ser_song(s[0]).len(), s.drop_first(), max_voice, n_ops, algos);
        assert(s.drop_first().insert(0, s[0]) =~= s);
    }
}

/// The parser reads the canonical byte image of any well-formed model back
/// as exactly that model.
pub proof fn lemma_parse_serialize(m: MusicModelV)
    requires
        wf_model(m),
    ensures
        spec_parse(serialize(m)) == Ok::<MusicModelV, DecodeError>(m),
{
    let b = serialize(m);
    let hdr = seq![
        m.max_voice_count,
        m.operators.len() as u8,
        m.algorithms.len() as u8,
        m.songs.len() as u8,
    ];
    let r1 = ser_operators(m.operators) + (ser_algorithms(m.algorithms) + ser_songs(m.songs));
    assert(b.subrange(0, b.len() as int) =~= b);
    lemma_sub_split(b, 0, hdr, r1);
    assert(b[0] == m.max_voice_count);
    assert(b[1] == m.operators.len() as u8);
    assert(b[2] == m.algorithms.len() as u8);
    assert(b[3] == m.songs.len() as u8);
    let r2 = ser_algorithms(m.algorithms) + ser_songs(m.songs);
    lemma_sub_split(b, 4, ser_operators(m.operators), r2);
    lemma_rt_operators(b, 4, m.operators);
    let p5: int = 4 + ser_operators(m.operators).len() as int;
    lemma_sub_split(b, p5, ser_algorithms(m.algorithms), ser_songs(m.songs));
    lemma_rt_algorithms(b, p5, m.algorithms);
    let p6: int = p5 + ser_algorithms(m.algorithms).len() as int;
    lemma_rt_songs(b, p6, m.songs, m.max_voice_count as int, m.operators.len() as int,
        m.algorithms);
    assert((MusicModelV {
        max_voice_count: m.max_voice_count,
        operators: m.operators,
        algorithms: m.algorithms,
        songs: m.songs,
    }) == m);
}

/// Round trip: decoding is left-inverse to encoding on well-formed models,
/// so the decoder is idempotent on its own output — whatever it accepts,
/// re-encoding and re-decoding reproduces bit for bit.
pub proof fn lemma_decode_round_trip(b: Seq<u8>)
    ensures
        spec_parse(b) matches Ok(m) ==> spec_parse(serialize(m)) == Ok::<MusicModelV, DecodeError>(
            m,
        ),
{
    lemma_spec_parse_wf(b);
    match spec_parse(b) {
        Ok(m) => {
            lemma_parse_serialize(m);
        },
        Err(_) => {},
    }
}

// ------------------------------------------------------------------
// The executable decoder, one function per specification parser.
// ------------------------------------------------------------------

fn read_u8(b: &Vec<u8>, pos: usize) -> (r: Result<(u8, usize), DecodeError>)
    ensures
        pv(r) == take_u8(b@, pos as int),
{
    if pos < b.len() {
        Ok((b[pos], pos + 1))
    } else {
        Err(DecodeError::Truncated)
    }
}

fn read_u16(b: &Vec<u8>, pos: usize) -> (r: Result<(u16, usize), DecodeError>)
    ensures
        pv(r) == take_u16(b@, pos as int),
{
    if pos < b.len() && b.len() - pos >= 2 {
        Ok((b[pos] as u16 + b[pos + 1] as u16 * 256, pos + 2))
    } else {
        Err(DecodeError::Truncated)
    }
}

fn read_u32(b: &Vec<u8>, pos: usize) -> (r: Result<(u32, usize), DecodeError>)
    ensures
        pv(r) == take_u32(b@, pos as int),
{
    if pos < b.len() && b.len() - pos >= 4 {
        Ok(
            (b[pos] as u32 + b[pos + 1] as u32 * 256 + b[pos + 2] as u32 * 65536 + b[pos
                + 3] as u32 * 16777216, pos + 4),
        )
    } else {
        Err(DecodeError::Truncated)
    }
}

fn decode_operator(b: &Vec<u8>, pos: usize) -> (r: Result<(Operator, usize), DecodeError>)
    ensures
        pv(r) == parse_operator(b@, pos as int),
{
    let (w, p1) = match read_u8(b, pos) {
        Ok(x) => x,
        Err(e) => { return Err(e) },
    };
    if w > 3 {
        return Err(DecodeError::InvalidValue);
    }
    let waveform = if w == 0 {
        Waveform::Sine
    } else if w == 1 {
        Waveform::Square
    } else if w == 2 {
        Waveform::Triangle
    } else {
        Waveform::Saw
    };
    let (fr, p2) = match read_u16(b, p1) {
        Ok(x) => x,
        Err(e) => { return Err(e) },
    };
    if fr == 0 {
        return Err(DecodeError::InvalidValue);
    }
    let (amp, p3) = match read_u16(b, p2) {
        Ok(x) => x,
        Err(e) => { return Err(e) },
    };
    if amp > LEVEL_ONE {
        return Err(DecodeError::InvalidValue);
    }
    let (fb, p4) = match read_u16(b, p3) {
        Ok(x) => x,
        Err(e) => { return Err(e) },
    };
    if fb > LEVEL_ONE {
        return Err(DecodeError::InvalidValue);
    }
    let (att, p5) = match read_u16(b, p4) {
        Ok(x) => x,
        Err(e) => { return Err(e) },
    };
    let (dec, p6) = match read_u16(b, p5) {
        Ok(x) => x,
        Err(e) => { return Err(e) },
    };
    let (sus, p7) = match read_u16(b, p6) {
        Ok(x) => x,
        Err(e) => { return Err(e) },
    };
    if sus > LEVEL_ONE {
        return Err(DecodeError::InvalidValue);
    }
    let (rel, p8) = match read_u16(b, p7) {
        Ok(x) => x,
        Err(e) => { return Err(e) },
    };
    Ok(
        (Operator {
            waveform,
            frequency_ratio: fr,
            amplitude: amp,
            feedback: fb,
            attack: att,
            decay: dec,
            sustain: sus,
            release: rel,
        }, p8),
    )
}

fn decode_operators(b: &Vec<u8>, pos: usize, n: u8) -> (r: Result<
    (Vec<Operator>, usize),
    DecodeError,
>)
    ensures
        pv(r) == parse_operators(b@, pos as int, n as int),
    decreases n,
{
    if n == 0 {
        let v: Vec<Operator> = Vec::new();
        proof {
            assert(v.deep_view() =~= Seq::<Operator>::empty());
        }
        Ok((v, pos))
    } else {
        let (op, p1) = match decode_operator(b, pos) {
            Ok(x) => x,
            Err(e) => { return Err(e) },
        };
        let (mut rest, p2) = match decode_operators(b, p1, n - 1) {
            Ok(x) => x,
            Err(e) => { return Err(e) },
        };
        let ghost prior = rest.deep_view();
        rest.insert(0, op);
        proof {
            assert(rest.deep_view() =~= prior.insert(0, op));
        }
        Ok((rest, p2))
    }
}

fn chain_ok_exec(slots: &Vec<Slot>, slot: u8, fuel: u8) -> (r: bool)
    ensures
        r == chain_ok(slots@, slot as int, fuel as nat),
    decreases fuel,
{
    if fuel == 0 {
        false
    } else if slot as usize >= slots.len() {
        false
    } else {
        let s = slots[slot as usize];
        if s.target == NO_TARGET {
            s.carrier
        } else {
            chain_ok_exec(slots, s.target, fuel - 1)
        }
    }
}

fn valid_from_exec(slots: &Vec<Slot>, i: usize) -> (r: bool)
    requires
        slots@.len() <= MAX_SLOTS,
    ensures
        r == valid_from(slots@, i as int),
    decreases slots@.len() - i,
{
    if i >= slots.len() {
        true
    } else {
        chain_ok_exec(slots, i as u8, slots.len() as u8) && valid_from_exec(slots, i + 1)
    }
}

fn decode_slot(b: &Vec<u8>, pos: usize, slot_count: u8) -> (r: Result<(Slot, usize), DecodeError>)
    ensures
        pv(r) == parse_slot(b@, pos as int, slot_count as int),
{
    let (target, p1) = match read_u8(b, pos) {
        Ok(x) => x,
        Err(e) => { return Err(e) },
    };
    if target != NO_TARGET && target >= slot_count {
        return Err(DecodeError::IndexOutOfRange);
    }
    let (flags, p2) = match read_u8(b, p1) {
        Ok(x) => x,
        Err(e) => { return Err(e) },
    };
    if flags > 3 {
        return Err(DecodeError::InvalidValue);
    }
    Ok((Slot { target, carrier: flags % 2 == 1, feedback: flags >= 2 }, p2))
}

fn decode_slots(b: &Vec<u8>, pos: usize, n: u8, slot_count: u8) -> (r: Result<
    (Vec<Slot>, usize),
    DecodeError,
>)
    ensures
        pv(r) == parse_slots(b@, pos as int, n as int, slot_count as int),
        r matches Ok(x) ==> x.0@.len() == n as int,
    decreases n,
{
    if n == 0 {
        let v: Vec<Slot> = Vec::new();
        proof {
            assert(v.deep_view() =~= Seq::<Slot>::empty());
        }
        Ok((v, pos))
    } else {
        let (s, p1) = match decode_slot(b, pos, slot_count) {
            Ok(x) => x,
            Err(e) => { return Err(e) },
        };
        let (mut rest, p2) = match decode_slots(b, p1, n - 1, slot_count) {
            Ok(x) => x,
            Err(e) => { return Err(e) },
        };
        let ghost prior = rest.deep_view();
        rest.insert(0, s);
        proof {
            assert(rest.deep_view() =~= prior.insert(0, s));
        }
        Ok((rest, p2))
    }
}

fn decode_algorithm(b: &Vec<u8>, pos: usize) -> (r: Result<(Algorithm, usize), DecodeError>)
    ensures
        pv(r) == parse_algorithm(b@, pos as int),
{
    let (sc, p1) = match read_u8(b, pos) {
        Ok(x) => x,
        Err(e) => { return Err(e) },
    };
    if sc == 0 || sc as usize > MAX_SLOTS {
        return Err(DecodeError::InvalidValue);
    }
    let (slots, p2) = match decode_slots(b, p1, sc, sc) {
        Ok(x) => x,
        Err(e) => { return Err(e) },
    };
    proof {
        assert(slots.deep_view() =~= slots@);
    }
    if !valid_from_exec(&slots, 0) {
        return Err(DecodeError::InvalidValue);
    }
    Ok((Algorithm { slots }, p2))
}

fn decode_algorithms(b: &Vec<u8>, pos: usize, n: u8) -> (r: Result<
    (Vec<Algorithm>, usize),
    DecodeError,
>)
    ensures
        pv(r) == parse_algorithms(b@, pos as int, n as int),
    decreases n,
{
    if n == 0 {
        let v: Vec<Algorithm> = Vec::new();
        proof {
            assert(v.deep_view() =~= Seq::<AlgorithmV>::empty());
        }
        Ok((v, pos))
    } else {
        let (a, p1) = match decode_algorithm(b, pos) {
            Ok(x) => x,
            Err(e) => { return Err(e) },
        };
        let (mut rest, p2) = match decode_algorithms(b, p1, n - 1) {
            Ok(x) => x,
            Err(e) => { return Err(e) },
        };
        let ghost prior = rest.deep_view();
        let ghost av = a.deep_view();
        rest.insert(0, a);
        proof {
            assert(rest.deep_view() =~= prior.insert(0, av));
        }
        Ok((rest, p2))
    }
}

fn decode_op_refs(b: &Vec<u8>, pos: usize, n: usize, n_ops: u8) -> (r: Result<
    (Vec<u8>, usize),
    DecodeError,
>)
    ensures
        pv(r) == parse_op_refs(b@, pos as int, n as int, n_ops as int),
    decreases n,
{
    if n == 0 {
        let v: Vec<u8> = Vec::new();
        proof {
            assert(v.deep_view() =~= Seq::<u8>::empty());
        }
        Ok((v, pos))
    } else {
        let (rf, p1) = match read_u8(b, pos) {
            Ok(x) => x,
            Err(e) => { return Err(e) },
        };
        if rf >= n_ops {
            return Err(DecodeError::IndexOutOfRange);
        }
        let (mut rest, p2) = match decode_op_refs(b, p1, n - 1, n_ops) {
            Ok(x) => x,
            Err(e) => { return Err(e) },
        };
        let ghost prior = rest.deep_view();
        rest.insert(0, rf);
        proof {
            assert(rest.deep_view() =~= prior.insert(0, rf));
        }
        Ok((rest, p2))
    }
}

fn decode_event(b: &Vec<u8>, pos: usize, n_ops: u8, algos: &Vec<Algorithm>) -> (r: Result<
    (NoteEvent, usize),
    DecodeError,
>)
    ensures
        pv(r) == parse_event(b@, pos as int, n_ops as int, algos.deep_view()),
{
    let (pitch, p1) = match read_u16(b, pos) {
        Ok(x) => x,
        Err(e) => { return Err(e) },
    };
    if pitch == 0 {
        return Err(DecodeError::InvalidValue);
    }
    let (dur, p2) = match read_u32(b, p1) {
        Ok(x) => x,
        Err(e) => { return Err(e) },
    };
    if dur > MAX_EVENT_SAMPLES {
        return Err(DecodeError::InvalidValue);
    }
    let (vel, p3) = match read_u16(b, p2) {
        Ok(x) => x,
        Err(e) => { return Err(e) },
    };
    if vel > LEVEL_ONE {
        return Err(DecodeError::InvalidValue);
    }
    let (aref, p4) = match read_u8(b, p3) {
        Ok(x) => x,
        Err(e) => { return Err(e) },
    };
    if aref as usize >= algos.len() {
        return Err(DecodeError::IndexOutOfRange);
    }
    let sc = algos[aref as usize].slots.len();
    proof {
        assert(algos.deep_view()[aref as int].slots =~= algos@[aref as int].slots@);
    }
    let (refs, p5) = match decode_op_refs(b, p4, sc, n_ops) {
        Ok(x) => x,
        Err(e) => { return Err(e) },
    };
    proof {
        assert(refs.deep_view() =~= refs@);
    }
    Ok(
        (NoteEvent { pitch, duration: dur, velocity: vel, algorithm_ref: aref, operator_refs: refs },
        p5),
    )
}

fn decode_events(b: &Vec<u8>, pos: usize, n: u16, n_ops: u8, algos: &Vec<Algorithm>) -> (r: Result<
    (Vec<NoteEvent>, usize),
    DecodeError,
>)
    ensures
        pv(r) == parse_events(b@, pos as int, n as int, n_ops as int, algos.deep_view()),
    decreases n,
{
    if n == 0 {
        let v: Vec<NoteEvent> = Vec::new();
        proof {
            assert(v.deep_view() =~= Seq::<NoteEventV>::empty());
        }
        Ok((v, pos))
    } else {
        let (ev, p1) = match decode_event(b, pos, n_ops, algos) {
            Ok(x) => x,
            Err(e) => { return Err(e) },
        };
        let (mut rest, p2) = match decode_events(b, p1, n - 1, n_ops, algos) {
            Ok(x) => x,
            Err(e) => { return Err(e) },
        };
        let ghost prior = rest.deep_view();
        let ghost ev_v = ev.deep_view();
        rest.insert(0, ev);
        proof {
            assert(rest.deep_view() =~= prior.insert(0, ev_v));
        }
        Ok((rest, p2))
    }
}

fn decode_part(b: &Vec<u8>, pos: usize, max_voice: u8, n_ops: u8, algos: &Vec<Algorithm>) -> (r:
    Result<(Part, usize), DecodeError>)
    ensures
        pv(r) == parse_part(b@, pos as int, max_voice as int, n_ops as int, algos.deep_view()),
{
    let (vid, p1) = match read_u8(b, pos) {
        Ok(x) => x,
        Err(e) => { return Err(e) },
    };
    if vid >= max_voice {
        return Err(DecodeError::IndexOutOfRange);
    }
    let (ne, p2) = match read_u16(b, p1) {
        Ok(x) => x,
        Err(e) => { return Err(e) },
    };
    if ne > MAX_EVENTS_PER_PART {
        return Err(DecodeError::InvalidValue);
    }
    let (score, p3) = match decode_events(b, p2, ne, n_ops, algos) {
        Ok(x) => x,
        Err(e) => { return Err(e) },
    };
    Ok((Part { voice_id: vid, score }, p3))
}

fn decode_parts(
    b: &Vec<u8>,
    pos: usize,
    n: u8,
    max_voice: u8,
    n_ops: u8,
    algos: &Vec<Algorithm>,
) -> (r: Result<(Vec<Part>, usize), DecodeError>)
    ensures
        pv(r) == parse_parts(
            b@,
            pos as int,
            n as int,
            max_voice as int,
            n_ops as int,
            algos.deep_view(),
        ),
    decreases n,
{
    if n == 0 {
        let v: Vec<Part> = Vec::new();
        proof {
            assert(v.deep_view() =~= Seq::<PartV>::empty());
        }
        Ok((v, pos))
    } else {
        let (pt, p1) = match decode_part(b, pos, max_voice, n_ops, algos) {
            Ok(x) => x,
            Err(e) => { return Err(e) },
        };
        let (mut rest, p2) = match decode_parts(b, p1, n - 1, max_voice, n_ops, algos) {
            Ok(x) => x,
            Err(e) => { return Err(e) },
        };
        let ghost prior = rest.deep_view();
        let ghost pt_v = pt.deep_view();
        rest.insert(0, pt);
        proof {
            assert(rest.deep_view() =~= prior.insert(0, pt_v));
        }
        Ok((rest, p2))
    }
}

fn decode_song(b: &Vec<u8>, pos: usize, max_voice: u8, n_ops: u8, algos: &Vec<Algorithm>) -> (r:
    Result<(Vec<Part>, usize), DecodeError>)
    ensures
        pv(r) == parse_song(b@, pos as int, max_voice as int, n_ops as int, algos.deep_view()),
{
    let (np, p1) = match read_u8(b, pos) {
        Ok(x) => x,
        Err(e) => { return Err(e) },
    };
    decode_parts(b, p1, np, max_voice, n_ops, algos)
}

fn decode_songs(
    b: &Vec<u8>,
    pos: usize,
    n: u8,
    max_voice: u8,
    n_ops: u8,
    algos: &Vec<Algorithm>,
) -> (r: Result<(Vec<Vec<Part>>, usize), DecodeError>)
    ensures
        pv(r) == parse_songs(
            b@,
            pos as int,
            n as int,
            max_voice as int,
            n_ops as int,
            algos.deep_view(),
        ),
    decreases n,
{
    if n == 0 {
        let v: Vec<Vec<Part>> = Vec::new();
        proof {
            assert(v.deep_view() =~= Seq::<Seq<PartV>>::empty());
        }
        Ok((v, pos))
    } else {
        let (sg, p1) = match decode_song(b, pos, max_voice, n_ops, algos) {
            Ok(x) => x,
            Err(e) => { return Err(e) },
        };
        let (mut rest, p2) = match decode_songs(b, p1, n - 1, max_voice, n_ops, algos) {
            Ok(x) => x,
            Err(e) => { return Err(e) },
        };
        let ghost prior = rest.deep_view();
        let ghost sg_v = sg.deep_view();
        rest.insert(0, sg);
        proof {
            assert(rest.deep_view() =~= prior.insert(0, sg_v));
        }
        Ok((rest, p2))
    }
}

// ------------------------------------------------------------------
// The executable encoder, one function per serializer.
// ------------------------------------------------------------------

fn enc_u16(out: &mut Vec<u8>, v: u16)
    ensures
        final(out)@ == old(out)@ + ser_u16(v),
{
    out.push((v % 256) as u8);
    out.push((v / 256) as u8);
    proof {
        assert(out@ =~= old(out)@ + ser_u16(v));
    }
}

fn enc_u32(out: &mut Vec<u8>, v: u32)
    ensures
        final(out)@ == old(out)@ + ser_u32(v),
{
    out.push((v % 256) as u8);
    out.push((v / 256 % 256) as u8);
    out.push((v / 65536 % 256) as u8);
    out.push((v / 16777216) as u8);
    proof {
        assert(out@ =~= old(out)@ + ser_u32(v));
    }
}

fn enc_operator(out: &mut Vec<u8>, op: &Operator)
    ensures
        final(out)@ == old(out)@ + ser_operator(*op),
{
    let code: u8 = match op.waveform {
        Waveform::Sine => 0,
        Waveform::Square => 1,
        Waveform::Triangle => 2,
        Waveform::Saw => 3,
    };
    out.push(code);
    enc_u16(out, op.frequency_ratio);
    enc_u16(out, op.amplitude);
    enc_u16(out, op.feedback);
    enc_u16(out, op.attack);
    enc_u16(out, op.decay);
    enc_u16(out, op.sustain);
    enc_u16(out, op.release);
    proof {
        assert(out@ =~= old(out)@ + ser_operator(*op));
    }
}

fn enc_operators(out: &mut Vec<u8>, ops: &Vec<Operator>, i: usize)
    requires
        i <= ops@.len(),
    ensures
        final(out)@ == old(out)@ + ser_operators(ops@.skip(i as int)),
    decreases ops@.len() - i,
{
    if i == ops.len() {
        proof {
            assert(ops@.skip(i as int) =~= Seq::<Operator>::empty());
            assert(out@ =~= old(out)@ + ser_operators(ops@.skip(i as int)));
        }
    } else {
        enc_operator(out, &ops[i]);
        enc_operators(out, ops, i + 1);
        proof {
            let sk = ops@.skip(i as int);
            assert(sk[0] == ops@[i as int]);
            assert(sk.drop_first() =~= ops@.skip(i as int + 1));
            assert(out@ =~= old(out)@ + ser_operators(sk));
        }
    }
}

fn enc_slot(out: &mut Vec<u8>, s: &Slot)
    ensures
        final(out)@ == old(out)@ + ser_slot(*s),
{
    out.push(s.target);
    let flags: u8 = (if s.carrier {
        1u8
    } else {
        0u8
    }) + (if s.feedback {
        2u8
    } else {
        0u8
    });
    out.push(flags);
    proof {
        assert(out@ =~= old(out)@ + ser_slot(*s));
    }
}

fn enc_slots(out: &mut Vec<u8>, slots: &Vec<Slot>, i: usize)
    requires
        i <= slots@.len(),
    ensures
        final(out)@ == old(out)@ + ser_slots(slots@.skip(i as int)),
    decreases slots@.len() - i,
{
    if i == slots.len() {
        proof {
            assert(slots@.skip(i as int) =~= Seq::<Slot>::empty());
            assert(out@ =~= old(out)@ + ser_slots(slots@.skip(i as int)));
        }
    } else {
        enc_slot(out, &slots[i]);
        enc_slots(out, slots, i + 1);
        proof {
            let sk = slots@.skip(i as int);
            assert(sk[0] == slots@[i as int]);
            assert(sk.drop_first() =~= slots@.skip(i as int + 1));
            assert(out@ =~= old(out)@ + ser_slots(sk));
        }
    }
}

fn enc_algorithm(out: &mut Vec<u8>, a: &Algorithm)
    requires
        a.slots@.len() <= 255,
    ensures
        final(out)@ == old(out)@ + ser_algorithm(a.deep_view()),
{
    out.push(a.slots.len() as u8);
    enc_slots(out, &a.slots, 0);
    proof {
        assert(a.slots@.skip(0) =~= a.slots@);
        assert(out@ =~= old(out)@ + ser_algorithm(a.deep_view()));
    }
}

fn enc_algorithms(out: &mut Vec<u8>, algos: &Vec<Algorithm>, i: usize)
    requires
        i <= algos@.len(),
        forall|j: int| 0 <= j < algos@.len() ==> (#[trigger] algos@[j]).slots@.len() <= 255,
    ensures
        final(out)@ == old(out)@ + ser_algorithms(algos.deep_view().skip(i as int)),
    decreases algos@.len() - i,
{
    if i == algos.len() {
        proof {
            assert(algos.deep_view().skip(i as int) =~= Seq::<AlgorithmV>::empty());
            assert(out@ =~= old(out)@ + ser_algorithms(algos.deep_view().skip(i as int)));
        }
    } else {
        enc_algorithm(out, &algos[i]);
        enc_algorithms(out, algos, i + 1);
        proof {
            let sk = algos.deep_view().skip(i as int);
            assert(sk[0] == algos@[i as int].deep_view());
            assert(sk.drop_first() =~= algos.deep_view().skip(i as int + 1));
            assert(out@ =~= old(out)@ + ser_algorithms(sk));
        }
    }
}

fn enc_op_refs(out: &mut Vec<u8>, refs: &Vec<u8>, i: usize)
    requires
        i <= refs@.len(),
    ensures
        final(out)@ == old(out)@ + ser_op_refs(refs@.skip(i as int)),
    decreases refs@.len() - i,
{
    if i == refs.len() {
        proof {
            assert(refs@.skip(i as int) =~= Seq::<u8>::empty());
            assert(out@ =~= old(out)@ + ser_op_refs(refs@.skip(i as int)));
        }
    } else {
        out.push(refs[i]);
        enc_op_refs(out, refs, i + 1);
        proof {
            let sk = refs@.skip(i as int);
            assert(sk[0] == refs@[i as int]);
            assert(sk.drop_first() =~= refs@.skip(i as int + 1));
            assert(out@ =~= old(out)@ + ser_op_refs(sk));
        }
    }
}

fn enc_event(out: &mut Vec<u8>, e: &NoteEvent)
    ensures
        final(out)@ == old(out)@ + ser_event(e.deep_view()),
{
    enc_u16(out, e.pitch);
    enc_u32(out, e.duration);
    enc_u16(out, e.velocity);
    out.push(e.algorithm_ref);
    enc_op_refs(out, &e.operator_refs, 0);
    proof {
        assert(e.operator_refs@.skip(0) =~= e.operator_refs@);
        assert(out@ =~= old(out)@ + ser_event(e.deep_view()));
    }
}

fn enc_events(out: &mut Vec<u8>, score: &Vec<NoteEvent>, i: usize)
    requires
        i <= score@.len(),
    ensures
        final(out)@ == old(out)@ + ser_events(score.deep_view().skip(i as int)),
    decreases score@.len() - i,
{
    if i == score.len() {
        proof {
            assert(score.deep_view().skip(i as int) =~= Seq::<NoteEventV>::empty());
            assert(out@ =~= old(out)@ + ser_events(score.deep_view().skip(i as int)));
        }
    } else {
        enc_event(out, &score[i]);
        enc_events(out, score, i + 1);
        proof {
            let sk = score.deep_view().skip(i as int);
            assert(sk[0] == score@[i as int].deep_view());
            assert(sk.drop_first() =~= score.deep_view().skip(i as int + 1));
            assert(out@ =~= old(out)@ + ser_events(sk));
        }
    }
}

fn enc_part(out: &mut Vec<u8>, p: &Part)
    requires
        p.score@.len() <= 65535,
    ensures
        final(out)@ == old(out)@ + ser_part(p.deep_view()),
{
    out.push(p.voice_id);
    enc_u16(out, p.score.len() as u16);
    enc_events(out, &p.score, 0);
    proof {
        assert(p.score.deep_view().skip(0) =~= p.score.deep_view());
        assert(out@ =~= old(out)@ + ser_part(p.deep_view()));
    }
}

fn enc_parts(out: &mut Vec<u8>, parts: &Vec<Part>, i: usize)
    requires
        i <= parts@.len(),
        forall|j: int| 0 <= j < parts@.len() ==> (#[trigger] parts@[j]).score@.len() <= 65535,
    ensures
        final(out)@ == old(out)@ + ser_parts(parts.deep_view().skip(i as int)),
    decreases parts@.len() - i,
{
    if i == parts.len() {
        proof {
            assert(parts.deep_view().skip(i as int) =~= Seq::<PartV>::empty());
            assert(out@ =~= old(out)@ + ser_parts(parts.deep_view().skip(i as int)));
        }
    } else {
        enc_part(out, &parts[i]);
        enc_parts(out, parts, i + 1);
        proof {
            let sk = parts.deep_view().skip(i as int);
            assert(sk[0] == parts@[i as int].deep_view());
            assert(sk.drop_first() =~= parts.deep_view().skip(i as int + 1));
            assert(out@ =~= old(out)@ + ser_parts(sk));
        }
    }
}

fn enc_song(out: &mut Vec<u8>, parts: &Vec<Part>)
    requires
        parts@.len() <= 255,
        forall|j: int| 0 <= j < parts@.len() ==> (#[trigger] parts@[j]).score@.len() <= 65535,
    ensures
        final(out)@ == old(out)@ + ser_song(parts.deep_view()),
{
    out.push(parts.len() as u8);
    enc_parts(out, parts, 0);
    proof {
        assert(parts.deep_view().skip(0) =~= parts.deep_view());
        assert(out@ =~= old(out)@ + ser_song(parts.deep_view()));
    }
}

fn enc_songs(out: &mut Vec<u8>, songs: &Vec<Vec<Part>>, i: usize)
    requires
        i <= songs@.len(),
        forall|j: int| 0 <= j < songs@.len() ==> (#[trigger] songs@[j])@.len() <= 255,
        forall|j: int, k: int|
            0 <= j < songs@.len() && 0 <= k < songs@[j]@.len() ==> (
            #[trigger] songs@[j]@[k]).score@.len() <= 65535,
    ensures
        final(out)@ == old(out)@ + ser_songs(songs.deep_view().skip(i as int)),
    decreases songs@.len() - i,
{
    if i == songs.len() {
        proof {
            assert(songs.deep_view().skip(i as int) =~= Seq::<Seq<PartV>>::empty());
            assert(out@ =~= old(out)@ + ser_songs(songs.deep_view().skip(i as int)));
        }
    } else {
        enc_song(out, &songs[i]);
        enc_songs(out, songs, i + 1);
        proof {
            let sk = songs.deep_view().skip(i as int);
            assert(sk[0] =~= songs@[i as int].deep_view());
            assert(sk.drop_first() =~= songs.deep_view().skip(i as int + 1));
            assert(out@ =~= old(out)@ + ser_songs(sk));
        }
    }
}

/// Encodes a well-formed model into its canonical byte image, the exact
/// sequence [`serialize`] describes — which [`decode`] reads back as the
/// same model.
pub fn encode(m: &MusicModel) -> (r: Vec<u8>)
    requires
        wf_model(m.deep_view()),
    ensures
        r@ == serialize(m.deep_view()),
{
    let ghost mv = m.deep_view();
    proof {
        assert forall|j: int| 0 <= j < m.algorithms@.len() implies (
        #[trigger] m.algorithms@[j]).slots@.len() <= 255 by {
            assert(wf_algorithm(mv.algorithms[j]));
        }
        assert forall|j: int| 0 <= j < m.songs@.len() implies (#[trigger] m.songs@[j])@.len()
            <= 255 by {
            assert(mv.songs[j].len() == m.songs@[j]@.len());
        }
        assert forall|j: int, k: int|
            0 <= j < m.songs@.len() && 0 <= k < m.songs@[j]@.len() implies (
        #[trigger] m.songs@[j]@[k]).score@.len() <= 65535 by {
            assert(wf_part(mv.songs[j][k], mv.max_voice_count as int, mv.operators.len() as int,
                mv.algorithms));
            assert(mv.songs[j][k].score.len() == m.songs@[j]@[k].score@.len());
        }
    }
    let mut out: Vec<u8> = Vec::new();
    out.push(m.max_voice_count);
    out.push(m.operators.len() as u8);
    out.push(m.algorithms.len() as u8);
    out.push(m.songs.len() as u8);
    enc_operators(&mut out, &m.operators, 0);
    enc_algorithms(&mut out, &m.algorithms, 0);
    enc_songs(&mut out, &m.songs, 0);
    proof {
        assert(m.operators@.skip(0) =~= m.operators@);
        assert(m.algorithms.deep_view().skip(0) =~= m.algorithms.deep_view());
        assert(m.songs.deep_view().skip(0) =~= m.songs.deep_view());
        assert(out@ =~= serialize(mv));
    }
    out
}

/// Decodes a binary blob into a validated music model.
///
/// Returns exactly what [`spec_parse`] says the bytes mean: the model, or
/// `Truncated` where a field declared more bytes than remain, `IndexOutOfRange`
/// where a cross-reference exceeds its table, and `InvalidValue` where a
/// numeric field leaves its documented domain.  Nothing partial is ever
/// returned, and no byte outside `bytes` is ever read.  Any model returned
/// satisfies the whole model invariant [`wf_model`].
pub fn decode(bytes: &Vec<u8>) -> (r: Result<MusicModel, DecodeError>)
    ensures
        dv(r) == spec_parse(bytes@),
        r matches Ok(m) ==> wf_model(m.deep_view()),
{
    proof {
        lemma_spec_parse_wf(bytes@);
    }
    let (mv, p1) = match read_u8(bytes, 0) {
        Ok(x) => x,
        Err(e) => { return Err(e) },
    };
    let (n_ops, p2) = match read_u8(bytes, p1) {
        Ok(x) => x,
        Err(e) => { return Err(e) },
    };
    let (n_algos, p3) = match read_u8(bytes, p2) {
        Ok(x) => x,
        Err(e) => { return Err(e) },
    };
    let (n_songs, p4) = match read_u8(bytes, p3) {
        Ok(x) => x,
        Err(e) => { return Err(e) },
    };
    let (ops, p5) = match decode_operators(bytes, p4, n_ops) {
        Ok(x) => x,
        Err(e) => { return Err(e) },
    };
    let (algos, p6) = match decode_algorithms(bytes, p5, n_algos) {
        Ok(x) => x,
        Err(e) => { return Err(e) },
    };
    let (songs, p7) = match decode_songs(bytes, p6, n_songs, mv, n_ops, &algos) {
        Ok(x) => x,
        Err(e) => { return Err(e) },
    };
    if p7 != bytes.len() {
        return Err(DecodeError::InvalidValue);
    }
    proof {
        assert(ops.deep_view() =~= ops@);
    }
    Ok(MusicModel { max_voice_count: mv, operators: ops, algorithms: algos, songs })
}

} // verus!
