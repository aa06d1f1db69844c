//! A small music box: a binary-format decoder that turns an untrusted byte
//! stream into a validated music model, and a deterministic integer FM/additive
//! synthesizer that renders each part of the model into a PCM sample buffer.
//!
//! The decoder (`dat`) and the synthesizer (`synth`) are pure computations;
//! everything that touches an audio device stays outside this crate and only
//! consumes the action lists that `SbApp`'s control methods return.

pub mod dat;
pub mod synth;

use vstd::prelude::*;

use crate::dat::{wf_model, MusicModel, MusicModelV, PartV};
use crate::synth::{lemma_wf_part_renders, render, spec_render, SynthesisError};

verus! {

/// The fixed output sample rate, in samples per second.
pub const SAMPLE_RATE: u32 = 44100;

/// One fully rendered part: which output voice plays it, and its samples.
#[derive(Debug)]
pub struct RenderedPart {
    /// The output channel this part plays on; below the model's voice count.
    pub voice_id: u8,
    /// The rendered PCM samples, immutable after construction.
    pub wave: Vec<i16>,
}

/// One operation for the playback layer to perform on an output channel.
#[derive(Clone, Copy, Debug, PartialEq, Eq, Structural)]
pub enum ActionKind {
    /// Start the part's uploaded buffer on its channel handle.
    Play,
    /// Pause the part's player.
    Pause,
    /// Resume the part's player.
    Resume,
    /// Reset the part's player to the start.
    Reset,
    /// Release the part's channel handle.
    CloseHandle,
    /// Release the player itself.
    ClosePlayer,
}

/// One playback instruction: the voice it concerns and what to do to it.
#[derive(Clone, Copy, Debug, PartialEq, Eq, Structural)]
pub struct VoiceAction {
    pub voice_id: u8,
    pub kind: ActionKind,
}

/// Why a transport operation was refused.
#[derive(Clone, Copy, Debug, PartialEq, Eq, Structural)]
pub enum ControlError {
    /// The song index was at or beyond the song count; nothing was done.
    SongIndexOutOfRange,
}

/// Whether `rp` is exactly the render of `pv` under the model's tables.
pub open spec fn part_rendered(mv: MusicModelV, rp: RenderedPart, pv: PartV) -> bool {
    &&& rp.voice_id == pv.voice_id
    &&& spec_render(pv, mv.operators, mv.algorithms, SAMPLE_RATE) == Ok::<Seq<i16>, SynthesisError>(
        rp.wave@,
    )
}

/// Whether a rendered song is exactly the render of a model song, part for part.
pub open spec fn song_rendered(mv: MusicModelV, rsong: Seq<RenderedPart>, psong: Seq<PartV>) -> bool {
    &&& rsong.len() == psong.len()
    &&& forall|k: int| 0 <= k < rsong.len() ==> part_rendered(mv, #[trigger] rsong[k], psong[k])
}

/// Whether an application holds exactly the renders of a model's songs.
pub open spec fn app_renders(app: SbApp, mv: MusicModelV) -> bool {
    &&& app.max_voice_count == mv.max_voice_count
    &&& app.songs@.len() == mv.songs.len()
    &&& forall|s: int|
        0 <= s < mv.songs.len() ==> song_rendered(mv, (#[trigger] app.songs@[s])@, mv.songs[s])
}

/// The instructions that apply `kind` to every part of a song, in part order.
pub open spec fn song_actions_spec(song: Seq<RenderedPart>, kind: ActionKind) -> Seq<VoiceAction> {
    Seq::new(song.len(), |k: int| VoiceAction { voice_id: song[k].voice_id, kind })
}

/// The handle-release instructions of the first `s` songs, in song order.
pub open spec fn close_handles_to(songs: Seq<Vec<RenderedPart>>, s: int) -> Seq<VoiceAction>
    decreases s,
{
    if s <= 0 {
        Seq::empty()
    } else {
        close_handles_to(songs, s - 1) + song_actions_spec(songs[s - 1]@, ActionKind::CloseHandle)
    }
}

/// The player-release instructions for voices `0..n`, each exactly once.
pub open spec fn player_close_actions(n: int) -> Seq<VoiceAction> {
    Seq::new(if n <= 0 { 0nat } else { n as nat }, |v: int| VoiceAction {
        voice_id: v as u8,
        kind: ActionKind::ClosePlayer,
    })
}

/// A well-formed model always constructs: every part of every one of its
/// songs renders, so [`SbApp::new`] succeeds on everything the decoder
/// accepts.
pub proof fn lemma_wf_model_renders(m: MusicModelV)
    requires
        wf_model(m),
    ensures
        forall|s: int, k: int|
            0 <= s < m.songs.len() && 0 <= k < m.songs[s].len() ==> spec_render(
                #[trigger] m.songs[s][k],
                m.operators,
                m.algorithms,
                SAMPLE_RATE,
            ) is Ok,
{
    assert forall|s: int, k: int|
        0 <= s < m.songs.len() && 0 <= k < m.songs[s].len() implies spec_render(
        #[trigger] m.songs[s][k],
        m.operators,
        m.algorithms,
        SAMPLE_RATE,
    ) is Ok by {
        lemma_wf_part_renders(m.songs[s][k], m.operators, m.algorithms, SAMPLE_RATE);
    }
}

/// The application: every part of every song rendered ahead of time, ready
/// for a playback layer that owns one output channel per voice.  Transport
/// methods never touch a channel themselves; they validate the song index
/// and return the instructions to perform, so an out-of-range index performs
/// no external operation at all.
pub struct SbApp {
    /// How many output voices (players) the playback layer must own.
    pub max_voice_count: u8,
    /// For each song, its rendered parts in order.
    pub songs: Vec<Vec<RenderedPart>>,
}

impl SbApp {
    /// Builds the application from a decoded model by rendering every part
    /// of every song at the fixed sample rate, all-or-nothing.
    ///
    /// Succeeds if and only if every part renders; for a model the decoder
    /// produced this always holds, and the defensive error is returned, never
    /// a crash, on any other input.
    pub fn new(music_data: MusicModel) -> (r: Result<SbApp, SynthesisError>)
        ensures
            r matches Ok(app) ==> app_renders(app, music_data.deep_view()),
            r matches Err(e) ==> exists|s: int, k: int|
                #![trigger music_data.deep_view().songs[s][k]]
                {
                    &&& 0 <= s < music_data.deep_view().songs.len()
                    &&& 0 <= k < music_data.deep_view().songs[s].len()
                    &&& spec_render(music_data.deep_view().songs[s][k],
                        music_data.deep_view().operators, music_data.deep_view().algorithms,
                        SAMPLE_RATE) == Err::<Seq<i16>, SynthesisError>(e)
                },
    {
        let ghost mv = music_data.deep_view();
        let mut songs: Vec<Vec<RenderedPart>> = Vec::new();
        let mut s: usize = 0;
        while s < music_data.songs.len()
            invariant
                s <= music_data.songs@.len(),
                mv == music_data.deep_view(),
                songs@.len() == s as int,
                forall|a: int|
                    0 <= a < s as int ==> song_rendered(mv, (#[trigger] songs@[a])@, mv.songs[a]),
            decreases music_data.songs@.len() - s,
        {
            let song = &music_data.songs[s];
            proof {
                assert(song.deep_view() == mv.songs[s as int]);
            }
            let mut parts: Vec<RenderedPart> = Vec::new();
            let mut k: usize = 0;
            while k < song.len()
                invariant
                    k <= song@.len(),
                    s < music_data.songs@.len(),
                    mv == music_data.deep_view(),
                    song@ == music_data.songs@[s as int]@,
                    song.deep_view() == mv.songs[s as int],
                    parts@.len() == k as int,
                    forall|j: int|
                        0 <= j < k as int ==> part_rendered(mv, #[trigger] parts@[j],
                        mv.songs[s as int][j]),
                decreases song@.len() - k,
            {
                let part = &song[k];
                proof {
                    assert(part.deep_view() == mv.songs[s as int][k as int]);
                }
                let wave = match render(part, &music_data.operators, &music_data.algorithms,
                    SAMPLE_RATE) {
                    Ok(w) => w,
                    Err(e) => {
                        proof {
                            assert(mv.operators =~= music_data.operators@);
                            assert(mv.algorithms =~= music_data.algorithms.deep_view());
                        }
                        return Err(e);
                    },
                };
                proof {
                    assert(mv.operators =~= music_data.operators@);
                    assert(mv.algorithms =~= music_data.algorithms.deep_view());
                }
                parts.push(RenderedPart { voice_id: part.voice_id, wave });
                k += 1;
            }
            songs.push(parts);
            s += 1;
        }
        Ok(SbApp { max_voice_count: music_data.max_voice_count, songs })
    }

    /// The instructions that apply `kind` to every part of song `idx`, or the
    /// out-of-range error, with nothing performed, if no such song exists.
    fn song_actions(&self, idx: usize, kind: ActionKind) -> (r: Result<
        Vec<VoiceAction>,
        ControlError,
    >)
        ensures
            r is Ok <==> (idx as int) < self.songs@.len(),
            r matches Ok(v) ==> v@ == song_actions_spec(self.songs@[idx as int]@, kind),
            r matches Err(e) ==> e == ControlError::SongIndexOutOfRange,
    {
        if idx >= self.songs.len() {
            return Err(ControlError::SongIndexOutOfRange);
        }
        let song = &self.songs[idx];
        let mut v: Vec<VoiceAction> = Vec::new();
        let mut k: usize = 0;
        while k < song.len()
            invariant
                k <= song@.len(),
                idx < self.songs@.len(),
                song@ == self.songs@[idx as int]@,
                v@.len() == k as int,
                forall|j: int|
                    0 <= j < k as int ==> v@[j] == (VoiceAction {
                        voice_id: song@[j].voice_id,
                        kind,
                    }),
            decreases song@.len() - k,
        {
            v.push(VoiceAction { voice_id: song[k].voice_id, kind });
            k += 1;
        }
        proof {
            assert(v@ =~= song_actions_spec(self.songs@[idx as int]@, kind));
        }
        Ok(v)
    }

    /// Start playback of song `idx`: one `Play` instruction per part, in
    /// part order.  A song index at or beyond the song count returns the
    /// error instead, and no instruction — so no external channel operation
    /// — is produced.
    pub fn play(&self, idx: usize) -> (r: Result<Vec<VoiceAction>, ControlError>)
        ensures
            r is Ok <==> (idx as int) < self.songs@.len(),
            r matches Ok(v) ==> v@ == song_actions_spec(
                self.songs@[idx as int]@,
                ActionKind::Play,
            ),
            r matches Err(e) ==> e == ControlError::SongIndexOutOfRange,
    {
        self.song_actions(idx, ActionKind::Play)
    }

    /// Pause song `idx`, or the out-of-range error with nothing performed.
    pub fn pause(&self, idx: usize) -> (r: Result<Vec<VoiceAction>, ControlError>)
        ensures
            r is Ok <==> (idx as int) < self.songs@.len(),
            r matches Ok(v) ==> v@ == song_actions_spec(
                self.songs@[idx as int]@,
                ActionKind::Pause,
            ),
            r matches Err(e) ==> e == ControlError::SongIndexOutOfRange,
    {
        self.song_actions(idx, ActionKind::Pause)
    }

    /// Resume song `idx`, or the out-of-range error with nothing performed.
    pub fn resume(&self, idx: usize) -> (r: Result<Vec<VoiceAction>, ControlError>)
        ensures
            r is Ok <==> (idx as int) < self.songs@.len(),
            r matches Ok(v) ==> v@ == song_actions_spec(
                self.songs@[idx as int]@,
                ActionKind::Resume,
            ),
            r matches Err(e) ==> e == ControlError::SongIndexOutOfRange,
    {
        self.song_actions(idx, ActionKind::Resume)
    }

    /// Stop song `idx` (reset its players), or the out-of-range error with
    /// nothing performed.
    pub fn stop(&self, idx: usize) -> (r: Result<Vec<VoiceAction>, ControlError>)
        ensures
            r is Ok <==> (idx as int) < self.songs@.len(),
            r matches Ok(v) ==> v@ == song_actions_spec(
                self.songs@[idx as int]@,
                ActionKind::Reset,
            ),
            r matches Err(e) ==> e == ControlError::SongIndexOutOfRange,
    {
        self.song_actions(idx, ActionKind::Reset)
    }

    /// Tear the application down: release every part's channel handle, song
    /// by song in order, then every player exactly once.
    pub fn close(self) -> (r: Vec<VoiceAction>)
        ensures
            r@ == close_handles_to(self.songs@, self.songs@.len() as int) + player_close_actions(
                self.max_voice_count as int,
            ),
    {
        let mut v: Vec<VoiceAction> = Vec::new();
        let mut s: usize = 0;
        while s < self.songs.len()
            invariant
                s <= self.songs@.len(),
                v@ == close_handles_to(self.songs@, s as int),
            decreases self.songs@.len() - s,
        {
            let song = &self.songs[s];
            let mut k: usize = 0;
            while k < song.len()
                invariant
                    k <= song@.len(),
                    s < self.songs@.len(),
                    song@ == self.songs@[s as int]@,
                    v@ == close_handles_to(self.songs@, s as int) + song_actions_spec(
                        song@,
                        ActionKind::CloseHandle,
                    ).take(k as int),
                decreases song@.len() - k,
            {
                v.push(VoiceAction { voice_id: song[k].voice_id, kind: ActionKind::CloseHandle });
                proof {
                    assert(song_actions_spec(song@, ActionKind::CloseHandle).take(k as int).push(
                        VoiceAction { voice_id: song@[k as int].voice_id,
                        kind: ActionKind::CloseHandle }) =~= song_actions_spec(song@,
                        ActionKind::CloseHandle).take(k as int + 1));
                }
                k += 1;
            }
            proof {
                assert(song_actions_spec(song@, ActionKind::CloseHandle).take(song@.len() as int)
                    =~= song_actions_spec(song@, ActionKind::CloseHandle));
            }
            s += 1;
        }
        let mut p: u8 = 0;
        while p < self.max_voice_count
            invariant
                p <= self.max_voice_count,
                v@ == close_handles_to(self.songs@, self.songs@.len() as int)
                    + player_close_actions(p as int),
            decreases self.max_voice_count - p,
        {
            v.push(VoiceAction { voice_id: p, kind: ActionKind::ClosePlayer });
            proof {
                assert(player_close_actions(p as int).push(VoiceAction { voice_id: p,
                    kind: ActionKind::ClosePlayer }) =~= player_close_actions(p as int + 1));
            }
            p += 1;
        }
        v
    }

    /// The rendered parts of song `idx`, or the out-of-range error.
    pub fn get_parts(&self, idx: usize) -> (r: Result<&Vec<RenderedPart>, ControlError>)
        ensures
            r is Ok <==> (idx as int) < self.songs@.len(),
            r matches Ok(p) ==> p@ == self.songs@[idx as int]@,
            r matches Err(e) ==> e == ControlError::SongIndexOutOfRange,
    {
        if idx >= self.songs.len() {
            return Err(ControlError::SongIndexOutOfRange);
        }
        Ok(&self.songs[idx])
    }
}

} // verus!
