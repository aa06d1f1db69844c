use soundbox::dat::{decode, Algorithm, MusicModel, NoteEvent, Operator, Part, Slot, Waveform};
use soundbox::{ActionKind, ControlError, SbApp};

fn two_song_model() -> MusicModel {
    let op = Operator {
        waveform: Waveform::Sine,
        frequency_ratio: 256,
        amplitude: 1024,
        feedback: 0,
        attack: 0,
        decay: 0,
        sustain: 1024,
        release: 0,
    };
    let algo = Algorithm { slots: vec![Slot { target: 255, carrier: true, feedback: false }] };
    let note = |pitch: u16| NoteEvent {
        pitch,
        duration: 100,
        velocity: 800,
        algorithm_ref: 0,
        operator_refs: vec![0],
    };
    MusicModel {
        max_voice_count: 2,
        operators: vec![op],
        algorithms: vec![algo],
        songs: vec![
            vec![
                Part { voice_id: 0, score: vec![note(440)] },
                Part { voice_id: 1, score: vec![note(660)] },
            ],
            vec![Part { voice_id: 1, score: vec![note(880)] }],
        ],
    }
}

#[test]
fn construction_renders_every_part() {
    let app = SbApp::new(two_song_model()).unwrap();
    assert_eq!(app.max_voice_count, 2);
    assert_eq!(app.songs.len(), 2);
    assert_eq!(app.songs[0].len(), 2);
    assert_eq!(app.songs[1].len(), 1);
    assert_eq!(app.songs[0][0].voice_id, 0);
    assert_eq!(app.songs[0][0].wave.len(), 100);
    assert_eq!(app.songs[1][0].voice_id, 1);
}

#[test]
fn construction_from_decoded_bytes() {
    let bytes: Vec<u8> = vec![1, 0, 0, 1, 0];
    // one voice, no operators or algorithms, one song with no parts
    let model = decode(&bytes).unwrap();
    let app = SbApp::new(model).unwrap();
    assert_eq!(app.songs.len(), 1);
    assert_eq!(app.songs[0].len(), 0);
}

#[test]
fn play_returns_one_action_per_part() {
    let app = SbApp::new(two_song_model()).unwrap();
    let actions = app.play(0).unwrap();
    assert_eq!(actions.len(), 2);
    assert_eq!(actions[0].voice_id, 0);
    assert_eq!(actions[0].kind, ActionKind::Play);
    assert_eq!(actions[1].voice_id, 1);
    assert_eq!(actions[1].kind, ActionKind::Play);
}

#[test]
fn out_of_range_song_is_an_error_with_no_actions() {
    let app = SbApp::new(two_song_model()).unwrap();
    assert_eq!(app.play(2), Err(ControlError::SongIndexOutOfRange));
    assert_eq!(app.pause(2), Err(ControlError::SongIndexOutOfRange));
    assert_eq!(app.resume(7), Err(ControlError::SongIndexOutOfRange));
    assert_eq!(app.stop(usize::MAX), Err(ControlError::SongIndexOutOfRange));
}

#[test]
fn transport_kinds_match_their_methods() {
    let app = SbApp::new(two_song_model()).unwrap();
    assert!(app.pause(1).unwrap().iter().all(|a| a.kind == ActionKind::Pause));
    assert!(app.resume(1).unwrap().iter().all(|a| a.kind == ActionKind::Resume));
    assert!(app.stop(1).unwrap().iter().all(|a| a.kind == ActionKind::Reset));
}

#[test]
fn get_parts_returns_the_songs_parts() {
    let app = SbApp::new(two_song_model()).unwrap();
    let parts = app.get_parts(1).unwrap();
    assert_eq!(parts.len(), 1);
    assert_eq!(parts[0].voice_id, 1);
    assert_eq!(app.get_parts(2).unwrap_err(), ControlError::SongIndexOutOfRange);
}

#[test]
fn end_to_end_from_bytes() {
    // One voice, one sine operator with a flat envelope, one single-carrier
    // algorithm, one song with one part playing 100 ms of 440 Hz.
    let mut bytes: Vec<u8> = vec![1, 1, 1, 1];
    bytes.extend_from_slice(&[0, 0, 1, 0, 4, 0, 0, 0, 0, 0, 0, 0, 4, 0, 0]);
    bytes.extend_from_slice(&[1, 255, 1]);
    bytes.extend_from_slice(&[1, 0, 1, 0]);
    bytes.extend_from_slice(&[184, 1, 58, 17, 0, 0, 0, 4, 0, 0]);
    let model = decode(&bytes).unwrap();
    let app = SbApp::new(model).unwrap();
    assert_eq!(app.songs.len(), 1);
    assert_eq!(app.songs[0][0].wave.len(), 4410);
    let actions = app.play(0).unwrap();
    assert_eq!(actions.len(), 1);
    assert_eq!(actions[0].voice_id, 0);
    assert_eq!(actions[0].kind, ActionKind::Play);
}

#[test]
fn close_releases_every_handle_then_every_player() {
    let app = SbApp::new(two_song_model()).unwrap();
    let actions = app.close();
    assert_eq!(actions.len(), 3 + 2);
    assert_eq!(actions[0].kind, ActionKind::CloseHandle);
    assert_eq!(actions[0].voice_id, 0);
    assert_eq!(actions[1].kind, ActionKind::CloseHandle);
    assert_eq!(actions[1].voice_id, 1);
    assert_eq!(actions[2].kind, ActionKind::CloseHandle);
    assert_eq!(actions[2].voice_id, 1);
    assert_eq!(actions[3].kind, ActionKind::ClosePlayer);
    assert_eq!(actions[3].voice_id, 0);
    assert_eq!(actions[4].kind, ActionKind::ClosePlayer);
    assert_eq!(actions[4].voice_id, 1);
}
