use gitfugue::{
    can_render, encode_tracks, finish_write, midi_tracks, render_midi, ChannelMessage, Key, Message,
    Meta, MidiEvent, NoteEvent, Scale, Score, Voice,
};
use midly::{MetaMessage, MidiMessage, Smf, Timing, TrackEventKind};

fn tiny_score() -> Score {
    Score {
        bpm_base: 90,
        key: Key { root: 0 },
        scale: Scale::MajorPentatonic,
        voices: vec![Voice {
            name: "piano".into(),
            channel: 0,
            program: 0,
        }],
        events: vec![
            NoteEvent { voice: 0, pitch: 60, start: 0, dur: 480, velocity: 80 },
            NoteEvent { voice: 0, pitch: 64, start: 480, dur: 480, velocity: 80 },
        ],
        tempo_map: vec![(0, 90)],
        program_changes: vec![],
        liner_notes: vec![],
        seed: 42,
    }
}

fn meta(delta: u32, meta: Meta) -> MidiEvent {
    MidiEvent { delta, message: Message::Meta(meta) }
}

fn note(delta: u32, channel: u8, message: ChannelMessage) -> MidiEvent {
    MidiEvent { delta, message: Message::Channel { channel, message } }
}

#[test]
fn roundtrips_through_midly() {
    let bytes = render_midi(&tiny_score()).unwrap();
    let parsed = Smf::parse(&bytes).unwrap();
    assert_eq!(parsed.tracks.len(), 2);
}

#[test]
fn byte_identical_rendering() {
    let a = render_midi(&tiny_score()).unwrap();
    let b = render_midi(&tiny_score()).unwrap();
    assert_eq!(a, b);
}

#[test]
fn tracks_hold_the_score() {
    let tracks = midi_tracks(&tiny_score());
    let stamp = "gitfugue v0.1.0 seed=000000000000002a key=C major pentatonic bpm=90";
    assert_eq!(
        tracks[0],
        [
            meta(0, Meta::Text(stamp.to_string())),
            meta(0, Meta::TimeSignature(4, 2, 24, 8)),
            meta(0, Meta::Tempo(666_666)),
            meta(0, Meta::EndOfTrack),
        ]
    );
    assert_eq!(
        tracks[1],
        [
            meta(0, Meta::TrackName("piano".to_string())),
            note(0, 0, ChannelMessage::ProgramChange { program: 0 }),
            note(0, 0, ChannelMessage::NoteOn { key: 60, velocity: 80 }),
            note(480, 0, ChannelMessage::NoteOff { key: 60, velocity: 0 }),
            note(0, 0, ChannelMessage::NoteOn { key: 64, velocity: 80 }),
            note(480, 0, ChannelMessage::NoteOff { key: 64, velocity: 0 }),
            meta(0, Meta::EndOfTrack),
        ]
    );
}

#[test]
fn the_file_says_what_the_tracks_say() {
    let mut score = tiny_score();
    score.tempo_map.push((1920, 100));
    score.voices.push(Voice { name: "hi-hat".into(), channel: 9, program: 115 });
    score.events.push(NoteEvent { voice: 1, pitch: 42, start: 1000, dur: 120, velocity: 60 });
    let bytes = render_midi(&score).unwrap();
    assert_eq!(&bytes[..14], b"MThd\x00\x00\x00\x06\x00\x01\x00\x03\x01\xe0");
    let smf = Smf::parse(&bytes).unwrap();
    assert_eq!(smf.header.timing, Timing::Metrical(480.into()));
    assert_eq!(smf.tracks[0][2].kind, TrackEventKind::Meta(MetaMessage::Tempo(666_666.into())));
    assert_eq!(smf.tracks[0][3].delta.as_int(), 1920);
    assert_eq!(smf.tracks[0][3].kind, TrackEventKind::Meta(MetaMessage::Tempo(600_000.into())));
    assert_eq!(smf.tracks[1][0].kind, TrackEventKind::Meta(MetaMessage::TrackName(b"piano")));
    assert_eq!(smf.tracks[2][2].delta.as_int(), 1000);
    assert_eq!(
        smf.tracks[2][2].kind,
        TrackEventKind::Midi {
            channel: 9.into(),
            message: MidiMessage::NoteOn { key: 42.into(), vel: 60.into() },
        }
    );
    assert_eq!(smf.tracks[2][3].delta.as_int(), 120);
}

#[test]
fn a_repeated_pitch_does_not_stick() {
    let mut score = tiny_score();
    score.events = vec![
        NoteEvent { voice: 0, pitch: 60, start: 0, dur: 480, velocity: 80 },
        NoteEvent { voice: 0, pitch: 60, start: 480, dur: 480, velocity: 70 },
        NoteEvent { voice: 0, pitch: 55, start: 480, dur: 0, velocity: 200 },
    ];
    score.program_changes = vec![(480, 0, 200), (480, 7, 3)];
    let tracks = midi_tracks(&score);
    assert_eq!(
        tracks[1][2..],
        [
            note(0, 0, ChannelMessage::NoteOn { key: 60, velocity: 80 }),
            note(480, 0, ChannelMessage::NoteOff { key: 60, velocity: 0 }),
            note(0, 0, ChannelMessage::ProgramChange { program: 127 }),
            note(0, 0, ChannelMessage::NoteOn { key: 55, velocity: 127 }),
            note(0, 0, ChannelMessage::NoteOn { key: 60, velocity: 70 }),
            note(1, 0, ChannelMessage::NoteOff { key: 55, velocity: 0 }),
            note(479, 0, ChannelMessage::NoteOff { key: 60, velocity: 0 }),
            meta(0, Meta::EndOfTrack),
        ]
    );
}

#[test]
fn scores_that_cannot_be_written_are_told() {
    assert!(can_render(&tiny_score()));
    let mut zero = tiny_score();
    zero.tempo_map = vec![(0, 0)];
    assert!(!can_render(&zero));
    let mut back = tiny_score();
    back.tempo_map = vec![(480, 90), (0, 91)];
    assert!(!can_render(&back));
    let mut late = tiny_score();
    late.events[0].start = u32::MAX;
    late.events[0].dur = 0;
    assert!(!can_render(&late));
    late.events[0].voice = 1;
    assert!(can_render(&late));
}

#[test]
fn numbers_lose_the_bits_that_have_no_room() {
    let tracks = vec![vec![
        meta(0x1000_0005, Meta::Tempo(0x100_0007)),
        note(0, 17, ChannelMessage::NoteOn { key: 129, velocity: 130 }),
    ]];
    let bytes = encode_tracks(96, &tracks).unwrap();
    let smf = Smf::parse(&bytes).unwrap();
    assert_eq!(smf.tracks[0][0].delta.as_int(), 5);
    assert_eq!(smf.tracks[0][0].kind, TrackEventKind::Meta(MetaMessage::Tempo(7.into())));
    assert_eq!(
        smf.tracks[0][1].kind,
        TrackEventKind::Midi {
            channel: 1.into(),
            message: MidiMessage::NoteOn { key: 1.into(), vel: 2.into() },
        }
    );
}

#[test]
fn too_many_tracks_are_refused() {
    let tracks: Vec<Vec<MidiEvent>> = (0..65536).map(|_| Vec::new()).collect();
    assert_eq!(
        encode_tracks(480, &tracks).unwrap_err(),
        "MIDI write failed: track count exceeds 16 bit range"
    );
}

#[test]
fn a_write_is_finished_as_it_went() {
    assert_eq!(finish_write(Ok(vec![1, 2])).unwrap(), [1, 2]);
    assert_eq!(finish_write(Err("no room")).unwrap_err(), "MIDI write failed: no room");
}

#[test]
fn a_file_is_as_long_as_its_events() {
    let on = |delta: u32, channel: u8, key: u8| MidiEvent {
        delta,
        message: Message::Channel {
            channel,
            message: ChannelMessage::NoteOn { key, velocity: 64 },
        },
    };
    let end = || MidiEvent { delta: 0, message: Message::Meta(Meta::EndOfTrack) };
    let size = |events: Vec<MidiEvent>| encode_tracks(480, &vec![events]).unwrap().len() - 22;
    // The end takes four bytes, and a note its ticks, its status and two bytes.
    assert_eq!(size(vec![end()]), 4);
    assert_eq!(size(vec![on(0, 1, 60), end()]), 8);
    // A note of the same kind to the same channel does not tell its status again.
    assert_eq!(size(vec![on(0, 1, 60), on(0, 1, 64), end()]), 11);
    assert_eq!(size(vec![on(0, 1, 60), on(0, 2, 64), end()]), 12);
    // Ticks take one to four bytes.
    for (delta, bytes) in [(127u32, 1), (128, 2), (16_383, 2), (16_384, 3), (2_097_151, 3), (2_097_152, 4), (0xfff_ffff, 4)] {
        assert_eq!(size(vec![on(delta, 1, 60), end()]), 7 + bytes);
    }
    let text = |n: usize| MidiEvent {
        delta: 0,
        message: Message::Meta(Meta::Text("x".repeat(n))),
    };
    assert_eq!(size(vec![text(100), end()]), 4 + 100 + 4);
    assert_eq!(size(vec![text(200), end()]), 5 + 200 + 4);
}
