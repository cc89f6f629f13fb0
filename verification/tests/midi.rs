use bppt::error::ErrorKind;
use bppt::midi::{
    as_bytes, bpm_to_tempo, to_variable_length_bytes, Channel, Global, MidiEvent, MidiOp,
    Signature, Song,
};
use bppt::structure::Notes;

fn push(track: usize, wait: usize, event: MidiEvent) -> MidiOp {
    MidiOp::Push { track, wait, event }
}

fn channel(score: &str) -> Channel {
    Channel::new(7, 42, Notes::parse(score, "cCdDefFgGaAb").unwrap(), None, None)
}

#[test]
fn variable_length_quantities() {
    assert_eq!(to_variable_length_bytes(0), vec![0x00]);
    assert_eq!(to_variable_length_bytes(0x40), vec![0x40]);
    assert_eq!(to_variable_length_bytes(0x7F), vec![0x7F]);
    assert_eq!(to_variable_length_bytes(0x80), vec![0x81, 0x00]);
    assert_eq!(to_variable_length_bytes(0x2000), vec![0xC0, 0x00]);
    assert_eq!(to_variable_length_bytes(0x3FFF), vec![0xFF, 0x7F]);
    assert_eq!(to_variable_length_bytes(0x4000), vec![0x81, 0x80, 0x00]);
    assert_eq!(to_variable_length_bytes(0x1F_FFFF), vec![0xFF, 0xFF, 0x7F]);
    assert_eq!(to_variable_length_bytes(0x0FFF_FFFF), vec![0xFF, 0xFF, 0xFF, 0x7F]);
}

#[test]
fn a_file_frames_its_tracks() {
    let tracks = vec![
        vec![(0, vec![0x90, 60, 100]), (479, vec![0x80, 60, 0])],
        vec![],
    ];
    assert_eq!(
        as_bytes(1, 120, &tracks),
        Some(vec![
            b'M', b'T', b'h', b'd', 0, 0, 0, 6, 0, 1, 0, 2, 0, 120, // header
            b'M', b'T', b'r', b'k', 0, 0, 0, 13, // first track
            0, 0x90, 60, 100, 0x83, 0x5F, 0x80, 60, 0, 0, 0xFF, 0x2F, 0, // its events
            b'M', b'T', b'r', b'k', 0, 0, 0, 4, 0, 0xFF, 0x2F, 0, // second track
        ])
    );
    assert_eq!(
        as_bytes(0x0102, 0x0304, &vec![]),
        Some(vec![b'M', b'T', b'h', b'd', 0, 0, 0, 6, 1, 2, 0, 0, 3, 4])
    );
    assert_eq!(as_bytes(1, 120, &vec![vec![]; 65536]), None);
    assert!(as_bytes(1, 120, &vec![vec![]; 65535]).is_some());
}

#[test]
fn the_length_of_a_track_takes_four_bytes() {
    let tracks = vec![vec![(0, vec![1; 0x01_02_03 - 5])]];
    let bytes = as_bytes(1, 120, &tracks).unwrap();
    assert_eq!(&bytes[14..22], &[b'M', b'T', b'r', b'k', 0, 1, 2, 3]);
    assert_eq!(bytes.len(), 22 + 0x01_02_03);
}

#[test]
fn tempo_is_microseconds_per_quarter_note() {
    assert_eq!(bpm_to_tempo(120), 500_000);
    assert_eq!(bpm_to_tempo(60), 1_000_000);
    assert_eq!(bpm_to_tempo(7), 8_571_428);
    assert_eq!(bpm_to_tempo(u16::MAX), 915);
}

#[test]
fn signatures_are_read_as_written() {
    assert_eq!(Signature::parse("3/4"), Some(Signature::new(3, 4)));
    assert_eq!(Signature::parse("12/8"), Some(Signature { numerator: 12, denominator: 8 }));
    assert_eq!(Signature::parse("255/0"), Some(Signature::new(255, 0)));
    assert_eq!(Signature::parse("6/8/anything"), Some(Signature::new(6, 8)));
    assert_eq!(Signature::parse("256/4"), None);
    assert_eq!(Signature::parse("4/256"), None);
    assert_eq!(Signature::parse("4"), None);
    assert_eq!(Signature::parse("4/"), None);
    assert_eq!(Signature::parse("/4"), None);
    assert_eq!(Signature::parse("3 / 4"), None);
    assert_eq!(Signature::parse("3/4x"), None);
    assert_eq!(Signature::parse(""), None);
}

#[test]
fn a_channel_sets_itself_up() {
    assert_eq!(
        channel("c").setup(),
        vec![
            push(0, 0, MidiEvent::AllControllersOff(0)),
            push(0, 0, MidiEvent::ProgramChange(7, 42)),
            push(0, 0, MidiEvent::EffectsLevel(0, 0)),
            push(0, 0, MidiEvent::ChorusLevel(0, 0)),
        ]
    );
    let loud = Channel::new(1, 2, Notes::parse("", "").unwrap(), Some(90), Some(64));
    assert_eq!(
        loud.setup(),
        vec![
            push(0, 0, MidiEvent::AllControllersOff(0)),
            push(0, 0, MidiEvent::ProgramChange(1, 2)),
            push(0, 0, MidiEvent::Volume(0, 90)),
            push(0, 0, MidiEvent::Pan(0, 64)),
            push(0, 0, MidiEvent::EffectsLevel(0, 0)),
            push(0, 0, MidiEvent::ChorusLevel(0, 0)),
        ]
    );
}

#[test]
fn a_quarter_note_lasts_480_ticks() {
    assert_eq!(
        channel("c").render(3).map_err(|e| e.kind),
        Ok(vec![
            push(3, 0, MidiEvent::NoteOn(0, 60, 100)),
            push(3, 479, MidiEvent::NoteOff(0, 60, 0)),
            push(3, 1, MidiEvent::EndOfTrack),
        ])
    );
}

#[test]
fn rests_delay_what_follows() {
    assert_eq!(
        channel(". $8 . !80 @5 d . [ccc] $2 .").render(0).map_err(|e| e.kind),
        Ok(vec![
            push(0, 480 + 240, MidiEvent::NoteOn(0, 12 * 6 + 2, 80)),
            push(0, 239, MidiEvent::NoteOff(0, 12 * 6 + 2, 0)),
            push(0, 1 + 240, MidiEvent::NoteOn(0, 72, 80)),
            push(0, 79, MidiEvent::NoteOff(0, 72, 0)),
            push(0, 1, MidiEvent::NoteOn(0, 72, 80)),
            push(0, 79, MidiEvent::NoteOff(0, 72, 0)),
            push(0, 1, MidiEvent::NoteOn(0, 72, 80)),
            push(0, 79, MidiEvent::NoteOff(0, 72, 0)),
            push(0, 1 + 960, MidiEvent::EndOfTrack),
        ])
    );
    assert_eq!(
        channel("").render(9).map_err(|e| e.kind),
        Ok(vec![push(9, 0, MidiEvent::EndOfTrack)])
    );
}

#[test]
fn notes_beyond_the_keys_are_refused() {
    assert_eq!(
        channel("@9 g").render(0).map_err(|e| e.kind),
        Ok(vec![
            push(0, 0, MidiEvent::NoteOn(0, 127, 100)),
            push(0, 479, MidiEvent::NoteOff(0, 127, 0)),
            push(0, 1, MidiEvent::EndOfTrack),
        ])
    );
    let failed = channel("@9 G").render(0).unwrap_err();
    assert_eq!(
        (failed.kind, failed.at, failed.channel),
        (ErrorKind::NoteOutOfRange, None, None)
    );
    let failed = channel("$3 '").render(0).unwrap_err();
    assert_eq!(
        (failed.kind, failed.at, failed.channel),
        (ErrorKind::LengthUnderflow, Some(1), None)
    );
}

#[test]
fn a_song_renders_its_channels_on_their_tracks() {
    let global = Global {
        bpm: 120,
        soundfont: "font.sf2".to_string(),
        signature: Some(Signature::new(3, 4)),
        key: Some("Am".to_string()),
    };
    let song = Song::new(
        global,
        vec![
            ("lead".to_string(), channel("c")),
            ("bass".to_string(), channel("$2 .")),
        ],
    );
    assert_eq!(
        song.setup(),
        vec![
            MidiOp::Insert { track: 0, tick: 0, event: MidiEvent::TrackName("lead".to_string()) },
            push(0, 0, MidiEvent::TimeSignature(3, 2, 24, 8)),
            push(0, 0, MidiEvent::KeySignature("Am".to_string())),
            push(0, 0, MidiEvent::SetTempo(500_000)),
            push(0, 0, MidiEvent::AllControllersOff(0)),
            push(0, 0, MidiEvent::ProgramChange(7, 42)),
            push(0, 0, MidiEvent::EffectsLevel(0, 0)),
            push(0, 0, MidiEvent::ChorusLevel(0, 0)),
        ]
    );
    let mut expected = song.setup();
    expected.extend(song.channels[0].1.render(0).unwrap());
    expected.push(MidiOp::Insert {
        track: 1,
        tick: 0,
        event: MidiEvent::TrackName("bass".to_string()),
    });
    expected.extend(song.channels[1].1.setup());
    expected.extend(vec![push(1, 960, MidiEvent::EndOfTrack)]);
    assert_eq!(song.render().map_err(|e| e.kind), Ok(expected));
}

#[test]
fn a_song_without_channels_takes_no_step() {
    let global = Global { bpm: 90, soundfont: String::new(), signature: None, key: None };
    assert_eq!(Song::new(global, vec![]).render().map_err(|e| e.kind), Ok(vec![]));
}

#[test]
fn the_first_channel_that_fails_fails_the_song() {
    let global = Global { bpm: 90, soundfont: String::new(), signature: None, key: None };
    let song = Song::new(
        global,
        vec![
            ("one".to_string(), channel("c")),
            ("two".to_string(), channel("!255 ^")),
            ("three".to_string(), channel("@1 <")),
        ],
    );
    let failed = song.render().unwrap_err();
    assert_eq!(
        (failed.kind, failed.at, failed.channel),
        (ErrorKind::VolumeOverflow, Some(1), Some(1))
    );
}
