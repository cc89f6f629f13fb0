use bppt::decoder::{duration_of, prolonged, render, Decoder};
use bppt::error::{Error, ErrorKind};
use bppt::structure::{Atom, Notes};
use bppt::timing::{DecoderState, Event, Slot, SAMPLE_RATE, WHOLE_NOTE};

fn ramp(duration: usize, note: u8, octave: u8, volume: u8) -> Vec<i32> {
    (0..duration)
        .map(|i| {
            i as i32 + 1000 * note as i32 + 100_000 * octave as i32 + 10_000_000 * volume as i32
        })
        .collect()
}

fn notes(set: &str, score: &str) -> Notes {
    Notes::parse(score, set).unwrap()
}

#[test]
fn constants_are_those_of_the_sample_rate() {
    assert_eq!(SAMPLE_RATE, 48000);
    assert_eq!(WHOLE_NOTE, 48000 * 4 * 60);
}

#[test]
fn a_fresh_decoder_is_in_its_default_state() {
    assert_eq!(
        Decoder::new(120).state(),
        DecoderState { bpm: 120, octave: 3, length: 4, volume: 100, remainder: 0, tup: 1 }
    );
}

#[test]
fn quarter_note_at_sixty_lasts_one_second() {
    let score = notes("aAbcCdDefFgG", "@4$4!100 a");
    let mut decoder = Decoder::new(60);
    let events = decoder.schedule(&score).unwrap();
    assert_eq!(
        events,
        vec![Event::Note { duration: 48000, note: 0, octave: 3, volume: 100 }]
    );
    assert_eq!(decoder.state().remainder, 0);
    let samples = render(&events, &ramp);
    assert_eq!(samples.len(), 48000);
    assert_eq!(samples[0], 10_000_000 * 100 + 100_000 * 3);
    assert_eq!(samples[47999], 10_000_000 * 100 + 100_000 * 3 + 47999);
}

#[test]
fn a_rest_is_silence() {
    let score = notes("aAbcCdDefFgG", "@4$4!100 .");
    let samples = Decoder::new(60).decode(&score, &ramp).unwrap();
    assert_eq!(samples.len(), 48000);
    assert!(samples.iter().all(|s| *s == 0));
}

#[test]
fn triplet_fills_one_beat() {
    let score = notes("abc", "[abc]");
    let mut decoder = Decoder::new(60);
    let events = decoder.schedule(&score).unwrap();
    assert_eq!(
        events,
        vec![
            Event::Note { duration: 16000, note: 0, octave: 3, volume: 100 },
            Event::Note { duration: 16000, note: 1, octave: 3, volume: 100 },
            Event::Note { duration: 16000, note: 2, octave: 3, volume: 100 },
        ]
    );
    assert_eq!(decoder.state().remainder, 0);
    assert_eq!(decoder.state().tup, 3);
}

#[test]
fn real_length_follows_the_exact_rule() {
    let mut decoder = Decoder::new(7);
    // 11_520_000 / (7 * 4 * 1) = 411_428 and 16 are left over
    assert_eq!(decoder.real_length().map_err(|e| e.kind), Ok(411_428));
    assert_eq!(decoder.state().remainder, 16);
    // (11_520_000 + 16) / 28 = 411_429 and 4 are left over
    assert_eq!(decoder.real_length().map_err(|e| e.kind), Ok(411_429));
    assert_eq!(decoder.state().remainder, 4);
}

#[test]
fn the_remainder_is_carried_from_note_to_note() {
    // nine notes of length 3 at 77 beats: 11_520_000 / 231 leaves 30 over each time,
    // and the eighth note gets the sample that the first seven left over
    let score = notes("a", "$3 aaaaaaaaa");
    let mut decoder = Decoder::new(77);
    let events = decoder.schedule(&score).unwrap();
    let durations: Vec<usize> = events.iter().map(duration_of).collect();
    assert_eq!(
        durations,
        vec![49870, 49870, 49870, 49870, 49870, 49870, 49870, 49871, 49870]
    );
    let total: usize = durations.iter().sum();
    assert_eq!(decoder.state().remainder, 39);
    assert_eq!(total * 231 + decoder.state().remainder, 9 * 11_520_000);
    assert_eq!(total, 9 * 11_520_000 / 231);
}

#[test]
fn drift_stays_below_one_sample_over_many_notes() {
    let score = notes("a", "$7 (1000a)");
    let mut decoder = Decoder::new(113);
    let events = decoder.schedule(&score).unwrap();
    assert_eq!(events.len(), 1000);
    let total: usize = events.iter().map(duration_of).sum();
    let den = 113 * 7;
    assert_eq!(total, 1000 * 11_520_000 / den);
    assert!(1000 * 11_520_000 - total * den < den);
}

#[test]
fn commands_change_the_state() {
    let score = notes("abc", "@7 $16 !3 > > < ^ _ _ ` ' ' c");
    let mut decoder = Decoder::new(100);
    let events = decoder.schedule(&score).unwrap();
    assert_eq!(
        events,
        vec![Event::Note { duration: 11_520_000 / (100 * 8), note: 2, octave: 7, volume: 2 }]
    );
    let state = decoder.state();
    assert_eq!((state.octave, state.length, state.volume), (7, 8, 2));
}

#[test]
fn step_reads_one_atom() {
    let mut decoder = Decoder::new(60);
    assert_eq!(decoder.step(&Atom::O(1)).map_err(|e| e.kind), Ok(None));
    let mut high = Decoder::new(60);
    high.step(&Atom::O(255)).unwrap();
    high.step(&Atom::OIncr).unwrap();
    let failed = high.step(&Atom::OIncr).unwrap_err();
    assert_eq!((failed.kind, failed.at, failed.channel), (ErrorKind::OctaveOverflow, None, None));
    assert_eq!(decoder.state().octave, 0);
    assert_eq!(decoder.step(&Atom::L(2)).map_err(|e| e.kind), Ok(None));
    assert_eq!(decoder.step(&Atom::N(5, 2)).map_err(|e| e.kind), Ok(Some(Slot::Note(48000, 5))));
    assert_eq!(decoder.step(&Atom::Rest(1)).map_err(|e| e.kind), Ok(Some(Slot::Rest(96000))));
    assert_eq!(decoder.step(&Atom::More).map_err(|e| e.kind), Ok(Some(Slot::Tie(96000))));
    assert_eq!(decoder.state().tup, 1);
}

#[test]
fn length_overflow_and_underflow_are_errors() {
    let mut decoder = Decoder::new(60);
    let failed = decoder.schedule(&notes("a", "$128 ` a")).unwrap_err();
    assert_eq!(failed.kind, ErrorKind::LengthOverflow);
    assert_eq!(failed.at, Some(1));
    assert_eq!(failed.channel, None);
    assert_eq!(decoder.state().length, 128);
    let mut decoder = Decoder::new(60);
    assert_eq!(
        decoder.schedule(&notes("a", "$127 `")).map_err(|e| e.kind),
        Ok(vec![])
    );
    assert_eq!(decoder.state().length, 254);
    let mut decoder = Decoder::new(60);
    let failed = decoder.schedule(&notes("a", "$6 ' ' a")).unwrap_err();
    assert_eq!(failed.kind, ErrorKind::LengthUnderflow);
    assert_eq!(failed.at, Some(2));
    assert_eq!(decoder.state().length, 3);
    let failed = Decoder::new(60).schedule(&notes("a", "a (3 a [aa] ^) !255 (2a^)")).unwrap_err();
    assert_eq!(failed.kind, ErrorKind::VolumeOverflow);
    assert_eq!(failed.at, Some(1 + 3 * 4 + 1 + 1));
    let failed = Decoder::new(60).decode(&notes("a", "$1 '"), &ramp).unwrap_err();
    assert_eq!(failed.kind, ErrorKind::LengthUnderflow);
}

#[test]
fn octave_and_volume_stay_in_range() {
    let kind = |score: &str| Decoder::new(60).schedule(&notes("a", score)).unwrap_err().kind;
    assert_eq!(kind("@255 > >"), ErrorKind::OctaveOverflow);
    assert_eq!(kind("@1 <"), ErrorKind::OctaveUnderflow);
    assert_eq!(kind("!255 ^"), ErrorKind::VolumeOverflow);
    assert_eq!(kind("!0 _"), ErrorKind::VolumeUnderflow);
    assert!(Decoder::new(60).schedule(&notes("a", "@255 > !254 ^ @2 < !1 _")).is_ok());
}

#[test]
fn numbers_that_do_not_fit_are_timing_overflows() {
    let score = Notes::new(1, vec![Atom::N(0, usize::MAX)]).unwrap();
    let mut decoder = Decoder::new(60);
    let failed = decoder.schedule(&score).unwrap_err();
    assert_eq!(failed.kind, ErrorKind::TimingOverflow);
    assert_eq!(failed.msg, "a duration does not fit the machine");
    assert_eq!(decoder.state().tup, 1);
    // the largest divisor that still fits: the note lasts no sample, and all is carried
    let score = Notes::new(1, vec![Atom::N(0, usize::MAX / 240), Atom::N(0, 1)]).unwrap();
    let mut decoder = Decoder::new(60);
    let events = decoder.schedule(&score).unwrap();
    assert_eq!(
        events,
        vec![Event::Note { duration: 96000, note: 0, octave: 3, volume: 100 }]
    );
    assert_eq!(decoder.state().remainder, 0);
    let score = Notes::new(1, vec![Atom::Rest(usize::MAX / 240 + 1)]).unwrap();
    assert_eq!(
        Decoder::new(60).schedule(&score).unwrap_err().kind,
        ErrorKind::TimingOverflow
    );
}

#[test]
fn notes_shorter_than_a_sample_are_skipped() {
    let score = Notes::new(1, vec![Atom::N(0, 11_520_000), Atom::N(0, 1)]).unwrap();
    let mut decoder = Decoder::new(60);
    let events = decoder.schedule(&score).unwrap();
    // the first note lasts 11_520_000 / (240 * 11_520_000) = 0 samples and leaves all of it over
    assert_eq!(
        events,
        vec![Event::Note { duration: 96000, note: 0, octave: 3, volume: 100 }]
    );
    assert_eq!(render(&events, &ramp).len(), 96000);
}

#[test]
fn a_tie_prolongs_what_sounded_last() {
    let score = Notes::new(
        2,
        vec![
            Atom::N(0, 1),
            Atom::More,
            Atom::V(7),
            Atom::More,
            Atom::N(1, 1),
            Atom::Rest(1),
            Atom::More,
        ],
    )
    .unwrap();
    let events = Decoder::new(60).schedule(&score).unwrap();
    assert_eq!(
        events,
        vec![
            Event::Note { duration: 3 * 48000, note: 0, octave: 3, volume: 100 },
            Event::Note { duration: 48000, note: 1, octave: 3, volume: 7 },
            Event::Rest { duration: 2 * 48000 },
        ]
    );
    let score = Notes::new(2, vec![Atom::More, Atom::N(0, 1)]).unwrap();
    let events = Decoder::new(60).schedule(&score).unwrap();
    assert_eq!(
        events,
        vec![
            Event::Rest { duration: 48000 },
            Event::Note { duration: 48000, note: 0, octave: 3, volume: 100 },
        ]
    );
}

#[test]
fn render_asks_the_generator_for_each_note() {
    let events = vec![
        Event::Note { duration: 2, note: 1, octave: 2, volume: 3 },
        Event::Rest { duration: 3 },
        Event::Note { duration: 0, note: 9, octave: 9, volume: 9 },
        Event::Note { duration: 1, note: 0, octave: 0, volume: 1 },
    ];
    assert_eq!(
        render(&events, &ramp),
        vec![30_201_000, 30_201_001, 0, 0, 0, 10_000_000]
    );
    assert_eq!(render(&vec![], &ramp), vec![]);
}

#[test]
fn events_have_durations() {
    let note = Event::Note { duration: 5, note: 1, octave: 2, volume: 3 };
    assert_eq!(duration_of(&note), 5);
    assert_eq!(duration_of(&Event::Rest { duration: 9 }), 9);
    assert_eq!(
        prolonged(&note, 8),
        Event::Note { duration: 8, note: 1, octave: 2, volume: 3 }
    );
    assert_eq!(prolonged(&Event::Rest { duration: 9 }, 1), Event::Rest { duration: 1 });
}

#[test]
fn decoder_errors_read_as_sentences() {
    assert_eq!(
        Error::of(ErrorKind::LengthOverflow).describe(),
        "LengthOverflow: length overflow, the length cannot be doubled"
    );
    assert_eq!(
        Error::new(ErrorKind::Unimplemented, "ties across tracks").describe(),
        "Unimplemented: ties across tracks"
    );
    assert_eq!(
        Error::of(ErrorKind::VolumeUnderflow).at_atom(12).describe(),
        "VolumeUnderflow: volume underflow, already at the lowest volume at atom 12"
    );
    assert_eq!(
        Error::of(ErrorKind::TimingOverflow).in_channel(3).describe(),
        "TimingOverflow: a duration does not fit the machine in channel 3"
    );
    assert_eq!(
        Error::new(ErrorKind::NoteOutOfRange, "too high").at_atom(0).in_channel(10).describe(),
        "NoteOutOfRange: too high at atom 0 in channel 10"
    );
    for kind in [
        ErrorKind::Unimplemented,
        ErrorKind::LengthOverflow,
        ErrorKind::LengthUnderflow,
        ErrorKind::OctaveOverflow,
        ErrorKind::OctaveUnderflow,
        ErrorKind::VolumeOverflow,
        ErrorKind::VolumeUnderflow,
        ErrorKind::TimingOverflow,
        ErrorKind::NoteOutOfRange,
    ] {
        let error = Error::of(kind);
        assert_eq!(error.kind, kind);
        assert_eq!(
            error.describe(),
            format!("{:?}: {}", kind, error.msg)
        );
    }
}
