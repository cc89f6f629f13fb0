use crate::decoder::{raised, Decoder};
use crate::error::{in_channel, placeless, Error, ErrorKind, ErrorView};
use crate::flatten::flatten;
use crate::grammar::{digits, lemma_digits_bound, number};
use crate::parsing::{chars_of, read_number};
use crate::structure::Notes;
use crate::timing::{finished, fresh, run, stop, Event, Run};
use vstd::prelude::*;
use vstd::slice::slice_subrange;

verus! {

/// Ticks of a whole note in a rendered song.
pub const TICKS_PER_WHOLE_NOTE: usize = 1920;

/// The tempo at which the decoder counts ticks: at this many beats per
/// minute, a whole note lasts as many samples as it has ticks.
pub const TICK_TEMPO: u16 = 6000;

/// The highest key of MIDI.
pub const LAST_KEY: u8 = 127;

/// Keys from one octave to the next.
pub const KEYS_PER_OCTAVE: u8 = 12;

/// Microseconds in a minute.
pub const MICROSECONDS_PER_MINUTE: u32 = 60_000_000;

/// A time signature, as it is written: `3/4`.
#[derive(Debug, PartialEq, Eq, Clone, Copy, Structural)]
pub struct Signature {
    pub numerator: u8,
    pub denominator: u8,
}

/// What holds of a whole song.
#[derive(Debug, PartialEq)]
pub struct Global {
    /// Beats per minute.
    pub bpm: u16,
    /// Path of the sound font that plays the song.
    pub soundfont: String,
    pub signature: Option<Signature>,
    pub key: Option<String>,
}

/// One voice of a song: an instrument and its score.
#[derive(Debug, PartialEq)]
pub struct Channel {
    pub bank: u8,
    pub instrument: u8,
    pub notes: Notes,
    pub volume: Option<u8>,
    pub pan: Option<u8>,
}

/// A song: its channels by name, in the order in which they were written
/// down, and what holds of all of them.
#[derive(Debug, PartialEq)]
pub struct Song {
    pub global: Global,
    pub channels: Vec<(String, Channel)>,
}

/// Mathematical model of a [`MidiEvent`].
pub enum MidiEventView {
    TrackName(Seq<char>),
    TimeSignature(u8, u8, u8, u8),
    KeySignature(Seq<char>),
    SetTempo(u32),
    AllControllersOff(u8),
    ProgramChange(u8, u8),
    Volume(u8, u8),
    Pan(u8, u8),
    EffectsLevel(u8, u8),
    ChorusLevel(u8, u8),
    NoteOn(u8, u8, u8),
    NoteOff(u8, u8, u8),
    EndOfTrack,
}

/// The events that a rendered song is made of.
#[derive(Debug, PartialEq)]
pub enum MidiEvent {
    TrackName(String),
    /// Numerator, denominator, clocks per metronome tick, and thirty-second
    /// notes per quarter note.
    TimeSignature(u8, u8, u8, u8),
    KeySignature(String),
    /// Microseconds per quarter note.
    SetTempo(u32),
    AllControllersOff(u8),
    /// Channel and program.
    ProgramChange(u8, u8),
    /// Channel and value.
    Volume(u8, u8),
    /// Channel and value.
    Pan(u8, u8),
    /// Channel and value.
    EffectsLevel(u8, u8),
    /// Channel and value.
    ChorusLevel(u8, u8),
    /// Channel, key and velocity.
    NoteOn(u8, u8, u8),
    /// Channel, key and velocity.
    NoteOff(u8, u8, u8),
    EndOfTrack,
}

impl View for MidiEvent {
    type V = MidiEventView;

    open spec fn view(&self) -> MidiEventView {
        match self {
            MidiEvent::TrackName(name) => MidiEventView::TrackName(name@),
            MidiEvent::TimeSignature(a, b, c, d) => MidiEventView::TimeSignature(*a, *b, *c, *d),
            MidiEvent::KeySignature(key) => MidiEventView::KeySignature(key@),
            MidiEvent::SetTempo(t) => MidiEventView::SetTempo(*t),
            MidiEvent::AllControllersOff(c) => MidiEventView::AllControllersOff(*c),
            MidiEvent::ProgramChange(c, p) => MidiEventView::ProgramChange(*c, *p),
            MidiEvent::Volume(c, v) => MidiEventView::Volume(*c, *v),
            MidiEvent::Pan(c, v) => MidiEventView::Pan(*c, *v),
            MidiEvent::EffectsLevel(c, v) => MidiEventView::EffectsLevel(*c, *v),
            MidiEvent::ChorusLevel(c, v) => MidiEventView::ChorusLevel(*c, *v),
            MidiEvent::NoteOn(c, k, v) => MidiEventView::NoteOn(*c, *k, *v),
            MidiEvent::NoteOff(c, k, v) => MidiEventView::NoteOff(*c, *k, *v),
            MidiEvent::EndOfTrack => MidiEventView::EndOfTrack,
        }
    }
}

/// Mathematical model of a [`MidiOp`].
pub enum MidiOpView {
    Insert { track: usize, tick: usize, event: MidiEventView },
    Push { track: usize, wait: usize, event: MidiEventView },
}

/// One step in the making of a MIDI song: an event is put on a track,
/// either at a tick of its own or so many ticks after the latest event.
#[derive(Debug, PartialEq)]
pub enum MidiOp {
    Insert { track: usize, tick: usize, event: MidiEvent },
    Push { track: usize, wait: usize, event: MidiEvent },
}

impl View for MidiOp {
    type V = MidiOpView;

    open spec fn view(&self) -> MidiOpView {
        match self {
            MidiOp::Insert { track, tick, event } => MidiOpView::Insert {
                track: *track,
                tick: *tick,
                event: event@,
            },
            MidiOp::Push { track, wait, event } => MidiOpView::Push {
                track: *track,
                wait: *wait,
                event: event@,
            },
        }
    }
}

/// The models of a list of steps.
pub open spec fn ops_view(ops: Seq<MidiOp>) -> Seq<MidiOpView> {
    Seq::new(ops.len(), |i: int| ops[i]@)
}

/// An event pushed on a track.
pub open spec fn push(track: usize, wait: usize, event: MidiEventView) -> MidiOpView {
    MidiOpView::Push { track, wait, event }
}

/// The tempo of MIDI, microseconds per quarter note, for a number of
/// beats per minute.
pub fn bpm_to_tempo(bpm: u16) -> (tempo: u32)
    requires
        bpm > 0,
    ensures
        tempo == MICROSECONDS_PER_MINUTE / (bpm as u32),
{
    MICROSECONDS_PER_MINUTE / (bpm as u32)
}

/// The key of MIDI that a note of the set is in an octave, as the decoder
/// stores octaves: the decoder starts in the octave of middle C. There
/// are twelve keys to the octave.
pub open spec fn key_of(note: u8, octave: u8) -> int {
    note + KEYS_PER_OCTAVE * (octave + 2)
}

/// What the events of a score become on a track, from the event at place
/// `from` on, after `silence` ticks in which nothing sounded: a note is
/// switched on, and off one tick before its time is over; a rest adds to
/// the silence before what comes next; and the track ends after the last
/// event. A note beyond the keys of MIDI ends everything, and so does a
/// silence that is too long for the machine.
pub open spec fn track_ops(events: Seq<Event>, from: int, silence: usize, track: usize) -> Result<
    Seq<MidiOpView>,
    ErrorKind,
>
    decreases events.len() - from,
{
    if from < 0 || from >= events.len() {
        Ok(seq![push(track, silence, MidiEventView::EndOfTrack)])
    } else {
        match events[from] {
            Event::Rest { duration } => if silence + duration > usize::MAX {
                Err(ErrorKind::TimingOverflow)
            } else {
                track_ops(events, from + 1, (silence + duration) as usize, track)
            },
            Event::Note { duration, note, octave, volume } => {
                if key_of(note, octave) > LAST_KEY {
                    Err(ErrorKind::NoteOutOfRange)
                } else {
                    let key = key_of(note, octave) as u8;
                    let gap: usize = if duration == 0 {
                        0
                    } else {
                        1
                    };
                    match track_ops(events, from + 1, gap, track) {
                        Err(kind) => Err(kind),
                        Ok(rest) => Ok(
                            seq![
                                push(track, silence, MidiEventView::NoteOn(0, key, volume)),
                                push(
                                    track,
                                    (duration - gap) as usize,
                                    MidiEventView::NoteOff(0, key, 0),
                                ),
                            ] + rest,
                        ),
                    }
                }
            },
        }
    }
}

/// The events of a channel in ticks: its score through a fresh decoder at
/// the tempo at which a sample is a tick.
pub open spec fn channel_ticks(channel: Channel) -> Run {
    run(fresh(TICK_TEMPO), flatten(channel.notes@.score))
}

/// What sets a channel up: its program, its volume and its pan if it has
/// them, and its effects switched off. All of it goes on the first track.
pub open spec fn setup_ops(channel: Channel) -> Seq<MidiOpView> {
    seq![
        push(0, 0, MidiEventView::AllControllersOff(0)),
        push(0, 0, MidiEventView::ProgramChange(channel.bank, channel.instrument)),
    ] + (match channel.volume {
        Some(volume) => seq![push(0, 0, MidiEventView::Volume(0, volume))],
        None => Seq::empty(),
    }) + (match channel.pan {
        Some(pan) => seq![push(0, 0, MidiEventView::Pan(0, pan))],
        None => Seq::empty(),
    }) + seq![
        push(0, 0, MidiEventView::EffectsLevel(0, 0)),
        push(0, 0, MidiEventView::ChorusLevel(0, 0)),
    ]
}

/// The sign between the two numbers of a time signature.
pub const OVER: char = '/';

/// The time signature that a text stands for: a number up to 255, a
/// slash, and another number up to 255, which ends the text or stands
/// before another slash. Any other text stands for no signature.
pub open spec fn written_signature(text: Seq<char>) -> Option<Signature> {
    let a = digits(text);
    let rest = text.skip(a + 1 as int);
    let b = digits(rest);
    if 0 < a < text.len() && text[a as int] == OVER && b > 0 && (b == rest.len() || rest[b as int]
        == OVER) && number(text.take(a as int)) <= u8::MAX && number(rest.take(b as int))
        <= u8::MAX {
        Some(
            Signature {
                numerator: number(text.take(a as int)) as u8,
                denominator: number(rest.take(b as int)) as u8,
            },
        )
    } else {
        None
    }
}

impl Signature {
    /// A time signature.
    pub fn new(numerator: u8, denominator: u8) -> (signature: Signature)
        ensures
            signature == (Signature { numerator, denominator }),
    {
        Signature { numerator, denominator }
    }

    /// Reads a time signature as it is written: `3/4`.
    pub fn parse(text: &str) -> (signature: Option<Signature>)
        ensures
            signature == written_signature(text@),
    {
        let chars = chars_of(text);
        let (a, numerator) = read_number(chars.as_slice(), 255);
        proof {
            lemma_digits_bound(chars@);
        }
        if a == 0 || a >= chars.len() || chars[a] != OVER {
            return None;
        }
        let rest = slice_subrange(chars.as_slice(), a + 1, chars.len());
        assert(rest@ =~= text@.skip(a + 1));
        let (b, denominator) = read_number(rest, 255);
        proof {
            lemma_digits_bound(rest@);
        }
        if b == 0 || (b < rest.len() && rest[b] != OVER) {
            return None;
        }
        match (numerator, denominator) {
            (Some(numerator), Some(denominator)) => Some(
                Signature { numerator: numerator as u8, denominator: denominator as u8 },
            ),
            _ => None,
        }
    }
}

impl Channel {
    /// A channel.
    pub fn new(
        bank: u8,
        instrument: u8,
        notes: Notes,
        volume: Option<u8>,
        pan: Option<u8>,
    ) -> (channel: Channel)
        ensures
            channel == (Channel { bank, instrument, notes, volume, pan }),
    {
        Channel { bank, instrument, notes, volume, pan }
    }

    /// The steps that set the channel up.
    pub fn setup(&self) -> (ops: Vec<MidiOp>)
        ensures
            ops_view(ops@) == setup_ops(*self),
    {
        let mut ops: Vec<MidiOp> = Vec::new();
        ops.push(MidiOp::Push { track: 0, wait: 0, event: MidiEvent::AllControllersOff(0) });
        ops.push(
            MidiOp::Push {
                track: 0,
                wait: 0,
                event: MidiEvent::ProgramChange(self.bank, self.instrument),
            },
        );
        if let Some(volume) = self.volume {
            ops.push(MidiOp::Push { track: 0, wait: 0, event: MidiEvent::Volume(0, volume) });
        }
        if let Some(pan) = self.pan {
            ops.push(MidiOp::Push { track: 0, wait: 0, event: MidiEvent::Pan(0, pan) });
        }
        ops.push(MidiOp::Push { track: 0, wait: 0, event: MidiEvent::EffectsLevel(0, 0) });
        ops.push(MidiOp::Push { track: 0, wait: 0, event: MidiEvent::ChorusLevel(0, 0) });
        assert(ops_view(ops@) =~= setup_ops(*self));
        ops
    }

    /// The steps that put the score of the channel on a track: the score
    /// is decoded in ticks, and each of its events becomes the MIDI events
    /// that make it sound.
    pub fn render(&self, track: usize) -> (r: Result<Vec<MidiOp>, Error<'static>>)
        ensures
            match channel_ops(*self, track) {
                Ok(ops) => r matches Ok(v) && ops_view(v@) == ops,
                Err(failure) => raised(r, failure),
            },
    {
        let mut decoder = Decoder::new(TICK_TEMPO);
        let events = match decoder.schedule(&self.notes) {
            Ok(events) => events,
            Err(e) => {
                return Err(e);
            },
        };
        let mut ops: Vec<MidiOp> = Vec::new();
        let mut silence: usize = 0;
        let mut i: usize = 0;
        while i < events.len()
            invariant
                i <= events@.len(),
                channel_ticks(*self).failure is None,
                events@ == finished(channel_ticks(*self)),
                match track_ops(events@, i as int, silence, track) {
                    Ok(rest) => track_ops(events@, 0, 0, track) == Ok::<Seq<MidiOpView>, ErrorKind>(
                        ops_view(ops@) + rest,
                    ),
                    Err(kind) => track_ops(events@, 0, 0, track) == Err::<
                        Seq<MidiOpView>,
                        ErrorKind,
                    >(kind),
                },
            decreases events@.len() - i,
        {
            let ghost before = ops_view(ops@);
            match events[i] {
                Event::Rest { duration } => {
                    silence = match silence.checked_add(duration) {
                        Some(longer) => longer,
                        None => {
                            return Err(Error::of(ErrorKind::TimingOverflow));
                        },
                    };
                },
                Event::Note { duration, note, octave, volume } => {
                    let key: u32 = note as u32 + KEYS_PER_OCTAVE as u32 * (octave as u32 + 2);
                    if key > LAST_KEY as u32 {
                        return Err(Error::of(ErrorKind::NoteOutOfRange));
                    }
                    let gap: usize = if duration == 0 {
                        0
                    } else {
                        1
                    };
                    ops.push(
                        MidiOp::Push {
                            track,
                            wait: silence,
                            event: MidiEvent::NoteOn(0, key as u8, volume),
                        },
                    );
                    ops.push(
                        MidiOp::Push {
                            track,
                            wait: duration - gap,
                            event: MidiEvent::NoteOff(0, key as u8, 0),
                        },
                    );
                    proof {
                        let on = push(track, silence, MidiEventView::NoteOn(0, key as u8, volume));
                        let off = push(
                            track,
                            (duration - gap) as usize,
                            MidiEventView::NoteOff(0, key as u8, 0),
                        );
                        assert(ops_view(ops@) =~= before + seq![on, off]);
                        match track_ops(events@, i + 1, gap, track) {
                            Ok(rest) => {
                                assert(before + (seq![on, off] + rest) =~= (before + seq![on, off])
                                    + rest);
                            },
                            Err(_) => {},
                        }
                    }
                    silence = gap;
                },
            }
            i += 1;
        }
        ops.push(MidiOp::Push { track, wait: silence, event: MidiEvent::EndOfTrack });
        proof {
            let end = push(track, silence, MidiEventView::EndOfTrack);
            let before = ops_view(ops@.drop_last());
            assert(ops_view(ops@) =~= before + seq![end]);
        }
        Ok(ops)
    }
}

/// What the score of a channel becomes on a track, or why it fails: a
/// failure of the decoder is at the atom that failed, a failure of an event
/// at no known place.
pub open spec fn channel_ops(channel: Channel, track: usize) -> Result<Seq<MidiOpView>, ErrorView> {
    match channel_ticks(channel).failure {
        Some(_) => Err(stop(channel_ticks(channel))),
        None => match track_ops(finished(channel_ticks(channel)), 0, 0, track) {
            Ok(ops) => Ok(ops),
            Err(kind) => Err(placeless(kind)),
        },
    }
}

/// What opens a song on its first track: the name of the track, the time
/// signature and the key if the song has them, and the tempo.
pub open spec fn opening_ops(global: Global, name: Seq<char>) -> Seq<MidiOpView> {
    seq![MidiOpView::Insert { track: 0, tick: 0, event: MidiEventView::TrackName(name) }] + (
    match global.signature {
        Some(signature) => seq![
            push(
                0,
                0,
                MidiEventView::TimeSignature(
                    signature.numerator,
                    signature.denominator / 2,
                    24,
                    8,
                ),
            ),
        ],
        None => Seq::empty(),
    }) + (match global.key {
        Some(key) => seq![push(0, 0, MidiEventView::KeySignature(key@))],
        None => Seq::empty(),
    }) + seq![
        push(0, 0, MidiEventView::SetTempo((MICROSECONDS_PER_MINUTE / (global.bpm as u32)) as u32)),
    ]
}

/// What the channels of a song from place `i` on become: each on the
/// track of its place, after the name of the track and what sets the
/// channel up. The first channel that fails ends everything.
pub open spec fn song_ops(song: Song, i: int) -> Result<Seq<MidiOpView>, ErrorView>
    decreases song.channels@.len() - i,
{
    if i < 0 || i >= song.channels@.len() {
        Ok(Seq::empty())
    } else {
        let (name, channel) = song.channels@[i];
        let head = if i == 0 {
            opening_ops(song.global, name@)
        } else {
            seq![
                MidiOpView::Insert {
                    track: i as usize,
                    tick: 0,
                    event: MidiEventView::TrackName(name@),
                },
            ]
        };
        match channel_ops(channel, i as usize) {
            Err(failure) => Err(in_channel(failure, i as usize)),
            Ok(ops) => match song_ops(song, i + 1) {
                Err(failure) => Err(failure),
                Ok(rest) => Ok(head + setup_ops(channel) + ops + rest),
            },
        }
    }
}

/// Adds steps to a list of steps.
fn extend(ops: &mut Vec<MidiOp>, more: Vec<MidiOp>)
    ensures
        ops_view(final(ops)@) == ops_view(old(ops)@) + ops_view(more@),
{
    let mut more = more;
    let ghost added = ops_view(more@);
    ops.append(&mut more);
    assert(ops_view(ops@) =~= ops_view(old(ops)@) + added);
}

impl Song {
    /// A song.
    pub fn new(global: Global, channels: Vec<(String, Channel)>) -> (song: Song)
        ensures
            song == (Song { global, channels }),
    {
        Song { global, channels }
    }

    /// The steps that open the song on its first track and set its first
    /// channel up.
    pub fn setup(&self) -> (ops: Vec<MidiOp>)
        requires
            self.global.bpm > 0,
            self.channels@.len() > 0,
        ensures
            ops_view(ops@) == opening_ops(self.global, self.channels@[0].0@) + setup_ops(
                self.channels@[0].1,
            ),
    {
        let first = &self.channels[0];
        let mut ops: Vec<MidiOp> = Vec::new();
        ops.push(
            MidiOp::Insert { track: 0, tick: 0, event: MidiEvent::TrackName(first.0.clone()) },
        );
        if let Some(signature) = &self.global.signature {
            ops.push(
                MidiOp::Push {
                    track: 0,
                    wait: 0,
                    event: MidiEvent::TimeSignature(
                        signature.numerator,
                        signature.denominator / 2,
                        24,
                        8,
                    ),
                },
            );
        }
        if let Some(key) = &self.global.key {
            ops.push(
                MidiOp::Push { track: 0, wait: 0, event: MidiEvent::KeySignature(key.clone()) },
            );
        }
        ops.push(
            MidiOp::Push {
                track: 0,
                wait: 0,
                event: MidiEvent::SetTempo(bpm_to_tempo(self.global.bpm)),
            },
        );
        assert(ops_view(ops@) =~= opening_ops(self.global, self.channels@[0].0@));
        extend(&mut ops, first.1.setup());
        ops
    }

    /// The steps that make the song: every channel on the track of its
    /// place, the first one after the opening of the song. A song without
    /// channels takes no step.
    pub fn render(&self) -> (r: Result<Vec<MidiOp>, Error<'static>>)
        requires
            self.global.bpm > 0,
        ensures
            match song_ops(*self, 0) {
                Ok(ops) => r matches Ok(v) && ops_view(v@) == ops,
                Err(failure) => raised(r, failure),
            },
    {
        let mut ops: Vec<MidiOp> = Vec::new();
        let mut i: usize = 0;
        while i < self.channels.len()
            invariant
                i <= self.channels@.len(),
                self.global.bpm > 0,
                match song_ops(*self, i as int) {
                    Ok(rest) => song_ops(*self, 0) == Ok::<Seq<MidiOpView>, ErrorView>(
                        ops_view(ops@) + rest,
                    ),
                    Err(failure) => song_ops(*self, 0) == Err::<Seq<MidiOpView>, ErrorView>(
                        failure,
                    ),
                },
            decreases self.channels@.len() - i,
        {
            let ghost before = ops_view(ops@);
            let channel = &self.channels[i].1;
            let rendered = match channel.render(i) {
                Ok(rendered) => rendered,
                Err(e) => {
                    return Err(e.in_channel(i));
                },
            };
            let ghost head;
            if i == 0 {
                let opening = self.setup();
                proof {
                    head = ops_view(opening@);
                }
                extend(&mut ops, opening);
            } else {
                let name = MidiOp::Insert {
                    track: i,
                    tick: 0,
                    event: MidiEvent::TrackName(self.channels[i].0.clone()),
                };
                let mut named: Vec<MidiOp> = Vec::new();
                named.push(name);
                extend(&mut named, channel.setup());
                proof {
                    head = ops_view(named@);
                }
                extend(&mut ops, named);
            }
            proof {
                let body = ops_view(rendered@);
                let name = self.channels@[i as int].0;
                let spec_head = if i == 0 {
                    opening_ops(self.global, name@)
                } else {
                    seq![
                        MidiOpView::Insert {
                            track: i,
                            tick: 0,
                            event: MidiEventView::TrackName(name@),
                        },
                    ]
                };
                assert(head =~= spec_head + setup_ops(*channel));
                assert(channel_ops(*channel, i) == Ok::<Seq<MidiOpView>, ErrorView>(body));
                match song_ops(*self, i + 1) {
                    Ok(rest) => {
                        assert(before + (spec_head + setup_ops(*channel) + body + rest) =~= (before
                            + head + body) + rest);
                    },
                    Err(_) => {},
                }
            }
            extend(&mut ops, rendered);
            i += 1;
        }
        proof {
            assert(ops_view(ops@) + Seq::<MidiOpView>::empty() =~= ops_view(ops@));
        }
        Ok(ops)
    }
}

/// The bytes of a quantity of variable length: seven bits to the byte,
/// the highest first, and every byte but the last marked with its eighth
/// bit.
pub open spec fn variable_length(n: nat) -> Seq<u8> {
    leading_groups(n / 128).push((n % 128) as u8)
}

/// The marked bytes that stand before the last byte of a quantity.
pub open spec fn leading_groups(n: nat) -> Seq<u8>
    decreases n,
{
    if n == 0 {
        Seq::empty()
    } else {
        leading_groups(n / 128).push((n % 128 + 128) as u8)
    }
}

/// The number that the bytes of a quantity of variable length stand for.
pub open spec fn variable_value(bytes: Seq<u8>) -> nat
    decreases bytes.len(),
{
    if bytes.len() == 0 {
        0
    } else {
        variable_value(bytes.drop_last()) * 128 + (bytes.last() % 128) as nat
    }
}

proof fn lemma_leading_value(n: nat)
    ensures
        variable_value(leading_groups(n)) == n,
    decreases n,
{
    if n > 0 {
        lemma_leading_value(n / 128);
        let bytes = leading_groups(n);
        assert(bytes.drop_last() =~= leading_groups(n / 128));
        assert(bytes.last() == (n % 128 + 128) as u8);
    }
}

/// A quantity of variable length stands for the number it was made of.
pub proof fn lemma_variable_length_round_trip(n: nat)
    ensures
        variable_value(variable_length(n)) == n,
        variable_length(n).len() > 0,
        variable_length(n).last() < 128,
        forall|i: int|
            0 <= i < variable_length(n).len() - 1 ==> #[trigger] variable_length(n)[i] >= 128,
{
    lemma_leading_value(n / 128);
    lemma_leading_marked(n / 128);
    let bytes = variable_length(n);
    assert(bytes.drop_last() =~= leading_groups(n / 128));
}

proof fn lemma_leading_marked(n: nat)
    ensures
        forall|i: int| 0 <= i < leading_groups(n).len() ==> #[trigger] leading_groups(n)[i] >= 128,
    decreases n,
{
    if n > 0 {
        lemma_leading_marked(n / 128);
        let bytes = leading_groups(n);
        assert forall|i: int| 0 <= i < bytes.len() implies #[trigger] bytes[i] >= 128 by {
            if i < bytes.len() - 1 {
                assert(bytes[i] == leading_groups(n / 128)[i]);
            }
        }
    }
}

/// Writes a number as a quantity of variable length.
pub fn to_variable_length_bytes(number: usize) -> (output: Vec<u8>)
    ensures
        output@ == variable_length(number as nat),
{
    let mut reversed: Vec<u8> = Vec::new();
    reversed.push((number % 128) as u8);
    let mut working_number = number / 128;
    proof {
        assert(leading_groups(working_number as nat) + reversed@.reverse() =~= variable_length(
            number as nat,
        ));
    }
    while working_number > 0
        invariant
            leading_groups(working_number as nat) + reversed@.reverse() == variable_length(
                number as nat,
            ),
        decreases working_number,
    {
        let ghost before = reversed@;
        let byte = (working_number % 128 + 128) as u8;
        reversed.push(byte);
        proof {
            assert(reversed@.reverse() =~= seq![byte] + before.reverse());
            assert(leading_groups((working_number / 128) as nat) + (seq![byte] + before.reverse())
                =~= leading_groups(working_number as nat) + before.reverse());
        }
        working_number = working_number / 128;
    }
    proof {
        assert(leading_groups(0) + reversed@.reverse() =~= reversed@.reverse());
    }
    let mut output: Vec<u8> = Vec::new();
    let mut i: usize = reversed.len();
    while i > 0
        invariant
            i <= reversed@.len(),
            output@.len() == reversed@.len() - i,
            forall|j: int|
                0 <= j < output@.len() ==> #[trigger] output@[j] == reversed@[reversed@.len() - 1
                    - j],
        decreases i,
    {
        i -= 1;
        output.push(reversed[i]);
    }
    assert(output@ =~= reversed@.reverse());
    output
}

/// The two bytes of a number, the high one first.
pub open spec fn two_bytes(n: u16) -> Seq<u8> {
    seq![(n / 256) as u8, (n % 256) as u8]
}

/// The four bytes of a number, the highest first.
pub open spec fn four_bytes(n: u32) -> Seq<u8> {
    seq![
        (n / 0x100_0000) as u8,
        ((n / 0x1_0000) % 256) as u8,
        ((n / 0x100) % 256) as u8,
        (n % 256) as u8,
    ]
}

/// The first bytes of every MIDI file: the mark of the header and its
/// length.
pub open spec fn header_mark() -> Seq<u8> {
    seq![0x4Du8, 0x54u8, 0x68u8, 0x64u8, 0u8, 0u8, 0u8, 6u8]
}

/// The first bytes of every track: its mark.
pub open spec fn track_mark() -> Seq<u8> {
    seq![0x4Du8, 0x54u8, 0x72u8, 0x6Bu8]
}

/// The bytes that end every track: no delay, and the event that ends the
/// track.
pub open spec fn track_end() -> Seq<u8> {
    seq![0u8, 0xFFu8, 0x2Fu8, 0u8]
}

/// The bytes of the events of a track up to place `n`: before each event
/// the ticks since the one before it, as a quantity of variable length.
pub open spec fn events_bytes(track: Seq<(usize, Vec<u8>)>, n: nat) -> Seq<u8>
    decreases n,
{
    if n == 0 || n > track.len() {
        Seq::empty()
    } else {
        events_bytes(track, (n - 1) as nat) + variable_length(track[n - 1].0 as nat) + track[n
            - 1].1@
    }
}

/// The body of a track: its events, then its end.
pub open spec fn track_body(track: Seq<(usize, Vec<u8>)>) -> Seq<u8> {
    events_bytes(track, track.len()) + track_end()
}

/// The bytes of the tracks up to place `n`: for each its mark, the length
/// of its body, and its body.
pub open spec fn tracks_bytes(tracks: Seq<Vec<(usize, Vec<u8>)>>, n: nat) -> Seq<u8>
    decreases n,
{
    if n == 0 || n > tracks.len() {
        Seq::empty()
    } else {
        let body = track_body(tracks[n - 1]@);
        tracks_bytes(tracks, (n - 1) as nat) + track_mark() + four_bytes(body.len() as u32) + body
    }
}

/// Every track up to place `n` has a body short enough for its length to
/// be written in four bytes.
pub open spec fn tracks_fit(tracks: Seq<Vec<(usize, Vec<u8>)>>, n: nat) -> bool {
    forall|i: int|
        0 <= i < n && i < tracks.len() ==> track_body(#[trigger] tracks[i]@).len() <= u32::MAX
}

/// The bytes of a MIDI file: the header with the format, the number of
/// tracks and the ticks per quarter note, then the tracks.
pub open spec fn file_bytes(format: u16, ppqn: u16, tracks: Seq<Vec<(usize, Vec<u8>)>>) -> Seq<u8> {
    header_mark() + two_bytes(format) + two_bytes(tracks.len() as u16) + two_bytes(ppqn)
        + tracks_bytes(tracks, tracks.len())
}

fn push_all(output: &mut Vec<u8>, bytes: &Vec<u8>)
    ensures
        final(output)@ == old(output)@ + bytes@,
{
    let mut i: usize = 0;
    while i < bytes.len()
        invariant
            i <= bytes@.len(),
            output@ == old(output)@ + bytes@.take(i as int),
        decreases bytes@.len() - i,
    {
        output.push(bytes[i]);
        i += 1;
        assert(old(output)@ + bytes@.take(i as int) =~= (old(output)@ + bytes@.take(i - 1)).push(
            bytes@[i - 1],
        ));
    }
    assert(bytes@.take(bytes@.len() as int) =~= bytes@);
}

/// The body of a track: its events, each after the ticks since the one
/// before it, then the end of the track.
fn body_of(ticks: &Vec<(usize, Vec<u8>)>) -> (body: Vec<u8>)
    ensures
        body@ == track_body(ticks@),
{
    let mut body: Vec<u8> = Vec::new();
    let mut k: usize = 0;
    while k < ticks.len()
        invariant
            k <= ticks@.len(),
            body@ == events_bytes(ticks@, k as nat),
        decreases ticks@.len() - k,
    {
        let delay = to_variable_length_bytes(ticks[k].0);
        push_all(&mut body, &delay);
        push_all(&mut body, &ticks[k].1);
        k += 1;
    }
    body.push(0);
    body.push(0xFF);
    body.push(0x2F);
    body.push(0);
    assert(body@ =~= track_body(ticks@));
    body
}

/// Writes the mark of a track and the length of its body.
fn push_track_head(output: &mut Vec<u8>, length: u32)
    ensures
        final(output)@ == old(output)@ + track_mark() + four_bytes(length),
{
    output.push(0x4D);
    output.push(0x54);
    output.push(0x72);
    output.push(0x6B);
    output.push((length / 0x100_0000) as u8);
    output.push(((length / 0x1_0000) % 256) as u8);
    output.push(((length / 0x100) % 256) as u8);
    output.push((length % 256) as u8);
    assert(output@ =~= old(output)@ + track_mark() + four_bytes(length));
}

/// Writes the header of a file.
fn file_head(format: u16, track_count: u16, ppqn: u16) -> (output: Vec<u8>)
    ensures
        output@ == header_mark() + two_bytes(format) + two_bytes(track_count) + two_bytes(ppqn),
{
    let mut output: Vec<u8> = Vec::new();
    output.push(0x4D);
    output.push(0x54);
    output.push(0x68);
    output.push(0x64);
    output.push(0);
    output.push(0);
    output.push(0);
    output.push(6);
    output.push((format / 256) as u8);
    output.push((format % 256) as u8);
    output.push((track_count / 256) as u8);
    output.push((track_count % 256) as u8);
    output.push((ppqn / 256) as u8);
    output.push((ppqn % 256) as u8);
    assert(output@ =~= header_mark() + two_bytes(format) + two_bytes(track_count) + two_bytes(
        ppqn,
    ));
    output
}

/// The bytes of a MIDI file of the given format and ticks per quarter
/// note. Each track lists its events in order: for each the ticks since
/// the event before it, and the bytes of the event. There is no such file
/// for more tracks than two bytes can count, nor for a track whose length
/// four bytes cannot hold.
pub fn as_bytes(format: u16, ppqn: u16, tracks: &Vec<Vec<(usize, Vec<u8>)>>) -> (output: Option<
    Vec<u8>,
>)
    ensures
        output is Some <==> tracks@.len() <= u16::MAX && tracks_fit(tracks@, tracks@.len()),
        output matches Some(bytes) ==> bytes@ == file_bytes(format, ppqn, tracks@),
{
    if tracks.len() > u16::MAX as usize {
        return None;
    }
    let mut output = file_head(format, tracks.len() as u16, ppqn);
    let ghost head = output@;
    let mut t: usize = 0;
    proof {
        assert(head + tracks_bytes(tracks@, 0) =~= head);
    }
    while t < tracks.len()
        invariant
            t <= tracks@.len(),
            tracks_fit(tracks@, t as nat),
            output@ == head + tracks_bytes(tracks@, t as nat),
        decreases tracks@.len() - t,
    {
        let body = body_of(&tracks[t]);
        if body.len() > u32::MAX as usize {
            assert(!tracks_fit(tracks@, tracks@.len()));
            return None;
        }
        let ghost before = tracks_bytes(tracks@, t as nat);
        push_track_head(&mut output, body.len() as u32);
        push_all(&mut output, &body);
        proof {
            let length = four_bytes(body@.len() as u32);
            assert(head + (before + track_mark() + length + body@) =~= head + before + track_mark()
                + length + body@);
        }
        t += 1;
    }
    Some(output)
}

} // verus!
