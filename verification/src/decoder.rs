use crate::error::{kind_message, placeless, Error, ErrorKind, ErrorView};
use crate::flatten::flatten;
use crate::structure::{lemma_flatten_valid, valid_atom, valid_score, Atom, AtomView, Notes};
use crate::timing::{
    advance, finished, follow, fresh, playable, run, steady, stop, timed, total_duration,
    DecoderState,
    Event, Run, Slot, DEFAULT_LENGTH, DEFAULT_OCTAVE, DEFAULT_VOLUME, WHOLE_NOTE,
};
use vstd::prelude::*;

verus! {

/// The result is the error that the decoder raises for a failure, with
/// the places that the failure comes from.
pub open spec fn raised<T>(r: Result<T, Error<'static>>, failure: ErrorView) -> bool {
    r matches Err(e) && e@ == failure && e.msg@ == kind_message(failure.kind)
}

/// Turns the atoms of a score into events: it keeps the octave, the length
/// and the volume that the score sets, and computes how many samples each
/// note and rest lasts. What a division leaves over is carried into the
/// next one, so that durations never drift from the tempo.
pub struct Decoder {
    bpm: u16,
    octave: u8,
    length: u8,
    volume: u8,
    remainder: usize,
    tup: usize,
}

impl View for Decoder {
    type V = DecoderState;

    closed spec fn view(&self) -> DecoderState {
        DecoderState {
            bpm: self.bpm,
            octave: self.octave,
            length: self.length,
            volume: self.volume,
            remainder: self.remainder,
            tup: self.tup,
        }
    }
}

/// A stored score yields playable atoms only.
proof fn lemma_flat_playable(score: Seq<AtomView>, set: u8)
    requires
        valid_score(score, set),
    ensures
        forall|i: int| 0 <= i < flatten(score).len() ==> playable(#[trigger] flatten(score)[i]),
{
    lemma_flatten_valid(score, set);
    assert forall|i: int| 0 <= i < flatten(score).len() implies playable(
        #[trigger] flatten(score)[i],
    ) by {
        assert(valid_atom(flatten(score)[i], set));
    }
}

/// Once a run has failed, more atoms change nothing.
proof fn lemma_failure_sticks(start: DecoderState, atoms: Seq<AtomView>, n: int)
    requires
        0 <= n <= atoms.len(),
        run(start, atoms.take(n)).failure is Some,
    ensures
        run(start, atoms) == run(start, atoms.take(n)),
    decreases atoms.len() - n,
{
    if n == atoms.len() {
        assert(atoms.take(n) =~= atoms);
    } else {
        assert(atoms.take(n + 1).drop_last() =~= atoms.take(n));
        lemma_failure_sticks(start, atoms, n + 1);
    }
}

impl Decoder {
    #[verifier::type_invariant]
    spec fn inv(self) -> bool {
        self.bpm > 0 && self.length > 0 && self.tup > 0
    }

    /// A decoder for a track of `bpm` beats per minute, in its default
    /// state: the octave written 4 in a score, quarter notes, volume 100.
    pub fn new(bpm: u16) -> (decoder: Decoder)
        requires
            bpm > 0,
        ensures
            decoder@ == fresh(bpm),
    {
        Decoder {
            bpm,
            octave: DEFAULT_OCTAVE,
            length: DEFAULT_LENGTH,
            volume: DEFAULT_VOLUME,
            remainder: 0,
            tup: 1,
        }
    }

    /// What the decoder remembers at this point.
    pub fn state(&self) -> (state: DecoderState)
        ensures
            state == self@,
            steady(state),
    {
        proof {
            use_type_invariant(self);
        }
        DecoderState {
            bpm: self.bpm,
            octave: self.octave,
            length: self.length,
            volume: self.volume,
            remainder: self.remainder,
            tup: self.tup,
        }
    }

    /// The number of samples of the next slot by the exact timing rule. The
    /// remainder of the division is kept for the slot after it. Where a
    /// number of the rule does not fit the machine, nothing changes.
    pub fn real_length(&mut self) -> (r: Result<usize, Error<'static>>)
        ensures
            match timed(old(self)@) {
                Ok((duration, remainder)) => r matches Ok(d) && d == duration && final(self)@ == (
                DecoderState { remainder, ..old(self)@ }),
                Err(kind) => raised(r, placeless(kind)) && final(self)@ == old(self)@,
            },
    {
        proof {
            use_type_invariant(&*self);
        }
        assert(0 < self.bpm * self.length <= 65535 * 255) by (nonlinear_arith)
            requires
                0 < self.bpm <= 65535,
                0 < self.length <= 255,
        ;
        let beat: usize = (self.bpm as usize) * (self.length as usize);
        let denominator = match beat.checked_mul(self.tup) {
            Some(d) => d,
            None => {
                return Err(Error::of(ErrorKind::TimingOverflow));
            },
        };
        assert(denominator > 0) by (nonlinear_arith)
            requires
                denominator == beat * self.tup,
                beat > 0,
                self.tup > 0,
        ;
        let numerator = match WHOLE_NOTE.checked_add(self.remainder) {
            Some(n) => n,
            None => {
                return Err(Error::of(ErrorKind::TimingOverflow));
            },
        };
        self.remainder = numerator % denominator;
        Ok(numerator / denominator)
    }

    /// Reads one primitive atom: a command changes the state, a note, a
    /// rest or a tie asks for a slot of time. Where the atom fails, nothing
    /// changes.
    pub fn step(&mut self, atom: &Atom) -> (r: Result<Option<Slot>, Error<'static>>)
        requires
            playable(atom@),
        ensures
            match advance(old(self)@, atom@) {
                Ok((state, slot)) => r matches Ok(s) && s == slot && final(self)@ == state,
                Err(kind) => raised(r, placeless(kind)) && final(self)@ == old(self)@,
            },
    {
        proof {
            use_type_invariant(&*self);
        }
        match atom {
            Atom::O(n) => {
                self.octave = *n - 1;
                Ok(None)
            },
            Atom::L(n) => {
                self.length = *n;
                Ok(None)
            },
            Atom::V(n) => {
                self.volume = *n;
                Ok(None)
            },
            Atom::N(n, tup) => {
                let before = self.tup;
                self.tup = *tup;
                match self.real_length() {
                    Ok(duration) => Ok(Some(Slot::Note(duration, *n))),
                    Err(e) => {
                        self.tup = before;
                        Err(e)
                    },
                }
            },
            Atom::Rest(tup) => {
                let before = self.tup;
                self.tup = *tup;
                match self.real_length() {
                    Ok(duration) => Ok(Some(Slot::Rest(duration))),
                    Err(e) => {
                        self.tup = before;
                        Err(e)
                    },
                }
            },
            Atom::More => {
                match self.real_length() {
                    Ok(duration) => Ok(Some(Slot::Tie(duration))),
                    Err(e) => Err(e),
                }
            },
            Atom::OIncr => {
                if self.octave == u8::MAX {
                    Err(Error::of(ErrorKind::OctaveOverflow))
                } else {
                    self.octave = self.octave + 1;
                    Ok(None)
                }
            },
            Atom::ODecr => {
                if self.octave == 0 {
                    Err(Error::of(ErrorKind::OctaveUnderflow))
                } else {
                    self.octave = self.octave - 1;
                    Ok(None)
                }
            },
            Atom::VIncr => {
                if self.volume == u8::MAX {
                    Err(Error::of(ErrorKind::VolumeOverflow))
                } else {
                    self.volume = self.volume + 1;
                    Ok(None)
                }
            },
            Atom::VDecr => {
                if self.volume == 0 {
                    Err(Error::of(ErrorKind::VolumeUnderflow))
                } else {
                    self.volume = self.volume - 1;
                    Ok(None)
                }
            },
            Atom::LIncr => {
                if self.length > u8::MAX / 2 {
                    Err(Error::of(ErrorKind::LengthOverflow))
                } else {
                    self.length = self.length * 2;
                    Ok(None)
                }
            },
            Atom::LDecr => {
                if self.length % 2 != 0 {
                    Err(Error::of(ErrorKind::LengthUnderflow))
                } else {
                    self.length = self.length / 2;
                    Ok(None)
                }
            },
            Atom::Loop(_, _) => Ok(None),
            Atom::Tuplet(_) => Ok(None),
        }
    }

    /// Reads a whole score and lists the events that it makes, in order.
    /// Decoding stops at the first atom that fails, and the decoder then
    /// stays in the state that it had before that atom.
    pub fn schedule(&mut self, notes: &Notes) -> (r: Result<Vec<Event>, Error<'static>>)
        ensures
            final(self)@ == run(old(self)@, flatten(notes@.score)).state,
            match run(old(self)@, flatten(notes@.score)).failure {
                Some(_) => raised(r, stop(run(old(self)@, flatten(notes@.score)))),
                None => r matches Ok(events) && events@ == finished(
                    run(old(self)@, flatten(notes@.score)),
                ),
            },
    {
        let mut it = notes.flat_iter();
        let ghost start = self@;
        let ghost flat = it@;
        let ghost mut done: int = 0;
        let mut read: usize = 0;
        let mut events: Vec<Event> = Vec::new();
        let mut pending: Option<Event> = None;
        proof {
            lemma_flat_playable(notes@.score, notes@.set);
            assert(flat.take(0) =~= Seq::<AtomView>::empty());
            assert(flat.skip(0) =~= flat);
        }
        loop
            invariant
                0 <= done <= flat.len(),
                start == old(self)@,
                flat == flatten(notes@.score),
                it@ == flat.skip(done),
                forall|i: int| 0 <= i < flat.len() ==> playable(#[trigger] flat[i]),
                run(start, flat.take(done)) == (Run {
                    state: self@,
                    events: events@,
                    pending,
                    failure: None,
                    read: done as nat,
                }),
                read == if done > usize::MAX {
                    usize::MAX as int
                } else {
                    done
                },
            decreases flat.len() - done,
        {
            let ghost before = run(start, flat.take(done));
            match it.next() {
                None => {
                    proof {
                        assert(flat.take(done) =~= flat);
                    }
                    match pending {
                        Some(event) => {
                            if duration_of(&event) > 0 {
                                events.push(event);
                            }
                        },
                        None => {},
                    }
                    return Ok(events);
                },
                Some(atom) => {
                    proof {
                        assert(atom@ == flat[done]);
                        assert(flat.take(done + 1).drop_last() =~= flat.take(done));
                        assert(flat.take(done + 1).last() == flat[done]);
                        assert(run(start, flat.take(done + 1)) == follow(before, flat[done]));
                    }
                    let carried = self.remainder;
                    match self.step(&atom) {
                        Err(e) => {
                            proof {
                                lemma_failure_sticks(start, flat, done + 1);
                            }
                            return Err(e.at_atom(read));
                        },
                        Ok(None) => {},
                        Ok(Some(Slot::Note(duration, note))) => {
                            match pending {
                                Some(event) => {
                                    if duration_of(&event) > 0 {
                                        events.push(event);
                                    }
                                },
                                None => {},
                            }
                            pending = Some(
                                Event::Note {
                                    duration,
                                    note,
                                    octave: self.octave,
                                    volume: self.volume,
                                },
                            );
                        },
                        Ok(Some(Slot::Rest(duration))) => {
                            match pending {
                                Some(event) => {
                                    if duration_of(&event) > 0 {
                                        events.push(event);
                                    }
                                },
                                None => {},
                            }
                            pending = Some(Event::Rest { duration });
                        },
                        Ok(Some(Slot::Tie(duration))) => {
                            match pending {
                                Some(event) => {
                                    match duration_of(&event).checked_add(duration) {
                                        Some(longer) => {
                                            pending = Some(prolonged(&event, longer));
                                        },
                                        None => {
                                            proof {
                                                lemma_failure_sticks(start, flat, done + 1);
                                            }
                                            // the tie fails after its slot was computed:
                                            // the state goes back to what it was
                                            proof {
                                                use_type_invariant(&*self);
                                            }
                                            self.remainder = carried;
                                            return Err(
                                                Error::of(ErrorKind::TimingOverflow).at_atom(read),
                                            );
                                        },
                                    }
                                },
                                None => {
                                    pending = Some(Event::Rest { duration });
                                },
                            }
                        },
                    }
                    proof {
                        let after = run(start, flat.take(done + 1));
                        assert(after.events =~= events@);
                        assert(after.pending == pending);
                        assert(after.state == self@);
                        assert(after.failure is None);
                        assert(after.read == done + 1);
                        done = done + 1;
                    }
                    read = read.saturating_add(1);
                },
            }
        }
    }
}

/// The number of samples that an event lasts.
pub fn duration_of(event: &Event) -> (duration: usize)
    ensures
        duration == event.duration(),
{
    match event {
        Event::Note { duration, .. } => *duration,
        Event::Rest { duration } => *duration,
    }
}

/// The same event, lasting `duration` samples.
pub fn prolonged(event: &Event, duration: usize) -> (longer: Event)
    ensures
        longer == event.lasting(duration),
{
    match event {
        Event::Note { note, octave, volume, .. } => Event::Note {
            duration,
            note: *note,
            octave: *octave,
            volume: *volume,
        },
        Event::Rest { .. } => Event::Rest { duration },
    }
}

/// `duration` samples of silence.
pub open spec fn silence(duration: usize) -> Seq<i32> {
    Seq::new(duration as nat, |i: int| 0i32)
}

/// The buffers of `parts` written one after the other.
pub open spec fn joined(parts: Seq<Seq<i32>>) -> Seq<i32>
    decreases parts.len(),
{
    if parts.len() == 0 {
        Seq::empty()
    } else {
        joined(parts.drop_last()) + parts.last()
    }
}

/// `part` is a stretch of samples that stands for `event`: silence for a
/// rest, a buffer that the generator gave for the note otherwise, and
/// nothing at all for an event without duration.
pub open spec fn sounds<G: Fn(usize, u8, u8, u8) -> Vec<i32>>(
    event: Event,
    generator: G,
    part: Seq<i32>,
) -> bool {
    match event {
        Event::Note { duration, note, octave, volume } => if duration == 0 {
            part.len() == 0
        } else {
            exists|buffer: Vec<i32>|
                call_ensures(generator, (duration, note, octave, volume), buffer) && buffer@
                    == part
        },
        Event::Rest { duration } => part == silence(duration),
    }
}

/// `samples` is a rendering of `events`: one stretch of samples for each
/// event, in order.
pub open spec fn rendering<G: Fn(usize, u8, u8, u8) -> Vec<i32>>(
    events: Seq<Event>,
    generator: G,
    samples: Seq<i32>,
) -> bool {
    exists|parts: Seq<Seq<i32>>|
        parts.len() == events.len() && samples == joined(parts) && forall|i: int|
            0 <= i < events.len() ==> sounds(events[i], generator, #[trigger] parts[i])
}

/// The generator can be asked for any note that lasts at least one sample.
pub open spec fn generates<G: Fn(usize, u8, u8, u8) -> Vec<i32>>(generator: G) -> bool {
    forall|duration: usize, note: u8, octave: u8, volume: u8|
        duration > 0 ==> call_requires(generator, (duration, note, octave, volume))
}

/// The generator gives exactly as many samples as it is asked for.
pub open spec fn keeps_time<G: Fn(usize, u8, u8, u8) -> Vec<i32>>(generator: G) -> bool {
    forall|duration: usize, note: u8, octave: u8, volume: u8, buffer: Vec<i32>|
        call_ensures(generator, (duration, note, octave, volume), buffer) ==> buffer@.len()
            == duration
}

proof fn lemma_joined_len<G: Fn(usize, u8, u8, u8) -> Vec<i32>>(
    events: Seq<Event>,
    generator: G,
    parts: Seq<Seq<i32>>,
)
    requires
        keeps_time(generator),
        parts.len() == events.len(),
        forall|i: int| 0 <= i < events.len() ==> sounds(events[i], generator, #[trigger] parts[i]),
    ensures
        joined(parts).len() == total_duration(events),
    decreases events.len(),
{
    if events.len() > 0 {
        lemma_joined_len(events.drop_last(), generator, parts.drop_last());
        assert(sounds(events.last(), generator, parts.last()));
    }
}

/// Fills a buffer with the sound of the events, one after the other: what
/// the generator gives for each note, and zeros for each rest. An event
/// that lasts no sample is passed over.
pub fn render<G: Fn(usize, u8, u8, u8) -> Vec<i32>>(events: &Vec<Event>, generator: &G) -> (samples:
    Vec<i32>)
    requires
        generates(*generator),
    ensures
        rendering(events@, *generator, samples@),
        keeps_time(*generator) ==> samples@.len() == total_duration(events@),
{
    let mut samples: Vec<i32> = Vec::new();
    let ghost mut parts: Seq<Seq<i32>> = Seq::empty();
    let mut i: usize = 0;
    while i < events.len()
        invariant
            i <= events.len(),
            generates(*generator),
            parts.len() == i,
            samples@ == joined(parts),
            forall|j: int| 0 <= j < i ==> sounds(events@[j], *generator, #[trigger] parts[j]),
        decreases events.len() - i,
    {
        let ghost before = samples@;
        let ghost earlier = parts;
        match &events[i] {
            Event::Note { duration, note, octave, volume } => {
                if *duration > 0 {
                    let buffer = generator(*duration, *note, *octave, *volume);
                    let ghost part = buffer@;
                    let mut j: usize = 0;
                    while j < buffer.len()
                        invariant
                            j <= buffer.len(),
                            part == buffer@,
                            samples@ == before + part.take(j as int),
                        decreases buffer.len() - j,
                    {
                        samples.push(buffer[j]);
                        j += 1;
                        proof {
                            assert(before + part.take(j as int) =~= (before + part.take(j - 1)).push(
                                part[j - 1],
                            ));
                        }
                    }
                    proof {
                        assert(part.take(part.len() as int) =~= part);
                        parts = parts.push(part);
                    }
                } else {
                    proof {
                        parts = parts.push(Seq::empty());
                        assert(before + Seq::<i32>::empty() =~= before);
                    }
                }
            },
            Event::Rest { duration } => {
                let ghost part = silence(*duration);
                let mut j: usize = 0;
                while j < *duration
                    invariant
                        j <= *duration,
                        part == silence(*duration),
                        samples@ == before + part.take(j as int),
                    decreases *duration - j,
                {
                    samples.push(0i32);
                    j += 1;
                    proof {
                        assert(before + part.take(j as int) =~= (before + part.take(j - 1)).push(
                            part[j - 1],
                        ));
                    }
                }
                proof {
                    assert(part.take(part.len() as int) =~= part);
                    parts = parts.push(part);
                }
            },
        }
        proof {
            assert(parts.drop_last() =~= earlier);
        }
        i += 1;
    }
    proof {
        assert(events@.take(i as int) =~= events@);
        if keeps_time(*generator) {
            lemma_joined_len(events@, *generator, parts);
        }
    }
    samples
}

impl Decoder {
    /// Decodes a score into samples: the score is flattened, timed by the
    /// exact rule, and each note is handed to the generator with its number
    /// of samples, its index in the set, its octave and its volume. Nothing
    /// is generated for a score that fails.
    pub fn decode<G: Fn(usize, u8, u8, u8) -> Vec<i32>>(
        &mut self,
        notes: &Notes,
        generator: &G,
    ) -> (r: Result<Vec<i32>, Error<'static>>)
        requires
            generates(*generator),
        ensures
            final(self)@ == run(old(self)@, flatten(notes@.score)).state,
            match run(old(self)@, flatten(notes@.score)).failure {
                Some(_) => raised(r, stop(run(old(self)@, flatten(notes@.score)))),
                None => r matches Ok(samples) && rendering(
                    finished(run(old(self)@, flatten(notes@.score))),
                    *generator,
                    samples@,
                ) && (keeps_time(*generator) ==> samples@.len() == total_duration(
                    finished(run(old(self)@, flatten(notes@.score))),
                )),
            },
    {
        match self.schedule(notes) {
            Ok(events) => Ok(render(&events, generator)),
            Err(e) => Err(e),
        }
    }
}

} // verus!
