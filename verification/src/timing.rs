use crate::error::{ErrorKind, ErrorView};
use crate::flatten::is_primitive;
use crate::structure::AtomView;
use vstd::prelude::*;

verus! {

/// Samples per second of every buffer that the decoder fills.
pub const SAMPLE_RATE: u32 = 48000;

/// Samples of a whole note at one beat per minute: the sample rate times
/// four beats times sixty seconds. A note of length 4 then lasts one beat.
pub const WHOLE_NOTE: usize = 11_520_000;

/// The octave that a fresh decoder starts in, as the decoder stores it: one
/// below the octave as it is written in a score.
pub const DEFAULT_OCTAVE: u8 = 3;

/// The length that a fresh decoder starts with: a quarter note.
pub const DEFAULT_LENGTH: u8 = 4;

/// The volume that a fresh decoder starts with.
pub const DEFAULT_VOLUME: u8 = 100;

/// The state of a decoder: what it remembers from one atom to the next.
#[derive(Debug, PartialEq, Eq, Clone, Copy, Structural)]
pub struct DecoderState {
    /// Beats per minute.
    pub bpm: u16,
    /// Current octave, one below the octave as it is written in a score.
    pub octave: u8,
    /// Current note length: 4 for a quarter note, 8 for an eighth.
    pub length: u8,
    /// Current volume.
    pub volume: u8,
    /// What the last division left over, carried into the next one.
    pub remainder: usize,
    /// Tuplet divisor of the last note or rest.
    pub tup: usize,
}

/// The state of a decoder that has not read any atom yet.
pub open spec fn fresh(bpm: u16) -> DecoderState {
    DecoderState {
        bpm,
        octave: DEFAULT_OCTAVE,
        length: DEFAULT_LENGTH,
        volume: DEFAULT_VOLUME,
        remainder: 0,
        tup: 1,
    }
}

/// A state in which durations can be computed: nothing that divides is zero.
pub open spec fn steady(s: DecoderState) -> bool {
    s.bpm > 0 && s.length > 0 && s.tup > 0
}

/// A primitive atom whose numbers are above zero where they have to be.
pub open spec fn playable(a: AtomView) -> bool {
    is_primitive(a) && match a {
        AtomView::O(n) => n > 0,
        AtomView::L(n) => n > 0,
        AtomView::N(_, tup) => tup > 0,
        AtomView::Rest(tup) => tup > 0,
        _ => true,
    }
}

/// What a whole note is divided by to give the duration of one slot.
pub open spec fn denominator(s: DecoderState) -> int {
    s.bpm * s.length * s.tup
}

/// What is divided: a whole note and what the last division left over.
pub open spec fn numerator(s: DecoderState) -> int {
    WHOLE_NOTE + s.remainder
}

/// The exact timing rule: the duration in samples of one slot in state `s`
/// and the remainder that is carried on, or an overflow where the numerator
/// or the denominator does not fit the machine.
pub open spec fn timed(s: DecoderState) -> Result<(usize, usize), ErrorKind> {
    if denominator(s) > usize::MAX || numerator(s) > usize::MAX {
        Err(ErrorKind::TimingOverflow)
    } else {
        Ok(
            (
                (numerator(s) / denominator(s)) as usize,
                (numerator(s) % denominator(s)) as usize,
            ),
        )
    }
}

/// What an atom asks of time.
#[derive(Debug, PartialEq, Eq, Clone, Copy, Structural)]
pub enum Slot {
    /// A note of the set, for so many samples.
    Note(usize, u8),
    /// A silence of so many samples.
    Rest(usize),
    /// So many samples more for what sounded last.
    Tie(usize),
}

/// What a generator is asked for, or a silence: one stretch of the buffer.
#[derive(Debug, PartialEq, Eq, Clone, Copy, Structural)]
pub enum Event {
    /// A note of the set that lasts `duration` samples, played in an octave
    /// at a volume.
    Note { duration: usize, note: u8, octave: u8, volume: u8 },
    /// A silence of `duration` samples.
    Rest { duration: usize },
}

impl Event {
    /// The number of samples that the event lasts.
    pub open spec fn duration(self) -> usize {
        match self {
            Event::Note { duration, .. } => duration,
            Event::Rest { duration } => duration,
        }
    }

    /// The same event, lasting `duration` samples.
    pub open spec fn lasting(self, duration: usize) -> Event {
        match self {
            Event::Note { note, octave, volume, .. } => Event::Note {
                duration,
                note,
                octave,
                volume,
            },
            Event::Rest { .. } => Event::Rest { duration },
        }
    }
}

/// What one primitive atom does to the state of the decoder, and the slot it
/// asks for if it is a note, a rest or a tie. An octave is stored as one
/// below what is written; a length is doubled and halved, and only an even
/// length can be halved; octave and volume go up and down by one within
/// their range. A failed atom leaves no state. A container, which a flat
/// stream does not hold, changes nothing.
pub open spec fn advance(s: DecoderState, a: AtomView) -> Result<
    (DecoderState, Option<Slot>),
    ErrorKind,
> {
    match a {
        AtomView::O(n) => Ok((DecoderState { octave: (n - 1) as u8, ..s }, None)),
        AtomView::L(n) => Ok((DecoderState { length: n, ..s }, None)),
        AtomView::V(n) => Ok((DecoderState { volume: n, ..s }, None)),
        AtomView::N(n, tup) => match timed(DecoderState { tup, ..s }) {
            Ok((duration, remainder)) => Ok(
                (DecoderState { tup, remainder, ..s }, Some(Slot::Note(duration, n))),
            ),
            Err(kind) => Err(kind),
        },
        AtomView::Rest(tup) => match timed(DecoderState { tup, ..s }) {
            Ok((duration, remainder)) => Ok(
                (DecoderState { tup, remainder, ..s }, Some(Slot::Rest(duration))),
            ),
            Err(kind) => Err(kind),
        },
        AtomView::More => match timed(s) {
            Ok((duration, remainder)) => Ok(
                (DecoderState { remainder, ..s }, Some(Slot::Tie(duration))),
            ),
            Err(kind) => Err(kind),
        },
        AtomView::OIncr => if s.octave == u8::MAX {
            Err(ErrorKind::OctaveOverflow)
        } else {
            Ok((DecoderState { octave: (s.octave + 1) as u8, ..s }, None))
        },
        AtomView::ODecr => if s.octave == 0 {
            Err(ErrorKind::OctaveUnderflow)
        } else {
            Ok((DecoderState { octave: (s.octave - 1) as u8, ..s }, None))
        },
        AtomView::VIncr => if s.volume == u8::MAX {
            Err(ErrorKind::VolumeOverflow)
        } else {
            Ok((DecoderState { volume: (s.volume + 1) as u8, ..s }, None))
        },
        AtomView::VDecr => if s.volume == 0 {
            Err(ErrorKind::VolumeUnderflow)
        } else {
            Ok((DecoderState { volume: (s.volume - 1) as u8, ..s }, None))
        },
        AtomView::LIncr => if s.length * 2 > u8::MAX {
            Err(ErrorKind::LengthOverflow)
        } else {
            Ok((DecoderState { length: (s.length * 2) as u8, ..s }, None))
        },
        AtomView::LDecr => if s.length % 2 != 0 {
            Err(ErrorKind::LengthUnderflow)
        } else {
            Ok((DecoderState { length: (s.length / 2) as u8, ..s }, None))
        },
        AtomView::Loop(_, _) => Ok((s, None)),
        AtomView::Tuplet(_) => Ok((s, None)),
    }
}

/// How far a decoder has come through a stream of atoms.
pub struct Run {
    /// The state after the last atom that was read.
    pub state: DecoderState,
    /// The events that are complete, in order.
    pub events: Seq<Event>,
    /// The event that sounded last and that a tie may still extend.
    pub pending: Option<Event>,
    /// Why decoding stopped, if it did.
    pub failure: Option<ErrorKind>,
    /// The number of atoms that were read without failure: the place of the
    /// atom that failed, if one did.
    pub read: nat,
}

/// An event as it leaves the decoder: one that lasts no sample at all is
/// left out.
pub open spec fn flush(pending: Option<Event>) -> Seq<Event> {
    match pending {
        Some(event) => if event.duration() > 0 {
            seq![event]
        } else {
            Seq::empty()
        },
        None => Seq::empty(),
    }
}

/// One more atom after `before`. A note or a rest completes the event that
/// was pending and becomes the pending event itself. A tie prolongs the
/// pending event, and where nothing sounded yet it is a silence. Whatever
/// fails leaves the run where it was, with the failure.
pub open spec fn follow(before: Run, a: AtomView) -> Run {
    match advance(before.state, a) {
        Err(kind) => Run { failure: Some(kind), ..before },
        Ok((state, None)) => Run { state, read: before.read + 1, ..before },
        Ok((state, Some(Slot::Note(duration, note)))) => Run {
            state,
            events: before.events + flush(before.pending),
            pending: Some(
                Event::Note { duration, note, octave: state.octave, volume: state.volume },
            ),
            failure: None,
            read: before.read + 1,
        },
        Ok((state, Some(Slot::Rest(duration)))) => Run {
            state,
            events: before.events + flush(before.pending),
            pending: Some(Event::Rest { duration }),
            failure: None,
            read: before.read + 1,
        },
        Ok((state, Some(Slot::Tie(duration)))) => match before.pending {
            Some(event) => if event.duration() + duration > usize::MAX {
                Run { failure: Some(ErrorKind::TimingOverflow), ..before }
            } else {
                Run {
                    state,
                    pending: Some(event.lasting((event.duration() + duration) as usize)),
                    read: before.read + 1,
                    ..before
                }
            },
            None => Run {
                state,
                pending: Some(Event::Rest { duration }),
                read: before.read + 1,
                ..before
            },
        },
    }
}

/// The run of a decoder that starts in state `start` and reads `atoms` from
/// first to last, stopping at the first atom that fails.
pub open spec fn run(start: DecoderState, atoms: Seq<AtomView>) -> Run
    decreases atoms.len(),
{
    if atoms.len() == 0 {
        Run { state: start, events: Seq::empty(), pending: None, failure: None, read: 0 }
    } else {
        let before = run(start, atoms.drop_last());
        if before.failure is Some {
            before
        } else {
            follow(before, atoms.last())
        }
    }
}

/// Why a run stopped and at which atom: the place is counted from 0 in
/// the stream, and stands at the largest number of the machine where the
/// stream is longer than that.
pub open spec fn stop(r: Run) -> ErrorView {
    ErrorView {
        kind: r.failure->0,
        at: Some(
            if r.read > usize::MAX {
                usize::MAX
            } else {
                r.read as usize
            },
        ),
        channel: None,
    }
}

/// All the events of a run, the pending one included.
pub open spec fn finished(r: Run) -> Seq<Event> {
    r.events + flush(r.pending)
}

/// The number of samples that a sequence of events lasts.
pub open spec fn total_duration(events: Seq<Event>) -> nat
    decreases events.len(),
{
    if events.len() == 0 {
        0
    } else {
        total_duration(events.drop_last()) + events.last().duration() as nat
    }
}

/// Events one after the other last as long as both parts together.
pub proof fn lemma_total_duration_concat(a: Seq<Event>, b: Seq<Event>)
    ensures
        total_duration(a + b) == total_duration(a) + total_duration(b),
    decreases b.len(),
{
    if b.len() == 0 {
        assert(a + b =~= a);
    } else {
        lemma_total_duration_concat(a, b.drop_last());
        assert((a + b).drop_last() =~= a + b.drop_last());
        assert((a + b).last() == b.last());
    }
}

/// What leaves the decoder lasts as long as what was pending: an event
/// without duration is left out, and lasts nothing.
pub proof fn lemma_flush_duration(pending: Option<Event>)
    ensures
        total_duration(flush(pending)) == match pending {
            Some(event) => event.duration() as nat,
            None => 0,
        },
{
    let out = flush(pending);
    if out.len() > 0 {
        assert(out.drop_last() =~= Seq::<Event>::empty());
        assert(total_duration(out.drop_last()) == 0);
    }
}

/// The same note `n` times in a row.
pub open spec fn notes_in_a_row(note: u8, tup: usize, n: nat) -> Seq<AtomView> {
    Seq::new(n, |i: int| AtomView::N(note, tup))
}

/// What `n` slots in a row come to, from state `s` on, by the exact timing
/// rule: the samples of all of them together, and the state after the last
/// one.
pub open spec fn slots(s: DecoderState, n: nat) -> Result<(nat, DecoderState), ErrorKind>
    decreases n,
{
    if n == 0 {
        Ok((0, s))
    } else {
        match slots(s, (n - 1) as nat) {
            Err(kind) => Err(kind),
            Ok((total, t)) => match timed(t) {
                Err(kind) => Err(kind),
                Ok((duration, remainder)) => Ok(
                    ((total + duration) as nat, DecoderState { remainder, ..t }),
                ),
            },
        }
    }
}

/// Remainder-carried timing has bounded drift. Take a state whose
/// remainder is below the number that a whole note is divided by (as it is
/// in a fresh decoder), and `n` slots in a row at its tempo, length and
/// tuplet divisor. No slot fails as long as a whole note and the largest
/// remainder fit the machine. The slots add up to the whole notes that
/// they stand for, divided by that number, to within less than one sample:
/// what is left over is carried, not lost. From a remainder of zero they
/// add up to that quotient rounded down.
pub proof fn lemma_slots_exact(s: DecoderState, n: nat)
    requires
        steady(s),
        s.remainder < denominator(s),
        WHOLE_NOTE + denominator(s) - 1 <= usize::MAX,
    ensures
        ({
            let den = denominator(s);
            &&& slots(s, n) matches Ok((total, t))
            &&& t == (DecoderState { remainder: t.remainder, ..s })
            &&& t.remainder < den
            &&& total * den + t.remainder == n * WHOLE_NOTE + s.remainder
            &&& -den < n * WHOLE_NOTE - total * den < den
            &&& s.remainder == 0 ==> total == (n * WHOLE_NOTE) / den
        }),
    decreases n,
{
    let den = denominator(s);
    assert(den > 0) by (nonlinear_arith)
        requires
            den == s.bpm * s.length * s.tup,
            s.bpm > 0,
            s.length > 0,
            s.tup > 0,
    ;
    if n == 0 {
        assert(0 * den == 0 && 0 * (WHOLE_NOTE as int) == 0);
        assert(0int / den == 0) by (nonlinear_arith)
            requires
                den > 0,
        ;
    } else {
        lemma_slots_exact(s, (n - 1) as nat);
        let (earlier, t) = slots(s, (n - 1) as nat)->Ok_0;
        assert(denominator(t) == den);
        let num = numerator(t);
        let duration = num / den;
        let remainder = num % den;
        assert(duration * den + remainder == num && 0 <= remainder < den && duration >= 0)
            by (nonlinear_arith)
            requires
                den > 0,
                num >= 0,
                duration == num / den,
                remainder == num % den,
        ;
        assert((earlier + duration) * den == earlier * den + duration * den)
            by (nonlinear_arith);
        assert(n * (WHOLE_NOTE as int) == (n - 1) * (WHOLE_NOTE as int) + WHOLE_NOTE)
            by (nonlinear_arith);
        if s.remainder == 0 {
            vstd::arithmetic::div_mod::lemma_fundamental_div_mod_converse(
                n * (WHOLE_NOTE as int),
                den,
                earlier + duration,
                remainder,
            );
        }
    }
}

/// The same note `n` times in a row takes the time of `n` slots.
proof fn lemma_notes_run(start: DecoderState, note: u8, tup: usize, n: nat)
    requires
        steady(start),
        tup > 0,
        start.remainder < start.bpm * start.length * tup,
        WHOLE_NOTE + start.bpm * start.length * tup - 1 <= usize::MAX,
    ensures
        ({
            let r = run(start, notes_in_a_row(note, tup, n));
            &&& slots(DecoderState { tup, ..start }, n) matches Ok((total, t))
            &&& r.failure is None
            &&& total_duration(finished(r)) == total
            &&& (DecoderState { tup, ..r.state }) == t
        }),
    decreases n,
{
    let first = DecoderState { tup, ..start };
    let atoms = notes_in_a_row(note, tup, n);
    lemma_slots_exact(first, n);
    if n == 0 {
        assert(finished(run(start, atoms)) =~= Seq::<Event>::empty());
    } else {
        lemma_slots_exact(first, (n - 1) as nat);
        lemma_notes_run(start, note, tup, (n - 1) as nat);
        assert(atoms.drop_last() =~= notes_in_a_row(note, tup, (n - 1) as nat));
        let before = run(start, atoms.drop_last());
        let r = run(start, atoms);
        assert(r == follow(before, AtomView::N(note, tup)));
        lemma_total_duration_concat(before.events, flush(before.pending));
        lemma_flush_duration(before.pending);
        lemma_total_duration_concat(r.events, flush(r.pending));
        lemma_flush_duration(r.pending);
    }
}

/// Remainder-carried timing has bounded drift, for a decoder that reads
/// `n` notes of one tuplet divisor in a row at one length and tempo: the
/// notes take the time of `n` slots, which [`lemma_slots_exact`] bounds.
/// Their durations add up to the whole notes that they stand for, divided
/// by the number that a whole note is divided by, to within less than one
/// sample.
pub proof fn lemma_bounded_drift(start: DecoderState, note: u8, tup: usize, n: nat)
    requires
        steady(start),
        tup > 0,
        start.remainder < start.bpm * start.length * tup,
        WHOLE_NOTE + start.bpm * start.length * tup - 1 <= usize::MAX,
    ensures
        ({
            let r = run(start, notes_in_a_row(note, tup, n));
            let den = start.bpm * start.length * tup;
            let total = total_duration(finished(r));
            &&& r.failure is None
            &&& total * den + r.state.remainder == n * WHOLE_NOTE + start.remainder
            &&& -den < n * WHOLE_NOTE - total * den < den
            &&& start.remainder == 0 ==> total == (n * WHOLE_NOTE) / den
        }),
{
    lemma_notes_run(start, note, tup, n);
    lemma_slots_exact(DecoderState { tup, ..start }, n);
}

} // verus!
