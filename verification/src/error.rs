use crate::parsing_errors::{decimal, push_decimal};
use vstd::prelude::*;
use vstd::string::StringExecFns;

verus! {

/// Why a score could not be decoded.
#[derive(Debug, PartialEq, Eq, Clone, Copy, Structural)]
pub enum ErrorKind {
    /// The score asks for something that the decoder does not do.
    Unimplemented,
    /// A length was doubled beyond the largest length.
    LengthOverflow,
    /// A length that is not even was halved.
    LengthUnderflow,
    /// The octave was raised beyond the highest octave.
    OctaveOverflow,
    /// The octave was lowered below the lowest octave.
    OctaveUnderflow,
    /// The volume was raised beyond the loudest volume.
    VolumeOverflow,
    /// The volume was lowered below silence.
    VolumeUnderflow,
    /// A duration, or a number it is computed from, does not fit the machine.
    TimingOverflow,
    /// A note lies beyond the highest key of MIDI.
    NoteOutOfRange,
}

/// An error of the decoder: its kind, a few words for the user, and where
/// it is known the notation that it comes from.
#[derive(Debug)]
pub struct Error<'a> {
    pub kind: ErrorKind,
    pub msg: &'a str,
    /// The place of the atom that failed in its flattened score, counted
    /// from 0.
    pub at: Option<usize>,
    /// The place of the channel that failed in its track, counted from 0.
    pub channel: Option<usize>,
}

/// What an error tells besides its words.
pub struct ErrorView {
    pub kind: ErrorKind,
    pub at: Option<usize>,
    pub channel: Option<usize>,
}

/// An error of a kind that comes from no known place.
pub open spec fn placeless(kind: ErrorKind) -> ErrorView {
    ErrorView { kind, at: None, channel: None }
}

/// The same error, found in the channel at place `channel`.
pub open spec fn in_channel(error: ErrorView, channel: usize) -> ErrorView {
    ErrorView { kind: error.kind, at: error.at, channel: Some(channel) }
}

/// The name of an error kind, as it is shown to the user.
pub open spec fn kind_name(kind: ErrorKind) -> Seq<char> {
    match kind {
        ErrorKind::Unimplemented => "Unimplemented"@,
        ErrorKind::LengthOverflow => "LengthOverflow"@,
        ErrorKind::LengthUnderflow => "LengthUnderflow"@,
        ErrorKind::OctaveOverflow => "OctaveOverflow"@,
        ErrorKind::OctaveUnderflow => "OctaveUnderflow"@,
        ErrorKind::VolumeOverflow => "VolumeOverflow"@,
        ErrorKind::VolumeUnderflow => "VolumeUnderflow"@,
        ErrorKind::TimingOverflow => "TimingOverflow"@,
        ErrorKind::NoteOutOfRange => "NoteOutOfRange"@,
    }
}

/// The words that go with an error kind when the decoder raises it.
pub open spec fn kind_message(kind: ErrorKind) -> Seq<char> {
    match kind {
        ErrorKind::Unimplemented => "this is not implemented"@,
        ErrorKind::LengthOverflow => "length overflow, the length cannot be doubled"@,
        ErrorKind::LengthUnderflow => "length underflow, the length cannot be halved"@,
        ErrorKind::OctaveOverflow => "octave overflow, already at the highest octave"@,
        ErrorKind::OctaveUnderflow => "octave underflow, already at the lowest octave"@,
        ErrorKind::VolumeOverflow => "volume overflow, already at the loudest volume"@,
        ErrorKind::VolumeUnderflow => "volume underflow, already at the lowest volume"@,
        ErrorKind::TimingOverflow => "a duration does not fit the machine"@,
        ErrorKind::NoteOutOfRange => "a note is beyond the highest key"@,
    }
}

/// How the places that an error knows of read to the user.
pub open spec fn context_text(at: Option<usize>, channel: Option<usize>) -> Seq<char> {
    (match at {
        Some(at) => " at atom "@ + decimal(at as nat),
        None => Seq::empty(),
    }) + (match channel {
        Some(channel) => " in channel "@ + decimal(channel as nat),
        None => Seq::empty(),
    })
}

impl<'a> View for Error<'a> {
    type V = ErrorView;

    open spec fn view(&self) -> ErrorView {
        ErrorView { kind: self.kind, at: self.at, channel: self.channel }
    }
}

impl<'a> Error<'a> {
    /// An error of the given kind with the given words, from no known
    /// place.
    pub fn new(kind: ErrorKind, msg: &'a str) -> (e: Error<'a>)
        ensures
            e@ == placeless(kind),
            e.msg@ == msg@,
    {
        Error { kind, msg, at: None, channel: None }
    }

    /// The same error, found at the atom at place `at`.
    pub fn at_atom(self, at: usize) -> (e: Error<'a>)
        ensures
            e@ == (ErrorView { kind: self.kind, at: Some(at), channel: self.channel }),
            e.msg@ == self.msg@,
    {
        Error { kind: self.kind, msg: self.msg, at: Some(at), channel: self.channel }
    }

    /// The same error, found in the channel at place `channel`.
    pub fn in_channel(self, channel: usize) -> (e: Error<'a>)
        ensures
            e@ == in_channel(self@, channel),
            e.msg@ == self.msg@,
    {
        Error { kind: self.kind, msg: self.msg, at: self.at, channel: Some(channel) }
    }

    /// The error that the decoder raises for a kind, with its usual words.
    pub fn of(kind: ErrorKind) -> (e: Error<'static>)
        ensures
            e@ == placeless(kind),
            e.msg@ == kind_message(kind),
    {
        let msg: &'static str = match kind {
            ErrorKind::Unimplemented => "this is not implemented",
            ErrorKind::LengthOverflow => "length overflow, the length cannot be doubled",
            ErrorKind::LengthUnderflow => "length underflow, the length cannot be halved",
            ErrorKind::OctaveOverflow => "octave overflow, already at the highest octave",
            ErrorKind::OctaveUnderflow => "octave underflow, already at the lowest octave",
            ErrorKind::VolumeOverflow => "volume overflow, already at the loudest volume",
            ErrorKind::VolumeUnderflow => "volume underflow, already at the lowest volume",
            ErrorKind::TimingOverflow => "a duration does not fit the machine",
            ErrorKind::NoteOutOfRange => "a note is beyond the highest key",
        };
        Error { kind, msg, at: None, channel: None }
    }

    /// The error as one line of text: the name of its kind, a colon, its
    /// words, and the places it knows of.
    pub fn describe(&self) -> (text: String)
        ensures
            text@ == kind_name(self.kind) + ": "@ + self.msg@ + context_text(self.at, self.channel),
    {
        let name: &'static str = match self.kind {
            ErrorKind::Unimplemented => "Unimplemented",
            ErrorKind::LengthOverflow => "LengthOverflow",
            ErrorKind::LengthUnderflow => "LengthUnderflow",
            ErrorKind::OctaveOverflow => "OctaveOverflow",
            ErrorKind::OctaveUnderflow => "OctaveUnderflow",
            ErrorKind::VolumeOverflow => "VolumeOverflow",
            ErrorKind::VolumeUnderflow => "VolumeUnderflow",
            ErrorKind::TimingOverflow => "TimingOverflow",
            ErrorKind::NoteOutOfRange => "NoteOutOfRange",
        };
        let mut text = String::from_str(name);
        text.append(": ");
        text.append(self.msg);
        let ghost head = text@;
        if let Some(at) = self.at {
            text.append(" at atom ");
            push_decimal(&mut text, at);
        }
        let ghost middle = text@;
        if let Some(channel) = self.channel {
            text.append(" in channel ");
            push_decimal(&mut text, channel);
        }
        proof {
            let first = match self.at {
                Some(at) => " at atom "@ + decimal(at as nat),
                None => Seq::empty(),
            };
            let second = match self.channel {
                Some(channel) => " in channel "@ + decimal(channel as nat),
                None => Seq::empty(),
            };
            assert(middle =~= head + first);
            assert(text@ =~= middle + second);
            assert(text@ =~= head + (first + second));
        }
        text
    }
}

} // verus!
