//! # Bleeperpreter
//!
//! A music-macro-language interpreter with real math inside.
//!
//! A score is a line of text: notes of an alphabet, commands that set or
//! shift the octave, the length and the volume, loops and tuplets. The
//! library reads it, expands it, times it and mixes it:
//!
//! - [`grammar`] says what a text means, and [`parsing`] reads it into
//!   [`structure::Atom`]s, with errors that are located by line and column
//!   ([`parsing_errors`], [`position`]); [`serialize`] writes a score back,
//!   [`round_trip`] shows that reading what was written gives the score
//!   again, and [`blanks`] that blanks between tokens mean nothing;
//! - [`flatten`] says what a score expands to, and [`iter`] walks a score
//!   and yields its primitive atoms only;
//! - [`timing`] says how a decoder runs through those atoms, down to the
//!   sample, and [`decoder`] does it and asks a generator for the sound of
//!   each note;
//! - [`mixing`] decodes the channels of a track and mixes them;
//! - [`midi`] turns a song into the events of a MIDI file instead.
//!
//! Samples are whole numbers throughout: a generator gives `i32` samples,
//! and what amplitude stands for full scale is for its caller to say.

pub mod blanks;
pub mod decoder;
pub mod error;
pub mod flatten;
pub mod grammar;
pub mod iter;
pub mod midi;
pub mod mixing;
pub mod parsing;
pub mod parsing_errors;
pub mod position;
pub mod proc;
pub mod round_trip;
pub mod serialize;
pub mod structure;
pub mod timing;

pub use iter::FlattenedNoteIterator;
pub use mixing::{Channel, Track};
pub use structure::{Atom, Notes};
