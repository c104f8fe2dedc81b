//! The event vocabulary of the reducer.
//!
//! Every producer — the scanners, the input poller, the writer —
//! speaks to the single-threaded reducer only through values of
//! `Event`, pushed into one shared queue; the reducer depends on the
//! variants alone, never on which thread sent them.

use crate::destination::Destination;
use crate::progress::Bare;
use crate::session::File;
use vstd::prelude::*;

verus! {

/// The keys the reducer reacts to.
#[derive(PartialEq, Eq, Structural, Clone, Copy, Debug)]
pub enum Key {
    Char(char),
    Enter,
    Backspace,
    Esc,
    Other,
}

/// One event for the reducer.
pub enum Event {
    /// A key pressed by the operator.
    Key(Key),
    /// A source video file discovered by the importer scanner.
    File(File),
    /// A candidate destination directory discovered by the
    /// destination scanner.
    Destination(Destination),
    /// A dated session marker found under a destination directory:
    /// the date it names, and the directory holding it.
    SessionDestination { date: String, destination: Destination },
    /// A non-fatal failure to show the operator.
    Error(String),
    /// A periodic tick carrying what the pollers saw: the player's
    /// playlist position and the writer's progress, when present.
    Tick { player_pos: Option<usize>, progress: Option<Bare> },
}

} // verus!
