//! Owned MIDI-like events, decoupled from any parsed file buffer.

use vstd::prelude::*;

verus! {

/// What an event means to the visualizer.
#[derive(Clone, Copy, Debug, PartialEq, Eq, Structural)]
pub enum EventKind {
    /// A key starts sounding.
    NoteOn { channel: u8, key: u8 },
    /// A key stops sounding.
    NoteOff { channel: u8, key: u8 },
    /// The end-of-track marker.
    EndOfTrack,
    /// Any other event; carried along for timing only.
    Other,
}

/// A timestamped event. Depending on context `delta` is either relative to
/// the previous event or an absolute time, in milliseconds.
#[derive(Clone, Copy, Debug, PartialEq, Eq, Structural)]
pub struct Event {
    pub delta: u32,
    pub kind: EventKind,
}

impl Event {
    /// The end-of-track marker with the given delta.
    pub fn end_of_track(delta: u32) -> (r: Event)
        ensures
            r == (Event { delta, kind: EventKind::EndOfTrack }),
    {
        Event { delta, kind: EventKind::EndOfTrack }
    }

    /// Whether this event is an end-of-track marker.
    pub fn is_end_of_track(&self) -> (r: bool)
        ensures
            r == (self.kind == EventKind::EndOfTrack),
    {
        match self.kind {
            EventKind::EndOfTrack => true,
            _ => false,
        }
    }
}

} // verus!
