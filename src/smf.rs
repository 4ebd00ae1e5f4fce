//! Reading the tracks of a Standard MIDI File.

use vstd::prelude::*;
use midly::{EventKind as MidiKind, MetaMessage, MidiMessage};
use crate::event::{Event, EventKind};
use crate::timeline::tracks_view;

verus! {

/// The tracks that the MIDI file parser reads from `bytes`, each event owned
/// and reduced to what the visualizer uses; `None` where the bytes are not a
/// Standard MIDI File.
pub uninterp spec fn smf_tracks(bytes: Seq<u8>) -> Option<Seq<Seq<Event>>>;

/// Relies on midly::Smf::parse, which reads a Standard MIDI File into tracks
/// of events (a result that depends on the bytes alone). Each event is
/// converted one for one: its delta, and its kind as note-on, note-off,
/// end-of-track or other.
#[verifier::external_body]
pub(crate) fn parse_smf(bytes: &[u8]) -> (r: Option<Vec<Vec<Event>>>)
    ensures
        r is Some <==> smf_tracks(bytes@) is Some,
        r matches Some(t) ==> smf_tracks(bytes@) == Some(tracks_view(t@)),
{
    let smf = midly::Smf::parse(bytes).ok()?;
    let conv = |e: &midly::Event| Event { delta: e.delta.as_int(), kind: match e.kind {
        MidiKind::Midi { channel, message: MidiMessage::NoteOn { key, .. } } =>
            EventKind::NoteOn { channel: channel.as_int(), key: key.as_int() },
        MidiKind::Midi { channel, message: MidiMessage::NoteOff { key, .. } } =>
            EventKind::NoteOff { channel: channel.as_int(), key: key.as_int() },
        MidiKind::Meta(MetaMessage::EndOfTrack) => EventKind::EndOfTrack,
        _ => EventKind::Other,
    } };
    Some(smf.tracks.iter().map(|t| t.iter().map(conv).collect()).collect())
}

} // verus!
