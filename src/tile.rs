//! Compiling paired note-on / note-off events into timed tiles.

use vstd::prelude::*;
use crate::event::{Event, EventKind};
use crate::timeline::total_time;

verus! {

/// Pitch of the lowest key on the keyboard.
pub const KEY_OFFSET: u8 = 21;

/// Number of keys on the keyboard.
pub const KEY_COUNT: usize = 88;

/// A note interval: which key, when it starts, and how long it sounds, in
/// milliseconds from the start of the song.
#[derive(Clone, Copy, Debug, PartialEq, Eq, Structural)]
pub struct Tile {
    pub note: u8,
    pub start: u64,
    pub length: u64,
}

/// Position on the keyboard of a pitch, if the keyboard has it.
pub open spec fn key_index_of(key: u8) -> Option<int> {
    if KEY_OFFSET <= key && key < KEY_OFFSET + KEY_COUNT {
        Some(key - KEY_OFFSET)
    } else {
        None
    }
}

/// Maps a pitch to its key index, or `None` for a pitch off the keyboard.
pub fn key_index(key: u8) -> (r: Option<usize>)
    ensures
        r matches Some(i) ==> key_index_of(key) == Some(i as int),
        r is None ==> key_index_of(key) is None,
{
    if KEY_OFFSET <= key && (key as usize) < KEY_OFFSET as usize + KEY_COUNT {
        Some((key - KEY_OFFSET) as usize)
    } else {
        None
    }
}

/// Pending start time of each key, and the tiles emitted so far.
pub type CompileState = (Seq<Option<u64>>, Seq<Tile>);

/// No key pending, no tile emitted.
pub open spec fn initial_state() -> CompileState {
    (Seq::new(KEY_COUNT as nat, |i: int| None), Seq::empty())
}

/// What one event at absolute time `now` does: the first note-on of a key
/// records its start, a later one before the note-off is ignored; a note-off
/// with a recorded start emits a tile and clears the start, one without is
/// ignored; pitches off the keyboard and other events change nothing.
pub open spec fn compile_step(st: CompileState, e: Event, now: u64) -> CompileState {
    match e.kind {
        EventKind::NoteOn { key, .. } => match key_index_of(key) {
            Some(i) => if st.0[i] is None {
                (st.0.update(i, Some(now)), st.1)
            } else {
                st
            },
            None => st,
        },
        EventKind::NoteOff { key, .. } => match key_index_of(key) {
            Some(i) => match st.0[i] {
                Some(s) => (
                    st.0.update(i, None),
                    st.1.push(Tile { note: i as u8, start: s, length: (now - s) as u64 }),
                ),
                None => st,
            },
            None => st,
        },
        _ => st,
    }
}

/// The state after walking a whole timeline of relative deltas.
pub open spec fn compile_state(events: Seq<Event>) -> CompileState
    decreases events.len(),
{
    if events.len() == 0 {
        initial_state()
    } else {
        compile_step(compile_state(events.drop_last()), events.last(), total_time(events) as u64)
    }
}

/// The tiles of a timeline, in the order their note-offs occur.
pub open spec fn compiled_tiles(events: Seq<Event>) -> Seq<Tile> {
    compile_state(events).1
}

/// Every tile lies on the keyboard.
pub open spec fn tiles_on_keyboard(tiles: Seq<Tile>) -> bool {
    forall|k: int| 0 <= k < tiles.len() ==> (#[trigger] tiles[k]).note < KEY_COUNT
}

/// Every pending start lies at or before `now`.
pub open spec fn starts_before(pending: Seq<Option<u64>>, now: int) -> bool {
    forall|k: int| 0 <= k < pending.len() ==> (#[trigger] pending[k] matches Some(s) ==> s <= now)
}

proof fn lemma_total_monotone(events: Seq<Event>)
    requires
        events.len() > 0,
    ensures
        total_time(events.drop_last()) <= total_time(events),
{
}

proof fn lemma_compile_state_shape(events: Seq<Event>)
    requires
        total_time(events) <= u64::MAX,
    ensures
        compile_state(events).0.len() == KEY_COUNT,
        starts_before(compile_state(events).0, total_time(events)),
        tiles_on_keyboard(compile_state(events).1),
    decreases events.len(),
{
    if events.len() > 0 {
        let d = events.drop_last();
        lemma_total_monotone(events);
        crate::timeline::lemma_total_nonneg(d);
        lemma_compile_state_shape(d);
    }
}

/// Walks a timeline and pairs each key's note-on with its next note-off.
/// The tiles come out in the order their note-offs occur.
pub fn compile(events: &Vec<Event>) -> (r: Vec<Tile>)
    requires
        total_time(events@) <= u64::MAX,
    ensures
        r@ == compiled_tiles(events@),
        tiles_on_keyboard(r@),
{
    let mut starts: Vec<Option<u64>> = Vec::new();
    let mut k: usize = 0;
    while k < KEY_COUNT
        invariant
            k <= KEY_COUNT,
            starts@.len() == k,
            forall|j: int| 0 <= j < k ==> (#[trigger] starts@[j]) is None,
        decreases KEY_COUNT - k,
    {
        starts.push(None);
        k += 1;
    }
    assert(starts@ =~= initial_state().0);
    let mut tiles: Vec<Tile> = Vec::new();
    let mut now: u64 = 0;
    let mut i: usize = 0;
    assert(events@.take(0) =~= Seq::<Event>::empty());
    while i < events.len()
        invariant
            i <= events.len(),
            total_time(events@) <= u64::MAX,
            now as int == total_time(events@.take(i as int)),
            starts@.len() == KEY_COUNT,
            (starts@, tiles@) == compile_state(events@.take(i as int)),
            starts_before(starts@, now as int),
        decreases events.len() - i,
    {
        let e = events[i];
        let ghost pre = events@.take(i + 1);
        assert(pre.drop_last() =~= events@.take(i as int));
        proof {
            crate::timeline::lemma_total_prefix(events@, i + 1);
        }
        now = now + e.delta as u64;
        match e.kind {
            EventKind::NoteOn { key, .. } => {
                if let Some(idx) = key_index(key) {
                    if starts[idx].is_none() {
                        starts.set(idx, Some(now));
                    }
                }
            },
            EventKind::NoteOff { key, .. } => {
                if let Some(idx) = key_index(key) {
                    if let Some(start) = starts[idx] {
                        tiles.push(Tile { note: idx as u8, start, length: now - start });
                        starts.set(idx, None);
                    }
                }
            },
            _ => {},
        }
        i += 1;
    }
    assert(events@.take(events@.len() as int) =~= events@);
    proof {
        lemma_compile_state_shape(events@);
    }
    tiles
}

/// `a` goes strictly before `b`: earlier start, or the same start and a
/// lower key.
pub open spec fn tile_before(a: Tile, b: Tile) -> bool {
    a.start < b.start || (a.start == b.start && a.note < b.note)
}

/// Whether a tile has the given start and key.
pub open spec fn at_slot(start: u64, note: u8) -> spec_fn(Tile) -> bool {
    |t: Tile| t.start == start && t.note == note
}

/// Ascending by start, ties by key.
pub open spec fn tiles_sorted(s: Seq<Tile>) -> bool {
    forall|i: int, j: int| 0 <= i < j < s.len() ==> !tile_before(#[trigger] s[j], #[trigger] s[i])
}

/// `r` is `s` sorted by start and key, tiles of equal start and key kept in
/// the order they have in `s`.
pub open spec fn is_tile_sort_of(r: Seq<Tile>, s: Seq<Tile>) -> bool {
    &&& tiles_sorted(r)
    &&& forall|st: u64, n: u8| #[trigger] r.filter(at_slot(st, n)) == s.filter(at_slot(st, n))
}

proof fn lemma_tile_filter_push(s: Seq<Tile>, x: Tile, st: u64, n: u8)
    ensures
        s.push(x).filter(at_slot(st, n)) == if x.start == st && x.note == n {
            s.filter(at_slot(st, n)).push(x)
        } else {
            s.filter(at_slot(st, n))
        },
{
    reveal(Seq::filter);
    assert(s.push(x).drop_last() =~= s);
}

/// Sorts tiles ascending by start, ties by key; stable otherwise.
pub fn sort_tiles(v: &Vec<Tile>) -> (r: Vec<Tile>)
    ensures
        is_tile_sort_of(r@, v@),
{
    let mut out: Vec<Tile> = Vec::new();
    let mut i: usize = 0;
    while i < v.len()
        invariant
            i <= v.len(),
            tiles_sorted(out@),
            forall|st: u64, n: u8| #[trigger] out@.filter(at_slot(st, n)) == v@.take(i as int).filter(
                at_slot(st, n),
            ),
        decreases v.len() - i,
    {
        let x = v[i];
        let mut p: usize = out.len();
        while p > 0 && (out[p - 1].start > x.start || (out[p - 1].start == x.start && out[p
            - 1].note > x.note))
            invariant
                p <= out.len(),
                forall|k: int| p <= k < out.len() ==> tile_before(x, #[trigger] out@[k]),
            decreases p,
        {
            p -= 1;
        }
        let ghost a = out@.take(p as int);
        let ghost b = out@.skip(p as int);
        let ghost old_out = out@;
        assert(old_out =~= a + b);
        out.insert(p, x);
        assert(out@ =~= a + seq![x] + b);
        assert(v@.take(i + 1) =~= v@.take(i as int).push(x));
        assert forall|st: u64, n: u8| #[trigger] out@.filter(at_slot(st, n)) == v@.take(i + 1).filter(
            at_slot(st, n),
        ) by {
            Seq::filter_distributes_over_add(a, b, at_slot(st, n));
            Seq::filter_distributes_over_add(a + seq![x], b, at_slot(st, n));
            Seq::filter_distributes_over_add(a, seq![x], at_slot(st, n));
            lemma_tile_filter_push(v@.take(i as int), x, st, n);
            lemma_tile_filter_push(Seq::<Tile>::empty(), x, st, n);
            assert(Seq::<Tile>::empty().push(x) =~= seq![x]);
            assert(Seq::<Tile>::empty().filter(at_slot(st, n)) =~= Seq::<Tile>::empty()) by {
                reveal(Seq::filter);
            }
            if x.start == st && x.note == n {
                assert forall|k: int| 0 <= k < b.len() implies !(#[trigger] at_slot(st, n)(b[k])) by {
                    assert(tile_before(x, old_out[p + k]));
                }
                assert(b.filter(at_slot(st, n)).len() == 0) by {
                    b.lemma_all_neg_filter_empty(at_slot(st, n));
                }
                assert(old_out.filter(at_slot(st, n)) =~= a.filter(at_slot(st, n)));
                assert(out@.filter(at_slot(st, n)) =~= a.filter(at_slot(st, n)).push(x));
            } else {
                assert(out@.filter(at_slot(st, n)) =~= old_out.filter(at_slot(st, n)));
            }
        }
        assert forall|m: int, n: int| 0 <= m < n < out@.len() implies !tile_before(
            #[trigger] out@[n],
            #[trigger] out@[m],
        ) by {
            if p > 0 {
                assert(!tile_before(x, old_out[p - 1]));
            }
            if m < p && n > p {
                assert(!tile_before(old_out[p - 1], old_out[m]) || m == p - 1);
            }
            if m < p && n < p {
                assert(!tile_before(old_out[n], old_out[m]));
            }
            if m < p && n == p && m < p - 1 {
                assert(!tile_before(old_out[p - 1], old_out[m]));
            }
            if m > p {
                assert(!tile_before(old_out[n - 1], old_out[m - 1]));
            }
            if m == p && n > p {
                assert(tile_before(x, old_out[n - 1]));
            }
        }
        i += 1;
    }
    assert(v@.take(v@.len() as int) =~= v@);
    out
}

} // verus!
