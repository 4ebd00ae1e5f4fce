//! The live tile scheduler: which tiles are pending, active or expired
//! against a wall clock.
//!
//! All instants are milliseconds on one monotonic clock; `reference` is the
//! instant the song started playing.

use vstd::prelude::*;
use crate::event::Event;
use crate::smf::{parse_smf, smf_tracks};
use crate::tile::{
    Tile, KEY_COUNT, compile, compiled_tiles, is_tile_sort_of, sort_tiles, tiles_on_keyboard,
    tiles_sorted,
};
use crate::timeline::{
    TimelineError, all_ended, all_fit, as_merged, is_timeline_of, lemma_merge_total, max_end,
    total_time, tracks_view,
};

verus! {

/// The lookahead window used until it is changed: two seconds.
pub const DEFAULT_LOOKAHEAD_MS: u64 = 2000;

/// Instant at which a tile becomes visible.
pub open spec fn activation_time(t: Tile, reference: u64, lookahead: u64) -> int {
    reference + t.start - lookahead
}

/// Instant at which a tile stops sounding.
pub open spec fn expiry_time(t: Tile, reference: u64) -> int {
    reference + t.start + t.length
}

/// At `now` the tile is within the lookahead window, or past it.
pub open spec fn alive_at(t: Tile, reference: u64, now: u64, lookahead: u64) -> bool {
    now >= activation_time(t, reference, lookahead)
}

/// At `now` the tile has ended.
pub open spec fn dead_at(t: Tile, reference: u64, now: u64) -> bool {
    now >= expiry_time(t, reference)
}

impl Tile {
    /// Time left until the tile's start, zero once it has started.
    pub fn time_to_activate(&self, reference: u64, now: u64) -> (r: u64)
        requires
            reference + self.start <= u64::MAX,
        ensures
            r == if reference + self.start > now {
                reference + self.start - now
            } else {
                0
            },
    {
        (reference + self.start).saturating_sub(now)
    }

    /// Time left until the tile ends, zero once it has ended.
    pub fn time_to_die(&self, reference: u64, now: u64) -> (r: u64)
        requires
            expiry_time(*self, reference) <= u64::MAX,
        ensures
            r == if expiry_time(*self, reference) > now {
                expiry_time(*self, reference) - now
            } else {
                0
            },
    {
        (reference + self.start + self.length).saturating_sub(now)
    }

    /// Whether the tile is within the lookahead window, or past it.
    pub fn is_alive(&self, reference: u64, now: u64, lookahead: u64) -> (r: bool)
        ensures
            r == alive_at(*self, reference, now, lookahead),
    {
        now as u128 + lookahead as u128 >= reference as u128 + self.start as u128
    }

    /// Whether the tile has ended.
    pub fn is_dead(&self, reference: u64, now: u64) -> (r: bool)
        ensures
            r == dead_at(*self, reference, now),
    {
        now as u128 >= reference as u128 + self.start as u128 + self.length as u128
    }

    /// Whether the tile is visible now: alive and not yet dead.
    pub fn in_scope(&self, reference: u64, now: u64, lookahead: u64) -> (r: bool)
        ensures
            r == (alive_at(*self, reference, now, lookahead) && !dead_at(*self, reference, now)),
    {
        self.is_alive(reference, now, lookahead) && !self.is_dead(reference, now)
    }
}

/// The lookahead window: how long before its start a tile becomes visible.
/// One value, shared by whoever configures it and the scheduler that reads it
/// on every tick.
#[derive(Clone, Copy, Debug, PartialEq, Eq, Structural)]
pub struct Lookahead {
    ms: u64,
}

impl Lookahead {
    /// A window of `ms` milliseconds.
    pub fn new(ms: u64) -> (r: Lookahead)
        ensures
            r.view() == ms,
    {
        Lookahead { ms }
    }

    pub closed spec fn view(&self) -> u64 {
        self.ms
    }

    /// The current window, in milliseconds.
    pub fn deltat(&self) -> (r: u64)
        ensures
            r == self.view(),
    {
        self.ms
    }

    /// Replaces the window; the next read sees the new value.
    pub fn set_deltat(&mut self, ms: u64)
        ensures
            final(self).view() == ms,
    {
        self.ms = ms;
    }
}

impl Default for Lookahead {
    fn default() -> (r: Lookahead)
        ensures
            r.view() == DEFAULT_LOOKAHEAD_MS,
    {
        Lookahead { ms: DEFAULT_LOOKAHEAD_MS }
    }
}

/// How far activation gets from `a`: past every tile from `a` on that is
/// alive, stopping at the first that is not.
pub open spec fn activate_upto(tiles: Seq<Tile>, a: int, reference: u64, now: u64, lookahead: u64) -> int
    decreases tiles.len() - a,
{
    if 0 <= a < tiles.len() && alive_at(tiles[a], reference, now, lookahead) {
        activate_upto(tiles, a + 1, reference, now, lookahead)
    } else {
        a
    }
}

/// How far expiry gets from `e` among the tiles activated before `a`: past
/// every tile from `e` on that is dead, stopping at the first that is not.
pub open spec fn expire_upto(tiles: Seq<Tile>, e: int, a: int, reference: u64, now: u64) -> int
    decreases a - e,
{
    if 0 <= e < a && e < tiles.len() && dead_at(tiles[e], reference, now) {
        expire_upto(tiles, e + 1, a, reference, now)
    } else {
        e
    }
}

/// Why a song cannot be loaded.
#[derive(Clone, Copy, Debug, PartialEq, Eq, Structural)]
pub enum SongError {
    /// The bytes are not a Standard MIDI File.
    Parse,
    /// The tracks cannot be merged into one timeline.
    Timeline(TimelineError),
}

/// A loaded song: its sorted tiles, and the scheduler's views of them.
pub struct Song {
    /// Every tile of the song, ascending by start, ties by key.
    pub tiles: Vec<Tile>,
    /// The tiles not yet activated, latest first.
    pub pending_tiles: Vec<Tile>,
    /// The tiles activated and not yet expired, ascending by start.
    pub active_tiles: Vec<Tile>,
}

impl Song {
    /// Number of tiles that have been activated so far.
    pub open spec fn activated(&self) -> int {
        self.tiles@.len() - self.pending_tiles@.len()
    }

    /// Number of tiles that have expired so far.
    pub open spec fn expired(&self) -> int {
        self.activated() - self.active_tiles@.len()
    }

    pub open spec fn wf(&self) -> bool {
        &&& self.pending_tiles@.len() <= self.tiles@.len()
        &&& self.active_tiles@.len() <= self.activated()
        &&& forall|k: int|
            0 <= k < self.pending_tiles@.len() ==> #[trigger] self.pending_tiles@[k]
                == self.tiles@[self.tiles@.len() - 1 - k]
        &&& forall|k: int|
            0 <= k < self.active_tiles@.len() ==> #[trigger] self.active_tiles@[k]
                == self.tiles@[self.expired() + k]
        &&& tiles_sorted(self.tiles@)
        &&& tiles_on_keyboard(self.tiles@)
    }

    /// A song over the given tiles, in their sorted order, with nothing
    /// activated yet.
    pub fn from_tiles(tiles: Vec<Tile>) -> (r: Song)
        requires
            tiles_on_keyboard(tiles@),
        ensures
            is_tile_sort_of(r.tiles@, tiles@),
            r.wf(),
            r.activated() == 0,
            r.active_tiles@.len() == 0,
    {
        let sorted = sort_tiles(&tiles);
        proof {
            assert forall|k: int| 0 <= k < sorted@.len() implies (#[trigger] sorted@[k]).note
                < KEY_COUNT by {
                lemma_sorted_tile_on_keyboard(sorted@, tiles@, k);
            }
        }
        let mut pending: Vec<Tile> = Vec::new();
        let mut i: usize = sorted.len();
        while i > 0
            invariant
                i <= sorted@.len(),
                pending@.len() == sorted@.len() - i,
                forall|k: int| 0 <= k < pending@.len() ==> #[trigger] pending@[k] == sorted@[sorted@.len() - 1 - k],
            decreases i,
        {
            i -= 1;
            pending.push(sorted[i]);
        }
        Song { tiles: sorted, pending_tiles: pending, active_tiles: Vec::new() }
    }

    /// Loads a song from its tracks: merges them, compiles the tiles and
    /// sorts them.
    pub fn from_tracks(tracks: Vec<Vec<Event>>) -> (r: Result<Song, TimelineError>)
        ensures
            r is Ok <==> all_ended(tracks_view(tracks@)) && all_fit(tracks_view(tracks@)),
            !all_ended(tracks_view(tracks@)) ==> r == Err::<Song, _>(TimelineError::MissingEndOfTrack),
            all_ended(tracks_view(tracks@)) && !all_fit(tracks_view(tracks@)) ==> r == Err::<
                Song,
                _,
            >(TimelineError::Overflow),
            r matches Ok(song) ==> song.wf() && song.activated() == 0
                && song.active_tiles@.len() == 0,
            r matches Ok(song) ==> exists|w: Seq<Event>|
                is_timeline_of(w, tracks_view(tracks@)) && is_tile_sort_of(
                    song.tiles@,
                    compiled_tiles(w),
                ),
    {
        let ghost tv = tracks_view(tracks@);
        match as_merged(tracks) {
            Ok(timeline) => {
                proof {
                    lemma_merge_total(timeline@, tv);
                    lemma_max_end_fits(tv);
                }
                let tiles = compile(&timeline);
                let song = Song::from_tiles(tiles);
                assert(is_timeline_of(timeline@, tv));
                Ok(song)
            },
            Err(e) => Err(e),
        }
    }

    /// Loads a song from the contents of a Standard MIDI File.
    pub fn new(contents: &[u8]) -> (r: Result<Song, SongError>)
        ensures
            smf_tracks(contents@) is None ==> r == Err::<Song, _>(SongError::Parse),
            smf_tracks(contents@) matches Some(tv) ==> (r is Ok <==> all_ended(tv) && all_fit(tv)),
            smf_tracks(contents@) matches Some(tv) ==> (!all_ended(tv) ==> r == Err::<Song, _>(
                SongError::Timeline(TimelineError::MissingEndOfTrack),
            )),
            smf_tracks(contents@) matches Some(tv) ==> (all_ended(tv) && !all_fit(tv) ==> r == Err::<
                Song,
                _,
            >(SongError::Timeline(TimelineError::Overflow))),
            r matches Ok(song) ==> song.wf() && song.activated() == 0
                && song.active_tiles@.len() == 0,
            r matches Ok(song) ==> exists|w: Seq<Event>|
                is_timeline_of(w, smf_tracks(contents@)->0) && is_tile_sort_of(
                    song.tiles@,
                    compiled_tiles(w),
                ),
    {
        match parse_smf(contents) {
            None => Err(SongError::Parse),
            Some(tracks) => match Song::from_tracks(tracks) {
                Ok(song) => Ok(song),
                Err(e) => Err(SongError::Timeline(e)),
            },
        }
    }

    /// Moves newly visible tiles from pending to active, then drops expired
    /// tiles from the head of the active view.
    pub fn update(&mut self, reference: u64, now: u64, lookahead: &Lookahead)
        requires
            old(self).wf(),
        ensures
            final(self).wf(),
            final(self).tiles@ == old(self).tiles@,
            final(self).activated() == activate_upto(
                old(self).tiles@,
                old(self).activated(),
                reference,
                now,
                lookahead.view(),
            ),
            final(self).expired() == expire_upto(
                old(self).tiles@,
                old(self).expired(),
                final(self).activated(),
                reference,
                now,
            ),
    {
        let la = lookahead.deltat();
        let ghost tiles = self.tiles@;
        let ghost target = activate_upto(tiles, self.activated(), reference, now, la);
        let ghost e0 = self.expired();
        while self.pending_tiles.len() > 0 && self.pending_tiles[self.pending_tiles.len()
            - 1].is_alive(reference, now, la)
            invariant
                self.wf(),
                self.tiles@ == tiles,
                activate_upto(tiles, self.activated(), reference, now, la) == target,
                self.expired() == e0,
            decreases self.pending_tiles@.len(),
        {
            let t = self.pending_tiles.pop().unwrap();
            assert(t == tiles[self.activated() - 1]);
            self.active_tiles.push(t);
            assert forall|k: int| 0 <= k < self.active_tiles@.len() implies #[trigger] self.active_tiles@[k]
                == self.tiles@[self.expired() + k] by {}
        }
        let ghost a = self.activated();
        let ghost target_e = expire_upto(tiles, self.expired(), a, reference, now);
        while self.active_tiles.len() > 0 && self.active_tiles[0].is_dead(reference, now)
            invariant
                self.wf(),
                self.tiles@ == tiles,
                self.activated() == a,
                expire_upto(tiles, self.expired(), a, reference, now) == target_e,
            decreases self.active_tiles@.len(),
        {
            self.active_tiles.remove(0);
            assert forall|k: int| 0 <= k < self.active_tiles@.len() implies #[trigger] self.active_tiles@[k]
                == self.tiles@[self.expired() + k] by {}
        }
    }
}

proof fn lemma_sorted_tile_on_keyboard(r: Seq<Tile>, s: Seq<Tile>, k: int)
    requires
        is_tile_sort_of(r, s),
        tiles_on_keyboard(s),
        0 <= k < r.len(),
    ensures
        r[k].note < KEY_COUNT,
{
    broadcast use Seq::lemma_filter_contains, Seq::lemma_filter_contains_rev;

    let x = r[k];
    let p = crate::tile::at_slot(x.start, x.note);
    assert(r.filter(p).contains(x));
    assert(s.filter(p) == r.filter(p));
    assert(s.contains(x));
}

proof fn lemma_max_end_fits(tracks: Seq<Seq<Event>>)
    requires
        all_fit(tracks),
    ensures
        max_end(tracks) <= u32::MAX,
    decreases tracks.len(),
{
    if tracks.len() > 0 {
        let d = tracks.drop_last();
        assert forall|i: int| 0 <= i < d.len() implies total_time(#[trigger] d[i]) <= u32::MAX by {
            assert(d[i] == tracks[i]);
        }
        lemma_max_end_fits(d);
        assert(tracks.last() == tracks[tracks.len() - 1]);
    }
}

proof fn lemma_activate_stops(tiles: Seq<Tile>, a: int, reference: u64, now: u64, lookahead: u64)
    requires
        0 <= a,
    ensures
        a <= activate_upto(tiles, a, reference, now, lookahead),
        activate_upto(tiles, activate_upto(tiles, a, reference, now, lookahead), reference, now, lookahead)
            == activate_upto(tiles, a, reference, now, lookahead),
    decreases tiles.len() - a,
{
    if 0 <= a < tiles.len() && alive_at(tiles[a], reference, now, lookahead) {
        lemma_activate_stops(tiles, a + 1, reference, now, lookahead);
    }
}

proof fn lemma_expire_stops(tiles: Seq<Tile>, e: int, a: int, reference: u64, now: u64)
    ensures
        expire_upto(tiles, expire_upto(tiles, e, a, reference, now), a, reference, now)
            == expire_upto(tiles, e, a, reference, now),
    decreases a - e,
{
    if 0 <= e < a && e < tiles.len() && dead_at(tiles[e], reference, now) {
        lemma_expire_stops(tiles, e + 1, a, reference, now);
    }
}

/// Updating twice at the same instant: the second update moves no tile.
pub proof fn lemma_update_idempotent(
    tiles: Seq<Tile>,
    activated: int,
    expired: int,
    reference: u64,
    now: u64,
    lookahead: u64,
)
    requires
        0 <= expired <= activated,
    ensures
        ({
            let a1 = activate_upto(tiles, activated, reference, now, lookahead);
            let e1 = expire_upto(tiles, expired, a1, reference, now);
            &&& activate_upto(tiles, a1, reference, now, lookahead) == a1
            &&& expire_upto(tiles, e1, a1, reference, now) == e1
        }),
{
    lemma_activate_stops(tiles, activated, reference, now, lookahead);
    let a1 = activate_upto(tiles, activated, reference, now, lookahead);
    lemma_expire_stops(tiles, expired, a1, reference, now);
}

/// With a positive lookahead window a tile becomes active strictly before it
/// expires, and any instant at which it has expired is one at which it is
/// active.
pub proof fn lemma_monotone_windows(t: Tile, reference: u64, lookahead: u64)
    requires
        lookahead > 0,
    ensures
        activation_time(t, reference, lookahead) < expiry_time(t, reference),
        forall|now: u64| dead_at(t, reference, now) ==> alive_at(t, reference, now, lookahead),
{
}

/// Every tile of a song's score lies on the keyboard, and the score is
/// ascending by start.
pub proof fn lemma_score_tiles_valid(song: &Song)
    requires
        song.wf(),
    ensures
        forall|k: int|
            0 <= k < song.tiles@.len() ==> 0 <= (#[trigger] song.tiles@[k]).note < KEY_COUNT
                && song.tiles@[k].length >= 0,
        forall|i: int, j: int|
            0 <= i < j < song.tiles@.len() ==> #[trigger] song.tiles@[i].start
                <= #[trigger] song.tiles@[j].start,
{
}

} // verus!
