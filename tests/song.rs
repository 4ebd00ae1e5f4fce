use synthy::event::{Event, EventKind};
use synthy::keyboard::{apply_key_message, gen_piano, key_type, Key, KeyType};
use synthy::song::{Lookahead, Song, SongError, DEFAULT_LOOKAHEAD_MS};
use synthy::tile::{compile, key_index, sort_tiles, Tile};
use synthy::timeline::TimelineError;

fn on(delta: u32, key: u8) -> Event {
    Event { delta, kind: EventKind::NoteOn { channel: 0, key } }
}

fn off(delta: u32, key: u8) -> Event {
    Event { delta, kind: EventKind::NoteOff { channel: 0, key } }
}

fn end(delta: u32) -> Event {
    Event::end_of_track(delta)
}

fn tile(note: u8, start: u64, length: u64) -> Tile {
    Tile { note, start, length }
}

#[test]
fn key_index_range() {
    assert_eq!(key_index(21), Some(0));
    assert_eq!(key_index(60), Some(39));
    assert_eq!(key_index(108), Some(87));
    assert_eq!(key_index(20), None);
    assert_eq!(key_index(109), None);
    assert_eq!(key_index(0), None);
}

#[test]
fn two_tracks_compile_to_sorted_score() {
    let a = vec![on(0, 60), off(500, 60), end(0)];
    let b = vec![on(100, 64), off(200, 64), end(0)];
    let song = Song::from_tracks(vec![a, b]).unwrap();
    assert_eq!(song.tiles, vec![tile(39, 0, 500), tile(43, 100, 200)]);
    assert!(song.active_tiles.is_empty());
}

#[test]
fn unmatched_note_off_gives_no_tile() {
    let song = Song::from_tracks(vec![vec![off(0, 60), end(10)]]).unwrap();
    assert!(song.tiles.is_empty());
}

#[test]
fn retrigger_keeps_first_on() {
    let events = vec![on(10, 60), on(5, 60), off(5, 60), off(5, 60), end(0)];
    assert_eq!(compile(&events), vec![tile(39, 10, 10)]);
}

#[test]
fn out_of_range_pitch_is_skipped() {
    let events = vec![on(0, 10), on(0, 120), off(5, 10), off(5, 120), on(0, 21), off(1, 21)];
    assert_eq!(compile(&events), vec![tile(0, 10, 1)]);
}

#[test]
fn compiled_tiles_lie_on_keyboard() {
    let mut events = vec![];
    for key in 0..128u8 {
        events.push(on(1, key));
        events.push(off(2, key));
    }
    let tiles = compile(&events);
    assert_eq!(tiles.len(), 88);
    assert!(tiles.iter().all(|t| (t.note as usize) < 88 && t.length == 2));
}

#[test]
fn tiles_sort_by_start_then_key() {
    let v = vec![tile(5, 10, 1), tile(3, 10, 2), tile(1, 0, 3), tile(3, 10, 0)];
    let r = sort_tiles(&v);
    assert_eq!(r, vec![tile(1, 0, 3), tile(3, 10, 2), tile(3, 10, 0), tile(5, 10, 1)]);
}

#[test]
fn tile_times() {
    let t = tile(0, 5000, 700);
    assert_eq!(t.time_to_activate(1000, 2000), 4000);
    assert_eq!(t.time_to_activate(1000, 7000), 0);
    assert_eq!(t.time_to_die(1000, 2000), 4700);
    assert_eq!(t.time_to_die(1000, 9000), 0);
}

#[test]
fn lookahead_window_scenario() {
    let la = Lookahead::new(2000);
    let t = tile(0, 5000, 400);
    assert!(!t.is_alive(0, 2999, la.deltat()));
    assert!(t.is_alive(0, 3000, la.deltat()));
    assert!(!t.is_dead(0, 5399));
    assert!(t.is_dead(0, 5400));
    assert!(t.in_scope(0, 3000, 2000));
    assert!(!t.in_scope(0, 5400, 2000));

    let mut song = Song::from_tiles(vec![t]);
    let epoch = 10_000;
    song.update(epoch, epoch + 2999, &la);
    assert!(song.active_tiles.is_empty());
    song.update(epoch, epoch + 3000, &la);
    assert_eq!(song.active_tiles, vec![t]);
    song.update(epoch, epoch + 5399, &la);
    assert_eq!(song.active_tiles, vec![t]);
    song.update(epoch, epoch + 5400, &la);
    assert!(song.active_tiles.is_empty());
    assert!(song.pending_tiles.is_empty());
    assert_eq!(song.tiles, vec![t]);
}

#[test]
fn active_before_expired() {
    let la = Lookahead::new(1);
    let t = tile(0, 100, 0);
    assert!(t.is_alive(0, 99, la.deltat()));
    assert!(!t.is_dead(0, 99));
    assert!(t.is_dead(0, 100));
}

#[test]
fn update_twice_moves_nothing_the_second_time() {
    let la = Lookahead::default();
    let tiles = vec![tile(0, 0, 100), tile(1, 1000, 5000), tile(2, 2500, 10), tile(3, 9000, 1)];
    let mut song = Song::from_tiles(tiles);
    song.update(0, 2000, &la);
    let active = song.active_tiles.clone();
    let pending = song.pending_tiles.clone();
    assert_eq!(active, vec![tile(1, 1000, 5000), tile(2, 2500, 10)]);
    song.update(0, 2000, &la);
    assert_eq!(song.active_tiles, active);
    assert_eq!(song.pending_tiles, pending);
}

#[test]
fn expiry_only_checks_head() {
    let la = Lookahead::new(2000);
    let mut song = Song::from_tiles(vec![tile(0, 0, 1000), tile(1, 10, 5)]);
    song.update(0, 500, &la);
    assert_eq!(song.active_tiles.len(), 2);
    song.update(0, 1000, &la);
    assert!(song.active_tiles.is_empty());
    let mut song = Song::from_tiles(vec![tile(0, 0, 1000), tile(1, 10, 5)]);
    song.update(0, 100, &la);
    assert_eq!(song.active_tiles.len(), 2);
}

#[test]
fn lookahead_config() {
    let mut la = Lookahead::default();
    assert_eq!(la.deltat(), DEFAULT_LOOKAHEAD_MS);
    assert_eq!(la.deltat(), 2000);
    la.set_deltat(500);
    assert_eq!(la.deltat(), 500);
}

#[test]
fn song_errors() {
    assert_eq!(
        Song::from_tracks(vec![vec![on(0, 60)]]).err(),
        Some(TimelineError::MissingEndOfTrack)
    );
    assert_eq!(
        Song::from_tracks(vec![vec![on(u32::MAX, 60), end(1)]]).err(),
        Some(TimelineError::Overflow)
    );
}

fn midi_file(track: &[u8]) -> Vec<u8> {
    let mut bytes = b"MThd".to_vec();
    bytes.extend_from_slice(&[0, 0, 0, 6, 0, 0, 0, 1, 0, 96]);
    bytes.extend_from_slice(b"MTrk");
    bytes.extend_from_slice(&(track.len() as u32).to_be_bytes());
    bytes.extend_from_slice(track);
    bytes
}

#[test]
fn song_from_midi_bytes() {
    // note-on key 60, 500 ticks, note-off key 60, end of track
    let track = [0x00, 0x90, 60, 64, 0x83, 0x74, 0x80, 60, 64, 0x00, 0xFF, 0x2F, 0x00];
    let song = Song::new(&midi_file(&track)).unwrap();
    assert_eq!(song.tiles, vec![tile(39, 0, 500)]);
}

#[test]
fn song_from_midi_bytes_without_end_marker() {
    let track = [0x00, 0x90, 60, 64, 0x83, 0x74, 0x80, 60, 64];
    let r = Song::new(&midi_file(&track));
    assert_eq!(r.err(), Some(SongError::Timeline(TimelineError::MissingEndOfTrack)));
}

#[test]
fn song_from_garbage_bytes() {
    assert_eq!(Song::new(b"not a midi file").err(), Some(SongError::Parse));
}

#[test]
fn key_types_follow_pitch_class() {
    assert_eq!(key_type(0), Some(KeyType::WHITE));
    assert_eq!(key_type(1), Some(KeyType::BLACK));
    assert_eq!(key_type(3), Some(KeyType::WHITE));
    assert_eq!(key_type(4), Some(KeyType::BLACK));
    assert_eq!(key_type(87), Some(KeyType::WHITE));
    assert_eq!(key_type(88), None);
}

#[test]
fn piano_layout_offsets() {
    let keys = gen_piano(20, 12);
    assert_eq!(keys.len(), 88);
    assert_eq!(keys[0], Key { key_type: KeyType::WHITE, offset: 0 });
    assert_eq!(keys[1], Key { key_type: KeyType::BLACK, offset: 14 });
    assert_eq!(keys[2], Key { key_type: KeyType::WHITE, offset: 20 });
    assert_eq!(keys[3], Key { key_type: KeyType::WHITE, offset: 40 });
    assert_eq!(keys[87], Key { key_type: KeyType::WHITE, offset: 51 * 20 });
    assert_eq!(keys.iter().filter(|k| k.key_type == KeyType::WHITE).count(), 52);
}

#[test]
fn key_messages_update_held_keys() {
    let mut keys = [false; 88];
    apply_key_message(&mut keys, &[0x90, 60, 100]);
    assert!(keys[39]);
    apply_key_message(&mut keys, &[0x80, 60, 0]);
    assert!(!keys[39]);
    apply_key_message(&mut keys, &[0x90, 21, 1]);
    assert!(keys[0]);
    apply_key_message(&mut keys, &[0x90, 10, 1]);
    apply_key_message(&mut keys, &[0x90, 120, 1]);
    apply_key_message(&mut keys, &[0x90]);
    assert_eq!(keys.iter().filter(|&&k| k).count(), 1);
}
