use synthy::event::{Event, EventKind};
use synthy::timeline::{as_merged, fix_track_end, stable_sort_by_time, to_abstime, to_reltime, TimelineError};

fn on(delta: u32, key: u8) -> Event {
    Event { delta, kind: EventKind::NoteOn { channel: 0, key } }
}

fn off(delta: u32, key: u8) -> Event {
    Event { delta, kind: EventKind::NoteOff { channel: 0, key } }
}

fn end(delta: u32) -> Event {
    Event::end_of_track(delta)
}

fn other(delta: u32) -> Event {
    Event { delta, kind: EventKind::Other }
}

fn deltas(v: &[Event]) -> Vec<u32> {
    v.iter().map(|e| e.delta).collect()
}

#[test]
fn abstime_running_sum() {
    let track = vec![on(10, 60), off(5, 60), other(0), end(7)];
    let abs = to_abstime(track.clone()).unwrap();
    assert_eq!(deltas(&abs), vec![10, 15, 15, 22]);
    assert_eq!(abs[1].kind, track[1].kind);
}

#[test]
fn abstime_overflow_is_error() {
    let track = vec![on(u32::MAX, 60), off(1, 60)];
    assert_eq!(to_abstime(track), Err(TimelineError::Overflow));
}

#[test]
fn abstime_at_limit_is_fine() {
    let track = vec![on(u32::MAX - 1, 60), off(1, 60)];
    assert_eq!(deltas(&to_abstime(track).unwrap()), vec![u32::MAX - 1, u32::MAX]);
}

#[test]
fn reltime_differences() {
    let abs = vec![on(10, 60), off(15, 60), end(22)];
    assert_eq!(deltas(&to_reltime(abs).unwrap()), vec![10, 5, 7]);
}

#[test]
fn reltime_non_monotonic_is_error() {
    let abs = vec![on(10, 60), off(5, 60)];
    assert_eq!(to_reltime(abs), Err(TimelineError::NonMonotonic));
}

#[test]
fn round_trip_keeps_track() {
    let track = vec![on(3, 60), on(0, 64), off(100, 60), other(1), off(0, 64), end(9)];
    let back = to_reltime(to_abstime(track.clone()).unwrap()).unwrap();
    assert_eq!(back, track);
}

#[test]
fn round_trip_empty_track() {
    assert_eq!(to_reltime(to_abstime(vec![]).unwrap()).unwrap(), vec![]);
}

#[test]
fn fix_track_end_moves_marker_delta_forward() {
    // absolute times: on 0, end 5, off 8, end 10, other 12
    let v = vec![on(0, 60), end(5), off(3, 60), end(2), other(2)];
    let w = fix_track_end(v);
    assert_eq!(w, vec![on(0, 60), off(8, 60), other(4), end(0)]);
}

#[test]
fn fix_track_end_trailing_markers_collapse() {
    let v = vec![on(1, 60), end(4), end(6)];
    assert_eq!(fix_track_end(v), vec![on(1, 60), end(10)]);
}

#[test]
fn fix_track_end_empty_gives_lone_marker() {
    assert_eq!(fix_track_end(vec![]), vec![end(0)]);
}

#[test]
fn stable_sort_keeps_ties_in_order() {
    let v = vec![on(5, 1), on(3, 2), on(5, 3), on(3, 4), on(0, 5)];
    let r = stable_sort_by_time(&v);
    assert_eq!(r, vec![on(0, 5), on(3, 2), on(3, 4), on(5, 1), on(5, 3)]);
}

#[test]
fn merge_two_tracks() {
    let a = vec![on(0, 60), off(500, 60), end(0)];
    let b = vec![on(100, 64), off(200, 64), end(0)];
    let w = as_merged(vec![a, b]).unwrap();
    assert_eq!(w, vec![on(0, 60), on(100, 64), off(200, 64), off(200, 60), end(0)]);
}

#[test]
fn merge_ties_follow_track_order() {
    let a = vec![on(10, 60), end(0)];
    let b = vec![on(10, 64), end(0)];
    let w = as_merged(vec![a, b]).unwrap();
    assert_eq!(w, vec![on(10, 60), on(0, 64), end(0)]);
}

#[test]
fn merge_is_deterministic() {
    let tracks = vec![
        vec![on(0, 60), off(7, 60), on(0, 60), off(7, 60), end(3)],
        vec![on(7, 62), off(0, 62), end(20)],
        vec![other(0), on(14, 65), off(1, 65), end(0)],
    ];
    let w1 = as_merged(tracks.clone()).unwrap();
    let w2 = as_merged(tracks).unwrap();
    assert_eq!(w1, w2);
}

#[test]
fn merge_total_is_latest_end() {
    let tracks = vec![
        vec![on(0, 60), off(7, 60), end(3)],
        vec![on(7, 62), off(0, 62), end(20)],
        vec![on(14, 65), off(1, 65), end(0)],
    ];
    let w = as_merged(tracks).unwrap();
    let total: u64 = w.iter().map(|e| e.delta as u64).sum();
    assert_eq!(total, 27);
    assert_eq!(w.iter().filter(|e| e.is_end_of_track()).count(), 1);
    assert!(w.last().unwrap().is_end_of_track());
}

#[test]
fn merge_no_tracks() {
    assert_eq!(as_merged(vec![]).unwrap(), vec![end(0)]);
}

#[test]
fn merge_missing_end_is_error() {
    let tracks = vec![vec![on(0, 60), end(1)], vec![on(0, 60), off(1, 60)]];
    assert_eq!(as_merged(tracks), Err(TimelineError::MissingEndOfTrack));
    assert_eq!(as_merged(vec![vec![]]), Err(TimelineError::MissingEndOfTrack));
}

#[test]
fn merge_overflow_is_error() {
    let tracks = vec![vec![on(u32::MAX, 60), end(1)]];
    assert_eq!(as_merged(tracks), Err(TimelineError::Overflow));
}
