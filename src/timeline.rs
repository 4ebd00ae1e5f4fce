//! Merging independently timed tracks into one canonical timeline.

use vstd::prelude::*;
use crate::event::{Event, EventKind};

verus! {

/// Why a set of tracks cannot be merged.
#[derive(Clone, Copy, Debug, PartialEq, Eq, Structural)]
pub enum TimelineError {
    /// An absolute time does not fit in 32 bits of milliseconds.
    Overflow,
    /// A sequence of absolute times decreases somewhere.
    NonMonotonic,
    /// A track does not end with an end-of-track marker.
    MissingEndOfTrack,
}

/// Sum of all deltas of `s`.
pub open spec fn total_time(s: Seq<Event>) -> int
    decreases s.len(),
{
    if s.len() == 0 {
        0
    } else {
        total_time(s.drop_last()) + s.last().delta
    }
}

/// `e` with its delta replaced by `d`.
pub open spec fn with_delta(e: Event, d: int) -> Event {
    Event { delta: d as u32, kind: e.kind }
}

/// Each event stamped with the running sum of deltas up to and including it.
pub open spec fn abs_times(s: Seq<Event>) -> Seq<Event> {
    Seq::new(s.len(), |i: int| with_delta(s[i], total_time(s.take(i + 1))))
}

/// The delta of the event before position `i`, or zero at the start.
pub open spec fn prev_delta(s: Seq<Event>, i: int) -> int {
    if i == 0 {
        0
    } else {
        s[i - 1].delta as int
    }
}

/// Absolute stamps never decrease from one event to the next.
pub open spec fn is_monotone(s: Seq<Event>) -> bool {
    forall|i: int| 0 < i < s.len() ==> #[trigger] s[i - 1].delta <= s[i].delta
}

/// Each event stamped with its distance from the previous event.
pub open spec fn rel_times(s: Seq<Event>) -> Seq<Event> {
    Seq::new(s.len(), |i: int| with_delta(s[i], s[i].delta - prev_delta(s, i)))
}

proof fn lemma_total_add(a: Seq<Event>, b: Seq<Event>)
    ensures
        total_time(a + b) == total_time(a) + total_time(b),
    decreases b.len(),
{
    if b.len() == 0 {
        assert(a + b =~= a);
    } else {
        assert((a + b).drop_last() =~= a + b.drop_last());
        lemma_total_add(a, b.drop_last());
    }
}

proof fn lemma_total_single(e: Event)
    ensures
        total_time(seq![e]) == e.delta,
{
    assert(seq![e].drop_last() =~= Seq::<Event>::empty());
    assert(total_time(Seq::<Event>::empty()) == 0);
}

/// Time never runs backwards along a sequence.
pub(crate) proof fn lemma_total_nonneg(s: Seq<Event>)
    ensures
        total_time(s) >= 0,
    decreases s.len(),
{
    if s.len() > 0 {
        lemma_total_nonneg(s.drop_last());
    }
}

/// A prefix of a sequence takes no longer than the whole.
pub(crate) proof fn lemma_total_prefix(s: Seq<Event>, k: int)
    requires
        0 <= k <= s.len(),
    ensures
        total_time(s.take(k)) <= total_time(s),
{
    assert(s =~= s.take(k) + s.skip(k));
    lemma_total_add(s.take(k), s.skip(k));
    lemma_total_nonneg(s.skip(k));
}

/// Converts relative deltas into absolute stamps by a running sum.
pub fn to_abstime(v: Vec<Event>) -> (r: Result<Vec<Event>, TimelineError>)
    ensures
        r is Ok <==> total_time(v@) <= u32::MAX,
        r matches Ok(w) ==> w@ == abs_times(v@),
        r matches Err(e) ==> e == TimelineError::Overflow,
{
    let mut out: Vec<Event> = Vec::with_capacity(v.len());
    let mut now: u32 = 0;
    let mut i: usize = 0;
    while i < v.len()
        invariant
            i <= v.len(),
            now as int == total_time(v@.take(i as int)),
            out@.len() == i,
            forall|j: int| 0 <= j < i ==> #[trigger] out@[j] == abs_times(v@)[j],
        decreases v.len() - i,
    {
        let e = v[i];
        assert(v@.take(i + 1).drop_last() =~= v@.take(i as int));
        match now.checked_add(e.delta) {
            Some(t) => {
                now = t;
                out.push(Event { delta: t, kind: e.kind });
                i += 1;
            },
            None => {
                proof {
                    lemma_total_prefix(v@, i + 1);
                }
                return Err(TimelineError::Overflow);
            },
        }
    }
    assert(v@.take(v@.len() as int) =~= v@);
    assert(out@ =~= abs_times(v@));
    Ok(out)
}

/// Converts absolute stamps back into deltas from the previous event.
pub fn to_reltime(v: Vec<Event>) -> (r: Result<Vec<Event>, TimelineError>)
    ensures
        r is Ok <==> is_monotone(v@),
        r matches Ok(w) ==> w@ == rel_times(v@),
        r matches Err(e) ==> e == TimelineError::NonMonotonic,
{
    let mut out: Vec<Event> = Vec::with_capacity(v.len());
    let mut now: u32 = 0;
    let mut i: usize = 0;
    while i < v.len()
        invariant
            i <= v.len(),
            now as int == prev_delta(v@, i as int),
            out@.len() == i,
            forall|j: int| 0 < j < i ==> #[trigger] v@[j - 1].delta <= v@[j].delta,
            forall|j: int| 0 <= j < i ==> #[trigger] out@[j] == rel_times(v@)[j],
        decreases v.len() - i,
    {
        let e = v[i];
        if e.delta < now {
            assert(v@[i - 1].delta > v@[i as int].delta);
            return Err(TimelineError::NonMonotonic);
        }
        out.push(Event { delta: e.delta - now, kind: e.kind });
        now = e.delta;
        i += 1;
    }
    assert(out@ =~= rel_times(v@));
    Ok(out)
}

/// Drops every end-of-track marker, moving its delta onto the next kept
/// event, and closes the sequence with a single marker carrying whatever
/// time is left after the last kept event (plus `acc`, time already pending).
pub open spec fn collapse_ends(s: Seq<Event>, acc: int) -> Seq<Event>
    decreases s.len(),
{
    if s.len() == 0 {
        seq![Event { delta: acc as u32, kind: EventKind::EndOfTrack }]
    } else if s[0].kind == EventKind::EndOfTrack {
        collapse_ends(s.skip(1), acc + s[0].delta)
    } else {
        seq![with_delta(s[0], s[0].delta + acc)] + collapse_ends(s.skip(1), 0)
    }
}

/// Keeps exactly one end-of-track marker, at the very end, without moving
/// any other event in absolute time.
pub fn fix_track_end(v: Vec<Event>) -> (r: Vec<Event>)
    requires
        total_time(v@) <= u32::MAX,
    ensures
        r@ == collapse_ends(v@, 0),
{
    let mut out: Vec<Event> = Vec::new();
    let mut accum: u32 = 0;
    let mut i: usize = 0;
    assert(v@.skip(0) =~= v@);
    while i < v.len()
        invariant
            i <= v.len(),
            total_time(v@) <= u32::MAX,
            collapse_ends(v@, 0) == out@ + collapse_ends(v@.skip(i as int), accum as int),
            total_time(out@) + accum + total_time(v@.skip(i as int)) == total_time(v@),
        decreases v.len() - i,
    {
        let e = v[i];
        let ghost rest = v@.skip(i as int);
        assert(rest =~= seq![e] + v@.skip(i + 1));
        assert(rest.skip(1) =~= v@.skip(i + 1));
        proof {
            lemma_total_add(seq![e], v@.skip(i + 1));
            lemma_total_single(e);
            lemma_total_nonneg(out@);
            lemma_total_nonneg(v@.skip(i + 1));
        }
        if e.is_end_of_track() {
            accum = accum + e.delta;
        } else {
            let ne = Event { delta: e.delta + accum, kind: e.kind };
            assert((out@ + seq![ne]) + collapse_ends(v@.skip(i + 1), 0) =~= out@ + (seq![ne]
                + collapse_ends(v@.skip(i + 1), 0)));
            assert(out@.push(ne).drop_last() =~= out@);
            assert(out@.push(ne) =~= out@ + seq![ne]);
            assert(total_time(out@.push(ne)) == total_time(out@) + ne.delta);
            out.push(ne);
            accum = 0;
        }
        i += 1;
    }
    let end = Event::end_of_track(accum);
    assert(v@.skip(i as int).len() == 0);
    out.push(end);
    out
}

/// Converting deltas to absolute stamps and back gives the original track.
pub proof fn lemma_round_trip(s: Seq<Event>)
    requires
        total_time(s) <= u32::MAX,
    ensures
        is_monotone(abs_times(s)),
        rel_times(abs_times(s)) == s,
{
    let a = abs_times(s);
    assert forall|i: int| 0 <= i < s.len() implies #[trigger] a[i].delta == total_time(s.take(i + 1)) by {
        lemma_total_prefix(s, i + 1);
        lemma_total_nonneg(s.take(i + 1));
    }
    assert forall|i: int| 0 < i < s.len() implies a[i].delta == a[i - 1].delta + s[i].delta by {
        assert(s.take(i + 1).drop_last() =~= s.take(i));
    }
    assert forall|i: int| 0 < i < a.len() implies #[trigger] a[i - 1].delta <= a[i].delta by {
        assert(a[i].delta == a[i - 1].delta + s[i].delta);
    }
    assert forall|i: int| 0 <= i < s.len() implies #[trigger] rel_times(a)[i] == s[i] by {
        if i == 0 {
            assert(s.take(1) =~= seq![s[0]]);
            lemma_total_single(s[0]);
        } else {
            assert(a[i].delta == a[i - 1].delta + s[i].delta);
        }
    }
    assert(rel_times(a) =~= s);
}

/// Whether an event is stamped at time `t`.
pub open spec fn at_time(t: u32) -> spec_fn(Event) -> bool {
    |e: Event| e.delta == t
}

/// Stamps never decrease along `s`.
pub open spec fn is_sorted(s: Seq<Event>) -> bool {
    forall|i: int, j: int| 0 <= i <= j < s.len() ==> #[trigger] s[i].delta <= #[trigger] s[j].delta
}

/// `r` is `s` sorted by stamp, with events of equal stamp kept in the order
/// they have in `s`.
pub open spec fn is_stable_sort_of(r: Seq<Event>, s: Seq<Event>) -> bool {
    &&& is_sorted(r)
    &&& forall|t: u32| #[trigger] r.filter(at_time(t)) == s.filter(at_time(t))
}

proof fn lemma_filter_push(s: Seq<Event>, e: Event, t: u32)
    ensures
        s.push(e).filter(at_time(t)) == if e.delta == t {
            s.filter(at_time(t)).push(e)
        } else {
            s.filter(at_time(t))
        },
{
    reveal(Seq::filter);
    assert(s.push(e).drop_last() =~= s);
}

proof fn lemma_sorted_last_is_max(s: Seq<Event>, x: Event)
    requires
        is_sorted(s),
        s.contains(x),
    ensures
        x.delta <= s.last().delta,
{
    let k = choose|k: int| 0 <= k < s.len() && s[k] == x;
    assert(s[k].delta <= s[s.len() - 1].delta);
}

/// Two stable sorts of the same sequence are the same sequence.
pub proof fn lemma_stable_sort_unique(r1: Seq<Event>, r2: Seq<Event>)
    requires
        is_sorted(r1),
        is_sorted(r2),
        forall|t: u32| #[trigger] r1.filter(at_time(t)) == r2.filter(at_time(t)),
    ensures
        r1 == r2,
    decreases r1.len() + r2.len(),
{
    broadcast use Seq::lemma_filter_contains_rev;

    if r1.len() == 0 && r2.len() == 0 {
        assert(r1 =~= r2);
    } else if r1.len() == 0 {
        let x = r2.last();
        lemma_filter_push(r2.drop_last(), x, x.delta);
        assert(r2.drop_last().push(x) =~= r2);
        assert(r1.filter(at_time(x.delta)) =~= r1) by {
            reveal(Seq::filter);
        }
    } else if r2.len() == 0 {
        let x = r1.last();
        lemma_filter_push(r1.drop_last(), x, x.delta);
        assert(r1.drop_last().push(x) =~= r1);
        assert(r2.filter(at_time(x.delta)) =~= r2) by {
            reveal(Seq::filter);
        }
    } else {
        let x1 = r1.last();
        let x2 = r2.last();
        let d1 = r1.drop_last();
        let d2 = r2.drop_last();
        assert(d1.push(x1) =~= r1);
        assert(d2.push(x2) =~= r2);
        lemma_filter_push(d1, x1, x1.delta);
        lemma_filter_push(d2, x2, x2.delta);
        let f1 = r1.filter(at_time(x1.delta));
        let f2 = r2.filter(at_time(x2.delta));
        assert(f1.contains(x1)) by {
            assert(f1[f1.len() - 1] == x1);
        }
        assert(f2.contains(x2)) by {
            assert(f2[f2.len() - 1] == x2);
        }
        assert(r2.filter(at_time(x1.delta)) == f1);
        assert(r1.filter(at_time(x2.delta)) == f2);
        lemma_sorted_last_is_max(r2, x1);
        lemma_sorted_last_is_max(r1, x2);
        assert(x1.delta == x2.delta);
        assert(x1 == x2);
        assert forall|t: u32| #[trigger] d1.filter(at_time(t)) == d2.filter(at_time(t)) by {
            lemma_filter_push(d1, x1, t);
            lemma_filter_push(d2, x2, t);
            assert(r1.filter(at_time(t)) == r2.filter(at_time(t)));
            if x1.delta == t {
                assert(d1.filter(at_time(t)) =~= r1.filter(at_time(t)).drop_last());
                assert(d2.filter(at_time(t)) =~= r2.filter(at_time(t)).drop_last());
            }
        }
        lemma_stable_sort_unique(d1, d2);
    }
}

/// Sorts by stamp, keeping events of equal stamp in their original order.
pub fn stable_sort_by_time(v: &Vec<Event>) -> (r: Vec<Event>)
    ensures
        is_stable_sort_of(r@, v@),
{
    let mut out: Vec<Event> = Vec::new();
    let mut i: usize = 0;
    while i < v.len()
        invariant
            i <= v.len(),
            is_sorted(out@),
            forall|t: u32| #[trigger] out@.filter(at_time(t)) == v@.take(i as int).filter(at_time(t)),
        decreases v.len() - i,
    {
        let x = v[i];
        let mut p: usize = out.len();
        while p > 0 && out[p - 1].delta > x.delta
            invariant
                p <= out.len(),
                forall|k: int| p <= k < out.len() ==> #[trigger] out@[k].delta > x.delta,
            decreases p,
        {
            p -= 1;
        }
        let ghost a = out@.take(p as int);
        let ghost b = out@.skip(p as int);
        let ghost old_out = out@;
        assert(old_out =~= a + b);
        out.insert(p, x);
        assert(out@ =~= a + seq![x] + b);
        assert(v@.take(i + 1) =~= v@.take(i as int).push(x));
        assert forall|t: u32| #[trigger] out@.filter(at_time(t)) == v@.take(i + 1).filter(at_time(t)) by {
            Seq::filter_distributes_over_add(a, b, at_time(t));
            Seq::filter_distributes_over_add(a + seq![x], b, at_time(t));
            Seq::filter_distributes_over_add(a, seq![x], at_time(t));
            lemma_filter_push(v@.take(i as int), x, t);
            lemma_filter_push(Seq::<Event>::empty(), x, t);
            assert(Seq::<Event>::empty().push(x) =~= seq![x]);
            assert(Seq::<Event>::empty().filter(at_time(t)) =~= Seq::<Event>::empty()) by {
                reveal(Seq::filter);
            }
            if x.delta == t {
                assert forall|k: int| 0 <= k < b.len() implies #[trigger] b[k].delta != t by {
                    assert(old_out[p + k].delta > x.delta);
                }
                assert(b.filter(at_time(t)).len() == 0) by {
                    b.lemma_all_neg_filter_empty(at_time(t));
                }
                assert(old_out.filter(at_time(t)) =~= a.filter(at_time(t)));
                assert(out@.filter(at_time(t)) =~= a.filter(at_time(t)).push(x));
            } else {
                assert(out@.filter(at_time(t)) =~= old_out.filter(at_time(t)));
            }
        }
        assert forall|m: int, n: int| 0 <= m <= n < out@.len() implies #[trigger] out@[m].delta
            <= #[trigger] out@[n].delta by {
            if p > 0 {
                assert(old_out[p - 1].delta <= x.delta);
            }
            if m < p && n > p {
                assert(old_out[m].delta <= old_out[p - 1].delta);
            }
            if m < p && n < p {
                assert(old_out[m].delta <= old_out[n].delta);
            }
            if m < p && n == p {
                assert(old_out[m].delta <= old_out[p - 1].delta);
            }
            if m > p {
                assert(old_out[m - 1].delta <= old_out[n - 1].delta);
            }
            if m == p && n > p {
                assert(old_out[n - 1].delta > x.delta);
            }
        }
        i += 1;
    }
    assert(v@.take(v@.len() as int) =~= v@);
    out
}

/// The events of each track, as sequences.
pub open spec fn tracks_view(v: Seq<Vec<Event>>) -> Seq<Seq<Event>> {
    v.map_values(|t: Vec<Event>| t@)
}

/// A track is closed by an end-of-track marker.
pub open spec fn ends_with_marker(s: Seq<Event>) -> bool {
    s.len() > 0 && s.last().kind == EventKind::EndOfTrack
}

/// All tracks, each stamped with absolute times, one after the other.
pub open spec fn concat_abs(tracks: Seq<Seq<Event>>) -> Seq<Event>
    decreases tracks.len(),
{
    if tracks.len() == 0 {
        Seq::empty()
    } else {
        concat_abs(tracks.drop_last()) + abs_times(tracks.last())
    }
}

/// `w` is the canonical timeline of `tracks`: all events stably sorted by
/// absolute time, turned back into deltas, with the end markers collapsed
/// into one.
pub open spec fn is_timeline_of(w: Seq<Event>, tracks: Seq<Seq<Event>>) -> bool {
    exists|s: Seq<Event>| is_stable_sort_of(s, concat_abs(tracks)) && w == collapse_ends(rel_times(s), 0)
}

/// Every track is closed by a marker.
pub open spec fn all_ended(tracks: Seq<Seq<Event>>) -> bool {
    forall|i: int| 0 <= i < tracks.len() ==> ends_with_marker(#[trigger] tracks[i])
}

/// Every track's total length fits in 32 bits of milliseconds.
pub open spec fn all_fit(tracks: Seq<Seq<Event>>) -> bool {
    forall|i: int| 0 <= i < tracks.len() ==> total_time(#[trigger] tracks[i]) <= u32::MAX
}

/// The latest end time over all tracks (zero for no tracks).
pub open spec fn max_end(tracks: Seq<Seq<Event>>) -> int
    decreases tracks.len(),
{
    if tracks.len() == 0 {
        0
    } else {
        let m = max_end(tracks.drop_last());
        let t = total_time(tracks.last());
        if m >= t {
            m
        } else {
            t
        }
    }
}

proof fn lemma_total_rel(s: Seq<Event>)
    requires
        is_monotone(s),
    ensures
        total_time(rel_times(s)) == if s.len() == 0 {
            0
        } else {
            s.last().delta as int
        },
    decreases s.len(),
{
    if s.len() > 0 {
        let d = s.drop_last();
        assert(rel_times(s).drop_last() =~= rel_times(d));
        assert forall|i: int| 0 < i < d.len() implies #[trigger] d[i - 1].delta <= d[i].delta by {
            assert(s[i - 1].delta <= s[i].delta);
        }
        lemma_total_rel(d);
        if s.len() > 1 {
            assert(s[s.len() - 2].delta <= s[s.len() - 1].delta);
        }
    }
}

proof fn lemma_total_collapse(x: Seq<Event>, acc: int)
    requires
        0 <= acc,
        total_time(x) + acc <= u32::MAX,
    ensures
        total_time(collapse_ends(x, acc)) == total_time(x) + acc,
    decreases x.len(),
{
    if x.len() == 0 {
        lemma_total_single(Event { delta: acc as u32, kind: EventKind::EndOfTrack });
    } else {
        let rest = x.skip(1);
        assert(x =~= seq![x[0]] + rest);
        lemma_total_add(seq![x[0]], rest);
        lemma_total_single(x[0]);
        lemma_total_nonneg(rest);
        if x[0].kind == EventKind::EndOfTrack {
            lemma_total_collapse(rest, acc + x[0].delta);
        } else {
            let h = with_delta(x[0], x[0].delta + acc);
            lemma_total_collapse(rest, 0);
            lemma_total_add(seq![h], collapse_ends(rest, 0));
            lemma_total_single(h);
        }
    }
}

proof fn lemma_abs_bounds(t: Seq<Event>)
    requires
        t.len() > 0,
        total_time(t) <= u32::MAX,
    ensures
        forall|k: int| 0 <= k < t.len() ==> #[trigger] abs_times(t)[k].delta <= total_time(t),
        abs_times(t)[t.len() - 1].delta == total_time(t),
{
    assert forall|k: int| 0 <= k < t.len() implies #[trigger] abs_times(t)[k].delta <= total_time(t) by {
        lemma_total_prefix(t, k + 1);
        lemma_total_nonneg(t.take(k + 1));
    }
    assert(t.take(t.len() as int) =~= t);
}

proof fn lemma_concat_max(tracks: Seq<Seq<Event>>)
    requires
        forall|i: int| 0 <= i < tracks.len() ==> (#[trigger] tracks[i]).len() > 0,
        all_fit(tracks),
    ensures
        forall|k: int| 0 <= k < concat_abs(tracks).len() ==> #[trigger] concat_abs(tracks)[k].delta
            <= max_end(tracks),
        tracks.len() > 0 ==> exists|k: int| 0 <= k < concat_abs(tracks).len()
            && #[trigger] concat_abs(tracks)[k].delta == max_end(tracks),
        max_end(tracks) >= 0,
    decreases tracks.len(),
{
    if tracks.len() > 0 {
        let d = tracks.drop_last();
        let t = tracks.last();
        assert(t == tracks[tracks.len() - 1]);
        assert forall|i: int| 0 <= i < d.len() implies (#[trigger] d[i]).len() > 0 by {
            assert(d[i] == tracks[i]);
        }
        assert forall|i: int| 0 <= i < d.len() implies total_time(#[trigger] d[i]) <= u32::MAX by {
            assert(d[i] == tracks[i]);
        }
        lemma_concat_max(d);
        lemma_abs_bounds(t);
        let c = concat_abs(tracks);
        let cd = concat_abs(d);
        let a = abs_times(t);
        assert(c == cd + a);
        assert forall|k: int| 0 <= k < c.len() implies #[trigger] c[k].delta <= max_end(tracks) by {
            if k < cd.len() {
                assert(c[k] == cd[k]);
            } else {
                assert(c[k] == a[k - cd.len()]);
            }
        }
        if max_end(d) >= total_time(t) && d.len() > 0 {
            let k = choose|k: int| 0 <= k < cd.len() && #[trigger] cd[k].delta == max_end(d);
            assert(c[k] == cd[k]);
        } else {
            lemma_total_nonneg(t);
            let k = cd.len() + a.len() - 1;
            assert(c[k] == a[a.len() - 1]);
        }
    }
}

proof fn lemma_sort_same_elements(s: Seq<Event>, c: Seq<Event>, k: int)
    requires
        forall|t: u32| #[trigger] s.filter(at_time(t)) == c.filter(at_time(t)),
        0 <= k < c.len(),
    ensures
        s.contains(c[k]),
{
    broadcast use Seq::lemma_filter_contains, Seq::lemma_filter_contains_rev;

    let y = c[k];
    assert(c.filter(at_time(y.delta)).contains(y));
    assert(s.filter(at_time(y.delta)) == c.filter(at_time(y.delta)));
}

/// Merging the same tracks twice yields the same timeline.
pub proof fn lemma_merge_deterministic(w1: Seq<Event>, w2: Seq<Event>, tracks: Seq<Seq<Event>>)
    requires
        is_timeline_of(w1, tracks),
        is_timeline_of(w2, tracks),
    ensures
        w1 == w2,
{
    let c = concat_abs(tracks);
    let s1 = choose|s: Seq<Event>| is_stable_sort_of(s, c) && w1 == collapse_ends(rel_times(s), 0);
    let s2 = choose|s: Seq<Event>| is_stable_sort_of(s, c) && w2 == collapse_ends(rel_times(s), 0);
    assert forall|t: u32| #[trigger] s1.filter(at_time(t)) == s2.filter(at_time(t)) by {
        assert(s1.filter(at_time(t)) == c.filter(at_time(t)));
        assert(s2.filter(at_time(t)) == c.filter(at_time(t)));
    }
    lemma_stable_sort_unique(s1, s2);
}

/// The deltas of a merged timeline add up to the latest end time among the
/// tracks that were merged.
pub proof fn lemma_merge_total(w: Seq<Event>, tracks: Seq<Seq<Event>>)
    requires
        is_timeline_of(w, tracks),
        all_ended(tracks),
        all_fit(tracks),
    ensures
        total_time(w) == max_end(tracks),
{
    let c = concat_abs(tracks);
    let s = choose|s: Seq<Event>| is_stable_sort_of(s, c) && w == collapse_ends(rel_times(s), 0);
    lemma_concat_max(tracks);
    assert forall|i: int| 0 < i < s.len() implies #[trigger] s[i - 1].delta <= s[i].delta by {
        assert(s[i - 1].delta <= s[i].delta);
    }
    lemma_total_rel(s);
    if s.len() > 0 {
        let x = s.last();
        assert forall|t: u32| #[trigger] c.filter(at_time(t)) == s.filter(at_time(t)) by {
            assert(s.filter(at_time(t)) == c.filter(at_time(t)));
        }
        lemma_sort_same_elements(c, s, s.len() - 1);
        let kx = choose|k: int| 0 <= k < c.len() && c[k] == x;
        assert(c[kx].delta <= max_end(tracks));
        assert(tracks.len() > 0) by {
            if tracks.len() == 0 {
                assert(c.len() == 0);
            }
        }
        let k = choose|k: int| 0 <= k < c.len() && #[trigger] c[k].delta == max_end(tracks);
        lemma_sort_same_elements(s, c, k);
        lemma_sorted_last_is_max(s, c[k]);
    } else {
        if tracks.len() > 0 {
            let k = choose|k: int| 0 <= k < c.len() && #[trigger] c[k].delta == max_end(tracks);
            lemma_sort_same_elements(s, c, k);
        }
    }
    lemma_total_collapse(rel_times(s), 0);
}

/// Merges tracks into one canonical timeline.
pub fn as_merged(v: Vec<Vec<Event>>) -> (r: Result<Vec<Event>, TimelineError>)
    ensures
        !all_ended(tracks_view(v@)) ==> r == Err::<Vec<Event>, _>(TimelineError::MissingEndOfTrack),
        all_ended(tracks_view(v@)) && !all_fit(tracks_view(v@)) ==> r == Err::<Vec<Event>, _>(
            TimelineError::Overflow,
        ),
        r is Ok <==> all_ended(tracks_view(v@)) && all_fit(tracks_view(v@)),
        r matches Ok(w) ==> is_timeline_of(w@, tracks_view(v@)),
{
    let ghost tv = tracks_view(v@);
    let mut k: usize = 0;
    while k < v.len()
        invariant
            k <= v.len(),
            tv == tracks_view(v@),
            forall|i: int| 0 <= i < k ==> ends_with_marker(#[trigger] tv[i]),
        decreases v.len() - k,
    {
        let t = &v[k];
        assert(tv[k as int] == t@);
        if t.len() == 0 || !t[t.len() - 1].is_end_of_track() {
            return Err(TimelineError::MissingEndOfTrack);
        }
        k += 1;
    }
    let mut messages: Vec<Event> = Vec::new();
    k = 0;
    while k < v.len()
        invariant
            k <= v.len(),
            tv == tracks_view(v@),
            all_ended(tv),
            forall|i: int| 0 <= i < k ==> total_time(#[trigger] tv[i]) <= u32::MAX,
            messages@ == concat_abs(tv.take(k as int)),
        decreases v.len() - k,
    {
        assert(tv[k as int] == v[k as int]@);
        assert(tv.take(k + 1).drop_last() =~= tv.take(k as int));
        match to_abstime(v[k].clone()) {
            Ok(mut a) => {
                messages.append(&mut a);
            },
            Err(e) => {
                return Err(e);
            },
        }
        k += 1;
    }
    assert(tv.take(v@.len() as int) =~= tv);
    let sorted = stable_sort_by_time(&messages);
    let ghost s = sorted@;
    assert forall|i: int| 0 < i < s.len() implies #[trigger] s[i - 1].delta <= s[i].delta by {
        assert(s[i - 1].delta <= s[i].delta);
    }
    match to_reltime(sorted) {
        Ok(rel) => {
            proof {
                lemma_total_rel(s);
            }
            let w = fix_track_end(rel);
            assert(is_stable_sort_of(s, concat_abs(tv)));
            Ok(w)
        },
        Err(e) => Err(e),
    }
}

} // verus!
