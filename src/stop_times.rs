use vstd::prelude::*;
use crate::types::{seq_ordered, timetable_valid, trip_ids_unique, trip_valid, Instant, StopEvent, StopId, Trip, TripId};

verus! {

/// One row of the stop-times table.
#[derive(Clone, Copy, Debug, PartialEq, Eq)]
pub struct StopTime {
    pub trip_id: TripId,
    pub stop_id: StopId,
    pub arrival_time: Instant,
    pub departure_time: Instant,
    pub stop_sequence: u32,
}

/// The stop event that a row describes.
pub open spec fn event_of(r: StopTime) -> StopEvent {
    StopEvent { stop: r.stop_id, arrival: r.arrival_time, departure: r.departure_time, seq: r.stop_sequence }
}

/// The events of the rows of trip `id`, in row order.
pub open spec fn events_of(rows: Seq<StopTime>, id: TripId) -> Seq<StopEvent>
    decreases rows.len(),
{
    if rows.len() == 0 {
        Seq::empty()
    } else {
        let p = events_of(rows.drop_last(), id);
        if rows.last().trip_id == id {
            p.push(event_of(rows.last()))
        } else {
            p
        }
    }
}

/// Sequence numbers never decrease.
pub open spec fn seq_sorted(events: Seq<StopEvent>) -> bool {
    forall|i: int, j: int| 0 <= i < j < events.len() ==> (#[trigger] events[i]).seq <= (#[trigger] events[j]).seq
}

/// `trips` holds the rows of `rows`, one trip per trip id, each trip's events being the rows of
/// that trip sorted by sequence number.
pub open spec fn groups_rows(trips: Seq<Trip>, rows: Seq<StopTime>) -> bool {
    &&& trip_ids_unique(trips)
    &&& forall|t: int| 0 <= t < trips.len() ==> {
        &&& seq_sorted((#[trigger] trips[t]).events@)
        &&& trips[t].events@.len() > 0
        &&& trips[t].events@.to_multiset() == events_of(rows, trips[t].id).to_multiset()
    }
    &&& forall|i: int| 0 <= i < rows.len() ==> has_trip(trips, #[trigger] rows[i].trip_id)
}

/// Some trip has id `id`.
pub open spec fn has_trip(trips: Seq<Trip>, id: TripId) -> bool {
    exists|t: int| 0 <= t < trips.len() && #[trigger] trips[t].id == id
}

/// Inserts `e` after every event whose sequence number is not larger.
fn insert_by_seq(events: &mut Vec<StopEvent>, e: StopEvent)
    requires
        seq_sorted(old(events)@),
    ensures
        seq_sorted(final(events)@),
        final(events)@.to_multiset() == old(events)@.to_multiset().insert(e),
        final(events)@.len() == old(events)@.len() + 1,
{
    let mut i: usize = 0;
    while i < events.len()
        invariant
            events@ == old(events)@,
            i <= events@.len(),
            forall|j: int| 0 <= j < i ==> (#[trigger] events@[j]).seq <= e.seq,
        ensures
            events@ == old(events)@,
            i <= events@.len(),
            forall|j: int| 0 <= j < i ==> (#[trigger] events@[j]).seq <= e.seq,
            i < events@.len() ==> events@[i as int].seq > e.seq,
        decreases events@.len() - i,
    {
        if events[i].seq > e.seq {
            break;
        }
        i = i + 1;
    }
    let ghost pre = events@;
    events.insert(i, e);
    proof {
        vstd::seq_lib::to_multiset_insert(pre, i as int, e);
        let nv = events@;
        assert(nv =~= pre.insert(i as int, e));
        assert forall|a: int, b: int| 0 <= a < b < nv.len() implies (#[trigger] nv[a]).seq <= (#[trigger] nv[b]).seq by {
            if b < i {
                assert(nv[a] == pre[a] && nv[b] == pre[b]);
            } else if b == i {
                assert(nv[a] == pre[a]);
            } else if a < i {
                assert(nv[a] == pre[a] && nv[b] == pre[b - 1]);
                assert(pre[i as int].seq <= pre[b - 1].seq);
            } else if a == i {
                assert(nv[b] == pre[b - 1]);
                assert(pre[i as int].seq <= pre[b - 1].seq);
            } else {
                assert(nv[a] == pre[a - 1] && nv[b] == pre[b - 1]);
            }
        }
    }
}

/// Returns the position of the trip with id `id`, if there is one.
fn find_trip(trips: &Vec<Trip>, id: TripId) -> (r: Option<usize>)
    ensures
        r matches Some(p) ==> p < trips@.len() && trips@[p as int].id == id,
        r is None ==> !has_trip(trips@, id),
{
    let mut p: usize = 0;
    while p < trips.len()
        invariant
            p <= trips@.len(),
            forall|u: int| 0 <= u < p ==> trips@[u].id != id,
        decreases trips@.len() - p,
    {
        if trips[p].id == id {
            return Some(p);
        }
        p = p + 1;
    }
    None
}

/// Groups stop-time rows into trips: one trip per trip id, holding the rows of that trip as
/// events sorted by sequence number.
pub fn group_stop_times(rows: &Vec<StopTime>) -> (trips: Vec<Trip>)
    ensures
        groups_rows(trips@, rows@),
        trips@.len() <= rows@.len(),
        forall|t: int| 0 <= t < trips@.len() ==> (#[trigger] trips@[t]).events@.len() <= rows@.len(),
{
    let mut trips: Vec<Trip> = Vec::new();
    let mut i: usize = 0;
    while i < rows.len()
        invariant
            i <= rows@.len(),
            groups_rows(trips@, rows@.take(i as int)),
            trips@.len() <= i,
            forall|t: int| 0 <= t < trips@.len() ==> (#[trigger] trips@[t]).events@.len() <= i,
        decreases rows@.len() - i,
    {
        let r = rows[i];
        let e = StopEvent { stop: r.stop_id, arrival: r.arrival_time, departure: r.departure_time, seq: r.stop_sequence };
        let ghost before = trips@;
        let ghost prev_rows = rows@.take(i as int);
        let ghost next_rows = rows@.take(i + 1);
        proof {
            assert(next_rows.drop_last() =~= prev_rows);
            assert(next_rows.last() == r);
            assert(e == event_of(r));
        }
        match find_trip(&trips, r.trip_id) {
            Some(p) => {
                let mut tr = Trip { id: 0, events: Vec::new() };
                std::mem::swap(&mut tr, &mut trips[p]);
                insert_by_seq(&mut tr.events, e);
                std::mem::swap(&mut tr, &mut trips[p]);
                proof {
                    assert(trips@ == before.update(p as int, trips@[p as int]));
                    assert(trips@[p as int].id == r.trip_id);
                    vstd::seq_lib::to_multiset_build(events_of(prev_rows, r.trip_id), e);
                    assert forall|t: int| 0 <= t < trips@.len() implies {
                        &&& seq_sorted((#[trigger] trips@[t]).events@)
                        &&& trips@[t].events@.len() > 0
                        &&& trips@[t].events@.to_multiset() == events_of(next_rows, trips@[t].id).to_multiset()
                    } by {
                        if t != p {
                            assert(trips@[t] == before[t]);
                            assert(before[t].id != r.trip_id);
                        }
                    }
                    assert forall|a: int, b: int| 0 <= a < b < trips@.len() implies
                        #[trigger] trips@[a].id != #[trigger] trips@[b].id by {
                        assert(before[a].id != before[b].id);
                    }
                    assert forall|j: int| 0 <= j < next_rows.len() implies has_trip(trips@, #[trigger] next_rows[j].trip_id) by {
                        if j < i {
                            assert(prev_rows[j] == next_rows[j]);
                            assert(has_trip(before, prev_rows[j].trip_id));
                            let u = choose|u: int| 0 <= u < before.len() && #[trigger] before[u].id == prev_rows[j].trip_id;
                            assert(trips@[u].id == before[u].id);
                        } else {
                            assert(trips@[p as int].id == next_rows[j].trip_id);
                        }
                    }
                }
            },
            None => {
                let mut v: Vec<StopEvent> = Vec::new();
                v.push(e);
                trips.push(Trip { id: r.trip_id, events: v });
                proof {
                    let n = before.len() as int;
                    vstd::seq_lib::to_multiset_build(events_of(prev_rows, r.trip_id), e);
                    assert(events_of(prev_rows, r.trip_id).len() == 0) by {
                        lemma_events_of_absent(prev_rows, r.trip_id, before);
                    }
                    assert(events_of(prev_rows, r.trip_id) =~= Seq::<StopEvent>::empty());
                    assert(v@ =~= Seq::<StopEvent>::empty().push(e));
                    vstd::seq_lib::to_multiset_build(Seq::<StopEvent>::empty(), e);
                    assert forall|t: int| 0 <= t < trips@.len() implies {
                        &&& seq_sorted((#[trigger] trips@[t]).events@)
                        &&& trips@[t].events@.len() > 0
                        &&& trips@[t].events@.to_multiset() == events_of(next_rows, trips@[t].id).to_multiset()
                    } by {
                        if t < n {
                            assert(trips@[t] == before[t]);
                            assert(before[t].id != r.trip_id);
                        }
                    }
                    assert forall|a: int, b: int| 0 <= a < b < trips@.len() implies
                        #[trigger] trips@[a].id != #[trigger] trips@[b].id by {
                        if b < n {
                            assert(before[a].id != before[b].id);
                        } else {
                            assert(before[a].id != r.trip_id);
                        }
                    }
                    assert forall|j: int| 0 <= j < next_rows.len() implies has_trip(trips@, #[trigger] next_rows[j].trip_id) by {
                        if j < i {
                            assert(prev_rows[j] == next_rows[j]);
                            assert(has_trip(before, prev_rows[j].trip_id));
                            let u = choose|u: int| 0 <= u < before.len() && #[trigger] before[u].id == prev_rows[j].trip_id;
                            assert(trips@[u].id == before[u].id);
                        } else {
                            assert(trips@[n].id == next_rows[j].trip_id);
                        }
                    }
                }
            },
        }
        i = i + 1;
    }
    proof {
        assert(rows@.take(rows@.len() as int) =~= rows@);
    }
    trips
}

/// A trip id that no trip has has no rows.
proof fn lemma_events_of_absent(rows: Seq<StopTime>, id: TripId, trips: Seq<Trip>)
    requires
        forall|i: int| 0 <= i < rows.len() ==> has_trip(trips, #[trigger] rows[i].trip_id),
        !has_trip(trips, id),
    ensures
        events_of(rows, id).len() == 0,
    decreases rows.len(),
{
    if rows.len() > 0 {
        let d = rows.drop_last();
        assert forall|i: int| 0 <= i < d.len() implies has_trip(trips, #[trigger] d[i].trip_id) by {
            assert(d[i] == rows[i]);
        }
        lemma_events_of_absent(d, id, trips);
        assert(has_trip(trips, rows[rows.len() - 1].trip_id));
    }
}

/// The rows form a valid timetable: every way of grouping them into trips gives valid trips
/// (by `lemma_grouping_validity`, one valid grouping makes all of them valid).
pub open spec fn rows_valid(rows: Seq<StopTime>, stops: Seq<StopId>) -> bool {
    forall|trips: Seq<Trip>| #[trigger] groups_rows(trips, rows) ==> timetable_valid(trips, stops)
}

/// Sequence numbers strictly increasing from one event to the next increase over any two.
proof fn lemma_seq_ordered_all_pairs(events: Seq<StopEvent>, i: int, j: int)
    requires
        seq_ordered(events),
        0 <= i < j < events.len(),
    ensures
        events[i].seq < events[j].seq,
    decreases j - i,
{
    if i + 1 < j {
        lemma_seq_ordered_all_pairs(events, i, j - 1);
    }
    assert(events[j].seq > events[j - 1].seq);
}

/// The first events of two orderings of the same events agree when the sequence numbers of
/// the first ordering strictly increase.
proof fn lemma_sorted_heads(a: Seq<StopEvent>, b: Seq<StopEvent>)
    requires
        a.to_multiset() == b.to_multiset(),
        seq_ordered(a),
        seq_sorted(b),
        a.len() > 0,
    ensures
        b.len() == a.len(),
        a[0] == b[0],
{
    vstd::seq_lib::to_multiset_len(a);
    vstd::seq_lib::to_multiset_len(b);
    assert(a.contains(a[0]));
    vstd::seq_lib::to_multiset_contains(a, a[0]);
    vstd::seq_lib::to_multiset_contains(b, a[0]);
    let m = choose|m: int| 0 <= m < b.len() && b[m] == a[0];
    assert(b.contains(b[0]));
    vstd::seq_lib::to_multiset_contains(b, b[0]);
    vstd::seq_lib::to_multiset_contains(a, b[0]);
    let k = choose|k: int| 0 <= k < a.len() && a[k] == b[0];
    if m > 0 {
        assert(b[0].seq <= b[m].seq);
    }
    if k > 0 {
        lemma_seq_ordered_all_pairs(a, 0, k);
    }
}

/// Dropping the first event keeps both orderings sorted and of the same events.
proof fn lemma_sorted_tails(a: Seq<StopEvent>, b: Seq<StopEvent>)
    requires
        a.to_multiset() == b.to_multiset(),
        seq_ordered(a),
        seq_sorted(b),
        a.len() > 0,
        b.len() == a.len(),
        a[0] == b[0],
    ensures
        a.drop_first().to_multiset() == b.drop_first().to_multiset(),
        seq_ordered(a.drop_first()),
        seq_sorted(b.drop_first()),
{
    let a2 = a.drop_first();
    let b2 = b.drop_first();
    assert(a.remove(0) =~= a2);
    assert(b.remove(0) =~= b2);
    vstd::seq_lib::to_multiset_remove(a, 0);
    vstd::seq_lib::to_multiset_remove(b, 0);
    assert forall|i: int| 0 < i < a2.len() implies #[trigger] a2[i].seq > a2[i - 1].seq by {
        assert(a[i + 1].seq > a[i].seq);
    }
    assert forall|i: int, j: int| 0 <= i < j < b2.len() implies (#[trigger] b2[i]).seq <= (#[trigger] b2[j]).seq by {
        assert(b[i + 1].seq <= b[j + 1].seq);
    }
}

/// Two orderings by sequence number of the same events are equal when the sequence numbers
/// of one of them strictly increase.
proof fn lemma_sorted_unique(a: Seq<StopEvent>, b: Seq<StopEvent>)
    requires
        a.to_multiset() == b.to_multiset(),
        seq_ordered(a),
        seq_sorted(b),
    ensures
        a == b,
    decreases a.len(),
{
    if a.len() == 0 {
        vstd::seq_lib::to_multiset_len(a);
        vstd::seq_lib::to_multiset_len(b);
        assert(a =~= b);
    } else {
        lemma_sorted_heads(a, b);
        lemma_sorted_tails(a, b);
        let a2 = a.drop_first();
        let b2 = b.drop_first();
        lemma_sorted_unique(a2, b2);
        assert forall|i: int| 0 <= i < a.len() implies a[i] == b[i] by {
            if i > 0 {
                assert(a[i] == a2[i - 1] && b[i] == b2[i - 1]);
            }
        }
        assert(a =~= b);
    }
}

/// A trip id with rows is the id of some row.
proof fn lemma_events_of_nonempty(rows: Seq<StopTime>, id: TripId)
    requires
        events_of(rows, id).len() > 0,
    ensures
        exists|i: int| 0 <= i < rows.len() && (#[trigger] rows[i]).trip_id == id,
    decreases rows.len(),
{
    let d = rows.drop_last();
    if rows.last().trip_id == id {
        assert(rows[rows.len() - 1].trip_id == id);
    } else {
        lemma_events_of_nonempty(d, id);
        let i = choose|i: int| 0 <= i < d.len() && (#[trigger] d[i]).trip_id == id;
        assert(rows[i] == d[i]);
    }
}

/// A trip formed from the rows is valid when the trip of the same id in a valid grouping is.
proof fn lemma_grouped_trip_valid(a: Seq<Trip>, bt: Trip, rows: Seq<StopTime>, stops: Seq<StopId>)
    requires
        groups_rows(a, rows),
        timetable_valid(a, stops),
        seq_sorted(bt.events@),
        bt.events@.len() > 0,
        bt.events@.to_multiset() == events_of(rows, bt.id).to_multiset(),
    ensures
        trip_valid(bt, stops),
{
    let ev = events_of(rows, bt.id);
    vstd::seq_lib::to_multiset_len(bt.events@);
    vstd::seq_lib::to_multiset_len(ev);
    assert(ev.len() > 0);
    lemma_events_of_nonempty(rows, bt.id);
    let i = choose|i: int| 0 <= i < rows.len() && (#[trigger] rows[i]).trip_id == bt.id;
    assert(has_trip(a, rows[i].trip_id));
    let u = choose|u: int| 0 <= u < a.len() && #[trigger] a[u].id == rows[i].trip_id;
    assert(trip_valid(a[u], stops));
    lemma_sorted_unique(a[u].events@, bt.events@);
}

/// Whether the trips formed from a set of rows are valid does not depend on how they were
/// formed: any two groupings of the rows are valid together.
pub proof fn lemma_grouping_validity(a: Seq<Trip>, b: Seq<Trip>, rows: Seq<StopTime>, stops: Seq<StopId>)
    requires
        groups_rows(a, rows),
        groups_rows(b, rows),
        timetable_valid(a, stops),
    ensures
        timetable_valid(b, stops),
{
    assert forall|t: int| 0 <= t < b.len() implies trip_valid(#[trigger] b[t], stops) by {
        lemma_grouped_trip_valid(a, b[t], rows, stops);
    }
}

} // verus!
