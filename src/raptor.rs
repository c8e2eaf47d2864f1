use vstd::prelude::*;
use crate::index::{
    departures_sorted, dedup_stops, in_catalog, line_visits, lines_at_stop,
    trips_at_line_stop,
};
use crate::stop_times::{group_stop_times, groups_rows, lemma_grouping_validity, rows_valid, StopTime};
use crate::lines::{build_direct_connections, lemma_same_line_iff_same_stops, line_used, DirectConnections};
use crate::types::{
    error_present, timetable_valid, trip_ids_unique, trip_valid, validate, Instant, LineId, PreprocessingError,
    SeqNum, StopId, Trip, TripId,
};

verus! {

/// The trip with id `trip` visits stop `stop`.
pub open spec fn visits(trips: Seq<Trip>, trip: TripId, stop: StopId) -> bool {
    exists|t: int, k: int| 0 <= t < trips.len() && trips[t].id == trip
        && 0 <= k < trips[t].events@.len() && (#[trigger] trips[t].events@[k]).stop == stop
}

/// Event `k` of trip `t`, which has id `trip`, is its first visit of stop `stop`.
pub open spec fn first_visit(trips: Seq<Trip>, trip: TripId, stop: StopId, t: int, k: int) -> bool {
    &&& 0 <= t < trips.len()
    &&& trips[t].id == trip
    &&& 0 <= k < trips[t].events@.len()
    &&& trips[t].events@[k].stop == stop
    &&& forall|j: int| 0 <= j < k ==> (#[trigger] trips[t].events@[j]).stop != stop
}

/// The tables that preprocessing reads.
#[derive(Clone, Debug)]
pub struct PreprocessingInput {
    /// The stop table.
    pub stops: Vec<StopId>,
    /// The stop-time rows, in any order.
    pub stop_times: Vec<StopTime>,
}

/// The indexes that round-based routing reads.
#[derive(Clone, Debug)]
pub struct RaptorAlgorithm {
    /// Every stop of the stop table, once.
    pub stops: Vec<StopId>,
    /// The stops of each line, in order, indexed by `LineId`.
    pub stops_by_line: Vec<Vec<StopId>>,
    /// For `stops[i]`, every (line, position) at which a line visits it.
    pub lines_by_stops: Vec<Vec<(LineId, SeqNum)>>,
    /// The trips, with their arrival and departure at each stop.
    pub trips: Vec<Trip>,
    /// The line of each trip, indexed by the trip's position in `trips`.
    pub line_of_trip: Vec<LineId>,
    /// For line `l` and position `k`, the departures of the line's trips at its `k`-th stop,
    /// ascending by departure, with the trip id breaking ties.
    pub trips_by_line_and_stop: Vec<Vec<Vec<(Instant, TripId)>>>,
}

impl RaptorAlgorithm {
    pub open spec fn lines_view(self) -> Seq<Seq<StopId>> {
        self.stops_by_line@.map_values(|v: Vec<StopId>| v@)
    }

    pub open spec fn connections(self) -> DirectConnections {
        DirectConnections { lines: self.stops_by_line, line_of_trip: self.line_of_trip }
    }

    /// The indexes agree with each other and with the trips.
    pub open spec fn wf(self) -> bool {
        &&& self.stops@.no_duplicates()
        &&& self.stops_by_line@.len() <= u32::MAX
        &&& forall|l: int| 0 <= l < self.stops_by_line@.len() ==> (#[trigger] self.stops_by_line@[l])@.len() <= u32::MAX
        &&& timetable_valid(self.trips@, self.stops@)
        &&& self.connections().groups(self.trips@)
        &&& self.lines_by_stops@.len() == self.stops@.len()
        &&& forall|i: int| 0 <= i < self.stops@.len() ==> (#[trigger] self.lines_by_stops@[i])@.no_duplicates()
        &&& forall|i: int, p: (LineId, SeqNum)|
            #![trigger self.lines_by_stops@[i]@.contains(p)]
            #![trigger line_visits(self.lines_view(), p, self.stops@[i])]
            0 <= i < self.stops@.len() ==>
            (self.lines_by_stops@[i]@.contains(p) <==> line_visits(self.lines_view(), p, self.stops@[i]))
        &&& self.trips_by_line_and_stop@.len() == self.stops_by_line@.len()
        &&& forall|l: int| 0 <= l < self.stops_by_line@.len() ==>
            (#[trigger] self.trips_by_line_and_stop@[l])@.len() == self.stops_by_line@[l]@.len()
        &&& forall|l: int, k: int| 0 <= l < self.stops_by_line@.len() && 0 <= k < self.stops_by_line@[l]@.len() ==> {
            let c = (#[trigger] self.trips_by_line_and_stop@[l]@[k])@;
            &&& departures_sorted(c)
            &&& forall|p: (Instant, TripId)| c.contains(p) <==>
                in_catalog(self.trips@, self.line_of_trip@, l as LineId, k, p, self.trips@.len() as int)
        }
    }

    /// Finds trip `trip` and its first visit of stop `stop`, as positions in `trips` and in
    /// the trip's events.
    pub fn event_at(&self, trip: TripId, stop: StopId) -> (r: Option<(usize, usize)>)
        requires
            trip_ids_unique(self.trips@),
        ensures
            r matches Some((t, k)) ==> {
                &&& t < self.trips@.len()
                &&& self.trips@[t as int].id == trip
                &&& k < self.trips@[t as int].events@.len()
                &&& self.trips@[t as int].events@[k as int].stop == stop
                &&& forall|j: int| 0 <= j < k ==> self.trips@[t as int].events@[j].stop != stop
                &&& forall|u: int| 0 <= u < t ==> self.trips@[u].id != trip
            },
            r is None ==> forall|u: int, j: int| 0 <= u < self.trips@.len() && self.trips@[u].id == trip
                && 0 <= j < self.trips@[u].events@.len() ==> self.trips@[u].events@[j].stop != stop,
    {
        let mut t: usize = 0;
        while t < self.trips.len()
            invariant
                trip_ids_unique(self.trips@),
                t <= self.trips@.len(),
                forall|u: int| 0 <= u < t ==> self.trips@[u].id != trip,
            decreases self.trips@.len() - t,
        {
            if self.trips[t].id == trip {
                let events = &self.trips[t].events;
                let mut k: usize = 0;
                while k < events.len()
                    invariant
                        t < self.trips@.len(),
                        self.trips@[t as int].id == trip,
                        forall|u: int| 0 <= u < t ==> self.trips@[u].id != trip,
                        *events == self.trips@[t as int].events,
                        k <= events@.len(),
                        forall|j: int| 0 <= j < k ==> events@[j].stop != stop,
                    decreases events@.len() - k,
                {
                    if events[k].stop == stop {
                        return Some((t, k));
                    }
                    k = k + 1;
                }
                proof {
                    assert forall|u: int, j: int| 0 <= u < self.trips@.len() && self.trips@[u].id == trip
                        && 0 <= j < self.trips@[u].events@.len() implies self.trips@[u].events@[j].stop != stop by {
                        if u < t {
                            assert(self.trips@[u].id != trip);
                        } else if u > t {
                            assert(self.trips@[t as int].id != self.trips@[u].id);
                        }
                    }
                }
                return None;
            }
            t = t + 1;
        }
        None
    }

    /// Every (line, position) at which a line visits stop `stop`, if the stop is known.
    pub fn lines_at(&self, stop: StopId) -> (r: Option<&Vec<(LineId, SeqNum)>>)
        requires
            self.wf(),
        ensures
            r is Some <==> self.stops@.contains(stop),
            r matches Some(v) ==> v@.no_duplicates()
                && forall|p: (LineId, SeqNum)| v@.contains(p) <==> line_visits(self.lines_view(), p, stop),
    {
        let mut i: usize = 0;
        while i < self.stops.len()
            invariant
                self.wf(),
                i <= self.stops@.len(),
                forall|j: int| 0 <= j < i ==> self.stops@[j] != stop,
            decreases self.stops@.len() - i,
        {
            if self.stops[i] == stop {
                proof {
                    assert(self.stops@.contains(stop));
                    assert(self.lines_by_stops@[i as int]@.no_duplicates());
                }
                return Some(&self.lines_by_stops[i]);
            }
            i = i + 1;
        }
        None
    }

    /// The arrival of trip `trip` at its first visit of stop `stop`, if it visits the stop.
    pub fn arrival(&self, trip: TripId, stop: StopId) -> (r: Option<Instant>)
        requires
            self.wf(),
        ensures
            r is Some <==> visits(self.trips@, trip, stop),
            r matches Some(a) ==> exists|t: int, k: int| first_visit(self.trips@, trip, stop, t, k)
                && a == self.trips@[t].events@[k].arrival,
    {
        match self.event_at(trip, stop) {
            Some((t, k)) => {
                proof { assert(first_visit(self.trips@, trip, stop, t as int, k as int)); }
                Some(self.trips[t].events[k].arrival)
            },
            None => None,
        }
    }

    /// The departure of trip `trip` at its first visit of stop `stop`, if it visits the stop.
    pub fn departure(&self, trip: TripId, stop: StopId) -> (r: Option<Instant>)
        requires
            self.wf(),
        ensures
            r is Some <==> visits(self.trips@, trip, stop),
            r matches Some(d) ==> exists|t: int, k: int| first_visit(self.trips@, trip, stop, t, k)
                && d == self.trips@[t].events@[k].departure,
    {
        match self.event_at(trip, stop) {
            Some((t, k)) => {
                proof { assert(first_visit(self.trips@, trip, stop, t as int, k as int)); }
                Some(self.trips[t].events[k].departure)
            },
            None => None,
        }
    }

    /// Builds the routing indexes of a timetable given as tables: its stop-time rows are
    /// grouped into trips, which are then indexed as by `from_trips`. The timetable is refused
    /// exactly when the rows do not form valid trips, with an error that names a fault of them.
    pub fn preprocess(input: &PreprocessingInput) -> (r: Result<RaptorAlgorithm, PreprocessingError>)
        requires
            input.stop_times@.len() <= u32::MAX,
        ensures
            r is Ok <==> rows_valid(input.stop_times@, input.stops@),
            r matches Ok(idx) ==> {
                &&& idx.wf()
                &&& groups_rows(idx.trips@, input.stop_times@)
                &&& forall|s: StopId| idx.stops@.contains(s) <==> input.stops@.contains(s)
            },
            r matches Err(e) ==> exists|trips: Seq<Trip>| groups_rows(trips, input.stop_times@)
                && !timetable_valid(trips, input.stops@) && error_present(e, trips, input.stops@),
    {
        let trips = group_stop_times(&input.stop_times);
        let ghost grouped = trips@;
        let r = Self::from_trips(&input.stops, trips);
        proof {
            assert(groups_rows(grouped, input.stop_times@));
            if r is Ok {
                assert forall|other: Seq<Trip>| #[trigger] groups_rows(other, input.stop_times@) implies
                    timetable_valid(other, input.stops@) by {
                    lemma_grouping_validity(grouped, other, input.stop_times@, input.stops@);
                }
            }
        }
        r
    }

    /// Builds the routing indexes of a timetable. The timetable is refused, with an error that
    /// names a fault of it, exactly when it is not valid against the stop table.
    pub fn from_trips(stops: &Vec<StopId>, trips: Vec<Trip>) -> (r: Result<RaptorAlgorithm, PreprocessingError>)
        requires
            trips@.len() <= u32::MAX,
            forall|t: int| 0 <= t < trips@.len() ==> (#[trigger] trips@[t]).events@.len() <= u32::MAX,
        ensures
            r is Ok <==> timetable_valid(trips@, stops@),
            r matches Err(e) ==> error_present(e, trips@, stops@),
            r matches Ok(idx) ==> {
                &&& idx.wf()
                &&& idx.trips@ == trips@
                &&& forall|s: StopId| idx.stops@.contains(s) <==> stops@.contains(s)
            },
    {
        validate(&trips, stops)?;
        let dc = build_direct_connections(&trips);
        let DirectConnections { lines, line_of_trip } = dc;
        let ghost lv = lines@.map_values(|v: Vec<StopId>| v@);
        let unique = dedup_stops(stops);
        proof {
            assert forall|t: int| 0 <= t < trips@.len() implies trip_valid(#[trigger] trips@[t], unique@) by {
                assert(trip_valid(trips@[t], stops@));
            }
            assert forall|l: int| 0 <= l < lines@.len() implies (#[trigger] lines@[l])@.len() <= u32::MAX by {
                assert(line_used(line_of_trip@, l, trips@.len() as int));
                let t = choose|t: int| 0 <= t < trips@.len() && #[trigger] line_of_trip@[t] == l;
                assert(lv[line_of_trip@[t] as int] == trips@[t].signature());
            }
        }
        let mut lines_by_stops: Vec<Vec<(LineId, SeqNum)>> = Vec::new();
        let mut i: usize = 0;
        while i < unique.len()
            invariant
                lv == lines@.map_values(|v: Vec<StopId>| v@),
                lines@.len() <= u32::MAX,
                forall|l: int| 0 <= l < lines@.len() ==> (#[trigger] lines@[l])@.len() <= u32::MAX,
                i <= unique@.len(),
                lines_by_stops@.len() == i,
                forall|j: int| 0 <= j < i ==> (#[trigger] lines_by_stops@[j])@.no_duplicates(),
                forall|j: int, p: (LineId, SeqNum)|
                    #![trigger lines_by_stops@[j]@.contains(p)]
                    #![trigger line_visits(lv, p, unique@[j])]
                    0 <= j < i ==> (lines_by_stops@[j]@.contains(p) <==> line_visits(lv, p, unique@[j])),
            decreases unique@.len() - i,
        {
            let at = lines_at_stop(&lines, unique[i]);
            lines_by_stops.push(at);
            proof {
                assert(lines_by_stops@[i as int] == at);
            }
            i = i + 1;
        }
        let mut trips_by_line_and_stop: Vec<Vec<Vec<(Instant, TripId)>>> = Vec::new();
        let mut l: usize = 0;
        while l < lines.len()
            invariant
                lv == lines@.map_values(|v: Vec<StopId>| v@),
                (DirectConnections { lines, line_of_trip }).groups(trips@),
                timetable_valid(trips@, stops@),
                lines@.len() <= u32::MAX,
                forall|m: int| 0 <= m < lines@.len() ==> (#[trigger] lines@[m])@.len() <= u32::MAX,
                l <= lines@.len(),
                trips_by_line_and_stop@.len() == l,
                forall|m: int| 0 <= m < l ==> (#[trigger] trips_by_line_and_stop@[m])@.len() == lines@[m]@.len(),
                forall|m: int, k: int| 0 <= m < l && 0 <= k < lines@[m]@.len() ==> {
                    let c = (#[trigger] trips_by_line_and_stop@[m]@[k])@;
                    &&& departures_sorted(c)
                    &&& forall|p: (Instant, TripId)| c.contains(p) <==>
                        in_catalog(trips@, line_of_trip@, m as LineId, k, p, trips@.len() as int)
                },
            decreases lines@.len() - l,
        {
            let line_len = lines[l].len();
            let mut at_line: Vec<Vec<(Instant, TripId)>> = Vec::new();
            let mut k: usize = 0;
            while k < line_len
                invariant
                    lv == lines@.map_values(|v: Vec<StopId>| v@),
                    (DirectConnections { lines, line_of_trip }).groups(trips@),
                    timetable_valid(trips@, stops@),
                    lines@.len() <= u32::MAX,
                    l < lines@.len(),
                    line_len == lines@[l as int]@.len(),
                    k <= line_len,
                    at_line@.len() == k,
                    forall|j: int| 0 <= j < k ==> {
                        let c = (#[trigger] at_line@[j])@;
                        &&& departures_sorted(c)
                        &&& forall|p: (Instant, TripId)| c.contains(p) <==>
                            in_catalog(trips@, line_of_trip@, l as LineId, j, p, trips@.len() as int)
                    },
                decreases line_len - k,
            {
                proof {
                    assert forall|t: int| 0 <= t < trips@.len() && #[trigger] line_of_trip@[t] == l as LineId
                        implies k < trips@[t].events@.len() by {
                        assert(lv[line_of_trip@[t] as int] == trips@[t].signature());
                    }
                }
                let c = trips_at_line_stop(&trips, &line_of_trip, l as LineId, k);
                at_line.push(c);
                proof {
                    assert(at_line@[k as int] == c);
                }
                k = k + 1;
            }
            trips_by_line_and_stop.push(at_line);
            proof {
                assert(trips_by_line_and_stop@[l as int] == at_line);
            }
            l = l + 1;
        }
        let idx = RaptorAlgorithm {
            stops: unique,
            stops_by_line: lines,
            lines_by_stops,
            trips,
            line_of_trip,
            trips_by_line_and_stop,
        };
        proof {
            assert(idx.lines_view() == lv);
        }
        Ok(idx)
    }
}

/// Every position of every line is listed under the stop found there, and every listed
/// (line, position) holds that stop.
pub proof fn lemma_lines_by_stops_exact(idx: RaptorAlgorithm, l: int, k: int, i: int)
    requires
        idx.wf(),
        0 <= l < idx.stops_by_line@.len(),
        0 <= k < idx.stops_by_line@[l]@.len(),
        0 <= i < idx.stops@.len(),
    ensures
        exists|j: int| 0 <= j < idx.stops@.len() && idx.stops@[j] == idx.stops_by_line@[l]@[k]
            && (#[trigger] idx.lines_by_stops@[j])@.contains((l as LineId, k as SeqNum)),
        idx.lines_by_stops@[i]@.contains((l as LineId, k as SeqNum)) <==> idx.stops_by_line@[l]@[k] == idx.stops@[i],
{
    let lv = idx.lines_view();
    let p = (l as LineId, k as SeqNum);
    assert(line_used(idx.line_of_trip@, l, idx.trips@.len() as int));
    let t = choose|t: int| 0 <= t < idx.trips@.len() && #[trigger] idx.line_of_trip@[t] == l;
    let trip = idx.trips@[t];
    assert(lv[l] == trip.signature());
    assert(trip_valid(trip, idx.stops@));
    assert(trip.signature()[k] == trip.events@[k].stop);
    let s = idx.stops_by_line@[l]@[k];
    assert(idx.stops@.contains(s));
    let j = choose|j: int| 0 <= j < idx.stops@.len() && idx.stops@[j] == s;
    assert(line_visits(lv, p, idx.stops@[j]));
    assert(idx.lines_by_stops@[j]@.contains(p));
    assert(line_visits(lv, p, idx.stops@[i]) <==> s == idx.stops@[i]);
}

/// Every line visits at least one stop.
pub proof fn lemma_lines_nonempty(idx: RaptorAlgorithm, l: int)
    requires
        idx.wf(),
        0 <= l < idx.stops_by_line@.len(),
    ensures
        idx.stops_by_line@[l]@.len() >= 1,
{
    assert(line_used(idx.line_of_trip@, l, idx.trips@.len() as int));
    let t = choose|t: int| 0 <= t < idx.trips@.len() && #[trigger] idx.line_of_trip@[t] == l;
    assert(idx.lines_view()[l] == idx.trips@[t].signature());
    assert(trip_valid(idx.trips@[t], idx.stops@));
}

/// Trips on the same line visit the same stops in the same order.
pub proof fn lemma_same_line_same_stops(idx: RaptorAlgorithm, a: int, b: int)
    requires
        idx.wf(),
        0 <= a < idx.trips@.len(),
        0 <= b < idx.trips@.len(),
        idx.line_of_trip@[a] == idx.line_of_trip@[b],
    ensures
        idx.trips@[a].signature() == idx.trips@[b].signature(),
{
    lemma_same_line_iff_same_stops(idx.connections(), idx.trips@, a, b);
}

/// Along every trip, departures never decrease from one stop to a later one.
pub proof fn lemma_departures_monotone(idx: RaptorAlgorithm, t: int, a: int, b: int)
    requires
        idx.wf(),
        0 <= t < idx.trips@.len(),
        0 <= a <= b < idx.trips@[t].events@.len(),
    ensures
        idx.trips@[t].events@[a].departure <= idx.trips@[t].events@[b].departure,
    decreases b - a,
{
    assert(trip_valid(idx.trips@[t], idx.stops@));
    if a < b {
        lemma_departures_monotone(idx, t, a, b - 1);
        assert(idx.trips@[t].events@[b].departure >= idx.trips@[t].events@[b - 1].departure);
    }
}

} // verus!
