use vstd::prelude::*;

verus! {

/// Identifier of a stop.
pub type StopId = u32;

/// Identifier of a trip (one physical vehicle journey).
pub type TripId = u32;

/// Identifier of a line: the position of the line in the list of lines.
pub type LineId = u32;

/// Position of a stop along a line, counted from zero.
pub type SeqNum = u32;

/// A point in time, in milliseconds since the epoch.
pub type Instant = i64;

/// One visit of a trip at a stop.
#[derive(Clone, Copy, Debug, PartialEq, Eq)]
pub struct StopEvent {
    pub stop: StopId,
    pub arrival: Instant,
    pub departure: Instant,
    pub seq: u32,
}

/// A trip: its id and its stop events, in the order of their sequence numbers.
#[derive(Clone, Debug)]
pub struct Trip {
    pub id: TripId,
    pub events: Vec<StopEvent>,
}

/// Why a timetable was refused.
#[derive(Clone, Copy, Debug, PartialEq, Eq)]
pub enum PreprocessingError {
    /// A trip without any stop event.
    EmptyTrip { trip: TripId },
    /// Two trips with the same id.
    DuplicateTrip { trip: TripId },
    /// Sequence numbers of a trip that do not strictly increase (this covers duplicates).
    SequenceOrder { trip: TripId },
    /// An event whose arrival or departure lies outside the range of UTC date-times.
    TimestampOutOfRange { trip: TripId },
    /// An event whose arrival lies after its departure.
    ArrivalAfterDeparture { trip: TripId },
    /// A departure earlier than the departure at the stop before it.
    DepartureOrder { trip: TripId },
    /// An event at a stop that the stop table does not hold.
    UnknownStop { trip: TripId, stop: StopId },
}

impl Trip {
    /// The ordered stop sequence of the trip.
    pub open spec fn signature(self) -> Seq<StopId> {
        self.events@.map_values(|e: StopEvent| e.stop)
    }
}

/// Sequence numbers strictly increase along the trip.
pub open spec fn seq_ordered(events: Seq<StopEvent>) -> bool {
    forall|i: int| 0 < i < events.len() ==> #[trigger] events[i].seq > events[i - 1].seq
}

/// Whether `ms` milliseconds after the epoch is a UTC date-time that chrono can represent.
pub uninterp spec fn utc_representable(ms: i64) -> bool;

/// Relies on chrono's `DateTime::from_timestamp_millis`: it returns a date-time exactly when the
/// instant is in range, which depends on the instant alone.
#[verifier::external_body]
fn instant_representable(ms: Instant) -> (r: bool)
    ensures
        r == utc_representable(ms),
{
    chrono::DateTime::from_timestamp_millis(ms).is_some()
}

/// Every arrival and departure is a representable UTC date-time.
pub open spec fn times_representable(events: Seq<StopEvent>) -> bool {
    forall|i: int| 0 <= i < events.len() ==>
        utc_representable((#[trigger] events[i]).arrival) && utc_representable(events[i].departure)
}

/// No event arrives after it departs.
pub open spec fn arrivals_before_departures(events: Seq<StopEvent>) -> bool {
    forall|i: int| 0 <= i < events.len() ==> #[trigger] events[i].arrival <= events[i].departure
}

/// Departures never decrease along the trip.
pub open spec fn departures_ordered(events: Seq<StopEvent>) -> bool {
    forall|i: int| 0 < i < events.len() ==> #[trigger] events[i].departure >= events[i - 1].departure
}

/// Every event is at a stop of the stop table.
pub open spec fn stops_known(events: Seq<StopEvent>, stops: Seq<StopId>) -> bool {
    forall|i: int| 0 <= i < events.len() ==> stops.contains(#[trigger] events[i].stop)
}

/// A trip that can be indexed: it visits at least one stop, and its events are in order.
pub open spec fn trip_valid(t: Trip, stops: Seq<StopId>) -> bool {
    &&& t.events@.len() > 0
    &&& seq_ordered(t.events@)
    &&& times_representable(t.events@)
    &&& arrivals_before_departures(t.events@)
    &&& departures_ordered(t.events@)
    &&& stops_known(t.events@, stops)
}

/// No two trips share an id.
pub open spec fn trip_ids_unique(trips: Seq<Trip>) -> bool {
    forall|i: int, j: int| 0 <= i < j < trips.len() ==> #[trigger] trips[i].id != #[trigger] trips[j].id
}

/// A timetable that can be indexed.
pub open spec fn timetable_valid(trips: Seq<Trip>, stops: Seq<StopId>) -> bool {
    &&& trip_ids_unique(trips)
    &&& forall|i: int| 0 <= i < trips.len() ==> trip_valid(#[trigger] trips[i], stops)
}

/// The fault that an error reports is a fault of trip `t`.
pub open spec fn trip_fault(e: PreprocessingError, t: Trip, stops: Seq<StopId>) -> bool {
    match e {
        PreprocessingError::EmptyTrip { trip } => t.id == trip && t.events@.len() == 0,
        PreprocessingError::DuplicateTrip { trip } => false,
        PreprocessingError::SequenceOrder { trip } => t.id == trip && !seq_ordered(t.events@),
        PreprocessingError::TimestampOutOfRange { trip } => t.id == trip && !times_representable(t.events@),
        PreprocessingError::ArrivalAfterDeparture { trip } =>
            t.id == trip && !arrivals_before_departures(t.events@),
        PreprocessingError::DepartureOrder { trip } => t.id == trip && !departures_ordered(t.events@),
        PreprocessingError::UnknownStop { trip, stop } => t.id == trip && !stops.contains(stop)
            && exists|k: int| 0 <= k < t.events@.len() && #[trigger] t.events@[k].stop == stop,
    }
}

/// The fault that an error reports is present in the timetable.
pub open spec fn error_present(e: PreprocessingError, trips: Seq<Trip>, stops: Seq<StopId>) -> bool {
    match e {
        PreprocessingError::DuplicateTrip { trip } => exists|i: int, j: int|
            0 <= i < j < trips.len() && #[trigger] trips[i].id == trip && #[trigger] trips[j].id == trip,
        _ => exists|i: int| 0 <= i < trips.len() && trip_fault(e, #[trigger] trips[i], stops),
    }
}

/// Returns whether `s` holds `x`.
pub fn contains_stop(s: &Vec<StopId>, x: StopId) -> (r: bool)
    ensures
        r == s@.contains(x),
{
    let mut i: usize = 0;
    while i < s.len()
        invariant
            i <= s@.len(),
            forall|j: int| 0 <= j < i ==> s@[j] != x,
        decreases s@.len() - i,
    {
        if s[i] == x {
            return true;
        }
        i = i + 1;
    }
    false
}

/// Checks one trip against the stop table.
pub fn check_trip(t: &Trip, stops: &Vec<StopId>) -> (r: Result<(), PreprocessingError>)
    ensures
        r is Ok <==> trip_valid(*t, stops@),
        r matches Err(e) ==> trip_fault(e, *t, stops@),
{
    if t.events.len() == 0 {
        return Err(PreprocessingError::EmptyTrip { trip: t.id });
    }
    let mut i: usize = 0;
    while i < t.events.len()
        invariant
            0 < t.events@.len(),
            i <= t.events@.len(),
            forall|j: int| 0 < j < i ==> #[trigger] t.events@[j].seq > t.events@[j - 1].seq,
            forall|j: int| 0 <= j < i ==>
                utc_representable((#[trigger] t.events@[j]).arrival) && utc_representable(t.events@[j].departure),
            forall|j: int| 0 <= j < i ==> #[trigger] t.events@[j].arrival <= t.events@[j].departure,
            forall|j: int| 0 < j < i ==> #[trigger] t.events@[j].departure >= t.events@[j - 1].departure,
            forall|j: int| 0 <= j < i ==> stops@.contains(#[trigger] t.events@[j].stop),
        decreases t.events@.len() - i,
    {
        let e = t.events[i];
        if i > 0 && e.seq <= t.events[i - 1].seq {
            proof { assert(!seq_ordered(t.events@) && t.events@[i as int].seq <= t.events@[i - 1].seq);
                }
            return Err(PreprocessingError::SequenceOrder { trip: t.id });
        }
        let arrival_ok = instant_representable(e.arrival);
        let departure_ok = instant_representable(e.departure);
        if !arrival_ok || !departure_ok {
            proof { assert(!times_representable(t.events@) && t.events@[i as int] == e); }
            return Err(PreprocessingError::TimestampOutOfRange { trip: t.id });
        }
        proof { assert(utc_representable(t.events@[i as int].arrival) && utc_representable(t.events@[i as int].departure)); }
        if e.arrival > e.departure {
            proof { assert(!arrivals_before_departures(t.events@) && t.events@[i as int].arrival > t.events@[i as int].departure);
                }
            return Err(PreprocessingError::ArrivalAfterDeparture { trip: t.id });
        }
        if i > 0 && e.departure < t.events[i - 1].departure {
            proof { assert(!departures_ordered(t.events@) && t.events@[i as int].departure < t.events@[i - 1].departure); }
            return Err(PreprocessingError::DepartureOrder { trip: t.id });
        }
        if !contains_stop(stops, e.stop) {
            proof { assert(!stops_known(t.events@, stops@) && t.events@[i as int].stop == e.stop); }
            return Err(PreprocessingError::UnknownStop { trip: t.id, stop: e.stop });
        }
        i = i + 1;
    }
    Ok(())
}

/// Checks a whole timetable: trip ids are unique and every trip is valid.
pub fn validate(trips: &Vec<Trip>, stops: &Vec<StopId>) -> (r: Result<(), PreprocessingError>)
    ensures
        r is Ok <==> timetable_valid(trips@, stops@),
        r matches Err(e) ==> error_present(e, trips@, stops@),
{
    let mut i: usize = 0;
    while i < trips.len()
        invariant
            i <= trips@.len(),
            forall|a: int, b: int| 0 <= a < b < i ==> #[trigger] trips@[a].id != #[trigger] trips@[b].id,
            forall|a: int| 0 <= a < i ==> trip_valid(#[trigger] trips@[a], stops@),
        decreases trips@.len() - i,
    {
        match check_trip(&trips[i], stops) {
            Err(e) => {
                proof { assert(trip_fault(e, trips@[i as int], stops@)); }
                return Err(e);
            },
            Ok(()) => {},
        }
        let mut j: usize = 0;
        while j < i
            invariant
                i < trips@.len(),
                j <= i,
                forall|a: int| 0 <= a < j ==> #[trigger] trips@[a].id != trips@[i as int].id,
            decreases i - j,
        {
            if trips[j].id == trips[i].id {
                return Err(PreprocessingError::DuplicateTrip { trip: trips[i].id });
            }
            j = j + 1;
        }
        i = i + 1;
    }
    Ok(())
}

/// Returns the ordered stop sequence of a trip.
pub fn signature(trip: &Trip) -> (r: Vec<StopId>)
    ensures
        r@ == trip.signature(),
{
    let mut r: Vec<StopId> = Vec::new();
    let mut i: usize = 0;
    while i < trip.events.len()
        invariant
            i <= trip.events@.len(),
            r@ == trip.signature().subrange(0, i as int),
        decreases trip.events@.len() - i,
    {
        r.push(trip.events[i].stop);
        i = i + 1;
        assert(r@ =~= trip.signature().subrange(0, i as int));
    }
    assert(r@ =~= trip.signature());
    r
}

} // verus!
