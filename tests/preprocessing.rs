use routing::lines::build_direct_connections;
use routing::raptor::{PreprocessingInput, RaptorAlgorithm};
use routing::stop_times::{group_stop_times, StopTime};
use routing::types::{PreprocessingError, StopEvent, Trip};

fn ev(stop: u32, arrival: i64, departure: i64, seq: u32) -> StopEvent {
    StopEvent { stop, arrival, departure, seq }
}

fn trip(id: u32, events: Vec<StopEvent>) -> Trip {
    Trip { id, events }
}

fn zero_trip(id: u32, stops_and_seqs: &[(u32, u32)]) -> Trip {
    trip(id, stops_and_seqs.iter().map(|&(s, q)| ev(s, 0, 0, q)).collect())
}

fn sorted(v: &[u32]) -> Vec<u32> {
    let mut v = v.to_vec();
    v.sort();
    v
}

fn four_trip_timetable() -> Vec<Trip> {
    vec![
        zero_trip(0, &[(0, 0), (1, 1), (2, 2), (3, 4)]),
        zero_trip(1, &[(2, 3), (3, 5), (4, 6), (5, 7)]),
        zero_trip(2, &[(3, 8), (4, 10)]),
        zero_trip(3, &[(0, 11), (1, 12), (2, 13), (3, 14), (4, 15)]),
    ]
}

fn rows(trip_ids: &[u32], stop_ids: &[u32], seqs: &[u32]) -> Vec<StopTime> {
    (0..trip_ids.len())
        .map(|i| StopTime {
            trip_id: trip_ids[i],
            stop_id: stop_ids[i],
            arrival_time: 0,
            departure_time: 0,
            stop_sequence: seqs[i],
        })
        .collect()
}

#[test]
fn test_preprocessing() {
    let input = PreprocessingInput {
        stops: vec![0u32, 1, 2, 3, 4, 5],
        stop_times: rows(
            &[0u32, 0, 0, 1, 0, 1, 1, 1, 2, 2, 3, 3, 3, 3, 3],
            &[0u32, 1, 2, 2, 3, 3, 4, 5, 3, 4, 0, 1, 2, 3, 4],
            &[0u32, 1, 2, 3, 4, 5, 6, 7, 8, 10, 11, 12, 13, 14, 15],
        ),
    };
    let out = RaptorAlgorithm::preprocess(&input).unwrap();
    assert_eq!(sorted(&out.stops), vec![0u32, 1, 2, 3, 4, 5]);
}

#[test]
fn rows_are_grouped_and_ordered_by_sequence() {
    let r = rows(&[5u32, 6, 5, 5, 6], &[30u32, 40, 10, 20, 41], &[9u32, 2, 1, 4, 1]);
    let trips = group_stop_times(&r);
    assert_eq!(trips.len(), 2);
    assert_eq!(trips[0].id, 5);
    assert_eq!(trips[0].events.iter().map(|e| e.stop).collect::<Vec<_>>(), vec![10, 20, 30]);
    assert_eq!(trips[1].id, 6);
    assert_eq!(trips[1].events.iter().map(|e| e.stop).collect::<Vec<_>>(), vec![41, 40]);
}

#[test]
fn table_input_builds_lines() {
    let input = PreprocessingInput {
        stops: vec![0u32, 1, 2, 3, 4, 5],
        stop_times: rows(
            &[3u32, 0, 1, 0, 2, 1, 0, 3, 2, 1, 0, 3, 1, 3, 3],
            &[4u32, 3, 5, 2, 4, 4, 1, 3, 3, 3, 0, 2, 2, 1, 0],
            &[15u32, 4, 7, 2, 10, 6, 1, 14, 8, 5, 0, 13, 3, 12, 11],
        ),
    };
    let out = RaptorAlgorithm::preprocess(&input).unwrap();
    let mut lines = out.stops_by_line.clone();
    lines.sort();
    assert_eq!(lines, vec![vec![0, 1, 2, 3], vec![0, 1, 2, 3, 4], vec![2, 3, 4, 5], vec![3, 4]]);
}

#[test]
fn duplicate_sequence_rows_are_refused() {
    let input = PreprocessingInput {
        stops: vec![1u32, 2],
        stop_times: rows(&[4u32, 4], &[1u32, 2], &[7u32, 7]),
    };
    let r = RaptorAlgorithm::preprocess(&input);
    assert_eq!(r.unwrap_err(), PreprocessingError::SequenceOrder { trip: 4 });
}

#[test]
fn arrival_and_departure_lookup() {
    let stops = vec![10u32, 11];
    let trips = vec![trip(2, vec![ev(10, 290, 300, 0), ev(11, 350, 360, 1)])];
    let out = RaptorAlgorithm::from_trips(&stops, trips).unwrap();
    assert_eq!(out.arrival(2, 11), Some(350));
    assert_eq!(out.departure(2, 11), Some(360));
    assert_eq!(out.departure(2, 10), Some(300));
    assert_eq!(out.arrival(2, 12), None);
    assert_eq!(out.departure(3, 10), None);
}

#[test]
fn four_trips_form_four_lines() {
    let stops = vec![0u32, 1, 2, 3, 4, 5];
    let out = RaptorAlgorithm::from_trips(&stops, four_trip_timetable()).unwrap();
    assert_eq!(out.stops_by_line.len(), 4);
    assert_eq!(out.stops_by_line[0], vec![0, 1, 2, 3]);
    assert_eq!(out.stops_by_line[1], vec![2, 3, 4, 5]);
    assert_eq!(out.stops_by_line[2], vec![3, 4]);
    assert_eq!(out.stops_by_line[3], vec![0, 1, 2, 3, 4]);
    assert_eq!(out.line_of_trip, vec![0, 1, 2, 3]);
    assert_eq!(out.stops, vec![0, 1, 2, 3, 4, 5]);
    // stop 3 is visited by every line
    assert_eq!(out.lines_by_stops[3], vec![(0, 3), (1, 1), (2, 0), (3, 3)]);
    assert_eq!(out.lines_by_stops[5], vec![(1, 3)]);
}

#[test]
fn trips_with_equal_stops_share_a_line() {
    let trips = vec![
        zero_trip(7, &[(1, 0), (2, 1)]),
        zero_trip(8, &[(2, 0), (1, 1)]),
        zero_trip(9, &[(1, 5), (2, 9)]),
    ];
    let dc = build_direct_connections(&trips);
    assert_eq!(dc.lines, vec![vec![1, 2], vec![2, 1]]);
    assert_eq!(dc.line_of_trip, vec![0, 1, 0]);
}

#[test]
fn single_stop_trip_forms_its_own_line() {
    let stops = vec![4u32];
    let out = RaptorAlgorithm::from_trips(&stops, vec![zero_trip(1, &[(4, 0)])]).unwrap();
    assert_eq!(out.stops_by_line, vec![vec![4]]);
    assert_eq!(out.trips_by_line_and_stop[0][0], vec![(0, 1)]);
}

#[test]
fn departures_listed_in_time_order() {
    let stops = vec![10u32, 11];
    let trips = vec![
        trip(2, vec![ev(10, 300, 300, 0), ev(11, 350, 360, 1)]),
        trip(0, vec![ev(10, 100, 100, 0), ev(11, 150, 160, 1)]),
        trip(1, vec![ev(10, 190, 200, 0), ev(11, 250, 260, 1)]),
    ];
    let out = RaptorAlgorithm::from_trips(&stops, trips).unwrap();
    assert_eq!(out.trips_by_line_and_stop[0][0], vec![(100, 0), (200, 1), (300, 2)]);
    assert_eq!(out.trips_by_line_and_stop[0][1], vec![(160, 0), (260, 1), (360, 2)]);
}

#[test]
fn equal_departures_ordered_by_trip_id() {
    let stops = vec![1u32, 2];
    let trips = vec![
        trip(9, vec![ev(1, 50, 50, 0), ev(2, 60, 60, 1)]),
        trip(3, vec![ev(1, 50, 50, 0), ev(2, 70, 70, 1)]),
    ];
    let out = RaptorAlgorithm::from_trips(&stops, trips).unwrap();
    assert_eq!(out.trips_by_line_and_stop[0][0], vec![(50, 3), (50, 9)]);
    assert_eq!(out.trips_by_line_and_stop[0][1], vec![(60, 9), (70, 3)]);
}

#[test]
fn empty_schedule_indexes_only_stops() {
    let stops = vec![0u32, 1, 2, 3, 4, 5];
    let out = RaptorAlgorithm::from_trips(&stops, vec![]).unwrap();
    assert_eq!(out.stops, stops);
    assert!(out.stops_by_line.is_empty());
    assert_eq!(out.lines_by_stops.len(), 6);
    assert!(out.lines_by_stops.iter().all(|l| l.is_empty()));
    assert!(out.trips.is_empty());
    assert!(out.trips_by_line_and_stop.is_empty());
}

#[test]
fn duplicate_stops_are_kept_once() {
    let stops = vec![3u32, 1, 3, 2, 1];
    let out = RaptorAlgorithm::from_trips(&stops, vec![]).unwrap();
    assert_eq!(out.stops, vec![3, 1, 2]);
}

#[test]
fn index_relations_hold() {
    let stops = vec![0u32, 1, 2, 3, 4, 5];
    let out = RaptorAlgorithm::from_trips(&stops, four_trip_timetable()).unwrap();
    for (l, line) in out.stops_by_line.iter().enumerate() {
        assert!(!line.is_empty());
        for (k, s) in line.iter().enumerate() {
            let i = out.stops.iter().position(|x| x == s).unwrap();
            assert!(out.lines_by_stops[i].contains(&(l as u32, k as u32)));
        }
    }
    for (i, entries) in out.lines_by_stops.iter().enumerate() {
        for &(l, k) in entries {
            assert_eq!(out.stops_by_line[l as usize][k as usize], out.stops[i]);
        }
    }
    for t in &out.trips {
        for w in t.events.windows(2) {
            assert!(w[0].departure <= w[1].departure);
        }
    }
}

#[test]
fn empty_trip_is_refused() {
    let r = RaptorAlgorithm::from_trips(&vec![1u32], vec![trip(4, vec![])]);
    assert_eq!(r.unwrap_err(), PreprocessingError::EmptyTrip { trip: 4 });
}

#[test]
fn duplicate_trip_is_refused() {
    let trips = vec![zero_trip(4, &[(1, 0)]), zero_trip(4, &[(1, 0)])];
    let r = RaptorAlgorithm::from_trips(&vec![1u32], trips);
    assert_eq!(r.unwrap_err(), PreprocessingError::DuplicateTrip { trip: 4 });
}

#[test]
fn repeated_sequence_number_is_refused() {
    let trips = vec![zero_trip(5, &[(1, 3), (2, 3)])];
    let r = RaptorAlgorithm::from_trips(&vec![1u32, 2], trips);
    assert_eq!(r.unwrap_err(), PreprocessingError::SequenceOrder { trip: 5 });
}

#[test]
fn arrival_after_departure_is_refused() {
    let trips = vec![trip(6, vec![ev(1, 10, 5, 0)])];
    let r = RaptorAlgorithm::from_trips(&vec![1u32], trips);
    assert_eq!(r.unwrap_err(), PreprocessingError::ArrivalAfterDeparture { trip: 6 });
}

#[test]
fn decreasing_departure_is_refused() {
    let trips = vec![trip(7, vec![ev(1, 10, 20, 0), ev(2, 10, 15, 1)])];
    let r = RaptorAlgorithm::from_trips(&vec![1u32, 2], trips);
    assert_eq!(r.unwrap_err(), PreprocessingError::DepartureOrder { trip: 7 });
}

#[test]
fn unknown_stop_is_refused() {
    let trips = vec![zero_trip(8, &[(1, 0), (9, 1)])];
    let r = RaptorAlgorithm::from_trips(&vec![1u32, 2], trips);
    assert_eq!(r.unwrap_err(), PreprocessingError::UnknownStop { trip: 8, stop: 9 });
}

#[test]
fn unrepresentable_timestamp_is_refused() {
    let trips = vec![trip(3, vec![ev(1, 0, i64::MAX, 0)])];
    let r = RaptorAlgorithm::from_trips(&vec![1u32], trips);
    assert_eq!(r.unwrap_err(), PreprocessingError::TimestampOutOfRange { trip: 3 });
}

#[test]
fn week_long_timestamps_are_accepted() {
    let week: i64 = 7 * 24 * 60 * 60 * 1000;
    let trips = vec![trip(3, vec![ev(1, -week, 0, 0), ev(2, week, week, 1)])];
    let out = RaptorAlgorithm::from_trips(&vec![1u32, 2], trips).unwrap();
    assert_eq!(out.departure(3, 2), Some(week));
}

#[test]
fn lines_at_a_stop() {
    let stops = vec![0u32, 1, 2, 3, 4, 5, 6];
    let out = RaptorAlgorithm::from_trips(&stops, four_trip_timetable()).unwrap();
    assert_eq!(out.lines_at(4), Some(&vec![(1, 2), (2, 1), (3, 4)]));
    assert_eq!(out.lines_at(6), Some(&vec![]));
    assert_eq!(out.lines_at(7), None);
}
