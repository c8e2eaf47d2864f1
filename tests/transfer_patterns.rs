use routing::patterns::{
    collect_transfer_patterns, extract_pattern, Journey, Leg, RangeResult, TransferPatterns, CHUNK_SIZE,
};

fn ride(line: u32, trip: u32, from: u32, to: u32) -> Leg {
    Leg::Ride { line, trip, from, to }
}

fn walk(from: u32, to: u32) -> Leg {
    Leg::Transfer { from, to }
}

fn sample_results() -> Vec<Option<RangeResult>> {
    (0u32..9)
        .map(|s| {
            Some(RangeResult {
                origin: s,
                journeys: vec![
                    Journey { legs: vec![ride(s, 100 + s, s, s + 1)] },
                    Journey { legs: vec![ride(0, 1, s, 4), walk(4, 5), ride(2, 3, 5, 6)] },
                    Journey { legs: vec![ride(0, 2, s, 4), walk(4, 5), ride(2, 7, 5, 6)] },
                ],
            })
        })
        .collect()
}

fn sorted_entries(tp: &TransferPatterns) -> Vec<(u32, Vec<(u32, u32, u32)>)> {
    let mut e = tp.entries.clone();
    e.sort();
    e
}

#[test]
fn pattern_drops_trips_and_walks() {
    let j = Journey { legs: vec![walk(1, 2), ride(3, 40, 2, 5), walk(5, 6), ride(7, 41, 6, 9)] };
    assert_eq!(extract_pattern(&j), vec![(3, 2, 5), (7, 6, 9)]);
}

#[test]
fn journeys_differing_in_trips_share_a_pattern() {
    let tp = collect_transfer_patterns(sample_results(), CHUNK_SIZE);
    // per origin: the direct ride, and one pattern for the two journeys via stop 4
    assert_eq!(tp.entries.len(), 18);
    assert!(tp.contains(0, &vec![(0, 0, 4), (2, 5, 6)]));
    assert!(!tp.contains(0, &vec![(2, 5, 6)]));
}

#[test]
fn chunk_size_does_not_matter() {
    let a = collect_transfer_patterns(sample_results(), 1);
    let b = collect_transfer_patterns(sample_results(), 7);
    assert_eq!(sorted_entries(&a), sorted_entries(&b));
}

#[test]
fn stop_order_does_not_matter() {
    let mut reversed = sample_results();
    reversed.reverse();
    let a = collect_transfer_patterns(sample_results(), 2);
    let b = collect_transfer_patterns(reversed, 3);
    assert_eq!(sorted_entries(&a), sorted_entries(&b));
}

#[test]
fn failed_query_is_skipped() {
    let clean = collect_transfer_patterns(sample_results(), CHUNK_SIZE);
    let mut failing = sample_results();
    failing[3] = None;
    let out = collect_transfer_patterns(failing, CHUNK_SIZE);
    let expected: Vec<_> = sorted_entries(&clean).into_iter().filter(|(o, _)| *o != 3).collect();
    assert_eq!(sorted_entries(&out), expected);
}

#[test]
fn add_multiple_twice_changes_nothing() {
    let batch: Vec<RangeResult> = sample_results().into_iter().flatten().collect();
    let mut tp = TransferPatterns::new();
    tp.add_multiple(&batch);
    let once = tp.entries.clone();
    tp.add_multiple(&batch);
    assert_eq!(tp.entries, once);
}

#[test]
fn insert_keeps_one_copy() {
    let mut tp = TransferPatterns::new();
    tp.insert(1, vec![(2, 3, 4)]);
    tp.insert(1, vec![(2, 3, 4)]);
    tp.insert(2, vec![(2, 3, 4)]);
    assert_eq!(tp.entries.len(), 2);
}

#[test]
fn empty_outcomes_give_no_patterns() {
    let tp = collect_transfer_patterns(vec![None, None], CHUNK_SIZE);
    assert!(tp.entries.is_empty());
}
