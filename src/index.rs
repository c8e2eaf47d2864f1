use vstd::prelude::*;
use crate::types::{Instant, LineId, SeqNum, StopId, Trip, TripId, trip_ids_unique};

verus! {

/// `a` comes before `b`: earlier departure, or the same departure and a smaller trip id.
pub open spec fn departs_before(a: (Instant, TripId), b: (Instant, TripId)) -> bool {
    a.0 < b.0 || (a.0 == b.0 && a.1 < b.1)
}

/// Strictly ascending by departure, with the trip id breaking ties.
pub open spec fn departures_sorted(v: Seq<(Instant, TripId)>) -> bool {
    forall|i: int, j: int| 0 <= i < j < v.len() ==> departs_before(#[trigger] v[i], #[trigger] v[j])
}

/// Inserts `x` into a sorted list at its place.
fn insert_sorted(v: &mut Vec<(Instant, TripId)>, x: (Instant, TripId))
    requires
        departures_sorted(old(v)@),
        !old(v)@.contains(x),
    ensures
        departures_sorted(final(v)@),
        final(v)@.len() == old(v)@.len() + 1,
        forall|p: (Instant, TripId)| final(v)@.contains(p) <==> (old(v)@.contains(p) || p == x),
{
    let mut i: usize = 0;
    while i < v.len()
        invariant
            v@ == old(v)@,
            !v@.contains(x),
            i <= v@.len(),
            forall|j: int| 0 <= j < i ==> departs_before(#[trigger] v@[j], x),
        ensures
            v@ == old(v)@,
            i <= v@.len(),
            forall|j: int| 0 <= j < i ==> departs_before(#[trigger] v@[j], x),
            i < v@.len() ==> departs_before(x, v@[i as int]),
        decreases v@.len() - i,
    {
        if departs_before_exec(x, v[i]) {
            break;
        }
        proof { assert(v@[i as int] != x); }
        i = i + 1;
    }
    let ghost pre = v@;
    proof {
        assert forall|j: int| i <= j < pre.len() implies departs_before(x, #[trigger] pre[j]) by {
            if i < pre.len() {
                assert(departs_before(x, pre[i as int]));
                if j > i {
                    assert(departs_before(pre[i as int], pre[j]));
                }
            }
        }
    }
    v.insert(i, x);
    proof {
        let nv = v@;
        assert(nv =~= pre.insert(i as int, x));
        assert forall|a: int, b: int| 0 <= a < b < nv.len() implies departs_before(#[trigger] nv[a], #[trigger] nv[b]) by {
            if b < i {
                assert(nv[a] == pre[a] && nv[b] == pre[b]);
            } else if b == i {
                assert(nv[a] == pre[a]);
            } else if a < i {
                assert(nv[a] == pre[a] && nv[b] == pre[b - 1]);
                assert(departs_before(pre[a], x));
                assert(departs_before(x, pre[b - 1]));
            } else if a == i {
                assert(nv[b] == pre[b - 1]);
            } else {
                assert(nv[a] == pre[a - 1] && nv[b] == pre[b - 1]);
            }
        }
        assert forall|p: (Instant, TripId)| nv.contains(p) <==> (pre.contains(p) || p == x) by {
            if nv.contains(p) {
                let k = choose|k: int| 0 <= k < nv.len() && nv[k] == p;
                if k < i {
                    assert(pre[k] == p);
                } else if k > i {
                    assert(pre[k - 1] == p);
                }
            }
            if pre.contains(p) {
                let k = choose|k: int| 0 <= k < pre.len() && pre[k] == p;
                if k < i {
                    assert(nv[k] == p);
                } else {
                    assert(nv[k + 1] == p);
                }
            }
            if p == x {
                assert(nv[i as int] == x);
            }
        }
    }
}

fn departs_before_exec(a: (Instant, TripId), b: (Instant, TripId)) -> (r: bool)
    ensures
        r == departs_before(a, b),
{
    a.0 < b.0 || (a.0 == b.0 && a.1 < b.1)
}

/// The catalog entry of trip `t` at the `k`-th stop of its line.
pub open spec fn catalog_entry(t: Trip, k: int) -> (Instant, TripId) {
    (t.events@[k].departure, t.id)
}

/// `p` is the entry, at the `k`-th stop of line `l`, of one of the first `n` trips on that line.
pub open spec fn in_catalog(trips: Seq<Trip>, line_of_trip: Seq<LineId>, l: LineId, k: int, p: (Instant, TripId), n: int) -> bool {
    exists|u: int| 0 <= u < n && line_of_trip[u] == l && p == catalog_entry(#[trigger] trips[u], k)
}

/// Lists the departures of the trips of line `l` at the `k`-th stop of the line, ascending by
/// departure, with the trip id breaking ties.
pub fn trips_at_line_stop(trips: &Vec<Trip>, line_of_trip: &Vec<LineId>, l: LineId, k: usize) -> (r: Vec<(Instant, TripId)>)
    requires
        line_of_trip@.len() == trips@.len(),
        trip_ids_unique(trips@),
        forall|t: int| 0 <= t < trips@.len() && #[trigger] line_of_trip@[t] == l ==> k < trips@[t].events@.len(),
    ensures
        departures_sorted(r@),
        forall|p: (Instant, TripId)| r@.contains(p) <==> in_catalog(trips@, line_of_trip@, l, k as int, p, trips@.len() as int),
{
    let mut r: Vec<(Instant, TripId)> = Vec::new();
    let mut t: usize = 0;
    while t < trips.len()
        invariant
            line_of_trip@.len() == trips@.len(),
            trip_ids_unique(trips@),
            forall|u: int| 0 <= u < trips@.len() && #[trigger] line_of_trip@[u] == l ==> k < trips@[u].events@.len(),
            t <= trips@.len(),
            departures_sorted(r@),
            forall|p: (Instant, TripId)| r@.contains(p) <==> in_catalog(trips@, line_of_trip@, l, k as int, p, t as int),
        decreases trips@.len() - t,
    {
        let ghost pre = r@;
        if line_of_trip[t] == l {
            let x = (trips[t].events[k].departure, trips[t].id);
            proof {
                assert(x == catalog_entry(trips@[t as int], k as int));
                if pre.contains(x) {
                    let u = choose|u: int| 0 <= u < t && line_of_trip@[u] == l && x == catalog_entry(#[trigger] trips@[u], k as int);
                    assert(trips@[u].id != trips@[t as int].id);
                }
            }
            insert_sorted(&mut r, x);
        }
        proof {
            assert forall|p: (Instant, TripId)| r@.contains(p) <==> in_catalog(trips@, line_of_trip@, l, k as int, p, t + 1) by {
                if in_catalog(trips@, line_of_trip@, l, k as int, p, t + 1) {
                    let u = choose|u: int| 0 <= u < t + 1 && line_of_trip@[u] == l && p == catalog_entry(#[trigger] trips@[u], k as int);
                    if u < t {
                        assert(in_catalog(trips@, line_of_trip@, l, k as int, p, t as int));
                    }
                }
                if pre.contains(p) {
                    let u = choose|u: int| 0 <= u < t && line_of_trip@[u] == l && p == catalog_entry(#[trigger] trips@[u], k as int);
                    assert(in_catalog(trips@, line_of_trip@, l, k as int, p, t + 1));
                }
            }
        }
        t = t + 1;
    }
    r
}

/// Stop `s` is the `p.1`-th stop of line `p.0`.
pub open spec fn line_visits(lines: Seq<Seq<StopId>>, p: (LineId, SeqNum), s: StopId) -> bool {
    &&& (p.0 as int) < lines.len()
    &&& (p.1 as int) < lines[p.0 as int].len()
    &&& lines[p.0 as int][p.1 as int] == s
}

/// `p` comes before line `l`, position `k`, in the order of lines and then positions.
pub open spec fn visit_before(p: (LineId, SeqNum), l: int, k: int) -> bool {
    (p.0 as int) < l || ((p.0 as int) == l && (p.1 as int) < k)
}

/// Lists every (line, position) at which a line visits stop `s`.
pub fn lines_at_stop(lines: &Vec<Vec<StopId>>, s: StopId) -> (r: Vec<(LineId, SeqNum)>)
    requires
        lines@.len() <= u32::MAX,
        forall|l: int| 0 <= l < lines@.len() ==> (#[trigger] lines@[l])@.len() <= u32::MAX,
    ensures
        r@.no_duplicates(),
        forall|p: (LineId, SeqNum)| r@.contains(p) <==> line_visits(lines@.map_values(|v: Vec<StopId>| v@), p, s),
{
    let ghost lv = lines@.map_values(|v: Vec<StopId>| v@);
    let mut r: Vec<(LineId, SeqNum)> = Vec::new();
    let mut l: usize = 0;
    while l < lines.len()
        invariant
            lv == lines@.map_values(|v: Vec<StopId>| v@),
            lines@.len() <= u32::MAX,
            forall|m: int| 0 <= m < lines@.len() ==> (#[trigger] lines@[m])@.len() <= u32::MAX,
            l <= lines@.len(),
            r@.no_duplicates(),
            forall|i: int| 0 <= i < r@.len() ==> visit_before(#[trigger] r@[i], l as int, 0),
            forall|p: (LineId, SeqNum)| r@.contains(p) <==> (line_visits(lv, p, s) && visit_before(p, l as int, 0)),
        decreases lines@.len() - l,
    {
        let line = &lines[l];
        let mut k: usize = 0;
        while k < line.len()
            invariant
                lv == lines@.map_values(|v: Vec<StopId>| v@),
                l < lines@.len(),
                *line == lines@[l as int],
                line@.len() <= u32::MAX,
                lines@.len() <= u32::MAX,
                k <= line@.len(),
                r@.no_duplicates(),
                forall|i: int| 0 <= i < r@.len() ==> visit_before(#[trigger] r@[i], l as int, k as int),
                forall|p: (LineId, SeqNum)| r@.contains(p) <==> (line_visits(lv, p, s) && visit_before(p, l as int, k as int)),
            decreases line@.len() - k,
        {
            let ghost pre = r@;
            proof { assert(lv[l as int] == line@); }
            if line[k] == s {
                let x = (l as LineId, k as SeqNum);
                proof {
                    assert(!visit_before(x, l as int, k as int));
                    if pre.contains(x) {
                        let i = choose|i: int| 0 <= i < pre.len() && pre[i] == x;
                        assert(visit_before(pre[i], l as int, k as int));
                    }
                }
                r.push(x);
                proof {
                    assert forall|a: int, b: int| 0 <= a < b < r@.len() implies r@[a] != r@[b] by {
                        if b == pre.len() {
                            assert(pre.contains(r@[a]));
                        }
                    }
                }
            }
            proof {
                assert forall|p: (LineId, SeqNum)| r@.contains(p) <==> (line_visits(lv, p, s) && visit_before(p, l as int, k + 1)) by {
                    if r@.contains(p) && !pre.contains(p) {
                        let i = choose|i: int| 0 <= i < r@.len() && r@[i] == p;
                        if i < pre.len() {
                            assert(pre[i] == p);
                        }
                        assert(i == pre.len());
                        assert(line_visits(lv, p, s));
                        assert(visit_before(p, l as int, k + 1));
                    }
                    if pre.contains(p) {
                        let i = choose|i: int| 0 <= i < pre.len() && pre[i] == p;
                        assert(r@[i] == p);
                    }
                    if line_visits(lv, p, s) && visit_before(p, l as int, k + 1) && !visit_before(p, l as int, k as int) {
                        assert(p.0 == l as LineId && p.1 == k as SeqNum);
                        assert(line@[k as int] == s);
                        assert(r@[r@.len() - 1] == p);
                    }
                }
            }
            k = k + 1;
        }
        proof {
            assert forall|p: (LineId, SeqNum)| visit_before(p, l as int, line@.len() as int) && line_visits(lv, p, s)
                <==> visit_before(p, l + 1, 0) && line_visits(lv, p, s) by {}
        }
        l = l + 1;
    }
    r
}

/// Returns the stops of `stops`, each once.
pub fn dedup_stops(stops: &Vec<StopId>) -> (r: Vec<StopId>)
    ensures
        r@.no_duplicates(),
        forall|s: StopId| r@.contains(s) <==> stops@.contains(s),
{
    let mut r: Vec<StopId> = Vec::new();
    let mut i: usize = 0;
    while i < stops.len()
        invariant
            i <= stops@.len(),
            r@.no_duplicates(),
            forall|x: StopId| r@.contains(x) <==> stops@.take(i as int).contains(x),
        decreases stops@.len() - i,
    {
        let s = stops[i];
        let ghost pre = r@;
        proof {
            assert(stops@.take(i + 1) =~= stops@.take(i as int).push(s));
        }
        if !crate::types::contains_stop(&r, s) {
            r.push(s);
            proof {
                assert forall|a: int, b: int| 0 <= a < b < r@.len() implies r@[a] != r@[b] by {
                    if b == pre.len() {
                        assert(pre.contains(r@[a]));
                    }
                }
                assert forall|x: StopId| r@.contains(x) <==> pre.contains(x) || x == s by {
                    if r@.contains(x) && x != s {
                        let k = choose|k: int| 0 <= k < r@.len() && r@[k] == x;
                        assert(pre[k] == x);
                    }
                    if pre.contains(x) {
                        let k = choose|k: int| 0 <= k < pre.len() && pre[k] == x;
                        assert(r@[k] == x);
                    }
                    if x == s {
                        assert(r@[pre.len() as int] == s);
                    }
                }
            }
        }
        proof {
            assert(r@.contains(s));
            assert forall|x: StopId| stops@.take(i + 1).contains(x) <==> stops@.take(i as int).contains(x) || x == s by {
                let pt = stops@.take(i as int);
                let nt = stops@.take(i + 1);
                if nt.contains(x) && x != s {
                    let k = choose|k: int| 0 <= k < nt.len() && nt[k] == x;
                    assert(pt[k] == x);
                }
                if pt.contains(x) {
                    let k = choose|k: int| 0 <= k < pt.len() && pt[k] == x;
                    assert(nt[k] == x);
                }
                if x == s {
                    assert(nt[i as int] == x);
                }
            }
            assert forall|x: StopId| r@.contains(x) <==> stops@.take(i + 1).contains(x) by {
                assert(stops@.take(i + 1).contains(x) <==> stops@.take(i as int).contains(x) || x == s);
                assert(pre.contains(x) <==> stops@.take(i as int).contains(x));
                assert(r@.contains(s));
                if r@ != pre {
                    assert(r@.contains(x) <==> pre.contains(x) || x == s);
                }
            }
        }
        i = i + 1;
    }
    proof {
        assert(stops@.take(stops@.len() as int) =~= stops@);
    }
    r
}

} // verus!
