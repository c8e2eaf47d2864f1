use vstd::prelude::*;
use crate::types::{LineId, StopId, Trip};

verus! {

/// The stop sequences of the trips, in trip order.
pub open spec fn signatures(trips: Seq<Trip>) -> Seq<Seq<StopId>> {
    trips.map_values(|t: Trip| t.signature())
}

/// The distinct sequences of `sigs`, each at the place where it first occurs.
pub open spec fn first_appearance(sigs: Seq<Seq<StopId>>) -> Seq<Seq<StopId>>
    decreases sigs.len(),
{
    if sigs.len() == 0 {
        Seq::empty()
    } else {
        let p = first_appearance(sigs.drop_last());
        if p.contains(sigs.last()) {
            p
        } else {
            p.push(sigs.last())
        }
    }
}

/// Some trip among the first `n` is mapped to line `l`.
pub open spec fn line_used(line_of_trip: Seq<LineId>, l: int, n: int) -> bool {
    exists|t: int| 0 <= t < n && #[trigger] line_of_trip[t] == l
}

/// The lines of a timetable: trips grouped by their stop sequence.
#[derive(Clone, Debug)]
pub struct DirectConnections {
    /// The stop sequence of each line, indexed by `LineId`.
    pub lines: Vec<Vec<StopId>>,
    /// The line of each trip, indexed by the trip's position in the timetable.
    pub line_of_trip: Vec<LineId>,
}

impl DirectConnections {
    pub open spec fn lines_view(self) -> Seq<Seq<StopId>> {
        self.lines@.map_values(|v: Vec<StopId>| v@)
    }

    /// `self` groups `trips`: the lines are the distinct stop sequences in order of first
    /// appearance, and each trip is mapped to the line of its own stop sequence.
    pub open spec fn groups(self, trips: Seq<Trip>) -> bool {
        &&& self.lines_view() == first_appearance(signatures(trips))
        &&& self.line_of_trip@.len() == trips.len()
        &&& self.lines@.len() <= trips.len()
        &&& forall|t: int| 0 <= t < trips.len() ==> {
            &&& (#[trigger] self.line_of_trip@[t]) < self.lines@.len()
            &&& self.lines_view()[self.line_of_trip@[t] as int] == trips[t].signature()
        }
        &&& forall|l: int| 0 <= l < self.lines@.len() ==> #[trigger] line_used(self.line_of_trip@, l, trips.len() as int)
    }
}

/// No sequence occurs twice in `first_appearance(sigs)`.
pub proof fn lemma_first_appearance_distinct(sigs: Seq<Seq<StopId>>)
    ensures
        first_appearance(sigs).no_duplicates(),
    decreases sigs.len(),
{
    if sigs.len() > 0 {
        lemma_first_appearance_distinct(sigs.drop_last());
    }
}

/// Returns whether two stop sequences are equal.
pub fn same_stops(a: &Vec<StopId>, b: &Vec<StopId>) -> (r: bool)
    ensures
        r == (a@ == b@),
{
    if a.len() != b.len() {
        return false;
    }
    let mut i: usize = 0;
    while i < a.len()
        invariant
            a@.len() == b@.len(),
            i <= a@.len(),
            forall|j: int| 0 <= j < i ==> a@[j] == b@[j],
        decreases a@.len() - i,
    {
        if a[i] != b[i] {
            return false;
        }
        i = i + 1;
    }
    assert(a@ =~= b@);
    true
}

/// Returns the position of `sig` among `lines`, if it is there.
fn find_line(lines: &Vec<Vec<StopId>>, sig: &Vec<StopId>) -> (r: Option<usize>)
    ensures
        r matches Some(i) ==> i < lines@.len() && lines@[i as int]@ == sig@,
        r is None ==> forall|i: int| 0 <= i < lines@.len() ==> lines@[i]@ != sig@,
{
    let mut i: usize = 0;
    while i < lines.len()
        invariant
            i <= lines@.len(),
            forall|j: int| 0 <= j < i ==> lines@[j]@ != sig@,
        decreases lines@.len() - i,
    {
        if same_stops(&lines[i], sig) {
            return Some(i);
        }
        i = i + 1;
    }
    None
}

/// Groups trips into lines. Each distinct stop sequence becomes a line; lines are numbered
/// in the order in which their stop sequence first occurs among the trips.
pub fn build_direct_connections(trips: &Vec<Trip>) -> (dc: DirectConnections)
    requires
        trips@.len() <= u32::MAX,
    ensures
        dc.groups(trips@),
{
    let ghost sigs = signatures(trips@);
    let mut lines: Vec<Vec<StopId>> = Vec::new();
    let mut line_of_trip: Vec<LineId> = Vec::new();
    let mut i: usize = 0;
    while i < trips.len()
        invariant
            i <= trips@.len(),
            trips@.len() <= u32::MAX,
            sigs == signatures(trips@),
            lines@.map_values(|v: Vec<StopId>| v@) == first_appearance(sigs.take(i as int)),
            lines@.len() <= i,
            line_of_trip@.len() == i,
            forall|t: int| 0 <= t < i ==> {
                &&& (#[trigger] line_of_trip@[t]) < lines@.len()
                &&& lines@[line_of_trip@[t] as int]@ == trips@[t].signature()
            },
            forall|l: int| 0 <= l < lines@.len() ==> #[trigger] line_used(line_of_trip@, l, i as int),
        decreases trips@.len() - i,
    {
        let sig = crate::types::signature(&trips[i]);
        let ghost prev = lines@.map_values(|v: Vec<StopId>| v@);
        let ghost prev_lot = line_of_trip@;
        proof {
            assert(sigs.take(i + 1).drop_last() =~= sigs.take(i as int));
            assert(sigs.take(i + 1).last() == sig@);
        }
        match find_line(&lines, &sig) {
            Some(l) => {
                proof {
                    assert(prev[l as int] == sig@);
                    assert(prev.contains(sig@));
                }
                line_of_trip.push(l as LineId);
                proof {
                    assert(line_of_trip@[i as int] == l);
                }
            },
            None => {
                proof {
                    assert(!prev.contains(sig@));
                }
                let l = lines.len();
                lines.push(sig);
                line_of_trip.push(l as LineId);
                proof {
                    assert(lines@.map_values(|v: Vec<StopId>| v@) =~= prev.push(sig@));
                    assert(line_of_trip@[i as int] == l);
                }
            },
        }
        proof {
            assert forall|l: int| 0 <= l < lines@.len() implies #[trigger] line_used(line_of_trip@, l, i + 1) by {
                if l < prev.len() {
                    assert(line_used(prev_lot, l, i as int));
                    let t = choose|t: int| 0 <= t < i && #[trigger] prev_lot[t] == l;
                    assert(line_of_trip@[t] == l);
                } else {
                    assert(line_of_trip@[i as int] == l);
                }
            }
        }
        i = i + 1;
    }
    proof {
        assert(sigs.take(trips@.len() as int) =~= sigs);
    }
    DirectConnections { lines, line_of_trip }
}

/// Trips grouped under the same line share one stop sequence, and trips with one stop
/// sequence are grouped under the same line.
pub proof fn lemma_same_line_iff_same_stops(dc: DirectConnections, trips: Seq<Trip>, a: int, b: int)
    requires
        dc.groups(trips),
        0 <= a < trips.len(),
        0 <= b < trips.len(),
    ensures
        dc.line_of_trip@[a] == dc.line_of_trip@[b] <==> trips[a].signature() == trips[b].signature(),
{
    lemma_first_appearance_distinct(signatures(trips));
    let v = dc.lines_view();
    assert(v[dc.line_of_trip@[a] as int] == trips[a].signature());
    assert(v[dc.line_of_trip@[b] as int] == trips[b].signature());
}

} // verus!
