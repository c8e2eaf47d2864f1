use vstd::prelude::*;
use crate::types::{LineId, StopId, TripId};

verus! {

/// One leg of a journey.
#[derive(Clone, Copy, Debug, PartialEq, Eq)]
pub enum Leg {
    /// A ride on `trip` of `line`, boarded at `from` and left at `to`.
    Ride { line: LineId, trip: TripId, from: StopId, to: StopId },
    /// A walk from one stop to another.
    Transfer { from: StopId, to: StopId },
}

/// A journey: its legs, in order.
#[derive(Clone, Debug)]
pub struct Journey {
    pub legs: Vec<Leg>,
}

/// What a range query from one origin stop returned: its Pareto-optimal journeys.
#[derive(Clone, Debug)]
pub struct RangeResult {
    pub origin: StopId,
    pub journeys: Vec<Journey>,
}

/// One ride of a transfer pattern: the line, the stop where it is boarded and the stop where
/// it is left.
pub type PatternHop = (LineId, StopId, StopId);

/// The transfer pattern of a journey: its rides without the trips, in order.
pub open spec fn pattern_of(legs: Seq<Leg>) -> Seq<PatternHop>
    decreases legs.len(),
{
    if legs.len() == 0 {
        Seq::empty()
    } else {
        let p = pattern_of(legs.drop_last());
        match legs.last() {
            Leg::Ride { line, trip, from, to } => p.push((line, from, to)),
            Leg::Transfer { .. } => p,
        }
    }
}

/// The (origin, pattern) pairs of the journeys of a batch of range results.
pub open spec fn batch_patterns(b: Seq<RangeResult>) -> Set<(StopId, Seq<PatternHop>)> {
    Set::new(|e: (StopId, Seq<PatternHop>)| exists|i: int, j: int|
        0 <= i < b.len() && 0 <= j < b[i].journeys@.len()
            && e == (b[i].origin, pattern_of((#[trigger] b[i].journeys@[j]).legs@)))
}

/// The (origin, pattern) pairs of the journeys of the range queries that succeeded.
pub open spec fn outcome_patterns(s: Seq<Option<RangeResult>>) -> Set<(StopId, Seq<PatternHop>)> {
    Set::new(|e: (StopId, Seq<PatternHop>)| exists|i: int, j: int|
        0 <= i < s.len() && s[i] is Some && 0 <= j < s[i]->Some_0.journeys@.len()
            && e == (s[i]->Some_0.origin, pattern_of((#[trigger] s[i]->Some_0.journeys@[j]).legs@)))
}

/// The (origin, pattern) pairs of the first `n` journeys of one range result.
pub open spec fn result_pairs(r: RangeResult, n: int) -> Set<(StopId, Seq<PatternHop>)> {
    Set::new(|e: (StopId, Seq<PatternHop>)| exists|j: int|
        0 <= j < n && j < r.journeys@.len() && e == (r.origin, pattern_of((#[trigger] r.journeys@[j]).legs@)))
}

/// Adding one range result to a batch adds the pairs of its journeys.
pub proof fn lemma_batch_push(b: Seq<RangeResult>, r: RangeResult)
    ensures
        batch_patterns(b.push(r)) == batch_patterns(b).union(result_pairs(r, r.journeys@.len() as int)),
{
    let nb = b.push(r);
    assert forall|e| batch_patterns(nb).contains(e) <==> batch_patterns(b).union(result_pairs(r, r.journeys@.len() as int)).contains(e) by {
        if batch_patterns(nb).contains(e) {
            let (i, j) = choose|i: int, j: int| 0 <= i < nb.len() && 0 <= j < nb[i].journeys@.len()
                && e == (nb[i].origin, pattern_of((#[trigger] nb[i].journeys@[j]).legs@));
            if i < b.len() {
                assert(b[i] == nb[i]);
                assert(batch_patterns(b).contains(e));
            } else {
                assert(nb[i] == r);
                assert(result_pairs(r, r.journeys@.len() as int).contains(e));
            }
        }
        if batch_patterns(b).contains(e) {
            let (i, j) = choose|i: int, j: int| 0 <= i < b.len() && 0 <= j < b[i].journeys@.len()
                && e == (b[i].origin, pattern_of((#[trigger] b[i].journeys@[j]).legs@));
            assert(nb[i] == b[i]);
            assert(nb[i].journeys@[j] == b[i].journeys@[j]);
        }
        if result_pairs(r, r.journeys@.len() as int).contains(e) {
            let j = choose|j: int| 0 <= j < r.journeys@.len() && j < r.journeys@.len()
                && e == (r.origin, pattern_of((#[trigger] r.journeys@[j]).legs@));
            assert(nb[b.len() as int] == r);
            assert(nb[b.len() as int].journeys@[j] == r.journeys@[j]);
        }
    }
    assert(batch_patterns(nb) =~= batch_patterns(b).union(result_pairs(r, r.journeys@.len() as int)));
}

/// Taking one more query outcome adds the pairs of its journeys, if it succeeded.
pub proof fn lemma_outcome_step(s: Seq<Option<RangeResult>>, i: int)
    requires
        0 <= i < s.len(),
    ensures
        outcome_patterns(s.take(i + 1)) == match s[i] {
            Some(r) => outcome_patterns(s.take(i)).union(result_pairs(r, r.journeys@.len() as int)),
            None => outcome_patterns(s.take(i)),
        },
{
    let a = s.take(i);
    let c = s.take(i + 1);
    let rhs = match s[i] {
        Some(r) => outcome_patterns(a).union(result_pairs(r, r.journeys@.len() as int)),
        None => outcome_patterns(a),
    };
    assert forall|e| outcome_patterns(c).contains(e) <==> rhs.contains(e) by {
        if outcome_patterns(c).contains(e) {
            let (k, j) = choose|k: int, j: int| 0 <= k < c.len() && c[k] is Some && 0 <= j < c[k]->Some_0.journeys@.len()
                && e == (c[k]->Some_0.origin, pattern_of((#[trigger] c[k]->Some_0.journeys@[j]).legs@));
            if k < i {
                assert(a[k] == c[k]);
                assert(outcome_patterns(a).contains(e));
            } else {
                assert(c[k] == s[i]);
                let r = s[i]->Some_0;
                assert(result_pairs(r, r.journeys@.len() as int).contains(e));
            }
        }
        if outcome_patterns(a).contains(e) {
            let (k, j) = choose|k: int, j: int| 0 <= k < a.len() && a[k] is Some && 0 <= j < a[k]->Some_0.journeys@.len()
                && e == (a[k]->Some_0.origin, pattern_of((#[trigger] a[k]->Some_0.journeys@[j]).legs@));
            assert(c[k] == a[k]);
            assert(c[k]->Some_0.journeys@[j] == a[k]->Some_0.journeys@[j]);
        }
        if s[i] is Some {
            let r = s[i]->Some_0;
            if result_pairs(r, r.journeys@.len() as int).contains(e) {
                let j = choose|j: int| 0 <= j < r.journeys@.len() && j < r.journeys@.len()
                    && e == (r.origin, pattern_of((#[trigger] r.journeys@[j]).legs@));
                assert(c[i] == s[i]);
                assert(c[i]->Some_0.journeys@[j] == r.journeys@[j]);
            }
        }
    }
    assert(outcome_patterns(c) =~= rhs);
}

/// Returns the transfer pattern of a journey.
pub fn extract_pattern(j: &Journey) -> (r: Vec<PatternHop>)
    ensures
        r@ == pattern_of(j.legs@),
{
    let mut r: Vec<PatternHop> = Vec::new();
    let mut i: usize = 0;
    while i < j.legs.len()
        invariant
            i <= j.legs@.len(),
            r@ == pattern_of(j.legs@.take(i as int)),
        decreases j.legs@.len() - i,
    {
        proof {
            assert(j.legs@.take(i + 1).drop_last() =~= j.legs@.take(i as int));
        }
        match j.legs[i] {
            Leg::Ride { line, trip, from, to } => r.push((line, from, to)),
            Leg::Transfer { .. } => {},
        }
        i = i + 1;
    }
    proof {
        assert(j.legs@.take(j.legs@.len() as int) =~= j.legs@);
    }
    r
}

/// Returns whether two patterns are equal.
pub fn same_pattern(a: &Vec<PatternHop>, b: &Vec<PatternHop>) -> (r: bool)
    ensures
        r == (a@ == b@),
{
    if a.len() != b.len() {
        return false;
    }
    let mut i: usize = 0;
    while i < a.len()
        invariant
            a@.len() == b@.len(),
            i <= a@.len(),
            forall|j: int| 0 <= j < i ==> a@[j] == b@[j],
        decreases a@.len() - i,
    {
        let x = a[i];
        let y = b[i];
        if x.0 != y.0 || x.1 != y.1 || x.2 != y.2 {
            return false;
        }
        i = i + 1;
    }
    assert(a@ =~= b@);
    true
}

/// The transfer patterns found so far, keyed by origin stop.
#[derive(Clone, Debug)]
pub struct TransferPatterns {
    pub entries: Vec<(StopId, Vec<PatternHop>)>,
}

impl TransferPatterns {
    pub open spec fn entries_view(self) -> Seq<(StopId, Seq<PatternHop>)> {
        self.entries@.map_values(|e: (StopId, Vec<PatternHop>)| (e.0, e.1@))
    }

    /// The set of (origin, pattern) pairs held.
    pub open spec fn view(self) -> Set<(StopId, Seq<PatternHop>)> {
        self.entries_view().to_set()
    }

    /// No pair is held twice.
    pub open spec fn wf(self) -> bool {
        self.entries_view().no_duplicates()
    }

    /// An aggregator that holds no pattern.
    pub fn new() -> (r: TransferPatterns)
        ensures
            r.wf(),
            r.view() == Set::<(StopId, Seq<PatternHop>)>::empty(),
    {
        let r = TransferPatterns { entries: Vec::new() };
        proof {
            assert(r.view() =~= Set::<(StopId, Seq<PatternHop>)>::empty());
        }
        r
    }

    /// Returns whether the pair is held.
    pub fn contains(&self, origin: StopId, pattern: &Vec<PatternHop>) -> (r: bool)
        ensures
            r == self.view().contains((origin, pattern@)),
    {
        let ghost ev = self.entries_view();
        let mut i: usize = 0;
        while i < self.entries.len()
            invariant
                ev == self.entries_view(),
                i <= self.entries@.len(),
                forall|j: int| 0 <= j < i ==> ev[j] != (origin, pattern@),
            decreases self.entries@.len() - i,
        {
            if self.entries[i].0 == origin && same_pattern(&self.entries[i].1, pattern) {
                proof {
                    assert(ev[i as int] == (origin, pattern@));
                }
                return true;
            }
            proof {
                assert(ev[i as int] == (self.entries@[i as int].0, self.entries@[i as int].1@));
            }
            i = i + 1;
        }
        proof {
            if ev.to_set().contains((origin, pattern@)) {
                let k = choose|k: int| 0 <= k < ev.len() && ev[k] == (origin, pattern@);
                assert(ev[k] == (origin, pattern@));
            }
        }
        false
    }

    /// Adds one pair; a pair already held is left as it is.
    pub fn insert(&mut self, origin: StopId, pattern: Vec<PatternHop>)
        requires
            old(self).wf(),
        ensures
            final(self).wf(),
            final(self).view() == old(self).view().insert((origin, pattern@)),
            old(self).view().contains((origin, pattern@)) ==> final(self).entries@ == old(self).entries@,
    {
        if self.contains(origin, &pattern) {
            proof {
                assert(self.view().insert((origin, pattern@)) =~= self.view());
            }
            return;
        }
        let ghost pre = self.entries_view();
        let ghost x = (origin, pattern@);
        self.entries.push((origin, pattern));
        proof {
            let ev = self.entries_view();
            assert(ev =~= pre.push(x));
            assert(!pre.contains(x));
            assert forall|a: int, b: int| 0 <= a < b < ev.len() implies ev[a] != ev[b] by {
                if b == pre.len() {
                    assert(pre.contains(ev[a]));
                }
            }
            assert forall|e| ev.to_set().contains(e) <==> pre.to_set().insert(x).contains(e) by {
                if ev.contains(e) && e != x {
                    let k = choose|k: int| 0 <= k < ev.len() && ev[k] == e;
                    assert(pre[k] == e);
                }
                if pre.contains(e) {
                    let k = choose|k: int| 0 <= k < pre.len() && pre[k] == e;
                    assert(ev[k] == e);
                }
                if e == x {
                    assert(ev[pre.len() as int] == x);
                }
            }
            assert(ev.to_set() =~= pre.to_set().insert(x));
        }
    }

    /// Adds the patterns of every journey of a batch of range results. Pairs already held are
    /// left as they are: a batch whose pairs are all held leaves the aggregator unchanged.
    pub fn add_multiple(&mut self, batch: &Vec<RangeResult>)
        requires
            old(self).wf(),
        ensures
            final(self).wf(),
            final(self).view() == old(self).view().union(batch_patterns(batch@)),
            batch_patterns(batch@).subset_of(old(self).view()) ==> final(self).entries@ == old(self).entries@,
    {
        let ghost start = self.view();
        let ghost held = batch_patterns(batch@).subset_of(start);
        let mut i: usize = 0;
        while i < batch.len()
            invariant
                self.wf(),
                i <= batch@.len(),
                start == old(self).view(),
                held == batch_patterns(batch@).subset_of(start),
                self.view() == start.union(batch_patterns(batch@.take(i as int))),
                held ==> self.entries@ == old(self).entries@,
            decreases batch@.len() - i,
        {
            let r = &batch[i];
            let mut j: usize = 0;
            while j < r.journeys.len()
                invariant
                    self.wf(),
                    i < batch@.len(),
                    *r == batch@[i as int],
                    j <= r.journeys@.len(),
                    start == old(self).view(),
                    held == batch_patterns(batch@).subset_of(start),
                    self.view() == start.union(batch_patterns(batch@.take(i as int))).union(result_pairs(*r, j as int)),
                    held ==> self.entries@ == old(self).entries@,
                decreases r.journeys@.len() - j,
            {
                let pattern = extract_pattern(&r.journeys[j]);
                let ghost x = (r.origin, pattern@);
                let ghost pre = self.view();
                proof {
                    assert(batch_patterns(batch@).contains(x));
                    if held {
                        assert(start.contains(x));
                        assert(pre.contains(x));
                    }
                }
                self.insert(r.origin, pattern);
                proof {
                    let a = start.union(batch_patterns(batch@.take(i as int)));
                    assert forall|e| result_pairs(*r, j + 1).contains(e) <==> result_pairs(*r, j as int).insert(x).contains(e) by {
                        if result_pairs(*r, j + 1).contains(e) && e != x {
                            let k = choose|k: int| 0 <= k < j + 1 && k < r.journeys@.len()
                                && e == (r.origin, pattern_of((#[trigger] r.journeys@[k]).legs@));
                            assert(k < j);
                        }
                    }
                    assert(result_pairs(*r, j + 1) =~= result_pairs(*r, j as int).insert(x));
                    assert(self.view() =~= a.union(result_pairs(*r, j + 1)));
                }
                j = j + 1;
            }
            proof {
                assert(batch@.take(i + 1) =~= batch@.take(i as int).push(*r));
                lemma_batch_push(batch@.take(i as int), *r);
                assert(result_pairs(*r, j as int) =~= result_pairs(*r, r.journeys@.len() as int));
                assert(self.view() =~= start.union(batch_patterns(batch@.take(i + 1))));
            }
            i = i + 1;
        }
        proof {
            assert(batch@.take(batch@.len() as int) =~= batch@);
        }
    }
}

/// Default number of origin stops whose results are added under one acquisition.
pub const CHUNK_SIZE: usize = 5;

/// Collects the transfer patterns of the range queries run from every stop, `chunk_size`
/// outcomes at a time. A failed query (`None`) contributes no pattern; the result does not
/// depend on `chunk_size`.
pub fn collect_transfer_patterns(results: Vec<Option<RangeResult>>, chunk_size: usize) -> (tp: TransferPatterns)
    requires
        chunk_size > 0,
    ensures
        tp.wf(),
        tp.view() == outcome_patterns(results@),
{
    let ghost orig = results@;
    let mut results = results;
    let mut tp = TransferPatterns::new();
    let n = results.len();
    proof {
        assert(outcome_patterns(orig.take(0)) =~= Set::<(StopId, Seq<PatternHop>)>::empty());
    }
    let mut start: usize = 0;
    while start < n
        invariant
            n == orig.len(),
            results@.len() == n,
            chunk_size > 0,
            start <= n,
            forall|k: int| start <= k < n ==> results@[k] == orig[k],
            tp.wf(),
            tp.view() == outcome_patterns(orig.take(start as int)),
        decreases n - start,
    {
        let end = if n - start < chunk_size { n } else { start + chunk_size };
        let mut batch: Vec<RangeResult> = Vec::new();
        let mut i: usize = start;
        proof {
            assert(batch_patterns(batch@) =~= Set::<(StopId, Seq<PatternHop>)>::empty());
        }
        while i < end
            invariant
                n == orig.len(),
                results@.len() == n,
                start <= i <= end <= n,
                forall|k: int| i <= k < n ==> results@[k] == orig[k],
                tp.wf(),
                tp.view() == outcome_patterns(orig.take(start as int)),
                tp.view().union(batch_patterns(batch@)) == outcome_patterns(orig.take(i as int)),
            decreases end - i,
        {
            let mut slot: Option<RangeResult> = None;
            std::mem::swap(&mut slot, &mut results[i]);
            let ghost before = batch@;
            proof {
                lemma_outcome_step(orig, i as int);
            }
            match slot {
                Some(r) => {
                    batch.push(r);
                    proof {
                        lemma_batch_push(before, r);
                        assert(tp.view().union(batch_patterns(batch@)) =~= outcome_patterns(orig.take(i + 1)));
                    }
                },
                None => {},
            }
            i = i + 1;
        }
        tp.add_multiple(&batch);
        start = end;
    }
    proof {
        assert(orig.take(n as int) =~= orig);
    }
    tp
}

/// Adding the same batch twice holds what adding it once holds: after the first time every
/// pair of the batch is held, and `add_multiple` leaves the entries unchanged.
pub proof fn lemma_add_multiple_idempotent(tp: TransferPatterns, b: Seq<RangeResult>)
    ensures
        batch_patterns(b).subset_of(tp.view().union(batch_patterns(b))),
        tp.view().union(batch_patterns(b)).union(batch_patterns(b)) == tp.view().union(batch_patterns(b)),
{
    assert(tp.view().union(batch_patterns(b)).union(batch_patterns(b)) =~= tp.view().union(batch_patterns(b)));
}

/// Adding two batches in either order holds the same pairs.
pub proof fn lemma_add_multiple_commutes(m: Set<(StopId, Seq<PatternHop>)>, a: Seq<RangeResult>, b: Seq<RangeResult>)
    ensures
        m.union(batch_patterns(a)).union(batch_patterns(b)) == m.union(batch_patterns(b)).union(batch_patterns(a)),
{
    assert(m.union(batch_patterns(a)).union(batch_patterns(b)) =~= m.union(batch_patterns(b)).union(batch_patterns(a)));
}

/// The collected patterns do not depend on the order in which the stops were processed:
/// outcomes that are a permutation of each other give the same pairs.
pub proof fn lemma_outcomes_order_independent(a: Seq<Option<RangeResult>>, b: Seq<Option<RangeResult>>)
    requires
        a.to_multiset() == b.to_multiset(),
    ensures
        outcome_patterns(a) == outcome_patterns(b),
{
    assert forall|e| outcome_patterns(a).contains(e) implies outcome_patterns(b).contains(e) by {
        lemma_outcome_in_permutation(a, b, e);
    }
    assert forall|e| outcome_patterns(b).contains(e) implies outcome_patterns(a).contains(e) by {
        lemma_outcome_in_permutation(b, a, e);
    }
    assert(outcome_patterns(a) =~= outcome_patterns(b));
}

proof fn lemma_outcome_in_permutation(a: Seq<Option<RangeResult>>, b: Seq<Option<RangeResult>>, e: (StopId, Seq<PatternHop>))
    requires
        a.to_multiset() == b.to_multiset(),
        outcome_patterns(a).contains(e),
    ensures
        outcome_patterns(b).contains(e),
{
    let (i, j) = choose|i: int, j: int| 0 <= i < a.len() && a[i] is Some && 0 <= j < a[i]->Some_0.journeys@.len()
        && e == (a[i]->Some_0.origin, pattern_of((#[trigger] a[i]->Some_0.journeys@[j]).legs@));
    a.to_multiset_ensures();
    b.to_multiset_ensures();
    assert(a.contains(a[i]));
    assert(a.to_multiset().count(a[i]) > 0);
    assert(b.to_multiset().count(a[i]) > 0);
    assert(b.contains(a[i]));
    let k = choose|k: int| 0 <= k < b.len() && b[k] == a[i];
    assert(b[k]->Some_0.journeys@[j] == a[i]->Some_0.journeys@[j]);
}

} // verus!
