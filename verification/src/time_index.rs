//! The time index: timestamp, then positions, in chronological order.

use crate::event;
use crate::query;
use crate::sort;
use crate::time::{Instant, Timestamp};
use vstd::prelude::*;

verus! {

/// One timestamp and the positions that bear it.
pub struct TimeSlot {
    pub time: Timestamp,
    pub positions: Vec<usize>,
}

/// Positions by timestamp.
pub struct TimeIndex {
    slots: Vec<TimeSlot>,
}

impl TimeIndex {
    /// Timestamps ascend, and so do the positions that bear one; none comes twice.
    pub closed spec fn wf(self) -> bool {
        &&& forall|i: int, j: int|
            0 <= i < j < self.slots@.len() ==> (#[trigger] self.slots@[i]).time@.key() < (
            #[trigger] self.slots@[j]).time@.key()
        &&& forall|i: int|
            0 <= i < self.slots@.len() ==> sort::strictly_ascending(
                (#[trigger] self.slots@[i]).positions@,
            )
    }

    /// Whether a position bears an earlier timestamp than another, or is the smaller of two that
    /// bear the same.
    pub open spec fn earlier(self, p: usize, q: usize) -> bool {
        exists|t: Instant, u: Instant|
            #![trigger self.timed(t, p), self.timed(u, q)]
            self.timed(t, p) && self.timed(u, q) && (t.key() < u.key() || t == u && p < q)
    }

    /// Whether `position` is filed under `time`.
    pub closed spec fn timed(self, time: Instant, position: usize) -> bool {
        exists|i: int|
            0 <= i < self.slots@.len() && (#[trigger] self.slots@[i]).time@ == time
                && self.slots@[i].positions@.contains(position)
    }

    /// No timestamps.
    pub fn new() -> (r: TimeIndex)
        ensures
            r.wf(),
            forall|t: Instant, p: usize| !r.timed(t, p),
    {
        TimeIndex { slots: Vec::new() }
    }

    /// The first slot that is not before `time`.
    fn lower_bound(&self, time: &Timestamp) -> (r: usize)
        requires
            self.wf(),
        ensures
            r <= self.slots@.len(),
            forall|i: int|
                0 <= i < r ==> (#[trigger] self.slots@[i]).time@.key() < time@.key(),
            forall|i: int|
                r <= i < self.slots@.len() ==> (#[trigger] self.slots@[i]).time@.key()
                    >= time@.key(),
    {
        let mut low: usize = 0;
        let mut high: usize = self.slots.len();
        while low < high
            invariant
                self.wf(),
                low <= high <= self.slots@.len(),
                forall|i: int|
                    0 <= i < low ==> (#[trigger] self.slots@[i]).time@.key() < time@.key(),
                forall|i: int|
                    high <= i < self.slots@.len() ==> (#[trigger] self.slots@[i]).time@.key()
                        >= time@.key(),
            decreases high - low,
        {
            let middle = low + (high - low) / 2;
            if self.slots[middle].time.before(time) {
                low = middle + 1;
            } else {
                high = middle;
            }
        }
        low
    }

    /// Files a position under a timestamp.
    pub fn add(&mut self, time: Timestamp, position: usize)
        requires
            old(self).wf(),
            forall|t: Instant, p: usize| #[trigger] old(self).timed(t, p) ==> p < position,
        ensures
            final(self).wf(),
            forall|t: Instant, p: usize|
                #![trigger final(self).timed(t, p)]
                #![trigger old(self).timed(t, p)]
                final(self).timed(t, p) <==> old(self).timed(t, p) || (t == time@ && p == position),
    {
        let ghost before = self.slots@;
        let at = self.lower_bound(&time);
        if at < self.slots.len() {
            if self.slots[at].time.same(&time) {
                self.slots[at].positions.push(position);
                proof {
                    let pushed = before[at as int].positions@.push(position);
                    assert forall|k: int| 0 <= k < pushed.len() - 1 implies #[trigger] pushed[k]
                        < position by {
                        assert(before[at as int].positions@.contains(pushed[k]));
                        assert(old(self).timed(before[at as int].time@, pushed[k]));
                    }
                    assert(sort::strictly_ascending(pushed));
                    assert forall|p: usize| pushed.contains(p) <==> before[at as int].positions@.contains(p)
                        || p == position by {
                        if before[at as int].positions@.contains(p) {
                            let k = before[at as int].positions@.index_of(p);
                            assert(pushed[k] == p);
                        }
                        assert(pushed[pushed.len() - 1] == position);
                    }
                    assert forall|t: Instant, p: usize|
                        #![trigger self.timed(t, p)]
                        #![trigger old(self).timed(t, p)]
                        self.timed(t, p) <==> old(self).timed(t, p) || (t == time@ && p == position) by {
                        if old(self).timed(t, p) {
                            let i = choose|i: int|
                                0 <= i < before.len() && (#[trigger] before[i]).time@ == t
                                    && before[i].positions@.contains(p);
                            assert(self.slots@[i].time@ == t);
                        }
                        if self.timed(t, p) {
                            let i = choose|i: int|
                                0 <= i < self.slots@.len() && (#[trigger] self.slots@[i]).time@ == t
                                    && self.slots@[i].positions@.contains(p);
                            assert(before[i].time@ == t);
                        }
                        assert(self.slots@[at as int].time@ == time@);
                    }
                }
                return ;
            }
        }
        self.slots.insert(at, TimeSlot { time, positions: vec![position] });
        proof {
            let after = self.slots@;
            assert forall|i: int, j: int| 0 <= i < j < after.len() implies (
            #[trigger] after[i]).time@.key() < (#[trigger] after[j]).time@.key() by {
                if i < at {
                    assert(after[i] == before[i]);
                }
                if i > at {
                    assert(after[i] == before[i - 1]);
                }
                if j < at {
                    assert(after[j] == before[j]);
                }
                if j > at {
                    assert(after[j] == before[j - 1]);
                }
            }
            assert forall|t: Instant, p: usize|
                #![trigger self.timed(t, p)]
                #![trigger old(self).timed(t, p)]
                self.timed(t, p) <==> old(self).timed(t, p) || (t == time@ && p == position) by {
                if old(self).timed(t, p) {
                    let i = choose|i: int|
                        0 <= i < before.len() && (#[trigger] before[i]).time@ == t
                            && before[i].positions@.contains(p);
                    if i < at {
                        assert(after[i] == before[i]);
                    } else {
                        assert(after[i + 1] == before[i]);
                    }
                }
                if self.timed(t, p) {
                    let i = choose|i: int|
                        0 <= i < after.len() && (#[trigger] after[i]).time@ == t
                            && after[i].positions@.contains(p);
                    if i < at {
                        assert(after[i] == before[i]);
                    } else if i > at {
                        assert(after[i] == before[i - 1]);
                    }
                }
                assert(after[at as int].time@ == time@);
                assert(after[at as int].positions@[0] == position);
            }
        }
    }

    /// The positions between two inclusive bounds.
    pub fn range(&self, start: &Option<Timestamp>, end: &Option<Timestamp>) -> (r: Vec<usize>)
        requires
            self.wf(),
        ensures
            forall|p: usize| #[trigger]
                r@.contains(p) <==> exists|t: Instant| #[trigger]
                    self.timed(t, p) && query::in_range(
                        t,
                        event::instant(*start),
                        event::instant(*end),
                    ),
            forall|a: int, b: int|
                0 <= a < b < r@.len() ==> self.earlier(#[trigger] r@[a], #[trigger] r@[b]),
    {
        let ghost from = event::instant(*start);
        let ghost to = event::instant(*end);
        let first: usize = match start {
            Some(s) => self.lower_bound(s),
            None => 0,
        };
        let mut found: Vec<usize> = Vec::new();
        // The slot that each position was found in.
        let ghost mut places: Seq<int> = Seq::empty();
        let mut i = first;
        while i < self.slots.len()
            invariant_except_break
                forall|j: int|
                    first <= j < i ==> query::in_range((#[trigger] self.slots@[j]).time@, from, to),
            invariant
                self.wf(),
                from == event::instant(*start),
                to == event::instant(*end),
                first <= i <= self.slots@.len(),
                forall|j: int|
                    0 <= j < first ==> !query::in_range((#[trigger] self.slots@[j]).time@, from, to),
                forall|j: int|
                    first <= j < self.slots@.len() ==> (from matches Some(s) ==> s.key() <= (
                    #[trigger] self.slots@[j]).time@.key()),
                forall|p: usize| #[trigger]
                    found@.contains(p) <==> exists|j: int|
                        first <= j < i && (#[trigger] self.slots@[j]).positions@.contains(p),
                self.placed(found@, places, i as int),
            ensures
                forall|j: int|
                    first <= j < i ==> query::in_range((#[trigger] self.slots@[j]).time@, from, to),
                forall|j: int|
                    i <= j < self.slots@.len() ==> !query::in_range(
                        (#[trigger] self.slots@[j]).time@,
                        from,
                        to,
                    ),
            decreases self.slots.len() - i,
        {
            if let Some(e) = end {
                if e.before(&self.slots[i].time) {
                    break ;
                }
            }
            let ghost before = found@;
            let slot = &self.slots[i];
            let mut k: usize = 0;
            let ghost earlier_places = places;
            while k < slot.positions.len()
                invariant
                    k <= slot.positions.len(),
                    slot == self.slots@[i as int],
                    i < self.slots@.len(),
                    found@ == before + slot.positions@.take(k as int),
                    self.placed(before, earlier_places, i as int),
                    places == earlier_places + Seq::new(k as nat, |n: int| i as int),
                decreases slot.positions.len() - k,
            {
                found.push(slot.positions[k]);
                k += 1;
                proof {
                    places = places.push(i as int);
                    assert(places =~= earlier_places + Seq::new(k as nat, |n: int| i as int));
                }
                assert(slot.positions@.take(k as int) =~= slot.positions@.take(k - 1).push(
                    slot.positions@[k - 1],
                ));
            }
            proof {
                let here = slot.positions@;
                assert(here.take(here.len() as int) =~= here);
                self.lemma_placed_on(before, earlier_places, i as int);
                assert forall|p: usize| #[trigger] found@.contains(p) <==> exists|j: int|
                    first <= j < i + 1 && (#[trigger] self.slots@[j]).positions@.contains(p) by {
                    lemma_contains_concat(before, here, p);
                    if here.contains(p) {
                        assert(self.slots@[i as int].positions@.contains(p));
                    }
                }
            }
            i += 1;
        }
        proof {
            assert forall|p: usize| #[trigger] found@.contains(p) <==> exists|t: Instant| #[trigger]
                self.timed(t, p) && query::in_range(t, from, to) by {
                if found@.contains(p) {
                    let j = choose|j: int|
                        first <= j < i && (#[trigger] self.slots@[j]).positions@.contains(p);
                    assert(self.timed(self.slots@[j].time@, p));
                }
                if exists|t: Instant| #[trigger] self.timed(t, p) && query::in_range(t, from, to) {
                    let t = choose|t: Instant| #[trigger]
                        self.timed(t, p) && query::in_range(t, from, to);
                    let j = choose|j: int|
                        0 <= j < self.slots@.len() && (#[trigger] self.slots@[j]).time@ == t
                            && self.slots@[j].positions@.contains(p);
                    assert(first <= j < i);
                }
            }
        }
        proof {
            assert forall|a: int, b: int| 0 <= a < b < found@.len() implies self.earlier(
                #[trigger] found@[a],
                #[trigger] found@[b],
            ) by {
                let x = self.slots@[places[a]];
                let y = self.slots@[places[b]];
                assert(self.timed(x.time@, found@[a]));
                assert(self.timed(y.time@, found@[b]));
            }
        }
        found
    }

    /// Whether each position stands in its slot, before a given one, and slots and the positions of
    /// one slot ascend.
    spec fn placed(self, found: Seq<usize>, places: Seq<int>, end: int) -> bool {
        &&& places.len() == found.len()
        &&& forall|a: int|
            0 <= a < found.len() ==> 0 <= #[trigger] places[a] < end && places[a]
                < self.slots@.len() && self.slots@[places[a]].positions@.contains(found[a])
        &&& forall|a: int, b: int|
            0 <= a < b < found.len() ==> #[trigger] places[a] < #[trigger] places[b] || places[a]
                == places[b] && found[a] < found[b]
    }

    /// The positions of one more slot.
    proof fn lemma_placed_on(self, found: Seq<usize>, places: Seq<int>, i: int)
        requires
            self.wf(),
            0 <= i < self.slots@.len(),
            self.placed(found, places, i),
        ensures
            ({
                let here = self.slots@[i].positions@;
                self.placed(found + here, places + Seq::new(here.len(), |n: int| i), i + 1)
            }),
    {
        let here = self.slots@[i].positions@;
        let all = found + here;
        let all_places = places + Seq::new(here.len(), |n: int| i);
        assert forall|a: int| 0 <= a < all.len() implies 0 <= #[trigger] all_places[a] < i + 1
            && all_places[a] < self.slots@.len() && self.slots@[all_places[a]].positions@.contains(
            all[a],
        ) by {
            if a < found.len() {
                assert(all_places[a] == places[a]);
            } else {
                assert(here[a - found.len()] == all[a]);
            }
        }
        assert forall|a: int, b: int| 0 <= a < b < all.len() implies #[trigger] all_places[a]
            < #[trigger] all_places[b] || all_places[a] == all_places[b] && all[a] < all[b] by {
            if b < found.len() {
                assert(all_places[a] == places[a] && all_places[b] == places[b]);
            } else if a < found.len() {
                assert(all_places[a] == places[a]);
            } else {
                assert(here[a - found.len()] < here[b - found.len()]);
            }
        }
    }
}

/// What a concatenation contains.
pub proof fn lemma_contains_concat(a: Seq<usize>, b: Seq<usize>, p: usize)
    ensures
        (a + b).contains(p) <==> a.contains(p) || b.contains(p),
{
    if a.contains(p) {
        let k = a.index_of(p);
        assert((a + b)[k] == p);
    }
    if b.contains(p) {
        let k = b.index_of(p);
        assert((a + b)[a.len() + k] == p);
    }
    if (a + b).contains(p) {
        let k = (a + b).index_of(p);
        if k < a.len() {
            assert(a[k] == p);
        } else {
            assert(b[k - a.len()] == p);
        }
    }
}

} // verus!
