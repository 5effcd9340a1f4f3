//! The decisions of the coordinator that drives parallel lanes one logical
//! time step at a time.

use vstd::prelude::*;
use crate::node::ResourceId;
use crate::value::{copy_values, Value, ValueModel};
use crate::eval::{fact_of, relation_tuples, RelationModel, RelationTuples};
use crate::facts::TraceMap;
use crate::infer::reversed;

verus! {

/// Where the coordinator stands within one logical time step.
#[derive(Copy, Clone, Debug, PartialEq, Eq, Structural)]
pub enum Phase {
    /// Waiting for the next batch of edits.
    Idle,
    /// Edits applied and every lane told to advance; waiting for their deltas.
    Draining,
    /// Every lane has reported at the current time; the merged delta is ready.
    ResultsCollected,
}

/// What the coordinator asks the code around it to do next.
#[derive(Copy, Clone, Debug, PartialEq, Eq, Structural)]
pub enum Action {
    /// Tell every lane to advance to this time.
    Advance(u64),
    /// Nothing to do until another lane reports.
    Wait,
    /// Hand the merged delta to the caller.
    Publish,
    /// The event was not expected here and was ignored.
    Ignore,
}

/// The coordinator's decisions: it advances logical time once per batch,
/// waits until every lane has reported at that time, and only then releases
/// the merged delta, lane by lane in lane order.
pub struct Coordinator<R> {
    pub time: u64,
    pub phase: Phase,
    pub reported: Vec<bool>,
    pub slots: Vec<Vec<R>>,
}

/// Whether every lane has reported.
pub open spec fn all_reported(reported: Seq<bool>) -> bool {
    forall|i: int| 0 <= i < reported.len() ==> #[trigger] reported[i]
}

/// The deltas of the lanes, one after another in lane order.
pub open spec fn in_lane_order<R>(slots: Seq<Vec<R>>) -> Seq<R>
    decreases slots.len(),
{
    if slots.len() == 0 {
        Seq::empty()
    } else {
        in_lane_order(slots.drop_last()) + slots.last()@
    }
}

impl<R> Coordinator<R> {
    /// The coordinator's invariant: one slot per lane, empty until the lane
    /// reports; it waits for lanes only while draining, and results are
    /// collected exactly when every lane has reported.
    pub open spec fn wf(&self) -> bool {
        &&& self.slots@.len() == self.reported@.len()
        &&& forall|i: int|
            0 <= i < self.reported@.len() && !self.reported@[i] ==> (#[trigger] self.slots@[i])@.len() == 0
        &&& self.phase == Phase::Idle ==> forall|i: int|
            0 <= i < self.reported@.len() ==> !#[trigger] self.reported@[i]
        &&& self.phase == Phase::ResultsCollected <==> (self.phase != Phase::Idle && all_reported(
            self.reported@,
        ))
    }

    /// Whether a report from `lane` at `time` is one the coordinator waits for.
    pub open spec fn accepts(&self, lane: usize, time: u64) -> bool {
        &&& self.phase == Phase::Draining
        &&& time == self.time
        &&& lane < self.reported@.len()
        &&& !self.reported@[lane as int]
    }

    /// A coordinator for `lanes` lanes, at time zero and idle.
    pub fn new(lanes: usize) -> (r: Coordinator<R>)
        requires
            lanes > 0,
        ensures
            r.wf(),
            r.time == 0,
            r.phase == Phase::Idle,
            r.reported@.len() == lanes,
    {
        let mut reported: Vec<bool> = Vec::new();
        let mut slots: Vec<Vec<R>> = Vec::new();
        let mut i: usize = 0;
        while i < lanes
            invariant
                i <= lanes,
                reported@.len() == i,
                slots@.len() == i,
                forall|j: int| 0 <= j < i ==> !#[trigger] reported@[j],
                forall|j: int| 0 <= j < i ==> (#[trigger] slots@[j])@.len() == 0,
            decreases lanes - i,
        {
            reported.push(false);
            slots.push(Vec::new());
            i = i + 1;
        }
        Coordinator { time: 0, phase: Phase::Idle, reported, slots }
    }

    /// A batch of edits has been applied: when idle, step to the next time
    /// and ask every lane to advance to it; otherwise ignore the event.
    pub fn on_batch(&mut self) -> (a: Action)
        requires
            old(self).wf(),
            old(self).reported@.len() > 0,
            old(self).time < u64::MAX,
        ensures
            final(self).wf(),
            final(self).reported@.len() == old(self).reported@.len(),
            old(self).phase == Phase::Idle ==> {
                &&& a == Action::Advance(final(self).time)
                &&& final(self).time == old(self).time + 1
                &&& final(self).phase == Phase::Draining
                &&& forall|i: int|
                    0 <= i < final(self).reported@.len() ==> !#[trigger] final(self).reported@[i]
                        && final(self).slots@[i]@.len() == 0
            },
            old(self).phase != Phase::Idle ==> a == Action::Ignore && *final(self) == *old(self),
    {
        if self.phase != Phase::Idle {
            return Action::Ignore;
        }
        self.time = self.time + 1;
        self.phase = Phase::Draining;
        proof {
            assert(!self.reported@[0]);
        }
        Action::Advance(self.time)
    }

    /// Lane `lane` reports its delta at `time`. A report for the current
    /// time from a lane that has not reported yet fills that lane's slot;
    /// once every lane has reported, the merged delta may be published.
    pub fn on_report(&mut self, lane: usize, time: u64, delta: Vec<R>) -> (a: Action)
        requires
            old(self).wf(),
        ensures
            final(self).wf(),
            final(self).time == old(self).time,
            final(self).reported@.len() == old(self).reported@.len(),
            old(self).accepts(lane, time) ==> final(self).reported@ == old(self).reported@.update(
                lane as int,
                true,
            ),
            old(self).accepts(lane, time) ==> final(self).slots@ == old(self).slots@.update(lane as int, delta),
            old(self).accepts(lane, time) ==> (a == Action::Publish <==> all_reported(
                final(self).reported@,
            )),
            old(self).accepts(lane, time) ==> (a == Action::Wait <==> !all_reported(
                final(self).reported@,
            )),
            !old(self).accepts(lane, time) ==> a == Action::Ignore && *final(self) == *old(self),
    {
        if self.phase != Phase::Draining || time != self.time || lane >= self.reported.len()
            || self.reported[lane] {
            return Action::Ignore;
        }
        let ghost d0 = delta;
        self.reported.set(lane, true);
        self.slots.set(lane, delta);
        let ghost snap = *self;
        let mut i: usize = 0;
        while i < self.reported.len()
            invariant
                *self == snap,
                self.time == old(self).time,
                self.phase == Phase::Draining,
                self.reported@.len() == old(self).reported@.len(),
                self.reported@ == old(self).reported@.update(lane as int, true),
                self.slots@ == old(self).slots@.update(lane as int, d0),
                d0 == delta,
                old(self).wf(),
                lane < self.reported@.len(),
                old(self).phase == Phase::Draining,
                time == old(self).time,
                !old(self).reported@[lane as int],
                i <= self.reported@.len(),
                forall|j: int| 0 <= j < i ==> #[trigger] self.reported@[j],
            decreases self.reported.len() - i,
        {
            if !self.reported[i] {
                proof {
                    assert(!self.reported@[i as int]);
                    assert(!all_reported(self.reported@));
                }
                return Action::Wait;
            }
            i = i + 1;
        }
        proof {
            assert(all_reported(self.reported@));
        }
        self.phase = Phase::ResultsCollected;
        Action::Publish
    }

    /// Hands out the merged delta of the current time, the lanes' deltas in
    /// lane order, and goes idle; there is none before every lane has
    /// reported at that time.
    pub fn take_results(&mut self) -> (r: Option<Vec<R>>)
        requires
            old(self).wf(),
        ensures
            final(self).wf(),
            final(self).time == old(self).time,
            final(self).reported@.len() == old(self).reported@.len(),
            r is Some <==> old(self).phase == Phase::ResultsCollected,
            r is Some ==> all_reported(old(self).reported@) && r->Some_0@ == in_lane_order(old(self).slots@)
                && final(self).phase == Phase::Idle,
            r is None ==> *final(self) == *old(self),
    {
        if self.phase != Phase::ResultsCollected {
            return None;
        }
        let ghost all = self.slots@;
        let mut slots: Vec<Vec<R>> = Vec::new();
        std::mem::swap(&mut slots, &mut self.slots);
        let mut rest = reversed(slots);
        let mut results: Vec<R> = Vec::new();
        let ghost mut done: int = 0;
        while rest.len() > 0
            invariant
                0 <= done,
                done + rest@.len() == all.len(),
                forall|i: int| 0 <= i < rest@.len() ==> rest@[i] == all[all.len() - 1 - i],
                results@ == in_lane_order(all.take(done)),
            decreases rest.len(),
        {
            let mut slot = rest.pop().unwrap();
            proof {
                assert(slot == all[done]);
                assert(all.take(done + 1).drop_last() =~= all.take(done));
                assert(all.take(done + 1).last() == slot);
            }
            results.append(&mut slot);
            proof {
                done = done + 1;
            }
        }
        proof {
            assert(all.take(all.len() as int) =~= all);
        }
        let ghost t = self.time;
        let mut fresh: Vec<Vec<R>> = Vec::new();
        let mut i: usize = 0;
        while i < self.reported.len()
            invariant
                self.time == t,
                self.phase == Phase::ResultsCollected,
                i <= self.reported@.len(),
                self.reported@.len() == old(self).reported@.len(),
                fresh@.len() == i,
                forall|j: int| 0 <= j < i ==> !#[trigger] self.reported@[j],
                forall|j: int| 0 <= j < i ==> (#[trigger] fresh@[j])@.len() == 0,
            decreases self.reported.len() - i,
        {
            self.reported.set(i, false);
            fresh.push(Vec::new());
            i = i + 1;
        }
        self.slots = fresh;
        self.phase = Phase::Idle;
        Some(results)
    }
}

/// The lane that reports the facts of a relation: the relations are spread
/// over the lanes by the length of their names.
pub open spec fn lane_for(relation: (Seq<char>, Seq<char>), lanes: nat) -> nat {
    relation.1.len() % lanes
}

/// The lane that reports the facts of a relation.
pub fn lane_of(id: &ResourceId, lanes: usize) -> (r: usize)
    requires
        lanes > 0,
    ensures
        r < lanes,
        r as nat == lane_for(id@, lanes as nat),
{
    match id {
        ResourceId::SourceSymbol(_, name) => {
            let n = name.as_str().unicode_len();
            n % lanes
        },
    }
}

/// The lanes marked as reported after the reports of `lanes`, in order,
/// starting from `reported`; a report from a lane out of range changes nothing.
pub open spec fn after_reports(reported: Seq<bool>, lanes: Seq<usize>) -> Seq<bool>
    decreases lanes.len(),
{
    if lanes.len() == 0 {
        reported
    } else {
        let before = after_reports(reported, lanes.drop_last());
        let l = lanes.last() as int;
        if 0 <= l < before.len() {
            before.update(l, true)
        } else {
            before
        }
    }
}

/// A lane is marked after some reports only if it was marked before or
/// is among them.
proof fn marked_lane_has_reported(reported: Seq<bool>, lanes: Seq<usize>, i: int)
    requires
        0 <= i < reported.len(),
    ensures
        after_reports(reported, lanes).len() == reported.len(),
        after_reports(reported, lanes)[i] ==> reported[i] || lanes.contains(i as usize),
    decreases lanes.len(),
{
    if lanes.len() > 0 {
        marked_lane_has_reported(reported, lanes.drop_last(), i);
        if after_reports(reported, lanes)[i] && !reported[i] && lanes.last() as int != i {
            let j = choose|j: int| 0 <= j < lanes.drop_last().len() && lanes.drop_last()[j] == i as usize;
            assert(lanes[j] == i as usize);
        }
    }
}

/// No result of a step is released before every lane has reported at that
/// step: starting a step with no lane marked, whatever reports arrive, every
/// lane is marked, and so the merged delta is ready, only once each lane is
/// among those reports.
pub proof fn results_wait_for_every_lane(lanes: nat, reports: Seq<usize>)
    ensures
        all_reported(after_reports(Seq::new(lanes, |i: int| false), reports)) ==> forall|i: int|
            0 <= i < lanes ==> #[trigger] reports.contains(i as usize),
{
    let start = Seq::new(lanes, |i: int| false);
    if all_reported(after_reports(start, reports)) {
        assert forall|i: int| 0 <= i < lanes implies #[trigger] reports.contains(i as usize) by {
            marked_lane_has_reported(start, reports, i);
            assert(after_reports(start, reports)[i]);
        }
    }
}

/// The facts of `rels` that lane `index` of `lanes` reports.
pub open spec fn share(rels: RelationTuples, index: nat, lanes: nat) -> RelationTuples {
    Set::new(|q: (RelationModel, Seq<ValueModel>)| rels.contains(q) && lane_for(q.0, lanes) == index)
}

/// The facts that a list of change records marks with `flag`.
pub open spec fn marked(r: Seq<(bool, (ResourceId, Vec<Value>))>, flag: bool) -> RelationTuples {
    Set::new(
        |q: (RelationModel, Seq<ValueModel>)|
            exists|i: int| 0 <= i < r.len() && (#[trigger] r[i]).0 == flag && fact_of(r[i].1) == q,
    )
}

/// The facts of `relations` that lane `index` reports.
pub fn lane_share(relations: &Vec<(ResourceId, Vec<Value>)>, index: usize, lanes: usize) -> (r: Vec<
    (ResourceId, Vec<Value>),
>)
    requires
        lanes > 0,
    ensures
        relation_tuples(r@) == share(relation_tuples(relations@), index as nat, lanes as nat),
{
    let ghost target = share(relation_tuples(relations@), index as nat, lanes as nat);
    let mut out: Vec<(ResourceId, Vec<Value>)> = Vec::new();
    let mut i: usize = 0;
    while i < relations.len()
        invariant
            i <= relations.len(),
            lanes > 0,
            target == share(relation_tuples(relations@), index as nat, lanes as nat),
            out@.len() <= i,
            forall|k: int| 0 <= k < out@.len() ==> target.contains(fact_of(#[trigger] out@[k])),
            forall|j: int|
                0 <= j < i && target.contains(fact_of(#[trigger] relations@[j])) ==> relation_tuples(
                    out@,
                ).contains(fact_of(relations@[j])),
        decreases relations.len() - i,
    {
        let ghost before = out@;
        proof {
            assert(relation_tuples(relations@).contains(fact_of(relations@[i as int])));
        }
        if lane_of(&relations[i].0, lanes) == index {
            let row = (relations[i].0.duplicate(), copy_values(relations[i].1.as_slice()));
            out.push(row);
            proof {
                assert(fact_of(row) == fact_of(relations@[i as int]));
                assert(out@[before.len() as int] == row);
                assert forall|j: int|
                    0 <= j < i + 1 && target.contains(fact_of(#[trigger] relations@[j])) implies relation_tuples(
                    out@,
                ).contains(fact_of(relations@[j])) by {
                    if j < i {
                        let k = choose|k: int| 0 <= k < before.len() && fact_of(relations@[j]) == fact_of(before[k]);
                        assert(out@[k] == before[k]);
                    } else {
                        assert(fact_of(relations@[j]) == fact_of(out@[before.len() as int]));
                    }
                }
                assert forall|k: int| 0 <= k < out@.len() implies target.contains(fact_of(#[trigger] out@[k])) by {
                    if k < before.len() {
                        assert(out@[k] == before[k]);
                    }
                }
            }
        } else {
            proof {
                assert forall|j: int|
                    0 <= j < i + 1 && target.contains(fact_of(#[trigger] relations@[j])) implies relation_tuples(
                    out@,
                ).contains(fact_of(relations@[j])) by {
                    if j == i {
                        assert(lane_for(fact_of(relations@[j]).0, lanes as nat) != index as nat);
                    }
                }
            }
        }
        i = i + 1;
    }
    proof {
        assert forall|q: (RelationModel, Seq<ValueModel>)|
            #![trigger relation_tuples(out@).contains(q)]
            relation_tuples(out@).contains(q) == target.contains(q) by {
            if relation_tuples(out@).contains(q) {
                let k = choose|k: int| 0 <= k < out@.len() && q == fact_of(out@[k]);
            }
            if target.contains(q) {
                let j = choose|j: int| 0 <= j < relations@.len() && q == fact_of(relations@[j]);
            }
        }
        assert(relation_tuples(out@) =~= target);
    }
    out
}

/// Appends each fact of `v`, marked with `flag`.
fn push_marked(out: &mut Vec<(bool, (ResourceId, Vec<Value>))>, v: Vec<(ResourceId, Vec<Value>)>, flag: bool)
    ensures
        marked(final(out)@, flag) == marked(old(out)@, flag).union(relation_tuples(v@)),
        marked(final(out)@, !flag) == marked(old(out)@, !flag),
{
    let ghost all = v@;
    let ghost start = out@;
    let mut rest = reversed(v);
    let ghost mut done: int = 0;
    while rest.len() > 0
        invariant
            0 <= done,
            done + rest@.len() == all.len(),
            forall|i: int| 0 <= i < rest@.len() ==> rest@[i] == all[all.len() - 1 - i],
            out@.len() == start.len() + done,
            forall|i: int| 0 <= i < start.len() ==> out@[i] == start[i],
            forall|i: int| 0 <= i < done ==> #[trigger] out@[start.len() + i] == (flag, all[i]),
        decreases rest.len(),
    {
        let x = rest.pop().unwrap();
        proof {
            assert(x == all[done]);
        }
        out.push((flag, x));
        proof {
            done = done + 1;
        }
    }
    proof {
        let other = !flag;
        assert forall|q: (RelationModel, Seq<ValueModel>)|
            #![trigger marked(out@, flag).contains(q)]
            marked(out@, flag).contains(q) == marked(start, flag).union(relation_tuples(all)).contains(q) by {
            if marked(out@, flag).contains(q) {
                let i = choose|i: int| 0 <= i < out@.len() && (#[trigger] out@[i]).0 == flag && fact_of(out@[i].1) == q;
                if i >= start.len() {
                    let j = i - start.len();
                    assert(out@[start.len() + j] == (flag, all[j]));
                    assert(q == fact_of(all[j]));
                    assert(relation_tuples(all).contains(q));
                } else {
                    assert(out@[i] == start[i]);
                    assert(marked(start, flag).contains(q));
                }
            }
            if marked(start, flag).contains(q) {
                let i = choose|i: int| 0 <= i < start.len() && (#[trigger] start[i]).0 == flag && fact_of(start[i].1) == q;
                assert(out@[i] == start[i]);
            }
            if relation_tuples(all).contains(q) {
                let j = choose|j: int| 0 <= j < all.len() && q == fact_of(all[j]);
                assert(out@[start.len() + j] == (flag, all[j]));
            }
        }
        assert forall|q: (RelationModel, Seq<ValueModel>)|
            #![trigger marked(out@, other).contains(q)]
            marked(out@, other).contains(q) == marked(start, other).contains(q) by {
            if marked(out@, other).contains(q) {
                let i = choose|i: int| 0 <= i < out@.len() && (#[trigger] out@[i]).0 == other && fact_of(out@[i].1) == q;
                if i >= start.len() {
                    assert(out@[start.len() + (i - start.len())] == (flag, all[i - start.len()]));
                } else {
                    assert(out@[i] == start[i]);
                    assert(marked(start, other).contains(q));
                }
            }
            if marked(start, other).contains(q) {
                let i = choose|i: int| 0 <= i < start.len() && (#[trigger] start[i]).0 == other && fact_of(start[i].1) == q;
                assert(out@[i] == start[i]);
            }
        }
        assert(marked(out@, flag) =~= marked(start, flag).union(relation_tuples(all)));
        assert(marked(out@, other) =~= marked(start, other));
    }
}

/// One lane's report for a step: the facts of its share of the relations
/// that are new since its last report, marked `true`, and those that are
/// gone, marked `false`; the trace then holds the share.
pub fn lane_changes(
    trace: &mut TraceMap,
    relations: &Vec<(ResourceId, Vec<Value>)>,
    index: usize,
    lanes: usize,
) -> (r: Vec<(bool, (ResourceId, Vec<Value>))>)
    requires
        lanes > 0,
    ensures
        relation_tuples(final(trace).seen@) == share(relation_tuples(relations@), index as nat, lanes as nat),
        marked(r@, true) == share(relation_tuples(relations@), index as nat, lanes as nat).difference(
            relation_tuples(old(trace).seen@),
        ),
        marked(r@, false) == relation_tuples(old(trace).seen@).difference(
            share(relation_tuples(relations@), index as nat, lanes as nat),
        ),
{
    let mine = lane_share(relations, index, lanes);
    let delta = trace.update(&mine);
    let mut out: Vec<(bool, (ResourceId, Vec<Value>))> = Vec::new();
    proof {
        assert(marked(out@, true) =~= Set::<(RelationModel, Seq<ValueModel>)>::empty());
        assert(marked(out@, false) =~= Set::<(RelationModel, Seq<ValueModel>)>::empty());
    }
    let ghost added = relation_tuples(delta.added@);
    let ghost removed = relation_tuples(delta.removed@);
    push_marked(&mut out, delta.added, true);
    push_marked(&mut out, delta.removed, false);
    proof {
        assert(marked(out@, true) =~= added);
        assert(marked(out@, false) =~= removed);
    }
    out
}

} // verus!
