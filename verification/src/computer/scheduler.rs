//! The single-level scheduling engine.
//!
//! A `Scheduler` owns at most one running record, an unordered ready set, a
//! monotonically increasing insertion clock and a per-id prediction table.
//! Its behaviour is pinned down by a functional model: every public
//! operation's contract states that the new state equals a spec-level
//! transition applied to the old state.

use std::collections::HashMap;
use vstd::multiset::Multiset;
use vstd::prelude::*;

use crate::computer::fixed::{spec_smooth, Fixed, INITIAL_TAU_RAW};
use crate::computer::process::Process;

verus! {

broadcast use vstd::std_specs::hash::group_hash_axioms, vstd::multiset::group_multiset_axioms;

/// The dispatching policy of one scheduler level.
#[derive(Clone, Copy, Debug, PartialEq, Eq, Structural)]
pub enum SchedulerAlgorithm {
    /// First come, first served: earliest admission runs first.
    FirstComeFirstServe,
    /// Non-preemptive priority: lowest priority value runs first.
    Priority,
    /// Preemptive priority: an arriving process with a strictly lower
    /// priority value displaces the running one.
    PreemptivePriority,
    /// Round robin with the given time quantum.
    RoundRobin(usize),
    /// Shortest remaining time with learned predictions, smoothed by the
    /// given weight.
    ShortestRemainingTime(Fixed),
}

/// Marker for a scheduler that requeues displaced records locally.
pub struct Normal;

/// Marker for a scheduler that hands displaced records back to its caller.
pub struct Feedback;

/// Scheduling metadata wrapping one process while it is resident.
#[derive(Clone, Copy, Debug, PartialEq, Eq, Structural)]
pub struct ProcessRecord {
    /// Insertion sequence number assigned by the owning scheduler.
    pub schedule_time: u128,
    /// Quantum countdown, meaningful under round robin.
    pub lifetime: i32,
    /// Live remaining-time prediction, meaningful under shortest remaining
    /// time.
    pub estimated_remaining_time: Fixed,
    /// The wrapped process.
    pub proc: Process,
}

impl ProcessRecord {
    /// One unit of simulated execution: the quantum and the remaining work
    /// count down to zero, the prediction falls without a lower bound.
    pub open spec fn spec_tick(self) -> ProcessRecord {
        ProcessRecord {
            lifetime: if self.lifetime > 0 {
                (self.lifetime - 1) as i32
            } else {
                self.lifetime
            },
            estimated_remaining_time: Fixed {
                raw: crate::computer::fixed::spec_dec_unit(
                    self.estimated_remaining_time.raw as int,
                ) as i64,
            },
            proc: Process {
                time_units: if self.proc.time_units > 0 {
                    (self.proc.time_units - 1) as usize
                } else {
                    self.proc.time_units
                },
                ..self.proc
            },
            ..self
        }
    }

    /// `spec_tick` applied `n` times.
    pub open spec fn spec_tick_n(self, n: nat) -> ProcessRecord
        decreases n,
    {
        if n == 0 {
            self
        } else {
            self.spec_tick().spec_tick_n((n - 1) as nat)
        }
    }

    /// Applies one unit of simulated execution to this record.
    pub fn tick(&mut self)
        ensures
            *final(self) == old(self).spec_tick(),
    {
        if self.lifetime > 0 {
            self.lifetime = self.lifetime - 1;
        }
        if self.proc.time_units > 0 {
            self.proc.time_units = self.proc.time_units - 1;
        }
        self.estimated_remaining_time = self.estimated_remaining_time.dec_unit();
    }

    /// Applies `n` units of simulated execution.
    pub fn tick_n(&mut self, n: usize)
        ensures
            *final(self) == old(self).spec_tick_n(n as nat),
    {
        let mut i: usize = 0;
        while i < n
            invariant
                0 <= i <= n,
                *self == old(self).spec_tick_n(i as nat),
            decreases n - i,
        {
            proof {
                lemma_tick_n_unfold(*old(self), i as nat);
            }
            self.tick();
            i = i + 1;
        }
    }
}

/// Unrolls one step at the tail: ticking `n` times and once more equals
/// ticking `n + 1` times.
proof fn lemma_tick_n_unfold(r: ProcessRecord, n: nat)
    ensures
        r.spec_tick_n(n).spec_tick() == r.spec_tick_n(n + 1),
    decreases n,
{
    assert(r.spec_tick_n(n + 1) == r.spec_tick().spec_tick_n(n));
    if n > 0 {
        lemma_tick_n_unfold(r.spec_tick(), (n - 1) as nat);
        assert(r.spec_tick_n(n) == r.spec_tick().spec_tick_n((n - 1) as nat));
    }
}

/// The mathematical state of a scheduler.
pub struct SchedulerModel {
    pub policy: SchedulerAlgorithm,
    pub feedback: bool,
    pub clock: u128,
    pub current: Option<ProcessRecord>,
    pub queue: Seq<ProcessRecord>,
    pub table: Map<u32, Fixed>,
}

/// The key a policy selects by: smaller wins, earlier breaks ties.
pub open spec fn sel_key(policy: SchedulerAlgorithm, r: ProcessRecord) -> int {
    match policy {
        SchedulerAlgorithm::FirstComeFirstServe => r.schedule_time as int,
        SchedulerAlgorithm::RoundRobin(_) => r.schedule_time as int,
        SchedulerAlgorithm::Priority => r.proc.priority as int,
        SchedulerAlgorithm::PreemptivePriority => r.proc.priority as int,
        SchedulerAlgorithm::ShortestRemainingTime(_) => r.estimated_remaining_time.raw as int,
    }
}

/// Index of the first record with the least selection key.
pub open spec fn sel_index(policy: SchedulerAlgorithm, q: Seq<ProcessRecord>) -> int
    decreases q.len(),
{
    if q.len() <= 1 {
        0
    } else {
        let rest = 1 + sel_index(policy, q.drop_first());
        if sel_key(policy, q[0]) <= sel_key(policy, q[rest]) {
            0
        } else {
            rest
        }
    }
}

/// `sel_index` lands in range, attains the minimum, and no earlier record
/// ties with it.
pub proof fn lemma_sel_index_props(policy: SchedulerAlgorithm, q: Seq<ProcessRecord>)
    requires
        q.len() > 0,
    ensures
        0 <= sel_index(policy, q) < q.len(),
        forall|k: int|
            0 <= k < q.len() ==> sel_key(policy, q[sel_index(policy, q)]) <= sel_key(
                policy,
                #[trigger] q[k],
            ),
        forall|k: int|
            0 <= k < sel_index(policy, q) ==> sel_key(policy, #[trigger] q[k]) > sel_key(
                policy,
                q[sel_index(policy, q)],
            ),
    decreases q.len(),
{
    if q.len() > 1 {
        let rest = q.drop_first();
        lemma_sel_index_props(policy, rest);
        assert(forall|k: int| 0 <= k < rest.len() ==> #[trigger] rest[k] == q[k + 1]);
        let sr = sel_index(policy, rest);
        let s = sel_index(policy, q);
        assert(q[1 + sr] == rest[sr]);
        if sel_key(policy, q[0]) <= sel_key(policy, q[1 + sr]) {
            assert(s == 0);
            assert forall|k: int| 0 <= k < q.len() implies sel_key(policy, q[s]) <= sel_key(
                policy,
                #[trigger] q[k],
            ) by {
                if k > 0 {
                    assert(q[k] == rest[k - 1]);
                    assert(sel_key(policy, rest[sr]) <= sel_key(policy, rest[k - 1]));
                }
            }
        } else {
            assert(s == 1 + sr);
            assert forall|k: int| 0 <= k < q.len() implies sel_key(policy, q[s]) <= sel_key(
                policy,
                #[trigger] q[k],
            ) by {
                if k > 0 {
                    assert(q[k] == rest[k - 1]);
                    assert(sel_key(policy, rest[sr]) <= sel_key(policy, rest[k - 1]));
                }
            }
            assert forall|k: int| 0 <= k < s implies sel_key(policy, #[trigger] q[k]) > sel_key(
                policy,
                q[s],
            ) by {
                if k > 0 {
                    assert(q[k] == rest[k - 1]);
                    assert(sel_key(policy, rest[k - 1]) > sel_key(policy, rest[sr]));
                }
            }
        }
    }
}

/// Removing one record keeps every remaining record's table entry.
proof fn lemma_remove_keeps_contained(q: Seq<ProcessRecord>, t: Map<u32, Fixed>, i: int)
    requires
        0 <= i < q.len(),
        forall|k: int| 0 <= k < q.len() ==> t.contains_key((#[trigger] q[k]).proc.id),
    ensures
        forall|k: int|
            0 <= k < q.remove(i).len() ==> t.contains_key((#[trigger] q.remove(i)[k]).proc.id),
{
    assert forall|k: int|
        0 <= k < q.remove(i).len() implies t.contains_key(
        (#[trigger] q.remove(i)[k]).proc.id,
    ) by {
        if k < i {
            assert(q.remove(i)[k] == q[k]);
        } else {
            assert(q.remove(i)[k] == q[k + 1]);
        }
    }
}

/// The seeded value a fresh table entry receives.
pub open spec fn initial_tau() -> Fixed {
    Fixed { raw: INITIAL_TAU_RAW }
}

/// The insertion clock advances by one and stays put at its maximum.
pub open spec fn spec_clock_inc(c: u128) -> u128 {
    if c < u128::MAX {
        (c + 1) as u128
    } else {
        c
    }
}

/// A policy the engine can run: a round-robin quantum must fit the quantum
/// countdown and a smoothing weight must lie between zero and one.
pub open spec fn policy_wf(policy: SchedulerAlgorithm) -> bool {
    match policy {
        SchedulerAlgorithm::RoundRobin(q) => q <= i32::MAX,
        SchedulerAlgorithm::ShortestRemainingTime(a) => a.is_weight(),
        _ => true,
    }
}

/// Well-formedness carried by every scheduler value: the policy is
/// workable and every resident record's id has a prediction-table entry
/// (admission seeds the table before a record enters).
pub open spec fn sched_wf(m: SchedulerModel) -> bool {
    &&& policy_wf(m.policy)
    &&& forall|k: int|
        0 <= k < m.queue.len() ==> m.table.contains_key((#[trigger] m.queue[k]).proc.id)
    &&& m.current matches Some(c) ==> m.table.contains_key(c.proc.id)
}

/// Installs a record as the running one: its prediction is refreshed from
/// its table entry (admission has seeded one for every resident id) and,
/// under round robin, its quantum countdown is reset.
pub open spec fn spec_install(m: SchedulerModel, r: ProcessRecord) -> SchedulerModel {
    let tau = m.table[r.proc.id];
    let lt = match m.policy {
        SchedulerAlgorithm::RoundRobin(q) => q as i32,
        _ => r.lifetime,
    };
    SchedulerModel {
        current: Some(ProcessRecord { estimated_remaining_time: tau, lifetime: lt, ..r }),
        ..m
    }
}

/// Whether an arriving record displaces the running one under this policy:
/// preemptive priority compares priorities, shortest remaining time
/// compares the incumbent's live prediction against the table entry of the
/// newcomer; no other policy preempts on admission.
pub open spec fn spec_preempts(
    policy: SchedulerAlgorithm,
    table: Map<u32, Fixed>,
    cur: ProcessRecord,
    newr: ProcessRecord,
) -> bool {
    match policy {
        SchedulerAlgorithm::PreemptivePriority => newr.proc.priority < cur.proc.priority,
        SchedulerAlgorithm::ShortestRemainingTime(_) => cur.estimated_remaining_time.raw
            > table[newr.proc.id].raw,
        _ => false,
    }
}

/// Admission of a record: the table is seeded for an unseen id, the
/// record's insertion stamp is set to the clock, and the record either
/// becomes current (empty engine or successful preemption test) or joins
/// the ready set while the clock advances.  A displaced incumbent is
/// requeued locally, or returned when the engine is in feedback mode.
pub open spec fn spec_schedule_inner(m: SchedulerModel, rec: ProcessRecord) -> (
    SchedulerModel,
    Option<ProcessRecord>,
) {
    let t = if !m.table.contains_key(rec.proc.id) {
        m.table.insert(rec.proc.id, initial_tau())
    } else {
        m.table
    };
    let m0 = SchedulerModel { table: t, ..m };
    let r1 = ProcessRecord { schedule_time: m.clock, ..rec };
    match m0.current {
        None => (spec_install(m0, r1), None),
        Some(cur) => {
            if spec_preempts(m0.policy, t, cur, r1) {
                let m1 = spec_install(m0, r1);
                if m0.feedback {
                    (m1, Some(cur))
                } else {
                    (SchedulerModel { queue: m1.queue.push(cur), ..m1 }, None)
                }
            } else {
                (
                    SchedulerModel {
                        queue: m0.queue.push(r1),
                        clock: spec_clock_inc(m0.clock),
                        ..m0
                    },
                    None,
                )
            }
        },
    }
}

/// Admission of a process: it is wrapped into a fresh record carrying the
/// default prediction and no quantum, then admitted.
pub open spec fn spec_schedule(m: SchedulerModel, p: Process) -> (
    SchedulerModel,
    Option<ProcessRecord>,
) {
    spec_schedule_inner(
        m,
        ProcessRecord {
            schedule_time: m.clock,
            lifetime: 0,
            estimated_remaining_time: initial_tau(),
            proc: p,
        },
    )
}

/// Removes the selected record from the ready set and installs it; an empty
/// ready set leaves the engine idle.
pub open spec fn spec_pop_install(m: SchedulerModel) -> SchedulerModel {
    if m.queue.len() == 0 {
        SchedulerModel { current: None, ..m }
    } else {
        let i = sel_index(m.policy, m.queue);
        let nxt = m.queue[i];
        spec_install(SchedulerModel { queue: m.queue.remove(i), ..m }, nxt)
    }
}

/// The lazy retirement step taken before the running record is read.
///
/// A finished record (no work left) retires: under shortest remaining time
/// its table entry is smoothed with its observed total runtime, then the
/// selected ready record replaces it.  Under round robin an exhausted
/// quantum displaces the running record: it is requeued through the normal
/// admission path, or returned to the caller in feedback mode.  Otherwise
/// nothing changes.
pub open spec fn spec_advance(m: SchedulerModel) -> (SchedulerModel, Option<ProcessRecord>) {
    match m.current {
        None => (m, None),
        Some(cur) => {
            if cur.proc.time_units == 0 {
                let t1 = match m.policy {
                    SchedulerAlgorithm::ShortestRemainingTime(alpha) => m.table.insert(
                        cur.proc.id,
                        Fixed {
                            raw: spec_smooth(
                                alpha.raw as int,
                                cur.proc.static_time_units as int,
                                m.table[cur.proc.id].raw as int,
                            ) as i64,
                        },
                    ),
                    _ => m.table,
                };
                (spec_pop_install(SchedulerModel { table: t1, ..m }), None)
            } else if (m.policy matches SchedulerAlgorithm::RoundRobin(_)) && cur.lifetime <= 0 {
                let m1 = spec_pop_install(SchedulerModel { current: None, ..m });
                if m.feedback {
                    (m1, Some(cur))
                } else {
                    (spec_schedule_inner(m1, cur).0, None)
                }
            } else {
                (m, None)
            }
        },
    }
}

/// One driving-loop action on a scheduler: admitting a process, ticking
/// the running record, or taking the lazy retirement step.
pub enum SchedulerOp {
    Admit(Process),
    Tick,
    Refresh,
}

/// The ids of the records resident in an engine: its ready set and its
/// running slot.
pub open spec fn resident_ids(m: SchedulerModel) -> Multiset<u32> {
    let qids = m.queue.map_values(|r: ProcessRecord| r.proc.id).to_multiset();
    match m.current {
        Some(c) => qids.insert(c.proc.id),
        None => qids,
    }
}

/// A bumped record is the running record itself, and it is only ever
/// bumped while work remains: demotion moves the whole process, with its
/// remaining and total work untouched.
pub proof fn lemma_bump_is_running(m: SchedulerModel)
    requires
        spec_advance(m).1 is Some,
    ensures
        spec_advance(m).1->Some_0 == m.current->Some_0,
        spec_advance(m).1->Some_0.proc.time_units > 0,
{
}

/// Admission re-initializes only scheduling metadata: the record created
/// for the admitted process carries the process itself unchanged, either
/// installed as running or appended to the ready set.
pub proof fn lemma_admission_carries_process(m: SchedulerModel, p: Process)
    ensures
        ({
            let (m1, b) = spec_schedule(m, p);
            (m1.current is Some && m1.current->Some_0.proc == p) || (m1.queue.len()
                == m.queue.len() + 1 && m1.queue.last().proc == p)
        }),
{
}

/// The id carried out by a bumped record, if one was returned.
pub open spec fn bump_ids(b: Option<ProcessRecord>) -> Multiset<u32> {
    match b {
        Some(r) => Multiset::<u32>::empty().insert(r.proc.id),
        None => Multiset::<u32>::empty(),
    }
}

/// The id retired by a retirement step: the running record's, exactly
/// when it has no work remaining.
pub open spec fn advance_retired(m: SchedulerModel) -> Multiset<u32> {
    match m.current {
        Some(c) => if c.proc.time_units == 0 {
            Multiset::<u32>::empty().insert(c.proc.id)
        } else {
            Multiset::<u32>::empty()
        },
        None => Multiset::<u32>::empty(),
    }
}

/// One driving-loop step over the model, together with the ids retired by
/// it: a record leaves a non-feedback engine only through the retirement
/// step, and only with no work remaining.
pub open spec fn spec_op_step(m: SchedulerModel, op: SchedulerOp) -> (
    SchedulerModel,
    Multiset<u32>,
) {
    match op {
        SchedulerOp::Admit(p) => (spec_schedule(m, p).0, Multiset::<u32>::empty()),
        SchedulerOp::Tick => (
            match m.current {
                Some(c) => SchedulerModel { current: Some(c.spec_tick()), ..m },
                None => m,
            },
            Multiset::<u32>::empty(),
        ),
        SchedulerOp::Refresh => (spec_advance(m).0, advance_retired(m)),
    }
}

/// A whole run of driving-loop steps, with all ids retired along the way.
pub open spec fn spec_run(m: SchedulerModel, ops: Seq<SchedulerOp>) -> (
    SchedulerModel,
    Multiset<u32>,
)
    decreases ops.len(),
{
    if ops.len() == 0 {
        (m, Multiset::<u32>::empty())
    } else {
        let s = spec_op_step(m, ops[0]);
        let rest = spec_run(s.0, ops.drop_first());
        (rest.0, s.1.add(rest.1))
    }
}

/// The ids admitted by a run of driving-loop steps.
pub open spec fn admitted_ids(ops: Seq<SchedulerOp>) -> Multiset<u32>
    decreases ops.len(),
{
    if ops.len() == 0 {
        Multiset::<u32>::empty()
    } else {
        let rest = admitted_ids(ops.drop_first());
        match ops[0] {
            SchedulerOp::Admit(p) => rest.insert(p.id),
            _ => rest,
        }
    }
}

/// Pushing a record onto the ready set adds exactly its id.
proof fn lemma_ids_push(q: Seq<ProcessRecord>, r: ProcessRecord)
    ensures
        q.push(r).map_values(|x: ProcessRecord| x.proc.id).to_multiset() =~= q.map_values(
            |x: ProcessRecord| x.proc.id,
        ).to_multiset().insert(r.proc.id),
{
    broadcast use vstd::seq_lib::group_to_multiset_ensures;

    let f = |x: ProcessRecord| x.proc.id;
    assert(q.push(r).map_values(f) =~= q.map_values(f).push(r.proc.id));
}

/// Removing the selected record takes away exactly its id.
proof fn lemma_ids_remove(q: Seq<ProcessRecord>, i: int)
    requires
        0 <= i < q.len(),
    ensures
        q.remove(i).map_values(|x: ProcessRecord| x.proc.id).to_multiset() =~= q.map_values(
            |x: ProcessRecord| x.proc.id,
        ).to_multiset().remove(q[i].proc.id),
{
    broadcast use vstd::seq_lib::group_to_multiset_ensures;

    let f = |x: ProcessRecord| x.proc.id;
    assert(q.remove(i).map_values(f) =~= q.map_values(f).remove(i));
    assert(q.map_values(f)[i] == q[i].proc.id);
}

/// Admission of a record adds exactly its id: it either stays resident or
/// comes straight back as the displaced incumbent.  An engine that is not
/// in feedback mode returns nothing.
pub proof fn lemma_schedule_inner_conserves(m: SchedulerModel, rec: ProcessRecord)
    ensures
        resident_ids(spec_schedule_inner(m, rec).0).add(bump_ids(spec_schedule_inner(m, rec).1))
            =~= resident_ids(m).insert(rec.proc.id),
        !m.feedback ==> spec_schedule_inner(m, rec).1 is None,
        spec_schedule_inner(m, rec).0.feedback == m.feedback,
        spec_schedule_inner(m, rec).0.policy == m.policy,
{
    broadcast use vstd::seq_lib::group_to_multiset_ensures;

    let t = if !m.table.contains_key(rec.proc.id) {
        m.table.insert(rec.proc.id, initial_tau())
    } else {
        m.table
    };
    let m0 = SchedulerModel { table: t, ..m };
    let r1 = ProcessRecord { schedule_time: m.clock, ..rec };
    match m0.current {
        None => {},
        Some(cur) => {
            if spec_preempts(m0.policy, t, cur, r1) {
                lemma_ids_push(m.queue, cur);
            } else {
                lemma_ids_push(m.queue, r1);
            }
        },
    }
}

/// The retirement step loses no record: the new resident ids together
/// with whatever was bumped back and whatever retired are exactly the old
/// resident ids, and an id retires only with no work remaining.
pub proof fn lemma_advance_conserves(m: SchedulerModel)
    ensures
        resident_ids(spec_advance(m).0).add(bump_ids(spec_advance(m).1)).add(advance_retired(m))
            =~= resident_ids(m),
        !m.feedback ==> spec_advance(m).1 is None,
        spec_advance(m).0.feedback == m.feedback,
        spec_advance(m).0.policy == m.policy,
{
    broadcast use vstd::seq_lib::group_to_multiset_ensures;

    let f = |x: ProcessRecord| x.proc.id;
    match m.current {
        None => {},
        Some(cur) => {
            if cur.proc.time_units == 0 {
                if m.queue.len() > 0 {
                    lemma_pop_cancels(m.policy, m.queue);
                }
            } else if (m.policy matches SchedulerAlgorithm::RoundRobin(_)) && cur.lifetime <= 0 {
                let m1 = spec_pop_install(SchedulerModel { current: None, ..m });
                if m.queue.len() > 0 {
                    lemma_pop_cancels(m.policy, m.queue);
                }
                if !m.feedback {
                    lemma_schedule_inner_conserves(m1, cur);
                }
            }
        },
    }
}

/// Popping the selected record off the ready set and reinstating it as
/// the running one leaves the resident ids unchanged.
proof fn lemma_pop_cancels(policy: SchedulerAlgorithm, q: Seq<ProcessRecord>)
    requires
        q.len() > 0,
    ensures
        ({
            let i = sel_index(policy, q);
            q.remove(i).map_values(|x: ProcessRecord| x.proc.id).to_multiset().insert(
                q[i].proc.id,
            ) =~= q.map_values(|x: ProcessRecord| x.proc.id).to_multiset()
        }),
{
    broadcast use vstd::seq_lib::group_to_multiset_ensures;

    let f = |x: ProcessRecord| x.proc.id;
    let i = sel_index(policy, q);
    lemma_sel_index_props(policy, q);
    lemma_ids_remove(q, i);
    assert(q.map_values(f)[i] == q[i].proc.id);
    assert(q.map_values(f).contains(q[i].proc.id));
    assert(q.map_values(f).to_multiset().count(q[i].proc.id) > 0);
}

/// No process is lost or duplicated.  Over any sequence of admissions,
/// ticks and retirement steps on an engine that is not in feedback mode,
/// the ids still resident at the end together with the ids retired along
/// the way are exactly the ids resident at the start together with the
/// ids admitted; and the step spec retires an id only at the moment its
/// record has no remaining work.
pub proof fn lemma_no_process_lost(m0: SchedulerModel, ops: Seq<SchedulerOp>)
    requires
        !m0.feedback,
    ensures
        resident_ids(spec_run(m0, ops).0).add(spec_run(m0, ops).1) =~= resident_ids(m0).add(
            admitted_ids(ops),
        ),
        !spec_run(m0, ops).0.feedback,
    decreases ops.len(),
{
    if ops.len() > 0 {
        let s = spec_op_step(m0, ops[0]);
        match ops[0] {
            SchedulerOp::Admit(p) => {
                lemma_schedule_inner_conserves(
                    m0,
                    ProcessRecord {
                        schedule_time: m0.clock,
                        lifetime: 0,
                        estimated_remaining_time: initial_tau(),
                        proc: p,
                    },
                );
            },
            SchedulerOp::Tick => {},
            SchedulerOp::Refresh => {
                lemma_advance_conserves(m0);
            },
        }
        lemma_no_process_lost(s.0, ops.drop_first());
        let rest = spec_run(s.0, ops.drop_first());
        let drop = admitted_ids(ops.drop_first());
        assert forall|v: u32|
            resident_ids(spec_run(m0, ops).0).add(spec_run(m0, ops).1).count(v) == resident_ids(
                m0,
            ).add(admitted_ids(ops)).count(v) by {
            assert(resident_ids(rest.0).add(rest.1).count(v) == resident_ids(s.0).add(
                drop,
            ).count(v));
            assert(resident_ids(rest.0).add(s.1.add(rest.1)).count(v) == resident_ids(
                rest.0,
            ).count(v) + s.1.count(v) + rest.1.count(v));
            match ops[0] {
                SchedulerOp::Admit(p) => {
                    let fresh = ProcessRecord {
                        schedule_time: m0.clock,
                        lifetime: 0,
                        estimated_remaining_time: initial_tau(),
                        proc: p,
                    };
                    assert(resident_ids(s.0).add(
                        bump_ids(spec_schedule_inner(m0, fresh).1),
                    ).count(v) == resident_ids(m0).insert(p.id).count(v));
                    assert(admitted_ids(ops).count(v) == drop.insert(p.id).count(v));
                },
                SchedulerOp::Tick => {
                    assert(resident_ids(s.0) == resident_ids(m0));
                },
                SchedulerOp::Refresh => {
                    assert(resident_ids(s.0).add(bump_ids(spec_advance(m0).1)).add(
                        advance_retired(m0),
                    ).count(v) == resident_ids(m0).count(v));
                },
            }
        }
        assert(resident_ids(spec_run(m0, ops).0).add(spec_run(m0, ops).1) =~= resident_ids(
            m0,
        ).add(admitted_ids(ops)));
    }
}

/// The single-level policy engine.
pub struct Scheduler {
    scheduled: Option<ProcessRecord>,
    queue: Vec<ProcessRecord>,
    feedback: bool,
    policy: SchedulerAlgorithm,
    clock: u128,
    srt_time_table: HashMap<u32, Fixed>,
}

impl View for Scheduler {
    type V = SchedulerModel;

    closed spec fn view(&self) -> SchedulerModel {
        SchedulerModel {
            policy: self.policy,
            feedback: self.feedback,
            clock: self.clock,
            current: self.scheduled,
            queue: self.queue@,
            table: self.srt_time_table@,
        }
    }
}

impl Scheduler {
    /// An empty engine running the given policy, without feedback.
    pub fn new(policy: SchedulerAlgorithm) -> (s: Self)
        requires
            policy_wf(policy),
        ensures
            s@ == (SchedulerModel {
                policy,
                feedback: false,
                clock: 0,
                current: None::<ProcessRecord>,
                queue: Seq::<ProcessRecord>::empty(),
                table: Map::<u32, Fixed>::empty(),
            }),
            sched_wf(s@),
    {
        let s = Scheduler {
            policy,
            scheduled: None,
            queue: Vec::new(),
            srt_time_table: HashMap::new(),
            feedback: false,
            clock: 0,
        };
        proof {
            assert(s@.queue =~= Seq::<ProcessRecord>::empty());
            assert(s@.table =~= Map::<u32, Fixed>::empty());
        }
        s
    }

    /// Switches the engine into feedback mode, where displaced records are
    /// returned instead of requeued.
    pub fn with_feedback(self) -> (s: Self)
        ensures
            s@ == (SchedulerModel { feedback: true, ..self@ }),
    {
        Scheduler { feedback: true, ..self }
    }

    /// True when the arriving record's key is strictly smaller.
    fn key_less(policy: &SchedulerAlgorithm, a: &ProcessRecord, b: &ProcessRecord) -> (r: bool)
        ensures
            r == (sel_key(*policy, *a) < sel_key(*policy, *b)),
    {
        match policy {
            SchedulerAlgorithm::FirstComeFirstServe => a.schedule_time < b.schedule_time,
            SchedulerAlgorithm::RoundRobin(_) => a.schedule_time < b.schedule_time,
            SchedulerAlgorithm::Priority => a.proc.priority < b.proc.priority,
            SchedulerAlgorithm::PreemptivePriority => a.proc.priority < b.proc.priority,
            SchedulerAlgorithm::ShortestRemainingTime(_) => a.estimated_remaining_time.raw
                < b.estimated_remaining_time.raw,
        }
    }

    /// Removes and returns the ready record the policy selects: the first
    /// one with the least key.  Yields nothing when the ready set is empty.
    pub fn next(&mut self) -> (r: Option<ProcessRecord>)
        ensures
            old(self)@.queue.len() == 0 ==> r is None && final(self)@ == old(self)@,
            old(self)@.queue.len() > 0 ==> {
                let i = sel_index(old(self)@.policy, old(self)@.queue);
                r == Some(old(self)@.queue[i]) && final(self)@ == (SchedulerModel {
                    queue: old(self)@.queue.remove(i),
                    ..old(self)@
                })
            },
    {
        if self.queue.len() == 0 {
            return None;
        }
        let ghost q = self.queue@;
        let ghost pol = self.policy;
        let mut best: usize = 0;
        let mut i: usize = 1;
        while i < self.queue.len()
            invariant
                self.queue@ == q,
                self.policy == pol,
                0 < i <= q.len(),
                0 <= best < i,
                forall|k: int| 0 <= k < i ==> sel_key(pol, q[best as int]) <= sel_key(pol, q[k]),
                forall|k: int| 0 <= k < best ==> sel_key(pol, q[k]) > sel_key(pol, q[best as int]),
            decreases q.len() - i,
        {
            if Self::key_less(&self.policy, &self.queue[i], &self.queue[best]) {
                best = i;
            }
            i = i + 1;
        }
        proof {
            lemma_sel_index_props(pol, q);
            let s = sel_index(pol, q);
            if s < best {
                assert(sel_key(pol, q[s]) > sel_key(pol, q[best as int]));
            }
            if best < s {
                assert(sel_key(pol, q[best as int]) > sel_key(pol, q[s]));
            }
            assert(best as int == s);
        }
        let rec = self.queue.remove(best);
        Some(rec)
    }

    /// Makes `record` the running one, refreshing its prediction from the
    /// table and, under round robin, resetting its quantum countdown.
    fn set_scheduled_record(&mut self, record: ProcessRecord)
        requires
            old(self)@.table.contains_key(record.proc.id),
        ensures
            final(self)@ == spec_install(old(self)@, record),
    {
        let tau: Fixed = match self.srt_time_table.get(&record.proc.id) {
            Some(t) => *t,
            None => unreached(),
        };
        let mut rec = record;
        rec.estimated_remaining_time = tau;
        if let SchedulerAlgorithm::RoundRobin(quantum) = self.policy {
            rec.lifetime = quantum as i32;
        }
        self.scheduled = Some(rec);
    }

    /// Installs a replacement, or leaves the engine idle.
    fn set_scheduled(&mut self, record: Option<ProcessRecord>)
        requires
            record matches Some(r) ==> old(self)@.table.contains_key(r.proc.id),
        ensures
            final(self)@ == (match record {
                Some(r) => spec_install(old(self)@, r),
                None => SchedulerModel { current: None, ..old(self)@ },
            }),
    {
        match record {
            Some(record) => self.set_scheduled_record(record),
            None => self.scheduled = None,
        }
    }

    /// Admits a record: see `spec_schedule_inner`.
    fn schedule_inner(&mut self, record: ProcessRecord) -> (bumped: Option<ProcessRecord>)
        requires
            sched_wf(old(self)@),
        ensures
            final(self)@ == spec_schedule_inner(old(self)@, record).0,
            bumped == spec_schedule_inner(old(self)@, record).1,
            !old(self)@.feedback ==> bumped is None,
            sched_wf(final(self)@),
    {
        if !self.srt_time_table.contains_key(&record.proc.id) {
            self.srt_time_table.insert(record.proc.id, Fixed { raw: INITIAL_TAU_RAW });
        }
        let mut record = record;
        record.schedule_time = self.clock;
        if self.scheduled.is_none() {
            self.set_scheduled_record(record);
            None
        } else {
            let cur = self.scheduled.unwrap();
            let preempt: bool = match self.policy {
                SchedulerAlgorithm::PreemptivePriority => record.proc.priority < cur.proc.priority,
                SchedulerAlgorithm::ShortestRemainingTime(_) => {
                    let tv: Fixed = match self.srt_time_table.get(&record.proc.id) {
                        Some(t) => *t,
                        None => unreached(),
                    };
                    cur.estimated_remaining_time.raw > tv.raw
                },
                _ => false,
            };
            if preempt {
                self.set_scheduled_record(record);
                if !self.feedback {
                    self.queue.push(cur);
                    None
                } else {
                    Some(cur)
                }
            } else {
                self.queue.push(record);
                if self.clock < u128::MAX {
                    self.clock = self.clock + 1;
                }
                None
            }
        }
    }

    /// Admits a process, wrapping it into a fresh record.  In feedback mode
    /// a record displaced by preemption is returned; otherwise the result is
    /// always `None`.
    pub fn schedule(&mut self, process: Process) -> (bumped: Option<ProcessRecord>)
        requires
            sched_wf(old(self)@),
        ensures
            final(self)@ == spec_schedule(old(self)@, process).0,
            bumped == spec_schedule(old(self)@, process).1,
            !old(self)@.feedback ==> bumped is None,
            sched_wf(final(self)@),
            final(self)@.policy == old(self)@.policy,
            final(self)@.feedback == old(self)@.feedback,
    {
        let clock = self.clock;
        self.schedule_inner(
            ProcessRecord {
                schedule_time: clock,
                lifetime: 0,
                estimated_remaining_time: Fixed { raw: INITIAL_TAU_RAW },
                proc: process,
            },
        )
    }

    /// Performs the lazy retirement step (see `spec_advance`) and returns
    /// the record bumped off by a quantum expiry in feedback mode, if any.
    pub fn fetch_current(&mut self) -> (bumped: Option<ProcessRecord>)
        requires
            sched_wf(old(self)@),
        ensures
            final(self)@ == spec_advance(old(self)@).0,
            bumped == spec_advance(old(self)@).1,
            sched_wf(final(self)@),
            !old(self)@.feedback ==> bumped is None,
            final(self)@.policy == old(self)@.policy,
            final(self)@.feedback == old(self)@.feedback,
    {
        let mut bumped: Option<ProcessRecord> = None;
        if self.scheduled.is_some() {
            let cur = self.scheduled.unwrap();
            if cur.proc.time_units == 0 {
                if let SchedulerAlgorithm::ShortestRemainingTime(alpha) = self.policy {
                    // Admission seeds a table entry for every resident id,
                    // so the finishing record's entry is always present.
                    let t0: Fixed = match self.srt_time_table.get(&cur.proc.id) {
                        Some(t) => *t,
                        None => unreached(),
                    };
                    let sm = Fixed::smooth(alpha, cur.proc.static_time_units, t0);
                    self.srt_time_table.insert(cur.proc.id, sm);
                }
                let next = self.next();
                proof {
                    if old(self)@.queue.len() > 0 {
                        lemma_sel_index_props(old(self)@.policy, old(self)@.queue);
                        lemma_remove_keeps_contained(
                            old(self)@.queue,
                            old(self)@.table,
                            sel_index(old(self)@.policy, old(self)@.queue),
                        );
                    }
                }
                self.set_scheduled(next);
            } else {
                let is_rr = matches!(self.policy, SchedulerAlgorithm::RoundRobin(_));
                if is_rr && cur.lifetime <= 0 {
                    self.scheduled = None;
                    let next = self.next();
                    proof {
                        if old(self)@.queue.len() > 0 {
                            lemma_sel_index_props(old(self)@.policy, old(self)@.queue);
                            lemma_remove_keeps_contained(
                                old(self)@.queue,
                                old(self)@.table,
                                sel_index(old(self)@.policy, old(self)@.queue),
                            );
                        }
                    }
                    self.set_scheduled(next);
                    if !self.feedback {
                        self.schedule_inner(cur);
                    } else {
                        bumped = Some(cur);
                    }
                }
            }
        }
        bumped
    }

    /// The running record after the lazy retirement step, or `None` when
    /// the engine is idle.  A bumped record of a feedback engine is
    /// discarded here; feedback callers use `fetch_current`.
    pub fn current(&mut self) -> (r: Option<&ProcessRecord>)
        requires
            sched_wf(old(self)@),
        ensures
            final(self)@ == spec_advance(old(self)@).0,
            sched_wf(final(self)@),
            final(self)@.policy == old(self)@.policy,
            final(self)@.feedback == old(self)@.feedback,
            r == match spec_advance(old(self)@).0.current {
                Some(_) => Some(&spec_advance(old(self)@).0.current->Some_0),
                None => None::<&ProcessRecord>,
            },
    {
        self.fetch_current();
        match &self.scheduled {
            Some(r) => Some(r),
            None => None,
        }
    }

    /// Mutable access to the running record after the lazy retirement
    /// step.  Callers must know that a record will be running; checking
    /// `current` first establishes that.
    pub fn current_unchecked(&mut self) -> (r: &mut ProcessRecord)
        requires
            sched_wf(old(self)@),
            spec_advance(old(self)@).0.current is Some,
        ensures
            *r == spec_advance(old(self)@).0.current->Some_0,
            final(self)@ == (SchedulerModel {
                current: Some(*final(r)),
                ..spec_advance(old(self)@).0
            }),
            final(r).proc.id == spec_advance(old(self)@).0.current->Some_0.proc.id ==> sched_wf(
                final(self)@,
            ),
    {
        self.fetch_current();
        match &mut self.scheduled {
            Some(r) => r,
            None => unreached(),
        }
    }

    /// The learned prediction for a process id, straight from the table.
    pub fn predicted(&self, id: u32) -> (r: Option<Fixed>)
        ensures
            r == if self@.table.contains_key(id) {
                Some(self@.table[id])
            } else {
                None::<Fixed>
            },
    {
        match self.srt_time_table.get(&id) {
            Some(t) => Some(*t),
            None => None,
        }
    }

    /// The running record as it stands, without the retirement step.
    pub(crate) fn peek(&self) -> (r: Option<&ProcessRecord>)
        ensures
            r == match self@.current {
                Some(_) => Some(&self@.current->Some_0),
                None => None::<&ProcessRecord>,
            },
    {
        match &self.scheduled {
            Some(r) => Some(r),
            None => None,
        }
    }

    /// Mutable access to the running record as it stands, without the
    /// retirement step.
    pub(crate) fn scheduled_mut(&mut self) -> (r: &mut ProcessRecord)
        requires
            old(self)@.current is Some,
        ensures
            *r == old(self)@.current->Some_0,
            final(self)@ == (SchedulerModel { current: Some(*final(r)), ..old(self)@ }),
            final(self)@.policy == old(self)@.policy,
            final(self)@.feedback == old(self)@.feedback,
            sched_wf(old(self)@) && final(r).proc.id == old(self)@.current->Some_0.proc.id
                ==> sched_wf(final(self)@),
    {
        match &mut self.scheduled {
            Some(r) => r,
            None => unreached(),
        }
    }
}

} // verus!
