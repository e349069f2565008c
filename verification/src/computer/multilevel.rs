//! A multilevel feedback queue.
//!
//! An ordered row of `Scheduler` levels, each in feedback mode.  Work is
//! admitted at the top; a level whose quantum expires hands the expired
//! record back, and the queue demotes it one level down (the last level
//! readmits its own), cascading further down whenever the receiving level
//! preempts in turn.  The record reported as running always comes from
//! the lowest-indexed level that has one, and the reporting scan only
//! reads — it never advances or evicts work.

use vstd::prelude::*;

use crate::computer::fixed::Fixed;
use crate::computer::process::Process;
use crate::computer::scheduler::{
    advance_retired, bump_ids, lemma_advance_conserves, lemma_schedule_inner_conserves, policy_wf,
    resident_ids, sched_wf, spec_advance, spec_schedule, ProcessRecord, Scheduler,
    SchedulerAlgorithm, SchedulerModel,
};
use vstd::multiset::Multiset;

verus! {

broadcast use vstd::multiset::group_multiset_axioms, vstd::multiset::group_multiset_properties;

/// Preemption rank of a level's running slot: every admission-time
/// preemption strictly lowers it, which bounds the cascade of
/// displacements during one admission.
pub open spec fn preempt_key_nat(m: SchedulerModel) -> nat {
    match m.current {
        None => 0nat,
        Some(c) => match m.policy {
            SchedulerAlgorithm::PreemptivePriority => (c.proc.priority + 0x8000_0000) as nat,
            SchedulerAlgorithm::ShortestRemainingTime(_) => (c.estimated_remaining_time.raw
                + 0x8000_0000_0000_0000) as nat,
            _ => 0nat,
        },
    }
}

/// An admission that displaces a record strictly lowers the preemption
/// rank of the level's running slot.
pub proof fn lemma_preempt_rank_falls(m: SchedulerModel, p: Process)
    requires
        spec_schedule(m, p).1 is Some,
    ensures
        spec_schedule(m, p).0.current is Some,
        preempt_key_nat(spec_schedule(m, p).0) < preempt_key_nat(m),
{
}

/// The levels of a queue as mathematical scheduler states.
pub open spec fn levels_view(v: Seq<Scheduler>) -> Seq<SchedulerModel> {
    Seq::new(v.len(), |i: int| v[i]@)
}

/// Every level is well formed and runs in feedback mode.
pub open spec fn mlq_wf(ls: Seq<SchedulerModel>) -> bool {
    forall|i: int| 0 <= i < ls.len() ==> sched_wf(#[trigger] ls[i]) && ls[i].feedback
}

/// The cascade of one admission: the process enters at `point`; while the
/// level reports a displaced record, the displaced process is admitted
/// one level further down, the last level taking its own displacements.
pub open spec fn spec_mlq_cascade(ls: Seq<SchedulerModel>, point: int, p: Process) -> Seq<
    SchedulerModel,
>
    decreases ls.len() - point, preempt_key_nat(ls[point]),
    when 0 <= point < ls.len()
    via spec_mlq_cascade_decreases
{
    let (m1, b) = spec_schedule(ls[point], p);
    let ls1 = ls.update(point, m1);
    match b {
        None => ls1,
        Some(d) => {
            let point2 = if point != ls.len() - 1 {
                point + 1
            } else {
                point
            };
            spec_mlq_cascade(ls1, point2, d.proc)
        },
    }
}

#[via_fn]
proof fn spec_mlq_cascade_decreases(ls: Seq<SchedulerModel>, point: int, p: Process) {
    if spec_schedule(ls[point], p).1 is Some {
        lemma_preempt_rank_falls(ls[point], p);
    }
}

/// One step of the demotion pass at level `i`: the level takes its lazy
/// retirement step, and a record bumped by quantum expiry is admitted one
/// level down (the last level readmits its own) with the full cascade, so
/// that a record the receiving level displaces is demoted further rather
/// than dropped.
pub open spec fn spec_pass_step(ls: Seq<SchedulerModel>, i: int) -> Seq<SchedulerModel> {
    let (mi, b) = spec_advance(ls[i]);
    let ls1 = ls.update(i, mi);
    match b {
        None => ls1,
        Some(r) => {
            let j = if i < ls.len() - 1 {
                i + 1
            } else {
                i
            };
            spec_mlq_cascade(ls1, j, r.proc)
        },
    }
}

/// One demotion in the pass carries the expired record's process into
/// the receiving cascade by value: the very process that was running,
/// remaining and total work included, is what the next level admits,
/// while the receiving admission starts a fresh stamp, quantum and
/// prediction for it.
pub proof fn lemma_pass_step_demotes_by_value(ls: Seq<SchedulerModel>, i: int)
    requires
        0 <= i < ls.len(),
        spec_advance(ls[i]).1 is Some,
    ensures
        spec_pass_step(ls, i) == spec_mlq_cascade(
            ls.update(i, spec_advance(ls[i]).0),
            if i < ls.len() - 1 {
                i + 1
            } else {
                i
            },
            spec_advance(ls[i]).1->Some_0.proc,
        ),
        spec_advance(ls[i]).1->Some_0.proc == ls[i].current->Some_0.proc,
        spec_advance(ls[i]).1->Some_0.proc.time_units > 0,
{
    crate::computer::scheduler::lemma_bump_is_running(ls[i]);
}

/// The demotion pass over the first `n` levels, in order.
pub open spec fn spec_pass_upto(ls: Seq<SchedulerModel>, n: int) -> Seq<SchedulerModel>
    decreases n,
{
    if n <= 0 {
        ls
    } else {
        spec_pass_step(spec_pass_upto(ls, n - 1), n - 1)
    }
}

/// The demotion pass over every level.
pub open spec fn spec_pass(ls: Seq<SchedulerModel>) -> Seq<SchedulerModel> {
    spec_pass_upto(ls, ls.len() as int)
}

/// The first level whose running slot is occupied, from `i` on.
pub open spec fn first_running(ls: Seq<SchedulerModel>, i: int) -> Option<int>
    decreases ls.len() - i,
{
    if i < 0 || i >= ls.len() {
        None
    } else if ls[i].current is Some {
        Some(i)
    } else {
        first_running(ls, i + 1)
    }
}

/// The level-priority guarantee of the reporting scan: a reported level
/// is in range, holds a running record, and every higher-ranking level is
/// idle; and nothing is reported only when every level is idle.
pub proof fn lemma_first_running_props(ls: Seq<SchedulerModel>, i: int)
    requires
        0 <= i,
    ensures
        first_running(ls, i) matches Some(j) ==> i <= j < ls.len() && ls[j].current is Some
            && forall|k: int| i <= k < j ==> !((#[trigger] ls[k]).current is Some),
        first_running(ls, i) is None ==> forall|k: int|
            i <= k < ls.len() ==> !((#[trigger] ls[k]).current is Some),
    decreases ls.len() - i,
{
    if 0 <= i < ls.len() && !(ls[i].current is Some) {
        lemma_first_running_props(ls, i + 1);
    }
}

/// The state and report of one full read of the queue: the demotion pass
/// over every level, then the first level whose running slot is occupied.
pub open spec fn spec_read(ls: Seq<SchedulerModel>) -> (Seq<SchedulerModel>, Option<int>) {
    (spec_pass(ls), first_running(spec_pass(ls), 0))
}

/// The state a freshly appended level starts in.
pub open spec fn fresh_level(policy: SchedulerAlgorithm) -> SchedulerModel {
    SchedulerModel {
        policy,
        feedback: true,
        clock: 0,
        current: None,
        queue: Seq::<ProcessRecord>::empty(),
        table: Map::<u32, Fixed>::empty(),
    }
}

/// The ids of all records resident anywhere in the queue's levels.
pub open spec fn mlq_resident_ids(ls: Seq<SchedulerModel>) -> Multiset<u32>
    decreases ls.len(),
{
    if ls.len() == 0 {
        Multiset::<u32>::empty()
    } else {
        resident_ids(ls[0]).add(mlq_resident_ids(ls.drop_first()))
    }
}

/// Replacing one level's state trades exactly that level's resident ids.
proof fn lemma_mlq_ids_update(ls: Seq<SchedulerModel>, i: int, m: SchedulerModel)
    requires
        0 <= i < ls.len(),
    ensures
        mlq_resident_ids(ls.update(i, m)).add(resident_ids(ls[i])) =~= mlq_resident_ids(ls).add(
            resident_ids(m),
        ),
    decreases ls.len(),
{
    if i == 0 {
        assert(ls.update(0, m).drop_first() =~= ls.drop_first());
        assert(ls.update(0, m)[0] == m);
        assert(mlq_resident_ids(ls.update(0, m)) == resident_ids(m).add(
            mlq_resident_ids(ls.drop_first()),
        ));
        assert(mlq_resident_ids(ls) == resident_ids(ls[0]).add(mlq_resident_ids(ls.drop_first())));
        assert forall|v: u32|
            mlq_resident_ids(ls.update(i, m)).add(resident_ids(ls[i])).count(v)
                == mlq_resident_ids(ls).add(resident_ids(m)).count(v) by {
            let d = mlq_resident_ids(ls.drop_first());
            assert(mlq_resident_ids(ls.update(i, m)).add(resident_ids(ls[i])).count(v)
                == resident_ids(m).count(v) + d.count(v) + resident_ids(ls[0]).count(v));
            assert(mlq_resident_ids(ls).add(resident_ids(m)).count(v) == resident_ids(
                ls[0],
            ).count(v) + d.count(v) + resident_ids(m).count(v));
        }
        assert(mlq_resident_ids(ls.update(i, m)).add(resident_ids(ls[i])) =~= mlq_resident_ids(
            ls,
        ).add(resident_ids(m)));
    } else {
        assert(ls.update(i, m).drop_first() =~= ls.drop_first().update(i - 1, m));
        assert(ls.update(i, m)[0] == ls[0]);
        assert(ls.drop_first()[i - 1] == ls[i]);
        lemma_mlq_ids_update(ls.drop_first(), i - 1, m);
        assert(mlq_resident_ids(ls.update(i, m)) == resident_ids(ls[0]).add(
            mlq_resident_ids(ls.drop_first().update(i - 1, m)),
        ));
        assert(mlq_resident_ids(ls) == resident_ids(ls[0]).add(mlq_resident_ids(ls.drop_first())));
        assert forall|v: u32|
            mlq_resident_ids(ls.update(i, m)).add(resident_ids(ls[i])).count(v)
                == mlq_resident_ids(ls).add(resident_ids(m)).count(v) by {
            let a = resident_ids(ls[0]);
            let b = mlq_resident_ids(ls.drop_first().update(i - 1, m));
            let c = mlq_resident_ids(ls.drop_first());
            assert(b.add(resident_ids(ls[i])).count(v) == c.add(resident_ids(m)).count(v));
            assert(mlq_resident_ids(ls.update(i, m)).add(resident_ids(ls[i])).count(v) == a.count(
                v,
            ) + b.count(v) + resident_ids(ls[i]).count(v));
            assert(mlq_resident_ids(ls).add(resident_ids(m)).count(v) == a.count(v) + c.count(v)
                + resident_ids(m).count(v));
        }
        assert(mlq_resident_ids(ls.update(i, m)).add(resident_ids(ls[i])) =~= mlq_resident_ids(
            ls,
        ).add(resident_ids(m)));
    }
}

/// One admission to the queue adds exactly the admitted process id: every
/// record a level displaces is admitted again one level further down, so
/// the cascade neither loses nor duplicates a process.
pub proof fn lemma_mlq_schedule_conserves(ls: Seq<SchedulerModel>, point: int, p: Process)
    requires
        0 <= point < ls.len(),
    ensures
        mlq_resident_ids(spec_mlq_cascade(ls, point, p)) =~= mlq_resident_ids(ls).insert(p.id),
        spec_mlq_cascade(ls, point, p).len() == ls.len(),
    decreases ls.len() - point, preempt_key_nat(ls[point]),
{
    let (m1, b) = spec_schedule(ls[point], p);
    let fresh = ProcessRecord {
        schedule_time: ls[point].clock,
        lifetime: 0,
        estimated_remaining_time: crate::computer::scheduler::initial_tau(),
        proc: p,
    };
    lemma_schedule_inner_conserves(ls[point], fresh);
    let ls1 = ls.update(point, m1);
    lemma_mlq_ids_update(ls, point, m1);
    assert(mlq_resident_ids(ls1).add(resident_ids(ls[point])) == mlq_resident_ids(ls).add(
        resident_ids(m1),
    ));
    match b {
        None => {
            assert(resident_ids(m1) =~= resident_ids(ls[point]).insert(p.id));
            assert forall|v: u32|
                mlq_resident_ids(ls1).count(v) == mlq_resident_ids(ls).insert(p.id).count(v) by {
                assert(mlq_resident_ids(ls1).add(resident_ids(ls[point])).count(v)
                    == mlq_resident_ids(ls).add(resident_ids(m1)).count(v));
                assert(resident_ids(m1).count(v) == resident_ids(ls[point]).insert(p.id).count(v));
            }
            assert(mlq_resident_ids(ls1) =~= mlq_resident_ids(ls).insert(p.id));
        },
        Some(d) => {
            lemma_preempt_rank_falls(ls[point], p);
            let point2 = if point != ls.len() - 1 {
                point + 1
            } else {
                point
            };
            lemma_mlq_schedule_conserves(ls1, point2, d.proc);
            assert(resident_ids(m1).insert(d.proc.id) =~= resident_ids(ls[point]).insert(p.id));
            assert forall|v: u32|
                mlq_resident_ids(ls1).insert(d.proc.id).count(v) == mlq_resident_ids(ls).insert(
                    p.id,
                ).count(v) by {
                assert(mlq_resident_ids(ls1).add(resident_ids(ls[point])).count(v)
                    == mlq_resident_ids(ls).add(resident_ids(m1)).count(v));
                assert(resident_ids(m1).insert(d.proc.id).count(v) == resident_ids(
                    ls[point],
                ).insert(p.id).count(v));
            }
            assert(mlq_resident_ids(ls1).insert(d.proc.id) =~= mlq_resident_ids(ls).insert(p.id));
            assert forall|v: u32|
                mlq_resident_ids(spec_mlq_cascade(ls, point, p)).count(v) == mlq_resident_ids(
                    ls,
                ).insert(p.id).count(v) by {
                assert(mlq_resident_ids(spec_mlq_cascade(ls1, point2, d.proc)).count(v)
                    == mlq_resident_ids(ls1).insert(d.proc.id).count(v));
            }
            assert(mlq_resident_ids(spec_mlq_cascade(ls, point, p)) =~= mlq_resident_ids(
                ls,
            ).insert(p.id));
        },
    }
}

/// The ids retired over the demotion pass of the first `n` levels.
pub open spec fn spec_pass_retired_upto(ls: Seq<SchedulerModel>, n: int) -> Multiset<u32>
    decreases n,
{
    if n <= 0 {
        Multiset::<u32>::empty()
    } else {
        spec_pass_retired_upto(ls, n - 1).add(
            advance_retired(spec_pass_upto(ls, n - 1)[n - 1]),
        )
    }
}

/// The ids retired over the whole demotion pass.
pub open spec fn spec_pass_retired(ls: Seq<SchedulerModel>) -> Multiset<u32> {
    spec_pass_retired_upto(ls, ls.len() as int)
}

/// One demotion step loses no record: a bumped record is cascaded back in
/// one level down, whatever the receiving levels' policies.
proof fn lemma_pass_step_conserves(ls: Seq<SchedulerModel>, i: int)
    requires
        0 <= i < ls.len(),
    ensures
        mlq_resident_ids(spec_pass_step(ls, i)).add(advance_retired(ls[i]))
            =~= mlq_resident_ids(ls),
        spec_pass_step(ls, i).len() == ls.len(),
{
    let (mi, b) = spec_advance(ls[i]);
    lemma_advance_conserves(ls[i]);
    let ls1 = ls.update(i, mi);
    lemma_mlq_ids_update(ls, i, mi);
    match b {
        None => {
            assert forall|v: u32|
                mlq_resident_ids(spec_pass_step(ls, i)).add(advance_retired(ls[i])).count(v)
                    == mlq_resident_ids(ls).count(v) by {
                assert(mlq_resident_ids(ls1).add(resident_ids(ls[i])).count(v)
                    == mlq_resident_ids(ls).add(resident_ids(mi)).count(v));
                assert(resident_ids(mi).add(bump_ids(b)).add(advance_retired(ls[i])).count(v)
                    == resident_ids(ls[i]).count(v));
                assert(mlq_resident_ids(spec_pass_step(ls, i)).add(advance_retired(ls[i])).count(
                    v,
                ) == mlq_resident_ids(ls1).count(v) + advance_retired(ls[i]).count(v));
            }
            assert(mlq_resident_ids(spec_pass_step(ls, i)).add(advance_retired(ls[i]))
                =~= mlq_resident_ids(ls));
        },
        Some(r) => {
            let j = if i < ls.len() - 1 {
                i + 1
            } else {
                i
            };
            lemma_mlq_schedule_conserves(ls1, j, r.proc);
            assert forall|v: u32|
                mlq_resident_ids(spec_pass_step(ls, i)).add(advance_retired(ls[i])).count(v)
                    == mlq_resident_ids(ls).count(v) by {
                assert(mlq_resident_ids(ls1).add(resident_ids(ls[i])).count(v)
                    == mlq_resident_ids(ls).add(resident_ids(mi)).count(v));
                assert(resident_ids(mi).add(bump_ids(b)).add(advance_retired(ls[i])).count(v)
                    == resident_ids(ls[i]).count(v));
                assert(mlq_resident_ids(spec_mlq_cascade(ls1, j, r.proc)).count(v)
                    == mlq_resident_ids(ls1).insert(r.proc.id).count(v));
            }
            assert(mlq_resident_ids(spec_pass_step(ls, i)).add(advance_retired(ls[i]))
                =~= mlq_resident_ids(ls));
        },
    }
}

/// The whole demotion pass loses no record: what is resident afterwards
/// plus what retired along the way is exactly what was resident before,
/// and a record only ever retires with no work remaining.
pub proof fn lemma_mlq_pass_conserves(ls: Seq<SchedulerModel>)
    ensures
        mlq_resident_ids(spec_pass(ls)).add(spec_pass_retired(ls)) =~= mlq_resident_ids(ls),
{
    lemma_mlq_pass_upto_conserves(ls, ls.len() as int);
}

/// The demotion pass over the first `n` levels conserves resident ids.
proof fn lemma_mlq_pass_upto_conserves(ls: Seq<SchedulerModel>, n: int)
    requires
        0 <= n <= ls.len(),
    ensures
        mlq_resident_ids(spec_pass_upto(ls, n)).add(spec_pass_retired_upto(ls, n))
            =~= mlq_resident_ids(ls),
        spec_pass_upto(ls, n).len() == ls.len(),
    decreases n,
{
    if n > 0 {
        lemma_mlq_pass_upto_conserves(ls, n - 1);
        lemma_pass_step_conserves(spec_pass_upto(ls, n - 1), n - 1);
    }
}

/// A whole read of the queue — the demotion pass followed by the pure
/// reporting scan — loses no record: the resident ids afterwards plus the
/// ids retired during the pass are exactly the resident ids before, and a
/// record only ever retires with no work remaining.  The scan reads
/// without advancing, so it retires nothing.
pub proof fn lemma_mlq_read_conserves(ls: Seq<SchedulerModel>)
    ensures
        mlq_resident_ids(spec_read(ls).0).add(spec_pass_retired(ls)) =~= mlq_resident_ids(ls),
{
    lemma_mlq_pass_conserves(ls);
}

/// An ordered row of feedback schedulers; level 0 outranks level 1, and
/// so on.
pub struct MultilevelQueue {
    levels: Vec<Scheduler>,
}

impl View for MultilevelQueue {
    type V = Seq<SchedulerModel>;

    closed spec fn view(&self) -> Seq<SchedulerModel> {
        levels_view(self.levels@)
    }
}

impl MultilevelQueue {
    /// A queue with no levels yet.
    pub fn new() -> (q: Self)
        ensures
            q@ == Seq::<SchedulerModel>::empty(),
    {
        let q = MultilevelQueue { levels: Vec::new() };
        proof {
            assert(q@ =~= Seq::<SchedulerModel>::empty());
        }
        q
    }

    /// Appends one level running the given policy, in feedback mode.
    pub fn with_level(self, level: SchedulerAlgorithm) -> (q: Self)
        requires
            policy_wf(level),
        ensures
            q@ == self@.push(fresh_level(level)),
    {
        let ghost orig = self@;
        let mut q = self;
        q.levels.push(Scheduler::new(level).with_feedback());
        proof {
            assert(q@ =~= orig.push(fresh_level(level)));
        }
        q
    }

    /// Admits `process` at level `start` and cascades every displaced
    /// record one level down until an admission displaces nothing.
    fn cascade_from(&mut self, process: Process, start: usize)
        requires
            (start as int) < old(self)@.len(),
            mlq_wf(old(self)@),
        ensures
            final(self)@ == spec_mlq_cascade(old(self)@, start as int, process),
            final(self)@.len() == old(self)@.len(),
            mlq_wf(final(self)@),
    {
        let mut moving = process;
        let mut point: usize = start;
        loop
            invariant
                0 <= point < self.levels.len(),
                self.levels@.len() == old(self)@.len(),
                mlq_wf(self@),
                spec_mlq_cascade(old(self)@, start as int, process) == spec_mlq_cascade(
                    self@,
                    point as int,
                    moving,
                ),
            decreases self.levels.len() - point, preempt_key_nat(self@[point as int]),
        {
            let ghost pre = self@;
            let ghost pre_p = moving;
            let len = self.levels.len();
            let bumped = self.levels[point].schedule(moving);
            proof {
                assert(self@ =~= pre.update(
                    point as int,
                    spec_schedule(pre[point as int], pre_p).0,
                ));
            }
            match bumped {
                None => {
                    proof {
                        assert(spec_mlq_cascade(pre, point as int, pre_p) == pre.update(
                            point as int,
                            spec_schedule(pre[point as int], pre_p).0,
                        ));
                    }
                    return ;
                },
                Some(inner) => {
                    proof {
                        lemma_preempt_rank_falls(pre[point as int], pre_p);
                        assert(spec_mlq_cascade(pre, point as int, pre_p) == spec_mlq_cascade(
                            self@,
                            if point as int != pre.len() - 1 {
                                point as int + 1
                            } else {
                                point as int
                            },
                            inner.proc,
                        ));
                    }
                    moving = inner.proc;
                    if point != len - 1 {
                        point = point + 1;
                    }
                },
            }
        }
    }

    /// Admits a process at the top level and cascades every displaced
    /// record one level down; needs at least one configured level.
    pub fn schedule(&mut self, process: Process)
        requires
            old(self)@.len() > 0,
            mlq_wf(old(self)@),
        ensures
            final(self)@ == spec_mlq_cascade(old(self)@, 0, process),
            final(self)@.len() == old(self)@.len(),
            mlq_wf(final(self)@),
    {
        self.cascade_from(process, 0);
    }

    /// The demotion pass: every level takes its retirement step in order,
    /// and each bumped record is cascaded back in one level down (the
    /// last level readmits its own), so no record is dropped.
    fn demote_pass(&mut self)
        requires
            mlq_wf(old(self)@),
        ensures
            final(self)@ == spec_pass(old(self)@),
            final(self)@.len() == old(self)@.len(),
            mlq_wf(final(self)@),
    {
        let len = self.levels.len();
        let mut level: usize = 0;
        while level < len
            invariant
                0 <= level <= len,
                self.levels@.len() == len == old(self)@.len(),
                mlq_wf(self@),
                self@ == spec_pass_upto(old(self)@, level as int),
            decreases len - level,
        {
            let ghost pre = self@;
            proof {
                assert(sched_wf(pre[level as int]) && pre[level as int].feedback);
            }
            let bumped = self.levels[level].fetch_current();
            proof {
                assert(self@ =~= pre.update(
                    level as int,
                    spec_advance(pre[level as int]).0,
                ));
            }
            if let Some(b) = bumped {
                let ghost mid = self@;
                let target = if level < len - 1 {
                    level + 1
                } else {
                    level
                };
                self.cascade_from(b.proc, target);
                proof {
                    assert(self@ == spec_mlq_cascade(mid, target as int, b.proc));
                }
            }
            proof {
                assert(self@ =~= spec_pass_step(pre, level as int));
            }
            level = level + 1;
        }
    }

    /// The first level whose running slot is occupied, without touching
    /// any state.
    fn locate_current(&self) -> (r: Option<usize>)
        ensures
            r == match first_running(self@, 0) {
                Some(i) => Some(i as usize),
                None => None::<usize>,
            },
    {
        let n = self.levels.len();
        let mut i: usize = 0;
        while i < n
            invariant
                0 <= i <= n,
                n == self@.len(),
                first_running(self@, 0) == first_running(self@, i as int),
            decreases n - i,
        {
            if self.levels[i].peek().is_some() {
                return Some(i);
            }
            i = i + 1;
        }
        None
    }

    /// The index of the level whose record is running and a snapshot of
    /// that record, after the demotion pass; level 0 outranks level 1,
    /// and the scan itself only reads.
    pub fn current_with_key(&mut self) -> (r: Option<(usize, ProcessRecord)>)
        requires
            mlq_wf(old(self)@),
        ensures
            final(self)@ == spec_read(old(self)@).0,
            mlq_wf(final(self)@),
            final(self)@.len() == old(self)@.len(),
            r == match spec_read(old(self)@).1 {
                Some(i) => Some(
                    (i as usize, spec_read(old(self)@).0[i].current->Some_0),
                ),
                None => None::<(usize, ProcessRecord)>,
            },
    {
        self.demote_pass();
        let nlev = self.levels.len();
        proof {
            assert(self@.len() == nlev as int);
            lemma_first_running_props(self@, 0);
        }
        match self.locate_current() {
            Some(i) => {
                match self.levels[i].peek() {
                    Some(rec) => Some((i, *rec)),
                    None => unreached(),
                }
            },
            None => None,
        }
    }

    /// A snapshot of the running record from the highest-ranking level
    /// that has one.
    pub fn current(&mut self) -> (r: Option<ProcessRecord>)
        requires
            mlq_wf(old(self)@),
        ensures
            final(self)@ == spec_read(old(self)@).0,
            mlq_wf(final(self)@),
            final(self)@.len() == old(self)@.len(),
            r == match spec_read(old(self)@).1 {
                Some(i) => Some(spec_read(old(self)@).0[i].current->Some_0),
                None => None::<ProcessRecord>,
            },
    {
        match self.current_with_key() {
            Some((_, rec)) => Some(rec),
            None => None,
        }
    }

    /// Mutable access to the running record of the highest-ranking level
    /// that has one.  Callers must know that some level will report a
    /// record; checking `current` or `current_with_key` first establishes
    /// that.
    pub fn current_unchecked(&mut self) -> (r: &mut ProcessRecord)
        requires
            mlq_wf(old(self)@),
            spec_read(old(self)@).1 is Some,
        ensures
            *r == spec_read(old(self)@).0[spec_read(old(self)@).1->Some_0].current->Some_0,
            final(self)@.len() == spec_read(old(self)@).0.len(),
            forall|j: int|
                0 <= j < final(self)@.len() && j != spec_read(old(self)@).1->Some_0 ==> #[trigger]
                    final(self)@[j] == spec_read(old(self)@).0[j],
            final(self)@[spec_read(old(self)@).1->Some_0] == (SchedulerModel {
                current: Some(*final(r)),
                ..spec_read(old(self)@).0[spec_read(old(self)@).1->Some_0]
            }),
            final(r).proc.id == spec_read(old(self)@).0[spec_read(
                old(self)@,
            ).1->Some_0].current->Some_0.proc.id ==> forall|j: int|
                0 <= j < final(self)@.len() ==> sched_wf(#[trigger] final(self)@[j])
                    && final(self)@[j].feedback,
    {
        self.demote_pass();
        let nlev = self.levels.len();
        proof {
            assert(self@.len() == nlev as int);
            lemma_first_running_props(self@, 0);
        }
        let located = self.locate_current();
        let idx = match located {
            Some(i) => i,
            None => unreached(),
        };
        proof {
            assert forall|j: int|
                0 <= j < self.levels@.len() implies sched_wf((#[trigger] self.levels@[j])@)
                && self.levels@[j]@.feedback by {
                assert(self@[j] == self.levels@[j]@);
                assert(sched_wf(self@[j]) && self@[j].feedback);
            }
        }
        self.levels[idx].scheduled_mut()
    }
}

} // verus!
