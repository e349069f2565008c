use osconcepts::computer::fixed::{Fixed, FIXED_SCALE};
use osconcepts::computer::process::{OpCode, Process};
use osconcepts::computer::scheduler::{Scheduler, SchedulerAlgorithm};

#[test]
pub fn scheduler_fcfs() {
    let mut scheduler = Scheduler::new(SchedulerAlgorithm::FirstComeFirstServe);
    scheduler.schedule(Process::full(0, 1, OpCode::Inert));
    scheduler.schedule(Process::full(1, 1, OpCode::Inert));
    scheduler.schedule(Process::full(4, 1, OpCode::Inert));
    scheduler.schedule(Process::full(2, 1, OpCode::Inert));

    assert_eq!(scheduler.current_unchecked().proc.id, 0);
    scheduler.current_unchecked().proc.time_units = 0;
    assert_eq!(scheduler.current_unchecked().proc.id, 1);
    scheduler.current_unchecked().proc.time_units = 0;
    assert_eq!(scheduler.current_unchecked().proc.id, 4);
    scheduler.current_unchecked().proc.time_units = 0;
    assert_eq!(scheduler.current_unchecked().proc.id, 2);
}

#[test]
pub fn scheduler_priority() {
    let mut scheduler = Scheduler::new(SchedulerAlgorithm::Priority);
    scheduler.schedule(Process::full(0, 1, OpCode::Inert).with_prioirty(5));
    scheduler.schedule(Process::full(1, 1, OpCode::Inert));
    scheduler.schedule(Process::full(4, 1, OpCode::Inert).with_prioirty(-20));
    scheduler.schedule(Process::full(2, 1, OpCode::Inert));

    assert_eq!(scheduler.current_unchecked().proc.id, 0);
    scheduler.current_unchecked().proc.time_units = 0;
    assert_eq!(scheduler.current_unchecked().proc.id, 4);
    scheduler.current_unchecked().proc.time_units = 0;
    assert_eq!(scheduler.current_unchecked().proc.id, 1);
    scheduler.current_unchecked().proc.time_units = 0;
    assert_eq!(scheduler.next().unwrap().proc.id, 2);
}

#[test]
pub fn scheduler_priority_preempt() {
    let mut scheduler = Scheduler::new(SchedulerAlgorithm::PreemptivePriority);
    scheduler.schedule(Process::full(0, 1, OpCode::Inert).with_prioirty(5));
    scheduler.schedule(Process::full(1, 1, OpCode::Inert).with_prioirty(-1));
    scheduler.schedule(Process::full(4, 1, OpCode::Inert).with_prioirty(-20));
    scheduler.schedule(Process::full(2, 1, OpCode::Inert));

    assert_eq!(scheduler.current_unchecked().proc.id, 4);
    scheduler.current_unchecked().proc.time_units = 0;
    assert_eq!(scheduler.current_unchecked().proc.id, 1);

    scheduler.schedule(Process::full(5, 1, OpCode::Inert).with_prioirty(-50));
    assert_eq!(scheduler.current_unchecked().proc.id, 5);
    scheduler.current_unchecked().proc.time_units = 0;

    assert_eq!(scheduler.current_unchecked().proc.id, 1);
    scheduler.current_unchecked().proc.time_units = 0;

    assert_eq!(scheduler.current_unchecked().proc.id, 2);
    scheduler.current_unchecked().proc.time_units = 0;
}

#[test]
pub fn scheduler_srt_preemption() {
    let half = Fixed { raw: FIXED_SCALE / 2 };
    let mut scheduler = Scheduler::new(SchedulerAlgorithm::ShortestRemainingTime(half));
    scheduler.schedule(Process::full(0, 3, OpCode::Inert));

    // tick it to the end
    scheduler.current_unchecked().tick_n(3);

    // current should be one
    scheduler.schedule(Process::full(1, 3, OpCode::Inert));
    assert_eq!(scheduler.current_unchecked().proc.id, 1);

    // this should preempt one.
    scheduler.schedule(Process::full(0, 3, OpCode::Inert));
    assert_eq!(scheduler.current_unchecked().proc.id, 0);
}

#[test]
pub fn scheduler_srt() {
    let half = Fixed { raw: FIXED_SCALE / 2 };
    let mut scheduler = Scheduler::new(SchedulerAlgorithm::ShortestRemainingTime(half));
    scheduler.schedule(Process::full(0, 3, OpCode::Inert));

    // tick it to the end
    scheduler.current_unchecked().tick_n(3);

    // we should have nothing in queue.
    assert!(scheduler.current().is_none());

    // reschedule a thread from process 0
    scheduler.schedule(Process::full(0, 3, OpCode::Inert));

    // make sure the calculation is correct: 0.5 * 3 + 0.5 * 10 = 6.5.
    assert_eq!(
        scheduler.predicted(0),
        Some(Fixed { raw: 6 * FIXED_SCALE + FIXED_SCALE / 2 })
    );
}

#[test]
pub fn scheduler_rr() {
    let mut scheduler = Scheduler::new(SchedulerAlgorithm::RoundRobin(3));
    scheduler.schedule(Process::full(0, 6, OpCode::Inert));
    scheduler.schedule(Process::full(1, 3, OpCode::Inert));

    // Tick the first out.
    assert_eq!(scheduler.current_unchecked().proc.id, 0);
    scheduler.current_unchecked().tick();
    assert_eq!(scheduler.current_unchecked().proc.id, 0);
    scheduler.current_unchecked().tick();
    scheduler.current_unchecked().tick();

    // The quantum of three should now be expired, schedule
    // process one.
    assert_eq!(scheduler.current_unchecked().proc.id, 1);
    scheduler.current_unchecked().tick();
    scheduler.current_unchecked().tick();
    scheduler.current_unchecked().tick();

    // We should be back to process 0
    assert_eq!(scheduler.current_unchecked().proc.id, 0);
    scheduler.current_unchecked().tick();
    scheduler.current_unchecked().tick();
    scheduler.current_unchecked().tick();

    // we are done
    assert!(scheduler.current().is_none());
}

#[test]
pub fn scheduler_srt_second_update() {
    // After a second completion of id 0, the prediction is smoothed again:
    // 0.5 * 3 + 0.5 * 6.5 = 4.75.
    let half = Fixed { raw: FIXED_SCALE / 2 };
    let mut scheduler = Scheduler::new(SchedulerAlgorithm::ShortestRemainingTime(half));
    scheduler.schedule(Process::full(0, 3, OpCode::Inert));
    scheduler.current_unchecked().tick_n(3);
    assert!(scheduler.current().is_none());

    scheduler.schedule(Process::full(0, 3, OpCode::Inert));
    scheduler.current_unchecked().tick_n(3);
    assert!(scheduler.current().is_none());

    assert_eq!(
        scheduler.predicted(0),
        Some(Fixed { raw: 4 * FIXED_SCALE + FIXED_SCALE / 2 + FIXED_SCALE / 4 })
    );
}

#[test]
pub fn scheduler_no_process_lost_concrete() {
    // Every admitted id leaves the running slot exactly once, with no
    // work remaining, and nothing else is ever reported.
    let mut scheduler = Scheduler::new(SchedulerAlgorithm::FirstComeFirstServe);
    scheduler.schedule(Process::full(7, 1, OpCode::Inert));
    scheduler.schedule(Process::full(9, 2, OpCode::Inert));

    assert_eq!(scheduler.current_unchecked().proc.id, 7);
    scheduler.current_unchecked().tick();
    assert_eq!(scheduler.current_unchecked().proc.time_units, 2);
    assert_eq!(scheduler.current_unchecked().proc.id, 9);
    scheduler.current_unchecked().tick();
    assert_eq!(scheduler.current_unchecked().proc.id, 9);
    scheduler.current_unchecked().tick();
    assert!(scheduler.current().is_none());
}

#[test]
pub fn scheduler_empty_has_no_current() {
    let mut scheduler = Scheduler::new(SchedulerAlgorithm::Priority);
    assert!(scheduler.current().is_none());
    assert!(scheduler.next().is_none());
}
