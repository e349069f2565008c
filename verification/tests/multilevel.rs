use osconcepts::computer::multilevel::MultilevelQueue;
use osconcepts::computer::process::{OpCode, Process};
use osconcepts::computer::scheduler::SchedulerAlgorithm;

#[test]
pub fn test_multilevel_simple() {
    // Form the multi-level feedback queue.
    let mut queue = MultilevelQueue::new()
        .with_level(SchedulerAlgorithm::RoundRobin(2))
        .with_level(SchedulerAlgorithm::RoundRobin(4))
        .with_level(SchedulerAlgorithm::FirstComeFirstServe);

    // Schedule a single process. This should land on the first level.
    queue.schedule(Process::full(0, 8, OpCode::Inert));
    assert_eq!(queue.current_unchecked().proc.id, 0);
    assert_eq!(queue.current_with_key().unwrap().0, 0);
    queue.current_unchecked().tick_n(2);

    // The above should have elapsed its time on the first queue and thus
    // should be in the queue with the ID of one.
    let (level, proc) = queue.current_with_key().unwrap();
    assert_eq!(proc.proc.id, 0);
    assert_eq!(level, 1);

    // Now we tick it.
    queue.current_unchecked().tick_n(4);
    let (level, proc) = queue.current_with_key().unwrap();
    assert_eq!(proc.proc.id, 0);
    assert_eq!(level, 2);
    queue.current_unchecked().tick_n(2);

    // We should be done.
    assert!(queue.current().is_none());
}

#[test]
pub fn test_multilevel_preemptive() {
    // Form the multi-level feedback queue.
    let mut queue = MultilevelQueue::new()
        .with_level(SchedulerAlgorithm::RoundRobin(2))
        .with_level(SchedulerAlgorithm::RoundRobin(4))
        .with_level(SchedulerAlgorithm::FirstComeFirstServe);

    // Schedule a single process.
    queue.schedule(Process::full(0, 6, OpCode::Inert));
    let (level, proc) = queue.current_with_key().unwrap();
    assert_eq!(proc.proc.id, 0);
    assert_eq!(level, 0);
    queue.current_unchecked().tick_n(2);

    // Schedule another process. This should preempt the first one.
    queue.schedule(Process::full(1, 6, OpCode::Inert));
    let (level, proc) = queue.current_with_key().unwrap();
    assert_eq!(proc.proc.id, 1);
    assert_eq!(level, 0);
    queue.current_unchecked().tick_n(2);

    // Now control should be handed back to the first process.
    let (level, proc) = queue.current_with_key().unwrap();
    assert_eq!(proc.proc.id, 0);
    assert_eq!(level, 1);

    queue.current_unchecked().tick_n(4);

    // First is done, should be the second.
    let (level, proc) = queue.current_with_key().unwrap();
    assert_eq!(proc.proc.id, 1);
    assert_eq!(level, 1);
    queue.current_unchecked().tick_n(4);

    // We should be done.
    assert!(queue.current().is_none());
}

#[test]
pub fn test_multilevel_reports_lower_level_work() {
    // A record whose quantum expires demotes while finished zero-length
    // processes take over the top level; the read keeps reporting the
    // first occupied level and the demoted worker is never lost.
    let mut queue = MultilevelQueue::new()
        .with_level(SchedulerAlgorithm::RoundRobin(2))
        .with_level(SchedulerAlgorithm::FirstComeFirstServe);

    queue.schedule(Process::full(0, 3, OpCode::Inert));
    queue.schedule(Process::full(1, 0, OpCode::Inert));
    queue.schedule(Process::full(2, 0, OpCode::Inert));

    assert_eq!(queue.current_unchecked().proc.id, 0);
    queue.current_unchecked().tick_n(2);

    // The worker demotes to the next level; the zero-length processes
    // are reported and retired one read at a time.
    let (level, proc) = queue.current_with_key().unwrap();
    assert_eq!((level, proc.proc.id), (0, 1));
    let (level, proc) = queue.current_with_key().unwrap();
    assert_eq!((level, proc.proc.id), (0, 2));

    // With the top level drained, the demoted worker is reported with
    // its remaining unit intact.
    let (level, proc) = queue.current_with_key().unwrap();
    assert_eq!((level, proc.proc.id), (1, 0));
    assert_eq!(proc.proc.time_units, 1);
    queue.current_unchecked().tick();
    assert!(queue.current().is_none());
}

#[test]
pub fn test_multilevel_demotion_preempts() {
    // A demotion that preempts the level below cascades the displaced
    // record further down instead of dropping it: both processes finish.
    let mut queue = MultilevelQueue::new()
        .with_level(SchedulerAlgorithm::RoundRobin(1))
        .with_level(SchedulerAlgorithm::PreemptivePriority);

    queue.schedule(Process::full(10, 3, OpCode::Inert).with_prioirty(10));
    assert_eq!(queue.current_unchecked().proc.id, 10);
    queue.current_unchecked().tick();

    // The first process demotes to the bottom level.
    let (level, proc) = queue.current_with_key().unwrap();
    assert_eq!((level, proc.proc.id), (1, 10));

    // A more urgent process enters at the top, then demotes too; its
    // admission below preempts the incumbent, which is requeued there.
    queue.schedule(Process::full(20, 4, OpCode::Inert).with_prioirty(0));
    assert_eq!(queue.current_unchecked().proc.id, 20);
    queue.current_unchecked().tick();
    let (level, proc) = queue.current_with_key().unwrap();
    assert_eq!((level, proc.proc.id), (1, 20));

    // The urgent process runs out...
    queue.current_unchecked().tick_n(3);
    // ...and the displaced one comes back with its progress kept.
    let (level, proc) = queue.current_with_key().unwrap();
    assert_eq!((level, proc.proc.id), (1, 10));
    assert_eq!(proc.proc.time_units, 2);
    queue.current_unchecked().tick_n(2);
    assert!(queue.current().is_none());
}
