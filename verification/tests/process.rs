use osconcepts::computer::process::{OpCode, Process};
use osconcepts::computer::processor::Cpu;

#[test]
pub fn process_constructors() {
    let d = Process::dummy(5);
    assert_eq!(d.id, 5);
    assert_eq!(d.priority, 0);
    assert_eq!(d.time_units, 0);
    assert_eq!(d.static_time_units, 0);
    assert_eq!(d.code, OpCode::Inert);
    assert_eq!(d.affinity, -1);

    let f = Process::full(3, 9, OpCode::Inert);
    assert_eq!(f.id, 3);
    assert_eq!(f.time_units, 9);
    assert_eq!(f.static_time_units, 9);

    let n = Process::new(4);
    assert_eq!(n.time_units, 4);
    assert_eq!(n.static_time_units, 4);
    assert_eq!(n.code, OpCode::Inert);

    let s = Process::shutdown();
    assert_eq!(s.code, OpCode::Shutdown);
    assert_eq!(s.time_units, 0);
}

#[test]
pub fn process_builders() {
    let p = Process::full(1, 2, OpCode::Inert)
        .with_prioirty(-7)
        .with_affinity(3);
    assert_eq!(p.priority, -7);
    assert_eq!(p.affinity, 3);
    assert_eq!(p.id, 1);
    assert_eq!(p.time_units, 2);
}

#[test]
pub fn cpu_holds_data() {
    let cpu = Cpu::new(42u64);
    assert_eq!(cpu.data(), 42);
}
