//! Driver-level scenarios: demand paging, copy-on-write isolation across
//! fork, zombie traces, sign preservation and page crossing.

use vmsim::pointer::Pointer;
use vmsim::process::Process;
use vmsim::frames::kinit;
use vmsim::ptable::Virtual;
use vmsim::sim::{DataType, Simulator, TraceEvent, ValueType};

const KERNBASE: u32 = 0x80000000;

#[test]
fn lazy_zero_then_write() {
    let mut sim = Simulator::begin(true);
    let x = Pointer::new(KERNBASE + 4, 0);
    assert_eq!(sim.register(x), None);
    let (v, ev) = sim.read(x, DataType::UnsignedInt);
    assert_eq!(v, Some(ValueType::UnsignedInt(0)));
    assert_eq!(ev, None);
    let ev = sim.write(x, ValueType::UnsignedInt(5));
    assert_eq!(ev, Some(TraceEvent::PgZero(0)));
    let (v, ev) = sim.read(x, DataType::UnsignedInt);
    assert_eq!(v, Some(ValueType::UnsignedInt(5)));
    assert_eq!(ev, None);
}

#[test]
fn cow_isolation_across_fork() {
    let mut sim = Simulator::begin(true);
    let x = Pointer::new(KERNBASE + 4, 0);
    assert_eq!(sim.register(x), None);
    let (v, _) = sim.read(x, DataType::UnsignedInt);
    assert_eq!(v, Some(ValueType::UnsignedInt(0)));
    sim.write(x, ValueType::UnsignedInt(5));
    let (v, _) = sim.read(x, DataType::UnsignedInt);
    assert_eq!(v, Some(ValueType::UnsignedInt(5)));

    // now on the child
    sim.fork();
    let ev = sim.write(x, ValueType::UnsignedInt(6));
    assert_eq!(ev, Some(TraceEvent::PgCopy(0)));
    let (v, _) = sim.read(x, DataType::UnsignedInt);
    assert_eq!(v, Some(ValueType::UnsignedInt(6)));

    // back on the parent
    sim.switch(0);
    let (v, _) = sim.read(x, DataType::UnsignedInt);
    assert_eq!(v, Some(ValueType::UnsignedInt(5)));
    let ev = sim.write(x, ValueType::UnsignedInt(4));
    assert_eq!(ev, None);
    let (v, _) = sim.read(x, DataType::UnsignedInt);
    assert_eq!(v, Some(ValueType::UnsignedInt(4)));

    // the child still sees its own copy
    sim.switch(1);
    let (v, _) = sim.read(x, DataType::UnsignedInt);
    assert_eq!(v, Some(ValueType::UnsignedInt(6)));
}

#[test]
fn zombie_trace() {
    let mut mem = kinit();
    let mut proc = Process::new(7, false, &mut mem);
    proc.wake_up();
    proc.kill(&mut mem);
    let va = Virtual::new(KERNBASE + 4, 0);
    let (v, ev) = proc.read(&mem, va, DataType::UnsignedInt);
    assert_eq!(v, None);
    assert_eq!(ev, Some(TraceEvent::Zombie(7)));
    let ev = proc.write(&mut mem, va, ValueType::UnsignedInt(1));
    assert_eq!(ev, Some(TraceEvent::Zombie(7)));
}

#[test]
fn sign_preservation() {
    let mut sim = Simulator::begin(false);
    let y = Pointer::new(KERNBASE + 8, 0);
    assert_eq!(sim.register(y), None);
    assert_eq!(sim.write(y, ValueType::SignedInt(-1)), None);
    let (v, _) = sim.read(y, DataType::SignedInt);
    assert_eq!(v, Some(ValueType::SignedInt(-1)));

    sim.fork();
    let (v, _) = sim.read(y, DataType::SignedInt);
    assert_eq!(v, Some(ValueType::SignedInt(-1)));
    assert_eq!(sim.write(y, ValueType::SignedInt(-2)), None);
    let (v, _) = sim.read(y, DataType::SignedInt);
    assert_eq!(v, Some(ValueType::SignedInt(-2)));

    sim.switch(0);
    let (v, _) = sim.read(y, DataType::SignedInt);
    assert_eq!(v, Some(ValueType::SignedInt(-1)));
}

#[test]
fn duplicate_register() {
    let mut sim = Simulator::begin(false);
    let p = Pointer::new(KERNBASE + 4, 0);
    assert_eq!(sim.register(p), None);
    let free_before = sim.memory().free_count();
    let ev = sim.register(p);
    assert_eq!(ev, Some(TraceEvent::AlreadyRegistered(KERNBASE + 4)));
    assert_eq!(sim.memory().free_count(), free_before);
}

#[test]
fn page_crossing() {
    let mut sim = Simulator::begin(false);
    let a = Pointer::new(KERNBASE + 4, 0);
    let b = Pointer::new(KERNBASE + 0x1004, 0);
    assert_eq!(sim.register(a), None);
    // the next page gets its own table entry, in the same table
    assert_eq!(sim.register(b), None);
    assert_eq!(sim.process(0).table_count(), 1);
    let (v, _) = sim.read(b, DataType::UnsignedInt);
    assert_eq!(v, Some(ValueType::UnsignedInt(0)));

    // crossing a directory slot materialises a second table
    let c = Pointer::new(KERNBASE + 0x400004, 0);
    assert_eq!(sim.register(c), None);
    assert_eq!(sim.process(0).table_count(), 2);
    let (v, _) = sim.read(c, DataType::UnsignedInt);
    assert_eq!(v, Some(ValueType::UnsignedInt(0)));
}

#[test]
fn invalid_address_traces() {
    let mut sim = Simulator::begin(false);
    let p = Pointer::new(KERNBASE + 4, 0);
    let (v, ev) = sim.read(p, DataType::UnsignedInt);
    assert_eq!(v, None);
    assert_eq!(ev, Some(TraceEvent::InvalidAddress(KERNBASE + 4)));
    let ev = sim.write(p, ValueType::UnsignedInt(1));
    assert_eq!(ev, Some(TraceEvent::InvalidAddress(KERNBASE + 4)));
}

#[test]
fn no_debug_no_fault_traces() {
    let mut sim = Simulator::begin(false);
    let x = Pointer::new(KERNBASE + 4, 0);
    assert_eq!(sim.register(x), None);
    assert_eq!(sim.write(x, ValueType::UnsignedInt(9)), None);
    sim.fork();
    assert_eq!(sim.write(x, ValueType::UnsignedInt(10)), None);
}

#[test]
fn kill_returns_to_parent() {
    let mut sim = Simulator::begin(false);
    let x = Pointer::new(KERNBASE + 4, 0);
    assert_eq!(sim.register(x), None);
    sim.write(x, ValueType::UnsignedInt(5));
    sim.fork();
    sim.write(x, ValueType::UnsignedInt(6));
    let frames_used = sim.memory().used_count();
    // killing the child releases its private frames and its page copy
    sim.kill();
    assert_eq!(sim.proc_count(), 1);
    assert!(sim.memory().used_count() < frames_used);
    let (v, _) = sim.read(x, DataType::UnsignedInt);
    assert_eq!(v, Some(ValueType::UnsignedInt(5)));
}

#[test]
fn refcount_tracks_sharing() {
    let mut sim = Simulator::begin(false);
    let x = Pointer::new(KERNBASE + 4, 0);
    assert_eq!(sim.register(x), None);
    sim.write(x, ValueType::UnsignedInt(1));
    // one page-table entry references the data frame
    let (_, frame) = sim.process(0).page_entry(0);
    assert_eq!(sim.memory().page(frame).ref_count(), 1);
    // after a fork both sides reference it
    sim.fork();
    assert_eq!(sim.memory().page(frame).ref_count(), 2);
    // the child's first write moves it to a private copy
    sim.write(x, ValueType::UnsignedInt(2));
    assert_eq!(sim.memory().page(frame).ref_count(), 1);
    let (_, child_frame) = sim.process(1).page_entry(0);
    assert!(child_frame != frame);
    assert_eq!(sim.memory().page(child_frame).ref_count(), 1);
}

#[test]
fn zero_value_write() {
    let mut sim = Simulator::begin(false);
    let x = Pointer::new(KERNBASE + 4, 0);
    assert_eq!(sim.register(x), None);
    sim.write(x, ValueType::UnsignedInt(77));
    sim.write(x, ValueType::Zero);
    let (v, _) = sim.read(x, DataType::UnsignedInt);
    assert_eq!(v, Some(ValueType::UnsignedInt(0)));
}

#[test]
fn neighbours_share_a_page() {
    // two registered variables four bytes apart live in the same page and
    // in distinct aligned machine-word slots
    let mut sim = Simulator::begin(false);
    let x = Pointer::new(KERNBASE + 4, 0);
    let y = Pointer::new(KERNBASE + 8, 0);
    assert_eq!(sim.register(x), None);
    sim.write(x, ValueType::UnsignedInt(1));
    sim.write(y, ValueType::UnsignedInt(2));
    let (vx, _) = sim.read(x, DataType::UnsignedInt);
    let (vy, _) = sim.read(y, DataType::UnsignedInt);
    assert_eq!(vx, Some(ValueType::UnsignedInt(1)));
    assert_eq!(vy, Some(ValueType::UnsignedInt(2)));
    assert_eq!(sim.process(0).page_count(), 1);
}
