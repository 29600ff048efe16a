use ruskcov::process::{AddressSpace, Process, ProcessState};
use ruskcov::srcloc::{Location, SrcPath};
use ruskcov::supervise::{Action, Tracees, WaitEvent, SIGTRAP};
use ruskcov::types::{BreakpointInst, SetBreakpointsResp};

fn at(line: u32) -> Location {
    Location::new(SrcPath::new("/src", "main.c"), line)
}

#[test]
fn source_paths_are_interned() {
    let a = SrcPath::new("/src", "main.c");
    let b = SrcPath::new("/src", "main.c");
    let c = SrcPath::new("/src", "other.c");
    assert_eq!(a, b);
    assert_ne!(a, c);
    assert!(a.same(&b));
    assert!(!a.same(&c));
    assert_eq!(a.dir(), "/src");
    assert_eq!(c.file(), "other.c");
    assert_eq!(a.to_pathbuf(), "/src/main.c");
}

#[test]
fn location_keeps_its_parts() {
    let loc = at(42);
    assert_eq!(loc.srcpath(), "/src/main.c");
    assert_eq!(loc.line(), 42);
    assert_eq!(loc.replaced(), None);
    let set = loc.with_replaced(BreakpointInst([0x55]));
    assert_eq!(set.replaced(), Some(0x55));
    assert_eq!(set.line(), 42);
    assert_eq!(set.srcpath(), "/src/main.c");
    // a file given with its own root takes the place of the directory
    assert_eq!(Location::new(SrcPath::new("/src", "/usr/include/a.h"), 1).srcpath(), "/usr/include/a.h");
}

#[test]
fn address_space_from_lists() {
    let space = AddressSpace::new(
        vec![(0x1000, 0x100), (0x4000, 0x10), (0x1000, 0x200)],
        vec![(0x1010, at(1)), (0x4001, at(2)), (0x1010, at(3))],
    );
    // of two entries with one key the later one stays
    assert_eq!(space.segment(0x1000), Some(0x200));
    assert_eq!(space.segment(0x4000), Some(0x10));
    assert_eq!(space.segment(0x2000), None);
    assert_eq!(space.breakpoint(0x1010), Some(at(3)));
    assert_eq!(space.breakpoint(0x4001), Some(at(2)));
    assert_eq!(space.breakpoint(0x4002), None);
}

#[test]
fn breakpoints_come_and_go() {
    let mut space = AddressSpace::new(vec![(0x1000, 0x100)], vec![]);
    space.add_breakpoint(0x1004, at(7));
    assert_eq!(space.breakpoint(0x1004), Some(at(7)));
    space.add_breakpoint(0x1004, at(8));
    assert_eq!(space.breakpoint(0x1004), Some(at(8)));
    assert_eq!(space.remove_breakpoint(0x1004), Some(at(8)));
    assert_eq!(space.remove_breakpoint(0x1004), None);
    assert_eq!(space.breakpoint(0x1004), None);
    assert_eq!(space.segment(0x1000), Some(0x100));
}

#[test]
fn replaced_bytes_are_recorded() {
    let mut space = AddressSpace::new(vec![(0x1000, 0x100)], vec![(0x1004, at(7)), (0x1008, at(8))]);
    let resp = SetBreakpointsResp {
        set: vec![(0x1004, BreakpointInst([0x55])), (0x2000, BreakpointInst([0x90]))],
    };
    space.record_replaced(&resp);
    assert_eq!(space.breakpoint(0x1004).unwrap().replaced(), Some(0x55));
    assert_eq!(space.breakpoint(0x1004).unwrap().line(), 7);
    assert_eq!(space.breakpoint(0x1008).unwrap().replaced(), None);
    assert_eq!(space.breakpoint(0x2000), None);
}

#[test]
fn process_and_its_threads() {
    let process = Process::new(10, vec![(0x1000, 0x100)], vec![(0x1004, at(7))]);
    assert_eq!(process.pid(), 10);
    assert_eq!(process.state(), ProcessState::New);
    assert_eq!(process.space().breakpoint(0x1004), Some(at(7)));
    let thread = process.new_thread(11);
    assert_eq!(thread.pid(), 11);
    assert_eq!(thread.state(), ProcessState::Running);
    // a thread shares the address space: it is the same object
    assert!(std::ptr::eq(thread.space(), process.space()));
    let child = process.fork_process(12);
    assert_eq!(child.pid(), 12);
    assert_eq!(child.state(), ProcessState::Running);
    // a forked process has a copy
    assert!(!std::ptr::eq(child.space(), process.space()));
    assert_eq!(child.space().breakpoint(0x1004), Some(at(7)));
    assert_eq!(child.space().segment(0x1000), Some(0x100));
}

#[test]
fn exec_replaces_the_address_space() {
    let mut process = Process::new(10, vec![(0x1000, 0x100)], vec![(0x1004, at(7))]);
    let thread = process.new_thread(11);
    process.exec(vec![(0x8000, 0x40)]);
    assert_eq!(process.pid(), 10);
    assert_eq!(process.space().segment(0x1000), None);
    assert_eq!(process.space().segment(0x8000), Some(0x40));
    assert_eq!(process.space().breakpoint(0x1004), None);
    // what others held is untouched
    assert_eq!(thread.space().breakpoint(0x1004), Some(at(7)));
    process.set_state(ProcessState::Stopped);
    assert_eq!(process.state(), ProcessState::Stopped);
}

fn table() -> Tracees {
    Tracees::new(Process::new(10, vec![(0x1000, 0x100)], vec![(0x1004, at(7))]))
}

#[test]
fn trap_is_consumed_and_other_signals_are_passed_on() {
    let mut tracees = table();
    assert_eq!(SIGTRAP, 5);
    assert_eq!(
        tracees.handle(WaitEvent::Stopped { pid: 10, signal: SIGTRAP }),
        Action::Breakpoint { pid: 10 }
    );
    assert_eq!(
        tracees.handle(WaitEvent::Stopped { pid: 10, signal: 11 }),
        Action::Resume { pid: 10, signal: Some(11) }
    );
    assert_eq!(tracees.get(0).state(), ProcessState::Running);
    // a tracee that the table does not know is answered all the same
    assert_eq!(
        tracees.handle(WaitEvent::Stopped { pid: 99, signal: 2 }),
        Action::Resume { pid: 99, signal: Some(2) }
    );
    assert_eq!(tracees.len(), 1);
}

#[test]
fn clone_shares_and_fork_copies() {
    let mut tracees = table();
    assert_eq!(
        tracees.handle(WaitEvent::Cloned { pid: 10, child: 11 }),
        Action::Resume { pid: 10, signal: None }
    );
    assert_eq!(
        tracees.handle(WaitEvent::Forked { pid: 10, child: 12 }),
        Action::Resume { pid: 10, signal: None }
    );
    assert_eq!(tracees.len(), 3);
    assert_eq!(tracees.find(11), Some(1));
    assert_eq!(tracees.find(12), Some(2));
    assert!(std::ptr::eq(tracees.get(1).space(), tracees.get(0).space()));
    assert!(!std::ptr::eq(tracees.get(2).space(), tracees.get(0).space()));
    assert_eq!(tracees.get(2).space().breakpoint(0x1004), Some(at(7)));
    assert_eq!(tracees.get(1).state(), ProcessState::Running);
    // a child that is known already is not added again
    tracees.handle(WaitEvent::Cloned { pid: 10, child: 11 });
    assert_eq!(tracees.len(), 3);
    // nor is the child of a parent that is not known
    tracees.handle(WaitEvent::Forked { pid: 50, child: 51 });
    assert_eq!(tracees.len(), 3);
}

#[test]
fn exec_empties_the_address_space() {
    let mut tracees = table();
    tracees.handle(WaitEvent::Cloned { pid: 10, child: 11 });
    assert_eq!(tracees.handle(WaitEvent::Execed { pid: 10 }), Action::Resume { pid: 10, signal: None });
    assert_eq!(tracees.get(0).space().breakpoint(0x1004), None);
    assert_eq!(tracees.get(0).space().segment(0x1000), None);
    assert_eq!(tracees.get(1).space().breakpoint(0x1004), Some(at(7)));
}

#[test]
fn exit_removes_the_process() {
    let mut tracees = table();
    tracees.handle(WaitEvent::Cloned { pid: 10, child: 11 });
    assert_eq!(tracees.handle(WaitEvent::Exiting { pid: 11 }), Action::Resume { pid: 11, signal: None });
    assert_eq!(tracees.get(1).state(), ProcessState::Exiting);
    assert_eq!(tracees.handle(WaitEvent::Exited { pid: 11, status: 0 }), Action::Nothing);
    assert_eq!(tracees.find(11), None);
    assert_eq!(tracees.handle(WaitEvent::Signaled { pid: 10, signal: 9 }), Action::Nothing);
    assert_eq!(tracees.len(), 0);
    assert_eq!(tracees.handle(WaitEvent::Exited { pid: 10, status: 1 }), Action::Nothing);
    assert_eq!(tracees.handle(WaitEvent::StillAlive), Action::Nothing);
}

#[test]
fn add_child_keeps_process_ids_apart() {
    let mut tracees = table();
    assert!(tracees.add_child(Process::new(20, vec![], vec![])));
    assert!(!tracees.add_child(Process::new(20, vec![(1, 2)], vec![])));
    assert_eq!(tracees.len(), 2);
    assert_eq!(tracees.get(1).space().segment(1), None);
}

#[test]
fn segment_of_an_address() {
    let space = AddressSpace::new(vec![(0x1000, 0x100), (0x4000, 0x10), (0x5000, 0)], vec![]);
    assert_eq!(space.segment_holding(0xfff), None);
    assert_eq!(space.segment_holding(0x1000), Some(0x1000));
    assert_eq!(space.segment_holding(0x10ff), Some(0x1000));
    assert_eq!(space.segment_holding(0x1100), None);
    assert_eq!(space.segment_holding(0x400f), Some(0x4000));
    assert_eq!(space.segment_holding(0x5000), None);
    assert_eq!(AddressSpace::new(vec![(u64::MAX, 5)], vec![]).segment_holding(u64::MAX), Some(u64::MAX));
}

#[test]
fn breakpoints_go_into_code_only() {
    let mut space = AddressSpace::new(vec![(0x1000, 0x100)], vec![]);
    assert!(space.try_add_breakpoint(0x1004, at(7)));
    assert!(!space.try_add_breakpoint(0x2004, at(8)));
    assert_eq!(space.breakpoint(0x1004), Some(at(7)));
    assert_eq!(space.breakpoint(0x2004), None);
}

#[test]
fn an_address_space_with_its_invariant() {
    let space = AddressSpace::checked(vec![(0x1000, 0x100), (0x1100, 0x100)], vec![(0x1004, at(7)), (0x11ff, at(8))]);
    let space = space.unwrap();
    assert_eq!(space.breakpoint(0x11ff), Some(at(8)));
    assert_eq!(space.segment(0x1100), Some(0x100));
    // segments that overlap
    assert!(AddressSpace::checked(vec![(0x1000, 0x101), (0x1100, 0x100)], vec![]).is_none());
    // two segments at one base
    assert!(AddressSpace::checked(vec![(0x1000, 0), (0x1000, 0)], vec![]).is_none());
    // a breakpoint outside of every segment
    assert!(AddressSpace::checked(vec![(0x1000, 0x100)], vec![(0x1100, at(1))]).is_none());
    assert!(AddressSpace::checked(vec![], vec![]).is_some());
    assert!(AddressSpace::checked(vec![(u64::MAX, u64::MAX), (0, u64::MAX)], vec![]).is_some());
}
