use ruskcov::controller::{
    accept_response, dialog, outside_object, plan, report_segments, request_addresses, requests,
    Dialog, Seen,
};
use ruskcov::process::AddressSpace;
use ruskcov::srcloc::{Location, SrcPath};
use ruskcov::types::{BreakpointInst, ObjectInfo, PHdr, SetBreakpointsReq, SetBreakpointsResp};

fn object(pid: u32, path: &str) -> ObjectInfo {
    ObjectInfo { pid, path: path.to_string(), addr: 0x1000, phdrs: vec![PHdr { vaddr: 0, memsize: 16 }] }
}

#[test]
fn a_report_is_read_once() {
    let mut seen = Seen::new();
    let report = vec![object(7, "/bin/ls"), object(7, "/lib/libc.so.6")];
    assert_eq!(seen.fresh(&report), vec![0, 1]);
    assert_eq!(seen.fresh(&report), Vec::<usize>::new());
    assert_eq!(seen.fresh(&report), Vec::<usize>::new());
}

#[test]
fn a_longer_report_reads_only_what_is_new() {
    let mut seen = Seen::new();
    assert_eq!(seen.fresh(&vec![object(7, "/bin/ls")]), vec![0]);
    let report = vec![object(7, "/bin/ls"), object(7, "/lib/libdl.so"), object(7, "/bin/ls")];
    assert_eq!(seen.fresh(&report), vec![1]);
}

#[test]
fn another_process_is_read_again() {
    let mut seen = Seen::new();
    assert_eq!(seen.fresh(&vec![object(7, "/bin/ls")]), vec![0]);
    assert_eq!(seen.fresh(&vec![object(8, "/bin/ls")]), vec![0]);
    assert!(seen.contains(7, "/bin/ls"));
    assert!(seen.contains(8, "/bin/ls"));
    assert!(!seen.contains(9, "/bin/ls"));
    assert!(!seen.contains(7, "/bin/l"));
}

#[test]
fn a_key_twice_in_one_report_is_read_at_its_first_place() {
    let mut seen = Seen::new();
    let report = vec![object(1, "a"), object(1, "b"), object(1, "a"), object(2, "a"), object(1, "b")];
    assert_eq!(seen.fresh(&report), vec![0, 1, 3]);
}

#[test]
fn insert_says_whether_it_was_new() {
    let mut seen = Seen::new();
    assert!(seen.insert(1, "a"));
    assert!(!seen.insert(1, "a"));
    assert!(seen.insert(1, "\u{e9}"));
    assert!(!seen.insert(1, "\u{e9}"));
    assert!(seen.insert(2, "a"));
}

#[test]
fn addresses_are_put_in_order_once_each() {
    assert_eq!(request_addresses(vec![30, 10, 20, 10, 30, 30]), vec![10, 20, 30]);
    assert_eq!(request_addresses(vec![]), Vec::<usize>::new());
    assert_eq!(request_addresses(vec![5]), vec![5]);
    assert_eq!(request_addresses(vec![7, 7, 7]), vec![7]);
}

fn batches(requests: &Vec<SetBreakpointsReq>) -> Vec<Vec<usize>> {
    requests.iter().map(|r| r.breakpoints.clone()).collect()
}

#[test]
fn dialog_ends_with_an_empty_batch() {
    assert_eq!(batches(&dialog(&vec![], 4)), vec![Vec::<usize>::new()]);
    assert_eq!(batches(&dialog(&vec![1, 2, 3], 4)), vec![vec![1, 2, 3], vec![]]);
    assert_eq!(batches(&dialog(&vec![1, 2, 3, 4], 4)), vec![vec![1, 2, 3, 4], vec![]]);
    assert_eq!(batches(&dialog(&vec![1, 2, 3, 4, 5], 4)), vec![vec![1, 2, 3, 4], vec![5], vec![]]);
    assert_eq!(batches(&dialog(&vec![1, 2, 3], 1)), vec![vec![1], vec![2], vec![3], vec![]]);
}

#[test]
fn response_must_answer_the_request() {
    let request = SetBreakpointsReq { breakpoints: vec![10, 20] };
    let good = SetBreakpointsResp { set: vec![(10, BreakpointInst([1])), (20, BreakpointInst([2]))] };
    assert!(accept_response(&request, &good));
    let swapped = SetBreakpointsResp { set: vec![(20, BreakpointInst([2])), (10, BreakpointInst([1]))] };
    assert!(!accept_response(&request, &swapped));
    let short = SetBreakpointsResp { set: vec![(10, BreakpointInst([1]))] };
    assert!(!accept_response(&request, &short));
    let other = SetBreakpointsResp { set: vec![(10, BreakpointInst([1])), (21, BreakpointInst([2]))] };
    assert!(!accept_response(&request, &other));
    assert!(accept_response(&SetBreakpointsReq::default(), &SetBreakpointsResp { set: vec![] }));
}

#[test]
fn breakpoints_in_the_agent_are_left_out() {
    let agent = ObjectInfo {
        pid: 7,
        path: "/usr/lib/libruskcov_inject.so".to_string(),
        addr: 0x7000_0000,
        phdrs: vec![PHdr { vaddr: 0x1000, memsize: 0x2000 }],
    };
    assert_eq!(
        outside_object(vec![0x40_0000, 0x7000_1000, 0x7000_0fff, 0x7000_2fff, 0x7000_3000], &agent),
        vec![0x40_0000, 0x7000_0fff, 0x7000_3000]
    );
    assert_eq!(outside_object(vec![], &agent), Vec::<usize>::new());
}

#[test]
fn requests_of_a_dialog() {
    let at = Location::new(SrcPath::new("/src", "a.c"), 1);
    let agent = ObjectInfo {
        pid: 7,
        path: "/opt/cov/libruskcov_inject.so".to_string(),
        addr: 0x7000_0000,
        phdrs: vec![PHdr { vaddr: 0x1000, memsize: 0x2000 }],
    };
    let program = object(7, "/bin/ls");
    let breakpoints = vec![
        (0x40_0030u64, at),
        (0x7000_1800, at),
        (0x40_0010, at),
        (0x40_0030, at),
        (0x40_0020, at),
    ];
    let inject = vec!["libruskcov_inject.so".to_string()];
    let sent = requests(&breakpoints, &vec![program.clone(), agent.clone()], &inject, 2);
    assert_eq!(batches(&sent), vec![vec![0x40_0010, 0x40_0020], vec![0x40_0030], vec![]]);
    // an object of another name is no agent
    let sent = requests(&breakpoints, &vec![program, agent], &vec!["other.so".to_string()], 10);
    assert_eq!(batches(&sent), vec![vec![0x40_0010, 0x40_0020, 0x40_0030, 0x7000_1800], vec![]]);
    assert_eq!(batches(&requests(&vec![], &vec![], &inject, 1)), vec![Vec::<usize>::new()]);
}

#[test]
fn segments_of_a_report() {
    let report = vec![
        ObjectInfo {
            pid: 7,
            path: "/bin/ls".to_string(),
            addr: 0x40_0000,
            phdrs: vec![PHdr { vaddr: 0x1000, memsize: 0x200 }, PHdr { vaddr: 0x3000, memsize: 0x10 }],
        },
        ObjectInfo { pid: 7, path: "/lib/x.so".to_string(), addr: usize::MAX, phdrs: vec![PHdr { vaddr: 1, memsize: 1 }] },
        ObjectInfo { pid: 7, path: "/lib/y.so".to_string(), addr: 0x7000_0000, phdrs: vec![PHdr { vaddr: 0, memsize: 5 }] },
    ];
    assert_eq!(
        report_segments(&report),
        vec![(0x40_1000, 0x200), (0x40_3000, 0x10), (0x7000_0000, 5)]
    );
    assert_eq!(report_segments(&vec![]), vec![]);
}

#[test]
fn a_dialog_takes_turns() {
    let at = Location::new(SrcPath::new("/src", "a.c"), 1);
    let space = AddressSpace::new(vec![(0, 100)], vec![(10, at), (20, at), (30, at)]);
    let mut talk = Dialog::new(dialog(&vec![10, 20, 30], 2), space);
    assert!(!talk.owed());
    assert!(!talk.over());
    // nothing is owed before anything is sent
    assert!(!talk.receive(&SetBreakpointsResp { set: vec![] }));
    let first = talk.send().unwrap();
    assert_eq!(first.breakpoints, vec![10, 20]);
    assert!(talk.owed());
    // no second request while the answer to the first is owed
    assert_eq!(talk.send(), None);
    // an answer to another request is turned down
    assert!(!talk.receive(&SetBreakpointsResp { set: vec![(10, BreakpointInst([1]))] }));
    assert!(talk.owed());
    assert!(talk.receive(&SetBreakpointsResp {
        set: vec![(10, BreakpointInst([0x55])), (20, BreakpointInst([0x48]))],
    }));
    assert!(!talk.owed());
    let second = talk.send().unwrap();
    assert_eq!(second.breakpoints, vec![30]);
    assert!(talk.receive(&SetBreakpointsResp { set: vec![(30, BreakpointInst([0xc3]))] }));
    // the empty request ends the dialog, and no answer is owed to it
    let last = talk.send().unwrap();
    assert!(last.breakpoints.is_empty());
    assert!(!talk.owed());
    assert!(talk.over());
    assert_eq!(talk.send(), None);
    let space = talk.into_space();
    assert_eq!(space.breakpoint(10).unwrap().replaced(), Some(0x55));
    assert_eq!(space.breakpoint(20).unwrap().replaced(), Some(0x48));
    assert_eq!(space.breakpoint(30).unwrap().replaced(), Some(0xc3));
}

#[test]
fn a_dialog_is_laid_out_from_a_report() {
    let at = Location::new(SrcPath::new("/src", "a.c"), 1);
    let agent = ObjectInfo {
        pid: 7,
        path: "/opt/cov/libruskcov_inject.so".to_string(),
        addr: 0x7000_0000,
        phdrs: vec![PHdr { vaddr: 0x1000, memsize: 0x2000 }],
    };
    let program = ObjectInfo {
        pid: 7,
        path: "/bin/ls".to_string(),
        addr: 0x40_0000,
        phdrs: vec![PHdr { vaddr: 0, memsize: 0x100 }],
    };
    let breakpoints = vec![
        (0x40_0030u64, at),
        (0x7000_1800, at), // in the agent
        (0x40_0010, at),
        (0x50_0000, at), // in no segment
        (0x40_0020, at),
    ];
    let inject = vec!["libruskcov_inject.so".to_string()];
    let mut talk = plan(&breakpoints, &vec![program, agent], &inject, 2);
    assert_eq!(talk.send().unwrap().breakpoints, vec![0x40_0010, 0x40_0020]);
    assert!(talk.receive(&SetBreakpointsResp {
        set: vec![(0x40_0010, BreakpointInst([1])), (0x40_0020, BreakpointInst([2]))],
    }));
    assert_eq!(talk.send().unwrap().breakpoints, vec![0x40_0030]);
    assert!(talk.receive(&SetBreakpointsResp { set: vec![(0x40_0030, BreakpointInst([3]))] }));
    assert!(talk.send().unwrap().breakpoints.is_empty());
    assert!(talk.over());
    let space = talk.into_space();
    assert_eq!(space.segment(0x40_0000), Some(0x100));
    assert_eq!(space.segment(0x7000_1000), Some(0x2000));
    assert_eq!(space.breakpoint(0x40_0020).unwrap().replaced(), Some(2));
    // what lies in the agent is no breakpoint
    assert_eq!(space.breakpoint(0x7000_1800), None);
    // what lies in no segment is no breakpoint
    assert_eq!(space.breakpoint(0x50_0000), None);
}
