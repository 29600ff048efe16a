use ruskcov::agent::{
    code_phdrs, object_holds, object_info, own_object, patch_span, plan_request, serve,
    set_breakpoints, AgentError, AgentStep, LoadedSegment,
};
use ruskcov::span::{cover, Span};
use ruskcov::types::{
    breakpoint, BreakpointInst, ObjectInfo, PHdr, SetBreakpointsReq, SetBreakpointsResp,
    BREAKPOINT_BYTE, SOCKET_ENV,
};
use ruskcov::wire::{decode_response, encode_request, WireError};

fn buffer(len: usize) -> Vec<u8> {
    (0..len).map(|i| (i % 251) as u8).collect()
}

#[test]
fn constants() {
    assert_eq!(SOCKET_ENV, "RUSKCOV_INJECT_SOCK");
    assert_eq!(BREAKPOINT_BYTE, 0xcc);
    assert_eq!(breakpoint(), BreakpointInst([0xcc]));
    assert_eq!(BreakpointInst::new(7).byte(), 7);
}

#[test]
fn patch_round_trip() {
    let base = 0x10000;
    let original = buffer(3 * 4096);
    let mut mem = original.clone();
    let addrs = vec![base + 5, base + 4096, base + 4097, base + 9000];
    let resp = set_breakpoints(&mut mem, base, addrs.clone());
    // every address now holds the breakpoint byte
    for a in &addrs {
        assert_eq!(mem[a - base], 0xcc);
    }
    // every other byte is untouched
    for i in 0..mem.len() {
        if !addrs.contains(&(base + i)) {
            assert_eq!(mem[i], original[i]);
        }
    }
    // the response lists the addresses in order, with the bytes that stood there
    let expected: Vec<(usize, BreakpointInst)> =
        addrs.iter().map(|a| (*a, BreakpointInst([original[a - base]]))).collect();
    assert_eq!(resp, SetBreakpointsResp { set: expected });
    // writing the bytes back restores the buffer
    for (addr, inst) in &resp.set {
        mem[addr - base] = inst.0[0];
    }
    assert_eq!(mem, original);
}

#[test]
fn patch_answers_in_ascending_order() {
    let mut mem = buffer(64);
    let resp = set_breakpoints(&mut mem, 0, vec![40, 3, 17]);
    let order: Vec<usize> = resp.set.iter().map(|e| e.0).collect();
    assert_eq!(order, vec![3, 17, 40]);
    assert_eq!(resp.set[0].1, BreakpointInst([3]));
    assert_eq!(resp.set[1].1, BreakpointInst([17]));
    assert_eq!(resp.set[2].1, BreakpointInst([40]));
}

#[test]
fn patch_of_a_repeated_address_reports_the_trap_the_second_time() {
    let mut mem = buffer(16);
    let resp = set_breakpoints(&mut mem, 0, vec![5, 5]);
    assert_eq!(resp.set, vec![(5, BreakpointInst([5])), (5, BreakpointInst([0xcc]))]);
}

#[test]
fn patch_span_appends_to_the_response() {
    let mut mem = buffer(4096);
    let span = Span { start: 8192, len: 4096, addrs: vec![8192, 8200] };
    let mut set = vec![(1, BreakpointInst([9]))];
    patch_span(&mut mem, 8192, &span, &mut set);
    assert_eq!(
        set,
        vec![(1, BreakpointInst([9])), (8192, BreakpointInst([0])), (8200, BreakpointInst([8]))]
    );
    assert_eq!(mem[0], 0xcc);
    assert_eq!(mem[8], 0xcc);
    assert_eq!(mem[1], 1);
}

#[test]
fn code_segments_only() {
    let segments = vec![
        LoadedSegment { is_code: false, vaddr: 0, len: 0x1000 },
        LoadedSegment { is_code: true, vaddr: 0x1000, len: 0x2000 },
        LoadedSegment { is_code: false, vaddr: 0x3000, len: 0x100 },
        LoadedSegment { is_code: true, vaddr: 0x4000, len: 0x10 },
    ];
    assert_eq!(
        code_phdrs(&segments),
        vec![PHdr { vaddr: 0x1000, memsize: 0x2000 }, PHdr { vaddr: 0x4000, memsize: 0x10 }]
    );
    assert_eq!(code_phdrs(&vec![]), vec![]);
    let object = object_info(7, "/lib/libc.so.6".to_string(), 0x7f00_0000, &segments);
    assert_eq!(
        object,
        ObjectInfo {
            pid: 7,
            path: "/lib/libc.so.6".to_string(),
            addr: 0x7f00_0000,
            phdrs: vec![PHdr { vaddr: 0x1000, memsize: 0x2000 }, PHdr { vaddr: 0x4000, memsize: 0x10 }],
        }
    );
}

#[test]
fn empty_request_stops_the_agent() {
    assert_eq!(plan_request(SetBreakpointsReq::default(), None), AgentStep::Stop);
}

#[test]
fn request_is_laid_out_in_spans() {
    let step = plan_request(SetBreakpointsReq { breakpoints: vec![5000, 4000] }, None);
    assert_eq!(step, AgentStep::Patch(cover(vec![4000, 5000])));
    assert_eq!(
        step,
        AgentStep::Patch(vec![Span { start: 0, len: 8192, addrs: vec![4000, 5000] }])
    );
}

#[test]
fn request_in_the_last_page_is_refused() {
    let step = plan_request(SetBreakpointsReq { breakpoints: vec![100, usize::MAX - 10] }, None);
    assert_eq!(step, AgentStep::Refuse);
    let step = plan_request(SetBreakpointsReq { breakpoints: vec![usize::MAX - 4096 - 4095] }, None);
    assert!(matches!(step, AgentStep::Patch(_)));
}

#[test]
fn serve_patches_and_answers() {
    let mut mem = buffer(100);
    let input = encode_request(&SetBreakpointsReq { breakpoints: vec![1010, 1001] });
    let out = serve(&mut mem, 1000, None, &input).unwrap().unwrap();
    let (resp, used) = decode_response(&out).unwrap();
    assert_eq!(used, out.len());
    assert_eq!(resp.set, vec![(1001, BreakpointInst([1])), (1010, BreakpointInst([10]))]);
    assert_eq!(mem[1], 0xcc);
    assert_eq!(mem[10], 0xcc);
}

#[test]
fn serve_ends_on_an_empty_batch_without_a_response() {
    let original = buffer(100);
    let mut mem = original.clone();
    let input = encode_request(&SetBreakpointsReq::default());
    assert_eq!(serve(&mut mem, 1000, None, &input), Ok(None));
    assert_eq!(mem, original);
}

#[test]
fn serve_turns_down_what_it_cannot_patch() {
    let original = buffer(100);
    let mut mem = original.clone();
    let input = encode_request(&SetBreakpointsReq { breakpoints: vec![1001, 1100] });
    assert_eq!(serve(&mut mem, 1000, None, &input), Err(AgentError::Address));
    assert_eq!(mem, original);
    let input = encode_request(&SetBreakpointsReq { breakpoints: vec![999] });
    assert_eq!(serve(&mut mem, 1000, None, &input), Err(AgentError::Address));
    assert_eq!(serve(&mut mem, 1000, None, &input[..5]), Err(AgentError::Wire(WireError::Truncated)));
    assert_eq!(mem, original);
}

fn agent_object() -> ObjectInfo {
    ObjectInfo {
        pid: 1,
        path: "/usr/lib/libruskcov_inject.so".to_string(),
        addr: 0x7000_0000,
        phdrs: vec![PHdr { vaddr: 0x1000, memsize: 0x2000 }, PHdr { vaddr: 0x8000, memsize: 0x10 }],
    }
}

#[test]
fn code_of_an_object() {
    let object = agent_object();
    assert!(!object_holds(&object, 0x7000_0fff));
    assert!(object_holds(&object, 0x7000_1000));
    assert!(object_holds(&object, 0x7000_2fff));
    assert!(!object_holds(&object, 0x7000_3000));
    assert!(object_holds(&object, 0x7000_800f));
    assert!(!object_holds(&object, 0x7000_8010));
    assert!(!object_holds(&object, 0x1000));
    let high = ObjectInfo { addr: usize::MAX - 5, ..agent_object() };
    assert!(!object_holds(&high, usize::MAX));
    assert!(!object_holds(&high, 0));
}

#[test]
fn the_agent_finds_itself() {
    let other = ObjectInfo { pid: 1, path: "/bin/ls".to_string(), addr: 0x40_0000, phdrs: vec![PHdr { vaddr: 0, memsize: 0x1000 }] };
    let objects = vec![other, agent_object()];
    assert_eq!(own_object(&objects, 0x7000_1234), Some(1));
    assert_eq!(own_object(&objects, 0x40_0010), Some(0));
    assert_eq!(own_object(&objects, 0x50_0000), None);
    assert_eq!(own_object(&vec![], 0), None);
}

#[test]
fn the_agent_never_patches_itself() {
    let own = agent_object();
    let inside = SetBreakpointsReq { breakpoints: vec![0x40_0010, 0x7000_1234] };
    assert_eq!(plan_request(inside.clone(), Some(&own)), AgentStep::Refuse);
    assert!(matches!(plan_request(inside, None), AgentStep::Patch(_)));
    let outside = SetBreakpointsReq { breakpoints: vec![0x40_0010, 0x7000_3000] };
    assert!(matches!(plan_request(outside, Some(&own)), AgentStep::Patch(_)));
    assert_eq!(plan_request(SetBreakpointsReq::default(), Some(&own)), AgentStep::Stop);
    // over a buffer, too
    let original = buffer(0x100);
    let mut mem = original.clone();
    let low = ObjectInfo { addr: 0, phdrs: vec![PHdr { vaddr: 0x1010, memsize: 0x10 }], ..agent_object() };
    let input = encode_request(&SetBreakpointsReq { breakpoints: vec![0x1001, 0x1010] });
    assert_eq!(serve(&mut mem, 0x1000, Some(&low), &input), Err(AgentError::Address));
    assert_eq!(mem, original);
    let input = encode_request(&SetBreakpointsReq { breakpoints: vec![0x1001, 0x1020] });
    assert!(serve(&mut mem, 0x1000, Some(&low), &input).unwrap().is_some());
    assert_eq!(mem[1], 0xcc);
    assert_eq!(mem[0x20], 0xcc);
}
