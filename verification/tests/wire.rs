use ruskcov::types::{BreakpointInst, ObjectInfo, PHdr, SetBreakpointsReq, SetBreakpointsResp};
use ruskcov::wire::{
    decode_objects, decode_request, decode_response, encode_objects, encode_request,
    encode_response, WireError,
};

fn libc() -> ObjectInfo {
    ObjectInfo {
        pid: 7,
        path: "/lib/libc.so.6".to_string(),
        addr: 0x7f12_3456_7000,
        phdrs: vec![PHdr { vaddr: 0, memsize: 0x1d0000 }],
    }
}

#[test]
fn objects_have_the_documented_layout() {
    let bytes = encode_objects(&vec![libc()]);
    let mut expected: Vec<u8> = Vec::new();
    expected.extend_from_slice(&1u64.to_le_bytes()); // one object
    expected.extend_from_slice(&7u32.to_le_bytes()); // pid
    expected.extend_from_slice(&14u64.to_le_bytes()); // path length
    expected.extend_from_slice(b"/lib/libc.so.6");
    expected.extend_from_slice(&0x7f12_3456_7000u64.to_le_bytes()); // addr
    expected.extend_from_slice(&1u64.to_le_bytes()); // one segment
    expected.extend_from_slice(&0u64.to_le_bytes());
    expected.extend_from_slice(&0x1d0000u64.to_le_bytes());
    assert_eq!(bytes, expected);
}

#[test]
fn objects_are_encoded_as_bincode_does() {
    let bytes = encode_objects(&vec![libc()]);
    let same: Vec<(u32, String, u64, Vec<(u64, u64)>)> =
        vec![(7, "/lib/libc.so.6".to_string(), 0x7f12_3456_7000, vec![(0, 0x1d0000)])];
    assert_eq!(bytes, bincode::serialize(&same).unwrap());
    let back: Vec<(u32, String, u64, Vec<(u64, u64)>)> = bincode::deserialize(&bytes).unwrap();
    assert_eq!(back, same);
}

#[test]
fn request_is_encoded_as_bincode_does() {
    let req = SetBreakpointsReq { breakpoints: vec![1, 0x1000, usize::MAX] };
    let bytes = encode_request(&req);
    let same: Vec<u64> = vec![1, 0x1000, u64::MAX];
    assert_eq!(bytes, bincode::serialize(&same).unwrap());
    assert_eq!(encode_request(&SetBreakpointsReq::default()), vec![0u8; 8]);
}

#[test]
fn response_is_encoded_as_bincode_does() {
    let resp = SetBreakpointsResp {
        set: vec![(0x1000, BreakpointInst([0x55])), (0x2000, BreakpointInst([0x90]))],
    };
    let bytes = encode_response(&resp);
    let same: Vec<(u64, [u8; 1])> = vec![(0x1000, [0x55]), (0x2000, [0x90])];
    assert_eq!(bytes, bincode::serialize(&same).unwrap());
    assert_eq!(bytes.len(), 8 + 2 * 9);
}

#[test]
fn objects_round_trip() {
    let objects = vec![
        libc(),
        ObjectInfo { pid: 8, path: String::new(), addr: 0, phdrs: vec![] },
        ObjectInfo {
            pid: u32::MAX,
            path: "/tmp/\u{e9}t\u{e9}/\u{1f980}.so".to_string(),
            addr: usize::MAX,
            phdrs: vec![PHdr { vaddr: 1, memsize: 2 }, PHdr { vaddr: usize::MAX, memsize: 0 }],
        },
    ];
    let bytes = encode_objects(&objects);
    assert_eq!(decode_objects(&bytes), Ok((objects.clone(), bytes.len())));
    // what follows the message is left alone
    let mut longer = bytes.clone();
    longer.extend_from_slice(&[1, 2, 3]);
    assert_eq!(decode_objects(&longer), Ok((objects, bytes.len())));
    assert_eq!(decode_objects(&encode_objects(&vec![])), Ok((vec![], 8)));
}

#[test]
fn request_round_trip() {
    for req in [
        SetBreakpointsReq::default(),
        SetBreakpointsReq { breakpoints: vec![0] },
        SetBreakpointsReq { breakpoints: vec![0x400000, 0x400010, usize::MAX] },
    ] {
        let bytes = encode_request(&req);
        assert_eq!(decode_request(&bytes), Ok((req, bytes.len())));
    }
}

#[test]
fn response_round_trip() {
    for resp in [
        SetBreakpointsResp { set: vec![] },
        SetBreakpointsResp { set: vec![(0x400000, BreakpointInst([0x55]))] },
        SetBreakpointsResp {
            set: vec![(1, BreakpointInst([0])), (2, BreakpointInst([0xff])), (3, BreakpointInst([0xcc]))],
        },
    ] {
        let bytes = encode_response(&resp);
        assert_eq!(decode_response(&bytes), Ok((resp, bytes.len())));
    }
}

#[test]
fn truncated_messages_are_told() {
    let bytes = encode_objects(&vec![libc()]);
    for cut in 0..bytes.len() {
        assert_eq!(decode_objects(&bytes[..cut]), Err(WireError::Truncated), "cut at {}", cut);
    }
    let bytes = encode_request(&SetBreakpointsReq { breakpoints: vec![1, 2] });
    for cut in 0..bytes.len() {
        assert_eq!(decode_request(&bytes[..cut]), Err(WireError::Truncated));
    }
    let bytes = encode_response(&SetBreakpointsResp { set: vec![(1, BreakpointInst([2]))] });
    for cut in 0..bytes.len() {
        assert_eq!(decode_response(&bytes[..cut]), Err(WireError::Truncated));
    }
}

#[test]
fn a_path_that_is_not_utf8_is_told() {
    let mut bytes: Vec<u8> = Vec::new();
    bytes.extend_from_slice(&1u64.to_le_bytes());
    bytes.extend_from_slice(&7u32.to_le_bytes());
    bytes.extend_from_slice(&2u64.to_le_bytes());
    bytes.extend_from_slice(&[0xff, 0xfe]);
    bytes.extend_from_slice(&0u64.to_le_bytes());
    bytes.extend_from_slice(&0u64.to_le_bytes());
    assert_eq!(decode_objects(&bytes), Err(WireError::BadPath));
    let tuple: Result<Vec<(u32, String, u64, Vec<(u64, u64)>)>, _> = bincode::deserialize(&bytes);
    assert!(tuple.is_err());
}

#[test]
fn protocol_scenario() {
    // the agent reports, the controller reads the report
    let report = encode_objects(&vec![libc()]);
    let (objects, _) = decode_objects(&report).unwrap();
    assert_eq!(objects, vec![libc()]);
    // the controller sends an empty batch, the agent reads it and stops
    let request = encode_request(&SetBreakpointsReq::default());
    let (got, used) = decode_request(&request).unwrap();
    assert_eq!(used, 8);
    assert!(got.breakpoints.is_empty());
}
