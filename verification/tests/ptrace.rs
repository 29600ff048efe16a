use ruskcov::mapped_slice::MappedSlice;
use ruskcov::ptrace::{RegsI386, RegsX86_64, UserRegs, I386_SIZE, X86_64_SIZE};

#[test]
fn sizes_are_those_of_the_kernel() {
    assert_eq!(I386_SIZE, std::mem::size_of::<RegsI386>());
    assert_eq!(X86_64_SIZE, std::mem::size_of::<RegsX86_64>());
    assert_eq!(I386_SIZE, 17 * 4);
    assert_eq!(X86_64_SIZE, 27 * 8);
}

#[test]
fn a_32_bit_register_set() {
    let mut bytes = Vec::new();
    for n in 0..17u32 {
        bytes.extend_from_slice(&(0x1000_0000 + n).to_le_bytes());
    }
    let regs = UserRegs::from_regset(&bytes).unwrap();
    match regs {
        UserRegs::I386(regs) => {
            assert_eq!(regs.ebx, 0x1000_0000);
            assert_eq!(regs.eax, 0x1000_0006);
            assert_eq!(regs.eip, 0x1000_000c);
            assert_eq!(regs.esp, 0x1000_000f);
            assert_eq!(regs.xss, 0x1000_0010);
        }
        UserRegs::X86_64(_) => panic!("a 32-bit set was taken for a 64-bit one"),
    }
    assert_eq!(regs.ip(), 0x1000_000c);
}

#[test]
fn a_64_bit_register_set() {
    let mut bytes = Vec::new();
    for n in 0..27u64 {
        bytes.extend_from_slice(&(0x7fff_0000_0000_0000 + n).to_le_bytes());
    }
    let regs = UserRegs::from_regset(&bytes).unwrap();
    match regs {
        UserRegs::X86_64(regs) => {
            assert_eq!(regs.r15, 0x7fff_0000_0000_0000);
            assert_eq!(regs.rax, 0x7fff_0000_0000_000a);
            assert_eq!(regs.rip, 0x7fff_0000_0000_0010);
            assert_eq!(regs.rsp, 0x7fff_0000_0000_0013);
            assert_eq!(regs.gs, 0x7fff_0000_0000_001a);
        }
        UserRegs::I386(_) => panic!("a 64-bit set was taken for a 32-bit one"),
    }
    assert_eq!(regs.ip(), 0x7fff_0000_0000_0010);
}

#[test]
fn a_set_of_another_size_is_neither() {
    assert_eq!(UserRegs::from_regset(&[]), None);
    assert_eq!(UserRegs::from_regset(&[0u8; 67]), None);
    assert_eq!(UserRegs::from_regset(&[0u8; 69]), None);
    assert_eq!(UserRegs::from_regset(&[0u8; 215]), None);
    assert_eq!(UserRegs::from_regset(&[0u8; 217]), None);
}

fn mapping(len: usize) -> memmap::Mmap {
    let mut map = memmap::MmapMut::map_anon(len).unwrap();
    for i in 0..len {
        map[i] = (i % 256) as u8;
    }
    map.make_read_only().unwrap()
}

#[test]
fn mapped_slice_spans_the_mapping() {
    let slice = MappedSlice::new(mapping(1000));
    assert_eq!(slice.len(), 1000);
    assert_eq!(slice.bytes().len(), 1000);
    assert_eq!(slice.bytes()[999], (999 % 256) as u8);
}

#[test]
fn subslices_share_the_mapping() {
    let slice = MappedSlice::new(mapping(1000));
    let sub = slice.subslice(100, 300);
    assert_eq!(sub.len(), 200);
    assert_eq!(sub.bytes()[0], 100);
    let inner = sub.subslice(50, 60);
    assert_eq!(inner.len(), 10);
    assert_eq!(inner.bytes(), &[150, 151, 152, 153, 154, 155, 156, 157, 158, 159]);
    drop(slice);
    drop(sub);
    // the mapping lives as long as a slice of it
    assert_eq!(inner.bytes()[9], 159);
    assert_eq!(inner.subslice(10, 10).len(), 0);
    assert_eq!(inner.subslice(0, 0).len(), 0);
    let copy = inner.clone();
    assert_eq!(copy.bytes(), inner.bytes());
}

#[test]
fn subslice_within_bounds_only() {
    let slice = MappedSlice::new(mapping(100));
    assert!(slice.checked_subslice(0, 100).is_some());
    assert!(slice.checked_subslice(100, 100).is_some());
    assert!(slice.checked_subslice(0, 101).is_none());
    assert!(slice.checked_subslice(60, 50).is_none());
    let sub = slice.subslice(10, 20);
    assert!(sub.checked_subslice(0, 11).is_none());
    assert_eq!(sub.checked_subslice(2, 4).unwrap().bytes(), &[12, 13]);
}

#[test]
fn section_of_a_mapped_object() {
    let slice = MappedSlice::new(mapping(100));
    assert_eq!(slice.section(Some((10, 5))).bytes(), &[10, 11, 12, 13, 14]);
    assert_eq!(slice.section(Some((95, 5))).len(), 5);
    assert_eq!(slice.section(Some((96, 5))).len(), 0);
    assert_eq!(slice.section(Some((u64::MAX, 2))).len(), 0);
    assert_eq!(slice.section(Some((2, u64::MAX))).len(), 0);
    assert_eq!(slice.section(None).len(), 0);
}
