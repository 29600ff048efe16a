//! The registers of a stopped tracee, for 32-bit and 64-bit x86 processes.

use vstd::bytes::{spec_u32_from_le_bytes, spec_u64_from_le_bytes, u32_from_le_bytes, u64_from_le_bytes};
use vstd::prelude::*;
use vstd::slice::slice_subrange;

verus! {

/// A register that does not exist: a type without values.
#[derive(Debug, Copy, Clone, Eq, PartialEq, Ord, PartialOrd, Hash)]
pub enum VoidReg {
    /// The one variant holds a value that cannot be made.
    Never(core::convert::Infallible),
}

/// The general registers of a 64-bit process, in the order in which the
/// kernel hands them out.
#[derive(Debug, Copy, Clone, Eq, PartialEq, Ord, PartialOrd, Hash)]
pub struct RegsX86_64 {
    pub r15: u64,
    pub r14: u64,
    pub r13: u64,
    pub r12: u64,
    pub rbp: u64,
    pub rbx: u64,
    pub r11: u64,
    pub r10: u64,
    pub r9: u64,
    pub r8: u64,
    pub rax: u64,
    pub rcx: u64,
    pub rdx: u64,
    pub rsi: u64,
    pub rdi: u64,
    pub orig_rax: u64,
    pub rip: u64,
    pub cs: u64,
    pub eflags: u64,
    pub rsp: u64,
    pub ss: u64,
    pub fs_base: u64,
    pub gs_base: u64,
    pub ds: u64,
    pub es: u64,
    pub fs: u64,
    pub gs: u64,
}

/// The general registers of a 32-bit process, in the order in which the
/// kernel hands them out.
#[derive(Debug, Copy, Clone, Eq, PartialEq, Ord, PartialOrd, Hash)]
pub struct RegsI386 {
    pub ebx: u32,
    pub ecx: u32,
    pub edx: u32,
    pub esi: u32,
    pub edi: u32,
    pub ebp: u32,
    pub eax: u32,
    pub xds: u32,
    pub xes: u32,
    pub xfs: u32,
    pub xgs: u32,
    pub orig_eax: u32,
    pub eip: u32,
    pub xcs: u32,
    pub eflags: u32,
    pub esp: u32,
    pub xss: u32,
}

/// The registers of a tracee: which of the two sets the kernel gave depends on
/// whether the tracee is a 32-bit or a 64-bit process.
#[derive(Debug, Copy, Clone, Eq, PartialEq)]
pub enum UserRegs {
    X86_64(RegsX86_64),
    I386(RegsI386),
}

/// The size in bytes of the register set of a 32-bit process.
pub const I386_SIZE: usize = 68;

/// The size in bytes of the register set of a 64-bit process.
pub const X86_64_SIZE: usize = 216;

/// The 32-bit register number `n` of a register set.
pub open spec fn reg32(bytes: Seq<u8>, n: int) -> u32 {
    spec_u32_from_le_bytes(bytes.subrange(4 * n, 4 * n + 4))
}

/// The 64-bit register number `n` of a register set.
pub open spec fn reg64(bytes: Seq<u8>, n: int) -> u64 {
    spec_u64_from_le_bytes(bytes.subrange(8 * n, 8 * n + 8))
}

/// The registers of a 32-bit process that the bytes hold.
pub open spec fn regs_i386(bytes: Seq<u8>) -> RegsI386 {
    RegsI386 {
        ebx: reg32(bytes, 0),
        ecx: reg32(bytes, 1),
        edx: reg32(bytes, 2),
        esi: reg32(bytes, 3),
        edi: reg32(bytes, 4),
        ebp: reg32(bytes, 5),
        eax: reg32(bytes, 6),
        xds: reg32(bytes, 7),
        xes: reg32(bytes, 8),
        xfs: reg32(bytes, 9),
        xgs: reg32(bytes, 10),
        orig_eax: reg32(bytes, 11),
        eip: reg32(bytes, 12),
        xcs: reg32(bytes, 13),
        eflags: reg32(bytes, 14),
        esp: reg32(bytes, 15),
        xss: reg32(bytes, 16),
    }
}

/// The registers of a 64-bit process that the bytes hold.
pub open spec fn regs_x86_64(bytes: Seq<u8>) -> RegsX86_64 {
    RegsX86_64 {
        r15: reg64(bytes, 0),
        r14: reg64(bytes, 1),
        r13: reg64(bytes, 2),
        r12: reg64(bytes, 3),
        rbp: reg64(bytes, 4),
        rbx: reg64(bytes, 5),
        r11: reg64(bytes, 6),
        r10: reg64(bytes, 7),
        r9: reg64(bytes, 8),
        r8: reg64(bytes, 9),
        rax: reg64(bytes, 10),
        rcx: reg64(bytes, 11),
        rdx: reg64(bytes, 12),
        rsi: reg64(bytes, 13),
        rdi: reg64(bytes, 14),
        orig_rax: reg64(bytes, 15),
        rip: reg64(bytes, 16),
        cs: reg64(bytes, 17),
        eflags: reg64(bytes, 18),
        rsp: reg64(bytes, 19),
        ss: reg64(bytes, 20),
        fs_base: reg64(bytes, 21),
        gs_base: reg64(bytes, 22),
        ds: reg64(bytes, 23),
        es: reg64(bytes, 24),
        fs: reg64(bytes, 25),
        gs: reg64(bytes, 26),
    }
}

fn read32(bytes: &[u8], n: usize) -> (value: u32)
    requires
        n < 64,
        4 * n + 4 <= bytes@.len(),
    ensures
        value == reg32(bytes@, n as int),
{
    u32_from_le_bytes(slice_subrange(bytes, 4 * n, 4 * n + 4))
}

fn read64(bytes: &[u8], n: usize) -> (value: u64)
    requires
        n < 64,
        8 * n + 8 <= bytes@.len(),
    ensures
        value == reg64(bytes@, n as int),
{
    u64_from_le_bytes(slice_subrange(bytes, 8 * n, 8 * n + 8))
}

impl UserRegs {
    /// The registers that a register set of the kernel holds. Its size tells
    /// the two kinds of process apart; a set of any other size is neither.
    pub fn from_regset(bytes: &[u8]) -> (regs: Option<UserRegs>)
        ensures
            regs == if bytes@.len() == I386_SIZE {
                Some(UserRegs::I386(regs_i386(bytes@)))
            } else if bytes@.len() == X86_64_SIZE {
                Some(UserRegs::X86_64(regs_x86_64(bytes@)))
            } else {
                None
            },
    {
        if bytes.len() == I386_SIZE {
            Some(
                UserRegs::I386(
                    RegsI386 {
                        ebx: read32(bytes, 0),
                        ecx: read32(bytes, 1),
                        edx: read32(bytes, 2),
                        esi: read32(bytes, 3),
                        edi: read32(bytes, 4),
                        ebp: read32(bytes, 5),
                        eax: read32(bytes, 6),
                        xds: read32(bytes, 7),
                        xes: read32(bytes, 8),
                        xfs: read32(bytes, 9),
                        xgs: read32(bytes, 10),
                        orig_eax: read32(bytes, 11),
                        eip: read32(bytes, 12),
                        xcs: read32(bytes, 13),
                        eflags: read32(bytes, 14),
                        esp: read32(bytes, 15),
                        xss: read32(bytes, 16),
                    },
                ),
            )
        } else if bytes.len() == X86_64_SIZE {
            Some(
                UserRegs::X86_64(
                    RegsX86_64 {
                        r15: read64(bytes, 0),
                        r14: read64(bytes, 1),
                        r13: read64(bytes, 2),
                        r12: read64(bytes, 3),
                        rbp: read64(bytes, 4),
                        rbx: read64(bytes, 5),
                        r11: read64(bytes, 6),
                        r10: read64(bytes, 7),
                        r9: read64(bytes, 8),
                        r8: read64(bytes, 9),
                        rax: read64(bytes, 10),
                        rcx: read64(bytes, 11),
                        rdx: read64(bytes, 12),
                        rsi: read64(bytes, 13),
                        rdi: read64(bytes, 14),
                        orig_rax: read64(bytes, 15),
                        rip: read64(bytes, 16),
                        cs: read64(bytes, 17),
                        eflags: read64(bytes, 18),
                        rsp: read64(bytes, 19),
                        ss: read64(bytes, 20),
                        fs_base: read64(bytes, 21),
                        gs_base: read64(bytes, 22),
                        ds: read64(bytes, 23),
                        es: read64(bytes, 24),
                        fs: read64(bytes, 25),
                        gs: read64(bytes, 26),
                    },
                ),
            )
        } else {
            None
        }
    }

    /// The instruction pointer.
    pub fn ip(&self) -> (ip: u64)
        ensures
            ip == match *self {
                UserRegs::I386(regs) => regs.eip as u64,
                UserRegs::X86_64(regs) => regs.rip,
            },
    {
        match self {
            UserRegs::I386(regs) => regs.eip as u64,
            UserRegs::X86_64(regs) => regs.rip,
        }
    }
}

} // verus!
