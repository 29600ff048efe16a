//! The messages that the agent and the controller exchange.

use vstd::prelude::*;

verus! {

/// Name of the environment variable through which the controller hands the
/// agent the path of the rendezvous socket.
pub const SOCKET_ENV: &'static str = "RUSKCOV_INJECT_SOCK";

/// The trap opcode of x86, `int3`.
pub const BREAKPOINT_BYTE: u8 = 0xcc;

/// An object file loaded into a process, and where its code lies.
#[derive(Debug, Clone, PartialEq, Eq, PartialOrd, Ord, Hash)]
pub struct ObjectInfo {
    /// The process that holds the object.
    pub pid: u32,
    /// Where the object was loaded from.
    pub path: String,
    /// Load bias: what to add to a stated address to get the one at run time.
    pub addr: usize,
    /// The loadable code segments.
    pub phdrs: Vec<PHdr>,
}

/// One code segment of an object: its stated address and its size in memory.
#[derive(Debug, Copy, Clone, PartialEq, Eq, PartialOrd, Ord, Hash)]
pub struct PHdr {
    pub vaddr: usize,
    pub memsize: usize,
}

/// The instruction bytes that a breakpoint replaces: one byte on x86.
#[derive(Debug, Clone, Copy, PartialEq, Eq, PartialOrd, Ord, Hash)]
pub struct BreakpointInst(pub [u8; 1]);

/// A batch of addresses to patch. An empty batch ends the dialog.
#[derive(Debug, Clone, Default, PartialEq, Eq)]
pub struct SetBreakpointsReq {
    pub breakpoints: Vec<usize>,
}

/// For each patched address, the instruction bytes that stood there before.
#[derive(Debug, Clone, PartialEq, Eq)]
pub struct SetBreakpointsResp {
    pub set: Vec<(usize, BreakpointInst)>,
}

/// The mathematical content of an [`ObjectInfo`].
pub struct ObjectInfoView {
    pub pid: u32,
    pub path: Seq<char>,
    pub addr: usize,
    pub phdrs: Seq<PHdr>,
}

impl View for ObjectInfo {
    type V = ObjectInfoView;

    open spec fn view(&self) -> ObjectInfoView {
        ObjectInfoView { pid: self.pid, path: self.path@, addr: self.addr, phdrs: self.phdrs@ }
    }
}

impl View for BreakpointInst {
    type V = u8;

    open spec fn view(&self) -> u8 {
        self.0[0]
    }
}

impl View for SetBreakpointsReq {
    type V = Seq<usize>;

    open spec fn view(&self) -> Seq<usize> {
        self.breakpoints@
    }
}

impl View for SetBreakpointsResp {
    type V = Seq<(usize, u8)>;

    open spec fn view(&self) -> Seq<(usize, u8)> {
        replaced_views(self.set@)
    }
}

/// Address and replaced byte of each entry of a response.
pub open spec fn replaced_views(set: Seq<(usize, BreakpointInst)>) -> Seq<(usize, u8)> {
    set.map_values(|e: (usize, BreakpointInst)| (e.0, e.1@))
}

/// The views of a list of objects, in order.
pub open spec fn object_views(objects: Seq<ObjectInfo>) -> Seq<ObjectInfoView> {
    objects.map_values(|o: ObjectInfo| o@)
}

impl BreakpointInst {
    /// The instruction made of the single byte `byte`.
    pub fn new(byte: u8) -> (inst: BreakpointInst)
        ensures
            inst@ == byte,
    {
        BreakpointInst([byte])
    }

    /// The byte of the instruction.
    pub fn byte(&self) -> (byte: u8)
        ensures
            byte == self@,
    {
        self.0[0]
    }
}

/// The breakpoint instruction of x86.
pub fn breakpoint() -> (inst: BreakpointInst)
    ensures
        inst@ == BREAKPOINT_BYTE,
{
    BreakpointInst::new(BREAKPOINT_BYTE)
}

} // verus!
