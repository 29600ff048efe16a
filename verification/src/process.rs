//! Process model: the traced threads and processes, and for each address
//! space its code segments and the breakpoints set in it.

use crate::srcloc::{Location, LocationView};
use crate::types::SetBreakpointsResp;
use std::collections::{BTreeMap, HashMap};
use std::sync::Arc;
use vstd::prelude::*;

verus! {

broadcast use {vstd::std_specs::hash::group_hash_axioms, vstd::std_specs::btree::group_btree_axioms};

/// A code segment: how many bytes it spans from its base address.
#[derive(Debug, Clone)]
pub struct Segment {
    len: u64,
}

impl Segment {
    /// The number of bytes of the segment.
    pub fn len(&self) -> (len: u64)
        ensures
            len == self.spec_len(),
    {
        self.len
    }

    /// The number of bytes of the segment.
    pub closed spec fn spec_len(&self) -> u64 {
        self.len
    }
}

/// One address space: breakpoints by address, segments by base address.
#[derive(Debug, Clone)]
pub struct AddressSpace {
    /// Breakpoints by address
    breakpoints: HashMap<u64, Location>,
    /// Segment by address
    segments: BTreeMap<u64, Segment>,
}

/// The mathematical content of an [`AddressSpace`].
pub struct AddressSpaceView {
    /// What stands at each breakpoint address.
    pub breakpoints: Map<u64, LocationView>,
    /// The length of the segment at each base address.
    pub segments: Map<u64, u64>,
}

/// The map that holds each pair of the list; of two pairs with one key the
/// later one stays.
pub open spec fn collected<V>(pairs: Seq<(u64, V)>) -> Map<u64, V>
    decreases pairs.len(),
{
    if pairs.len() == 0 {
        Map::empty()
    } else {
        collected(pairs.drop_last()).insert(pairs.last().0, pairs.last().1)
    }
}

/// The breakpoints of a list with each location as its view.
pub open spec fn location_views(pairs: Seq<(u64, Location)>) -> Seq<(u64, LocationView)> {
    pairs.map_values(|p: (u64, Location)| (p.0, p.1@))
}

impl AddressSpaceView {
    /// Whether `addr` lies in the segment at `base`.
    pub open spec fn in_segment(self, base: u64, addr: u64) -> bool {
        self.segments.contains_key(base) && base <= addr < base + self.segments[base]
    }

    /// Whether no two segments share an address.
    pub open spec fn segments_apart(self) -> bool {
        forall|a: u64, b: u64, addr: u64|
            #![trigger self.in_segment(a, addr), self.in_segment(b, addr)]
            self.in_segment(a, addr) && self.in_segment(b, addr) ==> a == b
    }

    /// Whether every breakpoint lies in a segment.
    pub open spec fn breakpoints_in_code(self) -> bool {
        forall|addr: u64| #[trigger]
            self.breakpoints.contains_key(addr) ==> exists|base: u64| self.in_segment(base, addr)
    }

    /// The invariant of an address space: segments do not overlap, and every
    /// breakpoint lies in a segment, hence in exactly one.
    pub open spec fn wf(self) -> bool {
        self.segments_apart() && self.breakpoints_in_code()
    }
}

impl View for AddressSpace {
    type V = AddressSpaceView;

    closed spec fn view(&self) -> AddressSpaceView {
        AddressSpaceView {
            breakpoints: self.breakpoints@.map_values(|l: Location| l@),
            segments: self.segments@.map_values(|s: Segment| s.len),
        }
    }
}

impl AddressSpace {
    /// The address space with the given segments, as base and length, and the
    /// given breakpoints.
    pub fn new(segments: Vec<(u64, u64)>, breakpoints: Vec<(u64, Location)>) -> (space: AddressSpace)
        ensures
            space@.segments == collected(segments@),
            space@.breakpoints == collected(location_views(breakpoints@)),
    {
        let mut by_base: BTreeMap<u64, Segment> = BTreeMap::new();
        let mut i: usize = 0;
        assert(segments@.take(0) =~= Seq::<(u64, u64)>::empty());
        assert(by_base@.map_values(|s: Segment| s.len) =~= collected(segments@.take(0)));
        while i < segments.len()
            invariant
                i <= segments.len(),
                by_base@.map_values(|s: Segment| s.len) == collected(segments@.take(i as int)),
            decreases segments.len() - i,
        {
            let (base, len) = segments[i];
            let ghost before = by_base@;
            by_base.insert(base, Segment { len });
            proof {
                assert(segments@.take(i + 1).drop_last() =~= segments@.take(i as int));
                assert(by_base@.map_values(|s: Segment| s.len) =~= before.map_values(
                    |s: Segment| s.len,
                ).insert(base, len));
            }
            i += 1;
        }
        assert(segments@.take(i as int) =~= segments@);
        let mut by_addr: HashMap<u64, Location> = HashMap::new();
        let mut j: usize = 0;
        let ghost views = location_views(breakpoints@);
        assert(views.take(0) =~= Seq::<(u64, LocationView)>::empty());
        assert(by_addr@.map_values(|l: Location| l@) =~= collected(views.take(0)));
        while j < breakpoints.len()
            invariant
                j <= breakpoints.len(),
                views == location_views(breakpoints@),
                by_addr@.map_values(|l: Location| l@) == collected(views.take(j as int)),
            decreases breakpoints.len() - j,
        {
            let (addr, location) = breakpoints[j];
            let ghost before = by_addr@;
            by_addr.insert(addr, location);
            proof {
                assert(views.take(j + 1).drop_last() =~= views.take(j as int));
                assert(views[j as int] == (addr, location@));
                assert(by_addr@.map_values(|l: Location| l@) =~= before.map_values(
                    |l: Location| l@,
                ).insert(addr, location@));
            }
            j += 1;
        }
        assert(views.take(j as int) =~= views);
        AddressSpace { breakpoints: by_addr, segments: by_base }
    }

    /// Records a breakpoint at `addr`. In an address space that has its
    /// invariant, an address inside a segment keeps it.
    pub fn add_breakpoint(&mut self, addr: u64, location: Location)
        ensures
            final(self)@.segments == old(self)@.segments,
            final(self)@.breakpoints == old(self)@.breakpoints.insert(addr, location@),
            old(self)@.wf() && (exists|base: u64| old(self)@.in_segment(base, addr)) ==> final(self)@.wf(),
    {
        let ghost before = self.breakpoints@;
        let ghost space = self@;
        self.breakpoints.insert(addr, location);
        proof {
            assert(self.breakpoints@.map_values(|l: Location| l@) =~= before.map_values(
                |l: Location| l@,
            ).insert(addr, location@));
            if space.wf() && (exists|base: u64| space.in_segment(base, addr)) {
                let after = self@;
                assert forall|a: u64, b: u64, at: u64|
                    #![trigger after.in_segment(a, at), after.in_segment(b, at)]
                    after.in_segment(a, at) && after.in_segment(b, at) implies a == b by {
                    assert(space.in_segment(a, at) && space.in_segment(b, at));
                }
                assert forall|at: u64| #[trigger] after.breakpoints.contains_key(at) implies exists|
                    base: u64,
                | after.in_segment(base, at) by {
                    if at == addr {
                        let base = choose|base: u64| space.in_segment(base, addr);
                        assert(after.in_segment(base, at));
                    } else {
                        assert(space.breakpoints.contains_key(at));
                        let base = choose|base: u64| space.in_segment(base, at);
                        assert(after.in_segment(base, at));
                    }
                }
            }
        }
    }

    /// Forgets the breakpoint at `addr`, and hands back what stood there.
    pub fn remove_breakpoint(&mut self, addr: u64) -> (removed: Option<Location>)
        ensures
            final(self)@.segments == old(self)@.segments,
            final(self)@.breakpoints == old(self)@.breakpoints.remove(addr),
            match removed {
                Some(location) => old(self)@.breakpoints.contains_key(addr) && old(self)@.breakpoints[addr] == location@,
                None => !old(self)@.breakpoints.contains_key(addr),
            },
            old(self)@.wf() ==> final(self)@.wf(),
    {
        let ghost before = self.breakpoints@;
        let ghost space = self@;
        let removed = self.breakpoints.remove(&addr);
        proof {
            assert(self.breakpoints@.map_values(|l: Location| l@) =~= before.map_values(
                |l: Location| l@,
            ).remove(addr));
            if space.wf() {
                let after = self@;
                assert forall|a: u64, b: u64, at: u64|
                    #![trigger after.in_segment(a, at), after.in_segment(b, at)]
                    after.in_segment(a, at) && after.in_segment(b, at) implies a == b by {
                    assert(space.in_segment(a, at) && space.in_segment(b, at));
                }
                assert forall|at: u64| #[trigger] after.breakpoints.contains_key(at) implies exists|
                    base: u64,
                | after.in_segment(base, at) by {
                    assert(space.breakpoints.contains_key(at));
                    let base = choose|base: u64| space.in_segment(base, at);
                    assert(after.in_segment(base, at));
                }
            }
        }
        removed
    }

    /// What stands at the breakpoint at `addr`, if there is one.
    pub fn breakpoint(&self, addr: u64) -> (found: Option<Location>)
        ensures
            match found {
                Some(location) => self@.breakpoints.contains_key(addr) && self@.breakpoints[addr]
                    == location@,
                None => !self@.breakpoints.contains_key(addr),
            },
    {
        match self.breakpoints.get(&addr) {
            Some(location) => Some(*location),
            None => None,
        }
    }

    /// The length of the segment whose base address is `base`, if there is one.
    pub fn segment(&self, base: u64) -> (found: Option<u64>)
        ensures
            match found {
                Some(len) => self@.segments.contains_key(base) && self@.segments[base] == len,
                None => !self@.segments.contains_key(base),
            },
    {
        match self.segments.get(&base) {
            Some(segment) => Some(segment.len),
            None => None,
        }
    }
}

/// The breakpoints once an agent's response is taken in: each breakpoint at an
/// address of the response has the byte that was replaced there; where an
/// address comes twice the later byte stays; addresses without a breakpoint
/// are passed over.
pub open spec fn recorded(breakpoints: Map<u64, LocationView>, set: Seq<(usize, u8)>) -> Map<
    u64,
    LocationView,
>
    decreases set.len(),
{
    if set.len() == 0 {
        breakpoints
    } else {
        let before = recorded(breakpoints, set.drop_last());
        let addr = set.last().0 as u64;
        if before.contains_key(addr) {
            before.insert(addr, LocationView { replaced: Some(set.last().1), ..before[addr] })
        } else {
            before
        }
    }
}

impl AddressSpace {
    /// Takes in the response of an agent: records with each breakpoint the
    /// byte that its trap instruction replaced.
    pub fn record_replaced(&mut self, response: &SetBreakpointsResp)
        ensures
            final(self)@.segments == old(self)@.segments,
            final(self)@.breakpoints == recorded(old(self)@.breakpoints, response@),
    {
        let ghost start = self@.breakpoints;
        let mut i: usize = 0;
        assert(response@.take(0) =~= Seq::<(usize, u8)>::empty());
        while i < response.set.len()
            invariant
                i <= response.set.len(),
                self@.segments == old(self)@.segments,
                self@.breakpoints == recorded(start, response@.take(i as int)),
            decreases response.set.len() - i,
        {
            let (addr, inst) = response.set[i];
            proof {
                assert(response@.take(i + 1).drop_last() =~= response@.take(i as int));
                assert(response@.take(i + 1).last() == (addr, inst@));
            }
            match self.breakpoint(addr as u64) {
                Some(location) => {
                    self.add_breakpoint(addr as u64, location.with_replaced(inst));
                },
                None => {},
            }
            i += 1;
        }
        assert(response@.take(i as int) =~= response@);
    }
}

impl AddressSpace {
    /// The base address of a segment that holds `addr`, if there is one.
    pub fn segment_holding(&self, addr: u64) -> (found: Option<u64>)
        ensures
            match found {
                Some(base) => self@.in_segment(base, addr),
                None => forall|base: u64| !self@.in_segment(base, addr),
            },
    {
        for pair in it: self.segments.iter()
            invariant
                forall|k: int|
                    0 <= k < it.index() ==> !(*(#[trigger] it.seq()[k]).0 <= addr && addr - *it.seq()[k].0
                        < it.seq()[k].1.len),
        {
            let (base, segment) = pair;
            if *base <= addr && addr - *base < segment.len {
                assert(self@.in_segment(*base, addr));
                return Some(*base);
            }
        }
        assert forall|base: u64| !self@.in_segment(base, addr) by {
            if self@.in_segment(base, addr) {
                assert(self.segments@.contains_key(base));
            }
        }
        None
    }

    /// Records a breakpoint at `addr` if the address lies in a segment, and
    /// says whether it did. An address space that has its invariant keeps it.
    pub fn try_add_breakpoint(&mut self, addr: u64, location: Location) -> (added: bool)
        ensures
            added == (exists|base: u64| old(self)@.in_segment(base, addr)),
            final(self)@.segments == old(self)@.segments,
            final(self)@.breakpoints == if added {
                old(self)@.breakpoints.insert(addr, location@)
            } else {
                old(self)@.breakpoints
            },
            old(self)@.wf() ==> final(self)@.wf(),
    {
        match self.segment_holding(addr) {
            Some(base) => {
                assert(self@.in_segment(base, addr));
                self.add_breakpoint(addr, location);
                true
            },
            None => false,
        }
    }
}

/// Whether two segments of a list, given as base and length, share no
/// address and do not start at the same address.
pub open spec fn segments_differ(a: (u64, u64), b: (u64, u64)) -> bool {
    a.0 != b.0 && (a.0 + a.1 <= b.0 || b.0 + b.1 <= a.0)
}

/// Whether no two segments of a list share an address or a base.
pub open spec fn list_apart(segments: Seq<(u64, u64)>) -> bool {
    forall|i: int, j: int|
        0 <= i < j < segments.len() ==> segments_differ(#[trigger] segments[i], #[trigger] segments[j])
}

/// Whether `addr` lies in a segment of the address space.
pub open spec fn in_code(space: AddressSpaceView, addr: u64) -> bool {
    exists|base: u64| space.in_segment(base, addr)
}

/// Whether every breakpoint of a list lies in a segment.
pub open spec fn list_in_code(space: AddressSpaceView, breakpoints: Seq<(u64, Location)>) -> bool {
    forall|k: int| 0 <= k < breakpoints.len() ==> in_code(space, #[trigger] breakpoints[k].0)
}

/// What a list with distinct keys collects to: it holds each pair, and
/// nothing else.
pub proof fn lemma_collected<V>(pairs: Seq<(u64, V)>)
    ensures
        forall|k: u64| #[trigger]
            collected(pairs).contains_key(k) ==> exists|i: int|
                0 <= i < pairs.len() && pairs[i].0 == k && collected(pairs)[k] == pairs[i].1,
        forall|i: int| 0 <= i < pairs.len() ==> collected(pairs).contains_key(#[trigger] pairs[i].0),
    decreases pairs.len(),
{
    if pairs.len() > 0 {
        let shorter = pairs.drop_last();
        lemma_collected(shorter);
        assert forall|k: u64| #[trigger] collected(pairs).contains_key(k) implies exists|i: int|
            0 <= i < pairs.len() && pairs[i].0 == k && collected(pairs)[k] == pairs[i].1 by {
            if k == pairs.last().0 {
                let i = pairs.len() - 1;
                assert(pairs[i].0 == k && collected(pairs)[k] == pairs[i].1);
            } else {
                assert(collected(shorter).contains_key(k));
                let i = choose|i: int|
                    0 <= i < shorter.len() && shorter[i].0 == k && collected(shorter)[k]
                        == shorter[i].1;
                assert(pairs[i].0 == k && collected(pairs)[k] == pairs[i].1);
            }
        }
        assert forall|i: int| 0 <= i < pairs.len() implies collected(pairs).contains_key(
            #[trigger] pairs[i].0,
        ) by {
            if i < shorter.len() {
                assert(shorter[i] == pairs[i]);
                assert(collected(shorter).contains_key(shorter[i].0));
            }
        }
    }
}

/// Segments collected from a list in which no two share an address or a base
/// share no address.
pub proof fn lemma_apart_list(list: Seq<(u64, u64)>, breakpoints: Map<u64, LocationView>)
    requires
        list_apart(list),
    ensures
        (AddressSpaceView { breakpoints, segments: collected(list) }).segments_apart(),
{
    let view = AddressSpaceView { breakpoints, segments: collected(list) };
    lemma_collected(list);
    assert forall|a: u64, b: u64, at: u64|
        #![trigger view.in_segment(a, at), view.in_segment(b, at)]
        view.in_segment(a, at) && view.in_segment(b, at) implies a == b by {
        assert(collected(list).contains_key(a));
        assert(collected(list).contains_key(b));
        let i = choose|i: int| 0 <= i < list.len() && list[i].0 == a && collected(list)[a] == list[i].1;
        let j = choose|j: int| 0 <= j < list.len() && list[j].0 == b && collected(list)[b] == list[j].1;
        if i < j {
            assert(segments_differ(list[i], list[j]));
        } else if j < i {
            assert(segments_differ(list[j], list[i]));
        }
    }
}

fn check_apart(segments: &Vec<(u64, u64)>) -> (apart: bool)
    ensures
        apart == list_apart(segments@),
{
    let mut j: usize = 0;
    while j < segments.len()
        invariant
            j <= segments.len(),
            forall|a: int, b: int|
                0 <= a < b < j ==> segments_differ(#[trigger] segments@[a], #[trigger] segments@[b]),
        decreases segments.len() - j,
    {
        let (base, len) = segments[j];
        let mut i: usize = 0;
        while i < j
            invariant
                i <= j < segments.len(),
                (base, len) == segments@[j as int],
                forall|a: int| 0 <= a < i ==> segments_differ(#[trigger] segments@[a], segments@[j as int]),
            decreases j - i,
        {
            let (other, other_len) = segments[i];
            let differ = other != base && (other as u128 + other_len as u128 <= base as u128
                || base as u128 + len as u128 <= other as u128);
            if !differ {
                assert(!segments_differ(segments@[i as int], segments@[j as int]));
                return false;
            }
            i += 1;
        }
        j += 1;
    }
    true
}

impl AddressSpace {
    /// The address space with the given segments and breakpoints, if they
    /// make one that has its invariant: no two segments share an address or a
    /// base, and every breakpoint lies in a segment.
    pub fn checked(segments: Vec<(u64, u64)>, breakpoints: Vec<(u64, Location)>) -> (space: Option<
        AddressSpace,
    >)
        ensures
            match space {
                Some(space) => {
                    &&& space@.wf()
                    &&& list_apart(segments@)
                    &&& space@.segments == collected(segments@)
                    &&& space@.breakpoints == collected(location_views(breakpoints@))
                    &&& list_in_code(space@, breakpoints@)
                },
                None => !list_apart(segments@) || !list_in_code(
                    AddressSpaceView { breakpoints: Map::empty(), segments: collected(segments@) },
                    breakpoints@,
                ),
            },
    {
        if !check_apart(&segments) {
            return None;
        }
        let ghost list = segments@;
        let mut space = AddressSpace::new(segments, Vec::new());
        proof {
            assert(location_views(Seq::<(u64, Location)>::empty()) =~= Seq::<
                (u64, LocationView),
            >::empty());
            let view = space@;
            lemma_apart_list(list, view.breakpoints);
            assert(view == (AddressSpaceView {
                breakpoints: view.breakpoints,
                segments: collected(list),
            }));
            assert(view.wf());
        }
        let ghost views = location_views(breakpoints@);
        let ghost empty = space@;
        let mut k: usize = 0;
        assert(views.take(0) =~= Seq::<(u64, LocationView)>::empty());
        while k < breakpoints.len()
            invariant
                k <= breakpoints.len(),
                views == location_views(breakpoints@),
                list == segments@,
                list_apart(list),
                space@.wf(),
                space@.segments == collected(list),
                empty.segments == collected(list),
                space@.breakpoints == collected(views.take(k as int)),
                forall|m: int| 0 <= m < k ==> in_code(empty, #[trigger] breakpoints@[m].0),
            decreases breakpoints.len() - k,
        {
            let (addr, location) = breakpoints[k];
            proof {
                assert(views.take(k + 1).drop_last() =~= views.take(k as int));
                assert(views[k as int] == (addr, location@));
            }
            let ghost before = space@;
            if !space.try_add_breakpoint(addr, location) {
                proof {
                    let bare = AddressSpaceView {
                        breakpoints: Map::empty(),
                        segments: collected(list),
                    };
                    assert forall|base: u64| !bare.in_segment(base, addr) by {
                        assert(bare.in_segment(base, addr) == before.in_segment(base, addr));
                    }
                    assert(breakpoints@[k as int].0 == addr);
                    assert(!in_code(bare, breakpoints@[k as int].0));
                }
                return None;
            }
            proof {
                let base = choose|base: u64| before.in_segment(base, addr);
                assert(breakpoints@[k as int].0 == addr);
                assert(empty.in_segment(base, breakpoints@[k as int].0));
                assert(in_code(empty, breakpoints@[k as int].0));
            }
            k += 1;
        }
        proof {
            assert(views.take(k as int) =~= views);
            let view = space@;
            assert forall|m: int| 0 <= m < breakpoints@.len() implies in_code(
                view,
                #[trigger] breakpoints@[m].0,
            ) by {
                assert(in_code(empty, breakpoints@[m].0));
                let base = choose|base: u64| empty.in_segment(base, breakpoints@[m].0);
                assert(view.in_segment(base, breakpoints@[m].0));
            }
            assert(list_in_code(view, breakpoints@));
        }
        Some(space)
    }
}

/// Where a traced thread or process stands in its life.
#[derive(Debug, Clone, Copy, PartialEq, Eq, Structural)]
pub enum ProcessState {
    /// Newly created; sole owner of address space (ie, main thread)
    New,
    /// Running
    Running,
    /// Stopped by ptrace event
    Stopped,
    /// Exiting
    Exiting,
}

/// Model both processes and threads. The only distinction is that threads
/// share an address space.
#[derive(Debug)]
pub struct Process {
    pid: i32,
    state: ProcessState,
    addrspace: Arc<AddressSpace>,
}

/// The mathematical content of a [`Process`].
pub struct ProcessView {
    pub pid: i32,
    pub state: ProcessState,
    pub space: AddressSpaceView,
}

impl View for Process {
    type V = ProcessView;

    closed spec fn view(&self) -> ProcessView {
        ProcessView { pid: self.pid, state: self.state, space: (*self.addrspace)@ }
    }
}

/// `Arc::clone`: another handle on the same value.
#[verifier::external_body]
pub(crate) fn share<T>(handle: &Arc<T>) -> (shared: Arc<T>)
    ensures
        shared == *handle,
{
    Arc::clone(handle)
}

impl Process {
    /// A new process with its own address space, made of the given segments,
    /// as base and length, and the given breakpoints.
    pub fn new(pid: i32, segments: Vec<(u64, u64)>, breakpoints: Vec<(u64, Location)>) -> (process:
        Process)
        ensures
            process@.pid == pid,
            process@.state == ProcessState::New,
            process@.space.segments == collected(segments@),
            process@.space.breakpoints == collected(location_views(breakpoints@)),
    {
        Process {
            pid,
            state: ProcessState::New,
            addrspace: Arc::new(AddressSpace::new(segments, breakpoints)),
        }
    }

    /// A new thread of this process: it runs, and shares the address space.
    pub fn new_thread(&self, pid: i32) -> (thread: Process)
        ensures
            thread@ == (ProcessView { pid, state: ProcessState::Running, space: self@.space }),
    {
        Process { pid, state: ProcessState::Running, addrspace: share(&self.addrspace) }
    }

    /// A new process forked from this one: it runs, in an address space of its
    /// own that starts out equal to this one.
    pub fn fork_process(&self, pid: i32) -> (child: Process)
        ensures
            child@ == (ProcessView { pid, state: ProcessState::Running, space: self@.space }),
    {
        let copy = AddressSpace {
            breakpoints: self.addrspace.breakpoints.clone(),
            segments: self.addrspace.segments.clone(),
        };
        assert(copy@ == (*self.addrspace)@);
        Process { pid, state: ProcessState::Running, addrspace: Arc::new(copy) }
    }

    /// The process has replaced its program: its address space gives way to
    /// one with the given segments and no breakpoints.
    pub fn exec(&mut self, segments: Vec<(u64, u64)>)
        ensures
            final(self)@.pid == old(self)@.pid,
            final(self)@.state == old(self)@.state,
            final(self)@.space.segments == collected(segments@),
            final(self)@.space.breakpoints == Map::<u64, LocationView>::empty(),
    {
        let space = AddressSpace::new(segments, Vec::new());
        proof {
            assert(location_views(Seq::<(u64, Location)>::empty()) =~= Seq::<
                (u64, LocationView),
            >::empty());
        }
        self.addrspace = Arc::new(space);
    }

    /// The kernel's id of the thread or process.
    pub fn pid(&self) -> (pid: i32)
        ensures
            pid == self@.pid,
    {
        self.pid
    }

    /// Where the process stands in its life.
    pub fn state(&self) -> (state: ProcessState)
        ensures
            state == self@.state,
    {
        self.state
    }

    /// The address space of the process.
    pub fn space(&self) -> (space: &AddressSpace)
        ensures
            space@ == self@.space,
    {
        &*self.addrspace
    }

    /// Moves the process to `state`.
    pub fn set_state(&mut self, state: ProcessState)
        ensures
            final(self)@ == (ProcessView { state, ..old(self)@ }),
    {
        self.state = state;
    }
}

impl Clone for Process {
    /// A copy of the process: it has the same id and state, and shares the
    /// address space.
    fn clone(&self) -> (copy: Self)
        ensures
            copy@ == self@,
    {
        Process { pid: self.pid, state: self.state, addrspace: share(&self.addrspace) }
    }
}

} // verus!
