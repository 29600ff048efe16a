//! What the agent computes inside the traced process: which code segments to
//! report, what to do with a request, and how a batch of breakpoints changes
//! memory.

use crate::span::{ascending, cover, covering, page_end_fits, sorted, span_addrs, span_views, Span};
use crate::span::{
    law_sorted_ascends, law_spans_keep_addresses, lemma_span_addrs_holds, lemma_span_addrs_push,
};
use crate::types::{
    breakpoint, replaced_views, BreakpointInst, ObjectInfo, ObjectInfoView, PHdr, SetBreakpointsReq,
    SetBreakpointsResp,
};
use crate::wire::{
    decode_request, enc_response, encode_response, parse_request, WireError,
};
use vstd::prelude::*;

verus! {

/// Whether `addr` is the address of a byte of a buffer of `len` bytes whose
/// first byte has the address `base`.
pub open spec fn in_buffer(base: int, len: int, addr: usize) -> bool {
    base <= addr < base + len
}

/// Whether every address is that of a byte of the buffer.
pub open spec fn all_in_buffer(base: int, len: int, addrs: Seq<usize>) -> bool {
    forall|i: int| 0 <= i < addrs.len() ==> in_buffer(base, len, #[trigger] addrs[i])
}

/// Memory after the breakpoint byte was written at each address in turn.
pub open spec fn patched(mem: Seq<u8>, base: int, addrs: Seq<usize>) -> Seq<u8>
    decreases addrs.len(),
{
    if addrs.len() == 0 {
        mem
    } else {
        patched(mem, base, addrs.drop_last()).update(addrs.last() - base, 0xccu8)
    }
}

/// For each address in turn, the address and the byte found there at the
/// moment it was patched.
pub open spec fn replaced(mem: Seq<u8>, base: int, addrs: Seq<usize>) -> Seq<(usize, u8)>
    decreases addrs.len(),
{
    if addrs.len() == 0 {
        Seq::empty()
    } else {
        replaced(mem, base, addrs.drop_last()).push(
            (addrs.last(), patched(mem, base, addrs.drop_last())[addrs.last() - base]),
        )
    }
}

/// Memory after each recorded byte was written back to its address, in the
/// order of the record.
pub open spec fn written_back(mem: Seq<u8>, base: int, set: Seq<(usize, u8)>) -> Seq<u8>
    decreases set.len(),
{
    if set.len() == 0 {
        mem
    } else {
        written_back(mem, base, set.drop_last()).update(set.last().0 - base, set.last().1)
    }
}

/// Whether no address occurs twice.
pub open spec fn distinct(addrs: Seq<usize>) -> bool {
    forall|i: int, j: int| 0 <= i < j < addrs.len() ==> addrs[i] != addrs[j]
}

/// Patching keeps the length of memory.
pub proof fn lemma_patched_len(mem: Seq<u8>, base: int, addrs: Seq<usize>)
    requires
        all_in_buffer(base, mem.len() as int, addrs),
    ensures
        patched(mem, base, addrs).len() == mem.len(),
        replaced(mem, base, addrs).len() == addrs.len(),
    decreases addrs.len(),
{
    if addrs.len() > 0 {
        assert(in_buffer(base, mem.len() as int, addrs[addrs.len() - 1]));
        assert forall|i: int| 0 <= i < addrs.drop_last().len() implies in_buffer(
            base,
            mem.len() as int,
            #[trigger] addrs.drop_last()[i],
        ) by {
            assert(addrs.drop_last()[i] == addrs[i]);
        }
        lemma_patched_len(mem, base, addrs.drop_last());
    }
}

/// Patching one run of addresses and then another is patching both in order.
pub proof fn lemma_patched_concat(mem: Seq<u8>, base: int, first: Seq<usize>, second: Seq<usize>)
    ensures
        patched(mem, base, first + second) == patched(patched(mem, base, first), base, second),
        replaced(mem, base, first + second) == replaced(mem, base, first) + replaced(
            patched(mem, base, first),
            base,
            second,
        ),
    decreases second.len(),
{
    if second.len() == 0 {
        assert(first + second =~= first);
        assert(replaced(mem, base, first) + Seq::<(usize, u8)>::empty() =~= replaced(mem, base, first));
    } else {
        assert((first + second).drop_last() =~= first + second.drop_last());
        assert((first + second).last() == second.last());
        lemma_patched_concat(mem, base, first, second.drop_last());
        assert(replaced(mem, base, first + second) =~= replaced(mem, base, first) + replaced(
            patched(mem, base, first),
            base,
            second,
        ));
    }
}

/// A shorter run of addresses inherits what holds of every address.
proof fn lemma_drop_last_keeps(base: int, len: int, addrs: Seq<usize>)
    requires
        addrs.len() > 0,
        all_in_buffer(base, len, addrs),
    ensures
        all_in_buffer(base, len, addrs.drop_last()),
        in_buffer(base, len, addrs.last()),
        distinct(addrs) ==> distinct(addrs.drop_last()),
        distinct(addrs) ==> !addrs.drop_last().contains(addrs.last()),
{
    let shorter = addrs.drop_last();
    assert forall|i: int| 0 <= i < shorter.len() implies in_buffer(base, len, #[trigger] shorter[i]) by {
        assert(shorter[i] == addrs[i]);
    }
    assert(in_buffer(base, len, addrs[addrs.len() - 1]));
    if distinct(addrs) {
        assert forall|i: int, j: int| 0 <= i < j < shorter.len() implies shorter[i] != shorter[j] by {
            assert(shorter[i] == addrs[i] && shorter[j] == addrs[j]);
        }
        if shorter.contains(addrs.last()) {
            let at = choose|at: int| 0 <= at < shorter.len() && shorter[at] == addrs.last();
            assert(addrs[at] != addrs[addrs.len() - 1]);
        }
    }
}

/// After patching, memory has its old length, the breakpoint byte stands at
/// every address of the batch, and every other byte is as it was.
pub proof fn law_patched_bytes(mem: Seq<u8>, base: int, addrs: Seq<usize>)
    requires
        all_in_buffer(base, mem.len() as int, addrs),
    ensures
        patched(mem, base, addrs).len() == mem.len(),
        forall|i: int| 0 <= i < addrs.len() ==> patched(mem, base, addrs)[#[trigger] addrs[i] - base] == 0xccu8,
        forall|k: int|
            0 <= k < mem.len() && !addrs.contains((k + base) as usize) ==> #[trigger] patched(
                mem,
                base,
                addrs,
            )[k] == mem[k],
    decreases addrs.len(),
{
    if addrs.len() > 0 {
        let shorter = addrs.drop_last();
        let last = addrs.last();
        lemma_drop_last_keeps(base, mem.len() as int, addrs);
        law_patched_bytes(mem, base, shorter);
        let inner = patched(mem, base, shorter);
        let out = patched(mem, base, addrs);
        assert forall|i: int| 0 <= i < addrs.len() implies out[#[trigger] addrs[i] - base] == 0xccu8 by {
            if i < shorter.len() {
                assert(shorter[i] == addrs[i]);
                assert(inner[shorter[i] - base] == 0xccu8);
                assert(in_buffer(base, mem.len() as int, shorter[i]));
            }
        }
        assert forall|k: int|
            0 <= k < mem.len() && !addrs.contains((k + base) as usize) implies #[trigger] out[k]
            == mem[k] by {
            if shorter.contains((k + base) as usize) {
                let at = choose|at: int| 0 <= at < shorter.len() && shorter[at] == (k + base) as usize;
                assert(addrs[at] == (k + base) as usize);
            }
            assert(addrs[addrs.len() - 1] == last);
            assert(last != (k + base) as usize);
        }
    }
}

/// The response lists the addresses in the order they were patched; where no
/// address occurs twice, each comes with the byte that memory held before the
/// batch.
pub proof fn law_replaced_in_order(mem: Seq<u8>, base: int, addrs: Seq<usize>)
    requires
        all_in_buffer(base, mem.len() as int, addrs),
    ensures
        replaced(mem, base, addrs).len() == addrs.len(),
        forall|i: int| 0 <= i < addrs.len() ==> (#[trigger] replaced(mem, base, addrs)[i]).0 == addrs[i],
        distinct(addrs) ==> forall|i: int|
            0 <= i < addrs.len() ==> (#[trigger] replaced(mem, base, addrs)[i]).1 == mem[addrs[i] - base],
    decreases addrs.len(),
{
    if addrs.len() > 0 {
        let shorter = addrs.drop_last();
        let last = addrs.last();
        lemma_drop_last_keeps(base, mem.len() as int, addrs);
        law_replaced_in_order(mem, base, shorter);
        law_patched_bytes(mem, base, shorter);
        let out = replaced(mem, base, addrs);
        assert forall|i: int| 0 <= i < addrs.len() implies (#[trigger] out[i]).0 == addrs[i] by {
            if i < shorter.len() {
                assert(out[i] == replaced(mem, base, shorter)[i]);
                assert(shorter[i] == addrs[i]);
            }
        }
        if distinct(addrs) {
            assert forall|i: int| 0 <= i < addrs.len() implies (#[trigger] out[i]).1 == mem[addrs[i]
                - base] by {
                if i < shorter.len() {
                    assert(out[i] == replaced(mem, base, shorter)[i]);
                    assert(shorter[i] == addrs[i]);
                } else {
                    assert(((last - base) + base) as usize == last);
                    assert(patched(mem, base, shorter)[last - base] == mem[last - base]);
                }
            }
        }
    }
}

/// Writing a byte elsewhere first does not change what writing back gives
/// there.
proof fn lemma_written_back_commutes(mem: Seq<u8>, base: int, set: Seq<(usize, u8)>, at: int, byte: u8)
    requires
        0 <= at < mem.len(),
        forall|i: int| 0 <= i < set.len() ==> 0 <= (#[trigger] set[i]).0 - base < mem.len(),
        forall|i: int| 0 <= i < set.len() ==> (#[trigger] set[i]).0 - base != at,
    ensures
        written_back(mem.update(at, byte), base, set) == written_back(mem, base, set).update(at, byte),
        written_back(mem, base, set).len() == mem.len(),
    decreases set.len(),
{
    if set.len() > 0 {
        let shorter = set.drop_last();
        assert forall|i: int| 0 <= i < shorter.len() implies 0 <= (#[trigger] shorter[i]).0 - base
            < mem.len() && shorter[i].0 - base != at by {
            assert(shorter[i] == set[i]);
        }
        lemma_written_back_commutes(mem, base, shorter, at, byte);
        assert(set[set.len() - 1] == set.last());
        assert(written_back(mem.update(at, byte), base, set) =~= written_back(mem, base, set).update(
            at,
            byte,
        ));
    }
}

/// Where no address occurs twice, writing the bytes of the response back to
/// their addresses, in the order of the response, restores memory byte for
/// byte.
pub proof fn law_write_back_restores(mem: Seq<u8>, base: int, addrs: Seq<usize>)
    requires
        all_in_buffer(base, mem.len() as int, addrs),
        distinct(addrs),
    ensures
        written_back(patched(mem, base, addrs), base, replaced(mem, base, addrs)) == mem,
    decreases addrs.len(),
{
    if addrs.len() > 0 {
        let shorter = addrs.drop_last();
        let last = addrs.last();
        lemma_drop_last_keeps(base, mem.len() as int, addrs);
        law_write_back_restores(mem, base, shorter);
        law_patched_bytes(mem, base, shorter);
        law_replaced_in_order(mem, base, shorter);
        let inner = patched(mem, base, shorter);
        let listed = replaced(mem, base, shorter);
        let at = last - base;
        assert(replaced(mem, base, addrs).drop_last() =~= listed);
        assert(replaced(mem, base, addrs).last() == (last, inner[at]));
        assert forall|i: int| 0 <= i < listed.len() implies 0 <= (#[trigger] listed[i]).0 - base
            < inner.len() && listed[i].0 - base != at by {
            assert(listed[i].0 == shorter[i]);
            assert(in_buffer(base, mem.len() as int, shorter[i]));
            assert(shorter.contains(shorter[i]));
        }
        lemma_written_back_commutes(inner, base, listed, at, 0xccu8);
        assert(((at) + base) as usize == last);
        assert(inner[at] == mem[at]);
        assert(mem.update(at, 0xccu8).update(at, mem[at]) =~= mem);
    }
}

/// Writes the breakpoint byte at each address of `span` and appends to `set`
/// what stood there. `mem` is the memory from the address `base` on.
pub fn patch_span(mem: &mut [u8], base: usize, span: &Span, set: &mut Vec<(usize, BreakpointInst)>)
    requires
        all_in_buffer(base as int, old(mem)@.len() as int, span.addrs@),
    ensures
        final(mem)@ == patched(old(mem)@, base as int, span.addrs@),
        replaced_views(final(set)@) == replaced_views(old(set)@) + replaced(
            old(mem)@,
            base as int,
            span.addrs@,
        ),
{
    let ghost mem0 = mem@;
    let ghost set0 = replaced_views(set@);
    let mut i: usize = 0;
    assert(span.addrs@.take(0) =~= Seq::<usize>::empty());
    assert(set0 + Seq::<(usize, u8)>::empty() =~= set0);
    while i < span.addrs.len()
        invariant
            i <= span.addrs.len(),
            mem@.len() == mem0.len(),
            all_in_buffer(base as int, mem0.len() as int, span.addrs@),
            mem@ == patched(mem0, base as int, span.addrs@.take(i as int)),
            replaced_views(set@) == set0 + replaced(mem0, base as int, span.addrs@.take(i as int)),
        decreases span.addrs.len() - i,
    {
        let addr = span.addrs[i];
        assert(in_buffer(base as int, mem0.len() as int, span.addrs@[i as int]));
        let at = addr - base;
        let old_byte = mem[at];
        mem[at] = breakpoint().byte();
        let ghost before = replaced_views(set@);
        set.push((addr, BreakpointInst::new(old_byte)));
        proof {
            let prefix = span.addrs@.take(i as int);
            let next = span.addrs@.take(i + 1);
            assert(next.drop_last() =~= prefix);
            assert(next.last() == addr);
            assert(replaced_views(set@) =~= before.push((addr, old_byte)));
            assert(replaced_views(set@) =~= set0 + replaced(mem0, base as int, next));
        }
        i += 1;
    }
    assert(span.addrs@.take(i as int) =~= span.addrs@);
}

/// Patches a batch of breakpoints into `mem`, the memory from the address
/// `base` on: the addresses are put in ascending order and patched span by
/// span, and the response lists them in that order with the bytes replaced.
pub fn set_breakpoints(mem: &mut [u8], base: usize, breakpoints: Vec<usize>) -> (resp:
    SetBreakpointsResp)
    requires
        all_in_buffer(base as int, old(mem)@.len() as int, breakpoints@),
        forall|i: int| 0 <= i < breakpoints.len() ==> page_end_fits(#[trigger] breakpoints[i]),
    ensures
        final(mem)@ == patched(old(mem)@, base as int, sorted(breakpoints@)),
        resp@ == replaced(old(mem)@, base as int, sorted(breakpoints@)),
{
    let ghost mem0 = mem@;
    let ghost order = sorted(breakpoints@);
    let ghost given = breakpoints@;
    let spans = cover(breakpoints);
    let ghost views = span_views(spans@);
    proof {
        law_sorted_ascends(given);
        law_spans_keep_addresses(order);
        assert forall|k: int| 0 <= k < spans.len() implies all_in_buffer(
            base as int,
            mem0.len() as int,
            (#[trigger] spans[k]).addrs@,
        ) by {
            assert(views[k] == spans[k]@);
            assert forall|j: int| 0 <= j < spans[k].addrs@.len() implies in_buffer(
                base as int,
                mem0.len() as int,
                #[trigger] spans[k].addrs@[j],
            ) by {
                lemma_span_addrs_holds(views, k, j);
                let a = spans[k].addrs@[j];
                let at = choose|at: int| 0 <= at < order.len() && order[at] == a;
                assert(given.contains(order[at]));
            }
        }
        assert(views.take(0) =~= Seq::<crate::span::SpanView>::empty());
    }
    let mut set: Vec<(usize, BreakpointInst)> = Vec::new();
    let mut i: usize = 0;
    assert(replaced_views(set@) =~= Seq::<(usize, u8)>::empty());
    while i < spans.len()
        invariant
            i <= spans.len(),
            views == span_views(spans@),
            mem@.len() == mem0.len(),
            forall|k: int|
                0 <= k < spans.len() ==> all_in_buffer(
                    base as int,
                    mem0.len() as int,
                    (#[trigger] spans[k]).addrs@,
                ),
            mem@ == patched(mem0, base as int, span_addrs(views.take(i as int))),
            replaced_views(set@) == replaced(mem0, base as int, span_addrs(views.take(i as int))),
        decreases spans.len() - i,
    {
        let ghost done = span_addrs(views.take(i as int));
        let ghost before = mem@;
        let ghost listed = replaced_views(set@);
        patch_span(mem, base, &spans[i], &mut set);
        proof {
            let these = spans[i as int].addrs@;
            assert(views[i as int] == spans[i as int]@);
            assert(views.take(i + 1) =~= views.take(i as int).push(views[i as int]));
            lemma_span_addrs_push(views.take(i as int), views[i as int]);
            lemma_patched_concat(mem0, base as int, done, these);
            lemma_patched_len(before, base as int, these);
        }
        i += 1;
    }
    assert(views.take(i as int) =~= views);
    SetBreakpointsResp { set }
}

/// A segment of a loaded object, as the dynamic linker lists it.
#[derive(Debug, Clone, Copy, PartialEq, Eq, Structural)]
pub struct LoadedSegment {
    /// Whether the segment holds code.
    pub is_code: bool,
    /// The address that the object file states for the segment.
    pub vaddr: usize,
    /// The size of the segment in memory.
    pub len: usize,
}

/// The descriptor that the agent reports for a segment.
pub open spec fn phdr_of(segment: LoadedSegment) -> PHdr {
    PHdr { vaddr: segment.vaddr, memsize: segment.len }
}

/// The descriptors of the segments that hold code, in the order of the
/// segments.
pub open spec fn code_phdrs_of(segments: Seq<LoadedSegment>) -> Seq<PHdr> {
    segments.filter(|s: LoadedSegment| s.is_code).map_values(|s: LoadedSegment| phdr_of(s))
}

/// The descriptors to report for an object: one for each segment that holds
/// code.
pub fn code_phdrs(segments: &Vec<LoadedSegment>) -> (phdrs: Vec<PHdr>)
    ensures
        phdrs@ == code_phdrs_of(segments@),
{
    let mut phdrs: Vec<PHdr> = Vec::new();
    let mut i: usize = 0;
    proof {
        reveal(Seq::filter);
        assert(segments@.take(0) =~= Seq::<LoadedSegment>::empty());
        assert(phdrs@ =~= code_phdrs_of(segments@.take(0)));
    }
    while i < segments.len()
        invariant
            i <= segments.len(),
            phdrs@ == code_phdrs_of(segments@.take(i as int)),
        decreases segments.len() - i,
    {
        let segment = segments[i];
        proof {
            reveal(Seq::filter);
            assert(segments@.take(i + 1).drop_last() =~= segments@.take(i as int));
            assert(segments@.take(i + 1).last() == segment);
        }
        if segment.is_code {
            phdrs.push(PHdr { vaddr: segment.vaddr, memsize: segment.len });
        }
        proof {
            assert(phdrs@ =~= code_phdrs_of(segments@.take(i + 1)));
        }
        i += 1;
    }
    assert(segments@.take(i as int) =~= segments@);
    phdrs
}

/// What the agent reports of one object loaded into the process `pid`.
pub fn object_info(pid: u32, path: String, bias: usize, segments: &Vec<LoadedSegment>) -> (object:
    ObjectInfo)
    ensures
        object@ == (ObjectInfoView {
            pid,
            path: path@,
            addr: bias,
            phdrs: code_phdrs_of(segments@),
        }),
{
    ObjectInfo { pid, path, addr: bias, phdrs: code_phdrs(segments) }
}

/// What the agent does with a request.
#[derive(Debug, Clone, PartialEq, Eq)]
pub enum AgentStep {
    /// The batch is empty: the dialog is over, and nothing is sent back.
    Stop,
    /// Patch these spans, one after the other, and send back what was
    /// replaced.
    Patch(Vec<Span>),
    /// An address of the batch lies in the agent's own code, or in the last
    /// page of the address space, where no span can end: the batch is turned
    /// down.
    Refuse,
}

/// Whether every address leaves room for the page that holds it.
pub open spec fn all_fit(addrs: Seq<usize>) -> bool {
    forall|i: int| 0 <= i < addrs.len() ==> page_end_fits(#[trigger] addrs[i])
}

fn check_fit(addrs: &Vec<usize>) -> (fit: bool)
    ensures
        fit == all_fit(addrs@),
{
    let mut i: usize = 0;
    while i < addrs.len()
        invariant
            i <= addrs.len(),
            forall|k: int| 0 <= k < i ==> page_end_fits(#[trigger] addrs[k]),
        decreases addrs.len() - i,
    {
        let addr = addrs[i];
        if addr - addr % 4096 > usize::MAX - 4096 {
            assert(!page_end_fits(addrs[i as int]));
            return false;
        }
        i += 1;
    }
    true
}

/// Whether `addr` lies in the segment of an object loaded at `bias`.
pub open spec fn segment_holds(bias: usize, phdr: PHdr, addr: usize) -> bool {
    bias + phdr.vaddr <= addr < bias + phdr.vaddr + phdr.memsize
}

/// Whether `addr` lies in a code segment of the object.
pub open spec fn in_object(object: ObjectInfoView, addr: usize) -> bool {
    exists|i: int| 0 <= i < object.phdrs.len() && segment_holds(object.addr, #[trigger] object.phdrs[i], addr)
}

/// Whether one of the addresses lies in a code segment of the object.
pub open spec fn any_inside(object: ObjectInfoView, addrs: Seq<usize>) -> bool {
    exists|i: int| 0 <= i < addrs.len() && in_object(object, #[trigger] addrs[i])
}

/// Whether `addr` lies in a code segment of the object.
pub fn object_holds(object: &ObjectInfo, addr: usize) -> (inside: bool)
    ensures
        inside == in_object(object@, addr),
{
    let mut i: usize = 0;
    while i < object.phdrs.len()
        invariant
            i <= object.phdrs.len(),
            forall|k: int| 0 <= k < i ==> !segment_holds(object.addr, #[trigger] object.phdrs@[k], addr),
        decreases object.phdrs.len() - i,
    {
        let phdr = object.phdrs[i];
        let holds = match object.addr.checked_add(phdr.vaddr) {
            Some(start) => start <= addr && addr - start < phdr.memsize,
            None => false,
        };
        if holds {
            assert(segment_holds(object.addr, object@.phdrs[i as int], addr));
            return true;
        }
        i += 1;
    }
    false
}

/// The object that holds code at `marker`: the first of the objects with a
/// code segment there. With the address of one of its own functions for
/// `marker`, the agent finds itself among the objects it reports.
pub fn own_object(objects: &Vec<ObjectInfo>, marker: usize) -> (own: Option<usize>)
    ensures
        match own {
            Some(at) => at < objects@.len() && in_object(objects@[at as int]@, marker) && forall|
                k: int,
            | 0 <= k < at ==> !in_object(#[trigger] objects@[k]@, marker),
            None => forall|k: int| 0 <= k < objects@.len() ==> !in_object(#[trigger] objects@[k]@, marker),
        },
{
    let mut i: usize = 0;
    while i < objects.len()
        invariant
            i <= objects.len(),
            forall|k: int| 0 <= k < i ==> !in_object(#[trigger] objects@[k]@, marker),
        decreases objects.len() - i,
    {
        if object_holds(&objects[i], marker) {
            return Some(i);
        }
        i += 1;
    }
    None
}

/// The view of an object that may be absent.
pub open spec fn object_view(object: Option<&ObjectInfo>) -> Option<ObjectInfoView> {
    match object {
        Some(object) => Some(object@),
        None => None,
    }
}

/// Whether a batch keeps clear of the agent: none of its addresses lies in
/// the code of the agent's own object, where that is known.
pub open spec fn clear_of(own: Option<ObjectInfoView>, addrs: Seq<usize>) -> bool {
    match own {
        Some(object) => !any_inside(object, addrs),
        None => true,
    }
}

fn check_clear(own: Option<&ObjectInfo>, addrs: &Vec<usize>) -> (clear: bool)
    ensures
        clear == clear_of(object_view(own), addrs@),
{
    match own {
        None => true,
        Some(object) => {
            let mut i: usize = 0;
            assert(object_view(own) == Some(object@));
            while i < addrs.len()
                invariant
                    i <= addrs.len(),
                    object_view(own) == Some(object@),
                    forall|k: int| 0 <= k < i ==> !in_object(object@, #[trigger] addrs[k]),
                decreases addrs.len() - i,
            {
                if object_holds(object, addrs[i]) {
                    assert(in_object(object@, addrs@[i as int]));
                    assert(any_inside(object@, addrs@));
                    return false;
                }
                i += 1;
            }
            true
        },
    }
}

/// Decides what to do with a request: an empty batch ends the dialog, any
/// other is laid out in spans, unless it cannot be patched: the agent never
/// patches its own code, which `own` describes, nor the last page of the
/// address space.
pub fn plan_request(request: SetBreakpointsReq, own: Option<&ObjectInfo>) -> (step: AgentStep)
    ensures
        match step {
            AgentStep::Stop => request@.len() == 0,
            AgentStep::Patch(spans) => request@.len() > 0 && all_fit(request@) && clear_of(
                object_view(own),
                request@,
            ) && span_views(spans@) == covering(sorted(request@)),
            AgentStep::Refuse => request@.len() > 0 && !(all_fit(request@) && clear_of(
                object_view(own),
                request@,
            )),
        },
{
    if request.breakpoints.len() == 0 {
        AgentStep::Stop
    } else if check_fit(&request.breakpoints) && check_clear(own, &request.breakpoints) {
        AgentStep::Patch(cover(request.breakpoints))
    } else {
        AgentStep::Refuse
    }
}

/// Why the agent could not serve a request.
#[derive(Debug, Clone, Copy, PartialEq, Eq, Structural)]
pub enum AgentError {
    /// The request could not be read.
    Wire(WireError),
    /// An address of the request lies outside the memory at hand, in the
    /// agent's own code, or in the last page of the address space.
    Address,
}

/// Whether a batch can be patched into memory of `len` bytes from `base` on
/// by an agent whose own object is `own`.
pub open spec fn patchable(base: int, len: int, own: Option<ObjectInfoView>, addrs: Seq<usize>) -> bool {
    all_in_buffer(base, len, addrs) && all_fit(addrs) && clear_of(own, addrs)
}

fn check_in_buffer(base: usize, len: usize, addrs: &Vec<usize>) -> (inside: bool)
    ensures
        inside == all_in_buffer(base as int, len as int, addrs@),
{
    let mut i: usize = 0;
    while i < addrs.len()
        invariant
            i <= addrs.len(),
            forall|k: int| 0 <= k < i ==> in_buffer(base as int, len as int, #[trigger] addrs[k]),
        decreases addrs.len() - i,
    {
        let addr = addrs[i];
        if addr < base || addr - base >= len {
            assert(!in_buffer(base as int, len as int, addrs[i as int]));
            return false;
        }
        i += 1;
    }
    true
}

/// One turn of the agent's service loop over memory held in a buffer: reads a
/// request from `input`, patches the batch into `mem`, the memory from the
/// address `base` on, and hands back the bytes of the response. An empty
/// batch ends the dialog: nothing is patched and nothing is sent back. A
/// request that cannot be read or patched leaves memory as it is.
pub fn serve(mem: &mut [u8], base: usize, own: Option<&ObjectInfo>, input: &[u8]) -> (r: Result<
    Option<Vec<u8>>,
    AgentError,
>)
    ensures
        match parse_request(input@) {
            Err(e) => r == Err::<Option<Vec<u8>>, AgentError>(AgentError::Wire(e)) && final(mem)@
                == old(mem)@,
            Ok((addrs, _)) => if addrs.len() == 0 {
                r == Ok::<Option<Vec<u8>>, AgentError>(None) && final(mem)@ == old(mem)@
            } else if !patchable(base as int, old(mem)@.len() as int, object_view(own), addrs) {
                r == Err::<Option<Vec<u8>>, AgentError>(AgentError::Address) && final(mem)@ == old(mem)@
            } else {
                &&& final(mem)@ == patched(old(mem)@, base as int, sorted(addrs))
                &&& r matches Ok(Some(bytes))
                &&& bytes@ == enc_response(replaced(old(mem)@, base as int, sorted(addrs)))
            },
        },
{
    let request = match decode_request(input) {
        Err(e) => {
            return Err(AgentError::Wire(e));
        },
        Ok((request, _)) => request,
    };
    if request.breakpoints.len() == 0 {
        return Ok(None);
    }
    if !check_in_buffer(base, mem.len(), &request.breakpoints) || !check_fit(&request.breakpoints)
        || !check_clear(own, &request.breakpoints) {
        return Err(AgentError::Address);
    }
    let response = set_breakpoints(mem, base, request.breakpoints);
    Ok(Some(encode_response(&response)))
}

} // verus!
