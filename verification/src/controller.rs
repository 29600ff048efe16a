//! The controller's side of the dialog with an agent: which objects it has
//! already looked at, so that a repeated report costs nothing; which
//! addresses to ask for, in which batches; and what to make of the answers.

use crate::agent::{all_in_buffer, in_object, law_replaced_in_order, object_holds, replaced};
use crate::span::{law_sorted_is_the_ascending_order, sorted};
use crate::paths::{ends_with, path_ends_with};
use crate::process::{
    collected, in_code, lemma_apart_list, list_apart, location_views, recorded, AddressSpace,
    AddressSpaceView,
};
use crate::srcloc::Location;
use crate::span::{ascending, sort_addresses};
use crate::text::same_text;
use crate::types::{SetBreakpointsReq, SetBreakpointsResp};
use crate::types::{object_views, ObjectInfo, ObjectInfoView};
use vstd::prelude::*;

verus! {

/// What tells two reports of an object apart: the process and the path.
pub open spec fn object_key(object: ObjectInfoView) -> (u32, Seq<char>) {
    (object.pid, object.path)
}

/// The keys seen once the objects of a report have been gone through.
pub open spec fn seen_after(seen: Set<(u32, Seq<char>)>, objects: Seq<ObjectInfoView>) -> Set<
    (u32, Seq<char>),
>
    decreases objects.len(),
{
    if objects.len() == 0 {
        seen
    } else {
        seen_after(seen, objects.drop_last()).insert(object_key(objects.last()))
    }
}

/// The positions in a report of the objects to read debug information for:
/// those whose key was not seen before and does not occur earlier in the
/// report, in rising order.
pub open spec fn fresh_in(seen: Set<(u32, Seq<char>)>, objects: Seq<ObjectInfoView>) -> Seq<usize>
    decreases objects.len(),
{
    if objects.len() == 0 {
        Seq::empty()
    } else {
        let before = fresh_in(seen, objects.drop_last());
        if seen_after(seen, objects.drop_last()).contains(object_key(objects.last())) {
            before
        } else {
            before.push((objects.len() - 1) as usize)
        }
    }
}

/// The objects that the controller has read debug information for, by process
/// and path.
#[derive(Debug, Clone)]
pub struct Seen {
    keys: Vec<(u32, String)>,
}

/// The keys of the entries, as a set.
pub open spec fn key_set(keys: Seq<(u32, String)>) -> Set<(u32, Seq<char>)> {
    Set::new(|k: (u32, Seq<char>)| exists|i: int| 0 <= i < keys.len() && k == (keys[i].0, keys[i].1@))
}

impl View for Seen {
    type V = Set<(u32, Seq<char>)>;

    closed spec fn view(&self) -> Set<(u32, Seq<char>)> {
        key_set(self.keys@)
    }
}

impl Seen {
    /// Nothing seen yet.
    pub fn new() -> (seen: Seen)
        ensures
            seen@ == Set::<(u32, Seq<char>)>::empty(),
    {
        let seen = Seen { keys: Vec::new() };
        assert(seen@ =~= Set::<(u32, Seq<char>)>::empty());
        seen
    }

    /// Whether the object of process `pid` at `path` has been seen.
    pub fn contains(&self, pid: u32, path: &str) -> (found: bool)
        ensures
            found == self@.contains((pid, path@)),
    {
        let mut i: usize = 0;
        while i < self.keys.len()
            invariant
                i <= self.keys.len(),
                forall|k: int| 0 <= k < i ==> (self.keys[k].0, self.keys[k].1@) != (pid, path@),
            decreases self.keys.len() - i,
        {
            if self.keys[i].0 == pid && same_text(self.keys[i].1.as_str(), path) {
                assert(self.keys@[i as int].1@ == path@);
                return true;
            }
            i += 1;
        }
        assert(!self@.contains((pid, path@))) by {
            if self@.contains((pid, path@)) {
                let k = choose|k: int|
                    0 <= k < self.keys@.len() && (pid, path@) == (self.keys@[k].0, self.keys@[k].1@);
                assert((self.keys[k].0, self.keys[k].1@) != (pid, path@));
            }
        }
        false
    }

    /// Marks the object of process `pid` at `path` as seen, and says whether it
    /// was new.
    pub fn insert(&mut self, pid: u32, path: &str) -> (new: bool)
        ensures
            new == !old(self)@.contains((pid, path@)),
            final(self)@ == old(self)@.insert((pid, path@)),
    {
        if self.contains(pid, path) {
            assert(self@ =~= self@.insert((pid, path@)));
            false
        } else {
            let ghost before = self.keys@;
            self.keys.push((pid, path.to_owned()));
            proof {
                let after = self.keys@;
                assert forall|k: (u32, Seq<char>)| #[trigger]
                    key_set(after).contains(k) <==> key_set(before).insert((pid, path@)).contains(
                        k,
                    ) by {
                    if key_set(after).contains(k) {
                        let i = choose|i: int| 0 <= i < after.len() && k == (after[i].0, after[i].1@);
                        if i < before.len() {
                            assert(before[i] == after[i]);
                        }
                    }
                    if key_set(before).contains(k) {
                        let i = choose|i: int|
                            0 <= i < before.len() && k == (before[i].0, before[i].1@);
                        assert(before[i] == after[i]);
                    }
                    if k == (pid, path@) {
                        assert(after[before.len() as int].1@ == path@);
                    }
                }
                assert(key_set(after) =~= key_set(before).insert((pid, path@)));
            }
            true
        }
    }

    /// Goes through a report: marks every object as seen, and hands back the
    /// positions of those to read debug information for.
    pub fn fresh(&mut self, objects: &Vec<ObjectInfo>) -> (todo: Vec<usize>)
        ensures
            todo@ == fresh_in(old(self)@, object_views(objects@)),
            final(self)@ == seen_after(old(self)@, object_views(objects@)),
    {
        let ghost start = self@;
        let ghost views = object_views(objects@);
        let mut todo: Vec<usize> = Vec::new();
        let mut i: usize = 0;
        assert(views.take(0) =~= Seq::<ObjectInfoView>::empty());
        while i < objects.len()
            invariant
                i <= objects.len(),
                views == object_views(objects@),
                todo@ == fresh_in(start, views.take(i as int)),
                self@ == seen_after(start, views.take(i as int)),
            decreases objects.len() - i,
        {
            proof {
                assert(views.take(i + 1).drop_last() =~= views.take(i as int));
                assert(views.take(i + 1).last() == objects[i as int]@);
            }
            if self.insert(objects[i].pid, objects[i].path.as_str()) {
                todo.push(i);
            }
            i += 1;
        }
        assert(views.take(i as int) =~= views);
        todo
    }
}

/// Going through a report only adds to what was seen, and adds the key of
/// each of its objects.
pub proof fn lemma_seen_after(seen: Set<(u32, Seq<char>)>, objects: Seq<ObjectInfoView>)
    ensures
        forall|k: (u32, Seq<char>)| seen.contains(k) ==> #[trigger] seen_after(seen, objects).contains(k),
        forall|i: int|
            0 <= i < objects.len() ==> seen_after(seen, objects).contains(
                #[trigger] object_key(objects[i]),
            ),
        forall|k: (u32, Seq<char>)| #[trigger]
            seen_after(seen, objects).contains(k) ==> seen.contains(k) || exists|i: int|
                0 <= i < objects.len() && object_key(objects[i]) == k,
    decreases objects.len(),
{
    if objects.len() > 0 {
        let shorter = objects.drop_last();
        lemma_seen_after(seen, shorter);
        assert forall|k: (u32, Seq<char>)| seen.contains(k) implies #[trigger] seen_after(
            seen,
            objects,
        ).contains(k) by {
            assert(seen_after(seen, shorter).contains(k));
        }
        assert forall|i: int| 0 <= i < objects.len() implies seen_after(seen, objects).contains(
            #[trigger] object_key(objects[i]),
        ) by {
            if i < shorter.len() {
                assert(shorter[i] == objects[i]);
            }
        }
        assert forall|k: (u32, Seq<char>)| #[trigger]
            seen_after(seen, objects).contains(k) implies seen.contains(k) || exists|i: int|
            0 <= i < objects.len() && object_key(objects[i]) == k by {
            if k == object_key(objects.last()) {
                assert(object_key(objects[objects.len() - 1]) == k);
            } else if !seen.contains(k) {
                assert(seen_after(seen, shorter).contains(k));
                let i = choose|i: int| 0 <= i < shorter.len() && object_key(shorter[i]) == k;
                assert(shorter[i] == objects[i]);
                assert(object_key(objects[i]) == k);
            }
        }
    }
}

/// An object whose key has been seen is not read again.
pub proof fn lemma_nothing_fresh(seen: Set<(u32, Seq<char>)>, objects: Seq<ObjectInfoView>)
    requires
        forall|i: int| 0 <= i < objects.len() ==> seen.contains(#[trigger] object_key(objects[i])),
    ensures
        fresh_in(seen, objects) == Seq::<usize>::empty(),
    decreases objects.len(),
{
    if objects.len() > 0 {
        let shorter = objects.drop_last();
        assert forall|i: int| 0 <= i < shorter.len() implies seen.contains(
            #[trigger] object_key(shorter[i]),
        ) by {
            assert(shorter[i] == objects[i]);
        }
        lemma_nothing_fresh(seen, shorter);
        lemma_seen_after(seen, shorter);
        assert(seen.contains(object_key(objects[objects.len() - 1])));
    }
}

/// When the same report comes a second time, no object of it is read again:
/// debug information is read once for each process and path.
pub proof fn law_second_report_reads_nothing(
    seen: Set<(u32, Seq<char>)>,
    objects: Seq<ObjectInfoView>,
)
    ensures
        fresh_in(seen_after(seen, objects), objects) == Seq::<usize>::empty(),
{
    lemma_seen_after(seen, objects);
    lemma_nothing_fresh(seen_after(seen, objects), objects);
}

/// Whether the object at position `i` of a report is the first of its key,
/// and that key was not seen before.
pub open spec fn first_unseen(seen: Set<(u32, Seq<char>)>, objects: Seq<ObjectInfoView>, i: int) -> bool {
    &&& !seen.contains(object_key(objects[i]))
    &&& forall|j: int| 0 <= j < i ==> object_key(#[trigger] objects[j]) != object_key(objects[i])
}

/// Within one report, the objects read are exactly those whose key was not
/// seen before, each key once, at its first occurrence.
pub proof fn law_fresh_is_first_unseen(seen: Set<(u32, Seq<char>)>, objects: Seq<ObjectInfoView>)
    requires
        objects.len() <= usize::MAX,
    ensures
        forall|i: int|
            0 <= i < objects.len() ==> (fresh_in(seen, objects).contains(i as usize)
                <==> #[trigger] first_unseen(seen, objects, i)),
        forall|k: int|
            0 <= k < fresh_in(seen, objects).len() ==> (#[trigger] fresh_in(seen, objects)[k])
                < objects.len(),
    decreases objects.len(),
{
    if objects.len() > 0 {
        let shorter = objects.drop_last();
        let last = (objects.len() - 1) as int;
        law_fresh_is_first_unseen(seen, shorter);
        lemma_seen_after(seen, shorter);
        let before = fresh_in(seen, shorter);
        let all = fresh_in(seen, objects);
        let key = object_key(objects[last]);
        let known = seen_after(seen, shorter).contains(key);
        assert(all == if known { before } else { before.push(last as usize) });
        assert forall|k: int| 0 <= k < all.len() implies (#[trigger] all[k]) < objects.len() by {
            if k < before.len() {
                assert(all[k] == before[k]);
            }
        }
        assert forall|i: int| 0 <= i < objects.len() implies (all.contains(i as usize)
            <==> #[trigger] first_unseen(seen, objects, i)) by {
            if i < last {
                assert(shorter[i] == objects[i]);
                assert(first_unseen(seen, shorter, i) <==> first_unseen(seen, objects, i)) by {
                    assert forall|j: int| 0 <= j < i implies #[trigger] shorter[j] == objects[j] by {}
                    if first_unseen(seen, shorter, i) {
                        assert forall|j: int| 0 <= j < i implies object_key(#[trigger] objects[j])
                            != object_key(objects[i]) by {
                            assert(shorter[j] == objects[j]);
                        }
                    }
                    if first_unseen(seen, objects, i) {
                        assert forall|j: int| 0 <= j < i implies object_key(#[trigger] shorter[j])
                            != object_key(shorter[i]) by {
                            assert(shorter[j] == objects[j]);
                        }
                    }
                }
                if before.contains(i as usize) {
                    let k = choose|k: int| 0 <= k < before.len() && before[k] == i as usize;
                    assert(all[k] == i as usize);
                }
                if all.contains(i as usize) {
                    let k = choose|k: int| 0 <= k < all.len() && all[k] == i as usize;
                    if k < before.len() {
                        assert(before[k] == i as usize);
                    }
                    assert(before.contains(i as usize));
                }
            } else {
                if known {
                    if all.contains(i as usize) {
                        let k = choose|k: int| 0 <= k < before.len() && before[k] == i as usize;
                        assert(before[k] < shorter.len());
                    }
                    if !seen.contains(key) {
                        let j = choose|j: int| 0 <= j < shorter.len() && object_key(shorter[j]) == key;
                        assert(shorter[j] == objects[j]);
                        assert(object_key(objects[j]) == object_key(objects[i]));
                    }
                } else {
                    assert(all[before.len() as int] == i as usize);
                    assert(!seen.contains(key));
                    assert forall|j: int| 0 <= j < i implies object_key(#[trigger] objects[j])
                        != object_key(objects[i]) by {
                        assert(shorter[j] == objects[j]);
                        assert(seen_after(seen, shorter).contains(object_key(shorter[j])));
                    }
                }
            }
        }
    }
}

/// The addresses that do not lie in the code of an object, in the order
/// given.
pub open spec fn outside_of(object: ObjectInfoView, addrs: Seq<usize>) -> Seq<usize> {
    addrs.filter(|a: usize| !in_object(object, a))
}

/// Leaves out the addresses that lie in the code of an object. With the
/// agent's own object for `object`, no breakpoint is asked for in the agent.
pub fn outside_object(addrs: Vec<usize>, object: &ObjectInfo) -> (kept: Vec<usize>)
    ensures
        kept@ == outside_of(object@, addrs@),
{
    let mut kept: Vec<usize> = Vec::new();
    let mut i: usize = 0;
    proof {
        reveal(Seq::filter);
        assert(addrs@.take(0) =~= Seq::<usize>::empty());
    }
    while i < addrs.len()
        invariant
            i <= addrs.len(),
            kept@ == outside_of(object@, addrs@.take(i as int)),
        decreases addrs.len() - i,
    {
        let addr = addrs[i];
        proof {
            reveal(Seq::filter);
            assert(addrs@.take(i + 1).drop_last() =~= addrs@.take(i as int));
            assert(addrs@.take(i + 1).last() == addr);
        }
        if !object_holds(object, addr) {
            kept.push(addr);
        }
        i += 1;
    }
    assert(addrs@.take(i as int) =~= addrs@);
    kept
}

/// Whether an object is the agent: its path ends with the path of one of the
/// injected libraries.
pub open spec fn is_agent(object: ObjectInfoView, inject: Seq<Seq<char>>) -> bool {
    exists|i: int| 0 <= i < inject.len() && path_ends_with(object.path, #[trigger] inject[i])
}

/// The addresses that lie in the code of none of the agents among the
/// objects, in the order given.
pub open spec fn outside_agents(
    objects: Seq<ObjectInfoView>,
    inject: Seq<Seq<char>>,
    addrs: Seq<usize>,
) -> Seq<usize>
    decreases objects.len(),
{
    if objects.len() == 0 {
        addrs
    } else {
        let before = outside_agents(objects.drop_last(), inject, addrs);
        if is_agent(objects.last(), inject) {
            outside_of(objects.last(), before)
        } else {
            before
        }
    }
}

/// The addresses of breakpoints that fit an address of this machine, in the
/// order given.
pub open spec fn addresses_of(breakpoints: Seq<(u64, Location)>) -> Seq<usize>
    decreases breakpoints.len(),
{
    if breakpoints.len() == 0 {
        Seq::empty()
    } else {
        let before = addresses_of(breakpoints.drop_last());
        let addr = breakpoints.last().0;
        if addr <= usize::MAX {
            before.push(addr as usize)
        } else {
            before
        }
    }
}

fn check_agent(object: &ObjectInfo, inject: &Vec<String>) -> (agent: bool)
    ensures
        agent == is_agent(object@, inject@.map_values(|s: String| s@)),
{
    let ghost tails = inject@.map_values(|s: String| s@);
    let mut i: usize = 0;
    while i < inject.len()
        invariant
            i <= inject.len(),
            tails == inject@.map_values(|s: String| s@),
            forall|k: int| 0 <= k < i ==> !path_ends_with(object@.path, #[trigger] tails[k]),
        decreases inject.len() - i,
    {
        if ends_with(object.path.as_str(), inject[i].as_str()) {
            assert(path_ends_with(object@.path, tails[i as int]));
            return true;
        }
        i += 1;
    }
    false
}

/// The requests of the dialog with an agent that reported `objects`: the
/// addresses of the breakpoints, but for those in the code of an agent, in
/// rising order and each once, in batches of at most `size`, and the empty
/// request that ends the dialog.
pub fn requests(
    breakpoints: &Vec<(u64, Location)>,
    objects: &Vec<ObjectInfo>,
    inject: &Vec<String>,
    size: usize,
) -> (requests: Vec<SetBreakpointsReq>)
    requires
        size > 0,
    ensures
        exists|addrs: Seq<usize>|
            #![trigger rising(addrs)]
            rising(addrs) && addrs.to_set() == outside_agents(
                object_views(objects@),
                inject@.map_values(|s: String| s@),
                addresses_of(breakpoints@),
            ).to_set() && request_views(requests@) == dialog_of(addrs, size as nat),
{
    let ghost tails = inject@.map_values(|s: String| s@);
    let ghost views = object_views(objects@);
    let mut addrs: Vec<usize> = Vec::new();
    let mut b: usize = 0;
    assert(breakpoints@.take(0) =~= Seq::<(u64, Location)>::empty());
    while b < breakpoints.len()
        invariant
            b <= breakpoints.len(),
            addrs@ == addresses_of(breakpoints@.take(b as int)),
        decreases breakpoints.len() - b,
    {
        let addr = breakpoints[b].0;
        proof {
            assert(breakpoints@.take(b + 1).drop_last() =~= breakpoints@.take(b as int));
            assert(breakpoints@.take(b + 1).last() == breakpoints@[b as int]);
        }
        if addr <= usize::MAX as u64 {
            addrs.push(addr as usize);
        }
        b += 1;
    }
    assert(breakpoints@.take(b as int) =~= breakpoints@);
    let ghost all = addrs@;
    let mut i: usize = 0;
    assert(views.take(0) =~= Seq::<ObjectInfoView>::empty());
    while i < objects.len()
        invariant
            i <= objects.len(),
            views == object_views(objects@),
            tails == inject@.map_values(|s: String| s@),
            addrs@ == outside_agents(views.take(i as int), tails, all),
        decreases objects.len() - i,
    {
        proof {
            assert(views.take(i + 1).drop_last() =~= views.take(i as int));
            assert(views.take(i + 1).last() == objects[i as int]@);
        }
        if check_agent(&objects[i], inject) {
            addrs = outside_object(addrs, &objects[i]);
        }
        i += 1;
    }
    assert(views.take(i as int) =~= views);
    let unique = request_addresses(addrs);
    dialog(&unique, size)
}

/// The code segments of the objects of a report as they lie in memory: the
/// address each starts at, and its length. A segment that would start beyond
/// the address space is left out.
pub open spec fn segments_of(objects: Seq<ObjectInfoView>) -> Seq<(u64, u64)>
    decreases objects.len(),
{
    if objects.len() == 0 {
        Seq::empty()
    } else {
        segments_of(objects.drop_last()) + object_segments(objects.last(), objects.last().phdrs)
    }
}

/// The segments among `phdrs` of an object as they lie in memory.
pub open spec fn object_segments(object: ObjectInfoView, phdrs: Seq<crate::types::PHdr>) -> Seq<(u64, u64)>
    decreases phdrs.len(),
{
    if phdrs.len() == 0 {
        Seq::empty()
    } else {
        let before = object_segments(object, phdrs.drop_last());
        let start = object.addr + phdrs.last().vaddr;
        if start <= u64::MAX {
            before.push((start as u64, phdrs.last().memsize as u64))
        } else {
            before
        }
    }
}

/// The code segments that a report speaks of, as base and length.
pub fn report_segments(objects: &Vec<ObjectInfo>) -> (segments: Vec<(u64, u64)>)
    ensures
        segments@ == segments_of(object_views(objects@)),
{
    let ghost views = object_views(objects@);
    let mut segments: Vec<(u64, u64)> = Vec::new();
    let mut i: usize = 0;
    assert(views.take(0) =~= Seq::<ObjectInfoView>::empty());
    while i < objects.len()
        invariant
            i <= objects.len(),
            views == object_views(objects@),
            segments@ == segments_of(views.take(i as int)),
        decreases objects.len() - i,
    {
        let object = &objects[i];
        let ghost before = segments@;
        proof {
            assert(views.take(i + 1).drop_last() =~= views.take(i as int));
            assert(views.take(i + 1).last() == object@);
            assert(object.phdrs@.take(0) =~= Seq::<crate::types::PHdr>::empty());
            assert(before + object_segments(object@, object.phdrs@.take(0)) =~= before);
        }
        let mut k: usize = 0;
        while k < object.phdrs.len()
            invariant
                k <= object.phdrs.len(),
                segments@ == before + object_segments(object@, object.phdrs@.take(k as int)),
            decreases object.phdrs.len() - k,
        {
            let phdr = object.phdrs[k];
            proof {
                assert(object.phdrs@.take(k + 1).drop_last() =~= object.phdrs@.take(k as int));
                assert(object.phdrs@.take(k + 1).last() == phdr);
            }
            let start = object.addr as u128 + phdr.vaddr as u128;
            if start <= u64::MAX as u128 {
                segments.push((start as u64, phdr.memsize as u64));
            }
            proof {
                assert(segments@ =~= before + object_segments(object@, object.phdrs@.take(k + 1)));
            }
            k += 1;
        }
        assert(object.phdrs@.take(k as int) =~= object.phdrs@);
        i += 1;
    }
    assert(views.take(i as int) =~= views);
    segments
}

/// Whether each address is above the one before it.
pub open spec fn rising(addrs: Seq<usize>) -> bool {
    forall|i: int, j: int| 0 <= i < j < addrs.len() ==> addrs[i] < addrs[j]
}

/// The addresses to ask an agent for: those given, in rising order, each
/// once however often it was given.
pub fn request_addresses(addrs: Vec<usize>) -> (unique: Vec<usize>)
    ensures
        rising(unique@),
        unique@.to_set() == addrs@.to_set(),
{
    let ghost given = addrs@;
    let mut addrs = addrs;
    sort_addresses(&mut addrs);
    proof {
        addrs@.to_multiset_ensures();
        given.to_multiset_ensures();
        assert(addrs@.to_set() =~= given.to_set()) by {
            assert forall|a: usize| addrs@.contains(a) <==> given.contains(a) by {
                assert(addrs@.to_multiset().count(a) == given.to_multiset().count(a));
            }
        }
    }
    let mut unique: Vec<usize> = Vec::new();
    let mut i: usize = 0;
    assert(addrs@.take(0) =~= Seq::<usize>::empty());
    assert(unique@.to_set() =~= addrs@.take(0).to_set());
    while i < addrs.len()
        invariant
            i <= addrs.len(),
            ascending(addrs@),
            rising(unique@),
            unique@.to_set() == addrs@.take(i as int).to_set(),
            unique@.len() > 0 ==> i > 0 && unique@.last() == addrs@[i - 1],
            i > 0 ==> unique@.len() > 0,
        decreases addrs.len() - i,
    {
        let addr = addrs[i];
        let ghost before = unique@;
        let n = unique.len();
        if n == 0 || unique[n - 1] != addr {
            proof {
                if n > 0 {
                    assert(addrs@[i - 1] <= addrs@[i as int]);
                }
            }
            unique.push(addr);
            proof {
                assert forall|a: int, b: int| 0 <= a < b < unique@.len() implies unique@[a]
                    < unique@[b] by {
                    if b == n {
                        if a < n - 1 {
                            assert(before[a] < before[n - 1]);
                        }
                    }
                }
            }
        }
        proof {
            let shorter = addrs@.take(i as int);
            let longer = addrs@.take(i + 1);
            assert(longer =~= shorter.push(addr));
            assert forall|a: usize| unique@.to_set().contains(a) <==> longer.to_set().contains(a) by {
                if unique@.contains(a) {
                    let k = choose|k: int| 0 <= k < unique@.len() && unique@[k] == a;
                    if k < before.len() {
                        assert(before.contains(a));
                        assert(shorter.to_set().contains(a));
                        let m = choose|m: int| 0 <= m < shorter.len() && shorter[m] == a;
                        assert(longer[m] == a);
                    } else {
                        assert(longer[i as int] == a);
                    }
                }
                if longer.contains(a) {
                    let m = choose|m: int| 0 <= m < longer.len() && longer[m] == a;
                    if m < i {
                        assert(shorter[m] == a);
                        assert(shorter.to_set().contains(a));
                        assert(before.contains(a));
                        let k = choose|k: int| 0 <= k < before.len() && before[k] == a;
                        assert(unique@[k] == a);
                    } else {
                        assert(unique@[unique@.len() - 1] == a);
                    }
                }
            }
            assert(unique@.to_set() =~= longer.to_set());
        }
        i += 1;
    }
    assert(addrs@.take(i as int) =~= addrs@);
    unique
}

/// The addresses cut into batches of `size`: all but the last batch hold
/// `size` addresses, the last one holds what is left, and there is no batch
/// without an address.
pub open spec fn batches_of(addrs: Seq<usize>, size: nat) -> Seq<Seq<usize>>
    decreases addrs.len(),
{
    if addrs.len() == 0 || size == 0 {
        Seq::empty()
    } else if addrs.len() <= size {
        seq![addrs]
    } else {
        seq![addrs.take(size as int)] + batches_of(addrs.skip(size as int), size)
    }
}

/// The requests of one dialog with an agent: the addresses in batches of at
/// most `size`, and after them the empty request that ends the dialog.
pub open spec fn dialog_of(addrs: Seq<usize>, size: nat) -> Seq<Seq<usize>> {
    batches_of(addrs, size).push(Seq::empty())
}

/// The addresses of the requests, in order.
pub open spec fn request_views(requests: Seq<SetBreakpointsReq>) -> Seq<Seq<usize>> {
    requests.map_values(|r: SetBreakpointsReq| r@)
}

/// The requests to send to an agent for the given addresses.
pub fn dialog(addrs: &Vec<usize>, size: usize) -> (requests: Vec<SetBreakpointsReq>)
    requires
        size > 0,
    ensures
        request_views(requests@) == dialog_of(addrs@, size as nat),
{
    let mut requests: Vec<SetBreakpointsReq> = Vec::new();
    let mut start: usize = 0;
    let ghost all = addrs@;
    assert(all.skip(0) =~= all);
    assert(request_views(requests@) + batches_of(all.skip(0), size as nat) =~= batches_of(
        all,
        size as nat,
    ));
    while start < addrs.len()
        invariant
            start <= addrs.len(),
            size > 0,
            all == addrs@,
            request_views(requests@) + batches_of(all.skip(start as int), size as nat) == batches_of(
                all,
                size as nat,
            ),
        decreases addrs.len() - start,
    {
        let left = addrs.len() - start;
        let take = if left <= size {
            left
        } else {
            size
        };
        let mut batch: Vec<usize> = Vec::new();
        let mut k: usize = 0;
        while k < take
            invariant
                k <= take,
                start + take <= addrs.len(),
                batch@ == addrs@.subrange(start as int, start + k),
            decreases take - k,
        {
            batch.push(addrs[start + k]);
            assert(batch@ =~= addrs@.subrange(start as int, start + k + 1));
            k += 1;
        }
        let ghost before = request_views(requests@);
        let ghost rest = all.skip(start as int);
        requests.push(SetBreakpointsReq { breakpoints: batch });
        proof {
            assert(batch@ =~= rest.take(take as int));
            assert(request_views(requests@) =~= before.push(batch@));
            if left <= size {
                assert(rest.take(take as int) =~= rest);
                assert(all.skip(start + take) =~= Seq::<usize>::empty());
                assert(batches_of(rest, size as nat) =~= seq![rest]);
            } else {
                assert(rest.skip(size as int) =~= all.skip(start + take));
            }
            assert(before.push(batch@) + batches_of(all.skip(start + take), size as nat)
                =~= before + batches_of(rest, size as nat));
        }
        start += take;
    }
    proof {
        assert(all.skip(start as int) =~= Seq::<usize>::empty());
        assert(request_views(requests@) =~= batches_of(all, size as nat));
    }
    let ghost before = request_views(requests@);
    requests.push(SetBreakpointsReq { breakpoints: Vec::new() });
    assert(request_views(requests@) =~= before.push(Seq::empty()));
    requests
}

/// Whether a response answers a request: it lists the addresses of the
/// request, each once, in the order of the request.
pub open spec fn answers(request: Seq<usize>, response: Seq<(usize, u8)>) -> bool {
    response.map_values(|e: (usize, u8)| e.0) == request
}

/// Checks that a response is the answer to the request sent.
pub fn accept_response(request: &SetBreakpointsReq, response: &SetBreakpointsResp) -> (ok: bool)
    ensures
        ok == answers(request@, response@),
{
    let ghost addrs = response@.map_values(|e: (usize, u8)| e.0);
    if request.breakpoints.len() != response.set.len() {
        assert(addrs.len() != request@.len());
        return false;
    }
    let mut i: usize = 0;
    while i < request.breakpoints.len()
        invariant
            i <= request.breakpoints.len(),
            request.breakpoints.len() == response.set.len(),
            addrs == response@.map_values(|e: (usize, u8)| e.0),
            forall|k: int| 0 <= k < i ==> addrs[k] == request@[k],
        decreases request.breakpoints.len() - i,
    {
        if request.breakpoints[i] != response.set[i].0 {
            assert(addrs[i as int] != request@[i as int]);
            return false;
        }
        i += 1;
    }
    assert(addrs =~= request@);
    true
}

/// The requests of a dialog carry the addresses given, all of them and in
/// their order, and only the last request is empty.
pub proof fn law_dialog_carries_all(addrs: Seq<usize>, size: nat)
    requires
        size > 0,
    ensures
        batches_of(addrs, size).flatten() == addrs,
        forall|k: int|
            0 <= k < batches_of(addrs, size).len() ==> 0 < (#[trigger] batches_of(addrs, size)[k]).len()
                <= size,
        dialog_of(addrs, size).last().len() == 0,
    decreases addrs.len(),
{
    let batches = batches_of(addrs, size);
    if addrs.len() == 0 {
        assert(batches.flatten() =~= addrs);
    } else if addrs.len() <= size {
        batches.lemma_flatten_one_element();
        assert(batches.flatten() =~= addrs);
    } else {
        let head = addrs.take(size as int);
        let rest = addrs.skip(size as int);
        law_dialog_carries_all(rest, size);
        let later = batches_of(rest, size);
        seq![head].lemma_flatten_one_element();
        vstd::seq_lib::lemma_flatten_concat(seq![head], later);
        assert(batches.flatten() =~= head + rest);
        assert(head + rest =~= addrs);
        assert forall|k: int| 0 <= k < batches.len() implies 0 < (#[trigger] batches[k]).len()
            <= size by {
            if k > 0 {
                assert(batches[k] == later[k - 1]);
            }
        }
    }
}

/// The controller's side of the dialog with one agent: the requests to send,
/// how far the dialog has got, and the address space that takes in what the
/// agent answers.
pub struct Dialog {
    requests: Vec<SetBreakpointsReq>,
    sent: usize,
    owed: bool,
    space: AddressSpace,
}

/// The mathematical content of a [`Dialog`].
pub struct DialogView {
    /// The requests of the dialog, in the order to send them.
    pub requests: Seq<Seq<usize>>,
    /// How many of them were sent.
    pub sent: nat,
    /// Whether the agent owes the answer to the request sent last.
    pub owed: bool,
    /// The address space as far as the answers were taken in.
    pub space: AddressSpaceView,
}

impl View for Dialog {
    type V = DialogView;

    closed spec fn view(&self) -> DialogView {
        DialogView {
            requests: request_views(self.requests@),
            sent: self.sent as nat,
            owed: self.owed,
            space: self.space@,
        }
    }
}

impl DialogView {
    /// Whether the dialog is in order: no more requests were sent than there
    /// are, and an answer is owed only to a request that lists addresses.
    pub open spec fn wf(self) -> bool {
        &&& self.sent <= self.requests.len()
        &&& self.owed ==> self.sent > 0 && self.requests[self.sent - 1].len() > 0
    }

    /// Whether it is the controller's turn to send.
    pub open spec fn may_send(self) -> bool {
        !self.owed && self.sent < self.requests.len()
    }

    /// Whether the dialog is over: every request was sent, and nothing is
    /// owed.
    pub open spec fn over(self) -> bool {
        !self.owed && self.sent == self.requests.len()
    }
}

fn copy_request(request: &SetBreakpointsReq) -> (copy: SetBreakpointsReq)
    ensures
        copy@ == request@,
{
    let mut breakpoints: Vec<usize> = Vec::new();
    let mut i: usize = 0;
    while i < request.breakpoints.len()
        invariant
            i <= request.breakpoints.len(),
            breakpoints@ == request.breakpoints@.take(i as int),
        decreases request.breakpoints.len() - i,
    {
        breakpoints.push(request.breakpoints[i]);
        assert(breakpoints@ =~= request.breakpoints@.take(i + 1));
        i += 1;
    }
    assert(request.breakpoints@.take(i as int) =~= request.breakpoints@);
    SetBreakpointsReq { breakpoints }
}

impl Dialog {
    #[verifier::type_invariant]
    spec fn in_order(self) -> bool {
        self@.wf()
    }

    /// The dialog that sends `requests` one after the other and records the
    /// answers in `space`.
    pub fn new(requests: Vec<SetBreakpointsReq>, space: AddressSpace) -> (dialog: Dialog)
        ensures
            dialog@ == (DialogView {
                requests: request_views(requests@),
                sent: 0,
                owed: false,
                space: space@,
            }),
            dialog@.wf(),
    {
        Dialog { requests, sent: 0, owed: false, space }
    }

    /// The next request to send, when it is the controller's turn: the
    /// requests go out in their order, and none goes out while the agent owes
    /// an answer. After a request that lists addresses the agent owes one;
    /// after an empty request it owes nothing.
    pub fn send(&mut self) -> (request: Option<SetBreakpointsReq>)
        ensures
            final(self)@.wf(),
            match request {
                Some(request) => old(self)@.may_send() && request@ == old(self)@.requests[old(self)@.sent as int] && final(self)@ == (DialogView {
                    sent: old(self)@.sent + 1,
                    owed: request@.len() > 0,
                    ..old(self)@
                }),
                None => !old(self)@.may_send() && final(self)@ == old(self)@,
            },
    {
        proof {
            use_type_invariant(&*self);
        }
        if self.owed || self.sent >= self.requests.len() {
            return None;
        }
        let request = copy_request(&self.requests[self.sent]);
        assert(request_views(self.requests@)[self.sent as int] == request@);
        let owed = request.breakpoints.len() > 0;
        let sent = self.sent + 1;
        self.sent = sent;
        self.owed = owed;
        Some(request)
    }

    /// Takes in an answer of the agent. It is accepted when the agent owes
    /// one and it answers the request sent last; what the agent replaced is
    /// then recorded with the breakpoints. Any other answer is turned down
    /// and changes nothing.
    pub fn receive(&mut self, response: &SetBreakpointsResp) -> (accepted: bool)
        ensures
            final(self)@.wf(),
            accepted == (old(self)@.owed && answers(
                old(self)@.requests[old(self)@.sent - 1],
                response@,
            )),
            final(self)@ == if accepted {
                DialogView {
                    owed: false,
                    space: AddressSpaceView {
                        breakpoints: recorded(old(self)@.space.breakpoints, response@),
                        segments: old(self)@.space.segments,
                    },
                    ..old(self)@
                }
            } else {
                old(self)@
            },
    {
        proof {
            use_type_invariant(&*self);
        }
        if !self.owed {
            return false;
        }
        assert(request_views(self.requests@)[self.sent - 1] == self.requests@[self.sent - 1]@);
        if !accept_response(&self.requests[self.sent - 1], response) {
            return false;
        }
        let mut space = AddressSpace::new(Vec::new(), Vec::new());
        std::mem::swap(&mut space, &mut self.space);
        space.record_replaced(response);
        self.space = space;
        self.owed = false;
        true
    }

    /// Whether the agent owes an answer.
    pub fn owed(&self) -> (owed: bool)
        ensures
            owed == self@.owed,
    {
        self.owed
    }

    /// Whether the dialog is over.
    pub fn over(&self) -> (over: bool)
        ensures
            over == self@.over(),
    {
        proof {
            use_type_invariant(self);
        }
        !self.owed && self.sent >= self.requests.len()
    }

    /// The address space with what the agent answered so far.
    pub fn into_space(self) -> (space: AddressSpace)
        ensures
            space@ == self@.space,
    {
        self.space
    }
}

/// Whether `addr` lies in the code of an agent among the objects.
pub open spec fn in_agents(objects: Seq<ObjectInfoView>, inject: Seq<Seq<char>>, addr: u64) -> bool {
    exists|i: int|
        0 <= i < objects.len() && is_agent(#[trigger] objects[i], inject) && addr <= usize::MAX
            && in_object(objects[i], addr as usize)
}

fn check_in_agents(objects: &Vec<ObjectInfo>, inject: &Vec<String>, addr: u64) -> (inside: bool)
    ensures
        inside == in_agents(object_views(objects@), inject@.map_values(|s: String| s@), addr),
{
    if addr > usize::MAX as u64 {
        return false;
    }
    let ghost views = object_views(objects@);
    let ghost tails = inject@.map_values(|s: String| s@);
    let mut i: usize = 0;
    while i < objects.len()
        invariant
            i <= objects.len(),
            addr <= usize::MAX,
            views == object_views(objects@),
            tails == inject@.map_values(|s: String| s@),
            forall|k: int|
                0 <= k < i ==> !(is_agent(#[trigger] views[k], tails) && in_object(views[k], addr as usize)),
        decreases objects.len() - i,
    {
        assert(views[i as int] == objects[i as int]@);
        if check_agent(&objects[i], inject) && object_holds(&objects[i], addr as usize) {
            return true;
        }
        i += 1;
    }
    false
}

/// Whether a breakpoint at `addr` is wanted: the address lies in a segment of
/// the address space, and not in the code of an agent.
pub open spec fn wanted(
    space: AddressSpaceView,
    objects: Seq<ObjectInfoView>,
    inject: Seq<Seq<char>>,
    addr: u64,
) -> bool {
    in_code(space, addr) && !in_agents(objects, inject, addr)
}

/// The breakpoints that are wanted, in the order given.
pub open spec fn wanted_only(
    space: AddressSpaceView,
    objects: Seq<ObjectInfoView>,
    inject: Seq<Seq<char>>,
    breakpoints: Seq<(u64, Location)>,
) -> Seq<(u64, Location)>
    decreases breakpoints.len(),
{
    if breakpoints.len() == 0 {
        Seq::empty()
    } else {
        let before = wanted_only(space, objects, inject, breakpoints.drop_last());
        if wanted(space, objects, inject, breakpoints.last().0) {
            before.push(breakpoints.last())
        } else {
            before
        }
    }
}

/// Lays out the dialog with an agent that reported `objects`. The address
/// space gets the code segments of the report, and of the breakpoints those
/// that lie in one of them and not in the code of an agent. The requests ask
/// for these, in rising order and each once, in batches of at most `size`;
/// the empty request closes the dialog. Where no two segments of the report
/// share an address or a base, the address space has its invariant.
pub fn plan(
    breakpoints: &Vec<(u64, Location)>,
    objects: &Vec<ObjectInfo>,
    inject: &Vec<String>,
    size: usize,
) -> (dialog: Dialog)
    requires
        size > 0,
    ensures
        dialog@.wf(),
        dialog@.sent == 0,
        !dialog@.owed,
        dialog@.space.segments == collected(segments_of(object_views(objects@))),
        ({
            let bare = AddressSpaceView {
                breakpoints: Map::empty(),
                segments: collected(segments_of(object_views(objects@))),
            };
            let kept = wanted_only(
                bare,
                object_views(objects@),
                inject@.map_values(|s: String| s@),
                breakpoints@,
            );
            &&& dialog@.space.breakpoints == collected(location_views(kept))
            &&& exists|addrs: Seq<usize>|
                #![trigger rising(addrs)]
                rising(addrs) && addrs.to_set() == outside_agents(
                    object_views(objects@),
                    inject@.map_values(|s: String| s@),
                    addresses_of(kept),
                ).to_set() && dialog@.requests == dialog_of(addrs, size as nat)
        }),
        list_apart(segments_of(object_views(objects@))) ==> dialog@.space.wf(),
{
    let segments = report_segments(objects);
    let ghost list = segments@;
    let ghost views = object_views(objects@);
    let ghost tails = inject@.map_values(|s: String| s@);
    let mut space = AddressSpace::new(segments, Vec::new());
    let ghost bare = space@;
    proof {
        assert(location_views(Seq::<(u64, Location)>::empty()) =~= Seq::<
            (u64, crate::srcloc::LocationView),
        >::empty());
        assert(bare == (AddressSpaceView { breakpoints: Map::empty(), segments: collected(list) }));
        if list_apart(list) {
            lemma_apart_list(list, bare.breakpoints);
            assert(bare.wf());
        }
    }
    let mut kept: Vec<(u64, Location)> = Vec::new();
    let mut k: usize = 0;
    assert(breakpoints@.take(0) =~= Seq::<(u64, Location)>::empty());
    assert(location_views(kept@) =~= Seq::<(u64, crate::srcloc::LocationView)>::empty());
    while k < breakpoints.len()
        invariant
            k <= breakpoints.len(),
            views == object_views(objects@),
            tails == inject@.map_values(|s: String| s@),
            space@.segments == bare.segments,
            bare.wf() ==> space@.wf(),
            kept@ == wanted_only(bare, views, tails, breakpoints@.take(k as int)),
            space@.breakpoints == collected(location_views(kept@)),
        decreases breakpoints.len() - k,
    {
        let (addr, location) = breakpoints[k];
        let ghost before = space@;
        let ghost seen = location_views(kept@);
        proof {
            assert(breakpoints@.take(k + 1).drop_last() =~= breakpoints@.take(k as int));
            assert(breakpoints@.take(k + 1).last() == (addr, location));
            assert forall|base: u64| before.in_segment(base, addr) == bare.in_segment(base, addr) by {}
            assert(in_code(bare, addr) == (exists|base: u64| before.in_segment(base, addr))) by {
                if in_code(bare, addr) {
                    let base = choose|base: u64| bare.in_segment(base, addr);
                    assert(before.in_segment(base, addr));
                }
                if exists|base: u64| before.in_segment(base, addr) {
                    let base = choose|base: u64| before.in_segment(base, addr);
                    assert(bare.in_segment(base, addr));
                }
            }
        }
        if !check_in_agents(objects, inject, addr) && space.try_add_breakpoint(addr, location) {
            kept.push((addr, location));
            proof {
                assert(location_views(kept@) =~= seen.push((addr, location@)));
                assert(location_views(kept@).drop_last() =~= seen);
            }
        }
        k += 1;
    }
    assert(breakpoints@.take(k as int) =~= breakpoints@);
    let batches = requests(&kept, objects, inject, size);
    Dialog::new(batches, space)
}

/// No breakpoint that is wanted lies in the code of an agent, and each lies
/// in a segment.
pub proof fn law_wanted_keeps_out_of_agents(
    space: AddressSpaceView,
    objects: Seq<ObjectInfoView>,
    inject: Seq<Seq<char>>,
    breakpoints: Seq<(u64, Location)>,
)
    ensures
        forall|k: int|
            0 <= k < wanted_only(space, objects, inject, breakpoints).len() ==> wanted(
                space,
                objects,
                inject,
                (#[trigger] wanted_only(space, objects, inject, breakpoints)[k]).0,
            ),
    decreases breakpoints.len(),
{
    if breakpoints.len() > 0 {
        law_wanted_keeps_out_of_agents(space, objects, inject, breakpoints.drop_last());
        let before = wanted_only(space, objects, inject, breakpoints.drop_last());
        let all = wanted_only(space, objects, inject, breakpoints);
        assert forall|k: int| 0 <= k < all.len() implies wanted(
            space,
            objects,
            inject,
            (#[trigger] all[k]).0,
        ) by {
            if k < before.len() {
                assert(all[k] == before[k]);
            }
        }
    }
}

/// Every request of a dialog for rising addresses lists rising addresses, as
/// the agent expects of a request.
pub proof fn law_requests_rise(addrs: Seq<usize>, size: nat)
    requires
        size > 0,
        rising(addrs),
    ensures
        forall|k: int| 0 <= k < dialog_of(addrs, size).len() ==> rising(#[trigger] dialog_of(addrs, size)[k]),
    decreases addrs.len(),
{
    let batches = batches_of(addrs, size);
    if addrs.len() > size {
        let head = addrs.take(size as int);
        let rest = addrs.skip(size as int);
        assert(rising(rest)) by {
            assert forall|i: int, j: int| 0 <= i < j < rest.len() implies rest[i] < rest[j] by {
                assert(rest[i] == addrs[i + size] && rest[j] == addrs[j + size]);
            }
        }
        law_requests_rise(rest, size);
        let later = batches_of(rest, size);
        assert forall|k: int| 0 <= k < batches.len() implies rising(#[trigger] batches[k]) by {
            if k > 0 {
                assert(batches[k] == later[k - 1]);
                assert(dialog_of(rest, size)[k - 1] == later[k - 1]);
            } else {
                assert(batches[0] == head);
            }
        }
    }
    assert forall|k: int| 0 <= k < dialog_of(addrs, size).len() implies rising(
        #[trigger] dialog_of(addrs, size)[k],
    ) by {
        if k < batches.len() {
            assert(dialog_of(addrs, size)[k] == batches[k]);
        }
    }
}

/// What the agent sends back for a request of rising addresses answers that
/// request: it lists the addresses of the request, in the order of the
/// request.
pub proof fn law_agent_answers_in_order(mem: Seq<u8>, base: int, addrs: Seq<usize>)
    requires
        rising(addrs),
        all_in_buffer(base, mem.len() as int, addrs),
    ensures
        answers(addrs, replaced(mem, base, sorted(addrs))),
{
    assert(ascending(addrs)) by {
        assert forall|i: int, j: int| 0 <= i <= j < addrs.len() implies addrs[i] <= addrs[j] by {
            if i < j {
                assert(addrs[i] < addrs[j]);
            }
        }
    }
    law_sorted_is_the_ascending_order(addrs, addrs);
    law_replaced_in_order(mem, base, addrs);
    let response = replaced(mem, base, addrs);
    assert(response.map_values(|e: (usize, u8)| e.0) =~= addrs);
}

} // verus!
