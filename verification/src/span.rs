//! Page-aligned spans: the unit in which the agent changes memory protection
//! while it patches breakpoints.

use itertools::Itertools;
use vstd::prelude::*;

verus! {

/// Size in bytes of one page of memory.
pub const PAGE_SIZE: usize = 4096;

/// A contiguous run of pages together with the addresses to patch inside it.
#[derive(Debug, Clone, PartialEq, Eq, PartialOrd, Ord)]
pub struct Span {
    /// First byte of the span.
    pub start: usize,
    /// Length of the span in bytes.
    pub len: usize,
    /// The addresses to patch, in the order they were given.
    pub addrs: Vec<usize>,
}

/// The mathematical content of a [`Span`].
pub struct SpanView {
    pub start: int,
    pub len: int,
    pub addrs: Seq<usize>,
}

/// The first address of the page that holds `addr`.
pub open spec fn page_base(addr: int) -> int {
    addr - addr % 4096
}

/// The span made for a single address: the one page that holds it.
pub open spec fn single(addr: usize) -> SpanView {
    SpanView { start: page_base(addr as int), len: 4096, addrs: seq![addr] }
}

impl SpanView {
    /// One past the last byte of the span.
    pub open spec fn end(self) -> int {
        self.start + self.len
    }

    /// Page alignment, a positive whole number of pages, and every address
    /// inside the span.
    pub open spec fn wf(self) -> bool {
        &&& 0 <= self.start
        &&& self.start % 4096 == 0
        &&& self.len > 0
        &&& self.len % 4096 == 0
        &&& forall|i: int| 0 <= i < self.addrs.len() ==> self.covers(#[trigger] self.addrs[i])
    }

    /// Whether `addr` lies in `[start, start + len)`.
    pub open spec fn covers(self, addr: usize) -> bool {
        self.start <= addr < self.start + self.len
    }

    /// Whether `next` starts no later than one page past the end of `self`,
    /// and not before `self` starts.
    pub open spec fn accepts(self, next: SpanView) -> bool {
        self.start <= next.start < self.start + self.len + 4096
    }

    /// The span from the start of `self` to the end of `next`, with the
    /// addresses of both.
    pub open spec fn merged(self, next: SpanView) -> SpanView {
        SpanView {
            start: self.start,
            len: next.start + next.len - self.start,
            addrs: self.addrs + next.addrs,
        }
    }
}

impl View for Span {
    type V = SpanView;

    open spec fn view(&self) -> SpanView {
        SpanView { start: self.start as int, len: self.len as int, addrs: self.addrs@ }
    }
}

/// The views of a sequence of spans, in order.
pub open spec fn span_views(spans: Seq<Span>) -> Seq<SpanView> {
    spans.map_values(|s: Span| s@)
}

/// Folds `rest` into `acc` from the left: a span that `acc` accepts is merged
/// into it, any other closes `acc` and becomes the new accumulator.
pub open spec fn coalesce_from(acc: SpanView, rest: Seq<SpanView>) -> Seq<SpanView>
    decreases rest.len(),
{
    if rest.len() == 0 {
        seq![acc]
    } else if acc.accepts(rest[0]) {
        coalesce_from(acc.merged(rest[0]), rest.drop_first())
    } else {
        seq![acc] + coalesce_from(rest[0], rest.drop_first())
    }
}

/// Consecutive spans merged wherever the earlier one accepts the later one.
pub open spec fn coalesced(spans: Seq<SpanView>) -> Seq<SpanView> {
    if spans.len() == 0 {
        Seq::empty()
    } else {
        coalesce_from(spans[0], spans.drop_first())
    }
}

/// The spans that cover `addrs`: one page per address, coalesced in order.
pub open spec fn covering(addrs: Seq<usize>) -> Seq<SpanView> {
    coalesced(addrs.map_values(|a: usize| single(a)))
}

/// Whether the page that holds `addr` ends at or below the largest address.
pub open spec fn page_end_fits(addr: usize) -> bool {
    page_base(addr as int) + 4096 <= usize::MAX
}

/// Whether no address is smaller than one before it.
pub open spec fn ascending(addrs: Seq<usize>) -> bool {
    forall|i: int, j: int| 0 <= i <= j < addrs.len() ==> addrs[i] <= addrs[j]
}

/// The addresses in ascending order.
pub open spec fn sorted(addrs: Seq<usize>) -> Seq<usize> {
    addrs.sort_by(|a: usize, b: usize| a <= b)
}

/// The addresses of all the spans, span after span.
pub open spec fn span_addrs(spans: Seq<SpanView>) -> Seq<usize>
    decreases spans.len(),
{
    if spans.len() == 0 {
        Seq::empty()
    } else {
        spans[0].addrs + span_addrs(spans.drop_first())
    }
}

impl Span {
    /// The one-page span that holds `addr`.
    pub fn new(addr: usize) -> (span: Span)
        ensures
            span@ == single(addr),
    {
        assert(addr & !4095usize == addr - addr % 4096) by (bit_vector);
        let mut addrs = Vec::new();
        addrs.push(addr);
        assert(addrs@ =~= seq![addr]);
        Span { start: addr & !(PAGE_SIZE - 1), len: PAGE_SIZE, addrs }
    }

    /// Merges `other` into `self` when `other` starts within one page past the
    /// end of `self`; otherwise hands both back untouched.
    pub fn extend(self, other: Span) -> (merged: Result<Span, (Span, Span)>)
        requires
            self@.accepts(other@) ==> other.start + other.len - self.start <= usize::MAX,
        ensures
            match merged {
                Ok(span) => self@.accepts(other@) && span@ == self@.merged(other@),
                Err((first, second)) => !self@.accepts(other@) && first == self && second == other,
            },
    {
        let below_limit = match self.start.checked_add(self.len) {
            Some(end) => match end.checked_add(PAGE_SIZE) {
                Some(limit) => other.start < limit,
                None => true,
            },
            None => true,
        };
        if self.start <= other.start && below_limit {
            let ghost before = self@;
            let ghost next = other@;
            let len = (other.start - self.start) + other.len;
            let mut addrs = self.addrs;
            let mut rest = other.addrs;
            addrs.append(&mut rest);
            let span = Span { start: self.start, len, addrs };
            assert(span@ == before.merged(next));
            Ok(span)
        } else {
            Err((self, other))
        }
    }
}

/// `slice::sort` on addresses: afterwards they ascend, and each address occurs
/// as often as before.
#[verifier::external_body]
pub(crate) fn sort_addresses(addrs: &mut Vec<usize>)
    ensures
        ascending(final(addrs)@),
        final(addrs)@.to_multiset() == old(addrs)@.to_multiset(),
{
    addrs.sort();
}

/// `Itertools::coalesce` with [`Span::extend`] as the merge step: the spans are
/// folded from the left, a span that the running one accepts is merged into it,
/// any other is emitted after the running one has been.
#[verifier::external_body]
fn coalesce_spans(spans: Vec<Span>) -> (out: Vec<Span>)
    requires
        forall|i: int| 0 <= i < spans.len() ==> (#[trigger] spans[i]).start + spans[i].len <= usize::MAX,
    ensures
        span_views(out@) == coalesced(span_views(spans@)),
{
    spans.into_iter().coalesce(|prev, cur| prev.extend(cur)).collect()
}

/// The spans to make writable for a batch of breakpoint addresses: the
/// addresses are put in ascending order, each gets the page that holds it, and
/// pages that touch or lie one page apart are joined.
pub fn cover(addrs: Vec<usize>) -> (spans: Vec<Span>)
    requires
        forall|i: int| 0 <= i < addrs.len() ==> page_end_fits(#[trigger] addrs[i]),
    ensures
        span_views(spans@) == covering(sorted(addrs@)),
{
    let ghost given = addrs@;
    let mut addrs = addrs;
    sort_addresses(&mut addrs);
    proof {
        law_sorted_is_the_ascending_order(given, addrs@);
        assert forall|i: int| 0 <= i < addrs.len() implies page_end_fits(#[trigger] addrs[i]) by {
            let a = addrs[i];
            assert(addrs@.to_multiset().count(a) > 0) by {
                addrs@.to_multiset_ensures();
                assert(addrs@.contains(a));
            }
            assert(given.contains(a)) by {
                given.to_multiset_ensures();
            }
        }
    }
    let mut pages: Vec<Span> = Vec::new();
    let mut i: usize = 0;
    while i < addrs.len()
        invariant
            i <= addrs.len(),
            pages.len() == i,
            forall|k: int| 0 <= k < addrs.len() ==> page_end_fits(#[trigger] addrs[k]),
            span_views(pages@) == addrs@.take(i as int).map_values(|a: usize| single(a)),
        decreases addrs.len() - i,
    {
        let ghost before = span_views(pages@);
        let page = Span::new(addrs[i]);
        pages.push(page);
        proof {
            let after = addrs@.take(i + 1).map_values(|a: usize| single(a));
            assert(span_views(pages@).len() == after.len());
            assert forall|k: int| 0 <= k < after.len() implies span_views(pages@)[k] == after[k] by {
                if k < i {
                    assert(span_views(pages@)[k] == before[k]);
                    assert(addrs@.take(i as int)[k] == addrs@.take(i + 1)[k]);
                }
            }
            assert(span_views(pages@) =~= after);
        }
        i += 1;
    }
    assert(addrs@.take(i as int) =~= addrs@);
    assert forall|k: int| 0 <= k < pages.len() implies (#[trigger] pages[k]).start + pages[k].len
        <= usize::MAX by {
        assert(span_views(pages@)[k] == pages[k]@);
        assert(page_end_fits(addrs[k]));
    }
    coalesce_spans(pages)
}

/// Ascending order is unique: whatever ascends and holds each address as often
/// as `addrs` does is `sorted(addrs)`.
pub proof fn law_sorted_is_the_ascending_order(addrs: Seq<usize>, ordered: Seq<usize>)
    requires
        ascending(ordered),
        ordered.to_multiset() == addrs.to_multiset(),
    ensures
        sorted(addrs) == ordered,
{
    let leq = |a: usize, b: usize| a <= b;
    assert(vstd::relations::total_ordering(leq));
    addrs.lemma_sort_by_ensures(leq);
    assert(vstd::relations::sorted_by(ordered, leq));
    vstd::seq_lib::lemma_sorted_unique(sorted(addrs), ordered, leq);
}

/// Page bases keep the order of their addresses.
proof fn lemma_page_base_monotone(a: int, b: int)
    requires
        0 <= a <= b,
    ensures
        page_base(a) <= page_base(b),
        page_base(a) <= a < page_base(a) + 4096,
        page_base(a) % 4096 == 0,
        0 <= page_base(a),
{
}

/// An aligned address at or below `a` is at or below the page of `a`.
proof fn lemma_page_base_above_aligned(start: int, a: int)
    requires
        0 <= start <= a,
        start % 4096 == 0,
    ensures
        start <= page_base(a),
{
}

/// What folding an ascending run of addresses into a well-formed span gives.
proof fn lemma_coalesce_from(acc: SpanView, rest: Seq<usize>)
    requires
        acc.wf(),
        ascending(rest),
        forall|i: int|
            0 <= i < rest.len() ==> acc.start <= #[trigger] rest[i] && acc.end() <= page_base(
                rest[i] as int,
            ) + 4096,
    ensures
        ({
            let out = coalesce_from(acc, rest.map_values(|a: usize| single(a)));
            &&& out.len() >= 1
            &&& out[0].start == acc.start
            &&& forall|k: int| 0 <= k < out.len() ==> (#[trigger] out[k]).wf()
            &&& forall|j: int, k: int|
                0 <= j < k < out.len() ==> (#[trigger] out[j]).end() + 4096 <= (#[trigger] out[k]).start
            &&& span_addrs(out) == acc.addrs + rest
        }),
    decreases rest.len(),
{
    let pages = rest.map_values(|a: usize| single(a));
    let out = coalesce_from(acc, pages);
    if rest.len() == 0 {
        assert(out =~= seq![acc]);
        assert(out.drop_first() =~= Seq::<SpanView>::empty());
        assert(span_addrs(out) =~= acc.addrs + rest) by {
            reveal_with_fuel(span_addrs, 2);
        }
    } else {
        let first = rest[0];
        let next = single(first);
        let tail = rest.drop_first();
        assert(pages.drop_first() =~= tail.map_values(|a: usize| single(a)));
        assert(pages[0] == next);
        lemma_page_base_monotone(first as int, first as int);
        lemma_page_base_above_aligned(acc.start, first as int);
        assert forall|i: int| 0 <= i < tail.len() implies first <= #[trigger] tail[i] by {
            assert(tail[i] == rest[i + 1]);
        }
        assert(ascending(tail)) by {
            assert forall|i: int, j: int| 0 <= i <= j < tail.len() implies tail[i] <= tail[j] by {
                assert(tail[i] == rest[i + 1] && tail[j] == rest[j + 1]);
            }
        }
        if acc.accepts(next) {
            let joined = acc.merged(next);
            assert(joined.wf()) by {
                assert forall|i: int| 0 <= i < joined.addrs.len() implies joined.covers(
                    #[trigger] joined.addrs[i],
                ) by {
                    if i < acc.addrs.len() {
                        assert(acc.covers(acc.addrs[i]));
                    }
                }
            }
            assert forall|i: int| 0 <= i < tail.len() implies joined.start <= #[trigger] tail[i]
                && joined.end() <= page_base(tail[i] as int) + 4096 by {
                lemma_page_base_monotone(first as int, tail[i] as int);
            }
            lemma_coalesce_from(joined, tail);
            assert(joined.addrs + tail =~= acc.addrs + rest);
        } else {
            assert(next.wf());
            assert forall|i: int| 0 <= i < tail.len() implies next.start <= #[trigger] tail[i]
                && next.end() <= page_base(tail[i] as int) + 4096 by {
                lemma_page_base_monotone(first as int, tail[i] as int);
            }
            lemma_coalesce_from(next, tail);
            let later = coalesce_from(next, tail.map_values(|a: usize| single(a)));
            assert(out =~= seq![acc] + later);
            assert(out.drop_first() =~= later);
            assert(span_addrs(out) =~= acc.addrs + rest) by {
                assert(next.addrs + tail =~= rest);
            }
            assert forall|j: int, k: int| 0 <= j < k < out.len() implies (#[trigger] out[j]).end()
                + 4096 <= (#[trigger] out[k]).start by {
                if j == 0 {
                    assert(out[k] == later[k - 1]);
                    if k > 1 {
                        assert(later[0].end() + 4096 <= later[k - 1].start);
                        assert(later[0].wf());
                    }
                } else {
                    assert(out[j] == later[j - 1] && out[k] == later[k - 1]);
                }
            }
            assert forall|k: int| 0 <= k < out.len() implies (#[trigger] out[k]).wf() by {
                if k > 0 {
                    assert(out[k] == later[k - 1]);
                }
            }
        }
    }
}

/// The facts about `covering` from which the laws below are read off.
proof fn lemma_covering(addrs: Seq<usize>)
    requires
        ascending(addrs),
    ensures
        forall|k: int| 0 <= k < covering(addrs).len() ==> (#[trigger] covering(addrs)[k]).wf(),
        forall|j: int, k: int|
            0 <= j < k < covering(addrs).len() ==> (#[trigger] covering(addrs)[j]).end() + 4096 <= (
            #[trigger] covering(addrs)[k]).start,
        span_addrs(covering(addrs)) == addrs,
{
    let pages = addrs.map_values(|a: usize| single(a));
    if addrs.len() == 0 {
        assert(span_addrs(covering(addrs)) =~= addrs);
    } else {
        let first = addrs[0];
        let tail = addrs.drop_first();
        assert(pages.drop_first() =~= tail.map_values(|a: usize| single(a)));
        lemma_page_base_monotone(first as int, first as int);
        assert forall|i: int| 0 <= i < tail.len() implies single(first).start <= #[trigger] tail[i]
            && single(first).end() <= page_base(tail[i] as int) + 4096 by {
            assert(tail[i] == addrs[i + 1]);
            lemma_page_base_monotone(first as int, tail[i] as int);
        }
        assert(ascending(tail)) by {
            assert forall|i: int, j: int| 0 <= i <= j < tail.len() implies tail[i] <= tail[j] by {
                assert(tail[i] == addrs[i + 1] && tail[j] == addrs[j + 1]);
            }
        }
        lemma_coalesce_from(single(first), tail);
        assert(single(first).addrs + tail =~= addrs);
    }
}

/// An address among those of some spans belongs to one of the spans.
proof fn lemma_span_addrs_member(spans: Seq<SpanView>, i: int) -> (k: int)
    requires
        0 <= i < span_addrs(spans).len(),
    ensures
        0 <= k < spans.len(),
        spans[k].addrs.contains(span_addrs(spans)[i]),
    decreases spans.len(),
{
    if i < spans[0].addrs.len() {
        assert(spans[0].addrs[i] == span_addrs(spans)[i]);
        0
    } else {
        let k = lemma_span_addrs_member(spans.drop_first(), i - spans[0].addrs.len());
        assert(spans.drop_first()[k] == spans[k + 1]);
        k + 1
    }
}

/// The addresses of spans with one more span at the end.
pub proof fn lemma_span_addrs_push(spans: Seq<SpanView>, last: SpanView)
    ensures
        span_addrs(spans.push(last)) == span_addrs(spans) + last.addrs,
    decreases spans.len(),
{
    if spans.len() == 0 {
        assert(spans.push(last).drop_first() =~= spans);
        assert(span_addrs(spans.push(last)) =~= span_addrs(spans) + last.addrs);
    } else {
        assert(spans.push(last).drop_first() =~= spans.drop_first().push(last));
        lemma_span_addrs_push(spans.drop_first(), last);
        assert(span_addrs(spans.push(last)) =~= span_addrs(spans) + last.addrs);
    }
}

/// Each address of each span is among the addresses of all the spans.
pub proof fn lemma_span_addrs_holds(spans: Seq<SpanView>, k: int, j: int)
    requires
        0 <= k < spans.len(),
        0 <= j < spans[k].addrs.len(),
    ensures
        span_addrs(spans).contains(spans[k].addrs[j]),
    decreases spans.len(),
{
    if k == 0 {
        assert(span_addrs(spans)[j] == spans[0].addrs[j]);
    } else {
        let rest = spans.drop_first();
        assert(rest[k - 1] == spans[k]);
        lemma_span_addrs_holds(rest, k - 1, j);
        let at = choose|at: int| 0 <= at < span_addrs(rest).len() && span_addrs(rest)[at] == spans[k].addrs[j];
        assert(span_addrs(spans)[spans[0].addrs.len() + at] == spans[k].addrs[j]);
    }
}

/// Sorting keeps every address as often as it was given, and the result
/// ascends.
pub proof fn law_sorted_ascends(addrs: Seq<usize>)
    ensures
        ascending(sorted(addrs)),
        sorted(addrs).to_multiset() == addrs.to_multiset(),
        sorted(addrs).len() == addrs.len(),
        forall|i: int| 0 <= i < addrs.len() ==> addrs.contains(#[trigger] sorted(addrs)[i]),
{
    let leq = |a: usize, b: usize| a <= b;
    assert(vstd::relations::total_ordering(leq));
    addrs.lemma_sort_by_ensures(leq);
    let out = sorted(addrs);
    assert(vstd::relations::sorted_by(out, leq));
    assert forall|i: int, j: int| 0 <= i <= j < out.len() implies out[i] <= out[j] by {
        if i < j {
            assert(leq(out[i], out[j]));
        }
    }
    vstd::seq_lib::to_multiset_len(addrs);
    vstd::seq_lib::to_multiset_len(out);
    assert forall|i: int| 0 <= i < addrs.len() implies addrs.contains(#[trigger] out[i]) by {
        assert(out.contains(out[i]));
    }
}

/// Every span made for ascending addresses starts on a page boundary, is a
/// positive whole number of pages long, and holds each of its addresses.
pub proof fn law_spans_well_formed(addrs: Seq<usize>)
    requires
        ascending(addrs),
    ensures
        forall|k: int| 0 <= k < covering(addrs).len() ==> (#[trigger] covering(addrs)[k]).wf(),
{
    lemma_covering(addrs);
}

/// The spans made for ascending addresses are strictly ordered by start and do
/// not overlap: each ends at least one page before the next one starts.
pub proof fn law_spans_apart(addrs: Seq<usize>)
    requires
        ascending(addrs),
    ensures
        forall|j: int, k: int|
            0 <= j < k < covering(addrs).len() ==> (#[trigger] covering(addrs)[j]).end() + 4096 <= (
            #[trigger] covering(addrs)[k]).start,
        forall|j: int, k: int|
            0 <= j < k < covering(addrs).len() ==> (#[trigger] covering(addrs)[j]).start < (
            #[trigger] covering(addrs)[k]).start,
{
    lemma_covering(addrs);
    assert forall|j: int, k: int| 0 <= j < k < covering(addrs).len() implies (
    #[trigger] covering(addrs)[j]).start < (#[trigger] covering(addrs)[k]).start by {
        assert(covering(addrs)[j].wf());
    }
}

/// The spans made for ascending addresses hold exactly those addresses, in the
/// order given, so each address occurs as often as it was given.
pub proof fn law_spans_keep_addresses(addrs: Seq<usize>)
    requires
        ascending(addrs),
    ensures
        span_addrs(covering(addrs)) == addrs,
        span_addrs(covering(addrs)).to_multiset() == addrs.to_multiset(),
{
    lemma_covering(addrs);
}

/// Each of the ascending addresses lies within exactly one of the spans made
/// for them.
pub proof fn law_address_in_one_span(addrs: Seq<usize>, i: int)
    requires
        ascending(addrs),
        0 <= i < addrs.len(),
    ensures
        exists|k: int|
            0 <= k < covering(addrs).len() && (#[trigger] covering(addrs)[k]).covers(addrs[i]),
        forall|j: int, k: int|
            0 <= j < covering(addrs).len() && 0 <= k < covering(addrs).len() && (
            #[trigger] covering(addrs)[j]).covers(addrs[i]) && (#[trigger] covering(addrs)[k]).covers(
                addrs[i],
            ) ==> j == k,
{
    lemma_covering(addrs);
    let spans = covering(addrs);
    let k = lemma_span_addrs_member(spans, i);
    assert(spans[k].wf());
    let at = choose|at: int| 0 <= at < spans[k].addrs.len() && spans[k].addrs[at] == addrs[i];
    assert(spans[k].covers(spans[k].addrs[at]));
    assert forall|j: int, m: int|
        0 <= j < spans.len() && 0 <= m < spans.len() && (#[trigger] spans[j]).covers(addrs[i]) && (
        #[trigger] spans[m]).covers(addrs[i]) implies j == m by {
        if j < m {
            assert(spans[j].end() + 4096 <= spans[m].start);
        } else if m < j {
            assert(spans[m].end() + 4096 <= spans[j].start);
        }
    }
}

} // verus!
