//! The function index of a compilation unit: which functions, inlined ones
//! among them, cover an address, innermost first.

use intervaltree::{Element, IntervalTree};
use vstd::multiset::Multiset;
use vstd::prelude::*;

verus! {

/// `intervaltree::IntervalTree`: an immutable tree of ranges with a value
/// each, to be asked for the ranges that hold a point.
#[verifier::external_type_specification]
#[verifier::external_body]
#[verifier::reject_recursive_types(K)]
#[verifier::reject_recursive_types(V)]
pub struct ExIntervalTree<K, V>(IntervalTree<K, V>);

/// What kind of entry of the debug information an entry is.
#[derive(Debug, Clone, Copy, PartialEq, Eq, Structural)]
pub enum DieTag {
    /// The root of a compilation unit.
    CompileUnit,
    /// A function.
    Subprogram,
    /// A function inlined into another.
    InlinedSubroutine,
    /// Anything else.
    Other,
}

/// Where an entry points for what it does not say itself: its abstract
/// origin, or else its specification.
#[derive(Debug, Clone, Copy, PartialEq, Eq, Structural)]
pub enum Reference {
    /// The entry points nowhere.
    Nowhere,
    /// The entry points to the entry at this offset in its own unit.
    Unit(usize),
    /// The entry points to the entry at this offset in the section that
    /// holds all the units.
    Info(usize),
}

/// One entry of the debug information of a unit, as read on the walk through
/// the tree of entries.
#[derive(Debug, Clone, PartialEq, Eq)]
pub struct UnitEntry {
    /// Where the entry stands in its unit.
    pub offset: usize,
    /// How deep the entry lies in the tree.
    pub depth: i64,
    /// What the entry is.
    pub tag: DieTag,
    /// The address ranges that the entry covers.
    pub ranges: Vec<(u64, u64)>,
    /// The linkage name.
    pub linkage_name: Option<String>,
    /// The linkage name under its older attribute.
    pub mips_linkage_name: Option<String>,
    /// The plain name.
    pub name: Option<String>,
    /// Where to look on for a name.
    pub origin: Reference,
    /// The file of the call, for an inlined function, as a place in the
    /// unit's table of files.
    pub call_file: Option<u64>,
    /// The line of the call, for an inlined function.
    pub call_line: Option<u64>,
    /// The column of the call, for an inlined function.
    pub call_column: Option<u64>,
}

/// A range of addresses that a function covers.
#[derive(Debug, Clone, Copy, PartialEq, Eq, Structural)]
pub struct FuncRange {
    /// The first address of the range.
    pub begin: u64,
    /// One past the last address of the range.
    pub end: u64,
    /// Where the entry of the function stands in its unit.
    pub entry: usize,
    /// How deep the entry lies in the tree of entries.
    pub depth: i64,
}

impl FuncRange {
    /// Whether the range holds `probe`.
    pub open spec fn holds(self, probe: u64) -> bool {
        self.begin <= probe < self.end
    }
}

/// Whether an entry is a function, inlined or not.
pub open spec fn is_function(entry: UnitEntry) -> bool {
    entry.tag == DieTag::Subprogram || entry.tag == DieTag::InlinedSubroutine
}

/// The ranges of one entry that count: those of a function or an inlined
/// function, but for ranges that begin at address zero.
pub open spec fn ranges_at(entry: UnitEntry, ranges: Seq<(u64, u64)>) -> Seq<FuncRange>
    decreases ranges.len(),
{
    if ranges.len() == 0 || !is_function(entry) {
        Seq::empty()
    } else {
        let before = ranges_at(entry, ranges.drop_last());
        let (begin, end) = ranges.last();
        if begin == 0 {
            before
        } else {
            before.push(FuncRange { begin, end, entry: entry.offset, depth: entry.depth })
        }
    }
}

/// The function ranges of all the entries, entry after entry.
pub open spec fn function_ranges_of(entries: Seq<UnitEntry>) -> Seq<FuncRange>
    decreases entries.len(),
{
    if entries.len() == 0 {
        Seq::empty()
    } else {
        function_ranges_of(entries.drop_last()) + ranges_at(entries.last(), entries.last().ranges@)
    }
}

/// The address ranges of the functions of a unit, each with the place and
/// the depth of its entry.
pub fn function_ranges(entries: &Vec<UnitEntry>) -> (ranges: Vec<FuncRange>)
    ensures
        ranges@ == function_ranges_of(entries@),
{
    let mut results: Vec<FuncRange> = Vec::new();
    let mut i: usize = 0;
    assert(entries@.take(0) =~= Seq::<UnitEntry>::empty());
    while i < entries.len()
        invariant
            i <= entries.len(),
            results@ == function_ranges_of(entries@.take(i as int)),
        decreases entries.len() - i,
    {
        let entry = &entries[i];
        proof {
            assert(entries@.take(i + 1).drop_last() =~= entries@.take(i as int));
            assert(entries@.take(i + 1).last() == *entry);
        }
        match entry.tag {
            DieTag::Subprogram | DieTag::InlinedSubroutine => {
                let mut r: usize = 0;
                let ghost before = results@;
                assert(entry.ranges@.take(0) =~= Seq::<(u64, u64)>::empty());
                assert(results@ =~= before + ranges_at(*entry, entry.ranges@.take(0)));
                while r < entry.ranges.len()
                    invariant
                        r <= entry.ranges.len(),
                        is_function(*entry),
                        results@ == before + ranges_at(*entry, entry.ranges@.take(r as int)),
                    decreases entry.ranges.len() - r,
                {
                    let (begin, end) = entry.ranges[r];
                    proof {
                        assert(entry.ranges@.take(r + 1).drop_last() =~= entry.ranges@.take(r as int));
                        assert(entry.ranges@.take(r + 1).last() == (begin, end));
                    }
                    // Ignore invalid DWARF so that a query of 0 does not give
                    // a long list of matches.
                    if begin != 0 {
                        results.push(
                            FuncRange { begin, end, entry: entry.offset, depth: entry.depth },
                        );
                    }
                    proof {
                        assert(results@ =~= before + ranges_at(*entry, entry.ranges@.take(r + 1)));
                    }
                    r += 1;
                }
                assert(entry.ranges@.take(r as int) =~= entry.ranges@);
            },
            DieTag::CompileUnit | DieTag::Other => {
                assert(results@ =~= results@ + ranges_at(*entry, entry.ranges@));
            },
        }
        i += 1;
    }
    assert(entries@.take(i as int) =~= entries@);
    results
}

/// The function ranges that an interval tree holds.
pub uninterp spec fn tree_items(tree: IntervalTree<u64, (usize, i64)>) -> Multiset<FuncRange>;

/// `FromIterator::from_iter` of the interval tree: the tree that holds each
/// of the ranges, as often as it is given.
#[verifier::external_body]
fn build_tree(ranges: Vec<FuncRange>) -> (tree: IntervalTree<u64, (usize, i64)>)
    ensures
        tree_items(tree) == ranges@.to_multiset(),
{
    ranges.into_iter().map(|f| Element { range: f.begin..f.end, value: (f.entry, f.depth) }).collect()
}

/// `IntervalTree::query_point`: the ranges of the tree that hold `probe`,
/// each as often as the tree holds it, in no stated order.
#[verifier::external_body]
fn query_tree(tree: &IntervalTree<u64, (usize, i64)>, probe: u64) -> (hits: Vec<FuncRange>)
    ensures
        hits@.to_multiset() == tree_items(*tree).filter(|f: FuncRange| f.holds(probe)),
{
    tree.query_point(probe).map(|e| FuncRange {
        begin: e.range.start,
        end: e.range.end,
        entry: e.value.0,
        depth: e.value.1,
    }).collect()
}

/// Whether no range lies deeper than one before it.
pub open spec fn innermost_first(hits: Seq<FuncRange>) -> bool {
    forall|i: int, j: int| 0 <= i <= j < hits.len() ==> (#[trigger] hits[i]).depth >= (#[trigger] hits[j]).depth
}

/// Whether no range lies deeper than one after it.
pub open spec fn outermost_first(hits: Seq<FuncRange>) -> bool {
    forall|i: int, j: int| 0 <= i <= j < hits.len() ==> (#[trigger] hits[i]).depth <= (#[trigger] hits[j]).depth
}

/// `slice::sort_by_key` on ranges, by their depth: afterwards no range lies
/// deeper than one after it, and each range occurs as often as before.
#[verifier::external_body]
fn sort_by_depth(hits: &mut Vec<FuncRange>)
    ensures
        outermost_first(final(hits)@),
        final(hits)@.to_multiset() == old(hits)@.to_multiset(),
{
    hits.sort_by_key(|x| x.depth);
}

/// The ranges in the opposite order.
fn reversed(hits: &Vec<FuncRange>) -> (out: Vec<FuncRange>)
    ensures
        out@ == hits@.reverse(),
{
    let mut out: Vec<FuncRange> = Vec::new();
    let n = hits.len();
    let mut i: usize = 0;
    while i < n
        invariant
            i <= n,
            n == hits.len(),
            out.len() == i,
            forall|k: int| 0 <= k < i ==> out[k] == hits[n - 1 - k],
        decreases n - i,
    {
        out.push(hits[n - 1 - i]);
        i += 1;
    }
    assert(out@ =~= hits@.reverse());
    out
}

/// The functions of a unit, to be asked which of them cover an address.
pub struct FunctionIndex {
    tree: IntervalTree<u64, (usize, i64)>,
}

impl View for FunctionIndex {
    type V = Multiset<FuncRange>;

    closed spec fn view(&self) -> Multiset<FuncRange> {
        tree_items(self.tree)
    }
}

impl FunctionIndex {
    /// The index of the given ranges.
    pub fn new(ranges: Vec<FuncRange>) -> (index: FunctionIndex)
        ensures
            index@ == ranges@.to_multiset(),
    {
        FunctionIndex { tree: build_tree(ranges) }
    }

    /// The ranges that hold `probe`, the innermost first. Which of two ranges
    /// at the same depth comes first is left open.
    pub fn find(&self, probe: u64) -> (hits: Vec<FuncRange>)
        ensures
            hits@.to_multiset() == self@.filter(|f: FuncRange| f.holds(probe)),
            innermost_first(hits@),
    {
        let mut hits = query_tree(&self.tree, probe);
        sort_by_depth(&mut hits);
        let out = reversed(&hits);
        proof {
            hits@.lemma_reverse_to_multiset();
        }
        out
    }
}

/// Every range that an index hands back for an address holds that address and
/// is a range of the index, and every range of the index that holds the
/// address is handed back.
pub proof fn law_find_is_exact(index: Multiset<FuncRange>, hits: Seq<FuncRange>, probe: u64)
    requires
        hits.to_multiset() == index.filter(|f: FuncRange| f.holds(probe)),
    ensures
        forall|i: int| 0 <= i < hits.len() ==> (#[trigger] hits[i]).holds(probe) && index.contains(hits[i]),
        forall|f: FuncRange| #[trigger] index.contains(f) && f.holds(probe) ==> hits.contains(f),
{
    broadcast use vstd::multiset::axiom_filter_count;

    let holds = |f: FuncRange| f.holds(probe);
    hits.to_multiset_ensures();
    assert forall|i: int| 0 <= i < hits.len() implies (#[trigger] hits[i]).holds(probe)
        && index.contains(hits[i]) by {
        assert(hits.contains(hits[i]));
        assert(hits.to_multiset().count(hits[i]) > 0);
        assert(index.filter(holds).count(hits[i]) > 0);
    }
    assert forall|f: FuncRange| #[trigger] index.contains(f) && f.holds(probe) implies hits.contains(
        f,
    ) by {
        assert(index.filter(holds).count(f) == index.count(f));
        assert(hits.to_multiset().count(f) > 0);
    }
}

} // verus!
