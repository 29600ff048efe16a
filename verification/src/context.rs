//! The debug information of an object, unit by unit: which unit covers an
//! address, which source line the address belongs to, and which functions it
//! lies in. Line tables and function indexes are made when first asked for,
//! and kept.

use crate::frames::{FileLocation, FileLocationView, FrameIter};
use crate::functions::{
    function_ranges, function_ranges_of, innermost_first, DieTag, FuncRange, FunctionIndex,
    UnitEntry,
};
use crate::symtab::{
    by_begin, clamped, find_unit, lines_of, location_view, nonempty, searchable, unit_ranges, Lines,
    Location, LocationView, RawRow, UnitRange,
};
use lazycell::LazyCell;
use vstd::prelude::*;

verus! {

/// `lazycell::LazyCell`: a cell that is filled once, the first time its
/// value is asked for.
#[verifier::external_type_specification]
#[verifier::external_body]
#[verifier::reject_recursive_types(T)]
pub struct ExLazyCell<T>(LazyCell<T>);

/// What is read out of the debug information of one compilation unit.
#[derive(Debug, Clone, PartialEq, Eq)]
pub struct UnitData {
    /// Where the unit starts in the section that holds all the units.
    pub start: usize,
    /// The size of the header of the unit.
    pub header_size: usize,
    /// The size of the entries of the unit, which follow its header.
    pub entries_len: usize,
    /// The language of the unit.
    pub lang: Option<u16>,
    /// The address ranges that the unit covers.
    pub ranges: Vec<(u64, u64)>,
    /// The names of the files of the line table, by file index.
    pub files: Vec<String>,
    /// The rows of the line program, if the unit has one.
    pub rows: Option<Vec<RawRow>>,
    /// The entries of the unit in the order of the walk through them, the
    /// root first.
    pub entries: Vec<UnitEntry>,
}

/// The names of files as characters.
pub open spec fn file_views(files: Seq<String>) -> Seq<Seq<char>> {
    files.map_values(|f: String| f@)
}

impl UnitData {
    /// Whether `lines` is the line information of the unit: none for a unit
    /// without a line program.
    pub open spec fn has_lines(&self, lines: Option<Lines>) -> bool {
        match self.rows {
            Some(rows) => lines matches Some(l) && lines_of(l, file_views(self.files@), rows@),
            None => lines is None,
        }
    }

    /// Whether `found` is what the line table of the unit gives for `probe`:
    /// what a search of the table finds, and nothing for a unit without a
    /// line program.
    pub open spec fn locates(&self, probe: u64, found: Option<LocationView>) -> bool {
        match self.rows {
            Some(rows) => exists|lines: Lines|
                lines_of(lines, file_views(self.files@), rows@) && #[trigger] lines.finds(probe, found),
            None => found is None,
        }
    }

    /// Whether `hits` are the function ranges of the unit that hold `probe`,
    /// the innermost first.
    pub open spec fn covers(&self, probe: u64, hits: Seq<FuncRange>) -> bool {
        innermost_first(hits) && hits.to_multiset() == function_ranges_of(
            self.entries@,
        ).to_multiset().filter(|f: FuncRange| f.holds(probe))
    }

    /// Whether `index` is the function index of the unit.
    pub open spec fn has_functions(&self, index: FunctionIndex) -> bool {
        index@ == function_ranges_of(self.entries@).to_multiset()
    }

    /// Whether the unit is a compilation unit: its entries begin with the
    /// root of one.
    pub open spec fn is_compile_unit(&self) -> bool {
        self.entries@.len() > 0 && self.entries@[0].tag == DieTag::CompileUnit
    }
}

fn copy_names(files: &Vec<String>) -> (copy: Vec<String>)
    ensures
        file_views(copy@) == file_views(files@),
{
    let mut copy: Vec<String> = Vec::new();
    let mut i: usize = 0;
    while i < files.len()
        invariant
            i <= files.len(),
            copy.len() == i,
            forall|k: int| 0 <= k < i ==> copy[k]@ == files[k]@,
        decreases files.len() - i,
    {
        copy.push(files[i].clone());
        i += 1;
    }
    assert(file_views(copy@) =~= file_views(files@));
    copy
}

/// One compilation unit, with its line table and its function index once
/// they have been asked for.
pub struct ResUnit {
    data: UnitData,
    lines: LazyCell<Option<Lines>>,
    funcs: LazyCell<FunctionIndex>,
}

/// `LazyCell::new`: a cell with nothing in it yet.
#[verifier::external_body]
fn empty_cell<T>() -> (cell: LazyCell<T>) {
    LazyCell::new()
}

impl ResUnit {
    /// What was read of the unit.
    pub closed spec fn data(&self) -> UnitData {
        self.data
    }

    fn new(data: UnitData) -> (unit: ResUnit)
        ensures
            unit.data() == data,
    {
        ResUnit { data, lines: empty_cell(), funcs: empty_cell() }
    }

    /// What was read of the unit.
    pub fn unit_data(&self) -> (data: &UnitData)
        ensures
            *data == self.data(),
    {
        &self.data
    }

    fn build_lines(&self) -> (lines: Option<Lines>)
        ensures
            self.data().has_lines(lines),
    {
        match &self.data.rows {
            Some(rows) => {
                let lines = Lines::new(copy_names(&self.data.files), rows);
                Some(lines)
            },
            None => None,
        }
    }

    fn build_functions(&self) -> (index: FunctionIndex)
        ensures
            self.data().has_functions(index),
    {
        FunctionIndex::new(function_ranges(&self.data.entries))
    }

    /// `LazyCell::borrow_with` on the cell of the line table: what the cell
    /// holds, which is what `build_lines` gave when the cell was first asked.
    #[verifier::external_body]
    fn cached_lines(&self) -> (lines: &Option<Lines>)
        ensures
            self.data().has_lines(*lines),
    {
        self.lines.borrow_with(|| self.build_lines())
    }

    /// `LazyCell::borrow_with` on the cell of the function index: what the
    /// cell holds, which is what `build_functions` gave when the cell was
    /// first asked.
    #[verifier::external_body]
    fn cached_functions(&self) -> (index: &FunctionIndex)
        ensures
            self.data().has_functions(*index),
    {
        self.funcs.borrow_with(|| self.build_functions())
    }

    /// The line table of the unit, made when first asked for; none for a unit
    /// without a line program.
    pub fn parse_lines(&self) -> (lines: &Option<Lines>)
        ensures
            self.data().has_lines(*lines),
    {
        self.cached_lines()
    }

    /// The function index of the unit, made when first asked for.
    pub fn parse_functions(&self) -> (index: &FunctionIndex)
        ensures
            self.data().has_functions(*index),
    {
        self.cached_functions()
    }

    /// The source location of `probe` by the line table of the unit; none for
    /// a unit without a line program.
    pub fn find_location(&self, probe: u64) -> (found: Option<Location<'_>>)
        ensures
            self.data().locates(probe, location_view(found)),
    {
        match self.cached_lines() {
            Some(lines) => {
                let found = lines.find_location(probe);
                assert(lines.finds(probe, location_view(found)));
                found
            },
            None => None,
        }
    }

    /// The function ranges of the unit that hold `probe`, the innermost
    /// first.
    pub fn find_functions(&self, probe: u64) -> (hits: Vec<FuncRange>)
        ensures
            self.data().covers(probe, hits@),
    {
        self.cached_functions().find(probe)
    }
}

/// The location of a frame as a location of a line table.
pub open spec fn as_location(location: Option<FileLocationView>) -> Option<LocationView> {
    match location {
        Some(l) => Some(LocationView { file: l.file, line: l.line, column: l.column }),
        None => None,
    }
}

/// The ranges of all the units, unit after unit, each with the number of its
/// unit.
pub open spec fn raw_ranges(units: Seq<UnitData>) -> Seq<UnitRange>
    decreases units.len(),
{
    if units.len() == 0 {
        Seq::empty()
    } else {
        raw_ranges(units.drop_last()) + units.last().ranges@.map_values(
            |r: (u64, u64)| UnitRange { begin: r.0, end: r.1, unit: (units.len() - 1) as usize },
        )
    }
}

/// Whether no range of a unit ends before it begins.
pub open spec fn ranges_forward(units: Seq<UnitData>) -> bool {
    forall|u: int, k: int|
        0 <= u < units.len() && 0 <= k < units[u].ranges@.len() ==> (#[trigger] units[u].ranges@[k]).0
            <= units[u].ranges@[k].1
}

/// The units that are compilation units, in the order given.
pub open spec fn compile_units(units: Seq<UnitData>) -> Seq<UnitData> {
    units.filter(|u: UnitData| u.is_compile_unit())
}

/// What was read of each unit, in order.
pub open spec fn unit_datas(units: Seq<ResUnit>) -> Seq<UnitData> {
    units.map_values(|u: ResUnit| u.data())
}

/// The debug information of an object.
pub struct Context {
    unit_ranges: Vec<UnitRange>,
    units: Vec<ResUnit>,
}

impl Context {
    fn keep_compile_units(units: Vec<UnitData>) -> (kept: Vec<UnitData>)
        ensures
            kept@ == compile_units(units@),
    {
        let ghost given = units@;
        let mut units = units;
        let n = units.len();
        // take the units out from the back, so that each is moved and not copied
        let mut tail: Vec<UnitData> = Vec::new();
        let mut j: usize = 0;
        while j < n
            invariant
                j <= n,
                n == given.len(),
                units@ == given.take(n - j),
                tail@.len() == j,
                forall|k: int| 0 <= k < j ==> #[trigger] tail@[k] == given[n - 1 - k],
            decreases n - j,
        {
            let data = units.pop().unwrap();
            assert(data == given[n - 1 - j]);
            tail.push(data);
            assert(units@ =~= given.take(n - j - 1));
            j += 1;
        }
        let mut kept: Vec<UnitData> = Vec::new();
        let mut m: usize = 0;
        proof {
            reveal(Seq::filter);
            assert(given.take(0) =~= Seq::<UnitData>::empty());
        }
        while m < n
            invariant
                m <= n,
                n == given.len(),
                tail@.len() == n - m,
                forall|k: int| 0 <= k < n - m ==> #[trigger] tail@[k] == given[n - 1 - k],
                kept@ == compile_units(given.take(m as int)),
            decreases n - m,
        {
            let data = tail.pop().unwrap();
            proof {
                reveal(Seq::filter);
                assert(data == given[m as int]);
                assert(given.take(m + 1).drop_last() =~= given.take(m as int));
                assert(given.take(m + 1).last() == data);
            }
            let root = data.entries.len() > 0 && matches!(data.entries[0].tag, DieTag::CompileUnit);
            if root {
                kept.push(data);
            }
            m += 1;
        }
        assert(given.take(m as int) =~= given);
        kept
    }

    /// The ranges by which the unit of an address is found.
    pub closed spec fn ranges(&self) -> Seq<UnitRange> {
        self.unit_ranges@
    }

    /// What was read of each unit.
    pub closed spec fn datas(&self) -> Seq<UnitData> {
        unit_datas(self.units@)
    }

    #[verifier::type_invariant]
    spec fn units_exist(self) -> bool {
        forall|i: int| 0 <= i < self.unit_ranges@.len() ==> (#[trigger] self.unit_ranges@[i]).unit < self.units@.len()
    }

    /// The debug information made of what was read of each unit. Units that
    /// are no compilation units are passed over. The ranges of the others
    /// are put together for searching: empty ranges are dropped and overlap
    /// is cut away; which unit gets an address that two units cover is left
    /// open.
    pub fn from_dwarf(units: Vec<UnitData>) -> (context: Context)
        ensures
            context.datas() == compile_units(units@),
            exists|ordered: Seq<UnitRange>|
                by_begin(ordered) && ordered.to_multiset() == nonempty(
                    raw_ranges(compile_units(units@)),
                ).to_multiset() && #[trigger] clamped(ordered, 0) == context.ranges(),
            ranges_forward(compile_units(units@)) ==> searchable(context.ranges()),
    {
        let units = Self::keep_compile_units(units);
        let ghost given = units@;
        let mut res_units: Vec<ResUnit> = Vec::new();
        let mut raw: Vec<UnitRange> = Vec::new();
        let mut units = units;
        let n = units.len();
        // take the units out from the back, so that each is moved and not copied
        let mut tail: Vec<ResUnit> = Vec::new();
        let mut i: usize = 0;
        assert(given.take(0) =~= Seq::<UnitData>::empty());
        while i < n
            invariant
                i <= n,
                n == given.len(),
                units@ == given,
                raw@ == raw_ranges(given.take(i as int)),
                forall|k: int| 0 <= k < raw@.len() ==> (#[trigger] raw@[k]).unit < i,
                ranges_forward(given) ==> forall|k: int|
                    0 <= k < raw@.len() ==> (#[trigger] raw@[k]).begin <= raw@[k].end,
            decreases n - i,
        {
            let unit = &units[i];
            let ghost before = raw@;
            let mut r: usize = 0;
            proof {
                assert(given.take(i + 1).drop_last() =~= given.take(i as int));
                assert(given.take(i + 1).last() == given[i as int]);
                assert(unit.ranges@.take(0) =~= Seq::<(u64, u64)>::empty());
            }
            while r < unit.ranges.len()
                invariant
                    r <= unit.ranges.len(),
                    i < n,
                    n == given.len(),
                    *unit == given[i as int],
                    raw@ == before + unit.ranges@.take(r as int).map_values(
                        |p: (u64, u64)| UnitRange { begin: p.0, end: p.1, unit: i },
                    ),
                decreases unit.ranges.len() - r,
            {
                let (begin, end) = unit.ranges[r];
                raw.push(UnitRange { begin, end, unit: i });
                proof {
                    assert(unit.ranges@.take(r + 1) =~= unit.ranges@.take(r as int).push((begin, end)));
                    assert(raw@ =~= before + unit.ranges@.take(r + 1).map_values(
                        |p: (u64, u64)| UnitRange { begin: p.0, end: p.1, unit: i },
                    ));
                }
                r += 1;
            }
            proof {
                assert(unit.ranges@.take(r as int) =~= unit.ranges@);
                assert(raw@ =~= raw_ranges(given.take(i + 1)));
                assert forall|k: int| 0 <= k < raw@.len() implies (#[trigger] raw@[k]).unit < i + 1 by {
                    if k < before.len() {
                        assert(raw@[k] == before[k]);
                    }
                }
                if ranges_forward(given) {
                    assert forall|k: int| 0 <= k < raw@.len() implies (#[trigger] raw@[k]).begin
                        <= raw@[k].end by {
                        if k < before.len() {
                            assert(raw@[k] == before[k]);
                        } else {
                            let r2 = k - before.len();
                            assert(given[i as int].ranges@[r2].0 <= given[i as int].ranges@[r2].1);
                        }
                    }
                }
            }
            i += 1;
        }
        assert(given.take(i as int) =~= given);
        let ghost raw_all = raw@;
        let unit_ranges = unit_ranges(raw);
        proof {
            let ordered = choose|ordered: Seq<UnitRange>|
                by_begin(ordered) && ordered.to_multiset() == nonempty(raw_all).to_multiset()
                    && #[trigger] clamped(ordered, 0) == unit_ranges@;
            crate::symtab::lemma_clamped(ordered, 0);
            assert forall|k: int| 0 <= k < unit_ranges@.len() implies (#[trigger] unit_ranges@[k]).unit
                < n by {
                let o = ordered[k];
                assert(unit_ranges@[k].unit == o.unit);
                assert(ordered.contains(o));
                ordered.to_multiset_ensures();
                nonempty(raw_all).to_multiset_ensures();
                assert(ordered.to_multiset().count(o) > 0);
                assert(nonempty(raw_all).to_multiset().count(o) > 0);
                assert(nonempty(raw_all).contains(o));
                raw_all.lemma_filter_contains_rev(|r: UnitRange| r.begin != r.end, o);
                let at = choose|at: int| 0 <= at < raw_all.len() && raw_all[at] == o;
                assert(raw_all[at].unit < n);
            }
        }
        // now the units themselves, in order
        let mut j: usize = 0;
        while j < n
            invariant
                j <= n,
                n == given.len(),
                units@.len() == n - j,
                units@ == given.take(n - j),
                tail@.len() == j,
                forall|k: int| 0 <= k < j ==> (#[trigger] tail@[k]).data() == given[n - 1 - k],
            decreases n - j,
        {
            let data = units.pop().unwrap();
            assert(data == given[n - 1 - j]);
            tail.push(ResUnit::new(data));
            assert(units@ =~= given.take(n - j - 1));
            j += 1;
        }
        let mut m: usize = 0;
        while m < n
            invariant
                m <= n,
                n == given.len(),
                tail@.len() == n - m,
                res_units@.len() == m,
                forall|k: int| 0 <= k < n - m ==> (#[trigger] tail@[k]).data() == given[n - 1 - k],
                forall|k: int| 0 <= k < m ==> (#[trigger] res_units@[k]).data() == given[k],
            decreases n - m,
        {
            let unit = tail.pop().unwrap();
            res_units.push(unit);
            m += 1;
        }
        assert(unit_datas(res_units@) =~= given);
        Context { unit_ranges, units: res_units }
    }

    /// The units.
    pub fn units(&self) -> (units: &Vec<ResUnit>)
        ensures
            unit_datas(units@) == self.datas(),
    {
        &self.units
    }

    /// The ranges by which the unit of an address is found.
    pub fn unit_ranges(&self) -> (ranges: &Vec<UnitRange>)
        ensures
            ranges@ == self.ranges(),
            forall|i: int| 0 <= i < ranges@.len() ==> (#[trigger] ranges@[i]).unit < self.datas().len(),
    {
        proof {
            use_type_invariant(self);
            assert(self.datas().len() == self.units@.len());
        }
        &self.unit_ranges
    }

    /// Whether `unit` is what a search for the unit of `probe` may give: a
    /// unit is that of a range that holds `probe`; among searchable ranges
    /// there is no unit only when no range holds `probe`.
    pub open spec fn unit_for(&self, probe: u64, unit: Option<usize>) -> bool {
        match unit {
            Some(unit) => unit < self.datas().len() && exists|i: int|
                0 <= i < self.ranges().len() && (#[trigger] self.ranges()[i]).holds(probe)
                    && self.ranges()[i].unit == unit,
            None => searchable(self.ranges()) ==> forall|i: int|
                0 <= i < self.ranges().len() ==> !(#[trigger] self.ranges()[i]).holds(probe),
        }
    }

    /// The number of the unit that covers `probe`.
    pub fn find_unit(&self, probe: u64) -> (found: Option<usize>)
        ensures
            self.unit_for(probe, found),
    {
        proof {
            use_type_invariant(self);
            assert(self.datas().len() == self.units@.len());
        }
        let found = find_unit(&self.unit_ranges, probe);
        proof {
            if let Some(unit) = found {
                let ranges = &self.unit_ranges;
                let i = choose|i: int|
                    0 <= i < ranges.len() && (#[trigger] ranges[i]).holds(probe) && ranges[i].unit
                        == unit;
                assert(self.unit_ranges@[i].unit < self.units@.len());
                assert(self.ranges()[i].holds(probe) && self.ranges()[i].unit == unit);
            }
        }
        found
    }

    /// Find the source file and line corresponding to the given virtual memory
    /// address: the location by the line table of the unit that covers it,
    /// and none where no unit covers it.
    pub fn find_location(&self, probe: u64) -> (found: Option<Location<'_>>)
        ensures
            exists|unit: Option<usize>|
                #![trigger self.unit_for(probe, unit)]
                self.unit_for(probe, unit) && match unit {
                    Some(u) => self.datas()[u as int].locates(probe, location_view(found)),
                    None => found is None,
                },
    {
        let unit = self.find_unit(probe);
        match unit {
            Some(unit_id) => {
                let found = self.units[unit_id].find_location(probe);
                proof {
                    assert(self.datas()[unit_id as int] == self.units@[unit_id as int].data());
                    assert(self.unit_for(probe, unit));
                }
                found
            },
            None => {
                assert(self.unit_for(probe, unit));
                None
            },
        }
    }

    /// Return an iterator for the function frames corresponding to the given
    /// virtual memory address.
    ///
    /// If the probe address is not for an inline function then only one frame
    /// is returned.
    ///
    /// If the probe address is for an inline function then the first frame
    /// corresponds to the innermost inline function.  Subsequent frames
    /// contain the caller and call location, until an non-inline caller is
    /// reached.
    pub fn find_frames(&self, probe: u64) -> (frames: FrameIter<'_>)
        ensures
            frames@.units == self.datas(),
            exists|unit: Option<usize>|
                #![trigger self.unit_for(probe, unit)]
                self.unit_for(probe, unit) && match unit {
                    Some(u) => {
                        let data = self.datas()[u as int];
                        &&& frames@.unit_id == u
                        &&& data.covers(probe, frames@.funcs)
                        &&& data.locates(probe, as_location(frames@.next))
                    },
                    None => frames@.funcs.len() == 0 && frames@.next is None,
                },
    {
        let found = self.find_unit(probe);
        match found {
            Some(unit_id) => {
                let unit = &self.units[unit_id];
                let at = unit.find_location(probe);
                let location = match at {
                    Some(found) => Some(
                        FileLocation {
                            file: match found.file {
                                Some(name) => Some(name.to_owned()),
                                None => None,
                            },
                            line: found.line,
                            column: found.column,
                        },
                    ),
                    None => None,
                };
                let funcs = unit.find_functions(probe);
                let frames = FrameIter::new(&self.units, unit_id, funcs, location);
                proof {
                    assert(self.datas()[unit_id as int] == unit.data());
                    assert(as_location(frames@.next) == location_view(at));
                    assert(self.unit_for(probe, found));
                }
                frames
            },
            None => {
                proof {
                    assert(self.unit_for(probe, found));
                }
                FrameIter::new(&self.units, 0, Vec::new(), None)
            },
        }
    }

    /// Initialize all line data structures. This is used for benchmarks.
    pub fn parse_lines(&self) {
        let mut i: usize = 0;
        while i < self.units.len()
            invariant
                i <= self.units.len(),
            decreases self.units.len() - i,
        {
            let _ = self.units[i].parse_lines();
            i += 1;
        }
    }

    /// Initialize all function data structures. This is used for benchmarks.
    pub fn parse_functions(&self) {
        let mut i: usize = 0;
        while i < self.units.len()
            invariant
                i <= self.units.len(),
            decreases self.units.len() - i,
        {
            let _ = self.units[i].parse_functions();
            i += 1;
        }
    }
}

} // verus!
