//! From line programs to breakpoints: which rows of a compilation unit's line
//! table become breakpoints, and at which addresses.

use crate::filter::{allowed, Filter};
use crate::paths::{join, path_join};
use crate::srcloc::{Location, LocationView, SrcPath, SrcPathView};
use vstd::prelude::*;

verus! {

/// One row of a line table, with the name of its file looked up.
#[derive(Debug, Clone, PartialEq, Eq)]
pub struct LineEntry {
    /// The address of the instruction, as the object file states it.
    pub address: u64,
    /// Whether the instruction begins a statement.
    pub is_stmt: bool,
    /// Which entry of the unit's directory table holds the file.
    pub dir_index: u64,
    /// The name of the file.
    pub file_name: String,
    /// The line, where the table gives one.
    pub line: Option<u64>,
}

/// The line information of one compilation unit.
#[derive(Debug, Clone, PartialEq, Eq)]
pub struct LineUnit {
    /// The directory that the unit was compiled in, where it is recorded.
    pub comp_dir: Option<String>,
    /// The directory table.
    pub dirs: Vec<String>,
    /// The rows of the line table, as the line program gives them.
    pub rows: Vec<LineEntry>,
}

/// The mathematical content of a [`LineEntry`].
pub struct LineEntryView {
    pub address: u64,
    pub is_stmt: bool,
    pub dir_index: u64,
    pub file_name: Seq<char>,
    pub line: Option<u64>,
}

/// The mathematical content of a [`LineUnit`].
pub struct LineUnitView {
    pub comp_dir: Option<Seq<char>>,
    pub dirs: Seq<Seq<char>>,
    pub rows: Seq<LineEntryView>,
}

impl View for LineEntry {
    type V = LineEntryView;

    open spec fn view(&self) -> LineEntryView {
        LineEntryView {
            address: self.address,
            is_stmt: self.is_stmt,
            dir_index: self.dir_index,
            file_name: self.file_name@,
            line: self.line,
        }
    }
}

impl View for LineUnit {
    type V = LineUnitView;

    open spec fn view(&self) -> LineUnitView {
        LineUnitView {
            comp_dir: match self.comp_dir {
                Some(dir) => Some(dir@),
                None => None,
            },
            dirs: self.dirs@.map_values(|d: String| d@),
            rows: self.rows@.map_values(|r: LineEntry| r@),
        }
    }
}

/// Why the rows of a unit could not be turned into breakpoints.
#[derive(Debug, Clone, Copy, PartialEq, Eq, Structural)]
pub enum LineError {
    /// An address together with the load bias is beyond the address space.
    AddressOverflow,
}

impl LineUnitView {
    /// The compilation directory, or `.` where none is recorded.
    pub open spec fn base_dir(self) -> Seq<char> {
        match self.comp_dir {
            Some(dir) => dir,
            None => "."@,
        }
    }

    /// The directory at `index` of the table, taken relative to the
    /// compilation directory.
    pub open spec fn dir_name(self, index: int) -> Seq<char> {
        path_join(self.base_dir(), self.dirs[index])
    }

    /// Whether a row becomes a breakpoint: it begins a statement, and its
    /// directory is in the table and passes the filter.
    pub open spec fn keeps(self, keep: Seq<Seq<char>>, exclude: Seq<Seq<char>>, row: LineEntryView) -> bool {
        &&& row.is_stmt
        &&& row.dir_index < self.dirs.len()
        &&& allowed(keep, exclude, self.dir_name(row.dir_index as int))
    }

    /// The source position of a row that is kept.
    pub open spec fn position(self, row: LineEntryView) -> LocationView {
        LocationView {
            srcpath: SrcPathView {
                dir: self.dir_name(row.dir_index as int),
                file: row.file_name,
            },
            line: line_number(row.line),
            replaced: None,
        }
    }
}

/// The line of a row as a 32-bit number: zero where the table gives none, and
/// the low 32 bits where it gives more.
pub open spec fn line_number(line: Option<u64>) -> u32 {
    match line {
        Some(n) => (n % 0x1_0000_0000) as u32,
        None => 0,
    }
}

/// The breakpoints of the rows, in the order of the rows: for each row kept,
/// its address moved by the load bias, and its source position.
pub open spec fn breakpoints_of(
    unit: LineUnitView,
    rows: Seq<LineEntryView>,
    keep: Seq<Seq<char>>,
    exclude: Seq<Seq<char>>,
    bias: u64,
) -> Seq<(u64, LocationView)>
    decreases rows.len(),
{
    if rows.len() == 0 {
        Seq::empty()
    } else {
        let before = breakpoints_of(unit, rows.drop_last(), keep, exclude, bias);
        let row = rows.last();
        if unit.keeps(keep, exclude, row) {
            before.push(((row.address + bias) as u64, unit.position(row)))
        } else {
            before
        }
    }
}

/// Whether the address of some row that is kept, moved by the load bias, is
/// beyond the address space.
pub open spec fn overflows(
    unit: LineUnitView,
    rows: Seq<LineEntryView>,
    keep: Seq<Seq<char>>,
    exclude: Seq<Seq<char>>,
    bias: u64,
) -> bool {
    exists|i: int|
        0 <= i < rows.len() && unit.keeps(keep, exclude, #[trigger] rows[i]) && rows[i].address
            + bias > u64::MAX
}

/// The breakpoints of a list, each location as its view.
pub open spec fn breakpoint_views(list: Seq<(u64, Location)>) -> Seq<(u64, LocationView)> {
    list.map_values(|b: (u64, Location)| (b.0, b.1@))
}

fn low_line(line: Option<u64>) -> (n: u32)
    ensures
        n == line_number(line),
{
    match line {
        Some(n) => {
            assert(n & 0xffff_ffff == n % 0x1_0000_0000) by (bit_vector);
            (n & 0xffff_ffff) as u32
        },
        None => 0,
    }
}

/// The breakpoints of one compilation unit of an object loaded at `bias`:
/// for every row that begins a statement in a directory that passes the
/// filter, the address at run time and the source position.
pub fn unit_breakpoints(unit: &LineUnit, filter: &Filter, bias: u64) -> (r: Result<
    Vec<(u64, Location)>,
    LineError,
>)
    ensures
        match r {
            Ok(list) => !overflows(unit@, unit@.rows, filter.keeping(), filter.excluding(), bias)
                && breakpoint_views(list@) == breakpoints_of(
                unit@,
                unit@.rows,
                filter.keeping(),
                filter.excluding(),
                bias,
            ),
            Err(_) => overflows(unit@, unit@.rows, filter.keeping(), filter.excluding(), bias),
        },
{
    let ghost keep = filter.keeping();
    let ghost exclude = filter.excluding();
    let ghost view = unit@;
    let base: &str = match &unit.comp_dir {
        Some(dir) => dir.as_str(),
        None => ".",
    };
    assert(base@ == view.base_dir());
    // Directory-level filter, indexed by the per-unit directory index number.
    let mut allowed_dirs: Vec<(String, bool)> = Vec::new();
    let mut d: usize = 0;
    while d < unit.dirs.len()
        invariant
            d <= unit.dirs.len(),
            view == unit@,
            base@ == view.base_dir(),
            keep == filter.keeping(),
            exclude == filter.excluding(),
            allowed_dirs.len() == d,
            forall|k: int|
                0 <= k < d ==> (#[trigger] allowed_dirs[k]).0@ == view.dir_name(k)
                    && allowed_dirs[k].1 == allowed(keep, exclude, view.dir_name(k)),
        decreases unit.dirs.len() - d,
    {
        let name = join(base, unit.dirs[d].as_str());
        let allow = filter.allows(name.as_str());
        assert(view.dirs[d as int] == unit.dirs[d as int]@);
        allowed_dirs.push((name, allow));
        d += 1;
    }
    let mut list: Vec<(u64, Location)> = Vec::new();
    let mut i: usize = 0;
    assert(view.rows.take(0) =~= Seq::<LineEntryView>::empty());
    assert(breakpoint_views(list@) =~= Seq::<(u64, LocationView)>::empty());
    while i < unit.rows.len()
        invariant
            i <= unit.rows.len(),
            view == unit@,
            keep == filter.keeping(),
            exclude == filter.excluding(),
            allowed_dirs.len() == unit.dirs.len(),
            forall|k: int|
                0 <= k < allowed_dirs.len() ==> (#[trigger] allowed_dirs[k]).0@ == view.dir_name(k)
                    && allowed_dirs[k].1 == allowed(keep, exclude, view.dir_name(k)),
            !overflows(view, view.rows.take(i as int), keep, exclude, bias),
            breakpoint_views(list@) == breakpoints_of(
                view,
                view.rows.take(i as int),
                keep,
                exclude,
                bias,
            ),
        decreases unit.rows.len() - i,
    {
        let row = &unit.rows[i];
        proof {
            assert(view.rows.take(i + 1).drop_last() =~= view.rows.take(i as int));
            assert(view.rows.take(i + 1).last() == row@);
            assert(view.rows[i as int] == row@);
            assert(view.dirs.len() == unit.dirs.len());
        }
        let kept = row.is_stmt && row.dir_index < allowed_dirs.len() as u64
            && allowed_dirs[row.dir_index as usize].1;
        assert(kept == view.keeps(keep, exclude, row@));
        if kept {
            let addr = match row.address.checked_add(bias) {
                Some(addr) => addr,
                None => {
                    assert(overflows(view, view.rows, keep, exclude, bias));
                    return Err(LineError::AddressOverflow);
                },
            };
            let dirname = &allowed_dirs[row.dir_index as usize].0;
            let loc = Location::new(
                SrcPath::new(dirname.as_str(), row.file_name.as_str()),
                low_line(row.line),
            );
            let ghost before = breakpoint_views(list@);
            list.push((addr, loc));
            assert(breakpoint_views(list@) =~= before.push((addr, loc@)));
        }
        proof {
            let shorter = view.rows.take(i as int);
            let longer = view.rows.take(i + 1);
            if overflows(view, longer, keep, exclude, bias) {
                let k = choose|k: int|
                    0 <= k < longer.len() && view.keeps(keep, exclude, #[trigger] longer[k])
                        && longer[k].address + bias > u64::MAX;
                if k < i {
                    assert(shorter[k] == longer[k]);
                }
            }
        }
        i += 1;
    }
    assert(view.rows.take(i as int) =~= view.rows);
    Ok(list)
}

/// The views of the units, in order.
pub open spec fn unit_views(units: Seq<LineUnit>) -> Seq<LineUnitView> {
    units.map_values(|u: LineUnit| u@)
}

/// The breakpoints of all the units, unit after unit.
pub open spec fn all_breakpoints(
    units: Seq<LineUnitView>,
    keep: Seq<Seq<char>>,
    exclude: Seq<Seq<char>>,
    bias: u64,
) -> Seq<(u64, LocationView)>
    decreases units.len(),
{
    if units.len() == 0 {
        Seq::empty()
    } else {
        all_breakpoints(units.drop_last(), keep, exclude, bias) + breakpoints_of(
            units.last(),
            units.last().rows,
            keep,
            exclude,
            bias,
        )
    }
}

/// Whether some unit has a row whose address overflows.
pub open spec fn any_overflows(
    units: Seq<LineUnitView>,
    keep: Seq<Seq<char>>,
    exclude: Seq<Seq<char>>,
    bias: u64,
) -> bool {
    exists|u: int| 0 <= u < units.len() && overflows(#[trigger] units[u], units[u].rows, keep, exclude, bias)
}

/// The breakpoints of an object loaded at `bias`, from the line tables of its
/// compilation units.
pub fn get_breakpoints(units: &Vec<LineUnit>, filter: &Filter, bias: u64) -> (r: Result<
    Vec<(u64, Location)>,
    LineError,
>)
    ensures
        match r {
            Ok(list) => !any_overflows(unit_views(units@), filter.keeping(), filter.excluding(), bias)
                && breakpoint_views(list@) == all_breakpoints(
                unit_views(units@),
                filter.keeping(),
                filter.excluding(),
                bias,
            ),
            Err(_) => any_overflows(unit_views(units@), filter.keeping(), filter.excluding(), bias),
        },
{
    let ghost keep = filter.keeping();
    let ghost exclude = filter.excluding();
    let ghost views = unit_views(units@);
    let mut locations: Vec<(u64, Location)> = Vec::new();
    let mut u: usize = 0;
    assert(views.take(0) =~= Seq::<LineUnitView>::empty());
    assert(breakpoint_views(locations@) =~= Seq::<(u64, LocationView)>::empty());
    while u < units.len()
        invariant
            u <= units.len(),
            views == unit_views(units@),
            keep == filter.keeping(),
            exclude == filter.excluding(),
            !any_overflows(views.take(u as int), keep, exclude, bias),
            breakpoint_views(locations@) == all_breakpoints(views.take(u as int), keep, exclude, bias),
        decreases units.len() - u,
    {
        proof {
            assert(views.take(u + 1).drop_last() =~= views.take(u as int));
            assert(views.take(u + 1).last() == units[u as int]@);
            assert(views[u as int] == units[u as int]@);
        }
        let mut found = match unit_breakpoints(&units[u], filter, bias) {
            Ok(found) => found,
            Err(e) => {
                assert(any_overflows(views, keep, exclude, bias));
                return Err(e);
            },
        };
        let ghost before = breakpoint_views(locations@);
        let ghost added = breakpoint_views(found@);
        locations.append(&mut found);
        proof {
            assert(breakpoint_views(locations@) =~= before + added);
            let shorter = views.take(u as int);
            let longer = views.take(u + 1);
            if any_overflows(longer, keep, exclude, bias) {
                let k = choose|k: int|
                    0 <= k < longer.len() && overflows(
                        #[trigger] longer[k],
                        longer[k].rows,
                        keep,
                        exclude,
                        bias,
                    );
                if k < u {
                    assert(shorter[k] == longer[k]);
                }
            }
        }
        u += 1;
    }
    assert(views.take(u as int) =~= views);
    Ok(locations)
}

/// Every breakpoint of a unit comes from a row that begins a statement in a
/// directory that the filter lets through, and no such row is left out.
pub proof fn law_breakpoints_are_kept_rows(
    unit: LineUnitView,
    rows: Seq<LineEntryView>,
    keep: Seq<Seq<char>>,
    exclude: Seq<Seq<char>>,
    bias: u64,
)
    ensures
        forall|k: int|
            0 <= k < breakpoints_of(unit, rows, keep, exclude, bias).len() ==> exists|i: int|
                0 <= i < rows.len() && unit.keeps(keep, exclude, #[trigger] rows[i]) && (
                #[trigger] breakpoints_of(unit, rows, keep, exclude, bias)[k]) == ((rows[i].address
                    + bias) as u64, unit.position(rows[i])),
        forall|i: int|
            0 <= i < rows.len() && unit.keeps(keep, exclude, #[trigger] rows[i]) ==> breakpoints_of(
                unit,
                rows,
                keep,
                exclude,
                bias,
            ).contains(((rows[i].address + bias) as u64, unit.position(rows[i]))),
    decreases rows.len(),
{
    if rows.len() > 0 {
        let shorter = rows.drop_last();
        let last = rows.len() - 1;
        law_breakpoints_are_kept_rows(unit, shorter, keep, exclude, bias);
        let before = breakpoints_of(unit, shorter, keep, exclude, bias);
        let all = breakpoints_of(unit, rows, keep, exclude, bias);
        assert forall|k: int| 0 <= k < all.len() implies exists|i: int|
            0 <= i < rows.len() && unit.keeps(keep, exclude, #[trigger] rows[i]) && (
            #[trigger] all[k]) == ((rows[i].address + bias) as u64, unit.position(rows[i])) by {
            if k < before.len() {
                assert(all[k] == before[k]);
                let i = choose|i: int|
                    0 <= i < shorter.len() && unit.keeps(keep, exclude, #[trigger] shorter[i])
                        && before[k] == ((shorter[i].address + bias) as u64, unit.position(
                        shorter[i],
                    ));
                assert(shorter[i] == rows[i]);
            } else {
                assert(unit.keeps(keep, exclude, rows[last]));
            }
        }
        assert forall|i: int|
            0 <= i < rows.len() && unit.keeps(keep, exclude, #[trigger] rows[i]) implies all.contains(
            ((rows[i].address + bias) as u64, unit.position(rows[i])),
        ) by {
            let item = ((rows[i].address + bias) as u64, unit.position(rows[i]));
            if i < last {
                assert(shorter[i] == rows[i]);
                let k = choose|k: int| 0 <= k < before.len() && before[k] == item;
                assert(all[k] == item);
            } else {
                assert(all[all.len() - 1] == item);
            }
        }
    }
}

} // verus!
