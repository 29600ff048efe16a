//! Function frames at an address: the names of the functions that cover it,
//! the innermost inlined function first, each with its source location.

use crate::context::{unit_datas, ResUnit, UnitData};
use crate::functions::{DieTag, FuncRange, Reference, UnitEntry};
use vstd::prelude::*;

verus! {

/// The characters of a text that may be absent.
pub open spec fn text_view(text: Option<String>) -> Option<Seq<char>> {
    match text {
        Some(t) => Some(t@),
        None => None,
    }
}

/// Why a name could not be found.
#[derive(Debug, Clone, Copy, PartialEq, Eq, Structural)]
pub enum NameError {
    /// A reference leads to where there is no entry.
    NoEntryAtGivenOffset,
}

/// How many entries are looked at, at most, in search of a name.
pub const RECURSION_LIMIT: usize = 16;

/// The place among the entries of the first entry at `offset`, if there is
/// one.
pub open spec fn entry_at(entries: Seq<UnitEntry>, offset: usize) -> Option<int>
    decreases entries.len(),
{
    if entries.len() == 0 {
        None
    } else if entries[0].offset == offset {
        Some(0)
    } else {
        match entry_at(entries.drop_first(), offset) {
            Some(at) => Some(at + 1),
            None => None,
        }
    }
}

/// What `entry_at` finds.
pub proof fn lemma_entry_at(entries: Seq<UnitEntry>, offset: usize)
    ensures
        match entry_at(entries, offset) {
            Some(at) => 0 <= at < entries.len() && entries[at].offset == offset && forall|k: int|
                0 <= k < at ==> (#[trigger] entries[k]).offset != offset,
            None => forall|k: int| 0 <= k < entries.len() ==> (#[trigger] entries[k]).offset != offset,
        },
    decreases entries.len(),
{
    if entries.len() > 0 && entries[0].offset != offset {
        let rest = entries.drop_first();
        lemma_entry_at(rest, offset);
        match entry_at(rest, offset) {
            Some(at) => {
                assert(rest[at] == entries[at + 1]);
                assert forall|k: int| 0 <= k < at + 1 implies (#[trigger] entries[k]).offset != offset by {
                    if k > 0 {
                        assert(rest[k - 1] == entries[k]);
                    }
                }
            },
            None => {
                assert forall|k: int| 0 <= k < entries.len() implies (#[trigger] entries[k]).offset
                    != offset by {
                    if k > 0 {
                        assert(rest[k - 1] == entries[k]);
                    }
                }
            },
        }
    }
}

/// Finds the first entry at `offset`.
pub fn find_entry(entries: &Vec<UnitEntry>, offset: usize) -> (found: Option<usize>)
    ensures
        match found {
            Some(at) => entry_at(entries@, offset) == Some(at as int) && at < entries@.len(),
            None => entry_at(entries@, offset) is None,
        },
{
    let mut i: usize = 0;
    while i < entries.len()
        invariant
            i <= entries.len(),
            forall|k: int| 0 <= k < i ==> (#[trigger] entries@[k]).offset != offset,
        decreases entries.len() - i,
    {
        if entries[i].offset == offset {
            proof {
                lemma_entry_at(entries@, offset);
            }
            return Some(i);
        }
        i += 1;
    }
    proof {
        lemma_entry_at(entries@, offset);
    }
    None
}

/// Whether the entries of a unit hold the offset `at` of the section that
/// holds all the units.
pub open spec fn holds_offset(unit: UnitData, at: usize) -> bool {
    unit.start <= at && unit.header_size <= at - unit.start && at - unit.start - unit.header_size
        < unit.entries_len
}

/// The number of the first unit whose entries hold the offset `at` of the
/// section.
pub open spec fn unit_holding(units: Seq<UnitData>, at: usize) -> Option<int>
    decreases units.len(),
{
    if units.len() == 0 {
        None
    } else if holds_offset(units[0], at) {
        Some(0)
    } else {
        match unit_holding(units.drop_first(), at) {
            Some(u) => Some(u + 1),
            None => None,
        }
    }
}

/// What `unit_holding` finds.
pub proof fn lemma_unit_holding(units: Seq<UnitData>, at: usize)
    ensures
        match unit_holding(units, at) {
            Some(u) => 0 <= u < units.len() && holds_offset(units[u], at) && forall|k: int|
                0 <= k < u ==> !holds_offset(#[trigger] units[k], at),
            None => forall|k: int| 0 <= k < units.len() ==> !holds_offset(#[trigger] units[k], at),
        },
    decreases units.len(),
{
    if units.len() > 0 && !holds_offset(units[0], at) {
        let rest = units.drop_first();
        lemma_unit_holding(rest, at);
        match unit_holding(rest, at) {
            Some(u) => {
                assert(rest[u] == units[u + 1]);
                assert forall|k: int| 0 <= k < u + 1 implies !holds_offset(#[trigger] units[k], at) by {
                    if k > 0 {
                        assert(rest[k - 1] == units[k]);
                    }
                }
            },
            None => {
                assert forall|k: int| 0 <= k < units.len() implies !holds_offset(
                    #[trigger] units[k],
                    at,
                ) by {
                    if k > 0 {
                        assert(rest[k - 1] == units[k]);
                    }
                }
            },
        }
    }
}

fn find_holding(units: &Vec<ResUnit>, at: usize) -> (found: Option<usize>)
    ensures
        match found {
            Some(u) => unit_holding(unit_datas(units@), at) == Some(u as int) && u < units@.len(),
            None => unit_holding(unit_datas(units@), at) is None,
        },
{
    let ghost datas = unit_datas(units@);
    let mut i: usize = 0;
    while i < units.len()
        invariant
            i <= units.len(),
            datas == unit_datas(units@),
            forall|k: int| 0 <= k < i ==> !holds_offset(#[trigger] datas[k], at),
        decreases units.len() - i,
    {
        let unit = units[i].unit_data();
        assert(datas[i as int] == *unit);
        if unit.start <= at && unit.header_size <= at - unit.start && at - unit.start
            - unit.header_size < unit.entries_len {
            proof {
                lemma_unit_holding(datas, at);
            }
            return Some(i);
        }
        i += 1;
    }
    proof {
        lemma_unit_holding(datas, at);
    }
    None
}

/// The name that the entry itself gives: its linkage name, else its older
/// linkage name, else its plain name.
pub open spec fn own_name(entry: UnitEntry) -> Option<Seq<char>> {
    if entry.linkage_name is Some {
        text_view(entry.linkage_name)
    } else if entry.mips_linkage_name is Some {
        text_view(entry.mips_linkage_name)
    } else {
        text_view(entry.name)
    }
}

/// The name of the entry at `offset` of unit `unit`: the name it gives
/// itself, or else the name of the entry it points to. No more than `limit`
/// entries are looked at, which ends every cycle. A reference that leads to
/// no entry is an error, but for one into another unit that has no entry
/// there, which gives no name.
pub open spec fn name_of(units: Seq<UnitData>, unit: int, offset: usize, limit: nat) -> Result<
    Option<Seq<char>>,
    NameError,
>
    decreases limit,
{
    if limit == 0 {
        Ok(None)
    } else if !(0 <= unit < units.len()) {
        Err(NameError::NoEntryAtGivenOffset)
    } else {
        match entry_at(units[unit].entries@, offset) {
            None => Err(NameError::NoEntryAtGivenOffset),
            Some(at) => {
                let entry = units[unit].entries@[at];
                if own_name(entry) is Some {
                    Ok(own_name(entry))
                } else {
                    match entry.origin {
                        Reference::Nowhere => Ok(None),
                        Reference::Unit(next) => match entry_at(units[unit].entries@, next) {
                            Some(_) => name_of(units, unit, next, (limit - 1) as nat),
                            None => Err(NameError::NoEntryAtGivenOffset),
                        },
                        Reference::Info(section_offset) => match unit_holding(units, section_offset) {
                            None => Err(NameError::NoEntryAtGivenOffset),
                            Some(other) => {
                                let next = (section_offset - units[other].start) as usize;
                                match entry_at(units[other].entries@, next) {
                                    Some(_) => name_of(units, other, next, (limit - 1) as nat),
                                    None => Ok(None),
                                }
                            },
                        },
                    }
                }
            },
        }
    }
}

/// What a search for a name hands back, as characters.
pub open spec fn name_view(r: Result<Option<String>, NameError>) -> Result<Option<Seq<char>>, NameError> {
    match r {
        Ok(name) => Ok(text_view(name)),
        Err(e) => Err(e),
    }
}

/// Finds the name of the entry at `offset` of unit `unit`, looking at no more
/// than `recursion_limit` entries.
pub fn name_attr(units: &Vec<ResUnit>, unit: usize, offset: usize, recursion_limit: usize) -> (r:
    Result<Option<String>, NameError>)
    ensures
        name_view(r) == name_of(unit_datas(units@), unit as int, offset, recursion_limit as nat),
    decreases recursion_limit,
{
    if recursion_limit == 0 {
        return Ok(None);
    }
    if unit >= units.len() {
        return Err(NameError::NoEntryAtGivenOffset);
    }
    let data = units[unit].unit_data();
    assert(unit_datas(units@)[unit as int] == *data);
    let at = match find_entry(&data.entries, offset) {
        Some(at) => at,
        None => {
            return Err(NameError::NoEntryAtGivenOffset);
        },
    };
    let entry = &data.entries[at];
    if let Some(val) = &entry.linkage_name {
        return Ok(Some(val.clone()));
    }
    if let Some(val) = &entry.mips_linkage_name {
        return Ok(Some(val.clone()));
    }
    if let Some(val) = &entry.name {
        return Ok(Some(val.clone()));
    }
    match entry.origin {
        Reference::Nowhere => Ok(None),
        Reference::Unit(next) => match find_entry(&data.entries, next) {
            Some(_) => name_attr(units, unit, next, recursion_limit - 1),
            None => Err(NameError::NoEntryAtGivenOffset),
        },
        Reference::Info(section_offset) => match find_holding(units, section_offset) {
            None => Err(NameError::NoEntryAtGivenOffset),
            Some(other) => {
                let there = units[other].unit_data();
                assert(unit_datas(units@)[other as int] == *there);
                proof {
                    lemma_unit_holding(unit_datas(units@), section_offset);
                }
                let next = section_offset - there.start;
                match find_entry(&there.entries, next) {
                    Some(_) => name_attr(units, other, next, recursion_limit - 1),
                    None => Ok(None),
                }
            },
        },
    }
}

/// A source location that owns its file name.
#[derive(Debug, Clone, PartialEq, Eq)]
pub struct FileLocation {
    /// The file name.
    pub file: Option<String>,
    /// The line number.
    pub line: Option<u64>,
    /// The column number.
    pub column: Option<u64>,
}

/// The mathematical content of a [`FileLocation`].
pub struct FileLocationView {
    pub file: Option<Seq<char>>,
    pub line: Option<u64>,
    pub column: Option<u64>,
}

impl View for FileLocation {
    type V = FileLocationView;

    open spec fn view(&self) -> FileLocationView {
        FileLocationView { file: text_view(self.file), line: self.line, column: self.column }
    }
}

/// The view of a location that may be absent.
pub open spec fn location_view(location: Option<FileLocation>) -> Option<FileLocationView> {
    match location {
        Some(l) => Some(l@),
        None => None,
    }
}

/// Where an inlined function was called from, as its entry records it. The
/// file is looked up in the table of files of the unit, which has none
/// without a line program; a line of zero stands for no line.
pub open spec fn call_site(unit: UnitData, entry: UnitEntry) -> FileLocationView {
    FileLocationView {
        file: match entry.call_file {
            Some(index) => if unit.rows is Some && index < unit.files@.len() {
                Some(unit.files@[index as int]@)
            } else {
                None
            },
            None => None,
        },
        line: match entry.call_line {
            Some(line) => if line == 0 {
                None
            } else {
                Some(line)
            },
            None => None,
        },
        column: entry.call_column,
    }
}

/// A function name.
#[derive(Debug, Clone, PartialEq, Eq)]
pub struct FunctionName {
    /// The name of the function.
    pub name: String,
    /// The language of the compilation unit containing this function.
    pub language: Option<u16>,
}

impl FunctionName {
    /// The raw name of this function before demangling.
    pub fn raw_name(&self) -> (name: &str)
        ensures
            name@ == self.name@,
    {
        self.name.as_str()
    }
}

/// A function frame.
#[derive(Debug, Clone, PartialEq, Eq)]
pub struct Frame {
    /// The name of the function.
    pub function: Option<FunctionName>,
    /// The source location corresponding to this frame.
    pub location: Option<FileLocation>,
}

/// The mathematical content of a [`Frame`].
pub struct FrameView {
    pub function: Option<(Seq<char>, Option<u16>)>,
    pub location: Option<FileLocationView>,
}

impl View for Frame {
    type V = FrameView;

    open spec fn view(&self) -> FrameView {
        FrameView {
            function: match self.function {
                Some(f) => Some((f.name@, f.language)),
                None => None,
            },
            location: location_view(self.location),
        }
    }
}

/// An iterator over function frames.
pub struct FrameIter<'ctx> {
    unit_id: usize,
    units: &'ctx Vec<ResUnit>,
    funcs: Vec<FuncRange>,
    at: usize,
    next: Option<FileLocation>,
}

/// The mathematical content of a [`FrameIter`]: the unit that the frames lie
/// in, the functions still to come, innermost first, and the location of the
/// frame that comes next.
pub struct FrameIterView {
    pub units: Seq<UnitData>,
    pub unit_id: usize,
    pub funcs: Seq<FuncRange>,
    pub next: Option<FileLocationView>,
}

impl<'ctx> View for FrameIter<'ctx> {
    type V = FrameIterView;

    closed spec fn view(&self) -> FrameIterView {
        FrameIterView {
            units: unit_datas(self.units@),
            unit_id: self.unit_id,
            funcs: if self.at <= self.funcs@.len() {
                self.funcs@.skip(self.at as int)
            } else {
                Seq::empty()
            },
            next: location_view(self.next),
        }
    }
}

impl FrameIterView {
    /// The entry of the function that comes next, if the unit has it.
    pub open spec fn entry(self) -> Option<UnitEntry> {
        if self.funcs.len() > 0 && self.unit_id < self.units.len() {
            match entry_at(self.units[self.unit_id as int].entries@, self.funcs[0].entry) {
                Some(at) => Some(self.units[self.unit_id as int].entries@[at]),
                None => None,
            }
        } else {
            None
        }
    }

    /// The frame that one step hands out, none when nothing is left, or the
    /// error that the search for the name of the next function ends in.
    pub open spec fn frame(self) -> Result<Option<FrameView>, NameError> {
        if self.funcs.len() == 0 {
            match self.next {
                None => Ok(None),
                Some(location) => Ok(Some(FrameView { function: None, location: Some(location) })),
            }
        } else {
            match name_of(
                self.units,
                self.unit_id as int,
                self.funcs[0].entry,
                RECURSION_LIMIT as nat,
            ) {
                Err(e) => Err(e),
                Ok(name) => Ok(
                    Some(
                        FrameView {
                            function: match name {
                                Some(name) => Some((name, self.units[self.unit_id as int].lang)),
                                None => None,
                            },
                            location: self.next,
                        },
                    ),
                ),
            }
        }
    }

    /// What is left after one step. The function that came next is gone;
    /// where it was inlined and its name was found, the place it was called
    /// from is the location of the frame to come.
    pub open spec fn advanced(self) -> FrameIterView {
        if self.funcs.len() == 0 {
            FrameIterView { next: None, ..self }
        } else {
            FrameIterView {
                funcs: self.funcs.drop_first(),
                next: match self.entry() {
                    Some(entry) => if self.frame() is Ok && entry.tag == DieTag::InlinedSubroutine {
                        Some(call_site(self.units[self.unit_id as int], entry))
                    } else {
                        None
                    },
                    None => None,
                },
                ..self
            }
        }
    }
}

/// What a step hands back, as views.
pub open spec fn frame_view(r: Result<Option<Frame>, NameError>) -> Result<Option<FrameView>, NameError> {
    match r {
        Ok(Some(frame)) => Ok(Some(frame@)),
        Ok(None) => Ok(None),
        Err(e) => Err(e),
    }
}

impl<'ctx> FrameIter<'ctx> {
    /// The frames at an address in unit `unit_id`: `funcs` are the functions
    /// that cover it, the innermost first, and `location` is the source
    /// location of the address.
    pub fn new(
        units: &'ctx Vec<ResUnit>,
        unit_id: usize,
        funcs: Vec<FuncRange>,
        location: Option<FileLocation>,
    ) -> (iter: FrameIter<'ctx>)
        ensures
            iter@ == (FrameIterView {
                units: unit_datas(units@),
                unit_id,
                funcs: funcs@,
                next: location_view(location),
            }),
    {
        let iter = FrameIter { unit_id, units, funcs, at: 0, next: location };
        assert(funcs@.skip(0) =~= funcs@);
        iter
    }

    /// Advances the iterator and returns the next frame.
    pub fn next(&mut self) -> (r: Result<Option<Frame>, NameError>)
        ensures
            frame_view(r) == old(self)@.frame(),
            final(self)@ == old(self)@.advanced(),
    {
        let ghost before = self@;
        let ghost all = self.funcs@;
        let loc = self.next.take();
        if self.at >= self.funcs.len() {
            proof {
                assert(before.funcs.len() == 0);
                assert(self@ == before.advanced());
            }
            return match loc {
                None => Ok(None),
                Some(loc) => Ok(Some(Frame { function: None, location: Some(loc) })),
            };
        }
        let at = self.at;
        self.at = at + 1;
        proof {
            assert(before.funcs[0] == self.funcs[at as int]);
            assert(all.skip(at + 1) =~= all.skip(at as int).drop_first());
        }
        let func = self.funcs[at];
        // Set an arbitrary recursion limit of 16
        let name = match name_attr(self.units, self.unit_id, func.entry, RECURSION_LIMIT) {
            Ok(name) => name,
            Err(e) => {
                assert(self@ == before.advanced());
                return Err(e);
            },
        };
        // a name was found or not: the unit and the entry are there
        let unit = self.units[self.unit_id].unit_data();
        assert(before.units[self.unit_id as int] == *unit);
        let place = find_entry(&unit.entries, func.entry);
        let entry = &unit.entries[place.unwrap()];
        if matches!(entry.tag, DieTag::InlinedSubroutine) {
            let file = match entry.call_file {
                Some(index) => if unit.rows.is_some() && index < unit.files.len() as u64 {
                    Some(unit.files[index as usize].clone())
                } else {
                    None
                },
                None => None,
            };
            let line = match entry.call_line {
                Some(line) => if line == 0 {
                    None
                } else {
                    Some(line)
                },
                None => None,
            };
            self.next = Some(FileLocation { file, line, column: entry.call_column });
        }
        assert(self@ == before.advanced());
        let function = match name {
            Some(name) => Some(FunctionName { name, language: unit.lang }),
            None => None,
        };
        Ok(Some(Frame { function, location: loc }))
    }
}

} // verus!
