use ruskcov::context::{Context, UnitData};
use ruskcov::frames::{
    find_entry, name_attr, FileLocation, Frame, FrameIter, FunctionName, NameError, RECURSION_LIMIT,
};
use ruskcov::functions::{function_ranges, DieTag, FuncRange, FunctionIndex, Reference, UnitEntry};
use ruskcov::symtab::RawRow;

fn entry(offset: usize, depth: i64, tag: DieTag) -> UnitEntry {
    UnitEntry {
        offset,
        depth,
        tag,
        ranges: vec![],
        linkage_name: None,
        mips_linkage_name: None,
        name: None,
        origin: Reference::Nowhere,
        call_file: None,
        call_line: None,
        call_column: None,
    }
}

fn named(offset: usize, linkage: Option<&str>, mips: Option<&str>, name: Option<&str>, origin: Reference) -> UnitEntry {
    UnitEntry {
        linkage_name: linkage.map(|s| s.to_string()),
        mips_linkage_name: mips.map(|s| s.to_string()),
        name: name.map(|s| s.to_string()),
        origin,
        ..entry(offset, 1, DieTag::Subprogram)
    }
}

fn unit(start: usize, mut entries: Vec<UnitEntry>) -> UnitData {
    entries.insert(0, entry(11, 0, DieTag::CompileUnit));
    UnitData {
        start,
        header_size: 11,
        entries_len: 1000,
        lang: Some(12),
        ranges: vec![],
        files: vec!["/src/main.c".to_string(), "/src/inline.h".to_string()],
        rows: Some(vec![]),
        entries,
    }
}

#[test]
fn linkage_name_comes_first() {
    let context = Context::from_dwarf(vec![unit(
        0,
        vec![
            named(20, Some("_ZN1a1bE"), Some("old"), Some("b"), Reference::Nowhere),
            named(30, None, Some("old"), Some("b"), Reference::Nowhere),
            named(40, None, None, Some("b"), Reference::Unit(20)),
            named(50, None, None, None, Reference::Nowhere),
        ],
    )]);
    let units = context.units();
    assert_eq!(name_attr(units, 0, 20, 16), Ok(Some("_ZN1a1bE".to_string())));
    assert_eq!(name_attr(units, 0, 30, 16), Ok(Some("old".to_string())));
    assert_eq!(name_attr(units, 0, 40, 16), Ok(Some("b".to_string())));
    assert_eq!(name_attr(units, 0, 50, 16), Ok(None));
}

#[test]
fn references_are_followed() {
    let context = Context::from_dwarf(vec![
        unit(
            0,
            vec![
                named(20, None, None, None, Reference::Unit(40)),
                named(30, None, None, Some("target"), Reference::Nowhere),
                named(40, None, None, None, Reference::Unit(30)),
                named(50, None, None, None, Reference::Unit(999)),
                named(60, None, None, None, Reference::Info(5000 + 20)),
                named(70, None, None, None, Reference::Info(5000 + 21)),
                named(80, None, None, None, Reference::Info(90_000)),
                named(90, None, None, None, Reference::Info(5000 + 5)),
            ],
        ),
        unit(5000, vec![named(20, None, None, Some("elsewhere"), Reference::Nowhere)]),
    ]);
    let units = context.units();
    assert_eq!(name_attr(units, 0, 20, 16), Ok(Some("target".to_string())));
    assert_eq!(name_attr(units, 0, 20, 3), Ok(Some("target".to_string())));
    // the limit counts the entries looked at
    assert_eq!(name_attr(units, 0, 20, 2), Ok(None));
    assert_eq!(name_attr(units, 0, 20, 0), Ok(None));
    // a reference within the unit to where no entry stands
    assert_eq!(name_attr(units, 0, 50, 16), Err(NameError::NoEntryAtGivenOffset));
    // a reference into another unit
    assert_eq!(name_attr(units, 0, 60, 16), Ok(Some("elsewhere".to_string())));
    // into another unit, to where no entry stands
    assert_eq!(name_attr(units, 0, 70, 16), Ok(None));
    // into no unit at all
    assert_eq!(name_attr(units, 0, 80, 16), Err(NameError::NoEntryAtGivenOffset));
    // into the header of a unit, which is no place for an entry
    assert_eq!(name_attr(units, 0, 90, 16), Err(NameError::NoEntryAtGivenOffset));
    // an entry or a unit that is not there
    assert_eq!(name_attr(units, 0, 21, 16), Err(NameError::NoEntryAtGivenOffset));
    assert_eq!(name_attr(units, 7, 20, 16), Err(NameError::NoEntryAtGivenOffset));
    assert_eq!(name_attr(units, 7, 20, 0), Ok(None));
}

#[test]
fn a_cycle_ends_at_the_limit() {
    let context = Context::from_dwarf(vec![unit(
        0,
        vec![
            named(20, None, None, None, Reference::Unit(30)),
            named(30, None, None, None, Reference::Unit(20)),
            named(40, None, None, None, Reference::Unit(40)),
        ],
    )]);
    let units = context.units();
    assert_eq!(RECURSION_LIMIT, 16);
    assert_eq!(name_attr(units, 0, 20, RECURSION_LIMIT), Ok(None));
    assert_eq!(name_attr(units, 0, 40, RECURSION_LIMIT), Ok(None));
    assert_eq!(name_attr(units, 0, 20, 1000), Ok(None));
}

#[test]
fn the_first_entry_at_an_offset_is_found() {
    let entries = vec![entry(5, 0, DieTag::Other), entry(9, 1, DieTag::Other), entry(9, 2, DieTag::Subprogram)];
    assert_eq!(find_entry(&entries, 5), Some(0));
    assert_eq!(find_entry(&entries, 9), Some(1));
    assert_eq!(find_entry(&entries, 6), None);
    assert_eq!(find_entry(&vec![], 0), None);
}

fn covering(offset: usize, depth: i64, tag: DieTag, ranges: &[(u64, u64)]) -> UnitEntry {
    UnitEntry { ranges: ranges.to_vec(), ..entry(offset, depth, tag) }
}

#[test]
fn function_ranges_carry_their_depth() {
    let entries = vec![
        covering(11, 0, DieTag::CompileUnit, &[(0x100, 0x400)]),
        covering(20, 1, DieTag::Subprogram, &[(0x100, 0x200)]),
        covering(30, 2, DieTag::InlinedSubroutine, &[(0x110, 0x120), (0, 8), (0x130, 0x140)]),
        covering(35, 3, DieTag::Other, &[(0x110, 0x112)]),
        covering(40, 1, DieTag::Subprogram, &[(0x200, 0x300)]),
        covering(50, 1, DieTag::Subprogram, &[]),
    ];
    assert_eq!(
        function_ranges(&entries),
        vec![
            FuncRange { begin: 0x100, end: 0x200, entry: 20, depth: 1 },
            FuncRange { begin: 0x110, end: 0x120, entry: 30, depth: 2 },
            FuncRange { begin: 0x130, end: 0x140, entry: 30, depth: 2 },
            FuncRange { begin: 0x200, end: 0x300, entry: 40, depth: 1 },
        ]
    );
    assert_eq!(function_ranges(&vec![]), vec![]);
}

#[test]
fn frames_are_found_innermost_first() {
    let ranges = vec![
        FuncRange { begin: 0x100, end: 0x200, entry: 20, depth: 1 },
        FuncRange { begin: 0x110, end: 0x120, entry: 30, depth: 2 },
        FuncRange { begin: 0x114, end: 0x118, entry: 33, depth: 3 },
        FuncRange { begin: 0x130, end: 0x140, entry: 30, depth: 2 },
        FuncRange { begin: 0x200, end: 0x300, entry: 40, depth: 1 },
    ];
    let index = FunctionIndex::new(ranges);
    assert_eq!(index.find(0x50), vec![]);
    assert_eq!(index.find(0x100), vec![FuncRange { begin: 0x100, end: 0x200, entry: 20, depth: 1 }]);
    assert_eq!(index.find(0x115).iter().map(|f| f.entry).collect::<Vec<_>>(), vec![33, 30, 20]);
    assert_eq!(index.find(0x118).iter().map(|f| f.entry).collect::<Vec<_>>(), vec![30, 20]);
    assert_eq!(index.find(0x1ff).iter().map(|f| f.entry).collect::<Vec<_>>(), vec![20]);
    assert_eq!(index.find(0x200).iter().map(|f| f.entry).collect::<Vec<_>>(), vec![40]);
    assert_eq!(index.find(0x300), vec![]);
    assert_eq!(FunctionIndex::new(vec![]).find(1), vec![]);
}

fn place(file: &str, line: u64) -> FileLocation {
    FileLocation { file: Some(file.to_string()), line: Some(line), column: None }
}

fn hit(entry: usize, depth: i64) -> FuncRange {
    FuncRange { begin: 0, end: 1, entry, depth }
}

fn inlined(offset: usize, origin: Reference, file: Option<u64>, line: Option<u64>, column: Option<u64>) -> UnitEntry {
    UnitEntry {
        origin,
        call_file: file,
        call_line: line,
        call_column: column,
        ..entry(offset, 2, DieTag::InlinedSubroutine)
    }
}

#[test]
fn frames_unwind_through_inlined_functions() {
    let context = Context::from_dwarf(vec![unit(
        0,
        vec![
            named(20, None, None, Some("outer"), Reference::Nowhere),
            inlined(30, Reference::Unit(40), Some(0), Some(40), Some(3)),
            named(40, Some("_Z5inner"), None, Some("inner"), Reference::Nowhere),
        ],
    )]);
    let mut iter =
        FrameIter::new(context.units(), 0, vec![hit(30, 2), hit(20, 1)], Some(place("/src/inline.h", 7)));
    assert_eq!(
        iter.next(),
        Ok(Some(Frame {
            function: Some(FunctionName { name: "_Z5inner".to_string(), language: Some(12) }),
            location: Some(place("/src/inline.h", 7)),
        }))
    );
    assert_eq!(
        iter.next(),
        Ok(Some(Frame {
            function: Some(FunctionName { name: "outer".to_string(), language: Some(12) }),
            location: Some(FileLocation {
                file: Some("/src/main.c".to_string()),
                line: Some(40),
                column: Some(3),
            }),
        }))
    );
    assert_eq!(iter.next(), Ok(None));
    assert_eq!(iter.next(), Ok(None));
}

#[test]
fn a_location_without_a_function_is_one_frame() {
    let context = Context::from_dwarf(vec![]);
    let mut iter = FrameIter::new(context.units(), 0, vec![], Some(place("/src/a.c", 1)));
    assert_eq!(iter.next(), Ok(Some(Frame { function: None, location: Some(place("/src/a.c", 1)) })));
    assert_eq!(iter.next(), Ok(None));
    let mut iter = FrameIter::new(context.units(), 0, vec![], None);
    assert_eq!(iter.next(), Ok(None));
}

#[test]
fn a_call_line_of_zero_is_no_line() {
    let context = Context::from_dwarf(vec![unit(
        0,
        vec![inlined(20, Reference::Nowhere, Some(7), Some(0), None)],
    )]);
    let mut iter = FrameIter::new(context.units(), 0, vec![hit(20, 1)], None);
    assert_eq!(iter.next(), Ok(Some(Frame { function: None, location: None })));
    // the file index lies beyond the table of files
    assert_eq!(
        iter.next(),
        Ok(Some(Frame {
            function: None,
            location: Some(FileLocation { file: None, line: None, column: None }),
        }))
    );
    assert_eq!(iter.next(), Ok(None));
}

#[test]
fn a_unit_without_a_line_program_has_no_call_files() {
    let mut data = unit(0, vec![inlined(20, Reference::Nowhere, Some(0), Some(3), None)]);
    data.rows = None;
    let context = Context::from_dwarf(vec![data]);
    let mut iter = FrameIter::new(context.units(), 0, vec![hit(20, 1)], None);
    assert_eq!(iter.next(), Ok(Some(Frame { function: None, location: None })));
    assert_eq!(
        iter.next(),
        Ok(Some(Frame {
            function: None,
            location: Some(FileLocation { file: None, line: Some(3), column: None }),
        }))
    );
}

#[test]
fn a_name_that_cannot_be_found_is_an_error_and_the_function_is_passed_over() {
    let context = Context::from_dwarf(vec![unit(
        0,
        vec![
            inlined(20, Reference::Unit(999), Some(0), Some(3), None),
            named(30, None, None, Some("f"), Reference::Nowhere),
        ],
    )]);
    let mut iter =
        FrameIter::new(context.units(), 0, vec![hit(20, 2), hit(30, 1), hit(77, 1)], Some(place("/src/a.c", 1)));
    assert_eq!(iter.next(), Err(NameError::NoEntryAtGivenOffset));
    assert_eq!(
        iter.next(),
        Ok(Some(Frame {
            function: Some(FunctionName { name: "f".to_string(), language: Some(12) }),
            location: None,
        }))
    );
    // a function whose entry is not there
    assert_eq!(iter.next(), Err(NameError::NoEntryAtGivenOffset));
    assert_eq!(iter.next(), Ok(None));
    assert_eq!(FunctionName { name: "raw".to_string(), language: None }.raw_name(), "raw");
    let _ = RawRow { address: 0, file_index: 0, line: None, column: None, end_sequence: true };
}
