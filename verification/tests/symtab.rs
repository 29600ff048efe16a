use ruskcov::symtab::{
    find_unit, path_push, sequences_of, unit_ranges, LineRow, LineSequence, Lines, Location,
    RawRow, UnitRange,
};

fn pushed(path: &str, p: &str) -> String {
    let mut s = path.to_string();
    path_push(&mut s, p);
    s
}

#[test]
fn path_push_joins() {
    assert_eq!(pushed("/usr/src", "main.c"), "/usr/src/main.c");
    assert_eq!(pushed("/usr/src/", "main.c"), "/usr/src/main.c");
    assert_eq!(pushed("/usr/src", "/abs/main.c"), "/abs/main.c");
    assert_eq!(pushed("", "main.c"), "/main.c");
    assert_eq!(pushed("", "/main.c"), "/main.c");
    assert_eq!(pushed("/a", ""), "/a/");
    assert_eq!(pushed("/a/", ""), "/a/");
    assert_eq!(pushed("/\u{e9}", "\u{1f980}"), "/\u{e9}/\u{1f980}");
}

fn range(begin: u64, end: u64, unit: usize) -> UnitRange {
    UnitRange { begin, end, unit }
}

#[test]
fn ranges_are_sorted_and_made_disjoint() {
    let ranges = unit_ranges(vec![range(30, 40, 2), range(10, 20, 0), range(15, 35, 1), range(50, 50, 3)]);
    assert_eq!(ranges, vec![range(10, 20, 0), range(20, 35, 1), range(35, 40, 2)]);
}

#[test]
fn a_range_inside_another_becomes_empty() {
    let ranges = unit_ranges(vec![range(10, 100, 0), range(20, 30, 1), range(90, 120, 2)]);
    assert_eq!(ranges, vec![range(10, 100, 0), range(100, 100, 1), range(100, 120, 2)]);
    assert_eq!(find_unit(&ranges, 25), Some(0));
    assert_eq!(find_unit(&ranges, 100), Some(2));
    assert_eq!(find_unit(&ranges, 119), Some(2));
    assert_eq!(find_unit(&ranges, 120), None);
    assert_eq!(find_unit(&ranges, 9), None);
}

#[test]
fn find_unit_searches() {
    let ranges = unit_ranges(vec![range(10, 20, 0), range(30, 40, 1), range(40, 50, 2), range(70, 71, 3)]);
    for (probe, unit) in [
        (0, None), (9, None), (10, Some(0)), (19, Some(0)), (20, None), (29, None), (30, Some(1)),
        (39, Some(1)), (40, Some(2)), (49, Some(2)), (50, None), (70, Some(3)), (71, None),
        (u64::MAX, None),
    ] {
        assert_eq!(find_unit(&ranges, probe), unit, "probe {}", probe);
    }
    assert_eq!(find_unit(&vec![], 5), None);
    assert_eq!(unit_ranges(vec![]), vec![]);
}

fn row(address: u64, line: u64) -> RawRow {
    RawRow { address, file_index: 1, line: Some(line), column: None, end_sequence: false }
}

fn end(address: u64) -> RawRow {
    RawRow { address, file_index: 1, line: None, column: None, end_sequence: true }
}

fn kept(address: u64, line: u64) -> LineRow {
    LineRow { address, file_index: 1, line: Some(line), column: None }
}

#[test]
fn rows_are_cut_into_sequences() {
    let rows = vec![row(0x100, 1), row(0x104, 2), end(0x110), row(0x200, 7), end(0x208)];
    assert_eq!(
        sequences_of(&rows),
        vec![
            LineSequence { start: 0x100, end: 0x110, rows: vec![kept(0x100, 1), kept(0x104, 2)] },
            LineSequence { start: 0x200, end: 0x208, rows: vec![kept(0x200, 7)] },
        ]
    );
}

#[test]
fn a_row_at_the_address_of_the_one_before_takes_its_place() {
    let rows = vec![row(0x100, 1), row(0x100, 2), row(0x104, 3), row(0x104, 4), end(0x110)];
    assert_eq!(
        sequences_of(&rows),
        vec![LineSequence { start: 0x100, end: 0x110, rows: vec![kept(0x100, 2), kept(0x104, 4)] }]
    );
}

#[test]
fn a_sequence_at_address_zero_is_dropped() {
    let rows = vec![row(0, 1), row(4, 2), end(8), end(9), row(0x100, 3), end(0x104), row(0x200, 4)];
    assert_eq!(
        sequences_of(&rows),
        vec![LineSequence { start: 0x100, end: 0x104, rows: vec![kept(0x100, 3)] }]
    );
    assert_eq!(sequences_of(&vec![]), vec![]);
}

fn lines() -> Lines {
    let rows = vec![
        row(0x200, 7),
        row(0x204, 8),
        end(0x208),
        row(0x100, 1),
        RawRow { address: 0x104, file_index: 0, line: Some(2), column: Some(5), end_sequence: false },
        RawRow { address: 0x108, file_index: 9, line: None, column: None, end_sequence: false },
        end(0x110),
    ];
    Lines::new(vec!["/src/a.c".to_string(), "/src/b.c".to_string()], &rows)
}

#[test]
fn sequences_are_sorted_by_start() {
    let lines = lines();
    assert_eq!(lines.sequences.iter().map(|s| s.start).collect::<Vec<_>>(), vec![0x100, 0x200]);
    assert_eq!(lines.files, vec!["/src/a.c".to_string(), "/src/b.c".to_string()]);
}

#[test]
fn find_location_finds_the_row_at_or_below() {
    let lines = lines();
    assert_eq!(lines.find_location(0xff), None);
    assert_eq!(
        lines.find_location(0x100),
        Some(Location { file: Some("/src/b.c"), line: Some(1), column: None })
    );
    assert_eq!(
        lines.find_location(0x103),
        Some(Location { file: Some("/src/b.c"), line: Some(1), column: None })
    );
    assert_eq!(
        lines.find_location(0x104),
        Some(Location { file: Some("/src/a.c"), line: Some(2), column: Some(5) })
    );
    // a file index beyond the table gives no file
    assert_eq!(lines.find_location(0x10f), Some(Location { file: None, line: None, column: None }));
    assert_eq!(lines.find_location(0x110), None);
    assert_eq!(lines.find_location(0x1ff), None);
    assert_eq!(
        lines.find_location(0x207),
        Some(Location { file: Some("/src/b.c"), line: Some(8), column: None })
    );
    assert_eq!(lines.find_location(0x208), None);
}

#[test]
fn find_location_in_a_sequence_that_starts_above_its_first_row() {
    let lines = Lines {
        files: vec![],
        sequences: vec![LineSequence { start: 0x100, end: 0x120, rows: vec![kept(0x110, 1)] }],
    };
    assert_eq!(lines.find_location(0x105), None);
    assert_eq!(lines.find_location(0x110), Some(Location { file: None, line: Some(1), column: None }));
}
