use ruskcov::filter::Filter;
use ruskcov::lines::{get_breakpoints, unit_breakpoints, LineEntry, LineError, LineUnit};
use ruskcov::srcloc::{Location, SrcPath};

fn entry(address: u64, is_stmt: bool, dir_index: u64, file: &str, line: Option<u64>) -> LineEntry {
    LineEntry { address, is_stmt, dir_index, file_name: file.to_string(), line }
}

fn unit() -> LineUnit {
    LineUnit {
        comp_dir: Some("/home/me/src".to_string()),
        dirs: vec!["".to_string(), "vendor/a".to_string(), "/usr/include".to_string()],
        rows: vec![
            entry(0x10, true, 0, "main.c", Some(3)),
            entry(0x14, false, 0, "main.c", Some(4)),
            entry(0x18, true, 1, "a.c", Some(9)),
            entry(0x1c, true, 2, "stdio.h", None),
            entry(0x20, true, 7, "lost.c", Some(1)),
            entry(0x24, true, 0, "main.c", Some(0x1_0000_0005)),
        ],
    }
}

fn strings(list: &[&str]) -> Vec<String> {
    list.iter().map(|s| s.to_string()).collect()
}

fn loc(dir: &str, file: &str, line: u32) -> Location {
    Location::new(SrcPath::new(dir, file), line)
}

#[test]
fn statements_in_kept_directories_become_breakpoints() {
    let filter = Filter::new(&vec![], &vec![]).unwrap();
    let found = unit_breakpoints(&unit(), &filter, 0x7000_0000).unwrap();
    assert_eq!(
        found,
        vec![
            (0x7000_0010, loc("/home/me/src/", "main.c", 3)),
            (0x7000_0018, loc("/home/me/src/vendor/a", "a.c", 9)),
            (0x7000_001c, loc("/usr/include", "stdio.h", 0)),
            (0x7000_0024, loc("/home/me/src/", "main.c", 5)),
        ]
    );
}

#[test]
fn excluded_directories_are_left_out() {
    let filter = Filter::new(&vec![], &strings(&["^/usr/", "/vendor/"])).unwrap();
    let found = unit_breakpoints(&unit(), &filter, 0).unwrap();
    assert_eq!(found.iter().map(|b| b.0).collect::<Vec<_>>(), vec![0x10, 0x24]);
}

#[test]
fn kept_directories_override_exclusion() {
    let filter = Filter::new(&strings(&["^/home/me/src"]), &strings(&["/vendor/", "^/usr"])).unwrap();
    let found = unit_breakpoints(&unit(), &filter, 0).unwrap();
    assert_eq!(found.iter().map(|b| b.0).collect::<Vec<_>>(), vec![0x10, 0x18, 0x24]);
}

#[test]
fn without_a_compilation_directory_the_current_one_is_taken() {
    let unit = LineUnit {
        comp_dir: None,
        dirs: vec!["sub".to_string()],
        rows: vec![entry(1, true, 0, "x.c", Some(1))],
    };
    let filter = Filter::new(&vec![], &vec![]).unwrap();
    assert_eq!(unit_breakpoints(&unit, &filter, 0).unwrap(), vec![(1, loc("./sub", "x.c", 1))]);
}

#[test]
fn an_address_beyond_the_address_space_is_an_error() {
    let filter = Filter::new(&vec![], &vec![]).unwrap();
    assert_eq!(unit_breakpoints(&unit(), &filter, u64::MAX - 0x17), Err(LineError::AddressOverflow));
    // a row that is not kept does not count
    let filter = Filter::new(&vec![], &strings(&["^/usr/", "/vendor/"])).unwrap();
    let found = unit_breakpoints(&unit(), &filter, u64::MAX - 0x24).unwrap();
    assert_eq!(found.iter().map(|b| b.0).collect::<Vec<_>>(), vec![u64::MAX - 0x14, u64::MAX]);
}

#[test]
fn breakpoints_of_all_units() {
    let other = LineUnit {
        comp_dir: Some("/work".to_string()),
        dirs: vec!["lib".to_string()],
        rows: vec![entry(0x100, true, 0, "lib.c", Some(1))],
    };
    let filter = Filter::new(&vec![], &strings(&["^/usr/"])).unwrap();
    let found = get_breakpoints(&vec![unit(), other.clone()], &filter, 0x1000).unwrap();
    assert_eq!(found.iter().map(|b| b.0).collect::<Vec<_>>(), vec![0x1010, 0x1018, 0x1024, 0x1100]);
    assert_eq!(found[3].1, loc("/work/lib", "lib.c", 1));
    assert_eq!(get_breakpoints(&vec![], &filter, 0), Ok(vec![]));
    assert_eq!(
        get_breakpoints(&vec![other, unit()], &filter, u64::MAX - 0x20),
        Err(LineError::AddressOverflow)
    );
}
