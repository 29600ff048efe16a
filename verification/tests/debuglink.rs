use ruskcov::debuglink::{
    candidates, checksum_matches, choose_source, read_debuglink, DebugLink, DebugSource,
};
use ruskcov::error::ObjectError;
use ruskcov::paths::without_root;

/// A 64-bit little-endian ELF file with no program headers and, where a name
/// is given, one `.gnu_debuglink` section that names it.
fn elf(link: Option<(&[u8], u32)>) -> Vec<u8> {
    let mut file = vec![0u8; 64];
    file[0..4].copy_from_slice(&[0x7f, b'E', b'L', b'F']);
    file[4] = 2; // 64-bit
    file[5] = 1; // little-endian
    file[6] = 1; // version
    file[16..18].copy_from_slice(&1u16.to_le_bytes()); // relocatable
    file[18..20].copy_from_slice(&62u16.to_le_bytes()); // x86-64
    file[20..24].copy_from_slice(&1u32.to_le_bytes());
    file[52..54].copy_from_slice(&64u16.to_le_bytes()); // header size
    file[58..60].copy_from_slice(&64u16.to_le_bytes()); // section header size
    if let Some((name, crc)) = link {
        let strtab = b"\0.gnu_debuglink\0.shstrtab\0";
        let mut data = name.to_vec();
        data.push(0);
        while data.len() % 4 != 0 {
            data.push(0);
        }
        data.extend_from_slice(&crc.to_le_bytes());
        let data_at = file.len();
        file.extend_from_slice(&data);
        let strtab_at = file.len();
        file.extend_from_slice(strtab);
        while file.len() % 8 != 0 {
            file.push(0);
        }
        let shoff = file.len();
        let section = |name: u32, kind: u32, offset: usize, size: usize| {
            let mut h = vec![0u8; 64];
            h[0..4].copy_from_slice(&name.to_le_bytes());
            h[4..8].copy_from_slice(&kind.to_le_bytes());
            h[24..32].copy_from_slice(&(offset as u64).to_le_bytes());
            h[32..40].copy_from_slice(&(size as u64).to_le_bytes());
            h[48..56].copy_from_slice(&1u64.to_le_bytes());
            h
        };
        file.extend_from_slice(&vec![0u8; 64]);
        file.extend_from_slice(&section(1, 1, data_at, data.len()));
        file.extend_from_slice(&section(16, 3, strtab_at, strtab.len()));
        file[40..48].copy_from_slice(&(shoff as u64).to_le_bytes());
        file[60..62].copy_from_slice(&3u16.to_le_bytes());
        file[62..64].copy_from_slice(&2u16.to_le_bytes());
    }
    file
}

#[test]
fn places_for_an_object_in_bin() {
    assert_eq!(
        candidates("/bin/ls", "ls.debug"),
        vec![
            "/bin/ls.debug".to_string(),
            "/bin/.debug/ls.debug".to_string(),
            "/usr/lib/debug/bin/ls.debug".to_string(),
        ]
    );
}

#[test]
fn places_for_a_deeper_object() {
    assert_eq!(
        candidates("/usr/lib/x86_64/libfoo.so.1", "libfoo.debug"),
        vec![
            "/usr/lib/x86_64/libfoo.debug".to_string(),
            "/usr/lib/x86_64/.debug/libfoo.debug".to_string(),
            "/usr/lib/debug/usr/lib/x86_64/libfoo.debug".to_string(),
        ]
    );
}

#[test]
fn places_for_a_relative_object() {
    assert_eq!(
        candidates("build/app", "app.dbg"),
        vec![
            "build/app.dbg".to_string(),
            "build/.debug/app.dbg".to_string(),
            "/usr/lib/debug/build/app.dbg".to_string(),
        ]
    );
}

#[test]
fn places_for_an_object_without_a_directory() {
    // the parent of a bare file name is the empty path
    assert_eq!(
        candidates("app", "app.dbg"),
        vec!["app.dbg".to_string(), ".debug/app.dbg".to_string(), "/usr/lib/debug/app.dbg".to_string()]
    );
    // the root has no parent
    assert_eq!(
        candidates("/", "x"),
        vec!["./x".to_string(), "./.debug/x".to_string(), "/usr/lib/debug/./x".to_string()]
    );
}

#[test]
fn root_is_taken_off() {
    assert_eq!(without_root("/usr/lib"), "usr/lib");
    assert_eq!(without_root("usr/lib"), "usr/lib");
    assert_eq!(without_root("/"), "");
    assert_eq!(without_root("/a/../b"), "a/../b");
    assert_eq!(without_root("./a"), "./a");
}

#[test]
fn checksum_is_crc32() {
    let link = DebugLink { name: "x".to_string(), crc: 0xcbf43926 };
    assert!(checksum_matches(&link, b"123456789"));
    assert!(!checksum_matches(&link, b"123456780"));
    let link = DebugLink { name: "x".to_string(), crc: 0 };
    assert!(checksum_matches(&link, b""));
}

#[test]
fn debuglink_is_read() {
    let object = elf(Some((b"ls.debug", 0x1234_5678)));
    assert_eq!(
        read_debuglink(&object).unwrap(),
        Some(DebugLink { name: "ls.debug".to_string(), crc: 0x1234_5678 })
    );
}

#[test]
fn object_without_a_debuglink() {
    assert_eq!(read_debuglink(&elf(None)).unwrap(), None);
}

#[test]
fn debuglink_with_a_name_that_is_not_utf8() {
    let object = elf(Some((&[0xff, 0xfe], 1)));
    assert_eq!(read_debuglink(&object).unwrap(), None);
}

#[test]
fn what_is_no_object_is_an_error() {
    let err: ObjectError = read_debuglink(b"not an object file").unwrap_err();
    assert_eq!(err.0, "object file parse failed");
    assert_eq!(err.message(), "object file parse failed");
    assert!(read_debuglink(b"").is_err());
    let made: ObjectError = "some reason".into();
    assert_eq!(made.0, "some reason");
}

#[test]
fn linked_file_with_the_right_checksum_is_used() {
    let linked = elf(None);
    let crc = crc::crc32::checksum_ieee(&linked);
    let link = Some(DebugLink { name: "ls.debug".to_string(), crc });
    assert_eq!(choose_source(&link, Some(&linked)), DebugSource::Linked);
}

#[test]
fn linked_file_with_another_checksum_is_turned_down() {
    let linked = elf(None);
    let crc = crc::crc32::checksum_ieee(&linked);
    let link = Some(DebugLink { name: "ls.debug".to_string(), crc: crc.wrapping_add(1) });
    assert_eq!(choose_source(&link, Some(&linked)), DebugSource::Primary);
}

#[test]
fn corrupted_linked_file_is_turned_down() {
    let linked = elf(Some((b"other", 9)));
    let crc = crc::crc32::checksum_ieee(&linked);
    let link = Some(DebugLink { name: "ls.debug".to_string(), crc });
    assert_eq!(choose_source(&link, Some(&linked)), DebugSource::Linked);
    for at in [0usize, 1, 17, 63, linked.len() - 1] {
        let mut corrupted = linked.clone();
        corrupted[at] ^= 0x01;
        assert_eq!(choose_source(&link, Some(&corrupted)), DebugSource::Primary, "byte {}", at);
    }
}

#[test]
fn linked_file_that_is_no_object_is_turned_down() {
    let linked = b"just text".to_vec();
    let crc = crc::crc32::checksum_ieee(&linked);
    let link = Some(DebugLink { name: "ls.debug".to_string(), crc });
    assert_eq!(choose_source(&link, Some(&linked)), DebugSource::Primary);
}

#[test]
fn without_link_or_file_the_object_is_used() {
    let linked = elf(None);
    assert_eq!(choose_source(&None, Some(&linked)), DebugSource::Primary);
    let link = Some(DebugLink { name: "ls.debug".to_string(), crc: 1 });
    assert_eq!(choose_source(&link, None), DebugSource::Primary);
    assert_eq!(choose_source(&None, None), DebugSource::Primary);
}
