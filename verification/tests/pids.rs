use psm::pids::{
    first_char, get_pids, is_dir, names_process, parse_pid, BadPidName, EntryError, EntryKind,
    ProcEntry,
};

fn entry(name: &str, kind: Option<EntryKind>) -> ProcEntry {
    ProcEntry { name: name.as_bytes().to_vec(), kind }
}

fn dir(name: &str) -> ProcEntry {
    entry(name, Some(EntryKind::Directory))
}

#[test]
fn the_first_character_is_the_first_byte() {
    assert_eq!(first_char(b"1234"), '1');
    assert_eq!(first_char(b"self"), 's');
    assert_eq!(first_char(&[0xe9, 0x41]), '\u{e9}');
}

#[test]
fn only_a_directory_passes() {
    assert_eq!(is_dir(EntryKind::Directory), Ok(EntryKind::Directory));
    assert_eq!(is_dir(EntryKind::Other), Err(EntryError::NotADirectory));
}

#[test]
fn a_candidate_opens_with_a_digit_and_is_a_directory() {
    assert!(names_process(&dir("1")));
    assert!(names_process(&dir("4194304")));
    assert!(names_process(&dir("1abc")));
    assert!(!names_process(&dir("self")));
    assert!(!names_process(&dir("")));
    assert!(!names_process(&dir(".1")));
    assert!(!names_process(&entry("1", Some(EntryKind::Other))));
    assert!(!names_process(&entry("1", None)));
}

#[test]
fn a_process_identifier_is_a_numeral_within_range() {
    assert_eq!(parse_pid(b"1"), Some(1));
    assert_eq!(parse_pid(b"4194304"), Some(4194304));
    assert_eq!(parse_pid(b"007"), Some(7));
    assert_eq!(parse_pid(b"2147483647"), Some(i32::MAX));
    assert_eq!(parse_pid(b"2147483648"), None);
    assert_eq!(parse_pid(b"99999999999999999999999"), None);
    assert_eq!(parse_pid(b""), None);
    assert_eq!(parse_pid(b"12a"), None);
    assert_eq!(parse_pid(b"-1"), None);
    assert_eq!(parse_pid(b"+1"), None);
}

#[test]
fn the_processes_of_a_listing_come_in_its_order() {
    let listing = vec![
        dir("self"),
        dir("300"),
        entry("cpuinfo", Some(EntryKind::Other)),
        dir("1"),
        dir("thread-self"),
        dir("25"),
    ];
    assert_eq!(get_pids(&listing), Ok(vec![300, 1, 25]));
}

#[test]
fn an_empty_listing_has_no_processes() {
    assert_eq!(get_pids(&Vec::new()), Ok(Vec::new()));
}

#[test]
fn an_entry_that_vanished_is_passed_over() {
    let listing = vec![dir("1"), entry("2", None), dir("3")];
    assert_eq!(get_pids(&listing), Ok(vec![1, 3]));
}

#[test]
fn a_numbered_file_is_passed_over() {
    let listing = vec![dir("1"), entry("2", Some(EntryKind::Other)), entry("9x", None)];
    assert_eq!(get_pids(&listing), Ok(vec![1]));
}

#[test]
fn a_candidate_that_is_no_number_is_an_error() {
    let listing = vec![dir("1"), dir("self"), dir("2x"), dir("3"), dir("4y")];
    assert_eq!(get_pids(&listing), Err(BadPidName { index: 2 }));
    let large = vec![dir("2147483648")];
    assert_eq!(get_pids(&large), Err(BadPidName { index: 0 }));
}
