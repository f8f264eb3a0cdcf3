use psm::lines::Lines;

fn all_lines(content: &[u8]) -> Vec<Vec<u8>> {
    let mut lines = Lines::new(content);
    let mut out = Vec::new();
    while let Some(line) = lines.next() {
        out.push(line.to_vec());
    }
    assert!(lines.next().is_none());
    out
}

#[test]
fn empty_content_has_no_lines() {
    assert!(all_lines(b"").is_empty());
}

#[test]
fn lines_come_without_their_newline() {
    assert_eq!(all_lines(b"one\ntwo\n"), vec![b"one".to_vec(), b"two".to_vec()]);
}

#[test]
fn a_last_line_needs_no_newline() {
    assert_eq!(all_lines(b"one\ntwo"), vec![b"one".to_vec(), b"two".to_vec()]);
}

#[test]
fn empty_lines_are_lines() {
    assert_eq!(all_lines(b"\n"), vec![b"".to_vec()]);
    assert_eq!(all_lines(b"a\n\nb"), vec![b"a".to_vec(), b"".to_vec(), b"b".to_vec()]);
    assert_eq!(all_lines(b"\n\n"), vec![b"".to_vec(), b"".to_vec()]);
}

#[test]
fn a_carriage_return_stays_in_the_line() {
    assert_eq!(all_lines(b"a\r\nb"), vec![b"a\r".to_vec(), b"b".to_vec()]);
}
