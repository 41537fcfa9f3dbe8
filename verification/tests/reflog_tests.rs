use git_plumbing::reflog::{forward, reverse_lines, Reverse, ReverseItem, Store};

fn lines_of(v: Vec<Vec<u8>>) -> Vec<String> {
    v.into_iter().map(|l| String::from_utf8(l).unwrap()).collect()
}

#[test]
fn forward_splits_lines_oldest_first() {
    let data = b"one\ntwo\nthree\n".to_vec();
    assert_eq!(lines_of(forward(&data)), vec!["one", "two", "three"]);
}

#[test]
fn forward_tolerates_missing_trailing_newline() {
    let data = b"one\ntwo\npartial".to_vec();
    assert_eq!(lines_of(forward(&data)), vec!["one", "two", "partial"]);
}

#[test]
fn forward_single_newline_is_one_empty_line() {
    let data = b"\n".to_vec();
    assert_eq!(lines_of(forward(&data)), vec![""]);
}

#[test]
fn open_reverse_on_empty_file_yields_end_at_once() {
    let mut it = Reverse::new(Vec::new(), 64);
    assert!(matches!(it.next_line(), ReverseItem::End));
    assert!(matches!(it.next_line(), ReverseItem::End));
    assert_eq!(forward(&Vec::new()).len(), 0);
    assert_eq!(reverse_lines(Vec::new(), 64).unwrap().len(), 0);
}

#[test]
fn reverse_yields_newest_first() {
    let data = b"one\ntwo\nthree\n".to_vec();
    let out = reverse_lines(data, 4096).unwrap();
    assert_eq!(lines_of(out), vec!["three", "two", "one"]);
}

#[test]
fn reverse_is_reversed_forward_elementwise() {
    let data = b"a\nbb\n\nccc\nno-trailing-newline".to_vec();
    let mut fwd = lines_of(forward(&data));
    let rev = lines_of(reverse_lines(data, 4096).unwrap());
    fwd.reverse();
    assert_eq!(rev, fwd);
}

#[test]
fn reverse_stitches_a_line_across_chunks() {
    // The last line is 300 bytes; the window is just one byte longer, so the
    // walk refills backward several times and must still yield whole lines.
    let long: Vec<u8> = std::iter::repeat(b'x').take(300).collect();
    let mut data = Vec::new();
    for i in 0..10 {
        data.extend_from_slice(format!("entry-{:02}", i).as_bytes());
        data.push(b'\n');
    }
    data.extend_from_slice(&long);
    data.push(b'\n');
    let out = reverse_lines(data.clone(), 301).unwrap();
    assert_eq!(out.len(), 11);
    assert_eq!(out[0], long);
    assert_eq!(out[1], b"entry-09".to_vec());
    assert_eq!(out[10], b"entry-00".to_vec());
}

#[test]
fn reverse_reports_a_line_longer_than_the_window() {
    let long: Vec<u8> = std::iter::repeat(b'y').take(300).collect();
    let mut data = b"short\n".to_vec();
    data.extend_from_slice(&long);
    data.push(b'\n');
    let mut it = Reverse::new(data.clone(), 64);
    assert!(matches!(it.next_line(), ReverseItem::LineTooLong));
    assert!(reverse_lines(data, 64).is_err());
}

#[test]
fn reverse_result_does_not_depend_on_window_size() {
    let mut data = Vec::new();
    for i in 0..40 {
        data.extend_from_slice(format!("line number {} with some padding", i).as_bytes());
        data.push(b'\n');
    }
    let longest = 40; // every line fits 40 bytes with its separator
    let a = reverse_lines(data.clone(), longest).unwrap();
    let b = reverse_lines(data.clone(), 113).unwrap();
    let c = reverse_lines(data, 1 << 20).unwrap();
    assert_eq!(a, b);
    assert_eq!(b, c);
}

#[test]
fn reflog_path_joins_base_logs_and_name() {
    let store = Store { base: b"/repo/.git".to_vec() };
    let path = store.reflog_path(&b"refs/heads/main".to_vec());
    assert_eq!(path, b"/repo/.git/logs/refs/heads/main".to_vec());
}
