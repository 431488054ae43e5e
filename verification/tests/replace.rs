use boxednix::redact::replace::{apply, sort_descending, splice_all, RedactError, Redaction};

fn red(start: usize, end: usize, bytes: &[u8]) -> Redaction {
    Redaction {
        range: start..end,
        bytes: bytes.to_vec(),
    }
}

#[test]
fn apply_replaces_each_range() {
    let content = b"0123456789";
    let redactions = vec![red(1, 3, b"ab"), red(8, 10, b""), red(4, 5, b"xyz")];
    assert_eq!(apply(content, redactions), Ok(b"0ab3xyz567".to_vec()));
}

#[test]
fn apply_without_redactions_copies() {
    assert_eq!(apply(b"abc", Vec::new()), Ok(b"abc".to_vec()));
}

#[test]
fn apply_takes_adjacent_ranges() {
    assert_eq!(
        apply(b"abcdef", vec![red(0, 2, b"X"), red(2, 4, b"Y")]),
        Ok(b"XYef".to_vec())
    );
}

#[test]
fn apply_inserts_at_an_empty_range() {
    assert_eq!(apply(b"abcd", vec![red(2, 2, b"--")]), Ok(b"ab--cd".to_vec()));
    assert_eq!(
        apply(b"abcd", vec![red(2, 4, b"Y"), red(1, 2, b"")]),
        Ok(b"aY".to_vec())
    );
}

#[test]
fn apply_refuses_overlap() {
    assert_eq!(
        apply(b"abcdef", vec![red(0, 3, b"X"), red(2, 4, b"Y")]),
        Err(RedactError::Overlap)
    );
    assert_eq!(
        apply(b"abcdef", vec![red(1, 5, b"X"), red(2, 3, b"Y")]),
        Err(RedactError::Overlap)
    );
}

#[test]
fn apply_refuses_a_shared_start() {
    assert_eq!(
        apply(b"abcdef", vec![red(2, 2, b"X"), red(2, 4, b"Y")]),
        Err(RedactError::Overlap)
    );
    assert_eq!(
        apply(b"abcdef", vec![red(2, 2, b"X"), red(2, 2, b"Y")]),
        Err(RedactError::Overlap)
    );
}

#[test]
fn sort_puts_the_greatest_start_first() {
    let sorted = sort_descending(vec![red(1, 2, b"a"), red(7, 8, b"b"), red(4, 5, b"c")]);
    let starts: Vec<usize> = sorted.iter().map(|r| r.range.start).collect();
    assert_eq!(starts, vec![7, 4, 1]);
    let bytes: Vec<&[u8]> = sorted.iter().map(|r| r.bytes.as_slice()).collect();
    assert_eq!(bytes, vec![b"b".as_slice(), b"c".as_slice(), b"a".as_slice()]);
}

#[test]
fn sort_keeps_the_order_of_equal_starts() {
    let sorted = sort_descending(vec![red(3, 3, b"first"), red(5, 6, b"x"), red(3, 4, b"second")]);
    let bytes: Vec<&[u8]> = sorted.iter().map(|r| r.bytes.as_slice()).collect();
    assert_eq!(
        bytes,
        vec![b"x".as_slice(), b"first".as_slice(), b"second".as_slice()]
    );
}

#[test]
fn splice_goes_from_the_end_of_the_text() {
    let sorted = vec![red(6, 9, b"!"), red(0, 1, b"<<")];
    assert_eq!(splice_all(b"abcdefghij", &sorted), b"<<bcdef!j".to_vec());
}
