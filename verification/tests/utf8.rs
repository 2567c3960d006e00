use split_ext::char_boundaries;
use split_ext::Utf8Boundaries;
use split_ext::Utf8DecodeError;

fn collect_fwd(bytes: &[u8]) -> Vec<Result<usize, Utf8DecodeError>> {
    let mut b = Utf8Boundaries::new(bytes);
    let mut v = Vec::new();
    while let Some(item) = b.next() {
        v.push(item);
    }
    v
}

fn collect_bwd(bytes: &[u8]) -> Vec<Result<usize, Utf8DecodeError>> {
    let mut b = Utf8Boundaries::new(bytes);
    let mut v = Vec::new();
    while let Some(item) = b.next_back() {
        v.push(item);
    }
    v
}

#[test]
fn euro_boundaries() {
    assert_eq!(collect_fwd("€6".as_bytes()), vec![Ok(0), Ok(3), Ok(4)]);
}

#[test]
fn empty_input_ends_immediately() {
    let mut b = Utf8Boundaries::new(&[]);
    assert_eq!(b.next(), None);
    assert_eq!(b.next_back(), None);
}

#[test]
fn forward_and_backward_agree_on_valid_text() {
    for s in ["a", "ab", "€6", "€ह 𐍈", "hello world"] {
        let fwd = collect_fwd(s.as_bytes());
        let mut bwd = collect_bwd(s.as_bytes());
        bwd.reverse();
        assert_eq!(fwd, bwd);
        assert!(fwd.iter().all(|item| item.is_ok()));
    }
}

#[test]
fn ascii_boundaries() {
    assert_eq!(collect_fwd(b"ab"), vec![Ok(0), Ok(1), Ok(2)]);
    assert_eq!(collect_bwd(b"ab"), vec![Ok(2), Ok(1), Ok(0)]);
}

#[test]
fn invalid_byte_reports_failure_and_continues() {
    // the bad byte is reported and skipped; scanning resumes on 0x42
    let fwd = collect_fwd(&[0x41, 0xff, 0x42]);
    assert_eq!(fwd, vec![Ok(0), Ok(1), Err(Utf8DecodeError), Ok(3)]);
}

#[test]
fn truncated_sequence_reports_failures() {
    // the first two bytes of the euro sign, missing the third: each step
    // reports a failure and skips one byte
    let fwd = collect_fwd(&[0xe2, 0x82]);
    assert_eq!(fwd, vec![Ok(0), Err(Utf8DecodeError), Err(Utf8DecodeError), Ok(2)]);
}

#[test]
fn overlong_and_surrogate_are_rejected() {
    // 0xc0 0xaf is an overlong encoding; 0xed 0xa0 0x80 is a surrogate
    assert_eq!(
        collect_fwd(&[0xc0, 0xaf]),
        vec![Ok(0), Err(Utf8DecodeError), Err(Utf8DecodeError), Ok(2)]
    );
    assert_eq!(
        collect_fwd(&[0xed, 0xa0, 0x80]),
        vec![Ok(0), Err(Utf8DecodeError), Err(Utf8DecodeError), Err(Utf8DecodeError), Ok(3)]
    );
}

#[test]
fn backward_scan_continues_past_failure() {
    // the failure is reported, the bad byte skipped, and the scan resumes on
    // the characters before it
    let bwd = collect_bwd(&[0x41, 0xff, 0x42]);
    assert_eq!(bwd, vec![Ok(3), Ok(2), Err(Utf8DecodeError), Ok(0)]);
}

#[test]
fn double_ended_scan_shares_the_window() {
    let mut b = Utf8Boundaries::new("€6".as_bytes());
    assert_eq!(b.next(), Some(Ok(0)));
    assert_eq!(b.next_back(), Some(Ok(4)));
    assert_eq!(b.next(), Some(Ok(3)));
    assert_eq!(b.next_back(), None);
    assert_eq!(b.next(), None);
}

#[test]
fn char_boundaries_of_strings() {
    assert_eq!(char_boundaries("€6"), vec![0, 3, 4]);
    assert_eq!(char_boundaries(""), vec![0]);
    assert_eq!(char_boundaries("abc"), vec![0, 1, 2, 3]);
    assert_eq!(char_boundaries("€ह 𐍈"), vec![0, 3, 6, 7, 11]);
}

#[test]
fn scanner_matches_char_boundaries() {
    for s in ["", "a", "€6", "€ह 𐍈"] {
        let expected: Vec<Result<usize, Utf8DecodeError>> = if s.is_empty() {
            Vec::new()
        } else {
            char_boundaries(s).iter().map(|&b| Ok(b)).collect()
        };
        assert_eq!(collect_fwd(s.as_bytes()), expected);
    }
}
