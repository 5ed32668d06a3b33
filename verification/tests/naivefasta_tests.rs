use naivefasta::loader::strip_newlines;
use naivefasta::matcher::naive_match;

#[test]
fn scenario_ababab() {
    let t = b"ABABAB".to_vec();
    let p = b"AB".to_vec();
    let matches = naive_match(&t, &p);
    assert_eq!(matches, vec![0, 2, 4]);
    assert_eq!(matches.len(), 3);
}

#[test]
fn scenario_overlapping_aaaa() {
    let t = b"AAAA".to_vec();
    let p = b"AA".to_vec();
    let matches = naive_match(&t, &p);
    assert_eq!(matches, vec![0, 1, 2]);
    assert_eq!(matches.len(), 3);
}

#[test]
fn scenario_no_match() {
    let t = b"HELLO".to_vec();
    let p = b"XYZ".to_vec();
    let matches = naive_match(&t, &p);
    assert_eq!(matches, Vec::<usize>::new());
    assert_eq!(matches.len(), 0);
}

#[test]
fn scenario_fasta_file() {
    let raw = b">seq1\nACGT\nACGA\n".to_vec();
    let t = strip_newlines(raw);
    assert_eq!(t, b">seq1ACGTACGA".to_vec());
    let p = b"ACG".to_vec();
    let matches = naive_match(&t, &p);
    assert_eq!(matches, vec![5, 9]);
    assert_eq!(matches.len(), 2);
}

#[test]
fn scenario_whole_text_is_pattern() {
    let t = b"ACGT".to_vec();
    let p = b"ACGT".to_vec();
    let matches = naive_match(&t, &p);
    assert_eq!(matches, vec![0]);
}

#[test]
fn empty_pattern_matches_nothing() {
    let t = b"ABC".to_vec();
    let p = Vec::new();
    let matches = naive_match(&t, &p);
    assert_eq!(matches.len(), 0);
}

#[test]
fn empty_pattern_on_empty_text() {
    let t = Vec::new();
    let p = Vec::new();
    let matches = naive_match(&t, &p);
    assert_eq!(matches.len(), 0);
}

#[test]
fn pattern_longer_than_text() {
    let t = b"AB".to_vec();
    let p = b"ABC".to_vec();
    let matches = naive_match(&t, &p);
    assert_eq!(matches.len(), 0);
}

#[test]
fn pattern_on_empty_text() {
    let t = Vec::new();
    let p = b"A".to_vec();
    let matches = naive_match(&t, &p);
    assert_eq!(matches.len(), 0);
}

#[test]
fn single_byte_pattern() {
    let t = b"ABA".to_vec();
    let p = b"A".to_vec();
    let matches = naive_match(&t, &p);
    assert_eq!(matches, vec![0, 2]);
}

#[test]
fn match_at_last_offset() {
    let t = b"XXAB".to_vec();
    let p = b"AB".to_vec();
    let matches = naive_match(&t, &p);
    assert_eq!(matches, vec![2]);
}

#[test]
fn newline_stripping() {
    let raw = b"AAA\nBBB\nCCC".to_vec();
    assert_eq!(strip_newlines(raw), b"AAABBBCCC".to_vec());
}

#[test]
fn stripping_keeps_carriage_returns() {
    let raw = b"A\r\nB".to_vec();
    assert_eq!(strip_newlines(raw), b"A\rB".to_vec());
}

#[test]
fn stripping_newlines_only_file() {
    let raw = b"\n\n\n".to_vec();
    assert_eq!(strip_newlines(raw), Vec::<u8>::new());
}

#[test]
fn stripping_without_newlines_is_identity() {
    let raw = b"ACGT".to_vec();
    assert_eq!(strip_newlines(raw), b"ACGT".to_vec());
}

#[test]
fn stripping_empty_file() {
    let raw = Vec::new();
    assert_eq!(strip_newlines(raw), Vec::<u8>::new());
}

#[test]
fn count_covers_non_overlapping_repetitions() {
    // "ABC" occurs three times without overlap; the count is at least 3.
    let t = b"ABCABCABC".to_vec();
    let p = b"ABC".to_vec();
    let matches = naive_match(&t, &p);
    assert!(matches.len() >= 3);
    assert_eq!(matches, vec![0, 3, 6]);

    // two non-overlapping occurrences of "AA"; overlap pushes the count higher.
    let t2 = b"AAAA".to_vec();
    let p2 = b"AA".to_vec();
    let matches2 = naive_match(&t2, &p2);
    assert!(matches2.len() >= 2);
    assert_eq!(matches2.len(), 3);
}

#[test]
fn matches_are_ascending_and_in_bounds() {
    let t = b"GAGAGAGA".to_vec();
    let p = b"GAG".to_vec();
    let matches = naive_match(&t, &p);
    assert_eq!(matches, vec![0, 2, 4]);
    let mut prev: Option<usize> = None;
    for &m in &matches {
        if let Some(q) = prev {
            assert!(q < m);
        }
        assert!(m + p.len() <= t.len());
        prev = Some(m);
    }
}
