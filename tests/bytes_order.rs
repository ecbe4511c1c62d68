use xline::bytes::{compare_bytes, in_range, CompareResult};

#[test]
fn lexicographic_compare() {
    assert_eq!(compare_bytes(b"a", b"b"), CompareResult::Less);
    assert_eq!(compare_bytes(b"ab", b"a"), CompareResult::Greater);
    assert_eq!(compare_bytes(b"", b""), CompareResult::Equal);
    assert_eq!(compare_bytes(b"", b"a"), CompareResult::Less);
}

#[test]
fn key_ranges() {
    assert!(in_range(b"a", b"a", b""));
    assert!(!in_range(b"ab", b"a", b""));
    assert!(in_range(b"b", b"a", b"c"));
    assert!(!in_range(b"c", b"a", b"c"));
    assert!(in_range(b"zzz", &[0], &[0]));
    assert!(!in_range(b"z\x00", b"z", b"z\x00"));
}
