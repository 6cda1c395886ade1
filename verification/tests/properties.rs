//! Edge cases and stated properties of the search: the empty pattern, the
//! overlong pattern, periodic texts, the first of several occurrences,
//! pattern lengths on both sides of the stack-buffer bound, and searches
//! under caller-supplied equivalences.

use knuth_morris_pratt::knuth_morris_pratt;
use knuth_morris_pratt::knuth_morris_pratt_by;

#[test]
fn empty_pattern_matches_at_zero() {
    assert_eq!(knuth_morris_pratt("".as_bytes(), "".as_bytes()), Some(0));
    assert_eq!(knuth_morris_pratt("abc".as_bytes(), "".as_bytes()), Some(0));
    let empty: [u64; 0] = [];
    assert_eq!(knuth_morris_pratt(&[4u64, 5, 6], &empty), Some(0));
    assert_eq!(knuth_morris_pratt(&empty, &empty), Some(0));
}

#[test]
fn longer_pattern_never_matches() {
    assert_eq!(knuth_morris_pratt("".as_bytes(), "a".as_bytes()), None);
    assert_eq!(knuth_morris_pratt("ab".as_bytes(), "aba".as_bytes()), None);
    assert_eq!(knuth_morris_pratt(&[1, 2, 3], &[1, 2, 3, 4]), None);
}

#[test]
fn doubled_pattern_matches_at_zero() {
    let patterns = [
        "a".to_string(),
        "ab".to_string(),
        "abab".to_string(),
        "aab".to_string(),
        "aaaa".to_string(),
        "abcabcab".to_string(),
        "xyzzy".repeat(9),
    ];
    for p in &patterns {
        let doubled = [&p[..], &p[..]].concat();
        assert_eq!(
            knuth_morris_pratt(doubled.as_bytes(), p.as_bytes()),
            Some(0),
            "pattern={}",
            p
        );
    }
}

#[test]
fn first_of_several_occurrences() {
    assert_eq!(knuth_morris_pratt("aabaabaab".as_bytes(), "aab".as_bytes()), Some(0));
    assert_eq!(knuth_morris_pratt("aabaabaab".as_bytes(), "ab".as_bytes()), Some(1));
    assert_eq!(knuth_morris_pratt("xabcabc".as_bytes(), "abc".as_bytes()), Some(1));
    assert_eq!(knuth_morris_pratt(&[9, 9, 9, 9], &[9, 9]), Some(0));
}

#[test]
fn pattern_lengths_around_stack_bound() {
    for len in [30usize, 31, 32, 33, 40, 100] {
        let pattern = "ab".repeat(len / 2) + if len % 2 == 1 { "c" } else { "" };
        assert_eq!(pattern.len(), len);
        let text = format!("{}{}{}", "bca".repeat(20), pattern, "abc".repeat(5));
        assert_eq!(
            knuth_morris_pratt(text.as_bytes(), pattern.as_bytes()),
            text.find(&pattern),
            "len={}",
            len
        );
        let absent = format!("{}d", &pattern[1..]);
        assert_eq!(
            knuth_morris_pratt(text.as_bytes(), absent.as_bytes()),
            text.find(&absent),
            "len={}",
            len
        );
    }
}

#[test]
fn search_under_modular_equivalence() {
    let text: [u32; 6] = [3, 14, 15, 92, 65, 35];
    let pattern: [u32; 2] = [2, 5];
    let result = knuth_morris_pratt_by(&text, &pattern, |a: &u32, b: &u32| a % 10 == b % 10);
    assert_eq!(result, Some(3));
    let pattern_missing: [u32; 2] = [2, 6];
    let none = knuth_morris_pratt_by(&text, &pattern_missing, |a: &u32, b: &u32| a % 10 == b % 10);
    assert_eq!(none, None);
}

#[test]
fn search_under_universal_equivalence() {
    let text = "wxyz".as_bytes();
    let pattern = "abc".as_bytes();
    let result = knuth_morris_pratt_by(text, pattern, |_a: &u8, _b: &u8| true);
    assert_eq!(result, Some(0));
}
