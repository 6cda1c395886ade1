//! Comparisons against the standard library's substring search, over
//! enumerated texts and patterns from small alphabets, including multi-byte
//! characters and periodic patterns.

use knuth_morris_pratt::knuth_morris_pratt;

static ALPHABET: &str = "abñòαβ\u{3c72}";
static SIMPLEALPHABET: &str = "ab";

pub fn contains(hay: &str, n: &str) -> bool {
    knuth_morris_pratt(hay.as_bytes(), n.as_bytes()).is_some()
}

pub fn find(hay: &str, n: &str) -> Option<usize> {
    knuth_morris_pratt(hay.as_bytes(), n.as_bytes())
}

/// Every string over `alphabet` of length at most `max_len`.
fn all_strings(alphabet: &str, max_len: usize) -> Vec<String> {
    let letters: Vec<char> = alphabet.chars().collect();
    let mut out: Vec<String> = vec![String::new()];
    let mut layer: Vec<String> = vec![String::new()];
    for _ in 0..max_len {
        let mut next = Vec::new();
        for s in &layer {
            for c in &letters {
                let mut t = s.clone();
                t.push(*c);
                next.push(t);
            }
        }
        out.extend(next.iter().cloned());
        layer = next;
    }
    out
}

/// Every substring of `s` on character boundaries, the empty one included.
fn substrings(s: &str) -> Vec<&str> {
    let mut bounds: Vec<usize> = s.char_indices().map(|(i, _)| i).collect();
    bounds.push(s.len());
    let mut out = Vec::new();
    for (ai, a) in bounds.iter().enumerate() {
        for b in &bounds[ai..] {
            out.push(&s[*a..*b]);
        }
    }
    out
}

#[test]
fn test_contains() {
    for a in all_strings(ALPHABET, 3) {
        for b in all_strings(ALPHABET, 2) {
            let truth = a.contains(&b[..]);
            assert_eq!(contains(&a, &b), truth, "body={}, pattern={}", a, b);
        }
    }
}

#[test]
fn test_find_str() {
    for a in all_strings(ALPHABET, 3) {
        for b in all_strings(ALPHABET, 2) {
            let truth = a.find(&b[..]);
            assert_eq!(find(&a, &b), truth, "body={}, pattern={}", a, b);
        }
    }
}

#[test]
fn test_contains_plus() {
    for a in all_strings(ALPHABET, 3) {
        for b in all_strings(ALPHABET, 2) {
            if b.is_empty() {
                continue;
            }
            let truth = a.contains(&b[..]);
            assert_eq!(contains(&a, &b), truth);
            if truth {
                assert!(substrings(&b).iter().all(|sub| contains(&a, sub)));
            }
        }
    }
}

#[test]
fn test_contains_substrings() {
    for s in all_strings("abò\u{3c72}", 4) {
        if s.chars().count() != 4 {
            continue;
        }
        let a = &s;
        for sub in substrings(a) {
            assert!(a.contains(sub));
            assert!(contains(a, sub), "body={}, pattern={}", a, sub);
        }
    }
}

#[test]
fn test_find_period() {
    for a in all_strings(SIMPLEALPHABET, 6) {
        for b in all_strings(SIMPLEALPHABET, 2) {
            let pat = [&b[..], &b[..]].concat();
            let truth = a.find(&pat);
            assert_eq!(find(&a, &pat), truth, "body={}, pattern={}", a, pat);
        }
    }
}
