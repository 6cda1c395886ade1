use knuth_morris_pratt::knuth_morris_pratt;
use knuth_morris_pratt::knuth_morris_pratt_by;

fn check(body: &str, pattern: &str) {
    assert_eq!(
        body.find(pattern),
        knuth_morris_pratt(body.as_bytes(), pattern.as_bytes()),
        "assertion failed for body={}, pattern={}",
        body,
        pattern
    );
}

#[test]
fn basic_test() {
    let body = "G";
    let pattern = "GCAGAGAG";
    knuth_morris_pratt(body.as_bytes(), pattern.as_bytes());
    check("xyz", "a");
    check("xyz", "x");
    check("xyz", "y");
    check("xyz", "z");
    check("substrinstring", "string");
    check("abcαaαβγ", "αβ");

    let result = knuth_morris_pratt(&[1729, 1, 1729, 3, 4], &[1729, 3]);
    assert_eq!(result, Some(2));
}

#[test]
fn test_by() {
    let body = [[1, 2], [3, 4], [5, 6], [3, 4], [5, 10]];
    let pat = [[7, 0], [12, 3]];

    let result = knuth_morris_pratt_by(&body, &pat, |a, b| a[0] + a[1] == b[0] + b[1]);
    assert_eq!(result, Some(3));
}
