use crosswords::utils::{canonical_order, is_palindrome, many_iter_eq};

#[test]
fn palindrome_detection() {
    assert!(is_palindrome(b""));
    assert!(is_palindrome(b"a"));
    assert!(is_palindrome(b"aba"));
    assert!(is_palindrome(b"abba"));
    assert!(!is_palindrome(b"ab"));
    assert!(!is_palindrome(b"abca"));
}

#[test]
fn canonical_order_picks_smaller() {
    assert_eq!(canonical_order(b"ab"), b"ab".to_vec());
    assert_eq!(canonical_order(b"ba"), b"ab".to_vec());
    assert_eq!(canonical_order(b"aba"), b"aba".to_vec());
    assert_eq!(canonical_order(b"cba"), b"abc".to_vec());
    assert_eq!(canonical_order(b""), b"".to_vec());
    // A word and its reverse share one canonical key.
    assert_eq!(canonical_order(b"word"), canonical_order(b"drow"));
}

#[test]
fn many_iter_eq_flags_matches() {
    let pivot: &[u8] = b"abc";
    let iters = vec![b"abc".to_vec(), b"abd".to_vec(), b"ab".to_vec(), b"abc".to_vec()];
    let eqs = many_iter_eq(pivot, &iters);
    assert_eq!(eqs, vec![true, false, false, true]);
}
