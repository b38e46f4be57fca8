use trim_matches_exactly::TrimMatchesExactlyExt;

#[test]
fn zero_count_is_identity() {
    for text in ["", "aab", "not trimmed", "ééx"] {
        assert_eq!(Ok(text), text.trim_left_matches_exactly("zz", 0));
        assert_eq!(Ok(text), text.trim_right_matches_exactly("zz", 0));
        assert_eq!(Ok(text), text.trim_left_matches_exactly('q', 0));
        assert_eq!(Ok(text), text.trim_right_matches_exactly('q', 0));
        assert_eq!(Ok(text), text.trim_left_matches_exactly("", 0));
    }
}

#[test]
fn one_more_trim_is_shorter_or_fails() {
    let text = "ababx";
    let one = text.trim_left_matches_exactly("ab", 1).unwrap();
    let two = text.trim_left_matches_exactly("ab", 2).unwrap();
    assert_eq!("abx", one);
    assert_eq!("x", two);
    assert!(two.len() < one.len());
    assert_eq!(Ok(two), one.trim_left_matches_exactly("ab", 1));
    assert_eq!(Err(text), text.trim_left_matches_exactly("ab", 3));
}

#[test]
fn palindromes_trim_alike_from_both_ends() {
    let text = "aabaa";
    for n in 0..4 {
        let left = text.trim_left_matches_exactly('a', n);
        let right = text.trim_right_matches_exactly('a', n);
        assert_eq!(left.is_ok(), right.is_ok());
        if let (Ok(l), Ok(r)) = (left, right) {
            assert_eq!(l.len(), r.len());
        }
    }
    let left = "abaxaba".trim_left_matches_exactly("aba", 1).unwrap();
    let right = "abaxaba".trim_right_matches_exactly("aba", 1).unwrap();
    assert_eq!("xaba", left);
    assert_eq!("abax", right);
    assert_eq!(left.len(), right.len());
}
