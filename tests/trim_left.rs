use trim_matches_exactly::TrimMatchesExactlyExt;

fn assert_trim_left(expected: Result<&str, &str>, haystack: &str, needle: &str, count: usize) {
    let actual = haystack.trim_left_matches_exactly(needle, count);

    assert_eq!(expected, actual,
        "For haystack '{}', needle '{}' and count '{}'", haystack, needle, count);
}

#[test]
fn lib_returns_trimmed_or_original_str() {
    assert_trim_left(Ok("aab"),  "aab", "",  0);
    assert_trim_left(Ok("aab"),  "aab", "",  1);
    assert_trim_left(Err("aab"), "aab", "",  2);
    assert_trim_left(Ok("aab"),  "aab", "a", 0);
    assert_trim_left(Ok("ab"),   "aab", "a", 1);
    assert_trim_left(Ok("b"),    "aab", "a", 2);
    assert_trim_left(Err("aab"), "aab", "a", 3);
    assert_trim_left(Ok("aab"),  "aab", "b", 0);
    assert_trim_left(Err("aab"), "aab", "b", 1);
}

#[test]
fn left_literal_examples() {
    assert_eq!(Ok("trimmed"), "not trimmed".trim_left_matches_exactly("not ", 1));
    assert_eq!(Err("not trimmed"), "not trimmed".trim_left_matches_exactly("very ", 1));
    assert_eq!(Ok("trimmed"), "tttrimmed".trim_left_matches_exactly('t', 2));
}

#[test]
fn left_fails_when_too_few_matches() {
    assert_eq!(Err("aab"), "aab".trim_left_matches_exactly("a", 3));
    assert_eq!(Err("aab"), "aab".trim_left_matches_exactly('a', 3));
}

#[test]
fn left_matches_do_not_overlap() {
    assert_eq!(Err("aaa"), "aaa".trim_left_matches_exactly("aa", 2));
    assert_eq!(Ok("a"), "aaa".trim_left_matches_exactly("aa", 1));
    assert_eq!(Ok(""), "aaaa".trim_left_matches_exactly("aa", 2));
}

#[test]
fn left_failure_returns_the_same_slice() {
    let text = "not trimmed";
    let r = text.trim_left_matches_exactly("not", 2);
    match r {
        Err(t) => {
            assert_eq!(t.as_ptr(), text.as_ptr());
            assert_eq!(t.len(), text.len());
        }
        Ok(_) => panic!("expected the untrimmed text"),
    }
}

#[test]
fn left_success_is_a_tail_of_the_text() {
    let text = "ababc";
    let r = text.trim_left_matches_exactly("ab", 2).unwrap();
    assert_eq!("c", r);
    assert_eq!(r.as_ptr(), text[4..].as_ptr());
}

#[test]
fn left_char_set_pattern() {
    let set: &[char] = &['a', 'b'];
    assert_eq!(Ok("cab"), "abcab".trim_left_matches_exactly(set, 2));
    assert_eq!(Err("abcab"), "abcab".trim_left_matches_exactly(set, 3));
    assert_eq!(Ok("abcab"), "abcab".trim_left_matches_exactly(set, 0));
    let none: &[char] = &[];
    assert_eq!(Err("abc"), "abc".trim_left_matches_exactly(none, 1));
}

#[test]
fn left_counts_characters_not_bytes() {
    assert_eq!(Ok("x"), "ééx".trim_left_matches_exactly('é', 2));
    assert_eq!(Ok("x"), "日本日本x".trim_left_matches_exactly("日本", 2));
    assert_eq!(Err("日本x"), "日本x".trim_left_matches_exactly("本", 1));
}

#[test]
fn left_empty_text() {
    assert_eq!(Ok(""), "".trim_left_matches_exactly("", 0));
    assert_eq!(Ok(""), "".trim_left_matches_exactly("", 1));
    assert_eq!(Err(""), "".trim_left_matches_exactly("", 2));
    assert_eq!(Err(""), "".trim_left_matches_exactly('a', 1));
    assert_eq!(Ok(""), "a".trim_left_matches_exactly('a', 1));
}

#[test]
fn left_largest_count_terminates() {
    assert_eq!(Err("aab"), "aab".trim_left_matches_exactly("", usize::MAX));
    assert_eq!(Err("aab"), "aab".trim_left_matches_exactly('a', usize::MAX));
}
