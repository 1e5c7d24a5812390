use regex_vm::do_matching;
use regex_vm::helper::{safe_add, SafeAdd};

#[test]
fn test_safe_add() {
    let n: usize = 10;
    assert_eq!(Some(30), n.safe_add(&20));

    let n: usize = !0; // 2^64 - 1
    assert_eq!(None, n.safe_add(&1));

    let mut n: usize = 10;
    assert!(safe_add(&mut n, &20, || ()).is_ok());

    let mut n: usize = !0;
    assert!(safe_add(&mut n, &1, || ()).is_err());
}

#[test]
fn test_matching() {
    // parse errors
    assert!(do_matching("+b", "bbb", true).is_err());
    assert!(do_matching("*b", "bbb", true).is_err());
    assert!(do_matching("|b", "bbb", true).is_err());
    assert!(do_matching("?b", "bbb", true).is_err());
    assert!(do_matching("(abc", "bbb", true).is_err());
    assert!(do_matching("abc)", "bbb", true).is_err());

    // the pattern parses and matches
    assert!(do_matching("abc|def", "def", true).unwrap().0);
    assert!(do_matching("(abc)*", "abcabc", true).unwrap().0);
    assert!(do_matching("(ab|cd)+", "abcdcd", true).unwrap().0);
    assert!(do_matching("abc?", "abd", true).unwrap().0);

    // the pattern parses and does not match
    assert!(!do_matching("abc|def", "efa", true).unwrap().0);
    assert!(!do_matching("(ab|cd)+", "efa", true).unwrap().0);
    assert!(!do_matching("abc?", "acb", true).unwrap().0);
}

#[test]
fn test_matching_multi_byte_characters() {
    assert!(do_matching("あいう|えお", "あいう", true).unwrap().0);
    assert!(do_matching("(ワク)*", "ワクワク", true).unwrap().0);

    assert!(!do_matching("ほげ|ふが", "失敗", true).unwrap().0);
    assert!(!do_matching("(ふー|ばー)+", "ばば", true).unwrap().0);
}

#[test]
fn test_escape_characters() {
    assert!(do_matching("\\.あいう", ".あいうえお", true).unwrap().0);
    assert!(do_matching("\\?あいう", "?あいうえお", true).unwrap().0);
    assert!(do_matching("\\+あいう", "+あいうえお", true).unwrap().0);
    assert!(do_matching("\\*あいう", "*あいうえお", true).unwrap().0);
}

#[test]
fn test_dot_matches_any_one_character() {
    assert!(do_matching("あ.か", "あいかえお", true).unwrap().0);
    assert!(do_matching(".か.", "あいかえお", true).unwrap().0);
    assert!(do_matching("か..け", "かきくけこ", true).unwrap().0);

    assert!(!do_matching("い.え", "あいえお", true).unwrap().0);
    assert!(!do_matching(".あ.", "かきくけこ", true).unwrap().0);
}
