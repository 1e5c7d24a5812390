use regex_vm::do_matching;
use regex_vm::engine::codegen::get_code;
use regex_vm::engine::evaluator::{eval, eval_depth, EvalError};
use regex_vm::engine::parser::{parse, ParseError, AST};
use regex_vm::engine::{EngineError, Instruction};

fn code_of(pattern: &str) -> Vec<Instruction> {
    get_code(&parse(pattern).unwrap()).unwrap()
}

#[test]
fn reserved_characters_match_when_escaped() {
    for c in ['\\', '(', ')', '|', '+', '*', '?', '.'] {
        let pattern = format!("\\{}", c);
        let text = c.to_string();
        let (found, rest) = do_matching(&pattern, &text, true).unwrap();
        assert!(found, "pattern {}", pattern);
        assert_eq!(rest, Some(text.clone()));
    }
}

#[test]
fn escaped_dot_is_a_literal() {
    assert!(!do_matching("\\.", "a", true).unwrap().0);
    assert!(do_matching(".", "a", true).unwrap().0);
}

#[test]
fn left_alternative_is_preferred() {
    assert_eq!(do_matching("a|ab", "ab", true).unwrap(), (true, Some("ab".to_string())));
    assert_eq!(
        code_of("a|ab"),
        vec![
            Instruction::Split(1, 3),
            Instruction::Char('a'),
            Instruction::Jump(5),
            Instruction::Char('a'),
            Instruction::Char('b'),
            Instruction::Match,
        ]
    );
}

#[test]
fn unanchored_scan_finds_later_offset() {
    assert_eq!(do_matching("bc", "abcab", true).unwrap(), (true, Some("bcab".to_string())));
    assert_eq!(do_matching("x", "abc", true).unwrap(), (false, None));
}

#[test]
fn empty_suffix_is_tried() {
    assert_eq!(do_matching("a*", "", true).unwrap(), (true, Some(String::new())));
    assert_eq!(do_matching("b?", "xyz", true).unwrap(), (true, Some("xyz".to_string())));
}

#[test]
fn parse_errors_have_their_kinds() {
    assert!(matches!(parse("+b"), Err(ParseError::NoPrev(0))));
    assert!(matches!(parse("*b"), Err(ParseError::NoPrev(0))));
    assert!(matches!(parse("|b"), Err(ParseError::NoPrev(0))));
    assert!(matches!(parse("?b"), Err(ParseError::NoPrev(0))));
    assert!(matches!(parse("a||b"), Err(ParseError::NoPrev(2))));
    assert!(matches!(parse("(abc"), Err(ParseError::NoRightParen)));
    assert!(matches!(parse("abc)"), Err(ParseError::InvalidRightParen(3))));
    assert!(matches!(parse(""), Err(ParseError::Empty)));
    assert!(matches!(parse("()"), Err(ParseError::Empty)));
    assert!(matches!(parse("a\\b"), Err(ParseError::InvalidEscape(2, 'b'))));
    assert!(matches!(
        do_matching("a\\b", "ab", true),
        Err(EngineError::Parse(ParseError::InvalidEscape(2, 'b')))
    ));
}

#[test]
fn parse_builds_the_tree() {
    match parse("ab|c").unwrap() {
        AST::Or(l, r) => {
            assert!(matches!(*l, AST::Concat(ref v) if v.len() == 2));
            assert!(matches!(*r, AST::Concat(ref v) if v.len() == 1));
        }
        other => panic!("unexpected tree {:?}", other),
    }
    match parse("(a)+").unwrap() {
        AST::Concat(v) => {
            assert_eq!(v.len(), 1);
            assert!(matches!(v[0], AST::Plus(_)));
        }
        other => panic!("unexpected tree {:?}", other),
    }
}

#[test]
fn programs_end_in_their_only_match() {
    for pattern in ["a", "a|b|c", "(ab)*c?", "x+y", "(a|b)*(c|d)+e?"] {
        let code = code_of(pattern);
        assert_eq!(code.last(), Some(&Instruction::Match));
        let matches = code.iter().filter(|i| **i == Instruction::Match).count();
        assert_eq!(matches, 1, "pattern {}", pattern);
    }
}

#[test]
fn compiling_twice_gives_the_same_program() {
    let ast = parse("(ab|c)*d+e?").unwrap();
    assert_eq!(get_code(&ast).unwrap(), get_code(&ast).unwrap());
}

#[test]
fn code_shapes() {
    assert_eq!(
        code_of("a*"),
        vec![
            Instruction::Split(1, 3),
            Instruction::Char('a'),
            Instruction::Jump(0),
            Instruction::Match,
        ]
    );
    assert_eq!(
        code_of("a+"),
        vec![Instruction::Char('a'), Instruction::Split(0, 2), Instruction::Match]
    );
    assert_eq!(
        code_of("a?b"),
        vec![
            Instruction::Split(1, 2),
            Instruction::Char('a'),
            Instruction::Char('b'),
            Instruction::Match,
        ]
    );
    assert_eq!(code_of("."), vec![Instruction::Dot, Instruction::Match]);
}

#[test]
fn plus_matches_like_one_copy_then_star() {
    for text in ["", "ab", "abab", "aba", "xaby", "b", "ba"] {
        assert_eq!(
            do_matching("(ab)+", text, true).unwrap(),
            do_matching("ab(ab)*", text, true).unwrap(),
            "text {}",
            text
        );
    }
}

#[test]
fn group_plus_matches_like_group_then_star() {
    for e in ["ab", "a|bc", "x?y", "."] {
        for text in ["", "ab", "abab", "bc", "y", "zzz"] {
            let plus = format!("({})+", e);
            let copy_star = format!("({})({})*", e, e);
            assert_eq!(
                do_matching(&plus, text, true).unwrap().0,
                do_matching(&copy_star, text, true).unwrap().0,
                "pattern {} on {}",
                e,
                text
            );
        }
    }
}

#[test]
fn groups_are_transparent() {
    for (e, text) in [("abc|d", "xd"), ("a*b", "aab"), ("a.c", "abd"), ("x+", "yy")] {
        let grouped = format!("({})", e);
        assert_eq!(
            do_matching(&grouped, text, true).unwrap(),
            do_matching(e, text, true).unwrap(),
            "pattern {} on {}",
            e,
            text
        );
    }
}

#[test]
fn loops_with_empty_bodies_terminate() {
    assert!(do_matching("(a*)*b", "aaac", true).unwrap().0 == false);
    assert!(do_matching("(a?)*b", "aab", true).unwrap().0);
    assert!(do_matching("(a|b*)+c", "abbc", true).unwrap().0);
}

#[test]
fn evaluator_reports_bad_programs() {
    let line: Vec<char> = "a".chars().collect();
    assert!(matches!(eval(&[], &line, true), Err(EvalError::InvalidPC)));
    assert!(matches!(
        eval(&[Instruction::Jump(7)], &line, true),
        Err(EvalError::InvalidPC)
    ));
    assert!(matches!(eval(&[Instruction::Char('a')], &line, true), Err(EvalError::InvalidPC)));
    assert!(matches!(eval(&[Instruction::Char('b')], &line, true), Ok(false)));
    assert!(matches!(
        eval(&[Instruction::Jump(7), Instruction::Match], &line, true),
        Err(EvalError::InvalidPC)
    ));
    assert!(matches!(eval_depth(&[Instruction::Match], &line, 3, 0), Err(EvalError::InvalidPC)));
}

#[test]
fn result_depends_on_the_unread_suffix_only() {
    let code = code_of("(ab|b)c");
    let line: Vec<char> = "xabcbc".chars().collect();
    for sp in 0..=line.len() {
        let whole = eval_depth(&code, &line, 0, sp);
        let rest = eval_depth(&code, &line[sp..], 0, 0);
        assert_eq!(format!("{:?}", whole), format!("{:?}", rest), "offset {}", sp);
    }
}

#[test]
fn split_tries_its_first_address_first() {
    let empty: Vec<char> = Vec::new();
    assert!(matches!(
        eval(&[Instruction::Split(5, 1), Instruction::Match], &empty, true),
        Err(EvalError::InvalidPC)
    ));
    assert!(matches!(
        eval(&[Instruction::Split(1, 5), Instruction::Match], &empty, true),
        Ok(true)
    ));
}

#[test]
fn evaluator_runs_from_a_start() {
    let code = code_of("bc");
    let line: Vec<char> = "abc".chars().collect();
    assert!(matches!(eval_depth(&code, &line, 0, 0), Ok(false)));
    assert!(matches!(eval_depth(&code, &line, 0, 1), Ok(true)));
    assert!(matches!(eval_depth(&code, &line, 0, 3), Ok(false)));
    assert!(matches!(eval(&code_of("a|bc"), &line, false), Ok(true)));
}

#[test]
fn dot_needs_a_character() {
    assert!(!do_matching("a.", "a", true).unwrap().0);
    assert!(do_matching("a.", "ab", true).unwrap().0);
}

#[test]
fn multi_byte_characters_match_by_character() {
    assert_eq!(do_matching("い.", "あいう", true).unwrap(), (true, Some("いう".to_string())));
    assert!(do_matching("..", "日本", true).unwrap().0);
    assert!(!do_matching("...", "日本", true).unwrap().0);
}
