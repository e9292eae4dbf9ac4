use regex::do_matching;
use regex::engine::EngineError;
use regex::engine::evaluator::EvalError;
use regex::engine::parser::ParseError;

#[test]
fn test_matching() {
    // parse errors
    assert!(do_matching("+b", "bbb", true).is_err());
    assert!(do_matching("*b", "bbb", true).is_err());
    assert!(do_matching("|b", "bbb", true).is_err());
    assert!(do_matching("?b", "bbb", true).is_err());

    // successful matches
    assert!(do_matching("abc|def", "def", true).unwrap());
    assert!(do_matching("(abc)*", "abcabc", true).unwrap());
    assert!(do_matching("(ab|cd)+", "abcdcd", true).unwrap());
    assert!(do_matching("abc?", "ab", true).unwrap());

    // no match
    assert!(!do_matching("abc|def", "efa", true).unwrap());
    assert!(!do_matching("(ab|cd)+", "", true).unwrap());
    assert!(!do_matching("abc?", "acb", true).unwrap());
}

#[test]
fn prefix_anchored() {
    assert!(do_matching("abc", "abcdef", true).unwrap());
    assert!(!do_matching("abc", "xabc", true).unwrap());
}

#[test]
fn star_matches_empty_input() {
    assert!(do_matching("(abc)*", "", true).unwrap());
}

#[test]
fn nested_star_terminates() {
    // a search that loops without consuming is cut off, not run forever
    assert!(do_matching("(a*)*", "b", true).unwrap());
    assert!(do_matching("(a*)*", "aaab", true).unwrap());
    assert!(!do_matching("(a*)*c", "b", true).unwrap());
    assert!(do_matching("(a*)*c", "aac", true).unwrap());
    assert!(do_matching("a**", "b", true).unwrap());
}

#[test]
fn dot_caret_dollar_are_literals_in_the_syntax() {
    assert!(do_matching("a.", "a.", true).unwrap());
    assert!(!do_matching("a.", "ab", true).unwrap());
    assert!(do_matching("^a", "^ab", true).unwrap());
    assert!(!do_matching("^a", "a", true).unwrap());
    assert!(do_matching("a$", "a$b", true).unwrap());
    assert!(!do_matching("a$", "a", true).unwrap());
}

#[test]
fn escaped_metacharacters_match_themselves() {
    assert!(do_matching("a\\+", "a+", true).unwrap());
    assert!(!do_matching("a\\+", "aa", true).unwrap());
    assert!(do_matching("\\(a\\)", "(a)", true).unwrap());
    assert!(do_matching("a\\\\b", "a\\b", true).unwrap());
}

#[test]
fn pipeline_error_wrapping() {
    assert_eq!(
        do_matching("+a", "x", true),
        Err(EngineError::Parse(ParseError::NoPrev(0)))
    );
    assert_eq!(
        do_matching("a", "x", false),
        Err(EngineError::Eval(EvalError::NotSupport))
    );
}

#[test]
fn first_alternative_wins_but_both_are_tried() {
    assert!(do_matching("ab|a", "ab", true).unwrap());
    assert!(do_matching("ab|a", "ac", true).unwrap());
    assert!(!do_matching("ab|a", "b", true).unwrap());
}
