use regex::engine::parser::{AST, ParseError, parse};

#[test]
fn quantifier_or_bar_without_operand_is_no_prev() {
    assert_eq!(parse("+b"), Err(ParseError::NoPrev(0)));
    assert_eq!(parse("*b"), Err(ParseError::NoPrev(0)));
    assert_eq!(parse("?b"), Err(ParseError::NoPrev(0)));
    assert_eq!(parse("|b"), Err(ParseError::NoPrev(0)));
    assert_eq!(parse("a|+b"), Err(ParseError::NoPrev(2)));
    assert_eq!(parse("(|a)"), Err(ParseError::NoPrev(1)));
}

#[test]
fn stacked_quantifiers_parse() {
    assert_eq!(
        parse("a**"),
        Ok(AST::Concat(vec![AST::Star(Box::new(AST::Star(Box::new(
            AST::Char('a'),
        ))))]))
    );
}

#[test]
fn unbalanced_parentheses() {
    assert_eq!(parse("(abc"), Err(ParseError::NoRightParen));
    assert_eq!(parse("abc)"), Err(ParseError::InvalidRightParen(3)));
    assert_eq!(parse(")"), Err(ParseError::InvalidRightParen(0)));
}

#[test]
fn empty_expressions() {
    assert_eq!(parse(""), Err(ParseError::Empty));
    assert_eq!(parse("()"), Err(ParseError::Empty));
}

#[test]
fn invalid_escape_names_position_and_character() {
    assert_eq!(parse("\\x"), Err(ParseError::InvalidEscape(1, 'x')));
    assert_eq!(parse("ab\\c"), Err(ParseError::InvalidEscape(3, 'c')));
}

#[test]
fn literal_run_parses_to_a_concatenation() {
    assert_eq!(
        parse("abc"),
        Ok(AST::Concat(vec![
            AST::Char('a'),
            AST::Char('b'),
            AST::Char('c'),
        ]))
    );
}

#[test]
fn alternation_folds_right_nested() {
    assert_eq!(
        parse("a|b|c"),
        Ok(AST::Or(
            Box::new(AST::Concat(vec![AST::Char('a')])),
            Box::new(AST::Or(
                Box::new(AST::Concat(vec![AST::Char('b')])),
                Box::new(AST::Concat(vec![AST::Char('c')])),
            )),
        ))
    );
}

#[test]
fn quantifier_wraps_the_most_recent_item() {
    assert_eq!(
        parse("ab+"),
        Ok(AST::Concat(vec![
            AST::Char('a'),
            AST::Plus(Box::new(AST::Char('b'))),
        ]))
    );
    assert_eq!(
        parse("(ab)?"),
        Ok(AST::Concat(vec![AST::Question(Box::new(AST::Concat(vec![
            AST::Char('a'),
            AST::Char('b'),
        ])))]))
    );
}

#[test]
fn parsing_twice_yields_identical_trees() {
    let e = "a(bc|d*)+e?";
    let a1 = parse(e).unwrap();
    let a2 = parse(e).unwrap();
    assert_eq!(a1, a2);
}
