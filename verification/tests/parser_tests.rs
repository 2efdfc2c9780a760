use abe::parser::{AccessTreeParser, AstNode};

#[test]
fn test_parser() {
    let input = "a&b|c";
    let mut parser = AccessTreeParser::new(input);
    let result = parser.generate_ast().unwrap();

    assert_eq!(
        result,
        AstNode::BinaryOp(
            '|',
            Box::new(AstNode::BinaryOp(
                '&',
                Box::new(AstNode::Variable("a".to_string())),
                Box::new(AstNode::Variable("b".to_string())),
            )),
            Box::new(AstNode::Variable("c".to_string())),
        )
    );
}

#[test]
fn test_parser2() {
    let input = "a&(b|c)";
    let mut parser = AccessTreeParser::new(input);
    let result = parser.generate_ast().unwrap();

    assert_eq!(
        result,
        AstNode::BinaryOp(
            '&',
            Box::new(AstNode::Variable("a".to_string())),
            Box::new(AstNode::BinaryOp(
                '|',
                Box::new(AstNode::Variable("b".to_string())),
                Box::new(AstNode::Variable("c".to_string())),
            ),),
        )
    );
}

#[test]
fn test_parser_or() {
    let input = "a|b";
    let mut parser = AccessTreeParser::new(input);
    let result = parser.generate_ast().unwrap();

    assert_eq!(
        result,
        AstNode::BinaryOp(
            '|',
            Box::new(AstNode::Variable("a".to_string())),
            Box::new(AstNode::Variable("b".to_string())),
        )
    );
}

#[test]
fn test_parser_and() {
    let input = "a&b";
    let mut parser = AccessTreeParser::new(input);
    let result = parser.generate_ast().unwrap();

    assert_eq!(
        result,
        AstNode::BinaryOp(
            '&',
            Box::new(AstNode::Variable("a".to_string())),
            Box::new(AstNode::Variable("b".to_string())),
        )
    );
}

#[test]
fn test_parser_paren() {
    let input = "(a)";
    let mut parser = AccessTreeParser::new(input);
    let result = parser.generate_ast().unwrap();

    assert_eq!(result, AstNode::Variable("a".to_string()));
}

#[test]
fn test_parser_paren_and() {
    let input = "(a&b)";
    let mut parser = AccessTreeParser::new(input);
    let result = parser.generate_ast().unwrap();

    assert_eq!(
        result,
        AstNode::BinaryOp(
            '&',
            Box::new(AstNode::Variable("a".to_string())),
            Box::new(AstNode::Variable("b".to_string())),
        )
    );
}

#[test]
fn test_parser_paren_or() {
    let input = "(a|b)";
    let mut parser = AccessTreeParser::new(input);
    let result = parser.generate_ast().unwrap();

    assert_eq!(
        result,
        AstNode::BinaryOp(
            '|',
            Box::new(AstNode::Variable("a".to_string())),
            Box::new(AstNode::Variable("b".to_string())),
        )
    );
}

#[test]
fn test_parser_complex2() {
    let input = "(A|D)&(B|E)&C&A";
    let mut parser = AccessTreeParser::new(input);
    let result = parser.generate_ast().unwrap();

    assert_eq!(
        result,
        AstNode::BinaryOp(
            '&',
            Box::new(AstNode::BinaryOp(
                '&',
                Box::new(AstNode::BinaryOp(
                    '&',
                    Box::new(AstNode::BinaryOp(
                        '|',
                        Box::new(AstNode::Variable("A".to_string())),
                        Box::new(AstNode::Variable("D".to_string())),
                    )),
                    Box::new(AstNode::BinaryOp(
                        '|',
                        Box::new(AstNode::Variable("B".to_string())),
                        Box::new(AstNode::Variable("E".to_string())),
                    )),
                )),
                Box::new(AstNode::Variable("C".to_string())),
            )),
            Box::new(AstNode::Variable("A".to_string()))
        )
    );
}

#[test]
fn test_parser_multichar_name() {
    let mut parser = AccessTreeParser::new("doctor&nurse");
    let result = parser.generate_ast().unwrap();

    assert_eq!(
        result,
        AstNode::BinaryOp(
            '&',
            Box::new(AstNode::Variable("doctor".to_string())),
            Box::new(AstNode::Variable("nurse".to_string())),
        )
    );
}

#[test]
fn test_parser_trailing_operator_fails() {
    let mut parser = AccessTreeParser::new("a&");
    assert!(parser.generate_ast().is_err());
}

#[test]
fn test_parser_leading_operator_fails() {
    let mut parser = AccessTreeParser::new("|a");
    assert!(parser.generate_ast().is_err());
}

#[test]
fn test_parser_unclosed_paren_fails() {
    let mut parser = AccessTreeParser::new("(a&b");
    let err = parser.generate_ast().unwrap_err();
    assert_eq!(err.message, "Expected closing parenthesis".to_string());
    assert_eq!(err.position, 4);
}

#[test]
fn test_parser_trailing_tokens_fail() {
    let mut parser = AccessTreeParser::new("(a)b");
    assert!(parser.generate_ast().is_err());
}

#[test]
fn test_parser_empty_input_fails() {
    let mut parser = AccessTreeParser::new("");
    assert!(parser.generate_ast().is_err());
}

#[test]
fn test_parser_deterministic_runs() {
    let mut parser1 = AccessTreeParser::new("(A|D)&(B|E)&C&A");
    let mut parser2 = AccessTreeParser::new("(A|D)&(B|E)&C&A");
    let first = parser1.parse().unwrap();
    let second = parser2.parse().unwrap();
    assert_eq!(first, second);
}

#[test]
fn test_parser_error_messages_and_positions() {
    let mut doubled = AccessTreeParser::new("a&&b");
    let invalid = doubled.generate_ast().unwrap_err();
    assert_eq!(invalid.message, "Invalid token".to_string());
    assert_eq!(invalid.position, 2);

    let mut cut_short = AccessTreeParser::new("a&");
    let eof = cut_short.generate_ast().unwrap_err();
    assert_eq!(eof.message, "Expected variable but got None".to_string());
    assert_eq!(eof.position, 2);

    let mut trailing = AccessTreeParser::new("(a)b");
    let extra = trailing.generate_ast().unwrap_err();
    assert_eq!(
        extra.message,
        "Unexpected tokens after parsing was complete".to_string()
    );
    assert_eq!(extra.position, 3);
}
