use sexpr_front::lexer::Lexer;
use sexpr_front::parser::{LiteralKind, Node, ParseError, Parser};
use sexpr_front::token::{Token, TokenKind};

fn tokens_of(source: &str) -> Vec<Token> {
    let mut lexer = Lexer::new(source.to_string());
    lexer.tokenize().unwrap()
}

#[test]
fn parse_numbers() {
    let mut lexer = Lexer::new("1 2".to_string());
    let tokens = lexer.tokenize().unwrap();

    let mut parser = Parser::new(tokens);
    let ast = parser.parse_program().unwrap();

    let expected = Node::Program {
        body: vec![
            Node::Literal {
                kind: LiteralKind::NumberLiteral,
                value: "1".to_string(),
            },
            Node::Literal {
                kind: LiteralKind::NumberLiteral,
                value: "2".to_string(),
            },
        ],
    };

    assert_eq!(ast, expected);
}

#[test]
fn parse_call_expression() {
    let mut parser = Parser::new(tokens_of("(add 1 2)"));
    let ast = parser.parse_program().unwrap();

    let expected = Node::Program {
        body: vec![Node::CallExpression {
            name: "add".to_string(),
            params: vec![
                Node::Literal {
                    kind: LiteralKind::NumberLiteral,
                    value: "1".to_string(),
                },
                Node::Literal {
                    kind: LiteralKind::NumberLiteral,
                    value: "2".to_string(),
                },
            ],
        }],
    };

    assert_eq!(ast, expected);
}

#[test]
fn parse_nested_call_expression() {
    let mut parser = Parser::new(tokens_of("(add (sub 3 1) 2)"));
    let ast = parser.parse_program().unwrap();

    let expected = Node::Program {
        body: vec![Node::CallExpression {
            name: "add".to_string(),
            params: vec![
                Node::CallExpression {
                    name: "sub".to_string(),
                    params: vec![
                        Node::Literal {
                            kind: LiteralKind::NumberLiteral,
                            value: "3".to_string(),
                        },
                        Node::Literal {
                            kind: LiteralKind::NumberLiteral,
                            value: "1".to_string(),
                        },
                    ],
                },
                Node::Literal {
                    kind: LiteralKind::NumberLiteral,
                    value: "2".to_string(),
                },
            ],
        }],
    };

    assert_eq!(ast, expected);
}

#[test]
fn parse_string_literal() {
    let mut parser = Parser::new(tokens_of("\"hello\""));
    let ast = parser.parse_program().unwrap();

    let expected = Node::Program {
        body: vec![Node::Literal {
            kind: LiteralKind::StringLiteral,
            value: "hello".to_string(),
        }],
    };

    assert_eq!(ast, expected);
}

#[test]
fn parse_empty_input() {
    let mut parser = Parser::new(Vec::new());
    let ast = parser.parse_program().unwrap();

    assert_eq!(ast, Node::Program { body: Vec::new() });
}

#[test]
fn parse_call_without_params() {
    let mut parser = Parser::new(tokens_of("(f)"));
    let ast = parser.parse_program().unwrap();

    let expected = Node::Program {
        body: vec![Node::CallExpression {
            name: "f".to_string(),
            params: Vec::new(),
        }],
    };

    assert_eq!(ast, expected);
}

#[test]
fn parse_preserves_top_level_order() {
    let mut parser = Parser::new(tokens_of("(a) (b) 3"));
    let ast = parser.parse_program().unwrap();

    let expected = Node::Program {
        body: vec![
            Node::CallExpression {
                name: "a".to_string(),
                params: Vec::new(),
            },
            Node::CallExpression {
                name: "b".to_string(),
                params: Vec::new(),
            },
            Node::Literal {
                kind: LiteralKind::NumberLiteral,
                value: "3".to_string(),
            },
        ],
    };

    assert_eq!(ast, expected);
}

#[test]
fn parse_name_position_is_permissive() {
    let mut parser = Parser::new(tokens_of("(1 2)"));
    let ast = parser.parse_program().unwrap();

    let expected = Node::Program {
        body: vec![Node::CallExpression {
            name: "1".to_string(),
            params: vec![Node::Literal {
                kind: LiteralKind::NumberLiteral,
                value: "2".to_string(),
            }],
        }],
    };

    assert_eq!(ast, expected);
}

#[test]
fn parse_unterminated_call_fails() {
    let mut parser = Parser::new(tokens_of("(add 1"));
    let result = parser.parse_program();

    assert_eq!(result, Err(ParseError::UnexpectedEndOfInput));
}

#[test]
fn parse_open_paren_at_end_fails() {
    let mut parser = Parser::new(tokens_of("("));
    let result = parser.parse_program();

    assert_eq!(result, Err(ParseError::UnexpectedEndOfInput));
}

#[test]
fn parse_stray_close_paren_fails() {
    let mut parser = Parser::new(tokens_of(")"));
    let result = parser.parse_program();

    assert_eq!(
        result,
        Err(ParseError::UnexpectedToken {
            token: Token {
                kind: TokenKind::Paren,
                value: ")".to_string(),
            },
        })
    );
}

#[test]
fn parse_expression_leaves_rest() {
    let mut parser = Parser::new(tokens_of("1 2"));
    let first = parser.parse_expression().unwrap();

    assert_eq!(
        first,
        Node::Literal {
            kind: LiteralKind::NumberLiteral,
            value: "1".to_string(),
        }
    );
}
