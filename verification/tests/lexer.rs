use sexpr_front::lexer::{LexError, Lexer};
use sexpr_front::token::TokenKind;

#[test]
fn test_whitespace() {
    let mut lexer = Lexer::new("\n\t".to_string());
    let tokens = lexer.tokenize().unwrap();

    assert!(tokens.is_empty());
}

#[test]
fn test_parens() {
    let mut lexer = Lexer::new("()".to_string());
    let tokens = lexer.tokenize().unwrap();

    assert_eq!(tokens.len(), 2);
    assert_eq!(tokens[0].kind, TokenKind::Paren);
    assert_eq!(tokens[0].value, "(");
    assert_eq!(tokens[1].kind, TokenKind::Paren);
    assert_eq!(tokens[1].value, ")");
}

#[test]
fn test_numbers() {
    let mut lexer = Lexer::new("1 2".to_string());
    let tokens = lexer.tokenize().unwrap();

    assert_eq!(tokens.len(), 2);
    assert_eq!(tokens[0].kind, TokenKind::Number);
    assert_eq!(tokens[0].value, "1".to_string());
    assert_eq!(tokens[1].kind, TokenKind::Number);
    assert_eq!(tokens[1].value, "2".to_string());
}

#[test]
fn test_names() {
    let mut lexer = Lexer::new("add".to_string());
    let tokens = lexer.tokenize().unwrap();

    assert_eq!(tokens.len(), 1);
    assert_eq!(tokens[0].kind, TokenKind::Name);
    assert_eq!(tokens[0].value, "add");
}

#[test]
fn test_strings() {
    let mut lexer = Lexer::new("\"hello\"".to_string());
    let tokens = lexer.tokenize().unwrap();

    assert_eq!(tokens.len(), 1);
    assert_eq!(tokens[0].kind, TokenKind::Str);
    assert_eq!(tokens[0].value, "hello".to_string());
}

#[test]
fn test_multiple_tokens() {
    let mut lexer = Lexer::new("(add 1 2)".to_string());
    let tokens = lexer.tokenize().unwrap();

    assert_eq!(tokens.len(), 5);
    assert_eq!(tokens[0].kind, TokenKind::Paren);
    assert_eq!(tokens[0].value, "(".to_string());
    assert_eq!(tokens[1].kind, TokenKind::Name);
    assert_eq!(tokens[1].value, "add".to_string());
    assert_eq!(tokens[2].kind, TokenKind::Number);
    assert_eq!(tokens[2].value, "1".to_string());
    assert_eq!(tokens[3].kind, TokenKind::Number);
    assert_eq!(tokens[3].value, "2".to_string());
    assert_eq!(tokens[4].kind, TokenKind::Paren);
    assert_eq!(tokens[4].value, ")".to_string());
}

#[test]
fn test_invalid_char() {
    let mut lexer = Lexer::new("@".to_string());
    let result = lexer.tokenize();

    assert_eq!(
        result,
        Err(LexError::UnexpectedCharacter { c: '@', position: 0 })
    );
}

#[test]
fn test_invalid_char_after_tokens() {
    let mut lexer = Lexer::new("add @".to_string());
    let result = lexer.tokenize();

    assert_eq!(
        result,
        Err(LexError::UnexpectedCharacter { c: '@', position: 4 })
    );
}

#[test]
fn test_maximal_munch_digit_then_name() {
    let mut lexer = Lexer::new("1a".to_string());
    let tokens = lexer.tokenize().unwrap();

    assert_eq!(tokens.len(), 2);
    assert_eq!(tokens[0].kind, TokenKind::Number);
    assert_eq!(tokens[0].value, "1");
    assert_eq!(tokens[1].kind, TokenKind::Name);
    assert_eq!(tokens[1].value, "a");
}

#[test]
fn test_multi_digit_number() {
    let mut lexer = Lexer::new("1234".to_string());
    let tokens = lexer.tokenize().unwrap();

    assert_eq!(tokens.len(), 1);
    assert_eq!(tokens[0].kind, TokenKind::Number);
    assert_eq!(tokens[0].value, "1234");
}

#[test]
fn test_empty_input() {
    let mut lexer = Lexer::new("".to_string());
    let tokens = lexer.tokenize().unwrap();

    assert!(tokens.is_empty());
}

#[test]
fn test_spaces_only() {
    let mut lexer = Lexer::new("   \t \n  ".to_string());
    let tokens = lexer.tokenize().unwrap();

    assert!(tokens.is_empty());
}

#[test]
fn test_empty_string_literal() {
    let mut lexer = Lexer::new("\"\"".to_string());
    let tokens = lexer.tokenize().unwrap();

    assert_eq!(tokens.len(), 1);
    assert_eq!(tokens[0].kind, TokenKind::Str);
    assert_eq!(tokens[0].value, "");
}

#[test]
fn test_unterminated_string() {
    let mut lexer = Lexer::new("\"abc".to_string());
    let result = lexer.tokenize();

    assert_eq!(result, Err(LexError::UnterminatedString { position: 0 }));
}

#[test]
fn test_string_keeps_other_characters_verbatim() {
    let mut lexer = Lexer::new("\"a(b) 1@\"".to_string());
    let tokens = lexer.tokenize().unwrap();

    assert_eq!(tokens.len(), 1);
    assert_eq!(tokens[0].kind, TokenKind::Str);
    assert_eq!(tokens[0].value, "a(b) 1@");
}

#[test]
fn test_rescan_is_identical() {
    let mut first = Lexer::new("(add 1 2)".to_string());
    let mut second = Lexer::new("(add 1 2)".to_string());

    assert_eq!(first.tokenize().unwrap(), second.tokenize().unwrap());
}
