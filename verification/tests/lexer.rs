use buyan::common::{SourceId, Span};
use buyan::error::CompileError;
use buyan::stages::parse::lexer::{LexInput, TokenKind, lex};

fn lex_text(text: &str) -> Result<Vec<TokenKind>, Vec<CompileError>> {
    lex(&LexInput { content: text.to_string(), source_id: SourceId(0) })
        .map(|r| r.tokens.into_iter().map(|(kind, _)| kind).collect())
}

#[test]
fn test_lexer_all_tokens() {
    let tokens = lex_text(
        r#"import module def end ident 42u8 0x2Au8 "hello" # + ; ( ) -- . , [ ] < > { } ... : |"#,
    )
    .expect("lexing failed");
    assert_eq!(
        tokens,
        vec![
            TokenKind::KeywordImport,
            TokenKind::KeywordModule,
            TokenKind::KeywordDef,
            TokenKind::KeywordEnd,
            TokenKind::Ident("ident".to_string()),
            TokenKind::LiteralU8(42),
            TokenKind::LiteralU8(42),
            TokenKind::LiteralString("hello".to_string()),
            TokenKind::Hash,
            TokenKind::Plus,
            TokenKind::Semicolon,
            TokenKind::LeftParenthesis,
            TokenKind::RightParenthesis,
            TokenKind::MinusMinus,
            TokenKind::Dot,
            TokenKind::Comma,
            TokenKind::LeftSquareBracket,
            TokenKind::RightSquareBracket,
            TokenKind::LessThan,
            TokenKind::GreaterThan,
            TokenKind::LeftBrace,
            TokenKind::RightBrace,
            TokenKind::Ellipsis,
            TokenKind::Colon,
            TokenKind::Pipe,
        ]
    );
}

#[test]
fn test_unknown_token() {
    let errors = lex_text("!").expect_err("lexing succeeded");
    assert_eq!(
        errors,
        vec![CompileError::UnexpectedToken { span: Span { source_id: SourceId(0), start: 0, end: 1 } }]
    );
}

#[test]
fn lexer_numbers_and_keywords() {
    let tokens = lex_text("2u16 65535u16 true false struct x.0 = 7").expect("lexing failed");
    assert_eq!(
        tokens,
        vec![
            TokenKind::LiteralU16(2),
            TokenKind::LiteralU16(65535),
            TokenKind::LiteralBool(true),
            TokenKind::LiteralBool(false),
            TokenKind::KeywordStruct,
            TokenKind::Ident("x".to_string()),
            TokenKind::Dot,
            TokenKind::LiteralNumber(0),
            TokenKind::Equal,
            TokenKind::LiteralNumber(7),
        ]
    );
}

#[test]
fn lexer_spans_and_comments() {
    let result = lex(&LexInput { content: "a // note\n  bc".to_string(), source_id: SourceId(3) })
        .expect("lexing failed");
    let spans: Vec<Span> = result.tokens.iter().map(|(_, span)| *span).collect();
    assert_eq!(
        spans,
        vec![
            Span { source_id: SourceId(3), start: 0, end: 1 },
            Span { source_id: SourceId(3), start: 12, end: 14 },
        ]
    );
}

#[test]
fn lexer_overflowing_literal() {
    let errors = lex_text("256u8").expect_err("lexing succeeded");
    assert_eq!(errors.len(), 1);
    assert!(matches!(errors[0], CompileError::UnexpectedToken { .. }));
}

#[test]
fn lexer_string_escape() {
    let tokens = lex_text(r#""a\"b""#).expect("lexing failed");
    assert_eq!(tokens, vec![TokenKind::LiteralString("a\"b".to_string())]);
}

#[test]
fn lexer_takes_longest_lexemes() {
    let tokens = lex_text("12abc 0x1F .... --").expect("lexing failed");
    assert_eq!(
        tokens,
        vec![
            TokenKind::LiteralNumber(12),
            TokenKind::Ident("abc".to_string()),
            TokenKind::LiteralNumber(0),
            TokenKind::Ident("x1F".to_string()),
            TokenKind::Ellipsis,
            TokenKind::Dot,
            TokenKind::MinusMinus,
        ]
    );
}

#[test]
fn lexer_reports_every_bad_lexeme_in_order() {
    let errors = lex_text("a ! b - 300u8 c").expect_err("lexing succeeded");
    assert_eq!(
        errors,
        vec![
            CompileError::UnexpectedToken { span: Span { source_id: SourceId(0), start: 2, end: 3 } },
            CompileError::UnexpectedToken { span: Span { source_id: SourceId(0), start: 6, end: 7 } },
            CompileError::UnexpectedToken { span: Span { source_id: SourceId(0), start: 8, end: 13 } },
        ]
    );
}

#[test]
fn lexer_unterminated_string() {
    let errors = lex_text("\"abc").expect_err("lexing succeeded");
    assert_eq!(
        errors,
        vec![CompileError::UnexpectedToken { span: Span { source_id: SourceId(0), start: 0, end: 1 } }]
    );
}
