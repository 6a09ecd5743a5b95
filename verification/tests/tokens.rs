use hm_infer::lexer::Span;
use hm_infer::lexer::TK;
use hm_infer::lexer::Token;
use hm_infer::parser::SyntaxError;

#[test]
fn token_text_extracts_span() {
    let token = Token {
        kind: TK::Ident,
        span: Span { start: 1, end: 4 },
    };
    assert_eq!(token.text("(foo)"), "foo");
}

#[test]
fn token_text_whole_input() {
    let token = Token {
        kind: TK::Fun,
        span: Span { start: 0, end: 3 },
    };
    assert_eq!(token.text("fun"), "fun");
}

#[test]
fn token_text_empty_span() {
    let token = Token {
        kind: TK::Eof,
        span: Span { start: 3, end: 3 },
    };
    assert_eq!(token.text("fun"), "");
}

#[test]
fn token_equality_is_structural() {
    let a = Token {
        kind: TK::LParen,
        span: Span { start: 0, end: 1 },
    };
    let b = Token {
        kind: TK::LParen,
        span: Span { start: 0, end: 1 },
    };
    let c = Token {
        kind: TK::RParen,
        span: Span { start: 0, end: 1 },
    };
    assert_eq!(a, b);
    assert_ne!(a, c);
    assert_ne!(TK::Ident, TK::Error);
    assert_eq!(Span { start: 2, end: 5 }, Span { start: 2, end: 5 });
}

#[test]
fn syntax_error_values() {
    let eof = SyntaxError::UnexpectedEof;
    let got = SyntaxError::ExpectedGot("expression".to_string(), TK::RParen);
    assert_eq!(eof, SyntaxError::UnexpectedEof);
    assert_eq!(
        got,
        SyntaxError::ExpectedGot("expression".to_string(), TK::RParen)
    );
    assert_ne!(
        got,
        SyntaxError::ExpectedGot("expression".to_string(), TK::LParen)
    );
}
