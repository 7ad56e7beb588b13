use idx_core::strand::{LexError, Lexer, QuoteKind, Span, Token, TokenKind};

fn lex(src: &str, kind: QuoteKind) -> (Token, Lexer) {
    let mut lexer = Lexer::new(src);
    lexer.pos = 1;
    let opening = Token { kind: TokenKind::Quote(kind), span: Span { offset: 0, len: 1 } };
    let t = lexer.relex_strand(opening);
    (t, lexer)
}

#[test]
fn plain_strand() {
    let (t, l) = lex("'hello' rest", QuoteKind::Plain);
    assert_eq!(t.kind, TokenKind::Strand);
    assert_eq!(t.span, Span { offset: 0, len: 7 });
    assert_eq!(l.string.as_deref(), Some("hello"));
    assert_eq!(l.pos, 7);
}

#[test]
fn escapes_are_resolved() {
    let (t, l) = lex("\"a\\\"b\\\\c\\/d\\n\\t\\r\\b\\f\"", QuoteKind::PlainDouble);
    assert_eq!(t.kind, TokenKind::Strand);
    assert_eq!(l.string.as_deref(), Some("a\"b\\c/d\n\t\r\u{8}\u{c}"));
}

#[test]
fn other_quote_kind_does_not_close() {
    let (t, l) = lex("'say \"hi\"'", QuoteKind::Plain);
    assert_eq!(t.kind, TokenKind::Strand);
    assert_eq!(l.string.as_deref(), Some("say \"hi\""));
}

#[test]
fn non_ascii_characters_are_kept() {
    let (t, l) = lex("'héllo ✓'", QuoteKind::Plain);
    assert_eq!(t.kind, TokenKind::Strand);
    assert_eq!(l.string.as_deref(), Some("héllo ✓"));
}

#[test]
fn escaped_quote_of_other_kind_is_invalid() {
    let (t, l) = lex("'a\\\"b'", QuoteKind::Plain);
    assert_eq!(t.kind, TokenKind::Invalid);
    assert_eq!(l.error, Some(LexError::InvalidEscape { found: '"', quote: '\'' }));
}

#[test]
fn null_byte_is_invalid() {
    let (t, l) = lex("'a\0b'", QuoteKind::Plain);
    assert_eq!(t.kind, TokenKind::Invalid);
    assert_eq!(l.error, Some(LexError::NullByte));
    assert_eq!(l.string, None);
}

#[test]
fn unterminated_strand_is_eof() {
    let (t, l) = lex("'abc", QuoteKind::Plain);
    assert_eq!(t.kind, TokenKind::Eof);
    assert_eq!(l.string, None);
    let (t, _) = lex("'abc\\", QuoteKind::Plain);
    assert_eq!(t.kind, TokenKind::Eof);
}
