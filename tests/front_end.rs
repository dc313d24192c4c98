use kotoba::fizzbuzz::div;
use kotoba::lexer::{Lexer, TokenKind};
use kotoba::source_stream::{Position, SourceStream};

#[test]
fn stream_reads_bytes_and_positions() {
    let mut s = SourceStream::new("ab\nc");
    assert_eq!(s.peek(), Some(b'a'));
    assert_eq!(s.peek_second(), Some(b'b'));
    assert_eq!(s.current_position(), Position { line: 1, character: 1 });
    assert_eq!(s.next(), Some(b'a'));
    assert_eq!(s.current_position(), Position { line: 1, character: 2 });
    assert!(!s.expect(b'x'));
    assert!(s.expect(b'b'));
    assert_eq!(s.next(), Some(b'\n'));
    assert_eq!(s.current_position(), Position { line: 2, character: 1 });
    assert_eq!(s.next(), Some(b'c'));
    assert_eq!(s.next(), None);
    assert_eq!(s.peek(), None);
    assert_eq!(s.current_position(), Position { line: 2, character: 2 });
}

#[test]
fn stream_take_while_stops_at_first_failure() {
    let mut s = SourceStream::new("123abc");
    let digits = s.take_while(|c: &u8| c.is_ascii_digit());
    assert_eq!(digits, b"123".to_vec());
    assert_eq!(s.peek(), Some(b'a'));
    let none = s.take_while(|c: &u8| c.is_ascii_digit());
    assert!(none.is_empty());
    assert_eq!(s.current_position(), Position { line: 1, character: 4 });
}

#[test]
fn lexer_classifies_tokens() {
    let mut lx = Lexer::new("if x1 >= 2.5 : \"s\" else nil ; == != ! < <= > = + - * / % ( ) , and or while fn ret nonlocal true false");
    let kinds: Vec<TokenKind> = lx.tokenize().into_iter().map(|t| t.kind).collect();
    assert_eq!(
        kinds,
        vec![
            TokenKind::If,
            TokenKind::Identifier,
            TokenKind::GreaterEqual,
            TokenKind::Number,
            TokenKind::Colon,
            TokenKind::StringLiteral,
            TokenKind::Else,
            TokenKind::Nil,
            TokenKind::Semicolon,
            TokenKind::EqualEqual,
            TokenKind::BangEqual,
            TokenKind::Bang,
            TokenKind::Less,
            TokenKind::LessEqual,
            TokenKind::Greater,
            TokenKind::Equal,
            TokenKind::Plus,
            TokenKind::Minus,
            TokenKind::Star,
            TokenKind::Slash,
            TokenKind::Percent,
            TokenKind::OpenParen,
            TokenKind::CloseParen,
            TokenKind::Comma,
            TokenKind::And,
            TokenKind::Or,
            TokenKind::While,
            TokenKind::Fn,
            TokenKind::Ret,
            TokenKind::Nonlocal,
            TokenKind::Boolean(true),
            TokenKind::Boolean(false),
        ]
    );
}

#[test]
fn lexer_keeps_text_and_positions() {
    let mut lx = Lexer::new("abc 12.5\n \"hi there\"");
    let t = lx.next().unwrap();
    assert_eq!(t.kind, TokenKind::Identifier);
    assert_eq!(t.text, b"abc".to_vec());
    assert_eq!(t.position, Position { line: 1, character: 1 });
    let t = lx.next().unwrap();
    assert_eq!(t.kind, TokenKind::Number);
    assert_eq!(t.text, b"12.5".to_vec());
    assert_eq!(t.position, Position { line: 1, character: 5 });
    let t = lx.next().unwrap();
    assert_eq!(t.kind, TokenKind::StringLiteral);
    assert_eq!(t.text, b"hi there".to_vec());
    assert_eq!(t.position, Position { line: 2, character: 2 });
    assert!(lx.next().is_none());
}

#[test]
fn lexer_number_takes_dot_only_before_digit() {
    let mut lx = Lexer::new("3.x");
    let t = lx.next().unwrap();
    assert_eq!(t.kind, TokenKind::Number);
    assert_eq!(t.text, b"3".to_vec());
    assert_eq!(lx.next().unwrap().kind, TokenKind::Identifier);
    assert_eq!(lx.skipped(), &vec![Position { line: 1, character: 2 }]);
}

#[test]
fn lexer_skips_unknown_bytes_and_reports_them() {
    let mut lx = Lexer::new("1 @ 2 #");
    let kinds: Vec<TokenKind> = lx.tokenize().into_iter().map(|t| t.kind).collect();
    assert_eq!(kinds, vec![TokenKind::Number, TokenKind::Number]);
    assert_eq!(
        lx.skipped(),
        &vec![Position { line: 1, character: 3 }, Position { line: 1, character: 7 }]
    );
}

#[test]
fn lexer_unterminated_string() {
    let mut lx = Lexer::new("\"abc");
    let t = lx.next().unwrap();
    assert_eq!(t.kind, TokenKind::UnterminatedString);
    assert_eq!(t.text, b"abc".to_vec());
}

#[test]
fn lexer_peek_and_expect() {
    let mut lx = Lexer::new("a + b");
    assert_eq!(lx.peek().unwrap().kind, TokenKind::Identifier);
    assert!(lx.expect(&TokenKind::Plus).is_none());
    assert_eq!(lx.expect_identifier(), Some(b"a".to_vec()));
    assert!(lx.expect_any(&[TokenKind::Minus, TokenKind::Star]).is_none());
    assert_eq!(lx.expect_any(&[TokenKind::Minus, TokenKind::Plus]).unwrap().kind, TokenKind::Plus);
    assert!(lx.expect_identifier().is_some());
    assert!(lx.peek().is_none());
}

#[test]
fn div_tests_divisibility() {
    assert!(div(3, 9));
    assert!(!div(3, 10));
    assert!(div(-3, 9));
    assert!(div(5, 0));
    assert!(div(-1, i32::MIN));
}
