use libsmac::nodizer::Nodizer;
use libsmac::token::{Token, TokenPosition, TokenType};
use libsmac::tokenizer::Tokenizer;

fn tok(kind: TokenType, text: &str) -> Token {
    Token::new(kind, TokenPosition::new(0, 0), text.to_string())
}

#[test]
fn tokenizer_reads_and_peeks() {
    let mut t = Tokenizer::new("abc");
    assert!(!t.end());
    assert_eq!(t.peek(), Some('a'));
    assert_eq!(t.peek_n(1), Some('b'));
    assert_eq!(t.read(), Some('a'));
    assert_eq!(t.index(), 1);
    t.advance(2);
    assert!(t.end());
    assert_eq!(t.peek(), None);
    assert_eq!(t.read(), None);
}

#[test]
fn tokenizer_snapshots_are_a_strict_stack() {
    let mut t = Tokenizer::new("abcd");
    t.take_snapshot();
    let _ = t.read();
    t.take_snapshot();
    let _ = t.read();
    assert_eq!(t.index(), 2);
    t.rollback_snapshot();
    assert_eq!(t.index(), 1);
    t.rollback_snapshot();
    assert_eq!(t.index(), 0);
}

#[test]
fn tokenizer_commit_keeps_the_position() {
    let mut t = Tokenizer::new("abcd");
    t.take_snapshot();
    let _ = t.read();
    let _ = t.read();
    t.commit_snapshot();
    assert_eq!(t.index(), 2);
    // a commit with no snapshot left is a quiet no-op
    t.commit_snapshot();
    assert_eq!(t.index(), 2);
}

#[test]
fn token_accessors_and_controlled_edits() {
    let mut t = Token::new(TokenType::Identifier, TokenPosition::new(3, 7), "abcd".to_string());
    assert_eq!(*t.token_type(), TokenType::Identifier);
    assert_eq!(t.position().start, 3);
    assert_eq!(t.position().end, 7);
    assert_eq!(t.content().as_str(), "abcd");
    *t.token_type_mut() = TokenType::Keyword;
    assert_eq!(*t.token_type(), TokenType::Keyword);
    *t.position_mut() = TokenPosition::new(0, 4);
    assert_eq!(t.position().start, 0);
    t.content_mut().push('e');
    assert_eq!(t.content().as_str(), "abcde");
}

#[test]
fn tokens_compare_by_kind_alone() {
    let a = tok(TokenType::IntLiteral, "1");
    let b = tok(TokenType::IntLiteral, "2");
    let c = tok(TokenType::Identifier, "1");
    assert!(a == b);
    assert!(a != c);
}

#[test]
fn nodizer_reads_and_peeks() {
    let items = vec![
        tok(TokenType::Identifier, "x"),
        tok(TokenType::Operator, "="),
        tok(TokenType::IntLiteral, "1"),
    ];
    let mut n = Nodizer::new(items);
    assert!(!n.end());
    assert!(!n.end_n(2));
    assert!(n.end_n(3));
    assert_eq!(n.peek().unwrap().content().as_str(), "x");
    assert_eq!(n.peek_n(2).unwrap().content().as_str(), "1");
    assert_eq!(n.read().unwrap().content().as_str(), "x");
    assert_eq!(n.index(), 1);
}

#[test]
fn nodizer_snapshots_restore_the_cursor() {
    let items = vec![
        tok(TokenType::Identifier, "x"),
        tok(TokenType::Operator, "="),
        tok(TokenType::IntLiteral, "1"),
    ];
    let mut n = Nodizer::new(items);
    n.take_snapshot();
    let _ = n.read();
    let _ = n.read();
    assert_eq!(n.peek_snapshot().unwrap().index(), 0);
    n.rollback_snapshot();
    assert_eq!(n.index(), 0);
    n.take_snapshot();
    let _ = n.read();
    n.commit_snapshot();
    assert_eq!(n.index(), 1);
    n.advance(2);
    assert!(n.end());
}
