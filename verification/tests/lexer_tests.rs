use libsmac::error::LexErrorKind;
use libsmac::lexer::grab_smaragdine_lexer;
use libsmac::matcher::ConstantMatcher;
use libsmac::token::{Token, TokenType};

fn lex_all(src: &str) -> Vec<Token> {
    let mut lexer = grab_smaragdine_lexer(src);
    let mut out = Vec::new();
    loop {
        match lexer.next() {
            Ok(Some(t)) => out.push(t),
            Ok(None) => return out,
            Err(_) => panic!("unexpected lexing failure"),
        }
    }
}

fn lex_err(src: &str) -> LexErrorKind {
    let mut lexer = grab_smaragdine_lexer(src);
    loop {
        match lexer.next() {
            Ok(Some(_)) => continue,
            Ok(None) => panic!("expected a lexing failure"),
            Err(e) => return e.kind,
        }
    }
}

fn assert_tokens(tokens: &[Token], expected: &[(TokenType, &str)]) {
    assert_eq!(tokens.len(), expected.len());
    for (t, (kind, text)) in tokens.iter().zip(expected.iter()) {
        assert_eq!(*t.token_type(), *kind);
        assert_eq!(t.content().as_str(), *text);
    }
}

#[test]
fn lex_integer_decimal() {
    let tokens = lex_all("0\n12\n1234\n8765\n192843718371235601\n");
    assert_tokens(
        &tokens,
        &[
            (TokenType::IntLiteral, "0"),
            (TokenType::IntLiteral, "12"),
            (TokenType::IntLiteral, "1234"),
            (TokenType::IntLiteral, "8765"),
            (TokenType::IntLiteral, "192843718371235601"),
        ],
    );
}

#[test]
fn lex_integer_hexadecimal() {
    let tokens = lex_all("0x0\n0xFF\n0x1234\n0x00000A\n0xA00000\n0xABCDEF\n0xFFFFFF\n");
    assert_tokens(
        &tokens,
        &[
            (TokenType::IntLiteral, "0"),
            (TokenType::IntLiteral, "255"),
            (TokenType::IntLiteral, "4660"),
            (TokenType::IntLiteral, "10"),
            (TokenType::IntLiteral, "10485760"),
            (TokenType::IntLiteral, "11259375"),
            (TokenType::IntLiteral, "16777215"),
        ],
    );
}

#[test]
fn lex_integer_binary() {
    let tokens = lex_all("0b0\n0b0000\n0b1010\n0b0101\n0b1111\n0b10101010\n");
    assert_tokens(
        &tokens,
        &[
            (TokenType::IntLiteral, "0"),
            (TokenType::IntLiteral, "0"),
            (TokenType::IntLiteral, "10"),
            (TokenType::IntLiteral, "5"),
            (TokenType::IntLiteral, "15"),
            (TokenType::IntLiteral, "170"),
        ],
    );
}

#[test]
fn lex_float() {
    let tokens = lex_all("0.0\n0.\n.0\n.86\n1.0\n3.141592653\n");
    assert_tokens(
        &tokens,
        &[
            (TokenType::FloatLiteral, "0.0"),
            (TokenType::FloatLiteral, "0.0"),
            (TokenType::FloatLiteral, "0.0"),
            (TokenType::FloatLiteral, "0.86"),
            (TokenType::FloatLiteral, "1.0"),
            (TokenType::FloatLiteral, "3.141592653"),
        ],
    );
}

#[test]
fn int_literal_canonical_text() {
    assert_tokens(&lex_all("0xFF"), &[(TokenType::IntLiteral, "255")]);
    assert_tokens(&lex_all("0b1010"), &[(TokenType::IntLiteral, "10")]);
    assert_tokens(&lex_all("-1234"), &[(TokenType::IntLiteral, "-1234")]);
}

#[test]
fn lex_single_hex_literal() {
    assert_tokens(&lex_all("0x1234"), &[(TokenType::IntLiteral, "4660")]);
}

#[test]
fn escaped_string_decodes_newline() {
    let tokens = lex_all("\"a\\nb\"");
    assert_eq!(tokens.len(), 1);
    assert_eq!(*tokens[0].token_type(), TokenType::StringLiteral);
    assert_eq!(tokens[0].content().as_str(), "a\nb");
}

#[test]
fn raw_string_keeps_backslash() {
    let tokens = lex_all("r\"a\\nb\"");
    assert_eq!(tokens.len(), 1);
    assert_eq!(*tokens[0].token_type(), TokenType::StringLiteral);
    assert_eq!(tokens[0].content().as_str(), "a\\nb");
}

#[test]
fn char_literals() {
    assert_tokens(&lex_all("'9'"), &[(TokenType::CharLiteral, "9")]);
    assert_tokens(&lex_all("'\\n'"), &[(TokenType::CharLiteral, "\n")]);
}

#[test]
fn identifier_acceptance() {
    assert_tokens(&lex_all("b?"), &[(TokenType::Identifier, "b?")]);
    assert_tokens(&lex_all("b!"), &[(TokenType::Identifier, "b!")]);
    assert_tokens(&lex_all("test?"), &[(TokenType::Identifier, "test?")]);
    assert_tokens(&lex_all("test!"), &[(TokenType::Identifier, "test!")]);
    assert_tokens(&lex_all("test!?"), &[(TokenType::Identifier, "test!?")]);
    assert_tokens(&lex_all("_test!"), &[(TokenType::Identifier, "_test!")]);
}

#[test]
fn digit_start_is_never_an_identifier() {
    let tokens = lex_all("9abc");
    assert_eq!(*tokens[0].token_type(), TokenType::IntLiteral);
    assert_eq!(tokens[0].content().as_str(), "9");
    assert_eq!(*tokens[1].token_type(), TokenType::Identifier);
    assert_eq!(tokens[1].content().as_str(), "abc");
}

#[test]
fn empty_and_whitespace_input_reach_end_immediately() {
    assert_eq!(lex_all("").len(), 0);
    assert_eq!(lex_all("   \t \n \r\n  ").len(), 0);
}

#[test]
fn lex_assignment_statement() {
    let tokens = lex_all("let x = 12");
    assert_tokens(
        &tokens,
        &[
            (TokenType::Identifier, "let"),
            (TokenType::Identifier, "x"),
            (TokenType::Operator, "="),
            (TokenType::IntLiteral, "12"),
        ],
    );
}

#[test]
fn operators_prefer_their_longer_forms() {
    let tokens = lex_all("a<=b == c<d >> e");
    assert_tokens(
        &tokens,
        &[
            (TokenType::Identifier, "a"),
            (TokenType::Operator, "<="),
            (TokenType::Identifier, "b"),
            (TokenType::Operator, "=="),
            (TokenType::Identifier, "c"),
            (TokenType::Operator, "<"),
            (TokenType::Identifier, "d"),
            (TokenType::Operator, ">>"),
            (TokenType::Identifier, "e"),
        ],
    );
}

#[test]
fn symbols_lex_as_symbols() {
    let tokens = lex_all("(1 + 2)");
    assert_tokens(
        &tokens,
        &[
            (TokenType::Symbol, "("),
            (TokenType::IntLiteral, "1"),
            (TokenType::Operator, "+"),
            (TokenType::IntLiteral, "2"),
            (TokenType::Symbol, ")"),
        ],
    );
}

#[test]
fn numeric_overflow_is_reported() {
    assert_eq!(lex_err("18446744073709551616"), LexErrorKind::NumericOverflow);
    assert_eq!(lex_err("-9223372036854775808"), LexErrorKind::NumericOverflow);
}

#[test]
fn second_decimal_point_is_malformed() {
    assert_eq!(lex_err("1.2.3"), LexErrorKind::MalformedNumber);
}

#[test]
fn unterminated_literals_are_reported() {
    assert_eq!(lex_err("\"abc"), LexErrorKind::UnterminatedLiteral);
    assert_eq!(lex_err("'a"), LexErrorKind::UnterminatedLiteral);
    assert_eq!(lex_err("r\"abc"), LexErrorKind::UnterminatedLiteral);
}

#[test]
fn invalid_escape_is_reported() {
    assert_eq!(lex_err("\"a\\qb\""), LexErrorKind::InvalidEscape);
}

#[test]
fn wide_char_literal_is_reported() {
    assert_eq!(lex_err("'ab'"), LexErrorKind::InvalidCharLiteral);
}

#[test]
fn unrecognized_character_is_reported() {
    assert_eq!(lex_err("@"), LexErrorKind::UnrecognizedCharacter);
}

#[test]
fn table_ordering_is_validated_at_startup() {
    let good = ConstantMatcher::new(
        TokenType::Operator,
        vec!["==".to_string(), "=".to_string(), "<".to_string()],
    );
    assert!(good.well_ordered());
    let bad = ConstantMatcher::new(
        TokenType::Operator,
        vec!["=".to_string(), "==".to_string()],
    );
    assert!(!bad.well_ordered());
}

#[test]
fn token_positions_span_the_source() {
    let tokens = lex_all("let x");
    assert_eq!(tokens[0].position().start, 0);
    assert_eq!(tokens[0].position().end, 3);
    assert_eq!(tokens[1].position().start, 4);
    assert_eq!(tokens[1].position().end, 5);
}
