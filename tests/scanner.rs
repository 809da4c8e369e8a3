use rlox::scanner::{Scanner, Token, TokenType};

#[test]
fn test_empty() {
    let mut scanner = Scanner::new("");

    assert_eq!(scanner.scan_token().token_type, TokenType::EOF);
}

#[test]
fn test_pure_whitespace() {
    let mut scanner = Scanner::new(" \t\r\n");

    assert_eq!(scanner.scan_token().token_type, TokenType::EOF);
}

#[test]
fn test_comment() {
    let mut scanner = Scanner::new("// this is a comment\n");

    assert_eq!(scanner.scan_token().token_type, TokenType::EOF);
}

#[test]
fn test_single_token() {
    let mut scanner = Scanner::new("(");

    assert_eq!(scanner.scan_token().token_type, TokenType::LeftParen);
    assert_eq!(scanner.scan_token().token_type, TokenType::EOF);
}

#[test]
fn test_double_token() {
    let mut scanner = Scanner::new("( )");

    assert_eq!(scanner.scan_token().token_type, TokenType::LeftParen);
    assert_eq!(scanner.scan_token().token_type, TokenType::RightParen);
    assert_eq!(scanner.scan_token().token_type, TokenType::EOF);
}

#[test]
fn test_two_char_tokens() {
    let mut scanner = Scanner::new("= == != !");

    assert_eq!(scanner.scan_token().token_type, TokenType::Equal);
    assert_eq!(scanner.scan_token().token_type, TokenType::EqualEqual);
    assert_eq!(scanner.scan_token().token_type, TokenType::BangEqual);
    assert_eq!(scanner.scan_token().token_type, TokenType::Bang);
    assert_eq!(scanner.scan_token().token_type, TokenType::EOF);
}

#[test]
fn test_string() {
    let mut scanner = Scanner::new("\"abc\"");

    assert_eq!(
        scanner.scan_token(),
        Token {
            token_type: TokenType::String,
            line: 1,
            slice: "\"abc\"",
        }
    )
}

#[test]
fn test_number() {
    let mut scanner = Scanner::new("( 12.4 \n33 )");

    assert_eq!(scanner.scan_token().token_type, TokenType::LeftParen);
    assert_eq!(
        scanner.scan_token(),
        Token {
            token_type: TokenType::Number,
            line: 1,
            slice: "12.4"
        }
    );
    assert_eq!(
        scanner.scan_token(),
        Token {
            token_type: TokenType::Number,
            line: 2,
            slice: "33"
        }
    );
    assert_eq!(scanner.scan_token().token_type, TokenType::RightParen);
    assert_eq!(scanner.scan_token().token_type, TokenType::EOF);
}

#[test]
fn test_one_identifier() {
    let mut scanner = Scanner::new("foo");

    assert_eq!(
        scanner.scan_token(),
        Token {
            token_type: TokenType::Identifier,
            line: 1,
            slice: "foo",
        }
    );
    assert_eq!(scanner.scan_token().token_type, TokenType::EOF);
}

#[test]
fn test_keyword_identification() {
    let all_keywords =
        "and class else false for fun if nil or print return super this true var while";

    let mut scanner = Scanner::new(all_keywords);

    assert_eq!(scanner.scan_token().token_type, TokenType::And);
    assert_eq!(scanner.scan_token().token_type, TokenType::Class);
    assert_eq!(scanner.scan_token().token_type, TokenType::Else);
    assert_eq!(scanner.scan_token().token_type, TokenType::False);
    assert_eq!(scanner.scan_token().token_type, TokenType::For);
    assert_eq!(scanner.scan_token().token_type, TokenType::Fun);
    assert_eq!(scanner.scan_token().token_type, TokenType::If);
    assert_eq!(scanner.scan_token().token_type, TokenType::Nil);
    assert_eq!(scanner.scan_token().token_type, TokenType::Or);
    assert_eq!(scanner.scan_token().token_type, TokenType::Print);
    assert_eq!(scanner.scan_token().token_type, TokenType::Return);
    assert_eq!(scanner.scan_token().token_type, TokenType::Super);
    assert_eq!(scanner.scan_token().token_type, TokenType::This);
    assert_eq!(scanner.scan_token().token_type, TokenType::True);
    assert_eq!(scanner.scan_token().token_type, TokenType::Var);
    assert_eq!(scanner.scan_token().token_type, TokenType::While);
    assert_eq!(scanner.scan_token().token_type, TokenType::EOF);
}

fn kinds(source: &str) -> Vec<TokenType> {
    let mut scanner = Scanner::new(source);
    let mut out = Vec::new();
    loop {
        let token = scanner.scan_token();
        out.push(token.token_type);
        if token.token_type == TokenType::EOF {
            return out;
        }
    }
}

#[test]
fn eof_repeats_after_end() {
    let mut scanner = Scanner::new("1");
    assert_eq!(scanner.scan_token().token_type, TokenType::Number);
    for _ in 0..3 {
        assert_eq!(scanner.scan_token().token_type, TokenType::EOF);
    }
}

#[test]
fn comments_and_blanks_mixed_yield_only_eof() {
    assert_eq!(kinds("  // one\n\t// two\r\n  "), vec![TokenType::EOF]);
    assert_eq!(kinds("// no newline at the end"), vec![TokenType::EOF]);
}

#[test]
fn lone_slash_is_not_a_comment() {
    assert_eq!(kinds("/ /"), vec![TokenType::Slash, TokenType::Slash, TokenType::EOF]);
}

#[test]
fn each_keyword_alone_scans_to_its_kind() {
    let cases = [
        ("and", TokenType::And),
        ("class", TokenType::Class),
        ("else", TokenType::Else),
        ("false", TokenType::False),
        ("for", TokenType::For),
        ("fun", TokenType::Fun),
        ("if", TokenType::If),
        ("nil", TokenType::Nil),
        ("or", TokenType::Or),
        ("print", TokenType::Print),
        ("return", TokenType::Return),
        ("super", TokenType::Super),
        ("this", TokenType::This),
        ("true", TokenType::True),
        ("var", TokenType::Var),
        ("while", TokenType::While),
    ];
    for (word, kind) in cases {
        assert_eq!(kinds(word), vec![kind, TokenType::EOF], "{}", word);
    }
}

#[test]
fn keyword_prefixes_are_identifiers() {
    for word in ["ifx", "oranges", "fo", "f", "t", "th", "classy", "nil_", "var2", "_and"] {
        assert_eq!(kinds(word), vec![TokenType::Identifier, TokenType::EOF], "{}", word);
    }
}

#[test]
fn unterminated_string_is_one_error_token() {
    let mut scanner = Scanner::new("\"abc\ndef");
    let token = scanner.scan_token();
    assert_eq!(token.token_type, TokenType::Error);
    assert_eq!(token.slice, "Unterminated string.");
    assert_eq!(token.line, 2);
    assert_eq!(scanner.scan_token().token_type, TokenType::EOF);
}

#[test]
fn string_spanning_lines_counts_them() {
    let mut scanner = Scanner::new("\"a\nb\" x");
    let token = scanner.scan_token();
    assert_eq!(token.token_type, TokenType::String);
    assert_eq!(token.slice, "\"a\nb\"");
    assert_eq!(token.line, 2);
    let ident = scanner.scan_token();
    assert_eq!(ident.line, 2);
}

#[test]
fn unexpected_character_is_an_error_token() {
    let mut scanner = Scanner::new("#");
    let token = scanner.scan_token();
    assert_eq!(token.token_type, TokenType::Error);
    assert_eq!(token.slice, "Unexpected character");
}

#[test]
fn trailing_dot_is_not_part_of_a_number() {
    let mut scanner = Scanner::new("12.");
    let token = scanner.scan_token();
    assert_eq!(token.token_type, TokenType::Number);
    assert_eq!(token.slice, "12");
    assert_eq!(scanner.scan_token().token_type, TokenType::Dot);
}

#[test]
fn operators_with_and_without_equal() {
    assert_eq!(
        kinds("< <= > >= ! != = =="),
        vec![
            TokenType::Less,
            TokenType::LessEqual,
            TokenType::Greater,
            TokenType::GreaterEqual,
            TokenType::Bang,
            TokenType::BangEqual,
            TokenType::Equal,
            TokenType::EqualEqual,
            TokenType::EOF,
        ]
    );
}
