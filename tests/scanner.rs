use loxvm::scanner::{Scanner, TokenKind};

fn kinds(source: &str) -> Vec<TokenKind> {
    let mut scanner = Scanner::new(source);
    let mut out = Vec::new();
    loop {
        let token = scanner.scan_token();
        out.push(token.kind);
        if token.kind == TokenKind::Eof {
            return out;
        }
    }
}

#[test]
fn test_scanner_basic() {
    let source = "(";
    let mut scanner = Scanner::new(source);

    let token = scanner.scan_token();

    assert!(token.kind == TokenKind::LeftParen);
}

#[test]
fn test_scanner() {
    let source = "({;,.-+/*})";
    let mut scanner = Scanner::new(source);

    let mut idx = 0;
    let expected = [
        TokenKind::LeftParen,
        TokenKind::LeftBrace,
        TokenKind::Semicolon,
        TokenKind::Comma,
        TokenKind::Dot,
        TokenKind::Minus,
        TokenKind::Plus,
        TokenKind::Slash,
        TokenKind::Star,
        TokenKind::RightBrace,
        TokenKind::RightParen,
    ];
    while !scanner.is_at_end() {
        let token = scanner.scan_token();

        assert!(token.kind == expected[idx]);

        idx += 1;
    }
}

#[test]
fn punctuation_stream_ends_in_eof() {
    assert_eq!(
        kinds("({;,.-+/*})"),
        vec![
            TokenKind::LeftParen, TokenKind::LeftBrace, TokenKind::Semicolon, TokenKind::Comma, TokenKind::Dot, TokenKind::Minus, TokenKind::Plus, TokenKind::Slash, TokenKind::Star, TokenKind::RightBrace,
            TokenKind::RightParen, TokenKind::Eof
        ]
    );
}

#[test]
fn single_paren_then_eof() {
    let mut scanner = Scanner::new("(");
    assert_eq!(scanner.scan_token().kind, TokenKind::LeftParen);
    assert_eq!(scanner.scan_token().kind, TokenKind::Eof);
}

#[test]
fn two_char_operators() {
    assert_eq!(
        kinds("! != = == < <= > >="),
        vec![TokenKind::Bang, TokenKind::BangEqual, TokenKind::Equal, TokenKind::EqualEqual, TokenKind::Less, TokenKind::LessEqual, TokenKind::Greater, TokenKind::GreaterEqual, TokenKind::Eof]
    );
}

#[test]
fn keywords_and_identifiers() {
    assert_eq!(
        kinds("for foreach true truest var vary"),
        vec![TokenKind::For, TokenKind::Identifier, TokenKind::True, TokenKind::Identifier, TokenKind::Var, TokenKind::Identifier, TokenKind::Eof]
    );
}

#[test]
fn keyword_disambiguation() {
    assert_eq!(kinds("for"), vec![TokenKind::For, TokenKind::Eof]);
    assert_eq!(kinds("form"), vec![TokenKind::Identifier, TokenKind::Eof]);
    assert_eq!(kinds("fo"), vec![TokenKind::Identifier, TokenKind::Eof]);
}

#[test]
fn every_keyword() {
    assert_eq!(
        kinds("and class else false for fun if nil or print return super this true var while"),
        vec![
            TokenKind::And, TokenKind::Class, TokenKind::Else, TokenKind::False, TokenKind::For, TokenKind::Fun, TokenKind::If, TokenKind::Nil, TokenKind::Or, TokenKind::Print, TokenKind::Return, TokenKind::Super, TokenKind::This, TokenKind::True, TokenKind::Var,
            TokenKind::While, TokenKind::Eof
        ]
    );
    assert_eq!(
        kinds("a f t _x an classy el th tr x1"),
        vec![
            TokenKind::Identifier, TokenKind::Identifier, TokenKind::Identifier, TokenKind::Identifier, TokenKind::Identifier, TokenKind::Identifier, TokenKind::Identifier,
            TokenKind::Identifier, TokenKind::Identifier, TokenKind::Identifier, TokenKind::Eof
        ]
    );
}

#[test]
fn unterminated_string() {
    let mut scanner = Scanner::new("\"abc");
    let token = scanner.scan_token();
    assert_eq!(token.kind, TokenKind::Error);
    assert_eq!(token.message, "Unterminated string");
    assert_eq!(token.length, 0);
    assert_eq!(scanner.scan_token().kind, TokenKind::Eof);
}

#[test]
fn unexpected_character() {
    let mut scanner = Scanner::new("@1");
    let token = scanner.scan_token();
    assert_eq!(token.kind, TokenKind::Error);
    assert_eq!(token.message, "Unexpected character.");
    assert_eq!(scanner.scan_token().kind, TokenKind::Number);
}

#[test]
fn string_spans_quotes_and_counts_lines() {
    let mut scanner = Scanner::new("\"a\nb\" x");
    let token = scanner.scan_token();
    assert_eq!(token.kind, TokenKind::String);
    assert_eq!(token.start, 0);
    assert_eq!(token.length, 5);
    assert_eq!(token.lexeme(), b"\"a\nb\"");
    assert_eq!(token.line, 2);
    let next = scanner.scan_token();
    assert_eq!(next.kind, TokenKind::Identifier);
    assert_eq!(next.line, 2);
}

#[test]
fn numbers_with_and_without_fraction() {
    let mut scanner = Scanner::new("12.5 7. 3");
    let a = scanner.scan_token();
    assert_eq!(a.kind, TokenKind::Number);
    assert_eq!(a.lexeme(), b"12.5");
    let b = scanner.scan_token();
    assert_eq!(b.kind, TokenKind::Number);
    assert_eq!(b.lexeme(), b"7");
    assert_eq!(scanner.scan_token().kind, TokenKind::Dot);
    let c = scanner.scan_token();
    assert_eq!(c.lexeme(), b"3");
    assert_eq!(scanner.scan_token().kind, TokenKind::Eof);
}

#[test]
fn whitespace_and_comments_do_not_change_kinds() {
    let plain = kinds("(a+1)*b");
    let spaced = kinds(" ( a\t+ 1\r\n) // note\n *\n\n b // end");
    assert_eq!(plain, spaced);
}

#[test]
fn comments_and_newlines_advance_lines() {
    let mut scanner = Scanner::new("// one\n\n  x");
    let token = scanner.scan_token();
    assert_eq!(token.kind, TokenKind::Identifier);
    assert_eq!(token.line, 3);
    assert_eq!(token.start, 10);
}

#[test]
fn lone_slash_is_a_token() {
    assert_eq!(
        kinds("a / b"),
        vec![TokenKind::Identifier, TokenKind::Slash, TokenKind::Identifier, TokenKind::Eof]
    );
}

#[test]
fn empty_source_is_eof_again_and_again() {
    let mut scanner = Scanner::new("");
    assert_eq!(scanner.scan_token().kind, TokenKind::Eof);
    assert_eq!(scanner.scan_token().kind, TokenKind::Eof);
}

#[test]
fn comment_between_tokens_keeps_kinds() {
    assert_eq!(kinds("a*b"), kinds("a// note\n*b"));
    assert_eq!(kinds("1.5-x"), kinds("1.5\t// one\n// two\n-x"));
}

#[test]
fn comment_right_after_slash_joins_it() {
    assert_eq!(
        kinds("a/b"),
        vec![TokenKind::Identifier, TokenKind::Slash, TokenKind::Identifier, TokenKind::Eof]
    );
    assert_eq!(kinds("a///x\nb"), vec![TokenKind::Identifier, TokenKind::Identifier, TokenKind::Eof]);
}
