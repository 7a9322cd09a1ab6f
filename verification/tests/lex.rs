use sodigy::lex::lex;
use sodigy::lex::session::{count_quotes, Session};
use sodigy::lex::token::{
    Delim, Error, ErrorKind, ErrorSpan, Note, NumberLiteral, Punct, Span, Token, TokenKeyword,
    TokenKind, Unsupported,
};
use sodigy::lex::tree::TokenTree;
use sodigy::lex::try_lex;

fn lex_bytes(input: &[u8]) -> Session {
    lex(input.to_vec(), false)
}

fn tok(kind: TokenKind, start: usize, end: usize) -> Token {
    Token { kind, span: Span { start, end } }
}

fn range_error(kind: ErrorKind, start: usize, end: usize, note: Option<Note>) -> Error {
    Error { kind, span: ErrorSpan::Range(Span { start, end }), note }
}

fn string_at(s: &Session, id: usize) -> Vec<u8> {
    s.strings[id].clone()
}

#[test]
fn lex_let_statement() {
    let s = lex_bytes(b"let x = 3;");
    assert!(s.errors.is_empty());
    assert_eq!(
        s.tokens,
        vec![
            tok(TokenKind::Keyword(TokenKeyword::Let), 0, 3),
            tok(TokenKind::Identifier(0), 4, 5),
            tok(TokenKind::Punct(Punct::Single(b'=')), 6, 7),
            tok(TokenKind::Number(NumberLiteral { digits: 1, fraction: None }), 8, 9),
            tok(TokenKind::Punct(Punct::Single(b';')), 9, 10),
        ],
    );
    assert_eq!(string_at(&s, 0), b"x".to_vec());
    assert_eq!(string_at(&s, 1), b"3".to_vec());
    assert_eq!(s.token_trees.len(), 5);
}

#[test]
fn lex_groups_tokens() {
    let s = lex_bytes(b"f(a)");
    assert!(s.errors.is_empty());
    let open = Span { start: 1, end: 2 };
    assert_eq!(
        s.tokens,
        vec![
            tok(TokenKind::Identifier(0), 0, 1),
            tok(TokenKind::GroupDelim { delim: Some(Delim::Parenthesis), id: open }, 1, 2),
            tok(TokenKind::Identifier(1), 2, 3),
            tok(TokenKind::GroupDelim { delim: None, id: open }, 3, 4),
        ],
    );
    assert_eq!(s.token_trees.len(), 2);
    match &s.token_trees[0] {
        TokenTree::Leaf(t) => assert_eq!(*t, tok(TokenKind::Identifier(0), 0, 1)),
        _ => panic!("expected a leaf"),
    }
    match &s.token_trees[1] {
        TokenTree::Group { delim, span, tokens } => {
            assert_eq!(*delim, Delim::Parenthesis);
            assert_eq!(*span, Span { start: 1, end: 4 });
            assert_eq!(tokens.len(), 1);
            match &tokens[0] {
                TokenTree::Leaf(t) => assert_eq!(*t, tok(TokenKind::Identifier(1), 2, 3)),
                _ => panic!("expected a leaf"),
            }
        },
        _ => panic!("expected a group"),
    }
}

#[test]
fn lex_nested_groups_and_lambda() {
    let s = lex_bytes(b"[\\(x)]");
    assert!(s.errors.is_empty());
    assert_eq!(s.token_trees.len(), 1);
    match &s.token_trees[0] {
        TokenTree::Group { delim, span, tokens } => {
            assert_eq!(*delim, Delim::Bracket);
            assert_eq!(*span, Span { start: 0, end: 6 });
            match &tokens[0] {
                TokenTree::Group { delim, span, tokens } => {
                    assert_eq!(*delim, Delim::Lambda);
                    assert_eq!(*span, Span { start: 1, end: 5 });
                    assert_eq!(tokens.len(), 1);
                },
                _ => panic!("expected a group"),
            }
        },
        _ => panic!("expected a group"),
    }
}

#[test]
fn lex_group_errors() {
    let s = lex_bytes(b"(]");
    assert_eq!(
        s.errors,
        vec![range_error(ErrorKind::UnmatchedGroup { expected: b')', got: b']' }, 1, 2, None)],
    );
    assert!(s.token_trees.is_empty());
    // the failed step pops the open group and leaves the cursor on the bad delimiter
    assert_eq!(s.cursor, 1);
    assert!(s.group_stack.is_empty());
    let s = lex_bytes(b")");
    assert_eq!(
        s.errors,
        vec![Error { kind: ErrorKind::UnexpectedCharacter(b')'), span: ErrorSpan::Eof, note: None }],
    );
    let s = lex_bytes(b"{");
    assert_eq!(
        s.errors,
        vec![range_error(ErrorKind::UnclosedDelimiter(b'}'), 0, 1, None)],
    );
    assert!(s.group_stack.is_empty());
}

#[test]
fn lex_numbers() {
    let s = lex_bytes(b"1.5");
    assert_eq!(
        s.tokens,
        vec![tok(TokenKind::Number(NumberLiteral { digits: 0, fraction: Some(1) }), 0, 3)],
    );
    assert_eq!(string_at(&s, 0), b"1".to_vec());
    assert_eq!(string_at(&s, 1), b"5".to_vec());
    let s = lex_bytes(b"0.25");
    assert_eq!(string_at(&s, 0), b"0".to_vec());
    assert_eq!(string_at(&s, 1), b"25".to_vec());
    let s = lex_bytes(b"1_000");
    assert_eq!(
        s.tokens,
        vec![tok(TokenKind::Number(NumberLiteral { digits: 0, fraction: None }), 0, 5)],
    );
    assert_eq!(string_at(&s, 0), b"1000".to_vec());
    let s = lex_bytes(b"1..2");
    assert_eq!(
        s.tokens,
        vec![
            tok(TokenKind::Number(NumberLiteral { digits: 0, fraction: None }), 0, 1),
            tok(TokenKind::Punct(Punct::DotDot), 1, 3),
            tok(TokenKind::Number(NumberLiteral { digits: 1, fraction: None }), 3, 4),
        ],
    );
}

#[test]
fn lex_number_errors() {
    let s = lex_bytes(b"1a");
    assert_eq!(s.errors, vec![range_error(ErrorKind::InvalidNumberLiteral, 1, 2, None)]);
    let s = lex_bytes(b"12a");
    assert_eq!(
        s.errors,
        vec![range_error(ErrorKind::InvalidNumberLiteral, 2, 3, Some(Note::InvalidDigit(b'a')))],
    );
    let s = lex_bytes(b"0x1");
    assert_eq!(
        s.errors,
        vec![range_error(ErrorKind::Unsupported(Unsupported::NonDecimalInteger), 0, 2, None)],
    );
}

#[test]
fn lex_byte_literals() {
    let s = lex_bytes(b"#12");
    assert_eq!(s.tokens, vec![tok(TokenKind::Byte(12), 0, 3)]);
    let s = lex_bytes(b"#2_55");
    assert_eq!(s.tokens, vec![tok(TokenKind::Byte(255), 0, 5)]);
    let s = lex_bytes(b"#300");
    assert_eq!(
        s.errors,
        vec![range_error(ErrorKind::InvalidByteLiteral, 0, 4, Some(Note::ByteRange))],
    );
    let s = lex_bytes(b"# ");
    assert_eq!(s.errors, vec![range_error(ErrorKind::InvalidByteLiteral, 0, 1, None)]);
    let s = lex_bytes(b"#1a");
    assert_eq!(
        s.errors,
        vec![range_error(ErrorKind::InvalidByteLiteral, 2, 3, Some(Note::InvalidDigit(b'a')))],
    );
}

#[test]
fn lex_char_literals() {
    let s = lex_bytes(b"'a'");
    assert_eq!(s.tokens, vec![tok(TokenKind::Char(97), 0, 3)]);
    let s = lex_bytes(b"b'a'");
    assert_eq!(s.tokens, vec![tok(TokenKind::Byte(97), 0, 4)]);
    let s = lex_bytes(b"'\\n'");
    assert_eq!(s.tokens, vec![tok(TokenKind::Char(10), 0, 4)]);
    let s = lex_bytes(b"'\\x41'");
    assert_eq!(s.tokens, vec![tok(TokenKind::Char(0x41), 0, 6)]);
    let s = lex_bytes(b"'\\u{ac00}'");
    assert_eq!(s.tokens, vec![tok(TokenKind::Char(0xac00), 0, 10)]);
    let s = lex_bytes("'가'".as_bytes());
    assert_eq!(s.tokens, vec![tok(TokenKind::Char(0xac00), 0, 5)]);
    let s = lex_bytes(b"b'\\x80'");
    assert_eq!(
        s.errors,
        vec![range_error(ErrorKind::InvalidByteLiteral, 0, 7, Some(Note::PerhapsByte(0x80)))],
    );
}

#[test]
fn lex_char_errors() {
    let s = lex_bytes(b"''");
    assert_eq!(s.errors, vec![range_error(ErrorKind::EmptyCharLiteral, 0, 2, None)]);
    let s = lex_bytes(b"'ab'");
    assert_eq!(s.errors, vec![range_error(ErrorKind::InvalidCharLiteral, 0, 1, None)]);
    let s = lex_bytes(b"'\\q'");
    assert_eq!(s.errors, vec![range_error(ErrorKind::InvalidEscape, 2, 3, None)]);
    let s = lex_bytes(b"'\\u{110000}'");
    assert_eq!(s.errors, vec![range_error(ErrorKind::InvalidUnicodeCharacter, 1, 2, None)]);
    let s = lex_bytes(b"'\\u{12g}'");
    assert_eq!(s.errors, vec![range_error(ErrorKind::InvalidUnicodeEscape, 6, 7, None)]);
    let s = lex_bytes(b"'a");
    assert_eq!(s.errors, vec![range_error(ErrorKind::InvalidCharLiteral, 0, 1, None)]);
    let s = lex_bytes(b"'");
    assert_eq!(s.errors, vec![range_error(ErrorKind::UnterminatedCharLiteral, 0, 1, None)]);
    let s = lex_bytes(b"fr'a'");
    assert_eq!(s.errors, vec![range_error(ErrorKind::InvalidCharLiteralPrefix, 0, 2, None)]);
}

#[test]
fn lex_string_literals() {
    let s = lex_bytes(b"\"ab\\n\"");
    assert_eq!(s.tokens, vec![tok(TokenKind::String { binary: false, raw: false, s: 0 }, 0, 6)]);
    assert_eq!(string_at(&s, 0), b"ab\n".to_vec());
    let s = lex_bytes(b"r\"a\\b\"");
    assert_eq!(s.tokens, vec![tok(TokenKind::String { binary: false, raw: true, s: 0 }, 1, 6)]);
    assert_eq!(string_at(&s, 0), b"a\\b".to_vec());
    let s = lex_bytes(b"b\"\"");
    assert_eq!(s.tokens, vec![tok(TokenKind::String { binary: true, raw: false, s: 0 }, 1, 3)]);
    assert_eq!(string_at(&s, 0), Vec::<u8>::new());
    let s = lex_bytes(b"\"\"\"\"\"\"");
    assert_eq!(s.tokens, vec![tok(TokenKind::String { binary: false, raw: false, s: 0 }, 0, 6)]);
}

#[test]
fn lex_string_errors() {
    let s = lex_bytes(b"\"abc");
    assert_eq!(s.errors, vec![range_error(ErrorKind::UnterminatedStringLiteral, 0, 1, None)]);
    let s = lex_bytes(b"\"a\\qb\"");
    assert_eq!(s.errors, vec![range_error(ErrorKind::InvalidEscape, 3, 4, None)]);
    let s = lex_bytes(b"\"\"\"\"");
    assert_eq!(
        s.errors,
        vec![range_error(ErrorKind::WrongNumberOfQuotesInRawStringLiteral, 0, 4, None)],
    );
    let s = lex_bytes(b"bb\"x\"");
    assert_eq!(s.errors, vec![range_error(ErrorKind::InvalidStringLiteralPrefix, 0, 2, None)]);
    let s = lex_bytes(b"x\"y\"");
    assert_eq!(s.errors, vec![range_error(ErrorKind::InvalidStringLiteralPrefix, 0, 1, None)]);
    let s = lex_bytes(b"\"a\xff\"");
    assert_eq!(s.errors, vec![range_error(ErrorKind::InvalidUtf8, 2, 3, None)]);
    let mut many = vec![b'"'; 129];
    many.push(b' ');
    let s = lex(many, false);
    assert_eq!(s.errors, vec![range_error(ErrorKind::TooManyQuotes, 0, 1, None)]);
}

#[test]
fn lex_comments() {
    let s = lex_bytes(b"// hi\nx");
    assert_eq!(s.tokens, vec![tok(TokenKind::Identifier(0), 6, 7)]);
    let s = lex_bytes(b"/// doc\nfn");
    assert_eq!(
        s.tokens,
        vec![
            tok(TokenKind::DocComment(0), 0, 7),
            tok(TokenKind::Keyword(TokenKeyword::Fn), 8, 10),
        ],
    );
    assert_eq!(string_at(&s, 0), b" doc".to_vec());
    let s = lex_bytes(b"/* x */a");
    assert_eq!(s.tokens, vec![tok(TokenKind::Identifier(0), 7, 8)]);
    let s = lex_bytes(b"/* x");
    assert_eq!(s.errors, vec![range_error(ErrorKind::UnterminatedBlockComment, 0, 2, None)]);
    let s = lex_bytes(b"/// doc");
    assert_eq!(
        s.errors,
        vec![Error { kind: ErrorKind::UnexpectedEof, span: ErrorSpan::Eof, note: None }],
    );
}

#[test]
fn lex_punctuation() {
    let s = lex_bytes(b"a->b");
    assert_eq!(s.tokens[1], tok(TokenKind::Punct(Punct::ReturnType), 1, 3));
    let s = lex_bytes(b"=<");
    assert_eq!(
        s.tokens,
        vec![
            tok(TokenKind::Punct(Punct::Single(b'=')), 0, 1),
            tok(TokenKind::Punct(Punct::Single(b'<')), 1, 2),
        ],
    );
    let s = lex_bytes(b"..=");
    assert_eq!(s.tokens, vec![tok(TokenKind::Punct(Punct::DotDotEq), 0, 3)]);
    let s = lex_bytes(b"a==b");
    assert_eq!(s.tokens[1], tok(TokenKind::Punct(Punct::Equal), 1, 3));
}

#[test]
fn lex_identifiers() {
    let s = lex_bytes("가나 `field".as_bytes());
    assert!(s.errors.is_empty());
    assert_eq!(
        s.tokens,
        vec![tok(TokenKind::Identifier(0), 0, 6), tok(TokenKind::FieldModifier(1), 7, 13)],
    );
    assert_eq!(string_at(&s, 0), "가나".as_bytes().to_vec());
    assert_eq!(string_at(&s, 1), b"field".to_vec());
    let s = lex_bytes("é".as_bytes());
    assert_eq!(
        s.errors,
        vec![range_error(ErrorKind::InvalidCharacterInIdentifier(0xe9), 0, 1, None)],
    );
    let s = lex_bytes(b"\xc3(");
    assert_eq!(s.errors, vec![range_error(ErrorKind::InvalidUtf8, 0, 1, None)]);
    let s = lex_bytes(b"match struct type");
    assert_eq!(
        s.tokens,
        vec![
            tok(TokenKind::Keyword(TokenKeyword::Match), 0, 5),
            tok(TokenKind::Keyword(TokenKeyword::Struct), 6, 12),
            tok(TokenKind::Keyword(TokenKeyword::Type), 13, 17),
        ],
    );
}

#[test]
fn lex_unsupported_constructs() {
    assert!(try_lex(b"0.5e3".to_vec(), false).is_none());
    assert!(try_lex(b"#x1".to_vec(), false).is_none());
    assert!(try_lex(b"\x01".to_vec(), false).is_none());
    assert!(try_lex(b"\"\"\"a\"\"\"".to_vec(), false).is_none());
    assert!(try_lex(b"'\\u{41}x".to_vec(), false).is_none());
    let s = try_lex(b"f\"a\"".to_vec(), true).unwrap();
    assert!(s.is_std);
    assert_eq!(
        s.errors,
        vec![range_error(ErrorKind::Unsupported(Unsupported::FormattedString), 1, 2, None)],
    );
}

#[test]
fn count_quotes_runs() {
    assert_eq!(count_quotes(b"\"\"\"a", 0), Ok(3));
    assert_eq!(count_quotes(b"a\"", 1), Ok(1));
    assert_eq!(count_quotes(b"abc", 0), Ok(0));
    assert_eq!(count_quotes(b"abc", 7), Ok(0));
    assert_eq!(count_quotes(&[b'"'; 255], 0), Ok(255));
    assert_eq!(count_quotes(&[b'"'; 300], 0), Err(()));
}

#[test]
fn validate_spans_of_lexed_input() {
    assert!(lex_bytes(b"let x = 3;").validate_spans());
    assert!(lex_bytes(b"f(a, [b]) \\(x) -> y").validate_spans());
    assert!(lex_bytes(b"/// doc\nfn `f 1.5 #3 'c' \"s\"").validate_spans());
    // a raw string's span ends with its closing quote
    let s = lex_bytes(b"r\"ab\"");
    assert_eq!(s.tokens, vec![tok(TokenKind::String { binary: false, raw: true, s: 0 }, 1, 5)]);
    assert!(s.validate_spans());
    // a byte char's span starts at its `b`
    assert!(lex_bytes(b"b'a'").validate_spans());
    assert!(lex_bytes(b"x = b'\\n';").validate_spans());
    // after an error the tokens stay as read, delimiters included
    assert!(!lex_bytes(b"(]").validate_spans());
    assert!(lex_bytes(b"a 1a").validate_spans());
}

#[test]
fn lex_long_number_before_range() {
    let s = lex_bytes(b"12..34");
    assert!(s.errors.is_empty());
    assert_eq!(
        s.tokens,
        vec![
            tok(TokenKind::Number(NumberLiteral { digits: 0, fraction: None }), 0, 2),
            tok(TokenKind::Punct(Punct::DotDot), 2, 4),
            tok(TokenKind::Number(NumberLiteral { digits: 1, fraction: None }), 4, 6),
        ],
    );
    assert_eq!(string_at(&s, 0), b"12".to_vec());
    assert_eq!(string_at(&s, 1), b"34".to_vec());
    let s = lex_bytes(b"12.5..=20");
    assert_eq!(s.tokens[1], tok(TokenKind::Punct(Punct::DotDotEq), 4, 7));
}
