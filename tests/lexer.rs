use std::ops::Range;

use quake3_file_parsers::lexer::{tokenize, Lexer, Token, TokenKind, TokenSet};
use quake3_file_parsers::span::RawSpan;

fn assert_lex(source: &str, expected: &[(TokenKind, &str, Range<usize>)]) {
    let tokens = tokenize(source);
    let got: Vec<(TokenKind, &str, Range<usize>)> = tokens
        .iter()
        .map(|t| (t.kind(), t.text(), t.span().start() as usize..t.span().end() as usize))
        .collect();
    assert_eq!(got, expected);
}

#[test]
fn whitespace() {
    assert_lex(
        "abc\nd\te f",
        &[
            (TokenKind::String, "abc", 0..3),
            (TokenKind::Newline, "\n", 3..4),
            (TokenKind::String, "d", 4..5),
            (TokenKind::Whitespace, "\t", 5..6),
            (TokenKind::String, "e", 6..7),
            (TokenKind::Whitespace, " ", 7..8),
            (TokenKind::String, "f", 8..9),
        ],
    );
}

#[test]
fn newline() {
    assert_lex(
        "abc\n\ndef\r\n",
        &[
            (TokenKind::String, "abc", 0..3),
            (TokenKind::Newline, "\n", 3..4),
            (TokenKind::Newline, "\n", 4..5),
            (TokenKind::String, "def", 5..8),
            (TokenKind::Whitespace, "\r", 8..9),
            (TokenKind::Newline, "\n", 9..10),
        ],
    );
}

#[test]
fn line_comment() {
    assert_lex(
        "abc // de\nf//",
        &[
            (TokenKind::String, "abc", 0..3),
            (TokenKind::Whitespace, " ", 3..4),
            (TokenKind::LineComment, "// de\n", 4..10),
            (TokenKind::String, "f//", 10..13),
        ],
    );
}

#[test]
fn line_comment_eof() {
    assert_lex(
        "abc // de",
        &[
            (TokenKind::String, "abc", 0..3),
            (TokenKind::Whitespace, " ", 3..4),
            (TokenKind::LineComment, "// de", 4..9),
        ],
    );
}

#[test]
fn block_comment() {
    assert_lex(
        "abc /* de\nf */",
        &[
            (TokenKind::String, "abc", 0..3),
            (TokenKind::Whitespace, " ", 3..4),
            (TokenKind::BlockComment, "/* de\nf */", 4..14),
        ],
    );
}

#[test]
fn string() {
    assert_lex(
        "a\nb \ncde",
        &[
            (TokenKind::String, "a", 0..1),
            (TokenKind::Newline, "\n", 1..2),
            (TokenKind::String, "b", 2..3),
            (TokenKind::Whitespace, " ", 3..4),
            (TokenKind::Newline, "\n", 4..5),
            (TokenKind::String, "cde", 5..8),
        ],
    );
}

#[test]
fn quoted_string() {
    assert_lex(
        "a \"b c\nd\" e",
        &[
            (TokenKind::String, "a", 0..1),
            (TokenKind::Whitespace, " ", 1..2),
            (TokenKind::QuotedString, "\"b c\nd\"", 2..9),
            (TokenKind::Whitespace, " ", 9..10),
            (TokenKind::String, "e", 10..11),
        ],
    );
}

// An unterminated quote is a bareword; braces end barewords; every byte
// that starts no token becomes an error token of one character.
#[test]
fn error() {
    assert_lex(
        "a \"b1§$%&/{([)]=}\\?´`+*~#'@c,;.:-_d<>|e",
        &[
            (TokenKind::String, "a", 0..1),
            (TokenKind::Whitespace, " ", 1..2),
            (TokenKind::String, "\"b1", 2..5),
            (TokenKind::Error, "§", 5..7),
            (TokenKind::String, "$%&/", 7..11),
            (TokenKind::LeftBrace, "{", 11..12),
            (TokenKind::String, "([)]=", 12..17),
            (TokenKind::RightBrace, "}", 17..18),
            (TokenKind::String, "\\?", 18..20),
            (TokenKind::Error, "´", 20..22),
            (TokenKind::String, "`+*~#'@c,;.:-_d<>|e", 22..41),
        ],
    );
}

#[test]
fn test_token_new() {
    let token = Token::new(TokenKind::Error, RawSpan::new(0, 0), "");
    assert_eq!(token.kind(), TokenKind::Error);
    assert_eq!(token.span(), RawSpan::new(0, 0));
    assert_eq!(token.text(), "");
}

#[test]
fn test_lexer_new() {
    let src = "hurz";
    let lexer = Lexer::new(&src);
    assert_eq!(lexer.source(), src);
}

#[test]
fn test_lexer_iter() {
    let src = "abc\ndef_";
    let lexer = Lexer::new(&src);
    let tokens: Vec<_> = lexer.collect();
    assert_eq!(
        tokens,
        &[
            (Token::new(TokenKind::String, RawSpan::new(0, 3), "abc")),
            (Token::new(TokenKind::Newline, RawSpan::new(3, 4), "\n")),
            (Token::new(TokenKind::String, RawSpan::new(4, 8), "def_")),
        ],
    );
}

#[test]
fn lexer_next_one_at_a_time() {
    let mut lexer = Lexer::new("{x}");
    assert_eq!(lexer.next().map(|t| t.kind()), Some(TokenKind::LeftBrace));
    assert_eq!(lexer.next().map(|t| t.text()), Some("x"));
    assert_eq!(lexer.next().map(|t| t.kind()), Some(TokenKind::RightBrace));
    assert!(lexer.next().is_none());
    assert!(lexer.next().is_none());
}

#[test]
fn lossless_concatenation() {
    let inputs = [
        "",
        "{ foo \"bar\" }",
        " \t\n//foo\n/*bar*/{hurz\"hurz\"_",
        "\u{0}\u{7f}äöü {}} /* open \"quote",
        "//x",
        "/**/ /*a*b*/ /*/",
    ];
    for input in inputs {
        let tokens = tokenize(input);
        let joined: String = tokens.iter().map(|t| t.text()).collect();
        assert_eq!(joined, input);
        let mut expected_start = 0;
        for t in &tokens {
            assert_eq!(t.span().start() as usize, expected_start);
            assert!(t.span().end() > t.span().start());
            assert_eq!(&input[t.span().start() as usize..t.span().end() as usize], t.text());
            expected_start = t.span().end() as usize;
        }
        assert_eq!(expected_start, input.len());
    }
}

#[test]
fn relex_gives_same_tokens() {
    let input = "{ key \"va lue\" } // c\n/* b */ \u{1}x";
    let tokens = tokenize(input);
    let rebuilt: String = tokens.iter().map(|t| t.text()).collect();
    let again = tokenize(&rebuilt);
    let a: Vec<_> = tokens.iter().map(|t| (t.kind(), t.span(), t.text())).collect();
    let b: Vec<_> = again.iter().map(|t| (t.kind(), t.span(), t.text())).collect();
    assert_eq!(a, b);
}

#[test]
fn comment_rules_outrank_barewords() {
    assert_lex("//x", &[(TokenKind::LineComment, "//x", 0..3)]);
    assert_lex(
        "/*a*/b",
        &[(TokenKind::BlockComment, "/*a*/", 0..5), (TokenKind::String, "b", 5..6)],
    );
    assert_lex("/*a", &[(TokenKind::String, "/*a", 0..3)]);
    assert_lex(
        "\"a\"b",
        &[(TokenKind::QuotedString, "\"a\"", 0..3), (TokenKind::String, "b", 3..4)],
    );
}

#[test]
fn control_bytes_and_non_ascii() {
    assert_lex(
        "\u{0}\u{7f}é",
        &[
            (TokenKind::Error, "\u{0}", 0..1),
            (TokenKind::Error, "\u{7f}", 1..2),
            (TokenKind::Error, "é", 2..4),
        ],
    );
    assert_lex("\u{1}\u{1f} x", &[(TokenKind::Whitespace, "\u{1}\u{1f} ", 0..3), (TokenKind::String, "x", 3..4)]);
}

#[test]
fn kind_predicates_and_names() {
    assert!(TokenKind::Whitespace.is_trivia());
    assert!(TokenKind::BlockComment.is_trivia());
    assert!(!TokenKind::String.is_trivia());
    assert!(TokenKind::LineComment.is_comment());
    assert!(!TokenKind::Newline.is_comment());
    assert!(TokenKind::QuotedString.is_string());
    assert!(!TokenKind::LeftBrace.is_string());
    assert_eq!(TokenKind::RightBrace.name(), "RightBrace");
    assert_eq!(TokenKind::QuotedString.description(), "quoted string");
    assert_eq!(TokenKind::at_index(TokenKind::Error.index()), TokenKind::Error);
    assert_eq!(u32::from(TokenKind::Whitespace), 1);
    assert_eq!(u32::from(TokenKind::String), 16);
}

#[test]
fn token_sets() {
    let set = TokenSet::new().with(TokenKind::String).with(TokenKind::QuotedString);
    assert!(set.contains(TokenKind::String));
    assert!(set.contains(TokenKind::QuotedString));
    assert!(!set.contains(TokenKind::Whitespace));
    assert!(!TokenSet::new().contains(TokenKind::Error));
    assert_eq!(TokenSet::strings(), set);
}
