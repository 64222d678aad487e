use quake3_file_parsers::event::Event;
use quake3_file_parsers::lexer::{tokenize, Token, TokenKind};
use quake3_file_parsers::parse::arenas;
use quake3_file_parsers::parser::{CompletedMarker, Marker, Parser};
use quake3_file_parsers::sink::Sink;
use quake3_file_parsers::source::Source;
use quake3_file_parsers::span::RawSpan;
use quake3_file_parsers::syntax::{parse, SyntaxKind};
use quake3_file_parsers::tree::SyntaxTree;

fn kinds(tree: &SyntaxTree) -> Vec<SyntaxKind> {
    (0..tree.len()).map(|i| tree.kind(i)).collect()
}

fn leaf_text(tree: &SyntaxTree) -> String {
    (0..tree.len()).filter_map(|i| tree.text(i)).collect()
}

fn assert_nested(tree: &SyntaxTree) {
    let n = tree.len();
    assert!(n >= 1);
    assert_eq!(tree.end(0), n);
    for i in 0..n {
        assert!(i < tree.end(i) && tree.end(i) <= n);
        if tree.text(i).is_some() {
            assert_eq!(tree.end(i), i + 1);
        }
        for j in i + 1..tree.end(i) {
            assert!(tree.end(j) <= tree.end(i));
        }
    }
}

fn count(tree: &SyntaxTree, kind: SyntaxKind) -> usize {
    kinds(tree).into_iter().filter(|k| *k == kind).count()
}

fn interior_errors(tree: &SyntaxTree) -> usize {
    (0..tree.len())
        .filter(|i| tree.kind(*i) == SyntaxKind::Error && tree.text(*i).is_none())
        .count()
}

#[test]
fn test_sink() {
    let src = "{\nfoo \"bar\"}";
    let tokens = vec![
        Token::new(TokenKind::LeftBrace, RawSpan::new(0, 1), "{"),
        Token::new(TokenKind::Newline, RawSpan::new(1, 2), "\n"),
        Token::new(TokenKind::String, RawSpan::new(2, 5), "foo"),
        Token::new(TokenKind::Whitespace, RawSpan::new(5, 6), " "),
        Token::new(TokenKind::QuotedString, RawSpan::new(6, 11), "\"bar\""),
        Token::new(TokenKind::RightBrace, RawSpan::new(11, 12), "}"),
    ];
    let parser = Parser::new(&tokens[..]);
    let (events, errors) = parser.parse();
    let sink = Sink::new(src, tokens.clone(), events);
    let root = sink.finish();
    assert!(errors.is_empty());
    assert_eq!(leaf_text(&root), src);
    assert_nested(&root);
    assert_eq!(
        kinds(&root),
        vec![
            SyntaxKind::Root,
            SyntaxKind::Arenas,
            SyntaxKind::Arena,
            SyntaxKind::LeftBrace,
            SyntaxKind::Newline,
            SyntaxKind::KeyValuePair,
            SyntaxKind::Key,
            SyntaxKind::String,
            SyntaxKind::Whitespace,
            SyntaxKind::Value,
            SyntaxKind::QuotedString,
            SyntaxKind::RightBrace,
        ]
    );
}

#[test]
fn test_parse() {
    let input = " \t\n//foo\n/*bar*/{hurz\"hurz\"_";
    let parse = parse(input);
    let root = parse.tree();
    assert_eq!(leaf_text(root), input);
    assert_nested(root);
    assert_eq!(
        parse.errors(),
        &vec!["expect_any {String, QuotedString}".to_string(), "expect RightBrace".to_string()]
    );
    assert_eq!(count(root, SyntaxKind::Arena), 1);
    assert_eq!(count(root, SyntaxKind::Key), 1);
}

#[test]
fn one_pair_in_one_arena() {
    let parse = parse("{ foo \"bar\" }");
    let tree = parse.tree();
    assert!(parse.errors().is_empty());
    assert_eq!(
        kinds(tree),
        vec![
            SyntaxKind::Root,
            SyntaxKind::Arenas,
            SyntaxKind::Arena,
            SyntaxKind::LeftBrace,
            SyntaxKind::Whitespace,
            SyntaxKind::KeyValuePair,
            SyntaxKind::Key,
            SyntaxKind::String,
            SyntaxKind::Whitespace,
            SyntaxKind::Value,
            SyntaxKind::QuotedString,
            SyntaxKind::Whitespace,
            SyntaxKind::RightBrace,
        ]
    );
    assert_eq!(tree.text(7), Some("foo"));
    assert_eq!(tree.text(10), Some("\"bar\""));
    assert_eq!(tree.children(0), vec![1]);
    assert_eq!(tree.children(2), vec![3, 4, 5, 12]);
    assert_eq!(tree.children(5), vec![6, 8, 9, 11]);
    assert_eq!(leaf_text(tree), "{ foo \"bar\" }");
}

#[test]
fn missing_value_before_closing_brace() {
    let parse = parse("{ foo }");
    let tree = parse.tree();
    assert_eq!(
        parse.errors(),
        &vec!["expect_any {String, QuotedString}".to_string(), "expect RightBrace".to_string()]
    );
    assert_eq!(
        kinds(tree),
        vec![
            SyntaxKind::Root,
            SyntaxKind::Arenas,
            SyntaxKind::Arena,
            SyntaxKind::LeftBrace,
            SyntaxKind::Whitespace,
            SyntaxKind::Key,
            SyntaxKind::String,
            SyntaxKind::Whitespace,
            SyntaxKind::Error,
            SyntaxKind::RightBrace,
        ]
    );
    assert_eq!(interior_errors(tree), 1);
    assert_eq!(tree.children(8), vec![9]);
    assert_eq!(count(tree, SyntaxKind::KeyValuePair), 0);
    assert_eq!(leaf_text(tree), "{ foo }");
}

#[test]
fn unterminated_arena() {
    let parse = parse("{");
    let tree = parse.tree();
    assert_eq!(parse.errors(), &vec!["expect RightBrace".to_string()]);
    assert_eq!(
        kinds(tree),
        vec![SyntaxKind::Root, SyntaxKind::Arenas, SyntaxKind::Arena, SyntaxKind::LeftBrace]
    );
    assert_eq!(interior_errors(tree), 0);
}

#[test]
fn empty_input() {
    let parse = parse("");
    let tree = parse.tree();
    assert!(parse.errors().is_empty());
    assert_eq!(kinds(tree), vec![SyntaxKind::Root, SyntaxKind::Arenas]);
    assert_eq!(count(tree, SyntaxKind::Arena), 0);
    assert_nested(tree);
}

#[test]
fn comment_only() {
    let parse = parse("// hi\n");
    let tree = parse.tree();
    assert!(parse.errors().is_empty());
    assert_eq!(
        kinds(tree),
        vec![SyntaxKind::Root, SyntaxKind::LineComment, SyntaxKind::Arenas]
    );
    assert_eq!(tree.children(0), vec![1, 2]);
    assert_eq!(tree.text(1), Some("// hi\n"));
    assert_eq!(count(tree, SyntaxKind::Arena), 0);
}

#[test]
fn missing_left_brace() {
    let parse = parse("foo");
    let tree = parse.tree();
    assert_eq!(parse.errors(), &vec!["expect LeftBrace".to_string()]);
    assert_eq!(
        kinds(tree),
        vec![SyntaxKind::Root, SyntaxKind::Arenas, SyntaxKind::Error, SyntaxKind::String]
    );
    assert_eq!(count(tree, SyntaxKind::Arena), 0);
}

#[test]
fn trailing_trivia_stays_inside_root() {
    let input = "{a b}\n  // end\n";
    let parse = parse(input);
    let tree = parse.tree();
    assert!(parse.errors().is_empty());
    assert_eq!(leaf_text(tree), input);
    assert_nested(tree);
    assert_eq!(tree.children(0), vec![1]);
}

#[test]
fn tree_round_trip_on_malformed_inputs() {
    let inputs = [
        "}}}{",
        "{ a b c }",
        "{ \"unterminated }",
        "{ a \u{0} } { b c } §",
        "{{{ } /* x */ {",
        "x y z",
        "\n\n",
    ];
    for input in inputs {
        let parse = parse(input);
        let tree = parse.tree();
        assert_eq!(leaf_text(tree), input);
        assert_nested(tree);
        assert!(parse.errors().len() <= 10 * input.len() + 6);
        assert!(parse.errors().len() <= interior_errors(tree) + 2);
    }
}

#[test]
fn error_node_bound_and_its_exception() {
    let parse1 = parse("{ foo }");
    assert!(parse1.errors().len() <= interior_errors(parse1.tree()) + 1);
    let parse2 = parse("} } }");
    assert_eq!(parse2.errors().len(), 3);
    assert_eq!(interior_errors(parse2.tree()), 3);
    // A value missing at the very end adds a second diagnostic without a node.
    let parse3 = parse("{ foo");
    assert_eq!(parse3.errors().len(), 2);
    assert_eq!(interior_errors(parse3.tree()), 0);
}

#[test]
fn event_log_is_balanced() {
    let input = "{ a b } { c } junk { d";
    let tokens = tokenize(input);
    let (events, errors) = Parser::new(&tokens[..]).parse();
    let mut depth: i64 = 0;
    for (i, e) in events.iter().enumerate() {
        match e {
            Event::Enter { .. } => depth += 1,
            Event::Exit => depth -= 1,
            _ => {}
        }
        if i + 1 < events.len() {
            assert!(depth >= 1);
        }
    }
    assert_eq!(depth, 0);
    assert!(events.len() <= 10 * tokens.len() + 4);
    let error_nodes = events
        .iter()
        .filter(|e| matches!(e, Event::Enter { kind: SyntaxKind::Error, .. }))
        .count();
    assert!(errors.len() <= error_nodes + 2);
}

#[test]
fn rules_report_what_they_parsed() {
    let tokens = tokenize("{ k v }");
    let mut parser = Parser::new(&tokens[..]);
    let done = arenas(&mut parser);
    assert!(done.is_some());
    assert!(parser.at_end());
    assert!(parser.errors().is_empty());
    assert_eq!(
        parser.events()[0],
        Event::Enter { kind: SyntaxKind::Arenas, preceded_by: None }
    );
}

#[test]
fn expectations_and_recovery() {
    let tokens = tokenize("a } ");
    let mut parser = Parser::new(&tokens[..]);
    assert!(parser.at(TokenKind::String));
    assert!(!parser.eat(TokenKind::LeftBrace));
    assert!(parser.expect(TokenKind::String));
    assert!(!parser.expect(TokenKind::LeftBrace));
    assert_eq!(parser.errors(), &vec!["expect LeftBrace".to_string()]);
    assert!(parser.at_end());
    assert!(!parser.expect_any(quake3_file_parsers::lexer::TokenSet::strings()));
    assert_eq!(parser.errors().len(), 2);
    assert_eq!(parser.errors()[1], "expect_any {String, QuotedString}");
    let events = parser.events();
    assert_eq!(events.len(), 4);
    assert!(matches!(events[0], Event::Token { kind: SyntaxKind::String, .. }));
    assert_eq!(events[1], Event::Enter { kind: SyntaxKind::Error, preceded_by: None });
    assert!(matches!(events[2], Event::Token { kind: SyntaxKind::RightBrace, .. }));
    assert_eq!(events[3], Event::Exit);
}

#[test]
fn precede_wraps_a_completed_node() {
    let tokens = tokenize("a");
    let mut parser = Parser::new(&tokens[..]);
    let root = parser.start();
    let inner = parser.start();
    parser.bump();
    let done = inner.complete(&mut parser, SyntaxKind::Key);
    let outer = done.precede(&mut parser);
    outer.complete(&mut parser, SyntaxKind::KeyValuePair);
    root.complete(&mut parser, SyntaxKind::Root);
    let events = parser.events().clone();
    assert_eq!(events[1], Event::Enter { kind: SyntaxKind::Key, preceded_by: Some(3) });
    assert_eq!(events[4], Event::Enter { kind: SyntaxKind::KeyValuePair, preceded_by: None });
    let tree = Sink::new("a", tokens.clone(), events).finish();
    assert_eq!(
        kinds(&tree),
        vec![SyntaxKind::Root, SyntaxKind::KeyValuePair, SyntaxKind::Key, SyntaxKind::String]
    );
    assert_nested(&tree);
}

#[test]
fn markers_and_events() {
    let tokens = tokenize("x");
    let mut parser = Parser::new(&tokens[..]);
    let m = parser.start();
    m.abandon(&mut parser);
    assert!(parser.events()[0].is_abandoned());
    assert_eq!(Event::default(), Event::Abandoned);
    let _ = Marker::new(0);
    let _ = CompletedMarker::new(0);
    parser.push_event(Event::Exit);
    parser.push_error("custom".to_string());
    assert_eq!(parser.events().len(), 2);
    assert_eq!(parser.errors(), &vec!["custom".to_string()]);
}

#[test]
fn source_skips_trivia() {
    let tokens = tokenize("  a /* c */ b");
    let mut source = Source::new(&tokens[..]);
    assert_eq!(source.try_peek_kind(), Some(TokenKind::String));
    assert_eq!(source.try_peek_nth(1).map(|t| t.text()), Some("b"));
    assert_eq!(source.try_peek_nth(2), None);
    assert_eq!(source.next().map(|t| t.text()), Some("a"));
    assert_eq!(source.next().map(|t| t.text()), Some("b"));
    assert_eq!(source.next(), None);
    assert_eq!(source.try_peek_kind(), None);
    assert_eq!(source.try_peek_nth(0), None);
}

#[test]
fn syntax_kinds() {
    assert_eq!(SyntaxKind::from(TokenKind::QuotedString), SyntaxKind::QuotedString);
    assert_eq!(SyntaxKind::Newline.static_text(), Some("\n"));
    assert_eq!(SyntaxKind::LeftBrace.static_text(), Some("{"));
    assert_eq!(SyntaxKind::Key.static_text(), None);
    let span = RawSpan::new(2, 5);
    assert_eq!((span.start(), span.end()), (2, 5));
    let range: std::ops::Range<usize> = span.into();
    assert_eq!(range, 2..5);
}

#[test]
fn undo_reopens_the_last_completed_node() {
    let tokens = tokenize("a");
    let mut parser = Parser::new(&tokens[..]);
    let root = parser.start();
    let inner = parser.start();
    parser.bump();
    let done = inner.complete(&mut parser, SyntaxKind::Key);
    assert_eq!(parser.events().len(), 4);
    let again = done.undo(&mut parser);
    assert_eq!(parser.events().len(), 3);
    assert!(parser.events()[1].is_abandoned());
    again.complete(&mut parser, SyntaxKind::Value);
    root.complete(&mut parser, SyntaxKind::Root);
    let events = parser.events().clone();
    assert_eq!(events[1], Event::Enter { kind: SyntaxKind::Value, preceded_by: None });
    assert_eq!(events.len(), 5);
}
