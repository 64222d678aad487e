use vstd::prelude::*;

use vstd::string::StringSliceAdditionalSpecFns;

use crate::event::lemma_error_nodes_bound;
use crate::lexer::{lex, tokenize, Token, TokenKind};
use crate::parse::parse_log;
use crate::sink::{lemma_meaningful_tokens, lemma_no_leading_trivia, no_leading_trivia, replay, replay_tree};
use crate::parser::Parser;
use crate::sink::Sink;
use crate::tree::SyntaxTree;

verus! {

/// Kinds of the tree's leaves and interior nodes.
#[derive(Debug, Clone, Copy, PartialEq, Eq, Structural, Hash)]
pub enum SyntaxKind {
    Whitespace,
    Newline,
    LineComment,
    BlockComment,
    String,
    QuotedString,
    LeftBrace,
    RightBrace,
    Error,
    Root,
    Arenas,
    Arena,
    KeyValuePair,
    Key,
    Value,
}

/// The leaf kind that stands for a token kind.
pub open spec fn syntax_of(kind: TokenKind) -> SyntaxKind {
    match kind {
        TokenKind::Whitespace => SyntaxKind::Whitespace,
        TokenKind::Newline => SyntaxKind::Newline,
        TokenKind::LineComment => SyntaxKind::LineComment,
        TokenKind::BlockComment => SyntaxKind::BlockComment,
        TokenKind::String => SyntaxKind::String,
        TokenKind::QuotedString => SyntaxKind::QuotedString,
        TokenKind::LeftBrace => SyntaxKind::LeftBrace,
        TokenKind::RightBrace => SyntaxKind::RightBrace,
        TokenKind::Error => SyntaxKind::Error,
    }
}

impl SyntaxKind {
    /// The fixed text of kinds that always spell the same, if any.
    pub fn static_text(self) -> (r: Option<&'static str>)
        ensures
            r is Some <==> (self == SyntaxKind::Newline || self == SyntaxKind::LeftBrace
                || self == SyntaxKind::RightBrace),
            self == SyntaxKind::Newline ==> r == Some("\n"),
            self == SyntaxKind::LeftBrace ==> r == Some("{"),
            self == SyntaxKind::RightBrace ==> r == Some("}"),
    {
        match self {
            SyntaxKind::Newline => Some("\n"),
            SyntaxKind::LeftBrace => Some("{"),
            SyntaxKind::RightBrace => Some("}"),
            _ => None,
        }
    }
}

impl From<TokenKind> for SyntaxKind {
    fn from(kind: TokenKind) -> (r: Self)
        ensures
            r == syntax_of(kind),
    {
        match kind {
            TokenKind::Whitespace => SyntaxKind::Whitespace,
            TokenKind::Newline => SyntaxKind::Newline,
            TokenKind::LineComment => SyntaxKind::LineComment,
            TokenKind::BlockComment => SyntaxKind::BlockComment,
            TokenKind::String => SyntaxKind::String,
            TokenKind::QuotedString => SyntaxKind::QuotedString,
            TokenKind::LeftBrace => SyntaxKind::LeftBrace,
            TokenKind::RightBrace => SyntaxKind::RightBrace,
            TokenKind::Error => SyntaxKind::Error,
        }
    }
}

impl vstd::std_specs::convert::FromSpecImpl<TokenKind> for SyntaxKind {
    open spec fn obeys_from_spec() -> bool {
        true
    }

    open spec fn from_spec(kind: TokenKind) -> SyntaxKind {
        syntax_of(kind)
    }
}

/// A parsed text: its syntax tree and its diagnostics, in order.
#[derive(Debug)]
pub struct ParseResult<'src> {
    tree: SyntaxTree<'src>,
    errors: Vec<String>,
}

impl<'src> ParseResult<'src> {
    pub closed spec fn spec_tree(&self) -> SyntaxTree<'src> {
        self.tree
    }

    pub closed spec fn spec_errors(&self) -> Seq<Seq<char>> {
        self.errors@.map_values(|e: String| e@)
    }

    pub fn tree(&self) -> (r: &SyntaxTree<'src>)
        ensures
            *r == self.spec_tree(),
    {
        &self.tree
    }

    pub fn errors(&self) -> (r: &Vec<String>)
        ensures
            r@.map_values(|e: String| e@) == self.spec_errors(),
    {
        &self.errors
    }
}

/// Lexes, parses and replays `text`. The tree's leaves spell `text`
/// exactly, whatever it holds, and the diagnostics are at most linear in
/// its length. Spans are 32-bit offsets, and the log holds at most ten
/// events per token, which bounds the length of `text`.
pub fn parse<'src>(text: &'src str) -> (r: ParseResult<'src>)
    requires
        text.spec_bytes().len() <= u32::MAX,
        11 * text.spec_bytes().len() + 8 <= usize::MAX,
    ensures
        r.spec_tree().wf(),
        r.spec_tree().spec_text() == text.spec_bytes(),
        r.spec_errors().len() <= 10 * text.spec_bytes().len() + 6,
        r.spec_errors().len() <= text.spec_bytes().len(),
        exists|toks: Seq<Token<'src>>|
            {
                &&& toks.map_values(|t: Token<'src>| t@) == lex(text.spec_bytes())
                &&& forall|k: int|
                    0 <= k < toks.len() ==> (#[trigger] toks[k]).spec_text().spec_bytes()
                        == text.spec_bytes().subrange(toks[k]@.1, toks[k]@.2)
                &&& r.spec_tree().spec_nodes() == replay_tree(toks, parse_log(toks, 0).0)
                &&& r.spec_errors() == parse_log(toks, 0).1
                &&& no_leading_trivia(replay(toks, parse_log(toks, 0).0))
            },
{
    let tokens = tokenize(text);
    let parser = Parser::new(tokens.as_slice());
    let (events, errors) = parser.parse();
    proof {
        lemma_error_nodes_bound(events@);
        lemma_meaningful_tokens(tokens@, events@);
        lemma_no_leading_trivia(tokens@, events@);
    }
    let sink = Sink::new(text, tokens, events);
    let tree = sink.finish();
    let r = ParseResult { tree, errors };
    assert(r.spec_errors().len() == errors@.len());
    assert(r.spec_errors() == errors@.map_values(|e: String| e@));
    r
}

} // verus!
