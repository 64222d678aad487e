use vstd::prelude::*;
use vstd::string::StringExecFns;

use crate::event::{
    balanced, depth, error_nodes, has_link, lemma_complete, lemma_depth_push,
    lemma_error_nodes_push, lemma_no_links_push, lemma_no_links_update, no_links, lemma_depth_update, lemma_push_neutral,
    lemma_push_token, lemma_token_events_update, token_events, Event,
};
use crate::lexer::{kind_name, Token, TokenKind, TokenSet};
use crate::sink::sink_ready;
use crate::source::{lemma_skip_trivia, lemma_skip_trivia_end, meaningful, Source};
use crate::syntax::{syntax_of, SyntaxKind};

verus! {

/// The diagnostic for a missing token of one kind.
pub open spec fn expect_message(kind: TokenKind) -> Seq<char> {
    "expect "@ + kind_name(kind)
}

/// The diagnostic for a missing token of any kind of a set.
pub open spec fn expect_any_message(set: TokenSet) -> Seq<char> {
    "expect_any {"@ + set.names() + "}"@
}

fn expect_text(kind: TokenKind) -> (r: String)
    ensures
        r@ == expect_message(kind),
{
    let mut text = String::from_str("expect ");
    text.append(kind.name());
    text
}

fn expect_any_text(set: TokenSet) -> (r: String)
    ensures
        r@ == expect_any_message(set),
{
    let mut names = String::new();
    let mut i: u16 = 0;
    while i < crate::lexer::KIND_COUNT
        invariant
            i <= crate::lexer::KIND_COUNT,
            names@ == set.names_upto(i as int),
        decreases crate::lexer::KIND_COUNT - i,
    {
        let kind = TokenKind::at_index(i);
        if set.contains(kind) {
            if !names.as_str().is_empty() {
                names.append(", ");
            }
            names.append(kind.name());
        }
        i += 1;
    }
    let mut text = String::from_str("expect_any {");
    text.append(names.as_str());
    text.append("}");
    text
}

/// Recursive-descent driver: reads meaningful tokens through a [`Source`]
/// and records the tree's shape as an event log, with a diagnostic for
/// every mismatch.
#[derive(Debug)]
pub struct Parser<'src, 'token> {
    source: Source<'src, 'token>,
    events: Vec<Event>,
    errors: Vec<String>,
}

impl<'src, 'token> Parser<'src, 'token> {
    pub closed spec fn spec_source(&self) -> Source<'src, 'token> {
        self.source
    }

    pub closed spec fn spec_events(&self) -> Seq<Event> {
        self.events@
    }

    pub closed spec fn spec_errors(&self) -> Seq<Seq<char>> {
        self.errors@.map_values(|e: String| e@)
    }

    pub open spec fn spec_tokens(&self) -> Seq<Token<'src>> {
        self.spec_source().spec_tokens()
    }

    pub open spec fn spec_cursor(&self) -> int {
        self.spec_source().spec_cursor()
    }

    /// Position of the next meaningful token, or the number of tokens.
    pub open spec fn spec_next(&self) -> int {
        self.spec_source().spec_next()
    }

    pub open spec fn spec_at_end(&self) -> bool {
        self.spec_source().spec_at_end()
    }

    /// The next meaningful token, where there is one.
    pub open spec fn next_token(&self) -> Token<'src> {
        self.spec_tokens()[self.spec_next()]
    }

    /// The token event of the next meaningful token.
    pub open spec fn next_event(&self) -> Event {
        Event::Token {
            kind: syntax_of(self.next_token().spec_kind()),
            span: self.next_token().spec_span(),
        }
    }

    /// Diagnostics that no `Error` node accounts for.
    pub open spec fn spec_slack(&self) -> int {
        self.spec_errors().len() - error_nodes(self.spec_events())
    }

    /// The log is balanced and its token events are exactly the meaningful
    /// tokens consumed so far.
    pub open spec fn wf(&self) -> bool {
        &&& self.spec_source().wf()
        &&& balanced(self.spec_events())
        &&& token_events(self.spec_events()) == meaningful(
            self.spec_tokens().take(self.spec_cursor()),
        )
    }

    /// `self` came from `prev` by reading on: same tokens, cursor not moved
    /// back, earlier events and diagnostics kept.
    pub open spec fn follows(&self, prev: Parser<'src, 'token>) -> bool {
        &&& self.spec_tokens() == prev.spec_tokens()
        &&& prev.spec_cursor() <= self.spec_cursor()
        &&& prev.spec_events().len() <= self.spec_events().len()
        &&& self.spec_events().subrange(0, prev.spec_events().len() as int)
            == prev.spec_events()
        &&& prev.spec_errors().len() <= self.spec_errors().len()
        &&& self.spec_errors().subrange(0, prev.spec_errors().len() as int)
            == prev.spec_errors()
    }

    pub fn new(tokens: &'token [Token<'src>]) -> (r: Self)
        ensures
            r.wf(),
            r.spec_tokens() == tokens@,
            r.spec_cursor() == 0,
            r.spec_events().len() == 0,
            r.spec_errors().len() == 0,
    {
        let r = Self { source: Source::new(tokens), events: Vec::new(), errors: Vec::new() };
        proof {
            assert(tokens@.take(0) =~= seq![]);
            assert(depth(r.events@, 0) == 0);
        }
        r
    }

    /// Reserves the next slot of the log for a node not yet decided.
    pub fn start(&mut self) -> (r: Marker)
        requires
            old(self).wf(),
        ensures
            final(self).wf(),
            final(self).spec_source() == old(self).spec_source(),
            final(self).spec_errors() == old(self).spec_errors(),
            final(self).spec_events() == old(self).spec_events().push(Event::Abandoned),
            r.spec_index() == old(self).spec_events().len(),
            no_links(old(self).spec_events()) ==> no_links(final(self).spec_events()),
    {
        let index = self.events.len();
        proof {
            lemma_push_neutral(self.events@, Event::Abandoned);
            if no_links(self.events@) {
                lemma_no_links_push(self.events@, Event::Abandoned);
            }
        }
        self.push_event(Event::Abandoned);
        Marker::new(index)
    }

    /// Whether the next meaningful token has the given kind.
    pub fn at(&mut self, kind: TokenKind) -> (r: bool)
        requires
            old(self).wf(),
        ensures
            final(self).wf(),
            final(self).spec_tokens() == old(self).spec_tokens(),
            final(self).spec_cursor() == old(self).spec_next(),
            final(self).spec_next() == old(self).spec_next(),
            final(self).spec_events() == old(self).spec_events(),
            final(self).spec_errors() == old(self).spec_errors(),
            r == (!old(self).spec_at_end() && old(self).next_token().spec_kind() == kind),
    {
        proof {
            lemma_skip_trivia(self.source.spec_tokens(), self.source.spec_cursor());
        }
        match self.source.try_peek_kind() {
            Some(peek) => peek == kind,
            None => false,
        }
    }

    /// Consumes the next meaningful token, if any, as a token event.
    pub fn bump(&mut self)
        requires
            old(self).wf(),
        ensures
            final(self).wf(),
            final(self).spec_tokens() == old(self).spec_tokens(),
            final(self).spec_errors() == old(self).spec_errors(),
            old(self).spec_at_end() ==> final(self).spec_cursor() == old(self).spec_next()
                && final(self).spec_events() == old(self).spec_events(),
            !old(self).spec_at_end() ==> final(self).spec_cursor() == old(self).spec_next() + 1
                && final(self).spec_events() == old(self).spec_events().push(
                Event::Token {
                    kind: syntax_of(old(self).next_token().spec_kind()),
                    span: old(self).next_token().spec_span(),
                },
            ),
    {
        let ghost toks = self.source.spec_tokens();
        let ghost next = self.source.spec_next();
        proof {
            lemma_skip_trivia(toks, self.source.spec_cursor());
        }
        if let Some(token) = self.source.next() {
            let kind = SyntaxKind::from(token.kind());
            let span = token.span();
            proof {
                lemma_push_token(self.events@, kind, span);
                assert(toks.take(next + 1).drop_last() =~= toks.take(next));
            }
            self.push_event(Event::Token { kind, span });
        }
    }

    /// Consumes the next meaningful token if it has the given kind.
    pub fn eat(&mut self, kind: TokenKind) -> (r: bool)
        requires
            old(self).wf(),
        ensures
            final(self).wf(),
            final(self).spec_tokens() == old(self).spec_tokens(),
            final(self).spec_errors() == old(self).spec_errors(),
            r == (!old(self).spec_at_end() && old(self).next_token().spec_kind() == kind),
            !r ==> final(self).spec_cursor() == old(self).spec_next() && final(self).spec_events()
                == old(self).spec_events(),
            r ==> final(self).spec_cursor() == old(self).spec_next() + 1
                && final(self).spec_events() == old(self).spec_events().push(
                Event::Token {
                    kind: syntax_of(old(self).next_token().spec_kind()),
                    span: old(self).next_token().spec_span(),
                },
            ),
    {
        if !self.at(kind) {
            return false;
        }
        self.bump();
        true
    }

    /// Consumes a token of the given kind, or records a diagnostic.
    pub fn expect(&mut self, kind: TokenKind) -> (r: bool)
        requires
            old(self).wf(),
        ensures
            final(self).wf(),
            final(self).follows(*old(self)),
            r == (!old(self).spec_at_end() && old(self).next_token().spec_kind() == kind),
            r ==> final(self).spec_errors() == old(self).spec_errors(),
            !r ==> final(self).spec_errors() == old(self).spec_errors().push(expect_message(kind)),
            Self::recovered(*old(self), *final(self), r),
            no_links(old(self).spec_events()) ==> no_links(final(self).spec_events()),
    {
        proof {
            lemma_skip_trivia(self.source.spec_tokens(), self.source.spec_cursor());
        }
        if self.eat(kind) {
            proof {
                self.lemma_pushed_one(*old(self));
            }
            return true;
        }
        let error = expect_text(kind);
        self.error(error);
        false
    }

    /// Consumes a token of any kind of the set, or records a diagnostic.
    pub fn expect_any(&mut self, set: TokenSet) -> (r: bool)
        requires
            old(self).wf(),
        ensures
            final(self).wf(),
            final(self).follows(*old(self)),
            r == (!old(self).spec_at_end() && set.has(old(self).next_token().spec_kind())),
            r ==> final(self).spec_errors() == old(self).spec_errors(),
            !r ==> final(self).spec_errors() == old(self).spec_errors().push(
                expect_any_message(set),
            ),
            Self::recovered(*old(self), *final(self), r),
            no_links(old(self).spec_events()) ==> no_links(final(self).spec_events()),
    {
        proof {
            lemma_skip_trivia(self.source.spec_tokens(), self.source.spec_cursor());
        }
        if let Some(peek) = self.source.try_peek_kind() {
            if set.contains(peek) {
                let r = self.eat(peek);
                proof {
                    self.lemma_pushed_one(*old(self));
                }
                return r;
            }
        }
        let error = expect_any_text(set);
        self.error(error);
        false
    }

    /// What `expect` leaves behind: on success one token event; on failure an
    /// `Error` node around the next meaningful token or, at the end, nothing.
    pub open spec fn recovered(prev: Parser<'src, 'token>, next: Parser<'src, 'token>, ok: bool) -> bool {
        let e = prev.spec_events();
        let f = next.spec_events();
        &&& prev.spec_at_end() ==> next.spec_cursor() == prev.spec_next() && f == e
        &&& !prev.spec_at_end() ==> next.spec_cursor() == prev.spec_next() + 1
        &&& ok ==> f == e.push(prev.next_event())
        &&& !ok && !prev.spec_at_end() ==> f == e.push(
            Event::Enter { kind: SyntaxKind::Error, preceded_by: None },
        ).push(prev.next_event()).push(Event::Exit)
        &&& error_nodes(f) == error_nodes(e) + if !ok && !prev.spec_at_end() {
            1int
        } else {
            0int
        }
    }

    pub proof fn lemma_follows_refl(a: Self)
        ensures
            a.follows(a),
    {
        assert(a.spec_events().subrange(0, a.spec_events().len() as int) =~= a.spec_events());
        assert(a.spec_errors().subrange(0, a.spec_errors().len() as int) =~= a.spec_errors());
    }

    /// Reading on is transitive.
    pub proof fn lemma_follows_trans(a: Self, b: Self, c: Self)
        requires
            b.follows(a),
            c.follows(b),
        ensures
            c.follows(a),
    {
        assert(c.spec_events().subrange(0, a.spec_events().len() as int) =~= c.spec_events().subrange(
            0,
            b.spec_events().len() as int,
        ).subrange(0, a.spec_events().len() as int));
        assert(c.spec_errors().subrange(0, a.spec_errors().len() as int) =~= c.spec_errors().subrange(
            0,
            b.spec_errors().len() as int,
        ).subrange(0, a.spec_errors().len() as int));
    }

    /// Once only trivia is left, it stays so.
    pub proof fn lemma_at_end_stays(a: Self, b: Self)
        requires
            a.wf(),
            b.wf(),
            b.follows(a),
            a.spec_at_end(),
        ensures
            b.spec_at_end(),
    {
        lemma_skip_trivia_end(a.spec_tokens(), a.spec_cursor(), b.spec_cursor());
    }

    /// The next meaningful position is at or after the cursor.
    pub proof fn lemma_next(&self)
        requires
            self.wf(),
        ensures
            self.spec_cursor() <= self.spec_next() <= self.spec_tokens().len(),
    {
        lemma_skip_trivia(self.spec_tokens(), self.spec_cursor());
    }

    /// Runs the format's grammar under a `Root` node and hands back the
    /// event log and the diagnostics.
    pub fn parse(self) -> (r: (Vec<Event>, Vec<String>))
        requires
            self.wf(),
            self.spec_events().len() == 0,
            self.spec_errors().len() == 0,
        ensures
            sink_ready(self.spec_tokens(), r.0@),
            balanced(r.0@),
            r.0@.len() <= 5 * self.spec_tokens().len() + 4,
            r.1@.len() <= self.spec_tokens().len(),
            no_links(r.0@),
            r.0@[1] == (Event::Enter { kind: SyntaxKind::Arenas, preceded_by: None }),
            forall|p: int| 1 < p < r.0@.len() - 1 ==> #[trigger] depth(r.0@, p) >= 2,
            (r.0@, r.1@.map_values(|e: String| e@)) == crate::parse::parse_log(
                self.spec_tokens(),
                self.spec_cursor(),
            ),
            r.1@.len() <= error_nodes(r.0@) + 2,
            r.1@.len() <= error_nodes(r.0@) + 1 || crate::parse::ends_with_missing_value(
                r.1@.map_values(|e: String| e@),
            ),
    {
        let mut parser = self;
        let root = parser.start();
        let ghost started = parser;
        proof {
            lemma_error_nodes_push(self.spec_events(), Event::Abandoned);
            assert(self.spec_events() =~= Seq::<Event>::empty());
            assert(error_nodes(Seq::<Event>::empty()) == 0);
            lemma_skip_trivia(self.spec_tokens(), self.spec_cursor());
            assert(no_links(self.spec_events()));
            lemma_no_links_push(self.spec_events(), Event::Abandoned);
        }
        crate::parse::arenas(&mut parser);
        let ghost grown = parser;
        proof {
            assert(grown.spec_events()[0] == grown.spec_events().subrange(
                0,
                started.spec_events().len() as int,
            )[0]);
            lemma_skip_trivia(grown.spec_tokens(), grown.spec_cursor());
            lemma_complete(grown.spec_events(), 0, SyntaxKind::Root);
            assert(grown.spec_tokens().take(grown.spec_tokens().len() as int)
                =~= grown.spec_tokens());
            grown.source.lemma_cursor_bound();
        }
        root.complete(&mut parser, SyntaxKind::Root);
        proof {
            let log = parser.spec_events();
            assert forall|p: int| 1 <= p < log.len() implies #[trigger] depth(log, p) >= 1 by {
                assert(depth(log, p) == depth(grown.spec_events(), p) + 1);
            }
            assert forall|p: int| 1 < p < log.len() - 1 implies #[trigger] depth(log, p) >= 2 by {
                assert(depth(log, p) == depth(grown.spec_events(), p) + 1);
            }
            let root_enter = Event::Enter { kind: SyntaxKind::Root, preceded_by: None };
            let ar = crate::parse::arenas_rule(self.spec_tokens(), self.spec_cursor());
            assert(grown.spec_events() =~= seq![Event::Abandoned] + ar.0);
            assert(log =~= seq![root_enter] + ar.0 + seq![Event::Exit]);
            assert(parser.spec_errors() =~= ar.1);
            lemma_no_links_update(grown.spec_events(), 0, root_enter);
            lemma_no_links_push(grown.spec_events().update(0, root_enter), Event::Exit);
            assert(parser.errors@.len() == parser.spec_errors().len());
        }
        (parser.events, parser.errors)
    }

    proof fn lemma_pushed_one(&self, prev: Parser<'src, 'token>)
        requires
            self.spec_tokens() == prev.spec_tokens(),
            prev.spec_cursor() <= self.spec_cursor(),
            self.spec_errors() == prev.spec_errors(),
            self.spec_events() == prev.spec_events().push(self.spec_events().last()),
            self.spec_events().last() is Token,
        ensures
            self.follows(prev),
            error_nodes(self.spec_events()) == error_nodes(prev.spec_events()),
            no_links(prev.spec_events()) ==> no_links(self.spec_events()),
    {
        lemma_error_nodes_push(prev.spec_events(), self.spec_events().last());
        if no_links(prev.spec_events()) {
            lemma_no_links_push(prev.spec_events(), self.spec_events().last());
        }
        assert(self.spec_events().subrange(0, prev.spec_events().len() as int)
            =~= prev.spec_events());
        assert(self.spec_errors().subrange(0, prev.spec_errors().len() as int)
            =~= prev.spec_errors());
    }

    /// Whether no meaningful token is left.
    pub fn at_end(&mut self) -> (r: bool)
        requires
            old(self).wf(),
        ensures
            final(self).wf(),
            final(self).spec_tokens() == old(self).spec_tokens(),
            final(self).spec_cursor() == old(self).spec_next(),
            final(self).spec_next() == old(self).spec_next(),
            final(self).spec_events() == old(self).spec_events(),
            final(self).spec_errors() == old(self).spec_errors(),
            r == old(self).spec_at_end(),
    {
        proof {
            lemma_skip_trivia(self.source.spec_tokens(), self.source.spec_cursor());
        }
        self.source.try_peek_kind().is_none()
    }

    /// Records a diagnostic; before a meaningful token, that token is
    /// consumed into an `Error` node so that parsing moves on.
    pub fn error(&mut self, error: String)
        requires
            old(self).wf(),
        ensures
            final(self).wf(),
            final(self).follows(*old(self)),
            final(self).spec_errors() == old(self).spec_errors().push(error@),
            Self::recovered(*old(self), *final(self), false),
            no_links(old(self).spec_events()) ==> no_links(final(self).spec_events()),
    {
        let ghost e = self.events@;
        proof {
            lemma_skip_trivia(self.source.spec_tokens(), self.source.spec_cursor());
        }
        if !self.at_end() {
            let marker = self.start();
            self.bump();
            let ghost mid = self.events@;
            proof {
                assert(mid[e.len() as int] is Abandoned);
            }
            proof {
                    lemma_error_nodes_push(e, Event::Abandoned);
                lemma_error_nodes_push(e.push(Event::Abandoned), mid.last());
                assert(mid =~= e.push(Event::Abandoned).push(mid.last()));
                lemma_complete(mid, e.len() as int, SyntaxKind::Error);
            }
            marker.complete(self, SyntaxKind::Error);
            proof {
                assert(self.events@ =~= mid.update(
                    e.len() as int,
                    Event::Enter { kind: SyntaxKind::Error, preceded_by: None },
                ).push(Event::Exit));
                assert(self.events@.subrange(0, e.len() as int) =~= e);
                assert(self.events@ =~= e.push(
                    Event::Enter { kind: SyntaxKind::Error, preceded_by: None },
                ).push(old(self).next_event()).push(Event::Exit));
                if no_links(e) {
                    let e1 = e.push(Event::Enter { kind: SyntaxKind::Error, preceded_by: None });
                    lemma_no_links_push(e, Event::Enter { kind: SyntaxKind::Error, preceded_by: None });
                    lemma_no_links_push(e1, old(self).next_event());
                    lemma_no_links_push(e1.push(old(self).next_event()), Event::Exit);
                }
            }
        } else {
            assert(self.events@.subrange(0, e.len() as int) =~= e);
        }
        let ghost before = self.spec_errors();
        self.push_error(error);
        proof {
            assert(self.spec_errors().subrange(0, before.len() as int) =~= before);
        }
    }

    /// The events recorded so far.
    pub fn events(&self) -> (r: &Vec<Event>)
        ensures
            r@ == self.spec_events(),
    {
        &self.events
    }

    /// The diagnostics recorded so far.
    pub fn errors(&self) -> (r: &Vec<String>)
        ensures
            r@.map_values(|e: String| e@) == self.spec_errors(),
    {
        &self.errors
    }

    pub fn push_error(&mut self, error: String)
        ensures
            final(self).spec_source() == old(self).spec_source(),
            final(self).spec_events() == old(self).spec_events(),
            final(self).spec_errors() == old(self).spec_errors().push(error@),
    {
        self.errors.push(error);
        assert(self.errors@.map_values(|x: String| x@) =~= old(self).errors@.map_values(
            |x: String| x@,
        ).push(error@));
    }

    pub fn push_event(&mut self, event: Event)
        ensures
            final(self).spec_source() == old(self).spec_source(),
            final(self).spec_errors() == old(self).spec_errors(),
            final(self).spec_events() == old(self).spec_events().push(event),
    {
        self.events.push(event);
    }
}

/// Handle to a reserved slot of the log.
#[derive(Debug)]
pub struct Marker {
    index: usize,
}

impl Marker {
    pub closed spec fn spec_index(&self) -> int {
        self.index as int
    }

    /// Slot indices are never negative.
    pub proof fn lemma_index_nonneg(&self)
        ensures
            self.spec_index() >= 0,
    {
    }

    pub fn new(index: usize) -> (r: Self)
        ensures
            r.spec_index() == index,
    {
        Self { index }
    }

    /// Turns the slot into an `Enter` of `kind` and closes the node here.
    pub fn complete(self, parser: &mut Parser, kind: SyntaxKind) -> (r: CompletedMarker)
        requires
            old(parser).wf(),
            self.spec_index() < old(parser).spec_events().len(),
            old(parser).spec_events()[self.spec_index()] is Abandoned,
        ensures
            final(parser).wf(),
            final(parser).spec_source() == old(parser).spec_source(),
            final(parser).spec_errors() == old(parser).spec_errors(),
            final(parser).spec_events() == old(parser).spec_events().update(
                self.spec_index(),
                Event::Enter { kind, preceded_by: None },
            ).push(Event::Exit),
            r.spec_index() == self.spec_index(),
            no_links(old(parser).spec_events()) ==> no_links(final(parser).spec_events()),
    {
        proof {
            lemma_complete(parser.events@, self.index as int, kind);
            if no_links(parser.events@) {
                let e = Event::Enter { kind, preceded_by: None };
                lemma_no_links_update(parser.events@, self.index as int, e);
                lemma_no_links_push(parser.events@.update(self.index as int, e), Event::Exit);
            }
        }
        parser.events.set(self.index, Event::Enter { kind, preceded_by: None });
        parser.events.push(Event::Exit);
        CompletedMarker { index: self.index }
    }

    /// Leaves the slot abandoned: replay skips it, and whatever was recorded
    /// after it belongs to the enclosing node.
    pub fn abandon(self, parser: &mut Parser)
        requires
            old(parser).wf(),
            self.spec_index() < old(parser).spec_events().len(),
            old(parser).spec_events()[self.spec_index()] is Abandoned,
        ensures
            final(parser).spec_source() == old(parser).spec_source(),
            final(parser).spec_errors() == old(parser).spec_errors(),
            final(parser).spec_events() == old(parser).spec_events(),
    {
        parser.events.set(self.index, Event::Abandoned);
        assert(parser.events@ =~= old(parser).events@);
    }
}

/// Handle to the `Enter` slot of a completed node.
#[derive(Debug)]
pub struct CompletedMarker {
    index: usize,
}

impl CompletedMarker {
    pub closed spec fn spec_index(&self) -> int {
        self.index as int
    }

    /// Slot indices are never negative.
    pub proof fn lemma_index_nonneg(&self)
        ensures
            self.spec_index() >= 0,
    {
    }

    pub fn new(index: usize) -> (r: Self)
        ensures
            r.spec_index() == index,
    {
        Self { index }
    }

    /// Reserves a new slot at the end of the log for a node to be opened
    /// around this one: the `Enter` here is linked forward to it.
    pub fn precede(self, parser: &mut Parser) -> (r: Marker)
        requires
            old(parser).wf(),
            self.spec_index() < old(parser).spec_events().len(),
        ensures
            final(parser).wf(),
            final(parser).spec_source() == old(parser).spec_source(),
            final(parser).spec_errors() == old(parser).spec_errors(),
            r.spec_index() == old(parser).spec_events().len(),
            final(parser).spec_events() == match old(parser).spec_events()[self.spec_index()] {
                Event::Enter { kind, .. } => old(parser).spec_events().update(
                    self.spec_index(),
                    Event::Enter {
                        kind,
                        preceded_by: Some((old(parser).spec_events().len() - self.spec_index()) as usize),
                    },
                ),
                _ => old(parser).spec_events(),
            }.push(Event::Abandoned),
    {
        let marker = parser.start();
        let ghost pushed = parser.events@;
        if let Event::Enter { kind, .. } = parser.events[self.index] {
            let link = Event::Enter { kind, preceded_by: Some(marker.index - self.index) };
            proof {
                lemma_depth_update(pushed, self.index as int, link);
                lemma_token_events_update(pushed, self.index as int, link);
            }
            parser.events.set(self.index, link);
            proof {
                assert(parser.events@ =~= old(parser).events@.update(self.index as int, link).push(
                    Event::Abandoned,
                ));
            }
        }
        marker
    }

    /// Reverts the most recent completion, that of this node: its slot is
    /// reserved again and the `Exit` that completion appended is dropped.
    /// The events recorded in between stay; completing or abandoning the
    /// returned marker decides their parent anew.
    pub fn undo(self, parser: &mut Parser) -> (r: Marker)
        requires
            old(parser).wf(),
            self.spec_index() < old(parser).spec_events().len(),
            old(parser).spec_events()[self.spec_index()] is Enter,
            old(parser).spec_events().last() is Exit,
            forall|p: int|
                self.spec_index() < p < old(parser).spec_events().len() ==> #[trigger] depth(
                    old(parser).spec_events(),
                    p,
                ) > depth(old(parser).spec_events(), self.spec_index()),
        ensures
            final(parser).wf(),
            final(parser).spec_source() == old(parser).spec_source(),
            final(parser).spec_errors() == old(parser).spec_errors(),
            final(parser).spec_events() == old(parser).spec_events().update(
                self.spec_index(),
                Event::Abandoned,
            ).drop_last(),
            r.spec_index() == self.spec_index(),
    {
        let ghost e = parser.events@;
        let ghost m = self.index as int;
        let ghost u = e.update(m, Event::Abandoned);
        proof {
            lemma_depth_update(e, m, Event::Abandoned);
            lemma_token_events_update(e, m, Event::Abandoned);
            assert(u =~= u.drop_last().push(Event::Exit));
            lemma_depth_push(u.drop_last(), Event::Exit);
            assert(depth(e, m) >= 0);
            assert(depth(e, e.len() as int) == depth(e, e.len() - 1) - 1);
            assert forall|p: int| 0 <= p <= u.drop_last().len() implies #[trigger] depth(
                u.drop_last(),
                p,
            ) >= 0 by {
                assert(depth(u.drop_last(), p) == depth(u, p));
                if m < p {
                    assert(depth(e, p) > depth(e, m));
                }
            }
        }
        parser.events.set(self.index, Event::Abandoned);
        let _ = parser.events.pop();
        Marker::new(self.index)
    }
}

} // verus!
