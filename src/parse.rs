use vstd::prelude::*;

use crate::event::{
    depth, error_nodes, lemma_complete, lemma_error_nodes_push, lemma_no_links_push, no_links, Event,
};
use crate::lexer::{Token, TokenKind, TokenSet};
use crate::parser::{expect_any_message, CompletedMarker, Parser};
use crate::source::{lemma_skip_trivia, skip_trivia};
use crate::syntax::SyntaxKind;

verus! {

/// The diagnostic for a missing key or value.
pub open spec fn missing_string_message() -> Seq<char> {
    "expect_any {String, QuotedString}"@
}

proof fn lemma_strings_message(set: TokenSet)
    requires
        forall|k: TokenKind| #[trigger] set.has(k) == k.spec_is_string(),
    ensures
        expect_any_message(set) == missing_string_message(),
{
    reveal_strlit("expect_any {String, QuotedString}");
    reveal_strlit("expect_any {");
    reveal_strlit("}");
    reveal_strlit(", ");
    reveal_strlit("String");
    reveal_strlit("QuotedString");
    assert(!set.has(TokenKind::Whitespace));
    assert(!set.has(TokenKind::Newline));
    assert(!set.has(TokenKind::LineComment));
    assert(!set.has(TokenKind::BlockComment));
    assert(set.has(TokenKind::String));
    assert(set.has(TokenKind::QuotedString));
    assert(!set.has(TokenKind::LeftBrace));
    assert(!set.has(TokenKind::RightBrace));
    assert(!set.has(TokenKind::Error));
    reveal_strlit("String, QuotedString");
    assert(set.names_upto(0) =~= seq![]);
    assert(set.names_upto(1) =~= seq![]);
    assert(set.names_upto(2) =~= seq![]);
    assert(set.names_upto(3) =~= seq![]);
    assert(set.names_upto(4) =~= seq![]);
    assert(set.names_upto(5) =~= "String"@);
    assert(set.names_upto(6) =~= "String, QuotedString"@);
    assert(set.names_upto(7) =~= "String, QuotedString"@);
    assert(set.names_upto(8) =~= "String, QuotedString"@);
    assert(set.names() =~= "String, QuotedString"@);
    assert(expect_any_message(set) =~= missing_string_message());
}

/// The last diagnostic is that of a missing key or value.
pub open spec fn ends_with_missing_string(errors: Seq<Seq<char>>) -> bool {
    errors.len() >= 1 && errors.last() == missing_string_message()
}

/// The last two diagnostics are those of a value missing at the end of the
/// input and of the closing brace missing after it.
pub open spec fn ends_with_missing_value(errors: Seq<Seq<char>>) -> bool {
    &&& errors.len() >= 2
    &&& errors[errors.len() - 2] == missing_string_message()
    &&& errors[errors.len() - 1] == crate::parser::expect_message(TokenKind::RightBrace)
}

/// The event that records a token.
pub open spec fn token_event(t: crate::lexer::Token) -> Event {
    Event::Token { kind: crate::syntax::syntax_of(t.spec_kind()), span: t.spec_span() }
}

/// What a rule leaves behind, from a cursor position: the events it
/// appends, the diagnostics it records and the cursor position after it.
pub type Outcome = (Seq<Event>, Seq<Seq<char>>, int);

/// A single string token as a `kind` node.
pub open spec fn string_rule(toks: Seq<Token>, c: int, kind: SyntaxKind) -> Outcome {
    let n = skip_trivia(toks, c);
    if n >= toks.len() {
        (seq![Event::Abandoned], seq![missing_string_message()], n)
    } else if toks[n].spec_kind().spec_is_string() {
        (
            seq![Event::Enter { kind, preceded_by: None }, token_event(toks[n]), Event::Exit],
            seq![],
            n + 1,
        )
    } else {
        (
            seq![
                Event::Abandoned,
                Event::Enter { kind: SyntaxKind::Error, preceded_by: None },
                token_event(toks[n]),
                Event::Exit,
            ],
            seq![missing_string_message()],
            n + 1,
        )
    }
}

/// `KeyValuePair := Key Value`.
pub open spec fn key_value_rule(toks: Seq<Token>, c: int) -> Outcome {
    let (ke, km, c1) = string_rule(toks, c, SyntaxKind::Key);
    if km.len() > 0 {
        (seq![Event::Abandoned] + ke, km, c1)
    } else {
        let (ve, vm, c2) = string_rule(toks, c1, SyntaxKind::Value);
        if vm.len() > 0 {
            (seq![Event::Abandoned] + ke + ve, vm, c2)
        } else {
            (
                seq![Event::Enter { kind: SyntaxKind::KeyValuePair, preceded_by: None }] + ke + ve
                    + seq![Event::Exit],
                seq![],
                c2,
            )
        }
    }
}

/// The pairs of an arena, up to `}` or the end of the input.
pub open spec fn arena_items(toks: Seq<Token>, c: int) -> Outcome
    decreases toks.len() - c,
{
    let n = skip_trivia(toks, c);
    if c < 0 || n >= toks.len() || toks[n].spec_kind() == TokenKind::RightBrace {
        (seq![], seq![], n)
    } else {
        let (e1, m1, c1) = key_value_rule(toks, c);
        if c1 <= c || c1 > toks.len() {
            (e1, m1, c1)
        } else {
            let (e2, m2, c2) = arena_items(toks, c1);
            (e1 + e2, m1 + m2, c2)
        }
    }
}

/// `Arena := '{' KeyValuePair* '}'`.
pub open spec fn arena_rule(toks: Seq<Token>, c: int) -> Outcome {
    let n = skip_trivia(toks, c);
    let left = crate::parser::expect_message(TokenKind::LeftBrace);
    if n >= toks.len() {
        (seq![Event::Abandoned], seq![left], n)
    } else if toks[n].spec_kind() != TokenKind::LeftBrace {
        (
            seq![
                Event::Abandoned,
                Event::Enter { kind: SyntaxKind::Error, preceded_by: None },
                token_event(toks[n]),
                Event::Exit,
            ],
            seq![left],
            n + 1,
        )
    } else {
        let (ie, im, c1) = arena_items(toks, n + 1);
        let m = skip_trivia(toks, c1);
        let head = seq![
            Event::Enter { kind: SyntaxKind::Arena, preceded_by: None },
            token_event(toks[n]),
        ];
        if m < toks.len() {
            (head + ie + seq![token_event(toks[m]), Event::Exit], im, m + 1)
        } else {
            (
                head + ie + seq![Event::Exit],
                im.push(crate::parser::expect_message(TokenKind::RightBrace)),
                m,
            )
        }
    }
}

/// The arenas up to the end of the input.
pub open spec fn arenas_items(toks: Seq<Token>, c: int) -> Outcome
    decreases toks.len() - c,
{
    let n = skip_trivia(toks, c);
    if c < 0 || n >= toks.len() {
        (seq![], seq![], n)
    } else {
        let (e1, m1, c1) = arena_rule(toks, c);
        if c1 <= c || c1 > toks.len() {
            (e1, m1, c1)
        } else {
            let (e2, m2, c2) = arenas_items(toks, c1);
            (e1 + e2, m1 + m2, c2)
        }
    }
}

/// `Arenas := Arena*`.
pub open spec fn arenas_rule(toks: Seq<Token>, c: int) -> Outcome {
    let (e, m, c1) = arenas_items(toks, c);
    (
        seq![Event::Enter { kind: SyntaxKind::Arenas, preceded_by: None }] + e + seq![Event::Exit],
        m,
        c1,
    )
}

/// The event log and diagnostics of parsing `toks` from cursor `c`: the
/// arenas under a `Root` node.
pub open spec fn parse_log(toks: Seq<Token>, c: int) -> (Seq<Event>, Seq<Seq<char>>) {
    let (e, m, _) = arenas_rule(toks, c);
    (seq![Event::Enter { kind: SyntaxKind::Root, preceded_by: None }] + e + seq![Event::Exit], m)
}

/// `next` is `prev` after a rule whose outcome is `o`.
pub open spec fn follows_rule(prev: Parser, next: Parser, o: Outcome) -> bool {
    &&& next.spec_events() == prev.spec_events() + o.0
    &&& next.spec_errors() == prev.spec_errors() + o.1
    &&& next.spec_cursor() == o.2
}

/// Position of the meaningful token after the next one.
pub open spec fn second_next(p: Parser) -> int {
    skip_trivia(p.spec_tokens(), p.spec_next() + 1)
}

/// What parsing one string token as a `kind` node (a key or a value) does.
/// On success the log gains exactly `Enter kind`, the token and `Exit`; on
/// failure the rule's slot stays abandoned and the diagnostic is recorded,
/// with an `Error` node around the next meaningful token if there is one.
pub open spec fn string_node_post(
    prev: Parser,
    next: Parser,
    kind: SyntaxKind,
    r: Option<CompletedMarker>,
) -> bool {
    let e = prev.spec_events();
    let f = next.spec_events();
    let moved = next.spec_cursor() - prev.spec_cursor();
    &&& next.wf()
    &&& next.follows(prev)
    &&& r is Some <==> (!prev.spec_at_end() && prev.next_token().spec_kind().spec_is_string())
    &&& r is Some ==> next.spec_errors() == prev.spec_errors()
    &&& r is None ==> next.spec_errors() == prev.spec_errors().push(missing_string_message())
    &&& r matches Some(m) ==> m.spec_index() == e.len()
    &&& r is Some ==> f == e.push(Event::Enter { kind, preceded_by: None }).push(
        prev.next_event(),
    ).push(Event::Exit)
    &&& r is None ==> f.len() > e.len() && f[e.len() as int] is Abandoned
    &&& r is None && prev.spec_at_end() ==> f.len() == e.len() + 1
    &&& r is Some ==> next.spec_cursor() == prev.spec_next() + 1
    &&& !prev.spec_at_end() ==> next.spec_cursor() > prev.spec_cursor()
    &&& !prev.spec_at_end() ==> f.len() <= e.len() + 4 * moved
    &&& f.len() <= e.len() + 4 * moved + 1
    &&& next.spec_slack() <= prev.spec_slack() + if prev.spec_at_end() {
        1int
    } else {
        0int
    }
    &&& next.spec_slack() > prev.spec_slack() ==> next.spec_errors() == prev.spec_errors().push(
        missing_string_message(),
    )
    &&& next.spec_errors().len() <= prev.spec_errors().len() + moved + if prev.spec_at_end() {
        1int
    } else {
        0int
    }
    &&& no_links(e) ==> no_links(f)
    &&& follows_rule(prev, next, string_rule(prev.spec_tokens(), prev.spec_cursor(), kind))
}

/// A single string token as a `kind` node (a key or a value).
fn string_node(parser: &mut Parser, kind: SyntaxKind) -> (r: Option<CompletedMarker>)
    requires
        old(parser).wf(),
        kind != SyntaxKind::Error,
    ensures
        string_node_post(*old(parser), *final(parser), kind, r),
{
    proof {
        old(parser).lemma_next();
    }
    let marker = parser.start();
    let ghost started = *parser;
    proof {
        lemma_error_nodes_push(old(parser).spec_events(), Event::Abandoned);
        assert(started.spec_events().subrange(0, old(parser).spec_events().len() as int)
            =~= old(parser).spec_events());
        assert(started.spec_errors().subrange(0, old(parser).spec_errors().len() as int)
            =~= old(parser).spec_errors());
    }
    let set = TokenSet::strings();
    proof {
        lemma_strings_message(set);
    }
    let ok = parser.expect_any(set);
    let ghost expected = *parser;
    proof {
        Parser::lemma_follows_trans(*old(parser), started, expected);
        assert(expected.spec_events()[marker.spec_index()] == expected.spec_events().subrange(
            0,
            started.spec_events().len() as int,
        )[marker.spec_index()]);
    }
    if !ok {
        marker.abandon(parser);
        proof {
            let e = old(parser).spec_events();
            if old(parser).spec_at_end() {
                assert(parser.spec_events() =~= e + seq![Event::Abandoned]);
            } else {
                assert(parser.spec_events() =~= e + seq![
                    Event::Abandoned,
                    Event::Enter { kind: SyntaxKind::Error, preceded_by: None },
                    token_event(old(parser).next_token()),
                    Event::Exit,
                ]);
            }
            assert(parser.spec_errors() =~= old(parser).spec_errors() + seq![
                missing_string_message(),
            ]);
        }
        return None;
    }
    let done = marker.complete(parser, kind);
    proof {
        lemma_complete(expected.spec_events(), marker.spec_index(), kind);
        assert(parser.spec_events().subrange(0, old(parser).spec_events().len() as int)
            =~= old(parser).spec_events());
        assert(parser.spec_events() =~= old(parser).spec_events().push(
            Event::Enter { kind, preceded_by: None },
        ).push(old(parser).next_event()).push(Event::Exit));
        assert(parser.spec_events() =~= old(parser).spec_events() + seq![
            Event::Enter { kind, preceded_by: None },
            token_event(old(parser).next_token()),
            Event::Exit,
        ]);
        assert(parser.spec_errors() =~= old(parser).spec_errors() + Seq::<Seq<char>>::empty());
    }
    Some(done)
}

pub fn key(parser: &mut Parser) -> (r: Option<CompletedMarker>)
    requires
        old(parser).wf(),
    ensures
        string_node_post(*old(parser), *final(parser), SyntaxKind::Key, r),
{
    string_node(parser, SyntaxKind::Key)
}

pub fn value(parser: &mut Parser) -> (r: Option<CompletedMarker>)
    requires
        old(parser).wf(),
    ensures
        string_node_post(*old(parser), *final(parser), SyntaxKind::Value, r),
{
    string_node(parser, SyntaxKind::Value)
}

/// `KeyValuePair := Key Value`; if either half is missing the pair is
/// abandoned.
pub fn key_value(parser: &mut Parser) -> (r: Option<CompletedMarker>)
    requires
        old(parser).wf(),
    ensures
        final(parser).wf(),
        final(parser).follows(*old(parser)),
        r is Some <==> (!old(parser).spec_at_end() && old(parser).next_token().spec_kind().spec_is_string() && second_next(*old(parser)) < old(parser).spec_tokens().len() && old(parser).spec_tokens()[second_next(*old(parser))].spec_kind().spec_is_string()),
        r matches Some(m) ==> m.spec_index() == old(parser).spec_events().len()
            && final(parser).spec_events()[m.spec_index()] == (Event::Enter {
            kind: SyntaxKind::KeyValuePair,
            preceded_by: None,
        }),
        final(parser).spec_events().len() <= old(parser).spec_events().len() + 4 * (final(parser).spec_cursor() - old(parser).spec_cursor()) + 4,
        !old(parser).spec_at_end() ==> final(parser).spec_cursor() > old(parser).spec_cursor(),
        final(parser).spec_slack() <= old(parser).spec_slack() + 1,
        final(parser).spec_slack() > old(parser).spec_slack() ==> final(parser).spec_at_end()
            && ends_with_missing_string(final(parser).spec_errors()),
        r is Some ==> final(parser).spec_events() == old(parser).spec_events().push(
            Event::Enter { kind: SyntaxKind::KeyValuePair, preceded_by: None },
        ).push(Event::Enter { kind: SyntaxKind::Key, preceded_by: None }).push(
            old(parser).next_event(),
        ).push(Event::Exit).push(Event::Enter { kind: SyntaxKind::Value, preceded_by: None }).push(
            token_event(old(parser).spec_tokens()[second_next(*old(parser))]),
        ).push(Event::Exit).push(Event::Exit),
        r is None ==> final(parser).spec_events().len() > old(parser).spec_events().len()
            && final(parser).spec_events()[old(parser).spec_events().len() as int] is Abandoned,
        !old(parser).spec_at_end() ==> final(parser).spec_events().len() <= old(parser).spec_events().len() + 5 * (final(parser).spec_cursor() - old(parser).spec_cursor()),
        !old(parser).spec_at_end() ==> final(parser).spec_errors().len() <= old(parser).spec_errors().len() + final(parser).spec_cursor() - old(parser).spec_cursor(),
        final(parser).spec_errors().len() <= old(parser).spec_errors().len() + final(parser).spec_cursor() - old(parser).spec_cursor() + 1,
        forall|i: int|
            old(parser).spec_errors().len() <= i < final(parser).spec_errors().len() ==> #[trigger] final(parser).spec_errors()[i] == missing_string_message(),
        no_links(old(parser).spec_events()) ==> no_links(final(parser).spec_events()),
        follows_rule(
            *old(parser),
            *final(parser),
            key_value_rule(old(parser).spec_tokens(), old(parser).spec_cursor()),
        ),
{
    proof {
        old(parser).lemma_next();
    }
    let marker = parser.start();
    let ghost started = *parser;
    proof {
        lemma_error_nodes_push(old(parser).spec_events(), Event::Abandoned);
        assert(started.spec_events().subrange(0, old(parser).spec_events().len() as int)
            =~= old(parser).spec_events());
        assert(started.spec_errors().subrange(0, old(parser).spec_errors().len() as int)
            =~= old(parser).spec_errors());
    }
    proof {
        if no_links(old(parser).spec_events()) {
            lemma_no_links_push(old(parser).spec_events(), Event::Abandoned);
        }
    }
    let k = key(parser);
    let ghost keyed = *parser;
    proof {
        Parser::lemma_follows_trans(*old(parser), started, keyed);
        assert(keyed.spec_events()[marker.spec_index()] == keyed.spec_events().subrange(
            0,
            started.spec_events().len() as int,
        )[marker.spec_index()]);
        if old(parser).spec_at_end() {
            Parser::lemma_at_end_stays(*old(parser), keyed);
        }
    }
    let ghost toks = old(parser).spec_tokens();
    let ghost ko = string_rule(toks, old(parser).spec_cursor(), SyntaxKind::Key);
    if k.is_none() {
        marker.abandon(parser);
        proof {
            assert(parser.spec_events() =~= old(parser).spec_events() + (seq![Event::Abandoned]
                + ko.0));
        }
        return None;
    }
    let v = value(parser);
    let ghost valued = *parser;
    proof {
        Parser::lemma_follows_trans(*old(parser), keyed, valued);
        Parser::lemma_follows_trans(started, keyed, valued);
        assert(valued.spec_events()[marker.spec_index()] == valued.spec_events().subrange(
            0,
            started.spec_events().len() as int,
        )[marker.spec_index()]);
        if keyed.spec_at_end() {
            Parser::lemma_at_end_stays(keyed, valued);
        }
    }
    let ghost vo = string_rule(toks, keyed.spec_cursor(), SyntaxKind::Value);
    if v.is_none() {
        marker.abandon(parser);
        proof {
            assert(parser.spec_events() =~= old(parser).spec_events() + (seq![Event::Abandoned]
                + ko.0 + vo.0));
            assert(parser.spec_errors() =~= old(parser).spec_errors() + vo.1);
        }
        return None;
    }
    let done = marker.complete(parser, SyntaxKind::KeyValuePair);
    proof {
        lemma_complete(valued.spec_events(), marker.spec_index(), SyntaxKind::KeyValuePair);
        assert(parser.spec_events().subrange(0, old(parser).spec_events().len() as int)
            =~= old(parser).spec_events());
        assert(keyed.spec_next() == second_next(*old(parser)));
        assert(parser.spec_events() =~= old(parser).spec_events() + (seq![
            Event::Enter { kind: SyntaxKind::KeyValuePair, preceded_by: None },
        ] + ko.0 + vo.0 + seq![Event::Exit]));
        assert(parser.spec_errors() =~= old(parser).spec_errors() + Seq::<Seq<char>>::empty());
        assert(parser.spec_events() =~= old(parser).spec_events().push(
            Event::Enter { kind: SyntaxKind::KeyValuePair, preceded_by: None },
        ).push(Event::Enter { kind: SyntaxKind::Key, preceded_by: None }).push(
            old(parser).next_event(),
        ).push(Event::Exit).push(Event::Enter { kind: SyntaxKind::Value, preceded_by: None }).push(
            token_event(old(parser).spec_tokens()[second_next(*old(parser))]),
        ).push(Event::Exit).push(Event::Exit));
        if no_links(old(parser).spec_events()) {
            crate::event::lemma_no_links_update(
                valued.spec_events(),
                marker.spec_index(),
                Event::Enter { kind: SyntaxKind::KeyValuePair, preceded_by: None },
            );
            lemma_no_links_push(
                valued.spec_events().update(
                    marker.spec_index(),
                    Event::Enter { kind: SyntaxKind::KeyValuePair, preceded_by: None },
                ),
                Event::Exit,
            );
        }
    }
    Some(done)
}

/// `Arena := '{' KeyValuePair* '}'`. Without `{` the arena is abandoned;
/// without `}` it is still completed, after the diagnostic.
#[verifier::rlimit(100)]
pub fn arena(parser: &mut Parser) -> (r: Option<CompletedMarker>)
    requires
        old(parser).wf(),
    ensures
        final(parser).wf(),
        final(parser).follows(*old(parser)),
        r is Some <==> (!old(parser).spec_at_end() && old(parser).next_token().spec_kind()
            == TokenKind::LeftBrace),
        r is None ==> final(parser).spec_errors() == old(parser).spec_errors().push(
            crate::parser::expect_message(TokenKind::LeftBrace),
        ),
        r is None && !old(parser).spec_at_end() ==> final(parser).spec_events() == old(
            parser).spec_events().push(Event::Abandoned).push(
            Event::Enter { kind: SyntaxKind::Error, preceded_by: None },
        ).push(old(parser).next_event()).push(Event::Exit),
        r is None && old(parser).spec_at_end() ==> final(parser).spec_events() == old(
            parser).spec_events().push(Event::Abandoned),
        r matches Some(m) ==> m.spec_index() == old(parser).spec_events().len()
            && final(parser).spec_events()[m.spec_index()] == (Event::Enter {
            kind: SyntaxKind::Arena,
            preceded_by: None,
        }) && final(parser).spec_events()[m.spec_index() + 1] == old(parser).next_event()
            && final(parser).spec_events().last() is Exit,
        r is Some ==> {
            ||| (final(parser).spec_events()[final(parser).spec_events().len() - 2] matches Event::Token {
                kind: SyntaxKind::RightBrace,
                ..
            } && forall|i: int|
                old(parser).spec_errors().len() <= i < final(parser).spec_errors().len()
                    ==> #[trigger] final(parser).spec_errors()[i] == missing_string_message())
            ||| (final(parser).spec_at_end() && final(parser).spec_errors().len() > old(
                parser).spec_errors().len() && final(parser).spec_errors().last()
                == crate::parser::expect_message(TokenKind::RightBrace) && forall|i: int|
                old(parser).spec_errors().len() <= i < final(parser).spec_errors().len() - 1
                    ==> #[trigger] final(parser).spec_errors()[i] == missing_string_message())
        },
        !old(parser).spec_at_end() ==> final(parser).spec_cursor() >= old(parser).spec_next() + 1,
        !old(parser).spec_at_end() ==> final(parser).spec_events().len() <= old(
            parser).spec_events().len() + 5 * (final(parser).spec_cursor() - old(parser).spec_cursor()),
        final(parser).spec_events().len() <= old(parser).spec_events().len() + 5 * (final(
            parser).spec_cursor() - old(parser).spec_cursor()) + 1,
        !old(parser).spec_at_end() ==> final(parser).spec_errors().len() <= old(
            parser).spec_errors().len() + final(parser).spec_cursor() - old(parser).spec_cursor(),
        final(parser).spec_errors().len() <= old(parser).spec_errors().len() + final(
            parser).spec_cursor() - old(parser).spec_cursor() + 1,
        !old(parser).spec_at_end() ==> final(parser).spec_cursor() > old(parser).spec_cursor(),
        final(parser).spec_slack() <= old(parser).spec_slack() + 2,
        final(parser).spec_slack() > old(parser).spec_slack() ==> final(parser).spec_at_end(),
        final(parser).spec_slack() == old(parser).spec_slack() + 2 ==> ends_with_missing_value(
            final(parser).spec_errors(),
        ),
        no_links(old(parser).spec_events()) ==> no_links(final(parser).spec_events()),
        follows_rule(
            *old(parser),
            *final(parser),
            arena_rule(old(parser).spec_tokens(), old(parser).spec_cursor()),
        ),
{
    proof {
        old(parser).lemma_next();
    }
    let marker = parser.start();
    let ghost started = *parser;
    proof {
        lemma_error_nodes_push(old(parser).spec_events(), Event::Abandoned);
        assert(started.spec_events().subrange(0, old(parser).spec_events().len() as int)
            =~= old(parser).spec_events());
        assert(started.spec_errors().subrange(0, old(parser).spec_errors().len() as int)
            =~= old(parser).spec_errors());
        if no_links(old(parser).spec_events()) {
            lemma_no_links_push(old(parser).spec_events(), Event::Abandoned);
        }
    }
    let opened = parser.expect(TokenKind::LeftBrace);
    let ghost braced = *parser;
    proof {
        Parser::lemma_follows_trans(*old(parser), started, braced);
        assert(braced.spec_events()[marker.spec_index()] == braced.spec_events().subrange(
            0,
            started.spec_events().len() as int,
        )[marker.spec_index()]);
        if old(parser).spec_at_end() {
            Parser::lemma_at_end_stays(*old(parser), braced);
        }
    }
    let ghost toks = old(parser).spec_tokens();
    let ghost n = old(parser).spec_next();
    if !opened {
        marker.abandon(parser);
        proof {
            let e = old(parser).spec_events();
            if old(parser).spec_at_end() {
                assert(parser.spec_events() =~= e + seq![Event::Abandoned]);
            } else {
                assert(parser.spec_events() =~= e + seq![
                    Event::Abandoned,
                    Event::Enter { kind: SyntaxKind::Error, preceded_by: None },
                    token_event(old(parser).next_token()),
                    Event::Exit,
                ]);
            }
            assert(parser.spec_errors() =~= old(parser).spec_errors() + seq![
                crate::parser::expect_message(TokenKind::LeftBrace),
            ]);
        }
        return None;
    }
    proof {
        assert(braced.spec_events().subrange(
            braced.spec_events().len() as int,
            braced.spec_events().len() as int,
        ) =~= Seq::<Event>::empty());
        assert(braced.spec_errors().subrange(
            braced.spec_errors().len() as int,
            braced.spec_errors().len() as int,
        ) =~= Seq::<Seq<char>>::empty());
    }
    proof {
        Parser::lemma_follows_refl(braced);
    }
    loop
        invariant
            arena_items(toks, n + 1) == (
                parser.spec_events().subrange(
                    braced.spec_events().len() as int,
                    parser.spec_events().len() as int,
                ) + arena_items(toks, parser.spec_cursor()).0,
                parser.spec_errors().subrange(
                    braced.spec_errors().len() as int,
                    parser.spec_errors().len() as int,
                ) + arena_items(toks, parser.spec_cursor()).1,
                arena_items(toks, parser.spec_cursor()).2,
            ),
            toks == parser.spec_tokens(),
            n == old(parser).spec_next(),
            braced.spec_cursor() == n + 1,
            parser.wf(),
            parser.follows(braced),
            marker.spec_index() < parser.spec_events().len(),
            parser.follows(*old(parser)),
            parser.spec_events()[marker.spec_index()] is Abandoned,
            parser.spec_events()[marker.spec_index() + 1] == old(parser).next_event(),
            marker.spec_index() == old(parser).spec_events().len(),
            braced.spec_events().len() == marker.spec_index() + 2,
            parser.spec_events().len() + 3 <= old(parser).spec_events().len() + 5 * (
            parser.spec_cursor() - old(parser).spec_cursor()),
            parser.spec_errors().len() + 1 <= old(parser).spec_errors().len() + parser.spec_cursor()
                - old(parser).spec_cursor(),
            forall|i: int|
                old(parser).spec_errors().len() <= i < parser.spec_errors().len()
                    ==> #[trigger] parser.spec_errors()[i] == missing_string_message(),
            parser.spec_cursor() > old(parser).spec_cursor(),
            parser.spec_cursor() >= old(parser).spec_next() + 1,
            parser.spec_slack() <= old(parser).spec_slack() + if parser.spec_at_end() {
                1int
            } else {
                0int
            },
            parser.spec_slack() > old(parser).spec_slack() ==> ends_with_missing_string(
                parser.spec_errors(),
            ),
            no_links(old(parser).spec_events()) ==> no_links(parser.spec_events()),
        ensures
            arena_items(toks, n + 1) == (
                parser.spec_events().subrange(
                    braced.spec_events().len() as int,
                    parser.spec_events().len() as int,
                ),
                parser.spec_errors().subrange(
                    braced.spec_errors().len() as int,
                    parser.spec_errors().len() as int,
                ),
                parser.spec_cursor(),
            ),
            toks == parser.spec_tokens(),
            n == old(parser).spec_next(),
            braced.spec_cursor() == n + 1,
            parser.wf(),
            parser.follows(braced),
            marker.spec_index() < parser.spec_events().len(),
            parser.follows(*old(parser)),
            parser.spec_events()[marker.spec_index()] is Abandoned,
            parser.spec_events()[marker.spec_index() + 1] == old(parser).next_event(),
            marker.spec_index() == old(parser).spec_events().len(),
            braced.spec_events().len() == marker.spec_index() + 2,
            parser.spec_events().len() + 3 <= old(parser).spec_events().len() + 5 * (
            parser.spec_cursor() - old(parser).spec_cursor()),
            parser.spec_errors().len() + 1 <= old(parser).spec_errors().len() + parser.spec_cursor()
                - old(parser).spec_cursor(),
            forall|i: int|
                old(parser).spec_errors().len() <= i < parser.spec_errors().len()
                    ==> #[trigger] parser.spec_errors()[i] == missing_string_message(),
            parser.spec_cursor() > old(parser).spec_cursor(),
            parser.spec_cursor() >= old(parser).spec_next() + 1,
            parser.spec_slack() <= old(parser).spec_slack() + if parser.spec_at_end() {
                1int
            } else {
                0int
            },
            parser.spec_slack() > old(parser).spec_slack() ==> ends_with_missing_string(
                parser.spec_errors(),
            ),
            no_links(old(parser).spec_events()) ==> no_links(parser.spec_events()),
            parser.spec_at_end() || parser.next_token().spec_kind() == TokenKind::RightBrace,
        decreases parser.spec_tokens().len() - parser.spec_cursor(),
    {
        let ghost before = *parser;
        proof {
            before.lemma_next();
            lemma_skip_trivia(toks, before.spec_cursor());
            lemma_skip_trivia(toks, before.spec_next());
        }
        let stop = parser.at(TokenKind::RightBrace) || parser.at_end();
        if stop {
            proof {
                assert(arena_items(toks, before.spec_cursor()) == (
                    Seq::<Event>::empty(),
                    Seq::<Seq<char>>::empty(),
                    before.spec_next(),
                ));
                assert(parser.spec_events() == before.spec_events());
                assert(parser.spec_errors() == before.spec_errors());
                assert(parser.spec_events().subrange(
                    braced.spec_events().len() as int,
                    parser.spec_events().len() as int,
                ) + Seq::<Event>::empty() =~= parser.spec_events().subrange(
                    braced.spec_events().len() as int,
                    parser.spec_events().len() as int,
                ));
                assert(parser.spec_errors().subrange(
                    braced.spec_errors().len() as int,
                    parser.spec_errors().len() as int,
                ) + Seq::<Seq<char>>::empty() =~= parser.spec_errors().subrange(
                    braced.spec_errors().len() as int,
                    parser.spec_errors().len() as int,
                ));
            }
            break;
        }
        let ghost peeked = *parser;
        proof {
            assert(peeked.spec_events().subrange(0, before.spec_events().len() as int)
                =~= before.spec_events());
            assert(peeked.spec_errors().subrange(0, before.spec_errors().len() as int)
                =~= before.spec_errors());
            Parser::lemma_follows_trans(braced, before, peeked);
            Parser::lemma_follows_trans(*old(parser), before, peeked);
        }
        key_value(parser);
        proof {
            let kv = key_value_rule(toks, before.spec_cursor());
            assert(key_value_rule(toks, peeked.spec_cursor()) == kv);
            assert(arena_items(toks, before.spec_cursor()) == (
                kv.0 + arena_items(toks, kv.2).0,
                kv.1 + arena_items(toks, kv.2).1,
                arena_items(toks, kv.2).2,
            ));
            assert(parser.spec_events().subrange(
                braced.spec_events().len() as int,
                parser.spec_events().len() as int,
            ) =~= before.spec_events().subrange(
                braced.spec_events().len() as int,
                before.spec_events().len() as int,
            ) + kv.0);
            assert(parser.spec_errors().subrange(
                braced.spec_errors().len() as int,
                parser.spec_errors().len() as int,
            ) =~= before.spec_errors().subrange(
                braced.spec_errors().len() as int,
                before.spec_errors().len() as int,
            ) + kv.1);
            Parser::lemma_follows_trans(braced, peeked, *parser);
            Parser::lemma_follows_trans(*old(parser), peeked, *parser);
            assert(parser.spec_events()[marker.spec_index()] == parser.spec_events().subrange(
                0,
                peeked.spec_events().len() as int,
            )[marker.spec_index()]);
            assert(parser.spec_events()[marker.spec_index() + 1] == parser.spec_events().subrange(
                0,
                peeked.spec_events().len() as int,
            )[marker.spec_index() + 1]);
            assert forall|i: int|
                old(parser).spec_errors().len() <= i < parser.spec_errors().len()
                    implies #[trigger] parser.spec_errors()[i] == missing_string_message() by {
                if i < peeked.spec_errors().len() {
                    assert(parser.spec_errors()[i] == parser.spec_errors().subrange(
                        0,
                        peeked.spec_errors().len() as int,
                    )[i]);
                }
            }
        }
    }
    let ghost looped = *parser;
    proof {
        assert(looped.spec_events().subrange(0, old(parser).spec_events().len() as int)
            =~= old(parser).spec_events());
        looped.lemma_next();
    }
    let closing = parser.expect(TokenKind::RightBrace);
    let ghost closed = *parser;
    proof {
        Parser::lemma_follows_trans(*old(parser), looped, closed);
        assert(closed.spec_events()[marker.spec_index()] == closed.spec_events().subrange(
            0,
            looped.spec_events().len() as int,
        )[marker.spec_index()]);
        assert(closed.spec_events()[marker.spec_index() + 1] == closed.spec_events().subrange(
            0,
            looped.spec_events().len() as int,
        )[marker.spec_index() + 1]);
        if looped.spec_at_end() {
            Parser::lemma_at_end_stays(looped, closed);
        }
        assert forall|i: int|
            old(parser).spec_errors().len() <= i < looped.spec_errors().len()
                implies #[trigger] closed.spec_errors()[i] == missing_string_message() by {
            assert(closed.spec_errors()[i] == closed.spec_errors().subrange(
                0,
                looped.spec_errors().len() as int,
            )[i]);
            assert(looped.spec_errors()[i] == missing_string_message());
        }
    }
    let done = marker.complete(parser, SyntaxKind::Arena);
    proof {
        lemma_complete(closed.spec_events(), marker.spec_index(), SyntaxKind::Arena);
        assert(parser.spec_events().subrange(0, old(parser).spec_events().len() as int)
            =~= old(parser).spec_events());
        assert(parser.spec_errors().subrange(0, old(parser).spec_errors().len() as int)
            =~= old(parser).spec_errors());
        if no_links(old(parser).spec_events()) {
            crate::event::lemma_no_links_update(
                closed.spec_events(),
                marker.spec_index(),
                Event::Enter { kind: SyntaxKind::Arena, preceded_by: None },
            );
            lemma_no_links_push(
                closed.spec_events().update(
                    marker.spec_index(),
                    Event::Enter { kind: SyntaxKind::Arena, preceded_by: None },
                ),
                Event::Exit,
            );
        }
        lemma_skip_trivia(toks, looped.spec_cursor());
        let items = arena_items(toks, n + 1);
        let head = seq![
            Event::Enter { kind: SyntaxKind::Arena, preceded_by: None },
            token_event(toks[n]),
        ];
        assert(looped.spec_events() =~= old(parser).spec_events() + seq![
            Event::Abandoned,
            token_event(toks[n]),
        ] + items.0);
        assert(looped.spec_errors() =~= old(parser).spec_errors() + items.1);
        if closing {
            assert(parser.spec_events()[parser.spec_events().len() - 2] == looped.next_event());
            assert(closed.spec_errors() =~= looped.spec_errors());
            assert(parser.spec_events() =~= old(parser).spec_events() + (head + items.0 + seq![
                token_event(toks[looped.spec_next()]),
                Event::Exit,
            ]));
        } else {
            assert(looped.spec_at_end());
            assert(parser.spec_events() =~= old(parser).spec_events() + (head + items.0 + seq![
                Event::Exit,
            ]));
            assert(parser.spec_errors() =~= old(parser).spec_errors() + items.1.push(
                crate::parser::expect_message(TokenKind::RightBrace),
            ));
        }
    }
    Some(done)
}

/// `Arenas := Arena*` up to the end of the input.
pub fn arenas(parser: &mut Parser) -> (r: Option<CompletedMarker>)
    requires
        old(parser).wf(),
    ensures
        final(parser).wf(),
        final(parser).follows(*old(parser)),
        final(parser).spec_at_end(),
        r matches Some(m) && m.spec_index() == old(parser).spec_events().len()
            && final(parser).spec_events()[m.spec_index()] == (Event::Enter {
            kind: SyntaxKind::Arenas,
            preceded_by: None,
        }),
        final(parser).spec_events().last() is Exit,
        final(parser).spec_events().len() <= old(parser).spec_events().len() + 5 * (final(
            parser).spec_cursor() - old(parser).spec_cursor()) + 2,
        final(parser).spec_errors().len() <= old(parser).spec_errors().len() + final(
            parser).spec_cursor() - old(parser).spec_cursor(),
        forall|p: int|
            old(parser).spec_events().len() < p < final(parser).spec_events().len()
                ==> #[trigger] depth(final(parser).spec_events(), p) >= 1,
        no_links(old(parser).spec_events()) ==> no_links(final(parser).spec_events()),
        final(parser).spec_slack() <= old(parser).spec_slack() + 2,
        final(parser).spec_slack() == old(parser).spec_slack() + 2 ==> ends_with_missing_value(
            final(parser).spec_errors(),
        ),
        follows_rule(
            *old(parser),
            *final(parser),
            arenas_rule(old(parser).spec_tokens(), old(parser).spec_cursor()),
        ),
{
    let ghost toks = old(parser).spec_tokens();
    let ghost c0 = old(parser).spec_cursor();
    let marker = parser.start();
    let ghost started = *parser;
    proof {
        if no_links(old(parser).spec_events()) {
            lemma_no_links_push(old(parser).spec_events(), Event::Abandoned);
        }
        lemma_error_nodes_push(old(parser).spec_events(), Event::Abandoned);
        assert(started.spec_events().subrange(0, old(parser).spec_events().len() as int)
            =~= old(parser).spec_events());
        assert(started.spec_errors().subrange(0, old(parser).spec_errors().len() as int)
            =~= old(parser).spec_errors());
    }
    proof {
        Parser::lemma_follows_refl(started);
    }
    proof {
        assert(started.spec_events().subrange(
            started.spec_events().len() as int,
            started.spec_events().len() as int,
        ) =~= Seq::<Event>::empty());
        assert(started.spec_errors().subrange(
            started.spec_errors().len() as int,
            started.spec_errors().len() as int,
        ) =~= Seq::<Seq<char>>::empty());
    }
    loop
        invariant
            toks == parser.spec_tokens(),
            arenas_items(toks, c0) == (
                parser.spec_events().subrange(
                    started.spec_events().len() as int,
                    parser.spec_events().len() as int,
                ) + arenas_items(toks, parser.spec_cursor()).0,
                parser.spec_errors().subrange(
                    started.spec_errors().len() as int,
                    parser.spec_errors().len() as int,
                ) + arenas_items(toks, parser.spec_cursor()).1,
                arenas_items(toks, parser.spec_cursor()).2,
            ),
            parser.wf(),
            parser.follows(started),
            marker.spec_index() < parser.spec_events().len(),
            parser.follows(*old(parser)),
            parser.spec_events()[marker.spec_index()] is Abandoned,
            marker.spec_index() == old(parser).spec_events().len(),
            parser.spec_events().len() <= old(parser).spec_events().len() + 1 + 5 * (
            parser.spec_cursor() - old(parser).spec_cursor()),
            parser.spec_errors().len() <= old(parser).spec_errors().len() + parser.spec_cursor()
                - old(parser).spec_cursor(),
            old(parser).spec_cursor() <= parser.spec_cursor(),
            no_links(old(parser).spec_events()) ==> no_links(parser.spec_events()),
            parser.spec_slack() <= old(parser).spec_slack() + if parser.spec_at_end() {
                2int
            } else {
                0int
            },
            parser.spec_slack() == old(parser).spec_slack() + 2 ==> ends_with_missing_value(
                parser.spec_errors(),
            ),
        ensures
            toks == parser.spec_tokens(),
            arenas_items(toks, c0) == (
                parser.spec_events().subrange(
                    started.spec_events().len() as int,
                    parser.spec_events().len() as int,
                ),
                parser.spec_errors().subrange(
                    started.spec_errors().len() as int,
                    parser.spec_errors().len() as int,
                ),
                parser.spec_cursor(),
            ),
            parser.wf(),
            parser.follows(started),
            marker.spec_index() < parser.spec_events().len(),
            parser.follows(*old(parser)),
            parser.spec_events()[marker.spec_index()] is Abandoned,
            marker.spec_index() == old(parser).spec_events().len(),
            parser.spec_events().len() <= old(parser).spec_events().len() + 1 + 5 * (
            parser.spec_cursor() - old(parser).spec_cursor()),
            parser.spec_errors().len() <= old(parser).spec_errors().len() + parser.spec_cursor()
                - old(parser).spec_cursor(),
            old(parser).spec_cursor() <= parser.spec_cursor(),
            no_links(old(parser).spec_events()) ==> no_links(parser.spec_events()),
            parser.spec_slack() <= old(parser).spec_slack() + if parser.spec_at_end() {
                2int
            } else {
                0int
            },
            parser.spec_slack() == old(parser).spec_slack() + 2 ==> ends_with_missing_value(
                parser.spec_errors(),
            ),
            parser.spec_at_end(),
        decreases parser.spec_tokens().len() - parser.spec_cursor(),
    {
        let ghost before = *parser;
        proof {
            before.lemma_next();
        }
        proof {
            lemma_skip_trivia(toks, before.spec_cursor());
            lemma_skip_trivia(toks, before.spec_next());
        }
        if parser.at_end() {
            proof {
                assert(arenas_items(toks, before.spec_cursor()) == (
                    Seq::<Event>::empty(),
                    Seq::<Seq<char>>::empty(),
                    before.spec_next(),
                ));
                assert(parser.spec_events().subrange(
                    started.spec_events().len() as int,
                    parser.spec_events().len() as int,
                ) + Seq::<Event>::empty() =~= parser.spec_events().subrange(
                    started.spec_events().len() as int,
                    parser.spec_events().len() as int,
                ));
                assert(parser.spec_errors().subrange(
                    started.spec_errors().len() as int,
                    parser.spec_errors().len() as int,
                ) + Seq::<Seq<char>>::empty() =~= parser.spec_errors().subrange(
                    started.spec_errors().len() as int,
                    parser.spec_errors().len() as int,
                ));
            }
            break;
        }
        let ghost peeked = *parser;
        proof {
            assert(peeked.spec_events().subrange(0, before.spec_events().len() as int)
                =~= before.spec_events());
            assert(peeked.spec_errors().subrange(0, before.spec_errors().len() as int)
                =~= before.spec_errors());
            Parser::lemma_follows_trans(started, before, peeked);
            Parser::lemma_follows_trans(*old(parser), before, peeked);
        }
        arena(parser);
        proof {
            let ar = arena_rule(toks, before.spec_cursor());
            assert(arena_rule(toks, peeked.spec_cursor()) == ar);
            assert(arenas_items(toks, before.spec_cursor()) == (
                ar.0 + arenas_items(toks, ar.2).0,
                ar.1 + arenas_items(toks, ar.2).1,
                arenas_items(toks, ar.2).2,
            ));
            assert(parser.spec_events().subrange(
                started.spec_events().len() as int,
                parser.spec_events().len() as int,
            ) =~= before.spec_events().subrange(
                started.spec_events().len() as int,
                before.spec_events().len() as int,
            ) + ar.0);
            assert(parser.spec_errors().subrange(
                started.spec_errors().len() as int,
                parser.spec_errors().len() as int,
            ) =~= before.spec_errors().subrange(
                started.spec_errors().len() as int,
                before.spec_errors().len() as int,
            ) + ar.1);
            Parser::lemma_follows_trans(started, peeked, *parser);
            Parser::lemma_follows_trans(*old(parser), peeked, *parser);
            assert(parser.spec_events()[marker.spec_index()] == parser.spec_events().subrange(
                0,
                peeked.spec_events().len() as int,
            )[marker.spec_index()]);
        }
    }
    let ghost looped = *parser;
    let done = marker.complete(parser, SyntaxKind::Arenas);
    proof {
        lemma_complete(looped.spec_events(), marker.spec_index(), SyntaxKind::Arenas);
        let items = arenas_items(toks, c0);
        assert(looped.spec_events() =~= old(parser).spec_events() + seq![Event::Abandoned]
            + items.0);
        assert(parser.spec_events() =~= old(parser).spec_events() + (seq![
            Event::Enter { kind: SyntaxKind::Arenas, preceded_by: None },
        ] + items.0 + seq![Event::Exit]));
        assert(parser.spec_errors() =~= old(parser).spec_errors() + items.1);
        if no_links(old(parser).spec_events()) {
            crate::event::lemma_no_links_update(
                looped.spec_events(),
                marker.spec_index(),
                Event::Enter { kind: SyntaxKind::Arenas, preceded_by: None },
            );
            lemma_no_links_push(
                looped.spec_events().update(
                    marker.spec_index(),
                    Event::Enter { kind: SyntaxKind::Arenas, preceded_by: None },
                ),
                Event::Exit,
            );
        }
        assert(parser.spec_events().subrange(0, old(parser).spec_events().len() as int)
            =~= old(parser).spec_events());
    }
    Some(done)
}

} // verus!
