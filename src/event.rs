use vstd::prelude::*;

use crate::span::RawSpan;
use crate::syntax::SyntaxKind;

verus! {

/// One record of the parser's event log.
#[derive(Debug, Clone, Copy, PartialEq, Eq, Structural, Hash)]
pub enum Event {
    /// Opens a node. `preceded_by` is the positive forward offset of an
    /// `Enter` that must be opened around this one, before it.
    Enter { kind: SyntaxKind, preceded_by: Option<usize> },
    /// A non-trivia token, as a leaf.
    Token { kind: SyntaxKind, span: RawSpan },
    /// Closes the innermost open node.
    Exit,
    /// A reserved or abandoned slot; replay skips it.
    Abandoned,
}

impl Event {
    pub fn is_abandoned(self) -> (r: bool)
        ensures
            r == (self is Abandoned),
    {
        matches!(self, Event::Abandoned)
    }
}

impl Default for Event {
    fn default() -> (r: Self)
        ensures
            r is Abandoned,
    {
        Event::Abandoned
    }
}

/// How an event changes the number of open nodes.
pub open spec fn delta(e: Event) -> int {
    match e {
        Event::Enter { .. } => 1,
        Event::Exit => -1,
        _ => 0,
    }
}

/// Number of `Enter` minus number of `Exit` among the first `p` events.
pub open spec fn depth(log: Seq<Event>, p: int) -> int
    decreases p,
{
    if p <= 0 {
        0
    } else {
        depth(log, p - 1) + delta(log[p - 1])
    }
}

/// Every prefix closes no more nodes than it opened, and the whole log
/// closes every node it opens.
pub open spec fn balanced(log: Seq<Event>) -> bool {
    &&& forall|p: int| 0 <= p <= log.len() ==> #[trigger] depth(log, p) >= 0
    &&& depth(log, log.len() as int) == 0
}

/// The `Token` events of the log, in order, as kind and span.
pub open spec fn token_events(log: Seq<Event>) -> Seq<(SyntaxKind, RawSpan)>
    decreases log.len(),
{
    if log.len() == 0 {
        seq![]
    } else {
        let rest = token_events(log.drop_last());
        match log.last() {
            Event::Token { kind, span } => rest.push((kind, span)),
            _ => rest,
        }
    }
}

/// Number of `Error` nodes that the log opens.
pub open spec fn error_nodes(log: Seq<Event>) -> int
    decreases log.len(),
{
    if log.len() == 0 {
        0
    } else {
        error_nodes(log.drop_last()) + if is_error_enter(log.last()) {
            1int
        } else {
            0int
        }
    }
}

pub open spec fn is_error_enter(e: Event) -> bool {
    match e {
        Event::Enter { kind, .. } => kind == SyntaxKind::Error,
        _ => false,
    }
}

pub proof fn lemma_depth_push(log: Seq<Event>, v: Event)
    ensures
        forall|p: int| 0 <= p <= log.len() ==> #[trigger] depth(log.push(v), p) == depth(log, p),
        depth(log.push(v), log.len() + 1int) == depth(log, log.len() as int) + delta(v),
{
    assert forall|p: int| 0 <= p <= log.len() implies #[trigger] depth(log.push(v), p) == depth(
        log,
        p,
    ) by {
        lemma_depth_push_at(log, v, p);
    }
    lemma_depth_push_at(log, v, log.len() as int);
    assert(log.push(v)[log.len() as int] == v);
}

proof fn lemma_depth_push_at(log: Seq<Event>, v: Event, p: int)
    requires
        0 <= p <= log.len(),
    ensures
        depth(log.push(v), p) == depth(log, p),
    decreases p,
{
    if p > 0 {
        lemma_depth_push_at(log, v, p - 1);
        assert(log.push(v)[p - 1] == log[p - 1]);
    }
}

pub proof fn lemma_depth_update(log: Seq<Event>, m: int, v: Event)
    requires
        0 <= m < log.len(),
    ensures
        forall|p: int|
            0 <= p <= log.len() ==> #[trigger] depth(log.update(m, v), p) == depth(log, p) + if m
                < p {
                delta(v) - delta(log[m])
            } else {
                0
            },
{
    assert forall|p: int| 0 <= p <= log.len() implies #[trigger] depth(log.update(m, v), p) == depth(
        log,
        p,
    ) + if m < p {
        delta(v) - delta(log[m])
    } else {
        0
    } by {
        lemma_depth_update_at(log, m, v, p);
    }
}

proof fn lemma_depth_update_at(log: Seq<Event>, m: int, v: Event, p: int)
    requires
        0 <= m < log.len(),
        0 <= p <= log.len(),
    ensures
        depth(log.update(m, v), p) == depth(log, p) + if m < p {
            delta(v) - delta(log[m])
        } else {
            0
        },
    decreases p,
{
    if p > 0 {
        lemma_depth_update_at(log, m, v, p - 1);
    }
}

pub proof fn lemma_token_events_update(log: Seq<Event>, m: int, v: Event)
    requires
        0 <= m < log.len(),
        !(log[m] is Token),
        !(v is Token),
    ensures
        token_events(log.update(m, v)) == token_events(log),
    decreases log.len(),
{
    let u = log.update(m, v);
    if m < log.len() - 1 {
        lemma_token_events_update(log.drop_last(), m, v);
        assert(u.drop_last() =~= log.drop_last().update(m, v));
    } else {
        assert(u.drop_last() =~= log.drop_last());
    }
}

pub proof fn lemma_error_nodes_update(log: Seq<Event>, m: int, v: Event)
    requires
        0 <= m < log.len(),
    ensures
        error_nodes(log.update(m, v)) == error_nodes(log) - (if is_error_enter(log[m]) {
            1int
        } else {
            0int
        }) + (if is_error_enter(v) {
            1int
        } else {
            0int
        }),
    decreases log.len(),
{
    let u = log.update(m, v);
    if m < log.len() - 1 {
        lemma_error_nodes_update(log.drop_last(), m, v);
        assert(u.drop_last() =~= log.drop_last().update(m, v));
    } else {
        assert(u.drop_last() =~= log.drop_last());
    }
}

pub proof fn lemma_error_nodes_push(log: Seq<Event>, v: Event)
    ensures
        error_nodes(log.push(v)) == error_nodes(log) + if is_error_enter(v) {
            1int
        } else {
            0int
        },
{
    assert(log.push(v).drop_last() =~= log);
}

pub proof fn lemma_error_nodes_bound(log: Seq<Event>)
    ensures
        0 <= error_nodes(log) <= log.len(),
    decreases log.len(),
{
    if log.len() > 0 {
        lemma_error_nodes_bound(log.drop_last());
    }
}

/// Whether an event is an `Enter` linked to a node opened around it.
pub open spec fn has_link(e: Event) -> bool {
    match e {
        Event::Enter { preceded_by, .. } => preceded_by is Some,
        _ => false,
    }
}

/// No `Enter` of the log is linked to another.
pub open spec fn no_links(log: Seq<Event>) -> bool {
    forall|i: int| 0 <= i < log.len() ==> !has_link(#[trigger] log[i])
}

pub proof fn lemma_no_links_push(log: Seq<Event>, v: Event)
    requires
        no_links(log),
        !has_link(v),
    ensures
        no_links(log.push(v)),
{
    assert forall|i: int| 0 <= i < log.push(v).len() implies !has_link(#[trigger] log.push(v)[i]) by {
        if i < log.len() {
            assert(log.push(v)[i] == log[i]);
        }
    }
}

pub proof fn lemma_no_links_update(log: Seq<Event>, m: int, v: Event)
    requires
        no_links(log),
        !has_link(v),
        0 <= m < log.len(),
    ensures
        no_links(log.update(m, v)),
{
    assert forall|i: int| 0 <= i < log.len() implies !has_link(#[trigger] log.update(m, v)[i]) by {
        if i != m {
            assert(log.update(m, v)[i] == log[i]);
        }
    }
}

/// Appending a slot that opens and closes nothing keeps the log's shape.
pub proof fn lemma_push_neutral(log: Seq<Event>, v: Event)
    requires
        balanced(log),
        delta(v) == 0,
        !(v is Token),
        !is_error_enter(v),
    ensures
        balanced(log.push(v)),
        token_events(log.push(v)) == token_events(log),
        error_nodes(log.push(v)) == error_nodes(log),
{
    lemma_depth_push(log, v);
    assert(log.push(v).drop_last() =~= log);
}

/// Appending a token event records it after the others.
pub proof fn lemma_push_token(log: Seq<Event>, kind: SyntaxKind, span: RawSpan)
    requires
        balanced(log),
    ensures
        balanced(log.push(Event::Token { kind, span })),
        token_events(log.push(Event::Token { kind, span })) == token_events(log).push((kind, span)),
        error_nodes(log.push(Event::Token { kind, span })) == error_nodes(log),
{
    lemma_depth_push(log, Event::Token { kind, span });
    assert(log.push(Event::Token { kind, span }).drop_last() =~= log);
}

/// Turning a reserved slot into an `Enter` and appending its `Exit` keeps
/// the log balanced.
pub proof fn lemma_complete(log: Seq<Event>, m: int, kind: SyntaxKind)
    requires
        balanced(log),
        0 <= m < log.len(),
        log[m] is Abandoned,
    ensures
        balanced(log.update(m, Event::Enter { kind, preceded_by: None }).push(Event::Exit)),
        forall|p: int|
            m < p <= log.len() ==> #[trigger] depth(
                log.update(m, Event::Enter { kind, preceded_by: None }).push(Event::Exit),
                p,
            ) == depth(log, p) + 1,
        token_events(log.update(m, Event::Enter { kind, preceded_by: None }).push(Event::Exit))
            == token_events(log),
        error_nodes(log.update(m, Event::Enter { kind, preceded_by: None }).push(Event::Exit))
            == error_nodes(log) + if kind == SyntaxKind::Error {
            1int
        } else {
            0int
        },
{
    let e = Event::Enter { kind, preceded_by: None };
    let u = log.update(m, e);
    lemma_depth_update(log, m, e);
    lemma_depth_push(u, Event::Exit);
    lemma_token_events_update(log, m, e);
    lemma_error_nodes_update(log, m, e);
    assert(u.push(Event::Exit).drop_last() =~= u);
    assert forall|p: int| 0 <= p <= u.push(Event::Exit).len() implies #[trigger] depth(
        u.push(Event::Exit),
        p,
    ) >= 0 by {
        if p <= log.len() {
            assert(depth(u, p) == depth(log, p) + if m < p {
                1int
            } else {
                0int
            });
        }
    }
}

} // verus!
