use vstd::prelude::*;

use vstd::string::StringSliceAdditionalSpecFns;

use crate::event::{depth, token_events, Event};
use crate::lexer::{texts, Token};
use crate::source::{lemma_skip_trivia, meaningful, skip_trivia};
use crate::syntax::syntax_of;
use crate::syntax::SyntaxKind;
use crate::tree::{apply, NodeView, Op, SyntaxTree, TreeBuilder};

verus! {

/// What replay needs of a log over `toks`: it opens the root first, closes
/// nothing that is not open and no node before the end, its token events are
/// the meaningful tokens, and it ends with two `Exit`s (so that trailing
/// trivia is placed before the root closes).
pub open spec fn sink_ready(toks: Seq<Token>, log: Seq<Event>) -> bool {
    &&& log.len() >= 2
    &&& log[0] == (Event::Enter { kind: SyntaxKind::Root, preceded_by: None })
    &&& forall|p: int| 1 <= p < log.len() ==> #[trigger] depth(log, p) >= 1
    &&& depth(log, log.len() as int) == 0
    &&& token_events(log) == meaningful(toks)
    &&& log[log.len() - 1] is Exit
    &&& log[log.len() - 2] is Exit
}

/// The trivia tokens from `c` on, up to the next meaningful token, as leaves.
pub open spec fn flush(toks: Seq<Token>, c: int) -> Seq<Op>
    decreases toks.len() - c,
{
    if 0 <= c < toks.len() && toks[c].spec_kind().spec_is_trivia() {
        seq![Op::Leaf(syntax_of(toks[c].spec_kind()), toks[c].spec_text().spec_bytes())] + flush(
            toks,
            c + 1,
        )
    } else {
        seq![]
    }
}

/// Opens the nodes of `kinds`, the last one first.
pub open spec fn opens(kinds: Seq<SyntaxKind>) -> Seq<Op>
    decreases kinds.len(),
{
    if kinds.len() == 0 {
        seq![]
    } else {
        seq![Op::Open(kinds.last())] + opens(kinds.drop_last())
    }
}

/// The kinds of the `Enter`s reached from `at` by `link`, in chain order,
/// and the log with their slots taken.
pub open spec fn chain(work: Seq<Event>, at: int, link: Option<usize>) -> (Seq<SyntaxKind>, Seq<Event>)
    decreases work.len() - at,
{
    match link {
        Some(d) => if at < 0 || d == 0 || d >= work.len() - at {
            (seq![], work)
        } else {
            match work[at + d] {
                Event::Enter { kind, preceded_by } => {
                    let (more, rest) = chain(
                        work.update(at + d, Event::Abandoned),
                        at + d,
                        preceded_by,
                    );
                    (seq![kind] + more, rest)
                },
                _ => (seq![], work),
            }
        },
        None => (seq![], work),
    }
}

/// The steps that replaying `work` from event `idx`, with the token cursor
/// at `c`, takes: `Abandoned` is skipped; an `Enter` flushes trivia (but
/// for the root), opens its chain outermost first and flushes again; an
/// `Exit` closes and flushes; a `Token` flushes and adds the token under
/// the cursor.
pub open spec fn replay_from(toks: Seq<Token>, work: Seq<Event>, n: int, idx: int, c: int) -> Seq<Op>
    decreases n - idx,
{
    if idx < 0 || idx >= n || idx >= work.len() {
        seq![]
    } else {
        let w1 = work.update(idx, Event::Abandoned);
        match work[idx] {
            Event::Abandoned => replay_from(toks, w1, n, idx + 1, c),
            Event::Exit => seq![Op::Close] + flush(toks, c) + replay_from(
                toks,
                w1,
                n,
                idx + 1,
                skip_trivia(toks, c),
            ),
            Event::Token { kind, .. } => {
                let c1 = skip_trivia(toks, c);
                flush(toks, c) + seq![Op::Leaf(kind, toks[c1].spec_text().spec_bytes())]
                    + replay_from(toks, w1, n, idx + 1, c1 + 1)
            },
            Event::Enter { kind, preceded_by } => {
                let root = kind == SyntaxKind::Root;
                let pre = if root {
                    seq![]
                } else {
                    flush(toks, c)
                };
                let c1 = if root {
                    c
                } else {
                    skip_trivia(toks, c)
                };
                let (more, w2) = chain(w1, idx, preceded_by);
                pre + opens(seq![kind] + more) + flush(toks, c1) + replay_from(
                    toks,
                    w2,
                    n,
                    idx + 1,
                    skip_trivia(toks, c1),
                )
            },
        }
    }
}

/// The steps that replaying `log` over `toks` takes.
pub open spec fn replay(toks: Seq<Token>, log: Seq<Event>) -> Seq<Op> {
    replay_from(toks, log, log.len() as int, 0, 0)
}

/// The tree, in preorder, that replaying `log` over `toks` builds.
pub open spec fn replay_tree(toks: Seq<Token>, log: Seq<Event>) -> Seq<NodeView> {
    apply(replay(toks, log)).0
}

pub open spec fn is_trivia_kind(kind: SyntaxKind) -> bool {
    kind == SyntaxKind::Whitespace || kind == SyntaxKind::Newline || kind
        == SyntaxKind::LineComment || kind == SyntaxKind::BlockComment
}

pub open spec fn is_trivia_leaf(op: Op) -> bool {
    match op {
        Op::Leaf(kind, _) => is_trivia_kind(kind),
        _ => false,
    }
}

pub open spec fn opens_non_root(op: Op) -> bool {
    match op {
        Op::Open(kind) => kind != SyntaxKind::Root,
        _ => false,
    }
}

/// No step that opens a node other than the root is directly followed by a
/// trivia leaf: such a node never starts with trivia.
pub open spec fn no_leading_trivia(ops: Seq<Op>) -> bool {
    forall|i: int|
        0 <= i < ops.len() - 1 && #[trigger] opens_non_root(ops[i]) ==> !is_trivia_leaf(ops[i + 1])
}

/// Every token event of the log names a meaningful (non-trivia) kind.
pub open spec fn meaningful_tokens(log: Seq<Event>) -> bool {
    forall|i: int|
        0 <= i < log.len() ==> match #[trigger] log[i] {
            Event::Token { kind, .. } => !is_trivia_kind(kind),
            _ => true,
        }
}

proof fn lemma_no_leading_concat(a: Seq<Op>, b: Seq<Op>)
    requires
        no_leading_trivia(a),
        no_leading_trivia(b),
        a.len() > 0 && opens_non_root(a.last()) ==> !(b.len() > 0 && is_trivia_leaf(b[0])),
    ensures
        no_leading_trivia(a + b),
{
    let s = a + b;
    assert forall|i: int| 0 <= i < s.len() - 1 && #[trigger] opens_non_root(s[i]) implies !is_trivia_leaf(
        s[i + 1],
    ) by {
        if i < a.len() - 1 {
            assert(s[i] == a[i] && s[i + 1] == a[i + 1]);
        } else if i == a.len() - 1 {
            assert(s[i] == a.last() && s[i + 1] == b[0]);
        } else {
            assert(s[i] == b[i - a.len()] && s[i + 1] == b[i - a.len() + 1]);
        }
    }
}

proof fn lemma_flush_leaves(toks: Seq<Token>, c: int)
    ensures
        forall|i: int| 0 <= i < flush(toks, c).len() ==> #[trigger] flush(toks, c)[i] is Leaf,
        no_leading_trivia(flush(toks, c)),
        skip_trivia(toks, c) == c ==> flush(toks, c).len() == 0,
    decreases toks.len() - c,
{
    if 0 <= c < toks.len() && toks[c].spec_kind().spec_is_trivia() {
        lemma_flush_leaves(toks, c + 1);
        lemma_skip_trivia(toks, c + 1);
        let f = flush(toks, c);
        assert forall|i: int| 0 <= i < f.len() implies #[trigger] f[i] is Leaf by {
            if i > 0 {
                assert(f[i] == flush(toks, c + 1)[i - 1]);
            }
        }
    }
}

proof fn lemma_opens(kinds: Seq<SyntaxKind>)
    ensures
        opens(kinds).len() == kinds.len(),
        forall|i: int| 0 <= i < kinds.len() ==> #[trigger] opens(kinds)[i] == Op::Open(
            kinds[kinds.len() - 1 - i],
        ),
    decreases kinds.len(),
{
    if kinds.len() > 0 {
        lemma_opens(kinds.drop_last());
        assert forall|i: int| 0 <= i < kinds.len() implies #[trigger] opens(kinds)[i] == Op::Open(
            kinds[kinds.len() - 1 - i],
        ) by {
            if i > 0 {
                assert(opens(kinds)[i] == opens(kinds.drop_last())[i - 1]);
            }
        }
    }
}

proof fn lemma_chain_keeps(work: Seq<Event>, at: int, link: Option<usize>)
    requires
        meaningful_tokens(work),
    ensures
        meaningful_tokens(chain(work, at, link).1),
        chain(work, at, link).1.len() == work.len(),
    decreases work.len() - at,
{
    match link {
        Some(d) => if at < 0 || d == 0 || d >= work.len() - at {
        } else {
            match work[at + d] {
                Event::Enter { kind, preceded_by } => {
                    let w = work.update(at + d, Event::Abandoned);
                    assert(meaningful_tokens(w)) by {
                        assert forall|i: int| 0 <= i < w.len() implies match #[trigger] w[i] {
                            Event::Token { kind, .. } => !is_trivia_kind(kind),
                            _ => true,
                        } by {
                            if i != at + d {
                                assert(w[i] == work[i]);
                            }
                        }
                    }
                    lemma_chain_keeps(w, at + d, preceded_by);
                },
                _ => {},
            }
        },
        None => {},
    }
}

proof fn lemma_replay_from_no_leading(toks: Seq<Token>, work: Seq<Event>, n: int, idx: int, c: int)
    requires
        meaningful_tokens(work),
    ensures
        no_leading_trivia(replay_from(toks, work, n, idx, c)),
        skip_trivia(toks, c) == c ==> !(replay_from(toks, work, n, idx, c).len() > 0
            && is_trivia_leaf(replay_from(toks, work, n, idx, c)[0])),
    decreases n - idx,
{
    if idx < 0 || idx >= n || idx >= work.len() {
    } else {
        let w1 = work.update(idx, Event::Abandoned);
        assert(meaningful_tokens(w1)) by {
            assert forall|i: int| 0 <= i < w1.len() implies match #[trigger] w1[i] {
                Event::Token { kind, .. } => !is_trivia_kind(kind),
                _ => true,
            } by {
                if i != idx {
                    assert(w1[i] == work[i]);
                }
            }
        }
        lemma_flush_leaves(toks, c);
        match work[idx] {
            Event::Abandoned => {
                lemma_replay_from_no_leading(toks, w1, n, idx + 1, c);
            },
            Event::Exit => {
                let c1 = skip_trivia(toks, c);
                lemma_replay_from_no_leading(toks, w1, n, idx + 1, c1);
                let a = seq![Op::Close];
                lemma_no_leading_concat(a, flush(toks, c));
                lemma_no_leading_concat(a + flush(toks, c), replay_from(toks, w1, n, idx + 1, c1));
                if flush(toks, c).len() > 0 {
                    assert(flush(toks, c).last() is Leaf);
                }
                assert((a + flush(toks, c) + replay_from(toks, w1, n, idx + 1, c1))[0] == Op::Close);
            },
            Event::Token { kind, .. } => {
                let c1 = skip_trivia(toks, c);
                let leaf = seq![Op::Leaf(kind, toks[c1].spec_text().spec_bytes())];
                lemma_replay_from_no_leading(toks, w1, n, idx + 1, c1 + 1);
                lemma_no_leading_concat(flush(toks, c), leaf);
                lemma_no_leading_concat(flush(toks, c) + leaf, replay_from(toks, w1, n, idx + 1, c1 + 1));
                if skip_trivia(toks, c) == c {
                    assert(flush(toks, c) + leaf + replay_from(toks, w1, n, idx + 1, c1 + 1) =~= leaf
                        + replay_from(toks, w1, n, idx + 1, c1 + 1));
                }
            },
            Event::Enter { kind, preceded_by } => {
                let root = kind == SyntaxKind::Root;
                let pre = if root {
                    seq![]
                } else {
                    flush(toks, c)
                };
                let c1 = if root {
                    c
                } else {
                    skip_trivia(toks, c)
                };
                let (more, w2) = chain(w1, idx, preceded_by);
                lemma_chain_keeps(w1, idx, preceded_by);
                let c2 = skip_trivia(toks, c1);
                lemma_skip_trivia(toks, 0);
                if 0 <= c <= toks.len() {
                    lemma_skip_trivia(toks, c);
                }
                lemma_flush_leaves(toks, c1);
                lemma_replay_from_no_leading(toks, w2, n, idx + 1, c2);
                let ks = seq![kind] + more;
                lemma_opens(ks);
                let o = opens(ks);
                assert(o.last() == Op::Open(ks[0]));
                assert(no_leading_trivia(o));
                assert(no_leading_trivia(pre));
                lemma_no_leading_concat(pre, o);
                let rest = replay_from(toks, w2, n, idx + 1, c2);
                if !root {
                    assert(skip_trivia(toks, c1) == c1) by {
                        if 0 <= c <= toks.len() {
                            lemma_skip_trivia(toks, c1);
                        }
                    }
                }
                lemma_no_leading_concat(pre + o, flush(toks, c1));
                lemma_no_leading_concat(pre + o + flush(toks, c1), rest);
                if skip_trivia(toks, c) == c && !root {
                    assert(pre.len() == 0);
                    assert((pre + o + flush(toks, c1) + rest)[0] == o[0]);
                }
                if root {
                    assert((pre + o + flush(toks, c1) + rest)[0] == o[0]);
                }
            },
        }
    }
}

proof fn lemma_meaningful_kinds(toks: Seq<Token>)
    ensures
        forall|j: int|
            0 <= j < meaningful(toks).len() ==> !is_trivia_kind(#[trigger] meaningful(toks)[j].0),
    decreases toks.len(),
{
    if toks.len() > 0 {
        let rest = toks.drop_last();
        lemma_meaningful_kinds(rest);
        let t = toks.last();
        assert forall|j: int| 0 <= j < meaningful(toks).len() implies !is_trivia_kind(
            #[trigger] meaningful(toks)[j].0,
        ) by {
            if j < meaningful(rest).len() {
                assert(meaningful(toks)[j] == meaningful(rest)[j]);
            } else {
                assert(!t.spec_kind().spec_is_trivia());
                assert(meaningful(toks)[j].0 == syntax_of(t.spec_kind()));
            }
        }
    }
}

proof fn lemma_token_kinds(log: Seq<Event>)
    requires
        forall|j: int|
            0 <= j < token_events(log).len() ==> !is_trivia_kind(#[trigger] token_events(log)[j].0),
    ensures
        meaningful_tokens(log),
    decreases log.len(),
{
    if log.len() > 0 {
        let rest = log.drop_last();
        assert forall|j: int| 0 <= j < token_events(rest).len() implies !is_trivia_kind(
            #[trigger] token_events(rest)[j].0,
        ) by {
            assert(token_events(rest)[j] == token_events(log)[j]);
        }
        lemma_token_kinds(rest);
        assert forall|i: int| 0 <= i < log.len() implies match #[trigger] log[i] {
            Event::Token { kind, .. } => !is_trivia_kind(kind),
            _ => true,
        } by {
            if i < log.len() - 1 {
                assert(log[i] == rest[i]);
            } else {
                match log[i] {
                    Event::Token { kind, span } => {
                        assert(token_events(log) == token_events(rest).push((kind, span)));
                        assert(token_events(log)[token_events(rest).len() as int].0 == kind);
                    },
                    _ => {},
                }
            }
        }
    }
}

/// A log whose token events are the meaningful tokens names no trivia kind
/// in a token event.
pub proof fn lemma_meaningful_tokens(toks: Seq<Token>, log: Seq<Event>)
    requires
        token_events(log) == meaningful(toks),
    ensures
        meaningful_tokens(log),
{
    lemma_meaningful_kinds(toks);
    lemma_token_kinds(log);
}

/// In the replay of a log whose token events are all meaningful, no node
/// other than the root starts with a trivia leaf: trivia before a node's
/// first token is placed before the node is opened.
pub proof fn lemma_no_leading_trivia(toks: Seq<Token>, log: Seq<Event>)
    requires
        meaningful_tokens(log),
    ensures
        no_leading_trivia(replay(toks, log)),
{
    lemma_replay_from_no_leading(toks, log, log.len() as int, 0, 0);
}

/// `Enter` events at `k` or later whose slot replay has already taken.
spec fn taken(log: Seq<Event>, work: Seq<Event>, k: int) -> int
    decreases log.len() - k,
{
    if k < 0 || k >= log.len() {
        0
    } else {
        taken(log, work, k + 1) + if log[k] is Enter && work[k] is Abandoned {
            1int
        } else {
            0int
        }
    }
}

proof fn lemma_taken_bound(log: Seq<Event>, work: Seq<Event>, k: int)
    requires
        0 <= k <= log.len(),
    ensures
        0 <= taken(log, work, k) <= log.len() - k,
    decreases log.len() - k,
{
    if k < log.len() {
        lemma_taken_bound(log, work, k + 1);
    }
}

proof fn lemma_taken_take(log: Seq<Event>, work: Seq<Event>, k: int, j: int)
    requires
        0 <= k <= j < log.len(),
        log.len() <= work.len(),
        log[j] is Enter,
        !(work[j] is Abandoned),
    ensures
        taken(log, work.update(j, Event::Abandoned), k) == taken(log, work, k) + 1,
    decreases j - k,
{
    if k < j {
        lemma_taken_take(log, work, k + 1, j);
    } else {
        lemma_taken_same(log, work, work.update(j, Event::Abandoned), k + 1);
    }
}

proof fn lemma_taken_same(log: Seq<Event>, a: Seq<Event>, b: Seq<Event>, k: int)
    requires
        0 <= k,
        a.len() == b.len(),
        log.len() <= a.len(),
        forall|m: int| k <= m < a.len() ==> a[m] == b[m],
    ensures
        taken(log, a, k) == taken(log, b, k),
    decreases log.len() - k,
{
    if k < log.len() {
        lemma_taken_same(log, a, b, k + 1);
    }
}

proof fn lemma_token_events_mono(log: Seq<Event>, i: int, j: int)
    requires
        0 <= i <= j <= log.len(),
    ensures
        token_events(log.take(i)).len() <= token_events(log.take(j)).len(),
    decreases j - i,
{
    if i < j {
        lemma_token_events_mono(log, i, j - 1);
        assert(log.take(j).drop_last() =~= log.take(j - 1));
    }
}

proof fn lemma_meaningful_mono(toks: Seq<Token>, i: int, j: int)
    requires
        0 <= i <= j <= toks.len(),
    ensures
        meaningful(toks.take(i)).len() <= meaningful(toks.take(j)).len(),
    decreases j - i,
{
    if i < j {
        lemma_meaningful_mono(toks, i, j - 1);
        assert(toks.take(j).drop_last() =~= toks.take(j - 1));
    }
}

/// Replays an event log over the full token sequence into a tree, putting
/// the trivia back between the meaningful tokens.
pub struct Sink<'src> {
    builder: TreeBuilder<'src>,
    tokens: Vec<Token<'src>>,
    cursor: usize,
    events: Vec<Event>,
    source: &'src str,
}

impl<'src> Sink<'src> {
    pub closed spec fn spec_tokens(&self) -> Seq<Token<'src>> {
        self.tokens@
    }

    pub closed spec fn spec_events(&self) -> Seq<Event> {
        self.events@
    }

    pub closed spec fn spec_source(&self) -> &'src str {
        self.source
    }

    /// Nothing replayed yet.
    pub closed spec fn fresh(&self) -> bool {
        &&& self.builder.wf()
        &&& self.builder.spec_depth() == 0
        &&& self.builder.spec_count() == 0
        &&& self.builder.spec_text() == Seq::<u8>::empty()
        &&& self.builder.spec_history() == Seq::<Op>::empty()
        &&& self.cursor == 0
    }

    pub fn new(source: &'src str, tokens: Vec<Token<'src>>, events: Vec<Event>) -> (r: Self)
        ensures
            r.fresh(),
            r.spec_tokens() == tokens@,
            r.spec_events() == events@,
            r.spec_source() == source,
    {
        Self { builder: TreeBuilder::new(), tokens, cursor: 0, events, source }
    }

    /// The source text the tokens were lexed from.
    pub fn source(&self) -> (r: &'src str)
        ensures
            r == self.spec_source(),
    {
        self.source
    }

    fn token(&mut self, kind: SyntaxKind, text: &'src str)
        requires
            old(self).builder.wf(),
            old(self).builder.spec_depth() > 0,
            old(self).builder.spec_count() < usize::MAX,
            old(self).cursor < usize::MAX,
        ensures
            final(self).builder.wf(),
            final(self).builder.spec_depth() == old(self).builder.spec_depth(),
            final(self).builder.spec_count() == old(self).builder.spec_count() + 1,
            final(self).builder.spec_text() == old(self).builder.spec_text() + text.spec_bytes(),
            final(self).cursor == old(self).cursor + 1,
            final(self).tokens@ == old(self).tokens@,
            final(self).events@ == old(self).events@,
            final(self).builder.spec_history() == old(self).builder.spec_history().push(
                Op::Leaf(kind, text.spec_bytes()),
            ),
    {
        self.cursor += 1;
        self.builder.token(kind, text);
    }

    /// Adds the trivia tokens at the cursor as leaves of the innermost open
    /// node.
    fn eat_trivia(&mut self)
        requires
            old(self).builder.wf(),
            old(self).cursor <= old(self).tokens@.len(),
            old(self).builder.spec_text() == texts(old(self).tokens@.take(old(self).cursor as int)),
            old(self).builder.spec_depth() > 0 || skip_trivia(
                old(self).tokens@,
                old(self).cursor as int,
            ) == old(self).cursor,
            old(self).builder.spec_count() + old(self).tokens@.len() - old(self).cursor < usize::MAX,
        ensures
            final(self).builder.wf(),
            final(self).cursor == skip_trivia(old(self).tokens@, old(self).cursor as int),
            final(self).cursor <= final(self).tokens@.len(),
            final(self).builder.spec_text() == texts(final(self).tokens@.take(final(self).cursor as int)),
            final(self).builder.spec_depth() == old(self).builder.spec_depth(),
            final(self).builder.spec_count() == old(self).builder.spec_count() + final(self).cursor
                - old(self).cursor,
            final(self).tokens@ == old(self).tokens@,
            final(self).events@ == old(self).events@,
            final(self).builder.spec_history() == old(self).builder.spec_history() + flush(
                old(self).tokens@,
                old(self).cursor as int,
            ),
    {
        let ghost toks = self.tokens@;
        proof {
            lemma_skip_trivia(toks, self.cursor as int);
        }
        while self.cursor < self.tokens.len() && self.tokens[self.cursor].kind().is_trivia()
            invariant
                self.builder.wf(),
                self.tokens@ == toks,
                self.events@ == old(self).events@,
                old(self).cursor <= self.cursor <= toks.len(),
                skip_trivia(toks, self.cursor as int) == skip_trivia(toks, old(self).cursor as int),
                self.builder.spec_text() == texts(toks.take(self.cursor as int)),
                self.builder.spec_depth() == old(self).builder.spec_depth(),
                self.cursor > old(self).cursor ==> self.builder.spec_depth() > 0,
                self.builder.spec_count() == old(self).builder.spec_count() + self.cursor - old(
                    self,
                ).cursor,
                old(self).builder.spec_count() + toks.len() - old(self).cursor < usize::MAX,
                old(self).builder.spec_depth() > 0 || skip_trivia(toks, old(self).cursor as int)
                    == old(self).cursor,
                self.builder.spec_history() + flush(toks, self.cursor as int) == old(
                    self,
                ).builder.spec_history() + flush(toks, old(self).cursor as int),
            decreases toks.len() - self.cursor,
        {
            proof {
                lemma_skip_trivia(toks, self.cursor + 1);
                self.builder.lemma_sizes();
            }
            let token = self.tokens[self.cursor];
            let ghost h = self.builder.spec_history();
            let ghost c = self.cursor as int;
            proof {
                assert(toks.take(self.cursor + 1).drop_last() =~= toks.take(self.cursor as int));
            }
            self.token(token.kind().into(), token.text());
            proof {
                assert(h + flush(toks, c) =~= h.push(
                    Op::Leaf(syntax_of(token.spec_kind()), token.spec_text().spec_bytes()),
                ) + flush(toks, c + 1));
            }
        }
        proof {
            assert(self.builder.spec_history() + flush(toks, self.cursor as int) =~= self.builder.spec_history());
        }
    }

    /// Replays the log into the tree.
    #[verifier::rlimit(100)]
    pub fn finish(self) -> (r: SyntaxTree<'src>)
        requires
            self.fresh(),
            sink_ready(self.spec_tokens(), self.spec_events()),
            self.spec_tokens().len() + self.spec_events().len() < usize::MAX,
        ensures
            r.wf(),
            r.spec_text() == texts(self.spec_tokens()),
            r.spec_nodes() == replay_tree(self.spec_tokens(), self.spec_events()),
    {
        let mut sink = self;
        let ghost log = self.events@;
        let ghost toks = self.tokens@;
        let mut idx: usize = 0;
        proof {
            assert(log.take(0) =~= seq![]);
            assert(toks.take(0) =~= seq![]);
            lemma_taken_zero(log, 0);
        }
        while idx < sink.events.len()
            invariant
                sink_ready(toks, log),
                toks.len() + log.len() < usize::MAX,
                sink.tokens@ == toks,
                sink.events@.len() == log.len(),
                0 <= idx <= log.len(),
                sink.builder.wf(),
                sink.builder.spec_depth() == depth(log, idx as int) + taken(
                    log,
                    sink.events@,
                    idx as int,
                ),
                forall|k: int|
                    idx <= k < log.len() ==> #[trigger] sink.events@[k] == log[k] || (log[k] is Enter
                        && sink.events@[k] is Abandoned),
                sink.cursor <= toks.len(),
                sink.builder.spec_text() == texts(toks.take(sink.cursor as int)),
                token_events(log.take(idx as int)).len() == meaningful(
                    toks.take(sink.cursor as int),
                ).len(),
                idx == 0 ==> sink.builder.spec_count() == 0,
                idx >= 1 ==> sink.builder.spec_count() >= 1,
                idx == 0 ==> sink.events@[0] == log[0],
                idx >= log.len() - 1 ==> sink.cursor == toks.len(),
                sink.builder.spec_count() <= sink.cursor + idx + taken(
                    log,
                    sink.events@,
                    idx as int,
                ),
                sink.builder.spec_history() + replay_from(
                    toks,
                    sink.events@,
                    log.len() as int,
                    idx as int,
                    sink.cursor as int,
                ) == replay(toks, log),
            decreases log.len() - idx,
        {
            let ghost work = sink.events@;
            let ghost c0 = sink.cursor as int;
            let ghost h0 = sink.builder.spec_history();
            proof {
                sink.builder.lemma_sizes();
                lemma_taken_bound(log, work, idx as int);
                lemma_taken_bound(log, work, idx + 1);
                assert(log.take(idx + 1).drop_last() =~= log.take(idx as int));
                if idx >= 1 {
                    assert(depth(log, idx as int) >= 1);
                }
                assert(depth(log, idx + 1) == depth(log, idx as int) + crate::event::delta(log[idx as int]));
            }
            let event = sink.events[idx];
            sink.events.set(idx, Event::Abandoned);
            proof {
                lemma_taken_same(log, work, sink.events@, idx + 1);
            }
            proof {
                assert(work[idx as int] == event);
                if idx <= log.len() - 2 {
                    assert(work[log.len() - 2] == log[log.len() - 2]);
                }
                assert(work[log.len() - 1] == log[log.len() - 1]);
                assert(!(event is Token) ==> token_events(log.take(idx + 1)) == token_events(
                    log.take(idx as int),
                ));
                lemma_skip_trivia(toks, c0);
            }
            match event {
                Event::Abandoned => {},
                Event::Enter { kind, preceded_by } => {
                    let ghost w1 = sink.events@;
                    let mut kinds: Vec<SyntaxKind> = Vec::new();
                    kinds.push(kind);
                    if kind != SyntaxKind::Root {
                        sink.eat_trivia();
                    }
                    let ghost h1 = sink.builder.spec_history();
                    let ghost count0 = sink.builder.spec_count();
                    let ghost taken0 = taken(log, sink.events@, idx + 1);
                    let ghost builder0 = sink.builder;
                    let ghost cursor0 = sink.cursor;
                    let mut at = idx;
                    let mut link = preceded_by;
                    loop
                        invariant
                            idx <= at < log.len(),
                            sink.events@.len() == log.len(),
                            kinds@.len() >= 1,
                            kinds@.len() <= at - idx + 1,
                            taken(log, sink.events@, idx + 1) == taken0 + kinds@.len() - 1,
                            forall|k: int|
                                idx < k < log.len() ==> #[trigger] sink.events@[k] == log[k] || (
                                log[k] is Enter && sink.events@[k] is Abandoned),
                            sink.builder == builder0,
                            sink.cursor == cursor0,
                            sink.tokens@ == toks,
                            kinds@[0] == kind,
                            chain(w1, idx as int, preceded_by) == (
                                kinds@.subrange(1, kinds@.len() as int) + chain(
                                    sink.events@,
                                    at as int,
                                    link,
                                ).0,
                                chain(sink.events@, at as int, link).1,
                            ),
                        ensures
                            idx <= at < log.len(),
                            sink.events@.len() == log.len(),
                            kinds@.len() >= 1,
                            kinds@.len() <= at - idx + 1,
                            taken(log, sink.events@, idx + 1) == taken0 + kinds@.len() - 1,
                            forall|k: int|
                                idx < k < log.len() ==> #[trigger] sink.events@[k] == log[k] || (
                                log[k] is Enter && sink.events@[k] is Abandoned),
                            sink.builder == builder0,
                            sink.cursor == cursor0,
                            sink.tokens@ == toks,
                            kinds@[0] == kind,
                            chain(w1, idx as int, preceded_by) == (
                                kinds@.subrange(1, kinds@.len() as int),
                                sink.events@,
                            ),
                        decreases log.len() - at,
                    {
                        match link {
                            Some(d) => {
                                if d == 0 || d >= sink.events.len() - at {
                                    break;
                                }
                                let next = at + d;
                                match sink.events[next] {
                                    Event::Enter { kind: outer, preceded_by: further } => {
                                        proof {
                                            lemma_taken_take(log, sink.events@, idx + 1, next as int);
                                        }
                                        let ghost before = kinds@;
                                        kinds.push(outer);
                                        sink.events.set(next, Event::Abandoned);
                                        at = next;
                                        link = further;
                                        proof {
                                            assert(kinds@.subrange(1, kinds@.len() as int) =~= before.subrange(
                                                1,
                                                before.len() as int,
                                            ) + seq![outer]);
                                        }
                                    },
                                    _ => {
                                        break;
                                    },
                                }
                            },
                            None => {
                                break;
                            },
                        }
                    }
                    proof {
                        lemma_taken_bound(log, sink.events@, idx + 1);
                        lemma_skip_trivia(toks, cursor0 as int);
                    }
                    let ghost chained = sink.events@;
                    let ghost h2 = sink.builder.spec_history();
                    proof {
                        assert(kinds@ =~= seq![kind] + kinds@.subrange(1, kinds@.len() as int));
                        assert(kinds@.take(kinds@.len() as int) =~= kinds@);
                    }
                    let mut n = kinds.len();
                    while n > 0
                        invariant
                            n <= kinds@.len(),
                            sink.builder.wf(),
                            sink.builder.spec_depth() == depth(log, idx as int) + taken0 + kinds@.len()
                                - n,
                            sink.builder.spec_count() == count0 + kinds@.len() - n,
                            sink.builder.spec_text() == texts(toks.take(sink.cursor as int)),
                            sink.builder.spec_depth() > 0 || sink.builder.spec_count() == 0,
                            sink.tokens@ == toks,
                            sink.events@ == chained,
                            sink.cursor == cursor0,
                            cursor0 <= toks.len(),
                            sink.builder.spec_history() + opens(kinds@.take(n as int)) == h2 + opens(
                                kinds@,
                            ),
                        decreases n,
                    {
                        let ghost hn = sink.builder.spec_history();
                        proof {
                            assert(kinds@.take(n as int).drop_last() =~= kinds@.take(n - 1));
                        }
                        n -= 1;
                        sink.builder.start_node(kinds[n]);
                        proof {
                            assert(hn + opens(kinds@.take(n + 1)) =~= hn.push(Op::Open(kinds@[n as int]))
                                + opens(kinds@.take(n as int)));
                        }
                    }
                    proof {
                        assert(kinds@.take(0) =~= Seq::<SyntaxKind>::empty());
                        assert(sink.builder.spec_history() =~= h2 + opens(kinds@));
                    }
                    sink.eat_trivia();
                    proof {
                        lemma_taken_bound(log, sink.events@, idx + 1);
                    }
                },
                Event::Exit => {
                    sink.builder.finish_node();
                    sink.eat_trivia();
                    proof {
                        if idx == log.len() - 2 {
                            assert(log.take(log.len() - 1).drop_last() =~= log.take(
                                log.len() - 2,
                            ));
                            assert(log.take(log.len() as int).drop_last() =~= log.take(
                                log.len() - 1,
                            ));
                            assert(log.take(log.len() as int) =~= log);
                            assert(toks.take(toks.len() as int) =~= toks);
                            let c1 = sink.cursor as int;
                            if c1 < toks.len() {
                                lemma_skip_trivia(toks, c0);
                                assert(toks.take(c1 + 1).drop_last() =~= toks.take(c1));
                                lemma_meaningful_mono(toks, c1 + 1, toks.len() as int);
                            }
                        }
                    }
                },
                Event::Token { kind, .. } => {
                    sink.eat_trivia();
                    proof {
                        let c1 = sink.cursor as int;
                        lemma_token_events_mono(log, idx + 1, log.len() as int);
                        assert(log.take(log.len() as int) =~= log);
                        assert(toks.take(toks.len() as int) =~= toks);
                        if c1 < toks.len() {
                            assert(toks.take(c1 + 1).drop_last() =~= toks.take(c1));
                        }
                    }
                    let token = sink.tokens[sink.cursor];
                    sink.token(kind, token.text());
                },
            }
            idx += 1;
        }
        proof {
            assert(toks.take(toks.len() as int) =~= toks);
        }
        sink.builder.finish()
    }
}

proof fn lemma_taken_zero(log: Seq<Event>, k: int)
    requires
        0 <= k <= log.len(),
    ensures
        taken(log, log, k) == 0,
    decreases log.len() - k,
{
    if k < log.len() {
        lemma_taken_zero(log, k + 1);
    }
}

} // verus!
