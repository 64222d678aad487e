use vstd::prelude::*;

use crate::lexer::{Token, TokenKind};
use crate::span::RawSpan;
use crate::syntax::{syntax_of, SyntaxKind};

verus! {

/// Index of the first non-trivia token at or after `c`, or the length.
pub open spec fn skip_trivia(toks: Seq<Token>, c: int) -> int
    decreases toks.len() - c,
{
    if c < 0 || c >= toks.len() {
        c
    } else if toks[c].spec_kind().spec_is_trivia() {
        skip_trivia(toks, c + 1)
    } else {
        c
    }
}

/// The non-trivia tokens, in order, as the kind and span of their leaves.
pub open spec fn meaningful(toks: Seq<Token>) -> Seq<(SyntaxKind, RawSpan)>
    decreases toks.len(),
{
    if toks.len() == 0 {
        seq![]
    } else {
        let rest = meaningful(toks.drop_last());
        let t = toks.last();
        if t.spec_kind().spec_is_trivia() {
            rest
        } else {
            rest.push((syntax_of(t.spec_kind()), t.spec_span()))
        }
    }
}

/// Position of the `n`-th meaningful token at or after `c` (the first is the
/// 0-th), or the length.
pub open spec fn nth_meaningful(toks: Seq<Token>, c: int, n: int) -> int
    decreases n,
{
    let p = skip_trivia(toks, c);
    if n <= 0 || p >= toks.len() {
        p
    } else {
        nth_meaningful(toks, p + 1, n - 1)
    }
}

proof fn lemma_nth_meaningful_end(toks: Seq<Token>, c: int, n: int)
    requires
        c >= toks.len(),
    ensures
        nth_meaningful(toks, c, n) == c,
    decreases n,
{
}

pub proof fn lemma_skip_trivia(toks: Seq<Token>, c: int)
    requires
        0 <= c <= toks.len(),
    ensures
        c <= skip_trivia(toks, c) <= toks.len(),
        skip_trivia(toks, c) < toks.len() ==> !toks[skip_trivia(toks, c)].spec_kind().spec_is_trivia(),
        meaningful(toks.take(skip_trivia(toks, c))) == meaningful(toks.take(c)),
        forall|k: int| c <= k < skip_trivia(toks, c) ==> (#[trigger] toks[k]).spec_kind().spec_is_trivia(),
    decreases toks.len() - c,
{
    if c < toks.len() && toks[c].spec_kind().spec_is_trivia() {
        lemma_skip_trivia(toks, c + 1);
        assert(toks.take(c + 1).drop_last() =~= toks.take(c));
    }
}

/// Once only trivia is left, skipping from any later position reaches the end.
pub proof fn lemma_skip_trivia_end(toks: Seq<Token>, c: int, d: int)
    requires
        0 <= c <= d <= toks.len(),
        skip_trivia(toks, c) == toks.len(),
    ensures
        skip_trivia(toks, d) == toks.len(),
{
    lemma_skip_trivia(toks, c);
    lemma_skip_trivia(toks, d);
    if skip_trivia(toks, d) < toks.len() {
        assert(toks[skip_trivia(toks, d)].spec_kind().spec_is_trivia());
    }
}

/// Cursor over a token sequence that steps over trivia before each read.
#[derive(Debug)]
pub struct Source<'src, 'token> {
    tokens: &'token [Token<'src>],
    cursor: usize,
}

impl<'src, 'token> Source<'src, 'token> {
    pub closed spec fn spec_tokens(&self) -> Seq<Token<'src>> {
        self.tokens@
    }

    pub closed spec fn spec_cursor(&self) -> int {
        self.cursor as int
    }

    pub open spec fn wf(&self) -> bool {
        0 <= self.spec_cursor() <= self.spec_tokens().len()
    }

    /// The position of the next meaningful token, or the length.
    pub open spec fn spec_next(&self) -> int {
        skip_trivia(self.spec_tokens(), self.spec_cursor())
    }

    pub open spec fn spec_at_end(&self) -> bool {
        self.spec_next() == self.spec_tokens().len()
    }

    pub proof fn lemma_cursor_bound(&self)
        ensures
            0 <= self.spec_cursor(),
    {
    }

    pub fn new(tokens: &'token [Token<'src>]) -> (r: Self)
        ensures
            r.wf(),
            r.spec_tokens() == tokens@,
            r.spec_cursor() == 0,
    {
        Self { tokens, cursor: 0 }
    }

    /// The next meaningful token, consumed.
    pub fn next(&mut self) -> (r: Option<Token<'src>>)
        requires
            old(self).wf(),
        ensures
            final(self).wf(),
            final(self).spec_tokens() == old(self).spec_tokens(),
            old(self).spec_next() < old(self).spec_tokens().len() ==> r == Some(
                old(self).spec_tokens()[old(self).spec_next()],
            ) && final(self).spec_cursor() == old(self).spec_next() + 1,
            old(self).spec_at_end() ==> r is None && final(self).spec_cursor() == old(
                self,
            ).spec_next(),
    {
        self.eat_trivia();
        if self.cursor >= self.tokens.len() {
            return None;
        }
        let token = self.tokens[self.cursor];
        self.cursor += 1;
        Some(token)
    }

    /// The kind of the next meaningful token, not consumed.
    pub fn try_peek_kind(&mut self) -> (r: Option<TokenKind>)
        requires
            old(self).wf(),
        ensures
            final(self).wf(),
            final(self).spec_tokens() == old(self).spec_tokens(),
            final(self).spec_cursor() == old(self).spec_next(),
            final(self).spec_next() == old(self).spec_next(),
            old(self).spec_at_end() ==> r is None,
            !old(self).spec_at_end() ==> r == Some(
                old(self).spec_tokens()[old(self).spec_next()].spec_kind(),
            ),
    {
        self.eat_trivia();
        if self.cursor < self.tokens.len() {
            Some(self.tokens[self.cursor].kind())
        } else {
            None
        }
    }

    /// The `n`-th meaningful token from the cursor on (the next one is the
    /// 0-th), not consumed.
    pub fn try_peek_nth(&mut self, n: usize) -> (r: Option<Token<'src>>)
        requires
            old(self).wf(),
            n <= 4,
        ensures
            final(self).wf(),
            final(self).spec_tokens() == old(self).spec_tokens(),
            final(self).spec_cursor() == old(self).spec_next(),
            final(self).spec_next() == old(self).spec_next(),
            nth_meaningful(old(self).spec_tokens(), old(self).spec_cursor(), n as int) < old(
                self,
            ).spec_tokens().len() ==> r == Some(
                old(self).spec_tokens()[nth_meaningful(
                    old(self).spec_tokens(),
                    old(self).spec_cursor(),
                    n as int,
                )],
            ),
            nth_meaningful(old(self).spec_tokens(), old(self).spec_cursor(), n as int) >= old(
                self,
            ).spec_tokens().len() ==> r is None,
    {
        self.eat_trivia();
        let mut at = self.cursor;
        let mut k: usize = 0;
        proof {
            lemma_skip_trivia(self.tokens@, old(self).spec_cursor());
        }
        while k < n
            invariant
                self.wf(),
                self.tokens@ == old(self).spec_tokens(),
                self.cursor == old(self).spec_next(),
                k <= n,
                at <= self.tokens@.len(),
                nth_meaningful(self.tokens@, old(self).spec_cursor(), n as int)
                    == nth_meaningful(self.tokens@, at as int, n - k),
                at == skip_trivia(self.tokens@, at as int),
                self.spec_next() == old(self).spec_next(),
            decreases n - k,
        {
            if at >= self.tokens.len() {
                proof {
                    lemma_nth_meaningful_end(self.tokens@, at as int, n - k);
                }
                return None;
            }
            let ghost before = at as int;
            at = self.skip_from(at + 1);
            proof {
                let m = (n - k - 1) as int;
                assert(nth_meaningful(self.tokens@, before, (n - k) as int) == nth_meaningful(
                    self.tokens@,
                    before + 1,
                    m,
                ));
                assert(nth_meaningful(self.tokens@, before + 1, m) == nth_meaningful(
                    self.tokens@,
                    at as int,
                    m,
                ));
            }
            k += 1;
        }
        proof {
            lemma_skip_trivia(self.tokens@, self.cursor as int);
        }
        if at < self.tokens.len() {
            Some(self.tokens[at])
        } else {
            None
        }
    }

    /// Position of the first non-trivia token at or after `at`.
    fn skip_from(&self, at: usize) -> (r: usize)
        requires
            self.wf(),
            at <= self.spec_tokens().len(),
        ensures
            r == skip_trivia(self.spec_tokens(), at as int),
            r == skip_trivia(self.spec_tokens(), r as int),
            r <= self.spec_tokens().len(),
    {
        let mut j = at;
        proof {
            lemma_skip_trivia(self.tokens@, at as int);
        }
        while j < self.tokens.len() && self.tokens[j].kind().is_trivia()
            invariant
                at <= j <= self.tokens@.len(),
                skip_trivia(self.tokens@, j as int) == skip_trivia(self.tokens@, at as int),
            decreases self.tokens@.len() - j,
        {
            j += 1;
        }
        j
    }

    fn eat_trivia(&mut self)
        requires
            old(self).wf(),
        ensures
            final(self).wf(),
            final(self).spec_tokens() == old(self).spec_tokens(),
            final(self).spec_cursor() == old(self).spec_next(),
            final(self).spec_next() == old(self).spec_next(),
    {
        proof {
            lemma_skip_trivia(self.tokens@, self.cursor as int);
        }
        while self.cursor < self.tokens.len() && self.tokens[self.cursor].kind().is_trivia()
            invariant
                self.wf(),
                self.tokens@ == old(self).spec_tokens(),
                old(self).spec_cursor() <= self.cursor,
                skip_trivia(self.tokens@, self.cursor as int) == old(self).spec_next(),
            decreases self.tokens@.len() - self.cursor,
        {
            self.cursor += 1;
        }
    }
}

} // verus!
