use vstd::prelude::*;
use vstd::string::StringSliceAdditionalSpecFns;
use vstd::utf8::*;

use crate::span::RawSpan;

verus! {

broadcast use encode_utf8_valid_utf8;

/// Kind of lexed token.
#[derive(Debug, Clone, Copy, PartialEq, Eq, Structural, Hash)]
pub enum TokenKind {
    /// A run of bytes `\x01`-`\x09` and `\x0B`-`\x20` (control characters but
    /// NUL and newline, and the space).
    Whitespace,
    /// A single `\n`.
    Newline,
    /// `//` up to and including the next `\n`, or to the end of the text.
    LineComment,
    /// `/*` up to and including the next `*/`.
    BlockComment,
    /// A run of printable bytes `\x21`-`\x7E` other than braces.
    String,
    /// `"`, any bytes but `"`, then `"`.
    QuotedString,
    /// `{`
    LeftBrace,
    /// `}`
    RightBrace,
    /// A byte that starts no other token, with the UTF-8 continuation bytes
    /// after it. Kept for lossless parsing.
    Error,
}

impl TokenKind {
    pub open spec fn spec_is_trivia(self) -> bool {
        self == TokenKind::Whitespace || self == TokenKind::Newline || self
            == TokenKind::LineComment || self == TokenKind::BlockComment
    }

    pub open spec fn spec_is_comment(self) -> bool {
        self == TokenKind::LineComment || self == TokenKind::BlockComment
    }

    pub open spec fn spec_is_string(self) -> bool {
        self == TokenKind::String || self == TokenKind::QuotedString
    }

    /// Token is whitespace, newline or a comment.
    pub fn is_trivia(self) -> (r: bool)
        ensures
            r == self.spec_is_trivia(),
    {
        matches!(
            self,
            TokenKind::Whitespace | TokenKind::Newline | TokenKind::LineComment
                | TokenKind::BlockComment
        )
    }

    /// Token is a comment.
    pub fn is_comment(self) -> (r: bool)
        ensures
            r == self.spec_is_comment(),
    {
        matches!(self, TokenKind::LineComment | TokenKind::BlockComment)
    }

    /// Token is a string.
    pub fn is_string(self) -> (r: bool)
        ensures
            r == self.spec_is_string(),
    {
        matches!(self, TokenKind::String | TokenKind::QuotedString)
    }

    /// The variant's name, as diagnostics spell it.
    pub fn name(self) -> (r: &'static str)
        ensures
            r@ == kind_name(self),
    {
        match self {
            TokenKind::Whitespace => "Whitespace",
            TokenKind::Newline => "Newline",
            TokenKind::LineComment => "LineComment",
            TokenKind::BlockComment => "BlockComment",
            TokenKind::String => "String",
            TokenKind::QuotedString => "QuotedString",
            TokenKind::LeftBrace => "LeftBrace",
            TokenKind::RightBrace => "RightBrace",
            TokenKind::Error => "Error",
        }
    }

    /// A description of the kind in words.
    pub fn description(self) -> (r: &'static str)
        ensures
            r@ == kind_description(self),
    {
        match self {
            TokenKind::Whitespace => "whitespace",
            TokenKind::Newline => "newline",
            TokenKind::LineComment => "line comment",
            TokenKind::BlockComment => "block comment",
            TokenKind::String => "string",
            TokenKind::QuotedString => "quoted string",
            TokenKind::LeftBrace => "left brace",
            TokenKind::RightBrace => "right brace",
            TokenKind::Error => "error",
        }
    }
}

/// The variant's name.
pub open spec fn kind_name(kind: TokenKind) -> Seq<char> {
    match kind {
        TokenKind::Whitespace => "Whitespace"@,
        TokenKind::Newline => "Newline"@,
        TokenKind::LineComment => "LineComment"@,
        TokenKind::BlockComment => "BlockComment"@,
        TokenKind::String => "String"@,
        TokenKind::QuotedString => "QuotedString"@,
        TokenKind::LeftBrace => "LeftBrace"@,
        TokenKind::RightBrace => "RightBrace"@,
        TokenKind::Error => "Error"@,
    }
}

/// The kind in words.
pub open spec fn kind_description(kind: TokenKind) -> Seq<char> {
    match kind {
        TokenKind::Whitespace => "whitespace"@,
        TokenKind::Newline => "newline"@,
        TokenKind::LineComment => "line comment"@,
        TokenKind::BlockComment => "block comment"@,
        TokenKind::String => "string"@,
        TokenKind::QuotedString => "quoted string"@,
        TokenKind::LeftBrace => "left brace"@,
        TokenKind::RightBrace => "right brace"@,
        TokenKind::Error => "error"@,
    }
}

/// Position of a kind in declaration order.
pub open spec fn kind_index(kind: TokenKind) -> u16 {
    match kind {
        TokenKind::Whitespace => 0,
        TokenKind::Newline => 1,
        TokenKind::LineComment => 2,
        TokenKind::BlockComment => 3,
        TokenKind::String => 4,
        TokenKind::QuotedString => 5,
        TokenKind::LeftBrace => 6,
        TokenKind::RightBrace => 7,
        TokenKind::Error => 8,
    }
}

/// The kind at a position in declaration order.
pub open spec fn kind_at(i: int) -> TokenKind {
    if i <= 0 {
        TokenKind::Whitespace
    } else if i == 1 {
        TokenKind::Newline
    } else if i == 2 {
        TokenKind::LineComment
    } else if i == 3 {
        TokenKind::BlockComment
    } else if i == 4 {
        TokenKind::String
    } else if i == 5 {
        TokenKind::QuotedString
    } else if i == 6 {
        TokenKind::LeftBrace
    } else if i == 7 {
        TokenKind::RightBrace
    } else {
        TokenKind::Error
    }
}

/// Number of token kinds.
pub const KIND_COUNT: u16 = 9;

impl TokenKind {
    /// Position of the kind in declaration order.
    pub fn index(self) -> (r: u16)
        ensures
            r == kind_index(self),
            r < KIND_COUNT,
            kind_at(r as int) == self,
    {
        match self {
            TokenKind::Whitespace => 0,
            TokenKind::Newline => 1,
            TokenKind::LineComment => 2,
            TokenKind::BlockComment => 3,
            TokenKind::String => 4,
            TokenKind::QuotedString => 5,
            TokenKind::LeftBrace => 6,
            TokenKind::RightBrace => 7,
            TokenKind::Error => 8,
        }
    }

    /// The kind at a position in declaration order.
    pub fn at_index(i: u16) -> (r: TokenKind)
        requires
            i < KIND_COUNT,
        ensures
            r == kind_at(i as int),
            kind_index(r) == i,
    {
        if i == 0 {
            TokenKind::Whitespace
        } else if i == 1 {
            TokenKind::Newline
        } else if i == 2 {
            TokenKind::LineComment
        } else if i == 3 {
            TokenKind::BlockComment
        } else if i == 4 {
            TokenKind::String
        } else if i == 5 {
            TokenKind::QuotedString
        } else if i == 6 {
            TokenKind::LeftBrace
        } else if i == 7 {
            TokenKind::RightBrace
        } else {
            TokenKind::Error
        }
    }
}

/// The kind's flag: one bit, at its position in declaration order.
impl From<TokenKind> for u32 {
    fn from(kind: TokenKind) -> (r: u32)
        ensures
            r == 1u32 << kind_index(kind),
    {
        1u32 << kind.index()
    }
}

impl vstd::std_specs::convert::FromSpecImpl<TokenKind> for u32 {
    open spec fn obeys_from_spec() -> bool {
        true
    }

    open spec fn from_spec(kind: TokenKind) -> u32 {
        1u32 << kind_index(kind)
    }
}

/// A set of token kinds, one bit per kind.
#[derive(Debug, Clone, Copy, PartialEq, Eq, Structural, Hash)]
pub struct TokenSet {
    bits: u16,
}

proof fn lemma_bit_empty(j: u16)
    requires
        j < 16,
    ensures
        (0u16 >> j) & 1 != 1,
{
    assert((0u16 >> j) & 1 != 1) by (bit_vector)
        requires
            j < 16,
    ;
}

proof fn lemma_bit_set(a: u16, i: u16, j: u16)
    requires
        i < 16,
        j < 16,
    ensures
        ((a | (1u16 << i)) >> j) & 1 == 1 <==> ((a >> j) & 1 == 1 || i == j),
{
    assert(((a | (1u16 << i)) >> j) & 1 == 1 <==> ((a >> j) & 1 == 1 || i == j)) by (bit_vector)
        requires
            i < 16,
            j < 16,
    ;
}

impl TokenSet {
    /// Whether the set holds `kind`.
    pub closed spec fn has(self, kind: TokenKind) -> bool {
        (self.bits >> kind_index(kind)) & 1 == 1
    }

    /// The names of the members, in declaration order, joined by `, `.
    pub open spec fn names(self) -> Seq<char> {
        self.names_upto(KIND_COUNT as int)
    }

    pub open spec fn names_upto(self, n: int) -> Seq<char>
        decreases n,
    {
        if n <= 0 {
            seq![]
        } else {
            let prev = self.names_upto(n - 1);
            let kind = kind_at(n - 1);
            if !self.has(kind) {
                prev
            } else if prev.len() == 0 {
                kind_name(kind)
            } else {
                prev + ", "@ + kind_name(kind)
            }
        }
    }

    /// The empty set.
    pub fn new() -> (r: Self)
        ensures
            forall|k: TokenKind| !r.has(k),
    {
        let r = TokenSet { bits: 0 };
        assert forall|k: TokenKind| !r.has(k) by {
            lemma_bit_empty(kind_index(k));
        }
        r
    }

    /// This set with `kind` added.
    pub fn with(self, kind: TokenKind) -> (r: Self)
        ensures
            forall|k: TokenKind| r.has(k) == (self.has(k) || k == kind),
    {
        let i = kind.index();
        let r = TokenSet { bits: self.bits | (1u16 << i) };
        assert forall|k: TokenKind| r.has(k) == (self.has(k) || k == kind) by {
            lemma_bit_set(self.bits, i, kind_index(k));
        }
        r
    }

    /// Whether the set holds `kind`.
    pub fn contains(self, kind: TokenKind) -> (r: bool)
        ensures
            r == self.has(kind),
    {
        (self.bits >> kind.index()) & 1 == 1
    }

    /// The set of `String` and `QuotedString`.
    pub fn strings() -> (r: Self)
        ensures
            forall|k: TokenKind| #[trigger] r.has(k) == k.spec_is_string(),
    {
        TokenSet::new().with(TokenKind::String).with(TokenKind::QuotedString)
    }
}

/// Token produced by the lexer: its kind, its span and the text under it.
#[derive(Debug, Clone, Copy, PartialEq, Eq, Hash)]
pub struct Token<'src> {
    kind: TokenKind,
    span: RawSpan,
    text: &'src str,
}

/// A token as the lexer's specification sees it: kind, start and end offset.
pub type Lexeme = (TokenKind, int, int);

impl<'src> View for Token<'src> {
    type V = Lexeme;

    open spec fn view(&self) -> Lexeme {
        (self.spec_kind(), self.spec_span().spec_start(), self.spec_span().spec_end())
    }
}

impl<'src> Token<'src> {
    pub closed spec fn spec_kind(&self) -> TokenKind {
        self.kind
    }

    pub closed spec fn spec_span(&self) -> RawSpan {
        self.span
    }

    pub closed spec fn spec_text(&self) -> &'src str {
        self.text
    }

    /// Creates a new token for the given kind.
    pub fn new(kind: TokenKind, span: RawSpan, text: &'src str) -> (r: Self)
        ensures
            r.spec_kind() == kind,
            r.spec_span() == span,
            r.spec_text() == text,
    {
        Self { kind, span, text }
    }

    /// Get the token's kind.
    pub fn kind(&self) -> (r: TokenKind)
        ensures
            r == self.spec_kind(),
    {
        self.kind
    }

    /// Get the token's span.
    pub fn span(&self) -> (r: RawSpan)
        ensures
            r == self.spec_span(),
    {
        self.span
    }

    /// Get the token's text.
    pub fn text(&self) -> (r: &'src str)
        ensures
            r == self.spec_text(),
    {
        self.text
    }
}

/// Bytes of whitespace runs.
pub open spec fn is_space_byte(c: u8) -> bool {
    (0x01 <= c <= 0x09) || (0x0B <= c <= 0x20)
}

/// Bytes of barewords: printable, not a brace.
pub open spec fn is_bare_byte(c: u8) -> bool {
    0x21 <= c <= 0x7E && c != 0x7B && c != 0x7D
}

/// End of the run of whitespace bytes that starts at `i`.
pub open spec fn space_end(b: Seq<u8>, i: int) -> int
    decreases b.len() - i,
{
    if 0 <= i < b.len() && is_space_byte(b[i]) {
        space_end(b, i + 1)
    } else {
        i
    }
}

/// End of the run of bareword bytes that starts at `i`.
pub open spec fn bare_end(b: Seq<u8>, i: int) -> int
    decreases b.len() - i,
{
    if 0 <= i < b.len() && is_bare_byte(b[i]) {
        bare_end(b, i + 1)
    } else {
        i
    }
}

/// End of the run of UTF-8 continuation bytes that starts at `i`.
pub open spec fn cont_end(b: Seq<u8>, i: int) -> int
    decreases b.len() - i,
{
    if 0 <= i < b.len() && is_continuation_byte(b[i]) {
        cont_end(b, i + 1)
    } else {
        i
    }
}

/// Offset just past the first `\n` at or after `i`, or the end of the text.
pub open spec fn line_end(b: Seq<u8>, i: int) -> int
    decreases b.len() - i,
{
    if i < 0 || i >= b.len() {
        b.len() as int
    } else if b[i] == 0x0A {
        i + 1
    } else {
        line_end(b, i + 1)
    }
}

/// Offset of the first `"` at or after `i`, or the length of the text.
pub open spec fn quote_at(b: Seq<u8>, i: int) -> int
    decreases b.len() - i,
{
    if i < 0 || i >= b.len() {
        b.len() as int
    } else if b[i] == 0x22 {
        i
    } else {
        quote_at(b, i + 1)
    }
}

/// Offset of the first `*/` at or after `i`, or the length of the text.
pub open spec fn close_at(b: Seq<u8>, i: int) -> int
    decreases b.len() - i,
{
    if i < 0 || i + 1 >= b.len() {
        b.len() as int
    } else if b[i] == 0x2A && b[i + 1] == 0x2F {
        i
    } else {
        close_at(b, i + 1)
    }
}

/// The token that starts at offset `i`: its kind and its end offset.
/// Where several rules match, the first one listed wins.
pub open spec fn scan(b: Seq<u8>, i: int) -> (TokenKind, int)
    recommends
        0 <= i < b.len(),
{
    let c = b[i];
    if c == 0x0A {
        (TokenKind::Newline, i + 1)
    } else if c == 0x2F && i + 1 < b.len() && b[i + 1] == 0x2F {
        (TokenKind::LineComment, line_end(b, i + 2))
    } else if c == 0x2F && i + 1 < b.len() && b[i + 1] == 0x2A && close_at(b, i + 2) < b.len() {
        (TokenKind::BlockComment, close_at(b, i + 2) + 2)
    } else if c == 0x22 && quote_at(b, i + 1) < b.len() {
        (TokenKind::QuotedString, quote_at(b, i + 1) + 1)
    } else if is_bare_byte(c) {
        (TokenKind::String, bare_end(b, i))
    } else if is_space_byte(c) {
        (TokenKind::Whitespace, space_end(b, i))
    } else if c == 0x7B {
        (TokenKind::LeftBrace, i + 1)
    } else if c == 0x7D {
        (TokenKind::RightBrace, i + 1)
    } else {
        (TokenKind::Error, cont_end(b, i + 1))
    }
}

/// The tokens of `b` from offset `i` on.
pub open spec fn lex_from(b: Seq<u8>, i: int) -> Seq<Lexeme>
    decreases b.len() - i,
{
    if i < 0 || i >= b.len() {
        seq![]
    } else {
        let (kind, end) = scan(b, i);
        if end <= i || end > b.len() {
            seq![]
        } else {
            seq![(kind, i, end)] + lex_from(b, end)
        }
    }
}

/// The tokens of `b`.
pub open spec fn lex(b: Seq<u8>) -> Seq<Lexeme> {
    lex_from(b, 0)
}

/// The text that a token sequence spells, each token's span read from `b`.
pub open spec fn rebuild(b: Seq<u8>, toks: Seq<Lexeme>) -> Seq<u8>
    decreases toks.len(),
{
    if toks.len() == 0 {
        seq![]
    } else {
        b.subrange(toks[0].1, toks[0].2) + rebuild(b, toks.drop_first())
    }
}

/// The concatenated text of tokens.
pub open spec fn texts(toks: Seq<Token>) -> Seq<u8>
    decreases toks.len(),
{
    if toks.len() == 0 {
        seq![]
    } else {
        texts(toks.drop_last()) + toks.last().spec_text().spec_bytes()
    }
}

proof fn lemma_space_end(b: Seq<u8>, i: int)
    requires
        0 <= i <= b.len(),
    ensures
        i <= space_end(b, i) <= b.len(),
        forall|k: int| i <= k < space_end(b, i) ==> is_space_byte(#[trigger] b[k]),
    decreases b.len() - i,
{
    if i < b.len() && is_space_byte(b[i]) {
        lemma_space_end(b, i + 1);
    }
}

proof fn lemma_bare_end(b: Seq<u8>, i: int)
    requires
        0 <= i <= b.len(),
    ensures
        i <= bare_end(b, i) <= b.len(),
        forall|k: int| i <= k < bare_end(b, i) ==> is_bare_byte(#[trigger] b[k]),
    decreases b.len() - i,
{
    if i < b.len() && is_bare_byte(b[i]) {
        lemma_bare_end(b, i + 1);
    }
}

proof fn lemma_cont_end(b: Seq<u8>, i: int)
    requires
        0 <= i <= b.len(),
    ensures
        i <= cont_end(b, i) <= b.len(),
        cont_end(b, i) < b.len() ==> !is_continuation_byte(b[cont_end(b, i)]),
    decreases b.len() - i,
{
    if i < b.len() && is_continuation_byte(b[i]) {
        lemma_cont_end(b, i + 1);
    }
}

proof fn lemma_line_end(b: Seq<u8>, i: int)
    requires
        0 <= i,
    ensures
        line_end(b, i) == b.len() || (i < line_end(b, i) <= b.len() && b[line_end(b, i) - 1]
            == 0x0A),
    decreases b.len() - i,
{
    if i < b.len() && b[i] != 0x0A {
        lemma_line_end(b, i + 1);
    }
}

proof fn lemma_quote_at(b: Seq<u8>, i: int)
    requires
        0 <= i,
    ensures
        quote_at(b, i) == b.len() || (i <= quote_at(b, i) < b.len() && b[quote_at(b, i)]
            == 0x22),
    decreases b.len() - i,
{
    if i < b.len() && b[i] != 0x22 {
        lemma_quote_at(b, i + 1);
    }
}

proof fn lemma_close_at(b: Seq<u8>, i: int)
    requires
        0 <= i,
    ensures
        close_at(b, i) == b.len() || (i <= close_at(b, i) && close_at(b, i) + 1 < b.len()
            && b[close_at(b, i) + 1] == 0x2F),
    decreases b.len() - i,
{
    if i + 1 < b.len() && !(b[i] == 0x2A && b[i + 1] == 0x2F) {
        lemma_close_at(b, i + 1);
    }
}

/// Every token is non-empty, and ends at the end of the text, after an ASCII
/// byte, or (an error token) before a byte that is no continuation byte.
proof fn lemma_scan(b: Seq<u8>, i: int)
    requires
        0 <= i < b.len(),
    ensures
        i < scan(b, i).1 <= b.len(),
        scan(b, i).1 < b.len() && scan(b, i).0 != TokenKind::Error ==> b[scan(b, i).1 - 1]
            < 0x80,
        scan(b, i).1 < b.len() && scan(b, i).0 == TokenKind::Error ==> !is_continuation_byte(
            b[scan(b, i).1],
        ),
{
    let c = b[i];
    if c == 0x0A {
    } else if c == 0x2F && i + 1 < b.len() && b[i + 1] == 0x2F {
        lemma_line_end(b, i + 2);
    } else if c == 0x2F && i + 1 < b.len() && b[i + 1] == 0x2A && close_at(b, i + 2) < b.len() {
        lemma_close_at(b, i + 2);
    } else if c == 0x22 && quote_at(b, i + 1) < b.len() {
        lemma_quote_at(b, i + 1);
    } else if is_bare_byte(c) {
        lemma_bare_end(b, i);
        lemma_bare_end(b, i + 1);
        assert(is_bare_byte(b[bare_end(b, i) - 1]));
    } else if is_space_byte(c) {
        lemma_space_end(b, i);
        lemma_space_end(b, i + 1);
        assert(is_space_byte(b[space_end(b, i) - 1]));
    } else if c == 0x7B || c == 0x7D {
    } else {
        lemma_cont_end(b, i + 1);
    }
}

/// In valid UTF-8, the byte after an ASCII byte starts a character.
proof fn lemma_after_ascii(b: Seq<u8>, p: int)
    requires
        valid_utf8(b),
        0 <= p,
        p + 1 < b.len(),
        b[p] < 0x80,
    ensures
        !is_continuation_byte(b[p + 1]),
{
    is_char_boundary_iff_not_is_continuation_byte(b, p);
    valid_utf8_split(b, p);
    let s = b.subrange(p, b.len() as int);
    assert(s[0] == b[p]);
    let t = pop_first_scalar(s);
    assert(t =~= b.subrange(p + 1, b.len() as int));
    is_char_boundary_iff_not_is_continuation_byte(t, 0);
    assert(t[0] == b[p + 1]);
}

/// Lossless: the tokens of `b` from `i` on spell `b` from `i` on.
pub proof fn lemma_lex_from_covers(b: Seq<u8>, i: int)
    requires
        0 <= i <= b.len(),
    ensures
        rebuild(b, lex_from(b, i)) == b.subrange(i, b.len() as int),
    decreases b.len() - i,
{
    if i == b.len() {
        assert(b.subrange(i, b.len() as int) =~= seq![]);
    } else {
        lemma_scan(b, i);
        let e = scan(b, i).1;
        lemma_lex_from_covers(b, e);
        let toks = lex_from(b, i);
        assert(toks.drop_first() == lex_from(b, e));
        assert(b.subrange(i, e) + b.subrange(e, b.len() as int) =~= b.subrange(
            i,
            b.len() as int,
        ));
    }
}

/// There are no more tokens than bytes.
pub proof fn lemma_lex_from_len(b: Seq<u8>, i: int)
    requires
        0 <= i <= b.len(),
    ensures
        lex_from(b, i).len() <= b.len() - i,
    decreases b.len() - i,
{
    if i < b.len() {
        lemma_scan(b, i);
        lemma_lex_from_len(b, scan(b, i).1);
    }
}

/// Concatenating every token's text, in order, gives back the input.
pub proof fn lemma_lossless(b: Seq<u8>)
    ensures
        rebuild(b, lex(b)) == b,
{
    lemma_lex_from_covers(b, 0);
    assert(b.subrange(0, b.len() as int) =~= b);
}

/// Lexing the text that a token sequence spells gives the same sequence.
pub proof fn lemma_relex(b: Seq<u8>)
    ensures
        lex(rebuild(b, lex(b))) == lex(b),
{
    lemma_lossless(b);
}

fn is_space(c: u8) -> (r: bool)
    ensures
        r == is_space_byte(c),
{
    (0x01 <= c && c <= 0x09) || (0x0B <= c && c <= 0x20)
}

fn is_bare(c: u8) -> (r: bool)
    ensures
        r == is_bare_byte(c),
{
    0x21 <= c && c <= 0x7E && c != 0x7B && c != 0x7D
}

fn exec_space_end(b: &[u8], i: usize) -> (e: usize)
    requires
        i <= b@.len(),
    ensures
        e == space_end(b@, i as int),
{
    let mut j = i;
    while j < b.len() && is_space(b[j])
        invariant
            i <= j <= b@.len(),
            space_end(b@, j as int) == space_end(b@, i as int),
        decreases b@.len() - j,
    {
        j += 1;
    }
    j
}

fn exec_bare_end(b: &[u8], i: usize) -> (e: usize)
    requires
        i <= b@.len(),
    ensures
        e == bare_end(b@, i as int),
{
    let mut j = i;
    while j < b.len() && is_bare(b[j])
        invariant
            i <= j <= b@.len(),
            bare_end(b@, j as int) == bare_end(b@, i as int),
        decreases b@.len() - j,
    {
        j += 1;
    }
    j
}

fn exec_cont_end(b: &[u8], i: usize) -> (e: usize)
    requires
        i <= b@.len(),
    ensures
        e == cont_end(b@, i as int),
{
    let mut j = i;
    while j < b.len() && 0x80 <= b[j] && b[j] <= 0xBF
        invariant
            i <= j <= b@.len(),
            cont_end(b@, j as int) == cont_end(b@, i as int),
        decreases b@.len() - j,
    {
        j += 1;
    }
    j
}

fn exec_line_end(b: &[u8], i: usize) -> (e: usize)
    requires
        i <= b@.len(),
    ensures
        e == line_end(b@, i as int),
{
    let mut j = i;
    while j < b.len() && b[j] != 0x0A
        invariant
            i <= j <= b@.len(),
            line_end(b@, j as int) == line_end(b@, i as int),
        decreases b@.len() - j,
    {
        j += 1;
    }
    if j < b.len() {
        j + 1
    } else {
        j
    }
}

fn exec_quote_at(b: &[u8], i: usize) -> (e: usize)
    requires
        i <= b@.len(),
    ensures
        e == quote_at(b@, i as int),
{
    let mut j = i;
    while j < b.len() && b[j] != 0x22
        invariant
            i <= j <= b@.len(),
            quote_at(b@, j as int) == quote_at(b@, i as int),
        decreases b@.len() - j,
    {
        j += 1;
    }
    j
}

fn exec_close_at(b: &[u8], i: usize) -> (e: usize)
    requires
        i <= b@.len(),
    ensures
        e == close_at(b@, i as int),
{
    let mut j = i;
    while j < b.len() && j + 1 < b.len() && !(b[j] == 0x2A && b[j + 1] == 0x2F)
        invariant
            i <= j <= b@.len(),
            close_at(b@, j as int) == close_at(b@, i as int),
        decreases b@.len() - j,
    {
        j += 1;
    }
    if j < b.len() && j + 1 < b.len() {
        j
    } else {
        b.len()
    }
}

fn exec_scan(b: &[u8], i: usize) -> (r: (TokenKind, usize))
    requires
        i < b@.len(),
    ensures
        r.0 == scan(b@, i as int).0,
        r.1 == scan(b@, i as int).1,
{
    let c = b[i];
    if c == 0x0A {
        return (TokenKind::Newline, i + 1);
    }
    if c == 0x2F && i + 1 < b.len() && b[i + 1] == 0x2F {
        return (TokenKind::LineComment, exec_line_end(b, i + 2));
    }
    if c == 0x2F && i + 1 < b.len() && b[i + 1] == 0x2A {
        let close = exec_close_at(b, i + 2);
        proof {
            lemma_close_at(b@, i + 2);
        }
        if close < b.len() {
            return (TokenKind::BlockComment, close + 2);
        }
    }
    if c == 0x22 {
        let quote = exec_quote_at(b, i + 1);
        if quote < b.len() {
            return (TokenKind::QuotedString, quote + 1);
        }
    }
    if is_bare(c) {
        (TokenKind::String, exec_bare_end(b, i))
    } else if is_space(c) {
        (TokenKind::Whitespace, exec_space_end(b, i))
    } else if c == 0x7B {
        (TokenKind::LeftBrace, i + 1)
    } else if c == 0x7D {
        (TokenKind::RightBrace, i + 1)
    } else {
        (TokenKind::Error, exec_cont_end(b, i + 1))
    }
}

/// Lexer over a text: produces its tokens one at a time, in order.
#[derive(Debug)]
pub struct Lexer<'src> {
    source: &'src str,
    pos: usize,
}

impl<'src> Lexer<'src> {
    pub closed spec fn spec_source(&self) -> &'src str {
        self.source
    }

    /// Offset of the next token.
    pub closed spec fn spec_pos(&self) -> int {
        self.pos as int
    }

    pub closed spec fn wf(&self) -> bool {
        let b = self.source.spec_bytes();
        &&& b.len() <= u32::MAX
        &&& self.pos <= b.len()
        &&& self.pos < b.len() ==> !is_continuation_byte(b[self.pos as int])
    }

    /// The tokens not yet produced.
    pub closed spec fn remaining(&self) -> Seq<Lexeme> {
        lex_from(self.source.spec_bytes(), self.pos as int)
    }

    /// Creates a new lexer for the given source.
    pub fn new(source: &'src str) -> (r: Self)
        requires
            source.spec_bytes().len() <= u32::MAX,
        ensures
            r.wf(),
            r.spec_source() == source,
            r.spec_pos() == 0,
            r.remaining() == lex(source.spec_bytes()),
    {
        proof {
            let b = source.spec_bytes();
            if b.len() > 0 {
                is_char_boundary_iff_not_is_continuation_byte(b, 0);
            }
        }
        Self { source, pos: 0 }
    }

    /// Gets the source of this lexer.
    pub fn source(&self) -> (r: &'src str)
        ensures
            r == self.spec_source(),
    {
        self.source
    }

    /// The next token, or `None` at the end of the text.
    pub fn next(&mut self) -> (r: Option<Token<'src>>)
        requires
            old(self).wf(),
        ensures
            final(self).wf(),
            final(self).spec_source() == old(self).spec_source(),
            match r {
                None => old(self).remaining().len() == 0 && *final(self) == *old(self),
                Some(t) => {
                    &&& old(self).remaining().len() > 0
                    &&& t@ == old(self).remaining()[0]
                    &&& final(self).remaining() == old(self).remaining().drop_first()
                    &&& final(self).spec_pos() == t@.2
                    &&& t.spec_text().spec_bytes() == old(self).spec_source().spec_bytes().subrange(
                        t@.1,
                        t@.2,
                    )
                },
            },
    {
        let bytes = self.source.as_bytes();
        let ghost b = self.source.spec_bytes();
        if self.pos >= bytes.len() {
            return None;
        }
        let start = self.pos;
        let (kind, end) = exec_scan(bytes, start);
        proof {
            lemma_scan(b, start as int);
            if end < b.len() {
                if kind != TokenKind::Error {
                    lemma_after_ascii(b, end - 1);
                }
                is_char_boundary_iff_not_is_continuation_byte(b, end as int);
            } else {
                is_char_boundary_start_end_of_seq(b);
            }
        }
        let (head, _) = self.source.split_at(end);
        proof {
            let hb = head.spec_bytes();
            assert(hb[start as int] == b[start as int]);
            is_char_boundary_iff_not_is_continuation_byte(hb, start as int);
        }
        let (_, text) = head.split_at(start);
        proof {
            assert(text.spec_bytes() =~= b.subrange(start as int, end as int));
        }
        self.pos = end;
        Some(Token::new(kind, RawSpan::new(start as u32, end as u32), text))
    }

    /// All tokens not yet produced, in order.
    pub fn collect(self) -> (r: Vec<Token<'src>>)
        requires
            self.wf(),
        ensures
            r@.map_values(|t: Token<'src>| t@) == self.remaining(),
            forall|k: int|
                0 <= k < r@.len() ==> (#[trigger] r@[k]).spec_text().spec_bytes()
                    == self.spec_source().spec_bytes().subrange(r@[k]@.1, r@[k]@.2),
            texts(r@) == self.spec_source().spec_bytes().subrange(
                self.spec_pos(),
                self.spec_source().spec_bytes().len() as int,
            ),
    {
        let mut lexer = self;
        let mut tokens: Vec<Token<'src>> = Vec::new();
        let ghost b = self.source.spec_bytes();
        loop
            invariant
                b == self.spec_source().spec_bytes(),
                lexer.wf(),
                lexer.spec_source() == self.spec_source(),
                self.spec_pos() <= lexer.spec_pos(),
                tokens@.map_values(|t: Token<'src>| t@) + lexer.remaining() == self.remaining(),
                forall|k: int|
                    0 <= k < tokens@.len() ==> (#[trigger] tokens@[k]).spec_text().spec_bytes()
                        == b.subrange(tokens@[k]@.1, tokens@[k]@.2),
                texts(tokens@) == b.subrange(self.spec_pos(), lexer.spec_pos()),
            decreases b.len() - lexer.spec_pos(),
        {
            let ghost before = lexer;
            let next = lexer.next();
            match next {
                None => {
                    assert(tokens@.map_values(|t: Token<'src>| t@) + lexer.remaining()
                        =~= tokens@.map_values(|t: Token<'src>| t@));
                    proof {
                        lemma_lex_from_covers(b, lexer.spec_pos());
                    }
                    assert(lexer.spec_pos() == b.len()) by {
                        if lexer.spec_pos() < b.len() {
                            lemma_scan(b, lexer.spec_pos());
                        }
                    }
                    return tokens;
                },
                Some(t) => {
                    proof {
                        lemma_scan(b, before.spec_pos());
                    }
                    let ghost old_tokens = tokens@;
                    tokens.push(t);
                    proof {
                        assert(tokens@.drop_last() =~= old_tokens);
                        assert(tokens@.map_values(|t: Token<'src>| t@) =~= old_tokens.map_values(
                            |t: Token<'src>| t@,
                        ).push(t@));
                        assert(before.remaining() =~= seq![t@] + lexer.remaining());
                        assert(tokens@.map_values(|t: Token<'src>| t@) + lexer.remaining()
                            =~= old_tokens.map_values(|t: Token<'src>| t@) + before.remaining());
                        assert(b.subrange(self.spec_pos(), before.spec_pos()) + b.subrange(
                            before.spec_pos(),
                            lexer.spec_pos(),
                        ) =~= b.subrange(self.spec_pos(), lexer.spec_pos()));
                    }
                },
            }
        }
    }
}

/// The tokens of `source`, in order.
pub fn tokenize<'src>(source: &'src str) -> (r: Vec<Token<'src>>)
    requires
        source.spec_bytes().len() <= u32::MAX,
    ensures
        r@.map_values(|t: Token<'src>| t@) == lex(source.spec_bytes()),
        forall|k: int|
            0 <= k < r@.len() ==> (#[trigger] r@[k]).spec_text().spec_bytes()
                == source.spec_bytes().subrange(r@[k]@.1, r@[k]@.2),
        texts(r@) == source.spec_bytes(),
        r@.len() <= source.spec_bytes().len(),
{
    proof {
        lemma_lex_from_len(source.spec_bytes(), 0);
    }
    let lexer = Lexer::new(source);
    let r = lexer.collect();
    assert(r@.map_values(|t: Token<'src>| t@).len() == r@.len());
    assert(source.spec_bytes().subrange(0, source.spec_bytes().len() as int)
        =~= source.spec_bytes());
    r
}

} // verus!
