use vstd::prelude::*;
use vstd::string::StringSliceAdditionalSpecFns;

use crate::syntax::SyntaxKind;

verus! {

/// One node of the arena: its kind, the index just past its subtree, and
/// for a leaf the text it spells.
#[derive(Debug, Clone, Copy, PartialEq, Eq)]
struct Node<'src> {
    kind: SyntaxKind,
    end: usize,
    text: Option<&'src str>,
}

/// One step of building a tree: open a node, add a leaf, close a node.
pub enum Op {
    Open(SyntaxKind),
    Leaf(SyntaxKind, Seq<u8>),
    Close,
}

/// A node as the specification sees it: kind, index just past its subtree,
/// and the text of a leaf.
pub struct NodeView {
    pub kind: SyntaxKind,
    pub end: int,
    pub text: Option<Seq<u8>>,
}

/// The nodes (in preorder) and the open nodes that a sequence of steps
/// builds. An open node's end is 0 until it is closed.
pub open spec fn apply(ops: Seq<Op>) -> (Seq<NodeView>, Seq<int>)
    decreases ops.len(),
{
    if ops.len() == 0 {
        (seq![], seq![])
    } else {
        let (nodes, open) = apply(ops.drop_last());
        match ops.last() {
            Op::Open(kind) => (
                nodes.push(NodeView { kind, end: 0, text: None }),
                open.push(nodes.len() as int),
            ),
            Op::Leaf(kind, text) => (
                nodes.push(NodeView { kind, end: nodes.len() + 1int, text: Some(text) }),
                open,
            ),
            Op::Close => if open.len() == 0 {
                (nodes, open)
            } else {
                let t = open.last();
                (
                    nodes.update(
                        t,
                        NodeView { kind: nodes[t].kind, end: nodes.len() as int, text: nodes[t].text },
                    ),
                    open.drop_last(),
                )
            },
        }
    }
}

spec fn view_of<'src>(node: Node<'src>) -> NodeView {
    NodeView {
        kind: node.kind,
        end: node.end as int,
        text: match node.text {
            Some(t) => Some(t.spec_bytes()),
            None => None,
        },
    }
}

spec fn leaf_bytes<'src>(node: Node<'src>) -> Seq<u8> {
    match node.text {
        Some(t) => t.spec_bytes(),
        None => seq![],
    }
}

/// Concatenated text of the leaves among the first `m` nodes.
spec fn text_upto<'src>(nodes: Seq<Node<'src>>, m: int) -> Seq<u8>
    decreases m,
{
    if m <= 0 {
        seq![]
    } else {
        text_upto(nodes, m - 1) + leaf_bytes(nodes[m - 1])
    }
}

proof fn lemma_text_upto_same<'src>(a: Seq<Node<'src>>, b: Seq<Node<'src>>, m: int)
    requires
        0 <= m <= a.len(),
        m <= b.len(),
        forall|i: int| 0 <= i < m ==> (#[trigger] a[i]).text == b[i].text,
    ensures
        text_upto(a, m) == text_upto(b, m),
    decreases m,
{
    if m > 0 {
        lemma_text_upto_same(a, b, m - 1);
    }
}

/// The syntax tree: an arena of nodes in preorder. A node's subtree is the
/// node itself and the nodes after it up to its `end`; leaves hold text,
/// interior nodes hold their children.
#[derive(Debug)]
pub struct SyntaxTree<'src> {
    nodes: Vec<Node<'src>>,
}

impl<'src> SyntaxTree<'src> {
    /// The nodes, in preorder.
    pub closed spec fn spec_nodes(&self) -> Seq<NodeView> {
        self.nodes@.map_values(|n: Node<'src>| view_of(n))
    }

    pub closed spec fn spec_len(&self) -> int {
        self.nodes@.len() as int
    }

    pub closed spec fn spec_kind(&self, i: int) -> SyntaxKind {
        self.nodes@[i].kind
    }

    /// One past the last node of `i`'s subtree.
    pub closed spec fn spec_end(&self, i: int) -> int {
        self.nodes@[i].end as int
    }

    pub closed spec fn spec_is_leaf(&self, i: int) -> bool {
        self.nodes@[i].text is Some
    }

    /// The text of node `i` if it is a leaf, else empty.
    pub closed spec fn spec_leaf_bytes(&self, i: int) -> Seq<u8> {
        leaf_bytes(self.nodes@[i])
    }

    /// The text of the leaves among the first `m` nodes, in order.
    pub open spec fn text_upto(&self, m: int) -> Seq<u8>
        decreases m,
    {
        if m <= 0 {
            seq![]
        } else {
            self.text_upto(m - 1) + self.spec_leaf_bytes(m - 1)
        }
    }

    /// The leaves' text, in order.
    pub open spec fn spec_text(&self) -> Seq<u8> {
        self.text_upto(self.spec_len())
    }

    proof fn lemma_text_upto(&self, m: int)
        requires
            0 <= m <= self.spec_len(),
        ensures
            self.text_upto(m) == text_upto(self.nodes@, m),
        decreases m,
    {
        if m > 0 {
            self.lemma_text_upto(m - 1);
        }
    }

    /// A single root spans every node, every subtree lies inside its
    /// parent's, and leaves have no children: each node is opened once and
    /// closed once.
    pub open spec fn wf(&self) -> bool {
        &&& self.spec_len() >= 1
        &&& self.spec_end(0) == self.spec_len()
        &&& forall|i: int|
            0 <= i < self.spec_len() ==> i < #[trigger] self.spec_end(i) <= self.spec_len()
        &&& forall|i: int|
            0 <= i < self.spec_len() && #[trigger] self.spec_is_leaf(i) ==> self.spec_end(i) == i
                + 1
        &&& forall|i: int, j: int|
            0 <= i < j < self.spec_end(i) && i < self.spec_len() ==> #[trigger] self.spec_end(j)
                <= #[trigger] self.spec_end(i)
    }

    /// Number of nodes.
    pub fn len(&self) -> (r: usize)
        ensures
            r == self.spec_len(),
    {
        self.nodes.len()
    }

    pub fn kind(&self, i: usize) -> (r: SyntaxKind)
        requires
            i < self.spec_len(),
        ensures
            r == self.spec_kind(i as int),
    {
        self.nodes[i].kind
    }

    /// One past the last node of `i`'s subtree.
    pub fn end(&self, i: usize) -> (r: usize)
        requires
            i < self.spec_len(),
        ensures
            r == self.spec_end(i as int),
    {
        self.nodes[i].end
    }

    /// The text of a leaf; `None` for an interior node.
    pub fn text(&self, i: usize) -> (r: Option<&'src str>)
        requires
            i < self.spec_len(),
        ensures
            r is Some == self.spec_is_leaf(i as int),
            r matches Some(t) ==> t.spec_bytes() == self.spec_leaf_bytes(i as int),
    {
        self.nodes[i].text
    }

    /// The children of node `i`, in order: the first follows `i`, each next
    /// one follows the subtree of the one before, up to `i`'s end.
    pub fn children(&self, i: usize) -> (r: Vec<usize>)
        requires
            self.wf(),
            i < self.spec_len(),
        ensures
            forall|k: int| 0 <= k < r@.len() ==> i < #[trigger] r@[k] < self.spec_end(i as int),
            r@.len() > 0 ==> r@[0] == i + 1,
            forall|k: int|
                0 <= k < r@.len() - 1 ==> r@[k + 1] == self.spec_end(#[trigger] r@[k] as int),
            r@.len() > 0 ==> self.spec_end(r@[r@.len() - 1] as int) == self.spec_end(i as int),
            r@.len() == 0 ==> self.spec_end(i as int) == i + 1,
    {
        let end = self.nodes[i].end;
        assert(i < self.spec_end(i as int));
        let mut r: Vec<usize> = Vec::new();
        let mut j = i + 1;
        while j < end
            invariant
                self.wf(),
                i < self.spec_len(),
                end == self.spec_end(i as int),
                i < j <= end,
                forall|k: int| 0 <= k < r@.len() ==> i < #[trigger] r@[k] < end,
                r@.len() > 0 ==> r@[0] == i + 1,
                r@.len() == 0 ==> j == i + 1,
                r@.len() > 0 ==> j == self.spec_end(r@[r@.len() - 1] as int),
                forall|k: int|
                    0 <= k < r@.len() - 1 ==> r@[k + 1] == self.spec_end(#[trigger] r@[k] as int),
            decreases end - j,
        {
            let ghost prev = r@;
            r.push(j);
            assert(self.spec_end(j as int) <= self.spec_end(i as int));
            j = self.nodes[j].end;
            proof {
                assert forall|k: int| 0 <= k < r@.len() - 1 implies r@[k + 1] == self.spec_end(
                    #[trigger] r@[k] as int,
                ) by {
                    if k < prev.len() - 1 {
                        assert(r@[k] == prev[k]);
                    }
                }
            }
        }
        r
    }
}

/// Builds a [`SyntaxTree`] node by node, in preorder.
pub struct TreeBuilder<'src> {
    nodes: Vec<Node<'src>>,
    parents: Vec<usize>,
    history: Ghost<Seq<Op>>,
}

impl<'src> TreeBuilder<'src> {
    /// The steps taken so far.
    pub closed spec fn spec_history(&self) -> Seq<Op> {
        self.history@
    }

    /// Number of nodes opened and not yet closed.
    pub closed spec fn spec_depth(&self) -> int {
        self.parents@.len() as int
    }

    pub closed spec fn spec_count(&self) -> int {
        self.nodes@.len() as int
    }

    /// The leaves' text so far, in order.
    pub closed spec fn spec_text(&self) -> Seq<u8> {
        text_upto(self.nodes@, self.nodes@.len() as int)
    }

    pub closed spec fn wf(&self) -> bool {
        let n = self.nodes@.len() as int;
        let st = self.parents@;
        &&& forall|k: int|
            0 <= k < st.len() ==> #[trigger] st[k] < n && self.nodes@[st[k] as int].end == 0
                && self.nodes@[st[k] as int].text is None
        &&& forall|k: int, l: int| 0 <= k < l < st.len() ==> #[trigger] st[k] < #[trigger] st[l]
        &&& forall|i: int|
            0 <= i < n && #[trigger] self.nodes@[i].end == 0 ==> exists|k: int|
                0 <= k < st.len() && st[k] == i
        &&& forall|i: int|
            0 <= i < n && #[trigger] self.nodes@[i].end != 0 ==> i < self.nodes@[i].end <= n
                && (self.nodes@[i].text is Some ==> self.nodes@[i].end == i + 1) && forall|j: int|
                i < j < self.nodes@[i].end ==> #[trigger] self.nodes@[j].end != 0
                    && self.nodes@[j].end <= self.nodes@[i].end
        &&& st.len() > 0 ==> st[0] == 0
        &&& st.len() == 0 && n > 0 ==> self.nodes@[0].end == n
        &&& self.nodes@.map_values(|x: Node<'src>| view_of(x)) == apply(self.history@).0
        &&& st.map_values(|p: usize| p as int) == apply(self.history@).1
    }

    pub proof fn lemma_sizes(&self)
        ensures
            self.spec_depth() >= 0,
            self.spec_count() >= 0,
    {
    }

    pub fn new() -> (r: Self)
        ensures
            r.wf(),
            r.spec_depth() == 0,
            r.spec_count() == 0,
            r.spec_text() == Seq::<u8>::empty(),
            r.spec_history() == Seq::<Op>::empty(),
    {
        let r = TreeBuilder { nodes: Vec::new(), parents: Vec::new(), history: Ghost(Seq::empty()) };
        assert(r.nodes@.map_values(|x: Node<'src>| view_of(x)) =~= seq![]);
        assert(r.parents@.map_values(|p: usize| p as int) =~= seq![]);
        r
    }

    /// Opens a node as a child of the innermost open one; the first node
    /// opened is the root.
    pub fn start_node(&mut self, kind: SyntaxKind)
        requires
            old(self).wf(),
            old(self).spec_depth() > 0 || old(self).spec_count() == 0,
        ensures
            final(self).wf(),
            final(self).spec_depth() == old(self).spec_depth() + 1,
            final(self).spec_depth() > 0,
            final(self).spec_count() == old(self).spec_count() + 1,
            final(self).spec_text() == old(self).spec_text(),
            final(self).spec_history() == old(self).spec_history().push(Op::Open(kind)),
    {
        let ghost old_nodes = self.nodes@;
        let ghost old_parents = self.parents@;
        let n = self.nodes.len();
        self.nodes.push(Node { kind, end: 0, text: None });
        self.parents.push(n);
        self.history = Ghost(self.history@.push(Op::Open(kind)));
        proof {
            let h = self.history@;
            assert(h.drop_last() =~= old(self).history@);
            assert(self.nodes@.map_values(|x: Node<'src>| view_of(x)) =~= old_nodes.map_values(
                |x: Node<'src>| view_of(x),
            ).push(NodeView { kind, end: 0, text: None }));
            assert(self.parents@.map_values(|p: usize| p as int) =~= old_parents.map_values(
                |p: usize| p as int,
            ).push(n as int));
            lemma_text_upto_same(self.nodes@, old_nodes, n as int);
            let st = self.parents@;
            assert forall|i: int|
                0 <= i < n + 1 && #[trigger] self.nodes@[i].end == 0 implies exists|k: int|
                0 <= k < st.len() && st[k] == i by {
                if i < n {
                    assert(old_nodes[i].end == 0);
                    let k = choose|k: int| 0 <= k < old(self).parents@.len() && old(self).parents@[k] == i;
                    assert(st[k] == i);
                } else {
                    assert(st[st.len() - 1] == i);
                }
            }
            assert forall|i: int|
                0 <= i < n + 1 && #[trigger] self.nodes@[i].end != 0 implies i < self.nodes@[i].end
                <= n + 1 && (self.nodes@[i].text is Some ==> self.nodes@[i].end == i + 1)
                && forall|j: int|
                i < j < self.nodes@[i].end ==> #[trigger] self.nodes@[j].end != 0
                    && self.nodes@[j].end <= self.nodes@[i].end by {
                assert(old_nodes[i].end != 0);
                assert forall|j: int| i < j < self.nodes@[i].end implies #[trigger] self.nodes@[j].end
                    != 0 && self.nodes@[j].end <= self.nodes@[i].end by {
                    assert(old_nodes[j].end != 0);
                }
            }
        }
    }

    /// Adds a leaf to the innermost open node.
    pub fn token(&mut self, kind: SyntaxKind, text: &'src str)
        requires
            old(self).wf(),
            old(self).spec_depth() > 0,
            old(self).spec_count() < usize::MAX,
        ensures
            final(self).wf(),
            final(self).spec_depth() == old(self).spec_depth(),
            final(self).spec_count() == old(self).spec_count() + 1,
            final(self).spec_count() > 0,
            final(self).spec_text() == old(self).spec_text() + text.spec_bytes(),
            final(self).spec_history() == old(self).spec_history().push(
                Op::Leaf(kind, text.spec_bytes()),
            ),
    {
        let ghost old_nodes = self.nodes@;
        let n = self.nodes.len();
        self.nodes.push(Node { kind, end: n + 1, text: Some(text) });
        self.history = Ghost(self.history@.push(Op::Leaf(kind, text.spec_bytes())));
        proof {
            let h = self.history@;
            assert(h.drop_last() =~= old(self).history@);
            assert(self.nodes@.map_values(|x: Node<'src>| view_of(x)) =~= old_nodes.map_values(
                |x: Node<'src>| view_of(x),
            ).push(NodeView { kind, end: n + 1, text: Some(text.spec_bytes()) }));
            lemma_text_upto_same(self.nodes@, old_nodes, n as int);
            let st = self.parents@;
            assert forall|i: int|
                0 <= i < n + 1 && #[trigger] self.nodes@[i].end == 0 implies exists|k: int|
                0 <= k < st.len() && st[k] == i by {
                assert(old_nodes[i].end == 0);
            }
            assert forall|i: int|
                0 <= i < n + 1 && #[trigger] self.nodes@[i].end != 0 implies i < self.nodes@[i].end
                <= n + 1 && (self.nodes@[i].text is Some ==> self.nodes@[i].end == i + 1)
                && forall|j: int|
                i < j < self.nodes@[i].end ==> #[trigger] self.nodes@[j].end != 0
                    && self.nodes@[j].end <= self.nodes@[i].end by {
                if i < n {
                    assert(old_nodes[i].end != 0);
                    assert forall|j: int| i < j < self.nodes@[i].end implies #[trigger] self.nodes@[
                        j].end != 0 && self.nodes@[j].end <= self.nodes@[i].end by {
                        assert(old_nodes[j].end != 0);
                    }
                }
            }
        }
    }

    /// Closes the innermost open node.
    pub fn finish_node(&mut self)
        requires
            old(self).wf(),
            old(self).spec_depth() > 0,
        ensures
            final(self).wf(),
            final(self).spec_depth() == old(self).spec_depth() - 1,
            final(self).spec_depth() >= 0,
            final(self).spec_count() == old(self).spec_count(),
            final(self).spec_text() == old(self).spec_text(),
            final(self).spec_history() == old(self).spec_history().push(Op::Close),
    {
        let ghost old_nodes = self.nodes@;
        let ghost old_st = self.parents@;
        let t = self.parents.pop().unwrap();
        let n = self.nodes.len();
        let node = self.nodes[t];
        self.nodes.set(t, Node { kind: node.kind, end: n, text: node.text });
        self.history = Ghost(self.history@.push(Op::Close));
        proof {
            let h = self.history@;
            assert(h.drop_last() =~= old(self).history@);
            let prev = apply(old(self).history@);
            assert(old_st.map_values(|p: usize| p as int).last() == t as int);
            assert(self.nodes@.map_values(|x: Node<'src>| view_of(x)) =~= prev.0.update(
                t as int,
                NodeView { kind: prev.0[t as int].kind, end: prev.0.len() as int, text: prev.0[t as int].text },
            ));
            assert(self.parents@.map_values(|p: usize| p as int) =~= prev.1.drop_last());
            let nodes = self.nodes@;
            let st = self.parents@;
            assert(old_st[old_st.len() - 1] == t);
            lemma_text_upto_same(nodes, old_nodes, n as int);
            assert forall|k: int| 0 <= k < st.len() implies #[trigger] st[k] < n
                && nodes[st[k] as int].end == 0 && nodes[st[k] as int].text is None by {
                assert(old_st[k] == st[k]);
                assert(old_st[k] < old_st[old_st.len() - 1]);
            }
            assert forall|k: int, l: int| 0 <= k < l < st.len() implies #[trigger] st[k]
                < #[trigger] st[l] by {
                assert(old_st[k] == st[k]);
                assert(old_st[l] == st[l]);
            }
            assert forall|i: int|
                0 <= i < n && #[trigger] nodes[i].end == 0 implies exists|k: int|
                0 <= k < st.len() && st[k] == i by {
                assert(i != t);
                assert(old_nodes[i].end == 0);
                let k = choose|k: int| 0 <= k < old_st.len() && old_st[k] == i;
                assert(k != old_st.len() - 1);
                assert(st[k] == i);
            }
            assert forall|j: int| t < j < n implies #[trigger] old_nodes[j].end != 0 by {
                if old_nodes[j].end == 0 {
                    let k = choose|k: int| 0 <= k < old_st.len() && old_st[k] == j;
                    if k < old_st.len() - 1 {
                        assert(old_st[k] < old_st[old_st.len() - 1]);
                    }
                }
            }
            assert forall|i: int|
                0 <= i < n && #[trigger] nodes[i].end != 0 implies i < nodes[i].end <= n
                && (nodes[i].text is Some ==> nodes[i].end == i + 1) && forall|j: int|
                i < j < nodes[i].end ==> #[trigger] nodes[j].end != 0 && nodes[j].end
                    <= nodes[i].end by {
                if i == t {
                    assert forall|j: int| i < j < nodes[i].end implies #[trigger] nodes[j].end != 0
                        && nodes[j].end <= nodes[i].end by {
                        assert(old_nodes[j].end != 0);
                    }
                } else {
                    assert(old_nodes[i].end != 0);
                    assert forall|j: int| i < j < nodes[i].end implies #[trigger] nodes[j].end != 0
                        && nodes[j].end <= nodes[i].end by {
                        assert(old_nodes[j].end != 0);
                        assert(j != t);
                    }
                }
            }
            if st.len() == 0 {
                assert(old_st[0] == 0);
            }
        }
    }

    /// The finished tree.
    pub fn finish(self) -> (r: SyntaxTree<'src>)
        requires
            self.wf(),
            self.spec_depth() == 0,
            self.spec_count() > 0,
        ensures
            r.wf(),
            r.spec_text() == self.spec_text(),
            r.spec_nodes() == apply(self.spec_history()).0,
    {
        let r = SyntaxTree { nodes: self.nodes };
        proof {
            let nodes = r.nodes@;
            r.lemma_text_upto(nodes.len() as int);
            assert forall|i: int| 0 <= i < nodes.len() implies #[trigger] nodes[i].end != 0 by {
                if nodes[i].end == 0 {
                    let k = choose|k: int| 0 <= k < self.parents@.len() && self.parents@[k] == i;
                }
            }
            assert forall|i: int| 0 <= i < r.spec_len() implies i < #[trigger] r.spec_end(i)
                <= r.spec_len() by {
                assert(nodes[i].end != 0);
            }
            assert forall|i: int|
                0 <= i < r.spec_len() && #[trigger] r.spec_is_leaf(i) implies r.spec_end(i) == i
                + 1 by {
                assert(nodes[i].end != 0);
            }
            assert forall|i: int, j: int|
                0 <= i < j < r.spec_end(i) && i < r.spec_len() implies #[trigger] r.spec_end(j)
                <= #[trigger] r.spec_end(i) by {
                assert(nodes[i].end != 0);
                assert(nodes[j].end != 0);
            }
        }
        r
    }
}

} // verus!
