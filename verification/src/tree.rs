//! The lossless document tree: nodes tagged with a grammar kind, whose
//! children are nodes and tokens in exact source order, and tokens that
//! carry their source text verbatim.

use vstd::prelude::*;

verus! {

/// Grammar kind of a node. The replacement logic only distinguishes the
/// string-literal kind; every other kind is carried through unchanged.
#[derive(Clone, Copy, PartialEq, Eq, Structural, Debug)]
pub enum NodeKind {
    StringLiteral,
    Other(u16),
}

/// Grammar kind of a token. A string literal is made of an opening
/// delimiter, a content token and a closing delimiter; all other token
/// kinds are carried through unchanged.
#[derive(Clone, Copy, PartialEq, Eq, Structural, Debug)]
pub enum TokenKind {
    StringStart,
    StringContent,
    StringEnd,
    Other(u16),
}

/// A leaf of the tree: a token kind and the exact source text it covers,
/// including whitespace, comments and delimiters.
#[derive(Debug)]
pub struct Token {
    pub kind: TokenKind,
    pub text: String,
}

/// One child of a node, in source order: either a nested node or a token.
#[derive(Debug)]
pub enum Child {
    Node(Node),
    Token(Token),
}

/// An interior element of the tree: a kind and an ordered sequence of
/// children. Order is significant and never reordered.
#[derive(Debug)]
pub struct Node {
    pub kind: NodeKind,
    pub children: Vec<Child>,
}

/// Mathematical model of a token.
#[verifier::ext_equal]
pub struct TokenView {
    pub kind: TokenKind,
    pub text: Seq<char>,
}

/// Mathematical model of a child.
#[verifier::ext_equal]
pub enum ChildView {
    Node(NodeView),
    Token(TokenView),
}

/// Mathematical model of a node.
#[verifier::ext_equal]
pub struct NodeView {
    pub kind: NodeKind,
    pub children: Seq<ChildView>,
}

pub open spec fn token_view(t: Token) -> TokenView {
    TokenView { kind: t.kind, text: t.text@ }
}

pub open spec fn child_view(c: Child) -> ChildView
    decreases c,
{
    match c {
        Child::Node(n) => ChildView::Node(node_view(n)),
        Child::Token(t) => ChildView::Token(token_view(t)),
    }
}

pub open spec fn children_views(cs: Seq<Child>) -> Seq<ChildView>
    decreases cs,
{
    if cs.len() == 0 {
        Seq::empty()
    } else {
        seq![child_view(cs[0])] + children_views(cs.drop_first())
    }
}

pub open spec fn node_view(n: Node) -> NodeView
    decreases n,
{
    NodeView { kind: n.kind, children: children_views(n.children@) }
}

/// The exact source text covered by a child: a token's own text, or the
/// concatenated text of a nested node.
pub open spec fn child_text(c: ChildView) -> Seq<char>
    decreases c,
{
    match c {
        ChildView::Node(n) => text_of(n),
        ChildView::Token(t) => t.text,
    }
}

pub open spec fn texts_of(cs: Seq<ChildView>) -> Seq<char>
    decreases cs,
{
    if cs.len() == 0 {
        Seq::empty()
    } else {
        child_text(cs[0]) + texts_of(cs.drop_first())
    }
}

/// The exact source text covered by a node: the concatenation of all its
/// tokens' text, in source order.
pub open spec fn text_of(nv: NodeView) -> Seq<char>
    decreases nv,
{
    texts_of(nv.children)
}

/// The node-typed children of a sequence of children, in order, with the
/// interleaved tokens skipped. Positional indices in a path count only
/// these.
pub open spec fn nodes_of(cs: Seq<ChildView>) -> Seq<NodeView>
    decreases cs,
{
    if cs.len() == 0 {
        Seq::empty()
    } else {
        match cs[0] {
            ChildView::Node(n) => seq![n] + nodes_of(cs.drop_first()),
            ChildView::Token(_) => nodes_of(cs.drop_first()),
        }
    }
}

/// The node-typed children of a node, in order.
pub open spec fn node_children(nv: NodeView) -> Seq<NodeView> {
    nodes_of(nv.children)
}

/// Whether a path addresses a node: each index selects a node-typed child
/// of the node reached so far. The empty path addresses the node itself.
pub open spec fn path_valid(nv: NodeView, p: Seq<int>) -> bool
    decreases p.len(),
{
    p.len() == 0 || (0 <= p[0] < node_children(nv).len() && path_valid(
        node_children(nv)[p[0]],
        p.drop_first(),
    ))
}

/// The node addressed by a path, when the path is valid.
pub open spec fn node_at(nv: NodeView, p: Seq<int>) -> NodeView
    decreases p.len(),
{
    if p.len() == 0 {
        nv
    } else {
        node_at(node_children(nv)[p[0]], p.drop_first())
    }
}

/// A path of machine integers, as the mathematical path it denotes.
pub open spec fn path_view(p: Seq<usize>) -> Seq<int> {
    p.map_values(|u: usize| u as int)
}

/// One path is an initial segment of another: the node it addresses is
/// the other's ancestor, or the same node.
pub open spec fn is_prefix_of(a: Seq<int>, b: Seq<int>) -> bool {
    a.len() <= b.len() && a == b.subrange(0, a.len() as int)
}

pub proof fn lemma_children_views_index(cs: Seq<Child>)
    ensures
        children_views(cs).len() == cs.len(),
        forall|i: int| 0 <= i < cs.len() ==> children_views(cs)[i] == child_view(cs[i]),
    decreases cs.len(),
{
    if cs.len() > 0 {
        lemma_children_views_index(cs.drop_first());
    }
}

pub proof fn lemma_children_views_concat(a: Seq<Child>, b: Seq<Child>)
    ensures
        children_views(a + b) == children_views(a) + children_views(b),
    decreases a.len(),
{
    if a.len() == 0 {
        assert(a + b =~= b);
        assert(children_views(a) + children_views(b) =~= children_views(b));
    } else {
        lemma_children_views_concat(a.drop_first(), b);
        assert((a + b).drop_first() =~= a.drop_first() + b);
        assert((a + b)[0] == a[0]);
        assert(seq![child_view(a[0])] + (children_views(a.drop_first()) + children_views(b)) =~= (
        seq![child_view(a[0])] + children_views(a.drop_first())) + children_views(b));
    }
}

pub proof fn lemma_children_views_push(cs: Seq<Child>, c: Child)
    ensures
        children_views(cs.push(c)) == children_views(cs).push(child_view(c)),
{
    assert(cs.push(c) =~= cs + seq![c]);
    lemma_children_views_concat(cs, seq![c]);
    reveal_with_fuel(children_views, 2);
    assert(seq![c].drop_first() =~= Seq::<Child>::empty());
    assert(children_views(seq![c]) =~= seq![child_view(c)]);
    assert(children_views(cs) + seq![child_view(c)] =~= children_views(cs).push(child_view(c)));
}

pub proof fn lemma_texts_of_concat(a: Seq<ChildView>, b: Seq<ChildView>)
    ensures
        texts_of(a + b) == texts_of(a) + texts_of(b),
    decreases a.len(),
{
    if a.len() == 0 {
        assert(a + b =~= b);
        assert(texts_of(a) + texts_of(b) =~= texts_of(b));
    } else {
        lemma_texts_of_concat(a.drop_first(), b);
        assert((a + b).drop_first() =~= a.drop_first() + b);
        assert((a + b)[0] == a[0]);
        assert(child_text(a[0]) + (texts_of(a.drop_first()) + texts_of(b)) =~= (child_text(a[0])
            + texts_of(a.drop_first())) + texts_of(b));
    }
}

/// Structural deep copy of a token: the same kind and the same text.
pub(crate) fn copy_token(t: &Token) -> (r: Token)
    ensures
        token_view(r) == token_view(*t),
{
    let r = Token { kind: t.kind, text: t.text.clone() };
    proof {
        assert(token_view(r) =~= token_view(*t));
    }
    r
}

/// Structural deep copy of a subtree that is not on the route to the
/// replaced node: every child node is copied recursively and every token
/// is carried over verbatim, producing a token-for-token clone.
pub fn copy_node_exactly(n: &Node) -> (r: Node)
    ensures
        node_view(r) == node_view(*n),
    decreases *n,
{
    let mut out: Vec<Child> = Vec::new();
    let len = n.children.len();
    for i in 0..len
        invariant
            len == n.children.len(),
            children_views(out@) =~= children_views(n.children@.take(i as int)),
        decreases *n, len - i,
    {
        let copied: Child = match &n.children[i] {
            Child::Node(m) => {
                proof {
                    assert(decreases_to!(*n => n.children));
                    assert(decreases_to!(n.children => n.children@));
                    assert(decreases_to!(n.children@ => n.children@[i as int]));
                }
                Child::Node(copy_node_exactly(m))
            },
            Child::Token(t) => Child::Token(copy_token(t)),
        };
        proof {
            assert(child_view(copied) == child_view(n.children@[i as int]));
            lemma_children_views_push(out@, copied);
            lemma_children_views_push(n.children@.take(i as int), n.children@[i as int]);
            assert(n.children@.take(i + 1) =~= n.children@.take(i as int).push(
                n.children@[i as int],
            ));
        }
        out.push(copied);
    }
    proof {
        assert(n.children@.take(len as int) =~= n.children@);
    }
    let r = Node { kind: n.kind, children: out };
    proof {
        assert(node_view(r) =~= node_view(*n));
    }
    r
}

/// Appends the exact source text of a subtree to an output string.
fn append_text_of(n: &Node, out: &mut String)
    ensures
        final(out)@ == old(out)@ + text_of(node_view(*n)),
    decreases *n,
{
    let len = n.children.len();
    for i in 0..len
        invariant
            len == n.children.len(),
            out@ == old(out)@ + texts_of(children_views(n.children@.take(i as int))),
        decreases *n, len - i,
    {
        match &n.children[i] {
            Child::Node(m) => {
                proof {
                    assert(decreases_to!(*n => n.children));
                    assert(decreases_to!(n.children => n.children@));
                    assert(decreases_to!(n.children@ => n.children@[i as int]));
                }
                append_text_of(m, out);
            },
            Child::Token(t) => {
                out.append(t.text.as_str());
            },
        }
        proof {
            assert(n.children@.take(i + 1) =~= n.children@.take(i as int).push(
                n.children@[i as int],
            ));
            lemma_children_views_push(n.children@.take(i as int), n.children@[i as int]);
            lemma_texts_of_push(
                children_views(n.children@.take(i as int)),
                child_view(n.children@[i as int]),
            );
        }
    }
    proof {
        assert(n.children@.take(len as int) =~= n.children@);
    }
}

pub proof fn lemma_texts_of_push(cs: Seq<ChildView>, c: ChildView)
    ensures
        texts_of(cs.push(c)) == texts_of(cs) + child_text(c),
{
    assert(cs.push(c) =~= cs + seq![c]);
    lemma_texts_of_concat(cs, seq![c]);
    reveal_with_fuel(texts_of, 2);
    assert(seq![c].drop_first() =~= Seq::<ChildView>::empty());
    assert(texts_of(seq![c]) =~= child_text(c));
}

/// Renders a tree back to text: the concatenation of every token's text
/// in source order. For a tree built by an error-free parse this
/// reproduces the parsed text exactly.
pub fn render_text(n: &Node) -> (r: String)
    ensures
        r@ == text_of(node_view(*n)),
{
    let mut out = String::new();
    append_text_of(n, &mut out);
    out
}

} // verus!
