//! The reconstructor: a depth-first copy-with-splice walk. Every subtree
//! off the route given by the path is copied token-for-token; the node
//! the path addresses is replaced by a freshly built string literal
//! holding the new content. The original tree is never mutated.

use vstd::prelude::*;

use crate::errors::ReplaceError;
use crate::tree::{
    child_text, child_view, children_views, copy_node_exactly, copy_token,
    is_prefix_of, lemma_children_views_index, lemma_children_views_push, node_at, node_children,
    node_view, nodes_of, path_valid, path_view, text_of, texts_of, Child, ChildView, Node,
    NodeKind, NodeView, Token, TokenKind, TokenView,
};

verus! {

/// The text of a freshly built string literal: the content between an
/// opening and a closing delimiter.
pub open spec fn literal_text(content: Seq<char>) -> Seq<char> {
    seq!['"'] + content + seq!['"']
}

/// The replacement leaf: a string-literal node of exactly three tokens,
/// in fixed order, with the content carried verbatim.
pub open spec fn literal_view(content: Seq<char>) -> NodeView {
    NodeView {
        kind: NodeKind::StringLiteral,
        children: seq![
            ChildView::Token(TokenView { kind: TokenKind::StringStart, text: seq!['"'] }),
            ChildView::Token(TokenView { kind: TokenKind::StringContent, text: content }),
            ChildView::Token(TokenView { kind: TokenKind::StringEnd, text: seq!['"'] }),
        ],
    }
}

/// The reconstructed tree: identical to the original except that the
/// node addressed by the path is the freshly built literal. `None` when
/// the path does not address a string-literal node.
pub open spec fn reconstruct_spec(nv: NodeView, p: Seq<int>, content: Seq<char>) -> Option<
    NodeView,
>
    decreases nv,
{
    if p.len() == 0 {
        if nv.kind == NodeKind::StringLiteral {
            Some(literal_view(content))
        } else {
            None
        }
    } else {
        match rebuild_children(nv.children, p[0], p.drop_first(), content) {
            Some(cs) => Some(NodeView { kind: nv.kind, children: cs }),
            None => None,
        }
    }
}

/// The reconstructed children of a node on the route: tokens and
/// node-typed children off the route are kept as they are, and the
/// `k`-th node-typed child is reconstructed along the rest of the path.
pub open spec fn rebuild_children(
    cs: Seq<ChildView>,
    k: int,
    rest: Seq<int>,
    content: Seq<char>,
) -> Option<Seq<ChildView>>
    decreases cs,
{
    if cs.len() == 0 {
        None
    } else {
        match cs[0] {
            ChildView::Node(n) => {
                if k == 0 {
                    match reconstruct_spec(n, rest, content) {
                        Some(n2) => Some(seq![ChildView::Node(n2)] + cs.drop_first()),
                        None => None,
                    }
                } else {
                    match rebuild_children(cs.drop_first(), k - 1, rest, content) {
                        Some(out) => Some(seq![cs[0]] + out),
                        None => None,
                    }
                }
            },
            ChildView::Token(_) => match rebuild_children(cs.drop_first(), k, rest, content) {
                Some(out) => Some(seq![cs[0]] + out),
                None => None,
            },
        }
    }
}

spec fn opt_prepend(pre: Seq<ChildView>, o: Option<Seq<ChildView>>) -> Option<Seq<ChildView>> {
    match o {
        Some(s) => Some(pre + s),
        None => None,
    }
}

/// The freshly built literal renders as the content between two
/// delimiters.
pub proof fn lemma_literal_text(content: Seq<char>)
    ensures
        text_of(literal_view(content)) == literal_text(content),
{
    let cs = literal_view(content).children;
    let d1 = cs.drop_first();
    let d2 = d1.drop_first();
    let d3 = d2.drop_first();
    assert(d1[0] == cs[1]);
    assert(d2[0] == cs[2]);
    assert(d3 =~= Seq::<ChildView>::empty());
    assert(texts_of(d3) == Seq::<char>::empty());
    assert(texts_of(d2) == child_text(cs[2]) + texts_of(d3));
    assert(texts_of(d1) == child_text(cs[1]) + texts_of(d2));
    assert(texts_of(cs) == child_text(cs[0]) + texts_of(d1));
    assert(child_text(cs[0]) == seq!['"']);
    assert(child_text(cs[1]) == content);
    assert(child_text(cs[2]) == seq!['"']);
    assert(text_of(literal_view(content)) =~= literal_text(content));
}

/// Reconstruction of a node's children is defined exactly when the
/// index selects a node-typed child in range and the rest of the path
/// reconstructs inside it.
proof fn lemma_rebuild_children_defined(
    cs: Seq<ChildView>,
    k: int,
    rest: Seq<int>,
    content: Seq<char>,
)
    ensures
        rebuild_children(cs, k, rest, content) is Some <==> (0 <= k < nodes_of(cs).len()
            && reconstruct_spec(nodes_of(cs)[k], rest, content) is Some),
    decreases cs,
{
    if cs.len() > 0 {
        match cs[0] {
            ChildView::Node(n) => {
                assert(nodes_of(cs)[0] == n);
                if k != 0 {
                    lemma_rebuild_children_defined(cs.drop_first(), k - 1, rest, content);
                    if 1 <= k < nodes_of(cs).len() {
                        assert(nodes_of(cs)[k] == nodes_of(cs.drop_first())[k - 1]);
                    }
                }
            },
            ChildView::Token(_) => {
                lemma_rebuild_children_defined(cs.drop_first(), k, rest, content);
                if 0 <= k < nodes_of(cs).len() {
                    assert(nodes_of(cs)[k] == nodes_of(cs.drop_first())[k]);
                }
            },
        }
    }
}

/// Reconstruction is defined exactly when the path is valid and
/// addresses a string-literal node; on any other path it reports the
/// mismatch instead of producing a tree.
pub proof fn lemma_reconstruct_defined(nv: NodeView, p: Seq<int>, content: Seq<char>)
    ensures
        reconstruct_spec(nv, p, content) is Some <==> (path_valid(nv, p) && node_at(nv, p).kind
            == NodeKind::StringLiteral),
    decreases p.len(),
{
    if p.len() > 0 {
        lemma_rebuild_children_defined(nv.children, p[0], p.drop_first(), content);
        lemma_reconstruct_defined(node_children(nv)[p[0]], p.drop_first(), content);
    }
}

/// Non-target preservation over a node's children: the rebuilt
/// children's text is the original text with exactly the addressed
/// literal's span replaced; the returned pair is the text before and
/// after that span, identical on both sides.
proof fn lemma_rebuild_children_texts(
    cs: Seq<ChildView>,
    k: int,
    rest: Seq<int>,
    content: Seq<char>,
) -> (split: (Seq<char>, Seq<char>))
    requires
        rebuild_children(cs, k, rest, content) is Some,
    ensures
        texts_of(cs) == split.0 + text_of(node_at(nodes_of(cs)[k], rest)) + split.1,
        texts_of(rebuild_children(cs, k, rest, content)->Some_0) == split.0 + literal_text(
            content,
        ) + split.1,
    decreases cs,
{
    let target = text_of(node_at(nodes_of(cs)[k], rest));
    match cs[0] {
        ChildView::Node(n) => {
            if k == 0 {
                assert(nodes_of(cs)[0] == n);
                let inner = lemma_reconstruct_texts(n, rest, content);
                let n2 = reconstruct_spec(n, rest, content)->Some_0;
                let out = rebuild_children(cs, k, rest, content)->Some_0;
                assert(out == seq![ChildView::Node(n2)] + cs.drop_first());
                assert(out[0] == ChildView::Node(n2));
                assert(out.drop_first() =~= cs.drop_first());
                let split = (inner.0, inner.1 + texts_of(cs.drop_first()));
                assert(texts_of(cs) == child_text(cs[0]) + texts_of(cs.drop_first()));
                assert(child_text(cs[0]) == text_of(n));
                assert(texts_of(out) == child_text(out[0]) + texts_of(out.drop_first()));
                assert(child_text(out[0]) == text_of(n2));
                assert((inner.0 + target + inner.1) + texts_of(cs.drop_first()) =~= split.0
                    + target + split.1);
                assert((inner.0 + literal_text(content) + inner.1) + texts_of(cs.drop_first())
                    =~= split.0 + literal_text(content) + split.1);
                split
            } else {
                lemma_rebuild_children_defined(cs.drop_first(), k - 1, rest, content);
                assert(nodes_of(cs)[k] == nodes_of(cs.drop_first())[k - 1]);
                let sub = lemma_rebuild_children_texts(cs.drop_first(), k - 1, rest, content);
                let out = rebuild_children(cs, k, rest, content)->Some_0;
                let out_rest = rebuild_children(cs.drop_first(), k - 1, rest, content)->Some_0;
                assert(out == seq![cs[0]] + out_rest);
                assert(out[0] == cs[0]);
                assert(out.drop_first() =~= out_rest);
                let split = (child_text(cs[0]) + sub.0, sub.1);
                assert(texts_of(cs) == child_text(cs[0]) + texts_of(cs.drop_first()));
                assert(texts_of(out) == child_text(out[0]) + texts_of(out.drop_first()));
                assert(child_text(cs[0]) + (sub.0 + text_of(node_at(
                    nodes_of(cs.drop_first())[k - 1],
                    rest,
                )) + sub.1) =~= split.0 + target + split.1);
                assert(child_text(cs[0]) + (sub.0 + literal_text(content) + sub.1) =~= split.0
                    + literal_text(content) + split.1);
                split
            }
        },
        ChildView::Token(_) => {
            lemma_rebuild_children_defined(cs.drop_first(), k, rest, content);
            assert(nodes_of(cs)[k] == nodes_of(cs.drop_first())[k]);
            let sub = lemma_rebuild_children_texts(cs.drop_first(), k, rest, content);
            let out = rebuild_children(cs, k, rest, content)->Some_0;
            let out_rest = rebuild_children(cs.drop_first(), k, rest, content)->Some_0;
            assert(out == seq![cs[0]] + out_rest);
            assert(out[0] == cs[0]);
            assert(out.drop_first() =~= out_rest);
            let split = (child_text(cs[0]) + sub.0, sub.1);
            assert(texts_of(cs) == child_text(cs[0]) + texts_of(cs.drop_first()));
            assert(texts_of(out) == child_text(out[0]) + texts_of(out.drop_first()));
            assert(child_text(cs[0]) + (sub.0 + text_of(node_at(
                nodes_of(cs.drop_first())[k],
                rest,
            )) + sub.1) =~= split.0 + target + split.1);
            assert(child_text(cs[0]) + (sub.0 + literal_text(content) + sub.1) =~= split.0
                + literal_text(content) + split.1);
            split
        },
    }
}

/// Non-target preservation: the reconstructed tree's text is the
/// original text with exactly the addressed literal's span replaced by
/// the new literal; every character before and after that span is
/// identical on both sides. The returned pair is that common prefix and
/// suffix.
pub proof fn lemma_reconstruct_texts(nv: NodeView, p: Seq<int>, content: Seq<char>) -> (split: (
    Seq<char>,
    Seq<char>,
))
    requires
        reconstruct_spec(nv, p, content) is Some,
    ensures
        text_of(nv) == split.0 + text_of(node_at(nv, p)) + split.1,
        text_of(reconstruct_spec(nv, p, content)->Some_0) == split.0 + literal_text(content)
            + split.1,
    decreases nv,
{
    if p.len() == 0 {
        lemma_literal_text(content);
        let split = (Seq::<char>::empty(), Seq::<char>::empty());
        assert(text_of(nv) =~= split.0 + text_of(node_at(nv, p)) + split.1);
        assert(text_of(literal_view(content)) =~= split.0 + literal_text(content) + split.1);
        split
    } else {
        let split = lemma_rebuild_children_texts(nv.children, p[0], p.drop_first(), content);
        assert(node_at(nv, p) == node_at(node_children(nv)[p[0]], p.drop_first()));
        split
    }
}

/// The reconstructed document contains the new content: it occurs
/// verbatim inside the freshly built literal.
pub proof fn lemma_replacement_contains_new(nv: NodeView, p: Seq<int>, content: Seq<char>)
    requires
        reconstruct_spec(nv, p, content) is Some,
    ensures
        crate::substring::contains_seq(
            text_of(reconstruct_spec(nv, p, content)->Some_0),
            content,
        ),
{
    let split = lemma_reconstruct_texts(nv, p, content);
    let t = text_of(reconstruct_spec(nv, p, content)->Some_0);
    let i: int = split.0.len() as int + 1;
    assert(t.subrange(i, i + content.len() as int) =~= content);
    assert(crate::substring::is_match_at(t, content, i));
}

/// Reconstruction preserves the shape of a node's children: the same
/// number of node-typed children, every one off the route unchanged,
/// and the addressed one reconstructed.
proof fn lemma_rebuild_children_structure(
    cs: Seq<ChildView>,
    k: int,
    rest: Seq<int>,
    content: Seq<char>,
)
    requires
        rebuild_children(cs, k, rest, content) is Some,
    ensures
        nodes_of(rebuild_children(cs, k, rest, content)->Some_0).len() == nodes_of(cs).len(),
        forall|j: int| 0 <= j < nodes_of(cs).len() && j != k ==> nodes_of(
            rebuild_children(cs, k, rest, content)->Some_0,
        )[j] == nodes_of(cs)[j],
        nodes_of(rebuild_children(cs, k, rest, content)->Some_0)[k] == reconstruct_spec(
            nodes_of(cs)[k],
            rest,
            content,
        )->Some_0,
    decreases cs,
{
    let out = rebuild_children(cs, k, rest, content)->Some_0;
    match cs[0] {
        ChildView::Node(n) => {
            assert(nodes_of(cs) == seq![n] + nodes_of(cs.drop_first()));
            if k == 0 {
                let n2 = reconstruct_spec(n, rest, content)->Some_0;
                assert(out == seq![ChildView::Node(n2)] + cs.drop_first());
                assert(out[0] == ChildView::Node(n2));
                assert(out.drop_first() =~= cs.drop_first());
                assert(nodes_of(out) == seq![n2] + nodes_of(cs.drop_first()));
                assert(nodes_of(cs)[0] == n);
                assert(nodes_of(out)[0] == n2);
            } else {
                lemma_rebuild_children_defined(cs.drop_first(), k - 1, rest, content);
                lemma_rebuild_children_structure(cs.drop_first(), k - 1, rest, content);
                let out_rest = rebuild_children(cs.drop_first(), k - 1, rest, content)->Some_0;
                assert(out == seq![cs[0]] + out_rest);
                assert(out[0] == cs[0]);
                assert(out.drop_first() =~= out_rest);
                assert(nodes_of(out) == seq![n] + nodes_of(out_rest));
                assert forall|j: int| 0 <= j < nodes_of(cs).len() && j != k implies nodes_of(
                    out,
                )[j] == nodes_of(cs)[j] by {
                    if j != 0 {
                        assert(nodes_of(out)[j] == nodes_of(out_rest)[j - 1]);
                        assert(nodes_of(cs)[j] == nodes_of(cs.drop_first())[j - 1]);
                    }
                }
                assert(nodes_of(out)[k] == nodes_of(out_rest)[k - 1]);
                assert(nodes_of(cs)[k] == nodes_of(cs.drop_first())[k - 1]);
            }
        },
        ChildView::Token(_) => {
            lemma_rebuild_children_defined(cs.drop_first(), k, rest, content);
            lemma_rebuild_children_structure(cs.drop_first(), k, rest, content);
            let out_rest = rebuild_children(cs.drop_first(), k, rest, content)->Some_0;
            assert(out == seq![cs[0]] + out_rest);
            assert(out[0] == cs[0]);
            assert(out.drop_first() =~= out_rest);
            assert(nodes_of(out) == nodes_of(out_rest));
            assert(nodes_of(cs) == nodes_of(cs.drop_first()));
        },
    }
}

/// The replacement lands: in the reconstructed tree the path is still
/// valid and addresses exactly the freshly built literal holding the
/// new content.
pub proof fn lemma_reconstruct_at_path(nv: NodeView, p: Seq<int>, content: Seq<char>)
    requires
        reconstruct_spec(nv, p, content) is Some,
    ensures
        path_valid(reconstruct_spec(nv, p, content)->Some_0, p),
        node_at(reconstruct_spec(nv, p, content)->Some_0, p) == literal_view(content),
    decreases p.len(),
{
    let r = reconstruct_spec(nv, p, content)->Some_0;
    if p.len() > 0 {
        let child = node_children(nv)[p[0]];
        lemma_rebuild_children_defined(nv.children, p[0], p.drop_first(), content);
        lemma_rebuild_children_structure(nv.children, p[0], p.drop_first(), content);
        lemma_reconstruct_at_path(child, p.drop_first(), content);
        assert(node_children(r)[p[0]] == reconstruct_spec(child, p.drop_first(),
            content)->Some_0);
        assert(node_at(r, p) == node_at(node_children(r)[p[0]], p.drop_first()));
    }
}

/// First-match policy, structural half: a literal off the route is
/// untouched. Any valid path that neither contains nor extends the
/// replacement path addresses, in the reconstructed tree, exactly the
/// node it addressed in the original.
pub proof fn lemma_reconstruct_preserves_disjoint(
    nv: NodeView,
    p: Seq<int>,
    content: Seq<char>,
    q: Seq<int>,
)
    requires
        reconstruct_spec(nv, p, content) is Some,
        path_valid(nv, q),
        !is_prefix_of(p, q),
        !is_prefix_of(q, p),
    ensures
        path_valid(reconstruct_spec(nv, p, content)->Some_0, q),
        node_at(reconstruct_spec(nv, p, content)->Some_0, q) == node_at(nv, q),
    decreases q.len(),
{
    assert(p.len() > 0) by {
        if p.len() == 0 {
            assert(p =~= q.subrange(0, 0));
        }
    }
    assert(q.len() > 0) by {
        if q.len() == 0 {
            assert(q =~= p.subrange(0, 0));
        }
    }
    let r = reconstruct_spec(nv, p, content)->Some_0;
    lemma_rebuild_children_structure(nv.children, p[0], p.drop_first(), content);
    assert(r.children == rebuild_children(nv.children, p[0], p.drop_first(), content)->Some_0);
    if q[0] != p[0] {
        assert(node_children(r)[q[0]] == node_children(nv)[q[0]]);
        assert(node_at(r, q) == node_at(node_children(r)[q[0]], q.drop_first()));
        assert(node_at(nv, q) == node_at(node_children(nv)[q[0]], q.drop_first()));
    } else {
        let child = node_children(nv)[p[0]];
        lemma_rebuild_children_defined(nv.children, p[0], p.drop_first(), content);
        assert(reconstruct_spec(child, p.drop_first(), content) is Some);
        assert(!is_prefix_of(p.drop_first(), q.drop_first())) by {
            if is_prefix_of(p.drop_first(), q.drop_first()) {
                assert forall|j: int| 0 <= j < p.len() implies p[j] == q.subrange(
                    0,
                    p.len() as int,
                )[j] by {
                    if j > 0 {
                        assert(p.drop_first()[j - 1] == q.drop_first().subrange(
                            0,
                            p.len() - 1,
                        )[j - 1]);
                    }
                }
                assert(p =~= q.subrange(0, p.len() as int));
            }
        }
        assert(!is_prefix_of(q.drop_first(), p.drop_first())) by {
            if is_prefix_of(q.drop_first(), p.drop_first()) {
                assert forall|j: int| 0 <= j < q.len() implies q[j] == p.subrange(
                    0,
                    q.len() as int,
                )[j] by {
                    if j > 0 {
                        assert(q.drop_first()[j - 1] == p.drop_first().subrange(
                            0,
                            q.len() - 1,
                        )[j - 1]);
                    }
                }
                assert(q =~= p.subrange(0, q.len() as int));
            }
        }
        lemma_reconstruct_preserves_disjoint(child, p.drop_first(), content, q.drop_first());
        assert(node_children(r)[q[0]] == reconstruct_spec(child, p.drop_first(),
            content)->Some_0);
        assert(node_at(r, q) == node_at(node_children(r)[q[0]], q.drop_first()));
        assert(node_at(nv, q) == node_at(child, q.drop_first()));
    }
}

/// Builds the replacement leaf: a string-literal node made of exactly an
/// opening delimiter token, one content token holding the new value
/// verbatim, and a closing delimiter token. The content is treated as
/// opaque; no escaping or validation is performed.
pub fn create_replacement_string_node(new_value: &str) -> (n: Node)
    ensures
        node_view(n) == literal_view(new_value@),
{
    let mut children: Vec<Child> = Vec::new();
    children.push(Child::Token(Token { kind: TokenKind::StringStart, text: "\"".to_owned() }));
    children.push(
        Child::Token(Token { kind: TokenKind::StringContent, text: new_value.to_owned() }),
    );
    children.push(Child::Token(Token { kind: TokenKind::StringEnd, text: "\"".to_owned() }));
    let n = Node { kind: NodeKind::StringLiteral, children };
    proof {
        reveal_strlit("\"");
        assert("\""@ =~= seq!['"']);
        lemma_children_views_index(n.children@);
        assert(children_views(n.children@) =~= literal_view(new_value@).children);
        assert(node_view(n) =~= literal_view(new_value@));
    }
    n
}

fn rebuild_at(node: &Node, path: &Vec<usize>, depth: usize, new_value: &str) -> (r: Result<
    Node,
    ReplaceError,
>)
    requires
        depth <= path@.len(),
    ensures
        r matches Ok(out) ==> reconstruct_spec(
            node_view(*node),
            path_view(path@).skip(depth as int),
            new_value@,
        ) == Some(node_view(out)),
        r is Err ==> r == Err::<Node, ReplaceError>(ReplaceError::PathMismatch)
            && reconstruct_spec(
            node_view(*node),
            path_view(path@).skip(depth as int),
            new_value@,
        ) is None,
    decreases *node,
{
    let ghost nv = node_view(*node);
    let ghost p = path_view(path@).skip(depth as int);
    if depth == path.len() {
        proof {
            assert(p.len() == 0);
        }
        if node.kind == NodeKind::StringLiteral {
            return Ok(create_replacement_string_node(new_value));
        } else {
            return Err(ReplaceError::PathMismatch);
        }
    }
    let k = path[depth];
    let ghost p0 = p[0];
    let ghost rest = p.drop_first();
    proof {
        assert(p0 == k as int);
        assert(rest =~= path_view(path@).skip(depth + 1));
    }
    let len = node.children.len();
    let mut out: Vec<Child> = Vec::new();
    let mut node_idx: usize = 0;
    proof {
        assert(nv.children.skip(0) =~= nv.children);
        assert(children_views(out@) =~= Seq::<ChildView>::empty());
        assert(opt_prepend(
            children_views(out@),
            rebuild_children(nv.children.skip(0), p0, rest, new_value@),
        ) == rebuild_children(nv.children, p0, rest, new_value@)) by {
            match rebuild_children(nv.children, p0, rest, new_value@) {
                Some(s) => {
                    assert(Seq::<ChildView>::empty() + s =~= s);
                },
                None => {},
            }
        }
    }
    for i in 0..len
        invariant
            len == node.children.len(),
            nv == node_view(*node),
            depth < path@.len(),
            path@.len() <= usize::MAX,
            k == path@[depth as int],
            p0 == k as int,
            p == path_view(path@).skip(depth as int),
            p.len() > 0,
            rest == p.drop_first(),
            rest == path_view(path@).skip(depth as int + 1),
            node_idx <= i,
            node_idx <= k ==> rebuild_children(nv.children, p0, rest, new_value@) == opt_prepend(
                children_views(out@),
                rebuild_children(nv.children.skip(i as int), p0 - node_idx, rest, new_value@),
            ),
            node_idx > k ==> rebuild_children(nv.children, p0, rest, new_value@) == Some(
                children_views(out@) + nv.children.skip(i as int),
            ),
        decreases *node, len - i,
    {
        let ghost suffix = nv.children.skip(i as int);
        let ghost pre = children_views(out@);
        proof {
            lemma_children_views_index(node.children@);
            assert(suffix[0] == child_view(node.children@[i as int]));
            assert(suffix.drop_first() =~= nv.children.skip(i + 1));
        }
        match &node.children[i] {
            Child::Token(t) => {
                let copied = Child::Token(copy_token(t));
                proof {
                    assert(child_view(copied) == suffix[0]);
                    lemma_children_views_push(out@, copied);
                    if node_idx <= k {
                        match rebuild_children(suffix.drop_first(), p0 - node_idx, rest,
                            new_value@) {
                            Some(o) => {
                                assert(pre + (seq![suffix[0]] + o) =~= pre.push(suffix[0]) + o);
                            },
                            None => {},
                        }
                    } else {
                        assert(pre + suffix =~= pre.push(suffix[0]) + suffix.drop_first());
                    }
                }
                out.push(copied);
            },
            Child::Node(m) => {
                proof {
                    assert(decreases_to!(*node => node.children));
                    assert(decreases_to!(node.children => node.children@));
                    assert(decreases_to!(node.children@ => node.children@[i as int]));
                    assert(suffix[0] == ChildView::Node(node_view(*m)));
                }
                if node_idx == k {
                    match rebuild_at(m, path, depth + 1, new_value) {
                        Ok(sub) => {
                            let copied = Child::Node(sub);
                            proof {
                                assert(reconstruct_spec(node_view(*m), rest, new_value@)
                                    == Some(node_view(copied->Node_0)));
                                assert(rebuild_children(suffix, 0, rest, new_value@) == Some(
                                    seq![child_view(copied)] + suffix.drop_first(),
                                ));
                                lemma_children_views_push(out@, copied);
                                assert(pre + (seq![child_view(copied)] + suffix.drop_first())
                                    =~= pre.push(child_view(copied)) + suffix.drop_first());
                            }
                            out.push(copied);
                        },
                        Err(e) => {
                            proof {
                                assert(reconstruct_spec(node_view(*m), rest, new_value@)
                                    is None);
                                assert(rebuild_children(suffix, 0, rest, new_value@) is None);
                            }
                            return Err(e);
                        },
                    }
                } else {
                    let copied = Child::Node(copy_node_exactly(m));
                    proof {
                        assert(child_view(copied) == suffix[0]);
                        lemma_children_views_push(out@, copied);
                        if node_idx <= k {
                            assert(p0 - node_idx != 0);
                            match rebuild_children(suffix.drop_first(), p0 - node_idx - 1, rest,
                                new_value@) {
                                Some(o) => {
                                    assert(pre + (seq![suffix[0]] + o) =~= pre.push(suffix[0])
                                        + o);
                                },
                                None => {},
                            }
                        } else {
                            assert(pre + suffix =~= pre.push(suffix[0]) + suffix.drop_first());
                        }
                    }
                    out.push(copied);
                }
                node_idx = node_idx + 1;
            },
        }
    }
    proof {
        lemma_children_views_index(node.children@);
        assert(nv.children.skip(len as int) =~= Seq::<ChildView>::empty());
    }
    if node_idx <= k {
        proof {
            assert(rebuild_children(nv.children, p0, rest, new_value@) is None);
        }
        return Err(ReplaceError::PathMismatch);
    }
    let r = Node { kind: node.kind, children: out };
    proof {
        assert(children_views(out@) + nv.children.skip(len as int) =~= children_views(out@));
        assert(reconstruct_spec(nv, p, new_value@) == Some(node_view(r))) by {
            assert(rebuild_children(nv.children, p0, rest, new_value@) == Some(
                children_views(out@),
            ));
            assert(node_view(r) =~= NodeView { kind: nv.kind, children: children_views(out@) });
        }
    }
    Ok(r)
}

/// Rebuilds the whole tree with the node addressed by the path replaced
/// by a freshly built string literal holding the new value. Every
/// subtree off the route is copied exactly, token for token. When the
/// path does not address a string-literal node the intended edit cannot
/// be placed, and that is reported as an explicit `PathMismatch` error,
/// never by silently copying.
pub fn reconstruct_with_replacement(node: &Node, target_path: &Vec<usize>, new_value: &str) -> (r:
    Result<Node, ReplaceError>)
    ensures
        r matches Ok(out) ==> reconstruct_spec(node_view(*node), path_view(target_path@),
            new_value@) == Some(node_view(out)),
        r is Err ==> r == Err::<Node, ReplaceError>(ReplaceError::PathMismatch)
            && reconstruct_spec(node_view(*node), path_view(target_path@), new_value@) is None,
{
    let r = rebuild_at(node, target_path, 0, new_value);
    proof {
        assert(path_view(target_path@).skip(0) =~= path_view(target_path@));
    }
    r
}

} // verus!
