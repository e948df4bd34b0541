//! The locator: a short-circuiting pre-order, depth-first search for the
//! first string-literal node whose rendered text contains a target
//! substring, returning the path of node-only child indices that
//! addresses it.

use vstd::prelude::*;

use crate::substring::{contains_seq, text_contains};
use crate::tree::{
    child_view, children_views, is_prefix_of, lemma_children_views_index, node_at, node_children,
    node_view, nodes_of, path_valid, path_view, render_text, text_of, Child, ChildView, Node,
    NodeKind, NodeView,
};

verus! {

/// The node is a string literal whose rendered text contains the target.
pub open spec fn is_literal_match(nv: NodeView, target: Seq<char>) -> bool {
    nv.kind == NodeKind::StringLiteral && contains_seq(text_of(nv), target)
}

/// The path to the first string-literal node, in pre-order document
/// order, whose rendered text contains the target; `None` if no such
/// node exists in the subtree.
pub open spec fn locate_in(nv: NodeView, target: Seq<char>) -> Option<Seq<int>>
    decreases nv,
{
    if is_literal_match(nv, target) {
        Some(Seq::empty())
    } else {
        locate_in_children(nv.children, target, 0)
    }
}

/// The search over a node's remaining children, where the next
/// node-typed child would carry index `idx`.
pub open spec fn locate_in_children(cs: Seq<ChildView>, target: Seq<char>, idx: int) -> Option<
    Seq<int>,
>
    decreases cs,
{
    if cs.len() == 0 {
        None
    } else {
        match cs[0] {
            ChildView::Node(n) => match locate_in(n, target) {
                Some(p) => Some(seq![idx] + p),
                None => locate_in_children(cs.drop_first(), target, idx + 1),
            },
            ChildView::Token(_) => locate_in_children(cs.drop_first(), target, idx),
        }
    }
}

/// Soundness of the search over children: a found path starts at a
/// node-typed child in range, and the rest of the path is found, valid
/// and leads to a matching string literal inside that child.
proof fn lemma_locate_children_sound(cs: Seq<ChildView>, target: Seq<char>, idx: int)
    ensures
        locate_in_children(cs, target, idx) matches Some(p) ==> {
            &&& p.len() >= 1
            &&& idx <= p[0] < idx + nodes_of(cs).len()
            &&& locate_in(nodes_of(cs)[p[0] - idx], target) == Some(p.drop_first())
            &&& path_valid(nodes_of(cs)[p[0] - idx], p.drop_first())
            &&& is_literal_match(node_at(nodes_of(cs)[p[0] - idx], p.drop_first()), target)
        },
    decreases cs,
{
    if cs.len() > 0 {
        match cs[0] {
            ChildView::Node(n) => {
                lemma_locate_sound(n, target);
                lemma_locate_children_sound(cs.drop_first(), target, idx + 1);
                if let Some(p0) = locate_in(n, target) {
                    let p = seq![idx] + p0;
                    assert(p[0] == idx);
                    assert(p.drop_first() =~= p0);
                    assert(nodes_of(cs)[0] == n);
                } else {
                    if let Some(p) = locate_in_children(cs.drop_first(), target, idx + 1) {
                        assert(nodes_of(cs)[p[0] - idx] == nodes_of(cs.drop_first())[p[0] - idx
                            - 1]);
                    }
                }
            },
            ChildView::Token(_) => {
                lemma_locate_children_sound(cs.drop_first(), target, idx);
            },
        }
    }
}

/// Soundness of the locator: a returned path is valid, and the node it
/// addresses is a string literal whose text contains the target.
pub proof fn lemma_locate_sound(nv: NodeView, target: Seq<char>)
    ensures
        locate_in(nv, target) matches Some(p) ==> {
            &&& path_valid(nv, p)
            &&& is_literal_match(node_at(nv, p), target)
        },
    decreases nv,
{
    if is_literal_match(nv, target) {
        let p = locate_in(nv, target)->Some_0;
        assert(p =~= Seq::<int>::empty());
    } else {
        lemma_locate_children_sound(nv.children, target, 0);
        if let Some(p) = locate_in_children(nv.children, target, 0) {
            assert(path_valid(nv, p));
            assert(node_at(nv, p) == node_at(node_children(nv)[p[0]], p.drop_first()));
        }
    }
}

/// Completeness of the search over children: when it finds nothing, no
/// valid path into any node-typed child leads to a matching literal.
proof fn lemma_locate_children_complete(cs: Seq<ChildView>, target: Seq<char>, idx: int)
    ensures
        locate_in_children(cs, target, idx) is None ==> forall|k: int, q: Seq<int>|
            0 <= k < nodes_of(cs).len() && #[trigger] path_valid(nodes_of(cs)[k], q)
                ==> !is_literal_match(node_at(nodes_of(cs)[k], q), target),
    decreases cs,
{
    if cs.len() > 0 && locate_in_children(cs, target, idx) is None {
        match cs[0] {
            ChildView::Node(n) => {
                lemma_locate_complete(n, target);
                lemma_locate_children_complete(cs.drop_first(), target, idx + 1);
                assert forall|k: int, q: Seq<int>|
                    0 <= k < nodes_of(cs).len() && #[trigger] path_valid(
                        nodes_of(cs)[k],
                        q,
                    ) implies !is_literal_match(node_at(nodes_of(cs)[k], q), target) by {
                    if k == 0 {
                        assert(nodes_of(cs)[k] == n);
                    } else {
                        assert(nodes_of(cs)[k] == nodes_of(cs.drop_first())[k - 1]);
                    }
                }
            },
            ChildView::Token(_) => {
                lemma_locate_children_complete(cs.drop_first(), target, idx);
                assert forall|k: int, q: Seq<int>|
                    0 <= k < nodes_of(cs).len() && #[trigger] path_valid(
                        nodes_of(cs)[k],
                        q,
                    ) implies !is_literal_match(node_at(nodes_of(cs)[k], q), target) by {
                    assert(nodes_of(cs)[k] == nodes_of(cs.drop_first())[k]);
                }
            },
        }
    }
}

/// Completeness of the locator: when it returns nothing, no valid path
/// in the whole subtree addresses a matching string literal.
pub proof fn lemma_locate_complete(nv: NodeView, target: Seq<char>)
    ensures
        locate_in(nv, target) is None ==> forall|q: Seq<int>| #[trigger]
            path_valid(nv, q) ==> !is_literal_match(node_at(nv, q), target),
    decreases nv,
{
    if locate_in(nv, target) is None {
        assert(!is_literal_match(nv, target));
        lemma_locate_children_complete(nv.children, target, 0);
        assert forall|q: Seq<int>| #[trigger]
            path_valid(nv, q) implies !is_literal_match(node_at(nv, q), target) by {
            if q.len() == 0 {
                assert(node_at(nv, q) == nv);
            } else {
                assert(path_valid(nodes_of(nv.children)[q[0]], q.drop_first()));
                assert(node_at(nv, q) == node_at(nodes_of(nv.children)[q[0]], q.drop_first()));
            }
        }
    }
}

/// One path strictly precedes another in pre-order document order: it
/// addresses a proper ancestor, or branches off at a smaller child
/// index.
pub open spec fn preorder_lt(a: Seq<int>, b: Seq<int>) -> bool {
    (is_prefix_of(a, b) && a.len() < b.len()) || (exists|i: int|
        0 <= i < a.len() && i < b.len() && a.subrange(0, i) == b.subrange(0, i) && a[i] < b[i])
}

/// Prepending the same index to two paths preserves their document
/// order.
pub proof fn lemma_preorder_lt_cons(x: int, a: Seq<int>, b: Seq<int>)
    ensures
        preorder_lt(seq![x] + a, seq![x] + b) <==> preorder_lt(a, b),
{
    let xa = seq![x] + a;
    let xb = seq![x] + b;
    if preorder_lt(xa, xb) {
        if is_prefix_of(xa, xb) && xa.len() < xb.len() {
            assert forall|j: int| 0 <= j < a.len() implies #[trigger] a[j] == b.subrange(
                0,
                a.len() as int,
            )[j] by {
                assert(xa[j + 1] == xb.subrange(0, xa.len() as int)[j + 1]);
            }
            assert(a =~= b.subrange(0, a.len() as int));
            assert(preorder_lt(a, b));
        } else {
            let i = choose|i: int|
                0 <= i < xa.len() && i < xb.len() && xa.subrange(0, i) == xb.subrange(0, i)
                    && xa[i] < xb[i];
            if i == 0 {
                assert(xa[0] == x && xb[0] == x);
                assert(false);
            } else {
                assert forall|j: int| 0 <= j < i - 1 implies #[trigger] a.subrange(0, i - 1)[j]
                    == b.subrange(0, i - 1)[j] by {
                    assert(xa.subrange(0, i)[j + 1] == xb.subrange(0, i)[j + 1]);
                }
                assert(a.subrange(0, i - 1) =~= b.subrange(0, i - 1));
                assert(a[i - 1] == xa[i] && b[i - 1] == xb[i]);
                assert(preorder_lt(a, b));
            }
        }
    }
    if preorder_lt(a, b) {
        if is_prefix_of(a, b) && a.len() < b.len() {
            assert forall|j: int| 0 <= j < xa.len() implies #[trigger] xa[j] == xb.subrange(
                0,
                xa.len() as int,
            )[j] by {
                if j > 0 {
                    assert(a[j - 1] == b.subrange(0, a.len() as int)[j - 1]);
                }
            }
            assert(xa =~= xb.subrange(0, xa.len() as int));
            assert(preorder_lt(xa, xb));
        } else {
            let i = choose|i: int|
                0 <= i < a.len() && i < b.len() && a.subrange(0, i) == b.subrange(0, i) && a[i]
                    < b[i];
            assert forall|j: int| 0 <= j < i + 1 implies #[trigger] xa.subrange(0, i + 1)[j]
                == xb.subrange(0, i + 1)[j] by {
                if j > 0 {
                    assert(a.subrange(0, i)[j - 1] == b.subrange(0, i)[j - 1]);
                }
            }
            assert(xa.subrange(0, i + 1) =~= xb.subrange(0, i + 1));
            assert(xa[i + 1] == a[i] && xb[i + 1] == b[i]);
            assert(0 <= i + 1 < xa.len() && i + 1 < xb.len() && xa[i + 1] < xb[i + 1]);
            assert(preorder_lt(xa, xb));
        }
    }
}

/// Two paths that start at different indices are ordered by those
/// indices alone.
proof fn lemma_preorder_lt_head(a: Seq<int>, b: Seq<int>)
    requires
        a.len() > 0,
        b.len() > 0,
        a[0] > b[0],
    ensures
        !preorder_lt(a, b),
{
    if preorder_lt(a, b) {
        if is_prefix_of(a, b) && a.len() < b.len() {
            assert(a[0] == b.subrange(0, a.len() as int)[0]);
        } else {
            let i = choose|i: int|
                0 <= i < a.len() && i < b.len() && a.subrange(0, i) == b.subrange(0, i) && a[i]
                    < b[i];
            if i == 0 {
            } else {
                assert(a.subrange(0, i)[0] == b.subrange(0, i)[0]);
            }
        }
    }
}

/// First-match policy over a node's children: any matching literal in
/// any node-typed child lies at or after the found path in document
/// order.
proof fn lemma_locate_children_first(cs: Seq<ChildView>, target: Seq<char>, idx: int)
    ensures
        locate_in_children(cs, target, idx) matches Some(p) ==> forall|k: int, q: Seq<int>|
            (0 <= k < nodes_of(cs).len() && #[trigger] path_valid(nodes_of(cs)[k], q)
                && is_literal_match(node_at(nodes_of(cs)[k], q), target)) ==> !preorder_lt(
                seq![idx + k] + q,
                p,
            ),
    decreases cs,
{
    if cs.len() > 0 && locate_in_children(cs, target, idx) is Some {
        let p = locate_in_children(cs, target, idx)->Some_0;
        match cs[0] {
            ChildView::Node(n) => {
                if let Some(p0) = locate_in(n, target) {
                    lemma_locate_first(n, target);
                    assert(p == seq![idx] + p0);
                    assert forall|k: int, q: Seq<int>|
                        (0 <= k < nodes_of(cs).len() && #[trigger] path_valid(
                            nodes_of(cs)[k],
                            q,
                        ) && is_literal_match(
                            node_at(nodes_of(cs)[k], q),
                            target,
                        )) implies !preorder_lt(seq![idx + k] + q, p) by {
                        if k == 0 {
                            assert(nodes_of(cs)[0] == n);
                            assert(!preorder_lt(q, p0));
                            lemma_preorder_lt_cons(idx, q, p0);
                            assert(seq![idx + k] + q =~= seq![idx] + q);
                        } else {
                            assert((seq![idx + k] + q)[0] == idx + k);
                            assert(p[0] == idx);
                            lemma_preorder_lt_head(seq![idx + k] + q, p);
                        }
                    }
                } else {
                    lemma_locate_complete(n, target);
                    lemma_locate_children_first(cs.drop_first(), target, idx + 1);
                    assert forall|k: int, q: Seq<int>|
                        (0 <= k < nodes_of(cs).len() && #[trigger] path_valid(
                            nodes_of(cs)[k],
                            q,
                        ) && is_literal_match(
                            node_at(nodes_of(cs)[k], q),
                            target,
                        )) implies !preorder_lt(seq![idx + k] + q, p) by {
                        if k == 0 {
                            assert(nodes_of(cs)[0] == n);
                            assert(false);
                        } else {
                            assert(nodes_of(cs)[k] == nodes_of(cs.drop_first())[k - 1]);
                            assert(seq![idx + k] + q =~= seq![(idx + 1) + (k - 1)] + q);
                        }
                    }
                }
            },
            ChildView::Token(_) => {
                lemma_locate_children_first(cs.drop_first(), target, idx);
                assert forall|k: int, q: Seq<int>|
                    (0 <= k < nodes_of(cs).len() && #[trigger] path_valid(nodes_of(cs)[k], q)
                        && is_literal_match(
                        node_at(nodes_of(cs)[k], q),
                        target,
                    )) implies !preorder_lt(seq![idx + k] + q, p) by {
                    assert(nodes_of(cs)[k] == nodes_of(cs.drop_first())[k]);
                }
            },
        }
    }
}

/// First-match policy, order half: the located path is the first in
/// pre-order document order; no matching literal lies strictly before
/// it.
pub proof fn lemma_locate_first(nv: NodeView, target: Seq<char>)
    ensures
        locate_in(nv, target) matches Some(p) ==> forall|q: Seq<int>| (#[trigger] path_valid(
            nv,
            q,
        ) && is_literal_match(node_at(nv, q), target)) ==> !preorder_lt(q, p),
    decreases nv,
{
    if locate_in(nv, target) is Some {
        let p = locate_in(nv, target)->Some_0;
        if is_literal_match(nv, target) {
            assert(p == Seq::<int>::empty());
            assert forall|q: Seq<int>| (#[trigger] path_valid(nv, q) && is_literal_match(
                node_at(nv, q),
                target,
            )) implies !preorder_lt(q, p) by {
                if preorder_lt(q, p) {
                    if is_prefix_of(q, p) && q.len() < p.len() {
                    } else {
                        let i = choose|i: int|
                            0 <= i < q.len() && i < p.len() && q.subrange(0, i) == p.subrange(
                                0,
                                i,
                            ) && q[i] < p[i];
                    }
                }
            }
        } else {
            lemma_locate_children_first(nv.children, target, 0);
            assert forall|q: Seq<int>| (#[trigger] path_valid(nv, q) && is_literal_match(
                node_at(nv, q),
                target,
            )) implies !preorder_lt(q, p) by {
                if q.len() == 0 {
                    assert(node_at(nv, q) == nv);
                    assert(false);
                } else {
                    assert(path_valid(nodes_of(nv.children)[q[0]], q.drop_first()));
                    assert(node_at(nv, q) == node_at(
                        nodes_of(nv.children)[q[0]],
                        q.drop_first(),
                    ));
                    assert(seq![0 + q[0]] + q.drop_first() =~= q);
                }
            }
        }
    }
}

/// Absence handling law: the locator returns nothing exactly when no
/// string-literal node anywhere in the tree contains the target
/// substring.
pub proof fn lemma_locate_absence(nv: NodeView, target: Seq<char>)
    ensures
        locate_in(nv, target) is None <==> forall|q: Seq<int>| #[trigger]
            path_valid(nv, q) ==> !is_literal_match(node_at(nv, q), target),
{
    lemma_locate_complete(nv, target);
    lemma_locate_sound(nv, target);
    if let Some(p) = locate_in(nv, target) {
        assert(path_valid(nv, p));
    }
}

fn find_path(node: &Node, target: &str) -> (r: Option<Vec<usize>>)
    ensures
        r is Some <==> locate_in(node_view(*node), target@) is Some,
        r matches Some(p) ==> path_view(p@) == locate_in(node_view(*node), target@)->Some_0,
    decreases *node,
{
    if node.kind == NodeKind::StringLiteral {
        let text = render_text(node);
        if text_contains(text.as_str(), target) {
            let empty: Vec<usize> = Vec::new();
            proof {
                assert(path_view(empty@) =~= Seq::<int>::empty());
            }
            return Some(empty);
        }
    }
    let ghost nv = node_view(*node);
    proof {
        assert(!is_literal_match(nv, target@));
        lemma_children_views_index(node.children@);
        assert(nv.children.skip(0) =~= nv.children);
    }
    let len = node.children.len();
    let mut idx: usize = 0;
    for i in 0..len
        invariant
            len == node.children.len(),
            nv == node_view(*node),
            !is_literal_match(nv, target@),
            idx <= i,
            locate_in(nv, target@) == locate_in_children(
                nv.children.skip(i as int),
                target@,
                idx as int,
            ),
        decreases *node, len - i,
    {
        let ghost suffix = nv.children.skip(i as int);
        proof {
            lemma_children_views_index(node.children@);
            assert(suffix[0] == child_view(node.children@[i as int]));
            assert(suffix.drop_first() =~= nv.children.skip(i + 1));
        }
        match &node.children[i] {
            Child::Node(m) => {
                proof {
                    assert(decreases_to!(*node => node.children));
                    assert(decreases_to!(node.children => node.children@));
                    assert(decreases_to!(node.children@ => node.children@[i as int]));
                }
                if let Some(mut p) = find_path(m, target) {
                    p.insert(0, idx);
                    proof {
                        assert(path_view(p@) =~= seq![idx as int] + locate_in(
                            node_view(*m),
                            target@,
                        )->Some_0);
                    }
                    return Some(p);
                }
                idx = idx + 1;
            },
            Child::Token(_) => {},
        }
    }
    proof {
        assert(nv.children.skip(len as int) =~= Seq::<ChildView>::empty());
    }
    None
}

/// Finds the path to the first string literal, in pre-order document
/// order, whose text contains the target value. Only the first match is
/// ever returned, even when the target occurs inside several literals;
/// the match is by substring containment, not exact equality.
pub fn find_url_string_path(node: &Node, target_value: &str) -> (r: Option<Vec<usize>>)
    requires
        target_value@.len() > 0,
    ensures
        r is Some <==> locate_in(node_view(*node), target_value@) is Some,
        r matches Some(p) ==> path_view(p@) == locate_in(node_view(*node), target_value@)->Some_0,
{
    find_path(node, target_value)
}

/// Finds the path to the first string literal in pre-order document
/// order, whatever its content.
pub fn find_first_string_path(node: &Node) -> (r: Option<Vec<usize>>)
    ensures
        r is Some <==> locate_in(node_view(*node), Seq::<char>::empty()) is Some,
        r matches Some(p) ==> path_view(p@) == locate_in(
            node_view(*node),
            Seq::<char>::empty(),
        )->Some_0,
{
    let r = find_path(node, "");
    proof {
        reveal_strlit("");
        assert(""@ =~= Seq::<char>::empty());
    }
    r
}

} // verus!
