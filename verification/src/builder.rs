//! The builder: an append-only construction context enforcing strict
//! nesting. A node of a given kind is opened, tokens and finished child
//! nodes are appended, and the most recently opened node is closed;
//! closes must match opens in reverse order. A close without a matching
//! open, or finishing with nodes still open, is reported as a
//! construction error, never as a malformed tree.

use vstd::prelude::*;

use crate::tree::{
    children_views, lemma_children_views_push, node_view, Child, ChildView, Node, NodeKind,
    NodeView, Token, TokenKind, TokenView,
};

verus! {

/// One step of tree construction, as the external parser's traversal
/// reports it: a node is entered, a token is passed, or the current
/// node is finished.
#[allow(inconsistent_fields)]
pub enum ParseEvent {
    Open { kind: NodeKind },
    Leaf { kind: TokenKind, text: String },
    Close,
}

/// Mathematical model of a construction step.
#[verifier::ext_equal]
#[allow(inconsistent_fields)]
pub enum EventView {
    Open { kind: NodeKind },
    Leaf { kind: TokenKind, text: Seq<char> },
    Close,
}

pub open spec fn event_view(e: ParseEvent) -> EventView {
    match e {
        ParseEvent::Open { kind } => EventView::Open { kind },
        ParseEvent::Leaf { kind, text } => EventView::Leaf { kind, text: text@ },
        ParseEvent::Close => EventView::Close,
    }
}

pub open spec fn events_view(es: Seq<ParseEvent>) -> Seq<EventView> {
    es.map_values(|e: ParseEvent| event_view(e))
}

/// An open node under construction: its kind and the children appended
/// so far.
#[verifier::ext_equal]
pub struct FrameView {
    pub kind: NodeKind,
    pub children: Seq<ChildView>,
}

/// Mathematical model of the builder: the stack of open nodes, inner
/// ones last, and the finished root once the outermost node is closed.
#[verifier::ext_equal]
pub struct BuilderView {
    pub frames: Seq<FrameView>,
    pub root: Option<NodeView>,
}

pub open spec fn init_builder() -> BuilderView {
    BuilderView { frames: Seq::empty(), root: None }
}

/// The effect of one construction step on the builder. `None` is a
/// construction error: a token or close without an open node, or an
/// open after the root is already finished.
pub open spec fn step_build(st: BuilderView, e: EventView) -> Option<BuilderView> {
    match e {
        EventView::Open { kind } => {
            if st.root is Some {
                None
            } else {
                Some(
                    BuilderView {
                        frames: st.frames.push(FrameView { kind, children: Seq::empty() }),
                        root: None,
                    },
                )
            }
        },
        EventView::Leaf { kind, text } => {
            if st.frames.len() == 0 {
                None
            } else {
                let i = st.frames.len() - 1;
                let top = st.frames[i as int];
                Some(
                    BuilderView {
                        frames: st.frames.update(
                            i as int,
                            FrameView {
                                kind: top.kind,
                                children: top.children.push(
                                    ChildView::Token(TokenView { kind, text }),
                                ),
                            },
                        ),
                        root: st.root,
                    },
                )
            }
        },
        EventView::Close => {
            if st.frames.len() == 0 {
                None
            } else {
                let i = st.frames.len() - 1;
                let done = NodeView {
                    kind: st.frames[i as int].kind,
                    children: st.frames[i as int].children,
                };
                if i == 0 {
                    Some(BuilderView { frames: st.frames.drop_last(), root: Some(done) })
                } else {
                    let below = st.frames[i - 1];
                    Some(
                        BuilderView {
                            frames: st.frames.drop_last().update(
                                i - 1,
                                FrameView {
                                    kind: below.kind,
                                    children: below.children.push(ChildView::Node(done)),
                                },
                            ),
                            root: st.root,
                        },
                    )
                }
            }
        },
    }
}

/// The builder state after a sequence of steps, or `None` once any
/// step is a construction error.
pub open spec fn run_events(st: BuilderView, es: Seq<EventView>) -> Option<BuilderView>
    decreases es.len(),
{
    if es.len() == 0 {
        Some(st)
    } else {
        match step_build(st, es[0]) {
            Some(st2) => run_events(st2, es.drop_first()),
            None => None,
        }
    }
}

/// The tree a sequence of construction steps builds: defined exactly
/// when every step nests correctly and exactly one root is finished.
pub open spec fn spec_build(es: Seq<EventView>) -> Option<NodeView> {
    match run_events(init_builder(), es) {
        Some(st) => {
            if st.frames.len() == 0 {
                st.root
            } else {
                None
            }
        },
        None => None,
    }
}

/// The append-only construction context. Produces a finished immutable
/// tree; the strict open/close discipline is enforced and violations
/// are reported by the methods, never absorbed.
pub struct TreeBuilder {
    frames: Vec<(NodeKind, Vec<Child>)>,
    root: Option<Node>,
}

impl View for TreeBuilder {
    type V = BuilderView;

    closed spec fn view(&self) -> BuilderView {
        BuilderView {
            frames: self.frames@.map_values(
                |f: (NodeKind, Vec<Child>)| FrameView { kind: f.0, children: children_views(f.1@) },
            ),
            root: match self.root {
                Some(n) => Some(node_view(n)),
                None => None,
            },
        }
    }
}

impl TreeBuilder {
    /// A fresh builder with no open nodes and no finished root.
    pub fn new() -> (b: TreeBuilder)
        ensures
            b@ == init_builder(),
    {
        let b = TreeBuilder { frames: Vec::new(), root: None };
        proof {
            assert(b@ =~= init_builder());
        }
        b
    }

    /// Opens a node of the given kind. Fails when the root is already
    /// finished.
    pub fn open_node(&mut self, kind: NodeKind) -> (ok: bool)
        ensures
            match step_build(old(self)@, EventView::Open { kind }) {
                Some(st) => ok && final(self)@ == st,
                None => !ok && final(self)@ == old(self)@,
            },
    {
        if self.root.is_some() {
            return false;
        }
        let empty_children: Vec<Child> = Vec::new();
        let ghost ec = empty_children@;
        self.frames.push((kind, empty_children));
        proof {
            let st = step_build(old(self)@, EventView::Open { kind })->Some_0;
            assert(children_views(ec) =~= Seq::<ChildView>::empty());
            assert(self@.frames =~= st.frames);
            assert(self@ =~= st);
        }
        true
    }

    /// Appends a token to the most recently opened node. Fails when no
    /// node is open.
    pub fn token(&mut self, kind: TokenKind, text: String) -> (ok: bool)
        ensures
            match step_build(old(self)@, EventView::Leaf { kind, text: text@ }) {
                Some(st) => ok && final(self)@ == st,
                None => !ok && final(self)@ == old(self)@,
            },
    {
        if self.frames.len() == 0 {
            return false;
        }
        let ghost t0 = text@;
        if let Some((k, mut cs)) = self.frames.pop() {
            let ghost cs0 = cs@;
            cs.push(Child::Token(Token { kind, text }));
            self.frames.push((k, cs));
            proof {
                let st = step_build(old(self)@, EventView::Leaf { kind, text: t0 })->Some_0;
                lemma_children_views_push(cs0, Child::Token(Token { kind, text }));
                assert(children_views(cs@) =~= children_views(cs0).push(
                    ChildView::Token(TokenView { kind, text: t0 }),
                ));
                assert(self@.frames =~= st.frames);
                assert(self@ =~= st);
            }
            true
        } else {
            proof {
                assert(false);
            }
            false
        }
    }

    /// Closes the most recently opened node. The finished node becomes
    /// a child of the node below it, or the root when it was the
    /// outermost. Fails when no node is open.
    pub fn close_node(&mut self) -> (ok: bool)
        ensures
            match step_build(old(self)@, EventView::Close) {
                Some(st) => ok && final(self)@ == st,
                None => !ok && final(self)@ == old(self)@,
            },
    {
        if self.frames.len() == 0 {
            return false;
        }
        if let Some((k, cs)) = self.frames.pop() {
            let done = Node { kind: k, children: cs };
            let ghost done_v = node_view(done);
            if self.frames.len() == 0 {
                self.root = Some(done);
                proof {
                    let st = step_build(old(self)@, EventView::Close)->Some_0;
                    assert(self@.frames =~= st.frames);
                    assert(self@ =~= st);
                }
                true
            } else {
                if let Some((k2, mut cs2)) = self.frames.pop() {
                    let ghost cs20 = cs2@;
                    cs2.push(Child::Node(done));
                    self.frames.push((k2, cs2));
                    proof {
                        let st = step_build(old(self)@, EventView::Close)->Some_0;
                        lemma_children_views_push(cs20, Child::Node(done));
                        assert(self@.frames =~= st.frames);
                        assert(self@ =~= st);
                    }
                    true
                } else {
                    proof {
                        assert(false);
                    }
                    false
                }
            }
        } else {
            proof {
                assert(false);
            }
            false
        }
    }

    /// Finishes construction: yields the tree when exactly one root was
    /// built and every opened node was closed, and reports the error
    /// otherwise.
    pub fn finish(self) -> (r: Option<Node>)
        ensures
            r matches Some(n) ==> self@.frames.len() == 0 && self@.root == Some(node_view(n)),
            r is None ==> self@.frames.len() != 0 || self@.root is None,
    {
        if self.frames.len() != 0 {
            return None;
        }
        self.root
    }
}

/// Replays a sequence of construction steps through the builder,
/// producing the tree they build, or nothing when the steps do not
/// nest correctly or do not finish exactly one root.
pub fn build_from_events(events: &Vec<ParseEvent>) -> (r: Option<Node>)
    ensures
        r is Some <==> spec_build(events_view(events@)) is Some,
        r matches Some(n) ==> spec_build(events_view(events@)) == Some(node_view(n)),
{
    let ghost evs = events_view(events@);
    let mut b = TreeBuilder::new();
    let len = events.len();
    proof {
        assert(evs.skip(0) =~= evs);
    }
    for i in 0..len
        invariant
            len == events@.len(),
            evs == events_view(events@),
            run_events(init_builder(), evs) == run_events(b@, evs.skip(i as int)),
    {
        let ghost suffix = evs.skip(i as int);
        proof {
            assert(suffix[0] == event_view(events@[i as int]));
            assert(suffix.drop_first() =~= evs.skip(i + 1));
        }
        let ok = match &events[i] {
            ParseEvent::Open { kind } => b.open_node(*kind),
            ParseEvent::Leaf { kind, text } => b.token(*kind, text.clone()),
            ParseEvent::Close => b.close_node(),
        };
        if !ok {
            proof {
                assert(run_events(b@, suffix) is None);
            }
            return None;
        }
    }
    proof {
        assert(evs.skip(len as int) =~= Seq::<EventView>::empty());
    }
    b.finish()
}

} // verus!
