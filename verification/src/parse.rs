//! The boundary to the external parser. The grammar and the parsing
//! are rnix's; this module converts its traversal into construction
//! steps and counts its syntax errors. The tree itself is then built,
//! and everything after that proved, in this crate.

use vstd::prelude::*;

use rnix::SyntaxKind::{NODE_STRING, TOKEN_STRING_CONTENT, TOKEN_STRING_END, TOKEN_STRING_START};
use rowan::NodeOrToken::{Node as NodeEl, Token as TokenEl};
use rowan::WalkEvent::{Enter, Leave};

use crate::builder::ParseEvent::{Close, Leaf, Open};
use crate::builder::{build_from_events, events_view, spec_build, ParseEvent};
use crate::errors::ReplaceError;
use crate::tree::NodeKind::{Other as NodeOther, StringLiteral};
use crate::tree::TokenKind::{
    Other as TokenOther, StringContent, StringEnd, StringStart,
};
use crate::tree::{node_view, text_of, Node};

verus! {

/// The construction steps of the tree that the external parser builds
/// from a text: a pure function of the text alone.
pub uninterp spec fn parse_events_of(s: Seq<char>) -> Seq<crate::builder::EventView>;

/// How many syntax errors the external parser reports for a text: a
/// pure function of the text alone.
pub uninterp spec fn parse_error_count(s: Seq<char>) -> nat;

/// Relies on rnix::Root::parse and rowan's pre-order traversal:
/// parsing is deterministic in the text; the traversal yields the
/// tree's nodes and tokens in source order with balanced enter/leave
/// events; and the tree is lossless ("full fidelity"), so for an
/// error-free parse its tokens carry every character of the input
/// exactly, in order.
#[verifier::external_body]
fn parse_document(text: &str) -> (r: (Vec<ParseEvent>, usize))
    ensures
        events_view(r.0@) == parse_events_of(text@),
        r.1 == parse_error_count(text@),
        r.1 == 0 ==> (spec_build(parse_events_of(text@)) matches Some(root) && text_of(root)
            == text@),
{
    let parsed = rnix::Root::parse(text);
    let events = parsed.syntax().preorder_with_tokens().filter_map(|ev| match ev {
        Enter(NodeEl(n)) => Some(Open {
            kind: if n.kind() == NODE_STRING { StringLiteral } else { NodeOther(n.kind() as u16) },
        }),
        Enter(TokenEl(t)) => Some(Leaf {
            kind: if t.kind() == TOKEN_STRING_START { StringStart } else if t.kind() == TOKEN_STRING_CONTENT { StringContent } else if t.kind() == TOKEN_STRING_END { StringEnd } else { TokenOther(t.kind() as u16) },
            text: t.text().to_owned(),
        }),
        Leave(NodeEl(_)) => Some(Close),
        Leave(TokenEl(_)) => None,
    }).collect();
    (events, parsed.errors().len())
}

/// Parses a document into the crate's own tree. `Ok` exactly when the
/// external parser reports zero syntax errors; the returned tree then
/// renders back to the input text exactly, byte for byte.
pub fn parse_root(text: &str) -> (r: Result<Node, ReplaceError>)
    ensures
        r is Ok <==> parse_error_count(text@) == 0,
        r matches Ok(n) ==> spec_build(parse_events_of(text@)) == Some(node_view(n)) && text_of(
            node_view(n),
        ) == text@,
        r matches Err(e) ==> e == ReplaceError::ParseError,
{
    let (events, n_errors) = parse_document(text);
    if n_errors != 0 {
        return Err(ReplaceError::ParseError);
    }
    match build_from_events(&events) {
        Some(n) => Ok(n),
        None => {
            proof {
                assert(false);
            }
            Err(ReplaceError::ParseError)
        },
    }
}

/// The tree that the external parser's construction steps build for a
/// text. For a text that parses without errors this is always a tree:
/// the traversal's steps are balanced.
pub open spec fn parsed_tree(s: Seq<char>) -> Option<crate::tree::NodeView> {
    spec_build(parse_events_of(s))
}

/// How many syntax errors the external parser reports for a text.
pub fn count_parse_errors(text: &str) -> (n: usize)
    ensures
        n == parse_error_count(text@),
{
    let (_events, n_errors) = parse_document(text);
    n_errors
}

} // verus!
