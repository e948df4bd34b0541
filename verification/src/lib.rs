//! Source-preserving replacement of string-literal values in a parsed
//! document: find the first string literal containing a target substring
//! and rebuild the tree with only that literal's content changed, keeping
//! every other token byte-for-byte identical.

pub mod builder;
pub mod errors;
pub mod locate;
pub mod parse;
pub mod rebuild;
pub mod replace;
pub mod substring;
pub mod tree;

pub use builder::TreeBuilder;
pub use errors::{ReplaceError, ValidationError};
pub use locate::{find_first_string_path, find_url_string_path};
pub use parse::parse_root;
pub use rebuild::{create_replacement_string_node, reconstruct_with_replacement};
pub use replace::{replace_flake_input_url, validate_reconstruction_result};
pub use tree::{render_text, Child, Node, NodeKind, Token, TokenKind};
