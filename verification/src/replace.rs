//! The composed entry point: parse, locate, reconstruct, render. The
//! document text is rewritten with only the first matching string
//! literal's content changed, and a separate validation pass checks a
//! reconstruction result against the original.

use vstd::prelude::*;
use vstd::string::StringSliceAdditionalSpecFns;

use crate::errors::{ReplaceError, ValidationError};
use crate::locate::{find_url_string_path, is_literal_match, lemma_locate_sound, locate_in};
use crate::parse::{count_parse_errors, parse_error_count, parse_root, parsed_tree};
use crate::rebuild::{
    lemma_reconstruct_defined, lemma_reconstruct_texts, lemma_replacement_contains_new,
    literal_text, reconstruct_spec, reconstruct_with_replacement,
};
use crate::substring::{contains_seq, text_contains};
use crate::tree::{node_at, node_view, path_view, render_text, text_of, NodeView};

verus! {

/// A located literal is always replaceable: when the locator returns a
/// path, reconstruction along that path succeeds for any content.
pub proof fn lemma_located_replacement_succeeds(
    nv: NodeView,
    target: Seq<char>,
    content: Seq<char>,
)
    requires
        locate_in(nv, target) is Some,
    ensures
        reconstruct_spec(nv, locate_in(nv, target)->Some_0, content) is Some,
{
    lemma_locate_sound(nv, target);
    lemma_reconstruct_defined(nv, locate_in(nv, target)->Some_0, content);
}

/// Targeted replacement, in one statement: when the locator finds a
/// path, that path addresses a string literal containing the target,
/// reconstruction along it succeeds, and the document's text splits
/// once into an unchanged prefix, the addressed literal's text, and an
/// unchanged suffix — with only the literal's span differing between
/// the original and the reconstructed text. The returned pair is that
/// common prefix and suffix.
pub proof fn lemma_replace_preserves_document(
    nv: NodeView,
    target: Seq<char>,
    content: Seq<char>,
) -> (split: (Seq<char>, Seq<char>))
    requires
        locate_in(nv, target) is Some,
    ensures
        ({
            let p = locate_in(nv, target)->Some_0;
            &&& is_literal_match(node_at(nv, p), target)
            &&& reconstruct_spec(nv, p, content) is Some
            &&& text_of(nv) == split.0 + text_of(node_at(nv, p)) + split.1
            &&& text_of(reconstruct_spec(nv, p, content)->Some_0) == split.0 + literal_text(
                content,
            ) + split.1
        }),
{
    let p = locate_in(nv, target)->Some_0;
    lemma_locate_sound(nv, target);
    lemma_reconstruct_defined(nv, p, content);
    lemma_reconstruct_texts(nv, p, content)
}

/// Replaces the first string literal containing `old_url` with a fresh
/// literal holding `new_url`, leaving every other character of the
/// document unchanged. The input name is accepted for interface
/// compatibility and user messaging only; the literal is located purely
/// by substring match. `Ok` exactly when the document parses with zero
/// errors and some literal contains `old_url`.
pub fn replace_flake_input_url(
    flake_content: &str,
    _input_name: &str,
    old_url: &str,
    new_url: &str,
) -> (r: Result<String, ReplaceError>)
    requires
        old_url@.len() > 0,
    ensures
        r is Ok <==> (parse_error_count(flake_content@) == 0 && locate_in(
            parsed_tree(flake_content@)->Some_0,
            old_url@,
        ) is Some),
        r == Err::<String, ReplaceError>(ReplaceError::ParseError) <==> parse_error_count(
            flake_content@,
        ) != 0,
        r == Err::<String, ReplaceError>(ReplaceError::NotFound) <==> (parse_error_count(
            flake_content@,
        ) == 0 && locate_in(parsed_tree(flake_content@)->Some_0, old_url@) is None),
        r matches Ok(out) ==> out@ == text_of(
            reconstruct_spec(
                parsed_tree(flake_content@)->Some_0,
                locate_in(parsed_tree(flake_content@)->Some_0, old_url@)->Some_0,
                new_url@,
            )->Some_0,
        ),
        r matches Ok(out) ==> contains_seq(out@, new_url@),
{
    let root = match parse_root(flake_content) {
        Ok(n) => n,
        Err(e) => {
            return Err(e);
        },
    };
    match find_url_string_path(&root, old_url) {
        Some(path) => {
            proof {
                lemma_located_replacement_succeeds(node_view(root), old_url@, new_url@);
            }
            match reconstruct_with_replacement(&root, &path, new_url) {
                Ok(new_tree) => {
                    proof {
                        lemma_replacement_contains_new(
                            node_view(root),
                            path_view(path@),
                            new_url@,
                        );
                    }
                    Ok(render_text(&new_tree))
                },
                Err(e) => {
                    proof {
                        assert(false);
                    }
                    Err(e)
                },
            }
        },
        None => Err(ReplaceError::NotFound),
    }
}

/// The verdict the validation pass reaches: the first failed check, in
/// a fixed order, or success. Lengths are byte lengths.
pub open spec fn validation_verdict(
    original: &str,
    result: &str,
    old_value: &str,
    new_value: &str,
) -> Result<(), ValidationError> {
    let expected: int = new_value.spec_bytes().len() - old_value.spec_bytes().len();
    let actual: int = result.spec_bytes().len() - original.spec_bytes().len();
    if contains_seq(result@, old_value@) {
        Err(ValidationError::OldValuePresent)
    } else if !contains_seq(result@, new_value@) {
        Err(ValidationError::NewValueMissing)
    } else if parse_error_count(result@) != 0 {
        Err(ValidationError::SyntaxErrors)
    } else if actual - expected > 1 || expected - actual > 1 {
        Err(ValidationError::LengthMismatch)
    } else {
        Ok(())
    }
}

/// Checks a reconstruction result against the original document: the
/// old value must be gone, the new value present, the result must still
/// parse cleanly, and its length must have changed by exactly the
/// replaced value's length difference, give or take one byte.
pub fn validate_reconstruction_result(
    original: &str,
    result: &str,
    old_value: &str,
    new_value: &str,
) -> (r: Result<(), ValidationError>)
    ensures
        r == validation_verdict(original, result, old_value, new_value),
{
    if text_contains(result, old_value) {
        return Err(ValidationError::OldValuePresent);
    }
    if !text_contains(result, new_value) {
        return Err(ValidationError::NewValueMissing);
    }
    if count_parse_errors(result) != 0 {
        return Err(ValidationError::SyntaxErrors);
    }
    let orig_len = original.as_bytes().len();
    let result_len = result.as_bytes().len();
    let old_len = old_value.as_bytes().len();
    let new_len = new_value.as_bytes().len();
    let expected: i128 = (new_len as i128) - (old_len as i128);
    let actual: i128 = (result_len as i128) - (orig_len as i128);
    if actual - expected > 1 || expected - actual > 1 {
        return Err(ValidationError::LengthMismatch);
    }
    Ok(())
}

} // verus!
