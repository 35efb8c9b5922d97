//! Matching a pattern against a value, by way of the `regex` crate.

use crate::error::UpdateError;
use crate::pattern::{texts_of, Pattern, Template};
use vstd::prelude::*;

verus! {

/// Why `regex` turned a pattern down.
#[verifier::external_type_specification]
#[verifier::external_body]
pub struct ExRegexError(regex::Error);

/// Whether `regex` compiles `pattern`.
pub uninterp spec fn regex_accepts(pattern: Seq<u8>) -> bool;

/// What the groups called `names` hold where `regex` finds its first match of
/// `pattern` in `text`, in the order of `names`; nothing where there is no
/// match. A group that took no part in the match holds nothing.
pub uninterp spec fn regex_groups(pattern: Seq<u8>, text: Seq<u8>, names: Seq<Seq<u8>>) -> Option<
    Seq<Option<Seq<u8>>>,
>;

/// The texts of `groups`, in order.
pub open spec fn groups_of(groups: Seq<Option<Vec<u8>>>) -> Seq<Option<Seq<u8>>> {
    Seq::new(
        groups.len(),
        |i: int|
            match groups[i] {
                Some(text) => Some(text@),
                None => None,
            },
    )
}

/// Compiles `pattern` with `regex::Regex::new`, searches `text` with
/// `Regex::captures` and asks `Captures::name` for each of `names`. The
/// contract names the two outcomes and adds that there is one answer for each
/// name; bytes that are not UTF-8 reach `regex` as replacement characters.
#[verifier::external_body]
fn capture_groups(pattern: &[u8], text: &[u8], names: &Vec<Vec<u8>>) -> (found: Result<
    Option<Vec<Option<Vec<u8>>>>,
    regex::Error,
>)
    ensures
        found is Ok <==> regex_accepts(pattern@),
        found matches Ok(Some(groups)) ==> groups@.len() == names@.len() && regex_groups(
            pattern@,
            text@,
            texts_of(names@),
        ) == Some(groups_of(groups@)),
        found matches Ok(None) ==> regex_groups(pattern@, text@, texts_of(names@)) is None,
{
    let regex = regex::Regex::new(&String::from_utf8_lossy(pattern))?;
    Ok(regex.captures(&String::from_utf8_lossy(text)).map(|captures| {
        names.iter().map(|name| {
            let group = captures.name(&String::from_utf8_lossy(name));
            group.map(|matched| matched.as_str().as_bytes().to_vec())
        }).collect()
    }))
}

/// What the groups of `template` hold where its pattern matches `text`. A
/// pattern that does not compile is a fault of the synthesizer; a pattern that
/// does not match is a fault of the value.
pub open spec fn matched_groups(template: Template, text: Seq<u8>) -> Result<
    Seq<Option<Seq<u8>>>,
    UpdateError,
> {
    if !regex_accepts(template.pattern) {
        Err(UpdateError::Unexpected)
    } else {
        match regex_groups(template.pattern, text, template.names) {
            Some(groups) => Ok(groups),
            None => Err(UpdateError::PatternMismatch),
        }
    }
}

/// Matches `pattern` against `text` and returns what each of its names
/// captured.
pub fn match_pattern(pattern: &Pattern, text: &[u8]) -> (found: Result<
    Vec<Option<Vec<u8>>>,
    UpdateError,
>)
    ensures
        match matched_groups(pattern@, text@) {
            Ok(groups) => found matches Ok(held) && groups_of(held@) == groups && held@.len()
                == pattern@.names.len(),
            Err(error) => found matches Err(failure) && failure == error,
        },
{
    match capture_groups(pattern.text.as_slice(), text, &pattern.names) {
        Err(_) => Err(UpdateError::Unexpected),
        Ok(None) => Err(UpdateError::PatternMismatch),
        Ok(Some(groups)) => Ok(groups),
    }
}

} // verus!
