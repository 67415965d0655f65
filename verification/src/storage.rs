//! The stored form of a row's file list: a JSON array of strings.
use vstd::prelude::*;

use crate::history::{opt_str, opt_strs};

verus! {

/// The JSON text `serde_json::to_string` makes of a list of strings, `None` if it
/// reports an error (a name for what `serde_json` computes).
pub uninterp spec fn json_of_strings(items: Seq<Seq<char>>) -> Option<Seq<char>>;

/// The list of strings `serde_json::from_str::<Vec<String>>` reads from `text`, `None`
/// when it rejects it (a name for what `serde_json` computes).
pub uninterp spec fn strings_of_json(text: Seq<char>) -> Option<Seq<Seq<char>>>;

/// Calls `serde_json::to_string` on the list. Claims the result is `json_of_strings` of
/// the strings.
#[verifier::external_body]
fn to_json(items: &Vec<String>) -> (r: Option<String>)
    ensures
        opt_str(r) == json_of_strings(items.deep_view()),
{
    serde_json::to_string(items).ok()
}

/// Calls `serde_json::from_str::<Vec<String>>`. Claims the result is
/// `strings_of_json` of the text.
#[verifier::external_body]
fn from_json(text: &str) -> (r: Option<Vec<String>>)
    ensures
        opt_strs(r) == strings_of_json(text@),
{
    serde_json::from_str::<Vec<String>>(text).ok()
}

/// The stored text of a file list: its JSON, or empty if encoding fails.
pub fn encode_file_paths(paths: &Vec<String>) -> (s: String)
    ensures
        s@ == (match json_of_strings(paths.deep_view()) {
            Some(j) => j,
            None => Seq::<char>::empty(),
        }),
{
    match to_json(paths) {
        Some(j) => j,
        None => String::new(),
    }
}

/// The file list read back from its stored text; `None` when the text is not a JSON
/// array of strings.
pub fn decode_file_paths(text: &str) -> (r: Option<Vec<String>>)
    ensures
        opt_strs(r) == strings_of_json(text@),
{
    from_json(text)
}

} // verus!
