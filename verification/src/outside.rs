use vstd::prelude::*;
use itertools::Itertools;

verus! {

/// serde_json's JSON value type, declared so that lens commands can carry
/// their arguments through this crate without it looking inside them.
#[verifier::external_type_specification]
#[verifier::external_body]
pub struct ExValue(serde_json::Value);

/// The JSON text serde_json produces for a list of argument values.
/// The result depends on the argument values alone.
pub uninterp spec fn json_args_text(args: Seq<serde_json::Value>) -> Seq<char>;

/// Relies on serde_json::to_string: serializes the argument list to JSON
/// text.  Serializing plain JSON values cannot fail: their maps are keyed
/// by strings, and their Serialize impl reports no errors of its own.
#[verifier::external_body]
pub(crate) fn arguments_json(args: &Vec<serde_json::Value>) -> (r: String)
    ensures
        r@ == json_args_text(args@),
{
    serde_json::to_string(args).unwrap()
}

/// Relies on std's FromIterator impl for String: collecting characters
/// yields the string of exactly those characters, in order.
#[verifier::external_body]
pub(crate) fn string_from_chars(v: &Vec<char>) -> (r: String)
    ensures
        r@ == v@,
{
    v.iter().collect()
}

/// Relies on itertools' join: the pieces concatenated, with the separator
/// between each adjacent pair and nowhere else.
#[verifier::external_body]
pub(crate) fn join_with_space(parts: &Vec<String>) -> (r: String)
    ensures
        r@ == crate::codec::join_space_spec(parts.deep_view()),
{
    parts.iter().join(" ")
}

/// The canonical file URI the url crate builds for a file path.
/// The result depends on the path alone.
pub uninterp spec fn file_uri_text(path: Seq<char>) -> Seq<char>;

/// A path is absolute when it starts with the root separator.
pub open spec fn is_absolute_path(path: Seq<char>) -> bool {
    path.len() > 0 && path[0] == '/'
}

/// Relies on lsp_types::Url::from_file_path (the url crate): builds the
/// canonical file:// URI for a path, failing exactly when the path is not
/// absolute; the String conversion hands the URI's text out unchanged.
#[verifier::external_body]
pub(crate) fn file_uri_string(path: &str) -> (r: Option<String>)
    ensures
        r is Some ==> r->0@ == file_uri_text(path@),
        is_absolute_path(path@) ==> r is Some,
{
    match lsp_types::Url::from_file_path(path) {
        Ok(u) => Some(String::from(u)),
        Err(()) => None,
    }
}

} // verus!
