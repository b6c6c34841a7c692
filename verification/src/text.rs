//! Keys are bytes and paths are text: how the one becomes the other.

use vstd::prelude::*;
use vstd::utf8::{encode_utf8, valid_utf8};

verus! {

/// `String::from_utf8`: the text that the bytes encode, or none where the
/// bytes are not UTF-8.
#[verifier::external_body]
fn string_from_utf8(bytes: Vec<u8>) -> (text: Option<String>)
    ensures
        text is Some <==> valid_utf8(bytes@),
        text matches Some(inner) ==> encode_utf8(inner@) == bytes@,
{
    String::from_utf8(bytes).ok()
}

/// The text of a path that may be absent.
pub open spec fn path_view(path: Option<String>) -> Option<Seq<char>> {
    match path {
        Some(inner) => Some(inner@),
        None => None,
    }
}

/// The byte keys of a listing of paths.
pub open spec fn path_keys(paths: Seq<String>) -> Seq<Seq<u8>> {
    paths.map_values(|path: String| encode_utf8(path@))
}

/// Reads a key as a path; none where the key is not UTF-8.
pub fn path_of_key(key: &Vec<u8>) -> (path: Option<String>)
    ensures
        path is Some <==> valid_utf8(key@),
        path matches Some(inner) ==> encode_utf8(inner@) == key@,
{
    string_from_utf8(key.clone())
}

} // verus!
