//! Content-type resolution for uploads.

use vstd::prelude::*;

verus! {

/// The first media type mime_guess associates with a path's extension,
/// if it knows the extension.
pub uninterp spec fn mime_guess_of(path: Seq<char>) -> Option<Seq<char>>;

/// Relies on mime_guess::from_path and MimeGuess::first_raw: the guess
/// is read off a fixed extension table, so it depends on the path's
/// characters alone.
#[verifier::external_body]
fn guess_mime_type(path: &str) -> (r: Option<String>)
    ensures
        r is Some <==> mime_guess_of(path@) is Some,
        r matches Some(s) ==> s@ == mime_guess_of(path@)->Some_0,
{
    mime_guess::from_path(path).first_raw().map(|s| s.to_owned())
}

/// The content type an upload is tagged with: the detected media type,
/// or the generic binary type when detection finds nothing.
pub fn get_content_type(file_path: &str) -> (r: String)
    ensures
        mime_guess_of(file_path@) is Some ==> r@ == mime_guess_of(file_path@)->Some_0,
        mime_guess_of(file_path@) is None ==> r@ == "binary/octet-stream"@,
{
    match guess_mime_type(file_path) {
        Some(ct) => ct,
        None => "binary/octet-stream".to_owned(),
    }
}

} // verus!
