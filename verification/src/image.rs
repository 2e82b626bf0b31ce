//! Images attached to a question: their MIME type and their data URL.

use vstd::prelude::*;
use base64::Engine;
use crate::path::{extension, extension_of};
use crate::text::{concat_str, lines_of, split_lines, str_eq, strs_view, trim, trim_ws};

verus! {

/// The MIME type for a file extension (PNG when unknown or absent).
pub open spec fn mime_for(ext: Option<Seq<char>>) -> Seq<char> {
    match ext {
        Some(e) => if e == "png"@ {
            "image/png"@
        } else if e == "jpg"@ || e == "jpeg"@ {
            "image/jpeg"@
        } else if e == "gif"@ {
            "image/gif"@
        } else if e == "webp"@ {
            "image/webp"@
        } else if e == "bmp"@ {
            "image/bmp"@
        } else {
            "image/png"@
        },
        None => "image/png"@,
    }
}

/// The MIME type for a file extension.
pub fn mime_for_extension(ext: Option<&str>) -> (r: &'static str)
    ensures
        r@ == mime_for(match ext {
            Some(e) => Some(e@),
            None => None,
        }),
{
    match ext {
        Some(e) => if str_eq(e, "png") {
            "image/png"
        } else if str_eq(e, "jpg") || str_eq(e, "jpeg") {
            "image/jpeg"
        } else if str_eq(e, "gif") {
            "image/gif"
        } else if str_eq(e, "webp") {
            "image/webp"
        } else if str_eq(e, "bmp") {
            "image/bmp"
        } else {
            "image/png"
        },
        None => "image/png",
    }
}

/// Detects the MIME type of an image from its path's extension.
pub fn detect_mime(path: &str) -> (r: &'static str)
    ensures
        r@ == mime_for(extension_of(path@)),
{
    match extension(path) {
        Some(e) => mime_for_extension(Some(e.as_str())),
        None => mime_for_extension(None),
    }
}

/// The standard Base64 encoding (with padding) of some bytes, as the
/// `base64` crate's `STANDARD` engine produces it.
pub uninterp spec fn base64_standard(data: Seq<u8>) -> Seq<char>;

/// The length of the padded Base64 text of `n` bytes fits in `usize` (the
/// encoder panics otherwise).
pub open spec fn base64_len_fits(n: int) -> bool {
    n / 3 * 4 + (if n % 3 > 0 {
        4int
    } else {
        0
    }) <= usize::MAX
}

/// Whether the Base64 text of `n` bytes can be made.
pub fn base64_fits(n: usize) -> (r: bool)
    ensures
        r == base64_len_fits(n as int),
{
    let chunks = n / 3;
    if chunks > usize::MAX / 4 {
        return false;
    }
    let full = chunks * 4;
    if n % 3 > 0 {
        full <= usize::MAX - 4
    } else {
        true
    }
}

/// Calls `base64::engine::general_purpose::STANDARD.encode`. Trusted: the
/// result is the standard Base64 text of the bytes, a function of the bytes
/// alone; the alphabet and padding rules are not written out here.
#[verifier::external_body]
fn base64_encode(data: &[u8]) -> (r: String)
    requires
        base64_len_fits(data@.len() as int),
    ensures
        r@ == base64_standard(data@),
{
    base64::engine::general_purpose::STANDARD.encode(data)
}

/// A data URL for Base64 text of the given MIME type.
pub open spec fn data_url_of(mime: Seq<char>, b64: Seq<char>) -> Seq<char> {
    "data:"@ + mime + ";base64,"@ + b64
}

/// The data URL for Base64 text of the given MIME type.
pub fn data_url(mime: &str, b64: &str) -> (r: String)
    ensures
        r@ == data_url_of(mime@, b64@),
{
    let a = concat_str("data:", mime);
    let b = concat_str(a.as_str(), ";base64,");
    concat_str(b.as_str(), b64)
}

/// The data URL of an image's bytes, for the vision API.
pub fn image_data_url(mime: &str, data: &[u8]) -> (r: String)
    requires
        base64_len_fits(data@.len() as int),
    ensures
        r@ == data_url_of(mime@, base64_standard(data@)),
{
    let b64 = base64_encode(data);
    data_url(mime, b64.as_str())
}

/// Some line of `types`, trimmed, equals `t`.
pub open spec fn lists_type(types: Seq<char>, t: Seq<char>) -> bool {
    exists|i: int| 0 <= i < lines_of(types).len() && trim(#[trigger] lines_of(types)[i]) == t
}

/// The image type to take from a clipboard offering the listed types:
/// PNG first, then JPEG.
pub open spec fn clipboard_type(types: Seq<char>) -> Option<Seq<char>> {
    if lists_type(types, "image/png"@) {
        Some("image/png"@)
    } else if lists_type(types, "image/jpeg"@) {
        Some("image/jpeg"@)
    } else {
        None
    }
}

fn has_type(lines: &Vec<&str>, t: &str) -> (r: bool)
    ensures
        r == exists|i: int| 0 <= i < lines@.len() && trim(#[trigger] strs_view(lines@)[i]) == t@,
{
    let mut i: usize = 0;
    while i < lines.len()
        invariant
            i <= lines@.len(),
            forall|k: int| 0 <= k < i ==> trim(#[trigger] strs_view(lines@)[k]) != t@,
        decreases lines@.len() - i,
    {
        assert(strs_view(lines@)[i as int] == lines@[i as int]@);
        if str_eq(trim_ws(lines[i]), t) {
            return true;
        }
        i += 1;
    }
    false
}

/// The image type to read from the clipboard, given the types it lists
/// (one per line): PNG if listed, else JPEG if listed, else none.
pub fn clipboard_mime(types: &str) -> (r: Option<&'static str>)
    ensures
        r matches Some(m) ==> clipboard_type(types@) == Some(m@),
        r is None ==> clipboard_type(types@) is None,
{
    let lines = split_lines(types);
    if has_type(&lines, "image/png") {
        Some("image/png")
    } else if has_type(&lines, "image/jpeg") {
        Some("image/jpeg")
    } else {
        None
    }
}

} // verus!
