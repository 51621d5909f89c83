//! Preview images as `data:` URLs the webview can render directly.
//!
//! Reading the file is left to the caller; the library decides the type from the extension and
//! refuses what the app does not handle, rather than sending bytes the webview cannot show.

use base64::Engine;
use vstd::prelude::*;
use crate::image_format::{extensions, mime_for_extension, mime_for_lowered, strictly_sorted, supported_extensions};
use crate::paths::{extension, extension_chars};
use crate::text::{chars_of, extend, join, lowercase, string_of};

verus! {

/// The standard base64 alphabet: the character for each six-bit value, in order.
pub open spec fn base64_alphabet() -> Seq<char> {
    "ABCDEFGHIJKLMNOPQRSTUVWXYZabcdefghijklmnopqrstuvwxyz0123456789+/"@
}

/// The character of the standard alphabet for a six-bit value.
pub open spec fn b64(v: int) -> char {
    base64_alphabet()[v]
}

/// Standard base64 with padding (RFC 4648, section 4): each three bytes become four characters of
/// six bits each, most significant first, and a last group of one or two bytes is filled out with
/// zero bits and `=`.
pub open spec fn base64_standard(b: Seq<u8>) -> Seq<char>
    decreases b.len(),
{
    if b.len() == 0 {
        Seq::empty()
    } else if b.len() == 1 {
        let x = b[0] as int;
        seq![b64(x / 4), b64((x % 4) * 16), '=', '=']
    } else if b.len() == 2 {
        let (x, y) = (b[0] as int, b[1] as int);
        seq![b64(x / 4), b64((x % 4) * 16 + y / 16), b64((y % 16) * 4), '=']
    } else {
        let (x, y, z) = (b[0] as int, b[1] as int, b[2] as int);
        seq![b64(x / 4), b64((x % 4) * 16 + y / 16), b64((y % 16) * 4 + z / 64), b64(z % 64)]
            + base64_standard(b.skip(3))
    }
}

/// `base64::engine::general_purpose::STANDARD.encode`: the bytes in standard base64, with the
/// standard alphabet and padding, as [`base64_standard`] states it.
#[verifier::external_body]
fn base64_encode(bytes: &[u8]) -> (r: String)
    ensures
        r@ == base64_standard(bytes@),
{
    base64::engine::general_purpose::STANDARD.encode(bytes)
}

/// The extension the image type is decided by: the path's extension, or nothing.
pub open spec fn image_extension(path: Seq<char>) -> Seq<char> {
    match extension(path) {
        Some(e) => e,
        None => Seq::empty(),
    }
}

/// The `data:` URL for an image's bytes, given the type its extension maps to.
pub open spec fn data_url(mime: Seq<char>, bytes: Seq<u8>) -> Seq<char> {
    "data:"@ + mime + ";base64,"@ + base64_standard(bytes)
}

/// The refusal for an unsupported extension, naming every one that is supported.
pub open spec fn unsupported_message(ext: Seq<char>, supported: Seq<char>) -> Seq<char> {
    "Eous doesn't support ."@ + ext + " images. Try one of: "@ + supported + "."@
}

/// The file at `path`, whose bytes are `bytes`, as a `data:` URL: the type comes from the
/// extension, compared in lowercase, and an extension the app does not handle is refused with a
/// message listing the ones it does.
pub fn image_data_url(path: &str, bytes: &[u8]) -> (r: Result<String, String>)
    ensures
        match mime_for_lowered(lowercase(image_extension(path@))) {
            Some(mime) => r matches Ok(url) && url@ == data_url(mime, bytes@),
            None => r matches Err(m) && exists|names: Seq<Seq<char>>|
                strictly_sorted(names) && names.to_set() == extensions().to_set() && m@
                    == unsupported_message(image_extension(path@), join(names, ", "@)),
        },
{
    let ext: Vec<char> = match extension_chars(chars_of(path).as_slice()) {
        Some(e) => e,
        None => Vec::new(),
    };
    let ext_s = string_of(ext.as_slice());
    match mime_for_extension(ext_s.as_str()) {
        Some(mime) => {
            let mut url = chars_of("data:");
            extend(&mut url, chars_of(mime).as_slice());
            extend(&mut url, chars_of(";base64,").as_slice());
            let encoded = base64_encode(bytes);
            extend(&mut url, chars_of(encoded.as_str()).as_slice());
            Ok(string_of(url.as_slice()))
        },
        None => {
            let supported = supported_extensions();
            let mut m = chars_of("Eous doesn't support .");
            extend(&mut m, ext.as_slice());
            extend(&mut m, chars_of(" images. Try one of: ").as_slice());
            extend(&mut m, chars_of(supported.as_str()).as_slice());
            extend(&mut m, chars_of(".").as_slice());
            Err(string_of(m.as_slice()))
        },
    }
}

} // verus!
