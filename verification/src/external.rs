//! The calls that this library makes into std functions that vstd does not
//! specify and into the outside crates `base64`, `percent_encoding`,
//! `mime_guess` and `url`. Each is a small function whose contract is
//! trusted; everything else in the library is proved against these
//! contracts.

use base64::Engine;
use vstd::prelude::*;
use vstd::utf8::{decode_utf8, encode_scalar, encode_utf8, valid_utf8};

verus! {

// ---------------------------------------------------------------------
// std
// ---------------------------------------------------------------------

/// What `str::to_lowercase` returns for a string (full Unicode lowercase
/// mapping; not stated further here).
pub uninterp spec fn lowercase(s: Seq<char>) -> Seq<char>;

/// Calls `str::to_lowercase`. Trusted: the result is `lowercase` of the
/// argument's characters, and it is empty exactly when the argument is
/// (every character maps to one or more characters).
#[verifier::external_body]
pub(crate) fn to_lowercase(s: &str) -> (res: String)
    ensures
        res@ == lowercase(s@),
        res@.len() == 0 <==> s@.len() == 0,
{
    s.to_lowercase()
}

/// Collects characters into a `String` (`FromIterator<char>` for
/// `String`). Trusted: the string holds exactly those characters.
#[verifier::external_body]
pub(crate) fn string_from_chars(v: &[char]) -> (res: String)
    ensures
        res@ == v@,
{
    v.iter().collect()
}

// ---------------------------------------------------------------------
// percent_encoding
// ---------------------------------------------------------------------

/// The value of an ASCII hexadecimal digit (as `char::to_digit(16)` reads
/// it), if the byte is one.
pub open spec fn hex_value(b: u8) -> Option<u8> {
    if 48 <= b <= 57 {
        Some((b - 48) as u8)
    } else if 97 <= b <= 102 {
        Some((b - 87) as u8)
    } else if 65 <= b <= 70 {
        Some((b - 55) as u8)
    } else {
        None
    }
}

/// Percent-decoding of a byte sequence: every `%` followed by two
/// hexadecimal digits stands for the byte they spell; every other byte,
/// a `%` without two digits after it included, stands for itself.
pub open spec fn percent_decoded(b: Seq<u8>) -> Seq<u8>
    decreases b.len(),
{
    if b.len() == 0 {
        seq![]
    } else if b[0] == 37 && b.len() >= 3 && hex_value(b[1]) is Some && hex_value(b[2]) is Some {
        seq![(hex_value(b[1]).unwrap() * 16 + hex_value(b[2]).unwrap()) as u8] + percent_decoded(
            b.skip(3),
        )
    } else {
        seq![b[0]] + percent_decoded(b.skip(1))
    }
}

/// A byte sequence without `%` decodes to itself.
pub proof fn lemma_percent_decoded_plain(b: Seq<u8>)
    requires
        forall|i: int| 0 <= i < b.len() ==> #[trigger] b[i] != 37,
    ensures
        percent_decoded(b) =~= b,
    decreases b.len(),
{
    if b.len() > 0 {
        lemma_percent_decoded_plain(b.skip(1));
        assert(b =~= seq![b[0]] + b.skip(1));
    }
}

proof fn lemma_scalar_bytes_not_percent(s: u32)
    requires
        s != 37,
    ensures
        forall|j: int| 0 <= j < encode_scalar(s).len() ==> #[trigger] encode_scalar(s)[j] != 37,
{
    assert(s <= 0x7F && s != 37 ==> (s & 0x7F) as u8 != 37u8) by (bit_vector);
    assert((0xC0u8 | ((s >> 6) & 0x1F) as u8) != 37u8) by (bit_vector);
    assert((0xE0u8 | ((s >> 12) & 0x0F) as u8) != 37u8) by (bit_vector);
    assert((0xF0u8 | ((s >> 18) & 0x7) as u8) != 37u8) by (bit_vector);
    assert((0x80u8 | (s & 0x3F) as u8) != 37u8) by (bit_vector);
    assert((0x80u8 | ((s >> 6) & 0x3F) as u8) != 37u8) by (bit_vector);
    assert((0x80u8 | ((s >> 12) & 0x3F) as u8) != 37u8) by (bit_vector);
}

/// Text without `%` encodes to UTF-8 bytes without `%`.
pub proof fn lemma_encode_no_percent(c: Seq<char>)
    requires
        forall|i: int| 0 <= i < c.len() ==> #[trigger] c[i] != '%',
    ensures
        forall|j: int| 0 <= j < encode_utf8(c).len() ==> #[trigger] encode_utf8(c)[j] != 37,
    decreases c.len(),
{
    if c.len() > 0 {
        assert(c[0] != '%');
        assert((c[0] as u32) != 37) by {
            if (c[0] as u32) == 37 {
                vstd::utf8::char_u32_cast(c[0], 37);
                vstd::utf8::char_u32_cast('%', ('%' as u32));
                assert(('%' as u32) == 37);
            }
        }
        lemma_scalar_bytes_not_percent(c[0] as u32);
        lemma_encode_no_percent(c.drop_first());
        let e = encode_utf8(c);
        let head = encode_scalar(c[0] as u32);
        let tail = encode_utf8(c.drop_first());
        assert(e =~= head + tail);
        assert forall|j: int| 0 <= j < e.len() implies #[trigger] e[j] != 37 by {
            if j < head.len() {
                assert(e[j] == head[j]);
            } else {
                assert(e[j] == tail[j - head.len()]);
            }
        }
    }
}

/// What `percent_decode_str(s).decode_utf8_lossy()` returns where the
/// decoded bytes are not valid UTF-8 (each invalid sequence is replaced by
/// U+FFFD; not stated further here).
pub uninterp spec fn percent_decoded_lossy(s: Seq<char>) -> Seq<char>;

/// Calls `percent_encoding::percent_decode_str(s).decode_utf8_lossy()`.
/// Trusted: the result is `percent_decoded_lossy` of `s`; where the
/// percent-decoded bytes of `s`'s UTF-8 encoding are valid UTF-8 it is
/// exactly the text they encode (the crate returns `from_utf8_lossy` of
/// those bytes, which keeps valid UTF-8 as it is); and a leading `/` stays
/// in front (it decodes to the byte `/`, a valid sequence of its own that
/// `from_utf8_lossy` keeps).
#[verifier::external_body]
pub(crate) fn percent_decode_lossy(s: &str) -> (res: String)
    ensures
        res@ == percent_decoded_lossy(s@),
        valid_utf8(percent_decoded(encode_utf8(s@))) ==> res@ == decode_utf8(
            percent_decoded(encode_utf8(s@)),
        ),
        s@.len() > 0 && s@[0] == '/' ==> res@.len() > 0 && res@[0] == '/',
{
    percent_encoding::percent_decode_str(s).decode_utf8_lossy().into_owned()
}

// ---------------------------------------------------------------------
// base64
// ---------------------------------------------------------------------

/// What the standard base64 engine (`base64::engine::general_purpose::STANDARD`:
/// RFC 4648 alphabet, canonical padding required) decodes `input` to, or
/// `None` where it reports an error.
pub uninterp spec fn base64_standard_decoded(input: Seq<u8>) -> Option<Seq<u8>>;

/// The text of the error (`DecodeError`'s `Display`: an invalid byte and
/// its offset, an invalid length, an invalid last symbol, or invalid
/// padding) that the standard engine reports for `input`.
pub uninterp spec fn base64_standard_error(input: Seq<u8>) -> Seq<char>;

/// Calls `STANDARD.decode(input)` of the `base64` crate. Trusted: it
/// succeeds exactly where `base64_standard_decoded` is `Some`, with those
/// bytes; on failure it hands back the error's text, which is
/// `base64_standard_error` of the input.
#[verifier::external_body]
pub(crate) fn base64_decode(input: &[u8]) -> (res: Result<Vec<u8>, String>)
    ensures
        res is Ok <==> base64_standard_decoded(input@) is Some,
        res matches Ok(v) ==> base64_standard_decoded(input@) == Some(v@),
        res matches Err(e) ==> e@ == base64_standard_error(input@),
{
    match base64::engine::general_purpose::STANDARD.decode(input) {
        Ok(v) => Ok(v),
        Err(e) => Err(e.to_string()),
    }
}

// ---------------------------------------------------------------------
// mime_guess
// ---------------------------------------------------------------------

/// The essence (type/subtype, without parameters) of the MIME type that
/// `mime_guess::from_path(path).first_or_octet_stream()` picks for a path
/// from its extension.
pub uninterp spec fn guessed_mime_essence(path: Seq<char>) -> Seq<char>;

/// Calls `mime_guess::from_path(path).first_or_octet_stream()` and takes
/// its `essence_str()`. Trusted: the result is `guessed_mime_essence` of
/// the path.
#[verifier::external_body]
pub(crate) fn mime_essence_for(path: &str) -> (res: String)
    ensures
        res@ == guessed_mime_essence(path@),
{
    mime_guess::from_path(path).first_or_octet_stream().essence_str().to_string()
}

// ---------------------------------------------------------------------
// url
// ---------------------------------------------------------------------

/// The path component (`Url::path`) of the URL that `url::Url::parse`
/// reads from a string, or `None` where it reports an error.
pub uninterp spec fn parsed_url_path(s: Seq<char>) -> Option<Seq<char>>;

/// Calls `url::Url::parse(s)` and takes the parsed URL's `path()`.
/// Trusted: the result is `parsed_url_path` of `s`; and, as the crate
/// documents for URLs that are not cannot-be-a-base (which `http` and
/// `https` URLs never are), a path parsed from a string that begins with
/// `http://` or `https://` begins with `/`.
#[verifier::external_body]
pub(crate) fn url_path(s: &str) -> (res: Option<String>)
    ensures
        res is Some <==> parsed_url_path(s@) is Some,
        res matches Some(p) ==> parsed_url_path(s@) == Some(p@),
        res matches Some(p) ==> (crate::text::has_prefix(s@, "http://"@) || crate::text::has_prefix(
            s@,
            "https://"@,
        )) ==> p@.len() > 0 && p@[0] == '/',
{
    match url::Url::parse(s) {
        Ok(u) => Some(u.path().to_string()),
        Err(_) => None,
    }
}

} // verus!
