//! Trusted items: the calls this library makes into std functions that vstd
//! does not specify and into outside crates. Verus believes the contracts
//! here; each doc comment says what is claimed and what is left unsaid.

use vstd::prelude::*;
use unicode_width::UnicodeWidthChar;
use unicode_width::UnicodeWidthStr;
use std::io::Write;

verus! {

/// What `str::to_lowercase` returns for a string with these characters.
pub uninterp spec fn lowercase_of(s: Seq<char>) -> Seq<char>;

/// The ASCII lowercase form of characters: 'A' to 'Z' become 'a' to 'z',
/// every other character stays.
pub open spec fn ascii_lowercase(s: Seq<char>) -> Seq<char> {
    Seq::new(s.len(), |i: int| if 'A' <= s[i] && s[i] <= 'Z' { ((s[i] as u32) + 32) as char } else { s[i] })
}

/// Calls `str::to_lowercase` (Unicode lowercase mapping). The contract names
/// the result, a function of the characters of `s`, and states it for ASCII
/// text, where the Unicode mapping lowercases 'A' to 'Z' and keeps the rest.
#[verifier::external_body]
pub(crate) fn to_lowercase(s: &str) -> (out: String)
    ensures
        out@ == lowercase_of(s@),
        (forall|i: int| 0 <= i < s@.len() ==> (#[trigger] s@[i] as u32) < 128) ==> out@ == ascii_lowercase(s@),
{
    s.to_lowercase()
}

/// Calls `String::from_iter` over the characters: the string holds exactly
/// these characters, in order.
#[verifier::external_body]
pub(crate) fn string_from_chars(chars: &[char]) -> (out: String)
    ensures
        out@ == chars@,
{
    String::from_iter(chars.iter())
}

/// What `unicode_width::UnicodeWidthChar::width` returns for a character.
pub uninterp spec fn char_width_of(c: char) -> Option<usize>;

/// Calls `UnicodeWidthChar::width` (the display width of one character, or
/// `None` for a control character). The contract names the result and
/// states it for ASCII below DEL: control codes have none, printable
/// characters width 1.
#[verifier::external_body]
pub(crate) fn char_width(c: char) -> (w: Option<usize>)
    ensures
        w == char_width_of(c),
        c < ' ' ==> w is None,
        ' ' <= c && c < '\x7f' ==> w == Some(1usize),
{
    c.width()
}

/// What `unicode_width::UnicodeWidthStr::width` returns for a string.
pub uninterp spec fn str_width_of(s: Seq<char>) -> usize;

/// Calls `UnicodeWidthStr::width` (the display width of a whole string,
/// which is not always the sum of its characters' widths). The contract
/// names the result and states it for printable ASCII text, where no
/// ligature rule applies and each character is one column wide.
#[verifier::external_body]
pub(crate) fn str_width(s: &str) -> (w: usize)
    ensures
        w == str_width_of(s@),
        (forall|i: int| 0 <= i < s@.len() ==> ' ' <= #[trigger] s@[i] && s@[i] < '\x7f') ==> w == s@.len(),
{
    s.width()
}

/// What `crc32fast::hash` returns for a byte string.
pub uninterp spec fn crc32_of(bytes: Seq<u8>) -> u32;

/// Calls `crc32fast::hash` (the CRC-32 checksum). The contract only names
/// the result.
#[verifier::external_body]
pub(crate) fn crc32(bytes: &[u8]) -> (sum: u32)
    ensures
        sum == crc32_of(bytes@),
{
    crc32fast::hash(bytes)
}

/// What a `flate2` zlib encoder at the default level writes for `data`
/// (empty when finishing the stream fails).
pub uninterp spec fn zlib_compressed(data: Seq<u8>) -> Seq<u8>;

/// Compresses `data` with `flate2::write::ZlibEncoder` at
/// `Compression::default()` into a `Vec`, returning the finished stream or an
/// empty vector if `finish` reports an error. The contract only names the
/// result.
#[verifier::external_body]
pub(crate) fn zlib_compress(data: &[u8]) -> (out: Vec<u8>)
    ensures
        out@ == zlib_compressed(data@),
{
    let mut encoder = flate2::write::ZlibEncoder::new(Vec::new(), flate2::Compression::default());
    let _ = encoder.write_all(data);
    encoder.finish().unwrap_or_default()
}

/// What `base64`'s standard engine (with padding) encodes `data` to.
pub uninterp spec fn base64_of(data: Seq<u8>) -> Seq<char>;

/// Calls `base64::Engine::encode` on `general_purpose::STANDARD`. The crate
/// panics when the encoded length overflows `usize`; the bound in `requires`
/// keeps well below that. The contract only names the result.
#[verifier::external_body]
pub(crate) fn base64_encode(data: &[u8]) -> (out: String)
    requires
        data@.len() <= usize::MAX / 4,
    ensures
        out@ == base64_of(data@),
{
    base64::Engine::encode(&base64::engine::general_purpose::STANDARD, data)
}

/// What compiling `pattern` with `regex_lite::Regex::new` and replacing its
/// first match in `haystack` by `replacement` (with `$` expansion) gives;
/// the haystack itself when the pattern does not compile.
pub uninterp spec fn regex_replaced_first(pattern: Seq<char>, haystack: Seq<char>, replacement: Seq<char>) -> Seq<char>;

/// The first position at or after `from` where "z=" occurs in `s`.
pub open spec fn find_z_eq(s: Seq<char>, from: int) -> Option<int>
    decreases s.len() - from,
{
    if from < 0 || from + 2 > s.len() {
        None
    } else if s[from] == 'z' && s[from + 1] == '=' {
        Some(from)
    } else {
        find_z_eq(s, from + 1)
    }
}

/// The first position at or after `from` holding ',' in `s`, or the length
/// of `s` when there is none.
pub open spec fn find_comma(s: Seq<char>, from: int) -> int
    decreases s.len() - from,
{
    if from < 0 || from >= s.len() {
        s.len() as int
    } else if s[from] == ',' {
        from
    } else {
        find_comma(s, from + 1)
    }
}

/// `s` with the leftmost match of the pattern `z=[^,]*` ("z=" and the
/// characters up to the next ',' or the end) replaced by `replacement`;
/// `s` itself when there is no match.
pub open spec fn replace_first_z_value(s: Seq<char>, replacement: Seq<char>) -> Seq<char> {
    match find_z_eq(s, 0) {
        None => s,
        Some(i) => s.take(i) + replacement + s.skip(find_comma(s, i + 2)),
    }
}

/// Calls `regex_lite::Regex::new(pattern)` and then `Regex::replace` (first
/// match only). A pattern that does not compile leaves the haystack as it
/// is. For other patterns the contract only names the result; for the
/// pattern `z=[^,]*` with a replacement without `$` (so that nothing is
/// expanded), it states the result: the leftmost match, which is greedy,
/// replaced by the replacement text.
#[verifier::external_body]
pub(crate) fn regex_replace_first(pattern: &str, haystack: &str, replacement: &str) -> (out: String)
    ensures
        out@ == regex_replaced_first(pattern@, haystack@, replacement@),
        pattern@ == "z=[^,]*"@ && !replacement@.contains('$') ==> out@ == replace_first_z_value(
            haystack@,
            replacement@,
        ),
{
    match regex_lite::Regex::new(pattern) {
        Ok(re) => re.replace(haystack, replacement).to_string(),
        Err(_) => haystack.to_string(),
    }
}

/// Calls `std::str::from_utf8`: it succeeds exactly on valid UTF-8, and then
/// the string holds the decoded characters.
#[verifier::external_body]
pub(crate) fn utf8_decode(bytes: &[u8]) -> (out: Option<String>)
    ensures
        out is Some <==> vstd::utf8::valid_utf8(bytes@),
        out matches Some(s) ==> s@ == vstd::utf8::decode_utf8(bytes@),
{
    std::str::from_utf8(bytes).ok().map(|s| s.to_string())
}

/// What `Path::strip_prefix` gives for these two paths, as text
/// (`to_string_lossy`), or `None` when `base` is not a prefix of `path`.
pub uninterp spec fn path_relative_of(path: Seq<char>, base: Seq<char>) -> Option<Seq<char>>;

/// Calls `std::path::Path::strip_prefix` (component-wise prefix removal) and
/// turns the remaining path into text. The contract only names the result.
#[verifier::external_body]
pub(crate) fn path_relative(path: &str, base: &str) -> (rel: Option<String>)
    ensures
        rel is None <==> path_relative_of(path@, base@) is None,
        rel matches Some(r) ==> path_relative_of(path@, base@) == Some(r@),
{
    match std::path::Path::new(path).strip_prefix(base) {
        Ok(rel) => Some(rel.to_string_lossy().to_string()),
        Err(_) => None,
    }
}

/// What `PartialEq` on `std::path::Path` gives for two paths.
pub uninterp spec fn paths_equal_of(a: Seq<char>, b: Seq<char>) -> bool;

/// Calls `PartialEq` on `std::path::Path` (component-wise equality). The
/// contract only names the result.
#[verifier::external_body]
pub(crate) fn paths_equal(a: &str, b: &str) -> (eq: bool)
    ensures
        eq == paths_equal_of(a@, b@),
{
    std::path::Path::new(a) == std::path::Path::new(b)
}

} // verus!
