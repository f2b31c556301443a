//! What the library takes from other crates: shell word splitting, regular
//! expressions, SHA-256, JSON, UTF-8, and Unicode's letters and digits.
use crate::views;
use regex::Regex;
use sha2::Digest;
use sha2::Sha256;
use vstd::prelude::*;

verus! {

/// The words that `shell_words::split` finds; none where a quote is left open.
pub uninterp spec fn shell_split(s: Seq<char>) -> Option<Seq<Seq<char>>>;

/// `shell_words::split` splits a command line into words as a Unix shell
/// does, without expansions. It fails on an unmatched quote. Which words it
/// finds is named here and not stated.
#[verifier::external_body]
pub(crate) fn shell_words_of(s: &str) -> (r: Option<Vec<String>>)
    ensures
        views::opt_texts(r) == shell_split(s@),
{
    shell_words::split(s).ok()
}

/// A character that means something in a regular expression.
pub open spec fn is_meta(c: char) -> bool {
    "\\.+*?()|[]{}^$#&-~"@.contains(c)
}

/// A text with a backslash before each character that means something in a
/// regular expression.
pub open spec fn regex_literal(s: Seq<char>) -> Seq<char>
    decreases s.len(),
{
    if s.len() == 0 {
        Seq::empty()
    } else if is_meta(s.last()) {
        regex_literal(s.drop_last()).push('\\').push(s.last())
    } else {
        regex_literal(s.drop_last()).push(s.last())
    }
}

/// `regex::escape` puts a backslash before each meta character, so that the
/// pattern matches its argument literally.
#[verifier::external_body]
pub(crate) fn regex_escape(s: &str) -> (r: String)
    ensures
        r@ == regex_literal(s@),
{
    regex::escape(s)
}

/// The matches of a pattern in a text, from left to right and without overlap;
/// none where the pattern is no regular expression.
pub uninterp spec fn regex_matches(pattern: Seq<char>, s: Seq<char>) -> Option<Seq<Seq<char>>>;

/// `regex::Regex::new` compiles the pattern, which fails where it is no
/// regular expression, and `regex::Regex::find_iter` yields its successive
/// non-overlapping matches. Which matches there are is named here and not stated.
#[verifier::external_body]
pub(crate) fn regex_find_all(pattern: &str, s: &str) -> (r: Option<Vec<String>>)
    ensures
        views::opt_texts(r) == regex_matches(pattern@, s@),
{
    match Regex::new(pattern) {
        Ok(re) => Some(re.find_iter(s).map(|m| m.as_str().to_string()).collect()),
        Err(_) => None,
    }
}

/// The SHA-256 digest of a byte sequence.
pub uninterp spec fn sha256(data: Seq<u8>) -> Seq<u8>;

/// `sha2::Sha256::digest` computes the SHA-256 hash of its argument, which is
/// 32 bytes long. Which bytes they are is named here and not stated.
#[verifier::external_body]
pub(crate) fn sha256_of(data: &[u8]) -> (r: Vec<u8>)
    ensures
        r@ == sha256(data@),
        r@.len() == 32,
{
    Sha256::digest(data).to_vec()
}

/// The keys of the object that a JSON document, itself an object, has under a
/// key; none where the document is no JSON or there is no such object.
pub uninterp spec fn json_keys(data: Seq<u8>, key: Seq<char>) -> Option<Seq<Seq<char>>>;

/// `serde_json::from_slice` reads the document, `Value::get` looks the key up,
/// `Value::as_object` tells whether an object stands there, and `Map::keys`
/// yields its keys. Which keys there are is named here and not stated.
#[verifier::external_body]
pub(crate) fn json_object_keys(data: &[u8], key: &str) -> (r: Option<Vec<String>>)
    ensures
        views::opt_texts(r) == json_keys(data@, key@),
{
    let document = serde_json::from_slice::<serde_json::Value>(data).ok()?;
    let object = document.get(key)?.as_object()?;
    Some(object.keys().cloned().collect())
}

/// `std::str::from_utf8` reads bytes as text. It fails where they are not
/// valid UTF-8.
#[verifier::external_body]
pub(crate) fn utf8_text(data: &[u8]) -> (r: Option<String>)
    ensures
        match r {
            Some(s) => vstd::utf8::valid_utf8(data@) && s@ == vstd::utf8::decode_utf8(data@),
            None => !vstd::utf8::valid_utf8(data@),
        },
{
    std::str::from_utf8(data).ok().map(|s| s.to_string())
}

/// Unicode's letters and numbers.
pub uninterp spec fn alphanumeric(c: char) -> bool;

/// `char::is_alphanumeric` tells the letters and numbers of Unicode. Among the
/// ASCII characters those are the letters and the decimal digits; which they
/// are beyond ASCII is named here and not stated.
#[verifier::external_body]
pub(crate) fn is_alphanumeric(c: char) -> (r: bool)
    ensures
        r == alphanumeric(c),
        c <= '\u{7f}' ==> r == crate::text::is_ascii_alnum(c),
{
    c.is_alphanumeric()
}

} // verus!
