//! Character classes and case beyond ASCII, and text out of bytes.
use crate::text::to_chars;
use vstd::prelude::*;
use vstd::utf8::*;

verus! {

/// Whether the standard library counts a character outside ASCII as alphabetic or numeric.
pub uninterp spec fn unicode_alphanumeric(c: char) -> bool;

/// Lower case, by the standard library's tables, of a text with a character outside ASCII.
pub uninterp spec fn unicode_lowercase(s: Seq<char>) -> Seq<char>;

/// What the standard library makes of bytes that are not UTF-8 throughout.
pub uninterp spec fn utf8_repaired(bytes: Seq<u8>) -> Seq<char>;

/// `char::is_alphanumeric`. Its result is named and nothing else is said of it.
#[verifier::external_body]
fn char_is_alphanumeric(c: char) -> (r: bool)
    ensures
        r == unicode_alphanumeric(c),
{
    c.is_alphanumeric()
}

/// `str::to_lowercase`. Its result is named and nothing else is said of it.
#[verifier::external_body]
fn str_to_lowercase(s: &str) -> (r: String)
    ensures
        r@ == unicode_lowercase(s@),
{
    s.to_lowercase()
}

/// `String::from_utf8_lossy`: UTF-8 is decoded as it stands; what replaces the faults of other
/// bytes is named and nothing else is said of it.
#[verifier::external_body]
pub(crate) fn from_utf8_lossy(bytes: &[u8]) -> (r: String)
    ensures
        r@ == (if valid_utf8(bytes@) {
            decode_utf8(bytes@)
        } else {
            utf8_repaired(bytes@)
        }),
{
    String::from_utf8_lossy(bytes).into_owned()
}

/// The text that bytes stand for: their decoding where they are UTF-8, else the decoding of what
/// the standard library repairs them to.
pub open spec fn lossy(bytes: Seq<u8>) -> Seq<char> {
    if valid_utf8(bytes) {
        decode_utf8(bytes)
    } else {
        utf8_repaired(bytes)
    }
}

/// An ASCII letter or digit.
pub open spec fn ascii_alphanumeric(c: char) -> bool {
    'a' <= c <= 'z' || 'A' <= c <= 'Z' || '0' <= c <= '9'
}

/// A letter or a digit of any script.
pub open spec fn alphanumeric(c: char) -> bool {
    if c <= '\u{7f}' {
        ascii_alphanumeric(c)
    } else {
        unicode_alphanumeric(c)
    }
}

/// Lower case of an ASCII character.
pub open spec fn ascii_lower(c: char) -> char {
    if 'A' <= c <= 'Z' {
        ((c as u32 + 32) as u32) as char
    } else {
        c
    }
}

/// Lower case of a text: letter by letter in ASCII, else by the standard library's tables.
pub open spec fn lowercase(s: Seq<char>) -> Seq<char> {
    if is_ascii_chars(s) {
        s.map_values(|c: char| ascii_lower(c))
    } else {
        unicode_lowercase(s)
    }
}

/// Whether `c` is an ASCII letter or digit.
pub fn is_ascii_alphanumeric(c: char) -> (r: bool)
    ensures
        r == ascii_alphanumeric(c),
{
    ('a' <= c && c <= 'z') || ('A' <= c && c <= 'Z') || ('0' <= c && c <= '9')
}

/// Whether `c` is a letter or a digit of any script.
pub fn is_alphanumeric(c: char) -> (r: bool)
    ensures
        r == alphanumeric(c),
{
    if c <= '\u{7f}' {
        is_ascii_alphanumeric(c)
    } else {
        char_is_alphanumeric(c)
    }
}

/// Lower case of an ASCII character.
pub fn to_ascii_lower(c: char) -> (r: char)
    ensures
        r == ascii_lower(c),
{
    if 'A' <= c && c <= 'Z' {
        (c as u8 + 32) as char
    } else {
        c
    }
}

/// `s` with its ASCII capital letters in lower case and everything else as it is.
pub fn to_ascii_lowercase(s: &str) -> (r: String)
    ensures
        r@ == s@.map_values(|c: char| ascii_lower(c)),
{
    let v = to_chars(s);
    let mut out = String::new();
    let mut i: usize = 0;
    while i < v.len()
        invariant
            i <= v@.len(),
            v@ == s@,
            out@ == s@.take(i as int).map_values(|c: char| ascii_lower(c)),
        decreases v@.len() - i,
    {
        out.push(to_ascii_lower(v[i]));
        proof {
            assert(out@ =~= s@.take(i + 1).map_values(|c: char| ascii_lower(c)));
        }
        i += 1;
    }
    proof {
        assert(s@.take(i as int) =~= s@);
    }
    out
}

/// Lower case of a text.
pub fn to_lowercase(s: &str) -> (r: String)
    ensures
        r@ == lowercase(s@),
{
    if s.is_ascii() {
        to_ascii_lowercase(s)
    } else {
        str_to_lowercase(s)
    }
}

/// The lower case of an ASCII text is the text with its capital letters, and nothing else, made small,
/// each in its place; so two that differ in case alone have the same one.
pub proof fn law_ascii_lower_case(s: Seq<char>, i: int)
    requires
        is_ascii_chars(s),
        0 <= i < s.len(),
    ensures
        lowercase(s).len() == s.len(),
        'A' <= s[i] <= 'Z' ==> 'a' <= lowercase(s)[i] <= 'z' && lowercase(s)[i] as u32 == s[i] as u32 + 32,
        !('A' <= s[i] <= 'Z') ==> lowercase(s)[i] == s[i],
{
}

/// The ASCII characters that count as letters or digits are the Latin letters and the ten digits.
pub proof fn law_ascii_alphanumeric(c: char)
    requires
        c as u32 <= 0x7f,
    ensures
        alphanumeric(c) <==> 0x30 <= c as u32 <= 0x39 || 0x41 <= c as u32 <= 0x5a || 0x61 <= c as u32 <= 0x7a,
{
}

/// Bytes that are UTF-8 are read as the text that they encode.
pub proof fn law_utf8_is_read_exactly(s: Seq<char>)
    ensures
        lossy(encode_utf8(s)) == s,
{
    encode_utf8_valid_utf8(s);
    encode_utf8_decode_utf8(s);
}

} // verus!
