//! HTTP status codes.
use crate::number;
use crate::number::dec_unsigned;
use crate::text;
use vstd::prelude::*;

verus! {

/// The standardised phrase of a status code, by the tables of the `http` crate; none for a code
/// that has no such phrase or is no status code.
pub uninterp spec fn canonical_reason(code: u16) -> Option<Seq<char>>;

/// `reqwest::StatusCode::from_u16` and `canonical_reason`. The phrase is named and nothing else is
/// said of it.
#[verifier::external_body]
fn reason_phrase(code: u16) -> (r: Option<String>)
    ensures
        text::opt_str(r) == canonical_reason(code),
{
    reqwest::StatusCode::from_u16(code).ok().and_then(|s| s.canonical_reason()).map(str::to_string)
}

/// A status code and its phrase.
pub open spec fn status_with(code: u16, reason: Option<Seq<char>>) -> Seq<char> {
    number::dec(code as nat) + " "@ + (match reason {
        Some(phrase) => phrase,
        None => "<unknown status code>"@,
    })
}

/// How a status code is shown.
pub open spec fn status_line(code: u16) -> Seq<char> {
    status_with(code, canonical_reason(code))
}

/// A status code and its phrase.
pub fn show_status(code: u16, reason: Option<String>) -> (r: String)
    ensures
        r@ == status_with(code, text::opt_str(reason)),
{
    let mut out = dec_unsigned(code as u128);
    out.append(" ");
    match reason {
        Some(phrase) => out.append(phrase.as_str()),
        None => out.append("<unknown status code>"),
    }
    out
}

/// How a status code is shown.
pub fn status_text(code: u16) -> (r: String)
    ensures
        r@ == status_line(code),
{
    show_status(code, reason_phrase(code))
}

/// Whether a request succeeded.
pub fn is_success(code: u16) -> (r: bool)
    ensures
        r == (200 <= code < 300),
{
    200 <= code && code < 300
}

/// Whether a request failed for a reason that lies with the server.
pub fn is_server_error(code: u16) -> (r: bool)
    ensures
        r == (500 <= code < 600),
{
    500 <= code && code < 600
}

/// A status is shown by its number, a space and its phrase, and one without a phrase as unknown.
pub proof fn law_status_is_shown(code: u16, phrase: Seq<char>)
    ensures
        status_with(code, Some(phrase)) == number::dec(code as nat).push(' ') + phrase,
        status_with(code, None) == number::dec(code as nat).push(' ') + "<unknown status code>"@,
{
    reveal_strlit(" ");
    let n = number::dec(code as nat);
    assert(n + " "@ + phrase =~= n.push(' ') + phrase);
    assert(n + " "@ + "<unknown status code>"@ =~= n.push(' ') + "<unknown status code>"@);
}

} // verus!
