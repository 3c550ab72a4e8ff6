//! Addresses of downloads.
use vstd::prelude::*;

verus! {

/// An absolute URL: its whole text and the path in it.
#[derive(Clone, Debug, PartialEq, Eq)]
pub struct Address {
    pub text: String,
    pub path: String,
}

/// Why a text is not a URL.
#[derive(Clone, Debug, PartialEq, Eq)]
pub struct AddressError {
    /// The text is a relative reference: it lacks a scheme.
    pub relative: bool,
    /// The reason in words.
    pub reason: String,
}

/// What parsing a text as an absolute URL gives: the text of the URL and its path, or
/// whether the text is a relative reference and the reason in words.
pub type Parsed = Result<(Seq<char>, Seq<char>), (bool, Seq<char>)>;

/// The result of `url::Url::parse` on a text.
pub uninterp spec fn url_parsed(text: Seq<char>) -> Parsed;

/// An address, or the reason why there is none, as plain sequences.
pub open spec fn parsed_view(r: Result<Address, AddressError>) -> Parsed {
    match r {
        Ok(address) => Ok((address.text@, address.path@)),
        Err(e) => Err((e.relative, e.reason@)),
    }
}

/// Calls `url::Url::parse`, whose result depends on the text alone. `url_parsed` names it: for
/// a URL, its serialization and its path; for an error, whether it is
/// `RelativeUrlWithoutBase`, and its description.
#[verifier::external_body]
pub(crate) fn url_parse(text: &str) -> (r: Result<Address, AddressError>)
    ensures
        parsed_view(r) == url_parsed(text@),
{
    match url::Url::parse(text) {
        Ok(u) => Ok(Address { text: u.as_str().to_string(), path: u.path().to_string() }),
        Err(e) => Err(AddressError {
            relative: matches!(e, url::ParseError::RelativeUrlWithoutBase),
            reason: e.to_string(),
        }),
    }
}

/// What the first attempt at parsing `text` leads to: a relative reference is tried once
/// more as the rest of an `http` URL.
pub open spec fn second_attempt(text: Seq<char>, first: Parsed) -> Option<Seq<char>> {
    match first {
        Err((true, _)) => Some("http://"@ + text),
        _ => None,
    }
}

/// The text to parse next, if the result of the first attempt asks for another one.
pub fn next_attempt(text: &str, first: &Result<Address, AddressError>) -> (r: Option<String>)
    ensures
        match r {
            Some(next) => second_attempt(text@, parsed_view(*first)) == Some(next@),
            None => second_attempt(text@, parsed_view(*first)) is None,
        },
{
    match first {
        Ok(_) => None,
        Err(e) => {
            if e.relative {
                Some("http://".to_owned().concat(text))
            } else {
                None
            }
        },
    }
}

/// The address that a text gives: the URL that it is, or the `http` URL that it becomes
/// with a scheme in front.
pub open spec fn address_of(text: Seq<char>) -> Parsed {
    match second_attempt(text, url_parsed(text)) {
        Some(next) => url_parsed(next),
        None => url_parsed(text),
    }
}

/// Reads a text as an address.
pub fn parse_address(text: &str) -> (r: Result<Address, AddressError>)
    ensures
        parsed_view(r) == address_of(text@),
{
    let first = url_parse(text);
    match next_attempt(text, &first) {
        Some(next) => url_parse(next.as_str()),
        None => first,
    }
}

/// A text that is a URL gives that URL. One that lacks a scheme gives the URL that it becomes with
/// `http://` in front. Any other gives the reason why it is none.
pub proof fn law_text_without_a_scheme_becomes_http(text: Seq<char>)
    ensures
        url_parsed(text) is Ok ==> address_of(text) == url_parsed(text),
        url_parsed(text) matches Err((false, _)) ==> address_of(text) == url_parsed(text),
        url_parsed(text) matches Err((true, _)) ==> address_of(text) == url_parsed(
            "http://"@ + text,
        ),
{
}

/// What parsing gave is seen whole: the text and the path of an address, or all that is known of
/// the error.
pub proof fn law_parsed_address_is_seen_whole(address: Address, e: AddressError)
    ensures
        parsed_view(Ok(address)) == Ok::<(Seq<char>, Seq<char>), (bool, Seq<char>)>(
            (address.text@, address.path@),
        ),
        parsed_view(Err(e)) == Err::<(Seq<char>, Seq<char>), (bool, Seq<char>)>(
            (e.relative, e.reason@),
        ),
{
}

} // verus!
