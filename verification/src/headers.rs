//! HTTP headers, kept in the header map of the HTTP client.
use crate::text::{ascii_text, ascii_to_text};
use reqwest::header::HeaderMap;
use vstd::prelude::*;
use vstd::utf8::encode_utf8;

verus! {

/// The header map of the HTTP client.
#[verifier::external_type_specification]
#[verifier::external_body]
#[verifier::reject_recursive_types(T)]
pub struct ExHeaderMap<T>(reqwest::header::HeaderMap<T>);

/// A header value of the HTTP client.
#[verifier::external_type_specification]
#[verifier::external_body]
pub struct ExHeaderValue(reqwest::header::HeaderValue);

/// What a header map holds: for each header name, in lower case, the bytes of its values in
/// the order in which they were added.
pub uninterp spec fn header_fields(headers: HeaderMap) -> Map<Seq<char>, Seq<Seq<u8>>>;

/// No header at all.
pub open spec fn no_fields() -> Map<Seq<char>, Seq<Seq<u8>>> {
    Map::empty()
}

/// Why a header is not put into a header map.
#[derive(Clone, Copy, Debug, PartialEq, Eq, Structural)]
pub enum HeaderError {
    /// The value holds a byte that no header value can hold.
    InvalidValue,
    /// The map takes no further header.
    Full,
}

/// `name` is a short header name of lower-case letters and hyphens.
pub open spec fn simple_name(name: Seq<char>) -> bool {
    &&& 1 <= name.len() <= 64
    &&& forall|i: int| 0 <= i < name.len() ==> 'a' <= #[trigger] name[i] <= 'z' || name[i] == '-'
}

/// `b` can stand in a header value.
pub open spec fn value_byte(b: u8) -> bool {
    b >= 32 && b != 127 || b == 9
}

/// `b` is visible ASCII, a space or a tab.
pub open spec fn visible_byte(b: u8) -> bool {
    32 <= b < 127 || b == 9
}

/// `bytes` can be a header value.
pub open spec fn value_bytes(bytes: Seq<u8>) -> bool {
    forall|i: int| 0 <= i < bytes.len() ==> value_byte(#[trigger] bytes[i])
}

/// The text of a header value whose bytes are all visible.
pub open spec fn visible_text(bytes: Seq<u8>) -> Option<Seq<char>> {
    if forall|i: int| 0 <= i < bytes.len() ==> visible_byte(#[trigger] bytes[i]) {
        Some(ascii_text(bytes))
    } else {
        None
    }
}

/// The first value of the header `name`.
pub open spec fn first_value(fields: Map<Seq<char>, Seq<Seq<u8>>>, name: Seq<char>) -> Option<
    Seq<u8>,
> {
    if fields.contains_key(name) {
        Some(fields[name][0])
    } else {
        None
    }
}

/// Names and values as sequences.
pub open spec fn entry_views(entries: Seq<(String, Vec<u8>)>) -> Seq<(Seq<char>, Seq<u8>)> {
    entries.map_values(|e: (String, Vec<u8>)| (e.0@, e.1@))
}

/// The values that stand in `entries` under `name`, in order.
pub open spec fn values_under(entries: Seq<(Seq<char>, Seq<u8>)>, name: Seq<char>) -> Seq<
    Seq<u8>,
> {
    entries.filter(|e: (Seq<char>, Seq<u8>)| e.0 == name).map_values(
        |e: (Seq<char>, Seq<u8>)| e.1,
    )
}

/// `entries` lists every value of `fields` under its name, and nothing else; the values of
/// one name stand in their order.
pub open spec fn lists(
    entries: Seq<(Seq<char>, Seq<u8>)>,
    fields: Map<Seq<char>, Seq<Seq<u8>>>,
) -> bool {
    forall|name: Seq<char>|
        #[trigger] values_under(entries, name) == (if fields.contains_key(name) {
            fields[name]
        } else {
            Seq::empty()
        })
}

/// The header names that downloads use are simple names.
pub proof fn lemma_header_names()
    ensures
        simple_name("content-disposition"@),
        simple_name("accept-ranges"@),
        simple_name("content-length"@),
        simple_name("user-agent"@),
        simple_name("range"@),
        simple_name("accept"@),
        simple_name("connection"@),
{
    reveal_strlit("content-disposition");
    reveal_strlit("accept-ranges");
    reveal_strlit("content-length");
    reveal_strlit("user-agent");
    reveal_strlit("range");
    reveal_strlit("accept");
    reveal_strlit("connection");
}

/// `HeaderMap::new` gives a map that holds no header.
#[verifier::external_body]
pub(crate) fn header_new() -> (r: HeaderMap)
    ensures
        header_fields(r) == no_fields(),
{
    HeaderMap::new()
}

/// `HeaderMap::clone` gives a map that holds the same headers.
#[verifier::external_body]
pub(crate) fn header_clone(headers: &HeaderMap) -> (r: HeaderMap)
    ensures
        header_fields(r) == header_fields(*headers),
{
    headers.clone()
}

/// `HeaderMap::get` gives the first value of a header, or `None` where the map holds no value
/// for it.
#[verifier::external_body]
pub(crate) fn header_get(headers: &HeaderMap, name: &str) -> (r: Option<Vec<u8>>)
    requires
        simple_name(name@),
    ensures
        match r {
            Some(value) => first_value(header_fields(*headers), name@) == Some(value@),
            None => first_value(header_fields(*headers), name@) is None,
        },
{
    headers.get(name).map(|value| value.as_bytes().to_vec())
}

/// `HeaderValue::from_str` makes a header value of a text whose bytes are neither control
/// characters other than the tab nor a delete. `HeaderMap::try_insert` then makes it the only
/// value of the header. A map with fewer than 6554 names always takes a further one; a map
/// that takes none stays as it is.
#[verifier::external_body]
pub(crate) fn header_insert(headers: &mut HeaderMap, name: &'static str, value: &str) -> (r: Result<
    (),
    HeaderError,
>)
    requires
        simple_name(name@),
    ensures
        (r is Err && r->Err_0 == HeaderError::InvalidValue) <==> !value_bytes(
            encode_utf8(value@),
        ),
        (r is Err && r->Err_0 == HeaderError::Full) ==> header_fields(*old(headers)).dom().len()
            >= 6554,
        header_fields(*final(headers)) == (if r is Ok {
            header_fields(*old(headers)).insert(name@, seq![encode_utf8(value@)])
        } else {
            header_fields(*old(headers))
        }),
{
    match reqwest::header::HeaderValue::from_str(value) {
        Err(_) => Err(HeaderError::InvalidValue),
        Ok(value) => match headers.try_insert(name, value) {
            Ok(_) => Ok(()),
            Err(_) => Err(HeaderError::Full),
        },
    }
}

/// `HeaderMap::remove` takes a header with all its values out of the map.
#[verifier::external_body]
pub(crate) fn header_remove(headers: &mut HeaderMap, name: &str)
    requires
        simple_name(name@),
    ensures
        header_fields(*final(headers)) == header_fields(*old(headers)).remove(name@),
{
    headers.remove(name);
}

/// `HeaderMap::iter` yields every header name once for each of its values, in an order of
/// names that is left open.
#[verifier::external_body]
pub(crate) fn header_entries(headers: &HeaderMap) -> (r: Vec<(String, Vec<u8>)>)
    ensures
        lists(entry_views(r@), header_fields(*headers)),
{
    headers
        .iter()
        .map(|(name, value)| (name.as_str().to_string(), value.as_bytes().to_vec()))
        .collect()
}

/// The text of a header value, if all its bytes are visible.
pub fn value_text(bytes: &[u8]) -> (r: Option<String>)
    ensures
        match r {
            Some(text) => visible_text(bytes@) == Some(text@),
            None => visible_text(bytes@) is None,
        },
{
    let mut i: usize = 0;
    while i < bytes.len()
        invariant
            i <= bytes@.len(),
            forall|k: int| 0 <= k < i ==> visible_byte(#[trigger] bytes@[k]),
        decreases bytes@.len() - i,
    {
        let b = bytes[i];
        if !((32 <= b && b < 127) || b == 9) {
            assert(!visible_byte(bytes@[i as int]));
            return None;
        }
        i += 1;
    }
    Some(ascii_to_text(bytes))
}

/// How a header is shown: its name, and its value where that is visible.
pub open spec fn shown_header(name: Seq<char>, value: Seq<u8>) -> Seq<char> {
    name + ": "@ + match visible_text(value) {
        Some(text) => text,
        None => "<..>"@,
    }
}

/// How a header is shown.
pub fn show_header(name: &str, value: &[u8]) -> (r: String)
    ensures
        r@ == shown_header(name@, value@),
{
    let text = match value_text(value) {
        Some(text) => text,
        None => "<..>".to_owned(),
    };
    name.to_owned().concat(": ").concat(text.as_str())
}

/// `shown` shows the headers of `fields`, one for each value.
pub open spec fn shows(shown: Seq<Seq<char>>, fields: Map<Seq<char>, Seq<Seq<u8>>>) -> bool {
    exists|entries: Seq<(Seq<char>, Seq<u8>)>|
        #![trigger lists(entries, fields)]
        lists(entries, fields) && shown == entries.map_values(
            |e: (Seq<char>, Seq<u8>)| shown_header(e.0, e.1),
        )
}

/// How the headers of a response are shown, one line for each value.
pub fn show_headers(headers: &HeaderMap) -> (r: Vec<String>)
    ensures
        shows(r@.map_values(|line: String| line@), header_fields(*headers)),
{
    let entries = header_entries(headers);
    let ghost listed = entry_views(entries@);
    let ghost shown = listed.map_values(|e: (Seq<char>, Seq<u8>)| shown_header(e.0, e.1));
    let mut r: Vec<String> = Vec::new();
    let mut i: usize = 0;
    while i < entries.len()
        invariant
            i <= entries@.len(),
            r@.len() == i,
            listed == entry_views(entries@),
            shown == listed.map_values(|e: (Seq<char>, Seq<u8>)| shown_header(e.0, e.1)),
            forall|k: int| 0 <= k < i ==> (#[trigger] r@[k])@ == shown[k],
        decreases entries@.len() - i,
    {
        r.push(show_header(entries[i].0.as_str(), entries[i].1.as_slice()));
        i += 1;
    }
    assert(r@.map_values(|line: String| line@) =~= shown);
    r
}

/// The text of a header value has a character for each byte, with the same code, where every byte
/// is a tab or from a space to a tilde; else there is none.
pub proof fn law_visible_text_is_that_of_the_bytes(bytes: Seq<u8>)
    ensures
        visible_text(bytes) is Some <==> forall|i: int|
            0 <= i < bytes.len() ==> 32 <= #[trigger] bytes[i] <= 126 || bytes[i] == 9,
        visible_text(bytes) matches Some(text) ==> text.len() == bytes.len() && forall|i: int|
            0 <= i < bytes.len() ==> (#[trigger] text[i]) as u32 == bytes[i],
{
    if visible_text(bytes) is Some {
        assert forall|i: int| 0 <= i < bytes.len() implies 32 <= #[trigger] bytes[i] <= 126
            || bytes[i] == 9 by {
            assert(visible_byte(bytes[i]));
        }
    } else {
        let i = choose|i: int| 0 <= i < bytes.len() && !visible_byte(#[trigger] bytes[i]);
        assert(!(32 <= bytes[i] <= 126 || bytes[i] == 9));
    }
}

/// A header is shown as its name, a colon, a space and its text, or two dots in angle brackets
/// where its value is not visible.
pub proof fn law_header_is_shown_whole(name: Seq<char>, value: Seq<u8>, text: Seq<char>)
    ensures
        visible_text(value) == Some(text) ==> shown_header(name, value) == name + ": "@ + text,
        visible_text(value) is None ==> shown_header(name, value) == name + ": "@ + "<..>"@,
{
}

/// The headers of a response are shown one for each value, each as its name and its value.
pub proof fn law_headers_are_shown_one_by_one(
    shown: Seq<Seq<char>>,
    fields: Map<Seq<char>, Seq<Seq<u8>>>,
)
    requires
        shows(shown, fields),
    ensures
        exists|entries: Seq<(Seq<char>, Seq<u8>)>|
            {
                &&& entries.len() == shown.len()
                &&& #[trigger] lists(entries, fields)
                &&& forall|i: int|
                    0 <= i < shown.len() ==> #[trigger] shown[i] == shown_header(
                        entries[i].0,
                        entries[i].1,
                    )
            },
{
    let entries = choose|entries: Seq<(Seq<char>, Seq<u8>)>|
        #![trigger lists(entries, fields)]
        lists(entries, fields) && shown == entries.map_values(
            |e: (Seq<char>, Seq<u8>)| shown_header(e.0, e.1),
        );
    assert(entries.len() == shown.len());
    assert(lists(entries, fields));
}

/// An entry is seen whole, and the values under a name are those of its entries, in order.
pub proof fn law_entries_are_seen_whole(
    entries: Seq<(String, Vec<u8>)>,
    i: int,
    listed: Seq<(Seq<char>, Seq<u8>)>,
    entry: (Seq<char>, Seq<u8>),
    name: Seq<char>,
)
    requires
        0 <= i < entries.len(),
    ensures
        entry_views(entries).len() == entries.len(),
        entry_views(entries)[i] == (entries[i].0@, entries[i].1@),
        values_under(listed.push(entry), name) == (if entry.0 == name {
            values_under(listed, name).push(entry.1)
        } else {
            values_under(listed, name)
        }),
        values_under(Seq::empty(), name) == Seq::<Seq<u8>>::empty(),
{
    reveal(Seq::filter);
    assert(listed.push(entry).drop_last() =~= listed);
    if entry.0 == name {
        assert(values_under(listed.push(entry), name) =~= values_under(listed, name).push(
            entry.1,
        ));
    }
    assert(values_under(Seq::empty(), name) =~= Seq::<Seq<u8>>::empty());
}

} // verus!
