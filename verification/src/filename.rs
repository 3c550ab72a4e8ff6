//! The name under which a download is saved.
use crate::percent::{decode_percent_encoded_data, decoded, law_plain_text_decodes_to_itself};
use crate::text::{
    after, after_last, before, contains_text, find_char, has_part, has_prefix, last_piece,
    law_first_separator_divides, law_last_separator_divides, law_part_stands_somewhere,
    law_trimming_takes_white_space_at_the_ends, law_unquoting_takes_quotes_at_the_ends,
    lemma_after_last, lemma_first_index, starts_with, to_chars, to_text, trim, trim_end, trim_start,
    trimmed, unquote, unquoted, white_space,
};
use vstd::prelude::*;
use vstd::slice::slice_subrange;

verus! {

/// The last of the pieces between semicolons that begins, white space aside, with
/// `filename=`; without the white space around it.
pub open spec fn name_field(text: Seq<char>) -> Option<Seq<char>>
    decreases text.len(),
{
    let piece = after_last(text, ';');
    if starts_with(trimmed(piece), "filename="@) {
        Some(trimmed(piece))
    } else if piece.len() == text.len() {
        None
    } else {
        proof {
            lemma_after_last(text, ';');
        }
        name_field(text.take(text.len() - piece.len() - 1))
    }
}

/// The file name that a `Content-Disposition` header gives: what stands between the first
/// and the second equals sign of its name field, without the quotes around it.
pub open spec fn disposition_name(text: Seq<char>) -> Option<Seq<char>> {
    if !contains_text(text, "filename="@) {
        None
    } else {
        match name_field(text) {
            None => None,
            Some(field) => {
                let name = before(after(field, '='), '=');
                if name.len() == 0 {
                    None
                } else {
                    Some(unquoted(name))
                }
            },
        }
    }
}

/// The file name that the path of an address gives: its last segment, decoded where that is
/// possible, or `index.html` where the segment is empty.
pub open spec fn path_name(path: Seq<char>) -> Seq<char> {
    let name = after_last(path, '/');
    if name.len() == 0 {
        "index.html"@
    } else {
        match decoded(name) {
            Ok(text) => text,
            Err(_) => name,
        }
    }
}

/// The file name for a response with the given `Content-Disposition` header to a request of
/// the given path: the one of the header where it gives one, else the one of the path.
pub open spec fn file_name(disposition: Option<Seq<char>>, path: Seq<char>) -> Seq<char> {
    let given = match disposition {
        Some(text) => disposition_name(text),
        None => None,
    };
    trimmed(
        match given {
            Some(name) => name,
            None => path_name(path),
        },
    )
}

fn find_name_field<'a>(chars: &'a [char]) -> (r: Option<&'a [char]>)
    ensures
        match r {
            Some(field) => name_field(chars@) == Some(field@),
            None => name_field(chars@) is None,
        },
{
    let mark = to_chars("filename=");
    let mut end: usize = chars.len();
    assert(chars@.take(end as int) =~= chars@);
    loop
        invariant
            end <= chars@.len(),
            mark@ == "filename="@,
            name_field(chars@) == name_field(chars@.take(end as int)),
        decreases end,
    {
        let head = slice_subrange(chars, 0, end);
        assert(head@ =~= chars@.take(end as int));
        let piece = last_piece(head, ';');
        proof {
            lemma_after_last(head@, ';');
        }
        let field = trim(piece);
        if has_prefix(field, mark.as_slice()) {
            return Some(field);
        }
        if piece.len() == end {
            return None;
        }
        let next: usize = end - piece.len() - 1;
        assert(head@.take(next as int) =~= chars@.take(next as int));
        end = next;
    }
}

/// The file name that the text of a `Content-Disposition` header gives, if it gives one.
pub fn name_from_disposition(text: &str) -> (r: Option<String>)
    ensures
        match r {
            Some(name) => disposition_name(text@) == Some(name@),
            None => disposition_name(text@) is None,
        },
{
    let chars = to_chars(text);
    let mark = to_chars("filename=");
    if !has_part(chars.as_slice(), mark.as_slice()) {
        return None;
    }
    match find_name_field(chars.as_slice()) {
        None => None,
        Some(field) => {
            proof {
                lemma_name_field_marked(chars@);
                lemma_first_index(field@, '=');
                reveal_strlit("filename=");
                assert(field@.take(9)[8] == '=');
                assert(field@[8] == '=');
            }
            let equals: usize = find_char(field, '=');
            let value = slice_subrange(field, equals + 1, field.len());
            assert(value@ =~= after(field@, '='));
            let second: usize = find_char(value, '=');
            let name = slice_subrange(value, 0, second);
            assert(name@ =~= before(value@, '='));
            if name.len() == 0 {
                None
            } else {
                Some(to_text(unquote(name)))
            }
        },
    }
}

proof fn lemma_name_field_marked(text: Seq<char>)
    ensures
        name_field(text) matches Some(field) ==> starts_with(field, "filename="@),
    decreases text.len(),
{
    let piece = after_last(text, ';');
    lemma_after_last(text, ';');
    if !starts_with(trimmed(piece), "filename="@) && piece.len() != text.len() {
        lemma_name_field_marked(text.take(text.len() - piece.len() - 1));
    }
}

/// The file name that the path of an address gives.
pub fn name_from_path(path: &str) -> (r: String)
    ensures
        r@ == path_name(path@),
{
    let chars = to_chars(path);
    let last = last_piece(chars.as_slice(), '/');
    if last.len() == 0 {
        "index.html".to_owned()
    } else {
        let name = to_text(last);
        match decode_percent_encoded_data(name.as_str()) {
            Ok(text) => text,
            Err(_) => name,
        }
    }
}

/// The file name for a response with the given `Content-Disposition` header to a request
/// of the given path.
pub fn choose_filename(disposition: Option<&str>, path: &str) -> (r: String)
    ensures
        r@ == file_name(
            match disposition {
                Some(text) => Some(text@),
                None => None,
            },
            path@,
        ),
{
    let given = match disposition {
        Some(text) => name_from_disposition(text),
        None => None,
    };
    let name = match given {
        Some(name) => name,
        None => name_from_path(path),
    };
    let chars = to_chars(name.as_str());
    to_text(trim(chars.as_slice()))
}

proof fn lemma_trim_start_front(s: Seq<char>, drop: spec_fn(char) -> bool)
    ensures
        trim_start(s, drop).len() > 0 ==> !drop(trim_start(s, drop)[0]),
    decreases s.len(),
{
    if s.len() > 0 && drop(s[0]) {
        lemma_trim_start_front(s.skip(1), drop);
    }
}

proof fn lemma_trim_end_back(s: Seq<char>, drop: spec_fn(char) -> bool)
    ensures
        trim_end(s, drop).len() > 0 ==> !drop(trim_end(s, drop).last()) && trim_end(s, drop)[0]
            == s[0],
    decreases s.len(),
{
    if s.len() > 0 && drop(s.last()) {
        lemma_trim_end_back(s.drop_last(), drop);
    }
}

/// A chosen file name neither begins nor ends with white space.
pub proof fn law_file_name_is_trimmed(disposition: Option<Seq<char>>, path: Seq<char>)
    ensures
        ({
            let name = file_name(disposition, path);
            name.len() > 0 ==> !white_space(name[0]) && !white_space(name.last())
        }),
{
    let ws = |c: char| white_space(c);
    let given = match disposition {
        Some(text) => disposition_name(text),
        None => None,
    };
    let raw = match given {
        Some(name) => name,
        None => path_name(path),
    };
    lemma_trim_start_front(raw, ws);
    lemma_trim_end_back(trim_start(raw, ws), ws);
}

/// The parameters of a header, each behind a semicolon.
pub open spec fn parameters(pieces: Seq<Seq<char>>) -> Seq<char>
    decreases pieces.len(),
{
    if pieces.len() == 0 {
        Seq::empty()
    } else {
        parameters(pieces.drop_last()).push(';') + pieces.last()
    }
}

/// The piece holds no semicolon and does not give a file name.
pub open spec fn other_parameter(piece: Seq<char>) -> bool {
    !piece.contains(';') && !starts_with(trimmed(piece), "filename="@)
}

proof fn lemma_last_field(front: Seq<char>, piece: Seq<char>, pieces: Seq<Seq<char>>)
    requires
        front.len() == 0 || front.last() == ';',
        !piece.contains(';'),
        starts_with(trimmed(piece), "filename="@),
        forall|i: int| 0 <= i < pieces.len() ==> other_parameter(#[trigger] pieces[i]),
    ensures
        name_field(front + piece + parameters(pieces)) == Some(trimmed(piece)),
    decreases pieces.len(),
{
    let text = front + piece + parameters(pieces);
    if pieces.len() == 0 {
        assert(text =~= front + piece);
        if front.len() == 0 {
            law_last_separator_divides(front, ';', piece);
            assert(text =~= piece);
        } else {
            law_last_separator_divides(front.drop_last(), ';', piece);
            assert(front.drop_last().push(';') =~= front);
        }
    } else {
        let short = pieces.drop_last();
        let last = pieces.last();
        assert(other_parameter(pieces[pieces.len() - 1]));
        assert forall|i: int| 0 <= i < short.len() implies other_parameter(#[trigger] short[i]) by {
            assert(short[i] == pieces[i]);
        }
        lemma_last_field(front, piece, short);
        let head = front + piece + parameters(short);
        assert(text =~= head.push(';') + last);
        law_last_separator_divides(head, ';', last);
        assert(text.take(text.len() - last.len() - 1) =~= head);
    }
}

/// A name in a `Content-Disposition` header is read back whole, in quotes or without: whatever
/// parameters stand before it, whatever white space stands around it, and whatever parameters
/// that give no name stand behind it, the file has that name.
pub proof fn law_name_in_the_header_is_read_back(
    front: Seq<char>,
    lead: Seq<char>,
    name: Seq<char>,
    trail: Seq<char>,
    pieces: Seq<Seq<char>>,
    path: Seq<char>,
)
    requires
        front.len() == 0 || front.last() == ';',
        forall|i: int| 0 <= i < lead.len() ==> white_space(#[trigger] lead[i]),
        forall|i: int| 0 <= i < trail.len() ==> white_space(#[trigger] trail[i]),
        name.len() > 0,
        !name.contains(';'),
        !name.contains('='),
        name[0] != '"' && name.last() != '"',
        !white_space(name[0]) && !white_space(name.last()),
        forall|i: int| 0 <= i < pieces.len() ==> other_parameter(#[trigger] pieces[i]),
    ensures
        file_name(
            Some(front + (lead + "filename=\""@ + name + "\""@ + trail) + parameters(pieces)),
            path,
        ) == name,
        file_name(
            Some(front + (lead + "filename="@ + name + trail) + parameters(pieces)),
            path,
        ) == name,
{
    reveal_strlit("filename=\"");
    reveal_strlit("filename=");
    reveal_strlit("\"");
    let open = seq!['"'];
    lemma_named(front, lead, open, name, open, trail, pieces, path);
    lemma_named(front, lead, Seq::empty(), name, Seq::empty(), trail, pieces, path);
    assert(lead + "filename=\""@ + name + "\""@ + trail =~= lead + ("filename="@ + (open + name
        + open)) + trail);
    assert(lead + "filename="@ + name + trail =~= lead + ("filename="@ + (Seq::<char>::empty()
        + name + Seq::<char>::empty())) + trail);
}

proof fn lemma_named(
    front: Seq<char>,
    lead: Seq<char>,
    open: Seq<char>,
    name: Seq<char>,
    close: Seq<char>,
    trail: Seq<char>,
    pieces: Seq<Seq<char>>,
    path: Seq<char>,
)
    requires
        front.len() == 0 || front.last() == ';',
        forall|i: int| 0 <= i < lead.len() ==> white_space(#[trigger] lead[i]),
        forall|i: int| 0 <= i < trail.len() ==> white_space(#[trigger] trail[i]),
        forall|i: int| 0 <= i < open.len() ==> #[trigger] open[i] == '"',
        forall|i: int| 0 <= i < close.len() ==> #[trigger] close[i] == '"',
        name.len() > 0,
        !name.contains(';'),
        !name.contains('='),
        name[0] != '"' && name.last() != '"',
        !white_space(name[0]) && !white_space(name.last()),
        forall|i: int| 0 <= i < pieces.len() ==> other_parameter(#[trigger] pieces[i]),
    ensures
        file_name(
            Some(
                front + (lead + ("filename="@ + (open + name + close)) + trail) + parameters(
                    pieces,
                ),
            ),
            path,
        ) == name,
{
    reveal_strlit("filename=");
    let mark = "filename="@;
    let value = open + name + close;
    let field = mark + value;
    let piece = lead + field + trail;
    let text = front + piece + parameters(pieces);
    assert forall|i: int| 0 <= i < name.len() implies name[i] != ';' && name[i] != '=' by {
        assert(name.contains(name[i]));
    }
    assert forall|i: int| 0 <= i < value.len() implies value[i] != ';' && value[i] != '=' by {
        if i < open.len() {
            assert(value[i] == open[i]);
        } else if i < open.len() + name.len() {
            assert(value[i] == name[i - open.len()]);
        } else {
            assert(value[i] == close[i - open.len() - name.len()]);
        }
    }
    assert(!white_space(field[0]));
    assert(!white_space(field.last())) by {
        if close.len() > 0 {
            assert(field.last() == close[close.len() - 1]);
        } else {
            assert(field.last() == name.last());
        }
    }
    law_trimming_takes_white_space_at_the_ends(lead, field, trail);
    assert(field.take(9) =~= mark);
    assert(!piece.contains(';')) by {
        assert forall|i: int| 0 <= i < piece.len() implies piece[i] != ';' by {
            if i < lead.len() {
                assert(piece[i] == lead[i]);
            } else if i < lead.len() + 9 {
                assert(piece[i] == mark[i - lead.len()]);
            } else if i < lead.len() + field.len() {
                assert(piece[i] == value[i - lead.len() - 9]);
            } else {
                assert(piece[i] == trail[i - lead.len() - field.len()]);
            }
        }
    }
    lemma_last_field(front, piece, pieces);
    assert(contains_text(text, mark)) by {
        let k = (front.len() + lead.len()) as int;
        assert(text.skip(k).take(9) =~= mark);
        assert(starts_with(text.skip(k), mark));
    }
    let word = mark.take(8);
    assert(!word.contains('='));
    law_first_separator_divides(word, '=', value);
    assert(word.push('=') + value =~= field);
    law_first_separator_divides(value, '=', Seq::empty());
    law_unquoting_takes_quotes_at_the_ends(open, name, close);
    law_trimming_takes_white_space_at_the_ends(Seq::empty(), name, Seq::empty());
    assert(Seq::<char>::empty() + name + Seq::<char>::empty() =~= name);
}

/// A header that names no file, or none at all, leaves the name to the path: it is what stands
/// behind the last slash, decoded where it can be and trimmed, or `index.html` where nothing
/// stands there.
pub proof fn law_path_names_the_file_otherwise(
    disposition: Option<Seq<char>>,
    dir: Seq<char>,
    name: Seq<char>,
)
    requires
        disposition matches Some(text) ==> forall|i: int|
            0 <= i <= text.len() - 9 ==> #[trigger] text.subrange(i, i + 9) != "filename="@,
        !name.contains('/'),
    ensures
        name.len() > 0 && decoded(name) is Err ==> file_name(disposition, dir.push('/') + name)
            == trimmed(name),
        name.len() > 0 && decoded(name) is Ok ==> file_name(disposition, dir.push('/') + name)
            == trimmed(decoded(name)->Ok_0),
        name.len() == 0 ==> file_name(disposition, dir.push('/') + name) == "index.html"@,
        name.len() > 0 && !name.contains('%') && !white_space(name[0]) && !white_space(name.last())
            ==> file_name(disposition, dir.push('/') + name) == name,
{
    let path = dir.push('/') + name;
    law_last_separator_divides(dir, '/', name);
    reveal_strlit("filename=");
    reveal_strlit("index.html");
    if let Some(text) = disposition {
        law_part_stands_somewhere(text, "filename="@);
        assert(disposition_name(text) is None);
    }
    let none = Seq::<char>::empty();
    law_trimming_takes_white_space_at_the_ends(none, "index.html"@, none);
    assert(none + "index.html"@ + none =~= "index.html"@);
    if name.len() > 0 && !name.contains('%') && !white_space(name[0]) && !white_space(
        name.last(),
    ) {
        law_plain_text_decodes_to_itself(name);
        law_trimming_takes_white_space_at_the_ends(none, name, none);
        assert(none + name + none =~= name);
    }
}

/// A name field without a value, which comes last, leaves the name to the path as well.
pub proof fn law_empty_name_leaves_it_to_the_path(
    front: Seq<char>,
    lead: Seq<char>,
    pieces: Seq<Seq<char>>,
    path: Seq<char>,
)
    requires
        front.len() == 0 || front.last() == ';',
        forall|i: int| 0 <= i < lead.len() ==> white_space(#[trigger] lead[i]),
        forall|i: int| 0 <= i < pieces.len() ==> other_parameter(#[trigger] pieces[i]),
    ensures
        file_name(Some(front + (lead + "filename="@) + parameters(pieces)), path) == file_name(
            None,
            path,
        ),
{
    reveal_strlit("filename=");
    let mark = "filename="@;
    let piece = lead + mark;
    let none = Seq::<char>::empty();
    law_trimming_takes_white_space_at_the_ends(lead, mark, none);
    assert(piece + none =~= piece);
    assert(mark.take(9) =~= mark);
    assert(!piece.contains(';')) by {
        assert forall|i: int| 0 <= i < piece.len() implies piece[i] != ';' by {
            if i < lead.len() {
                assert(piece[i] == lead[i]);
            } else {
                assert(piece[i] == mark[i - lead.len()]);
            }
        }
    }
    lemma_last_field(front, piece, pieces);
    let word = mark.take(8);
    assert(!word.contains('='));
    law_first_separator_divides(word, '=', none);
    assert(word.push('=') + none =~= mark);
    law_first_separator_divides(none, '=', none);
}

/// The name field gives what stands between its first and its second equals sign, or its end,
/// without the quotes and then without the white space around it. An empty value between quotes
/// gives an empty name.
pub proof fn law_field_gives_the_name(
    front: Seq<char>,
    lead: Seq<char>,
    value: Seq<char>,
    more: Seq<char>,
    trail: Seq<char>,
    pieces: Seq<Seq<char>>,
    path: Seq<char>,
)
    requires
        front.len() == 0 || front.last() == ';',
        forall|i: int| 0 <= i < lead.len() ==> white_space(#[trigger] lead[i]),
        forall|i: int| 0 <= i < trail.len() ==> white_space(#[trigger] trail[i]),
        value.len() > 0,
        !value.contains(';') && !value.contains('='),
        !more.contains(';'),
        more.len() == 0 || more[0] == '=',
        !white_space((value + more).last()),
        forall|i: int| 0 <= i < pieces.len() ==> other_parameter(#[trigger] pieces[i]),
    ensures
        file_name(
            Some(
                front + (lead + ("filename="@ + (value + more)) + trail) + parameters(pieces),
            ),
            path,
        ) == trimmed(unquoted(value)),
{
    reveal_strlit("filename=");
    let mark = "filename="@;
    let rest = value + more;
    let field = mark + rest;
    let piece = lead + field + trail;
    let text = front + piece + parameters(pieces);
    assert(field.last() == rest.last());
    law_trimming_takes_white_space_at_the_ends(lead, field, trail);
    assert(field.take(9) =~= mark);
    assert(!piece.contains(';')) by {
        assert forall|i: int| 0 <= i < piece.len() implies piece[i] != ';' by {
            if i < lead.len() {
                assert(piece[i] == lead[i]);
            } else if i < lead.len() + 9 {
                assert(piece[i] == mark[i - lead.len()]);
            } else if i < lead.len() + 9 + value.len() {
                assert(value.contains(value[i - lead.len() - 9]));
            } else if i < lead.len() + field.len() {
                assert(more.contains(more[i - lead.len() - 9 - value.len()]));
            } else {
                assert(piece[i] == trail[i - lead.len() - field.len()]);
            }
        }
    }
    lemma_last_field(front, piece, pieces);
    assert(contains_text(text, mark)) by {
        let k = (front.len() + lead.len()) as int;
        assert(text.skip(k).take(9) =~= mark);
        assert(starts_with(text.skip(k), mark));
    }
    let word = mark.take(8);
    assert(!word.contains('='));
    law_first_separator_divides(word, '=', rest);
    assert(word.push('=') + rest =~= field);
    if more.len() == 0 {
        assert(rest =~= value);
        law_first_separator_divides(value, '=', Seq::empty());
    } else {
        law_first_separator_divides(value, '=', more.skip(1));
        assert(value.push('=') + more.skip(1) =~= rest);
    }
}

proof fn lemma_no_field(first: Seq<char>, pieces: Seq<Seq<char>>)
    requires
        other_parameter(first),
        forall|i: int| 0 <= i < pieces.len() ==> other_parameter(#[trigger] pieces[i]),
    ensures
        name_field(first + parameters(pieces)) is None,
    decreases pieces.len(),
{
    let text = first + parameters(pieces);
    if pieces.len() == 0 {
        assert(text =~= first);
        law_last_separator_divides(Seq::empty(), ';', first);
    } else {
        let short = pieces.drop_last();
        let last = pieces.last();
        assert(other_parameter(pieces[pieces.len() - 1]));
        assert forall|i: int| 0 <= i < short.len() implies other_parameter(#[trigger] short[i]) by {
            assert(short[i] == pieces[i]);
        }
        lemma_no_field(first, short);
        let head = first + parameters(short);
        assert(text =~= head.push(';') + last);
        law_last_separator_divides(head, ';', last);
        assert(text.take(text.len() - last.len() - 1) =~= head);
    }
}

/// A header of which no parameter gives a name leaves the name to the path, and a path without a
/// slash is its own last piece.
pub proof fn law_other_parameters_give_no_name(
    first: Seq<char>,
    pieces: Seq<Seq<char>>,
    path: Seq<char>,
)
    requires
        other_parameter(first),
        forall|i: int| 0 <= i < pieces.len() ==> other_parameter(#[trigger] pieces[i]),
    ensures
        file_name(Some(first + parameters(pieces)), path) == file_name(None, path),
        !path.contains('/') ==> file_name(None, path) == file_name(None, seq!['/'] + path),
{
    lemma_no_field(first, pieces);
    if !path.contains('/') {
        law_last_separator_divides(Seq::empty(), '/', path);
        assert(Seq::<char>::empty().push('/') + path =~= seq!['/'] + path);
    }
}

} // verus!
