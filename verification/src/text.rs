//! Small operations on texts, stated over sequences of characters.
use vstd::prelude::*;
use vstd::slice::slice_subrange;
use vstd::utf8::{decode_utf8, valid_utf8};

verus! {

/// The characters with the Unicode property `White_Space`.
pub open spec fn white_space(c: char) -> bool {
    let u = c as u32;
    ||| 0x09 <= u <= 0x0d
    ||| u == 0x20
    ||| u == 0x85
    ||| u == 0xa0
    ||| u == 0x1680
    ||| 0x2000 <= u <= 0x200a
    ||| u == 0x2028
    ||| u == 0x2029
    ||| u == 0x202f
    ||| u == 0x205f
    ||| u == 0x3000
}

/// `char::is_whitespace` answers whether a character has the Unicode property
/// `White_Space`; `white_space` lists the characters that have it.
pub assume_specification[ char::is_whitespace ](c: char) -> (r: bool)
    ensures
        r == white_space(c),
;

/// `String::push` appends one character to the end of the string.
pub assume_specification[ String::push ](s: &mut String, c: char)
    ensures
        final(s)@ == old(s)@.push(c),
;

/// `std::str::from_utf8` accepts exactly the bytes that are valid UTF-8, and gives the
/// text that they encode.
#[verifier::external_body]
pub(crate) fn utf8_text(bytes: &[u8]) -> (r: Option<String>)
    ensures
        r is Some <==> valid_utf8(bytes@),
        r matches Some(text) ==> text@ == decode_utf8(bytes@),
{
    match std::str::from_utf8(bytes) {
        Ok(text) => Some(text.to_string()),
        Err(_) => None,
    }
}

/// `s` without its longest prefix of characters that satisfy `drop`.
pub open spec fn trim_start(s: Seq<char>, drop: spec_fn(char) -> bool) -> Seq<char>
    decreases s.len(),
{
    if s.len() > 0 && drop(s[0]) {
        trim_start(s.skip(1), drop)
    } else {
        s
    }
}

/// `s` without its longest suffix of characters that satisfy `drop`.
pub open spec fn trim_end(s: Seq<char>, drop: spec_fn(char) -> bool) -> Seq<char>
    decreases s.len(),
{
    if s.len() > 0 && drop(s.last()) {
        trim_end(s.drop_last(), drop)
    } else {
        s
    }
}

/// `s` without white space at either end.
pub open spec fn trimmed(s: Seq<char>) -> Seq<char> {
    trim_end(trim_start(s, |c: char| white_space(c)), |c: char| white_space(c))
}

/// `s` without double quotes at either end.
pub open spec fn unquoted(s: Seq<char>) -> Seq<char> {
    trim_end(trim_start(s, |c: char| c == '"'), |c: char| c == '"')
}

/// `prefix` stands at the front of `s`.
pub open spec fn starts_with(s: Seq<char>, prefix: Seq<char>) -> bool {
    prefix.len() <= s.len() && s.take(prefix.len() as int) == prefix
}

/// `part` stands somewhere in `s`.
pub open spec fn contains_text(s: Seq<char>, part: Seq<char>) -> bool {
    exists|i: int| 0 <= i <= s.len() && starts_with(#[trigger] s.skip(i), part)
}

/// The index of the first `sep` in `s`, or the length of `s` where there is none.
pub open spec fn first_index<T>(s: Seq<T>, sep: T) -> int
    decreases s.len(),
{
    if s.len() == 0 || s[0] == sep {
        0
    } else {
        1 + first_index(s.skip(1), sep)
    }
}

/// What stands before the first `sep`: the whole of `s` where there is none.
pub open spec fn before<T>(s: Seq<T>, sep: T) -> Seq<T> {
    s.take(first_index(s, sep))
}

/// What stands behind the first `sep`, for an `s` that holds one.
pub open spec fn after<T>(s: Seq<T>, sep: T) -> Seq<T> {
    s.skip(first_index(s, sep) + 1)
}

/// What stands behind the last `sep`: the whole of `s` where there is none.
pub open spec fn after_last<T>(s: Seq<T>, sep: T) -> Seq<T>
    decreases s.len(),
{
    if s.len() == 0 || s.last() == sep {
        Seq::empty()
    } else {
        after_last(s.drop_last(), sep).push(s.last())
    }
}

/// The text whose characters are the given ASCII bytes.
pub open spec fn ascii_text(bytes: Seq<u8>) -> Seq<char> {
    Seq::new(bytes.len(), |i: int| bytes[i] as char)
}

/// The first index of `sep` holds it, and none before does.
pub proof fn lemma_first_index<T>(s: Seq<T>, sep: T)
    ensures
        0 <= first_index(s, sep) <= s.len(),
        first_index(s, sep) < s.len() ==> s[first_index(s, sep)] == sep,
        forall|i: int| 0 <= i < first_index(s, sep) ==> s[i] != sep,
        first_index(s, sep) < s.len() <==> s.contains(sep),
    decreases s.len(),
{
    if s.len() > 0 && s[0] != sep {
        let rest = s.skip(1);
        lemma_first_index(rest, sep);
        assert forall|i: int| 0 <= i < first_index(s, sep) implies s[i] != sep by {
            if i > 0 {
                assert(rest[i - 1] == s[i]);
            }
        }
        if s.contains(sep) {
            let k = choose|k: int| 0 <= k < s.len() && s[k] == sep;
            assert(rest[k - 1] == sep);
        }
        if rest.contains(sep) {
            let k = choose|k: int| 0 <= k < rest.len() && rest[k] == sep;
            assert(s[k + 1] == sep);
        }
    } else if s.len() > 0 {
        assert(s[0] == sep);
    }
}

/// An index that holds `sep`, when none before does, is the first.
pub proof fn lemma_first_index_is<T>(s: Seq<T>, sep: T, k: int)
    requires
        0 <= k <= s.len(),
        k < s.len() ==> s[k] == sep,
        forall|i: int| 0 <= i < k ==> s[i] != sep,
    ensures
        first_index(s, sep) == k,
{
    lemma_first_index(s, sep);
}

/// What stands behind the last `sep` is a suffix without `sep`, with `sep` in front of it
/// unless it is the whole.
pub proof fn lemma_after_last<T>(s: Seq<T>, sep: T)
    ensures
        after_last(s, sep).len() <= s.len(),
        after_last(s, sep) == s.skip(s.len() - after_last(s, sep).len()),
        after_last(s, sep).len() < s.len() ==> s[s.len() - after_last(s, sep).len() - 1] == sep,
        !after_last(s, sep).contains(sep),
    decreases s.len(),
{
    if s.len() > 0 && s.last() != sep {
        let front = s.drop_last();
        lemma_after_last(front, sep);
        let tail = after_last(front, sep);
        assert(after_last(s, sep) =~= s.skip(s.len() - after_last(s, sep).len()));
        if after_last(s, sep).contains(sep) {
            let k = choose|k: int|
                0 <= k < after_last(s, sep).len() && after_last(s, sep)[k] == sep;
            if k < tail.len() {
                assert(tail[k] == sep);
            }
        }
    }
}

/// Bytes in the ASCII range are UTF-8.
pub proof fn lemma_ascii_is_utf8(bytes: Seq<u8>)
    requires
        forall|i: int| 0 <= i < bytes.len() ==> bytes[i] < 128,
    ensures
        valid_utf8(bytes),
    decreases bytes.len(),
{
    if bytes.len() > 0 {
        let b = bytes[0];
        assert((b & 0x7f) <= 0x7f) by (bit_vector);
        lemma_ascii_is_utf8(vstd::utf8::pop_first_scalar(bytes));
    }
}

/// The characters of `s`.
pub(crate) fn to_chars(s: &str) -> (r: Vec<char>)
    ensures
        r@ == s@,
{
    let mut r: Vec<char> = Vec::new();
    for c in it: s.chars()
        invariant
            r@ == it.seq().take(it.index() as int),
            it.seq() == s@,
    {
        r.push(c);
    }
    r
}

/// The string that is made of `chars`.
pub(crate) fn to_text(chars: &[char]) -> (r: String)
    ensures
        r@ == chars@,
{
    let mut r = String::new();
    let mut i: usize = 0;
    while i < chars.len()
        invariant
            i <= chars@.len(),
            r@ == chars@.take(i as int),
        decreases chars@.len() - i,
    {
        r.push(chars[i]);
        i += 1;
        assert(chars@.take(i as int) =~= chars@.take(i - 1).push(chars@[i - 1]));
    }
    assert(chars@.take(i as int) =~= chars@);
    r
}

/// The string whose characters are the given ASCII bytes.
pub(crate) fn ascii_to_text(bytes: &[u8]) -> (r: String)
    ensures
        r@ == ascii_text(bytes@),
{
    let mut r = String::new();
    let mut i: usize = 0;
    while i < bytes.len()
        invariant
            i <= bytes@.len(),
            r@ == ascii_text(bytes@).take(i as int),
        decreases bytes@.len() - i,
    {
        r.push(bytes[i] as char);
        i += 1;
        assert(ascii_text(bytes@).take(i as int) =~= ascii_text(bytes@).take(i - 1).push(
            bytes@[i - 1] as char,
        ));
    }
    assert(ascii_text(bytes@).take(i as int) =~= ascii_text(bytes@));
    r
}

/// `chars` without white space at either end.
pub(crate) fn trim(chars: &[char]) -> (r: &[char])
    ensures
        r@ == trimmed(chars@),
{
    let ghost ws = |c: char| white_space(c);
    let mut lo: usize = 0;
    assert(chars@.skip(0) =~= chars@);
    while lo < chars.len() && chars[lo].is_whitespace()
        invariant
            lo <= chars@.len(),
            ws == (|c: char| white_space(c)),
            trim_start(chars@, ws) == trim_start(chars@.skip(lo as int), ws),
        decreases chars@.len() - lo,
    {
        assert(chars@.skip(lo as int).skip(1) =~= chars@.skip(lo + 1));
        lo += 1;
    }
    let ghost front = chars@.skip(lo as int);
    let mut hi: usize = chars.len();
    assert(chars@.subrange(lo as int, hi as int) =~= front);
    while lo < hi && chars[hi - 1].is_whitespace()
        invariant
            lo <= hi <= chars@.len(),
            ws == (|c: char| white_space(c)),
            trim_end(front, ws) == trim_end(chars@.subrange(lo as int, hi as int), ws),
        decreases hi,
    {
        assert(chars@.subrange(lo as int, hi as int).drop_last() =~= chars@.subrange(
            lo as int,
            hi - 1,
        ));
        hi -= 1;
    }
    slice_subrange(chars, lo, hi)
}

/// `chars` without double quotes at either end.
pub(crate) fn unquote(chars: &[char]) -> (r: &[char])
    ensures
        r@ == unquoted(chars@),
{
    let ghost quote = |c: char| c == '"';
    let mut lo: usize = 0;
    assert(chars@.skip(0) =~= chars@);
    while lo < chars.len() && chars[lo] == '"'
        invariant
            lo <= chars@.len(),
            quote == (|c: char| c == '"'),
            trim_start(chars@, quote) == trim_start(chars@.skip(lo as int), quote),
        decreases chars@.len() - lo,
    {
        assert(chars@.skip(lo as int).skip(1) =~= chars@.skip(lo + 1));
        lo += 1;
    }
    let ghost front = chars@.skip(lo as int);
    let mut hi: usize = chars.len();
    assert(chars@.subrange(lo as int, hi as int) =~= front);
    while lo < hi && chars[hi - 1] == '"'
        invariant
            lo <= hi <= chars@.len(),
            quote == (|c: char| c == '"'),
            trim_end(front, quote) == trim_end(chars@.subrange(lo as int, hi as int), quote),
        decreases hi,
    {
        assert(chars@.subrange(lo as int, hi as int).drop_last() =~= chars@.subrange(
            lo as int,
            hi - 1,
        ));
        hi -= 1;
    }
    slice_subrange(chars, lo, hi)
}

/// Whether `prefix` stands at the front of `chars`.
pub(crate) fn has_prefix(chars: &[char], prefix: &[char]) -> (r: bool)
    ensures
        r == starts_with(chars@, prefix@),
{
    if prefix.len() > chars.len() {
        return false;
    }
    let mut i: usize = 0;
    while i < prefix.len()
        invariant
            i <= prefix@.len() <= chars@.len(),
            forall|k: int| 0 <= k < i ==> chars@[k] == prefix@[k],
        decreases prefix@.len() - i,
    {
        if chars[i] != prefix[i] {
            assert(chars@.take(prefix@.len() as int)[i as int] != prefix@[i as int]);
            return false;
        }
        i += 1;
    }
    assert(chars@.take(prefix@.len() as int) =~= prefix@);
    true
}

/// Whether `part` stands somewhere in `chars`.
pub(crate) fn has_part(chars: &[char], part: &[char]) -> (r: bool)
    ensures
        r == contains_text(chars@, part@),
{
    let mut i: usize = 0;
    loop
        invariant
            i <= chars@.len(),
            forall|k: int| 0 <= k < i ==> !starts_with(#[trigger] chars@.skip(k), part@),
        decreases chars@.len() - i,
    {
        let rest = slice_subrange(chars, i, chars.len());
        assert(rest@ =~= chars@.skip(i as int));
        if has_prefix(rest, part) {
            return true;
        }
        if i == chars.len() {
            return false;
        }
        i += 1;
    }
}

/// The index of the first `sep` in `chars`, or the length where there is none.
pub(crate) fn find_char(chars: &[char], sep: char) -> (r: usize)
    ensures
        r == first_index(chars@, sep),
        r <= chars@.len(),
{
    let mut i: usize = 0;
    while i < chars.len() && chars[i] != sep
        invariant
            i <= chars@.len(),
            forall|k: int| 0 <= k < i ==> chars@[k] != sep,
        decreases chars@.len() - i,
    {
        i += 1;
    }
    proof {
        lemma_first_index_is(chars@, sep, i as int);
    }
    i
}

/// The index of the first `sep` in `bytes`, or the length where there is none.
pub(crate) fn find_byte(bytes: &[u8], sep: u8) -> (r: usize)
    ensures
        r == first_index(bytes@, sep),
        r <= bytes@.len(),
{
    let mut i: usize = 0;
    while i < bytes.len() && bytes[i] != sep
        invariant
            i <= bytes@.len(),
            forall|k: int| 0 <= k < i ==> bytes@[k] != sep,
        decreases bytes@.len() - i,
    {
        i += 1;
    }
    proof {
        lemma_first_index_is(bytes@, sep, i as int);
    }
    i
}

/// What stands in `chars` behind the last `sep`.
pub(crate) fn last_piece(chars: &[char], sep: char) -> (r: &[char])
    ensures
        r@ == after_last(chars@, sep),
{
    let mut i: usize = chars.len();
    assert(chars@.take(i as int) =~= chars@);
    assert(after_last(chars@, sep) + chars@.skip(i as int) =~= after_last(chars@, sep));
    while i > 0 && chars[i - 1] != sep
        invariant
            i <= chars@.len(),
            after_last(chars@, sep) == after_last(chars@.take(i as int), sep) + chars@.skip(
                i as int,
            ),
        decreases i,
    {
        let ghost head = chars@.take(i as int);
        assert(head.drop_last() =~= chars@.take(i - 1));
        assert(after_last(head.drop_last(), sep).push(head.last()) + chars@.skip(i as int)
            =~= after_last(head.drop_last(), sep) + chars@.skip(i - 1));
        i -= 1;
    }
    assert(after_last(chars@, sep) =~= chars@.skip(i as int));
    slice_subrange(chars, i, chars.len())
}

/// The first separator divides a sequence into what stands before it and what stands behind it.
/// A sequence without a separator stands before it whole.
pub proof fn law_first_separator_divides<T>(front: Seq<T>, sep: T, back: Seq<T>)
    requires
        !front.contains(sep),
    ensures
        before(front.push(sep) + back, sep) == front,
        after(front.push(sep) + back, sep) == back,
        before(front, sep) == front,
{
    let all = front.push(sep) + back;
    assert forall|i: int| 0 <= i < front.len() implies all[i] != sep && front[i] != sep by {
        assert(front.contains(front[i]));
    }
    lemma_first_index_is(all, sep, front.len() as int);
    lemma_first_index_is(front, sep, front.len() as int);
    assert(before(all, sep) =~= front);
    assert(after(all, sep) =~= back);
    assert(before(front, sep) =~= front);
}

/// The last separator stands before the last piece of a sequence. A sequence without a separator
/// is its own last piece.
pub proof fn law_last_separator_divides<T>(front: Seq<T>, sep: T, back: Seq<T>)
    requires
        !back.contains(sep),
    ensures
        after_last(front.push(sep) + back, sep) == back,
        after_last(back, sep) == back,
    decreases back.len(),
{
    let all = front.push(sep) + back;
    if back.len() == 0 {
        assert(all =~= front.push(sep));
        assert(after_last(all, sep) =~= back);
        assert(after_last(back, sep) =~= back);
    } else {
        let short = back.drop_last();
        assert forall|i: int| 0 <= i < back.len() implies back[i] != sep by {
            assert(back.contains(back[i]));
        }
        assert(back.last() == back[back.len() - 1]);
        law_last_separator_divides(front, sep, short);
        assert(all.drop_last() =~= front.push(sep) + short);
        assert(short.push(back.last()) =~= back);
    }
}

proof fn lemma_trim_start_is(lead: Seq<char>, rest: Seq<char>, drop: spec_fn(char) -> bool)
    requires
        forall|i: int| 0 <= i < lead.len() ==> drop(#[trigger] lead[i]),
        rest.len() > 0 ==> !drop(rest[0]),
    ensures
        trim_start(lead + rest, drop) == rest,
    decreases lead.len(),
{
    if lead.len() == 0 {
        assert(lead + rest =~= rest);
    } else {
        let tail = lead.skip(1);
        assert(drop(lead[0]));
        assert forall|i: int| 0 <= i < tail.len() implies drop(#[trigger] tail[i]) by {
            assert(tail[i] == lead[i + 1]);
        }
        lemma_trim_start_is(tail, rest, drop);
        assert((lead + rest).skip(1) =~= tail + rest);
    }
}

proof fn lemma_trim_end_is(rest: Seq<char>, trail: Seq<char>, drop: spec_fn(char) -> bool)
    requires
        forall|i: int| 0 <= i < trail.len() ==> drop(#[trigger] trail[i]),
        rest.len() > 0 ==> !drop(rest.last()),
    ensures
        trim_end(rest + trail, drop) == rest,
    decreases trail.len(),
{
    if trail.len() == 0 {
        assert(rest + trail =~= rest);
    } else {
        let front = trail.drop_last();
        assert(drop(trail[trail.len() - 1]));
        assert forall|i: int| 0 <= i < front.len() implies drop(#[trigger] front[i]) by {
            assert(front[i] == trail[i]);
        }
        lemma_trim_end_is(rest, front, drop);
        assert((rest + trail).drop_last() =~= rest + front);
    }
}

proof fn lemma_trim_both(
    lead: Seq<char>,
    core: Seq<char>,
    trail: Seq<char>,
    drop: spec_fn(char) -> bool,
)
    requires
        forall|i: int| 0 <= i < lead.len() ==> drop(#[trigger] lead[i]),
        forall|i: int| 0 <= i < trail.len() ==> drop(#[trigger] trail[i]),
        core.len() > 0 ==> !drop(core[0]) && !drop(core.last()),
    ensures
        trim_end(trim_start(lead + core + trail, drop), drop) == core,
{
    if core.len() == 0 {
        let all = lead + core + trail;
        assert forall|i: int| 0 <= i < all.len() implies drop(#[trigger] all[i]) by {
            if i < lead.len() {
                assert(all[i] == lead[i]);
            } else {
                assert(all[i] == trail[i - lead.len()]);
            }
        }
        lemma_trim_start_is(all, Seq::empty(), drop);
        assert(all + Seq::<char>::empty() =~= all);
        assert(core =~= Seq::empty());
    } else {
        assert(lead + core + trail =~= lead + (core + trail));
        lemma_trim_start_is(lead, core + trail, drop);
        lemma_trim_end_is(core, trail, drop);
    }
}

/// Trimming takes away the white space at either end and nothing else.
pub proof fn law_trimming_takes_white_space_at_the_ends(
    lead: Seq<char>,
    core: Seq<char>,
    trail: Seq<char>,
)
    requires
        forall|i: int| 0 <= i < lead.len() ==> white_space(#[trigger] lead[i]),
        forall|i: int| 0 <= i < trail.len() ==> white_space(#[trigger] trail[i]),
        core.len() > 0 ==> !white_space(core[0]) && !white_space(core.last()),
    ensures
        trimmed(lead + core + trail) == core,
{
    lemma_trim_both(lead, core, trail, |c: char| white_space(c));
}

/// Unquoting takes away the double quotes at either end and nothing else.
pub proof fn law_unquoting_takes_quotes_at_the_ends(
    lead: Seq<char>,
    core: Seq<char>,
    trail: Seq<char>,
)
    requires
        forall|i: int| 0 <= i < lead.len() ==> #[trigger] lead[i] == '"',
        forall|i: int| 0 <= i < trail.len() ==> #[trigger] trail[i] == '"',
        core.len() > 0 ==> core[0] != '"' && core.last() != '"',
    ensures
        unquoted(lead + core + trail) == core,
{
    lemma_trim_both(lead, core, trail, |c: char| c == '"');
}

/// A text holds a part exactly where the part stands at some place of it, and begins with it
/// exactly where it stands at the first.
pub proof fn law_part_stands_somewhere(s: Seq<char>, part: Seq<char>)
    ensures
        contains_text(s, part) <==> exists|i: int|
            0 <= i <= s.len() - part.len() && #[trigger] s.subrange(i, i + part.len()) == part,
        starts_with(s, part) <==> part.len() <= s.len() && s.subrange(0, part.len() as int) == part,
{
    let n = part.len() as int;
    assert forall|i: int| 0 <= i <= s.len() - n implies s.skip(i).take(n) == s.subrange(
        i,
        i + n,
    ) by {
        assert(s.skip(i).take(n) =~= s.subrange(i, i + n));
    }
    if contains_text(s, part) {
        let i = choose|i: int| 0 <= i <= s.len() && starts_with(#[trigger] s.skip(i), part);
        assert(s.subrange(i, i + n) == part);
    }
    if exists|i: int| 0 <= i <= s.len() - n && #[trigger] s.subrange(i, i + n) == part {
        let i = choose|i: int| 0 <= i <= s.len() - n && #[trigger] s.subrange(i, i + n) == part;
        assert(starts_with(s.skip(i), part));
    }
    if n <= s.len() {
        assert(s.take(n) =~= s.subrange(0, n));
    }
}

/// Bytes give a character each, with the same code.
pub proof fn law_bytes_give_a_character_each(bytes: Seq<u8>, i: int)
    requires
        0 <= i < bytes.len(),
    ensures
        ascii_text(bytes).len() == bytes.len(),
        ascii_text(bytes)[i] as u32 == bytes[i],
{
}

} // verus!
