//! The status file: one line for each piece that has been written to the download,
//! so that an interrupted download can go on where it stopped.
use crate::number::{
    digits, format_number, is_digit, law_written_number_is_read_back, lemma_digits, number,
    parse_number, NumberError,
};
use crate::text::{
    after, before, find_byte, first_index, law_first_separator_divides, lemma_ascii_is_utf8,
    lemma_first_index, lemma_first_index_is, utf8_text,
};
use vstd::prelude::*;
use vstd::slice::slice_subrange;
use vstd::utf8::valid_utf8;

verus! {

/// A piece that has been written: how many bytes, and at which offset of the file.
pub type Record = (u64, u64);

/// Why a status file cannot be read.
#[derive(Clone, Copy, Debug, PartialEq, Eq, Structural)]
pub enum StatusError {
    /// A line is not UTF-8.
    NotText,
    /// A line does not begin with two numbers.
    Number(NumberError),
}

/// The line, with its end, that stands for a piece of `byte_count` bytes at `offset`.
pub open spec fn status_line(byte_count: nat, offset: nat) -> Seq<u8> {
    digits(byte_count).push(58) + digits(offset).push(10)
}

/// The content of a status file to which `records` were written one after the other.
pub open spec fn status_content(records: Seq<Record>) -> Seq<u8>
    decreases records.len(),
{
    if records.len() == 0 {
        Seq::empty()
    } else {
        status_line(records[0].0 as nat, records[0].1 as nat) + status_content(records.skip(1))
    }
}

/// `line` without a carriage return at its end.
pub open spec fn without_return(line: Seq<u8>) -> Seq<u8> {
    if line.len() > 0 && line.last() == 13 {
        line.drop_last()
    } else {
        line
    }
}

/// The lines of a file, without their ends. What stands behind the last line end is a line
/// where it is not empty.
pub open spec fn lines(content: Seq<u8>) -> Seq<Seq<u8>>
    decreases content.len(),
{
    if content.len() == 0 {
        Seq::empty()
    } else if first_index(content, 10u8) == content.len() {
        seq![content]
    } else {
        proof {
            lemma_first_index(content, 10u8);
        }
        seq![without_return(before(content, 10u8))] + lines(after(content, 10u8))
    }
}

/// The piece that a line stands for: the numbers before its first and its second colon.
pub open spec fn line_record(line: Seq<u8>) -> Result<Record, StatusError> {
    if !valid_utf8(line) {
        Err(StatusError::NotText)
    } else {
        match number(before(line, 58u8), u64::MAX as nat) {
            Err(e) => Err(StatusError::Number(e)),
            Ok(byte_count) => match number(before(after(line, 58u8), 58u8), u64::MAX as nat) {
                Err(e) => Err(StatusError::Number(e)),
                Ok(offset) => Ok((byte_count as u64, offset as u64)),
            },
        }
    }
}

/// A line that begins with a number has a second field.
pub open spec fn line_complete(line: Seq<u8>) -> bool {
    valid_utf8(line) && number(before(line, 58u8), u64::MAX as nat) is Ok ==> line.contains(58u8)
}

/// The pieces that the lines stand for, or the error of the first line that stands for none.
pub open spec fn line_records(lines: Seq<Seq<u8>>) -> Result<Seq<Record>, StatusError>
    decreases lines.len(),
{
    if lines.len() == 0 {
        Ok(Seq::empty())
    } else {
        match line_record(lines[0]) {
            Err(e) => Err(e),
            Ok(record) => match line_records(lines.skip(1)) {
                Err(e) => Err(e),
                Ok(records) => Ok(seq![record] + records),
            },
        }
    }
}

/// Up to the first line with an error, every line is complete and the byte counts,
/// added to `so_far`, stay within 64 bits.
pub open spec fn lines_readable(lines: Seq<Seq<u8>>, so_far: nat) -> bool
    decreases lines.len(),
{
    lines.len() == 0 || (line_complete(lines[0]) && match line_record(lines[0]) {
        Err(_) => true,
        Ok(record) => so_far + record.0 <= u64::MAX && lines_readable(
            lines.skip(1),
            so_far + record.0 as nat,
        ),
    })
}

/// The number of bytes in all the pieces together.
pub open spec fn total_bytes(records: Seq<Record>) -> nat
    decreases records.len(),
{
    if records.len() == 0 {
        0
    } else {
        total_bytes(records.drop_last()) + records.last().0 as nat
    }
}

/// Writes the line that records a piece.
pub fn format_status_line(byte_count: u64, offset: u64) -> (r: Vec<u8>)
    ensures
        r@ == status_line(byte_count as nat, offset as nat),
{
    let mut r = format_number(byte_count);
    r.push(58);
    let mut tail = format_number(offset);
    tail.push(10);
    r.append(&mut tail);
    r
}

/// Reads one line; `None` for a line that is not complete.
pub fn parse_status_line(line: &[u8]) -> (r: Option<Result<Record, StatusError>>)
    ensures
        r is Some <==> line_complete(line@),
        r matches Some(record) ==> record == line_record(line@),
{
    match utf8_text(line) {
        None => {
            return Some(Err(StatusError::NotText));
        },
        Some(_) => {},
    }
    let colon: usize = find_byte(line, 58);
    proof {
        lemma_first_index(line@, 58u8);
    }
    let head = slice_subrange(line, 0, colon);
    assert(head@ =~= before(line@, 58u8));
    let byte_count = match parse_number(head, u64::MAX) {
        Err(e) => {
            return Some(Err(StatusError::Number(e)));
        },
        Ok(n) => n,
    };
    if colon == line.len() {
        return None;
    }
    let rest = slice_subrange(line, colon + 1, line.len());
    assert(rest@ =~= after(line@, 58u8));
    let second: usize = find_byte(rest, 58);
    let field = slice_subrange(rest, 0, second);
    assert(field@ =~= before(rest@, 58u8));
    match parse_number(field, u64::MAX) {
        Err(e) => Some(Err(StatusError::Number(e))),
        Ok(offset) => Some(Ok((byte_count, offset))),
    }
}

proof fn lemma_total_push(records: Seq<Record>, record: Record)
    ensures
        total_bytes(records.push(record)) == total_bytes(records) + record.0,
{
    assert(records.push(record).drop_last() =~= records);
}

/// Reads a whole status file: the recorded pieces in the order of their lines, and the
/// number of bytes in them. `None` where the file is not readable: a line before the first
/// error lacks its second field, or the byte counts do not add up within 64 bits.
pub fn read_status(content: &[u8]) -> (r: Option<Result<(Vec<Record>, u64), StatusError>>)
    ensures
        r is Some <==> lines_readable(lines(content@), 0),
        r matches Some(Ok((records, total))) ==> {
            &&& line_records(lines(content@)) == Ok::<Seq<Record>, StatusError>(records@)
            &&& total == total_bytes(records@)
        },
        r matches Some(Err(e)) ==> line_records(lines(content@)) == Err::<
            Seq<Record>,
            StatusError,
        >(e),
{
    let ghost all = lines(content@);
    let mut records: Vec<Record> = Vec::new();
    let mut total: u64 = 0;
    let mut pos: usize = 0;
    assert(content@.skip(0) =~= content@);
    assert(records@ =~= Seq::empty());
    proof {
        match line_records(all) {
            Ok(tail) => {
                assert(records@ + tail =~= tail);
            },
            Err(_) => {},
        }
    }
    while pos < content.len()
        invariant
            pos <= content@.len(),
            all == lines(content@),
            total == total_bytes(records@),
            lines_readable(all, 0) <==> lines_readable(
                lines(content@.skip(pos as int)),
                total as nat,
            ),
            line_records(all) == (match line_records(lines(content@.skip(pos as int))) {
                Err(e) => Err::<Seq<Record>, StatusError>(e),
                Ok(tail) => Ok(records@ + tail),
            }),
        decreases content@.len() - pos,
    {
        let rest = slice_subrange(content, pos, content.len());
        assert(rest@ =~= content@.skip(pos as int));
        let ghost rest_lines = lines(rest@);
        let ghost old_records = records@;
        let end: usize = find_byte(rest, 10);
        proof {
            lemma_first_index(rest@, 10u8);
        }
        let mut stop: usize = end;
        if end < rest.len() && end > 0 && rest[end - 1] == 13 {
            stop = end - 1;
        }
        let line = slice_subrange(rest, 0, stop);
        let next: usize = if end < rest.len() {
            pos + end + 1
        } else {
            content.len()
        };
        proof {
            if end < rest@.len() {
                assert(line@ =~= without_return(before(rest@, 10u8)));
                assert(after(rest@, 10u8) =~= content@.skip(next as int));
                assert(rest_lines[0] == line@);
                assert(rest_lines.skip(1) =~= lines(content@.skip(next as int)));
            } else {
                assert(line@ =~= rest@);
                assert(rest_lines[0] == line@);
                assert(content@.skip(next as int) =~= Seq::empty());
                assert(rest_lines.skip(1) =~= lines(content@.skip(next as int)));
            }
        }
        match parse_status_line(line) {
            None => {
                return None;
            },
            Some(Err(e)) => {
                return Some(Err(e));
            },
            Some(Ok(record)) => {
                if record.0 > u64::MAX - total {
                    return None;
                }
                total = total + record.0;
                records.push(record);
                proof {
                    lemma_total_push(old_records, record);
                    match line_records(rest_lines.skip(1)) {
                        Ok(tail) => {
                            assert(old_records + (seq![record] + tail) =~= records@ + tail);
                        },
                        Err(_) => {},
                    }
                }
            },
        }
        pos = next;
    }
    assert(content@.skip(pos as int) =~= Seq::empty());
    assert(records@ + Seq::<Record>::empty() =~= records@);
    Some(Ok((records, total)))
}

/// A file that is empty or ends with a line end.
pub open spec fn ends_with_line(content: Seq<u8>) -> bool {
    content.len() == 0 || content.last() == 10
}

proof fn lemma_lines_concat(front: Seq<u8>, back: Seq<u8>)
    requires
        ends_with_line(front),
    ensures
        lines(front + back) == lines(front) + lines(back),
    decreases front.len(),
{
    let all = front + back;
    if front.len() == 0 {
        assert(all =~= back);
        assert(lines(front) + lines(back) =~= lines(back));
    } else {
        lemma_first_index(front, 10u8);
        assert(front[front.len() - 1] == 10);
        let k = first_index(front, 10u8);
        lemma_first_index_is(all, 10u8, k);
        assert(before(all, 10u8) =~= before(front, 10u8));
        assert(after(all, 10u8) =~= after(front, 10u8) + back);
        let rest = after(front, 10u8);
        if rest.len() > 0 {
            assert(rest.last() == front.last());
        }
        lemma_lines_concat(rest, back);
        assert(lines(all) =~= lines(front) + lines(back));
    }
}

proof fn lemma_written_line(byte_count: u64, offset: u64)
    ensures
        lines(status_line(byte_count as nat, offset as nat)).len() == 1,
        line_record(lines(status_line(byte_count as nat, offset as nat))[0]) == Ok::<
            Record,
            StatusError,
        >((byte_count, offset)),
        line_complete(lines(status_line(byte_count as nat, offset as nat))[0]),
        ends_with_line(status_line(byte_count as nat, offset as nat)),
{
    let b = digits(byte_count as nat);
    let o = digits(offset as nat);
    lemma_digits(byte_count as nat);
    lemma_digits(offset as nat);
    let text = status_line(byte_count as nat, offset as nat);
    let line = b.push(58) + o;
    assert forall|i: int| 0 <= i < line.len() implies line[i] != 10 && line[i] < 128 && line[i]
        != 13 by {
        if i < b.len() {
            assert(line[i] == b[i]);
            assert(is_digit(b[i]));
        } else if i > b.len() {
            assert(line[i] == o[i - b.len() - 1]);
            assert(is_digit(o[i - b.len() - 1]));
        }
    }
    assert(text =~= line.push(10));
    lemma_first_index_is(text, 10u8, line.len() as int);
    assert(before(text, 10u8) =~= line);
    assert(without_return(line) == line);
    assert(after(text, 10u8) =~= Seq::empty());
    assert(lines(after(text, 10u8)) =~= Seq::empty());
    assert(lines(text) =~= seq![line]);
    lemma_ascii_is_utf8(line);
    assert forall|i: int| 0 <= i < b.len() implies line[i] != 58 by {
        assert(line[i] == b[i]);
        assert(is_digit(b[i]));
    }
    lemma_first_index_is(line, 58u8, b.len() as int);
    assert(before(line, 58u8) =~= b);
    assert(after(line, 58u8) =~= o);
    assert forall|i: int| 0 <= i < o.len() implies o[i] != 58 by {
        assert(is_digit(o[i]));
    }
    lemma_first_index_is(o, 58u8, o.len() as int);
    assert(before(o, 58u8) =~= o);
    law_written_number_is_read_back(byte_count as nat, u64::MAX as nat);
    law_written_number_is_read_back(offset as nat, u64::MAX as nat);
    assert(line[b.len() as int] == 58u8);
}

proof fn lemma_line_records_push(front: Seq<Seq<u8>>, line: Seq<u8>, so_far: nat)
    requires
        line_records(front) is Ok,
        line_record(line) is Ok,
        line_complete(line),
    ensures
        line_records(front.push(line)) == Ok::<Seq<Record>, StatusError>(
            line_records(front)->Ok_0.push(line_record(line)->Ok_0),
        ),
        lines_readable(front.push(line), so_far) <==> lines_readable(front, so_far) && so_far
            + total_bytes(line_records(front)->Ok_0) + line_record(line)->Ok_0.0 <= u64::MAX,
    decreases front.len(),
{
    let all = front.push(line);
    let record = line_record(line)->Ok_0;
    reveal_with_fuel(line_records, 2);
    reveal_with_fuel(lines_readable, 2);
    if front.len() == 0 {
        assert(all.skip(1) =~= Seq::<Seq<u8>>::empty());
        assert(seq![record] + Seq::<Record>::empty() =~= Seq::<Record>::empty().push(record));
    } else {
        assert(all.skip(1) =~= front.skip(1).push(line));
        let first = line_record(front[0])->Ok_0;
        lemma_line_records_push(front.skip(1), line, so_far + first.0 as nat);
        let tail = line_records(front.skip(1))->Ok_0;
        assert((seq![first] + tail).push(record) =~= seq![first] + tail.push(record));
        lemma_total_cons(first, tail);
    }
}

proof fn lemma_total_cons(record: Record, records: Seq<Record>)
    ensures
        total_bytes(seq![record] + records) == record.0 + total_bytes(records),
    decreases records.len(),
{
    let all = seq![record] + records;
    reveal_with_fuel(total_bytes, 2);
    if records.len() == 0 {
        assert(all.drop_last() =~= Seq::<Record>::empty());
    } else {
        assert(all.drop_last() =~= seq![record] + records.drop_last());
        lemma_total_cons(record, records.drop_last());
    }
}

/// A piece that is recorded at the end of a status file is read back behind the pieces
/// that stood there before, as long as the byte counts add up within 64 bits.
pub proof fn law_recorded_piece_is_read_back(
    content: Seq<u8>,
    before_it: Seq<Record>,
    byte_count: u64,
    offset: u64,
)
    requires
        ends_with_line(content),
        line_records(lines(content)) == Ok::<Seq<Record>, StatusError>(before_it),
        lines_readable(lines(content), 0),
        total_bytes(before_it) + byte_count <= u64::MAX,
    ensures
        ({
            let grown = content + status_line(byte_count as nat, offset as nat);
            &&& ends_with_line(grown)
            &&& lines_readable(lines(grown), 0)
            &&& line_records(lines(grown)) == Ok::<Seq<Record>, StatusError>(
                before_it.push((byte_count, offset)),
            )
        }),
{
    let line = status_line(byte_count as nat, offset as nat);
    lemma_written_line(byte_count, offset);
    lemma_lines_concat(content, line);
    let parsed = lines(line)[0];
    assert(lines(content) + lines(line) =~= lines(content).push(parsed));
    lemma_line_records_push(lines(content), parsed, 0);
}

/// A status file to which pieces were recorded one after the other is read back as those
/// pieces in the same order, as long as their byte counts add up within 64 bits.
pub proof fn law_status_file_is_read_back(records: Seq<Record>)
    requires
        total_bytes(records) <= u64::MAX,
    ensures
        lines_readable(lines(status_content(records)), 0),
        line_records(lines(status_content(records))) == Ok::<Seq<Record>, StatusError>(records),
{
    assert(lines(Seq::<u8>::empty()) =~= Seq::empty());
    let none = Seq::<Record>::empty();
    lemma_content_read(Seq::empty(), none, records);
    assert(Seq::<u8>::empty() + status_content(records) =~= status_content(records));
    assert(none + records =~= records);
}

/// Writing `records` behind a content that reads as `done` gives one that reads as both.
proof fn lemma_content_read(content: Seq<u8>, done: Seq<Record>, records: Seq<Record>)
    requires
        ends_with_line(content),
        line_records(lines(content)) == Ok::<Seq<Record>, StatusError>(done),
        lines_readable(lines(content), 0),
        total_bytes(done) + total_bytes(records) <= u64::MAX,
    ensures
        lines_readable(lines(content + status_content(records)), 0),
        line_records(lines(content + status_content(records))) == Ok::<Seq<Record>, StatusError>(
            done + records,
        ),
    decreases records.len(),
{
    if records.len() == 0 {
        assert(content + status_content(records) =~= content);
        assert(done + records =~= done);
    } else {
        let first = records[0];
        let rest = records.skip(1);
        assert(seq![first] + rest =~= records);
        lemma_total_cons(first, rest);
        law_recorded_piece_is_read_back(content, done, first.0, first.1);
        let line = status_line(first.0 as nat, first.1 as nat);
        lemma_total_push(done, first);
        lemma_content_read(content + line, done.push(first), rest);
        assert((content + line) + status_content(rest) =~= content + status_content(records));
        assert(done.push(first) + rest =~= done + records);
    }
}

/// A piece is recorded as its number of bytes, a colon, its offset and the end of the line.
pub proof fn law_line_is_count_colon_offset(byte_count: nat, offset: nat)
    ensures
        status_line(byte_count, offset) == digits(byte_count) + seq![58u8] + digits(offset)
            + seq![10u8],
{
    assert(status_line(byte_count, offset) =~= digits(byte_count) + seq![58u8] + digits(offset)
        + seq![10u8]);
}

/// Of a line, the number before the first colon counts the bytes, and the number behind it, up to
/// a second colon where there is one, is the offset. The first of the two that is no number
/// decides the error.
pub proof fn law_line_gives_count_and_offset(count: Seq<u8>, offset: Seq<u8>, more: Seq<u8>)
    requires
        !count.contains(58u8),
        !offset.contains(58u8),
    ensures
        ({
            let expected = match number(count, u64::MAX as nat) {
                Err(e) => Err::<Record, StatusError>(StatusError::Number(e)),
                Ok(n) => match number(offset, u64::MAX as nat) {
                    Err(e) => Err(StatusError::Number(e)),
                    Ok(at) => Ok((n as u64, at as u64)),
                },
            };
            let line = count.push(58u8) + offset;
            let longer = count.push(58u8) + (offset.push(58u8) + more);
            &&& line_record(line) == (if valid_utf8(line) {
                expected
            } else {
                Err(StatusError::NotText)
            })
            &&& line_record(longer) == (if valid_utf8(longer) {
                expected
            } else {
                Err(StatusError::NotText)
            })
            &&& line_complete(line)
            &&& line_complete(longer)
        }),
{
    let line = count.push(58u8) + offset;
    let longer = count.push(58u8) + (offset.push(58u8) + more);
    law_first_separator_divides(count, 58u8, offset);
    law_first_separator_divides(count, 58u8, offset.push(58u8) + more);
    law_first_separator_divides(offset, 58u8, more);
    assert(line[count.len() as int] == 58);
    assert(longer[count.len() as int] == 58);
}

/// A file is read line by line: each line goes up to a line feed, without a carriage return
/// before it, and what stands behind the last line feed is a line where there is anything.
pub proof fn law_file_is_read_line_by_line(line: Seq<u8>, rest: Seq<u8>)
    requires
        !line.contains(10u8),
    ensures
        lines(Seq::empty()) == Seq::<Seq<u8>>::empty(),
        line.len() > 0 ==> lines(line) == seq![line],
        lines(line.push(10u8) + rest) == seq![
            if line.len() > 0 && line.last() == 13 {
                line.drop_last()
            } else {
                line
            },
        ] + lines(rest),
{
    let all = line.push(10u8) + rest;
    law_first_separator_divides(line, 10u8, rest);
    lemma_first_index(line, 10u8);
    lemma_first_index(all, 10u8);
    assert(all[line.len() as int] == 10);
    assert(all.contains(10u8));
    assert(lines(Seq::empty()) =~= Seq::<Seq<u8>>::empty());
}

/// The lines of a file stand for one piece each, in their order, unless one of them stands for
/// none: then the first such line decides the error.
pub proof fn law_every_line_stands_for_a_piece(all: Seq<Seq<u8>>)
    ensures
        match line_records(all) {
            Ok(records) => {
                &&& records.len() == all.len()
                &&& forall|i: int|
                    0 <= i < all.len() ==> line_record(#[trigger] all[i]) == Ok::<
                        Record,
                        StatusError,
                    >(records[i])
            },
            Err(e) => exists|i: int|
                {
                    &&& 0 <= i < all.len()
                    &&& line_record(#[trigger] all[i]) == Err::<Record, StatusError>(e)
                    &&& forall|j: int| 0 <= j < i ==> line_record(#[trigger] all[j]) is Ok
                },
        },
    decreases all.len(),
{
    if all.len() > 0 {
        let rest = all.skip(1);
        law_every_line_stands_for_a_piece(rest);
        match line_record(all[0]) {
            Err(e) => {
                assert(line_record(all[0]) == Err::<Record, StatusError>(e));
            },
            Ok(record) => match line_records(rest) {
                Ok(records) => {
                    let found = seq![record] + records;
                    assert forall|i: int| 0 <= i < all.len() implies line_record(#[trigger] all[i])
                        == Ok::<Record, StatusError>(found[i]) by {
                        if i > 0 {
                            assert(all[i] == rest[i - 1]);
                        }
                    }
                },
                Err(e) => {
                    let i = choose|i: int|
                        {
                            &&& 0 <= i < rest.len()
                            &&& line_record(#[trigger] rest[i]) == Err::<Record, StatusError>(e)
                            &&& forall|j: int| 0 <= j < i ==> line_record(#[trigger] rest[j]) is Ok
                        };
                    assert(line_record(all[i + 1]) == Err::<Record, StatusError>(e));
                    assert forall|j: int| 0 <= j < i + 1 implies line_record(
                        #[trigger] all[j],
                    ) is Ok by {
                        if j > 0 {
                            assert(all[j] == rest[j - 1]);
                        }
                    }
                },
            },
        }
    }
}

/// A file is readable up to its first wrong line exactly where every line before that one is
/// complete and the byte counts add up within 64 bits: a line more, in front, must be complete
/// itself, and its bytes are added.
pub proof fn law_line_in_front_is_counted(line: Seq<u8>, rest: Seq<Seq<u8>>, so_far: nat)
    ensures
        lines_readable(Seq::empty(), so_far),
        lines_readable(seq![line] + rest, so_far) <==> {
            &&& valid_utf8(line) && number(before(line, 58u8), u64::MAX as nat) is Ok
                ==> line.contains(58u8)
            &&& line_record(line) matches Ok(record) ==> so_far + record.0 <= u64::MAX
                && lines_readable(rest, so_far + record.0 as nat)
        },
{
    assert((seq![line] + rest).skip(1) =~= rest);
}

/// The bytes of the pieces add up.
pub proof fn law_bytes_add_up(a: Seq<Record>, record: Record, b: Seq<Record>)
    ensures
        total_bytes(Seq::empty()) == 0,
        total_bytes(seq![record]) == record.0,
        total_bytes(a + b) == total_bytes(a) + total_bytes(b),
    decreases b.len(),
{
    assert(seq![record].drop_last() =~= Seq::<Record>::empty());
    assert(total_bytes(Seq::<Record>::empty()) == 0);
    if b.len() == 0 {
        assert(a + b =~= a);
    } else {
        law_bytes_add_up(a, record, b.drop_last());
        assert((a + b).drop_last() =~= a + b.drop_last());
    }
}

/// A line without a colon that is no number is wrong for that reason.
pub proof fn law_line_without_a_colon(line: Seq<u8>)
    requires
        !line.contains(58u8),
        valid_utf8(line),
    ensures
        number(line, u64::MAX as nat) matches Err(e) ==> line_record(line) == Err::<
            Record,
            StatusError,
        >(StatusError::Number(e)),
        line_complete(line) <==> number(line, u64::MAX as nat) is Err,
{
    law_first_separator_divides(line, 58u8, Seq::empty());
}

} // verus!
