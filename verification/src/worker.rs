//! The transfer of one range.
use crate::headers::{
    header_fields, header_insert, lemma_header_names, value_byte, value_bytes, HeaderError,
};
use crate::number::{
    digits, format_number, is_digit, law_written_number_is_read_back, lemma_digits, number,
    NumberError,
};
use crate::order::by_offset;
use crate::ranges::{
    law_recording_a_missing_piece_keeps_pieces, law_resume_requests_what_is_missing,
    lemma_no_piece_inside_ranges, lemma_recorded_last, pieces_of, recorded, requested,
    resume_ranges, ByteRange,
};
use crate::status::{total_bytes, Record};
use crate::text::{after, ascii_text, ascii_to_text, before, law_first_separator_divides};
use reqwest::header::HeaderMap;
use vstd::prelude::*;
use vstd::utf8::{encode_utf8, is_ascii_chars, is_ascii_chars_encode_utf8};

verus! {

/// The value of the `Range` header that requests a range.
pub open spec fn range_value(first: nat, last: nat) -> Seq<char> {
    "bytes="@ + ascii_text(digits(first)) + "-"@ + ascii_text(digits(last))
}

/// The value of the `Range` header that requests a range.
pub fn format_range(range: ByteRange) -> (r: String)
    ensures
        r@ == range_value(range.0 as nat, range.1 as nat),
{
    let first = ascii_to_text(format_number(range.0).as_slice());
    let last = ascii_to_text(format_number(range.1).as_slice());
    "bytes=".to_owned().concat(first.as_str()).concat("-").concat(last.as_str())
}

proof fn lemma_range_value_is_valid(first: nat, last: nat)
    ensures
        value_bytes(encode_utf8(range_value(first, last))),
        value_bytes(encode_utf8("*/*"@)),
        value_bytes(encode_utf8("keep-alive"@)),
{
    let a = ascii_text(digits(first));
    let b = ascii_text(digits(last));
    let value = range_value(first, last);
    lemma_digits(first);
    lemma_digits(last);
    reveal_strlit("bytes=");
    reveal_strlit("-");
    reveal_strlit("*/*");
    reveal_strlit("keep-alive");
    assert forall|i: int| 0 <= i < value.len() implies '\0' <= #[trigger] value[i] <= '\u{7f}'
        && value_byte(value[i] as u8) by {
        if i < 6 {
            assert(value[i] == "bytes="@[i]);
        } else if i < 6 + a.len() {
            assert(value[i] == a[i - 6]);
            assert(is_digit(digits(first)[i - 6]));
        } else if i == 6 + a.len() {
            assert(value[i] == '-');
        } else {
            assert(value[i] == b[i - 7 - a.len()]);
            assert(is_digit(digits(last)[i - 7 - a.len()]));
        }
    }
    lemma_visible_value(value);
    lemma_visible_value("*/*"@);
    lemma_visible_value("keep-alive"@);
}

proof fn lemma_visible_value(value: Seq<char>)
    requires
        forall|i: int|
            0 <= i < value.len() ==> '\0' <= #[trigger] value[i] <= '\u{7f}' && value_byte(
                value[i] as u8,
            ),
    ensures
        value_bytes(encode_utf8(value)),
{
    assert(is_ascii_chars(value));
    is_ascii_chars_encode_utf8(value);
    assert forall|i: int| 0 <= i < encode_utf8(value).len() implies value_byte(
        #[trigger] encode_utf8(value)[i],
    ) by {
        assert(value[i] as u8 == encode_utf8(value)[i]);
    }
}

/// `fields` with the range to request.
pub open spec fn with_range(
    fields: Map<Seq<char>, Seq<Seq<u8>>>,
    range: ByteRange,
) -> Map<Seq<char>, Seq<Seq<u8>>> {
    fields.insert("range"@, seq![encode_utf8(range_value(range.0 as nat, range.1 as nat))])
}

/// `fields` with every kind of content accepted.
pub open spec fn with_accept(fields: Map<Seq<char>, Seq<Seq<u8>>>) -> Map<
    Seq<char>,
    Seq<Seq<u8>>,
> {
    fields.insert("accept"@, seq![encode_utf8("*/*"@)])
}

/// `fields` with the connection kept open.
pub open spec fn with_connection(fields: Map<Seq<char>, Seq<Seq<u8>>>) -> Map<
    Seq<char>,
    Seq<Seq<u8>>,
> {
    fields.insert("connection"@, seq![encode_utf8("keep-alive"@)])
}

/// Sets the headers of a request for a range. The only error is that the headers, of which
/// there must then be thousands, take no further one; those set before stay set.
pub fn set_range_headers(headers: &mut HeaderMap, range: ByteRange) -> (r: Result<
    (),
    HeaderError,
>)
    ensures
        ({
            let fields = header_fields(*old(headers));
            let now = header_fields(*final(headers));
            let ranged = with_range(fields, range);
            match r {
                Ok(_) => now == with_connection(with_accept(ranged)),
                Err(e) => {
                    &&& e == HeaderError::Full
                    &&& now == fields || now == ranged || now == with_accept(ranged)
                    &&& now.dom().len() >= 6554
                },
            }
        }),
{
    let value = format_range(range);
    proof {
        lemma_header_names();
        lemma_range_value_is_valid(range.0 as nat, range.1 as nat);
    }
    match header_insert(headers, "range", value.as_str()) {
        Err(e) => {
            return Err(e);
        },
        Ok(_) => {},
    }
    match header_insert(headers, "accept", "*/*") {
        Err(e) => {
            return Err(e);
        },
        Ok(_) => {},
    }
    header_insert(headers, "connection", "keep-alive")
}

/// The transfer of one range: how far it has come.
#[derive(Clone, Copy, Debug, PartialEq, Eq, Structural)]
pub struct ChunkWorker {
    /// The range that was requested.
    pub first: u64,
    pub last: u64,
    /// Where the next bytes belong.
    pub next: u64,
    /// How many bytes have arrived.
    pub received: u64,
}

impl ChunkWorker {
    /// The bytes that have arrived are those from the start of the range up to `next`.
    pub open spec fn valid(self) -> bool {
        &&& self.first <= self.last
        &&& self.last - self.first < u64::MAX
        &&& self.next == self.first + self.received
    }

    /// The number of bytes in the range.
    pub open spec fn length(self) -> int {
        self.last - self.first + 1
    }

    /// Starts the transfer of a range.
    pub fn new(range: ByteRange) -> (r: Self)
        requires
            range.0 <= range.1,
            range.1 - range.0 < u64::MAX,
        ensures
            r.valid(),
            r.first == range.0,
            r.last == range.1,
            r.received == 0,
    {
        ChunkWorker { first: range.0, last: range.1, next: range.0, received: 0 }
    }

    /// Takes note of bytes that arrived. Gives the piece that they make, and whether the range
    /// is complete.
    pub fn receive(&mut self, byte_count: u64) -> (r: (Record, bool))
        requires
            old(self).valid(),
            old(self).next + byte_count <= u64::MAX,
        ensures
            final(self).valid(),
            *final(self) == after_portion(*old(self), byte_count),
            r.0 == (byte_count, old(self).next),
            r.1 == (final(self).received >= final(self).length()),
    {
        let piece = (byte_count, self.next);
        self.next += byte_count;
        self.received += byte_count;
        (piece, self.received >= self.last - self.first + 1)
    }

    /// What is to be requested again when the transfer broke off.
    pub fn unfinished(&self) -> (r: ByteRange)
        ensures
            r == (self.next, self.last),
    {
        (self.next, self.last)
    }
}

/// The worker after `byte_count` more bytes have arrived.
pub open spec fn after_portion(worker: ChunkWorker, byte_count: u64) -> ChunkWorker {
    ChunkWorker {
        next: (worker.next + byte_count) as u64,
        received: (worker.received + byte_count) as u64,
        ..worker
    }
}

/// The worker after portions of the given sizes have arrived one after the other.
pub open spec fn after_portions(worker: ChunkWorker, portions: Seq<u64>) -> ChunkWorker
    decreases portions.len(),
{
    if portions.len() == 0 {
        worker
    } else {
        after_portion(after_portions(worker, portions.drop_last()), portions.last())
    }
}

/// The pieces that portions of the given sizes make.
pub open spec fn pieces(worker: ChunkWorker, portions: Seq<u64>) -> Seq<Record>
    decreases portions.len(),
{
    if portions.len() == 0 {
        Seq::empty()
    } else {
        pieces(worker, portions.drop_last()).push(
            (portions.last(), after_portions(worker, portions.drop_last()).next),
        )
    }
}

/// The sum of the portions.
pub open spec fn sum(portions: Seq<u64>) -> nat
    decreases portions.len(),
{
    if portions.len() == 0 {
        0
    } else {
        sum(portions.drop_last()) + portions.last() as nat
    }
}

/// The pieces of a range follow on each other without a gap or an overlap: whatever the sizes
/// of the portions that arrive, the pieces hold exactly the bytes from the start of the range
/// on, as many as have arrived, and each of them once.
pub proof fn law_pieces_follow_on_each_other(
    worker: ChunkWorker,
    portions: Seq<u64>,
    content_len: nat,
)
    requires
        worker.valid(),
        worker.received == 0,
        worker.first + sum(portions) <= content_len <= u64::MAX,
    ensures
        after_portions(worker, portions).valid(),
        after_portions(worker, portions).received == sum(portions),
        pieces_of(pieces(worker, portions), content_len),
        total_bytes(pieces(worker, portions)) == sum(portions),
        forall|i: int|
            0 <= i < pieces(worker, portions).len() ==> (#[trigger] pieces(worker, portions)[i]).1
                + pieces(worker, portions)[i].0 <= worker.first + sum(portions),
        forall|b: nat|
            #[trigger] recorded(pieces(worker, portions), b) <==> worker.first <= b < worker.first
                + sum(portions),
    decreases portions.len(),
{
    let all = pieces(worker, portions);
    if portions.len() > 0 {
        let front = portions.drop_last();
        law_pieces_follow_on_each_other(worker, front, content_len);
        let inner = pieces(worker, front);
        let piece = all.last();
        assert(all.drop_last() =~= inner);
        assert(piece == (portions.last(), (worker.first + sum(front)) as u64)) by {
            assert(after_portions(worker, front).valid());
            assert(after_portions(worker, front).first == worker.first) by {
                lemma_same_range(worker, front);
            }
        }
        lemma_same_range(worker, portions);
        assert(!recorded(inner, piece.1 as nat));
        assert forall|b: nat| piece.1 <= b < piece.1 + piece.0 implies !#[trigger] recorded(
            inner,
            b,
        ) by {}
        assert forall|i: int|
            0 <= i < all.len() implies (#[trigger] all[i]).1 + all[i].0 <= worker.first
            + sum(portions) by {
            if i < inner.len() {
                assert(all[i] == inner[i]);
            }
        }
        law_recording_a_missing_piece_keeps_pieces(inner, piece, content_len);
        assert forall|b: nat| #[trigger] recorded(all, b) <==> worker.first <= b < worker.first
            + sum(portions) by {
            lemma_recorded_last(all, b);
            assert(recorded(inner, b) <==> worker.first <= b < worker.first + sum(front));
        }
    }
}

proof fn lemma_same_range(worker: ChunkWorker, portions: Seq<u64>)
    ensures
        after_portions(worker, portions).first == worker.first,
        after_portions(worker, portions).last == worker.last,
    decreases portions.len(),
{
    if portions.len() > 0 {
        lemma_same_range(worker, portions.drop_last());
    }
}

/// A transfer that broke off leaves nothing out: of the range that was requested, the bytes
/// that have arrived are exactly those that are not requested again.
pub proof fn law_broken_transfer_leaves_the_rest(worker: ChunkWorker, b: nat)
    requires
        worker.valid(),
        worker.received < worker.length(),
    ensures
        worker.first <= b <= worker.last ==> ((worker.first <= b < worker.first + worker.received)
            <==> !(worker.next <= b <= worker.last)),
        worker.next <= worker.last,
{
}

/// What happens to one of several workers.
pub enum Delivery {
    /// That many bytes arrive for the worker.
    Portion { worker: int, byte_count: u64 },
    /// The worker breaks off, and another one takes its place for what it leaves.
    Restart { worker: int },
}

/// The worker that takes the place of one that broke off.
pub open spec fn restarted(worker: ChunkWorker) -> ChunkWorker {
    ChunkWorker { first: worker.next, last: worker.last, next: worker.next, received: 0 }
}

/// The workers after the deliveries.
pub open spec fn after_deliveries(workers: Seq<ChunkWorker>, deliveries: Seq<Delivery>) -> Seq<
    ChunkWorker,
>
    decreases deliveries.len(),
{
    if deliveries.len() == 0 {
        workers
    } else {
        let now = after_deliveries(workers, deliveries.drop_last());
        match deliveries.last() {
            Delivery::Portion { worker, byte_count } => now.update(
                worker,
                after_portion(now[worker], byte_count),
            ),
            Delivery::Restart { worker } => now.update(worker, restarted(now[worker])),
        }
    }
}

/// The pieces that the workers hand out, in the order of the deliveries.
pub open spec fn handed_out(workers: Seq<ChunkWorker>, deliveries: Seq<Delivery>) -> Seq<Record>
    decreases deliveries.len(),
{
    if deliveries.len() == 0 {
        Seq::empty()
    } else {
        let so_far = handed_out(workers, deliveries.drop_last());
        match deliveries.last() {
            Delivery::Portion { worker, byte_count } => so_far.push(
                (byte_count, after_deliveries(workers, deliveries.drop_last())[worker].next),
            ),
            Delivery::Restart { worker: _ } => so_far,
        }
    }
}

/// Every delivery is for a worker whose range is not complete, and brings no more than is left
/// of its range and of the file.
pub open spec fn within_ranges(
    workers: Seq<ChunkWorker>,
    deliveries: Seq<Delivery>,
    content_len: nat,
) -> bool
    decreases deliveries.len(),
{
    if deliveries.len() == 0 {
        true
    } else {
        let now = after_deliveries(workers, deliveries.drop_last());
        &&& within_ranges(workers, deliveries.drop_last(), content_len)
        &&& match deliveries.last() {
            Delivery::Portion { worker, byte_count } => {
                &&& 0 <= worker < workers.len()
                &&& now[worker].received < now[worker].length()
                &&& now[worker].received + byte_count <= now[worker].length()
                &&& now[worker].next + byte_count <= content_len
            },
            Delivery::Restart { worker } => {
                &&& 0 <= worker < workers.len()
                &&& now[worker].received < now[worker].length()
            },
        }
    }
}

/// There is one worker for each of the ranges, and none has received anything yet.
pub open spec fn fresh_on(workers: Seq<ChunkWorker>, ranges: Seq<(nat, nat)>) -> bool {
    &&& workers.len() == ranges.len()
    &&& forall|i: int|
        0 <= i < workers.len() ==> {
            &&& (#[trigger] workers[i]).first == ranges[i].0
            &&& workers[i].last == ranges[i].1
            &&& workers[i].next == workers[i].first
            &&& workers[i].received == 0
        }
}

/// Each worker is somewhere in its range.
spec fn under_way(workers: Seq<ChunkWorker>, ranges: Seq<(nat, nat)>) -> bool {
    &&& workers.len() == ranges.len()
    &&& forall|i: int|
        0 <= i < workers.len() ==> {
            &&& (#[trigger] workers[i]).first >= ranges[i].0
            &&& workers[i].last == ranges[i].1
            &&& workers[i].next == workers[i].first + workers[i].received
            &&& workers[i].next <= ranges[i].1 + 1
        }
}

/// The piece lies in what worker `i` has received of its range.
spec fn received_by(
    piece: Record,
    workers: Seq<ChunkWorker>,
    ranges: Seq<(nat, nat)>,
    i: int,
) -> bool {
    0 <= i < workers.len() && ranges[i].0 <= piece.1 && piece.1 + piece.0 <= workers[i].next
}

/// The piece lies in what some worker has received.
spec fn has_receiver(
    piece: Record,
    workers: Seq<ChunkWorker>,
    ranges: Seq<(nat, nat)>,
) -> bool {
    exists|i: int| received_by(piece, workers, ranges, i)
}

/// Every piece lies in what some worker has received.
spec fn all_received(
    handed: Seq<Record>,
    workers: Seq<ChunkWorker>,
    ranges: Seq<(nat, nat)>,
) -> bool {
    forall|m: int|
        0 <= m < handed.len() ==> has_receiver(#[trigger] handed[m], workers, ranges)
}

/// A piece that the worker on range `k` hands out holds nothing that is there already, and no
/// empty piece lies inside it.
proof fn lemma_next_piece_is_missing(
    records: Seq<Record>,
    handed: Seq<Record>,
    workers: Seq<ChunkWorker>,
    k: int,
    piece: Record,
    content_len: u64,
    chunk_size: nat,
)
    requires
        pieces_of(records, content_len as nat),
        chunk_size > 0,
        ({
            let ranges = resume_ranges(by_offset(records), content_len as nat, chunk_size);
            &&& under_way(workers, ranges)
            &&& all_received(handed, workers, ranges)
            &&& 0 <= k < workers.len()
            &&& piece.1 == workers[k].next
            &&& piece.1 <= ranges[k].1
            &&& piece.1 + piece.0 <= ranges[k].1 + 1
            &&& piece.1 + piece.0 <= content_len
        }),
    ensures
        !recorded(records + handed, piece.1 as nat),
        forall|b: nat|
            piece.1 <= b < piece.1 + piece.0 ==> !#[trigger] recorded(records + handed, b),
        forall|m: int|
            0 <= m < (records + handed).len() && (#[trigger] (records + handed)[m]).0 == 0 ==> !(
            piece.1 < (records + handed)[m].1 < piece.1 + piece.0),
{
    let ranges = resume_ranges(by_offset(records), content_len as nat, chunk_size);
    let all = records + handed;
    law_resume_requests_what_is_missing(records, content_len, chunk_size);
    assert forall|b: nat|
        piece.1 <= b < piece.1 + piece.0 || b == piece.1 implies !#[trigger] recorded(all, b) by {
        assert(ranges[k].0 <= b <= ranges[k].1);
        assert(requested(ranges, b));
        if recorded(all, b) {
            let m = choose|m: int|
                0 <= m < all.len() && (#[trigger] all[m]).1 <= b < all[m].1 + all[m].0;
            if m < records.len() {
                assert(records[m].1 <= b < records[m].1 + records[m].0);
                assert(recorded(records, b));
            } else {
                let other = handed[m - records.len()];
                let i = choose|i: int| received_by(other, workers, ranges, i);
                assert(all[m] == other);
                assert(workers[i].next <= ranges[i].1 + 1);
                if i < k {
                    assert(ranges[i].1 < ranges[k].0);
                } else if i > k {
                    assert(ranges[k].1 < ranges[i].0);
                }
            }
        }
    }
    assert forall|m: int| 0 <= m < all.len() && (#[trigger] all[m]).0 == 0 implies !(piece.1
        < all[m].1 < piece.1 + piece.0) by {
        if m < records.len() {
            lemma_no_piece_inside_ranges(records, content_len, chunk_size, k, m);
        } else {
            let other = handed[m - records.len()];
            let i = choose|i: int| received_by(other, workers, ranges, i);
            assert(all[m] == other);
            assert(workers[i].next <= ranges[i].1 + 1);
            if i < k {
                assert(ranges[i].1 < ranges[k].0);
            } else if i > k {
                assert(ranges[k].1 < ranges[i].0);
            }
        }
    }
}

proof fn lemma_workers_under_way(
    records: Seq<Record>,
    workers: Seq<ChunkWorker>,
    deliveries: Seq<Delivery>,
    content_len: u64,
    chunk_size: nat,
)
    requires
        pieces_of(records, content_len as nat),
        chunk_size > 0,
        fresh_on(workers, resume_ranges(by_offset(records), content_len as nat, chunk_size)),
        within_ranges(workers, deliveries, content_len as nat),
    ensures
        ({
            let ranges = resume_ranges(by_offset(records), content_len as nat, chunk_size);
            let now = after_deliveries(workers, deliveries);
            let handed = handed_out(workers, deliveries);
            &&& under_way(now, ranges)
            &&& all_received(handed, now, ranges)
            &&& pieces_of(records + handed, content_len as nat)
        }),
    decreases deliveries.len(),
{
    let ranges = resume_ranges(by_offset(records), content_len as nat, chunk_size);
    let now = after_deliveries(workers, deliveries);
    let handed = handed_out(workers, deliveries);
    law_resume_requests_what_is_missing(records, content_len, chunk_size);
    if deliveries.len() == 0 {
        assert(records + handed =~= records);
        assert forall|i: int| 0 <= i < now.len() implies (#[trigger] now[i]).next <= ranges[i].1
            + 1 by {
            assert(ranges[i].0 <= ranges[i].1);
        }
    } else {
        let front = deliveries.drop_last();
        lemma_workers_under_way(records, workers, front, content_len, chunk_size);
        let before = after_deliveries(workers, front);
        let so_far = handed_out(workers, front);
        assert forall|i: int| 0 <= i < now.len() implies {
            &&& (#[trigger] now[i]).first >= ranges[i].0
            &&& now[i].last == ranges[i].1
            &&& now[i].next == now[i].first + now[i].received
            &&& now[i].next <= ranges[i].1 + 1
            &&& now[i].next >= before[i].next
        } by {
            assert(before[i].first >= ranges[i].0);
        }
        match deliveries.last() {
            Delivery::Portion { worker, byte_count } => {
                let piece = (byte_count, before[worker].next);
                assert(before[worker].last == ranges[worker].1);
                lemma_next_piece_is_missing(
                    records,
                    so_far,
                    before,
                    worker,
                    piece,
                    content_len,
                    chunk_size,
                );
                law_recording_a_missing_piece_keeps_pieces(
                    records + so_far,
                    piece,
                    content_len as nat,
                );
                assert(records + handed =~= (records + so_far).push(piece));
                assert forall|m: int| 0 <= m < handed.len() implies has_receiver(
                    #[trigger] handed[m],
                    now,
                    ranges,
                ) by {
                    if m < so_far.len() {
                        assert(has_receiver(so_far[m], before, ranges));
                        let i = choose|i: int| received_by(so_far[m], before, ranges, i);
                        assert(received_by(handed[m], now, ranges, i));
                    } else {
                        assert(received_by(handed[m], now, ranges, worker));
                    }
                }
            },
            Delivery::Restart { worker } => {
                assert forall|m: int| 0 <= m < handed.len() implies has_receiver(
                    #[trigger] handed[m],
                    now,
                    ranges,
                ) by {
                    assert(has_receiver(so_far[m], before, ranges));
                    let i = choose|i: int| received_by(so_far[m], before, ranges, i);
                    assert(received_by(handed[m], now, ranges, i));
                }
            },
        }
    }
}

/// The workers on the ranges of one plan never get in each other's way: in whatever order the
/// bytes arrive, whatever the sizes of the portions, and however often a worker is replaced,
/// the pieces that they hand out make, together with what was recorded before, pieces of the
/// file, as long as no worker gets more than its range and the file hold.
pub proof fn law_workers_hand_out_pieces_of_the_file(
    records: Seq<Record>,
    workers: Seq<ChunkWorker>,
    deliveries: Seq<Delivery>,
    content_len: u64,
    chunk_size: nat,
)
    requires
        pieces_of(records, content_len as nat),
        chunk_size > 0,
        fresh_on(workers, resume_ranges(by_offset(records), content_len as nat, chunk_size)),
        within_ranges(workers, deliveries, content_len as nat),
    ensures
        pieces_of(records + handed_out(workers, deliveries), content_len as nat),
{
    lemma_workers_under_way(records, workers, deliveries, content_len, chunk_size);
}

/// A worker is done exactly where the next bytes would belong behind the end of its range.
pub proof fn law_worker_is_done_behind_its_range(worker: ChunkWorker)
    requires
        worker.valid(),
    ensures
        worker.received >= worker.length() <==> worker.next > worker.last,
        worker.length() == worker.last + 1 - worker.first,
{
}

/// Bytes that arrive move a worker on by as many, and change neither end of its range.
pub proof fn law_portion_moves_the_worker_on(worker: ChunkWorker, byte_count: u64)
    requires
        worker.valid(),
        worker.next + byte_count <= u64::MAX,
    ensures
        after_portion(worker, byte_count).valid(),
        after_portion(worker, byte_count).next == worker.next + byte_count,
        after_portion(worker, byte_count).received == worker.received + byte_count,
        after_portion(worker, byte_count).first == worker.first,
        after_portion(worker, byte_count).last == worker.last,
{
}

/// A range is requested by its two ends: behind the unit, the number before the hyphen is its first
/// byte, and the number behind it is its last.
pub proof fn law_requested_range_is_read_back(first: u64, last: u64)
    ensures
        range_value(first as nat, last as nat) == "bytes="@ + ascii_text(
            digits(first as nat) + seq![45u8] + digits(last as nat),
        ),
        number(digits(first as nat), u64::MAX as nat) == Ok::<nat, NumberError>(first as nat),
        number(digits(last as nat), u64::MAX as nat) == Ok::<nat, NumberError>(last as nat),
        before(digits(first as nat) + seq![45u8] + digits(last as nat), 45u8) == digits(
            first as nat,
        ),
        after(digits(first as nat) + seq![45u8] + digits(last as nat), 45u8) == digits(last as nat),
{
    let a = digits(first as nat);
    let b = digits(last as nat);
    reveal_strlit("-");
    law_written_number_is_read_back(first as nat, u64::MAX as nat);
    law_written_number_is_read_back(last as nat, u64::MAX as nat);
    lemma_digits(first as nat);
    assert(!a.contains(45u8)) by {
        assert forall|i: int| 0 <= i < a.len() implies a[i] != 45u8 by {
            assert(is_digit(a[i]));
        }
    }
    law_first_separator_divides(a, 45u8, b);
    assert(a + seq![45u8] + b =~= a.push(45u8) + b);
    assert("bytes="@ + ascii_text(a) + "-"@ + ascii_text(b) =~= "bytes="@ + ascii_text(
        a + seq![45u8] + b,
    ));
}

/// The headers of a request for a range are those that were there, with the range, every kind of
/// content accepted and the connection kept open.
pub proof fn law_range_headers_are_added(
    fields: Map<Seq<char>, Seq<Seq<u8>>>,
    range: ByteRange,
    name: Seq<char>,
)
    ensures
        ({
            let now = with_connection(with_accept(with_range(fields, range)));
            &&& now.contains_key("range"@) && now["range"@] == seq![
                encode_utf8(range_value(range.0 as nat, range.1 as nat)),
            ]
            &&& now.contains_key("accept"@) && now["accept"@] == seq![encode_utf8("*/*"@)]
            &&& now.contains_key("connection"@) && now["connection"@] == seq![
                encode_utf8("keep-alive"@),
            ]
            &&& name != "range"@ && name != "accept"@ && name != "connection"@ ==> (
            now.contains_key(name) == fields.contains_key(name) && (fields.contains_key(name)
                ==> now[name] == fields[name]))
        }),
{
    reveal_strlit("range");
    reveal_strlit("accept");
    reveal_strlit("connection");
    assert("range"@.len() != "accept"@.len());
    assert("range"@.len() != "connection"@.len());
    assert("accept"@.len() != "connection"@.len());
}

} // verus!
