//! Which byte ranges of the file to request.
use crate::order::{
    by_offset, law_order_is_ascending_and_stable, law_order_of_recording_does_not_matter,
    lemma_place, lemma_same_members, sort_by_offset,
};
use crate::status::{total_bytes, Record};
use vstd::prelude::*;
use vstd::set_lib::{
    lemma_int_range, lemma_set_disjoint_lens, lemma_subset_equality, set_int_range,
};

verus! {

/// A range of bytes to request: its first and its last byte.
pub type ByteRange = (u64, u64);

/// The ranges with their bounds as natural numbers.
pub open spec fn as_nats(ranges: Seq<ByteRange>) -> Seq<(nat, nat)> {
    ranges.map_values(|r: ByteRange| (r.0 as nat, r.1 as nat))
}

/// The file cut into ranges of `chunk_size` bytes, the rest going to the last one. The last
/// range runs up to the length of the file; a file shorter than a chunk is a single range.
pub open spec fn chunk_ranges(content_len: nat, chunk_size: nat) -> Seq<(nat, nat)> {
    let n = content_len / chunk_size;
    if n == 0 {
        seq![(0, content_len)]
    } else {
        Seq::new(
            n,
            |i: int|
                (
                    (i * chunk_size) as nat,
                    if i == n - 1 {
                        content_len
                    } else {
                        ((i + 1) * chunk_size - 1) as nat
                    },
                ),
        )
    }
}

/// Where the last of the records ends.
pub open spec fn end_of(records: Seq<Record>) -> nat {
    if records.len() == 0 {
        0
    } else {
        records.last().1 as nat + records.last().0 as nat
    }
}

/// The ranges that each record leaves between its own start and the end of the one before it.
pub open spec fn gaps(records: Seq<Record>) -> Seq<(nat, nat)>
    decreases records.len(),
{
    if records.len() == 0 {
        Seq::empty()
    } else {
        let front = records.drop_last();
        let start = records.last().1 as nat;
        if end_of(front) == start {
            gaps(front)
        } else {
            gaps(front).push((end_of(front), (start - 1) as nat))
        }
    }
}

/// What is left from `at` on, in ranges of `chunk_size` bytes; the last one runs up to
/// `content_len`.
pub open spec fn tail_ranges(at: nat, content_len: nat, chunk_size: nat) -> Seq<(nat, nat)>
    decreases content_len - at,
{
    if chunk_size > 0 && content_len > at + chunk_size {
        seq![(at, (at + chunk_size - 1) as nat)] + tail_ranges(
            at + chunk_size,
            content_len,
            chunk_size,
        )
    } else {
        seq![(at, content_len)]
    }
}

/// The ranges that are still to be requested, given what is recorded in order of offset.
pub open spec fn resume_ranges(
    records: Seq<Record>,
    content_len: nat,
    chunk_size: nat,
) -> Seq<(nat, nat)> {
    gaps(records) + tail_ranges(end_of(records), content_len, chunk_size)
}

/// The records, in order of offset, leave ranges that 64-bit numbers can express: every
/// record ends within 64 bits, one that does not follow directly on the record before it
/// does not begin at zero, the last one ends within the file, and a rest of the file is cut
/// by a chunk size that is not zero.
pub open spec fn plannable(records: Seq<Record>, content_len: nat, chunk_size: nat) -> bool {
    &&& forall|k: int|
        0 <= k < records.len() ==> {
            &&& (#[trigger] records[k]).0 + records[k].1 <= u64::MAX
            &&& end_of(records.take(k)) == records[k].1 || records[k].1 > 0
        }
    &&& end_of(records) <= content_len
    &&& chunk_size > 0 || end_of(records) == content_len
}

/// Cuts a file of `content_len` bytes into ranges.
pub fn chunk_offsets(content_len: u64, chunk_size: u64) -> (r: Vec<ByteRange>)
    requires
        chunk_size > 0,
    ensures
        as_nats(r@) == chunk_ranges(content_len as nat, chunk_size as nat),
{
    let n: u64 = content_len / chunk_size;
    let mut r: Vec<ByteRange> = Vec::new();
    let ghost all = chunk_ranges(content_len as nat, chunk_size as nat);
    let mut i: u64 = 0;
    while i < n
        invariant
            i <= n,
            chunk_size > 0,
            n == content_len / chunk_size,
            all == chunk_ranges(content_len as nat, chunk_size as nat),
            n > 0 ==> as_nats(r@) == all.take(i as int),
            n == 0 ==> r@.len() == 0,
        decreases n - i,
    {
        proof {
            assert((i + 1) * chunk_size <= n * chunk_size) by (nonlinear_arith)
                requires
                    i + 1 <= n,
                    chunk_size > 0,
            ;
            assert(n * chunk_size <= content_len) by (nonlinear_arith)
                requires
                    n == content_len / chunk_size,
                    chunk_size > 0,
            ;
            assert(i * chunk_size + chunk_size == (i + 1) * chunk_size) by (nonlinear_arith);
            assert(0 <= i * chunk_size) by (nonlinear_arith);
        }
        let bound: u64 = if i == n - 1 {
            content_len
        } else {
            (i + 1) * chunk_size - 1
        };
        let ghost before = r@;
        r.push((i * chunk_size, bound));
        assert(as_nats(r@) =~= as_nats(before).push(
            ((i * chunk_size) as nat, bound as nat),
        ));
        assert(all.take(i + 1) =~= all.take(i as int).push(all[i as int]));
        i += 1;
    }
    if r.len() == 0 {
        r.push((0, content_len));
        assert(as_nats(r@) =~= seq![(0nat, content_len as nat)]);
    } else {
        assert(all.take(n as int) =~= all);
    }
    r
}

/// Plans what is still to be requested of a file of `content_len` bytes, given the recorded
/// pieces in any order. `None` where the recorded pieces are not plannable.
pub fn plan_resume(records: &[Record], content_len: u64, chunk_size: u64) -> (r: Option<
    Vec<ByteRange>,
>)
    ensures
        r is Some <==> plannable(by_offset(records@), content_len as nat, chunk_size as nat),
        r matches Some(ranges) ==> as_nats(ranges@) == resume_ranges(
            by_offset(records@),
            content_len as nat,
            chunk_size as nat,
        ),
{
    let ordered = sort_by_offset(records);
    let ghost recs = by_offset(records@);
    let mut ranges: Vec<ByteRange> = Vec::new();
    let mut at: u64 = 0;
    let mut k: usize = 0;
    assert(as_nats(ranges@) =~= gaps(recs.take(0)));
    while k < ordered.len()
        invariant
            k <= ordered@.len(),
            ordered@ == recs,
            recs == by_offset(records@),
            at == end_of(recs.take(k as int)),
            as_nats(ranges@) == gaps(recs.take(k as int)),
            forall|j: int|
                0 <= j < k ==> {
                    &&& (#[trigger] recs[j]).0 + recs[j].1 <= u64::MAX
                    &&& end_of(recs.take(j)) == recs[j].1 || recs[j].1 > 0
                },
        decreases ordered@.len() - k,
    {
        let (byte_count, offset) = ordered[k];
        let ghost front = recs.take(k as int);
        assert(recs.take(k + 1).drop_last() =~= front);
        assert(recs[k as int] == (byte_count, offset));
        if byte_count > u64::MAX - offset {
            assert(!plannable(recs, content_len as nat, chunk_size as nat));
            return None;
        }
        if at != offset {
            if offset == 0 {
                assert(!plannable(recs, content_len as nat, chunk_size as nat));
                return None;
            }
            let ghost before = ranges@;
            ranges.push((at, offset - 1));
            assert(as_nats(ranges@) =~= as_nats(before).push((at as nat, (offset - 1) as nat)));
        }
        at = offset + byte_count;
        k += 1;
    }
    assert(recs.take(k as int) =~= recs);
    if at > content_len || (chunk_size == 0 && at != content_len) {
        return None;
    }
    let ghost found = gaps(recs);
    let ghost total = content_len as nat;
    let ghost size = chunk_size as nat;
    while content_len - at > chunk_size
        invariant
            at <= content_len,
            chunk_size > 0 || at == content_len,
            total == content_len as nat,
            size == chunk_size as nat,
            found + tail_ranges(end_of(recs), total, size) == as_nats(ranges@) + tail_ranges(
                at as nat,
                total,
                size,
            ),
        decreases content_len - at,
    {
        let ghost before = ranges@;
        let ghost at0 = at as nat;
        ranges.push((at, at + chunk_size - 1));
        at += chunk_size;
        let ghost piece = (at0, (at0 + size - 1) as nat);
        assert(as_nats(ranges@) =~= as_nats(before).push(piece));
        assert(as_nats(before) + (seq![piece] + tail_ranges(at as nat, total, size)) =~= as_nats(
            ranges@,
        ) + tail_ranges(at as nat, total, size));
    }
    let ghost before = ranges@;
    ranges.push((at, content_len));
    assert(as_nats(ranges@) =~= as_nats(before) + seq![(at as nat, total)]);
    Some(ranges)
}

/// Byte `b` of the file is in one of the recorded pieces.
pub open spec fn recorded(records: Seq<Record>, b: nat) -> bool {
    exists|i: int|
        0 <= i < records.len() && (#[trigger] records[i]).1 <= b < records[i].1 + records[i].0
}

/// Byte `b` of the file is in one of the ranges.
pub open spec fn requested(ranges: Seq<(nat, nat)>, b: nat) -> bool {
    exists|i: int| 0 <= i < ranges.len() && (#[trigger] ranges[i]).0 <= b <= ranges[i].1
}

/// Every range runs forward, and each begins behind the end of those before it.
pub open spec fn separate(ranges: Seq<(nat, nat)>) -> bool {
    &&& forall|i: int| 0 <= i < ranges.len() ==> (#[trigger] ranges[i]).0 <= ranges[i].1
    &&& forall|i: int, j: int|
        0 <= i < j < ranges.len() ==> (#[trigger] ranges[i]).1 < (#[trigger] ranges[j]).0
}

/// The records are pieces of one download: each lies within the file, and no two of them
/// overlap. An empty piece lies inside no other one, and it was recorded before any that begins
/// at its offset and is not empty.
pub open spec fn pieces_of(records: Seq<Record>, content_len: nat) -> bool {
    &&& forall|i: int|
        0 <= i < records.len() ==> (#[trigger] records[i]).1 + records[i].0 <= content_len
    &&& forall|i: int, j: int|
        0 <= i < j < records.len() ==> in_line(#[trigger] records[i], #[trigger] records[j])
}

/// Of two pieces, one begins where the other ends or later. Where both begin at the same offset,
/// it is the one recorded first that is empty.
pub open spec fn in_line(earlier: Record, later: Record) -> bool {
    ||| earlier.1 + earlier.0 <= later.1
    ||| later.1 + later.0 <= earlier.1 && later.1 < earlier.1
}

/// Two pieces do not overlap, and neither lies, being empty, inside the other.
pub open spec fn apart(a: Record, b: Record) -> bool {
    a.1 + a.0 <= b.1 || b.1 + b.0 <= a.1
}

/// Each record begins where those before it end, or later.
spec fn chained(records: Seq<Record>) -> bool {
    forall|i: int, j: int|
        0 <= i < j < records.len() ==> (#[trigger] records[i]).1 + records[i].0 <= (
        #[trigger] records[j]).1
}

/// Ordering the pieces of a download by offset puts them one behind the other.
proof fn lemma_ordered_pieces(records: Seq<Record>, content_len: nat)
    requires
        pieces_of(records, content_len),
    ensures
        chained(by_offset(records)),
        end_of(by_offset(records)) <= content_len,
        forall|k: int|
            0 <= k < by_offset(records).len() ==> (#[trigger] by_offset(records)[k]).1 + by_offset(
                records,
            )[k].0 <= content_len,
    decreases records.len(),
{
    let s = by_offset(records);
    lemma_same_members(records);
    assert forall|k: int| 0 <= k < s.len() implies (#[trigger] s[k]).1 + s[k].0
        <= content_len by {
        assert(records.contains(s[k]));
    }
    if records.len() > 0 {
        let front = records.drop_last();
        let piece = records.last();
        lemma_pieces_front(records, content_len);
        lemma_ordered_pieces(front, content_len);
        lemma_same_members(front);
        let inner = by_offset(front);
        law_order_is_ascending_and_stable(front);
        let at = lemma_place(inner, piece);
        assert forall|k: int| 0 <= k < inner.len() implies in_line(#[trigger] inner[k], piece) by {
            assert(front.contains(inner[k]));
            let i = choose|i: int| 0 <= i < front.len() && front[i] == inner[k];
            assert(in_line(records[i], records[records.len() - 1]));
        }
        assert forall|i: int, j: int| 0 <= i < j < s.len() implies (#[trigger] s[i]).1 + s[i].0 <= (
        #[trigger] s[j]).1 by {
            if j < at {
                assert(inner[i].1 + inner[i].0 <= inner[j].1);
            } else if j == at {
                assert(in_line(inner[i], piece));
            } else if i == at {
                assert(in_line(inner[j - 1], piece));
            } else if i < at {
                assert(inner[i].1 + inner[i].0 <= inner[j - 1].1);
            } else {
                assert(inner[i - 1].1 + inner[i - 1].0 <= inner[j - 1].1);
            }
        }
        assert(s[s.len() - 1].1 + s[s.len() - 1].0 <= content_len);
    }
}

/// Without the last of them, the pieces of a download are still pieces of it.
pub proof fn lemma_pieces_front(records: Seq<Record>, content_len: nat)
    requires
        pieces_of(records, content_len),
        records.len() > 0,
    ensures
        pieces_of(records.drop_last(), content_len),
{
    let front = records.drop_last();
    assert forall|i: int| 0 <= i < front.len() implies (#[trigger] front[i]).1 + front[i].0
        <= content_len by {
        assert(front[i] == records[i]);
    }
    assert forall|i: int, j: int| 0 <= i < j < front.len() implies in_line(
        #[trigger] front[i],
        #[trigger] front[j],
    ) by {
        assert(in_line(records[i], records[j]));
    }
}

/// Ordering records by offset does not change which bytes are recorded.
proof fn lemma_ordered_bytes(records: Seq<Record>, b: nat)
    ensures
        recorded(by_offset(records), b) <==> recorded(records, b),
{
    let s = by_offset(records);
    lemma_same_members(records);
    if recorded(s, b) {
        let i = choose|i: int| 0 <= i < s.len() && (#[trigger] s[i]).1 <= b < s[i].1 + s[i].0;
        assert(records.contains(s[i]));
        let j = choose|j: int| 0 <= j < records.len() && records[j] == s[i];
        assert(records[j].1 <= b < records[j].1 + records[j].0);
    }
    if recorded(records, b) {
        let i = choose|i: int|
            0 <= i < records.len() && (#[trigger] records[i]).1 <= b < records[i].1 + records[i].0;
        assert(s.contains(records[i]));
        let j = choose|j: int| 0 <= j < s.len() && s[j] == records[i];
        assert(s[j].1 <= b < s[j].1 + s[j].0);
    }
}

proof fn lemma_chained_front(records: Seq<Record>)
    requires
        chained(records),
        records.len() > 0,
    ensures
        chained(records.drop_last()),
        end_of(records.drop_last()) <= records.last().1,
{
    let front = records.drop_last();
    assert forall|i: int, j: int| 0 <= i < j < front.len() implies (#[trigger] front[i]).1
        + front[i].0 <= (#[trigger] front[j]).1 by {
        assert(records[i].1 + records[i].0 <= records[j].1);
    }
    if front.len() > 0 {
        let n = records.len();
        assert(records[n - 2].1 + records[n - 2].0 <= records[n - 1].1);
    }
}

/// A byte is recorded by the last of the records or by one before it.
pub proof fn lemma_recorded_last(records: Seq<Record>, b: nat)
    requires
        records.len() > 0,
    ensures
        recorded(records, b) <==> recorded(records.drop_last(), b) || (records.last().1 <= b
            < records.last().1 + records.last().0),
{
    let front = records.drop_last();
    let last = records.last();
    if recorded(records, b) {
        let i = choose|i: int|
            0 <= i < records.len() && (#[trigger] records[i]).1 <= b < records[i].1 + records[i].0;
        if i < front.len() {
            assert(front[i].1 <= b < front[i].1 + front[i].0);
        }
    }
    if recorded(front, b) {
        let i = choose|i: int|
            0 <= i < front.len() && (#[trigger] front[i]).1 <= b < front[i].1 + front[i].0;
        assert(records[i].1 <= b < records[i].1 + records[i].0);
    }
    if last.1 <= b < last.1 + last.0 {
        assert(records[records.len() - 1].1 <= b);
    }
}

proof fn lemma_requested_push(ranges: Seq<(nat, nat)>, range: (nat, nat), b: nat)
    ensures
        requested(ranges.push(range), b) <==> requested(ranges, b) || range.0 <= b <= range.1,
{
    let all = ranges.push(range);
    if requested(all, b) {
        let i = choose|i: int| 0 <= i < all.len() && (#[trigger] all[i]).0 <= b <= all[i].1;
        if i < ranges.len() {
            assert(ranges[i].0 <= b <= ranges[i].1);
        }
    }
    if requested(ranges, b) {
        let i = choose|i: int|
            0 <= i < ranges.len() && (#[trigger] ranges[i]).0 <= b <= ranges[i].1;
        assert(all[i].0 <= b <= all[i].1);
    }
    if range.0 <= b <= range.1 {
        assert(all[ranges.len() as int].0 <= b <= all[ranges.len() as int].1);
    }
}

proof fn lemma_separate_push(ranges: Seq<(nat, nat)>, range: (nat, nat), bound: nat)
    requires
        separate(ranges),
        forall|i: int| 0 <= i < ranges.len() ==> (#[trigger] ranges[i]).1 < bound,
        bound <= range.0 <= range.1,
    ensures
        separate(ranges.push(range)),
        forall|i: int|
            0 <= i < ranges.push(range).len() ==> (#[trigger] ranges.push(range)[i]).1 <= range.1,
{
    let all = ranges.push(range);
    assert forall|i: int, j: int| 0 <= i < j < all.len() implies (#[trigger] all[i]).1 < (
    #[trigger] all[j]).0 by {
        if j < ranges.len() {
            assert(ranges[i].1 < ranges[j].0);
        } else {
            assert(ranges[i].1 < bound);
        }
    }
    assert forall|i: int| 0 <= i < all.len() implies (#[trigger] all[i]).0 <= all[i].1 && all[i].1
        <= range.1 by {
        if i < ranges.len() {
            assert(ranges[i].0 <= ranges[i].1 && ranges[i].1 < bound);
        }
    }
}

/// `found` separates into ranges below `end` exactly what `records` leaves there.
spec fn complement(records: Seq<Record>, found: Seq<(nat, nat)>, end: nat) -> bool {
    &&& separate(found)
    &&& forall|i: int| 0 <= i < found.len() ==> (#[trigger] found[i]).1 < end
    &&& forall|b: nat| #[trigger] recorded(records, b) ==> b < end
    &&& forall|b: nat| b < end ==> (#[trigger] requested(found, b) <==> !recorded(records, b))
}

/// Below the end of the last record, the gaps are what is not recorded.
proof fn lemma_gaps_complement(records: Seq<Record>)
    requires
        chained(records),
    ensures
        complement(records, gaps(records), end_of(records)),
    decreases records.len(),
{
    if records.len() > 0 {
        let front = records.drop_last();
        lemma_chained_front(records);
        lemma_gaps_complement(front);
        lemma_complement_step(records, gaps(front), gaps(records));
    }
}

proof fn lemma_complement_step(
    records: Seq<Record>,
    inner: Seq<(nat, nat)>,
    all: Seq<(nat, nat)>,
)
    requires
        records.len() > 0,
        complement(records.drop_last(), inner, end_of(records.drop_last())),
        end_of(records.drop_last()) <= records.last().1,
        all == (if end_of(records.drop_last()) == records.last().1 {
            inner
        } else {
            inner.push((end_of(records.drop_last()), (records.last().1 - 1) as nat))
        }),
    ensures
        complement(records, all, end_of(records)),
{
    let front = records.drop_last();
    let last = records.last();
    let e = end_of(front);
    let range = (e, (last.1 - 1) as nat);
    if e < last.1 {
        lemma_separate_push(inner, range, e);
    }
    assert forall|b: nat| #[trigger] recorded(records, b) implies b < end_of(records) by {
        lemma_recorded_last(records, b);
        if recorded(front, b) {
            assert(b < e);
        }
    }
    assert forall|b: nat| b < end_of(records) implies (#[trigger] requested(all, b) <==> !recorded(
        records,
        b,
    )) by {
        lemma_recorded_last(records, b);
        if e < last.1 {
            lemma_requested_push(inner, range, b);
        }
        if b < e {
            assert(requested(inner, b) <==> !recorded(front, b));
        } else {
            assert(!recorded(front, b));
            if requested(inner, b) {
                let i = choose|i: int|
                    0 <= i < inner.len() && (#[trigger] inner[i]).0 <= b <= inner[i].1;
                assert(inner[i].1 < e);
            }
        }
    }
    assert forall|i: int| 0 <= i < all.len() implies (#[trigger] all[i]).1 < end_of(records) by {
        if i < inner.len() {
            assert(all[i] == inner[i]);
            assert(inner[i].1 < e);
        }
    }
}

/// From `at` on, the tail ranges hold every byte up to the length of the file.
proof fn lemma_tail_ranges(at: nat, content_len: nat, chunk_size: nat)
    requires
        at <= content_len,
        chunk_size > 0,
    ensures
        separate(tail_ranges(at, content_len, chunk_size)),
        forall|i: int|
            0 <= i < tail_ranges(at, content_len, chunk_size).len() ==> at <= (
            #[trigger] tail_ranges(at, content_len, chunk_size)[i]).0,
        forall|b: nat|
            #[trigger] requested(tail_ranges(at, content_len, chunk_size), b) <==> at <= b
                <= content_len,
    decreases content_len - at,
{
    let all = tail_ranges(at, content_len, chunk_size);
    if content_len > at + chunk_size {
        let next = at + chunk_size;
        lemma_tail_ranges(next, content_len, chunk_size);
        let rest = tail_ranges(next, content_len, chunk_size);
        let first = (at, (at + chunk_size - 1) as nat);
        assert(all =~= seq![first] + rest);
        assert forall|i: int, j: int| 0 <= i < j < all.len() implies (#[trigger] all[i]).1 < (
        #[trigger] all[j]).0 by {
            assert(all[j] == rest[j - 1]);
            if i > 0 {
                assert(all[i] == rest[i - 1]);
            }
        }
        assert forall|i: int| 0 <= i < all.len() implies (#[trigger] all[i]).0 <= all[i].1 && at
            <= all[i].0 by {
            if i > 0 {
                assert(all[i] == rest[i - 1]);
            }
        }
        assert forall|b: nat| #[trigger] requested(all, b) <==> at <= b <= content_len by {
            if requested(all, b) {
                let i = choose|i: int|
                    0 <= i < all.len() && (#[trigger] all[i]).0 <= b <= all[i].1;
                if i > 0 {
                    assert(rest[i - 1].0 <= b <= rest[i - 1].1);
                    assert(requested(rest, b));
                }
            }
            if at <= b < next {
                assert(all[0].0 <= b <= all[0].1);
            }
            if next <= b <= content_len {
                assert(requested(rest, b));
                let i = choose|i: int|
                    0 <= i < rest.len() && (#[trigger] rest[i]).0 <= b <= rest[i].1;
                assert(all[i + 1].0 <= b <= all[i + 1].1);
            }
        }
    } else {
        assert forall|b: nat| #[trigger] requested(all, b) <==> at <= b <= content_len by {
            if at <= b <= content_len {
                assert(all[0].0 <= b <= all[0].1);
            }
        }
    }
}

/// Resuming a download requests what is missing and nothing else: for recorded pieces of
/// the download, the resumed ranges hold exactly those bytes of the file that no recorded
/// piece holds, and each of them once. Such pieces can always be resumed from.
pub proof fn law_resume_requests_what_is_missing(
    records: Seq<Record>,
    content_len: u64,
    chunk_size: nat,
)
    requires
        pieces_of(records, content_len as nat),
        chunk_size > 0,
    ensures
        plannable(by_offset(records), content_len as nat, chunk_size),
        separate(resume_ranges(by_offset(records), content_len as nat, chunk_size)),
        forall|b: nat|
            b < content_len ==> (#[trigger] requested(
                resume_ranges(by_offset(records), content_len as nat, chunk_size),
                b,
            ) <==> !recorded(records, b)),
{
    let s = by_offset(records);
    let total = content_len as nat;
    lemma_ordered_pieces(records, total);
    assert forall|k: int| 0 <= k < s.len() implies end_of(s.take(k)) <= (#[trigger] s[k]).1 by {
        if k > 0 {
            assert(s.take(k).last() == s[k - 1]);
            assert(s[k - 1].1 + s[k - 1].0 <= s[k].1);
        }
    }
    lemma_gaps_complement(s);
    lemma_tail_ranges(end_of(s), total, chunk_size);
    let front = gaps(s);
    let back = tail_ranges(end_of(s), total, chunk_size);
    let all = resume_ranges(s, total, chunk_size);
    assert forall|i: int, j: int| 0 <= i < j < all.len() implies (#[trigger] all[i]).1 < (
    #[trigger] all[j]).0 by {
        if j < front.len() {
            assert(front[i].1 < front[j].0);
        } else if i < front.len() {
            assert(front[i].1 < end_of(s));
            assert(end_of(s) <= back[j - front.len()].0);
        } else {
            assert(back[i - front.len()].1 < back[j - front.len()].0);
        }
    }
    assert forall|i: int| 0 <= i < all.len() implies (#[trigger] all[i]).0 <= all[i].1 by {
        if i < front.len() {
            assert(front[i].0 <= front[i].1);
        } else {
            assert(back[i - front.len()].0 <= back[i - front.len()].1);
        }
    }
    assert forall|b: nat| b < content_len implies (#[trigger] requested(all, b) <==> !recorded(
        records,
        b,
    )) by {
        lemma_ordered_bytes(records, b);
        if requested(all, b) {
            let i = choose|i: int| 0 <= i < all.len() && (#[trigger] all[i]).0 <= b <= all[i].1;
            if i < front.len() {
                assert(front[i].0 <= b <= front[i].1);
                assert(requested(front, b));
                assert(front[i].1 < end_of(s));
            } else {
                assert(back[i - front.len()].0 <= b <= back[i - front.len()].1);
                assert(requested(back, b));
                if recorded(s, b) {
                    assert(b < end_of(s));
                }
            }
        }
        if !recorded(s, b) {
            if b < end_of(s) {
                assert(requested(front, b));
                let i = choose|i: int|
                    0 <= i < front.len() && (#[trigger] front[i]).0 <= b <= front[i].1;
                assert(all[i].0 <= b <= all[i].1);
            } else {
                assert(requested(back, b));
                let i = choose|i: int|
                    0 <= i < back.len() && (#[trigger] back[i]).0 <= b <= back[i].1;
                assert(all[i + front.len()].0 <= b <= all[i + front.len()].1);
            }
        }
    }
}

/// Recording a piece that was requested keeps the download resumable: a piece that lies within
/// the file, neither holds nor begins at a recorded byte and has no empty piece inside makes,
/// together with what was recorded before, pieces of the same download.
pub proof fn law_recording_a_missing_piece_keeps_pieces(
    records: Seq<Record>,
    piece: Record,
    content_len: nat,
)
    requires
        pieces_of(records, content_len),
        piece.1 + piece.0 <= content_len,
        !recorded(records, piece.1 as nat),
        forall|b: nat| piece.1 <= b < piece.1 + piece.0 ==> !#[trigger] recorded(records, b),
        forall|i: int|
            0 <= i < records.len() && (#[trigger] records[i]).0 == 0 ==> !(piece.1 < records[i].1
                < piece.1 + piece.0),
    ensures
        pieces_of(records.push(piece), content_len),
{
    let all = records.push(piece);
    assert forall|i: int, j: int| 0 <= i < j < all.len() implies in_line(
        #[trigger] all[i],
        #[trigger] all[j],
    ) by {
        if j < records.len() {
            assert(in_line(records[i], records[j]));
        } else if !in_line(all[i], piece) {
            let b = if all[i].1 > piece.1 {
                all[i].1 as nat
            } else {
                piece.1 as nat
            };
            if records[i].0 > 0 {
                assert(records[i].1 <= b < records[i].1 + records[i].0);
                assert(recorded(records, b));
            }
            assert(false);
        }
    }
}

/// Cutting a file into chunks requests every byte of it exactly once; the first range
/// begins at zero, the last one runs up to the length of the file, and every range but the
/// last holds `chunk_size` bytes.
pub proof fn law_chunks_cover_the_file(content_len: nat, chunk_size: nat)
    requires
        chunk_size > 0,
    ensures
        ({
            let ranges = chunk_ranges(content_len, chunk_size);
            &&& ranges.len() == (if content_len < chunk_size {
                1
            } else {
                content_len / chunk_size
            })
            &&& ranges[0].0 == 0
            &&& ranges.last().1 == content_len
            &&& separate(ranges)
            &&& forall|b: nat| b < content_len ==> #[trigger] requested(ranges, b)
            &&& forall|i: int|
                0 <= i < ranges.len() - 1 ==> (#[trigger] ranges[i]).1 - ranges[i].0 + 1
                    == chunk_size
        }),
{
    let ranges = chunk_ranges(content_len, chunk_size);
    let n = content_len / chunk_size;
    assert(n == 0 <==> content_len < chunk_size) by (nonlinear_arith)
        requires
            n == content_len / chunk_size,
            chunk_size > 0,
    ;
    if n == 0 {
        assert forall|b: nat| b < content_len implies #[trigger] requested(ranges, b) by {
            assert(ranges[0].0 <= b <= ranges[0].1);
        }
    } else {
        assert(n * chunk_size <= content_len) by (nonlinear_arith)
            requires
                n == content_len / chunk_size,
                chunk_size > 0,
        ;
        assert(0 * chunk_size == 0);
        assert forall|i: int| 0 <= i < n - 1 implies (#[trigger] ranges[i]).1 - ranges[i].0 + 1
            == chunk_size && ranges[i].0 >= 0 by {
            assert((i + 1) * chunk_size == i * chunk_size + chunk_size) by (nonlinear_arith);
            assert(i * chunk_size >= 0) by (nonlinear_arith)
                requires
                    i >= 0,
            ;
        }
        assert forall|i: int| 0 <= i < ranges.len() implies (#[trigger] ranges[i]).0
            <= ranges[i].1 by {
            if i == n - 1 {
                assert((n - 1) * chunk_size <= n * chunk_size) by (nonlinear_arith);
                assert((n - 1) * chunk_size >= 0) by (nonlinear_arith)
                    requires
                        n >= 1,
                ;
            }
        }
        assert forall|i: int, j: int| 0 <= i < j < ranges.len() implies (#[trigger] ranges[i]).1 < (
        #[trigger] ranges[j]).0 by {
            assert((i + 1) * chunk_size <= j * chunk_size) by (nonlinear_arith)
                requires
                    i + 1 <= j,
            ;
            assert((i + 1) * chunk_size == i * chunk_size + chunk_size) by (nonlinear_arith);
            assert(i * chunk_size >= 0) by (nonlinear_arith)
                requires
                    i >= 0,
            ;
        }
        assert forall|b: nat| b < content_len implies #[trigger] requested(ranges, b) by {
            let q = b / chunk_size;
            let i: int = if q < n - 1 {
                q as int
            } else {
                n - 1
            };
            assert(q * chunk_size <= b < (q + 1) * chunk_size) by (nonlinear_arith)
                requires
                    q == b / chunk_size,
                    chunk_size > 0,
            ;
            assert(i * chunk_size <= q * chunk_size) by (nonlinear_arith)
                requires
                    i <= q || i == q,
                    chunk_size > 0,
                    i <= q,
            ;
            assert(i * chunk_size >= 0) by (nonlinear_arith)
                requires
                    i >= 0,
            ;
            assert(ranges[i].0 <= b <= ranges[i].1);
        }
    }
}

/// No record begins inside one of the gaps, apart from its first byte.
proof fn lemma_no_record_inside_gaps(records: Seq<Record>, i: int, m: int)
    requires
        chained(records),
        0 <= i < gaps(records).len(),
        0 <= m < records.len(),
    ensures
        !(gaps(records)[i].0 < records[m].1 <= gaps(records)[i].1),
    decreases records.len(),
{
    let front = records.drop_last();
    let n = records.len() - 1;
    lemma_chained_front(records);
    lemma_gaps_complement(front);
    if m < n {
        assert(records[m].1 + records[m].0 <= end_of(front)) by {
            if m < n - 1 {
                assert(records[m].1 + records[m].0 <= records[n - 1].1);
            }
        }
    }
    if i < gaps(front).len() {
        assert(gaps(records)[i] == gaps(front)[i]);
        assert(gaps(front)[i].1 < end_of(front));
        if m < n {
            lemma_no_record_inside_gaps(front, i, m);
        }
    }
}

/// No piece of a download begins inside one of the ranges that are still to be requested,
/// apart from its first byte.
pub proof fn lemma_no_piece_inside_ranges(
    records: Seq<Record>,
    content_len: u64,
    chunk_size: nat,
    i: int,
    m: int,
)
    requires
        pieces_of(records, content_len as nat),
        chunk_size > 0,
        0 <= i < resume_ranges(by_offset(records), content_len as nat, chunk_size).len(),
        0 <= m < records.len(),
    ensures
        ({
            let range = resume_ranges(by_offset(records), content_len as nat, chunk_size)[i];
            !(range.0 < records[m].1 <= range.1)
        }),
{
    let s = by_offset(records);
    lemma_ordered_pieces(records, content_len as nat);
    lemma_same_members(records);
    assert(s.contains(records[m]));
    let k = choose|k: int| 0 <= k < s.len() && s[k] == records[m];
    if i < gaps(s).len() {
        lemma_no_record_inside_gaps(s, i, k);
    } else {
        let tail = tail_ranges(end_of(s), content_len as nat, chunk_size);
        lemma_tail_ranges(end_of(s), content_len as nat, chunk_size);
        assert(end_of(s) <= tail[i - gaps(s).len()].0);
        if k < s.len() - 1 {
            assert(s[k].1 + s[k].0 <= s[s.len() - 1].1);
        }
    }
}

/// A piece of a range that is requested fits in with the recorded pieces: none of its bytes
/// is there already.
pub proof fn law_requested_piece_fits_in(
    records: Seq<Record>,
    piece: Record,
    i: int,
    content_len: u64,
    chunk_size: nat,
)
    requires
        pieces_of(records, content_len as nat),
        chunk_size > 0,
        piece.1 + piece.0 <= content_len,
        ({
            let ranges = resume_ranges(by_offset(records), content_len as nat, chunk_size);
            0 <= i < ranges.len() && ranges[i].0 <= piece.1 <= ranges[i].1 && piece.1 + piece.0
                <= ranges[i].1 + 1
        }),
    ensures
        pieces_of(records.push(piece), content_len as nat),
{
    let ranges = resume_ranges(by_offset(records), content_len as nat, chunk_size);
    law_resume_requests_what_is_missing(records, content_len, chunk_size);
    assert forall|b: nat|
        piece.1 <= b < piece.1 + piece.0 || b == piece.1 implies !#[trigger] recorded(
        records,
        b,
    ) by {
        assert(ranges[i].0 <= b <= ranges[i].1);
        assert(requested(ranges, b));
    }
    assert forall|m: int| 0 <= m < records.len() && (#[trigger] records[m]).0 == 0 implies !(
    piece.1 < records[m].1 < piece.1 + piece.0) by {
        lemma_no_piece_inside_ranges(records, content_len, chunk_size, i, m);
    }
    law_recording_a_missing_piece_keeps_pieces(records, piece, content_len as nat);
}

/// A gap lies between the start of some record and the end of the one before it.
proof fn lemma_gap_origin(records: Seq<Record>, i: int) -> (k: int)
    requires
        0 <= i < gaps(records).len(),
    ensures
        0 <= k < records.len(),
        gaps(records)[i] == (end_of(records.take(k)), (records[k].1 - 1) as nat),
        end_of(records.take(k)) != records[k].1,
    decreases records.len(),
{
    let front = records.drop_last();
    let n = records.len() - 1;
    assert(records.take(n) =~= front);
    if i < gaps(front).len() {
        let k = lemma_gap_origin(front, i);
        assert(front.take(k) =~= records.take(k));
        k
    } else {
        n
    }
}

/// The tail ranges hold no byte before `at`.
proof fn lemma_tail_begins(at: nat, content_len: nat, chunk_size: nat, b: nat)
    requires
        requested(tail_ranges(at, content_len, chunk_size), b),
    ensures
        at <= b,
    decreases content_len - at,
{
    let all = tail_ranges(at, content_len, chunk_size);
    let i = choose|i: int| 0 <= i < all.len() && (#[trigger] all[i]).0 <= b <= all[i].1;
    if chunk_size > 0 && content_len > at + chunk_size && i > 0 {
        let rest = tail_ranges(at + chunk_size, content_len, chunk_size);
        assert(all[i] == rest[i - 1]);
        lemma_tail_begins(at + chunk_size, content_len, chunk_size, b);
    }
}

/// `ordered` with `block`, which is apart from every record in it, put where it belongs.
spec fn block_placed(ordered: Seq<Record>, block: Record, at: int) -> bool {
    &&& 0 <= at <= ordered.len()
    &&& block.0 > 0
    &&& forall|k: int| 0 <= k < at ==> (#[trigger] ordered[k]).1 + ordered[k].0 <= block.1
    &&& forall|k: int|
        at <= k < ordered.len() ==> block.1 + block.0 <= (#[trigger] ordered[k]).1
}

spec fn with_block(ordered: Seq<Record>, block: Record, at: int) -> Seq<Record> {
    ordered.take(at).push(block) + ordered.skip(at)
}

proof fn lemma_block_plannable(
    ordered: Seq<Record>,
    block: Record,
    at: int,
    content_len: u64,
    chunk_size: nat,
)
    requires
        block_placed(ordered, block, at),
        plannable(ordered, content_len as nat, chunk_size),
        block.1 + block.0 <= content_len,
    ensures
        plannable(with_block(ordered, block, at), content_len as nat, chunk_size),
{
    let s = with_block(ordered, block, at);
    assert forall|k: int| 0 <= k < s.len() implies {
        &&& (#[trigger] s[k]).0 + s[k].1 <= u64::MAX
        &&& end_of(s.take(k)) == s[k].1 || s[k].1 > 0
    } by {
        if k < at {
            assert(s.take(k) =~= ordered.take(k));
            assert(s[k] == ordered[k]);
        } else if k == at {
            if k > 0 {
                assert(s.take(k).last() == ordered[k - 1]);
            }
        } else {
            assert(s[k] == ordered[k - 1]);
        }
    }
    if at < ordered.len() {
        assert(s.last() == ordered.last());
    } else {
        assert(s.last() == block);
        if ordered.len() > 0 {
            assert(ordered[ordered.len() - 1].1 + ordered[ordered.len() - 1].0 <= block.1);
        }
    }
}

proof fn lemma_block_not_requested(
    ordered: Seq<Record>,
    block: Record,
    at: int,
    content_len: nat,
    chunk_size: nat,
    b: nat,
)
    requires
        block_placed(ordered, block, at),
        plannable(with_block(ordered, block, at), content_len, chunk_size),
        block.1 <= b < block.1 + block.0,
    ensures
        !requested(resume_ranges(with_block(ordered, block, at), content_len, chunk_size), b),
{
    let s = with_block(ordered, block, at);
    let front = gaps(s);
    let back = tail_ranges(end_of(s), content_len, chunk_size);
    let all = resume_ranges(s, content_len, chunk_size);
    if requested(all, b) {
        let i = choose|i: int| 0 <= i < all.len() && (#[trigger] all[i]).0 <= b <= all[i].1;
        if i < front.len() {
            let k = lemma_gap_origin(s, i);
            assert(end_of(s.take(k)) == s[k].1 || s[k].1 > 0);
            if k > 0 {
                assert(s.take(k).last() == s[k - 1]);
            }
            if k < at {
                assert(s[k] == ordered[k]);
            } else if k > at + 1 {
                assert(s[k - 1] == ordered[k - 2]);
            }
        } else {
            assert(all[i] == back[i - front.len()]);
            assert(requested(back, b));
            lemma_tail_begins(end_of(s), content_len, chunk_size, b);
            if at < ordered.len() {
                assert(s.last() == ordered[ordered.len() - 1]);
            }
        }
    }
}

/// A new block, once recorded, is not requested again, whatever the records before it: if they
/// can be resumed from and the block holds at least one byte, lies within the file and is apart
/// from each of them, then they can be resumed from with the block as well, and none of its
/// bytes is requested. The records may overlap each other.
pub proof fn law_new_block_is_not_requested_again(
    records: Seq<Record>,
    block: Record,
    content_len: u64,
    chunk_size: nat,
)
    requires
        plannable(by_offset(records), content_len as nat, chunk_size),
        block.0 > 0,
        block.1 + block.0 <= content_len,
        forall|i: int| 0 <= i < records.len() ==> apart(#[trigger] records[i], block),
    ensures
        plannable(by_offset(records.push(block)), content_len as nat, chunk_size),
        forall|b: nat|
            block.1 <= b < block.1 + block.0 ==> !#[trigger] requested(
                resume_ranges(by_offset(records.push(block)), content_len as nat, chunk_size),
                b,
            ),
{
    let ordered = by_offset(records);
    assert(records.push(block).drop_last() =~= records);
    law_order_is_ascending_and_stable(records);
    lemma_same_members(records);
    let at = lemma_place(ordered, block);
    assert forall|k: int| 0 <= k < ordered.len() implies apart(#[trigger] ordered[k], block) by {
        assert(records.contains(ordered[k]));
    }
    assert(block_placed(ordered, block, at)) by {
        assert forall|k: int| 0 <= k < at implies (#[trigger] ordered[k]).1 + ordered[k].0
            <= block.1 by {
            assert(apart(ordered[k], block));
        }
        assert forall|k: int| at <= k < ordered.len() implies block.1 + block.0 <= (
        #[trigger] ordered[k]).1 by {
            assert(apart(ordered[k], block));
        }
    }
    lemma_block_plannable(ordered, block, at, content_len, chunk_size);
    assert forall|b: nat| block.1 <= b < block.1 + block.0 implies !#[trigger] requested(
        resume_ranges(by_offset(records.push(block)), content_len as nat, chunk_size),
        b,
    ) by {
        lemma_block_not_requested(ordered, block, at, content_len as nat, chunk_size, b);
    }
}

/// It does not matter in what order the pieces of a download, none of them empty, were recorded:
/// the same pieces leave the same ranges and have the same number of bytes.
pub proof fn law_order_of_pieces_does_not_matter(
    records: Seq<Record>,
    others: Seq<Record>,
    content_len: nat,
    chunk_size: nat,
)
    requires
        pieces_of(records, content_len),
        forall|i: int| 0 <= i < records.len() ==> (#[trigger] records[i]).0 > 0,
        records.to_multiset() == others.to_multiset(),
    ensures
        resume_ranges(by_offset(records), content_len, chunk_size) == resume_ranges(
            by_offset(others),
            content_len,
            chunk_size,
        ),
        plannable(by_offset(records), content_len, chunk_size) == plannable(
            by_offset(others),
            content_len,
            chunk_size,
        ),
        total_bytes(records) == total_bytes(others),
{
    assert forall|i: int, j: int| 0 <= i < j < records.len() implies (#[trigger] records[i]).1 != (
    #[trigger] records[j]).1 by {
        assert(in_line(records[i], records[j]));
    }
    law_order_of_recording_does_not_matter(records, others);
}

/// The bytes of the recorded pieces.
spec fn recorded_bytes(records: Seq<Record>) -> Set<int> {
    Set::new(|b: int| 0 <= b && recorded(records, b as nat))
}

proof fn lemma_recorded_bytes(records: Seq<Record>, content_len: nat)
    requires
        pieces_of(records, content_len),
    ensures
        recorded_bytes(records).finite(),
        recorded_bytes(records).len() == total_bytes(records),
        recorded_bytes(records).subset_of(set_int_range(0, content_len as int)),
    decreases records.len(),
{
    let all = recorded_bytes(records);
    lemma_int_range(0, content_len as int);
    if records.len() == 0 {
        assert(all =~= Set::empty());
    } else {
        let front = records.drop_last();
        let last = records.last();
        assert(records[records.len() - 1] == last);
        lemma_pieces_front(records, content_len);
        lemma_recorded_bytes(front, content_len);
        let rest = recorded_bytes(front);
        let piece = set_int_range(last.1 as int, last.1 + last.0);
        lemma_int_range(last.1 as int, last.1 + last.0);
        assert(all =~= rest + piece) by {
            assert forall|b: int| all.contains(b) <==> (rest + piece).contains(b) by {
                if 0 <= b {
                    lemma_recorded_last(records, b as nat);
                }
            }
        }
        assert(rest.disjoint(piece)) by {
            assert forall|b: int| !(rest.contains(b) && piece.contains(b)) by {
                if rest.contains(b) && piece.contains(b) {
                    let i = choose|i: int|
                        0 <= i < front.len() && (#[trigger] front[i]).1 <= b < front[i].1
                            + front[i].0;
                    assert(in_line(records[i], records[records.len() - 1]));
                }
            }
        }
        lemma_set_disjoint_lens(rest, piece);
    }
}

/// Pieces of a file that together have as many bytes as the file leave none of its bytes out.
pub proof fn law_pieces_of_full_length_cover_the_file(records: Seq<Record>, content_len: nat)
    requires
        pieces_of(records, content_len),
        total_bytes(records) == content_len,
    ensures
        forall|b: nat| b < content_len ==> #[trigger] recorded(records, b),
{
    lemma_recorded_bytes(records, content_len);
    lemma_int_range(0, content_len as int);
    lemma_subset_equality(recorded_bytes(records), set_int_range(0, content_len as int));
    assert forall|b: nat| b < content_len implies #[trigger] recorded(records, b) by {
        assert(set_int_range(0, content_len as int).contains(b as int));
        assert(recorded_bytes(records).contains(b as int));
    }
}

/// What is left behind the last piece is cut into chunks: from `at` on, the ranges follow on each
/// other without a gap, each holds `chunk_size` bytes but for the last, which runs up to the
/// length of the file and starts no more than `chunk_size` bytes before it.
pub proof fn law_rest_is_cut_into_chunks(at: nat, content_len: nat, chunk_size: nat)
    requires
        at <= content_len,
        chunk_size > 0,
    ensures
        ({
            let ranges = tail_ranges(at, content_len, chunk_size);
            &&& ranges.len() > 0
            &&& ranges[0].0 == at
            &&& ranges.last().1 == content_len
            &&& content_len - ranges.last().0 <= chunk_size
            &&& ranges.len() > 1 ==> content_len > ranges.last().0
            &&& forall|i: int|
                0 <= i < ranges.len() - 1 ==> (#[trigger] ranges[i]).1 + 1 - ranges[i].0
                    == chunk_size
            &&& forall|i: int|
                0 <= i < ranges.len() - 1 ==> (#[trigger] ranges[i]).1 + 1 == ranges[i + 1].0
        }),
    decreases content_len - at,
{
    let ranges = tail_ranges(at, content_len, chunk_size);
    if content_len > at + chunk_size {
        law_rest_is_cut_into_chunks(at + chunk_size, content_len, chunk_size);
        let rest = tail_ranges(at + chunk_size, content_len, chunk_size);
        assert(ranges =~= seq![(at, (at + chunk_size - 1) as nat)] + rest);
        assert forall|i: int| 0 <= i < ranges.len() - 1 implies (#[trigger] ranges[i]).1 + 1
            - ranges[i].0 == chunk_size && ranges[i].1 + 1 == ranges[i + 1].0 by {
            if i > 0 {
                assert(ranges[i] == rest[i - 1]);
                assert(ranges[i + 1] == rest[i]);
            } else {
                assert(ranges[1] == rest[0]);
            }
        }
    }
}

/// The ranges to request are the gaps, each of which runs from where a record ends, or from the
/// start of the file, up to where the next one begins, and then what is left behind the last
/// record.
pub proof fn law_ranges_are_gaps_and_rest(
    front: Seq<Record>,
    a: Record,
    b: Record,
    content_len: nat,
    chunk_size: nat,
)
    ensures
        resume_ranges(Seq::empty(), content_len, chunk_size) == tail_ranges(
            0,
            content_len,
            chunk_size,
        ),
        a.1 > 0 ==> resume_ranges(seq![a], content_len, chunk_size) == seq![
            (0nat, (a.1 - 1) as nat),
        ] + tail_ranges((a.1 + a.0) as nat, content_len, chunk_size),
        a.1 == 0 ==> resume_ranges(seq![a], content_len, chunk_size) == tail_ranges(
            a.0 as nat,
            content_len,
            chunk_size,
        ),
        gaps(front.push(a).push(b)) == (if a.1 + a.0 == b.1 {
            gaps(front.push(a))
        } else {
            gaps(front.push(a)).push(((a.1 + a.0) as nat, (b.1 - 1) as nat))
        }),
        resume_ranges(front.push(a), content_len, chunk_size) == gaps(front.push(a)) + tail_ranges(
            (a.1 + a.0) as nat,
            content_len,
            chunk_size,
        ),
{
    reveal_with_fuel(gaps, 2);
    let none = Seq::<Record>::empty();
    assert(seq![a].drop_last() =~= none);
    assert(gaps(none) =~= Seq::<(nat, nat)>::empty());
    assert(resume_ranges(none, content_len, chunk_size) =~= tail_ranges(
        0,
        content_len,
        chunk_size,
    ));
    if a.1 == 0 {
        assert(resume_ranges(seq![a], content_len, chunk_size) =~= tail_ranges(
            a.0 as nat,
            content_len,
            chunk_size,
        ));
    } else {
        assert(gaps(seq![a]) =~= seq![(0nat, (a.1 - 1) as nat)]);
    }
    assert(front.push(a).push(b).drop_last() =~= front.push(a));
}

/// Records in order of offset can be resumed from exactly where each ends within 64 bits, none but
/// one that follows directly begins at zero, the last ends within the file, and there is a chunk
/// size to cut what is left: with one more record behind them, the same must hold of it.
pub proof fn law_last_record_must_fit(
    front: Seq<Record>,
    a: Record,
    content_len: nat,
    chunk_size: nat,
)
    ensures
        plannable(Seq::empty(), content_len, chunk_size) <==> chunk_size > 0 || content_len == 0,
        plannable(front.push(a), content_len, chunk_size) <==> {
            &&& a.0 + a.1 <= u64::MAX
            &&& a.1 > 0 || end_of(front) == 0
            &&& a.0 + a.1 <= content_len
            &&& chunk_size > 0 || a.0 + a.1 == content_len
            &&& forall|k: int|
                0 <= k < front.len() ==> {
                    &&& (#[trigger] front[k]).0 + front[k].1 <= u64::MAX
                    &&& end_of(front.take(k)) == front[k].1 || front[k].1 > 0
                }
        },
{
    let all = front.push(a);
    let n = front.len() as int;
    assert(all.take(n) =~= front);
    assert forall|k: int| 0 <= k < n implies all.take(k) == front.take(k) by {
        assert(all.take(k) =~= front.take(k));
    }
    if plannable(all, content_len, chunk_size) {
        assert(all[n] == a);
        assert forall|k: int| 0 <= k < n implies {
            &&& (#[trigger] front[k]).0 + front[k].1 <= u64::MAX
            &&& end_of(front.take(k)) == front[k].1 || front[k].1 > 0
        } by {
            assert(all[k] == front[k]);
        }
    }
    if (forall|k: int|
        0 <= k < n ==> {
            &&& (#[trigger] front[k]).0 + front[k].1 <= u64::MAX
            &&& end_of(front.take(k)) == front[k].1 || front[k].1 > 0
        }) && a.0 + a.1 <= u64::MAX && (a.1 > 0 || end_of(front) == 0) {
        assert forall|k: int| 0 <= k < all.len() implies {
            &&& (#[trigger] all[k]).0 + all[k].1 <= u64::MAX
            &&& end_of(all.take(k)) == all[k].1 || all[k].1 > 0
        } by {
            if k < n {
                assert(all[k] == front[k]);
            }
        }
    }
}

/// Ranges keep their bounds as natural numbers.
pub proof fn law_bounds_stay_the_same(ranges: Seq<ByteRange>, i: int)
    requires
        0 <= i < ranges.len(),
    ensures
        as_nats(ranges).len() == ranges.len(),
        as_nats(ranges)[i].0 == ranges[i].0,
        as_nats(ranges)[i].1 == ranges[i].1,
{
}

/// Records end where the last of them does.
pub proof fn law_records_end_with_the_last(front: Seq<Record>, a: Record)
    ensures
        end_of(front.push(a)) == a.1 + a.0,
        end_of(Seq::empty()) == 0,
{
}

} // verus!
