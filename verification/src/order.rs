//! Recorded pieces in the order of their offsets.
use crate::status::{total_bytes, Record};
use vstd::prelude::*;
use vstd::slice::slice_subrange;

verus! {

/// `record` put behind those of `ordered` that do not begin after it.
pub open spec fn placed(ordered: Seq<Record>, record: Record) -> Seq<Record>
    decreases ordered.len(),
{
    if ordered.len() == 0 || ordered.last().1 <= record.1 {
        ordered.push(record)
    } else {
        placed(ordered.drop_last(), record).push(ordered.last())
    }
}

/// The records by ascending offset; those with the same offset keep their order.
pub open spec fn by_offset(records: Seq<Record>) -> Seq<Record>
    decreases records.len(),
{
    if records.len() == 0 {
        Seq::empty()
    } else {
        placed(by_offset(records.drop_last()), records.last())
    }
}

/// No record begins before an earlier one.
pub open spec fn ascending(records: Seq<Record>) -> bool {
    forall|i: int, j: int| 0 <= i <= j < records.len() ==> records[i].1 <= records[j].1
}

/// The records that begin at `offset`, in their order.
pub open spec fn starting_at(records: Seq<Record>, offset: u64) -> Seq<Record> {
    records.filter(|r: Record| r.1 == offset)
}

/// The two hold the same records, and those that begin at the same offset in the same order.
pub open spec fn same_records(a: Seq<Record>, b: Seq<Record>) -> bool {
    forall|offset: u64| #[trigger] starting_at(a, offset) == starting_at(b, offset)
}

proof fn lemma_starting_push(records: Seq<Record>, record: Record, offset: u64)
    ensures
        starting_at(records.push(record), offset) == (if record.1 == offset {
            starting_at(records, offset).push(record)
        } else {
            starting_at(records, offset)
        }),
{
    reveal(Seq::filter);
    assert(records.push(record).drop_last() =~= records);
}

proof fn lemma_starting_last(records: Seq<Record>, offset: u64)
    requires
        records.len() > 0,
    ensures
        starting_at(records, offset) == (if records.last().1 == offset {
            starting_at(records.drop_last(), offset).push(records.last())
        } else {
            starting_at(records.drop_last(), offset)
        }),
{
    assert(records.drop_last().push(records.last()) =~= records);
    lemma_starting_push(records.drop_last(), records.last(), offset);
}

proof fn lemma_starting_concat(a: Seq<Record>, b: Seq<Record>, offset: u64)
    ensures
        starting_at(a + b, offset) == starting_at(a, offset) + starting_at(b, offset),
    decreases b.len(),
{
    if b.len() == 0 {
        assert(a + b =~= a);
        reveal(Seq::filter);
        assert(starting_at(a, offset) + starting_at(b, offset) =~= starting_at(a, offset));
    } else {
        lemma_starting_concat(a, b.drop_last(), offset);
        lemma_starting_last(b, offset);
        lemma_starting_last(a + b, offset);
        assert((a + b).drop_last() =~= a + b.drop_last());
        assert(starting_at(a + b, offset) =~= starting_at(a, offset) + starting_at(b, offset));
    }
}

proof fn lemma_starting_nonempty(records: Seq<Record>, i: int)
    requires
        0 <= i < records.len(),
    ensures
        starting_at(records, records[i].1).len() > 0,
    decreases records.len(),
{
    lemma_starting_last(records, records[i].1);
    if i < records.len() - 1 {
        lemma_starting_nonempty(records.drop_last(), i);
    }
}

proof fn lemma_starting_witness(records: Seq<Record>, offset: u64) -> (i: int)
    requires
        starting_at(records, offset).len() > 0,
    ensures
        0 <= i < records.len(),
        records[i].1 == offset,
    decreases records.len(),
{
    if records.len() == 0 {
        reveal(Seq::filter);
        0
    } else {
        lemma_starting_last(records, offset);
        if records.last().1 == offset {
            records.len() - 1
        } else {
            lemma_starting_witness(records.drop_last(), offset)
        }
    }
}

/// Ascending records are determined by what begins at each offset.
proof fn lemma_order_is_unique(a: Seq<Record>, b: Seq<Record>)
    requires
        ascending(a),
        ascending(b),
        same_records(a, b),
    ensures
        a == b,
    decreases a.len(),
{
    if a.len() == 0 {
        if b.len() > 0 {
            lemma_starting_nonempty(b, 0);
            assert(starting_at(a, b[0].1) == starting_at(b, b[0].1));
            let i = lemma_starting_witness(a, b[0].1);
        }
        assert(a =~= b);
    } else {
        let x = a.last();
        lemma_starting_nonempty(a, a.len() - 1);
        assert(starting_at(a, x.1) == starting_at(b, x.1));
        let i = lemma_starting_witness(b, x.1);
        let y = b.last();
        assert(b[i].1 <= b[b.len() - 1].1);
        lemma_starting_nonempty(b, b.len() - 1);
        assert(starting_at(a, y.1) == starting_at(b, y.1));
        let j = lemma_starting_witness(a, y.1);
        assert(a[j].1 <= a[a.len() - 1].1);
        lemma_starting_last(a, x.1);
        lemma_starting_last(b, x.1);
        assert(starting_at(a, x.1).last() == x);
        assert(starting_at(b, x.1).last() == y);
        let a0 = a.drop_last();
        let b0 = b.drop_last();
        assert forall|offset: u64| #[trigger]
            starting_at(a0, offset) == starting_at(b0, offset) by {
            assert(starting_at(a, offset) == starting_at(b, offset));
            lemma_starting_last(a, offset);
            lemma_starting_last(b, offset);
            if x.1 == offset {
                assert(starting_at(a0, offset) =~= starting_at(a, offset).drop_last());
                assert(starting_at(b0, offset) =~= starting_at(b, offset).drop_last());
            }
        }
        lemma_order_is_unique(a0, b0);
        assert(a =~= a0.push(x));
        assert(b =~= b0.push(y));
    }
}

proof fn lemma_placed(ordered: Seq<Record>, record: Record)
    requires
        ascending(ordered),
    ensures
        ascending(placed(ordered, record)),
        placed(ordered, record).len() == ordered.len() + 1,
        same_records(placed(ordered, record), ordered.push(record)),
        forall|i: int|
            0 <= i < placed(ordered, record).len() ==> (#[trigger] placed(ordered, record)[i]).1
                <= (if ordered.len() > 0 && ordered.last().1 > record.1 {
                ordered.last().1
            } else {
                record.1
            }),
    decreases ordered.len(),
{
    if ordered.len() == 0 || ordered.last().1 <= record.1 {
        if ordered.len() > 0 {
            assert forall|i: int| 0 <= i < ordered.len() implies (#[trigger] ordered[i]).1
                <= record.1 by {
                assert(ordered[i].1 <= ordered[ordered.len() - 1].1);
            }
        }
    } else {
        let front = ordered.drop_last();
        let last = ordered.last();
        lemma_placed(front, record);
        let inner = placed(front, record);
        assert(front.len() > 0 ==> front.last().1 <= last.1);
        assert forall|offset: u64| #[trigger] starting_at(placed(ordered, record), offset)
            == starting_at(ordered.push(record), offset) by {
            lemma_starting_push(inner, last, offset);
            assert(starting_at(inner, offset) == starting_at(front.push(record), offset));
            lemma_starting_push(front, record, offset);
            lemma_starting_push(ordered, record, offset);
            lemma_starting_last(ordered, offset);
        }
    }
}

/// Where a record is put: behind those that do not begin after it, before those that do.
pub proof fn lemma_place(ordered: Seq<Record>, record: Record) -> (at: int)
    requires
        ascending(ordered),
    ensures
        0 <= at <= ordered.len(),
        placed(ordered, record) == ordered.take(at).push(record) + ordered.skip(at),
        forall|k: int| 0 <= k < at ==> (#[trigger] ordered[k]).1 <= record.1,
        forall|k: int| at <= k < ordered.len() ==> (#[trigger] ordered[k]).1 > record.1,
    decreases ordered.len(),
{
    if ordered.len() == 0 || ordered.last().1 <= record.1 {
        let n = ordered.len() as int;
        assert forall|k: int| 0 <= k < n implies (#[trigger] ordered[k]).1 <= record.1 by {
            assert(ordered[k].1 <= ordered[n - 1].1);
        }
        assert(placed(ordered, record) =~= ordered.take(n).push(record) + ordered.skip(n));
        n
    } else {
        let front = ordered.drop_last();
        let at = lemma_place(front, record);
        assert forall|k: int| 0 <= k < at implies (#[trigger] ordered[k]).1 <= record.1 by {
            assert(front[k].1 <= record.1);
        }
        assert forall|k: int| at <= k < ordered.len() implies (#[trigger] ordered[k]).1
            > record.1 by {
            if k < front.len() {
                assert(front[k].1 > record.1);
            }
        }
        assert(placed(ordered, record) =~= ordered.take(at).push(record) + ordered.skip(at));
        at
    }
}

/// Ordering records by offset neither adds nor loses one.
pub proof fn lemma_same_members(records: Seq<Record>)
    ensures
        forall|k: int|
            0 <= k < by_offset(records).len() ==> records.contains(
                #[trigger] by_offset(records)[k],
            ),
        forall|k: int|
            0 <= k < records.len() ==> by_offset(records).contains(#[trigger] records[k]),
    decreases records.len(),
{
    if records.len() > 0 {
        let front = records.drop_last();
        let inner = by_offset(front);
        let s = by_offset(records);
        lemma_same_members(front);
        law_order_is_ascending_and_stable(front);
        let at = lemma_place(inner, records.last());
        assert forall|k: int| 0 <= k < s.len() implies records.contains(#[trigger] s[k]) by {
            if k == at {
                assert(records[records.len() - 1] == s[k]);
            } else {
                let m = if k < at {
                    k
                } else {
                    k - 1
                };
                assert(inner[m] == s[k]);
                assert(front.contains(inner[m]));
                let j = choose|j: int| 0 <= j < front.len() && front[j] == inner[m];
                assert(records[j] == s[k]);
            }
        }
        assert forall|k: int| 0 <= k < records.len() implies s.contains(#[trigger] records[k]) by {
            if k == records.len() - 1 {
                assert(s[at] == records[k]);
            } else {
                assert(front[k] == records[k]);
                assert(inner.contains(front[k]));
                let m = choose|m: int| 0 <= m < inner.len() && inner[m] == front[k];
                let j = if m < at {
                    m
                } else {
                    m + 1
                };
                assert(s[j] == records[k]);
            }
        }
    }
}

/// Ordering records by offset gives them in ascending order and keeps, for each offset,
/// which records begin there and in what order they were recorded.
pub proof fn law_order_is_ascending_and_stable(records: Seq<Record>)
    ensures
        ascending(by_offset(records)),
        same_records(by_offset(records), records),
        by_offset(records).len() == records.len(),
    decreases records.len(),
{
    if records.len() > 0 {
        let front = records.drop_last();
        law_order_is_ascending_and_stable(front);
        lemma_placed(by_offset(front), records.last());
        assert forall|offset: u64| #[trigger] starting_at(by_offset(records), offset)
            == starting_at(records, offset) by {
            assert(starting_at(by_offset(records), offset) == starting_at(
                by_offset(front).push(records.last()),
                offset,
            ));
            lemma_starting_push(by_offset(front), records.last(), offset);
            assert(starting_at(by_offset(front), offset) == starting_at(front, offset));
            lemma_starting_last(records, offset);
        }
    } else {
        assert(by_offset(records) =~= records);
    }
}

/// Two ascending runs as one; where offsets are equal, `a` comes first.
fn merge(a: &Vec<Record>, b: &Vec<Record>) -> (r: Vec<Record>)
    requires
        ascending(a@),
        ascending(b@),
    ensures
        ascending(r@),
        same_records(r@, a@ + b@),
{
    let mut r: Vec<Record> = Vec::new();
    let mut i: usize = 0;
    let mut j: usize = 0;
    proof {
        assert(a@.take(0) + b@.take(0) =~= r@);
    }
    while i < a.len() || j < b.len()
        invariant
            ascending(a@),
            ascending(b@),
            i <= a@.len(),
            j <= b@.len(),
            ascending(r@),
            forall|k: int|
                0 <= k < r@.len() && i < a@.len() ==> (#[trigger] r@[k]).1 <= a@[i as int].1,
            forall|k: int|
                0 <= k < r@.len() && j < b@.len() ==> (#[trigger] r@[k]).1 <= b@[j as int].1,
            forall|k: int| 0 <= k < j && i < a@.len() ==> (#[trigger] b@[k]).1 < a@[i as int].1,
            same_records(r@, a@.take(i as int) + b@.take(j as int)),
        decreases a@.len() - i + b@.len() - j,
    {
        let ghost r0 = r@;
        let ghost i0 = i;
        let ghost j0 = j;
        let from_a = j == b.len() || (i < a.len() && a[i].1 <= b[j].1);
        if from_a {
            r.push(a[i]);
            i += 1;
        } else {
            r.push(b[j]);
            j += 1;
        }
        proof {
            assert forall|offset: u64| #[trigger] starting_at(r@, offset) == starting_at(
                a@.take(i as int) + b@.take(j as int),
                offset,
            ) by {
                assert(starting_at(r0, offset) == starting_at(
                    a@.take(i0 as int) + b@.take(j0 as int),
                    offset,
                ));
                lemma_starting_push(r0, r@.last(), offset);
                lemma_starting_concat(a@.take(i0 as int), b@.take(j0 as int), offset);
                lemma_starting_concat(a@.take(i as int), b@.take(j as int), offset);
                if from_a {
                    let x = a@[i0 as int];
                    assert(a@.take(i as int) =~= a@.take(i0 as int).push(x));
                    lemma_starting_push(a@.take(i0 as int), x, offset);
                    if x.1 == offset {
                        let behind = starting_at(b@.take(j0 as int), offset);
                        if behind.len() > 0 {
                            let k = lemma_starting_witness(b@.take(j0 as int), offset);
                            assert(b@[k].1 < x.1);
                        }
                        assert(starting_at(a@.take(i0 as int), offset).push(x) + behind
                            =~= (starting_at(a@.take(i0 as int), offset) + behind).push(x));
                    }
                } else {
                    let x = b@[j0 as int];
                    assert(b@.take(j as int) =~= b@.take(j0 as int).push(x));
                    lemma_starting_push(b@.take(j0 as int), x, offset);
                    assert(starting_at(a@.take(i0 as int), offset) + starting_at(
                        b@.take(j0 as int),
                        offset,
                    ).push(x) =~= (starting_at(a@.take(i0 as int), offset) + starting_at(
                        b@.take(j0 as int),
                        offset,
                    )).push(x));
                }
            }
        }
    }
    assert(a@.take(i as int) + b@.take(j as int) =~= a@ + b@);
    r
}

fn sort_slice(records: &[Record]) -> (r: Vec<Record>)
    ensures
        ascending(r@),
        same_records(r@, records@),
    decreases records@.len(),
{
    if records.len() <= 1 {
        let mut r: Vec<Record> = Vec::new();
        if records.len() == 1 {
            r.push(records[0]);
        }
        assert(r@ =~= records@);
        r
    } else {
        let mid: usize = records.len() / 2;
        let front = slice_subrange(records, 0, mid);
        let back = slice_subrange(records, mid, records.len());
        let a = sort_slice(front);
        let b = sort_slice(back);
        let r = merge(&a, &b);
        proof {
            assert(front@ + back@ =~= records@);
            assert forall|offset: u64| #[trigger] starting_at(r@, offset) == starting_at(
                records@,
                offset,
            ) by {
                assert(starting_at(r@, offset) == starting_at(a@ + b@, offset));
                lemma_starting_concat(a@, b@, offset);
                assert(starting_at(a@, offset) == starting_at(front@, offset));
                assert(starting_at(b@, offset) == starting_at(back@, offset));
                lemma_starting_concat(front@, back@, offset);
            }
        }
        r
    }
}

proof fn lemma_placed_members(ordered: Seq<Record>, record: Record)
    ensures
        placed(ordered, record).to_multiset() == ordered.to_multiset().insert(record),
        total_bytes(placed(ordered, record)) == total_bytes(ordered) + record.0,
    decreases ordered.len(),
{
    broadcast use vstd::seq_lib::group_to_multiset_ensures;

    if ordered.len() == 0 || ordered.last().1 <= record.1 {
        assert(ordered.push(record).drop_last() =~= ordered);
    } else {
        let front = ordered.drop_last();
        let last = ordered.last();
        lemma_placed_members(front, record);
        assert(front.push(last) =~= ordered);
        assert(placed(front, record).push(last).drop_last() =~= placed(front, record));
        assert(front.to_multiset().insert(record).insert(last) =~= front.to_multiset().insert(
            last,
        ).insert(record));
    }
}

/// Ordering records by offset keeps how often each occurs and how many bytes they have.
pub proof fn lemma_same_multiset(records: Seq<Record>)
    ensures
        by_offset(records).to_multiset() == records.to_multiset(),
        total_bytes(by_offset(records)) == total_bytes(records),
    decreases records.len(),
{
    broadcast use vstd::seq_lib::group_to_multiset_ensures;

    if records.len() > 0 {
        let front = records.drop_last();
        lemma_same_multiset(front);
        lemma_placed_members(by_offset(front), records.last());
        assert(front.push(records.last()) =~= records);
    } else {
        assert(by_offset(records) =~= records);
    }
}

/// Every record begins at an offset of its own.
pub open spec fn distinct(records: Seq<Record>) -> bool {
    forall|i: int, j: int|
        0 <= i < j < records.len() ==> (#[trigger] records[i]).1 != (#[trigger] records[j]).1
}

proof fn lemma_strictly_ascending(records: Seq<Record>)
    requires
        distinct(records),
    ensures
        forall|i: int, j: int|
            0 <= i < j < by_offset(records).len() ==> (#[trigger] by_offset(records)[i]).1 < (
            #[trigger] by_offset(records)[j]).1,
    decreases records.len(),
{
    if records.len() > 0 {
        let front = records.drop_last();
        let record = records.last();
        assert forall|i: int, j: int| 0 <= i < j < front.len() implies (#[trigger] front[i]).1 != (
        #[trigger] front[j]).1 by {
            assert(records[i].1 != records[j].1);
        }
        lemma_strictly_ascending(front);
        lemma_same_members(front);
        law_order_is_ascending_and_stable(front);
        let inner = by_offset(front);
        let at = lemma_place(inner, record);
        let s = by_offset(records);
        assert forall|k: int| 0 <= k < inner.len() implies (#[trigger] inner[k]).1 != record.1 by {
            assert(front.contains(inner[k]));
            let i = choose|i: int| 0 <= i < front.len() && front[i] == inner[k];
            assert(records[i].1 != records[records.len() - 1].1);
        }
        assert forall|i: int, j: int| 0 <= i < j < s.len() implies (#[trigger] s[i]).1 < (
        #[trigger] s[j]).1 by {
            let m = if i < at {
                i
            } else {
                i - 1
            };
            let n = if j < at {
                j
            } else {
                j - 1
            };
            if i != at && j != at {
                assert(inner[m].1 < inner[n].1);
            } else if i == at {
                assert(inner[n].1 > record.1);
            } else {
                assert(inner[m].1 <= record.1 && inner[m].1 != record.1);
            }
        }
    }
}

/// For records that each begin at an offset of their own, it does not matter in what order they
/// were recorded: the same records give the same sequence and have the same number of bytes.
pub proof fn law_order_of_recording_does_not_matter(a: Seq<Record>, b: Seq<Record>)
    requires
        distinct(a),
        a.to_multiset() == b.to_multiset(),
    ensures
        by_offset(a) == by_offset(b),
        total_bytes(a) == total_bytes(b),
{
    broadcast use vstd::seq_lib::group_to_multiset_ensures;

    let x = by_offset(a);
    let y = by_offset(b);
    let leq = |r: Record, s: Record| r.1 < s.1 || r.1 == s.1 && r.0 <= s.0;
    lemma_same_multiset(a);
    lemma_same_multiset(b);
    lemma_strictly_ascending(a);
    law_order_is_ascending_and_stable(b);
    assert forall|i: int, j: int| 0 <= i < j < x.len() implies #[trigger] leq(x[i], x[j]) by {
        assert(x[i].1 < x[j].1);
    }
    assert forall|i: int, j: int| 0 <= i < j < y.len() implies #[trigger] leq(y[i], y[j]) by {
        assert(y[i].1 <= y[j].1);
        if y[i].1 == y[j].1 {
            assert(y.contains(y[i]) && y.contains(y[j]));
            assert(y.to_multiset().count(y[i]) > 0 && y.to_multiset().count(y[j]) > 0);
            assert(x.to_multiset().count(y[i]) > 0 && x.to_multiset().count(y[j]) > 0);
            assert(x.contains(y[i]) && x.contains(y[j]));
            let m = choose|m: int| 0 <= m < x.len() && x[m] == y[i];
            let n = choose|n: int| 0 <= n < x.len() && x[n] == y[j];
            if m < n {
                assert(x[m].1 < x[n].1);
            } else if n < m {
                assert(x[n].1 < x[m].1);
            }
        }
    }
    vstd::seq_lib::lemma_sorted_unique(x, y, leq);
}

/// Orders the records by offset.
pub fn sort_by_offset(records: &[Record]) -> (r: Vec<Record>)
    ensures
        r@ == by_offset(records@),
{
    let r = sort_slice(records);
    proof {
        law_order_is_ascending_and_stable(records@);
        assert forall|offset: u64| #[trigger] starting_at(r@, offset) == starting_at(
            by_offset(records@),
            offset,
        ) by {
            assert(starting_at(r@, offset) == starting_at(records@, offset));
            assert(starting_at(by_offset(records@), offset) == starting_at(records@, offset));
        }
        lemma_order_is_unique(r@, by_offset(records@));
    }
    r
}

} // verus!
