//! Where records sit in the log, as a function of the records appended so far.
//!
//! Record `i` starts at the first 8-byte boundary at or after the end of
//! record `i - 1` (the first at 0) and spans its header and payload.
use crate::codec::{align_up, encode, AccountModel, ALIGN, HEADER_SIZE};
use vstd::prelude::*;

verus! {

/// Bytes taken by the record of `a`: header and payload.
pub open spec fn record_size(a: AccountModel) -> int {
    HEADER_SIZE + a.1.len()
}

/// The published length of a log that holds `recs`: the end of its last record.
pub open spec fn log_end(recs: Seq<AccountModel>) -> int
    decreases recs.len(),
{
    if recs.len() == 0 {
        0
    } else {
        align_up(log_end(recs.drop_last())) + record_size(recs.last())
    }
}

/// The offset of record `i` of `recs`; for `i == recs.len()`, the offset
/// the next record would take.
pub open spec fn start_of(recs: Seq<AccountModel>, i: int) -> int {
    align_up(log_end(recs.take(i)))
}

/// The end of record `i` of `recs`.
pub open spec fn end_of(recs: Seq<AccountModel>, i: int) -> int {
    start_of(recs, i) + record_size(recs[i])
}

/// Whether `off` is the offset of one of the records of `recs`.
pub open spec fn is_record_start(recs: Seq<AccountModel>, off: int) -> bool {
    exists|i: int| 0 <= i < recs.len() && start_of(recs, i) == off
}

/// Whether a record for `a` fits after `recs` in a region of `cap` bytes:
/// its end must lie strictly before the end of the region.
pub open spec fn fits(recs: Seq<AccountModel>, a: AccountModel, cap: int) -> bool {
    start_of(recs, recs.len() as int) + record_size(a) < cap
}

/// Whether `bytes` holds the record of each of `recs` at its offset.
pub open spec fn holds_records(bytes: Seq<u8>, recs: Seq<AccountModel>) -> bool {
    forall|i: int|
        0 <= i < recs.len() ==> #[trigger] bytes.subrange(start_of(recs, i), end_of(recs, i))
            == encode(recs[i])
}

pub proof fn lemma_align_up(x: int)
    requires
        x >= 0,
    ensures
        x <= align_up(x) < x + ALIGN,
        align_up(x) % 8 == 0,
{
}

pub proof fn lemma_log_end_nonneg(recs: Seq<AccountModel>)
    ensures
        log_end(recs) >= 0,
    decreases recs.len(),
{
    if recs.len() > 0 {
        lemma_log_end_nonneg(recs.drop_last());
        lemma_align_up(log_end(recs.drop_last()));
    }
}

/// Appending a record leaves the offsets of the earlier ones, and of the
/// new one, where they were.
pub proof fn lemma_start_of_push(recs: Seq<AccountModel>, a: AccountModel, i: int)
    requires
        0 <= i <= recs.len(),
    ensures
        start_of(recs.push(a), i) == start_of(recs, i),
{
    assert(recs.push(a).take(i) =~= recs.take(i));
}

/// The log's end after a record is appended is that record's end.
pub proof fn lemma_log_end_push(recs: Seq<AccountModel>, a: AccountModel)
    ensures
        log_end(recs.push(a)) == start_of(recs, recs.len() as int) + record_size(a),
        end_of(recs.push(a), recs.len() as int) == log_end(recs.push(a)),
{
    assert(recs.push(a).drop_last() =~= recs);
    assert(recs.take(recs.len() as int) =~= recs);
    lemma_start_of_push(recs, a, recs.len() as int);
}

/// The next record starts at the first boundary after the end of the one before.
pub proof fn lemma_next_start(recs: Seq<AccountModel>, i: int)
    requires
        0 <= i < recs.len(),
    ensures
        start_of(recs, i + 1) == align_up(end_of(recs, i)),
        log_end(recs.take(i + 1)) == end_of(recs, i),
{
    assert(recs.take(i + 1).drop_last() =~= recs.take(i));
    assert(recs.take(i + 1).last() == recs[i]);
}

/// Every record ends at or before the end of the log.
pub proof fn lemma_end_within(recs: Seq<AccountModel>, i: int)
    requires
        0 <= i < recs.len(),
    ensures
        end_of(recs, i) <= log_end(recs),
    decreases recs.len(),
{
    let n = recs.len() as int;
    let prev = recs.drop_last();
    if i == n - 1 {
        assert(recs.take(i) =~= prev);
    } else {
        lemma_end_within(prev, i);
        assert(prev.take(i) =~= recs.take(i));
        lemma_log_end_nonneg(prev);
        lemma_align_up(log_end(prev));
    }
}

/// A record ends at or before the start of any later record, and before
/// the offset the next appended record would take.
pub proof fn lemma_ordered(recs: Seq<AccountModel>, i: int, k: int)
    requires
        0 <= i < k <= recs.len(),
    ensures
        end_of(recs, i) <= start_of(recs, k),
{
    let pre = recs.take(k);
    lemma_end_within(pre, i);
    assert(pre.take(i) =~= recs.take(i));
    lemma_log_end_nonneg(pre);
    lemma_align_up(log_end(pre));
}


/// Reading back what was appended: after `a` is appended to `recs`, the
/// offset it was given is the offset of exactly one record, and that
/// record is `a`.
pub proof fn lemma_round_trip(recs: Seq<AccountModel>, a: AccountModel)
    ensures
        is_record_start(recs.push(a), start_of(recs, recs.len() as int)),
        forall|i: int|
            0 <= i < recs.len() + 1 && #[trigger] start_of(recs.push(a), i) == start_of(
                recs,
                recs.len() as int,
            ) ==> recs.push(a)[i] == a,
{
    let n = recs.len() as int;
    let all = recs.push(a);
    lemma_start_of_push(recs, a, n);
    assert forall|i: int|
        0 <= i < n + 1 && #[trigger] start_of(all, i) == start_of(recs, n) implies all[i]
        == a by {
        if i < n {
            lemma_ordered(all, i, n);
            lemma_log_end_nonneg(all.take(i));
            lemma_align_up(log_end(all.take(i)));
        }
    }
}

/// The published length never shrinks: each prefix of the records ends at
/// or before the whole log does.
pub proof fn lemma_published_monotone(recs: Seq<AccountModel>, k: int)
    requires
        0 <= k <= recs.len(),
    ensures
        log_end(recs.take(k)) <= log_end(recs),
{
    if k < recs.len() {
        lemma_log_end_nonneg(recs.take(k));
        lemma_align_up(log_end(recs.take(k)));
        lemma_end_within(recs, k);
    } else {
        assert(recs.take(k) =~= recs);
    }
}

/// Distinct records never overlap: record `i` ends at or before record `k`
/// starts whenever `i < k`.
pub proof fn lemma_no_overlap(recs: Seq<AccountModel>, i: int, k: int)
    requires
        0 <= i < k < recs.len(),
    ensures
        end_of(recs, i) <= start_of(recs, k),
        start_of(recs, i) < start_of(recs, k),
{
    lemma_ordered(recs, i, k);
}

/// Every record starts on an 8-byte boundary.
pub proof fn lemma_aligned(recs: Seq<AccountModel>, i: int)
    requires
        0 <= i <= recs.len(),
    ensures
        start_of(recs, i) % 8 == 0,
{
    lemma_log_end_nonneg(recs.take(i));
    lemma_align_up(log_end(recs.take(i)));
}

/// Growth makes room: once a full log (whose end lies within `cap`) grows by
/// more than a record's size plus the alignment slack, the record fits.
pub proof fn lemma_growth_makes_room(
    recs: Seq<AccountModel>,
    a: AccountModel,
    cap: int,
    increment: int,
)
    requires
        log_end(recs) <= cap,
        increment >= record_size(a) + ALIGN,
    ensures
        fits(recs, a, cap + increment),
{
    assert(recs.take(recs.len() as int) =~= recs);
    lemma_log_end_nonneg(recs);
    lemma_align_up(log_end(recs));
}

/// A scan from offset 0 covers the whole log: the first record starts there.
pub proof fn lemma_first_start(recs: Seq<AccountModel>)
    ensures
        start_of(recs, 0) == 0,
{
    lemma_align_up(0);
}

} // verus!
