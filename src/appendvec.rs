//! The append-only log.
//!
//! Appending takes `&mut self` and reading `&self`, so the borrow checker
//! keeps a single appender at a time and keeps every view handed out by a
//! read from outliving a later append or growth of the mapping. Callers
//! share a log between threads through a lock of their choosing.
use crate::codec::{
    align_up, encode, encode_header, le_bytes, lemma_le_round_trip, read_le, Account,
    AccountModel, StoredAccount, HEADER_SIZE,
};
use crate::layout::{
    end_of, fits, holds_records, is_record_start, lemma_align_up, lemma_end_within,
    lemma_log_end_nonneg, lemma_log_end_push, lemma_next_start, lemma_ordered,
    lemma_start_of_push, log_end, record_size, start_of,
};
use crate::region::{region_bytes, region_len, region_slice, region_write};
use memmap::MmapMut;
use vstd::prelude::*;

verus! {

/// `x` rounded up to the next multiple of 8, or `None` where that does not
/// fit in a `usize`.
pub fn align_up_checked(x: usize) -> (r: Option<usize>)
    ensures
        r == (if align_up(x as int) <= usize::MAX {
            Some(align_up(x as int) as usize)
        } else {
            None::<usize>
        }),
{
    let rem = x % 8;
    if rem == 0 {
        Some(x)
    } else {
        x.checked_add(8 - rem)
    }
}

/// An append-only log of account records in a memory-mapped region.
pub struct AppendVec {
    map: MmapMut,
    current_len: usize,
    file_size: usize,
    records: Ghost<Seq<AccountModel>>,
}

impl View for AppendVec {
    type V = Seq<AccountModel>;

    /// The records appended so far, in order.
    closed spec fn view(&self) -> Seq<AccountModel> {
        self.records@
    }
}

/// The models of a sequence of stored accounts.
pub open spec fn views<'a>(s: Seq<StoredAccount<'a>>) -> Seq<AccountModel> {
    s.map_values(|x: StoredAccount<'a>| x@)
}

impl AppendVec {
    /// The region's size in bytes.
    pub closed spec fn spec_capacity(&self) -> int {
        self.file_size as int
    }

    /// The log's internal invariant: the published length is the end of
    /// the last record, it lies within the region, and the region holds
    /// every record at its offset.
    pub closed spec fn wf(&self) -> bool {
        &&& region_bytes(self.map).len() == self.file_size
        &&& self.current_len == log_end(self.records@)
        &&& self.current_len <= self.file_size
        &&& holds_records(region_bytes(self.map), self.records@)
    }

    /// An empty log over `map`, whose whole length is its capacity.
    pub fn new(map: MmapMut) -> (r: AppendVec)
        ensures
            r.wf(),
            r@ == Seq::<AccountModel>::empty(),
            r.spec_capacity() == region_bytes(map).len(),
    {
        let file_size = region_len(&map);
        AppendVec { map, current_len: 0, file_size, records: Ghost(Seq::empty()) }
    }

    /// The published length: the end of the last record.
    pub fn len(&self) -> (r: usize)
        requires
            self.wf(),
        ensures
            r == log_end(self@),
    {
        self.current_len
    }

    /// The region's size in bytes.
    pub fn capacity(&self) -> (r: u64)
        requires
            self.wf(),
        ensures
            r == self.spec_capacity(),
    {
        self.file_size as u64
    }

    /// Appends the record of `account` and returns its offset, or returns
    /// `None` and leaves the log as it was when the record's end would not
    /// lie strictly within the region.
    pub fn append_account(&mut self, account: &Account) -> (r: Option<usize>)
        requires
            old(self).wf(),
        ensures
            final(self).wf(),
            final(self).spec_capacity() == old(self).spec_capacity(),
            r is Some == fits(old(self)@, account@, old(self).spec_capacity()),
            r is None ==> *final(self) == *old(self),
            r matches Some(off) ==> {
                &&& final(self)@ == old(self)@.push(account@)
                &&& off == start_of(old(self)@, old(self)@.len() as int)
                &&& log_end(final(self)@) >= log_end(old(self)@)
            },
    {
        let ghost recs = self.records@;
        let ghost n = recs.len() as int;
        let ghost bytes0 = region_bytes(self.map);
        proof {
            assert(recs.take(n) =~= recs);
            lemma_log_end_nonneg(recs);
            lemma_align_up(log_end(recs));
        }
        let pos = match align_up_checked(self.current_len) {
            Some(p) => p,
            None => return None,
        };
        let data_len = account.data.len();
        if pos > self.file_size || self.file_size - pos <= HEADER_SIZE || self.file_size - pos
            - HEADER_SIZE <= data_len {
            return None;
        }
        let data_at = pos + HEADER_SIZE;
        let end = data_at + data_len;
        let header = encode_header(account);
        region_write(&mut self.map, pos, data_at, header.as_slice());
        let ghost bytes1 = region_bytes(self.map);
        region_write(&mut self.map, data_at, end, account.data.as_slice());
        let ghost bytes2 = region_bytes(self.map);
        self.current_len = end;
        self.records = Ghost(recs.push(account@));
        proof {
            let new_recs = recs.push(account@);
            lemma_log_end_push(recs, account@);
            assert(bytes2.subrange(pos as int, data_at as int) =~= bytes1.subrange(
                pos as int,
                data_at as int,
            ));
            assert(bytes2.subrange(pos as int, end as int) =~= encode(account@));
            assert forall|i: int| 0 <= i < new_recs.len() implies #[trigger] bytes2.subrange(
                start_of(new_recs, i),
                end_of(new_recs, i),
            ) == encode(new_recs[i]) by {
                if i < n {
                    lemma_start_of_push(recs, account@, i);
                    lemma_ordered(recs, i, n);
                    lemma_log_end_nonneg(recs.take(i));
                    lemma_align_up(log_end(recs.take(i)));
                    let a = start_of(recs, i);
                    let b = end_of(recs, i);
                    assert(bytes2.subrange(a, b) =~= bytes0.subrange(a, b));
                }
            }
        }
        Some(pos)
    }

    /// The record stored at `offset`, which must be the offset of one of
    /// the log's records; its payload is a view into the region.
    pub fn get_account(&self, offset: usize) -> (r: StoredAccount<'_>)
        requires
            self.wf(),
            is_record_start(self@, offset as int),
        ensures
            forall|i: int|
                0 <= i < self@.len() && start_of(self@, i) == offset ==> r@ == self@[i],
    {
        let ghost recs = self.records@;
        let ghost i = choose|i: int| 0 <= i < recs.len() && start_of(recs, i) == offset;
        let ghost bytes = region_bytes(self.map);
        let ghost a = recs[i];
        proof {
            lemma_end_within(recs, i);
            assert(bytes.subrange(start_of(recs, i), end_of(recs, i)) == encode(a));
        }
        let header = region_slice(&self.map, offset, offset + HEADER_SIZE);
        let lamports = read_le(header, 0);
        let data_len = read_le(header, 8);
        proof {
            assert(header@ =~= encode(a).subrange(0, 16));
            assert(header@.subrange(0, 8) =~= le_bytes(a.0));
            assert(header@.subrange(8, 16) =~= le_bytes(a.1.len() as u64));
            lemma_le_round_trip(a.0);
            lemma_le_round_trip(a.1.len() as u64);
        }
        let data_at = offset + HEADER_SIZE;
        let data = region_slice(&self.map, data_at, data_at + data_len as usize);
        proof {
            assert(data@ =~= encode(a).subrange(16, record_size(a)));
            assert(data@ =~= a.1);
            assert forall|k: int|
                0 <= k < recs.len() && start_of(recs, k) == offset implies k == i by {
                if k < i {
                    lemma_ordered(recs, k, i);
                } else if i < k {
                    lemma_ordered(recs, i, k);
                }
            }
        }
        StoredAccount { lamports, data }
    }

    /// The records from offset `start` to the end of the log, in order.
    /// `start` must be the offset of one of the records, or the offset the
    /// next record would take (which yields none).
    pub fn accounts(&self, start: usize) -> (r: Vec<StoredAccount<'_>>)
        requires
            self.wf(),
            exists|i: int| 0 <= i <= self@.len() && start_of(self@, i) == start,
        ensures
            forall|i: int|
                0 <= i <= self@.len() && start_of(self@, i) == start ==> views(r@)
                    == self@.subrange(i, self@.len() as int),
    {
        let ghost recs = self.records@;
        let ghost n = recs.len() as int;
        let ghost i0 = choose|i: int| 0 <= i <= n && start_of(recs, i) == start;
        let len = self.current_len;
        let mut out: Vec<StoredAccount<'_>> = Vec::new();
        let mut pos = start;
        let ghost mut j = i0;
        proof {
            assert(0 <= i0 <= n);
            assert(recs.take(n) =~= recs);
            lemma_log_end_nonneg(recs);
            lemma_align_up(log_end(recs));
            assert forall|k: int| 0 <= k <= n && start_of(recs, k) == start implies k == i0 by {
                if k < i0 {
                    lemma_ordered(recs, k, i0);
                    lemma_log_end_nonneg(recs.take(k));
                    lemma_align_up(log_end(recs.take(k)));
                } else if i0 < k {
                    lemma_ordered(recs, i0, k);
                    lemma_log_end_nonneg(recs.take(i0));
                    lemma_align_up(log_end(recs.take(i0)));
                }
            }
        }
        loop
            invariant_except_break
                i0 <= j <= n,
                pos == start_of(recs, j),
                self.wf(),
                recs == self@,
                n == recs.len(),
                len == log_end(recs),
                0 <= i0 <= n,
                forall|k: int| 0 <= k <= n && start_of(recs, k) == start ==> k == i0,
                views(out@) == recs.subrange(i0, j),
            ensures
                views(out@) == recs.subrange(i0, n),
                forall|k: int| 0 <= k <= n && start_of(recs, k) == start ==> k == i0,
            decreases n - j,
        {
            if pos > len || len - pos < HEADER_SIZE {
                proof {
                    if j < n {
                        lemma_end_within(recs, j);
                    }
                }
                break ;
            }
            proof {
                if j == n {
                    assert(recs.take(n) =~= recs);
                    lemma_log_end_nonneg(recs);
                    lemma_align_up(log_end(recs));
                }
                assert(0 <= j < recs.len() && start_of(recs, j) == pos);
                lemma_end_within(recs, j);
                lemma_next_start(recs, j);
            }
            let acc = self.get_account(pos);
            let end = pos + HEADER_SIZE + acc.data.len();
            proof {
                assert(acc@ == recs[j]);
                assert(views(out@.push(acc)) =~= views(out@).push(acc@));
                assert(recs.subrange(i0, j + 1) =~= recs.subrange(i0, j).push(recs[j]));
            }
            out.push(acc);
            proof {
                j = j + 1;
            }
            match align_up_checked(end) {
                Some(next) => {
                    pos = next;
                },
                None => {
                    proof {
                        if j < n {
                            lemma_end_within(recs, j);
                            lemma_log_end_nonneg(recs.take(j));
                            lemma_align_up(log_end(recs.take(j)));
                        }
                    }
                    break ;
                },
            }
        }
        out
    }

    /// Whether the record of `account` fits in the region as it stands, that
    /// is whether `append_account` would store it.
    pub fn has_room(&self, account: &Account) -> (r: bool)
        requires
            self.wf(),
        ensures
            r == fits(self@, account@, self.spec_capacity()),
    {
        let ghost recs = self.records@;
        proof {
            assert(recs.take(recs.len() as int) =~= recs);
            lemma_log_end_nonneg(recs);
        }
        match align_up_checked(self.current_len) {
            Some(pos) => pos <= self.file_size && self.file_size - pos > HEADER_SIZE
                && self.file_size - pos - HEADER_SIZE > account.data.len(),
            None => false,
        }
    }

    /// The capacity to grow to, `increment` bytes past the current one
    /// (saturating at `usize::MAX`), before retrying to append `account`; or
    /// `None` where the record already fits and growing is not needed.
    pub fn grow_target(&self, account: &Account, increment: usize) -> (r: Option<usize>)
        requires
            self.wf(),
        ensures
            r is None <==> fits(self@, account@, self.spec_capacity()),
            r matches Some(c) ==> c == if self.spec_capacity() + increment <= usize::MAX {
                self.spec_capacity() + increment
            } else {
                usize::MAX as int
            },
    {
        if self.has_room(account) {
            None
        } else {
            Some(self.file_size.saturating_add(increment))
        }
    }

    /// Moves the log onto `map`, a mapping larger than the current region,
    /// copying the published bytes over; views handed out earlier cannot
    /// outlive this call. A mapping that is not larger is handed back and
    /// the log is left as it was.
    pub fn grow(&mut self, map: MmapMut) -> (r: Result<(), MmapMut>)
        requires
            old(self).wf(),
        ensures
            final(self).wf(),
            r is Ok <==> region_bytes(map).len() > old(self).spec_capacity(),
            r is Ok ==> final(self)@ == old(self)@ && final(self).spec_capacity()
                == region_bytes(map).len(),
            r matches Err(m) ==> m == map && *final(self) == *old(self),
    {
        let mut map = map;
        let new_size = region_len(&map);
        if new_size <= self.file_size {
            return Err(map);
        }
        let ghost recs = self.records@;
        let ghost bytes0 = region_bytes(self.map);
        let len = self.current_len;
        let published = region_slice(&self.map, 0, len);
        region_write(&mut map, 0, len, published);
        let ghost bytes1 = region_bytes(map);
        proof {
            assert(bytes1.subrange(0, len as int) =~= bytes0.subrange(0, len as int));
            assert forall|i: int| 0 <= i < recs.len() implies #[trigger] bytes1.subrange(
                start_of(recs, i),
                end_of(recs, i),
            ) == encode(recs[i]) by {
                lemma_end_within(recs, i);
                lemma_log_end_nonneg(recs.take(i));
                lemma_align_up(log_end(recs.take(i)));
                let a = start_of(recs, i);
                let b = end_of(recs, i);
                assert(bytes1.subrange(a, b) =~= bytes1.subrange(0, len as int).subrange(a, b));
                assert(bytes0.subrange(a, b) =~= bytes0.subrange(0, len as int).subrange(a, b));
            }
        }
        self.map = map;
        self.file_size = new_size;
        Ok(())
    }
}

} // verus!
