//! The byte layout of an account record.
//!
//! A record is a 16-byte header followed by the payload: the header holds
//! the account's lamports and then the payload's length, each as a
//! little-endian `u64`. Records start on 8-byte boundaries; the payload
//! itself is not padded, only the start of the next record is aligned.
use vstd::prelude::*;

verus! {

/// Bytes taken by a record's header.
pub const HEADER_SIZE: usize = 16;

/// Boundary every record starts on.
pub const ALIGN: usize = 8;

/// `x` rounded up to the next multiple of `ALIGN`.
pub open spec fn align_up(x: int) -> int {
    if x % 8 == 0 {
        x
    } else {
        x + (8 - x % 8)
    }
}

/// The little-endian bytes of `v`.
pub open spec fn le_bytes(v: u64) -> Seq<u8> {
    seq![
        v as u8,
        (v >> 8u64) as u8,
        (v >> 16u64) as u8,
        (v >> 24u64) as u8,
        (v >> 32u64) as u8,
        (v >> 40u64) as u8,
        (v >> 48u64) as u8,
        (v >> 56u64) as u8,
    ]
}

/// The value of the first eight bytes of `s`, read little-endian.
pub open spec fn le_value(s: Seq<u8>) -> u64 {
    (s[0] as u64) | ((s[1] as u64) << 8u64) | ((s[2] as u64) << 16u64) | ((s[3] as u64)
        << 24u64) | ((s[4] as u64) << 32u64) | ((s[5] as u64) << 40u64) | ((s[6] as u64)
        << 48u64) | ((s[7] as u64) << 56u64)
}

/// Reading back the bytes of a value gives the value.
pub proof fn lemma_le_round_trip(v: u64)
    ensures
        le_value(le_bytes(v)) == v,
{
    assert(((v as u8) as u64) | ((((v >> 8u64) as u8) as u64) << 8u64) | ((((v >> 16u64) as u8)
        as u64) << 16u64) | ((((v >> 24u64) as u8) as u64) << 24u64) | ((((v >> 32u64) as u8)
        as u64) << 32u64) | ((((v >> 40u64) as u8) as u64) << 40u64) | ((((v >> 48u64) as u8)
        as u64) << 48u64) | ((((v >> 56u64) as u8) as u64) << 56u64) == v) by (bit_vector);
}

/// The model of an account: its lamports and its payload.
pub type AccountModel = (u64, Seq<u8>);

/// The bytes a record of `a` occupies: header, then payload.
pub open spec fn encode(a: AccountModel) -> Seq<u8> {
    le_bytes(a.0) + le_bytes(a.1.len() as u64) + a.1
}

/// An account as the caller hands it to the log.
#[derive(PartialEq, Eq, Debug, Default)]
pub struct Account {
    pub lamports: u64,
    pub data: Vec<u8>,
}

impl View for Account {
    type V = AccountModel;

    open spec fn view(&self) -> AccountModel {
        (self.lamports, self.data@)
    }
}

/// An account read from the log: its payload is a view into the mapping,
/// not a copy, and cannot outlive the borrow of the log it came from.
#[derive(Debug)]
pub struct StoredAccount<'a> {
    pub lamports: u64,
    pub data: &'a [u8],
}

impl<'a> View for StoredAccount<'a> {
    type V = AccountModel;

    open spec fn view(&self) -> AccountModel {
        (self.lamports, self.data@)
    }
}

impl<'a> StoredAccount<'a> {
    /// An owned copy of the stored account.
    pub fn to_account(&self) -> (r: Account)
        ensures
            r@ == self@,
    {
        Account { lamports: self.lamports, data: vstd::slice::slice_to_vec(self.data) }
    }
}

/// Appends the little-endian bytes of `v` to `out`.
pub(crate) fn push_le(out: &mut Vec<u8>, v: u64)
    ensures
        final(out)@ == old(out)@ + le_bytes(v),
{
    out.push(v as u8);
    out.push((v >> 8u64) as u8);
    out.push((v >> 16u64) as u8);
    out.push((v >> 24u64) as u8);
    out.push((v >> 32u64) as u8);
    out.push((v >> 40u64) as u8);
    out.push((v >> 48u64) as u8);
    out.push((v >> 56u64) as u8);
    assert(final(out)@ =~= old(out)@ + le_bytes(v));
}

/// The header bytes of a record for `a`.
pub fn encode_header(a: &Account) -> (r: Vec<u8>)
    ensures
        r@ == le_bytes(a.lamports) + le_bytes(a.data@.len() as u64),
        r@.len() == HEADER_SIZE,
{
    let mut out: Vec<u8> = Vec::new();
    push_le(&mut out, a.lamports);
    push_le(&mut out, a.data.len() as u64);
    proof {
        assert(out@ =~= le_bytes(a.lamports) + le_bytes(a.data@.len() as u64));
    }
    out
}

/// The `u64` stored little-endian at `at` in `s`.
pub fn read_le(s: &[u8], at: usize) -> (r: u64)
    requires
        at + 8 <= s@.len(),
    ensures
        r == le_value(s@.subrange(at as int, at + 8)),
{
    (s[at] as u64) | ((s[at + 1] as u64) << 8u64) | ((s[at + 2] as u64) << 16u64) | ((s[at
        + 3] as u64) << 24u64) | ((s[at + 4] as u64) << 32u64) | ((s[at + 5] as u64) << 40u64)
        | ((s[at + 6] as u64) << 48u64) | ((s[at + 7] as u64) << 56u64)
}

} // verus!
