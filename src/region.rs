//! The memory-mapped byte region the log lives in.
//!
//! `memmap::MmapMut` is used as an opaque byte buffer: its contents are
//! named by `region_bytes`, and every access goes through one of the small
//! wrappers below.
use memmap::MmapMut;
use vstd::prelude::*;

verus! {

#[verifier::external_type_specification]
#[verifier::external_body]
pub struct ExMmapMut(MmapMut);

/// The bytes currently held by a mapping, from its start to its end.
pub uninterp spec fn region_bytes(m: MmapMut) -> Seq<u8>;

/// `s` with the bytes from `start` on replaced by `src`.
pub open spec fn splice(s: Seq<u8>, start: int, src: Seq<u8>) -> Seq<u8> {
    s.subrange(0, start) + src + s.subrange(start + src.len(), s.len() as int)
}

/// Relies on `MmapMut`'s `Deref<Target = [u8]>`: the length of the mapped slice.
#[verifier::external_body]
pub(crate) fn region_len(m: &MmapMut) -> (r: usize)
    ensures
        r == region_bytes(*m).len(),
{
    m.len()
}

/// Relies on `MmapMut`'s `Deref<Target = [u8]>` and slice indexing: a
/// borrowed view of the bytes in `start..end`, tied to the mapping's lifetime.
#[verifier::external_body]
pub(crate) fn region_slice<'a>(m: &'a MmapMut, start: usize, end: usize) -> (r: &'a [u8])
    requires
        start <= end <= region_bytes(*m).len(),
    ensures
        r@ == region_bytes(*m).subrange(start as int, end as int),
{
    &m[start..end]
}

/// Relies on `MmapMut`'s `DerefMut<Target = [u8]>` and `copy_from_slice`:
/// the bytes in `start..end` become those of `src`, the rest stay.
#[verifier::external_body]
pub(crate) fn region_write(m: &mut MmapMut, start: usize, end: usize, src: &[u8])
    requires
        start <= end <= region_bytes(*old(m)).len(),
        end - start == src@.len(),
    ensures
        region_bytes(*final(m)) == splice(region_bytes(*old(m)), start as int, src@),
{
    m[start..end].copy_from_slice(src)
}

} // verus!
