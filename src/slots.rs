//! A log of fixed-size slots: each slot holds one `u64`, stored
//! little-endian at `index * 8`, with no header and no padding.
use crate::codec::{le_bytes, lemma_le_round_trip, push_le, read_le};
use crate::region::{region_bytes, region_len, region_slice, region_write};
use memmap::MmapMut;
use vstd::prelude::*;

verus! {

/// Bytes taken by one slot.
pub const SLOT_SIZE: usize = 8;

/// An append-only log of `u64` slots in a memory-mapped region.
pub struct SlotVec {
    map: MmapMut,
    current_len: usize,
    file_size: usize,
    slots: Ghost<Seq<u64>>,
}

impl View for SlotVec {
    type V = Seq<u64>;

    /// The values appended so far, in order.
    closed spec fn view(&self) -> Seq<u64> {
        self.slots@
    }
}

impl SlotVec {
    /// The region's size in bytes.
    pub closed spec fn spec_capacity(&self) -> int {
        self.file_size as int
    }

    /// The published length covers exactly the slots appended so far, lies
    /// within the region, and the region holds each slot at its place.
    pub closed spec fn wf(&self) -> bool {
        &&& region_bytes(self.map).len() == self.file_size
        &&& self.current_len == 8 * self.slots@.len()
        &&& self.current_len <= self.file_size
        &&& forall|i: int|
            0 <= i < self.slots@.len() ==> #[trigger] region_bytes(self.map).subrange(
                8 * i,
                8 * i + 8,
            ) == le_bytes(self.slots@[i])
    }

    /// An empty slot log over `map`, whose whole length is its capacity.
    pub fn new(map: MmapMut) -> (r: SlotVec)
        ensures
            r.wf(),
            r@ == Seq::<u64>::empty(),
            r.spec_capacity() == region_bytes(map).len(),
    {
        let file_size = region_len(&map);
        SlotVec { map, current_len: 0, file_size, slots: Ghost(Seq::empty()) }
    }

    /// The published length in bytes.
    pub fn len(&self) -> (r: usize)
        requires
            self.wf(),
        ensures
            r == 8 * self@.len(),
    {
        self.current_len
    }

    /// The region's size in bytes.
    pub fn capacity(&self) -> (r: u64)
        requires
            self.wf(),
        ensures
            r == self.spec_capacity(),
    {
        self.file_size as u64
    }

    /// Appends `value` and returns its index, or returns `None` and leaves
    /// the log as it was when the slot's end would not lie strictly within
    /// the region.
    pub fn append(&mut self, value: u64) -> (r: Option<usize>)
        requires
            old(self).wf(),
        ensures
            final(self).wf(),
            final(self).spec_capacity() == old(self).spec_capacity(),
            r is Some == (8 * old(self)@.len() + 8 < old(self).spec_capacity()),
            r is None ==> *final(self) == *old(self),
            r matches Some(index) ==> index == old(self)@.len() && final(self)@ == old(
                self,
            )@.push(value),
    {
        let pos = self.current_len;
        if self.file_size - pos <= SLOT_SIZE {
            return None;
        }
        let ghost bytes0 = region_bytes(self.map);
        let ghost slots = self.slots@;
        let mut bytes: Vec<u8> = Vec::new();
        push_le(&mut bytes, value);
        proof {
            assert(bytes@ =~= le_bytes(value));
        }
        region_write(&mut self.map, pos, pos + SLOT_SIZE, bytes.as_slice());
        let ghost bytes1 = region_bytes(self.map);
        self.current_len = pos + SLOT_SIZE;
        self.slots = Ghost(slots.push(value));
        proof {
            assert forall|i: int| 0 <= i < slots.len() + 1 implies #[trigger] bytes1.subrange(
                8 * i,
                8 * i + 8,
            ) == le_bytes(slots.push(value)[i]) by {
                if i < slots.len() {
                    assert(bytes1.subrange(8 * i, 8 * i + 8) =~= bytes0.subrange(8 * i, 8 * i + 8));
                } else {
                    assert(bytes1.subrange(8 * i, 8 * i + 8) =~= le_bytes(value));
                }
            }
        }
        Some(pos / 8)
    }

    /// The value in slot `index`, which must have been appended.
    pub fn get(&self, index: usize) -> (r: u64)
        requires
            self.wf(),
            index < self@.len(),
        ensures
            r == self@[index as int],
    {
        let at = index * SLOT_SIZE;
        let bytes = region_slice(&self.map, at, at + SLOT_SIZE);
        proof {
            let i = index as int;
            assert(region_bytes(self.map).subrange(8 * i, 8 * i + 8) == le_bytes(self.slots@[i]));
            assert(bytes@.subrange(0, 8) =~= bytes@);
            lemma_le_round_trip(self.slots@[index as int]);
        }
        read_le(bytes, 0)
    }

    /// Moves the log onto `map`, a mapping larger than the current region,
    /// copying the published bytes over. A mapping that is not larger is
    /// handed back and the log is left as it was.
    pub fn grow(&mut self, map: MmapMut) -> (r: Result<(), MmapMut>)
        requires
            old(self).wf(),
        ensures
            final(self).wf(),
            r is Ok <==> region_bytes(map).len() > old(self).spec_capacity(),
            r is Ok ==> final(self)@ == old(self)@ && final(self).spec_capacity()
                == region_bytes(map).len(),
            r matches Err(m) ==> m == map && *final(self) == *old(self),
    {
        let mut map = map;
        let new_size = region_len(&map);
        if new_size <= self.file_size {
            return Err(map);
        }
        let ghost slots = self.slots@;
        let ghost bytes0 = region_bytes(self.map);
        let len = self.current_len;
        let published = region_slice(&self.map, 0, len);
        region_write(&mut map, 0, len, published);
        let ghost bytes1 = region_bytes(map);
        proof {
            assert(bytes1.subrange(0, len as int) =~= bytes0.subrange(0, len as int));
            assert forall|i: int| 0 <= i < slots.len() implies #[trigger] bytes1.subrange(
                8 * i,
                8 * i + 8,
            ) == le_bytes(slots[i]) by {
                assert(bytes1.subrange(8 * i, 8 * i + 8) =~= bytes0.subrange(8 * i, 8 * i + 8));
            }
        }
        self.map = map;
        self.file_size = new_size;
        Ok(())
    }
}

} // verus!
