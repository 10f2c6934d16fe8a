//! A chunk: a fixed-capacity run of slots, filled from index 0 upward and
//! never overwritten, with its id, its state word and its read-completion
//! counter.

use vstd::prelude::*;
use crate::chunk_state::LenAndEpoch;

verus! {

/// Largest chunk capacity: a quarter of `u32::MAX`, so that length arithmetic
/// on the packed state word never overflows.
pub const MAX_CHUNK_CAPACITY: u32 = 0x3fff_ffff;

/// What a chunk holds, as seen by the proofs.
pub ghost struct ChunkView<T> {
    pub id: int,
    pub capacity: nat,
    pub items: Seq<T>,
    pub epoch: u32,
    pub read_count: nat,
}

/// Slots and bookkeeping of one chunk.
pub struct Chunk<T> {
    pub id: usize,
    pub capacity: usize,
    pub state: LenAndEpoch,
    pub slots: Vec<T>,
    pub read_completely_times: usize,
}

impl<T> View for Chunk<T> {
    type V = ChunkView<T>;

    open spec fn view(&self) -> ChunkView<T> {
        ChunkView {
            id: self.id as int,
            capacity: self.capacity as nat,
            items: self.slots@,
            epoch: self.state.spec_epoch(),
            read_count: self.read_completely_times as nat,
        }
    }
}

impl<T> Chunk<T> {
    pub(crate) open spec fn wf(&self) -> bool {
        &&& 0 < self.capacity <= MAX_CHUNK_CAPACITY
        &&& self.slots@.len() <= self.capacity
        &&& self.state.spec_len() == self.slots@.len()
    }

    /// An empty chunk.
    pub(crate) fn new(id: usize, epoch: u32, capacity: usize) -> (r: Chunk<T>)
        requires
            0 < capacity <= MAX_CHUNK_CAPACITY,
        ensures
            r.wf(),
            r@ == (ChunkView::<T> {
                id: id as int,
                capacity: capacity as nat,
                items: Seq::empty(),
                epoch,
                read_count: 0,
            }),
    {
        Chunk {
            id,
            capacity,
            state: LenAndEpoch::new(0, epoch),
            slots: Vec::with_capacity(capacity),
            read_completely_times: 0,
        }
    }

    /// Empties a freed chunk for reuse, keeping its storage and capacity.
    pub(crate) fn recycle(&mut self)
        requires
            old(self).wf(),
        ensures
            final(self).wf(),
            final(self).capacity == old(self).capacity,
            final(self).slots@.len() == 0,
    {
        self.slots.clear();
        self.state = LenAndEpoch::new(0, self.state.epoch());
        self.read_completely_times = 0;
    }

    /// Gives a recycled, empty chunk a fresh id and epoch.
    pub(crate) fn reinit(&mut self, id: usize, epoch: u32)
        requires
            old(self).wf(),
            old(self).slots@.len() == 0,
        ensures
            final(self).wf(),
            final(self)@ == (ChunkView::<T> { id: id as int, epoch, read_count: 0, ..old(self)@ }),
    {
        self.id = id;
        self.state = LenAndEpoch::new(0, epoch);
        self.read_completely_times = 0;
    }

    /// The published `(length, epoch)` word.
    pub(crate) fn len_and_epoch(&self) -> (r: LenAndEpoch)
        requires
            self.wf(),
        ensures
            r.spec_len() == self.slots@.len(),
            r.spec_epoch() == self@.epoch,
    {
        self.state
    }

    /// Stores `value` in the next slot, or hands it back when the chunk is full.
    pub(crate) fn try_push(&mut self, value: T) -> (r: Result<(), T>)
        requires
            old(self).wf(),
        ensures
            final(self).wf(),
            old(self).slots@.len() < old(self).capacity ==> r is Ok && final(self)@ == (
            ChunkView::<T> { items: old(self)@.items.push(value), ..old(self)@ }),
            old(self).slots@.len() >= old(self).capacity ==> r == Err::<(), T>(value)
                && final(self)@ == old(self)@,
    {
        let len = self.state.len() as usize;
        if len < self.capacity {
            self.push_unchecked(value);
            Ok(())
        } else {
            Err(value)
        }
    }

    /// Stores `value` in the next slot; the caller knows that one is free.
    pub(crate) fn push_unchecked(&mut self, value: T)
        requires
            old(self).wf(),
            old(self).slots@.len() < old(self).capacity,
        ensures
            final(self).wf(),
            final(self)@ == (ChunkView::<T> { items: old(self)@.items.push(value), ..old(self)@ }),
    {
        let len = self.state.len();
        let epoch = self.state.epoch();
        self.slots.push(value);
        self.state = LenAndEpoch::new(len + 1, epoch);
    }

    /// Publishes a new start position epoch, keeping the length.
    pub(crate) fn set_epoch(&mut self, epoch: u32)
        requires
            old(self).wf(),
        ensures
            final(self).wf(),
            final(self)@ == (ChunkView::<T> { epoch, ..old(self)@ }),
    {
        let len = self.state.len();
        self.state = LenAndEpoch::new(len, epoch);
    }
}

} // verus!
