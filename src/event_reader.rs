//! Readers of the queue and their read iterator.
//!
//! A reader's cursor and cached epoch are kept by its queue; the reader is the
//! handle through which they move. Reading is done by an [`Iter`], which walks
//! forward from the reader's cursor and publishes the position it reached when
//! it is finished: only then are the chunks it left behind counted as read.

use vstd::prelude::*;
use crate::cursor::Cursor;
use crate::event_queue::{EventQueue, QueueView, rest};

verus! {

/// A subscription to a queue: it receives every value pushed after it was
/// made, in order, once.
pub struct EventReader {
    slot: usize,
}

impl EventReader {
    /// The reader slot in its queue.
    pub closed spec fn slot(&self) -> int {
        self.slot as int
    }

    pub(crate) fn new(slot: usize) -> (r: EventReader)
        ensures
            r.slot() == slot,
    {
        EventReader { slot }
    }

    pub(crate) fn slot_index(&self) -> (r: usize)
        ensures
            r == self.slot(),
    {
        self.slot
    }

    /// Slow path of the epoch refresh: moves the reader to the start position
    /// when it stands before it, and returns the length of the chunk it then
    /// stands in.
    fn do_update_start_position_and_get_len<T>(&self, q: &mut EventQueue<T>) -> (r: usize)
        requires
            old(q).wf(),
            old(q)@.is_reader(self.slot()),
        ensures
            final(q).wf(),
            final(q)@ == old(q)@.caught_up(self.slot()),
            final(q)@.is_reader(self.slot()),
            r == final(q)@.reader_chunk_len(self.slot()),
    {
        proof {
            q.lemma_wf();
            assert(q@.valid_cursor(q@.reader(self.slot()).cursor));
        }
        let new_start_position = q.start_position();
        let position = q.reader_state(self.slot).cursor;
        if position.lt(&new_start_position) {
            let cleanup = q.settings().auto_cleanup;
            proof {
                q@.lemma_forwarded_reader(self.slot(), new_start_position, cleanup);
            }
            q.set_forward_position(self.slot, new_start_position, cleanup);
        }
        proof {
            q.lemma_wf();
            assert(q@.valid_cursor(q@.reader(self.slot()).cursor));
        }
        let at = q.reader_state(self.slot).cursor;
        q.chunk_state(at.chunk_id).len() as usize
    }

    /// Returns the length of the chunk the reader stands in, after catching up
    /// with the start position if the chunk's epoch says that it moved.
    fn update_start_position_and_get_len<T>(&self, q: &mut EventQueue<T>) -> (r: usize)
        requires
            old(q).wf(),
            old(q)@.is_reader(self.slot()),
        ensures
            final(q).wf(),
            final(q)@ == old(q)@.synced(self.slot()),
            final(q)@.is_reader(self.slot()),
            r == final(q)@.reader_chunk_len(self.slot()),
    {
        proof {
            q.lemma_wf();
            assert(q@.valid_cursor(q@.reader(self.slot()).cursor));
        }
        let st = q.reader_state(self.slot);
        let len_and_epoch = q.chunk_state(st.cursor.chunk_id);
        let epoch = len_and_epoch.epoch();
        if epoch != st.epoch {
            q.set_reader_epoch(self.slot, epoch);
            self.do_update_start_position_and_get_len(q)
        } else {
            len_and_epoch.len() as usize
        }
    }

    /// Moves the reader to the start position if it lags behind it, marking
    /// every chunk in between as read. Needed only to release memory after the
    /// queue was cleared or truncated; reading does the same.
    pub fn update_position<T>(&mut self, q: &mut EventQueue<T>)
        requires
            old(q).wf(),
            old(q)@.is_reader(old(self).slot()),
        ensures
            final(self).slot() == old(self).slot(),
            final(q).wf(),
            final(q)@ == old(q)@.synced(old(self).slot()),
            final(q)@.is_reader(old(self).slot()),
    {
        self.update_start_position_and_get_len(q);
    }

    /// Starts reading: the iterator walks from the reader's cursor, after the
    /// reader caught up with the start position.
    pub fn iter<T>(&mut self, q: &mut EventQueue<T>) -> (r: Iter)
        requires
            old(q).wf(),
            old(q)@.is_reader(old(self).slot()),
        ensures
            final(self).slot() == old(self).slot(),
            final(q).wf(),
            final(q)@ == old(q)@.synced(old(self).slot()),
            r.valid_for(final(q)@),
            r.fresh(final(q)@),
            r.slot() == old(self).slot(),
            r.position() == final(q)@.reader(old(self).slot()).cursor,
    {
        Iter::new(self, q)
    }
}

/// A read in progress: it hands out, by reference, each value from the
/// reader's cursor on, and on [`Iter::finish`] publishes how far it got.
pub struct Iter {
    slot: usize,
    position: Cursor,
    chunk_len: usize,
}

impl Iter {
    /// The reader slot it reads for.
    pub closed spec fn slot(&self) -> int {
        self.slot as int
    }

    /// The next position to read.
    pub closed spec fn position(&self) -> Cursor {
        self.position
    }

    /// The length of the position's chunk as last loaded.
    pub closed spec fn chunk_len(&self) -> nat {
        self.chunk_len as nat
    }

    /// The iterator belongs to a reader of `q` and stands between that reader's
    /// cursor and the values visible in `q`.
    pub open spec fn valid_for<T>(&self, q: QueueView<T>) -> bool {
        &&& q.wf()
        &&& q.is_reader(self.slot())
        &&& q.reader(self.slot()).cursor.spec_le(self.position())
        &&& q.valid_cursor(self.position())
        &&& self.position().index <= self.chunk_len()
        &&& self.chunk_len() <= q.chunks[q.index_of(self.position().chunk_id as int)].items.len()
    }

    /// The loaded length is the chunk's current length.
    pub open spec fn fresh<T>(&self, q: QueueView<T>) -> bool {
        self.chunk_len() == q.chunks[q.index_of(self.position().chunk_id as int)].items.len()
    }

    fn new<T>(reader: &mut EventReader, q: &mut EventQueue<T>) -> (r: Iter)
        requires
            old(q).wf(),
            old(q)@.is_reader(old(reader).slot()),
        ensures
            final(reader).slot() == old(reader).slot(),
            final(q).wf(),
            final(q)@ == old(q)@.synced(old(reader).slot()),
            r.valid_for(final(q)@),
            r.fresh(final(q)@),
            r.slot() == old(reader).slot(),
            r.position() == final(q)@.reader(old(reader).slot()).cursor,
    {
        let chunk_len = reader.update_start_position_and_get_len(q);
        proof {
            q.lemma_wf();
            assert(q@.valid_cursor(q@.reader(reader.slot()).cursor));
        }
        let position = q.reader_state(reader.slot).cursor;
        Iter { slot: reader.slot, position, chunk_len }
    }

    /// The next value, or `None` when nothing more was visible. Values come in
    /// the order they were pushed, each once.
    pub fn next<'a, T>(&mut self, q: &'a EventQueue<T>) -> (r: Option<&'a T>)
        requires
            q.wf(),
            old(self).valid_for(q@),
        ensures
            final(self).valid_for(q@),
            final(self).slot() == old(self).slot(),
            q@.pending(old(self).position()) == match r {
                Some(v) => seq![*v],
                None => Seq::empty(),
            } + q@.pending(final(self).position()),
            old(self).fresh(q@) ==> final(self).fresh(q@),
            old(self).fresh(q@) && r is None ==> q@.pending(old(self).position()).len() == 0,
    {
        let ghost qv = q@;
        let ghost i0 = qv.index_of(self.position.chunk_id as int);
        proof {
            q.lemma_wf();
        }
        if self.position.index == self.chunk_len {
            if !q.has_next(self.position.chunk_id) {
                proof {
                    crate::event_queue::lemma_rest_next_chunk(qv.chunks, i0);
                    assert(i0 + 1 == qv.chunks.len()) by {
                        let t = qv.chunks.len() - 1;
                        assert(qv.chunks[t].id == qv.head().id + t);
                    }
                }
                return None;
            }
            if q.chunk_state(self.position.chunk_id).len() as usize != self.chunk_len {
                return None;
            }
            proof {
                crate::event_queue::lemma_rest_next_chunk(qv.chunks, i0);
                assert(qv.chunks[i0].id == qv.head().id + i0);
                assert(qv.chunks[i0 + 1].id == qv.head().id + i0 + 1);
            }
            self.position = Cursor { chunk_id: self.position.chunk_id + 1, index: 0 };
            self.chunk_len = q.chunk_state(self.position.chunk_id).len() as usize;
            if self.chunk_len == 0 {
                proof {
                    let j = i0 + 1;
                    assert(qv.chunks[j].id == qv.head().id + j);
                    if j < qv.chunks.len() - 1 {
                        assert(qv.chunks[j].items.len() == qv.chunks[j].capacity);
                        assert(0 < qv.chunks[j].capacity);
                    }
                    assert(qv.chunks[j].items.subrange(0, 0) =~= Seq::<T>::empty());
                    assert(rest(qv.chunks, j + 1, 0) =~= Seq::<T>::empty());
                    assert(rest(qv.chunks, j, 0) =~= Seq::<T>::empty());
                }
                return None;
            }
        }
        let ghost i = qv.index_of(self.position.chunk_id as int);
        proof {
            crate::event_queue::lemma_rest_step(qv.chunks, i, self.position.index as int);
        }
        let value = q.item(self.position);
        self.position = Cursor { chunk_id: self.position.chunk_id, index: self.position.index + 1 };
        Some(value)
    }

    /// Ends the read: the reader's cursor moves to where the iterator stopped,
    /// and each chunk it left behind counts it as done (with automatic
    /// cleanup, reclaiming what every reader has left behind).
    pub fn finish<T>(self, q: &mut EventQueue<T>)
        requires
            old(q).wf(),
            self.valid_for(old(q)@),
        ensures
            final(q).wf(),
            final(q)@ == old(q)@.forwarded(self.slot(), self.position(), old(q)@.settings.auto_cleanup),
    {
        let cleanup = q.settings().auto_cleanup;
        q.set_forward_position(self.slot, self.position, cleanup);
    }
}

} // verus!
