//! The queue: a list of chunks that grows at the tail under the producer
//! operations and is reclaimed at the head once every reader has moved past a
//! chunk.
//!
//! Readers are registered with the queue: the queue holds each reader's cursor
//! and cached epoch, so that its read-completion counters can be stated, and
//! proved, to count exactly the readers that have left a chunk behind.

use vstd::prelude::*;
use crate::chunk::{Chunk, ChunkView, MAX_CHUNK_CAPACITY};
use crate::cursor::Cursor;
use crate::event_reader::EventReader;

verus! {

/// Chunk sizing and reclamation parameters of a queue.
#[derive(Clone, Copy, PartialEq, Eq, Structural, Debug)]
pub struct Settings {
    /// Capacity of the first chunk; positive.
    pub min_chunk_size: u32,
    /// Largest capacity the growth schedule reaches; at most a quarter of `u32::MAX`.
    pub max_chunk_size: u32,
    /// Whether readers reclaim chunks themselves after crossing one.
    pub auto_cleanup: bool,
    /// Whether the largest freed chunk is kept for reuse as a later chunk.
    pub double_buffering: bool,
}

impl Settings {
    pub open spec fn valid(self) -> bool {
        0 < self.min_chunk_size <= self.max_chunk_size <= MAX_CHUNK_CAPACITY
    }
}

/// The settings of [`EventQueue::new`].
pub struct DefaultSettings {}

impl DefaultSettings {
    /// Chunks of 4 slots growing up to a quarter of `u32::MAX`, with reader-side
    /// cleanup and no chunk reuse.
    pub fn settings() -> (r: Settings)
        ensures
            r == Self::spec_settings(),
            r.valid(),
    {
        Settings {
            min_chunk_size: 4,
            max_chunk_size: MAX_CHUNK_CAPACITY,
            auto_cleanup: true,
            double_buffering: false,
        }
    }
}

/// What the queue keeps of one subscribed reader.
#[derive(Clone, Copy, PartialEq, Eq, Structural, Debug)]
pub struct ReaderState {
    /// The first position the reader has not yet consumed.
    pub cursor: Cursor,
    /// The start position epoch the reader last synchronised with.
    pub epoch: u32,
}

/// The reader holds a subscription.
pub open spec fn is_live(o: Option<ReaderState>) -> bool {
    o is Some
}

/// The reader holds a subscription and has left every chunk up to `id` behind.
pub open spec fn has_passed(o: Option<ReaderState>, id: int) -> bool {
    match o {
        Some(r) => r.cursor.chunk_id > id,
        None => false,
    }
}

/// How many entries of `rs` satisfy `f`.
pub open spec fn count(rs: Seq<Option<ReaderState>>, f: spec_fn(Option<ReaderState>) -> bool) -> nat
    decreases rs.len(),
{
    if rs.len() == 0 {
        0
    } else {
        count(rs.drop_last(), f) + if f(rs.last()) {
            1nat
        } else {
            0nat
        }
    }
}

/// Number of subscribed readers in `rs`.
pub open spec fn live_count(rs: Seq<Option<ReaderState>>) -> nat {
    count(rs, |o: Option<ReaderState>| is_live(o))
}

/// Number of subscribed readers in `rs` that have left chunk `id` behind.
pub open spec fn passed_count(rs: Seq<Option<ReaderState>>, id: int) -> nat {
    count(rs, |o: Option<ReaderState>| has_passed(o, id))
}

/// The values at positions `j` and later of chunk `i`, then those of every
/// later chunk, in order.
pub open spec fn rest<T>(chunks: Seq<ChunkView<T>>, i: int, j: int) -> Seq<T>
    decreases chunks.len() - i,
{
    if i < 0 || i >= chunks.len() {
        Seq::empty()
    } else {
        chunks[i].items.subrange(j, chunks[i].items.len() as int) + rest(chunks, i + 1, 0)
    }
}

/// The queue as seen by the proofs.
pub ghost struct QueueView<T> {
    /// Live chunks, head first.
    pub chunks: Seq<ChunkView<T>>,
    /// Reader slots; `None` marks a slot whose reader unsubscribed.
    pub readers: Seq<Option<ReaderState>>,
    /// Number of subscribed readers.
    pub subscribers: nat,
    /// The earliest position a lagging reader must move to.
    pub start: Cursor,
    /// The last chunk id handed out.
    pub chunk_id_counter: nat,
    /// Capacity of the chunk before the tail, 0 when head and tail coincide.
    pub penult_chunk_size: nat,
    /// Capacity requested for the next chunk, 0 when none is.
    pub resize_to: nat,
    /// Capacity of the chunk kept for reuse, if any.
    pub recycled: Option<nat>,
    pub settings: Settings,
}

impl<T> QueueView<T> {
    pub open spec fn head(self) -> ChunkView<T> {
        self.chunks[0]
    }

    pub open spec fn tail(self) -> ChunkView<T> {
        self.chunks.last()
    }

    /// Position in `chunks` of the chunk with id `id`.
    pub open spec fn index_of(self, id: int) -> int {
        id - self.head().id
    }

    /// The current start position epoch.
    pub open spec fn epoch(self) -> u32 {
        self.head().epoch
    }

    /// The position just after the last pushed value.
    pub open spec fn end(self) -> Cursor {
        Cursor { chunk_id: self.tail().id as usize, index: self.tail().items.len() as usize }
    }

    /// `c` names a live chunk and a slot no further than its length.
    pub open spec fn valid_cursor(self, c: Cursor) -> bool {
        &&& self.head().id <= c.chunk_id <= self.tail().id
        &&& c.index <= self.chunks[self.index_of(c.chunk_id as int)].items.len()
    }

    /// The values at `c` and after it.
    pub open spec fn pending(self, c: Cursor) -> Seq<T> {
        rest(self.chunks, self.index_of(c.chunk_id as int), c.index as int)
    }

    /// Reader slot `k` holds a subscription.
    pub open spec fn is_reader(self, k: int) -> bool {
        0 <= k < self.readers.len() && self.readers[k] is Some
    }

    /// State of the reader in slot `k`.
    pub open spec fn reader(self, k: int) -> ReaderState {
        self.readers[k]->Some_0
    }

    /// Capacity the growth schedule gives the next chunk: a pending resize,
    /// else double the tail (capped) when the chunk before it has the same
    /// capacity, else the tail's capacity again.
    pub open spec fn scheduled_capacity(self) -> nat {
        if self.resize_to != 0 {
            self.resize_to
        } else if self.penult_chunk_size == self.tail().capacity {
            if 2 * self.tail().capacity <= self.settings.max_chunk_size {
                2 * self.tail().capacity
            } else {
                self.settings.max_chunk_size as nat
            }
        } else {
            self.tail().capacity
        }
    }

    /// The kept chunk is reused for the next chunk.
    pub open spec fn reuses_recycled(self) -> bool {
        match self.recycled {
            Some(c) => c >= self.scheduled_capacity(),
            None => false,
        }
    }

    /// Capacity of the next chunk.
    pub open spec fn next_capacity(self) -> nat {
        if self.reuses_recycled() {
            self.recycled->Some_0
        } else {
            self.scheduled_capacity()
        }
    }

    /// The structural invariant of a queue.
    pub open spec fn wf(self) -> bool {
        &&& self.settings.valid()
        &&& self.chunks.len() >= 1
        &&& forall|i: int| 0 <= i < self.chunks.len() ==> #[trigger] self.chunks[i].id == self.head().id + i
        &&& self.chunk_id_counter == self.tail().id
        &&& self.chunk_id_counter <= usize::MAX
        &&& forall|i: int|
            0 <= i < self.chunks.len() ==> 0 < #[trigger] self.chunks[i].capacity
                <= self.settings.max_chunk_size
        &&& forall|i: int|
            0 <= i < self.chunks.len() ==> #[trigger] self.chunks[i].items.len()
                <= self.chunks[i].capacity
        &&& forall|i: int|
            0 <= i < self.chunks.len() - 1 ==> #[trigger] self.chunks[i].items.len()
                == self.chunks[i].capacity
        &&& forall|i: int| 0 <= i < self.chunks.len() ==> #[trigger] self.chunks[i].epoch == self.epoch()
        &&& self.penult_chunk_size == if self.chunks.len() >= 2 {
            self.chunks[self.chunks.len() - 2].capacity
        } else {
            0
        }
        &&& (self.resize_to == 0 || self.settings.min_chunk_size <= self.resize_to
            <= self.settings.max_chunk_size)
        &&& (self.recycled matches Some(c) ==> self.settings.double_buffering && 0 < c
            <= self.settings.max_chunk_size)
        &&& self.subscribers == live_count(self.readers)
        &&& forall|i: int|
            0 <= i < self.chunks.len() ==> #[trigger] self.chunks[i].read_count == passed_count(
                self.readers,
                self.chunks[i].id,
            )
        &&& forall|k: int| #[trigger] self.is_reader(k) ==> self.valid_cursor(self.reader(k).cursor)
        &&& self.start.chunk_id <= self.tail().id
        &&& (self.head().id <= self.start.chunk_id ==> self.valid_cursor(self.start))
    }
}

impl<T> QueueView<T> {
    /// The queue after the producer links a new, empty chunk behind the tail.
    pub open spec fn grown(self) -> QueueView<T> {
        QueueView {
            chunks: self.chunks.push(
                ChunkView {
                    id: self.chunk_id_counter + 1 as int,
                    capacity: self.next_capacity(),
                    items: Seq::empty(),
                    epoch: self.epoch(),
                    read_count: 0,
                },
            ),
            chunk_id_counter: self.chunk_id_counter + 1,
            penult_chunk_size: self.tail().capacity,
            resize_to: 0,
            recycled: if self.reuses_recycled() {
                None
            } else {
                self.recycled
            },
            ..self
        }
    }

    /// The queue after `v` is pushed: into the tail when it has room, else
    /// into a new chunk linked behind it.
    pub open spec fn pushed(self, v: T) -> QueueView<T> {
        let q = if self.tail().items.len() < self.tail().capacity {
            self
        } else {
            self.grown()
        };
        QueueView {
            chunks: q.chunks.update(
                q.chunks.len() - 1,
                ChunkView { items: q.tail().items.push(v), ..q.tail() },
            ),
            ..q
        }
    }

    /// The queue after each of `vs` is pushed, in order.
    pub open spec fn pushed_all(self, vs: Seq<T>) -> QueueView<T>
        decreases vs.len(),
    {
        if vs.len() == 0 {
            self
        } else {
            self.pushed_all(vs.drop_last()).pushed(vs.last())
        }
    }

    /// Slot `k` holds no subscription, or is one past the last slot.
    pub open spec fn is_free_slot(self, k: int) -> bool {
        (0 <= k < self.readers.len() && self.readers[k] is None) || k == self.readers.len()
    }

    /// Number of live chunks, counted from the ids of head and tail.
    pub open spec fn chunks_count(self) -> int {
        self.chunk_id_counter - self.head().id + 1
    }
}

pub(crate) proof fn lemma_count_update(
    rs: Seq<Option<ReaderState>>,
    k: int,
    x: Option<ReaderState>,
    f: spec_fn(Option<ReaderState>) -> bool,
)
    requires
        0 <= k < rs.len(),
    ensures
        count(rs.update(k, x), f) as int == count(rs, f) as int - (if f(rs[k]) {
            1int
        } else {
            0int
        }) + (if f(x) {
            1int
        } else {
            0int
        }),
    decreases rs.len(),
{
    if k == rs.len() - 1 {
        assert(rs.update(k, x).drop_last() =~= rs.drop_last());
    } else {
        lemma_count_update(rs.drop_last(), k, x, f);
        assert(rs.update(k, x).drop_last() =~= rs.drop_last().update(k, x));
    }
}

pub(crate) proof fn lemma_count_push(
    rs: Seq<Option<ReaderState>>,
    x: Option<ReaderState>,
    f: spec_fn(Option<ReaderState>) -> bool,
)
    ensures
        count(rs.push(x), f) == count(rs, f) + (if f(x) {
            1nat
        } else {
            0nat
        }),
{
    assert(rs.push(x).drop_last() =~= rs);
}

pub(crate) proof fn lemma_count_le(
    rs: Seq<Option<ReaderState>>,
    f: spec_fn(Option<ReaderState>) -> bool,
    g: spec_fn(Option<ReaderState>) -> bool,
)
    requires
        forall|i: int| 0 <= i < rs.len() && #[trigger] f(rs[i]) ==> g(rs[i]),
    ensures
        count(rs, f) <= count(rs, g),
    decreases rs.len(),
{
    if rs.len() > 0 {
        assert forall|i: int| 0 <= i < rs.drop_last().len() && #[trigger] f(rs.drop_last()[i]) implies g(
            rs.drop_last()[i],
        ) by {
            assert(rs.drop_last()[i] == rs[i]);
        }
        lemma_count_le(rs.drop_last(), f, g);
    }
}

pub(crate) proof fn lemma_count_lt(
    rs: Seq<Option<ReaderState>>,
    f: spec_fn(Option<ReaderState>) -> bool,
    g: spec_fn(Option<ReaderState>) -> bool,
    k: int,
)
    requires
        forall|i: int| 0 <= i < rs.len() && #[trigger] f(rs[i]) ==> g(rs[i]),
        0 <= k < rs.len(),
        g(rs[k]),
        !f(rs[k]),
    ensures
        count(rs, f) < count(rs, g),
    decreases rs.len(),
{
    assert forall|i: int| 0 <= i < rs.drop_last().len() && #[trigger] f(rs.drop_last()[i]) implies g(
        rs.drop_last()[i],
    ) by {
        assert(rs.drop_last()[i] == rs[i]);
    }
    if k == rs.len() - 1 {
        lemma_count_le(rs.drop_last(), f, g);
    } else {
        assert(rs.drop_last()[k] == rs[k]);
        lemma_count_lt(rs.drop_last(), f, g, k);
    }
}

pub(crate) proof fn lemma_count_zero(rs: Seq<Option<ReaderState>>, f: spec_fn(Option<ReaderState>) -> bool)
    requires
        forall|i: int| 0 <= i < rs.len() ==> !#[trigger] f(rs[i]),
    ensures
        count(rs, f) == 0,
    decreases rs.len(),
{
    if rs.len() > 0 {
        assert forall|i: int| 0 <= i < rs.drop_last().len() implies !#[trigger] f(rs.drop_last()[i]) by {
            assert(rs.drop_last()[i] == rs[i]);
        }
        lemma_count_zero(rs.drop_last(), f);
    }
}

/// A broadcast event queue.
pub struct EventQueue<T> {
    chunks: Vec<Chunk<T>>,
    chunk_id_counter: usize,
    penult_chunk_size: u32,
    resize_to: u32,
    recycled: Option<Chunk<T>>,
    readers: Vec<Option<ReaderState>>,
    subscribers: usize,
    start_position: Cursor,
    settings: Settings,
}

impl<T> View for EventQueue<T> {
    type V = QueueView<T>;

    closed spec fn view(&self) -> QueueView<T> {
        QueueView {
            chunks: self.chunks@.map_values(|c: Chunk<T>| c@),
            readers: self.readers@,
            subscribers: self.subscribers as nat,
            start: self.start_position,
            chunk_id_counter: self.chunk_id_counter as nat,
            penult_chunk_size: self.penult_chunk_size as nat,
            resize_to: self.resize_to as nat,
            recycled: match self.recycled {
                Some(c) => Some(c.capacity as nat),
                None => None,
            },
            settings: self.settings,
        }
    }
}

impl<T> EventQueue<T> {
    /// A well-formed queue has a well-formed view.
    pub proof fn lemma_wf(&self)
        requires
            self.wf(),
        ensures
            self@.wf(),
    {
    }

    /// The invariant of a queue: that of its view, and each chunk's own.
    pub closed spec fn wf(&self) -> bool {
        &&& self@.wf()
        &&& forall|i: int| 0 <= i < self.chunks@.len() ==> (#[trigger] self.chunks@[i]).wf()
        &&& (self.recycled matches Some(c) ==> c.wf() && c.slots@.len() == 0)
    }

    /// A queue with the default settings: one empty chunk of the minimum
    /// capacity, no readers.
    pub fn new() -> (r: Self)
        ensures
            r.wf(),
            r@ == QueueView::<T>::initial(DefaultSettings::spec_settings()),
    {
        Self::with_settings(DefaultSettings::settings())
    }

    /// A queue with one empty chunk of `settings.min_chunk_size` slots, and no readers.
    pub fn with_settings(settings: Settings) -> (r: Self)
        requires
            settings.valid(),
        ensures
            r.wf(),
            r@ == QueueView::<T>::initial(settings),
    {
        let mut chunks: Vec<Chunk<T>> = Vec::new();
        chunks.push(Chunk::new(0, 0, settings.min_chunk_size as usize));
        let q = EventQueue {
            chunks,
            chunk_id_counter: 0,
            penult_chunk_size: 0,
            resize_to: 0,
            recycled: None,
            readers: Vec::new(),
            subscribers: 0,
            start_position: Cursor { chunk_id: 0, index: 0 },
            settings,
        };
        assert(q@.chunks =~= QueueView::<T>::initial(settings).chunks);
        q
    }

    /// Links a new, empty chunk behind the full tail.
    fn add_chunk(&mut self)
        requires
            old(self).wf(),
            old(self)@.tail().items.len() == old(self)@.tail().capacity,
            old(self)@.chunk_id_counter < usize::MAX,
        ensures
            final(self).wf(),
            final(self)@ == old(self)@.grown(),
    {
        let tail_i = self.chunks.len() - 1;
        let epoch = self.chunks[tail_i].len_and_epoch().epoch();
        let tail_cap = self.chunks[tail_i].capacity;
        let mut new_size: usize = 0;
        if self.resize_to != 0 {
            new_size = self.resize_to as usize;
            self.resize_to = 0;
        }
        if new_size == 0 {
            new_size =
            if self.penult_chunk_size as usize == tail_cap {
                if tail_cap * 2 <= self.settings.max_chunk_size as usize {
                    tail_cap * 2
                } else {
                    self.settings.max_chunk_size as usize
                }
            } else {
                tail_cap
            };
        }
        self.chunk_id_counter = self.chunk_id_counter + 1;
        let reuse = match &self.recycled {
            Some(c) => c.capacity >= new_size,
            None => false,
        };
        let new_chunk = if reuse {
            let mut c = self.recycled.take().unwrap();
            c.reinit(self.chunk_id_counter, epoch);
            c
        } else {
            Chunk::new(self.chunk_id_counter, epoch, new_size)
        };
        self.chunks.push(new_chunk);
        self.penult_chunk_size = tail_cap as u32;
        proof {
            let o = old(self)@;
            assert(o.chunks[tail_i as int].epoch == o.epoch());
            assert(self@.chunks[tail_i + 1].id == o.grown().chunks[tail_i + 1].id);
            assert(self@.chunks[tail_i + 1].capacity == o.grown().chunks[tail_i + 1].capacity);
            assert(self@.chunks[tail_i + 1].epoch == o.grown().chunks[tail_i + 1].epoch);
            assert(self@.chunks[tail_i + 1].items == o.grown().chunks[tail_i + 1].items);
            assert(self@.chunks[tail_i + 1].read_count == o.grown().chunks[tail_i + 1].read_count);
            assert forall|i: int| 0 <= i <= tail_i implies self@.chunks[i] == o.chunks[i] by {
                assert(self.chunks@[i] == old(self).chunks@[i]);
            }
            assert(self@.chunks =~= o.grown().chunks);
            assert forall|i: int| 0 <= i < self.readers@.len() implies !#[trigger] has_passed(
                self.readers@[i],
                o.chunk_id_counter as int + 1,
            ) by {
                if self.readers@[i] is Some {
                    assert(o.is_reader(i));
                }
            }
            lemma_count_zero(
                self.readers@,
                |r: Option<ReaderState>| has_passed(r, o.chunk_id_counter as int + 1),
            );
            assert forall|k: int| #[trigger] self@.is_reader(k) implies self@.valid_cursor(
                self@.reader(k).cursor,
            ) by {
                assert(o.is_reader(k));
            }
        }
    }

    /// Appends `value` behind every value pushed before it.
    pub fn push(&mut self, value: T)
        requires
            old(self).wf(),
            old(self)@.chunk_id_counter < usize::MAX,
        ensures
            final(self).wf(),
            final(self)@ == old(self)@.pushed(value),
    {
        let tail_i = self.chunks.len() - 1;
        let r = self.chunks[tail_i].try_push(value);
        match r {
            Ok(()) => {
                proof {
                    assert(self@.chunks =~= old(self)@.pushed(value).chunks);
                    assert forall|k: int| #[trigger] self@.is_reader(k) implies self@.valid_cursor(
                        self@.reader(k).cursor,
                    ) by {
                        assert(old(self)@.is_reader(k));
                    }
                }
            },
            Err(v) => {
                assert(self@.chunks =~= old(self)@.chunks);
                self.add_chunk();
                let last = self.chunks.len() - 1;
                self.chunks[last].push_unchecked(v);
                proof {
                    let g = old(self)@.grown();
                    assert(self@.chunks =~= old(self)@.pushed(value).chunks);
                    assert forall|k: int| #[trigger] self@.is_reader(k) implies self@.valid_cursor(
                        self@.reader(k).cursor,
                    ) by {
                        assert(g.is_reader(k));
                    }
                }
            },
        }
    }

    /// Number of live chunks.
    pub fn chunks_count(&self) -> (r: usize)
        requires
            self.wf(),
        ensures
            r == self@.chunks.len(),
            r == self@.chunks_count(),
    {
        proof {
            assert(self@.chunks[self@.chunks.len() - 1].id == self@.head().id + self@.chunks.len() - 1);
        }
        self.chunks.len()
    }
}

impl<T> QueueView<T> {
    /// A fresh queue: one empty chunk of the minimum capacity, id 0, epoch 0.
    pub open spec fn initial(settings: Settings) -> QueueView<T> {
        QueueView {
            chunks: seq![
                ChunkView {
                    id: 0,
                    capacity: settings.min_chunk_size as nat,
                    items: Seq::empty(),
                    epoch: 0,
                    read_count: 0,
                },
            ],
            readers: Seq::empty(),
            subscribers: 0,
            start: Cursor { chunk_id: 0, index: 0 },
            chunk_id_counter: 0,
            penult_chunk_size: 0,
            resize_to: 0,
            recycled: None,
            settings,
        }
    }
}

impl DefaultSettings {
    pub open spec fn spec_settings() -> Settings {
        Settings {
            min_chunk_size: 4,
            max_chunk_size: MAX_CHUNK_CAPACITY,
            auto_cleanup: true,
            double_buffering: false,
        }
    }
}

impl<T> QueueView<T> {
    /// The kept chunk after a chunk of capacity `cap` is freed: the larger of
    /// the two is kept, when chunks are reused at all.
    pub open spec fn recycled_after_free(self, cap: nat) -> Option<nat> {
        if !self.settings.double_buffering {
            self.recycled
        } else {
            match self.recycled {
                Some(rc) => if rc >= cap {
                    Some(rc)
                } else {
                    Some(cap)
                },
                None => Some(cap),
            }
        }
    }

    /// The queue after its head chunk is reclaimed.
    pub open spec fn without_head(self) -> QueueView<T> {
        QueueView {
            chunks: self.chunks.skip(1),
            penult_chunk_size: if self.chunks.len() >= 3 {
                self.penult_chunk_size
            } else {
                0
            },
            recycled: self.recycled_after_free(self.head().capacity),
            ..self
        }
    }

    /// The head chunk may be reclaimed: it has a successor and every
    /// subscribed reader has left it behind.
    pub open spec fn head_reclaimable(self) -> bool {
        self.chunks.len() > 1 && self.head().read_count == self.subscribers
    }

    /// The queue after cleanup: head chunks are reclaimed while reclaimable.
    pub open spec fn cleaned(self) -> QueueView<T>
        decreases self.chunks.len(),
    {
        if self.chunks.len() > 1 && self.head_reclaimable() {
            self.without_head().cleaned()
        } else {
            self
        }
    }

    /// Chunk `c` lies in `[from, to)` by id.
    pub open spec fn crossed(c: ChunkView<T>, from: Cursor, to: Cursor) -> bool {
        from.chunk_id <= c.id < to.chunk_id
    }

    /// The queue after reader `k` moves to `c`, counting itself as done with
    /// every chunk it leaves behind.
    pub open spec fn advanced(self, k: int, c: Cursor) -> QueueView<T> {
        let from = self.reader(k).cursor;
        QueueView {
            chunks: Seq::new(
                self.chunks.len(),
                |i: int|
                    if Self::crossed(self.chunks[i], from, c) {
                        ChunkView { read_count: self.chunks[i].read_count + 1, ..self.chunks[i] }
                    } else {
                        self.chunks[i]
                    },
            ),
            readers: self.readers.update(k, Some(ReaderState { cursor: c, ..self.reader(k) })),
            ..self
        }
    }

    /// Moving reader `k` to `c` completes some chunk: a chunk it leaves had
    /// been left by all other readers.
    pub open spec fn crossing_completes(self, k: int, c: Cursor) -> bool {
        exists|i: int|
            0 <= i < self.chunks.len() && Self::crossed(self.chunks[i], self.reader(k).cursor, c)
                && #[trigger] self.chunks[i].read_count + 1 >= self.subscribers
    }

    /// Reader `k` moves to `c`; with `try_cleanup`, cleanup follows when the
    /// move completed a chunk.
    pub open spec fn forwarded(self, k: int, c: Cursor, try_cleanup: bool) -> QueueView<T> {
        if try_cleanup && self.crossing_completes(k, c) {
            self.advanced(k, c).cleaned()
        } else {
            self.advanced(k, c)
        }
    }
}

pub(crate) proof fn lemma_count_len(rs: Seq<Option<ReaderState>>, f: spec_fn(Option<ReaderState>) -> bool)
    ensures
        count(rs, f) <= rs.len(),
    decreases rs.len(),
{
    if rs.len() > 0 {
        lemma_count_len(rs.drop_last(), f);
    }
}

/// Some entry satisfies `f`, so `f` counts at least one.
pub(crate) proof fn lemma_count_pos(rs: Seq<Option<ReaderState>>, f: spec_fn(Option<ReaderState>) -> bool, k: int)
    requires
        0 <= k < rs.len(),
        f(rs[k]),
    ensures
        count(rs, f) >= 1,
{
    lemma_count_lt(rs, |o: Option<ReaderState>| false, f, k);
}

impl<T> QueueView<T> {
    /// When the head is reclaimable every subscribed reader stands past it.
    pub(crate) proof fn lemma_reclaimable_head_passed(self)
        requires
            self.wf(),
            self.head_reclaimable(),
        ensures
            forall|k: int| #[trigger] self.is_reader(k) ==> self.reader(k).cursor.chunk_id > self.head().id,
    {
        assert forall|k: int| #[trigger] self.is_reader(k) implies self.reader(k).cursor.chunk_id
            > self.head().id by {
            let f = |o: Option<ReaderState>| has_passed(o, self.head().id);
            let g = |o: Option<ReaderState>| is_live(o);
            assert(self.chunks[0].read_count == passed_count(self.readers, self.chunks[0].id));
            if !f(self.readers[k]) {
                lemma_count_lt(self.readers, f, g, k);
            }
        }
    }

    pub(crate) proof fn lemma_without_head_wf(self)
        requires
            self.wf(),
            self.head_reclaimable(),
        ensures
            self.without_head().wf(),
    {
        self.lemma_reclaimable_head_passed();
        let n = self.without_head();
        assert forall|i: int| 0 <= i < n.chunks.len() implies #[trigger] n.chunks[i] == self.chunks[i + 1] by {}
        assert(n.chunks[0] == self.chunks[1]);
        assert forall|k: int| #[trigger] n.is_reader(k) implies n.valid_cursor(n.reader(k).cursor) by {
            assert(self.is_reader(k));
            assert(n.chunks[n.index_of(n.reader(k).cursor.chunk_id as int)] == self.chunks[self.index_of(
                n.reader(k).cursor.chunk_id as int,
            )]);
        }
        if n.head().id <= n.start.chunk_id {
            assert(n.chunks[n.index_of(n.start.chunk_id as int)] == self.chunks[self.index_of(
                n.start.chunk_id as int,
            )]);
        }
        assert(n.chunks.last() == self.chunks.last());
        assert(n.chunks[0].epoch == self.epoch());
        if n.chunks.len() >= 2 {
            assert(n.chunks[n.chunks.len() - 2] == self.chunks[self.chunks.len() - 2]);
        }
    }
}

impl<T> EventQueue<T> {
    /// Reclaims a chunk: keeps it for reuse when chunks are reused and it is
    /// larger than the one kept, else drops it.
    fn free_chunk(&mut self, chunk: Chunk<T>)
        requires
            chunk.wf(),
        ensures
            final(self).chunks == old(self).chunks,
            final(self).readers == old(self).readers,
            final(self).chunk_id_counter == old(self).chunk_id_counter,
            final(self).penult_chunk_size == old(self).penult_chunk_size,
            final(self).resize_to == old(self).resize_to,
            final(self).subscribers == old(self).subscribers,
            final(self).start_position == old(self).start_position,
            final(self).settings == old(self).settings,
            final(self)@.recycled == old(self)@.recycled_after_free(chunk.capacity as nat),
            (old(self).recycled matches Some(c) ==> c.wf() && c.slots@.len() == 0) ==> (
            final(self).recycled matches Some(c) ==> c.wf() && c.slots@.len() == 0),
    {
        if !self.settings.double_buffering {
            return;
        }
        let keep_old = match &self.recycled {
            Some(c) => c.capacity >= chunk.capacity,
            None => false,
        };
        if !keep_old {
            let mut chunk = chunk;
            chunk.recycle();
            self.recycled = Some(chunk);
        }
    }

    /// Reclaims head chunks while every reader has left them behind.
    fn cleanup_impl(&mut self)
        requires
            old(self).wf(),
        ensures
            final(self).wf(),
            final(self)@ == old(self)@.cleaned(),
    {
        let readers_count = self.subscribers;
        loop
            invariant
                self.wf(),
                self@.cleaned() == old(self)@.cleaned(),
                readers_count == self@.subscribers,
            ensures
                self.wf(),
                self@ == old(self)@.cleaned(),
            decreases self.chunks@.len(),
        {
            if self.chunks.len() <= 1 {
                assert(self@.cleaned() == self@);
                break;
            }
            if self.chunks[0].read_completely_times != readers_count {
                assert(self@.head().read_count == self.chunks@[0].read_completely_times);
                assert(self@.cleaned() == self@);
                break;
            }
            proof {
                self@.lemma_without_head_wf();
            }
            let ghost before = self@;
            let ghost before_chunks = self.chunks@;
            let chunk = self.chunks.remove(0);
            self.free_chunk(chunk);
            if self.chunks.len() == 1 {
                self.penult_chunk_size = 0;
            }
            proof {
                assert(self@.chunks =~= before.without_head().chunks);
                assert(self@ == before.without_head());
                assert forall|i: int| 0 <= i < self.chunks@.len() implies (
                #[trigger] self.chunks@[i]).wf() by {
                    assert(self.chunks@[i] == before_chunks[i + 1]);
                }
            }
        }
    }

    /// Reclaims every chunk that all readers have left behind.
    pub fn cleanup(&mut self)
        requires
            old(self).wf(),
        ensures
            final(self).wf(),
            final(self)@ == old(self)@.cleaned(),
    {
        self.cleanup_impl();
    }
}

impl<T> QueueView<T> {
    /// The queue after a reader is registered in slot `k` at the head's first
    /// slot, with the current epoch.
    pub open spec fn registered(self, k: int) -> QueueView<T> {
        let st = Some(
            ReaderState {
                cursor: Cursor { chunk_id: self.head().id as usize, index: 0 },
                epoch: self.epoch(),
            },
        );
        QueueView {
            readers: if k < self.readers.len() {
                self.readers.update(k, st)
            } else {
                self.readers.push(st)
            },
            subscribers: self.subscribers + 1,
            ..self
        }
    }

    /// The queue after a new reader subscribes in slot `k`: registered at the
    /// head, then moved to the end, counted as done with every chunk before
    /// the tail.
    pub open spec fn subscribed(self, k: int) -> QueueView<T> {
        self.registered(k).advanced(k, self.end())
    }

    /// The queue after reader `k` unsubscribes: it withdraws from the counter
    /// of each chunk it had left behind.
    pub open spec fn unsubscribed(self, k: int) -> QueueView<T> {
        let at = self.reader(k).cursor;
        QueueView {
            chunks: Seq::new(
                self.chunks.len(),
                |i: int|
                    if self.chunks[i].id < at.chunk_id {
                        ChunkView { read_count: (self.chunks[i].read_count - 1) as nat, ..self.chunks[i] }
                    } else {
                        self.chunks[i]
                    },
            ),
            readers: self.readers.update(k, None),
            subscribers: (self.subscribers - 1) as nat,
            ..self
        }
    }

    pub(crate) proof fn lemma_advanced_wf(self, k: int, c: Cursor)
        requires
            self.wf(),
            self.is_reader(k),
            self.valid_cursor(c),
            self.reader(k).cursor.spec_le(c),
        ensures
            self.advanced(k, c).wf(),
    {
        let n = self.advanced(k, c);
        let x = Some(ReaderState { cursor: c, ..self.reader(k) });
        lemma_count_update(self.readers, k, x, |o: Option<ReaderState>| is_live(o));
        assert forall|i: int| 0 <= i < n.chunks.len() implies #[trigger] n.chunks[i].read_count
            == passed_count(n.readers, n.chunks[i].id) by {
            assert(self.chunks[i].read_count == passed_count(self.readers, self.chunks[i].id));
            lemma_count_update(
                self.readers,
                k,
                x,
                |o: Option<ReaderState>| has_passed(o, self.chunks[i].id),
            );
        }
        assert forall|j: int| #[trigger] n.is_reader(j) implies n.valid_cursor(n.reader(j).cursor) by {
            if j != k {
                assert(self.is_reader(j));
            }
        }
        assert forall|i: int| 0 <= i < n.chunks.len() implies #[trigger] n.chunks[i].id == n.head().id + i by {
            assert(self.chunks[i].id == self.head().id + i);
        }
        assert forall|i: int| 0 <= i < n.chunks.len() implies #[trigger] n.chunks[i].epoch == n.epoch() by {
            assert(self.chunks[i].epoch == self.epoch());
        }
        assert forall|i: int| 0 <= i < n.chunks.len() implies 0 < #[trigger] n.chunks[i].capacity
            <= n.settings.max_chunk_size by {
            assert(0 < self.chunks[i].capacity);
        }
        assert forall|i: int| 0 <= i < n.chunks.len() implies #[trigger] n.chunks[i].items.len()
            <= n.chunks[i].capacity by {
            assert(self.chunks[i].items.len() <= self.chunks[i].capacity);
        }
        assert forall|i: int| 0 <= i < n.chunks.len() - 1 implies #[trigger] n.chunks[i].items.len()
            == n.chunks[i].capacity by {
            assert(self.chunks[i].items.len() == self.chunks[i].capacity);
        }
    }
}

impl<T> EventQueue<T> {
    /// Moves reader `slot` forward to `new_position`, marking each chunk it
    /// leaves behind as read by it; with `try_cleanup`, runs cleanup when one
    /// of those chunks has now been read by every reader.
    pub(crate) fn set_forward_position(&mut self, slot: usize, new_position: Cursor, try_cleanup: bool)
        requires
            old(self).wf(),
            old(self)@.is_reader(slot as int),
            old(self)@.valid_cursor(new_position),
            old(self)@.reader(slot as int).cursor.spec_le(new_position),
        ensures
            final(self).wf(),
            final(self)@ == old(self)@.forwarded(slot as int, new_position, try_cleanup),
    {
        let ghost o = self@;
        let st = self.readers[slot].unwrap();
        let head_id = self.chunks[0].id;
        let start_i = st.cursor.chunk_id - head_id;
        let end_i = new_position.chunk_id - head_id;
        let readers_count = self.subscribers;
        proof {
            lemma_count_pos(self.readers@, |r: Option<ReaderState>| is_live(r), slot as int);
        }
        let mut need_cleanup = false;
        let mut i: usize = start_i;
        while i < end_i
            invariant
                o == old(self)@,
                o.wf(),
                o.is_reader(slot as int),
                st == o.reader(slot as int),
                head_id == o.head().id,
                start_i == st.cursor.chunk_id - head_id,
                end_i == new_position.chunk_id - head_id,
                readers_count == o.subscribers,
                readers_count >= 1,
                start_i <= i <= end_i < o.chunks.len(),
                self.chunks@.len() == o.chunks.len(),
                forall|j: int| 0 <= j < self.chunks@.len() ==> (#[trigger] self.chunks@[j]).wf(),
                self.readers@ == o.readers,
                self.recycled == old(self).recycled,
                self@ == (QueueView::<T> { chunks: self@.chunks, ..o }),
                forall|j: int|
                    0 <= j < o.chunks.len() ==> #[trigger] self@.chunks[j] == if start_i <= j < i {
                        ChunkView { read_count: o.chunks[j].read_count + 1, ..o.chunks[j] }
                    } else {
                        o.chunks[j]
                    },
                need_cleanup == exists|j: int|
                    start_i <= j < i && #[trigger] o.chunks[j].read_count + 1 >= readers_count,
            decreases end_i - i,
        {
            let prev = self.chunks[i].read_completely_times;
            proof {
                assert(self@.chunks[i as int] == o.chunks[i as int]);
                assert(o.chunks[i as int].id == head_id + i);
                assert(o.chunks[i as int].read_count == passed_count(o.readers, o.chunks[i as int].id));
                lemma_count_lt(
                    o.readers,
                    |r: Option<ReaderState>| has_passed(r, o.chunks[i as int].id),
                    |r: Option<ReaderState>| is_live(r),
                    slot as int,
                );
            }
            let ghost pre = self.chunks@;
            let ghost pre_view = self@.chunks;
            self.chunks[i].read_completely_times = prev + 1;
            proof {
                assert forall|j: int| 0 <= j < o.chunks.len() implies #[trigger] self@.chunks[j] == if start_i
                    <= j < i + 1 {
                    ChunkView { read_count: o.chunks[j].read_count + 1, ..o.chunks[j] }
                } else {
                    o.chunks[j]
                } by {
                    assert(self@.chunks[j] == self.chunks@[j]@);
                    if j != i {
                        assert(self.chunks@[j] == pre[j]);
                        assert(pre_view[j] == pre[j]@);
                    } else {
                        assert(pre[j]@ == o.chunks[j]);
                        assert(self.chunks@[j].state == pre[j].state);
                        assert(self.chunks@[j].slots == pre[j].slots);
                        assert(self.chunks@[j].read_completely_times == prev + 1);
                    }
                }
            }
            if prev >= readers_count - 1 {
                need_cleanup = true;
            }
            proof {
                if prev + 1 >= readers_count {
                    assert(o.chunks[i as int].read_count + 1 >= readers_count);
                }
            }
            i = i + 1;
        }
        self.readers.set(slot, Some(ReaderState { cursor: new_position, epoch: st.epoch }));
        proof {
            o.lemma_advanced_wf(slot as int, new_position);
            let a = o.advanced(slot as int, new_position);
            assert forall|j: int| 0 <= j < o.chunks.len() implies #[trigger] self@.chunks[j] == a.chunks[j] by {
                assert(o.chunks[j].id == head_id + j);
            }
            assert(self@.chunks =~= a.chunks);
            assert(self@.readers =~= a.readers);
            assert(self@ == a);
            if need_cleanup {
                let j = choose|j: int| start_i <= j < i && #[trigger] o.chunks[j].read_count + 1 >= readers_count;
                assert(o.chunks[j].id == head_id + j);
                assert(QueueView::<T>::crossed(o.chunks[j], st.cursor, new_position));
            }
            if o.crossing_completes(slot as int, new_position) {
                let j = choose|j: int|
                    0 <= j < o.chunks.len() && QueueView::<T>::crossed(o.chunks[j], st.cursor, new_position)
                        && #[trigger] o.chunks[j].read_count + 1 >= o.subscribers;
                assert(o.chunks[j].id == head_id + j);
            }
        }
        if try_cleanup && need_cleanup {
            self.cleanup_impl();
        }
    }
}

impl<T> EventQueue<T> {
    /// A new reader, which receives every value pushed from now on: it starts
    /// at the current end of the queue and is counted as done with every chunk
    /// before the tail. It takes the first free reader slot.
    pub fn subscribe(&mut self) -> (r: EventReader)
        requires
            old(self).wf(),
        ensures
            final(self).wf(),
            old(self)@.is_free_slot(r.slot()),
            forall|j: int| 0 <= j < r.slot() ==> #[trigger] old(self)@.readers[j] is Some,
            final(self)@ == old(self)@.subscribed(r.slot()),
            final(self)@.is_reader(r.slot()),
            final(self)@.reader(r.slot()) == (ReaderState { cursor: old(self)@.end(), epoch: old(self)@.epoch() }),
            final(self)@.subscribers == old(self)@.subscribers + 1,
    {
        let ghost o = self@;
        let mut k: usize = 0;
        while k < self.readers.len() && self.readers[k].is_some()
            invariant
                self@ == o,
                k <= self.readers@.len(),
                forall|j: int| 0 <= j < k ==> #[trigger] self.readers@[j] is Some,
            decreases self.readers@.len() - k,
        {
            k = k + 1;
        }
        let head_id = self.chunks[0].id;
        let tail_i = self.chunks.len() - 1;
        let tail_id = self.chunks[tail_i].id;
        let le = self.chunks[tail_i].len_and_epoch();
        let st = ReaderState { cursor: Cursor { chunk_id: head_id, index: 0 }, epoch: le.epoch() };
        let ghost pre_readers = self.readers@;
        if k < self.readers.len() {
            self.readers.set(k, Some(st));
        } else {
            self.readers.push(Some(st));
        }
        proof {
            let live = |r: Option<ReaderState>| is_live(r);
            if k < pre_readers.len() {
                lemma_count_update(pre_readers, k as int, Some(st), live);
            } else {
                lemma_count_push(pre_readers, Some(st), live);
            }
            lemma_count_len(self.readers@, live);
            assert(live_count(self.readers@) == o.subscribers + 1);
            assert(self.readers.len() == self.readers@.len());
        }
        self.subscribers = self.subscribers + 1;
        proof {
            let g = o.registered(k as int);
            assert(o.chunks[tail_i as int].epoch == o.epoch());
            assert(self@.readers =~= g.readers);
            assert(self@ == g);
            assert forall|i: int| 0 <= i < g.chunks.len() implies #[trigger] g.chunks[i].read_count
                == passed_count(g.readers, g.chunks[i].id) by {
                let f = |r: Option<ReaderState>| has_passed(r, o.chunks[i].id);
                assert(o.chunks[i].read_count == passed_count(o.readers, o.chunks[i].id));
                assert(o.chunks[i].id == o.head().id + i);
                if k < pre_readers.len() {
                    lemma_count_update(pre_readers, k as int, Some(st), f);
                } else {
                    lemma_count_push(pre_readers, Some(st), f);
                }
            }
            assert forall|j: int| #[trigger] g.is_reader(j) implies g.valid_cursor(g.reader(j).cursor) by {
                if j != k {
                    assert(o.is_reader(j));
                }
            }
            assert(g.wf());
            assert(o.chunks[tail_i as int].id == o.head().id + tail_i);
            assert(g.valid_cursor(o.end()));
        }
        self.set_forward_position(k, Cursor { chunk_id: tail_id, index: le.len() as usize }, false);
        EventReader::new(k)
    }

    /// Ends a subscription: the reader withdraws from the counter of every
    /// chunk it had left behind, and its slot is freed.
    pub fn unsubscribe(&mut self, reader: EventReader)
        requires
            old(self).wf(),
            old(self)@.is_reader(reader.slot()),
        ensures
            final(self).wf(),
            final(self)@ == old(self)@.unsubscribed(reader.slot()),
    {
        let ghost o = self@;
        let slot = reader.slot_index();
        let st = self.readers[slot].unwrap();
        let end_i = st.cursor.chunk_id - self.chunks[0].id;
        let mut i: usize = 0;
        while i < end_i
            invariant
                o == old(self)@,
                o.wf(),
                o.is_reader(slot as int),
                st == o.reader(slot as int),
                end_i == st.cursor.chunk_id - o.head().id,
                i <= end_i < o.chunks.len(),
                self.chunks@.len() == o.chunks.len(),
                forall|j: int| 0 <= j < self.chunks@.len() ==> (#[trigger] self.chunks@[j]).wf(),
                self.readers@ == o.readers,
                self.recycled == old(self).recycled,
                self@ == (QueueView::<T> { chunks: self@.chunks, ..o }),
                forall|j: int|
                    0 <= j < o.chunks.len() ==> #[trigger] self@.chunks[j] == if j < i {
                        ChunkView { read_count: (o.chunks[j].read_count - 1) as nat, ..o.chunks[j] }
                    } else {
                        o.chunks[j]
                    },
            decreases end_i - i,
        {
            let prev = self.chunks[i].read_completely_times;
            proof {
                assert(self@.chunks[i as int] == o.chunks[i as int]);
                assert(o.chunks[i as int].id == o.head().id + i);
                assert(o.chunks[i as int].read_count == passed_count(o.readers, o.chunks[i as int].id));
                lemma_count_pos(
                    o.readers,
                    |r: Option<ReaderState>| has_passed(r, o.chunks[i as int].id),
                    slot as int,
                );
            }
            let ghost pre = self.chunks@;
            let ghost pre_view = self@.chunks;
            self.chunks[i].read_completely_times = prev - 1;
            proof {
                assert forall|j: int| 0 <= j < o.chunks.len() implies #[trigger] self@.chunks[j] == if j < i
                    + 1 {
                    ChunkView { read_count: (o.chunks[j].read_count - 1) as nat, ..o.chunks[j] }
                } else {
                    o.chunks[j]
                } by {
                    assert(self@.chunks[j] == self.chunks@[j]@);
                    if j != i {
                        assert(self.chunks@[j] == pre[j]);
                        assert(pre_view[j] == pre[j]@);
                    } else {
                        assert(pre[j]@ == o.chunks[j]);
                        assert(self.chunks@[j].state == pre[j].state);
                        assert(self.chunks@[j].slots == pre[j].slots);
                    }
                }
            }
            i = i + 1;
        }
        proof {
            lemma_count_pos(o.readers, |r: Option<ReaderState>| is_live(r), slot as int);
        }
        self.readers.set(slot, None);
        self.subscribers = self.subscribers - 1;
        proof {
            let n = o.unsubscribed(slot as int);
            assert forall|j: int| 0 <= j < o.chunks.len() implies #[trigger] self@.chunks[j] == n.chunks[j] by {
                assert(o.chunks[j].id == o.head().id + j);
            }
            assert(self@.chunks =~= n.chunks);
            assert(self@.readers =~= n.readers);
            lemma_count_update(o.readers, slot as int, None, |r: Option<ReaderState>| is_live(r));
            assert(self@ == n);
            assert forall|i: int| 0 <= i < n.chunks.len() implies #[trigger] n.chunks[i].read_count
                == passed_count(n.readers, n.chunks[i].id) by {
                assert(o.chunks[i].read_count == passed_count(o.readers, o.chunks[i].id));
                assert(o.chunks[i].id == o.head().id + i);
                lemma_count_update(
                    o.readers,
                    slot as int,
                    None,
                    |r: Option<ReaderState>| has_passed(r, o.chunks[i].id),
                );
            }
            assert forall|j: int| #[trigger] n.is_reader(j) implies n.valid_cursor(n.reader(j).cursor) by {
                assert(o.is_reader(j));
            }
            assert forall|i: int| 0 <= i < n.chunks.len() implies #[trigger] n.chunks[i].id == n.head().id + i by {
                assert(o.chunks[i].id == o.head().id + i);
            }
            assert forall|i: int| 0 <= i < n.chunks.len() implies #[trigger] n.chunks[i].epoch == n.epoch() by {
                assert(o.chunks[i].epoch == o.epoch());
            }
            assert forall|i: int| 0 <= i < n.chunks.len() implies 0 < #[trigger] n.chunks[i].capacity
                <= n.settings.max_chunk_size by {
                assert(0 < o.chunks[i].capacity);
            }
            assert forall|i: int| 0 <= i < n.chunks.len() implies #[trigger] n.chunks[i].items.len()
                <= n.chunks[i].capacity by {
                assert(o.chunks[i].items.len() <= o.chunks[i].capacity);
            }
            assert forall|i: int| 0 <= i < n.chunks.len() - 1 implies #[trigger] n.chunks[i].items.len()
                == n.chunks[i].capacity by {
                assert(o.chunks[i].items.len() == o.chunks[i].capacity);
            }
        }
    }
}

/// The epoch after `e`, wrapping at `u32::MAX`.
pub open spec fn next_epoch(e: u32) -> u32 {
    if e == u32::MAX {
        0
    } else {
        (e + 1) as u32
    }
}

impl<T> QueueView<T> {
    /// The queue with its start position at `c` and every chunk tagged with
    /// the next epoch.
    pub open spec fn with_start(self, c: Cursor) -> QueueView<T> {
        QueueView {
            chunks: Seq::new(
                self.chunks.len(),
                |i: int| ChunkView { epoch: next_epoch(self.epoch()), ..self.chunks[i] },
            ),
            start: c,
            ..self
        }
    }

    /// The queue after its start position moves to `c`; with automatic cleanup
    /// and no readers, cleanup follows at once.
    pub open spec fn start_moved(self, c: Cursor) -> QueueView<T> {
        if self.settings.auto_cleanup && self.subscribers == 0 {
            self.with_start(c).cleaned()
        } else {
            self.with_start(c)
        }
    }

    /// The queue after `clear`: the start position moves to the end.
    pub open spec fn cleared(self) -> QueueView<T> {
        self.start_moved(self.end())
    }

    /// Id of the first chunk kept by `truncate_front(k)`: the `k` newest
    /// chunks are kept, and at least the tail.
    pub open spec fn truncate_target(self, k: int) -> int {
        if k == 0 {
            self.tail().id
        } else {
            self.chunk_id_counter - k + 1
        }
    }

    /// `truncate_front(k)` moves the start position.
    pub open spec fn truncates(self, k: int) -> bool {
        self.truncate_target(k) > self.head().id
    }

    /// The queue after `truncate_front(k)`.
    pub open spec fn truncated(self, k: int) -> QueueView<T> {
        if self.truncates(k) {
            self.start_moved(Cursor { chunk_id: self.truncate_target(k) as usize, index: 0 })
        } else {
            self
        }
    }

    /// What `truncate_front(k)` returns: the number of chunks before the
    /// first one kept.
    pub open spec fn truncate_result(self, k: int) -> int {
        if self.truncates(k) {
            self.truncate_target(k) - self.head().id
        } else {
            0
        }
    }

    pub(crate) proof fn lemma_with_start_wf(self, c: Cursor)
        requires
            self.wf(),
            self.valid_cursor(c),
        ensures
            self.with_start(c).wf(),
    {
        let n = self.with_start(c);
        assert(n.chunks[0].epoch == next_epoch(self.epoch()));
        assert forall|i: int| 0 <= i < n.chunks.len() implies #[trigger] n.chunks[i].read_count
            == passed_count(n.readers, n.chunks[i].id) by {
            assert(self.chunks[i].read_count == passed_count(self.readers, self.chunks[i].id));
        }
        assert forall|j: int| #[trigger] n.is_reader(j) implies n.valid_cursor(n.reader(j).cursor) by {
            assert(self.is_reader(j));
        }
        assert forall|i: int| 0 <= i < n.chunks.len() implies #[trigger] n.chunks[i].id == n.head().id + i by {
            assert(self.chunks[i].id == self.head().id + i);
        }
        assert forall|i: int| 0 <= i < n.chunks.len() implies 0 < #[trigger] n.chunks[i].capacity
            <= n.settings.max_chunk_size by {
            assert(0 < self.chunks[i].capacity);
        }
        assert forall|i: int| 0 <= i < n.chunks.len() implies #[trigger] n.chunks[i].items.len()
            <= n.chunks[i].capacity by {
            assert(self.chunks[i].items.len() <= self.chunks[i].capacity);
        }
        assert forall|i: int| 0 <= i < n.chunks.len() - 1 implies #[trigger] n.chunks[i].items.len()
            == n.chunks[i].capacity by {
            assert(self.chunks[i].items.len() == self.chunks[i].capacity);
        }
        assert(n.tail() == ChunkView { epoch: next_epoch(self.epoch()), ..self.tail() });
        if n.chunks.len() >= 2 {
            assert(n.chunks[n.chunks.len() - 2].capacity == self.chunks[self.chunks.len() - 2].capacity);
        }
    }

    pub(crate) proof fn lemma_cleaned_wf(self)
        requires
            self.wf(),
        ensures
            self.cleaned().wf(),
        decreases self.chunks.len(),
    {
        if self.chunks.len() > 1 && self.head_reclaimable() {
            self.lemma_without_head_wf();
            self.without_head().lemma_cleaned_wf();
        }
    }
}

impl<T> EventQueue<T> {
    /// Moves the start position to `c` and publishes a new epoch into every
    /// chunk, so that readers notice; with automatic cleanup and no readers,
    /// cleans up at once.
    fn set_start_position(&mut self, c: Cursor)
        requires
            old(self).wf(),
            old(self)@.valid_cursor(c),
        ensures
            final(self).wf(),
            final(self)@ == old(self)@.start_moved(c),
    {
        let ghost o = self@;
        self.start_position = c;
        let e = self.chunks[0].len_and_epoch().epoch();
        let new_epoch = if e == u32::MAX {
            0
        } else {
            e + 1
        };
        let n = self.chunks.len();
        let mut i: usize = 0;
        while i < n
            invariant
                o == old(self)@,
                o.wf(),
                n == o.chunks.len(),
                new_epoch == next_epoch(o.epoch()),
                i <= n,
                self.chunks@.len() == n,
                forall|j: int| 0 <= j < self.chunks@.len() ==> (#[trigger] self.chunks@[j]).wf(),
                self.readers@ == o.readers,
                self.recycled == old(self).recycled,
                self@ == (QueueView::<T> { chunks: self@.chunks, start: c, ..o }),
                forall|j: int|
                    0 <= j < n ==> #[trigger] self@.chunks[j] == if j < i {
                        ChunkView { epoch: new_epoch, ..o.chunks[j] }
                    } else {
                        o.chunks[j]
                    },
            decreases n - i,
        {
            let ghost pre = self.chunks@;
            let ghost pre_view = self@.chunks;
            self.chunks[i].set_epoch(new_epoch);
            proof {
                assert forall|j: int| 0 <= j < n implies #[trigger] self@.chunks[j] == if j < i + 1 {
                    ChunkView { epoch: new_epoch, ..o.chunks[j] }
                } else {
                    o.chunks[j]
                } by {
                    assert(self@.chunks[j] == self.chunks@[j]@);
                    if j != i {
                        assert(self.chunks@[j] == pre[j]);
                        assert(pre_view[j] == pre[j]@);
                    } else {
                        assert(pre_view[j] == pre[j]@);
                    }
                }
            }
            i = i + 1;
        }
        proof {
            assert(self@.chunks =~= o.with_start(c).chunks);
            assert(self@ == o.with_start(c));
            o.lemma_with_start_wf(c);
        }
        if self.settings.auto_cleanup && self.subscribers == 0 {
            self.cleanup_impl();
        }
    }

    /// Forgets every value pushed so far: each reader, when it next reads,
    /// moves to the current end.
    pub fn clear(&mut self)
        requires
            old(self).wf(),
        ensures
            final(self).wf(),
            final(self)@ == old(self)@.cleared(),
    {
        let tail_i = self.chunks.len() - 1;
        let c = Cursor {
            chunk_id: self.chunks[tail_i].id,
            index: self.chunks[tail_i].len_and_epoch().len() as usize,
        };
        proof {
            assert(self@.chunks[tail_i as int].id == self@.head().id + tail_i);
        }
        self.set_start_position(c);
    }

    /// Keeps the `chunks_count` newest chunks, and at least the tail: the start
    /// position moves to the first chunk kept. Returns the number of chunks
    /// before it, which become reclaimable; 0 when none are.
    pub fn truncate_front(&mut self, chunks_count: usize) -> (r: usize)
        requires
            old(self).wf(),
        ensures
            final(self).wf(),
            final(self)@ == old(self)@.truncated(chunks_count as int),
            r == old(self)@.truncate_result(chunks_count as int),
    {
        let counter = self.chunk_id_counter;
        let head_id = self.chunks[0].id;
        if chunks_count > counter {
            return 0;
        }
        let target = if chunks_count == 0 {
            counter
        } else {
            counter - chunks_count + 1
        };
        if target <= head_id {
            return 0;
        }
        proof {
            let t = self@.chunks.len() - 1;
            assert(self@.chunks[t].id == self@.head().id + t);
            assert(self@.chunks[target - head_id].id == self@.head().id + (target - head_id));
        }
        self.set_start_position(Cursor { chunk_id: target, index: 0 });
        target - head_id
    }

    /// The next chunk gets `new_len` slots; the chunk kept for reuse, if any,
    /// is dropped.
    pub fn resize(&mut self, new_len: u32)
        requires
            old(self).wf(),
            old(self)@.settings.min_chunk_size <= new_len <= old(self)@.settings.max_chunk_size,
        ensures
            final(self).wf(),
            final(self)@ == (QueueView::<T> { resize_to: new_len as nat, recycled: None, ..old(self)@ }),
    {
        self.resize_to = new_len;
        self.recycled = None;
        proof {
            assert(self@.chunks =~= old(self)@.chunks);
            assert forall|k: int| #[trigger] self@.is_reader(k) implies self@.valid_cursor(
                self@.reader(k).cursor,
            ) by {
                assert(old(self)@.is_reader(k));
            }
        }
    }

    /// Appends every value of `values`, in order.
    pub fn extend(&mut self, values: Vec<T>)
        requires
            old(self).wf(),
            old(self)@.chunk_id_counter + values@.len() < usize::MAX,
        ensures
            final(self).wf(),
            final(self)@ == old(self)@.pushed_all(values@),
    {
        let ghost vs = values@;
        let mut values = values;
        let mut n: usize = 0;
        while values.len() > 0
            invariant
                self.wf(),
                n <= vs.len(),
                values@ == vs.skip(n as int),
                self@ == old(self)@.pushed_all(vs.take(n as int)),
                self@.chunk_id_counter <= old(self)@.chunk_id_counter + n,
                old(self)@.chunk_id_counter + vs.len() < usize::MAX,
            decreases values@.len(),
        {
            let v = values.remove(0);
            proof {
                assert(v == vs[n as int]);
            }
            self.push(v);
            proof {
                assert(vs.take(n + 1).drop_last() =~= vs.take(n as int));
                assert(vs.take(n + 1).last() == v);
            }
            n = n + 1;
            proof {
                assert(values@ =~= vs.skip(n as int));
            }
        }
        proof {
            assert(vs.take(n as int) =~= vs);
        }
    }
}

impl<T> QueueView<T> {
    /// Number of values visible in the chunk that reader `k` stands in.
    pub open spec fn reader_chunk_len(self, k: int) -> nat {
        self.chunks[self.index_of(self.reader(k).cursor.chunk_id as int)].items.len()
    }

    /// The queue with reader `k`'s cached epoch set to `e`.
    pub open spec fn with_reader_epoch(self, k: int, e: u32) -> QueueView<T> {
        QueueView { readers: self.readers.update(k, Some(ReaderState { epoch: e, ..self.reader(k) })), ..self }
    }

    /// Reader `k` catches up with the start position: when it stands before
    /// it, it moves there.
    pub open spec fn caught_up(self, k: int) -> QueueView<T> {
        if self.reader(k).cursor.spec_lt(self.start) {
            self.forwarded(k, self.start, self.settings.auto_cleanup)
        } else {
            self
        }
    }

    /// Reader `k` refreshes its epoch: when the chunk it stands in carries an
    /// epoch other than the cached one, it caches the new epoch and catches up
    /// with the start position.
    pub open spec fn synced(self, k: int) -> QueueView<T> {
        if self.reader(k).epoch != self.epoch() {
            self.with_reader_epoch(k, self.epoch()).caught_up(k)
        } else {
            self
        }
    }

    /// Cleanup reclaims chunks only: readers, subscribers, the start position
    /// and the settings stay.
    pub proof fn lemma_cleaned_keeps(self)
        ensures
            self.cleaned().readers == self.readers,
            self.cleaned().subscribers == self.subscribers,
            self.cleaned().start == self.start,
            self.cleaned().settings == self.settings,
            self.cleaned().chunk_id_counter == self.chunk_id_counter,
        decreases self.chunks.len(),
    {
        if self.chunks.len() > 1 && self.head_reclaimable() {
            self.without_head().lemma_cleaned_keeps();
        }
    }

    /// Moving reader `k` to `c` leaves it subscribed, standing at `c`.
    pub proof fn lemma_forwarded_reader(self, k: int, c: Cursor, try_cleanup: bool)
        requires
            self.is_reader(k),
        ensures
            self.forwarded(k, c, try_cleanup).is_reader(k),
            self.forwarded(k, c, try_cleanup).reader(k) == (ReaderState { cursor: c, ..self.reader(k) }),
            self.forwarded(k, c, try_cleanup).start == self.start,
            self.forwarded(k, c, try_cleanup).settings == self.settings,
    {
        self.advanced(k, c).lemma_cleaned_keeps();
    }

    pub(crate) proof fn lemma_forwarded_wf(self, k: int, c: Cursor, try_cleanup: bool)
        requires
            self.wf(),
            self.is_reader(k),
            self.valid_cursor(c),
            self.reader(k).cursor.spec_le(c),
        ensures
            self.forwarded(k, c, try_cleanup).wf(),
    {
        self.lemma_advanced_wf(k, c);
        self.advanced(k, c).lemma_cleaned_wf();
    }
}

/// Reading from position `j` of chunk `i`, with `j` inside its visible
/// values, yields the value there, then the rest from `j + 1`.
pub proof fn lemma_rest_step<T>(chunks: Seq<ChunkView<T>>, i: int, j: int)
    requires
        0 <= i < chunks.len(),
        0 <= j < chunks[i].items.len(),
    ensures
        rest(chunks, i, j) == seq![chunks[i].items[j]] + rest(chunks, i, j + 1),
{
    let items = chunks[i].items;
    assert(items.subrange(j, items.len() as int) =~= seq![items[j]] + items.subrange(
        j + 1,
        items.len() as int,
    ));
    assert(rest(chunks, i, j) =~= seq![chunks[i].items[j]] + rest(chunks, i, j + 1));
}

/// Reading from the end of chunk `i` is reading from the start of the next one.
pub proof fn lemma_rest_next_chunk<T>(chunks: Seq<ChunkView<T>>, i: int)
    requires
        0 <= i < chunks.len(),
    ensures
        rest(chunks, i, chunks[i].items.len() as int) == rest(chunks, i + 1, 0),
{
    let items = chunks[i].items;
    assert(items.subrange(items.len() as int, items.len() as int) =~= Seq::<T>::empty());
    assert(rest(chunks, i, chunks[i].items.len() as int) =~= rest(chunks, i + 1, 0));
}

impl<T> EventQueue<T> {
    /// The settings the queue was made with.
    pub fn settings(&self) -> (r: Settings)
        ensures
            r == self@.settings,
    {
        self.settings
    }

    /// The state the queue keeps of reader `slot`.
    pub(crate) fn reader_state(&self, slot: usize) -> (r: ReaderState)
        requires
            self@.is_reader(slot as int),
        ensures
            r == self@.reader(slot as int),
    {
        self.readers[slot].unwrap()
    }

    /// The current start position.
    pub(crate) fn start_position(&self) -> (r: Cursor)
        ensures
            r == self@.start,
    {
        self.start_position
    }

    /// The state word of the live chunk with id `chunk_id`.
    pub(crate) fn chunk_state(&self, chunk_id: usize) -> (r: crate::chunk_state::LenAndEpoch)
        requires
            self.wf(),
            self@.head().id <= chunk_id <= self@.tail().id,
        ensures
            r.spec_len() == self@.chunks[self@.index_of(chunk_id as int)].items.len(),
            r.spec_epoch() == self@.epoch(),
    {
        let i = chunk_id - self.chunks[0].id;
        proof {
            assert(self@.chunks[i as int].epoch == self@.epoch());
        }
        self.chunks[i].len_and_epoch()
    }

    /// Whether the live chunk with id `chunk_id` has a successor.
    pub(crate) fn has_next(&self, chunk_id: usize) -> (r: bool)
        requires
            self.wf(),
            self@.head().id <= chunk_id <= self@.tail().id,
        ensures
            r == (chunk_id < self@.tail().id),
    {
        proof {
            let t = self@.chunks.len() - 1;
            assert(self@.chunks[t].id == self@.head().id + t);
        }
        chunk_id - self.chunks[0].id < self.chunks.len() - 1
    }

    /// The value at `c`.
    pub(crate) fn item(&self, c: Cursor) -> (r: &T)
        requires
            self.wf(),
            self@.head().id <= c.chunk_id <= self@.tail().id,
            c.index < self@.chunks[self@.index_of(c.chunk_id as int)].items.len(),
        ensures
            *r == self@.chunks[self@.index_of(c.chunk_id as int)].items[c.index as int],
    {
        let i = c.chunk_id - self.chunks[0].id;
        &self.chunks[i].slots[c.index]
    }

    /// Sets the cached epoch of reader `slot`.
    pub(crate) fn set_reader_epoch(&mut self, slot: usize, epoch: u32)
        requires
            old(self).wf(),
            old(self)@.is_reader(slot as int),
        ensures
            final(self).wf(),
            final(self)@ == old(self)@.with_reader_epoch(slot as int, epoch),
    {
        let st = self.readers[slot].unwrap();
        let ghost o = self@;
        self.readers.set(slot, Some(ReaderState { epoch, ..st }));
        proof {
            let n = o.with_reader_epoch(slot as int, epoch);
            assert(self@.readers =~= n.readers);
            assert(self@ == n);
            let x = Some(ReaderState { epoch, ..st });
            lemma_count_update(o.readers, slot as int, x, |r: Option<ReaderState>| is_live(r));
            assert forall|i: int| 0 <= i < n.chunks.len() implies #[trigger] n.chunks[i].read_count
                == passed_count(n.readers, n.chunks[i].id) by {
                assert(o.chunks[i].read_count == passed_count(o.readers, o.chunks[i].id));
                lemma_count_update(
                    o.readers,
                    slot as int,
                    x,
                    |r: Option<ReaderState>| has_passed(r, o.chunks[i].id),
                );
            }
            assert forall|j: int| #[trigger] n.is_reader(j) implies n.valid_cursor(n.reader(j).cursor) by {
                assert(o.is_reader(j));
            }
        }
    }
}

} // verus!
