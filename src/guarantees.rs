//! What holds of every well-formed queue, and of sequences of operations on
//! one, stated over the queue's view and proved.

use vstd::prelude::*;
use crate::chunk::ChunkView;
use crate::cursor::Cursor;
use crate::event_queue::{
    QueueView,
    ReaderState,
    rest,
    is_live,
    has_passed,
    next_epoch,
    passed_count,
    lemma_count_le,
};

verus! {

/// Every chunk that has a successor is full.
pub proof fn lemma_linked_chunks_are_full<T>(q: QueueView<T>)
    requires
        q.wf(),
    ensures
        forall|i: int| 0 <= i < q.chunks.len() - 1 ==> #[trigger] q.chunks[i].items.len() == q.chunks[i].capacity,
{
}

/// Every chunk's read-completion counter is at most the number of subscribers.
pub proof fn lemma_read_counts_bounded<T>(q: QueueView<T>)
    requires
        q.wf(),
    ensures
        forall|i: int| 0 <= i < q.chunks.len() ==> #[trigger] q.chunks[i].read_count <= q.subscribers,
{
    assert forall|i: int| 0 <= i < q.chunks.len() implies #[trigger] q.chunks[i].read_count <= q.subscribers by {
        assert(q.chunks[i].read_count == passed_count(q.readers, q.chunks[i].id));
        lemma_count_le(
            q.readers,
            |o: Option<ReaderState>| has_passed(o, q.chunks[i].id),
            |o: Option<ReaderState>| is_live(o),
        );
    }
}

/// Every chunk but the head follows another live chunk: its predecessor's id
/// is one less than its own.
pub proof fn lemma_chunks_linked<T>(q: QueueView<T>)
    requires
        q.wf(),
    ensures
        forall|i: int| 1 <= i < q.chunks.len() ==> #[trigger] q.chunks[i].id == q.chunks[i - 1].id + 1,
{
    assert forall|i: int| 1 <= i < q.chunks.len() implies #[trigger] q.chunks[i].id == q.chunks[i - 1].id + 1 by {
        assert(q.chunks[i - 1].id == q.head().id + i - 1);
    }
}

proof fn lemma_rest_append<T>(chunks: Seq<ChunkView<T>>, i: int, j: int, v: T)
    requires
        0 <= i < chunks.len(),
        0 <= j <= chunks[i].items.len(),
    ensures
        rest(
            chunks.update(
                chunks.len() - 1,
                ChunkView { items: chunks.last().items.push(v), ..chunks.last() },
            ),
            i,
            j,
        ) == rest(chunks, i, j).push(v),
    decreases chunks.len() - i,
{
    let last = chunks.len() - 1;
    let c2 = chunks.update(last, ChunkView { items: chunks.last().items.push(v), ..chunks.last() });
    if i == last {
        assert(rest(c2, i + 1, 0) =~= Seq::<T>::empty());
        assert(rest(chunks, i + 1, 0) =~= Seq::<T>::empty());
        let items = chunks[i].items;
        assert(items.push(v).subrange(j, items.len() as int + 1) =~= items.subrange(j, items.len() as int).push(v));
        assert(rest(c2, i, j) =~= rest(chunks, i, j).push(v));
    } else {
        lemma_rest_append(chunks, i + 1, 0, v);
        assert(c2[i] == chunks[i]);
        assert(rest(c2, i, j) =~= rest(chunks, i, j).push(v));
    }
}

proof fn lemma_rest_push_chunk<T>(chunks: Seq<ChunkView<T>>, c: ChunkView<T>, i: int, j: int)
    requires
        0 <= i < chunks.len(),
        0 <= j <= chunks[i].items.len(),
    ensures
        rest(chunks.push(c), i, j) == rest(chunks, i, j) + c.items,
    decreases chunks.len() - i,
{
    let c2 = chunks.push(c);
    if i == chunks.len() - 1 {
        assert(rest(c2, i + 2, 0) =~= Seq::<T>::empty());
        assert(c.items.subrange(0, c.items.len() as int) =~= c.items);
        assert(rest(c2, i + 1, 0) =~= c.items);
        assert(rest(chunks, i + 1, 0) =~= Seq::<T>::empty());
        assert(c2[i] == chunks[i]);
        assert(rest(c2, i, j) =~= rest(chunks, i, j) + c.items);
    } else {
        lemma_rest_push_chunk(chunks, c, i + 1, 0);
        assert(c2[i] == chunks[i]);
        assert(rest(c2, i, j) =~= rest(chunks, i, j) + c.items);
    }
}

/// Broadcast: pushing `v` appends `v` to what every valid position has
/// pending, so each subscribed reader will see it, after everything it had not
/// yet read. Readers and the start position are untouched.
pub proof fn lemma_push_broadcasts<T>(q: QueueView<T>, v: T, c: Cursor)
    requires
        q.wf(),
        q.valid_cursor(c),
    ensures
        q.pushed(v).pending(c) == q.pending(c).push(v),
        q.pushed(v).readers == q.readers,
        q.pushed(v).start == q.start,
        q.pushed(v).valid_cursor(c),
{
    let i = q.index_of(c.chunk_id as int);
    assert(q.chunks[i].id == q.head().id + i);
    if q.tail().items.len() < q.tail().capacity {
        lemma_rest_append(q.chunks, i, c.index as int, v);
        if q.chunks.len() == 1 {
            assert(q.pushed(v).head().id == q.head().id);
        }
    } else {
        let g = q.grown();
        let nc = ChunkView { items: seq![v], ..g.tail() };
        assert(g.tail().items.push(v) =~= seq![v]);
        assert(q.pushed(v).chunks =~= q.chunks.push(nc));
        lemma_rest_push_chunk(q.chunks, nc, i, c.index as int);
    }
}

proof fn lemma_rest_skip<T>(chunks: Seq<ChunkView<T>>, i: int, j: int)
    requires
        1 <= i,
        chunks.len() >= 1,
    ensures
        rest(chunks.skip(1), i - 1, j) == rest(chunks, i, j),
    decreases chunks.len() - i,
{
    if i < chunks.len() {
        lemma_rest_skip(chunks, i + 1, 0);
        assert(chunks.skip(1)[i - 1] == chunks[i]);
    }
}

proof fn lemma_rest_same_items<T>(a: Seq<ChunkView<T>>, b: Seq<ChunkView<T>>, i: int, j: int)
    requires
        a.len() == b.len(),
        forall|k: int| 0 <= k < a.len() ==> #[trigger] a[k].items == b[k].items,
    ensures
        rest(a, i, j) == rest(b, i, j),
    decreases a.len() - i,
{
    if 0 <= i < a.len() {
        lemma_rest_same_items(a, b, i + 1, 0);
        assert(a[i].items == b[i].items);
    }
}

/// Cleanup keeps the tail, and the head only moves forward.
pub proof fn lemma_cleaned_shape<T>(q: QueueView<T>)
    requires
        q.wf(),
    ensures
        q.cleaned().wf(),
        q.cleaned().tail() == q.tail(),
        q.cleaned().head().id >= q.head().id,
        q.cleaned().epoch() == q.epoch(),
    decreases q.chunks.len(),
{
    q.lemma_cleaned_wf();
    if q.chunks.len() > 1 && q.head_reclaimable() {
        q.lemma_without_head_wf();
        let n = q.without_head();
        assert(n.tail() == q.tail());
        assert(n.head() == q.chunks[1]);
        assert(q.chunks[1].id == q.head().id + 1);
        assert(q.chunks[1].epoch == q.epoch());
        lemma_cleaned_shape(n);
    }
}

/// Cleanup does not change what a position at or after the new head has
/// pending.
pub proof fn lemma_cleaned_pending<T>(q: QueueView<T>, c: Cursor)
    requires
        q.wf(),
        q.valid_cursor(c),
        q.cleaned().head().id <= c.chunk_id,
    ensures
        q.cleaned().pending(c) == q.pending(c),
    decreases q.chunks.len(),
{
    if q.chunks.len() > 1 && q.head_reclaimable() {
        q.lemma_without_head_wf();
        let n = q.without_head();
        assert(n.head() == q.chunks[1]);
        assert(q.chunks[1].id == q.head().id + 1);
        lemma_cleaned_shape(n);
        let i = q.index_of(c.chunk_id as int);
        assert(q.chunks[i].id == q.head().id + i);
        assert(n.chunks[i - 1] == q.chunks[i]);
        lemma_rest_skip(q.chunks, i, c.index as int);
        lemma_cleaned_pending(n, c);
    }
}

/// `t` ends `s`.
pub open spec fn is_suffix<T>(s: Seq<T>, t: Seq<T>) -> bool {
    &&& t.len() <= s.len()
    &&& forall|i: int| 0 <= i < t.len() ==> #[trigger] t[i] == s[s.len() - t.len() + i]
}

proof fn lemma_rest_suffix<T>(chunks: Seq<ChunkView<T>>, ia: int, ja: int, ib: int, jb: int)
    requires
        0 <= ia <= ib < chunks.len(),
        0 <= ja <= chunks[ia].items.len(),
        0 <= jb <= chunks[ib].items.len(),
        ia < ib || ja <= jb,
    ensures
        is_suffix(rest(chunks, ia, ja), rest(chunks, ib, jb)),
        (ia < ib || ja < jb) && ja < chunks[ia].items.len() ==> rest(chunks, ib, jb).len() < rest(
            chunks,
            ia,
            ja,
        ).len(),
    decreases ib - ia,
{
    let s = rest(chunks, ia, ja);
    let t = rest(chunks, ib, jb);
    let n = chunks[ia].items.len() as int;
    let a = chunks[ia].items.subrange(ja, n);
    if ia == ib {
        let b = chunks[ia].items.subrange(jb, n);
        let r = rest(chunks, ia + 1, 0);
        assert(s == a + r);
        assert(t == b + r);
        assert forall|i: int| 0 <= i < t.len() implies #[trigger] t[i] == s[s.len() - t.len() + i] by {
            if i < b.len() {
                assert(t[i] == b[i]);
                assert(s[s.len() - t.len() + i] == a[jb - ja + i]);
            } else {
                assert(t[i] == r[i - b.len()]);
                assert(s[s.len() - t.len() + i] == r[i - b.len()]);
            }
        }
    } else {
        let r = rest(chunks, ia + 1, 0);
        lemma_rest_suffix(chunks, ia + 1, 0, ib, jb);
        assert(s == a + r);
        assert forall|i: int| 0 <= i < t.len() implies #[trigger] t[i] == s[s.len() - t.len() + i] by {
            assert(t[i] == r[r.len() - t.len() + i]);
            assert(s[s.len() - t.len() + i] == r[r.len() - t.len() + i]);
        }
    }
}

/// Cursor order is reading order: of two valid positions that each hold a
/// value, the first in cursor order has strictly more pending, so its value
/// is read first; and what the later one has pending ends what the earlier
/// one has.
pub proof fn lemma_cursor_order_is_read_order<T>(q: QueueView<T>, a: Cursor, b: Cursor)
    requires
        q.wf(),
        q.valid_cursor(a),
        q.valid_cursor(b),
    ensures
        a.spec_le(b) ==> is_suffix(q.pending(a), q.pending(b)),
        a.spec_le(b) ==> q.pending(a) =~= q.pending(a).take(
            q.pending(a).len() - q.pending(b).len(),
        ) + q.pending(b),
        a.index < q.chunks[q.index_of(a.chunk_id as int)].items.len() && b.index < q.chunks[q.index_of(
            b.chunk_id as int,
        )].items.len() ==> (a.spec_lt(b) <==> q.pending(b).len() < q.pending(a).len()),
{
    let ia = q.index_of(a.chunk_id as int);
    let ib = q.index_of(b.chunk_id as int);
    assert(q.chunks[ia].id == q.head().id + ia);
    assert(q.chunks[ib].id == q.head().id + ib);
    if a.spec_le(b) {
        lemma_rest_suffix(q.chunks, ia, a.index as int, ib, b.index as int);
        let s = q.pending(a);
        let t = q.pending(b);
        assert forall|i: int| 0 <= i < s.len() implies #[trigger] s[i] == (s.take(s.len() - t.len()) + t)[i] by {
            if i >= s.len() - t.len() {
                assert(t[i - (s.len() - t.len())] == s[i]);
            }
        }
    }
    if b.spec_le(a) {
        lemma_rest_suffix(q.chunks, ib, b.index as int, ia, a.index as int);
    }
}

/// A read consumes a prefix: when reader `k` moves to `c`, what it had
/// pending is some values (those it was handed) followed by what is pending at
/// `c`, and afterwards it has exactly what was pending at `c`. So no value
/// reaches one reader twice, and none is skipped.
pub proof fn lemma_read_consumes<T>(q: QueueView<T>, k: int, c: Cursor, try_cleanup: bool)
    requires
        q.wf(),
        q.is_reader(k),
        q.valid_cursor(c),
        q.reader(k).cursor.spec_le(c),
    ensures
        is_suffix(q.pending(q.reader(k).cursor), q.pending(c)),
        q.forwarded(k, c, try_cleanup).reader(k).cursor == c,
        q.forwarded(k, c, try_cleanup).pending(c) == q.pending(c),
{
    assert(q.valid_cursor(q.reader(k).cursor));
    lemma_cursor_order_is_read_order(q, q.reader(k).cursor, c);
    q.lemma_forwarded_reader(k, c, try_cleanup);
    q.lemma_advanced_wf(k, c);
    let a = q.advanced(k, c);
    lemma_rest_same_items(a.chunks, q.chunks, q.index_of(c.chunk_id as int), c.index as int);
    assert(a.head().id == q.head().id);
    if try_cleanup && q.crossing_completes(k, c) {
        a.lemma_cleaned_wf();
        a.lemma_cleaned_keeps();
        assert(a.cleaned().is_reader(k));
        assert(a.cleaned().valid_cursor(a.cleaned().reader(k).cursor));
        let i = q.index_of(c.chunk_id as int);
        assert(a.chunks[i] == ChunkView { read_count: a.chunks[i].read_count, ..q.chunks[i] });
        lemma_cleaned_pending(a, c);
    }
}

proof fn lemma_with_reader_epoch_wf<T>(q: QueueView<T>, k: int, e: u32)
    requires
        q.wf(),
        q.is_reader(k),
    ensures
        q.with_reader_epoch(k, e).wf(),
{
    let w = q.with_reader_epoch(k, e);
    let x = Some(ReaderState { epoch: e, ..q.reader(k) });
    crate::event_queue::lemma_count_update(q.readers, k, x, |o: Option<ReaderState>| is_live(o));
    assert forall|i: int| 0 <= i < w.chunks.len() implies #[trigger] w.chunks[i].read_count
        == passed_count(w.readers, w.chunks[i].id) by {
        assert(q.chunks[i].read_count == passed_count(q.readers, q.chunks[i].id));
        crate::event_queue::lemma_count_update(
            q.readers,
            k,
            x,
            |o: Option<ReaderState>| has_passed(o, q.chunks[i].id),
        );
    }
    assert forall|j: int| #[trigger] w.is_reader(j) implies w.valid_cursor(w.reader(j).cursor) by {
        assert(q.is_reader(j));
    }
}

/// Refreshing twice with nothing in between is refreshing once.
pub proof fn lemma_update_position_idempotent<T>(q: QueueView<T>, k: int)
    requires
        q.wf(),
        q.is_reader(k),
    ensures
        q.synced(k).synced(k) == q.synced(k),
{
    if q.reader(k).epoch != q.epoch() {
        let w = q.with_reader_epoch(k, q.epoch());
        lemma_with_reader_epoch_wf(q, k, q.epoch());
        if w.reader(k).cursor.spec_lt(w.start) {
            assert(w.valid_cursor(w.reader(k).cursor));
            assert(w.valid_cursor(w.start));
            w.lemma_forwarded_reader(k, w.start, w.settings.auto_cleanup);
            w.lemma_advanced_wf(k, w.start);
            let a = w.advanced(k, w.start);
            assert(a.tail().epoch == w.tail().epoch);
            assert(w.tail().epoch == w.epoch());
            assert(a.tail().epoch == a.epoch());
            lemma_cleaned_shape(a);
        }
    }
}

/// Once a reader whose cached epoch is stale has refreshed, it stands at or
/// after the start position.
pub proof fn lemma_update_position_reaches_start<T>(q: QueueView<T>, k: int)
    requires
        q.wf(),
        q.is_reader(k),
        q.reader(k).epoch != q.epoch(),
    ensures
        q.synced(k).is_reader(k),
        q.synced(k).start == q.start,
        q.start.spec_le(q.synced(k).reader(k).cursor),
{
    let w = q.with_reader_epoch(k, q.epoch());
    if w.reader(k).cursor.spec_lt(w.start) {
        w.lemma_forwarded_reader(k, w.start, w.settings.auto_cleanup);
    }
}

/// Nothing is pending at the end of the queue.
pub proof fn lemma_nothing_after_end<T>(q: QueueView<T>, c: Cursor)
    requires
        q.wf(),
        q.valid_cursor(c),
        q.end().spec_le(c),
    ensures
        c == q.end(),
        q.pending(c) == Seq::<T>::empty(),
{
    let t = q.chunks.len() - 1;
    assert(q.chunks[t].id == q.head().id + t);
    let items = q.tail().items;
    assert(items.subrange(items.len() as int, items.len() as int) =~= Seq::<T>::empty());
    assert(rest(q.chunks, t + 1, 0) =~= Seq::<T>::empty());
}

/// After `clear`, a reader that refreshes has nothing left to read: its next
/// read yields nothing until something is pushed. (A reader whose cached epoch
/// happens to equal the new one, after the epoch has wrapped around, does not
/// notice the move.)
pub proof fn lemma_clear_empties_readers<T>(q: QueueView<T>, k: int)
    requires
        q.wf(),
        q.is_reader(k),
        q.reader(k).epoch != next_epoch(q.epoch()),
    ensures
        q.cleared().synced(k).is_reader(k),
        q.cleared().synced(k).pending(q.cleared().synced(k).reader(k).cursor) == Seq::<T>::empty(),
{
    let e = q.end();
    let m = q.with_start(e);
    let t = q.chunks.len() - 1;
    assert(q.chunks[t].id == q.head().id + t);
    assert(q.valid_cursor(e));
    q.lemma_with_start_wf(e);
    assert(m.tail() == ChunkView { epoch: next_epoch(q.epoch()), ..q.tail() });
    assert(m.end() == e);
    let q2 = q.cleared();
    if q.settings.auto_cleanup && q.subscribers == 0 {
        lemma_cleaned_shape(m);
        m.lemma_cleaned_keeps();
    }
    assert(q2.wf());
    assert(q2.end() == e);
    assert(q2.start == e);
    assert(q2.is_reader(k));
    assert(q2.reader(k) == q.reader(k));
    assert(q2.epoch() == next_epoch(q.epoch()));
    lemma_update_position_reaches_start(q2, k);
    let s = q2.synced(k);
    let w = q2.with_reader_epoch(k, q2.epoch());
    lemma_with_reader_epoch_wf(q2, k, q2.epoch());
    if w.reader(k).cursor.spec_lt(w.start) {
        assert(w.valid_cursor(w.reader(k).cursor)) by {
            assert(q2.is_reader(k));
        }
        w.lemma_forwarded_wf(k, w.start, w.settings.auto_cleanup);
        w.lemma_advanced_wf(k, w.start);
        let a = w.advanced(k, w.start);
        assert(a.tail().items == q2.tail().items);
        assert(a.tail().id == q2.tail().id);
        lemma_cleaned_shape(a);
        assert(s.end() == e);
        lemma_nothing_after_end(s, e);
    } else {
        assert(q2.valid_cursor(q2.reader(k).cursor));
        assert(s == w);
        lemma_nothing_after_end(s, s.reader(k).cursor);
    }
}

/// With no readers, cleanup reclaims every chunk but the tail.
pub proof fn lemma_cleanup_without_readers<T>(q: QueueView<T>)
    requires
        q.wf(),
        q.subscribers == 0,
    ensures
        q.cleaned().chunks.len() == 1,
    decreases q.chunks.len(),
{
    if q.chunks.len() > 1 {
        lemma_read_counts_bounded(q);
        assert(q.chunks[0].read_count <= q.subscribers);
        q.lemma_without_head_wf();
        lemma_cleanup_without_readers(q.without_head());
    }
}

/// What `truncate_front(k)` returns is the drop in the number of chunks that
/// the call brings about, when it keeps only the tail of a queue with no
/// readers and automatic cleanup, or when it moves nothing. (With readers,
/// reclamation waits for them; with `k > 1`, cleanup without readers reclaims
/// more than the chunks before the first one kept.)
pub proof fn lemma_truncate_front_result<T>(q: QueueView<T>, k: int)
    requires
        q.wf(),
        k >= 0,
        (k == 1 && q.subscribers == 0 && q.settings.auto_cleanup) || !q.truncates(k),
    ensures
        q.truncate_result(k) == q.chunks.len() - q.truncated(k).chunks.len(),
{
    if q.truncates(k) {
        let t = q.chunks.len() - 1;
        assert(q.chunks[t].id == q.head().id + t);
        let c = Cursor { chunk_id: q.truncate_target(k) as usize, index: 0 };
        assert(q.valid_cursor(c)) by {
            let i = q.index_of(c.chunk_id as int);
            assert(q.chunks[i].id == q.head().id + i);
        }
        q.lemma_with_start_wf(c);
        lemma_cleanup_without_readers(q.with_start(c));
    }
}

/// Pushing keeps a queue well formed, while ids remain.
pub proof fn lemma_pushed_wf<T>(q: QueueView<T>, v: T)
    requires
        q.wf(),
        q.chunk_id_counter < usize::MAX,
    ensures
        q.pushed(v).wf(),
        q.pushed(v).chunk_id_counter <= q.chunk_id_counter + 1,
{
    let p = q.pushed(v);
    let t = q.chunks.len() - 1;
    assert(q.chunks[t].id == q.head().id + t);
    assert(q.chunks[t].epoch == q.epoch());
    if q.tail().items.len() < q.tail().capacity {
        assert forall|i: int| 0 <= i < p.chunks.len() implies #[trigger] p.chunks[i].read_count
            == passed_count(p.readers, p.chunks[i].id) by {
            assert(q.chunks[i].read_count == passed_count(q.readers, q.chunks[i].id));
        }
        assert forall|k: int| #[trigger] p.is_reader(k) implies p.valid_cursor(p.reader(k).cursor) by {
            assert(q.is_reader(k));
        }
        assert forall|i: int| 0 <= i < p.chunks.len() implies #[trigger] p.chunks[i].id == p.head().id + i by {
            assert(q.chunks[i].id == q.head().id + i);
        }
        assert forall|i: int| 0 <= i < p.chunks.len() implies #[trigger] p.chunks[i].epoch == p.epoch() by {
            assert(q.chunks[i].epoch == q.epoch());
        }
        assert forall|i: int| 0 <= i < p.chunks.len() implies 0 < #[trigger] p.chunks[i].capacity
            <= p.settings.max_chunk_size by {
            assert(0 < q.chunks[i].capacity);
        }
        assert forall|i: int| 0 <= i < p.chunks.len() implies #[trigger] p.chunks[i].items.len()
            <= p.chunks[i].capacity by {
            assert(q.chunks[i].items.len() <= q.chunks[i].capacity);
        }
        assert forall|i: int| 0 <= i < p.chunks.len() - 1 implies #[trigger] p.chunks[i].items.len()
            == p.chunks[i].capacity by {
            assert(q.chunks[i].items.len() == q.chunks[i].capacity);
        }
        if p.head().id <= p.start.chunk_id {
            assert(q.valid_cursor(q.start));
        }
    } else {
        let g = q.grown();
        let nc = ChunkView { items: seq![v], ..g.tail() };
        assert(g.tail().items.push(v) =~= seq![v]);
        assert(p.chunks =~= q.chunks.push(nc));
        assert forall|i: int| 0 <= i < q.readers.len() implies !#[trigger] has_passed(
            q.readers[i],
            q.chunk_id_counter as int + 1,
        ) by {
            if q.readers[i] is Some {
                assert(q.is_reader(i));
            }
        }
        crate::event_queue::lemma_count_zero(
            q.readers,
            |o: Option<ReaderState>| has_passed(o, q.chunk_id_counter as int + 1),
        );
        assert forall|i: int| 0 <= i < p.chunks.len() implies #[trigger] p.chunks[i].read_count
            == passed_count(p.readers, p.chunks[i].id) by {
            if i < q.chunks.len() {
                assert(q.chunks[i].read_count == passed_count(q.readers, q.chunks[i].id));
            }
        }
        assert forall|k: int| #[trigger] p.is_reader(k) implies p.valid_cursor(p.reader(k).cursor) by {
            assert(q.is_reader(k));
            let i = q.index_of(q.reader(k).cursor.chunk_id as int);
            assert(p.chunks[i] == q.chunks[i]);
        }
        assert forall|i: int| 0 <= i < p.chunks.len() implies #[trigger] p.chunks[i].id == p.head().id + i by {
            if i < q.chunks.len() {
                assert(q.chunks[i].id == q.head().id + i);
            }
        }
        assert forall|i: int| 0 <= i < p.chunks.len() implies #[trigger] p.chunks[i].epoch == p.epoch() by {
            if i < q.chunks.len() {
                assert(q.chunks[i].epoch == q.epoch());
            }
        }
        assert forall|i: int| 0 <= i < p.chunks.len() implies 0 < #[trigger] p.chunks[i].capacity
            <= p.settings.max_chunk_size by {
            if i < q.chunks.len() {
                assert(0 < q.chunks[i].capacity);
            }
        }
        assert forall|i: int| 0 <= i < p.chunks.len() implies #[trigger] p.chunks[i].items.len()
            <= p.chunks[i].capacity by {
            if i < q.chunks.len() {
                assert(q.chunks[i].items.len() <= q.chunks[i].capacity);
            }
        }
        assert forall|i: int| 0 <= i < p.chunks.len() - 1 implies #[trigger] p.chunks[i].items.len()
            == p.chunks[i].capacity by {
            if i < q.chunks.len() - 1 {
                assert(q.chunks[i].items.len() == q.chunks[i].capacity);
            }
        }
        if p.head().id <= p.start.chunk_id {
            if p.start.chunk_id <= q.tail().id {
                assert(q.valid_cursor(q.start));
                let i = q.index_of(q.start.chunk_id as int);
                assert(p.chunks[i] == q.chunks[i]);
            }
        }
    }
}

/// Broadcast over a run of pushes: pushing `vs` in order, with no reads in
/// between, appends exactly `vs` to what every valid position has pending, so
/// every subscribed reader, draining afterwards, receives `vs` in order after
/// what it had not yet read.
pub proof fn lemma_push_all_broadcasts<T>(q: QueueView<T>, vs: Seq<T>, c: Cursor)
    requires
        q.wf(),
        q.valid_cursor(c),
        q.chunk_id_counter + vs.len() < usize::MAX,
    ensures
        q.pushed_all(vs).wf(),
        q.pushed_all(vs).valid_cursor(c),
        q.pushed_all(vs).readers == q.readers,
        q.pushed_all(vs).chunk_id_counter <= q.chunk_id_counter + vs.len(),
        q.pushed_all(vs).pending(c) == q.pending(c) + vs,
    decreases vs.len(),
{
    if vs.len() == 0 {
        assert(q.pending(c) + vs =~= q.pending(c));
    } else {
        let init = vs.drop_last();
        lemma_push_all_broadcasts(q, init, c);
        let m = q.pushed_all(init);
        lemma_pushed_wf(m, vs.last());
        lemma_push_broadcasts(m, vs.last(), c);
        assert(q.pending(c) + init.push(vs.last()) =~= (q.pending(c) + init).push(vs.last()));
        assert(init.push(vs.last()) =~= vs);
    }
}

} // verus!
