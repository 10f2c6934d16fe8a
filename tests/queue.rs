use rc_event_queue::chunk_state::LenAndEpoch;
use rc_event_queue::cursor::Cursor;
use rc_event_queue::{DefaultSettings, EventQueue, EventReader, Settings};

fn settings(min: u32, max: u32) -> Settings {
    Settings { min_chunk_size: min, max_chunk_size: max, auto_cleanup: true, double_buffering: false }
}

fn collect(r: &mut EventReader, q: &mut EventQueue<i32>) -> Vec<i32> {
    let mut it = r.iter(q);
    let mut out = Vec::new();
    while let Some(v) = it.next(q) {
        out.push(*v);
    }
    it.finish(q);
    out
}

#[test]
fn subscription_is_not_retroactive() {
    let mut q = EventQueue::new();
    q.push(1);
    q.push(2);
    let mut r = q.subscribe();
    assert_eq!(collect(&mut r, &mut q), Vec::<i32>::new());
}

#[test]
fn broadcast_fifo() {
    let mut q = EventQueue::new();
    let mut r1 = q.subscribe();
    let mut r2 = q.subscribe();
    q.push(10);
    q.push(20);
    q.push(30);
    assert_eq!(collect(&mut r1, &mut q), vec![10, 20, 30]);
    assert_eq!(collect(&mut r2, &mut q), vec![10, 20, 30]);
}

#[test]
fn growth_schedule_doubles_every_second_chunk() {
    // Capacities 2, 2, 4, 4, 8, 8, 8: a new chunk starts at pushes 3, 5, 9, 13, 21, 29.
    let mut q: EventQueue<i32> = EventQueue::with_settings(settings(2, 8));
    let mut counts = Vec::new();
    for i in 0..37 {
        q.push(i);
        counts.push(q.chunks_count());
    }
    let starts: Vec<usize> = (1..counts.len()).filter(|&i| counts[i] != counts[i - 1]).map(|i| i + 1).collect();
    assert_eq!(starts, vec![3, 5, 9, 13, 21, 29, 37]);
    assert_eq!(q.chunks_count(), 8);
}

#[test]
fn cleanup_waits_for_every_reader() {
    let mut q = EventQueue::with_settings(settings(2, 2));
    let mut a = q.subscribe();
    let mut b = q.subscribe();
    for i in 0..5 {
        q.push(i);
    }
    assert_eq!(q.chunks_count(), 3);
    assert_eq!(collect(&mut a, &mut q), vec![0, 1, 2, 3, 4]);
    assert!(q.chunks_count() >= 2);
    assert_eq!(collect(&mut b, &mut q), vec![0, 1, 2, 3, 4]);
    assert_eq!(q.chunks_count(), 1);
}

#[test]
fn clear_forgets_earlier_values() {
    let mut q = EventQueue::new();
    let mut r = q.subscribe();
    q.push(1);
    q.push(2);
    q.clear();
    q.push(3);
    q.push(4);
    assert_eq!(collect(&mut r, &mut q), vec![3, 4]);
}

#[test]
fn truncate_front_keeps_newest_chunks() {
    let mut q = EventQueue::with_settings(settings(2, 2));
    let mut r = q.subscribe();
    for i in 0..8 {
        q.push(i);
    }
    assert_eq!(q.chunks_count(), 4);
    assert_eq!(q.truncate_front(2), 2);
    assert_eq!(q.chunks_count(), 4);
    r.update_position(&mut q);
    // The head is now the chunk with id 2: two chunks remain.
    assert_eq!(q.chunks_count(), 2);
    assert_eq!(collect(&mut r, &mut q), vec![4, 5, 6, 7]);
}

#[test]
fn truncate_front_without_readers_frees_at_once() {
    let mut q = EventQueue::with_settings(settings(2, 2));
    for i in 0..5 {
        q.push(i);
    }
    assert_eq!(q.chunks_count(), 3);
    assert_eq!(q.truncate_front(1), 2);
    assert_eq!(q.chunks_count(), 1);
}

#[test]
fn truncate_front_that_moves_nothing_returns_zero() {
    let mut q = EventQueue::with_settings(settings(2, 2));
    let mut r = q.subscribe();
    for i in 0..5 {
        q.push(i);
    }
    assert_eq!(q.truncate_front(3), 0);
    assert_eq!(q.truncate_front(10), 0);
    assert_eq!(q.chunks_count(), 3);
    assert_eq!(collect(&mut r, &mut q), vec![0, 1, 2, 3, 4]);
}

#[test]
fn truncate_front_zero_keeps_the_tail() {
    let mut q = EventQueue::with_settings(settings(2, 2));
    let mut r = q.subscribe();
    for i in 0..5 {
        q.push(i);
    }
    assert_eq!(q.truncate_front(0), 2);
    assert_eq!(collect(&mut r, &mut q), vec![4]);
    assert_eq!(q.chunks_count(), 1);
}

#[test]
fn iter_after_clear_yields_nothing_until_push() {
    let mut q = EventQueue::new();
    let mut r = q.subscribe();
    q.push(1);
    q.clear();
    {
        let mut it = r.iter(&mut q);
        assert!(it.next(&q).is_none());
        it.finish(&mut q);
    }
    q.push(2);
    assert_eq!(collect(&mut r, &mut q), vec![2]);
}

#[test]
fn each_value_reaches_a_reader_once() {
    let mut q = EventQueue::with_settings(settings(2, 4));
    let mut r = q.subscribe();
    q.push(1);
    q.push(2);
    q.push(3);
    assert_eq!(collect(&mut r, &mut q), vec![1, 2, 3]);
    assert_eq!(collect(&mut r, &mut q), Vec::<i32>::new());
    q.push(4);
    assert_eq!(collect(&mut r, &mut q), vec![4]);
}

#[test]
fn partial_read_resumes_where_it_stopped() {
    let mut q = EventQueue::with_settings(settings(2, 4));
    let mut r = q.subscribe();
    for i in 0..6 {
        q.push(i);
    }
    {
        let mut it = r.iter(&mut q);
        assert_eq!(it.next(&q).copied(), Some(0));
        assert_eq!(it.next(&q).copied(), Some(1));
        assert_eq!(it.next(&q).copied(), Some(2));
        it.finish(&mut q);
    }
    assert_eq!(collect(&mut r, &mut q), vec![3, 4, 5]);
}

#[test]
fn push_during_read_is_seen_by_the_next_read() {
    let mut q = EventQueue::with_settings(settings(4, 4));
    let mut r = q.subscribe();
    q.push(1);
    let mut it = r.iter(&mut q);
    assert_eq!(it.next(&q).copied(), Some(1));
    q.push(2);
    assert!(it.next(&q).is_none());
    it.finish(&mut q);
    assert_eq!(collect(&mut r, &mut q), vec![2]);
}

#[test]
fn update_position_twice_is_once() {
    let mut q = EventQueue::with_settings(settings(2, 2));
    let mut r = q.subscribe();
    for i in 0..6 {
        q.push(i);
    }
    q.clear();
    r.update_position(&mut q);
    let after_first = q.chunks_count();
    assert_eq!(after_first, 1);
    r.update_position(&mut q);
    assert_eq!(q.chunks_count(), after_first);
    assert_eq!(collect(&mut r, &mut q), Vec::<i32>::new());
}

#[test]
fn extend_pushes_in_order() {
    let mut q = EventQueue::with_settings(settings(2, 8));
    let mut r = q.subscribe();
    q.extend(vec![1, 2, 3, 4, 5]);
    q.push(6);
    assert_eq!(q.chunks_count(), 3);
    assert_eq!(collect(&mut r, &mut q), vec![1, 2, 3, 4, 5, 6]);
}

#[test]
fn extend_with_nothing_changes_nothing() {
    let mut q: EventQueue<i32> = EventQueue::new();
    let mut r = q.subscribe();
    q.extend(Vec::new());
    assert_eq!(q.chunks_count(), 1);
    assert_eq!(collect(&mut r, &mut q), Vec::<i32>::new());
}

#[test]
fn unsubscribe_releases_chunks() {
    let mut q = EventQueue::with_settings(settings(2, 2));
    let mut a = q.subscribe();
    let b = q.subscribe();
    for i in 0..5 {
        q.push(i);
    }
    assert_eq!(collect(&mut a, &mut q), vec![0, 1, 2, 3, 4]);
    assert_eq!(q.chunks_count(), 3);
    q.unsubscribe(b);
    q.cleanup();
    assert_eq!(q.chunks_count(), 1);
}

#[test]
fn late_subscriber_does_not_hold_old_chunks() {
    let mut q = EventQueue::with_settings(settings(2, 2));
    let mut a = q.subscribe();
    for i in 0..5 {
        q.push(i);
    }
    let mut b = q.subscribe();
    q.push(5);
    assert_eq!(collect(&mut a, &mut q), vec![0, 1, 2, 3, 4, 5]);
    assert_eq!(q.chunks_count(), 1);
    assert_eq!(collect(&mut b, &mut q), vec![5]);
}

#[test]
fn freed_reader_slot_is_reused() {
    let mut q: EventQueue<i32> = EventQueue::new();
    let a = q.subscribe();
    let mut b = q.subscribe();
    q.unsubscribe(a);
    let mut c = q.subscribe();
    q.push(7);
    assert_eq!(collect(&mut b, &mut q), vec![7]);
    assert_eq!(collect(&mut c, &mut q), vec![7]);
}

#[test]
fn cleanup_without_readers_keeps_only_the_tail() {
    let mut q = EventQueue::with_settings(settings(2, 2));
    for i in 0..7 {
        q.push(i);
    }
    assert_eq!(q.chunks_count(), 4);
    q.cleanup();
    assert_eq!(q.chunks_count(), 1);
}

#[test]
fn resize_sets_next_chunk_capacity() {
    let mut q = EventQueue::with_settings(settings(2, 16));
    let mut r = q.subscribe();
    q.push(0);
    q.push(1);
    q.resize(5);
    for i in 2..7 {
        q.push(i);
    }
    // The second chunk holds 5 values; the 8th push opens a third chunk.
    assert_eq!(q.chunks_count(), 2);
    q.push(7);
    assert_eq!(q.chunks_count(), 3);
    assert_eq!(collect(&mut r, &mut q), (0..8).collect::<Vec<i32>>());
}

#[test]
fn recycled_chunk_is_reused_with_its_capacity() {
    let s = Settings { min_chunk_size: 2, max_chunk_size: 2, auto_cleanup: true, double_buffering: true };
    let mut q = EventQueue::with_settings(s);
    let mut r = q.subscribe();
    for i in 0..5 {
        q.push(i);
    }
    assert_eq!(collect(&mut r, &mut q), vec![0, 1, 2, 3, 4]);
    assert_eq!(q.chunks_count(), 1);
    for i in 5..9 {
        q.push(i);
    }
    assert_eq!(collect(&mut r, &mut q), vec![5, 6, 7, 8]);
}

#[test]
fn default_settings_values() {
    let s = DefaultSettings::settings();
    assert_eq!(s.min_chunk_size, 4);
    assert_eq!(s.max_chunk_size, u32::MAX / 4);
    assert!(s.auto_cleanup);
    assert!(!s.double_buffering);
    let q: EventQueue<u8> = EventQueue::new();
    assert_eq!(q.settings(), s);
    assert_eq!(q.chunks_count(), 1);
}

#[test]
fn default_first_chunk_holds_four() {
    let mut q = EventQueue::new();
    for i in 0..4 {
        q.push(i);
    }
    assert_eq!(q.chunks_count(), 1);
    q.push(4);
    assert_eq!(q.chunks_count(), 2);
}

#[test]
fn state_word_packs_length_and_epoch() {
    let w = LenAndEpoch::new(5, 7);
    assert_eq!(w.len(), 5);
    assert_eq!(w.epoch(), 7);
    let m = LenAndEpoch::new(u32::MAX, u32::MAX - 1);
    assert_eq!(m.len(), u32::MAX);
    assert_eq!(m.epoch(), u32::MAX - 1);
    let z = LenAndEpoch::new(0, 0);
    assert_eq!(z.len(), 0);
    assert_eq!(z.epoch(), 0);
}

#[test]
fn cursor_order_by_chunk_then_index() {
    let a = Cursor { chunk_id: 1, index: 5 };
    let b = Cursor { chunk_id: 2, index: 0 };
    let c = Cursor { chunk_id: 2, index: 1 };
    assert!(a.lt(&b));
    assert!(b.lt(&c));
    assert!(!c.lt(&a));
    assert!(!a.lt(&a));
    assert_eq!(a.cmp(&b), std::cmp::Ordering::Less);
    assert_eq!(c.cmp(&b), std::cmp::Ordering::Greater);
    assert_eq!(b.cmp(&b), std::cmp::Ordering::Equal);
}
