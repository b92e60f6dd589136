use disk_ringbuffer::qpage::Error;
use disk_ringbuffer::ringbuf::get_qpage_count_static;
use disk_ringbuffer::ringbuf::new;
use disk_ringbuffer::ringbuf::receiver_flip_target;
use disk_ringbuffer::ringbuf::set_max_qpage;
use disk_ringbuffer::ringbuf::RingStore;
use disk_ringbuffer::ringbuf::RingbufError;

#[test]
fn seq_round_trip_across_pages() {
    // Small pages so that the sequence rolls over many times.
    let mut store = RingStore::new(128, 32);
    let (mut tx, mut rx) = new(&mut store);
    for i in 0..500u32 {
        let s = format!("{}", i);
        tx.push(&mut store, s.as_bytes()).unwrap();
    }
    assert!(get_qpage_count_static(&store) > 3);
    for i in 0..500u32 {
        let m = rx.pop(&mut store).unwrap().expect("a message should be ready");
        assert_eq!(m, format!("{}", i).into_bytes());
    }
    assert_eq!(rx.pop(&mut store).unwrap(), None);
}

#[test]
fn push_returns_bytes_written() {
    let mut store = RingStore::new(128, 32);
    let (mut tx, _rx) = new(&mut store);
    let n = tx.push(&mut store, b"abcde").unwrap();
    assert_eq!(n, 9);
}

#[test]
fn oversize_message_is_rejected_unwritten() {
    let mut store = RingStore::new(128, 16);
    let (mut tx, mut rx) = new(&mut store);
    let long = vec![1u8; 17];
    let r = tx.push(&mut store, long.as_slice());
    assert_eq!(r, Err(RingbufError::QError(Error::MsgTooLong)));
    assert_eq!(rx.pop(&mut store).unwrap(), None);
}

#[test]
fn retention_bound_caps_page_files() {
    let mut store = RingStore::new(64, 16);
    let (mut tx, mut rx) = new(&mut store);
    set_max_qpage(&mut store, 2).unwrap();
    let mut pushed: Vec<Vec<u8>> = Vec::new();
    for i in 0..200u32 {
        let s = format!("m{}", i).into_bytes();
        tx.push(&mut store, s.as_slice()).unwrap();
        pushed.push(s);
        assert!(store.linked_page_files() <= 2);
    }
    assert!(get_qpage_count_static(&store) >= 5);
    // The receiver sees a contiguous run of the pushes: it drains the page
    // it still holds, and pushes from reclaimed pages may be missing.
    let mut got: Vec<Vec<u8>> = Vec::new();
    while let Some(m) = rx.pop(&mut store).unwrap() {
        got.push(m);
    }
    assert!(!got.is_empty());
    let start = pushed
        .iter()
        .position(|m| *m == got[0])
        .expect("every observed message was pushed");
    assert_eq!(got.as_slice(), &pushed[start..start + got.len()]);
}

#[test]
fn unbounded_queue_never_drops_page_files() {
    let mut store = RingStore::new(64, 16);
    let (mut tx, _rx) = new(&mut store);
    for i in 0..200u32 {
        let s = format!("m{}", i).into_bytes();
        tx.push(&mut store, s.as_slice()).unwrap();
    }
    let count = get_qpage_count_static(&store);
    assert!(count >= 5);
    // every allocated page file is still linked
    assert_eq!(store.linked_page_files(), count + 1);
}

#[test]
fn reopen_rereads_newest_page_from_start() {
    let mut store = RingStore::new(128, 32);
    {
        let (mut tx, _rx) = new(&mut store);
        tx.push(&mut store, b"a").unwrap();
        tx.push(&mut store, b"b").unwrap();
        tx.push(&mut store, b"c").unwrap();
    }
    let (_tx2, mut rx2) = new(&mut store);
    assert_eq!(rx2.pop(&mut store).unwrap(), Some(b"a".to_vec()));
    assert_eq!(rx2.pop(&mut store).unwrap(), Some(b"b".to_vec()));
    assert_eq!(rx2.pop(&mut store).unwrap(), Some(b"c".to_vec()));
    assert_eq!(rx2.pop(&mut store).unwrap(), None);
}

#[test]
fn interleaved_push_pop_stays_fifo() {
    let mut store = RingStore::new(64, 16);
    let (mut tx, mut rx) = new(&mut store);
    let mut next_expected: u32 = 0;
    let mut next_pushed: u32 = 0;
    for round in 0..50u32 {
        for _ in 0..(round % 4 + 1) {
            let s = format!("{}", next_pushed).into_bytes();
            tx.push(&mut store, s.as_slice()).unwrap();
            next_pushed += 1;
        }
        while let Some(m) = rx.pop(&mut store).unwrap() {
            assert_eq!(m, format!("{}", next_expected).into_bytes());
            next_expected += 1;
        }
        assert_eq!(next_expected, next_pushed);
    }
}

#[test]
fn sentinel_length_collision_skips_rest_of_page() {
    // A record whose length's low byte equals the seal sentinel stops the
    // receiver for good: it reads the page as finished and moves on.
    let mut store = RingStore::new(2048, 512);
    let (mut tx, mut rx) = new(&mut store);
    let odd = vec![9u8; 253];
    tx.push(&mut store, odd.as_slice()).unwrap();
    tx.push(&mut store, b"after").unwrap();
    assert_eq!(rx.pop(&mut store).unwrap(), None);
}

#[test]
fn empty_queue_pops_none() {
    let mut store = RingStore::new(128, 32);
    let (_tx, mut rx) = new(&mut store);
    assert_eq!(rx.pop(&mut store).unwrap(), None);
    assert_eq!(rx.pop(&mut store).unwrap(), None);
}

#[test]
fn empty_message_round_trips() {
    let mut store = RingStore::new(128, 32);
    let (mut tx, mut rx) = new(&mut store);
    let n = tx.push(&mut store, b"").unwrap();
    assert_eq!(n, 4);
    assert_eq!(rx.pop(&mut store).unwrap(), Some(Vec::new()));
}

#[test]
fn flip_target_respects_retention_window() {
    // unbounded: plain increment
    assert_eq!(receiver_flip_target(3, 10, 0), 4);
    // inside the window: plain increment
    assert_eq!(receiver_flip_target(9, 10, 4), 10);
    // lagging: clamped forward to count - max_qpages
    assert_eq!(receiver_flip_target(1, 10, 4), 6);
    // small counts: no clamping below zero
    assert_eq!(receiver_flip_target(0, 2, 4), 1);
}
