use disk_ringbuffer::codec::encode_record;
use disk_ringbuffer::qpage::Error;
use disk_ringbuffer::qpage::PopResult;
use disk_ringbuffer::qpage::PushResult;
use disk_ringbuffer::qpage::QPage;

#[test]
fn page_round_trip() {
    let mut p = QPage::new(64);
    assert_eq!(p.capacity(), 64);
    let r = p.try_push(b"hello", 32).unwrap();
    assert!(matches!(r, PushResult::BytesWritten(9)));
    match p.try_pop(0).unwrap() {
        PopResult::Msg(m) => assert_eq!(m, b"hello".to_vec()),
        _ => panic!("expected a message"),
    }
    // nothing new past the record
    match p.try_pop(9).unwrap() {
        PopResult::NoNewMsgs => {}
        _ => panic!("expected no new messages"),
    }
}

#[test]
fn page_two_records_in_order() {
    let mut p = QPage::new(64);
    p.try_push(b"one", 32).unwrap();
    p.try_push(b"two!", 32).unwrap();
    let first = match p.try_pop(0).unwrap() {
        PopResult::Msg(m) => m,
        _ => panic!("expected a message"),
    };
    assert_eq!(first, b"one".to_vec());
    let second = match p.try_pop(4 + first.len()).unwrap() {
        PopResult::Msg(m) => m,
        _ => panic!("expected a message"),
    };
    assert_eq!(second, b"two!".to_vec());
}

#[test]
fn page_full_seals_page() {
    let mut p = QPage::new(16);
    // 4 + 9 = 13 >= 16 - 1 would not hold; 4 + 11 = 15 >= 15 does
    let r = p.try_push(b"abcdefghijk", 11).unwrap();
    assert!(matches!(r, PushResult::PageFull));
    // the failed record was not written: the reader sees a sealed page
    match p.try_pop(0).unwrap() {
        PopResult::PageDone => {}
        _ => panic!("expected the page to be sealed"),
    }
}

#[test]
fn page_full_keeps_existing_records() {
    let mut p = QPage::new(24);
    p.try_push(b"keep", 20).unwrap();
    let r = p.try_push(b"toolongtofit", 20).unwrap();
    assert!(matches!(r, PushResult::PageFull));
    match p.try_pop(0).unwrap() {
        PopResult::Msg(m) => assert_eq!(m, b"keep".to_vec()),
        _ => panic!("expected the first record intact"),
    }
    match p.try_pop(8).unwrap() {
        PopResult::PageDone => {}
        _ => panic!("expected the seal after the first record"),
    }
}

#[test]
fn msg_too_long_is_rejected() {
    let mut p = QPage::new(64);
    let r = p.try_push(b"four+one", 7);
    assert_eq!(r, Err(Error::MsgTooLong));
    // nothing was written
    match p.try_pop(0).unwrap() {
        PopResult::NoNewMsgs => {}
        _ => panic!("expected an untouched page"),
    }
}

#[test]
fn length_prefix_sentinel_collision_reads_as_page_done() {
    // A record whose length's low byte equals the sentinel cannot be told
    // apart from a seal by the reader.
    let mut p = QPage::new(1024);
    let msg = vec![7u8; 253];
    let r = p.try_push(msg.as_slice(), 512).unwrap();
    assert!(matches!(r, PushResult::BytesWritten(257)));
    match p.try_pop(0).unwrap() {
        PopResult::PageDone => {}
        _ => panic!("expected the sentinel collision to stop the reader"),
    }
}

#[test]
fn raw_push_carries_preframed_records() {
    let mut p = QPage::new(64);
    let mut blob = encode_record(b"ab");
    blob.extend_from_slice(&encode_record(b"cde"));
    let n = blob.len();
    let r = p.try_push_raw(blob.as_slice()).unwrap();
    assert!(matches!(r, PushResult::BytesWritten(x) if x == n));
    let first = match p.try_pop(0).unwrap() {
        PopResult::Msg(m) => m,
        _ => panic!("expected a message"),
    };
    assert_eq!(first, b"ab".to_vec());
    match p.try_pop(4 + first.len()).unwrap() {
        PopResult::Msg(m) => assert_eq!(m, b"cde".to_vec()),
        _ => panic!("expected a second message"),
    }
}

#[test]
fn encode_record_frames_little_endian() {
    let rec = encode_record(b"xyz");
    assert_eq!(rec, vec![3u8, 0, 0, 0, b'x', b'y', b'z']);
}

#[test]
fn spin_reports_written_extent() {
    let mut p = QPage::new(64);
    assert_eq!(p.get_write_idx_spin(0), 0);
    p.try_push(b"abc", 32).unwrap();
    assert_eq!(p.get_write_idx_spin(0), 7);
}
