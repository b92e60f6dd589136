use disk_ringbuffer::rsv::decode_rsv;
use disk_ringbuffer::rsv::encode_rsv;

#[test]
fn decode_rsv_test() {
    let word = "asdf".as_bytes();

    let mut test: Vec<u8> = Vec::new();
    for _ in 0..4 {
        test.extend(word);
        test.extend(&[0xFF]);
    }

    println!("{:#?}", decode_rsv(&test));
}

#[test]
fn decode_splits_on_delimiter() {
    let bytes = [b'a', b'b', 0xFF, b'c', 0xFF];
    let words = decode_rsv(&bytes);
    assert_eq!(words.len(), 2);
    assert_eq!(words[0], "ab");
    assert_eq!(words[1], "c");
}

#[test]
fn decode_drops_empty_segments_and_keeps_tail() {
    let bytes = [0xFF, 0xFF, b'x', 0xFF, 0xFF, b't', b'l'];
    let words = decode_rsv(&bytes);
    assert_eq!(words.len(), 2);
    assert_eq!(words[0], "x");
    assert_eq!(words[1], "tl");
}

#[test]
fn decode_reads_utf8_and_replaces_invalid_bytes() {
    // a two-byte UTF-8 scalar comes back as one character
    let words = decode_rsv(&[0xC3, 0xA9]);
    assert_eq!(words.len(), 1);
    assert_eq!(words[0], "\u{e9}");
    // a lone continuation byte is replaced, not echoed back
    let words = decode_rsv(&[0x80]);
    assert_eq!(words.len(), 1);
    assert_eq!(words[0], "\u{FFFD}");
}

#[test]
fn encode_terminates_every_word() {
    let input = vec![String::from("ab"), String::from("c")];
    let bytes = encode_rsv(&input);
    assert_eq!(bytes, vec![b'a', b'b', 0xFF, b'c', 0xFF]);
}

#[test]
fn encode_writes_utf8_bytes() {
    // one character, two bytes: the encoder writes the UTF-8 encoding,
    // not the characters
    let input = vec![String::from("\u{e9}")];
    let bytes = encode_rsv(&input);
    assert_eq!(bytes, vec![0xC3, 0xA9, 0xFF]);
}

#[test]
fn encode_then_decode_gives_words_back() {
    let input = vec![String::from("alpha"), String::from("beta"), String::from("gamma")];
    let bytes = encode_rsv(&input);
    let words = decode_rsv(bytes.as_slice());
    assert_eq!(words, input);
}
