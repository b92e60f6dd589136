//! Record framing: each message is stored as a 4-byte little-endian length
//! prefix followed by the payload bytes. This module defines the framing at
//! the specification level and proves the executable encode/decode helpers
//! against it.

use vstd::prelude::*;

verus! {

/// Number of bytes in the length prefix in front of each record.
pub const PREFIX_LEN: usize = 4;

/// The value encoded by four little-endian bytes.
pub open spec fn le32_val(s: Seq<u8>) -> int
    recommends
        s.len() == 4,
{
    s[0] + 256 * s[1] + 65536 * s[2] + 16777216 * s[3]
}

/// The four little-endian bytes of a value below 2^32.
#[verifier::opaque]
pub open spec fn le32_bytes(n: int) -> Seq<u8> {
    seq![
        (n % 256) as u8,
        ((n / 256) % 256) as u8,
        ((n / 65536) % 256) as u8,
        ((n / 16777216) % 256) as u8,
    ]
}

/// The length prefix is always four bytes.
pub proof fn lemma_le32_bytes_len(n: int)
    ensures
        le32_bytes(n).len() == 4,
{
    reveal(le32_bytes);
}

/// The on-page bytes of one record: length prefix, then payload.
pub open spec fn spec_record(m: Seq<u8>) -> Seq<u8> {
    le32_bytes(m.len() as int) + m
}

/// Decoding the four bytes of an encoded value gives the value back.
pub proof fn lemma_le32_roundtrip(n: int)
    requires
        0 <= n < 0x1_0000_0000,
    ensures
        le32_val(le32_bytes(n)) == n,
{
    reveal(le32_bytes);
    let b = le32_bytes(n);
    assert(b[0] == n % 256 && b[1] == (n / 256) % 256 && b[2] == (n / 65536) % 256 && b[3] == (n
        / 16777216) % 256);
    assert(n % 256 + 256 * ((n / 256) % 256) + 65536 * ((n / 65536) % 256) + 16777216 * ((n
        / 16777216) % 256) == n) by (nonlinear_arith)
        requires
            0 <= n < 0x1_0000_0000,
    ;
}

/// An encoded value is always below 2^32.
pub proof fn lemma_le32_val_bound(s: Seq<u8>)
    requires
        s.len() == 4,
    ensures
        0 <= le32_val(s) < 0x1_0000_0000,
{
}

/// Offset of the start of record `i` when the records of `recs` are laid out
/// back to back from offset 0.
pub open spec fn rec_off(recs: Seq<Seq<u8>>, i: int) -> int
    decreases i,
{
    if i <= 0 {
        0
    } else {
        rec_off(recs, i - 1) + 4 + recs[i - 1].len()
    }
}

/// Offset of the first free byte after all records of `recs`.
pub open spec fn rec_top(recs: Seq<Seq<u8>>) -> int {
    rec_off(recs, recs.len() as int)
}

/// Record offsets are non-decreasing, and grow by at least 4 per record.
pub proof fn lemma_rec_off_monotone(recs: Seq<Seq<u8>>, i: int, j: int)
    requires
        0 <= i <= j,
    ensures
        rec_off(recs, i) <= rec_off(recs, j),
        i < j ==> rec_off(recs, i) + 4 <= rec_off(recs, j),
    decreases j - i,
{
    if i < j {
        lemma_rec_off_monotone(recs, i, j - 1);
    }
}

/// Offsets only depend on the records before the index.
pub proof fn lemma_rec_off_prefix(recs1: Seq<Seq<u8>>, recs2: Seq<Seq<u8>>, i: int)
    requires
        0 <= i,
        forall|j: int| 0 <= j < i ==> recs1[j] == recs2[j],
    ensures
        rec_off(recs1, i) == rec_off(recs2, i),
    decreases i,
{
    if i > 0 {
        lemma_rec_off_prefix(recs1, recs2, i - 1);
    }
}

/// Offsets into an extended record sequence continue from the old top.
pub proof fn lemma_rec_off_append(recs: Seq<Seq<u8>>, more: Seq<Seq<u8>>, j: int)
    requires
        0 <= j <= more.len(),
    ensures
        rec_off(recs + more, recs.len() + j) == rec_top(recs) + rec_off(more, j),
    decreases j,
{
    if j == 0 {
        lemma_rec_off_prefix(recs + more, recs, recs.len() as int);
    } else {
        lemma_rec_off_append(recs, more, j - 1);
    }
}

/// Splits a byte string that holds zero or more complete records into the
/// sequence of their payloads; `None` when the bytes are not a whole number
/// of well-formed records.
pub open spec fn parse_blob(b: Seq<u8>) -> Option<Seq<Seq<u8>>>
    decreases b.len(),
{
    if b.len() == 0 {
        Some(Seq::empty())
    } else if b.len() < 4 {
        None
    } else {
        let l = le32_val(b.subrange(0, 4));
        if 4 + l > b.len() {
            None
        } else {
            match parse_blob(b.subrange(4 + l, b.len() as int)) {
                Some(rest) => Some(seq![b.subrange(4, 4 + l)] + rest),
                None => None,
            }
        }
    }
}

/// The records of `recs` are laid out back to back inside `b` starting at
/// offset 0: each record's prefix and payload sit at that record's offset.
pub open spec fn blob_layout(b: Seq<u8>, recs: Seq<Seq<u8>>) -> bool {
    forall|i: int|
        0 <= i < recs.len() ==> {
            &&& (#[trigger] recs[i]).len() < 0x1_0000_0000
            &&& b.subrange(rec_off(recs, i), rec_off(recs, i) + 4) == le32_bytes(
                recs[i].len() as int,
            )
            &&& b.subrange(rec_off(recs, i) + 4, rec_off(recs, i + 1)) == recs[i]
        }
}

/// A parsed blob is exactly its records laid out back to back: each record's
/// prefix and payload sit at that record's offset, and the records fill the
/// blob completely.
#[verifier::rlimit(100)]
#[verifier::spinoff_prover]
pub proof fn lemma_blob_layout(b: Seq<u8>)
    requires
        parse_blob(b) is Some,
    ensures
        rec_top(parse_blob(b)->Some_0) == b.len(),
        blob_layout(b, parse_blob(b)->Some_0),
    decreases b.len(),
{
    let recs = parse_blob(b)->Some_0;
    if b.len() == 0 {
        assert(rec_top(recs) == 0);
    } else {
        let l = le32_val(b.subrange(0, 4));
        lemma_le32_val_bound(b.subrange(0, 4));
        let tail = b.subrange(4 + l, b.len() as int);
        lemma_blob_layout(tail);
        lemma_blob_layout_step(b, l, tail, parse_blob(tail)->Some_0);
        assert(recs == seq![b.subrange(4, 4 + l)] + parse_blob(tail)->Some_0);
    }
}

/// Inductive step for `lemma_blob_layout`: prepending one well-formed record
/// in front of an already laid-out tail keeps the layout property.
#[verifier::rlimit(100)]
#[verifier::spinoff_prover]
proof fn lemma_blob_layout_step(b: Seq<u8>, l: int, tail: Seq<u8>, rest: Seq<Seq<u8>>)
    requires
        0 <= l,
        4 + l <= b.len(),
        l == le32_val(b.subrange(0, 4)),
        l < 0x1_0000_0000,
        tail == b.subrange(4 + l, b.len() as int),
        blob_layout(tail, rest),
        rec_top(rest) == tail.len(),
    ensures
        rec_top(seq![b.subrange(4, 4 + l)] + rest) == b.len(),
        blob_layout(b, seq![b.subrange(4, 4 + l)] + rest),
{
    let recs = seq![b.subrange(4, 4 + l)] + rest;
    assert(recs[0] == b.subrange(4, 4 + l));
    assert(recs[0].len() == l);
    assert(rec_off(recs, 0) == 0);
    assert(rec_off(recs, 1) == rec_off(recs, 0) + 4 + recs[0].len());
    assert(rec_off(recs, 1) == 4 + l);
    assert(rec_off(seq![b.subrange(4, 4 + l)], 0) == 0);
    assert(rec_top(seq![b.subrange(4, 4 + l)]) == 4 + l);
    assert(le32_bytes(l) =~= b.subrange(0, 4)) by {
        assert(le32_val(b.subrange(0, 4)) == l);
        assert(b.subrange(0, 4).len() == 4);
        lemma_le32_bytes_of_val(b.subrange(0, 4));
    }
    assert(b.subrange(rec_off(recs, 0), rec_off(recs, 0) + 4) == le32_bytes(recs[0].len() as int));
    assert forall|i: int| 1 <= i < recs.len() implies {
        &&& (#[trigger] recs[i]).len() < 0x1_0000_0000
        &&& b.subrange(rec_off(recs, i), rec_off(recs, i) + 4) == le32_bytes(recs[i].len() as int)
        &&& b.subrange(rec_off(recs, i) + 4, rec_off(recs, i + 1)) == recs[i]
    } by {
        lemma_blob_layout_idx(b, l, tail, rest, i);
    }
    lemma_rec_off_append(seq![b.subrange(4, 4 + l)], rest, rest.len() as int);
}

/// One index of the inductive step of `lemma_blob_layout`.
#[verifier::spinoff_prover]
proof fn lemma_blob_layout_idx(b: Seq<u8>, l: int, tail: Seq<u8>, rest: Seq<Seq<u8>>, i: int)
    requires
        0 <= l,
        4 + l <= b.len(),
        tail == b.subrange(4 + l, b.len() as int),
        blob_layout(tail, rest),
        rec_top(rest) == tail.len(),
        1 <= i < 1 + rest.len(),
    ensures
        (seq![b.subrange(4, 4 + l)] + rest)[i].len() < 0x1_0000_0000,
        b.subrange(
            rec_off(seq![b.subrange(4, 4 + l)] + rest, i),
            rec_off(seq![b.subrange(4, 4 + l)] + rest, i) + 4,
        ) == le32_bytes((seq![b.subrange(4, 4 + l)] + rest)[i].len() as int),
        b.subrange(
            rec_off(seq![b.subrange(4, 4 + l)] + rest, i) + 4,
            rec_off(seq![b.subrange(4, 4 + l)] + rest, i + 1),
        ) == (seq![b.subrange(4, 4 + l)] + rest)[i],
{
    let recs = seq![b.subrange(4, 4 + l)] + rest;
    lemma_rec_off_append(seq![b.subrange(4, 4 + l)], rest, i - 1);
    lemma_rec_off_append(seq![b.subrange(4, 4 + l)], rest, i);
    assert(rec_off(seq![b.subrange(4, 4 + l)], 0) == 0);
    assert(rec_top(seq![b.subrange(4, 4 + l)]) == 4 + l);
    assert(rec_off(recs, i) == 4 + l + rec_off(rest, i - 1));
    assert(rec_off(recs, i + 1) == 4 + l + rec_off(rest, i));
    assert(recs[i] == rest[i - 1]);
    lemma_rec_off_monotone(rest, 0, i - 1);
    lemma_rec_off_monotone(rest, i, rest.len() as int);
    assert(rec_off(rest, i) == rec_off(rest, i - 1) + 4 + rest[i - 1].len());
    assert(tail.subrange(rec_off(rest, i - 1), rec_off(rest, i - 1) + 4) == le32_bytes(
        rest[i - 1].len() as int,
    ));
    assert(b.subrange(rec_off(recs, i), rec_off(recs, i) + 4) =~= tail.subrange(
        rec_off(rest, i - 1),
        rec_off(rest, i - 1) + 4,
    ));
    assert(b.subrange(rec_off(recs, i) + 4, rec_off(recs, i + 1)) =~= tail.subrange(
        rec_off(rest, i - 1) + 4,
        rec_off(rest, i),
    ));
}

/// Four bytes encoding their own value are the canonical encoding.
pub proof fn lemma_le32_bytes_of_val(s: Seq<u8>)
    requires
        s.len() == 4,
    ensures
        le32_bytes(le32_val(s)) =~= s,
{
    reveal(le32_bytes);
    let n = le32_val(s);
    assert(n % 256 == s[0] && (n / 256) % 256 == s[1] && (n / 65536) % 256 == s[2] && (n
        / 16777216) % 256 == s[3]) by (nonlinear_arith)
        requires
            n == s[0] + 256 * s[1] + 65536 * s[2] + 16777216 * s[3],
            0 <= s[0] < 256,
            0 <= s[1] < 256,
            0 <= s[2] < 256,
            0 <= s[3] < 256,
    ;
}

/// Frames a message for the page arena: the little-endian length prefix
/// followed by the payload.
pub fn encode_record(msg: &[u8]) -> (r: Vec<u8>)
    requires
        msg@.len() < 0x1_0000_0000,
    ensures
        r@ == spec_record(msg@),
{
    let l: usize = msg.len();
    let mut r: Vec<u8> = Vec::new();
    r.push((l % 256) as u8);
    r.push(((l / 256) % 256) as u8);
    r.push(((l / 65536) % 256) as u8);
    r.push(((l / 16777216) % 256) as u8);
    assert(r@ =~= le32_bytes(l as int)) by {
        reveal(le32_bytes);
    }
    let mut i: usize = 0;
    while i < msg.len()
        invariant
            0 <= i <= msg@.len(),
            r@ == le32_bytes(msg@.len() as int) + msg@.subrange(0, i as int),
        decreases msg@.len() - i,
    {
        r.push(msg[i]);
        assert(r@ =~= le32_bytes(msg@.len() as int) + msg@.subrange(0, i + 1));
        i = i + 1;
    }
    assert(msg@.subrange(0, msg@.len() as int) =~= msg@);
    r
}

} // verus!
