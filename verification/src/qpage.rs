//! A fixed-size page holding length-prefixed records in a byte arena.
//!
//! The page header is a single word `write_idx_lock` whose high byte counts
//! writers that are mid-copy and whose low 56 bits hold the write cursor (the
//! next free arena offset), together with a cached high-water mark
//! `last_safe_write_idx`. A writer reserves `[cursor, cursor + need)` by
//! adding `WRITER_BIT + need` to the word; a reader only trusts bytes below a
//! cursor value it observed while the writer count was zero. A record that
//! would overflow the arena seals the page: the sentinel byte `0xFD` is
//! stamped at the failed writer's start offset and readers stop there.
//!
//! This module verifies the page protocol in its single-handle form: each
//! operation runs to completion before the next begins, so the writer count
//! returns to zero between operations. The ghost record sequence tracks what
//! the arena holds, and every operation's contract is stated against it.

use crate::codec::blob_layout;
use crate::codec::le32_bytes;
use crate::codec::le32_val;
use crate::codec::lemma_blob_layout;
use crate::codec::lemma_le32_bytes_len;
use crate::codec::lemma_le32_roundtrip;
use crate::codec::lemma_rec_off_append;
use crate::codec::lemma_rec_off_monotone;
use crate::codec::lemma_rec_off_prefix;
use crate::codec::parse_blob;
use crate::codec::rec_off;
use crate::codec::rec_top;
use crate::codec::spec_record;
use vstd::prelude::*;

verus! {

/// One writer, encoded in the high byte of `write_idx_lock`.
pub const WRITER_BIT: u64 = 0x0100_0000_0000_0000;

/// The low bits of `write_idx_lock`, holding the write cursor.
pub const CURSOR_MASK: u64 = 0x00FF_FFFF_FFFF_FFFF;

/// Arena byte marking a sealed page at a record boundary.
pub const PAGE_SEALED: u8 = 0xFD;

/// Default arena capacity in bytes.
pub const DEFAULT_QUEUE_SIZE: usize = 0x1000_0003;

/// Default bound on one message's length in bytes.
pub const DEFAULT_MAX_MSG_SIZE: usize = 0xFF_FFFF;

/// A page: the header word, the cached safe cursor, and the arena.
pub struct QPage {
    write_idx_lock: u64,
    last_safe_write_idx: u64,
    buf: Vec<u8>,
    recs: Ghost<Seq<Seq<u8>>>,
    sealed: Ghost<bool>,
}

/// Push and pop failures a page can report.
#[derive(Debug, Clone, Copy, PartialEq, Eq, Structural)]
pub enum Error {
    WriteIdxLockOverflow,
    MsgTooLong,
}

/// Outcome of reading at a cursor: a copied message, nothing new yet, or the
/// end of a sealed page.
#[derive(Debug)]
pub enum PopResult {
    Msg(Vec<u8>),
    NoNewMsgs,
    PageDone,
}

/// Outcome of a write attempt that did not fail outright.
#[derive(Debug, Clone, Copy, PartialEq, Eq, Structural)]
pub enum PushResult {
    BytesWritten(usize),
    PageFull,
}

/// The abstract state of a page.
pub struct PageV {
    /// The arena bytes.
    pub arena: Seq<u8>,
    /// The write cursor (low bits of the header word).
    pub cursor: int,
    /// The cached safe high-water mark.
    pub safe: int,
    /// Payloads of the records the arena holds, in order.
    pub recs: Seq<Seq<u8>>,
    /// Whether a writer has sealed the page.
    pub sealed: bool,
}

impl View for QPage {
    type V = PageV;

    closed spec fn view(&self) -> PageV {
        PageV {
            arena: self.buf@,
            cursor: self.write_idx_lock as int,
            safe: self.last_safe_write_idx as int,
            recs: self.recs@,
            sealed: self.sealed@,
        }
    }
}

/// Page well-formedness: the header word has no writer in flight, the cached
/// mark is below the cursor, the records are laid out back to back from
/// offset 0 with room for the sentinel, and a sealed page carries the
/// sentinel at its last record boundary with the cursor pushed past the end.
pub open spec fn page_inv(v: PageV) -> bool {
    &&& 2 <= v.arena.len() <= CURSOR_MASK as int
    &&& 0 <= v.cursor <= CURSOR_MASK as int
    &&& 0 <= v.safe <= v.cursor
    &&& 0 <= rec_top(v.recs) <= v.arena.len() - 2
    &&& blob_layout(v.arena, v.recs)
    &&& (!v.sealed ==> v.cursor == rec_top(v.recs))
    &&& (v.sealed ==> v.cursor > rec_top(v.recs) && v.cursor >= v.arena.len() - 1 && v.arena[rec_top(
        v.recs,
    )] == PAGE_SEALED)
}

/// `b` is the byte offset of some record boundary: the start of record `k`,
/// or the first free offset after all records.
pub open spec fn is_boundary(recs: Seq<Seq<u8>>, b: int) -> bool {
    exists|k: int| 0 <= k <= recs.len() && b == rec_off(recs, k)
}

/// The index of the record starting at boundary `b`.
pub open spec fn boundary_idx(recs: Seq<Seq<u8>>, b: int) -> int {
    choose|k: int| 0 <= k <= recs.len() && b == rec_off(recs, k)
}

/// Record boundaries are strictly increasing, so each offset is the boundary
/// of at most one record index.
pub proof fn lemma_boundary_unique(recs: Seq<Seq<u8>>, k1: int, k2: int)
    requires
        0 <= k1 <= recs.len(),
        0 <= k2 <= recs.len(),
        rec_off(recs, k1) == rec_off(recs, k2),
    ensures
        k1 == k2,
{
    if k1 < k2 {
        lemma_rec_off_monotone(recs, k1, k2);
    }
    if k2 < k1 {
        lemma_rec_off_monotone(recs, k2, k1);
    }
}

/// A successful reservation: the record was framed and copied at the old
/// cursor, the cursor advanced past it, and nothing else changed.
pub open spec fn push_ok(pre: PageV, msg: Seq<u8>, post: PageV, n: int) -> bool {
    &&& !pre.sealed
    &&& msg.len() < 0x1_0000_0000
    &&& pre.cursor + 4 + msg.len() <= pre.arena.len() - 2
    &&& n == 4 + msg.len()
    &&& post.recs == pre.recs.push(msg)
    &&& post.sealed == false
    &&& post.cursor == pre.cursor + n
    &&& post.safe == pre.safe
    &&& post.arena == pre.arena.subrange(0, pre.cursor) + spec_record(msg) + pre.arena.subrange(
        pre.cursor + n,
        pre.arena.len() as int,
    )
}

/// A reservation that did not fit: the page is sealed, the cursor stays
/// advanced over the hopeless range, and at most the sentinel byte changed.
pub open spec fn push_full(pre: PageV, need: int, post: PageV) -> bool {
    &&& pre.cursor + need > pre.arena.len() - 2
    &&& pre.cursor + need <= CURSOR_MASK as int
    &&& post.recs == pre.recs
    &&& post.sealed == true
    &&& post.cursor == pre.cursor + need
    &&& post.safe == pre.safe
    &&& post.arena == (if pre.cursor < pre.arena.len() {
        pre.arena.update(pre.cursor, PAGE_SEALED)
    } else {
        pre.arena
    })
}

/// A successful raw reservation: the pre-framed records of the blob now sit
/// at the old cursor and the record sequence grew by exactly their payloads.
pub open spec fn push_raw_ok(pre: PageV, blob: Seq<u8>, post: PageV, n: int) -> bool {
    &&& !pre.sealed
    &&& pre.cursor + blob.len() <= pre.arena.len() - 2
    &&& n == blob.len()
    &&& post.recs == pre.recs + parse_blob(blob)->Some_0
    &&& post.sealed == false
    &&& post.cursor == pre.cursor + n
    &&& post.safe == pre.safe
    &&& post.arena == pre.arena.subrange(0, pre.cursor) + blob + pre.arena.subrange(
        pre.cursor + n,
        pre.arena.len() as int,
    )
}

/// A page stays well formed across a successful push: the new record's
/// bytes land at the old top, every older record keeps its bytes, and the
/// cursor moves to the new top.
#[verifier::rlimit(100)]
#[verifier::spinoff_prover]
pub proof fn lemma_inv_after_push(pre: PageV, msg: Seq<u8>, post: PageV)
    requires
        page_inv(pre),
        push_ok(pre, msg, post, 4 + msg.len() as int),
    ensures
        page_inv(post),
{
    let c = pre.cursor;
    let n = pre.recs.len() as int;
    let top2 = rec_top(post.recs);
    lemma_le32_bytes_len(msg.len() as int);
    assert(spec_record(msg).len() == 4 + msg.len());
    lemma_rec_off_prefix(post.recs, pre.recs, n);
    assert(rec_off(post.recs, n) == c);
    assert(rec_off(post.recs, n + 1) == c + 4 + msg.len());
    assert(top2 == c + 4 + msg.len());
    assert(post.arena.len() == pre.arena.len());
    assert forall|j: int| 0 <= j < c implies post.arena[j] == pre.arena[j] by {}
    assert forall|i: int| 0 <= i < post.recs.len() implies {
        &&& (#[trigger] post.recs[i]).len() < 0x1_0000_0000
        &&& post.arena.subrange(rec_off(post.recs, i), rec_off(post.recs, i) + 4) == le32_bytes(
            post.recs[i].len() as int,
        )
        &&& post.arena.subrange(rec_off(post.recs, i) + 4, rec_off(post.recs, i + 1))
            == post.recs[i]
    } by {
        lemma_inv_after_push_idx(pre, msg, post, i);
    }
}

/// One index of `lemma_inv_after_push`.
#[verifier::rlimit(100)]
#[verifier::spinoff_prover]
proof fn lemma_inv_after_push_idx(pre: PageV, msg: Seq<u8>, post: PageV, i: int)
    requires
        page_inv(pre),
        push_ok(pre, msg, post, 4 + msg.len() as int),
        0 <= i < post.recs.len(),
    ensures
        post.recs[i].len() < 0x1_0000_0000,
        post.arena.subrange(rec_off(post.recs, i), rec_off(post.recs, i) + 4) == le32_bytes(
            post.recs[i].len() as int,
        ),
        post.arena.subrange(rec_off(post.recs, i) + 4, rec_off(post.recs, i + 1)) == post.recs[i],
{
    let c = pre.cursor;
    let n = pre.recs.len() as int;
    lemma_le32_bytes_len(msg.len() as int);
    assert(spec_record(msg).len() == 4 + msg.len());
    assert forall|j: int| 0 <= j < c implies post.arena[j] == pre.arena[j] by {}
    lemma_rec_off_prefix(post.recs, pre.recs, i);
    if i < n {
        lemma_rec_off_prefix(post.recs, pre.recs, i + 1);
        lemma_rec_off_monotone(pre.recs, 0, i);
        lemma_rec_off_monotone(pre.recs, i + 1, n);
        assert(rec_off(pre.recs, i + 1) <= c);
        assert(rec_off(pre.recs, i) + 4 <= rec_off(pre.recs, i + 1));
        assert(post.arena.subrange(rec_off(pre.recs, i), rec_off(pre.recs, i) + 4)
            =~= pre.arena.subrange(rec_off(pre.recs, i), rec_off(pre.recs, i) + 4));
        assert(post.arena.subrange(rec_off(pre.recs, i) + 4, rec_off(pre.recs, i + 1))
            =~= pre.arena.subrange(rec_off(pre.recs, i) + 4, rec_off(pre.recs, i + 1)));
    } else {
        assert(i == n && post.recs[i] == msg);
        assert(rec_off(post.recs, n) == c) by {
            lemma_rec_off_prefix(post.recs, pre.recs, n);
        }
        assert(rec_off(post.recs, n + 1) == c + 4 + msg.len());
        assert(post.arena.subrange(c, c + 4) =~= le32_bytes(msg.len() as int)) by {
            assert forall|j: int| 0 <= j < 4 implies post.arena[c + j] == le32_bytes(
                msg.len() as int,
            )[j] by {
                assert(post.arena[c + j] == spec_record(msg)[j]);
            }
        }
        assert(post.arena.subrange(c + 4, c + 4 + msg.len()) =~= msg) by {
            assert forall|j: int| 0 <= j < msg.len() implies post.arena[c + 4 + j] == msg[j] by {
                assert(post.arena[c + 4 + j] == spec_record(msg)[4 + j]);
            }
        }
    }
}

/// A page stays well formed across a successful raw push: the blob's records
/// continue the page's record layout at the old top.
#[verifier::rlimit(100)]
#[verifier::spinoff_prover]
pub proof fn lemma_inv_after_push_raw(pre: PageV, blob: Seq<u8>, post: PageV)
    requires
        page_inv(pre),
        parse_blob(blob) is Some,
        push_raw_ok(pre, blob, post, blob.len() as int),
    ensures
        page_inv(post),
{
    let c = pre.cursor;
    let n = pre.recs.len() as int;
    let more = parse_blob(blob)->Some_0;
    lemma_blob_layout(blob);
    lemma_rec_off_append(pre.recs, more, more.len() as int);
    assert(rec_top(post.recs) == c + blob.len());
    assert(post.arena.len() == pre.arena.len());
    assert forall|j: int| 0 <= j < c implies post.arena[j] == pre.arena[j] by {}
    assert forall|j: int| 0 <= j < blob.len() implies post.arena[c + j] == blob[j] by {}
    assert forall|i: int| 0 <= i < post.recs.len() implies {
        &&& (#[trigger] post.recs[i]).len() < 0x1_0000_0000
        &&& post.arena.subrange(rec_off(post.recs, i), rec_off(post.recs, i) + 4) == le32_bytes(
            post.recs[i].len() as int,
        )
        &&& post.arena.subrange(rec_off(post.recs, i) + 4, rec_off(post.recs, i + 1))
            == post.recs[i]
    } by {
        if i < n {
            lemma_rec_off_prefix(post.recs, pre.recs, i);
            lemma_rec_off_prefix(post.recs, pre.recs, i + 1);
            lemma_rec_off_monotone(pre.recs, 0, i);
            lemma_rec_off_monotone(pre.recs, i + 1, n);
            assert(rec_off(pre.recs, i + 1) <= c);
            assert(rec_off(pre.recs, i) + 4 <= rec_off(pre.recs, i + 1));
            assert(post.arena.subrange(rec_off(pre.recs, i), rec_off(pre.recs, i) + 4)
                =~= pre.arena.subrange(rec_off(pre.recs, i), rec_off(pre.recs, i) + 4));
            assert(post.arena.subrange(rec_off(pre.recs, i) + 4, rec_off(pre.recs, i + 1))
                =~= pre.arena.subrange(rec_off(pre.recs, i) + 4, rec_off(pre.recs, i + 1)));
        } else {
            let j = i - n;
            lemma_rec_off_append(pre.recs, more, j);
            lemma_rec_off_append(pre.recs, more, j + 1);
            assert(rec_off(post.recs, i) == c + rec_off(more, j));
            assert(rec_off(post.recs, i + 1) == c + rec_off(more, j + 1));
            assert(post.recs[i] == more[j]);
            lemma_rec_off_monotone(more, 0, j);
            lemma_rec_off_monotone(more, j + 1, more.len() as int);
            assert(rec_off(more, j + 1) == rec_off(more, j) + 4 + more[j].len());
            assert(rec_off(more, j + 1) <= blob.len());
            assert(blob.subrange(rec_off(more, j), rec_off(more, j) + 4) == le32_bytes(
                more[j].len() as int,
            ));
            assert(blob.subrange(rec_off(more, j) + 4, rec_off(more, j + 1)) == more[j]);
            assert(post.arena.subrange(rec_off(post.recs, i), rec_off(post.recs, i) + 4)
                =~= blob.subrange(rec_off(more, j), rec_off(more, j) + 4));
            assert(post.arena.subrange(rec_off(post.recs, i) + 4, rec_off(post.recs, i + 1))
                =~= blob.subrange(rec_off(more, j) + 4, rec_off(more, j + 1)));
        }
    }
}

/// A page stays well formed across a failed push that seals it.
pub proof fn lemma_inv_after_seal(pre: PageV, need: int, post: PageV)
    requires
        page_inv(pre),
        push_full(pre, need, post),
        need >= 0,
    ensures
        page_inv(post),
{
    let top = rec_top(pre.recs);
    assert(post.arena.len() == pre.arena.len());
    assert forall|j: int| 0 <= j < post.arena.len() && j != pre.cursor implies post.arena[j]
        == pre.arena[j] by {}
    if !pre.sealed {
        assert(pre.cursor == top);
        assert(pre.cursor < pre.arena.len());
        assert(post.arena[top] == PAGE_SEALED);
        assert(need > 0) by {
            if need == 0 {
                assert(pre.cursor > pre.arena.len() - 2);
                assert(top <= pre.arena.len() - 2);
                assert(false);
            }
        }
    } else {
        assert(pre.cursor > top);
        assert(post.arena[top] == pre.arena[top]);
    }
    assert forall|i: int| 0 <= i < post.recs.len() implies {
        &&& (#[trigger] post.recs[i]).len() < 0x1_0000_0000
        &&& post.arena.subrange(rec_off(post.recs, i), rec_off(post.recs, i) + 4) == le32_bytes(
            post.recs[i].len() as int,
        )
        &&& post.arena.subrange(rec_off(post.recs, i) + 4, rec_off(post.recs, i + 1))
            == post.recs[i]
    } by {
        lemma_rec_off_monotone(pre.recs, i + 1, pre.recs.len() as int);
        assert(rec_off(pre.recs, i + 1) <= top);
        assert(rec_off(pre.recs, i) + 4 <= rec_off(pre.recs, i + 1));
        assert(rec_off(pre.recs, i) >= 0) by {
            lemma_rec_off_monotone(pre.recs, 0, i);
        }
        assert(post.arena.subrange(rec_off(pre.recs, i), rec_off(pre.recs, i) + 4)
            =~= pre.arena.subrange(rec_off(pre.recs, i), rec_off(pre.recs, i) + 4));
        assert(post.arena.subrange(rec_off(pre.recs, i) + 4, rec_off(pre.recs, i + 1))
            =~= pre.arena.subrange(rec_off(pre.recs, i) + 4, rec_off(pre.recs, i + 1)));
    }
}

/// Disjoint reservations: when two pushes in a row both report
/// `BytesWritten`, the byte ranges they reserved do not overlap, and the
/// second push leaves the first push's payload bytes exactly as written.
pub proof fn lemma_disjoint_reservations(
    v0: PageV,
    m1: Seq<u8>,
    v1: PageV,
    n1: int,
    m2: Seq<u8>,
    v2: PageV,
    n2: int,
)
    requires
        page_inv(v0),
        push_ok(v0, m1, v1, n1),
        push_ok(v1, m2, v2, n2),
    ensures
        v1.cursor == v0.cursor + n1,
        v0.cursor + n1 <= v1.cursor < v1.cursor + n2,
        v2.arena.subrange(v0.cursor + 4, v0.cursor + n1) == m1,
{
    lemma_le32_bytes_len(m1.len() as int);
    lemma_le32_bytes_len(m2.len() as int);
    assert(spec_record(m1).len() == n1);
    assert(v1.arena.subrange(v0.cursor + 4, v0.cursor + n1) =~= m1) by {
        assert forall|j: int| 0 <= j < m1.len() implies v1.arena[v0.cursor + 4 + j] == m1[j] by {
            assert(v1.arena[v0.cursor + 4 + j] == spec_record(m1)[4 + j]);
        }
    }
    assert(v2.arena.subrange(v0.cursor + 4, v0.cursor + n1) =~= m1) by {
        assert forall|j: int| 0 <= j < m1.len() implies v2.arena[v0.cursor + 4 + j] == m1[j] by {
            assert(v2.arena[v0.cursor + 4 + j] == v1.arena[v0.cursor + 4 + j]);
        }
    }
}

/// Page boundary safety: a record that does not fit is not written, not
/// even in part. The failed reservation changes no byte but the sentinel
/// stamped at its start offset, and no record byte at all.
pub proof fn lemma_page_full_no_partial_write(v0: PageV, need: int, v1: PageV)
    requires
        page_inv(v0),
        push_full(v0, need, v1),
    ensures
        v1.recs == v0.recs,
        forall|b: int| 0 <= b < v1.arena.len() && b != v0.cursor ==> v1.arena[b] == v0.arena[b],
        v1.arena.subrange(0, rec_top(v0.recs)) == v0.arena.subrange(0, rec_top(v0.recs)),
{
    assert(v1.arena.subrange(0, rec_top(v0.recs)) =~= v0.arena.subrange(0, rec_top(v0.recs)));
}

proof fn lemma_high_byte(x: u64)
    ensures
        ((x & 0xFF00_0000_0000_0000) == 0) <==> (x < 0x0100_0000_0000_0000),
{
    assert(((x & 0xFF00_0000_0000_0000) == 0) <==> (x < 0x0100_0000_0000_0000)) by (bit_vector);
}

proof fn lemma_mask_id(x: u64)
    requires
        x < 0x0100_0000_0000_0000,
    ensures
        (x & 0x00FF_FFFF_FFFF_FFFF) == x,
{
    assert((x & 0x00FF_FFFF_FFFF_FFFF) == x) by (bit_vector)
        requires
            x < 0x0100_0000_0000_0000,
    ;
}

impl QPage {
    /// A fresh page: zeroed arena of the given capacity, cursor and cache at
    /// zero, no records, not sealed.
    pub fn new(capacity: usize) -> (p: QPage)
        requires
            2 <= capacity,
            capacity as int <= CURSOR_MASK as int,
        ensures
            p@ == (PageV {
                arena: Seq::new(capacity as nat, |i: int| 0u8),
                cursor: 0,
                safe: 0,
                recs: Seq::empty(),
                sealed: false,
            }),
            page_inv(p@),
    {
        let mut buf: Vec<u8> = Vec::new();
        let mut i: usize = 0;
        while i < capacity
            invariant
                0 <= i <= capacity,
                buf@ =~= Seq::new(i as nat, |j: int| 0u8),
            decreases capacity - i,
        {
            buf.push(0u8);
            assert(buf@ =~= Seq::new((i + 1) as nat, |j: int| 0u8));
            i = i + 1;
        }
        let p = QPage {
            write_idx_lock: 0,
            last_safe_write_idx: 0,
            buf,
            recs: Ghost(Seq::empty()),
            sealed: Ghost(false),
        };
        assert(rec_top(p@.recs) == 0);
        p
    }

    /// The arena capacity of this page.
    pub fn capacity(&self) -> (c: usize)
        ensures
            c as int == self@.arena.len(),
    {
        self.buf.len()
    }

    /// Establishes the safe end of readable data for a reader at
    /// `start_byte`: the cached mark when the reader is still below it, else
    /// the cursor of the header word, observed with no writer in flight and
    /// cached for later readers. The result is clamped to the capacity.
    #[verifier::loop_isolation(false)]
    pub fn get_write_idx_spin(&mut self, start_byte: usize) -> (end: usize)
        requires
            page_inv(old(self)@),
        ensures
            page_inv(final(self)@),
            final(self)@ == (PageV { safe: final(self)@.safe, ..old(self)@ }),
            if (start_byte as int) < old(self)@.safe {
                end as int == vstd::math::min(old(self)@.safe, old(self)@.arena.len() as int)
                    && final(self)@.safe == old(self)@.safe
            } else {
                end as int == vstd::math::min(old(self)@.cursor, old(self)@.arena.len() as int)
                    && final(self)@.safe == old(self)@.cursor
            },
    {
        let mut end_byte: u64 = self.last_safe_write_idx;
        if start_byte as u64 >= end_byte {
            // The concurrent protocol spins here until it observes a header
            // word with a zero writer count. Between whole operations the
            // writer count is zero, so the first probe already qualifies.
            let e: u64 = self.write_idx_lock;
            proof {
                lemma_high_byte(e);
            }
            if e & 0xFF00_0000_0000_0000 == 0 {
                if e > self.last_safe_write_idx {
                    self.last_safe_write_idx = e;
                }
                end_byte = e;
            }
        }
        let cap: usize = self.buf.len();
        if end_byte < cap as u64 {
            end_byte as usize
        } else {
            cap
        }
    }

    /// Reads the record starting at the caller's cursor `start_byte`.
    /// Returns a copy of that record's payload; `NoNewMsgs` when the cursor
    /// sits at the end of the written data of an open page; `PageDone` when
    /// the byte at the cursor is the sentinel — after a seal, or when a
    /// record's length prefix happens to start with the sentinel byte, which
    /// a reader cannot tell apart from a seal.
    #[verifier::loop_isolation(false)]
    #[verifier::rlimit(100)]
    #[verifier::spinoff_prover]
    pub fn try_pop(&mut self, start_byte: usize) -> (r: Result<PopResult, Error>)
        requires
            page_inv(old(self)@),
            is_boundary(old(self)@.recs, start_byte as int),
        ensures
            page_inv(final(self)@),
            final(self)@ == (PageV { safe: final(self)@.safe, ..old(self)@ }),
            old(self)@.safe <= final(self)@.safe <= old(self)@.cursor,
            ({
                let recs = old(self)@.recs;
                let k = boundary_idx(recs, start_byte as int);
                match r {
                    Ok(PopResult::Msg(m)) => k < recs.len() && recs[k].len() % 256 != (
                    PAGE_SEALED as int) && m@ == recs[k],
                    Ok(PopResult::NoNewMsgs) => start_byte as int == rec_top(recs)
                        && !old(self)@.sealed,
                    Ok(PopResult::PageDone) => (k < recs.len() && recs[k].len() % 256 == (
                    PAGE_SEALED as int)) || (start_byte as int == rec_top(recs)
                        && old(self)@.sealed),
                    Err(_) => false,
                }
            }),
    {
        let ghost recs = old(self)@.recs;
        let ghost k = boundary_idx(recs, start_byte as int);
        proof {
            assert(0 <= k <= recs.len() && start_byte as int == rec_off(recs, k));
            lemma_rec_off_monotone(recs, 0, k);
            lemma_rec_off_monotone(recs, k, recs.len() as int);
            if k < recs.len() {
                lemma_rec_off_monotone(recs, k + 1, recs.len() as int);
            }
        }
        let end_byte: usize = self.get_write_idx_spin(start_byte);

        if end_byte == start_byte {
            proof {
                if (start_byte as int) < old(self)@.cursor {
                    assert(false);
                }
                assert(start_byte as int == rec_top(recs) && !old(self)@.sealed) by {
                    if k < recs.len() {
                        assert(rec_off(recs, k) + 4 <= rec_top(recs));
                        assert(old(self)@.cursor >= rec_top(recs));
                        assert(false);
                    }
                }
            }
            return Ok(PopResult::NoNewMsgs);
        }
        assert(start_byte < self.buf.len());
        proof {
            if k < recs.len() {
                assert(self@.arena[rec_off(recs, k)] == le32_bytes(recs[k].len() as int)[0]) by {
                    assert(self@.arena.subrange(rec_off(recs, k), rec_off(recs, k) + 4)
                        == le32_bytes(recs[k].len() as int));
                }
                assert(le32_bytes(recs[k].len() as int)[0] == (recs[k].len() % 256) as u8) by {
                    reveal(le32_bytes);
                }
            } else {
                assert(start_byte as int == rec_top(recs));
                if !old(self)@.sealed {
                    assert(old(self)@.cursor == rec_top(recs));
                    assert(end_byte <= start_byte);
                    assert(false);
                }
                assert(self@.arena[rec_top(recs)] == PAGE_SEALED);
            }
        }

        if self.buf[start_byte] == PAGE_SEALED {
            return Ok(PopResult::PageDone);
        }
        assert(k < recs.len());
        assert(recs[k].len() % 256 != PAGE_SEALED as int);
        let out: Vec<u8> = self.read_record(start_byte, Ghost(k));
        Ok(PopResult::Msg(out))
    }

    /// Appends one framed record holding `msg` to the arena. Rejects a
    /// message longer than `max_msg_len` as `MsgTooLong`, and a reservation
    /// that would no longer fit in the cursor bits of the header word as
    /// `WriteIdxLockOverflow`, before touching any state. A reservation past
    /// the arena's usable end seals the page and reports `PageFull`.
    #[verifier::loop_isolation(false)]
    #[verifier::rlimit(100)]
    #[verifier::spinoff_prover]
    pub fn try_push(&mut self, msg: &[u8], max_msg_len: usize) -> (r: Result<PushResult, Error>)
        requires
            page_inv(old(self)@),
            max_msg_len < 0x1_0000_0000,
        ensures
            page_inv(final(self)@),
            match r {
                Ok(PushResult::BytesWritten(n)) => msg@.len() <= max_msg_len && push_ok(
                    old(self)@,
                    msg@,
                    final(self)@,
                    n as int,
                ),
                Ok(PushResult::PageFull) => msg@.len() <= max_msg_len && push_full(
                    old(self)@,
                    4 + msg@.len() as int,
                    final(self)@,
                ),
                Err(Error::MsgTooLong) => msg@.len() > max_msg_len && final(self)@ == old(self)@,
                Err(Error::WriteIdxLockOverflow) => msg@.len() <= max_msg_len && old(self)@.cursor
                    + 4 + msg@.len() > CURSOR_MASK as int && final(self)@ == old(self)@,
            },
    {
        if msg.len() > max_msg_len {
            return Err(Error::MsgTooLong);
        }
        let need: u64 = 4 + msg.len() as u64;
        if self.write_idx_lock > CURSOR_MASK - need {
            return Err(Error::WriteIdxLockOverflow);
        }
        let old_word: u64 = self.write_idx_lock;
        self.write_idx_lock = old_word + (WRITER_BIT + need);
        if (old_word + WRITER_BIT) & 0xFF00_0000_0000_0000 == 0 {
            // With the writer counter at zero before the reservation, the
            // counter byte cannot wrap.
            proof {
                let x = old_word;
                assert(((x + 0x0100_0000_0000_0000) as u64) & 0xFF00_0000_0000_0000 != 0)
                    by (bit_vector)
                    requires
                        x <= 0x00FF_FFFF_FFFF_FFFF,
                ;
            }
            return Err(Error::WriteIdxLockOverflow);
        }
        proof {
            lemma_mask_id(old_word);
        }
        let start64: u64 = old_word & CURSOR_MASK;
        let cap: usize = self.buf.len();

        if start64 + need >= cap as u64 - 1 {
            if start64 < cap as u64 {
                self.buf.set(start64 as usize, PAGE_SEALED);
            }
            self.write_idx_lock = self.write_idx_lock - WRITER_BIT;
            self.sealed = Ghost(true);
            proof {
                assert(push_full(old(self)@, 4 + msg@.len() as int, self@));
                lemma_inv_after_seal(old(self)@, 4 + msg@.len() as int, self@);
            }
            return Ok(PushResult::PageFull);
        }

        let rec: Vec<u8> = crate::codec::encode_record(msg);
        proof {
            lemma_le32_bytes_len(msg@.len() as int);
            assert(rec@.len() == 4 + msg@.len());
        }
        let start: usize = start64 as usize;
        let ghost pre_arena = old(self)@.arena;
        let mut i: usize = 0;
        while i < rec.len()
            invariant
                0 <= i <= rec.len(),
                self.buf@.len() == cap,
                self.write_idx_lock == old_word + (WRITER_BIT + need),
                self.last_safe_write_idx == old(self).last_safe_write_idx,
                self.recs@ == old(self)@.recs,
                self.sealed@ == old(self)@.sealed,
                forall|j: int|
                    0 <= j < cap && !(start <= j < start + i) ==> self.buf@[j] == pre_arena[j],
                forall|j: int| 0 <= j < i ==> self.buf@[start + j] == rec@[j],
            decreases rec.len() - i,
        {
            self.buf.set(start + i, rec[i]);
            i = i + 1;
        }
        self.write_idx_lock = self.write_idx_lock - WRITER_BIT;
        self.recs = Ghost(self.recs@.push(msg@));
        proof {
            lemma_le32_bytes_len(msg@.len() as int);
            assert(spec_record(msg@).len() == 4 + msg@.len());
            assert forall|j: int| 0 <= j < 4 implies spec_record(msg@)[j] == le32_bytes(
                msg@.len() as int,
            )[j] by {}
            assert(self@.arena =~= pre_arena.subrange(0, start as int) + spec_record(msg@)
                + pre_arena.subrange(start + need, pre_arena.len() as int));
            assert(push_ok(old(self)@, msg@, self@, need as int));
            lemma_inv_after_push(old(self)@, msg@, self@);
        }
        Ok(PushResult::BytesWritten(4 + msg.len()))
    }

    /// Appends a pre-framed blob of zero or more records to the arena in a
    /// single reservation, without adding any framing of its own.
    #[verifier::loop_isolation(false)]
    #[verifier::rlimit(100)]
    #[verifier::spinoff_prover]
    pub fn try_push_raw(&mut self, msgs: &[u8]) -> (r: Result<PushResult, Error>)
        requires
            page_inv(old(self)@),
            parse_blob(msgs@) is Some,
        ensures
            page_inv(final(self)@),
            match r {
                Ok(PushResult::BytesWritten(n)) => push_raw_ok(
                    old(self)@,
                    msgs@,
                    final(self)@,
                    n as int,
                ),
                Ok(PushResult::PageFull) => push_full(old(self)@, msgs@.len() as int, final(self)@),
                Err(Error::MsgTooLong) => false,
                Err(Error::WriteIdxLockOverflow) => old(self)@.cursor + msgs@.len() > (
                CURSOR_MASK as int) && final(self)@ == old(self)@,
            },
    {
        let need: u64 = msgs.len() as u64;
        if need > CURSOR_MASK || self.write_idx_lock > CURSOR_MASK - need {
            return Err(Error::WriteIdxLockOverflow);
        }
        let old_word: u64 = self.write_idx_lock;
        self.write_idx_lock = old_word + (WRITER_BIT + need);
        if (old_word + WRITER_BIT) & 0xFF00_0000_0000_0000 == 0 {
            // With the writer counter at zero before the reservation, the
            // counter byte cannot wrap.
            proof {
                let x = old_word;
                assert(((x + 0x0100_0000_0000_0000) as u64) & 0xFF00_0000_0000_0000 != 0)
                    by (bit_vector)
                    requires
                        x <= 0x00FF_FFFF_FFFF_FFFF,
                ;
            }
            return Err(Error::WriteIdxLockOverflow);
        }
        proof {
            lemma_mask_id(old_word);
        }
        let start64: u64 = old_word & CURSOR_MASK;
        let cap: usize = self.buf.len();

        if start64 + need >= cap as u64 - 1 {
            if start64 < cap as u64 {
                self.buf.set(start64 as usize, PAGE_SEALED);
            }
            self.write_idx_lock = self.write_idx_lock - WRITER_BIT;
            self.sealed = Ghost(true);
            proof {
                assert(push_full(old(self)@, msgs@.len() as int, self@));
                lemma_inv_after_seal(old(self)@, msgs@.len() as int, self@);
            }
            return Ok(PushResult::PageFull);
        }

        let start: usize = start64 as usize;
        let ghost pre_arena = old(self)@.arena;
        let mut i: usize = 0;
        while i < msgs.len()
            invariant
                0 <= i <= msgs@.len(),
                self.buf@.len() == cap,
                self.write_idx_lock == old_word + (WRITER_BIT + need),
                self.last_safe_write_idx == old(self).last_safe_write_idx,
                self.recs@ == old(self)@.recs,
                self.sealed@ == old(self)@.sealed,
                forall|j: int|
                    0 <= j < cap && !(start <= j < start + i) ==> self.buf@[j] == pre_arena[j],
                forall|j: int| 0 <= j < i ==> self.buf@[start + j] == msgs@[j],
            decreases msgs@.len() - i,
        {
            self.buf.set(start + i, msgs[i]);
            i = i + 1;
        }
        self.write_idx_lock = self.write_idx_lock - WRITER_BIT;
        self.recs = Ghost(self.recs@ + parse_blob(msgs@)->Some_0);
        proof {
            assert(self@.arena =~= pre_arena.subrange(0, start as int) + msgs@
                + pre_arena.subrange(start + need, pre_arena.len() as int));
            assert(push_raw_ok(old(self)@, msgs@, self@, need as int));
            lemma_inv_after_push_raw(old(self)@, msgs@, self@);
        }
        Ok(PushResult::BytesWritten(msgs.len()))
    }

    /// Copies the payload of the record starting at `start_byte` out of the
    /// arena.
    #[verifier::loop_isolation(false)]
    #[verifier::rlimit(100)]
    #[verifier::spinoff_prover]
    fn read_record(&self, start_byte: usize, k: Ghost<int>) -> (out: Vec<u8>)
        requires
            page_inv(self@),
            0 <= k@ < self@.recs.len(),
            start_byte as int == rec_off(self@.recs, k@),
        ensures
            out@ == self@.recs[k@],
    {
        let ghost recs = self@.recs;
        let ghost k = k@;
        proof {
            lemma_rec_off_monotone(recs, 0, k);
            lemma_rec_off_monotone(recs, k + 1, recs.len() as int);
            assert(self@.arena.subrange(rec_off(recs, k), rec_off(recs, k) + 4) == le32_bytes(
                recs[k].len() as int,
            ));
            assert(self@.arena.subrange(rec_off(recs, k) + 4, rec_off(recs, k + 1)) == recs[k]);
            lemma_le32_roundtrip(recs[k].len() as int);
            assert(rec_off(recs, k + 1) == rec_off(recs, k) + 4 + recs[k].len());
            assert(rec_off(recs, k + 1) <= self@.arena.len() - 2);
        }
        let cap: usize = self.buf.len();
        assert(start_byte + 4 + recs[k].len() <= cap);
        let b0: u64 = self.buf[start_byte] as u64;
        let b1: u64 = self.buf[start_byte + 1] as u64;
        let b2: u64 = self.buf[start_byte + 2] as u64;
        let b3: u64 = self.buf[start_byte + 3] as u64;
        proof {
            assert(b0 as int == le32_bytes(recs[k].len() as int)[0] as int);
            assert(b1 as int == le32_bytes(recs[k].len() as int)[1] as int);
            assert(b2 as int == le32_bytes(recs[k].len() as int)[2] as int);
            assert(b3 as int == le32_bytes(recs[k].len() as int)[3] as int);
            assert(b0 + 256 * b1 + 65536 * b2 + 16777216 * b3 == le32_val(
                le32_bytes(recs[k].len() as int),
            ));
        }
        let msg_len: u64 = b0 + 256 * b1 + 65536 * b2 + 16777216 * b3;
        assert(msg_len as int == recs[k].len());
        let data_start: usize = start_byte + 4;
        let data_len: usize = msg_len as usize;
        assert(data_start + data_len == rec_off(recs, k + 1));

        let mut out: Vec<u8> = Vec::new();
        let mut i: usize = 0;
        while i < data_len
            invariant
                0 <= i <= data_len,
                out@ =~= recs[k].subrange(0, i as int),
            decreases data_len - i,
        {
            let b: u8 = self.buf[data_start + i];
            proof {
                assert(recs[k][i as int] == self@.arena.subrange(
                    rec_off(recs, k) + 4,
                    rec_off(recs, k + 1),
                )[i as int]);
            }
            out.push(b);
            assert(out@ =~= recs[k].subrange(0, i + 1));
            i = i + 1;
        }
        assert(out@ =~= recs[k]);
        out
    }
}

} // verus!
