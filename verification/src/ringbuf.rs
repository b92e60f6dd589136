//! The ring supervisor: composes a growing sequence of pages into one queue.
//!
//! A shared control record holds the retention bound `max_qpages` and the
//! monotonic `qpage_count`, the highest page index allocated so far. Senders
//! append to their current page and roll over to the next index when a page
//! fills, unlinking the oldest page when the retention bound demands it; the
//! receiver drains pages in index order and follows sealed pages forward,
//! skipping ahead over reclaimed pages when it has fallen out of the retained
//! window.
//!
//! The page store is explicit here: `RingStore` owns every page that has
//! been mapped, together with a flag saying whether the page's file is still
//! linked in the directory. Unlinking keeps the page's bytes (a mapping
//! outlives the directory entry); reopening an unlinked index starts from an
//! empty page again (a fresh file). Sender and receiver handles carry only
//! their per-handle cursor state and act on a store they are given.

use crate::codec::rec_off;
use crate::codec::rec_top;
use crate::qpage::boundary_idx;
use crate::qpage::is_boundary;
use crate::qpage::lemma_boundary_unique;
use crate::qpage::page_inv;
use crate::qpage::push_full;
use crate::qpage::Error;
use crate::qpage::PageV;
use crate::qpage::PopResult;
use crate::qpage::PushResult;
use crate::qpage::QPage;
use crate::qpage::CURSOR_MASK;
use crate::qpage::PAGE_SEALED;
use vstd::prelude::*;

verus! {

/// Failures surfaced by the ring: a failed read, a page error, or a failure
/// of the backing store.
#[derive(Debug, Clone, Copy, PartialEq, Eq, Structural)]
pub enum RingbufError {
    ReadError,
    QError(Error),
    IoError,
}

/// The shared control record: retention bound and highest allocated page.
pub struct DiskRingInfo {
    /// Retention bound on linked page files; zero means unbounded.
    pub max_qpages: usize,
    /// The highest page index allocated so far; never decreases.
    pub qpage_count: usize,
}

/// The page store: every page mapped so far, with its directory-link state,
/// the control record, and the fixed page geometry.
pub struct RingStore {
    pages: Vec<QPage>,
    linked: Vec<bool>,
    info: DiskRingInfo,
    page_cap: usize,
    max_msg_len: usize,
}

/// Abstract state of the store.
pub struct RingV {
    /// Abstract state of each mapped page, by index.
    pub pages: Seq<PageV>,
    /// Whether each page index is still linked in the directory.
    pub linked: Seq<bool>,
    /// The highest allocated page index.
    pub count: int,
    /// Retention bound; zero means unbounded.
    pub max_qpages: int,
    /// Arena capacity of every page.
    pub page_cap: int,
    /// Bound on one message's length.
    pub max_msg_len: int,
}

impl View for RingStore {
    type V = RingV;

    closed spec fn view(&self) -> RingV {
        RingV {
            pages: self.pages@.map_values(|p: QPage| p@),
            linked: self.linked@,
            count: self.info.qpage_count as int,
            max_qpages: self.info.max_qpages as int,
            page_cap: self.page_cap as int,
            max_msg_len: self.max_msg_len as int,
        }
    }
}

/// A sender handle: the page index it is currently writing. Clones are
/// independent handles that continue from the same page.
#[derive(Clone)]
pub struct Sender {
    qpage_no: usize,
}

/// A receiver handle: the page index it is reading, its byte cursor in that
/// page, and the index of the record that cursor points at. Clones are
/// independent handles that continue from the same position.
#[derive(Clone)]
pub struct Receiver {
    qpage_no: usize,
    read_byte: usize,
    rec_idx: Ghost<int>,
}

/// Abstract state of a receiver handle.
pub struct RcvV {
    /// The page the receiver reads.
    pub page_no: int,
    /// Byte offset of the next record in that page.
    pub read_byte: int,
    /// Index of the next record in that page.
    pub rec_idx: int,
}

impl View for Sender {
    type V = int;

    closed spec fn view(&self) -> int {
        self.qpage_no as int
    }
}

impl View for Receiver {
    type V = RcvV;

    closed spec fn view(&self) -> RcvV {
        RcvV {
            page_no: self.qpage_no as int,
            read_byte: self.read_byte as int,
            rec_idx: self.rec_idx@,
        }
    }
}

/// A page no writer has touched yet: zeroed arena, cursor at zero, no
/// records, not sealed.
pub open spec fn fresh_page(cap: int) -> PageV {
    PageV {
        arena: Seq::new(cap as nat, |i: int| 0u8),
        cursor: 0,
        safe: 0,
        recs: Seq::empty(),
        sealed: false,
    }
}

/// Whether a page is still in its freshly created state.
pub open spec fn virgin(p: PageV) -> bool {
    p.recs.len() == 0 && !p.sealed && p.cursor == 0 && p.safe == 0
}

/// Store well-formedness: geometry bounds, one well-formed page per mapped
/// index, the highest allocated index inside the mapped range, and no
/// records in any page beyond the highest allocated index.
pub open spec fn ring_wf(v: RingV) -> bool {
    &&& v.pages.len() == v.linked.len()
    &&& 0 <= v.count < v.pages.len()
    &&& 0 <= v.max_qpages
    &&& 2 <= v.page_cap <= CURSOR_MASK as int
    &&& 0 <= v.max_msg_len < 0x1_0000_0000
    &&& v.max_msg_len + 6 <= v.page_cap
    &&& forall|i: int|
        0 <= i < v.pages.len() ==> page_inv(#[trigger] v.pages[i]) && v.pages[i].arena.len()
            == v.page_cap
    &&& forall|i: int| v.count < i < v.pages.len() ==> virgin(#[trigger] v.pages[i])
}

/// Store well-formedness while a rollover is mid-flight: the count may
/// momentarily equal the number of mapped pages, before the new page is
/// opened.
pub open spec fn ring_wf_loose(v: RingV) -> bool {
    &&& v.pages.len() == v.linked.len()
    &&& 0 <= v.count <= v.pages.len()
    &&& 0 <= v.max_qpages
    &&& 2 <= v.page_cap <= CURSOR_MASK as int
    &&& 0 <= v.max_msg_len < 0x1_0000_0000
    &&& v.max_msg_len + 6 <= v.page_cap
    &&& forall|i: int|
        0 <= i < v.pages.len() ==> page_inv(#[trigger] v.pages[i]) && v.pages[i].arena.len()
            == v.page_cap
    &&& forall|i: int| v.count < i < v.pages.len() ==> virgin(#[trigger] v.pages[i])
}

/// A sender handle is valid for a store when its page is allocated.
pub open spec fn snd_ok(s: int, v: RingV) -> bool {
    0 <= s <= v.count
}

/// A receiver handle is valid for a store when its page is mapped and its
/// byte cursor is the boundary of record `rec_idx` of that page.
pub open spec fn rcv_ok(r: RcvV, v: RingV) -> bool {
    &&& 0 <= r.page_no < v.pages.len()
    &&& r.page_no <= v.count + 1
    &&& 0 <= r.rec_idx <= v.pages[r.page_no].recs.len()
    &&& r.read_byte == rec_off(v.pages[r.page_no].recs, r.rec_idx)
}

impl RingStore {
    /// A fresh store: page 0 allocated and linked, count 0, unbounded
    /// retention, with the given page geometry.
    pub fn new(page_cap: usize, max_msg_len: usize) -> (s: RingStore)
        requires
            max_msg_len + 6 <= page_cap,
            page_cap as int <= CURSOR_MASK as int,
            max_msg_len < 0x1_0000_0000,
        ensures
            ring_wf(s@),
            s@.count == 0,
            s@.max_qpages == 0,
            s@.pages.len() == 1,
            s@.pages[0] == fresh_page(page_cap as int),
            s@.linked[0] == true,
            s@.page_cap == page_cap as int,
            s@.max_msg_len == max_msg_len as int,
    {
        let mut pages: Vec<QPage> = Vec::new();
        pages.push(QPage::new(page_cap));
        let mut linked: Vec<bool> = Vec::new();
        linked.push(true);
        let s = RingStore {
            pages,
            linked,
            info: DiskRingInfo { max_qpages: 0, qpage_count: 0 },
            page_cap,
            max_msg_len,
        };
        assert(s@.pages =~= seq![fresh_page(page_cap as int)]);
        assert(rec_top(s@.pages[0].recs) == 0);
        s
    }

    /// The number of page files currently linked in the directory.
    pub fn linked_page_files(&self) -> (n: usize)
        ensures
            n as int == num_linked(self@.linked, self@.linked.len() as int),
    {
        let mut n: usize = 0;
        let mut i: usize = 0;
        while i < self.linked.len()
            invariant
                0 <= i <= self.linked@.len(),
                n as int == num_linked(self@.linked, i as int),
                n <= i,
            decreases self.linked@.len() - i,
        {
            if self.linked[i] {
                n = n + 1;
            }
            i = i + 1;
        }
        n
    }

    /// Maps the page at index `no`, creating page files as needed: indexes
    /// up to `no` become mapped, and if `no` itself was not linked, it is
    /// recreated as a fresh page and linked.
    fn open_page(&mut self, no: usize)
        requires
            ring_wf_loose(old(self)@),
            no as int <= old(self)@.count + 1,
            old(self)@.count < old(self)@.pages.len() || no as int == old(self)@.count,
        ensures
            ring_wf(final(self)@),
            final(self)@.count == old(self)@.count,
            final(self)@.max_qpages == old(self)@.max_qpages,
            final(self)@.page_cap == old(self)@.page_cap,
            final(self)@.max_msg_len == old(self)@.max_msg_len,
            final(self)@.pages.len() == vstd::math::max(
                old(self)@.pages.len() as int,
                no as int + 1,
            ),
            final(self)@.linked[no as int] == true,
            (if (no as int) < old(self)@.pages.len() && old(self)@.linked[no as int] {
                final(self)@.pages[no as int] == old(self)@.pages[no as int]
            } else {
                final(self)@.pages[no as int] == fresh_page(old(self)@.page_cap)
            }),
            forall|i: int|
                0 <= i < old(self)@.pages.len() && i != no ==> (#[trigger] final(self)@.pages[i])
                    == old(self)@.pages[i] && final(self)@.linked[i] == old(self)@.linked[i],
            forall|i: int|
                old(self)@.pages.len() <= i < final(self)@.pages.len() && i != no ==> (
                #[trigger] final(self)@.pages[i]) == fresh_page(old(self)@.page_cap)
                    && !final(self)@.linked[i],
            forall|i: int|
                0 <= i < old(self)@.pages.len() && i != no ==> (#[trigger] final(self)@.linked[i])
                    == old(self)@.linked[i],
            forall|i: int|
                old(self)@.pages.len() <= i < final(self)@.pages.len() && i != no ==> !(
                #[trigger] final(self)@.linked[i]),
    {
        while self.pages.len() <= no
            invariant
                ring_wf_loose(self@),
                self@.count == old(self)@.count,
                self@.max_qpages == old(self)@.max_qpages,
                self@.page_cap == old(self)@.page_cap,
                self@.max_msg_len == old(self)@.max_msg_len,
                no as int <= self@.count + 1,
                old(self)@.pages.len() <= self@.pages.len() <= vstd::math::max(
                    old(self)@.pages.len() as int,
                    no as int + 1,
                ),
                forall|i: int|
                    0 <= i < old(self)@.pages.len() ==> self@.pages[i] == old(self)@.pages[i]
                        && self@.linked[i] == old(self)@.linked[i],
                forall|i: int|
                    old(self)@.pages.len() <= i < self@.pages.len() ==> self@.pages[i]
                        == fresh_page(old(self)@.page_cap) && self@.linked[i] == false,
            decreases no + 1 - self.pages.len(),
        {
            let p = QPage::new(self.page_cap);
            proof {
                assert(p@ == fresh_page(self@.page_cap));
                assert(rec_top(p@.recs) == 0);
            }
            let ghost prev = self@;
            self.pages.push(p);
            self.linked.push(false);
            proof {
                assert(self@.pages =~= prev.pages.push(p@));
                assert(self@.linked =~= prev.linked.push(false));
            }
        }
        if !self.linked[no] {
            let p = QPage::new(self.page_cap);
            proof {
                assert(p@ == fresh_page(self@.page_cap));
                assert(rec_top(p@.recs) == 0);
            }
            let ghost prev = self@;
            self.pages.set(no, p);
            self.linked.set(no, true);
            proof {
                assert(self@.pages =~= prev.pages.update(no as int, p@));
                assert(self@.linked =~= prev.linked.update(no as int, true));
            }
        }
    }
}

/// The records the destination page held just before a push appended its
/// message: the sender's own page keeps its records even when unlinked (its
/// mapping outlives the directory entry), while a page reached by rollover
/// keeps them only if still linked — an unlinked index is recreated empty.
pub open spec fn push_dest_base(v0: RingV, s0: int, p: int) -> Seq<Seq<u8>> {
    if p == s0 {
        v0.pages[s0].recs
    } else if p < v0.pages.len() && v0.linked[p] {
        v0.pages[p].recs
    } else {
        Seq::empty()
    }
}

/// Whether page index `i` is linked after a push that moved the sender from
/// page `s0` to page `p` and brought the count to `c1`: rollover links every
/// page the sender passed, and when the count advanced under a retention
/// bound, the page that fell out of the window is unlinked.
pub open spec fn push_linked_after(v0: RingV, s0: int, p: int, c1: int, i: int) -> bool {
    if c1 > v0.count && v0.max_qpages > 0 && c1 >= v0.max_qpages && i == c1 - v0.max_qpages {
        false
    } else if s0 < i <= p {
        true
    } else if 0 <= i < v0.linked.len() {
        v0.linked[i]
    } else {
        false
    }
}

/// A successful ring push from sender page `s0` to sender page `s1`: the
/// message was appended to page `s1` as its last record; the pages the
/// sender rolled over are sealed with their records intact; every other
/// page is untouched; the count advanced only if the sender allocated page
/// `s1 == count + 1`, unlinking the page that left the retention window.
pub open spec fn ring_push_ok(
    v0: RingV,
    s0: int,
    msg: Seq<u8>,
    v1: RingV,
    s1: int,
    n: int,
) -> bool {
    &&& n == 4 + msg.len()
    &&& msg.len() <= v0.max_msg_len
    &&& s0 <= s1
    &&& ((s1 <= v0.count && v1.count == v0.count) || (s1 == v0.count + 1 && v1.count == s1))
    &&& v1.pages.len() == vstd::math::max(v0.pages.len() as int, s1 + 1)
    &&& v1.max_qpages == v0.max_qpages
    &&& v1.page_cap == v0.page_cap
    &&& v1.max_msg_len == v0.max_msg_len
    &&& v1.pages[s1].recs == push_dest_base(v0, s0, s1).push(msg)
    &&& !v1.pages[s1].sealed
    &&& forall|i: int|
        0 <= i < v0.pages.len() && i != s1 ==> (#[trigger] v1.pages[i]).recs == v0.pages[i].recs
    &&& forall|i: int|
        0 <= i < v0.pages.len() && !(s0 <= i <= s1) ==> (#[trigger] v1.pages[i]) == v0.pages[i]
    &&& forall|i: int| s0 <= i < s1 ==> (#[trigger] v1.pages[i]).sealed
    &&& forall|i: int|
        0 <= i < v1.linked.len() ==> v1.linked[i] == push_linked_after(v0, s0, s1, v1.count, i)
}

/// A push that failed after possibly rolling over some pages: no page
/// gained or lost a record, and the link states follow the same rollover
/// bookkeeping as a successful push.
pub open spec fn ring_push_err(v0: RingV, s0: int, v1: RingV, s1: int) -> bool {
    &&& s0 <= s1
    &&& ((s1 <= v0.count && v1.count == v0.count) || (s1 == v0.count + 1 && v1.count == s1))
    &&& v1.max_qpages == v0.max_qpages
    &&& v1.page_cap == v0.page_cap
    &&& v1.max_msg_len == v0.max_msg_len
    &&& forall|i: int|
        0 <= i < v0.pages.len() ==> (#[trigger] v1.pages[i]).recs == v0.pages[i].recs
    &&& forall|i: int|
        v0.pages.len() <= i < v1.pages.len() ==> (#[trigger] v1.pages[i]).recs.len() == 0
    &&& forall|i: int|
        0 <= i < v1.linked.len() ==> v1.linked[i] == push_linked_after(v0, s0, s1, v1.count, i)
}

impl Sender {
    /// Creates a sender positioned at the highest allocated page.
    pub fn new(store: &mut RingStore) -> (tx: Sender)
        requires
            ring_wf(old(store)@),
        ensures
            ring_wf(final(store)@),
            final(store)@.count == old(store)@.count,
            final(store)@.max_qpages == old(store)@.max_qpages,
            final(store)@.page_cap == old(store)@.page_cap,
            final(store)@.max_msg_len == old(store)@.max_msg_len,
            snd_ok(tx@, final(store)@),
            tx@ == old(store)@.count,
            forall|i: int|
                0 <= i < old(store)@.pages.len() && i != old(store)@.count ==> (
                #[trigger] final(store)@.pages[i]) == old(store)@.pages[i]
                    && final(store)@.linked[i] == old(store)@.linked[i],
    {
        let no: usize = store.info.qpage_count;
        store.open_page(no);
        Sender { qpage_no: no }
    }

    /// Moves this sender to the next page index. When the sender already
    /// sits at the highest allocated index, it allocates the next one,
    /// advances the count, and, under a retention bound, unlinks the page
    /// that fell out of the window; then the target page is opened.
    fn page_flip(&mut self, store: &mut RingStore)
        requires
            ring_wf(old(store)@),
            snd_ok(old(self)@, old(store)@),
        ensures
            ring_wf(final(store)@),
            snd_ok(final(self)@, final(store)@),
            final(self)@ == old(self)@ + 1,
            final(store)@.max_qpages == old(store)@.max_qpages,
            final(store)@.page_cap == old(store)@.page_cap,
            final(store)@.max_msg_len == old(store)@.max_msg_len,
            (if old(self)@ < old(store)@.count {
                final(store)@.count == old(store)@.count
            } else {
                final(store)@.count == old(store)@.count + 1
            }),
            final(store)@.pages.len() == vstd::math::max(
                old(store)@.pages.len() as int,
                old(self)@ + 2,
            ),
            (if old(self)@ + 1 < old(store)@.pages.len() && old(store)@.linked[old(self)@ + 1] {
                final(store)@.pages[old(self)@ + 1] == old(store)@.pages[old(self)@ + 1]
            } else {
                final(store)@.pages[old(self)@ + 1] == fresh_page(old(store)@.page_cap)
            }),
            forall|i: int|
                0 <= i < old(store)@.pages.len() && i != old(self)@ + 1 ==> (
                #[trigger] final(store)@.pages[i]) == old(store)@.pages[i],
            forall|i: int|
                old(store)@.pages.len() <= i < final(store)@.pages.len() && i != old(self)@ + 1
                    ==> (#[trigger] final(store)@.pages[i]) == fresh_page(old(store)@.page_cap),
            forall|i: int|
                0 <= i < final(store)@.linked.len() ==> final(store)@.linked[i]
                    == flip_linked_after(
                    old(store)@,
                    old(self)@,
                    final(store)@.count,
                    i,
                ),
    {
        let count: usize = store.info.qpage_count;
        if self.qpage_no < count {
            self.qpage_no = self.qpage_no + 1;
            store.open_page(self.qpage_no);
            return ;
        }
        let plen: usize = store.pages.len();
        assert(count < plen);
        let new_count: usize = count + 1;
        store.info.qpage_count = new_count;
        self.qpage_no = new_count;
        let max_qpages: usize = store.info.max_qpages;
        if max_qpages > 0 && new_count >= max_qpages {
            let del: usize = new_count - max_qpages;
            let ghost prev = store@;
            store.linked.set(del, false);
            proof {
                assert(store@.linked =~= prev.linked.update(del as int, false));
                assert(store@.pages =~= prev.pages);
            }
        }
        store.open_page(self.qpage_no);
    }

    /// Appends one message to the queue: writes it to this sender's current
    /// page, rolling over to later pages while the current one is full.
    /// Returns the number of bytes written, prefix included. Messages longer
    /// than the store's bound are rejected as `MsgTooLong` with nothing
    /// written.
    #[verifier::loop_isolation(false)]
    #[verifier::rlimit(100)]
    #[verifier::spinoff_prover]
    pub fn push(&mut self, store: &mut RingStore, input: &[u8]) -> (r: Result<usize, RingbufError>)
        requires
            ring_wf(old(store)@),
            snd_ok(old(self)@, old(store)@),
        ensures
            ring_wf(final(store)@),
            snd_ok(final(self)@, final(store)@),
            match r {
                Ok(n) => ring_push_ok(
                    old(store)@,
                    old(self)@,
                    input@,
                    final(store)@,
                    final(self)@,
                    n as int,
                ),
                Err(RingbufError::QError(Error::MsgTooLong)) => input@.len() > old(
                    store,
                )@.max_msg_len && final(store)@ == old(store)@ && final(self)@ == old(self)@,
                Err(RingbufError::QError(Error::WriteIdxLockOverflow)) => ring_push_err(
                    old(store)@,
                    old(self)@,
                    final(store)@,
                    final(self)@,
                ) && input@.len() <= old(store)@.max_msg_len && final(store)@.pages[final(self)@].cursor
                    + 4 + input@.len() > CURSOR_MASK as int,
                Err(_) => false,
            },
    {
        let ghost v0 = old(store)@;
        let ghost s0 = old(self)@;
        loop
            invariant
                ring_wf(store@),
                snd_ok(self@, store@),
                s0 <= self@,
                store@.max_qpages == v0.max_qpages,
                store@.page_cap == v0.page_cap,
                store@.max_msg_len == v0.max_msg_len,
                ((self@ <= v0.count && store@.count == v0.count) || (self@ == v0.count + 1
                    && store@.count == self@)),
                store@.pages.len() == (if self@ == s0 {
                    v0.pages.len() as int
                } else {
                    vstd::math::max(v0.pages.len() as int, self@ + 1)
                }),
                store@.pages[self@] == (if self@ == s0 {
                    v0.pages[s0]
                } else if self@ < v0.pages.len() && v0.linked[self@] {
                    v0.pages[self@]
                } else {
                    fresh_page(v0.page_cap)
                }),
                forall|i: int|
                    0 <= i < v0.pages.len() && !(s0 <= i < self@) && i != self@ ==> (
                    #[trigger] store@.pages[i]) == v0.pages[i],
                forall|i: int|
                    v0.pages.len() <= i < store@.pages.len() && i != self@ ==> (
                    #[trigger] store@.pages[i]) == fresh_page(v0.page_cap),
                forall|i: int|
                    s0 <= i < self@ ==> push_full(
                        v0.pages[i],
                        4 + input@.len() as int,
                        #[trigger] store@.pages[i],
                    ),
                self@ > s0 ==> input@.len() <= v0.max_msg_len,
                forall|i: int|
                    0 <= i < store@.linked.len() ==> (#[trigger] store@.linked[i])
                        == push_linked_after(v0, s0, self@, store@.count, i),
            decreases 2 * (store@.count + 1 - self@) + (if store@.pages[self@].cursor == 0 {
                0int
            } else {
                1int
            }),
        {
            let max_msg_len: usize = store.max_msg_len;
            let no: usize = self.qpage_no;
            let ghost prev = store@;
            let page = &mut store.pages[no];
            let res = page.try_push(input, max_msg_len);
            proof {
                assert(store@.pages =~= prev.pages.update(no as int, final(page)@));
                assert(store@.linked =~= prev.linked);
            }
            match res {
                Ok(PushResult::BytesWritten(x)) => {
                    proof {
                        assert(store@.pages[no as int].recs == prev.pages[no as int].recs.push(
                            input@,
                        ));
                        assert(ring_push_ok(v0, s0, input@, store@, self@, x as int));
                    }
                    return Ok(x);
                },
                Ok(PushResult::PageFull) => {},
                Err(e) => {
                    if let Error::MsgTooLong = e {
                        proof {
                            assert(self@ == s0);
                            assert(store@.pages =~= v0.pages);
                            assert(store@.linked =~= v0.linked);
                            assert(store@ == v0);
                        }
                        return Err(RingbufError::QError(e));
                    }
                    proof {
                        assert(ring_push_err(v0, s0, store@, self@));
                    }
                    return Err(RingbufError::QError(e));
                },
            }
            self.page_flip(store);
        }
    }
}

/// Whether page index `i` is linked after one rollover step of a sender
/// that sat at page `s0`, with the count at `c1` afterwards.
pub open spec fn flip_linked_after(v0: RingV, s0: int, c1: int, i: int) -> bool {
    if c1 > v0.count && v0.max_qpages > 0 && c1 >= v0.max_qpages && i == c1 - v0.max_qpages {
        false
    } else if i == s0 + 1 {
        true
    } else if 0 <= i < v0.linked.len() {
        v0.linked[i]
    } else {
        false
    }
}

/// Where a receiver moves from page `p` when it finishes that page: to the
/// next index, but never behind the retained window when a retention bound
/// is set.
pub open spec fn flip_target(p: int, count: int, max_qpages: int) -> int {
    if max_qpages > 0 {
        vstd::math::max(
            p + 1,
            if count >= max_qpages {
                count - max_qpages
            } else {
                0
            },
        )
    } else {
        p + 1
    }
}

/// What a reader sees first in page `pv` at record index `k`: a readable
/// message, the end of the page, or nothing yet.
pub open spec fn probe_msg(pv: PageV, k: int) -> bool {
    k < pv.recs.len() && pv.recs[k].len() % 256 != PAGE_SEALED as int
}

/// The reader stops at this page position for good: a sealed page drained
/// to its end, or a record whose length prefix begins with the sentinel
/// byte, which the reader cannot tell from a seal.
pub open spec fn probe_done(pv: PageV, k: int) -> bool {
    (k < pv.recs.len() && pv.recs[k].len() % 256 == PAGE_SEALED as int) || (k >= pv.recs.len()
        && pv.sealed)
}

/// The page a receiver finds when it opens index `p`: the mapped page when
/// the index is still linked, else a fresh one (the old file is gone, so a
/// new one is created).
pub open spec fn eff_page(v: RingV, p: int) -> PageV {
    if 0 <= p < v.pages.len() && v.linked[p] {
        v.pages[p]
    } else {
        fresh_page(v.page_cap)
    }
}

/// Where a pop that keeps flipping forward from page `p` comes to rest:
/// the position of the next readable message (`true`), or the position at
/// which it finds nothing new (`false`).
pub open spec fn walk_cont(v: RingV, p: int) -> (int, int, bool)
    decreases v.count + 1 - p,
{
    if p > v.count {
        (p, 0int, false)
    } else {
        let pv = eff_page(v, p);
        if probe_msg(pv, 0) {
            (p, 0int, true)
        } else if probe_done(pv, 0) {
            walk_cont(v, flip_target(p, v.count, v.max_qpages))
        } else {
            (p, 0int, false)
        }
    }
}

/// Where a pop starting at position (`p0`, `k0`) comes to rest. The first
/// page is read through the receiver's own mapping, so it keeps its bytes
/// even when the index was unlinked; pages reached by flipping are opened
/// fresh when unlinked.
pub open spec fn pop_walk(v: RingV, p0: int, k0: int) -> (int, int, bool) {
    let pv = v.pages[p0];
    if probe_msg(pv, k0) {
        (p0, k0, true)
    } else if probe_done(pv, k0) {
        walk_cont(v, flip_target(p0, v.count, v.max_qpages))
    } else {
        (p0, k0, false)
    }
}

/// The message a resting pop returns: the record at the resting position.
pub open spec fn pop_walk_msg(v: RingV, p0: int, k0: int) -> Seq<u8> {
    let (pf, kf, found) = pop_walk(v, p0, k0);
    if pf == p0 && kf == k0 {
        v.pages[p0].recs[k0]
    } else {
        eff_page(v, pf).recs[kf]
    }
}

/// Two pages that differ at most in their cached safe mark.
pub open spec fn page_eq_mod_safe(a: PageV, b: PageV) -> bool {
    a.arena == b.arena && a.cursor == b.cursor && a.recs == b.recs && a.sealed == b.sealed
}

/// What one pop does to the store and the receiver. The store keeps every
/// record of every page: at most, the resting page is a reclaimed index
/// recreated fresh, pages past the old end are mapped fresh, and cached
/// safe marks advance. The receiver moves to the resting position of
/// `pop_walk`, past the returned message if one was found.
pub open spec fn ring_pop_post(
    v0: RingV,
    r0: RcvV,
    v1: RingV,
    r1: RcvV,
    found: bool,
    m: Seq<u8>,
) -> bool {
    let (pf, kf, fnd) = pop_walk(v0, r0.page_no, r0.rec_idx);
    &&& v1.count == v0.count
    &&& v1.max_qpages == v0.max_qpages
    &&& v1.page_cap == v0.page_cap
    &&& v1.max_msg_len == v0.max_msg_len
    &&& found == fnd
    &&& (found ==> m == pop_walk_msg(v0, r0.page_no, r0.rec_idx))
    &&& r1.page_no == pf
    &&& r1.rec_idx == kf + (if found {
        1int
    } else {
        0int
    })
    &&& v1.pages.len() == vstd::math::max(v0.pages.len() as int, pf + 1)
    &&& forall|i: int|
        0 <= i < v0.pages.len() && i != pf ==> page_eq_mod_safe(
            #[trigger] v1.pages[i],
            v0.pages[i],
        )
    &&& forall|i: int|
        0 <= i < v0.pages.len() && i != pf ==> (#[trigger] v1.linked[i]) == v0.linked[i]
    &&& ((pf < v0.pages.len() && (pf == r0.page_no || v0.linked[pf]) && page_eq_mod_safe(
        v1.pages[pf],
        v0.pages[pf],
    ) && v1.linked[pf] == v0.linked[pf]) || (virgin(v1.pages[pf]) && v1.linked[pf] && !(pf
        == r0.page_no) && (pf >= v0.pages.len() || !v0.linked[pf])))
    &&& forall|i: int|
        v0.pages.len() <= i < v1.pages.len() && i != pf ==> virgin(#[trigger] v1.pages[i]) && !(
        #[trigger] v1.linked[i])
}

/// Chains the frame conditions of one pop: `prev` is the store as the
/// receiver's final probe found it, `v1` the store after that probe, which
/// touched only page `cur` and only its cached safe mark.
#[verifier::rlimit(100)]
#[verifier::spinoff_prover]
proof fn lemma_pop_post(
    v0: RingV,
    r0: RcvV,
    prev: RingV,
    v1: RingV,
    r1: RcvV,
    cur: int,
    found: bool,
    m: Seq<u8>,
    k: int,
)
    requires
        ring_wf(v0),
        rcv_ok(r0, v0),
        ring_wf(prev),
        page_inv(v1.pages[cur]),
        cur <= v0.count + 1,
        0 <= r1.rec_idx <= v1.pages[cur].recs.len(),
        r1.read_byte == rec_off(v1.pages[cur].recs, r1.rec_idx),
        prev.count == v0.count,
        prev.max_qpages == v0.max_qpages,
        prev.page_cap == v0.page_cap,
        prev.max_msg_len == v0.max_msg_len,
        prev.pages.len() == vstd::math::max(v0.pages.len() as int, cur + 1),
        0 <= cur < prev.pages.len(),
        forall|i: int|
            0 <= i < v0.pages.len() && i != cur ==> page_eq_mod_safe(
                #[trigger] prev.pages[i],
                v0.pages[i],
            ),
        forall|i: int|
            0 <= i < v0.pages.len() && i != cur ==> (#[trigger] prev.linked[i]) == v0.linked[i],
        forall|i: int|
            v0.pages.len() <= i < prev.pages.len() && i != cur ==> virgin(
                #[trigger] prev.pages[i],
            ) && !prev.linked[i],
        ((cur < v0.pages.len() && v0.linked[cur] && page_eq_mod_safe(
            prev.pages[cur],
            v0.pages[cur],
        ) && prev.linked[cur] == v0.linked[cur]) || (cur == r0.page_no && page_eq_mod_safe(
            prev.pages[cur],
            v0.pages[cur],
        ) && prev.linked[cur] == v0.linked[cur]) || (virgin(prev.pages[cur]) && prev.linked[cur]
            && cur != r0.page_no && (cur >= v0.pages.len() || !v0.linked[cur]))),
        v1.count == prev.count,
        v1.max_qpages == prev.max_qpages,
        v1.page_cap == prev.page_cap,
        v1.max_msg_len == prev.max_msg_len,
        v1.pages.len() == prev.pages.len(),
        v1.linked == prev.linked,
        forall|i: int|
            0 <= i < prev.pages.len() && i != cur ==> (#[trigger] v1.pages[i]) == prev.pages[i],
        page_eq_mod_safe(v1.pages[cur], prev.pages[cur]),
        prev.pages[cur].safe <= v1.pages[cur].safe <= prev.pages[cur].cursor,
        pop_walk(v0, r0.page_no, r0.rec_idx) == (cur, k, found),
        r1.page_no == cur,
        r1.rec_idx == k + (if found {
            1int
        } else {
            0int
        }),
        found ==> m == pop_walk_msg(v0, r0.page_no, r0.rec_idx),
    ensures
        ring_pop_post(v0, r0, v1, r1, found, m),
        ring_wf(v1),
        rcv_ok(r1, v1),
{
    assert(ring_wf(v1)) by {
        assert forall|i: int| 0 <= i < v1.pages.len() implies page_inv(#[trigger] v1.pages[i])
            && v1.pages[i].arena.len() == v1.page_cap by {
            if i != cur {
                assert(v1.pages[i] == prev.pages[i]);
            }
        }
        assert forall|i: int| v1.count < i < v1.pages.len() implies virgin(
            #[trigger] v1.pages[i],
        ) by {
            if i != cur {
                assert(v1.pages[i] == prev.pages[i]);
                assert(virgin(prev.pages[i]));
            } else {
                assert(virgin(prev.pages[cur]));
                assert(prev.pages[cur].cursor == 0);
            }
        }
    }
    assert forall|i: int| 0 <= i < v0.pages.len() && i != cur implies page_eq_mod_safe(
        #[trigger] v1.pages[i],
        v0.pages[i],
    ) by {
        assert(v1.pages[i] == prev.pages[i]);
    }
    assert forall|i: int| 0 <= i < v0.pages.len() && i != cur implies (#[trigger] v1.linked[i])
        == v0.linked[i] by {}
    assert forall|i: int| v0.pages.len() <= i < v1.pages.len() && i != cur implies virgin(
        #[trigger] v1.pages[i],
    ) && !v1.linked[i] by {
        assert(v1.pages[i] == prev.pages[i]);
    }
    if virgin(prev.pages[cur]) && cur != r0.page_no && (cur >= v0.pages.len() || !v0.linked[cur])
        && prev.linked[cur] {
        assert(prev.pages[cur].cursor == 0);
        assert(virgin(v1.pages[cur]));
    }
}

impl Receiver {
    /// Creates a receiver positioned at byte 0 of the highest allocated
    /// page.
    pub fn new(store: &mut RingStore) -> (rx: Receiver)
        requires
            ring_wf(old(store)@),
        ensures
            ring_wf(final(store)@),
            final(store)@.count == old(store)@.count,
            final(store)@.max_qpages == old(store)@.max_qpages,
            final(store)@.page_cap == old(store)@.page_cap,
            final(store)@.max_msg_len == old(store)@.max_msg_len,
            rcv_ok(rx@, final(store)@),
            rx@.page_no == old(store)@.count,
            rx@.read_byte == 0,
            rx@.rec_idx == 0,
            forall|i: int|
                0 <= i < old(store)@.pages.len() && i != old(store)@.count ==> (
                #[trigger] final(store)@.pages[i]) == old(store)@.pages[i]
                    && final(store)@.linked[i] == old(store)@.linked[i],
    {
        let no: usize = store.info.qpage_count;
        store.open_page(no);
        let rx = Receiver { qpage_no: no, read_byte: 0, rec_idx: Ghost(0) };
        proof {
            assert(rec_off(store@.pages[no as int].recs, 0) == 0);
        }
        rx
    }

    /// Takes the next message off the queue, or returns `None` when there
    /// is nothing new to read. A drained, sealed page moves the receiver to
    /// the next page, skipping ahead over indexes already reclaimed under a
    /// retention bound; messages on skipped pages are lost to this
    /// receiver.
    #[verifier::loop_isolation(false)]
    #[verifier::rlimit(100)]
    #[verifier::spinoff_prover]
    pub fn pop(&mut self, store: &mut RingStore) -> (r: Result<Option<Vec<u8>>, RingbufError>)
        requires
            ring_wf(old(store)@),
            rcv_ok(old(self)@, old(store)@),
        ensures
            ring_wf(final(store)@),
            rcv_ok(final(self)@, final(store)@),
            match r {
                Ok(Some(m)) => ring_pop_post(
                    old(store)@,
                    old(self)@,
                    final(store)@,
                    final(self)@,
                    true,
                    m@,
                ),
                Ok(None) => ring_pop_post(
                    old(store)@,
                    old(self)@,
                    final(store)@,
                    final(self)@,
                    false,
                    Seq::empty(),
                ),
                Err(_) => false,
            },
    {
        let ghost v0 = old(store)@;
        let ghost r0 = old(self)@;
        let no: usize = self.qpage_no;
        proof {
            assert(is_boundary(store@.pages[no as int].recs, self.read_byte as int)) by {
                assert(self@.read_byte == rec_off(store@.pages[no as int].recs, self@.rec_idx));
            }
        }
        let page = &mut store.pages[no];
        let res = page.try_pop(self.read_byte);
        proof {
            assert(store@.pages.len() == v0.pages.len());
            assert(store@.pages[no as int] == final(page)@);
            assert forall|i: int| 0 <= i < v0.pages.len() && i != no implies store@.pages[i]
                == v0.pages[i] by {}
            assert(store@.linked == v0.linked);
            lemma_boundary_unique(
                v0.pages[no as int].recs,
                boundary_idx(v0.pages[no as int].recs, self@.read_byte),
                self@.rec_idx,
            );
            assert(page_eq_mod_safe(store@.pages[no as int], v0.pages[no as int]));
        }
        match res {
            Ok(PopResult::Msg(m)) => {
                let ghost k = self@.rec_idx;
                proof {
                    let recs = v0.pages[no as int].recs;
                    assert(m@ == recs[k]);
                    assert(rec_off(recs, k + 1) == rec_off(recs, k) + 4 + m@.len());
                    assert(rec_off(recs, k + 1) <= rec_top(recs)) by {
                        crate::codec::lemma_rec_off_monotone(recs, k + 1, recs.len() as int);
                    }
                }
                self.read_byte = self.read_byte + 4 + m.len();
                self.rec_idx = Ghost(k + 1);
                proof {
                    assert(probe_msg(v0.pages[r0.page_no], r0.rec_idx));
                    assert(pop_walk(v0, r0.page_no, r0.rec_idx) == (r0.page_no, r0.rec_idx, true));
                    assert(m@ == pop_walk_msg(v0, r0.page_no, r0.rec_idx));
                    assert forall|i: int| 0 <= i < v0.pages.len() && i != no implies
                        page_eq_mod_safe(#[trigger] v0.pages[i], v0.pages[i]) by {}
                    lemma_pop_post(v0, r0, v0, store@, self@, no as int, true, m@, k);
                }
                return Ok(Some(m));
            },
            Ok(PopResult::NoNewMsgs) => {
                proof {
                    let recs = v0.pages[no as int].recs;
                    assert(rec_off(recs, r0.rec_idx) == rec_top(recs));
                    lemma_boundary_unique(recs, r0.rec_idx, recs.len() as int);
                    assert(!probe_msg(v0.pages[r0.page_no], r0.rec_idx));
                    assert(!probe_done(v0.pages[r0.page_no], r0.rec_idx));
                    assert(pop_walk(v0, r0.page_no, r0.rec_idx) == (r0.page_no, r0.rec_idx, false));
                    lemma_pop_post(v0, r0, v0, store@, self@, no as int, false, Seq::empty(), r0.rec_idx);
                }
                return Ok(None);
            },
            Ok(PopResult::PageDone) => {},
            Err(_) => {
                return Err(RingbufError::ReadError);
            },
        }
        proof {
            let recs = v0.pages[no as int].recs;
            if !(r0.rec_idx < recs.len() && recs[r0.rec_idx].len() % 256 == PAGE_SEALED as int) {
                assert(rec_off(recs, r0.rec_idx) == rec_top(recs));
                lemma_boundary_unique(recs, r0.rec_idx, recs.len() as int);
            }
            assert(probe_done(v0.pages[r0.page_no], r0.rec_idx));
            if self@.page_no > store@.count {
                assert(virgin(v0.pages[no as int]));
                assert(false);
            }
            assert(ring_wf(store@)) by {
                assert forall|i: int| 0 <= i < store@.pages.len() implies page_inv(
                    #[trigger] store@.pages[i],
                ) && store@.pages[i].arena.len() == store@.page_cap by {
                    if i != no {
                        assert(store@.pages[i] == v0.pages[i]);
                    }
                }
                assert forall|i: int| store@.count < i < store@.pages.len() implies virgin(
                    #[trigger] store@.pages[i],
                ) by {
                    assert(virgin(v0.pages[i]));
                    assert(store@.pages[i] == v0.pages[i]);
                }
            }
            assert(rcv_ok(self@, store@));
        }
        self.page_flip(store);
        proof {
            assert(pop_walk(v0, r0.page_no, r0.rec_idx) == walk_cont(v0, self@.page_no));
        }
        loop
            invariant
                ring_wf(store@),
                rcv_ok(self@, store@),
                store@.count == v0.count,
                store@.max_qpages == v0.max_qpages,
                store@.page_cap == v0.page_cap,
                store@.max_msg_len == v0.max_msg_len,
                r0.page_no < self@.page_no <= v0.count + 1,
                self@.rec_idx == 0,
                self@.read_byte == 0,
                pop_walk(v0, r0.page_no, r0.rec_idx) == walk_cont(v0, self@.page_no),
                store@.pages.len() == vstd::math::max(v0.pages.len() as int, self@.page_no + 1),
                ((self@.page_no < v0.pages.len() && v0.linked[self@.page_no] && page_eq_mod_safe(
                    store@.pages[self@.page_no],
                    v0.pages[self@.page_no],
                ) && store@.linked[self@.page_no] == v0.linked[self@.page_no]) || (virgin(
                    store@.pages[self@.page_no],
                ) && store@.linked[self@.page_no] && (self@.page_no >= v0.pages.len()
                    || !v0.linked[self@.page_no]))),
                forall|i: int|
                    0 <= i < v0.pages.len() && i != self@.page_no ==> page_eq_mod_safe(
                        #[trigger] store@.pages[i],
                        v0.pages[i],
                    ),
                forall|i: int|
                    0 <= i < v0.pages.len() && i != self@.page_no ==> (#[trigger] store@.linked[i])
                        == v0.linked[i],
                forall|i: int|
                    v0.pages.len() <= i < store@.pages.len() && i != self@.page_no ==> virgin(
                        #[trigger] store@.pages[i],
                    ) && !store@.linked[i],
            decreases store@.count + 2 - self@.page_no,
        {
            let cur: usize = self.qpage_no;
            let ghost prev = store@;
            proof {
                assert(rec_off(prev.pages[cur as int].recs, 0) == 0);
            }
            let page = &mut store.pages[cur];
            let res = page.try_pop(0);
            proof {
                assert(store@.pages.len() == prev.pages.len());
                assert(store@.pages[cur as int] == final(page)@);
                assert forall|i: int| 0 <= i < prev.pages.len() && i != cur implies store@.pages[i]
                    == prev.pages[i] by {}
                assert(store@.linked == prev.linked);
                lemma_boundary_unique(
                    prev.pages[cur as int].recs,
                    boundary_idx(prev.pages[cur as int].recs, 0),
                    0,
                );
                assert(page_eq_mod_safe(store@.pages[cur as int], prev.pages[cur as int]));
            }
            let ghost mid = store@;
            match res {
                Ok(PopResult::Msg(m)) => {
                    proof {
                        let recs = prev.pages[cur as int].recs;
                        assert(m@ == recs[0]);
                        assert(rec_off(recs, 1) == 4 + m@.len());
                        assert(rec_off(recs, 1) <= rec_top(recs)) by {
                            crate::codec::lemma_rec_off_monotone(recs, 1, recs.len() as int);
                        }
                    }
                    self.read_byte = 4 + m.len();
                    self.rec_idx = Ghost(1);
                    proof {
                        if !(cur < v0.pages.len() && v0.linked[cur as int]) {
                            assert(virgin(prev.pages[cur as int]));
                            assert(false);
                        }
                        assert(probe_msg(eff_page(v0, cur as int), 0));
                        assert(walk_cont(v0, cur as int) == (cur as int, 0int, true));
                        assert(m@ == pop_walk_msg(v0, r0.page_no, r0.rec_idx)) by {
                            assert(eff_page(v0, cur as int) == v0.pages[cur as int]);
                            assert(m@ == prev.pages[cur as int].recs[0]);
                        }
                        lemma_pop_post(v0, r0, prev, store@, self@, cur as int, true, m@, 0);
                    }
                    return Ok(Some(m));
                },
                Ok(PopResult::NoNewMsgs) => {
                    proof {
                        let recs = prev.pages[cur as int].recs;
                        assert(rec_off(recs, 0) == rec_top(recs));
                        lemma_boundary_unique(recs, 0, recs.len() as int);
                        assert(recs.len() == 0);
                        if cur as int <= v0.count {
                            assert(!probe_msg(eff_page(v0, cur as int), 0)) by {
                                if cur < v0.pages.len() && v0.linked[cur as int] {
                                    assert(page_eq_mod_safe(
                                        prev.pages[cur as int],
                                        v0.pages[cur as int],
                                    ));
                                }
                            }
                            assert(!probe_done(eff_page(v0, cur as int), 0)) by {
                                if cur < v0.pages.len() && v0.linked[cur as int] {
                                    assert(page_eq_mod_safe(
                                        prev.pages[cur as int],
                                        v0.pages[cur as int],
                                    ));
                                }
                            }
                        }
                        assert(walk_cont(v0, cur as int) == (cur as int, 0int, false));
                        lemma_pop_post(v0, r0, prev, store@, self@, cur as int, false, Seq::empty(), 0);
                    }
                    return Ok(None);
                },
                Ok(PopResult::PageDone) => {},
                Err(_) => {
                    return Err(RingbufError::ReadError);
                },
            }
            proof {
                let recs = prev.pages[cur as int].recs;
                if !(0 < recs.len() && recs[0].len() % 256 == PAGE_SEALED as int) {
                    assert(rec_off(recs, 0) == rec_top(recs));
                    lemma_boundary_unique(recs, 0, recs.len() as int);
                }
                assert(probe_done(prev.pages[cur as int], 0));
                if cur as int > store@.count {
                    assert(virgin(prev.pages[cur as int]));
                    assert(false);
                }
                if !(cur < v0.pages.len() && v0.linked[cur as int]) {
                    assert(virgin(prev.pages[cur as int]));
                    assert(false);
                }
                assert(page_eq_mod_safe(prev.pages[cur as int], v0.pages[cur as int]));
                assert(probe_done(eff_page(v0, cur as int), 0));
                assert(!probe_msg(eff_page(v0, cur as int), 0));
                assert(walk_cont(v0, cur as int) == walk_cont(
                    v0,
                    flip_target(cur as int, v0.count, v0.max_qpages),
                ));
                assert(ring_wf(store@)) by {
                    assert forall|i: int| 0 <= i < store@.pages.len() implies page_inv(
                        #[trigger] store@.pages[i],
                    ) && store@.pages[i].arena.len() == store@.page_cap by {
                        if i != cur {
                            assert(store@.pages[i] == prev.pages[i]);
                        }
                    }
                    assert forall|i: int| store@.count < i < store@.pages.len() implies virgin(
                        #[trigger] store@.pages[i],
                    ) by {
                        assert(virgin(prev.pages[i]));
                        assert(store@.pages[i] == prev.pages[i]);
                    }
                }
                assert(rcv_ok(self@, store@));
            }
            self.page_flip(store);
            proof {
                let t = self@.page_no;
                assert(store@.pages.len() == vstd::math::max(
                    v0.pages.len() as int,
                    self@.page_no + 1,
                ));
                assert forall|i: int| 0 <= i < v0.pages.len() && i != t implies page_eq_mod_safe(
                    #[trigger] store@.pages[i],
                    v0.pages[i],
                ) by {
                    assert(store@.pages[i] == mid.pages[i]);
                    if i != cur {
                        assert(mid.pages[i] == prev.pages[i]);
                    }
                }
                assert forall|i: int| 0 <= i < v0.pages.len() && i != t implies (
                #[trigger] store@.linked[i]) == v0.linked[i] by {}
                assert forall|i: int|
                    v0.pages.len() <= i < store@.pages.len() && i != t implies virgin(
                    #[trigger] store@.pages[i]) && !store@.linked[i] by {
                    if i < mid.pages.len() {
                        assert(store@.pages[i] == mid.pages[i]);
                        if i != cur {
                            assert(mid.pages[i] == prev.pages[i]);
                        } else {
                            assert(virgin(prev.pages[i]));
                        }
                    }
                }
                if t < v0.pages.len() && v0.linked[t] {
                    assert(mid.linked[t] == v0.linked[t]);
                    assert(store@.pages[t] == mid.pages[t]);
                    assert(mid.pages[t] == prev.pages[t]);
                    assert(page_eq_mod_safe(store@.pages[t], v0.pages[t]));
                }
            }
        }
    }


    /// Moves this receiver past a finished page: to the next index, but
    /// never behind the retained window, resetting its cursor to byte 0 of
    /// the page it lands on and opening that page.
    fn page_flip(&mut self, store: &mut RingStore)
        requires
            ring_wf(old(store)@),
            rcv_ok(old(self)@, old(store)@),
            old(self)@.page_no <= old(store)@.count,
        ensures
            ring_wf(final(store)@),
            rcv_ok(final(self)@, final(store)@),
            final(store)@.count == old(store)@.count,
            final(store)@.max_qpages == old(store)@.max_qpages,
            final(store)@.page_cap == old(store)@.page_cap,
            final(store)@.max_msg_len == old(store)@.max_msg_len,
            final(self)@.page_no == flip_target(
                old(self)@.page_no,
                old(store)@.count,
                old(store)@.max_qpages,
            ),
            old(self)@.page_no < final(self)@.page_no <= old(store)@.count + 1,
            final(self)@.rec_idx == 0,
            final(self)@.read_byte == 0,
            final(store)@.pages.len() == vstd::math::max(
                old(store)@.pages.len() as int,
                final(self)@.page_no + 1,
            ),
            ({
                let t = final(self)@.page_no;
                ((t < old(store)@.pages.len() && old(store)@.linked[t] && final(store)@.pages[t]
                    == old(store)@.pages[t] && final(store)@.linked[t] == old(store)@.linked[t])
                    || (virgin(final(store)@.pages[t]) && final(store)@.linked[t] && (t >= old(
                    store,
                )@.pages.len() || !old(store)@.linked[t])))
            }),
            forall|i: int|
                0 <= i < old(store)@.pages.len() && i != final(self)@.page_no ==> (
                #[trigger] final(store)@.pages[i]) == old(store)@.pages[i],
            forall|i: int|
                0 <= i < old(store)@.pages.len() && i != final(self)@.page_no ==> (
                #[trigger] final(store)@.linked[i]) == old(store)@.linked[i],
            forall|i: int|
                old(store)@.pages.len() <= i < final(store)@.pages.len() && i
                    != final(self)@.page_no ==> virgin(#[trigger] final(store)@.pages[i])
                    && !final(store)@.linked[i],
    {
        let plen: usize = store.pages.len();
        assert(self.qpage_no < plen);
        let max_qpages: usize = store.info.max_qpages;
        if max_qpages > 0 {
            let count: usize = store.info.qpage_count;
            let floor: usize = if count >= max_qpages {
                count - max_qpages
            } else {
                0
            };
            let next: usize = self.qpage_no + 1;
            self.qpage_no = if next > floor {
                next
            } else {
                floor
            };
        } else {
            self.qpage_no = self.qpage_no + 1;
        }
        self.read_byte = 0;
        self.rec_idx = Ghost(0);
        store.open_page(self.qpage_no);
        proof {
            assert(rec_off(store@.pages[self@.page_no].recs, 0) == 0);
        }
    }
}

/// The page index a receiver moves to when it finishes page `qpage_no`:
/// the next index, clamped forward to the start of the retained window.
pub fn receiver_flip_target(qpage_no: usize, qpage_count: usize, max_qpages: usize) -> (t: usize)
    requires
        qpage_no < usize::MAX,
    ensures
        t as int == flip_target(qpage_no as int, qpage_count as int, max_qpages as int),
{
    if max_qpages > 0 {
        let floor: usize = if qpage_count >= max_qpages {
            qpage_count - max_qpages
        } else {
            0
        };
        let next: usize = qpage_no + 1;
        if next > floor {
            next
        } else {
            floor
        }
    } else {
        qpage_no + 1
    }
}

/// How many of the first `j` page indexes are linked.
pub open spec fn num_linked(l: Seq<bool>, j: int) -> int
    decreases j,
{
    if j <= 0 {
        0
    } else {
        num_linked(l, j - 1) + (if 0 <= j - 1 < l.len() && l[j - 1] {
            1int
        } else {
            0int
        })
    }
}

/// Sets the retention bound: at most `val` page files are kept linked from
/// then on; zero removes the bound.
pub fn set_max_qpage(store: &mut RingStore, val: usize) -> (r: Result<(), RingbufError>)
    requires
        ring_wf(old(store)@),
    ensures
        ring_wf(final(store)@),
        final(store)@ == (RingV { max_qpages: val as int, ..old(store)@ }),
        r is Ok,
{
    store.info.max_qpages = val;
    Ok(())
}

/// The highest allocated page index recorded in the control record.
pub fn get_qpage_count_static(store: &RingStore) -> (n: usize)
    ensures
        n as int == store@.count,
{
    store.info.qpage_count
}

/// Opens a queue on the store: both handles start at the highest allocated
/// page, the receiver at byte 0 of it.
pub fn new(store: &mut RingStore) -> (handles: (Sender, Receiver))
    requires
        ring_wf(old(store)@),
    ensures
        ring_wf(final(store)@),
        final(store)@.count == old(store)@.count,
        final(store)@.max_qpages == old(store)@.max_qpages,
        final(store)@.page_cap == old(store)@.page_cap,
        final(store)@.max_msg_len == old(store)@.max_msg_len,
        snd_ok(handles.0@, final(store)@),
        rcv_ok(handles.1@, final(store)@),
        handles.0@ == old(store)@.count,
        handles.1@.page_no == old(store)@.count,
        handles.1@.read_byte == 0,
        handles.1@.rec_idx == 0,
        forall|i: int|
            0 <= i < old(store)@.pages.len() && i != old(store)@.count ==> final(store)@.pages[i]
                == old(store)@.pages[i] && final(store)@.linked[i] == old(store)@.linked[i],
    {
    let no: usize = store.info.qpage_count;
    store.open_page(no);
    let tx = Sender { qpage_no: no };
    let rx = Receiver { qpage_no: no, read_byte: 0, rec_idx: Ghost(0) };
    proof {
        assert(rec_off(store@.pages[no as int].recs, 0) == 0);
    }
    (tx, rx)
}

} // verus!
