//! Queue-wide laws, stated over the abstract states and transition
//! predicates that the push and pop contracts establish.

use crate::qpage::PAGE_SEALED;
use crate::ringbuf::eff_page;
use crate::ringbuf::flip_target;
use crate::ringbuf::num_linked;
use crate::ringbuf::pop_walk;
use crate::ringbuf::pop_walk_msg;
use crate::ringbuf::probe_done;
use crate::ringbuf::probe_msg;
use crate::ringbuf::push_dest_base;
use crate::ringbuf::rcv_ok;
use crate::ringbuf::ring_pop_post;
use crate::ringbuf::ring_push_ok;
use crate::ringbuf::ring_wf;
use crate::ringbuf::snd_ok;
use crate::ringbuf::virgin;
use crate::ringbuf::walk_cont;
use crate::ringbuf::RcvV;
use crate::ringbuf::RingV;
use vstd::prelude::*;

verus! {

/// FIFO per sender: when one sender pushes two messages in a row, the
/// second lands at a strictly later position — a later page, or the same
/// page at a later record index — and the second push leaves the first
/// message in place. Since a receiver reads positions in increasing order
/// and reads each record byte for byte, it observes the two messages in
/// push order.
pub proof fn lemma_fifo_per_sender(
    v0: RingV,
    s0: int,
    m1: Seq<u8>,
    v1: RingV,
    s1: int,
    n1: int,
    m2: Seq<u8>,
    v2: RingV,
    s2: int,
    n2: int,
)
    requires
        ring_wf(v0),
        snd_ok(s0, v0),
        ring_push_ok(v0, s0, m1, v1, s1, n1),
        ring_push_ok(v1, s1, m2, v2, s2, n2),
    ensures
        v1.pages[s1].recs.len() >= 1 && v1.pages[s1].recs.last() == m1,
        v2.pages[s2].recs.len() >= 1 && v2.pages[s2].recs.last() == m2,
        s1 < s2 || (s1 == s2 && v1.pages[s1].recs.len() - 1 < v2.pages[s2].recs.len() - 1),
        v2.pages[s1].recs[v1.pages[s1].recs.len() - 1] == m1,
{
    let idx1 = v1.pages[s1].recs.len() - 1;
    if s2 == s1 {
        assert(push_dest_base(v1, s1, s2) == v1.pages[s1].recs);
        assert(v2.pages[s2].recs == v1.pages[s1].recs.push(m2));
        assert(v2.pages[s1].recs[idx1] == m1);
    } else {
        assert(v2.pages[s1].recs == v1.pages[s1].recs);
    }
}

/// A walk that keeps flipping forward never comes to rest behind where it
/// started.
pub proof fn lemma_walk_cont_forward(v: RingV, p: int)
    ensures
        walk_cont(v, p).0 >= p,
    decreases v.count + 1 - p,
{
    if p > v.count {
    } else {
        let pv = eff_page(v, p);
        if !probe_msg(pv, 0) && probe_done(pv, 0) {
            lemma_walk_cont_forward(v, flip_target(p, v.count, v.max_qpages));
        }
    }
}

/// Global page order: two consecutive pops that both return a message read
/// strictly increasing positions, page-major. So every message a receiver
/// takes from page `i` is observed before any message it takes from a page
/// `j > i`.
pub proof fn lemma_global_page_order(
    v0: RingV,
    r0: RcvV,
    v1: RingV,
    r1: RcvV,
    m1: Seq<u8>,
    v2: RingV,
    r2: RcvV,
    m2: Seq<u8>,
)
    requires
        ring_pop_post(v0, r0, v1, r1, true, m1),
        ring_pop_post(v1, r1, v2, r2, true, m2),
    ensures
        r1.page_no < r2.page_no || (r1.page_no == r2.page_no && r1.rec_idx - 1 < r2.rec_idx - 1),
{
    let (pf1, kf1, f1) = pop_walk(v0, r0.page_no, r0.rec_idx);
    let (pf2, kf2, f2) = pop_walk(v1, r1.page_no, r1.rec_idx);
    assert(r1.page_no == pf1 && r1.rec_idx == kf1 + 1);
    assert(r2.page_no == pf2 && r2.rec_idx == kf2 + 1);
    let pv = v1.pages[r1.page_no];
    if probe_msg(pv, r1.rec_idx) {
    } else if probe_done(pv, r1.rec_idx) {
        lemma_walk_cont_forward(v1, flip_target(r1.page_no, v1.count, v1.max_qpages));
        assert(pf2 >= flip_target(r1.page_no, v1.count, v1.max_qpages));
        assert(pf2 > r1.page_no);
    }
}

/// Retention window shape: every linked page index lies in the window of
/// the last `k` allocated indexes.
pub open spec fn retention_inv(v: RingV, k: int) -> bool {
    forall|i: int|
        0 <= i < v.linked.len() && #[trigger] v.linked[i] ==> v.count - k < i <= v.count
}

/// Counting bound: at most `j` of the first `j` indexes are linked, and
/// nothing above `hi` or at or below `lo` is linked, so at most `hi - lo`
/// pages are linked in total.
proof fn lemma_num_linked_window(l: Seq<bool>, lo: int, hi: int, j: int)
    requires
        0 <= j <= l.len(),
        forall|i: int| 0 <= i < l.len() && #[trigger] l[i] ==> lo < i <= hi,
    ensures
        num_linked(l, j) <= vstd::math::max(0, vstd::math::min(j - 1, hi) - lo),
    decreases j,
{
    if j > 0 {
        lemma_num_linked_window(l, lo, hi, j - 1);
    }
}

/// Retention monotonicity: while the window shape holds for a bound of
/// `k` pages, at most `k` page files are linked.
pub proof fn lemma_retention_bound(v: RingV, k: int)
    requires
        0 <= k,
        retention_inv(v, k),
    ensures
        num_linked(v.linked, v.linked.len() as int) <= k,
{
    lemma_num_linked_window(v.linked, v.count - k, v.count, v.linked.len() as int);
}

/// A push by a sender inside the retained window keeps the window shape:
/// the pages it links lie inside the (possibly advanced) window, and when
/// the count advances, the page that left the window is unlinked.
pub proof fn lemma_retention_push(
    v0: RingV,
    s0: int,
    msg: Seq<u8>,
    v1: RingV,
    s1: int,
    n: int,
    k: int,
)
    requires
        ring_wf(v0),
        snd_ok(s0, v0),
        ring_push_ok(v0, s0, msg, v1, s1, n),
        v0.max_qpages == k,
        k > 0,
        retention_inv(v0, k),
        v0.count - k < s0,
    ensures
        retention_inv(v1, k),
{
    assert forall|i: int| 0 <= i < v1.linked.len() && #[trigger] v1.linked[i] implies v1.count - k
        < i <= v1.count by {
        if s0 < i <= s1 {
        } else if 0 <= i < v0.linked.len() && v0.linked[i] {
        }
    }
}

/// A pop that does not recreate a reclaimed page file keeps the window
/// shape. (A receiver that has fallen behind the window and skips forward
/// onto a reclaimed index recreates that index's file, stepping outside
/// the window for as long as that file lives.)
pub proof fn lemma_retention_pop(
    v0: RingV,
    r0: RcvV,
    v1: RingV,
    r1: RcvV,
    found: bool,
    m: Seq<u8>,
    k: int,
)
    requires
        ring_wf(v0),
        ring_wf(v1),
        rcv_ok(r0, v0),
        ring_pop_post(v0, r0, v1, r1, found, m),
        v0.max_qpages == k,
        k > 0,
        retention_inv(v0, k),
        r1.page_no == r0.page_no || (0 <= r1.page_no < v0.linked.len() && v0.linked[r1.page_no]),
    ensures
        retention_inv(v1, k),
{
    assert forall|i: int| 0 <= i < v1.linked.len() && #[trigger] v1.linked[i] implies v1.count - k
        < i <= v1.count by {
        if i != r1.page_no {
            assert(v1.linked[i] == v0.linked[i]);
        } else {
            assert(v1.linked[i] == v0.linked[i]);
        }
    }
}

/// Unbounded safety: with no retention bound set, a push never unlinks a
/// page file.
pub proof fn lemma_unbounded_push_keeps_pages(
    v0: RingV,
    s0: int,
    msg: Seq<u8>,
    v1: RingV,
    s1: int,
    n: int,
)
    requires
        ring_wf(v0),
        ring_wf(v1),
        ring_push_ok(v0, s0, msg, v1, s1, n),
        v0.max_qpages == 0,
    ensures
        forall|i: int| 0 <= i < v0.linked.len() && #[trigger] v0.linked[i] ==> v1.linked[i],
{
    assert forall|i: int|
        0 <= i < v0.linked.len() && #[trigger] v0.linked[i] implies v1.linked[i] by {
        assert(v1.pages.len() >= v0.pages.len());
        assert(0 <= i < v1.linked.len());
    }
}

/// A pop never unlinks a page file, whatever the retention bound.
pub proof fn lemma_pop_keeps_pages(
    v0: RingV,
    r0: RcvV,
    v1: RingV,
    r1: RcvV,
    found: bool,
    m: Seq<u8>,
)
    requires
        ring_wf(v0),
        ring_wf(v1),
        rcv_ok(r0, v0),
        ring_pop_post(v0, r0, v1, r1, found, m),
    ensures
        forall|i: int| 0 <= i < v0.linked.len() && #[trigger] v0.linked[i] ==> v1.linked[i],
{
    assert forall|i: int| 0 <= i < v0.linked.len() && #[trigger] v0.linked[i] implies v1.linked[i] by {
        if i != r1.page_no {
            assert(v1.linked[i] == v0.linked[i]);
        }
    }
}

/// Round trip: a message of any allowed length — except one whose length's
/// low byte collides with the page-sealed sentinel, which a reader cannot
/// tell from a seal — pushed by the sender at the head of an unbounded
/// queue, is exactly what a caught-up receiver's next pop walk finds,
/// byte for byte.
pub proof fn lemma_round_trip(
    v0: RingV,
    s0: int,
    r0: RcvV,
    msg: Seq<u8>,
    v1: RingV,
    s1: int,
    n: int,
)
    requires
        ring_wf(v0),
        ring_wf(v1),
        snd_ok(s0, v0),
        rcv_ok(r0, v0),
        v0.max_qpages == 0,
        s0 == v0.count,
        r0.page_no == s0,
        r0.rec_idx == v0.pages[s0].recs.len(),
        msg.len() % 256 != PAGE_SEALED as int,
        ring_push_ok(v0, s0, msg, v1, s1, n),
    ensures
        pop_walk(v1, r0.page_no, r0.rec_idx) == (s1, v1.pages[s1].recs.len() - 1, true),
        pop_walk_msg(v1, r0.page_no, r0.rec_idx) == msg,
{
    let k0 = r0.rec_idx;
    if s1 == s0 {
        assert(push_dest_base(v0, s0, s1) == v0.pages[s0].recs);
        assert(v1.pages[s1].recs == v0.pages[s0].recs.push(msg));
        assert(probe_msg(v1.pages[s0], k0));
        assert(pop_walk(v1, r0.page_no, k0) == (s0, k0, true));
    } else {
        assert(s1 == v0.count + 1 && v1.count == s1);
        assert(v1.pages[s0].sealed);
        assert(v1.pages[s0].recs == v0.pages[s0].recs);
        assert(!probe_msg(v1.pages[s0], k0));
        assert(probe_done(v1.pages[s0], k0));
        assert(flip_target(s0, v1.count, v1.max_qpages) == s0 + 1);
        assert(s1 <= v1.count);
        assert(v1.linked[s1]);
        assert(push_dest_base(v0, s0, s1) =~= Seq::empty()) by {
            if s1 < v0.pages.len() && v0.linked[s1] {
                assert(virgin(v0.pages[s1]));
            }
        }
        assert(v1.pages[s1].recs == Seq::empty().push(msg));
        assert(v1.pages[s1].recs[0] == msg);
        assert(eff_page(v1, s1) == v1.pages[s1]) by {
            assert(0 <= s1 < v1.pages.len());
        }
        assert(probe_msg(eff_page(v1, s1), 0));
        assert(walk_cont(v1, s1) == (s1, 0int, true));
        assert(pop_walk(v1, r0.page_no, k0) == (s1, 0int, true));
        assert(v1.pages[s1].recs.len() == 1);
    }
}

/// Round trip, completed through the receiver: under the hypotheses of
/// `lemma_round_trip`, the pop that follows the push finds a message, and
/// that message is byte for byte the one pushed.
pub proof fn lemma_round_trip_pop(
    v0: RingV,
    s0: int,
    r0: RcvV,
    msg: Seq<u8>,
    v1: RingV,
    s1: int,
    n: int,
    v2: RingV,
    r2: RcvV,
    found: bool,
    m: Seq<u8>,
)
    requires
        ring_wf(v0),
        ring_wf(v1),
        snd_ok(s0, v0),
        rcv_ok(r0, v0),
        v0.max_qpages == 0,
        s0 == v0.count,
        r0.page_no == s0,
        r0.rec_idx == v0.pages[s0].recs.len(),
        msg.len() % 256 != PAGE_SEALED as int,
        ring_push_ok(v0, s0, msg, v1, s1, n),
        ring_pop_post(v1, r0, v2, r2, found, m),
    ensures
        found,
        m == msg,
{
    lemma_round_trip(v0, s0, r0, msg, v1, s1, n);
}

} // verus!
