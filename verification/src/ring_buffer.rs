//! Allocation-free ring buffers: a generic FIFO, the send buffer, the receive
//! buffer and the ACK list.
//!
//! Every slot index is a position masked with `capacity - 1`, and every capacity is a
//! power of two, so masking is reduction modulo the capacity.

use vstd::prelude::*;
use vstd::arithmetic::power2::{pow2, lemma_pow2_adds, lemma2_to64, lemma_pow2_pos};
use vstd::arithmetic::div_mod::{lemma_fundamental_div_mod, lemma_mod_multiples_vanish};
use crate::constants::{
    SND_BUF_CAPACITY, RCV_BUF_CAPACITY, ACK_LIST_CAPACITY, MSS_DEFAULT, RTO_DEFAULT, SND_BUF_MASK,
    RCV_BUF_MASK, ACK_LIST_MASK,
};
use crate::segment::{SendSegment, RecvSegment, AckEntry, SegmentState};
use crate::sequence::{Sequence, wrap32, lemma_index_is_mod};

verus! {

// ----------------------------------------------------------------------------------------
// Power-of-two capacities
// ----------------------------------------------------------------------------------------

/// A ring capacity: a power of two no larger than `2^31`, so that it divides `2^32`.
pub open spec fn is_ring_capacity(n: nat) -> bool {
    exists|k: nat| k <= 31 && pow2(k) == n
}

/// A ring capacity is positive, at most `2^31`, and `2^32` is a multiple of it.
pub proof fn lemma_ring_capacity(n: nat) -> (m: nat)
    requires
        is_ring_capacity(n),
    ensures
        0 < n <= 0x8000_0000,
        n * m == 0x1_0000_0000,
{
    let k = choose|k: nat| k <= 31 && pow2(k) == n;
    lemma2_to64();
    lemma_pow2_adds(k, (32 - k) as nat);
    lemma_pow2_pos(k);
    vstd::arithmetic::power2::lemma_pow2_strictly_increases(k, 32);
    if k < 31 {
        vstd::arithmetic::power2::lemma_pow2_strictly_increases(k, 31);
    }
    pow2((32 - k) as nat)
}

/// Masking a 32-bit position with `n - 1` is reduction modulo `n`.
pub proof fn lemma_ring_slot(p: u32, n: nat)
    requires
        is_ring_capacity(n),
    ensures
        (p as usize) & ((n - 1) as usize) == (p as int) % (n as int),
        (p as int) % (n as int) < n,
{
    let k = choose|k: nat| k <= 31 && pow2(k) == n;
    lemma_index_is_mod(p, k);
    lemma_ring_capacity(n);
}

/// Wrapping a position to 32 bits does not change its residue modulo a ring capacity.
pub proof fn lemma_wrap_slot(x: int, i: int, n: nat)
    requires
        is_ring_capacity(n),
    ensures
        (wrap32(x) + i) % (n as int) == (x + i) % (n as int),
{
    let m = lemma_ring_capacity(n);
    let q = x / 0x1_0000_0000;
    lemma_fundamental_div_mod(x, 0x1_0000_0000);
    assert(x + i == (n as int) * (q * (m as int)) + (wrap32(x) + i)) by (nonlinear_arith)
        requires
            x == 0x1_0000_0000 * q + x % 0x1_0000_0000,
            wrap32(x) == x % 0x1_0000_0000,
            (n as int) * (m as int) == 0x1_0000_0000,
    ;
    lemma_mod_multiples_vanish(q * (m as int), wrap32(x) + i, n as int);
}

/// Wrapping before or after an addition gives the same 32-bit position.
pub proof fn lemma_wrap32_add(x: int, i: int)
    ensures
        wrap32(wrap32(x) + i) == wrap32(x + i),
{
    lemma_fundamental_div_mod(x, 0x1_0000_0000);
    lemma_mod_multiples_vanish(x / 0x1_0000_0000, wrap32(x) + i, 0x1_0000_0000);
}

/// Two positions less than the capacity apart fall in different slots.
pub proof fn lemma_slots_distinct(a: int, d: int, n: int)
    requires
        0 < d < n,
    ensures
        (a + d) % n != a % n,
{
    lemma_fundamental_div_mod(a, n);
    lemma_fundamental_div_mod(a + d, n);
    let q1 = (a + d) / n;
    let q2 = a / n;
    if (a + d) % n == a % n {
        assert(d == n * (q1 - q2)) by (nonlinear_arith)
            requires
                a == n * q2 + a % n,
                a + d == n * q1 + (a + d) % n,
                (a + d) % n == a % n,
        ;
        assert(false) by (nonlinear_arith)
            requires
                d == n * (q1 - q2),
                0 < d < n,
        ;
    }
}

/// The capacities used by this crate are ring capacities.
pub proof fn lemma_crate_capacities()
    ensures
        is_ring_capacity(SND_BUF_CAPACITY as nat),
        is_ring_capacity(RCV_BUF_CAPACITY as nat),
        is_ring_capacity(ACK_LIST_CAPACITY as nat),
{
    lemma2_to64();
    assert(pow2(8) == 256);
    assert(pow2(7) == 128);
}

/// The items of a FIFO ring: `count` slots read from `head` onward.
pub open spec fn ring_contents<T>(slots: Seq<T>, head: u32, count: nat, n: nat) -> Seq<T> {
    Seq::new(count, |i: int| slots[(head + i) % (n as int)])
}

/// A run of queue operations on the contents `v` of a queue with room for `cap` items, as
/// the `push` and `pop` contracts of `RingBuffer` and `AckList` describe them: `Some(x)`
/// appends `x` when there is room, `None` takes the first item when there is one. The
/// contents afterwards, the items the pushes accepted, and the items the pops returned,
/// each in order.
pub open spec fn fifo_run<T>(v: Seq<T>, ops: Seq<Option<T>>, cap: nat) -> (Seq<T>, Seq<T>, Seq<T>)
    decreases ops.len(),
{
    if ops.len() == 0 {
        (v, Seq::empty(), Seq::empty())
    } else {
        let prev = fifo_run(v, ops.drop_last(), cap);
        let w = prev.0;
        match ops.last() {
            Some(x) => if w.len() < cap {
                (w.push(x), prev.1.push(x), prev.2)
            } else {
                prev
            },
            None => if w.len() > 0 {
                (w.drop_first(), prev.1, prev.2.push(w[0]))
            } else {
                prev
            },
        }
    }
}

/// First in, first out: over any run of pushes and pops, what the queue held plus what the
/// pushes accepted is what the pops returned followed by what the queue holds, and the
/// queue never holds more than its room. From an empty queue, the pops return the
/// accepted items in the order they were pushed.
pub proof fn lemma_fifo_run<T>(v: Seq<T>, ops: Seq<Option<T>>, cap: nat)
    requires
        v.len() <= cap,
    ensures
        v + fifo_run(v, ops, cap).1 == fifo_run(v, ops, cap).2 + fifo_run(v, ops, cap).0,
        fifo_run(v, ops, cap).0.len() <= cap,
    decreases ops.len(),
{
    if ops.len() > 0 {
        lemma_fifo_run(v, ops.drop_last(), cap);
        let prev = fifo_run(v, ops.drop_last(), cap);
        let w = prev.0;
        match ops.last() {
            Some(x) => {
                if w.len() < cap {
                    assert(v + prev.1.push(x) =~= (v + prev.1).push(x));
                    assert(prev.2 + w.push(x) =~= (prev.2 + w).push(x));
                }
            },
            None => {
                if w.len() > 0 {
                    assert(prev.2.push(w[0]) + w.drop_first() =~= prev.2 + w);
                }
            },
        }
    }
}

/// `n` pushes of the items `xs` onto an empty queue with room for them are all accepted
/// and leave the queue holding `xs`; `xs.len()` pops then return `xs` in order and leave
/// it empty.
pub proof fn lemma_fifo_fill_then_drain<T>(xs: Seq<T>, cap: nat)
    requires
        xs.len() <= cap,
    ensures
        fifo_run(Seq::<T>::empty(), xs.map_values(|x: T| Some(x)), cap) == (xs, xs, Seq::<T>::empty()),
        fifo_run(xs, Seq::new(xs.len(), |i: int| None::<T>), cap) == (Seq::<T>::empty(), Seq::<T>::empty(), xs),
    decreases xs.len(),
{
    if xs.len() > 0 {
        let ys = xs.drop_last();
        lemma_fifo_fill_then_drain(ys, cap);
        assert(xs.map_values(|x: T| Some(x)).drop_last() =~= ys.map_values(|x: T| Some(x)));
        assert(ys.push(xs.last()) =~= xs);
        lemma_fifo_drain(xs, xs.len(), cap);
        assert(xs.take(xs.len() as int) =~= xs);
        assert(xs.skip(xs.len() as int) =~= Seq::<T>::empty());
    } else {
        assert(xs =~= Seq::<T>::empty());
        assert(xs.map_values(|x: T| Some(x)) =~= Seq::<Option<T>>::empty());
        assert(Seq::new(xs.len(), |i: int| None::<T>) =~= Seq::<Option<T>>::empty());
    }
}

/// `n` pops from a queue holding `v` return its first `n` items and leave the rest.
proof fn lemma_fifo_drain<T>(v: Seq<T>, n: nat, cap: nat)
    requires
        n <= v.len(),
    ensures
        fifo_run(v, Seq::new(n, |i: int| None::<T>), cap) == (v.skip(n as int), Seq::<T>::empty(), v.take(n as int)),
    decreases n,
{
    if n > 0 {
        lemma_fifo_drain(v, (n - 1) as nat, cap);
        assert(Seq::new(n, |i: int| None::<T>).drop_last() =~= Seq::new((n - 1) as nat, |i: int| None::<T>));
        assert(v.skip(n - 1).drop_first() =~= v.skip(n as int));
        assert(v.take(n - 1).push(v.skip(n - 1)[0]) =~= v.take(n as int));
    } else {
        assert(Seq::new(n, |i: int| None::<T>) =~= Seq::<Option<T>>::empty());
        assert(v.skip(0) =~= v);
        assert(v.take(0) =~= Seq::<T>::empty());
    }
}

// ----------------------------------------------------------------------------------------
// Generic FIFO ring buffer
// ----------------------------------------------------------------------------------------

/// Generic ring buffer with a power-of-two capacity `N`.
///
/// Items are pushed at the tail and popped at the head; slot of a position = position & (N - 1).
pub struct RingBuffer<T, const N: usize> {
    data: Vec<T>,
    head: u32,
    tail: u32,
    count: u32,
}

impl<T: Copy + Default, const N: usize> Default for RingBuffer<T, N> {
    /// An empty ring; it is consistent when `N` is a power of two no larger than 2^31
    fn default() -> (r: Self)
        ensures
            is_ring_capacity(N as nat) ==> r.wf(),
            r.view() == Seq::<T>::empty(),
            r.slots().len() == N,
    {
        let d = T::default();
        let data = vec![d; N];
        let r = RingBuffer { data, head: 0, tail: 0, count: 0 };
        assert(r.view() =~= Seq::<T>::empty());
        r
    }
}

impl<T: Copy + Default, const N: usize> RingBuffer<T, N> {
    /// Internal consistency of the ring.
    pub closed spec fn wf(&self) -> bool {
        &&& is_ring_capacity(N as nat)
        &&& self.data@.len() == N
        &&& self.count <= N
        &&& self.tail == wrap32(self.head + self.count)
    }

    /// The items in FIFO order, oldest first.
    pub closed spec fn view(&self) -> Seq<T> {
        ring_contents(self.data@, self.head, self.count as nat, N as nat)
    }

    /// The raw slots, indexed by position & (N - 1).
    pub closed spec fn slots(&self) -> Seq<T> {
        self.data@
    }

    /// Position of the oldest item.
    pub closed spec fn head_pos(&self) -> u32 {
        self.head
    }

    /// Create new ring buffer; N must be a power of two no larger than 2^31
    pub fn new() -> (r: Self)
        requires
            is_ring_capacity(N as nat),
        ensures
            r.wf(),
            r.view() == Seq::<T>::empty(),
            r.slots().len() == N,
    {
        let d = T::default();
        let data = vec![d; N];
        let r = RingBuffer { data, head: 0, tail: 0, count: 0 };
        assert(r.view() =~= Seq::<T>::empty());
        r
    }

    /// Get buffer capacity
    pub fn capacity(&self) -> (r: usize)
        ensures
            r == N,
    {
        N
    }

    /// Get number of items in buffer
    pub fn len(&self) -> (r: u32)
        requires
            self.wf(),
        ensures
            r == self.view().len(),
    {
        self.count
    }

    /// Check if buffer is empty
    pub fn is_empty(&self) -> (r: bool)
        requires
            self.wf(),
        ensures
            r == (self.view().len() == 0),
    {
        self.count == 0
    }

    /// Check if buffer is full
    pub fn is_full(&self) -> (r: bool)
        requires
            self.wf(),
        ensures
            r == (self.view().len() >= N),
    {
        self.count as usize >= N
    }

    /// Slot index of a position: position & (N - 1)
    fn index(pos: u32) -> (r: usize)
        requires
            is_ring_capacity(N as nat),
        ensures
            r == (pos as int) % (N as int),
            r < N,
    {
        proof {
            lemma_ring_slot(pos, N as nat);
        }
        (pos as usize) & (N - 1)
    }

    /// Push item to tail; false (and no change) when full
    pub fn push(&mut self, item: T) -> (r: bool)
        requires
            old(self).wf(),
        ensures
            final(self).wf(),
            r == (old(self).view().len() < N),
            r ==> final(self).view() == old(self).view().push(item),
            !r ==> *final(self) == *old(self),
            !r ==> final(self).view() == old(self).view(),
    {
        if self.is_full() {
            return false;
        }
        let ghost old_view = self.view();
        let idx = Self::index(self.tail);
        proof {
            lemma_wrap_slot(self.head + self.count, 0, N as nat);
        }
        self.data.set(idx, item);
        self.tail = self.tail.wrapping_add(1);
        proof {
            lemma_ring_capacity(N as nat);
        }
        self.count = self.count.wrapping_add(1);
        proof {
            lemma_wrap32_add(self.head + self.count - 1, 1);
            lemma_wrap_slot(self.head + self.count - 1, 1, N as nat);
            assert forall|i: int| 0 <= i < old_view.len() implies self.view()[i] == old_view[i] by {
                lemma_slots_distinct(self.head + i, self.count - 1 - i, N as int);
            }
            assert(self.view() =~= old_view.push(item));
        }
        true
    }

    /// Pop item from head; None when empty
    pub fn pop(&mut self) -> (r: Option<T>)
        requires
            old(self).wf(),
        ensures
            final(self).wf(),
            old(self).view().len() == 0 ==> r is None && final(self).view() == old(self).view(),
            old(self).view().len() > 0 ==> r == Some(old(self).view()[0]) && final(self).view()
                == old(self).view().drop_first(),
    {
        if self.is_empty() {
            return None;
        }
        let ghost old_view = self.view();
        let ghost old_head = self.head;
        let idx = Self::index(self.head);
        let item = self.data[idx];
        self.head = self.head.wrapping_add(1);
        self.count = self.count.wrapping_sub(1);
        proof {
            lemma_wrap_slot(old_head + 1, self.count as int, N as nat);
            assert(self.tail == wrap32(self.head + self.count)) by {
                lemma_wrap32_add(old_head + 1, self.count as int);
            }
            assert forall|i: int| 0 <= i < self.count implies self.view()[i] == old_view[i + 1] by {
                lemma_wrap_slot(old_head + 1, i, N as nat);
            }
            assert(self.view() =~= old_view.drop_first());
        }
        Some(item)
    }

    /// Reference to the slot of a position
    pub fn get(&self, seq: u32) -> (r: Option<&T>)
        requires
            self.wf(),
        ensures
            r == Some(&self.slots()[(seq as int) % (N as int)]),
    {
        let idx = Self::index(seq);
        Some(&self.data[idx])
    }

    /// Mutable reference to the slot of a position
    pub fn get_mut(&mut self, seq: u32) -> (r: Option<&mut T>)
        requires
            old(self).wf(),
        ensures
            r matches Some(x) && *x == old(self).slots()[(seq as int) % (N as int)]
                && final(self).slots() == old(self).slots().update(
                (seq as int) % (N as int),
                *final(x),
            ),
            final(self).wf(),
            final(self).head_pos() == old(self).head_pos(),
            final(self).view().len() == old(self).view().len(),
            final(self).view() == ring_contents(
                final(self).slots(),
                final(self).head_pos(),
                final(self).view().len(),
                N as nat,
            ),
    {
        let idx = Self::index(seq);
        Some(&mut self.data[idx])
    }

    /// Clear all entries
    pub fn clear(&mut self)
        requires
            old(self).wf(),
        ensures
            final(self).wf(),
            final(self).view() == Seq::<T>::empty(),
            final(self).slots() == old(self).slots(),
    {
        self.head = 0;
        self.tail = 0;
        self.count = 0;
        assert(self.view() =~= Seq::<T>::empty());
    }
}

// ----------------------------------------------------------------------------------------
// Byte helpers
// ----------------------------------------------------------------------------------------

/// `s` with the bytes from `off` on replaced by `d`.
pub open spec fn splice(s: Seq<u8>, off: int, d: Seq<u8>) -> Seq<u8> {
    s.take(off) + d + s.skip(off + d.len())
}

/// Copy `src` into `dst` at `off`.
pub(crate) fn copy_into(dst: &mut Vec<u8>, off: usize, src: &[u8])
    requires
        off + src@.len() <= old(dst)@.len(),
    ensures
        final(dst)@ == splice(old(dst)@, off as int, src@),
{
    let ghost d0 = dst@;
    let dl = dst.len();
    let mut j: usize = 0;
    while j < src.len()
        invariant
            dl == dst@.len(),
            off + src@.len() <= dst@.len(),
            dst@.len() == d0.len(),
            0 <= j <= src@.len(),
            forall|i: int| 0 <= i < off ==> #[trigger] dst@[i] == d0[i],
            forall|i: int| off <= i < off + j ==> #[trigger] dst@[i] == src@[i - off],
            forall|i: int| off + j <= i < d0.len() ==> #[trigger] dst@[i] == d0[i],
        decreases src@.len() - j,
    {
        dst.set(off + j, src[j]);
        j = j + 1;
    }
    assert(dst@ =~= splice(d0, off as int, src@));
}

/// Slot of a sequence number in the send or receive buffer.
pub open spec fn slot256(sn: u32) -> int {
    (sn as int) % 256
}

/// Slot index of a sequence number, by masking.
fn slot_index(sn: Sequence, mask: usize) -> (r: usize)
    requires
        mask == 255,
    ensures
        r == slot256(sn.0),
        r < 256,
{
    proof {
        lemma_crate_capacities();
        lemma_ring_slot(sn.0, 256);
    }
    sn.to_index(mask)
}

// ----------------------------------------------------------------------------------------
// Send buffer
// ----------------------------------------------------------------------------------------

/// Size of the data area of a send or receive buffer.
pub open spec fn data_area() -> int {
    256int * 1376int
}

/// A segment slot that is waiting to be (re)transmitted.
pub open spec fn is_pending(s: SendSegment) -> bool {
    s.state == SegmentState::Pending || s.state == SegmentState::Sent
}

/// Indices below `n` of the slots that are pending, in increasing order.
pub open spec fn pending_list(segs: Seq<SendSegment>, n: nat) -> Seq<usize>
    decreases n,
{
    if n == 0 {
        Seq::empty()
    } else {
        let prev = pending_list(segs, (n - 1) as nat);
        if is_pending(segs[n - 1]) {
            prev.push((n - 1) as usize)
        } else {
            prev
        }
    }
}

/// Every index in the pending list is below `n` and pending; the list is strictly increasing.
pub proof fn lemma_pending_list(segs: Seq<SendSegment>, n: nat)
    requires
        n <= segs.len(),
        n <= 256,
    ensures
        pending_list(segs, n).len() <= n,
        forall|j: int|
            0 <= j < pending_list(segs, n).len() ==> #[trigger] pending_list(segs, n)[j] < n
                && is_pending(segs[pending_list(segs, n)[j] as int]),
        forall|a: int, b: int|
            0 <= a < b < pending_list(segs, n).len() ==> #[trigger] pending_list(segs, n)[a]
                < #[trigger] pending_list(segs, n)[b],
        forall|i: int| 0 <= i < n && is_pending(segs[i]) ==> pending_list(segs, n).contains(i as usize),
    decreases n,
{
    if n > 0 {
        lemma_pending_list(segs, (n - 1) as nat);
        let prev = pending_list(segs, (n - 1) as nat);
        if is_pending(segs[n - 1]) {
            let cur = prev.push((n - 1) as usize);
            assert(cur[prev.len() as int] == (n - 1) as usize);
            assert forall|a: int, b: int| 0 <= a < b < cur.len() implies #[trigger] cur[a] < #[trigger] cur[b] by {
                assert(cur[a] == prev[a]);
                if b < prev.len() {
                    assert(cur[b] == prev[b]);
                }
            }
        }
        assert forall|i: int| 0 <= i < n && is_pending(segs[i]) implies pending_list(
            segs,
            n,
        ).contains(i as usize) by {
            if i < n - 1 {
                let j = choose|j: int| 0 <= j < prev.len() && prev[j] == i as usize;
                if is_pending(segs[n - 1]) {
                    assert(pending_list(segs, n)[j] == i as usize);
                }
            } else {
                assert(pending_list(segs, n)[prev.len() as int] == i as usize);
            }
        }
    }
}

/// The fast-ACK step for one slot: a segment in flight at or after `una` and before `sn`
/// has been skipped by a later acknowledgment once more.
pub open spec fn fastack_step(s: SendSegment, sn: Sequence, una: Sequence) -> SendSegment {
    if s.state == SegmentState::Sent && !una.spec_is_after(s.sn) && sn.spec_is_after(s.sn) {
        SendSegment { fastack: if s.fastack == u16::MAX { u16::MAX } else { (s.fastack + 1) as u16 }, ..s }
    } else {
        s
    }
}

/// Fast acknowledgment counts: an acknowledgment for `sn` counts one more skip (up to the
/// counter's maximum) for every segment in flight numbered from `una` up to, but not
/// including, `sn`, and for no other segment: none numbered at or after `sn`, and none that
/// is not in flight.
pub proof fn lemma_fastack_counts(s: SendSegment, sn: Sequence, una: Sequence)
    ensures
        s.state == SegmentState::Sent && crate::sequence::seq_dist(s.sn.0, una.0) < crate::sequence::seq_dist(sn.0, una.0)
            && crate::sequence::seq_dist(sn.0, una.0) < 0x8000_0000 ==> fastack_step(s, sn, una) == (SendSegment {
            fastack: if s.fastack == u16::MAX { u16::MAX } else { (s.fastack + 1) as u16 },
            ..s
        }),
        crate::sequence::seq_dist(s.sn.0, sn.0) < 0x8000_0000 ==> fastack_step(s, sn, una) == s,
        s.state != SegmentState::Sent ==> fastack_step(s, sn, una) == s,
{
}

/// A message fits a buffer exactly its size: when the message at the head of the receive
/// buffer is complete and its total length is at most the caller's buffer length (equal
/// included), a read returns that length and the buffer begins with the message.
pub proof fn lemma_read_fits(old_b: RecvBuffer, new_b: RecvBuffer, old_buf: Seq<u8>, new_buf: Seq<u8>, r: usize)
    requires
        old_b.wf(),
        recv_read(old_b, new_b, old_buf, new_buf, r),
        msg_complete(old_b.segs(), old_b.nxt().0),
        msg_total(old_b.segs(), old_b.nxt().0, msg_segments(old_b.segs(), old_b.nxt().0)) <= old_buf.len(),
    ensures
        r == msg_total(old_b.segs(), old_b.nxt().0, msg_segments(old_b.segs(), old_b.nxt().0)),
        new_buf.len() == old_buf.len(),
        new_buf.take(r as int) == msg_bytes(old_b.segs(), old_b.bytes(), old_b.nxt().0, msg_segments(old_b.segs(), old_b.nxt().0)),
{
    let n = msg_segments(old_b.segs(), old_b.nxt().0);
    let m = msg_bytes(old_b.segs(), old_b.bytes(), old_b.nxt().0, n);
    lemma_msg_bytes_len(old_b.segs(), old_b.bytes(), old_b.nxt().0, n);
    assert((m + old_buf.skip(r as int)).take(r as int) =~= m);
}

/// The slot at offset `j` from `start` holds a segment acknowledged by `una`.
pub open spec fn shrink_ok(segs: Seq<SendSegment>, start: u32, una: Sequence, j: int) -> bool {
    let s = segs[(start + j) % 256];
    s.state != SegmentState::Empty && una.spec_is_after(s.sn)
}

/// Length of the run of acknowledged slots from `start` (at most `count`), counted from `j`.
pub open spec fn shrink_run(
    segs: Seq<SendSegment>,
    start: u32,
    una: Sequence,
    count: nat,
    j: nat,
) -> nat
    decreases count - j,
{
    if j < count && shrink_ok(segs, start, una, j as int) {
        shrink_run(segs, start, una, count, j + 1)
    } else {
        j
    }
}

/// How many of the `n` slots from `start` onward hold a segment still waiting (not
/// acknowledged on its own).
pub open spec fn waiting_in_run(segs: Seq<SendSegment>, start: u32, n: nat) -> nat
    decreases n,
{
    if n == 0 {
        0
    } else {
        waiting_in_run(segs, start, (n - 1) as nat) + if segs[(start + (n - 1)) % 256].state
            != SegmentState::Acked {
            1nat
        } else {
            0nat
        }
    }
}

/// `c` raised by one, stopping at the capacity of 256 segments.
pub open spec fn count_one_more(c: u32) -> u32 {
    if c < 256 {
        (c + 1) as u32
    } else {
        c
    }
}

/// `c` lowered by `w`, stopping at zero.
pub open spec fn sat_sub(c: u32, w: nat) -> u32 {
    if c >= w {
        (c - w) as u32
    } else {
        0
    }
}

/// `segs` with the `n` slots from `start` onward marked empty.
pub open spec fn clear_run(segs: Seq<SendSegment>, start: u32, n: nat) -> Seq<SendSegment> {
    Seq::new(
        segs.len(),
        |i: int|
            if (i - start) % 256 < n {
                SendSegment { state: SegmentState::Empty, ..segs[i] }
            } else {
                segs[i]
            },
    )
}

/// The slot `i` is at offset `j` from `start` exactly when it is the slot of `start + j`.
pub proof fn lemma_slot_offset(i: int, start: int, j: int)
    requires
        0 <= i < 256,
        0 <= j < 256,
    ensures
        ((i - start) % 256 == j) <==> (i == (start + j) % 256),
{
    lemma_fundamental_div_mod(i - start, 256);
    lemma_fundamental_div_mod(start + j, 256);
    let q = (i - start) / 256;
    if (i - start) % 256 == j {
        lemma_mod_multiples_vanish(q, start + j, 256);
        assert(i == 256 * q + (start + j));
    }
    if i == (start + j) % 256 {
        let p = (start + j) / 256;
        assert(i - start == 256 * (-p) + j);
        lemma_mod_multiples_vanish(-p, j, 256);
    }
}

proof fn lemma_shrink_run(
    segs: Seq<SendSegment>,
    start: u32,
    una: Sequence,
    count: nat,
    i: nat,
    j: nat,
)
    requires
        i <= j <= count,
        forall|jj: int| i <= jj < j ==> shrink_ok(segs, start, una, jj),
        j == count || !shrink_ok(segs, start, una, j as int),
    ensures
        shrink_run(segs, start, una, count, i) == j,
    decreases j - i,
{
    if i < j {
        lemma_shrink_run(segs, start, una, count, i + 1, j);
    }
}

impl Default for SendBuffer {
    fn default() -> (r: Self)
        ensures
            r.wf(),
            r.segs() == Seq::new(256, |i: int| SendSegment::empty()),
            r.una() == Sequence(0),
            r.nxt() == Sequence(0),
            r.seg_count() == 0,
    {
        SendBuffer::new()
    }
}

/// Send buffer: the segments waiting for transmission or acknowledgment, with their data.
///
/// Slot of a segment = sequence number & 255; its data lives at slot * MSS.
pub struct SendBuffer {
    segments: Vec<SendSegment>,
    data: Vec<u8>,
    snd_una: Sequence,
    snd_nxt: Sequence,
    count: u32,
}

impl SendBuffer {
    /// Internal consistency of the buffer.
    pub closed spec fn wf(&self) -> bool {
        &&& self.segments@.len() == 256
        &&& self.data@.len() == data_area()
        &&& self.count <= 256
        &&& Self::slots_in_bounds(self.segments@)
    }

    /// The 256 segment slots.
    pub closed spec fn segs(&self) -> Seq<SendSegment> {
        self.segments@
    }

    /// The data area.
    pub closed spec fn bytes(&self) -> Seq<u8> {
        self.data@
    }

    /// Oldest unacknowledged sequence number.
    pub closed spec fn una(&self) -> Sequence {
        self.snd_una
    }

    /// Next sequence number to send.
    pub closed spec fn nxt(&self) -> Sequence {
        self.snd_nxt
    }

    /// Number of segments counted in the buffer.
    pub closed spec fn seg_count(&self) -> u32 {
        self.count
    }

    /// Slots whose data fit a segment and lie within the data area keep a buffer consistent.
    pub open spec fn slots_in_bounds(segs: Seq<SendSegment>) -> bool {
        forall|i: int|
            0 <= i < segs.len() ==> #[trigger] segs[i].data_offset + segs[i].data_len <= data_area()
                && segs[i].data_len <= 1376
    }

    /// What the buffer is made of, for callers that reason about its consistency.
    pub proof fn lemma_wf(&self)
        ensures
            self.wf() <==> (self.segs().len() == 256 && self.bytes().len() == data_area()
                && self.seg_count() <= 256 && Self::slots_in_bounds(self.segs())),
    {
    }

    /// Create new send buffer with preallocated storage
    pub fn new() -> (r: Self)
        ensures
            r.wf(),
            r.segs() == Seq::new(256, |i: int| SendSegment::empty()),
            r.bytes() == Seq::new(data_area() as nat, |i: int| 0u8),
            r.una() == Sequence(0),
            r.nxt() == Sequence(0),
            r.seg_count() == 0,
    {
        let mut segments: Vec<SendSegment> = Vec::new();
        let mut i: usize = 0;
        while i < SND_BUF_CAPACITY
            invariant
                0 <= i <= 256,
                segments@.len() == i,
                forall|j: int| 0 <= j < i ==> #[trigger] segments@[j] == SendSegment::empty(),
            decreases 256 - i,
        {
            segments.push(SendSegment::default());
            i = i + 1;
        }
        let data = vec![0u8; SND_BUF_CAPACITY * MSS_DEFAULT];
        let r = SendBuffer { segments, data, snd_una: Sequence(0), snd_nxt: Sequence(0), count: 0 };
        assert(r.segs() =~= Seq::new(256, |i: int| SendSegment::empty()));
        assert(r.bytes() =~= Seq::new(data_area() as nat, |i: int| 0u8));
        r
    }

    /// Get number of segments in buffer
    pub fn len(&self) -> (r: u32)
        ensures
            r == self.seg_count(),
    {
        self.count
    }

    /// Check if buffer is full
    pub fn is_full(&self) -> (r: bool)
        ensures
            r == (self.seg_count() >= 256),
    {
        self.count as usize >= SND_BUF_CAPACITY
    }

    /// Check if empty
    pub fn is_empty(&self) -> (r: bool)
        ensures
            r == (self.seg_count() == 0),
    {
        self.count == 0
    }

    /// Insert a new pending segment; false (and no change) when full or the data exceeds MSS
    pub fn insert(&mut self, sn: Sequence, frg: u8, data: &[u8]) -> (r: bool)
        requires
            old(self).wf(),
        ensures
            final(self).wf(),
            r == (old(self).seg_count() < 256 && data@.len() <= MSS_DEFAULT),
            final(self).una() == old(self).una(),
            final(self).nxt() == old(self).nxt(),
            !r ==> final(self).segs() == old(self).segs() && final(self).bytes() == old(self).bytes() && final(self).seg_count() == old(self).seg_count(),
            r ==> {
                let idx = slot256(sn.0);
                &&& final(self).segs() == old(self).segs().update(
                    idx,
                    SendSegment {
                        sn,
                        resend_ts: 0,
                        rto: RTO_DEFAULT,
                        fastack: 0,
                        xmit: 0,
                        state: SegmentState::Pending,
                        frg,
                        data_len: data@.len() as u16,
                        ts: 0,
                        data_offset: (idx * 1376) as u32,
                    },
                )
                &&& final(self).bytes() == splice(old(self).bytes(), idx * 1376, data@)
                &&& final(self).seg_count() == old(self).seg_count() + 1
            },
    {
        if self.is_full() || data.len() > MSS_DEFAULT {
            return false;
        }
        let idx = slot_index(sn, SND_BUF_MASK);
        let data_offset = idx * MSS_DEFAULT;
        copy_into(&mut self.data, data_offset, data);
        self.segments.set(
            idx,
            SendSegment {
                sn,
                resend_ts: 0,
                rto: RTO_DEFAULT,
                fastack: 0,
                xmit: 0,
                state: SegmentState::Pending,
                frg,
                data_len: data.len() as u16,
                ts: 0,
                data_offset: data_offset as u32,
            },
        );
        self.count = self.count.wrapping_add(1);
        true
    }

    /// Get the segment of a sequence number, if its slot holds that segment
    pub fn get(&self, sn: Sequence) -> (r: Option<&SendSegment>)
        requires
            self.wf(),
        ensures
            ({
                let s = self.segs()[slot256(sn.0)];
                &&& (s.state != SegmentState::Empty && s.sn == sn) ==> r == Some(&s)
                &&& !(s.state != SegmentState::Empty && s.sn == sn) ==> r is None
            }),
    {
        let idx = slot_index(sn, SND_BUF_MASK);
        let seg = &self.segments[idx];
        if seg.state != SegmentState::Empty && seg.sn == sn {
            Some(seg)
        } else {
            None
        }
    }

    /// Get the segment of a sequence number mutably, if its slot holds that segment
    pub fn get_mut(&mut self, sn: Sequence) -> (r: Option<&mut SendSegment>)
        requires
            old(self).wf(),
        ensures
            ({
                let idx = slot256(sn.0);
                let s = old(self).segs()[idx];
                &&& final(self).bytes() == old(self).bytes()
                &&& final(self).una() == old(self).una()
                &&& final(self).nxt() == old(self).nxt()
                &&& final(self).seg_count() == old(self).seg_count()
                &&& (s.state != SegmentState::Empty && s.sn == sn) ==> (r matches Some(m) && *m == s
                    && final(self).segs() == old(self).segs().update(idx, *final(m)))
                &&& !(s.state != SegmentState::Empty && s.sn == sn) ==> (r is None && final(self).segs() == old(self).segs())
                &&& Self::slots_in_bounds(final(self).segs()) ==> final(self).wf()
            }),
    {
        let idx = slot_index(sn, SND_BUF_MASK);
        let seg = &mut self.segments[idx];
        if seg.state != SegmentState::Empty && seg.sn == sn {
            Some(seg)
        } else {
            None
        }
    }

    /// Data of a segment whose offset and length lie in the data area
    pub fn get_data(&self, seg: &SendSegment) -> (r: &[u8])
        requires
            self.wf(),
            seg.data_offset + seg.data_len <= data_area(),
        ensures
            r@ == self.bytes().subrange(
                seg.data_offset as int,
                seg.data_offset + seg.data_len,
            ),
    {
        let offset = seg.data_offset as usize;
        vstd::slice::slice_subrange(self.data.as_slice(), offset, offset + seg.data_len as usize)
    }

    /// Mark the segment of a sequence number as acknowledged, if it has been sent
    pub fn ack(&mut self, sn: Sequence) -> (r: bool)
        requires
            old(self).wf(),
        ensures
            final(self).wf(),
            final(self).bytes() == old(self).bytes(),
            final(self).una() == old(self).una(),
            final(self).nxt() == old(self).nxt(),
            ({
                let idx = slot256(sn.0);
                let s = old(self).segs()[idx];
                &&& r == (s.state == SegmentState::Sent && s.sn == sn)
                &&& r ==> final(self).segs() == old(self).segs().update(
                    idx,
                    SendSegment { state: SegmentState::Acked, ..s },
                ) && final(self).seg_count() == if old(self).seg_count() == 0 {
                    0
                } else {
                    (old(self).seg_count() - 1) as u32
                }
                &&& !r ==> final(self).segs() == old(self).segs() && final(self).seg_count() == old(self).seg_count()
            }),
    {
        let ghost idx = slot256(sn.0);
        let ghost old_segs = self.segments@;
        match self.get_mut(sn) {
            Some(seg) => {
                if seg.state == SegmentState::Sent {
                    seg.state = SegmentState::Acked;
                    self.count = self.count.saturating_sub(1);
                    assert(self.segments@ =~= old_segs.update(idx, SendSegment { state: SegmentState::Acked, ..old_segs[idx] }));
                    return true;
                }
            },
            None => {},
        }
        false
    }

    /// Remove every segment from `snd_una` on that comes before `una`: the run of such
    /// slots is emptied, `snd_una` moves past it, and the segments of it still waiting
    /// (not acknowledged on their own) leave the count.
    pub fn shrink(&mut self, una: Sequence)
        requires
            old(self).wf(),
        ensures
            final(self).wf(),
            ({
                let n = shrink_run(old(self).segs(), old(self).una().0, una, 256, 0);
                &&& final(self).segs() == clear_run(old(self).segs(), old(self).una().0, n)
                &&& final(self).una() == Sequence(wrap32(old(self).una().0 + n))
                &&& final(self).seg_count() == sat_sub(
                    old(self).seg_count(),
                    waiting_in_run(old(self).segs(), old(self).una().0, n),
                )
            }),
            final(self).bytes() == old(self).bytes(),
            final(self).nxt() == old(self).nxt(),
    {
        let ghost start = self.snd_una.0;
        let ghost old_segs = self.segments@;
        let ghost old_count = self.count;
        let ghost mut j: nat = 0;
        let mut removed: u32 = 0;
        while removed < 256
            invariant
                self.wf(),
                j == removed,
                j <= 256,
                old_count <= 256,
                self.count == sat_sub(old_count, waiting_in_run(old_segs, start, j)),
                self.snd_una.0 == wrap32(start + j),
                self.data@ == old(self).data@,
                self.snd_nxt == old(self).snd_nxt,
                old_segs.len() == 256,
                self.segments@ == clear_run(old_segs, start, j),
                forall|jj: int| 0 <= jj < j ==> shrink_ok(old_segs, start, una, jj),
            ensures
                self.wf(),
                j <= 256,
                self.count == sat_sub(old_count, waiting_in_run(old_segs, start, j)),
                self.snd_una.0 == wrap32(start + j),
                self.data@ == old(self).data@,
                self.snd_nxt == old(self).snd_nxt,
                self.segments@ == clear_run(old_segs, start, j),
                forall|jj: int| 0 <= jj < j ==> shrink_ok(old_segs, start, una, jj),
                j == 256 || !shrink_ok(old_segs, start, una, j as int),
            decreases 256 - removed,
        {
            let idx = slot_index(self.snd_una, SND_BUF_MASK);
            proof {
                lemma_crate_capacities();
                lemma_wrap_slot(start + j, 0, 256);
                assert(idx == (start + j) % 256);
                lemma_slot_offset(idx as int, start as int, j as int);
            }
            let seg = self.segments[idx];
            proof {
                if j < 256 {
                    assert(seg == old_segs[idx as int]);
                }
            }
            if seg.state != SegmentState::Empty && seg.sn.is_before(una) {
                self.segments.set(idx, SendSegment { state: SegmentState::Empty, ..seg });
                self.snd_una = self.snd_una.increment();
                if seg.state != SegmentState::Acked {
                    self.count = self.count.saturating_sub(1);
                }
                removed = removed + 1;
                proof {
                    lemma_wrap32_add(start + j, 1);
                    j = j + 1;
                    assert forall|i: int| 0 <= i < 256 implies self.segments@[i] == clear_run(old_segs, start, j)[i] by {
                        lemma_slot_offset(i, start as int, j - 1);
                    }
                    assert(self.segments@ =~= clear_run(old_segs, start, j));
                }
            } else {
                break;
            }
        }
        proof {
            lemma_shrink_run(old_segs, start, una, 256, 0, j);
        }
    }


    /// Segments that need sending (pending or sent), with their slot index, in slot order
    pub fn iter_pending(&self) -> (r: Vec<(usize, SendSegment)>)
        requires
            self.wf(),
        ensures
            r@ == pending_list(self.segs(), 256).map_values(|i: usize| (i, self.segs()[i as int])),
    {
        let mut r: Vec<(usize, SendSegment)> = Vec::new();
        let mut i: usize = 0;
        while i < SND_BUF_CAPACITY
            invariant
                self.wf(),
                0 <= i <= 256,
                r@ == pending_list(self.segs(), i as nat).map_values(
                    |k: usize| (k, self.segs()[k as int]),
                ),
            decreases 256 - i,
        {
            let seg = self.segments[i];
            if seg.state == SegmentState::Pending || seg.state == SegmentState::Sent {
                r.push((i, seg));
            }
            i = i + 1;
            proof {
                assert(r@ =~= pending_list(self.segs(), i as nat).map_values(
                    |k: usize| (k, self.segs()[k as int]),
                ));
            }
        }
        r
    }

    /// Indices of the pending (or sent) slots in slot order, followed by `None`s up to 256 entries
    pub fn pending_indices(&self) -> (r: Vec<Option<usize>>)
        requires
            self.wf(),
        ensures
            r@.len() == 256,
            forall|j: int|
                0 <= j < 256 ==> #[trigger] r@[j] == if j < pending_list(self.segs(), 256).len() {
                    Some(pending_list(self.segs(), 256)[j])
                } else {
                    None
                },
    {
        let mut r: Vec<Option<usize>> = Vec::new();
        let mut j: usize = 0;
        while j < SND_BUF_CAPACITY
            invariant
                0 <= j <= 256,
                r@.len() == j,
                forall|k: int| 0 <= k < j ==> #[trigger] r@[k] == None::<usize>,
            decreases 256 - j,
        {
            r.push(None);
            j = j + 1;
        }
        let mut count: usize = 0;
        let mut idx: usize = 0;
        while idx < SND_BUF_CAPACITY
            invariant
                self.wf(),
                0 <= idx <= 256,
                r@.len() == 256,
                count == pending_list(self.segs(), idx as nat).len(),
                count <= idx,
                forall|k: int|
                    0 <= k < 256 ==> #[trigger] r@[k] == if k < count {
                        Some(pending_list(self.segs(), idx as nat)[k])
                    } else {
                        None
                    },
            decreases 256 - idx,
        {
            proof {
                lemma_pending_list(self.segs(), idx as nat);
            }
            let seg = self.segments[idx];
            if seg.state == SegmentState::Pending || seg.state == SegmentState::Sent {
                r.set(count, Some(idx));
                count = count + 1;
            }
            idx = idx + 1;
        }
        r
    }

    /// Segment in slot `idx`
    pub fn get_by_index(&self, idx: usize) -> (r: &SendSegment)
        requires
            self.wf(),
            idx < 256,
        ensures
            *r == self.segs()[idx as int],
    {
        &self.segments[idx]
    }

    /// Segment in slot `idx`, mutably
    pub fn get_mut_by_index(&mut self, idx: usize) -> (r: &mut SendSegment)
        requires
            old(self).wf(),
            idx < 256,
        ensures
            *r == old(self).segs()[idx as int],
            final(self).segs() == old(self).segs().update(idx as int, *final(r)),
            final(self).bytes() == old(self).bytes(),
            final(self).una() == old(self).una(),
            final(self).nxt() == old(self).nxt(),
            final(self).seg_count() == old(self).seg_count(),
            Self::slots_in_bounds(final(self).segs()) ==> final(self).wf(),
    {
        &mut self.segments[idx]
    }

    /// Data of the segment in slot `idx`
    pub fn get_data_by_index(&self, idx: usize) -> (r: &[u8])
        requires
            self.wf(),
            idx < 256,
        ensures
            r@ == self.bytes().subrange(
                self.segs()[idx as int].data_offset as int,
                self.segs()[idx as int].data_offset + self.segs()[idx as int].data_len,
            ),
    {
        let seg = &self.segments[idx];
        let offset = seg.data_offset as usize;
        vstd::slice::slice_subrange(self.data.as_slice(), offset, offset + seg.data_len as usize)
    }

    /// Count one more skip for every segment in flight at or after `una` and before `sn`
    pub fn increment_fastack(&mut self, sn: Sequence, una: Sequence)
        requires
            old(self).wf(),
        ensures
            final(self).wf(),
            final(self).segs() == Seq::new(
                256,
                |i: int| fastack_step(old(self).segs()[i], sn, una),
            ),
            final(self).bytes() == old(self).bytes(),
            final(self).una() == old(self).una(),
            final(self).nxt() == old(self).nxt(),
            final(self).seg_count() == old(self).seg_count(),
    {
        let ghost old_segs = self.segments@;
        let mut i: usize = 0;
        while i < SND_BUF_CAPACITY
            invariant
                self.wf(),
                0 <= i <= 256,
                old_segs.len() == 256,
                self.data@ == old(self).data@,
                self.snd_una == old(self).snd_una,
                self.snd_nxt == old(self).snd_nxt,
                self.count == old(self).count,
                forall|k: int| 0 <= k < i ==> #[trigger] self.segments@[k] == fastack_step(old_segs[k], sn, una),
                forall|k: int| i <= k < 256 ==> #[trigger] self.segments@[k] == old_segs[k],
            decreases 256 - i,
        {
            let seg = self.segments[i];
            if seg.state == SegmentState::Sent {
                if !seg.sn.is_before(una) && seg.sn.is_before(sn) {
                    self.segments.set(i, SendSegment { fastack: seg.fastack.saturating_add(1), ..seg });
                }
            }
            i = i + 1;
        }
        assert(self.segments@ =~= Seq::new(256, |i: int| fastack_step(old_segs[i], sn, una)));
    }

    /// Get snd_una (oldest unacked)
    pub fn snd_una(&self) -> (r: Sequence)
        ensures
            r == self.una(),
    {
        self.snd_una
    }

    /// Set snd_una
    pub fn set_snd_una(&mut self, una: Sequence)
        requires
            old(self).wf(),
        ensures
            final(self).wf(),
            final(self).una() == una,
            final(self).segs() == old(self).segs(),
            final(self).bytes() == old(self).bytes(),
            final(self).nxt() == old(self).nxt(),
            final(self).seg_count() == old(self).seg_count(),
    {
        self.snd_una = una;
    }

    /// Get snd_nxt (next to send)
    pub fn snd_nxt(&self) -> (r: Sequence)
        ensures
            r == self.nxt(),
    {
        self.snd_nxt
    }

    /// Set snd_nxt
    pub fn set_snd_nxt(&mut self, nxt: Sequence)
        requires
            old(self).wf(),
        ensures
            final(self).wf(),
            final(self).nxt() == nxt,
            final(self).segs() == old(self).segs(),
            final(self).bytes() == old(self).bytes(),
            final(self).una() == old(self).una(),
            final(self).seg_count() == old(self).seg_count(),
    {
        self.snd_nxt = nxt;
    }

    /// Put a segment into slot `idx`, with its data `src` copied to the slot's data area,
    /// and count it; the segment's offset and length are those of the copy
    pub(crate) fn place(&mut self, idx: usize, seg: SendSegment, src: &[u8])
        requires
            old(self).wf(),
            idx < 256,
            src@.len() <= MSS_DEFAULT,
        ensures
            final(self).wf(),
            final(self).segs() == old(self).segs().update(
                idx as int,
                SendSegment { data_offset: (idx * 1376) as u32, data_len: src@.len() as u16, ..seg },
            ),
            final(self).bytes() == splice(old(self).bytes(), idx * 1376, src@),
            final(self).una() == old(self).una(),
            final(self).nxt() == old(self).nxt(),
            final(self).seg_count() == count_one_more(old(self).seg_count()),
    {
        if self.count < 256 {
            self.count = self.count + 1;
        }
        let off = idx * MSS_DEFAULT;
        copy_into(&mut self.data, off, src);
        self.segments.set(
            idx,
            SendSegment { data_offset: off as u32, data_len: src.len() as u16, ..seg },
        );
    }

    /// Empty the slot `idx`, whose segment leaves the buffer, and count one segment less
    pub(crate) fn take_slot(&mut self, idx: usize)
        requires
            old(self).wf(),
            idx < 256,
        ensures
            final(self).wf(),
            final(self).segs() == old(self).segs().update(
                idx as int,
                SendSegment { state: SegmentState::Empty, ..old(self).segs()[idx as int] },
            ),
            final(self).bytes() == old(self).bytes(),
            final(self).una() == old(self).una(),
            final(self).nxt() == old(self).nxt(),
            final(self).seg_count() == sat_sub(old(self).seg_count(), 1),
    {
        let seg = self.segments[idx];
        self.segments.set(idx, SendSegment { state: SegmentState::Empty, ..seg });
        self.count = self.count.saturating_sub(1);
    }
}

// ----------------------------------------------------------------------------------------
// Receive buffer
// ----------------------------------------------------------------------------------------

/// Slot of the `i`-th segment from `nxt` in the receive buffer.
pub open spec fn rslot(nxt: u32, i: int) -> int {
    (nxt + i) % 256
}

/// The message at `nxt` is complete: the slot of `nxt` holds a pending segment numbered `nxt`
/// whose fragment index is `f`, and for every `i <= f` the slot of `nxt + i` holds the pending
/// segment numbered `nxt + i` with fragment index `f - i`.
pub open spec fn msg_complete(segs: Seq<RecvSegment>, nxt: u32) -> bool {
    let f = segs[rslot(nxt, 0)].frg;
    forall|i: int|
        0 <= i <= f ==> {
            let s = #[trigger] segs[rslot(nxt, i)];
            &&& s.state == SegmentState::Pending
            &&& s.sn.0 == wrap32(nxt + i)
            &&& s.frg == f - i
        }
}

/// Number of segments of the message at `nxt`.
pub open spec fn msg_segments(segs: Seq<RecvSegment>, nxt: u32) -> nat {
    (segs[rslot(nxt, 0)].frg + 1) as nat
}

/// Total data length of the first `n` segments from `nxt`.
pub open spec fn msg_total(segs: Seq<RecvSegment>, nxt: u32, n: nat) -> nat
    decreases n,
{
    if n == 0 {
        0
    } else {
        msg_total(segs, nxt, (n - 1) as nat) + segs[rslot(nxt, n - 1)].data_len as nat
    }
}

/// Concatenated data of the first `n` segments from `nxt`.
pub open spec fn msg_bytes(segs: Seq<RecvSegment>, bytes: Seq<u8>, nxt: u32, n: nat) -> Seq<u8>
    decreases n,
{
    if n == 0 {
        Seq::empty()
    } else {
        let s = segs[rslot(nxt, n - 1)];
        msg_bytes(segs, bytes, nxt, (n - 1) as nat) + bytes.subrange(
            s.data_offset as int,
            s.data_offset + s.data_len,
        )
    }
}

/// `segs` with the `n` slots from `nxt` onward marked empty.
pub open spec fn clear_recv_run(segs: Seq<RecvSegment>, nxt: u32, n: nat) -> Seq<RecvSegment> {
    Seq::new(
        segs.len(),
        |i: int|
            if (i - nxt) % 256 < n {
                RecvSegment { state: SegmentState::Empty, ..segs[i] }
            } else {
                segs[i]
            },
    )
}

proof fn lemma_msg_bytes_len(segs: Seq<RecvSegment>, bytes: Seq<u8>, nxt: u32, n: nat)
    requires
        forall|i: int|
            0 <= i < 256 ==> #[trigger] segs[i].data_offset + segs[i].data_len <= bytes.len(),
        segs.len() == 256,
    ensures
        msg_bytes(segs, bytes, nxt, n).len() == msg_total(segs, nxt, n),
    decreases n,
{
    if n > 0 {
        lemma_msg_bytes_len(segs, bytes, nxt, (n - 1) as nat);
        let k = rslot(nxt, n - 1);
        assert(0 <= k < 256);
        assert(segs[k].data_offset + segs[k].data_len <= bytes.len());
    }
}

/// The effect of reading the message at the head of a receive buffer into a buffer:
/// when the message at `nxt` is complete and fits, its bytes fill the front of the buffer,
/// its slots are emptied, `nxt` moves past it and its length is returned; otherwise
/// 0 is returned and nothing changes.
pub open spec fn recv_read(
    old_b: RecvBuffer,
    new_b: RecvBuffer,
    old_buf: Seq<u8>,
    new_buf: Seq<u8>,
    r: usize,
) -> bool {
    let segs = old_b.segs();
    let nxt = old_b.nxt().0;
    let n = msg_segments(segs, nxt);
    let total = msg_total(segs, nxt, n);
    let ok = msg_complete(segs, nxt) && total <= old_buf.len();
    &&& new_b.wf()
    &&& new_b.bytes() == old_b.bytes()
    &&& ok ==> {
        &&& r == total
        &&& new_buf == msg_bytes(segs, old_b.bytes(), nxt, n) + old_buf.skip(total as int)
        &&& new_b.segs() == clear_recv_run(segs, nxt, n)
        &&& new_b.nxt() == Sequence(wrap32(nxt + n))
        &&& new_b.seg_count() == if old_b.seg_count() >= n {
            (old_b.seg_count() - n) as u32
        } else {
            0
        }
    }
    &&& !ok ==> {
        &&& r == 0
        &&& new_buf == old_buf
        &&& new_b.segs() == segs
        &&& new_b.nxt() == old_b.nxt()
        &&& new_b.seg_count() == old_b.seg_count()
    }
}

impl Default for RecvBuffer {
    fn default() -> (r: Self)
        ensures
            r.wf(),
            r.segs() == Seq::new(256, |i: int| RecvSegment::empty()),
            r.nxt() == Sequence(0),
            r.seg_count() == 0,
    {
        RecvBuffer::new()
    }
}

/// Receive buffer: out-of-order segments awaiting reassembly, with their data.
pub struct RecvBuffer {
    segments: Vec<RecvSegment>,
    data: Vec<u8>,
    rcv_nxt: Sequence,
    count: u32,
}

impl RecvBuffer {
    /// Internal consistency of the buffer.
    pub closed spec fn wf(&self) -> bool {
        &&& self.segments@.len() == 256
        &&& self.data@.len() == data_area()
        &&& forall|i: int|
            0 <= i < 256 ==> #[trigger] self.segments@[i].data_offset + self.segments@[i].data_len
                <= data_area()
    }

    /// The 256 segment slots.
    pub closed spec fn segs(&self) -> Seq<RecvSegment> {
        self.segments@
    }

    /// A consistent buffer has 256 slots and a data area of 256 slots of MSS bytes.
    pub proof fn lemma_sizes(&self)
        requires
            self.wf(),
        ensures
            self.segs().len() == 256,
            self.bytes().len() == 256 * 1376,
    {
    }

    /// The data area.
    pub closed spec fn bytes(&self) -> Seq<u8> {
        self.data@
    }

    /// Next expected sequence number.
    pub closed spec fn nxt(&self) -> Sequence {
        self.rcv_nxt
    }

    /// Number of segments counted in the buffer.
    pub closed spec fn seg_count(&self) -> u32 {
        self.count
    }

    /// Create new receive buffer with preallocated storage
    pub fn new() -> (r: Self)
        ensures
            r.wf(),
            r.segs() == Seq::new(256, |i: int| RecvSegment::empty()),
            r.bytes() == Seq::new(data_area() as nat, |i: int| 0u8),
            r.nxt() == Sequence(0),
            r.seg_count() == 0,
    {
        let mut segments: Vec<RecvSegment> = Vec::new();
        let mut i: usize = 0;
        while i < RCV_BUF_CAPACITY
            invariant
                0 <= i <= 256,
                segments@.len() == i,
                forall|j: int| 0 <= j < i ==> #[trigger] segments@[j] == RecvSegment::empty(),
            decreases 256 - i,
        {
            segments.push(RecvSegment::default());
            i = i + 1;
        }
        let data = vec![0u8; RCV_BUF_CAPACITY * MSS_DEFAULT];
        let r = RecvBuffer { segments, data, rcv_nxt: Sequence(0), count: 0 };
        assert(r.segs() =~= Seq::new(256, |i: int| RecvSegment::empty()));
        assert(r.bytes() =~= Seq::new(data_area() as nat, |i: int| 0u8));
        r
    }

    /// Insert a received segment: accepted when `sn` is within the 256 sequence numbers
    /// from `rcv_nxt` and its slot does not already hold it; data beyond MSS is cut off
    pub fn insert(&mut self, sn: Sequence, frg: u8, data: &[u8]) -> (r: bool)
        requires
            old(self).wf(),
        ensures
            final(self).wf(),
            final(self).nxt() == old(self).nxt(),
            ({
                let idx = slot256(sn.0);
                let s = old(self).segs()[idx];
                let in_window = sn.spec_is_in_range(
                    old(self).nxt(),
                    Sequence(wrap32(old(self).nxt().0 + 256)),
                );
                let dup = s.state != SegmentState::Empty && s.sn == sn;
                let len = if data@.len() < MSS_DEFAULT { data@.len() } else { MSS_DEFAULT as nat };
                &&& r == (in_window && !dup)
                &&& r ==> final(self).segs() == old(self).segs().update(
                    idx,
                    RecvSegment {
                        sn,
                        frg,
                        state: SegmentState::Pending,
                        data_len: len as u16,
                        data_offset: (idx * 1376) as u32,
                    },
                ) && final(self).bytes() == splice(old(self).bytes(), idx * 1376, data@.take(len as int))
                    && final(self).seg_count() == wrap32(old(self).seg_count() + 1)
                &&& !r ==> final(self).segs() == old(self).segs() && final(self).bytes() == old(self).bytes()
                    && final(self).seg_count() == old(self).seg_count()
            }),
    {
        let rcv_wnd_end = self.rcv_nxt.add(RCV_BUF_CAPACITY as u32);
        if !sn.is_in_range(self.rcv_nxt, rcv_wnd_end) {
            return false;
        }
        let idx = slot_index(sn, RCV_BUF_MASK);
        if self.segments[idx].state != SegmentState::Empty && self.segments[idx].sn == sn {
            return false;
        }
        let data_offset = idx * MSS_DEFAULT;
        let data_len = if data.len() < MSS_DEFAULT { data.len() } else { MSS_DEFAULT };
        let part = vstd::slice::slice_subrange(data, 0, data_len);
        copy_into(&mut self.data, data_offset, part);
        self.segments.set(
            idx,
            RecvSegment {
                sn,
                frg,
                state: SegmentState::Pending,
                data_len: data_len as u16,
                data_offset: data_offset as u32,
            },
        );
        self.count = self.count.wrapping_add(1);
        assert(part@ =~= data@.take(data_len as int));
        true
    }

    /// Data of a segment whose offset and length lie in the data area
    pub fn get_data(&self, seg: &RecvSegment) -> (r: &[u8])
        requires
            self.wf(),
            seg.data_offset + seg.data_len <= data_area(),
        ensures
            r@ == self.bytes().subrange(
                seg.data_offset as int,
                seg.data_offset + seg.data_len,
            ),
    {
        let offset = seg.data_offset as usize;
        vstd::slice::slice_subrange(self.data.as_slice(), offset, offset + seg.data_len as usize)
    }

    /// Get next expected sequence number
    pub fn rcv_nxt(&self) -> (r: Sequence)
        ensures
            r == self.nxt(),
    {
        self.rcv_nxt
    }

    /// Read the complete message at `rcv_nxt` into `buf`, if there is one and it fits.
    ///
    /// Returns its length (and removes it), or 0 with nothing changed.
    pub fn read(&mut self, buf: &mut [u8]) -> (r: usize)
        requires
            old(self).wf(),
        ensures
            recv_read(*old(self), *final(self), old(buf)@, final(buf)@, r),
    {
        let ghost segs = self.segments@;
        let ghost nxt = self.rcv_nxt.0;
        proof {
            lemma_crate_capacities();
            lemma_wrap_slot(nxt as int, 0, 256);
        }
        let idx = slot_index(self.rcv_nxt, RCV_BUF_MASK);
        if self.segments[idx].state != SegmentState::Pending || self.segments[idx].sn != self.rcv_nxt {
            return 0;
        }
        let first_frg = self.segments[idx].frg;
        let msg_segs = first_frg as usize + 1;
        let mut total_len: usize = 0;
        let mut i: usize = 0;
        while i < msg_segs
            invariant
                self.wf(),
                segs == self.segments@,
                nxt == self.rcv_nxt.0,
                first_frg == segs[rslot(nxt, 0)].frg,
                msg_segs == first_frg + 1,
                0 <= i <= msg_segs,
                total_len == msg_total(segs, nxt, i as nat),
                total_len <= i * 65535,
                forall|k: int|
                    0 <= k < i ==> {
                        let s = #[trigger] segs[rslot(nxt, k)];
                        &&& s.state == SegmentState::Pending
                        &&& s.sn.0 == wrap32(nxt + k)
                        &&& s.frg == first_frg - k
                    },
            decreases msg_segs - i,
        {
            let sn = self.rcv_nxt.add(i as u32);
            let sidx = slot_index(sn, RCV_BUF_MASK);
            proof {
                lemma_crate_capacities();
                lemma_wrap_slot(nxt + i, 0, 256);
                assert(sidx == rslot(nxt, i as int));
            }
            let seg = self.segments[sidx];
            if seg.state != SegmentState::Pending || seg.sn != sn {
                return 0;
            }
            let expected_frg = (msg_segs - 1 - i) as u8;
            if seg.frg != expected_frg {
                return 0;
            }
            total_len = total_len + seg.data_len as usize;
            i = i + 1;
        }
        proof {
            assert(msg_complete(segs, nxt));
        }
        if total_len > buf.len() {
            return 0;
        }
        proof {
            lemma_msg_bytes_len(segs, self.data@, nxt, msg_segs as nat);
        }
        let ghost b0 = buf@;
        let bl = buf.len();
        let mut offset: usize = 0;
        let mut i: usize = 0;
        while i < msg_segs
            invariant
                self.wf(),
                segs == self.segments@,
                nxt == self.rcv_nxt.0,
                msg_segs == segs[rslot(nxt, 0)].frg + 1,
                0 <= i <= msg_segs,
                total_len == msg_total(segs, nxt, msg_segs as nat),
                total_len <= b0.len(),
                buf@.len() == b0.len(),
                bl == b0.len(),
                offset == msg_total(segs, nxt, i as nat),
                offset <= total_len,
                buf@ == msg_bytes(segs, self.data@, nxt, i as nat) + b0.skip(offset as int),
            decreases msg_segs - i,
        {
            proof {
                lemma_msg_total_mono(segs, nxt, (i + 1) as nat, msg_segs as nat);
                lemma_msg_bytes_len(segs, self.data@, nxt, i as nat);
                lemma_msg_bytes_len(segs, self.data@, nxt, (i + 1) as nat);
            }
            let sn = self.rcv_nxt.add(i as u32);
            let sidx = slot_index(sn, RCV_BUF_MASK);
            proof {
                lemma_crate_capacities();
                lemma_wrap_slot(nxt + i, 0, 256);
                assert(sidx == rslot(nxt, i as int));
            }
            let seg = self.segments[sidx];
            let data = self.get_data(&seg);
            let ghost before = buf@;
            let mut j: usize = 0;
            while j < data.len()
                invariant
                    buf@.len() == before.len(),
                    bl == before.len(),
                    offset + data@.len() <= buf@.len(),
                    0 <= j <= data@.len(),
                    forall|k: int| 0 <= k < offset ==> #[trigger] buf@[k] == before[k],
                    forall|k: int| offset <= k < offset + j ==> #[trigger] buf@[k] == data@[k - offset],
                    forall|k: int| offset + j <= k < before.len() ==> #[trigger] buf@[k] == before[k],
                decreases data@.len() - j,
            {
                buf[offset + j] = data[j];
                j = j + 1;
            }
            offset = offset + data.len();
            i = i + 1;
            proof {
                assert(buf@ =~= msg_bytes(segs, self.data@, nxt, i as nat) + b0.skip(offset as int));
            }
        }
        let ghost mid_count = self.count;
        let mut i: usize = 0;
        while i < msg_segs
            invariant
                self.wf(),
                segs.len() == 256,
                self.segments@ == clear_recv_run(segs, nxt, i as nat),
                nxt == self.rcv_nxt.0,
                msg_segs <= 256,
                0 <= i <= msg_segs,
                self.data@ == old(self).data@,
                self.count == if mid_count >= i { (mid_count - i) as u32 } else { 0 },
            decreases msg_segs - i,
        {
            let sn = self.rcv_nxt.add(i as u32);
            let sidx = slot_index(sn, RCV_BUF_MASK);
            proof {
                lemma_crate_capacities();
                lemma_wrap_slot(nxt + i, 0, 256);
                lemma_slot_offset(sidx as int, nxt as int, i as int);
            }
            let seg = self.segments[sidx];
            self.segments.set(sidx, RecvSegment { state: SegmentState::Empty, ..seg });
            self.count = self.count.saturating_sub(1);
            i = i + 1;
            proof {
                assert forall|k: int| 0 <= k < 256 implies self.segments@[k] == clear_recv_run(segs, nxt, i as nat)[k] by {
                    lemma_slot_offset(k, nxt as int, i - 1);
                }
                assert(self.segments@ =~= clear_recv_run(segs, nxt, i as nat));
            }
        }
        self.rcv_nxt = self.rcv_nxt.add(msg_segs as u32);
        offset
    }
}

proof fn lemma_msg_total_mono(segs: Seq<RecvSegment>, nxt: u32, a: nat, b: nat)
    requires
        a <= b,
    ensures
        msg_total(segs, nxt, a) <= msg_total(segs, nxt, b),
    decreases b - a,
{
    if a < b {
        lemma_msg_total_mono(segs, nxt, a, (b - 1) as nat);
    }
}

// ----------------------------------------------------------------------------------------
// ACK list
// ----------------------------------------------------------------------------------------

impl Default for AckList {
    fn default() -> (r: Self)
        ensures
            r.wf(),
            r.view() == Seq::<AckEntry>::empty(),
    {
        AckList::new()
    }
}

/// ACK list: FIFO queue of acknowledgments waiting to be sent.
pub struct AckList {
    entries: Vec<AckEntry>,
    head: u32,
    tail: u32,
    count: u32,
}

impl AckList {
    /// Internal consistency of the list.
    pub closed spec fn wf(&self) -> bool {
        &&& self.entries@.len() == 128
        &&& self.count <= 128
        &&& self.tail == wrap32(self.head + self.count)
    }

    /// The queued entries, oldest first.
    pub closed spec fn view(&self) -> Seq<AckEntry> {
        ring_contents(self.entries@, self.head, self.count as nat, 128)
    }

    /// A consistent list holds at most 128 entries.
    pub proof fn lemma_len_bound(&self)
        requires
            self.wf(),
        ensures
            self.view().len() <= 128,
    {
    }

    /// Create new ACK list
    pub fn new() -> (r: Self)
        ensures
            r.wf(),
            r.view() == Seq::<AckEntry>::empty(),
    {
        let mut entries: Vec<AckEntry> = Vec::new();
        let mut i: usize = 0;
        while i < ACK_LIST_CAPACITY
            invariant
                0 <= i <= 128,
                entries@.len() == i,
            decreases 128 - i,
        {
            entries.push(AckEntry { sn: 0, ts: 0 });
            i = i + 1;
        }
        let r = AckList { entries, head: 0, tail: 0, count: 0 };
        assert(r.view() =~= Seq::<AckEntry>::empty());
        r
    }

    fn index(pos: u32) -> (r: usize)
        ensures
            r == (pos as int) % 128,
            r < 128,
    {
        proof {
            lemma_crate_capacities();
            lemma_ring_slot(pos, 128);
        }
        (pos as usize) & ACK_LIST_MASK
    }

    /// Push ACK entry to queue; false (and no change) when 128 entries are queued
    pub fn push(&mut self, sn: u32, ts: u32) -> (r: bool)
        requires
            old(self).wf(),
        ensures
            final(self).wf(),
            r == (old(self).view().len() < 128),
            r ==> final(self).view() == old(self).view().push(AckEntry { sn, ts }),
            !r ==> final(self).view() == old(self).view() && old(self).view().len() == 128,
            !r ==> *final(self) == *old(self),
            final(self).view().len() <= 128,
    {
        if self.count as usize >= ACK_LIST_CAPACITY {
            return false;
        }
        let ghost old_view = self.view();
        proof {
            lemma_crate_capacities();
        }
        let idx = Self::index(self.tail);
        proof {
            lemma_wrap_slot(self.head + self.count, 0, 128);
        }
        self.entries.set(idx, AckEntry { sn, ts });
        self.tail = self.tail.wrapping_add(1);
        self.count = self.count.wrapping_add(1);
        proof {
            lemma_wrap32_add(self.head + self.count - 1, 1);
            assert forall|i: int| 0 <= i < old_view.len() implies self.view()[i] == old_view[i] by {
                lemma_slots_distinct(self.head + i, self.count - 1 - i, 128);
            }
            assert(self.view() =~= old_view.push(AckEntry { sn, ts }));
        }
        true
    }

    /// Pop ACK entry from queue; None when empty
    pub fn pop(&mut self) -> (r: Option<AckEntry>)
        requires
            old(self).wf(),
        ensures
            final(self).wf(),
            old(self).view().len() == 0 ==> r is None && final(self).view() == old(self).view(),
            old(self).view().len() > 0 ==> r == Some(old(self).view()[0]) && final(self).view()
                == old(self).view().drop_first(),
    {
        if self.count == 0 {
            return None;
        }
        let ghost old_view = self.view();
        let ghost old_head = self.head;
        proof {
            lemma_crate_capacities();
        }
        let idx = Self::index(self.head);
        let entry = self.entries[idx];
        self.head = self.head.wrapping_add(1);
        self.count = self.count.wrapping_sub(1);
        proof {
            lemma_wrap32_add(old_head + 1, self.count as int);
            assert forall|i: int| 0 <= i < self.count implies self.view()[i] == old_view[i + 1] by {
                lemma_wrap_slot(old_head + 1, i, 128);
            }
            assert(self.view() =~= old_view.drop_first());
        }
        Some(entry)
    }

    /// Clear all entries
    pub fn clear(&mut self)
        requires
            old(self).wf(),
        ensures
            final(self).wf(),
            final(self).view() == Seq::<AckEntry>::empty(),
    {
        self.head = 0;
        self.tail = 0;
        self.count = 0;
        assert(self.view() =~= Seq::<AckEntry>::empty());
    }

    /// Get number of pending ACKs
    pub fn len(&self) -> (r: u32)
        requires
            self.wf(),
        ensures
            r == self.view().len(),
    {
        self.count
    }

    /// Check if list is empty
    pub fn is_empty(&self) -> (r: bool)
        requires
            self.wf(),
        ensures
            r == (self.view().len() == 0),
    {
        self.count == 0
    }
}

} // verus!
