use vstd::prelude::*;

verus! {

/// The value of a `CircularBuffer`: its slots, where the next accepted
/// value goes, and which slot the sender takes next. A slot holding 0 is
/// free.
pub struct RingView {
    pub slots: Seq<i32>,
    pub write_ptr: int,
    pub read_ptr: int,
}

/// Both positions lie inside the slots (or are 0 when there are none).
pub open spec fn ring_wf(v: RingView) -> bool {
    if v.slots.len() == 0 {
        v.write_ptr == 0 && v.read_ptr == 0
    } else {
        0 <= v.write_ptr < v.slots.len() && 0 <= v.read_ptr < v.slots.len()
    }
}

/// A fresh buffer of `capacity` free slots.
pub open spec fn empty_ring(capacity: nat) -> RingView {
    RingView { slots: Seq::new(capacity, |i: int| 0i32), write_ptr: 0, read_ptr: 0 }
}

/// Offering `data` to the buffer: when the slot at the write position is
/// free, `data` goes there, the write position moves on by one (wrapping
/// around) and the acknowledgement is 1; otherwise nothing changes and the
/// acknowledgement is 0.
pub open spec fn express_step(v: RingView, data: i32) -> (RingView, i32) {
    if v.slots[v.write_ptr] == 0 {
        (
            RingView {
                slots: v.slots.update(v.write_ptr, data),
                write_ptr: (v.write_ptr + 1) % (v.slots.len() as int),
                read_ptr: v.read_ptr,
            },
            1,
        )
    } else {
        (v, 0)
    }
}

/// One pass of the sender: the slot at the read position is freed (set to
/// 0) for the accepting service, and the read position moves on by one
/// (wrapping around). A buffer without slots is left as it is.
pub open spec fn sending_step(v: RingView) -> RingView {
    if v.slots.len() > 0 {
        RingView {
            slots: v.slots.update(v.read_ptr, 0),
            write_ptr: v.write_ptr,
            read_ptr: (v.read_ptr + 1) % (v.slots.len() as int),
        }
    } else {
        v
    }
}

/// The producer's buffer between the service that accepts values and the
/// sender that drains them.
pub struct CircularBuffer {
    buffer: Vec<i32>,
    write_ptr: usize,
    read_ptr: usize,
}

impl View for CircularBuffer {
    type V = RingView;

    closed spec fn view(&self) -> RingView {
        RingView { slots: self.buffer@, write_ptr: self.write_ptr as int, read_ptr: self.read_ptr as int }
    }
}

impl CircularBuffer {
    /// The buffer's internal invariant.
    pub open spec fn wf(&self) -> bool {
        ring_wf(self@)
    }

    /// A buffer of `capacity` free slots, both positions at the start.
    pub fn new(capacity: usize) -> (ring: Self)
        ensures
            ring.wf(),
            ring@ == empty_ring(capacity as nat),
    {
        let ring = CircularBuffer { buffer: vec![0; capacity], write_ptr: 0, read_ptr: 0 };
        assert(ring@.slots =~= empty_ring(capacity as nat).slots);
        ring
    }

    /// The number of slots.
    pub fn capacity(&self) -> (n: usize)
        ensures
            n == self@.slots.len(),
    {
        self.buffer.len()
    }

    /// Offers `data` to the buffer and returns the acknowledgement: 1 when
    /// it was stored, 0 when the slot at the write position is taken.
    pub fn express_to_producer(&mut self, data: i32) -> (ack: i32)
        requires
            old(self).wf(),
            old(self)@.slots.len() > 0,
        ensures
            final(self).wf(),
            (final(self)@, ack) == express_step(old(self)@, data),
            old(self)@.slots[old(self)@.write_ptr] == 0 ==> {
                &&& ack == 1
                &&& final(self)@.slots == old(self)@.slots.update(old(self)@.write_ptr, data)
                &&& final(self)@.write_ptr == (old(self)@.write_ptr + 1) % (old(self)@.slots.len() as int)
                &&& final(self)@.read_ptr == old(self)@.read_ptr
            },
            old(self)@.slots[old(self)@.write_ptr] != 0 ==> ack == 0 && final(self)@ == old(self)@,
    {
        if self.buffer[self.write_ptr] == 0 {
            let w = self.write_ptr;
            let len = self.buffer.len();
            self.buffer.set(w, data);
            self.write_ptr = (w + 1) % len;
            1
        } else {
            0
        }
    }

    /// One pass of the sender over the buffer.
    pub fn sending(&mut self)
        requires
            old(self).wf(),
        ensures
            final(self).wf(),
            final(self)@ == sending_step(old(self)@),
            old(self)@.slots.len() > 0 ==> {
                &&& final(self)@.slots == old(self)@.slots.update(old(self)@.read_ptr, 0)
                &&& final(self)@.read_ptr == (old(self)@.read_ptr + 1) % (old(self)@.slots.len() as int)
                &&& final(self)@.write_ptr == old(self)@.write_ptr
            },
            old(self)@.slots.len() == 0 ==> final(self)@ == old(self)@,
    {
        if self.buffer.len() > 0 {
            let r = self.read_ptr;
            let len = self.buffer.len();
            self.buffer.set(r, 0);
            self.read_ptr = (r + 1) % len;
        }
    }
}

/// Offering a value, whatever the read position: when the slot at the
/// write position is free the value goes exactly there, no other slot
/// changes, the acknowledgement is 1 and the write position moves on by
/// one, wrapping to the start after the last slot; when it is taken the
/// value is refused with 0 and nothing changes.
pub proof fn lemma_express_moves_write_position(v: RingView, data: i32)
    requires
        ring_wf(v),
        v.slots.len() > 0,
    ensures
        v.slots[v.write_ptr] == 0 ==> {
            let (after, ack) = express_step(v, data);
            &&& ack == 1
            &&& after.slots.len() == v.slots.len()
            &&& after.slots[v.write_ptr] == data
            &&& forall|i: int| 0 <= i < v.slots.len() && i != v.write_ptr ==> after.slots[i] == v.slots[i]
            &&& v.write_ptr + 1 < v.slots.len() ==> after.write_ptr == v.write_ptr + 1
            &&& v.write_ptr + 1 == v.slots.len() ==> after.write_ptr == 0
            &&& after.read_ptr == v.read_ptr
        },
        v.slots[v.write_ptr] != 0 ==> express_step(v, data).1 == 0 && express_step(v, data).0 == v,
{
    if v.write_ptr + 1 == v.slots.len() {
        vstd::arithmetic::div_mod::lemma_mod_self_0(v.slots.len() as int);
    } else {
        vstd::arithmetic::div_mod::lemma_small_mod((v.write_ptr + 1) as nat, v.slots.len());
    }
}

/// One pass of the sender, whatever the write position: the slot at the
/// read position becomes free (0), no other slot changes, the write
/// position stays, and the read position moves on by one, wrapping to the
/// start after the last slot.
pub proof fn lemma_sending_frees_read_slot(v: RingView)
    requires
        ring_wf(v),
        v.slots.len() > 0,
    ensures
        ({
            let after = sending_step(v);
            &&& after.slots.len() == v.slots.len()
            &&& after.slots[v.read_ptr] == 0
            &&& forall|i: int| 0 <= i < v.slots.len() && i != v.read_ptr ==> after.slots[i] == v.slots[i]
            &&& after.write_ptr == v.write_ptr
            &&& v.read_ptr + 1 < v.slots.len() ==> after.read_ptr == v.read_ptr + 1
            &&& v.read_ptr + 1 == v.slots.len() ==> after.read_ptr == 0
        }),
{
    if v.read_ptr + 1 == v.slots.len() {
        vstd::arithmetic::div_mod::lemma_mod_self_0(v.slots.len() as int);
    } else {
        vstd::arithmetic::div_mod::lemma_small_mod((v.read_ptr + 1) as nat, v.slots.len());
    }
}

/// Both steps keep the positions inside the slots.
pub proof fn lemma_steps_keep_positions(v: RingView, data: i32)
    requires
        ring_wf(v),
    ensures
        v.slots.len() > 0 ==> ring_wf(express_step(v, data).0),
        ring_wf(sending_step(v)),
{
}

/// Offering values to a fresh buffer of `n` slots: the first `n` non-zero
/// values are all stored, in order, and fill it; the write position is
/// back at the start.
pub proof fn lemma_fresh_buffer_accepts_capacity(n: nat, values: Seq<i32>)
    requires
        n > 0,
        values.len() == n,
        forall|i: int| 0 <= i < n ==> values[i] != 0,
    ensures
        ({
            let end = offer_all(empty_ring(n), values);
            &&& end.1 == Seq::new(n, |i: int| 1i32)
            &&& end.0.slots == values
            &&& end.0.write_ptr == 0
        }),
{
    lemma_offer_all_fresh(n, values, n);
    assert(values.take(n as int) =~= values);
    let end = offer_all(empty_ring(n), values);
    assert(end.0.slots =~= values);
    assert(end.1 =~= Seq::new(n, |i: int| 1i32));
}

/// Once a buffer is full, every further value is refused and changes
/// nothing.
pub proof fn lemma_full_buffer_refuses(v: RingView, data: i32)
    requires
        ring_wf(v),
        v.slots.len() > 0,
        forall|i: int| 0 <= i < v.slots.len() ==> v.slots[i] != 0,
    ensures
        express_step(v, data) == (v, 0i32),
{
}

/// The sender frees the slot it passes, so a value offered at that slot
/// right after is accepted and stored there.
pub proof fn lemma_sent_slot_accepts(v: RingView, data: i32)
    requires
        ring_wf(v),
        v.slots.len() > 0,
        v.write_ptr == v.read_ptr,
    ensures
        express_step(sending_step(v), data).1 == 1,
        express_step(sending_step(v), data).0.slots == v.slots.update(v.read_ptr, data),
{
    assert(v.slots.update(v.read_ptr, 0).update(v.read_ptr, data) =~= v.slots.update(v.read_ptr, data));
}

/// Offering `values` one after another: the final buffer and the
/// acknowledgements in order.
pub open spec fn offer_all(v: RingView, values: Seq<i32>) -> (RingView, Seq<i32>)
    decreases values.len(),
{
    if values.len() == 0 {
        (v, Seq::empty())
    } else {
        let before = offer_all(v, values.drop_last());
        let after = express_step(before.0, values.last());
        (after.0, before.1.push(after.1))
    }
}

proof fn lemma_offer_all_fresh(n: nat, values: Seq<i32>, k: nat)
    requires
        n > 0,
        k <= values.len() == n,
        forall|i: int| 0 <= i < n ==> values[i] != 0,
    ensures
        ({
            let end = offer_all(empty_ring(n), values.take(k as int));
            &&& end.0.slots.len() == n
            &&& forall|i: int| 0 <= i < k ==> end.0.slots[i] == values[i]
            &&& forall|i: int| k <= i < n ==> end.0.slots[i] == 0
            &&& end.0.write_ptr == (k as int) % (n as int)
            &&& end.0.read_ptr == 0
            &&& end.1.len() == k
            &&& forall|i: int| 0 <= i < k ==> end.1[i] == 1
        }),
    decreases k,
{
    if k > 0 {
        lemma_offer_all_fresh(n, values, (k - 1) as nat);
        assert(values.take(k as int).drop_last() =~= values.take(k - 1));
        assert(values.take(k as int).last() == values[k - 1]);
        let before = offer_all(empty_ring(n), values.take(k - 1));
        assert((k - 1) as int % (n as int) == k - 1) by {
            vstd::arithmetic::div_mod::lemma_small_mod((k - 1) as nat, n);
        }
        assert(before.0.slots[k - 1] == 0);
        if k < n {
            vstd::arithmetic::div_mod::lemma_small_mod(k, n);
        } else {
            vstd::arithmetic::div_mod::lemma_mod_self_0(n as int);
        }
    }
}

/// How long the producer waits before its next attempt to reach the
/// coordinator, after waiting `backoff` seconds: it doubles while under a
/// minute, then stays.
pub open spec fn backoff_after(backoff: int) -> int {
    if backoff < 60 {
        2 * backoff
    } else {
        backoff
    }
}

/// The next wait, in seconds, after a failed attempt that followed a wait
/// of `backoff` seconds.
pub fn next_backoff(backoff: u64) -> (next: u64)
    ensures
        next == backoff_after(backoff as int),
{
    if backoff < 60 {
        backoff * 2
    } else {
        backoff
    }
}

/// The wait after `attempts` failed attempts, when the first wait was
/// `backoff` seconds.
pub open spec fn backoff_after_attempts(backoff: int, attempts: nat) -> int
    decreases attempts,
{
    if attempts == 0 {
        backoff
    } else {
        backoff_after(backoff_after_attempts(backoff, (attempts - 1) as nat))
    }
}

/// Waits never shrink and never pass the larger of the current wait and
/// 118 seconds; a wait of a minute or more stays as it is.
pub proof fn lemma_backoff_bounded(backoff: int)
    requires
        0 <= backoff,
    ensures
        backoff <= backoff_after(backoff),
        backoff_after(backoff) <= (if backoff < 118 { 118 } else { backoff }),
        backoff >= 60 ==> backoff_after(backoff) == backoff,
{
}

/// Starting from one second, as the producer does, the waits double up to
/// 64 seconds, which they reach after six failed attempts and keep from
/// then on.
pub proof fn lemma_backoff_from_one(attempts: nat)
    ensures
        attempts >= 6 ==> backoff_after_attempts(1, attempts) == 64,
        attempts < 6 ==> backoff_after_attempts(1, attempts) == vstd::arithmetic::power2::pow2(attempts),
    decreases attempts,
{
    vstd::arithmetic::power2::lemma2_to64();
    if attempts > 0 {
        lemma_backoff_from_one((attempts - 1) as nat);
    }
}

/// The partition (and broker connection) that event number `event_index`
/// goes to when events are spread over `partitions` in turn.
pub fn partition_for(event_index: usize, partitions: usize) -> (p: usize)
    requires
        partitions > 0,
    ensures
        p == event_index % partitions,
        p < partitions,
{
    event_index % partitions
}

/// Events go to the partitions in turn: each event goes to the partition
/// after the one of the event before, wrapping around.
pub proof fn lemma_partitions_in_turn(event_index: int, partitions: int)
    requires
        event_index >= 0,
        partitions > 0,
    ensures
        (event_index + 1) % partitions == ((event_index % partitions) + 1) % partitions,
{
    vstd::arithmetic::div_mod::lemma_add_mod_noop(event_index, 1, partitions);
    if partitions == 1 {
        vstd::arithmetic::div_mod::lemma_mod_self_0(1);
    } else {
        vstd::arithmetic::div_mod::lemma_small_mod(1, partitions as nat);
    }
}

} // verus!
