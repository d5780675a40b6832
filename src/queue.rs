//! The ring of buffer slots, its admission protocol (`push`) and its consumer
//! sessions (`get_buffers`, `Buffers::advance`).
use crate::stream::drain;
use crate::handle::{as_slice, byte_len, bytes_view, drop_front, empty_bytes, share};
use bytes::Bytes;
use vstd::prelude::*;

verus! {

/// The largest number of slots a queue can have: its counters are `u16`.
pub const MAX_CAPACITY: usize = 65535;

/// `(head + off) mod cap`: the slot that lies `off` places after `head`.
pub open spec fn ring(head: int, off: int, cap: int) -> int {
    (head + off) % cap
}

/// For a start and an offset below `cap`, the ring position without `%`.
proof fn lemma_ring(head: int, off: int, cap: int)
    requires
        0 <= head < cap,
        0 <= off < cap,
    ensures
        ring(head, off, cap) == if head + off < cap { head + off } else { head + off - cap },
{
    if head + off < cap {
        vstd::arithmetic::div_mod::lemma_small_mod((head + off) as nat, cap as nat);
    } else {
        vstd::arithmetic::div_mod::lemma_small_mod((head + off - cap) as nat, cap as nat);
        vstd::arithmetic::div_mod::lemma_mod_sub_multiples_vanish(head + off, cap);
    }
}

/// Moving `k` further along the ring from a reduced position.
proof fn lemma_ring_add(head: int, off: int, k: int, cap: int)
    requires
        0 < cap,
    ensures
        ring(head, off + k, cap) == (ring(head, off, cap) + k) % cap,
{
    vstd::arithmetic::div_mod::lemma_add_mod_noop_right(k, head + off, cap);
    assert(head + (off + k) == k + (head + off));
}

/// The contents of each buffer of a sequence, in order.
pub open spec fn contents_of(s: Seq<Bytes>) -> Seq<Seq<u8>> {
    Seq::new(s.len(), |i: int| bytes_view(s[i]))
}

/// A ring of `capacity` slots that holds the buffers pushed and not yet
/// drained, oldest at `head`.
pub struct MpScBytesQueue {
    bytes_queue: Vec<Bytes>,
    /// The slot to read from.
    head: u16,
    /// The slot the next reservation starts at.
    tail_pending: u16,
    /// The slot after the last published buffer.
    tail_done: u16,
    /// Number of slots free for reservation.
    free: u16,
    /// Number of slots that hold published, undrained buffers.
    len: u16,
}

impl MpScBytesQueue {
    /// The number of slots.
    pub closed spec fn cap(&self) -> int {
        self.bytes_queue@.len() as int
    }

    pub closed spec fn head_spec(&self) -> int {
        self.head as int
    }

    pub closed spec fn tail_done_spec(&self) -> int {
        self.tail_done as int
    }

    pub closed spec fn tail_pending_spec(&self) -> int {
        self.tail_pending as int
    }

    pub closed spec fn free_spec(&self) -> int {
        self.free as int
    }

    pub closed spec fn len_spec(&self) -> int {
        self.len as int
    }

    /// The contents of the slot `off` places after `head`.
    pub closed spec fn slot_at(&self, off: int) -> Seq<u8> {
        bytes_view(self.bytes_queue@[ring(self.head as int, off, self.cap())])
    }

    /// The ring's invariant: the counters agree, the published run starts at
    /// `head` and ends at `tail_done`, no reservation is half done, and every
    /// slot outside the published run is empty.
    pub closed spec fn wf(&self) -> bool {
        &&& 1 <= self.cap() <= MAX_CAPACITY
        &&& self.head < self.cap()
        &&& self.tail_done < self.cap()
        &&& self.tail_pending == self.tail_done
        &&& self.free + self.len == self.cap()
        &&& ring(self.head as int, self.len as int, self.cap()) == self.tail_done
        &&& forall|off: int| self.len <= off < self.cap() ==> #[trigger] self.slot_at(off) == Seq::<u8>::empty()
    }

    /// The published buffers' contents, oldest first.
    pub closed spec fn view(&self) -> Seq<Seq<u8>> {
        Seq::new(self.len as nat, |i: int| self.slot_at(i))
    }

    /// An empty queue of `cap` slots.
    pub fn new(cap: u16) -> (r: Self)
        requires
            cap >= 1,
        ensures
            r.wf(),
            r.cap() == cap,
            r@ == Seq::<Seq<u8>>::empty(),
            r.free_spec() == cap,
            r.len_spec() == 0,
            r.head_spec() == 0,
            r.tail_pending_spec() == 0,
            r.tail_done_spec() == 0,
    {
        let mut bytes_queue: Vec<Bytes> = Vec::new();
        let mut i: u16 = 0;
        while i < cap
            invariant
                i <= cap,
                bytes_queue@.len() == i,
                forall|j: int| 0 <= j < i ==> bytes_view(#[trigger] bytes_queue@[j]) == Seq::<u8>::empty(),
            decreases cap - i,
        {
            bytes_queue.push(empty_bytes());
            i = i + 1;
        }
        let r = MpScBytesQueue { bytes_queue, head: 0, tail_pending: 0, tail_done: 0, free: cap, len: 0 };
        proof {
            vstd::arithmetic::div_mod::lemma_small_mod(0, cap as nat);
            assert forall|off: int| r.len <= off < r.cap() implies #[trigger] r.slot_at(off) == Seq::<u8>::empty() by {
                lemma_ring(0, off, r.cap());
            }
            assert(r@ =~= Seq::<Seq<u8>>::empty());
        }
        r
    }

    /// The number of slots, fixed at construction.
    pub fn capacity(&self) -> (r: usize)
        ensures
            r == self.cap(),
    {
        self.bytes_queue.len()
    }

    /// Appends the buffers of `slice`, in order, as one batch: either all of
    /// them are taken or none is. A batch longer than the free slots (so also
    /// one longer than the capacity) is handed back untouched in `Err`.
    pub fn push<'b>(&mut self, slice: &'b [Bytes]) -> (r: Result<(), &'b [Bytes]>)
        requires
            old(self).wf(),
        ensures
            final(self).wf(),
            final(self).cap() == old(self).cap(),
            r is Ok <==> slice@.len() <= old(self).free_spec(),
            r is Ok ==> final(self)@ == old(self)@ + contents_of(slice@),
            r is Ok ==> final(self).free_spec() == old(self).free_spec() - slice@.len(),
            r is Ok ==> final(self).len_spec() == old(self).len_spec() + slice@.len(),
            r is Ok ==> final(self).head_spec() == old(self).head_spec(),
            r is Ok ==> final(self).tail_done_spec() == ring(old(self).tail_done_spec(), slice@.len() as int, old(self).cap()),
            r is Ok ==> final(self).tail_pending_spec() == final(self).tail_done_spec(),
            r matches Err(s) ==> s@ == slice@,
            r is Err ==> *final(self) == *old(self),
    {
        let queue_cap = self.bytes_queue.len();
        if slice.len() > queue_cap {
            return Err(slice);
        }
        let slice_len = slice.len() as u16;

        // Reserve the slots.
        if self.free < slice_len {
            return Err(slice);
        }
        self.free = self.free - slice_len;

        // Claim the run that starts at `tail_pending`.
        let tail_pending = self.tail_pending;
        let new_tail_pending = ((tail_pending as usize + slice_len as usize) % queue_cap) as u16;
        self.tail_pending = new_tail_pending;

        // Write the buffers into the claimed run.
        let ghost pre = *old(self);
        let ghost h = self.head as int;
        let ghost l = self.len as int;
        let ghost c = queue_cap as int;
        let mut i: usize = tail_pending as usize;
        let mut k: usize = 0;
        while k < slice.len()
            invariant
                pre.wf(),
                c == pre.cap(),
                h == pre.head_spec(),
                l == pre.len_spec(),
                slice@.len() <= pre.free_spec(),
                self.bytes_queue@.len() == c,
                self.head == pre.head,
                self.len == pre.len,
                self.free == pre.free - slice_len,
                self.tail_done == pre.tail_done,
                self.tail_pending == new_tail_pending,
                tail_pending == pre.tail_done,
                queue_cap == c,
                k <= slice@.len(),
                i == ring(h, l + k, c),
                forall|off: int| 0 <= off < c ==> #[trigger] self.slot_at(off) == if l <= off < l + k {
                    bytes_view(slice@[off - l])
                } else {
                    pre.slot_at(off)
                },
            decreases slice@.len() - k,
        {
            let ghost before = *self;
            proof {
                lemma_ring(h, l + k, c);
            }
            self.bytes_queue.set(i, share(&slice[k]));
            proof {
                assert forall|off: int| 0 <= off < c implies #[trigger] self.slot_at(off) == if l <= off < l + k + 1 {
                    bytes_view(slice@[off - l])
                } else {
                    pre.slot_at(off)
                } by {
                    lemma_ring(h, off, c);
                    // What the slot held before this write.
                    assert(before.slot_at(off) == if l <= off < l + k {
                        bytes_view(slice@[off - l])
                    } else {
                        pre.slot_at(off)
                    });
                }
                lemma_ring_add(h, l + k, 1, c);
            }
            i = (i + 1) % queue_cap;
            k = k + 1;
        }

        // Publish the batch.
        let ghost written = *self;
        self.tail_done = new_tail_pending;
        self.len = self.len + slice_len;
        proof {
            lemma_ring_add(h, l, slice_len as int, c);
            assert(k == slice@.len());
            assert(l + pre.free_spec() == c);
            assert forall|j: int| 0 <= j < self@.len() implies #[trigger] self@[j] == (pre@ + contents_of(slice@))[j] by {
                assert(self@[j] == self.slot_at(j));
                assert(written.slot_at(j) == self.slot_at(j));
                if j < l {
                    assert(pre@[j] == pre.slot_at(j));
                }
            }
            assert(self@ =~= pre@ + contents_of(slice@));
            assert forall|off: int| self.len <= off < self.cap() implies #[trigger] self.slot_at(off) == Seq::<u8>::empty() by {
                assert(pre.len <= off < pre.cap());
                assert(written.slot_at(off) == self.slot_at(off));
                assert(pre.slot_at(off) == Seq::<u8>::empty());
            }
        }
        Ok(())
    }
    /// The length of the oldest published buffer.
    fn front_len(&self) -> (r: usize)
        requires
            self.wf(),
            self@.len() > 0,
        ensures
            r == self@[0].len(),
    {
        proof {
            lemma_ring(self.head as int, 0, self.cap());
        }
        byte_len(&self.bytes_queue[self.head as usize])
    }

    /// Retires the oldest published buffer: its slot is emptied and returned
    /// to the free slots, and `head` moves one slot on.
    fn retire_front(&mut self)
        requires
            old(self).wf(),
            old(self)@.len() > 0,
        ensures
            final(self).wf(),
            final(self).cap() == old(self).cap(),
            final(self)@ == old(self)@.drop_first(),
            final(self).len_spec() == old(self).len_spec() - 1,
            final(self).head_spec() == ring(old(self).head_spec(), 1, old(self).cap()),
            final(self).tail_done_spec() == old(self).tail_done_spec(),
    {
        let ghost pre = *self;
        let ghost h = self.head as int;
        let ghost c = self.cap();
        let queue_cap = self.bytes_queue.len();
        proof {
            lemma_ring(h, 0, c);
        }
        self.bytes_queue.set(self.head as usize, empty_bytes());
        self.len = self.len - 1;
        self.head = ((self.head as usize + 1) % queue_cap) as u16;
        self.free = self.free + 1;
        proof {
            let h1 = self.head as int;
            assert forall|off: int| 0 <= off < c implies #[trigger] self.slot_at(off) == if off + 1 < c {
                pre.slot_at(off + 1)
            } else {
                Seq::<u8>::empty()
            } by {
                vstd::arithmetic::div_mod::lemma_add_mod_noop_right(off, h + 1, c);
                assert(ring(h1, off, c) == ring(h, off + 1, c));
                if off + 1 == c {
                    vstd::arithmetic::div_mod::lemma_mod_add_multiples_vanish(h, c);
                    vstd::arithmetic::div_mod::lemma_small_mod(h as nat, c as nat);
                } else {
                    lemma_ring(h, off + 1, c);
                }
            }
            lemma_ring_add(h, 1, pre.len - 1, c);
            assert(self@ =~= pre@.drop_first());
            assert forall|off: int| self.len <= off < self.cap() implies #[trigger] self.slot_at(off) == Seq::<u8>::empty() by {
                if off + 1 < c {
                    assert(pre.slot_at(off + 1) == Seq::<u8>::empty());
                }
            }
        }
    }

    /// Drops the first `n` bytes of the oldest published buffer, in place.
    fn trim_front(&mut self, n: usize)
        requires
            old(self).wf(),
            old(self)@.len() > 0,
            n <= old(self)@[0].len(),
        ensures
            final(self).wf(),
            final(self).cap() == old(self).cap(),
            final(self)@ == old(self)@.update(0, old(self)@[0].subrange(n as int, old(self)@[0].len() as int)),
            final(self).head_spec() == old(self).head_spec(),
            final(self).tail_done_spec() == old(self).tail_done_spec(),
    {
        let ghost pre = *self;
        let ghost h = self.head as int;
        let ghost c = self.cap();
        proof {
            lemma_ring(h, 0, c);
        }
        let mut front = share(&self.bytes_queue[self.head as usize]);
        drop_front(&mut front, n);
        self.bytes_queue.set(self.head as usize, front);
        proof {
            assert forall|off: int| 0 <= off < c implies #[trigger] self.slot_at(off) == if off == 0 {
                pre@[0].subrange(n as int, pre@[0].len() as int)
            } else {
                pre.slot_at(off)
            } by {
                lemma_ring(h, off, c);
            }
            assert(self@ =~= pre@.update(0, pre@[0].subrange(n as int, pre@[0].len() as int)));
        }
    }
    /// Opens a session over every published buffer, or returns `None` when
    /// there is nothing to write. The session holds the queue exclusively
    /// until it is dropped.
    pub fn get_buffers(&mut self) -> (r: Option<Buffers<'_>>)
        requires
            old(self).wf(),
        ensures
            r is None <==> old(self)@.len() == 0,
            r is None ==> *final(self) == *old(self),
            r matches Some(b) ==> b.wf() && b@ == old(self)@ && b.queue_now() == *old(self),
            r matches Some(b) ==> *final(b.queue_ref()) == *final(self),
    {
        if self.len == 0 {
            return None;
        }
        let head = self.head;
        let tail = self.tail_done;
        let len = self.len;
        Some(Buffers { queue: self, io_slice_start: 0, io_slice_end: len, head, tail })
    }
}

/// A consumer session: the published buffers from `head` to `tail`, handed
/// out as write descriptors and retired by `advance` as they are written.
pub struct Buffers<'a> {
    queue: &'a mut MpScBytesQueue,
    io_slice_start: u16,
    io_slice_end: u16,
    head: u16,
    tail: u16,
}

impl<'a> Buffers<'a> {
    /// The queue as the session sees it now.
    pub closed spec fn queue_now(&self) -> MpScBytesQueue {
        *self.queue
    }

    /// The session's hold on the queue.
    pub closed spec fn queue_ref(&self) -> &'a mut MpScBytesQueue {
        self.queue
    }

    /// The session's bounds agree with the queue it holds.
    pub closed spec fn wf(&self) -> bool {
        &&& self.queue.wf()
        &&& self.head == self.queue.head
        &&& self.tail == self.queue.tail_done
        &&& self.io_slice_start <= self.io_slice_end
        &&& self.io_slice_end - self.io_slice_start == self.queue.len
    }

    /// The contents of the descriptors not yet written, in order.
    pub closed spec fn view(&self) -> Seq<Seq<u8>> {
        self.queue@
    }

    /// The descriptors not yet written are the buffers the queue holds.
    pub proof fn lemma_view(&self)
        ensures
            self@ == self.queue_now()@,
    {
    }

    /// Once a session is done with, the queue is left as the session last
    /// saw it.
    pub proof fn lemma_done(&self)
        requires
            has_resolved(*self),
        ensures
            *final(self.queue_ref()) == self.queue_now(),
    {
    }

    /// One descriptor for each buffer not yet written, in order; each one
    /// refers to the buffer's bytes without copying them.
    pub fn get_io_slices(&self) -> (r: Vec<&[u8]>)
        requires
            self.wf(),
        ensures
            r@.len() == self@.len(),
            forall|i: int| 0 <= i < r@.len() ==> (#[trigger] r@[i])@ == self@[i],
    {
        let queue: &MpScBytesQueue = &*self.queue;
        let queue_cap = queue.bytes_queue.len();
        let count = self.io_slice_end - self.io_slice_start;
        let mut slices: Vec<&[u8]> = Vec::new();
        proof {
            lemma_ring(queue.head as int, 0, queue.cap());
        }
        let mut j: usize = self.head as usize;
        let mut i: u16 = 0;
        while i < count
            invariant
                queue.wf(),
                *queue == *self.queue,
                self.wf(),
                count == queue.len,
                queue_cap == queue.cap(),
                i <= count,
                j == ring(queue.head as int, i as int, queue.cap()),
                slices@.len() == i,
                forall|k: int| 0 <= k < i ==> (#[trigger] slices@[k])@ == queue@[k],
            decreases count - i,
        {
            proof {
                lemma_ring(queue.head as int, i as int, queue.cap());
                lemma_ring_add(queue.head as int, i as int, 1, queue.cap());
            }
            slices.push(as_slice(&queue.bytes_queue[j]));
            j = (j + 1) % queue_cap;
            i = i + 1;
        }
        slices
    }

    /// Reports that the first `written` bytes of the descriptors were
    /// written: each buffer, front first, that fits in what remains of
    /// `written` is retired, its slot emptied and freed and `head` moved past
    /// it; the first one that does not fit keeps only its unwritten bytes.
    /// Returns whether descriptors are left to write.
    pub fn advance(&mut self, written: usize) -> (more: bool)
        requires
            old(self).wf(),
            written > 0,
        ensures
            final(self).wf(),
            final(self).queue_now().wf(),
            final(self)@ == drain(old(self)@, written as nat),
            more == (final(self)@.len() > 0),
            *final(final(self).queue_ref()) == *final(old(self).queue_ref()),
            final(self).queue_now().cap() == old(self).queue_now().cap(),
            final(self).queue_now().tail_done_spec() == old(self).queue_now().tail_done_spec(),
            ({
                let k = old(self)@.len() - final(self)@.len();
                &&& final(self).queue_now().len_spec() == old(self).queue_now().len_spec() - k
                &&& final(self).queue_now().free_spec() == old(self).queue_now().free_spec() + k
                &&& final(self).queue_now().head_spec() == ring(
                    old(self).queue_now().head_spec(),
                    k,
                    old(self).queue_now().cap(),
                )
            }),
            old(self)@.len() == 0 ==> *final(self) == *old(self),
    {
        let mut n = written;
        let ghost h0 = self.queue.head as int;
        let ghost c = self.queue.cap();
        proof {
            vstd::arithmetic::div_mod::lemma_small_mod(h0 as nat, c as nat);
        }
        if self.io_slice_start == self.io_slice_end {
            return false;
        }
        loop
            invariant
                self.wf(),
                drain(self@, n as nat) == drain(old(self)@, written as nat),
                *final(self.queue_ref()) == *final(old(self).queue_ref()),
                self.queue_now().cap() == c,
                h0 == old(self).queue_now().head_spec(),
                c == old(self).queue_now().cap(),
                self.queue_now().tail_done_spec() == old(self).queue_now().tail_done_spec(),
                self@.len() <= old(self)@.len(),
                self.queue_now().len_spec() == old(self).queue_now().len_spec() - (old(self)@.len() - self@.len()),
                self.queue_now().free_spec() == old(self).queue_now().free_spec() + (old(self)@.len() - self@.len()),
                self.queue_now().head_spec() == ring(h0, old(self)@.len() - self@.len(), c),
            ensures
                self@.len() == 0 || n < self@[0].len(),
            decreases self@.len(),
        {
            if self.io_slice_start == self.io_slice_end {
                break;
            }
            let first_len = self.queue.front_len();
            if first_len > n {
                break;
            }
            n = n - first_len;
            self.io_slice_start = self.io_slice_start + 1;
            let ghost k = old(self)@.len() - self@.len();
            self.queue.retire_front();
            self.head = self.queue.head;
            proof {
                lemma_ring_add(h0, k, 1, c);
            }
        }
        if self.io_slice_start == self.io_slice_end {
            return false;
        }
        self.queue.trim_front(n);
        true
    }

    /// A well-formed session holds a well-formed queue.
    pub proof fn lemma_wf(&self)
        requires
            self.wf(),
        ensures
            self.queue_now().wf(),
            self.queue_now()@ == self@,
    {
    }
}


/// The counters agree in every state a caller can see: the free and the
/// published slots make up the capacity, the published run ends at
/// `tail_done`, and no reservation is left unpublished.
pub proof fn lemma_counters(q: MpScBytesQueue)
    requires
        q.wf(),
    ensures
        q.free_spec() + q.len_spec() == q.cap(),
        (q.head_spec() + q.len_spec()) % q.cap() == q.tail_done_spec() % q.cap(),
        q.tail_pending_spec() == q.tail_done_spec(),
        q@.len() == q.len_spec(),
{
    vstd::arithmetic::div_mod::lemma_small_mod(q.tail_done as nat, q.cap() as nat);
}

/// A batch that `push` accepted is seen whole by the next session: its
/// descriptors are those queued before, then every buffer of the batch in
/// order, with nothing between them and nothing left out.
pub proof fn lemma_batch_atomicity(
    before: MpScBytesQueue,
    after: MpScBytesQueue,
    batch: Seq<Bytes>,
    session: Buffers,
)
    requires
        before.wf(),
        after@ == before@ + contents_of(batch),
        session.wf(),
        session.queue_now() == after,
    ensures
        session@.len() == before@.len() + batch.len(),
        session@.subrange(0, before@.len() as int) == before@,
        session@.subrange(before@.len() as int, session@.len() as int) == contents_of(batch),
{
    assert(session@ == after@);
    assert(session@.subrange(0, before@.len() as int) =~= before@);
    assert(session@.subrange(before@.len() as int, session@.len() as int) =~= contents_of(batch));
}

} // verus!
