use std::collections::VecDeque;
use vstd::prelude::*;
use vstd::arithmetic::div_mod::lemma_add_mod_noop_right;
use super::File;

verus! {

/// Total number of bytes held by a mail ring buffer.
pub const RING_BUFFER_SIZE: usize = 4096;

/// Number of datagram slots in the ring.
pub const MAIL_SLOTS: usize = 16;

/// Size of one datagram slot; longer datagrams are cut to this length.
pub const MAIL_SLOT_SIZE: usize = 256;

/// Abstract state of a mail ring buffer: the raw bytes, the slot indices of
/// the oldest datagram (`head`) and of the next free slot (`tail`), and the
/// lengths of the stored datagrams, oldest first.
#[verifier::ext_equal]
pub struct MailRingView {
    pub arr: Seq<u8>,
    pub head: int,
    pub tail: int,
    pub lens: Seq<usize>,
}

/// The number of bytes of a datagram of `len` bytes that fit in a slot.
pub open spec fn clipped_len(len: int) -> int {
    if len < MAIL_SLOT_SIZE {
        len
    } else {
        MAIL_SLOT_SIZE as int
    }
}

/// The slot that follows slot `i` around the ring.
pub open spec fn next_slot(i: int) -> int {
    (i + 1) % (MAIL_SLOTS as int)
}

/// The state of a freshly made ring: all bytes zero, nothing stored.
pub open spec fn empty_ring() -> MailRingView {
    MailRingView {
        arr: Seq::new(RING_BUFFER_SIZE as nat, |i: int| 0u8),
        head: 0,
        tail: 0,
        lens: Seq::<usize>::empty(),
    }
}

impl MailRingView {
    pub open spec fn wf(self) -> bool {
        &&& self.arr.len() == RING_BUFFER_SIZE
        &&& 0 <= self.head < MAIL_SLOTS
        &&& 0 <= self.tail < MAIL_SLOTS
        &&& (self.head + self.lens.len()) % (MAIL_SLOTS as int) == self.tail
        &&& forall|k: int| 0 <= k < self.lens.len() ==> #[trigger] self.lens[k] <= MAIL_SLOT_SIZE
    }

    /// The slot that holds the `k`-th stored datagram (0 is the oldest).
    pub open spec fn slot_of(self, k: int) -> int {
        (self.head + k) % (MAIL_SLOTS as int)
    }

    /// The bytes of the `k`-th stored datagram.
    pub open spec fn datagram(self, k: int) -> Seq<u8> {
        let start = self.slot_of(k) * MAIL_SLOT_SIZE;
        self.arr.subrange(start, start + self.lens[k])
    }

    /// The stored datagrams, oldest first.
    pub open spec fn pending(self) -> Seq<Seq<u8>> {
        Seq::new(self.lens.len(), |k: int| self.datagram(k))
    }

    pub open spec fn is_full(self) -> bool {
        self.lens.len() >= MAIL_SLOTS
    }

    pub open spec fn is_empty(self) -> bool {
        self.lens.len() == 0
    }

    /// The state after `data` is written as one datagram into the tail slot.
    pub open spec fn after_write(self, data: Seq<u8>) -> MailRingView {
        let n = clipped_len(data.len() as int);
        let begin = self.tail * MAIL_SLOT_SIZE;
        MailRingView {
            arr: Seq::new(
                self.arr.len(),
                |i: int|
                    if begin <= i < begin + n {
                        data[i - begin]
                    } else {
                        self.arr[i]
                    },
            ),
            head: self.head,
            tail: next_slot(self.tail),
            lens: self.lens.push(n as usize),
        }
    }

    /// The number of bytes a read into a buffer of `buf_len` bytes copies out.
    pub open spec fn read_len(self, buf_len: int) -> int {
        if buf_len < self.lens[0] {
            buf_len
        } else {
            self.lens[0] as int
        }
    }

    /// The bytes a read into a buffer of `buf_len` bytes copies out.
    pub open spec fn read_bytes(self, buf_len: int) -> Seq<u8> {
        let begin = self.head * MAIL_SLOT_SIZE;
        self.arr.subrange(begin, begin + self.read_len(buf_len))
    }

    /// The state after the oldest datagram is read.
    pub open spec fn after_read(self) -> MailRingView {
        MailRingView {
            arr: self.arr,
            head: next_slot(self.head),
            tail: self.tail,
            lens: self.lens.drop_first(),
        }
    }
}

/// Distinct positions less than one round apart land in distinct slots.
proof fn lemma_slots_distinct(h: int, k: int, j: int)
    requires
        0 <= h < MAIL_SLOTS,
        0 <= k < j < MAIL_SLOTS,
    ensures
        (h + k) % (MAIL_SLOTS as int) != (h + j) % (MAIL_SLOTS as int),
        0 <= (h + k) % (MAIL_SLOTS as int) < MAIL_SLOTS,
{
}

/// Advancing the head by one slot shifts every position by one.
proof fn lemma_slot_shift(h: int, k: int)
    requires
        0 <= h < MAIL_SLOTS,
        0 <= k,
    ensures
        (next_slot(h) + k) % (MAIL_SLOTS as int) == (h + (k + 1)) % (MAIL_SLOTS as int),
{
    lemma_add_mod_noop_right(k, h + 1, MAIL_SLOTS as int);
}

/// Writing a datagram into a ring with a free slot appends it, cut to the slot
/// size, to the stored datagrams and leaves the others as they were.
pub proof fn lemma_write_appends(v: MailRingView, data: Seq<u8>)
    requires
        v.wf(),
        !v.is_full(),
    ensures
        v.after_write(data).wf(),
        v.after_write(data).pending() =~= v.pending().push(data.take(clipped_len(data.len() as int))),
{
    let w = v.after_write(data);
    let n = clipped_len(data.len() as int);
    assert(w.wf()) by {
        assert forall|k: int| 0 <= k < w.lens.len() implies #[trigger] w.lens[k] <= MAIL_SLOT_SIZE by {
            if k < v.lens.len() {
                assert(w.lens[k] == v.lens[k]);
            }
        }
    }
    assert forall|k: int| 0 <= k < v.lens.len() implies #[trigger] w.datagram(k) =~= v.datagram(k) by {
        lemma_slots_distinct(v.head, k, v.lens.len() as int);
        assert(w.slot_of(k) == v.slot_of(k));
        assert(w.lens[k] == v.lens[k]);
    }
    assert(w.slot_of(v.lens.len() as int) == v.tail);
    assert(w.datagram(v.lens.len() as int) =~= data.take(n));
    assert(w.pending().len() == v.pending().len() + 1);
    assert forall|k: int| 0 <= k < w.pending().len() implies #[trigger] w.pending()[k] == v.pending().push(data.take(n))[k] by {
        if k < v.lens.len() {
            assert(w.datagram(k) =~= v.datagram(k));
        }
    }
}

/// Reading removes the oldest stored datagram and hands out its first bytes.
pub proof fn lemma_read_takes_oldest(v: MailRingView, buf_len: int)
    requires
        v.wf(),
        !v.is_empty(),
        buf_len >= 0,
    ensures
        v.after_read().wf(),
        v.after_read().pending() =~= v.pending().drop_first(),
        v.read_bytes(buf_len) =~= v.pending()[0].take(v.read_len(buf_len)),
{
    let r = v.after_read();
    assert(r.wf()) by {
        assert forall|k: int| 0 <= k < r.lens.len() implies #[trigger] r.lens[k] <= MAIL_SLOT_SIZE by {
            assert(r.lens[k] == v.lens[k + 1]);
        }
    }
    assert forall|k: int| 0 <= k < r.lens.len() implies #[trigger] r.datagram(k) =~= v.datagram(k + 1) by {
        lemma_slot_shift(v.head, k);
    }
    assert forall|k: int| 0 <= k < r.pending().len() implies #[trigger] r.pending()[k] == v.pending().drop_first()[k] by {
        assert(r.datagram(k) =~= v.datagram(k + 1));
    }
    assert(v.slot_of(0) == v.head);
}

/// The message ring behind a mailbox: sixteen slots of 256 bytes, used in
/// first-in, first-out order, with the length of each stored datagram.
pub struct MailRingBuffer {
    arr: Vec<u8>,
    head: usize,
    tail: usize,
    len_vec: VecDeque<usize>,
}

impl View for MailRingBuffer {
    type V = MailRingView;

    closed spec fn view(&self) -> MailRingView {
        MailRingView {
            arr: self.arr@,
            head: self.head as int,
            tail: self.tail as int,
            lens: self.len_vec@,
        }
    }
}

impl MailRingBuffer {
    pub open spec fn wf(&self) -> bool {
        self@.wf()
    }

    /// An empty ring.
    pub fn new() -> (ring: MailRingBuffer)
        ensures
            ring.wf(),
            ring@ == empty_ring(),
            ring@.pending() == Seq::<Seq<u8>>::empty(),
    {
        let ring = MailRingBuffer {
            arr: vec![0u8; RING_BUFFER_SIZE],
            head: 0,
            tail: 0,
            len_vec: VecDeque::new(),
        };
        assert(ring@.pending() =~= Seq::<Seq<u8>>::empty());
        assert(ring@.arr =~= empty_ring().arr);
        ring
    }

    /// Stores the first bytes of `buf` (at most one slot's worth) as a new
    /// datagram in the tail slot and advances the tail; returns how many
    /// bytes were stored. The caller checks for room first: on a full ring
    /// the oldest slot is overwritten.
    pub fn write_datagram(&mut self, buf: &[u8]) -> (write_size: usize)
        requires
            old(self).wf(),
        ensures
            final(self).wf(),
            final(self)@ == old(self)@.after_write(buf@),
            write_size == clipped_len(buf@.len() as int),
    {
        let ghost v0 = self@;
        let len = buf.len();
        let mut write_size: usize = 0;
        let begin = self.tail * MAIL_SLOT_SIZE;
        let t = self.tail + 1;
        assert((t & 0xf) == t % 16) by (bit_vector);
        self.tail = t & 0xf;
        let n = if len < MAIL_SLOT_SIZE {
            len
        } else {
            MAIL_SLOT_SIZE
        };
        for i in 0..n
            invariant
                n == clipped_len(buf@.len() as int),
                n <= buf@.len(),
                begin == v0.tail * MAIL_SLOT_SIZE,
                0 <= v0.tail < MAIL_SLOTS,
                write_size == i,
                self.head == v0.head,
                self.tail == next_slot(v0.tail),
                self.len_vec@ == v0.lens,
                self.arr@.len() == RING_BUFFER_SIZE,
                forall|j: int|
                    0 <= j < RING_BUFFER_SIZE ==> #[trigger] self.arr@[j] == if begin <= j < begin + i {
                        buf@[j - begin]
                    } else {
                        v0.arr[j]
                    },
        {
            self.arr.set(begin + i, buf[i]);
            write_size += 1;
        }
        self.len_vec.push_back(write_size);
        assert(self@.arr =~= v0.after_write(buf@).arr);
        proof {
            lemma_add_mod_noop_right(1, v0.head + v0.lens.len(), MAIL_SLOTS as int);
            let w = v0.after_write(buf@);
            assert forall|k: int| 0 <= k < w.lens.len() implies #[trigger] w.lens[k] <= MAIL_SLOT_SIZE by {
                if k < v0.lens.len() {
                    assert(w.lens[k] == v0.lens[k]);
                }
            }
        }
        write_size
    }

    /// Copies the oldest datagram, cut to the length of `buf`, to the front
    /// of `buf`, drops it from the ring and returns how many bytes were
    /// copied. The ring must hold a datagram.
    pub fn read_datagram(&mut self, buf: &mut Vec<u8>) -> (read_size: usize)
        requires
            old(self).wf(),
            !old(self)@.is_empty(),
        ensures
            final(self).wf(),
            final(self)@ == old(self)@.after_read(),
            read_size == old(self)@.read_len(old(buf)@.len() as int),
            final(buf)@.len() == old(buf)@.len(),
            final(buf)@.take(read_size as int) == old(self)@.read_bytes(old(buf)@.len() as int),
            final(buf)@.skip(read_size as int) == old(buf)@.skip(read_size as int),
    {
        let ghost v0 = self@;
        let ghost b0 = buf@;
        let len = buf.len();
        let read_len = self.len_vec.pop_front().unwrap();
        let mut read_size: usize = 0;
        let begin = self.head * MAIL_SLOT_SIZE;
        let h = self.head + 1;
        assert((h & 0xf) == h % 16) by (bit_vector);
        self.head = h & 0xf;
        let n = if len < read_len {
            len
        } else {
            read_len
        };
        for i in 0..n
            invariant
                n == v0.read_len(b0.len() as int),
                read_len == v0.lens[0],
                read_len <= MAIL_SLOT_SIZE,
                begin == v0.head * MAIL_SLOT_SIZE,
                0 <= v0.head < MAIL_SLOTS,
                self.arr@ == v0.arr,
                self.head == next_slot(v0.head),
                self.tail == v0.tail,
                self.len_vec@ == v0.lens.drop_first(),
                v0.arr.len() == RING_BUFFER_SIZE,
                n <= b0.len(),
                read_size == i,
                buf@.len() == b0.len(),
                forall|j: int|
                    0 <= j < b0.len() ==> #[trigger] buf@[j] == if j < i {
                        v0.arr[begin + j]
                    } else {
                        b0[j]
                    },
        {
            buf.set(i, self.arr[begin + i]);
            read_size += 1;
        }
        assert(buf@.take(read_size as int) =~= v0.read_bytes(b0.len() as int));
        assert(buf@.skip(read_size as int) =~= b0.skip(read_size as int));
        assert(self@ =~= v0.after_read());
        proof {
            lemma_read_takes_oldest(v0, b0.len() as int);
        }
        read_size
    }

    /// `usize::MAX` when all sixteen slots are taken, else 0.
    pub fn available_write(&self) -> (r: usize)
        requires
            self.wf(),
        ensures
            r == if self@.is_full() {
                usize::MAX
            } else {
                0
            },
    {
        if self.len_vec.len() >= MAIL_SLOTS {
            return usize::MAX;
        } else {
            return 0;
        }
    }

    /// `usize::MAX` when no datagram is stored, else 0.
    pub fn available_read(&self) -> (r: usize)
        requires
            self.wf(),
        ensures
            r == if self@.is_empty() {
                usize::MAX
            } else {
                0
            },
    {
        if self.len_vec.len() == 0 {
            return usize::MAX;
        } else {
            return 0;
        }
    }
}

/// A process's mailbox: a ring of datagrams that other processes write into
/// and the owner reads from.
pub struct MailBox {
    buffer: MailRingBuffer,
}

impl View for MailBox {
    type V = MailRingView;

    closed spec fn view(&self) -> MailRingView {
        self.buffer@
    }
}

impl MailBox {
    /// An empty mailbox.
    pub fn new() -> (mb: MailBox)
        ensures
            mb@.wf(),
            mb@ == empty_ring(),
            mb@.pending() == Seq::<Seq<u8>>::empty(),
    {
        MailBox { buffer: MailRingBuffer::new() }
    }
}

impl File for MailBox {
    open spec fn inv(&self) -> bool {
        self@.wf()
    }

    fn readable(&self) -> (r: bool)
        ensures
            r,
    {
        true
    }

    fn writable(&self) -> (r: bool)
        ensures
            r,
    {
        true
    }

    /// Takes the oldest datagram out of the mailbox into `buf`. An empty
    /// mailbox gives `usize::MAX`; an empty `buf` gives 0 and takes nothing.
    fn read(&mut self, buf: &mut Vec<u8>) -> (n: usize)
        ensures
            old(self)@.is_empty() ==> n == usize::MAX && final(self)@ == old(self)@ && final(buf)@
                == old(buf)@,
            !old(self)@.is_empty() && old(buf)@.len() == 0 ==> n == 0 && final(self)@ == old(
                self,
            )@ && final(buf)@ == old(buf)@,
            !old(self)@.is_empty() && old(buf)@.len() > 0 ==> {
                &&& n == old(self)@.read_len(old(buf)@.len() as int)
                &&& final(self)@ == old(self)@.after_read()
                &&& final(buf)@.len() == old(buf)@.len()
                &&& final(buf)@.take(n as int) == old(self)@.read_bytes(old(buf)@.len() as int)
                &&& final(buf)@.skip(n as int) == old(buf)@.skip(n as int)
            },
    {
        let try_read = self.buffer.available_read();
        if buf.len() == 0 || try_read != 0 {
            try_read
        } else {
            self.buffer.read_datagram(buf)
        }
    }

    /// Stores `buf` (cut to one slot) as a new datagram. A full mailbox
    /// gives `usize::MAX`; an empty `buf` gives 0 and stores nothing.
    fn write(&mut self, buf: &[u8]) -> (n: usize)
        ensures
            old(self)@.is_full() ==> n == usize::MAX && final(self)@ == old(self)@,
            !old(self)@.is_full() && buf@.len() == 0 ==> n == 0 && final(self)@ == old(self)@,
            !old(self)@.is_full() && buf@.len() > 0 ==> {
                &&& n == clipped_len(buf@.len() as int)
                &&& final(self)@ == old(self)@.after_write(buf@)
            },
    {
        let try_write = self.buffer.available_write();
        if buf.len() == 0 || try_write != 0 {
            try_write
        } else {
            self.buffer.write_datagram(buf)
        }
    }
}

/// A datagram written into an empty mailbox is what the next read hands
/// back, cut to one slot and to the reader's buffer, and the mailbox is
/// empty again afterwards.
pub proof fn lemma_mail_roundtrip(v: MailRingView, data: Seq<u8>, buf_len: int)
    requires
        v.wf(),
        v.is_empty(),
        buf_len >= 0,
    ensures
        ({
            let w = v.after_write(data);
            let n = if buf_len < clipped_len(data.len() as int) {
                buf_len
            } else {
                clipped_len(data.len() as int)
            };
            &&& w.read_len(buf_len) == n
            &&& w.read_bytes(buf_len) == data.take(n)
            &&& w.after_read().pending() == Seq::<Seq<u8>>::empty()
        }),
{
    let w = v.after_write(data);
    lemma_write_appends(v, data);
    lemma_read_takes_oldest(w, buf_len);
    assert(v.pending() =~= Seq::<Seq<u8>>::empty());
    assert(w.pending()[0] == data.take(clipped_len(data.len() as int)));
    assert(w.read_bytes(buf_len) =~= data.take(w.read_len(buf_len)));
    assert(w.after_read().pending() =~= Seq::<Seq<u8>>::empty());
}

} // verus!
