//! A bounded FIFO of frames over a fixed ring of slots. One slot always stays
//! empty, so a full ring and an empty one are told apart by the two indices
//! alone.
use vstd::prelude::*;

use crate::ctmp::Ctmp;
use crate::Error;

verus! {

/// Number of slots in the ring; it holds at most one frame fewer.
pub const CAPACITY: usize = 1024;

/// Position in the ring of the `i`-th slot after `start`.
pub open spec fn slot_of(start: int, i: int) -> int {
    if start + i < CAPACITY as int {
        start + i
    } else {
        start + i - CAPACITY as int
    }
}

/// Number of unread frames between the read and the write index.
pub open spec fn ring_len(read: int, write: int) -> int {
    if write >= read {
        write - read
    } else {
        CAPACITY as int - read + write
    }
}

/// Effect of offering frame `f` to a buffer that holds `q`: the contents
/// after, and whether the frame was taken. A full buffer refuses it.
pub open spec fn write_step(q: Seq<Ctmp>, f: Ctmp) -> (Seq<Ctmp>, bool) {
    if q.len() < CAPACITY - 1 {
        (q.push(f), true)
    } else {
        (q, false)
    }
}

/// Number of frames a batch read of at most `k` takes from `q`.
pub open spec fn batch_len(q: Seq<Ctmp>, k: int) -> int {
    if k < q.len() {
        k
    } else {
        q.len() as int
    }
}

/// Effect of a batch read of at most `k` frames on a buffer that holds `q`:
/// the contents after, and the frames returned, oldest first.
pub open spec fn read_step(q: Seq<Ctmp>, k: int) -> (Seq<Ctmp>, Seq<Ctmp>) {
    (q.skip(batch_len(q, k)), q.take(batch_len(q, k)))
}

/// Free places in a buffer that holds `q`.
pub open spec fn room(q: Seq<Ctmp>) -> int {
    CAPACITY as int - 1 - q.len()
}

/// Offers the frames `fs` one after the other to a buffer that holds `q`,
/// with no read in between: the contents after, and for each frame whether
/// it was taken.
pub open spec fn write_each(q: Seq<Ctmp>, fs: Seq<Ctmp>) -> (Seq<Ctmp>, Seq<bool>)
    decreases fs.len(),
{
    if fs.len() == 0 {
        (q, seq![])
    } else {
        let (q1, taken) = write_step(q, fs[0]);
        let rest = write_each(q1, fs.drop_first());
        (rest.0, seq![taken] + rest.1)
    }
}

/// Offering frames to a buffer with no read in between takes them while
/// there is room and refuses every one after that.
pub proof fn lemma_write_each(q: Seq<Ctmp>, fs: Seq<Ctmp>)
    requires
        q.len() <= CAPACITY - 1,
    ensures
        write_each(q, fs).0 == q + fs.take(
            if fs.len() < room(q) {
                fs.len() as int
            } else {
                room(q)
            },
        ),
        write_each(q, fs).1 == Seq::new(fs.len(), |i: int| i < room(q)),
    decreases fs.len(),
{
    if fs.len() == 0 {
        assert(q + fs.take(0) =~= q);
        assert(write_each(q, fs).1 =~= Seq::new(fs.len(), |i: int| i < room(q)));
    } else {
        let q1 = write_step(q, fs[0]).0;
        lemma_write_each(q1, fs.drop_first());
        if q.len() < CAPACITY - 1 {
            let n = if fs.len() < room(q) {
                fs.len() as int
            } else {
                room(q)
            };
            assert(q1 + fs.drop_first().take(n - 1) =~= q + fs.take(n));
        } else {
            assert(fs.drop_first().take(0) =~= fs.take(0));
        }
        assert(write_each(q, fs).1 =~= Seq::new(fs.len(), |i: int| i < room(q)));
    }
}

/// Starting empty, `CAPACITY - 1` writes are taken and the next one is
/// refused; a batch read of at least `CAPACITY - 1` frames then returns all
/// of them, leaves the buffer empty, and the next write is taken again.
pub proof fn lemma_fill_and_drain(fs: Seq<Ctmp>, f: Ctmp, k: int)
    requires
        fs.len() == CAPACITY,
        k >= CAPACITY - 1,
    ensures
        forall|i: int| 0 <= i < CAPACITY - 1 ==> #[trigger] write_each(seq![], fs).1[i],
        !write_each(seq![], fs).1[CAPACITY - 1],
        read_step(write_each(seq![], fs).0, k).1 == fs.take(CAPACITY - 1),
        read_step(write_each(seq![], fs).0, k).0.len() == 0,
        write_step(read_step(write_each(seq![], fs).0, k).0, f).1,
{
    lemma_write_each(seq![], fs);
    let full = write_each(seq![], fs).0;
    assert(full =~= fs.take(CAPACITY - 1));
    assert(read_step(full, k).1 =~= full);
}

/// Operations on the frame buffer.
pub enum QueueOp {
    /// Offer a frame.
    Write(Ctmp),
    /// Read a batch of at most this many frames.
    Read(usize),
}

/// Runs the operations `ops` on a buffer that holds `q`: the contents after,
/// the frames the buffer took, and the frames the reads returned, in order.
pub open spec fn run_ops(q: Seq<Ctmp>, ops: Seq<QueueOp>) -> (Seq<Ctmp>, Seq<Ctmp>, Seq<Ctmp>)
    decreases ops.len(),
{
    if ops.len() == 0 {
        (q, seq![], seq![])
    } else {
        match ops[0] {
            QueueOp::Write(f) => {
                let (q1, taken) = write_step(q, f);
                let rest = run_ops(q1, ops.drop_first());
                (rest.0, if taken {
                    seq![f] + rest.1
                } else {
                    rest.1
                }, rest.2)
            },
            QueueOp::Read(k) => {
                let (q1, batch) = read_step(q, k as int);
                let rest = run_ops(q1, ops.drop_first());
                (rest.0, rest.1, batch + rest.2)
            },
        }
    }
}

/// First in, first out, whatever the interleaving of writes and batch reads:
/// the frames held at the start followed by those taken since are exactly
/// the frames read since followed by those still held.
pub proof fn lemma_fifo(q: Seq<Ctmp>, ops: Seq<QueueOp>)
    ensures
        q + run_ops(q, ops).1 == run_ops(q, ops).2 + run_ops(q, ops).0,
    decreases ops.len(),
{
    if ops.len() > 0 {
        match ops[0] {
            QueueOp::Write(f) => {
                let (q1, taken) = write_step(q, f);
                lemma_fifo(q1, ops.drop_first());
                let rest = run_ops(q1, ops.drop_first());
                if taken {
                    assert(q + (seq![f] + rest.1) =~= q1 + rest.1);
                }
            },
            QueueOp::Read(k) => {
                let (q1, batch) = read_step(q, k as int);
                lemma_fifo(q1, ops.drop_first());
                let rest = run_ops(q1, ops.drop_first());
                assert(q =~= batch + q1);
                assert(q + rest.1 =~= batch + (q1 + rest.1));
                assert((batch + rest.2) + rest.0 =~= batch + (rest.2 + rest.0));
            },
        }
    } else {
        assert(q + seq![] =~= seq![] + q);
    }
}

/// The frame buffer between the parser, which writes, and the consumer,
/// which reads in batches.
pub struct MessageMgr {
    slots: Vec<Ctmp>,
    read_index: usize,
    write_index: usize,
}

impl View for MessageMgr {
    type V = Seq<Ctmp>;

    /// The unread frames, oldest first.
    closed spec fn view(&self) -> Seq<Ctmp> {
        Seq::new(
            ring_len(self.read_index as int, self.write_index as int) as nat,
            |i: int| self.slots@[slot_of(self.read_index as int, i)],
        )
    }
}

impl MessageMgr {
    /// The ring has its full size, both indices lie in it, and every slot
    /// holds a well-formed frame.
    pub closed spec fn wf(&self) -> bool {
        &&& self.slots@.len() == CAPACITY
        &&& self.read_index < CAPACITY
        &&& self.write_index < CAPACITY
        &&& forall|p: int| 0 <= p < CAPACITY ==> (#[trigger] self.slots@[p]).wf()
    }

    /// A well-formed buffer never holds more than `CAPACITY - 1` frames, and
    /// each of them is well-formed.
    pub proof fn lemma_bounded(&self)
        requires
            self.wf(),
        ensures
            self@.len() <= CAPACITY - 1,
            forall|i: int| 0 <= i < self@.len() ==> (#[trigger] self@[i]).wf(),
    {
        assert forall|i: int| 0 <= i < self@.len() implies (#[trigger] self@[i]).wf() by {
            assert(self.slots@[slot_of(self.read_index as int, i)].wf());
        }
    }

    /// An empty buffer with every slot holding an empty frame.
    pub fn new() -> (r: MessageMgr)
        ensures
            r.wf(),
            r@ == Seq::<Ctmp>::empty(),
    {
        let mut slots: Vec<Ctmp> = Vec::with_capacity(CAPACITY);
        let mut i: usize = 0;
        while i < CAPACITY
            invariant
                i <= CAPACITY,
                slots@.len() == i,
                forall|p: int| 0 <= p < i ==> (#[trigger] slots@[p]).wf(),
            decreases CAPACITY - i,
        {
            slots.push(Ctmp::default());
            i += 1;
        }
        let r = MessageMgr { slots, read_index: 0, write_index: 0 };
        assert(r@ =~= Seq::<Ctmp>::empty());
        r
    }

    /// Appends `data` unless the buffer is full, in which case nothing
    /// changes and `BufferWriteOverflow` is returned.
    pub fn write(&mut self, data: Ctmp) -> (r: Result<(), Error>)
        requires
            old(self).wf(),
            data.wf(),
        ensures
            final(self).wf(),
            final(self)@ == write_step(old(self)@, data).0,
            r is Ok <==> write_step(old(self)@, data).1,
            r is Err ==> r->Err_0 is BufferWriteOverflow,
    {
        let w = self.write_index;
        let next: usize = if w + 1 == CAPACITY {
            0
        } else {
            w + 1
        };
        if next == self.read_index {
            return Err(Error::BufferWriteOverflow);
        }
        let ghost q = self@;
        self.slots.set(w, data);
        self.write_index = next;
        assert(self@ =~= q.push(data));
        Ok(())
    }

    /// Takes up to `max_batch` frames from the head, oldest first.
    pub fn read_batch(&mut self, max_batch: usize) -> (r: Vec<Ctmp>)
        requires
            old(self).wf(),
        ensures
            final(self).wf(),
            final(self)@ == read_step(old(self)@, max_batch as int).0,
            r@ == read_step(old(self)@, max_batch as int).1,
    {
        let ghost q = self@;
        let read = self.read_index;
        let write = self.write_index;
        let available: usize = if write >= read {
            write - read
        } else {
            CAPACITY - read + write
        };
        let will_read: usize = if max_batch < available {
            max_batch
        } else {
            available
        };
        let mut batch: Vec<Ctmp> = Vec::with_capacity(will_read);
        let mut cursor: usize = read;
        let mut j: usize = 0;
        while j < will_read
            invariant
                j <= will_read <= available,
                available == q.len(),
                q.len() <= CAPACITY - 1,
                read < CAPACITY,
                self.slots@.len() == CAPACITY,
                self.read_index == read,
                self.write_index == write,
                cursor == slot_of(read as int, j as int),
                batch@ == q.take(j as int),
                forall|i: int| j <= i < q.len() ==> self.slots@[slot_of(read as int, i)] == q[i],
                forall|p: int| 0 <= p < CAPACITY ==> (#[trigger] self.slots@[p]).wf(),
            decreases will_read - j,
        {
            let mut taken = Ctmp::default();
            self.slots.set_and_swap(cursor, &mut taken);
            batch.push(taken);
            cursor = if cursor + 1 == CAPACITY {
                0
            } else {
                cursor + 1
            };
            j += 1;
            assert(batch@ =~= q.take(j as int));
        }
        self.read_index = cursor;
        assert(self@ =~= q.skip(will_read as int));
        batch
    }
}

} // verus!
