//! Pipes between processes: bounded byte queues opened as files.
use vstd::prelude::*;
use crossbeam_queue::ArrayQueue;
use crate::bounded_queue::{byte_queue_contents, byte_queue_capacity, byte_queue_new, byte_queue_push, byte_queue_pop, byte_queue_len};
use crate::data_storage::path::Path;
use crate::filesystem::partition::IoError;

verus! {

/// Number of bytes a pipe holds.
pub const FIFO_CAPACITY: usize = 1024;

/// A write of `b` to a pipe holding `q`: what the pipe then holds, and how
/// many bytes went in (as many as there is room for).
pub open spec fn pipe_write(q: Seq<u8>, b: Seq<u8>) -> (Seq<u8>, int) {
    let room = FIFO_CAPACITY - q.len();
    let n = if b.len() < room { b.len() as int } else { room };
    (q + b.subrange(0, n), n)
}

/// A read of up to `size` bytes from a pipe holding `q`: the bytes read,
/// oldest first, and what the pipe then holds.
pub open spec fn pipe_read(q: Seq<u8>, size: int) -> (Seq<u8>, Seq<u8>) {
    let n = if size < q.len() { size } else { q.len() as int };
    (q.subrange(0, n), q.skip(n))
}

/// Bytes written to a pipe with room for them all go in, and reading the
/// pipe then gives what it held followed by them, leaving it empty.
pub proof fn lemma_pipe_reads_back_writes(q: Seq<u8>, b: Seq<u8>)
    requires
        q.len() + b.len() <= FIFO_CAPACITY,
    ensures
        pipe_write(q, b).1 == b.len(),
        pipe_read(pipe_write(q, b).0, (q.len() + b.len()) as int).0 == q + b,
        pipe_read(pipe_write(q, b).0, (q.len() + b.len()) as int).1.len() == 0,
{
    assert(b.subrange(0, b.len() as int) =~= b);
    assert((q + b).subrange(0, (q + b).len() as int) =~= q + b);
}

/// One pipe: a bounded queue of bytes.
pub struct FiFoPartitionInner {
    data: ArrayQueue<u8>,
}

impl FiFoPartitionInner {
    /// The bytes waiting in the pipe, oldest first.
    pub closed spec fn view(&self) -> Seq<u8> {
        byte_queue_contents(self.data)
    }

    /// The queue has the pipe's capacity and holds no more than it.
    pub closed spec fn wf(&self) -> bool {
        &&& byte_queue_capacity(self.data) == FIFO_CAPACITY
        &&& byte_queue_contents(self.data).len() <= FIFO_CAPACITY
    }

    /// An empty pipe.
    pub fn new() -> (f: Self)
        ensures
            f.wf(),
            f@ == Seq::<u8>::empty(),
    {
        Self { data: byte_queue_new(FIFO_CAPACITY) }
    }

    /// Takes up to `size` bytes out of the pipe. When the pipe is empty and
    /// `alone` holds (no other process has it open), the reader is to be
    /// killed rather than given nothing.
    pub fn read(&mut self, size: usize, alone: bool) -> (r: Result<Vec<u8>, IoError>)
        requires
            old(self).wf(),
        ensures
            final(self).wf(),
            (alone && size > 0 && old(self)@.len() == 0) ==> r == Err::<Vec<u8>, IoError>(IoError::Kill)
                && final(self)@ == old(self)@,
            !(alone && size > 0 && old(self)@.len() == 0) ==> (r matches Ok(v) && v@ == pipe_read(old(self)@, size as int).0
                && final(self)@ == pipe_read(old(self)@, size as int).1),
    {
        let mut data: Vec<u8> = Vec::new();
        let mut i: usize = 0;
        while i < size
            invariant
                self.wf(),
                i <= size,
                i <= old(self)@.len(),
                data@ == old(self)@.subrange(0, i as int),
                self@ == old(self)@.skip(i as int),
            decreases size - i,
        {
            match byte_queue_pop(&mut self.data) {
                None => {
                    if alone {
                        if data.len() == 0 {
                            assert(self@ =~= old(self)@);
                            return Err(IoError::Kill);
                        } else {
                            return Ok(data);
                        }
                    } else {
                        return Ok(data);
                    }
                },
                Some(d) => {
                    data.push(d);
                    assert(data@ =~= old(self)@.subrange(0, i + 1));
                    assert(self@ =~= old(self)@.skip(i + 1));
                },
            }
            i += 1;
        }
        Ok(data)
    }

    /// Appends as much of `buffer` as the pipe has room for; returns how
    /// many bytes went in.
    pub fn write(&mut self, buffer: &[u8]) -> (amount: isize)
        requires
            old(self).wf(),
        ensures
            final(self).wf(),
            amount == pipe_write(old(self)@, buffer@).1,
            final(self)@ == pipe_write(old(self)@, buffer@).0,
    {
        let mut amount: isize = 0;
        let mut i: usize = 0;
        while i < buffer.len()
            invariant
                self.wf(),
                i <= buffer@.len(),
                amount == i,
                i <= FIFO_CAPACITY - old(self)@.len(),
                self@ == old(self)@ + buffer@.subrange(0, i as int),
            decreases buffer@.len() - i,
        {
            match byte_queue_push(&mut self.data, buffer[i]) {
                Ok(()) => {
                    amount += 1;
                    assert(self@ =~= old(self)@ + buffer@.subrange(0, i + 1));
                },
                Err(_d) => {
                    return amount;
                },
            }
            i += 1;
        }
        amount
    }

    /// Drops up to `p` bytes from the front of the pipe; returns how many
    /// bytes are left.
    pub fn give_param(&mut self, p: usize) -> (left: usize)
        requires
            old(self).wf(),
        ensures
            final(self).wf(),
            ({
                let n = if p < old(self)@.len() { p as int } else { old(self)@.len() as int };
                final(self)@ == old(self)@.skip(n) && left == final(self)@.len()
            }),
    {
        let mut i: usize = 0;
        while i < p
            invariant
                self.wf(),
                i <= p,
                i <= old(self)@.len(),
                self@ == old(self)@.skip(i as int),
            decreases p - i,
        {
            match byte_queue_pop(&mut self.data) {
                None => {
                    return byte_queue_len(&self.data);
                },
                Some(_d) => {
                    assert(self@ =~= old(self)@.skip(i + 1));
                },
            }
            i += 1;
        }
        byte_queue_len(&self.data)
    }

    /// Number of bytes waiting in the pipe.
    pub fn len(&self) -> (n: usize)
        ensures
            n == self@.len(),
    {
        byte_queue_len(&self.data)
    }
}

/// All the pipes; a closed pipe leaves an empty slot.
pub struct FiFoPartition {
    data: Vec<Option<FiFoPartitionInner>>,
}

impl FiFoPartition {
    /// The pipes: the bytes waiting in each open one.
    pub closed spec fn view(&self) -> Seq<Option<Seq<u8>>> {
        self.data@.map_values(|f: Option<FiFoPartitionInner>| match f {
            Some(inner) => Some(inner@),
            None => None,
        })
    }

    /// Every open pipe is well formed.
    pub closed spec fn wf(&self) -> bool {
        forall|i: int| 0 <= i < self.data@.len() ==> (#[trigger] self.data@[i] matches Some(f) ==> f.wf())
    }

    /// No pipe.
    pub fn new() -> (p: Self)
        ensures
            p.wf(),
            p@ == Seq::<Option<Seq<u8>>>::empty(),
    {
        let p = Self { data: Vec::new() };
        assert(p@ =~= Seq::<Option<Seq<u8>>>::empty());
        p
    }

    /// Number of slots, open or closed.
    pub fn slots(&self) -> (n: usize)
        ensures
            n == self@.len(),
    {
        self.data.len()
    }

    /// Opens a new pipe in the first free slot, or a new slot at the end;
    /// only the pipe directory itself (the empty path) can be opened.
    pub fn open(&mut self, path: &Path) -> (r: Option<usize>)
        requires
            old(self).wf(),
        ensures
            final(self).wf(),
            path@.len() != 0 ==> r is None && final(self)@ == old(self)@,
            path@.len() == 0 ==> (r matches Some(i) && ({
                &&& i <= old(self)@.len()
                &&& i < old(self)@.len() ==> old(self)@[i as int] is None
                &&& i == old(self)@.len() ==> forall|j: int| 0 <= j < old(self)@.len() ==> #[trigger] old(self)@[j] is Some
                &&& forall|j: int| 0 <= j < i ==> #[trigger] old(self)@[j] is Some
                &&& final(self)@ == if i < old(self)@.len() {
                    old(self)@.update(i as int, Some(Seq::<u8>::empty()))
                } else {
                    old(self)@.push(Some(Seq::<u8>::empty()))
                }
            })),
    {
        if !path.is_empty() {
            return None;
        }
        let mut i: usize = 0;
        while i < self.data.len()
            invariant
                self.wf(),
                self.data@ == old(self).data@,
                path@.len() == 0,
                i <= self.data@.len(),
                forall|j: int| 0 <= j < i ==> #[trigger] self@[j] is Some,
            decreases self.data@.len() - i,
        {
            if self.data[i].is_none() {
                let ghost before = self@;
                self.data.set(i, Some(FiFoPartitionInner::new()));
                assert(self@ =~= before.update(i as int, Some(Seq::<u8>::empty())));
                return Some(i);
            }
            i += 1;
        }
        let ghost before = self@;
        self.data.push(Some(FiFoPartitionInner::new()));
        assert(self@ =~= before.push(Some(Seq::<u8>::empty())));
        Some(self.data.len() - 1)
    }

    /// Reads up to `size` bytes from pipe `id`; reading a missing pipe, or
    /// below the pipe directory, kills the reader.
    pub fn read(&mut self, path: &Path, id: usize, size: usize, alone: bool) -> (r: Result<Vec<u8>, IoError>)
        requires
            old(self).wf(),
            path@.len() == 0 ==> id < old(self)@.len(),
        ensures
            final(self).wf(),
            path@.len() != 0 ==> r == Err::<Vec<u8>, IoError>(IoError::Kill) && final(self)@ == old(self)@,
            path@.len() == 0 && old(self)@[id as int] is None ==> r == Err::<Vec<u8>, IoError>(IoError::Kill)
                && final(self)@ == old(self)@,
            path@.len() == 0 && old(self)@[id as int] is Some ==> ({
                let q = old(self)@[id as int]->Some_0;
                &&& (alone && size > 0 && q.len() == 0) ==> r == Err::<Vec<u8>, IoError>(IoError::Kill)
                    && final(self)@ == old(self)@
                &&& !(alone && size > 0 && q.len() == 0) ==> (r matches Ok(v) && v@ == pipe_read(q, size as int).0
                    && final(self)@ == old(self)@.update(id as int, Some(pipe_read(q, size as int).1)))
            }),
    {
        if !path.is_empty() {
            return Err(IoError::Kill);
        }
        let ghost before = self@;
        match &mut self.data[id] {
            None => Err(IoError::Kill),
            Some(fifo) => {
                let r = fifo.read(size, alone);
                proof {
                    assert(self@ =~= before.update(id as int, Some(self.data@[id as int]->Some_0@)));
                }
                r
            },
        }
    }

    /// Writes `buffer` into pipe `id`; returns how many bytes went in (0
    /// for a missing pipe or a path below the pipe directory).
    pub fn write(&mut self, path: &Path, id: usize, buffer: &[u8]) -> (amount: isize)
        requires
            old(self).wf(),
            path@.len() == 0 ==> id < old(self)@.len(),
        ensures
            final(self).wf(),
            path@.len() != 0 ==> amount == 0 && final(self)@ == old(self)@,
            path@.len() == 0 && old(self)@[id as int] is None ==> amount == 0 && final(self)@ == old(self)@,
            path@.len() == 0 && old(self)@[id as int] is Some ==> ({
                let q = old(self)@[id as int]->Some_0;
                &&& amount == pipe_write(q, buffer@).1
                &&& final(self)@ == old(self)@.update(id as int, Some(pipe_write(q, buffer@).0))
            }),
    {
        if !path.is_empty() {
            return 0;
        }
        let ghost before = self@;
        match &mut self.data[id] {
            None => 0,
            Some(fifo) => {
                let r = fifo.write(buffer);
                proof {
                    assert(self@ =~= before.update(id as int, Some(self.data@[id as int]->Some_0@)));
                }
                r
            },
        }
    }

    /// Closes pipe `id`, dropping what it held.
    pub fn close(&mut self, path: &Path, id: usize) -> (b: bool)
        requires
            old(self).wf(),
            path@.len() == 0,
            id < old(self)@.len(),
        ensures
            final(self).wf(),
            !b,
            final(self)@ == old(self)@.update(id as int, None),
    {
        let ghost before = self@;
        self.data.set(id, None);
        assert(self@ =~= before.update(id as int, None));
        false
    }

    /// Drops up to `param` bytes from pipe `id`; returns how many are left
    /// (0 for a missing pipe).
    pub fn give_param(&mut self, path: &Path, id: usize, param: usize) -> (left: usize)
        requires
            old(self).wf(),
            path@.len() == 0,
            id < old(self)@.len(),
        ensures
            final(self).wf(),
            old(self)@[id as int] is None ==> left == 0 && final(self)@ == old(self)@,
            old(self)@[id as int] is Some ==> ({
                let q = old(self)@[id as int]->Some_0;
                let n = if param < q.len() { param as int } else { q.len() as int };
                &&& final(self)@ == old(self)@.update(id as int, Some(q.skip(n)))
                &&& left == q.len() - n
            }),
    {
        let ghost before = self@;
        match &mut self.data[id] {
            None => 0,
            Some(fifo) => {
                let r = fifo.give_param(param);
                proof {
                    assert(self@ =~= before.update(id as int, Some(self.data@[id as int]->Some_0@)));
                }
                r
            },
        }
    }
}

} // verus!
