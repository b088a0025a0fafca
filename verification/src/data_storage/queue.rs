//! A bounded queue of fixed capacity supporting creation, push and pop.
use vstd::prelude::*;

verus! {

/// Maximum number of elements a queue holds.
pub const MAX_SIZE: usize = 32;

/// Queue error.
///
/// * `Overflow`: an element was pushed into a full `Queue`.
/// * `Underflow`: an element was popped from an empty `Queue`.
#[derive(Debug, PartialEq, Eq, Structural)]
pub enum Error {
    Overflow,
    Underflow,
}

/// Bounded queue with `O(1)` `push` and `pop`, stored as a ring buffer.
pub struct Queue<T> {
    data: [Option<T>; 32],
    /// The next element is stored at `data[pushing]`.
    pushing: usize,
    /// The next element to leave is at `data[poping]`.
    poping: usize,
    /// Tells an empty queue from a full one when `pushing == poping`.
    empty: bool,
}

impl<T: Copy> Queue<T> {
    /// Number of elements held, read off the ring-buffer indices.
    pub closed spec fn spec_len(&self) -> nat {
        if self.empty {
            0
        } else if self.poping < self.pushing {
            (self.pushing - self.poping) as nat
        } else {
            (self.pushing + MAX_SIZE - self.poping) as nat
        }
    }

    /// The queued elements, oldest first.
    pub closed spec fn view(&self) -> Seq<T> {
        Seq::new(self.spec_len(), |k: int| self.data@[(self.poping + k) % (MAX_SIZE as int)]->Some_0)
    }

    /// Ring-buffer invariant: indices in range, occupied slots hold a value.
    pub closed spec fn wf(&self) -> bool {
        &&& self.pushing < MAX_SIZE
        &&& self.poping < MAX_SIZE
        &&& self.empty ==> self.pushing == self.poping
        &&& forall|k: int| 0 <= k < self.spec_len() ==>
            (#[trigger] self.data@[(self.poping + k) % (MAX_SIZE as int)]) is Some
    }

    /// A queue never holds more than `MAX_SIZE` elements.
    pub proof fn lemma_len_bound(&self)
        requires
            self.wf(),
        ensures
            self@.len() <= MAX_SIZE,
    {
    }

    /// Returns a new, empty bounded queue.
    pub fn new() -> (q: Self)
        ensures
            q.wf(),
            q@ == Seq::<T>::empty(),
    {
        let q = Queue { data: [None; 32], pushing: 0, poping: 0, empty: true };
        assert(q@ =~= Seq::<T>::empty());
        q
    }

    /// Returns true iff the queue is empty.
    pub fn is_empty(&self) -> (b: bool)
        requires
            self.wf(),
        ensures
            b == (self@.len() == 0),
    {
        self.empty
    }

    /// Returns true iff the queue is full.
    pub fn is_full(&self) -> (b: bool)
        requires
            self.wf(),
        ensures
            b == (self@.len() == MAX_SIZE),
    {
        !self.is_empty() && self.poping == self.pushing
    }

    /// Adds `elt` at the back of the queue; `Err(Overflow)` if the queue is full.
    pub fn push(&mut self, elt: T) -> (r: Result<(), Error>)
        requires
            old(self).wf(),
        ensures
            final(self).wf(),
            old(self)@.len() == MAX_SIZE ==> r == Err::<(), Error>(Error::Overflow) && final(self)@ == old(self)@,
            old(self)@.len() < MAX_SIZE ==> r == Ok::<(), Error>(()) && final(self)@ == old(self)@.push(elt),
    {
        if self.is_full() {
            Err(Error::Overflow)
        } else {
            let ghost old_q = *self;
            self.data[self.pushing] = Some(elt);
            self.pushing = (self.pushing + 1) % MAX_SIZE;
            self.empty = false;
            assert forall|k: int| 0 <= k < self.spec_len() implies
                (#[trigger] self.data@[(self.poping + k) % (MAX_SIZE as int)]) is Some by {
                if k < old_q.spec_len() {
                    assert(old_q.data@[(old_q.poping + k) % (MAX_SIZE as int)] is Some);
                }
            }
            assert(self@ =~= old_q@.push(elt)) by {
                assert forall|k: int| 0 <= k < old_q.spec_len() implies
                    self@[k] == old_q@[k] by {}
            }
            Ok(())
        }
    }

    /// Removes and returns the oldest element; `Err(Underflow)` if the queue is empty.
    pub fn pop(&mut self) -> (r: Result<T, Error>)
        requires
            old(self).wf(),
        ensures
            final(self).wf(),
            old(self)@.len() == 0 ==> r == Err::<T, Error>(Error::Underflow) && final(self)@ == old(self)@,
            old(self)@.len() > 0 ==> r == Ok::<T, Error>(old(self)@[0]) && final(self)@ == old(self)@.drop_first(),
    {
        if self.is_empty() {
            Err(Error::Underflow)
        } else {
            let ghost old_q = *self;
            assert(self.data@[(self.poping + 0) % (MAX_SIZE as int)] is Some);
            let res = self.data[self.poping].unwrap();
            self.data[self.poping] = None;
            self.poping = (self.poping + 1) % MAX_SIZE;
            if self.poping == self.pushing {
                self.empty = true;
            }
            assert forall|k: int| 0 <= k < self.spec_len() implies
                (#[trigger] self.data@[(self.poping + k) % (MAX_SIZE as int)]) is Some by {
                assert(old_q.data@[(old_q.poping + (k + 1)) % (MAX_SIZE as int)] is Some);
            }
            assert(self@ =~= old_q@.drop_first()) by {
                assert forall|k: int| 0 <= k < self.spec_len() implies
                    self@[k] == old_q@[k + 1] by {}
            }
            Ok(res)
        }
    }
}

impl<T: Copy> Default for Queue<T> {
    /// An empty queue.
    fn default() -> (q: Self)
        ensures
            q.wf(),
            q@ == Seq::<T>::empty(),
    {
        Self::new()
    }
}

} // verus!
