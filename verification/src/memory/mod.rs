//! Physical frame allocation: a table of the 4 KiB frames of RAM that are
//! free.
pub mod paging;

pub use paging::translate_addr_inner;
use vstd::prelude::*;
use x86_64::PhysAddr;

verus! {

/// The physical address type of the `x86_64` crate.
#[verifier::external_type_specification]
#[verifier::external_body]
pub struct ExPhysAddr(PhysAddr);

/// The address a `PhysAddr` holds, as `PhysAddr::as_u64` returns it.
pub uninterp spec fn phys_addr_value(a: PhysAddr) -> u64;

/// `PhysAddr::new`: the crate panics when any of bits 52 to 63 is set and
/// otherwise keeps the address as it is.
#[verifier::external_body]
fn new_phys_addr(addr: u64) -> (a: PhysAddr)
    requires
        addr < 0x10_0000_0000_0000u64,
    ensures
        phys_addr_value(a) == addr,
{
    PhysAddr::new(addr)
}

/// `PhysAddr::as_u64`: the address held.
#[verifier::external_body]
fn phys_addr_as_u64(a: PhysAddr) -> (v: u64)
    ensures
        v == phys_addr_value(a),
{
    a.as_u64()
}

/// An error of the memory manager.
#[derive(Debug)]
pub struct MemoryError(pub String);

/// Maximum number of frames: enough for 256 MiB of RAM.
pub const MAX_PAGE_ALLOWED: usize = 65536;

/// Steps from `from` to `to` walking forward through `0..=maxi` and
/// wrapping to 0 after `maxi`.
pub open spec fn scan_distance(from: int, to: int, maxi: int) -> int {
    if to >= from {
        to - from
    } else {
        to + maxi + 1 - from
    }
}

/// The search position after `k` steps that found no free frame, from
/// position `n`: each step moves one frame on, and back to 0 past `maxi`.
pub open spec fn scan_position(n: int, k: nat, maxi: int) -> int
    decreases k,
{
    if k == 0 {
        n
    } else {
        let m = scan_position(n, (k - 1) as nat, maxi);
        if m + 1 > maxi {
            0
        } else {
            m + 1
        }
    }
}

/// The table of free frames.
pub struct BootInfoAllocator {
    /// One entry per frame: whether it is free.
    pages_available: Vec<bool>,
    /// Where the search for a free frame starts.
    next: usize,
    /// Highest frame of RAM.
    maxi: usize,
}

impl BootInfoAllocator {
    /// Which frames are free.
    pub closed spec fn view(&self) -> Seq<bool> {
        self.pages_available@
    }

    /// Where the search for a free frame starts.
    pub closed spec fn spec_next(&self) -> usize {
        self.next
    }

    /// Highest frame of RAM.
    pub closed spec fn spec_maxi(&self) -> usize {
        self.maxi
    }

    /// Table of the right size, no free frame above the highest one, search
    /// position at most one past it.
    pub closed spec fn wf(&self) -> bool {
        &&& self.pages_available@.len() == MAX_PAGE_ALLOWED
        &&& self.maxi + 1 < MAX_PAGE_ALLOWED
        &&& self.next <= self.maxi + 1
        &&& forall|i: int| self.maxi < i < MAX_PAGE_ALLOWED ==> !#[trigger] self.pages_available@[i]
    }

    /// A table with no free frame.
    pub fn empty() -> (a: Self)
        ensures
            a.wf(),
            a.spec_next() == 0,
            a.spec_maxi() == 0,
            forall|i: int| 0 <= i < MAX_PAGE_ALLOWED ==> !#[trigger] a@[i],
    {
        let mut pages_available: Vec<bool> = Vec::new();
        let mut i: usize = 0;
        while i < MAX_PAGE_ALLOWED
            invariant
                i <= MAX_PAGE_ALLOWED,
                pages_available@.len() == i,
                forall|j: int| 0 <= j < i ==> !#[trigger] pages_available@[j],
            decreases MAX_PAGE_ALLOWED - i,
        {
            pages_available.push(false);
            i += 1;
        }
        Self { pages_available, next: 0, maxi: 0 }
    }

    /// The table whose free frames are those starting at the given
    /// addresses (the usable frames of the memory map).
    pub fn with_frames(frames: &[u64]) -> (a: Self)
        requires
            forall|k: int| 0 <= k < frames@.len() ==> (#[trigger] frames@[k] >> 12u64) + 1 < MAX_PAGE_ALLOWED,
        ensures
            a.wf(),
            a.spec_next() == 0,
            forall|i: int| 0 <= i < MAX_PAGE_ALLOWED ==> #[trigger] a@[i] == exists|k: int|
                0 <= k < frames@.len() && #[trigger] (frames@[k] >> 12u64) == i,
            forall|k: int| 0 <= k < frames@.len() ==> (#[trigger] frames@[k] >> 12u64) <= a.spec_maxi(),
            frames@.len() == 0 ==> a.spec_maxi() == 0,
            frames@.len() > 0 ==> exists|k: int| 0 <= k < frames@.len() && (#[trigger] frames@[k] >> 12u64) == a.spec_maxi(),
    {
        let mut a = Self::empty();
        let mut k: usize = 0;
        while k < frames.len()
            invariant
                a.wf(),
                a.next == 0,
                k <= frames@.len(),
                forall|k: int| 0 <= k < frames@.len() ==> (#[trigger] frames@[k] >> 12u64) + 1 < MAX_PAGE_ALLOWED,
                forall|i: int| 0 <= i < MAX_PAGE_ALLOWED ==> #[trigger] a@[i] == exists|j: int|
                    0 <= j < k && #[trigger] (frames@[j] >> 12u64) == i,
                forall|j: int| 0 <= j < k ==> (#[trigger] frames@[j] >> 12u64) <= a.maxi,
                k == 0 ==> a.maxi == 0,
                k > 0 ==> exists|j: int| 0 <= j < k && (#[trigger] frames@[j] >> 12u64) == a.maxi,
            decreases frames@.len() - k,
        {
            let index = (frames[k] >> 12) as usize;
            let ghost prev_maxi = a.maxi;
            let ghost prev_pages = a@;
            assert(index as int == (frames@[k as int] >> 12u64) as int);
            a.pages_available.set(index, true);
            if index > a.maxi {
                a.maxi = index;
            }
            proof {
                assert forall|i: int| 0 <= i < MAX_PAGE_ALLOWED implies #[trigger] a@[i] == exists|j: int|
                    0 <= j < k + 1 && #[trigger] (frames@[j] >> 12u64) == i by {
                    if i == index {
                        assert(frames@[k as int] >> 12u64 == i);
                    } else {
                        assert(a@[i] == prev_pages[i]);
                        assert(prev_pages[i] == exists|j: int| 0 <= j < k && #[trigger] (frames@[j] >> 12u64) == i);
                    }
                    if i != index && exists|j: int| 0 <= j < k + 1 && #[trigger] (frames@[j] >> 12u64) == i {
                        let j = choose|j: int| 0 <= j < k + 1 && #[trigger] (frames@[j] >> 12u64) == i;
                        assert(j != k);
                    }
                }
                if k > 0 && index <= prev_maxi {
                    let j = choose|j: int| 0 <= j < k && (#[trigger] frames@[j] >> 12u64) == a.maxi;
                    assert(0 <= j < k + 1 && frames@[j] >> 12u64 == a.maxi);
                }
                if k == 0 || index > prev_maxi {
                    assert(frames@[k as int] >> 12u64 == a.maxi);
                }
            }
            k += 1;
        }
        a
    }

    /// Takes the first free frame met walking forward from the search
    /// position and wrapping after the highest frame; returns its address.
    pub fn allocate_4k_frame(&mut self) -> (r: Option<PhysAddr>)
        requires
            old(self).wf(),
        ensures
            final(self).wf(),
            final(self).spec_maxi() == old(self).spec_maxi(),
            r is None <==> forall|j: int| 0 <= j <= old(self).spec_maxi() ==> !#[trigger] old(self)@[j],
            r is None ==> final(self)@ == old(self)@,
            r is None ==> final(self).spec_next() == scan_position(
                old(self).spec_next() as int,
                MAX_PAGE_ALLOWED as nat,
                old(self).spec_maxi() as int,
            ),
            r matches Some(a) ==> ({
                let p = phys_addr_value(a) / 4096;
                let start = if old(self).spec_next() > old(self).spec_maxi() { 0 } else { old(self).spec_next() as int };
                &&& phys_addr_value(a) % 4096 == 0
                &&& 0 <= p <= old(self).spec_maxi()
                &&& old(self)@[p as int]
                &&& forall|j: int| 0 <= j <= old(self).spec_maxi()
                    && scan_distance(start, j, old(self).spec_maxi() as int) < scan_distance(start, p as int, old(self).spec_maxi() as int)
                    ==> !#[trigger] old(self)@[j]
                &&& final(self)@ == old(self)@.update(p as int, false)
                &&& final(self).spec_next() == p + 1
            }),
    {
        let ghost maxi = self.maxi as int;
        let ghost start: int = if self.next > self.maxi { 0 } else { self.next as int };
        let ghost mut wrapped = false;
        let mut count: usize = 0;
        while count < MAX_PAGE_ALLOWED
            invariant
                self.wf(),
                self.maxi == maxi,
                maxi == old(self).maxi,
                self.pages_available@ == old(self).pages_available@,
                start == if old(self).next > old(self).maxi { 0 } else { old(self).next as int },
                0 <= start <= maxi,
                count <= MAX_PAGE_ALLOWED,
                self.next == scan_position(old(self).next as int, count as nat, maxi),
                count == 0 ==> self.next == old(self).next,
                count > 0 ==> self.next <= maxi,
                !wrapped ==> (count > 0 || self.next <= maxi ==> self.next <= maxi),
                !wrapped && self.next <= maxi ==> count <= scan_distance(start, self.next as int, maxi) + 1,
                !wrapped && self.next <= maxi ==> forall|j: int| 0 <= j <= maxi
                    && scan_distance(start, j, maxi) < scan_distance(start, self.next as int, maxi)
                    ==> !#[trigger] self.pages_available@[j],
                !wrapped && self.next > maxi ==> count == 0,
                wrapped ==> forall|j: int| 0 <= j <= maxi ==> !#[trigger] self.pages_available@[j],
            decreases MAX_PAGE_ALLOWED - count,
        {
            if self.pages_available[self.next] {
                let p = self.next;
                assert(p as int <= maxi) by {
                    if p as int > maxi {
                        assert(!self.pages_available@[p as int]);
                    }
                }
                assert(old(self)@[p as int]);
                self.pages_available.set(p, false);
                self.next += 1;
                proof {
                    if wrapped {
                        assert(!old(self)@[p as int]);
                    }
                }
                assert((p as u64) << 12u64 == (p as u64) * 4096) by (bit_vector)
                    requires
                        p < 65536,
                ;
                let phys = new_phys_addr(((self.next as u64) - 1) << 12);
                proof {
                    vstd::arithmetic::div_mod::lemma_mod_multiples_basic(p as int, 4096);
                    vstd::arithmetic::div_mod::lemma_div_multiples_vanish(p as int, 4096);
                }
                return Some(phys);
            } else {
                let ghost p = self.next as int;
                self.next += 1;
                if self.next > self.maxi {
                    self.next = 0;
                }
                proof {
                    if !wrapped && p <= maxi {
                        if self.next as int == start {
                            assert forall|j: int| 0 <= j <= maxi implies !#[trigger] self.pages_available@[j] by {
                                if j != p {
                                    assert(scan_distance(start, j, maxi) < scan_distance(start, p, maxi));
                                }
                            }
                            wrapped = true;
                        } else {
                            assert(scan_distance(start, self.next as int, maxi) == scan_distance(start, p, maxi) + 1);
                        }
                    } else if !wrapped {
                        assert(self.next == 0);
                    }
                }
            }
            count += 1;
        }
        proof {
            if !wrapped {
                assert(scan_distance(start, self.next as int, maxi) <= maxi);
                assert(false);
            }
        }
        None
    }

    /// Gives the frame at `addr` back: it becomes free again. A frame past
    /// the highest frame of the table is never handed out and is already
    /// marked used; it stays so. The answer is always `Ok`.
    pub fn deallocate_4k_frame(&mut self, addr: PhysAddr) -> (r: Result<(), MemoryError>)
        requires
            old(self).wf(),
            phys_addr_value(addr) >> 12u64 < MAX_PAGE_ALLOWED,
        ensures
            final(self).wf(),
            r is Ok,
            phys_addr_value(addr) >> 12u64 <= old(self).spec_maxi() ==> final(self)@ == old(self)@.update(
                (phys_addr_value(addr) >> 12u64) as int,
                true,
            ),
            phys_addr_value(addr) >> 12u64 > old(self).spec_maxi() ==> final(self)@ == old(self)@ && !old(
                self,
            )@[(phys_addr_value(addr) >> 12u64) as int],
            final(self).spec_next() == old(self).spec_next(),
            final(self).spec_maxi() == old(self).spec_maxi(),
    {
        let table_index = phys_addr_as_u64(addr) >> 12;
        if table_index <= self.maxi as u64 {
            self.pages_available.set(table_index as usize, true);
        }
        Ok(())
    }
}

} // verus!
