//! Heap allocation: address alignment and the free-list allocator.
use vstd::prelude::*;

pub mod linked_list;

verus! {

/// The smallest multiple of `align` that is at least `addr`.
pub open spec fn spec_align_up(addr: int, align: int) -> int {
    if addr % align == 0 {
        addr
    } else {
        addr - addr % align + align
    }
}

/// Rounds `addr` up to the next multiple of `align`.
pub fn align_up(addr: usize, align: usize) -> (r: usize)
    requires
        align > 0,
        addr + align <= usize::MAX,
    ensures
        r == spec_align_up(addr as int, align as int),
{
    let remainder = addr % align;
    assert(remainder <= addr) by {
        vstd::arithmetic::div_mod::lemma_mod_decreases(addr as nat, align as nat);
    }
    if remainder == 0 {
        addr
    } else {
        addr - remainder + align
    }
}

/// `align_up` gives a multiple of `align`, no smaller than `addr` and less
/// than `align` above it.
pub proof fn lemma_align_up(addr: int, align: int)
    requires
        align > 0,
        addr >= 0,
    ensures
        spec_align_up(addr, align) % align == 0,
        addr <= spec_align_up(addr, align) < addr + align,
{
    vstd::arithmetic::div_mod::lemma_fundamental_div_mod(addr, align);
    let q = addr / align;
    let r = addr % align;
    assert(0 <= r < align) by {
        vstd::arithmetic::div_mod::lemma_mod_bound(addr, align);
    }
    if r != 0 {
        assert(addr - r + align == (q + 1) * align) by (nonlinear_arith)
            requires
                addr == align * q + r,
        ;
        vstd::arithmetic::div_mod::lemma_mod_multiples_basic(q + 1, align);
    }
}

} // verus!
