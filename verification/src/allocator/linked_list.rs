//! A first-fit heap allocator over a linked list of free regions.
//!
//! The free list starts at a sentinel head node (`first`, start address 0,
//! size 0) and is kept sorted by start address; neighbouring regions that
//! touch are merged when a region is given back.
use vstd::prelude::*;
use super::{align_up, lemma_align_up, spec_align_up};

verus! {

/// Size in bytes of a free-list node record: the smallest region the
/// allocator can keep track of.
pub const NODE_SIZE: usize = 24;

/// Alignment of a free-list node record.
pub const NODE_ALIGN: usize = 8;

/// A free region as seen by the specification: `(first, start, size)`.
pub type Region = (bool, int, int);

/// A node of the free list: a free segment of `size` bytes placed at `addr`.
/// The sentinel head node is `first` and starts at address 0.
pub struct ListNode {
    size: usize,
    first: bool,
    addr: usize,
    next: Option<Box<ListNode>>,
}

/// Start address plus size of a region.
pub open spec fn region_end(r: Region) -> int {
    r.1 + r.2
}

/// Every region of the list ends at a representable address.
pub open spec fn regions_fit(s: Seq<Region>) -> bool {
    forall|i: int| 0 <= i < s.len() ==> #[trigger] region_end(s[i]) <= usize::MAX
}

/// Regions are sorted by start address.
pub open spec fn regions_sorted(s: Seq<Region>) -> bool {
    forall|i: int, j: int| 0 <= i <= j < s.len() ==> s[i].1 <= s[j].1
}

/// Total number of free bytes in a list of regions.
pub open spec fn total_size(s: Seq<Region>) -> int
    decreases s.len(),
{
    if s.len() == 0 {
        0
    } else {
        s[0].2 + total_size(s.skip(1))
    }
}

/// Up to `nb` merge steps starting at the front of the list: a region that
/// is not the sentinel absorbs the next one when they touch; otherwise the
/// merging moves on to the next region.
pub open spec fn merge_spec(s: Seq<Region>, nb: nat) -> Seq<Region>
    decreases nb,
{
    if nb == 0 || s.len() < 2 {
        s
    } else if !s[0].0 && s[1].1 == region_end(s[0]) {
        merge_spec(seq![(s[0].0, s[0].1, s[0].2 + s[1].2)] + s.skip(2), (nb - 1) as nat)
    } else {
        seq![s[0]] + merge_spec(s.skip(1), (nb - 1) as nat)
    }
}

/// Places `r` after every region of `s` (past the first) whose start is not
/// above `r`'s start, then merges twice from the region before it.
pub open spec fn insert_spec(s: Seq<Region>, r: Region) -> Seq<Region>
    decreases s.len(),
{
    if s.len() <= 1 {
        s.push(r)
    } else if s[1].1 > r.1 {
        merge_spec(seq![s[0], r] + s.skip(1), 2)
    } else {
        seq![s[0]] + insert_spec(s.skip(1), r)
    }
}

/// The region can hold `size` bytes aligned to `align`, leaving either
/// nothing or room for a node record behind the allocation.
pub open spec fn region_fits(r: Region, size: int, align: int) -> bool {
    let start = spec_align_up(r.1, align);
    &&& start + size <= usize::MAX
    &&& start + size <= region_end(r)
    &&& (region_end(r) - (start + size) == 0 || region_end(r) - (start + size) >= NODE_SIZE)
}

/// Index of the first region at or after `from` that fits; the length of
/// the list when none does.
pub open spec fn first_fit(s: Seq<Region>, size: int, align: int, from: int) -> int
    decreases s.len() - from,
{
    if from >= s.len() {
        s.len() as int
    } else if region_fits(s[from], size, align) {
        from
    } else {
        first_fit(s, size, align, from + 1)
    }
}

/// Every region that a first-fit search for `size` bytes aligned to `align`
/// looks at, up to and including the one it takes, has a start that can be
/// rounded up to a multiple of `align` without leaving the address space.
pub open spec fn searched_alignable(s: Seq<Region>, size: int, align: int) -> bool {
    forall|i: int|
        1 <= i < s.len() && i <= first_fit(s, size, align, 1) ==> #[trigger] s[i].1 + align
            <= usize::MAX
}

/// `x` is a power of two.
pub open spec fn is_power_of_two(x: usize) -> bool {
    x > 0 && x & ((x - 1) as usize) == 0
}

/// The alignment the allocator works with: at least that of a node record.
pub open spec fn spec_adjusted_align(align: usize) -> int {
    if align > NODE_ALIGN {
        align as int
    } else {
        NODE_ALIGN as int
    }
}

/// The block size reserved for `size` bytes: padded to the adjusted
/// alignment, and never smaller than a node record.
pub open spec fn spec_adjusted_size(size: usize, align: usize) -> int {
    let padded = spec_align_up(size as int, spec_adjusted_align(align));
    if padded > NODE_SIZE {
        padded
    } else {
        NODE_SIZE as int
    }
}

/// The free list once the allocation carved out of region `i` is gone: the
/// region leaves the list, and what remains behind the allocated block
/// comes back as a free region.
pub open spec fn after_alloc(s: Seq<Region>, i: int, size: int, align: int) -> Seq<Region> {
    let end = spec_align_up(s[i].1, align) + size;
    let excess = region_end(s[i]) - end;
    if excess > 0 {
        insert_spec(s.remove(i), (false, end, excess))
    } else {
        s.remove(i)
    }
}

proof fn lemma_power_of_two_above_node_align(x: usize)
    requires
        is_power_of_two(x),
        x > NODE_ALIGN,
    ensures
        x % NODE_ALIGN == 0,
{
    assert(x % 8 == 0) by (bit_vector)
        requires
            x > 8,
            x & ((x - 1) as usize) == 0,
    ;
}

proof fn lemma_mod_transitive(x: int, a: int, b: int)
    requires
        x >= 0,
        a > 0,
        b > 0,
        x % a == 0,
        a % b == 0,
    ensures
        x % b == 0,
{
    vstd::arithmetic::div_mod::lemma_fundamental_div_mod(x, a);
    vstd::arithmetic::div_mod::lemma_fundamental_div_mod(a, b);
    let q = x / a;
    let m = a / b;
    assert(x == (q * m) * b) by (nonlinear_arith)
        requires
            x == a * q,
            a == b * m,
    ;
    vstd::arithmetic::div_mod::lemma_mod_multiples_basic(q * m, b);
}

proof fn lemma_first_fit_skip(s: Seq<Region>, size: int, align: int, from: int)
    requires
        1 <= from,
        s.len() >= 1,
    ensures
        first_fit(s, size, align, from) == first_fit(s.skip(1), size, align, from - 1) + 1,
    decreases s.len() - from,
{
    if from < s.len() && !region_fits(s[from], size, align) {
        lemma_first_fit_skip(s, size, align, from + 1);
    }
}

proof fn lemma_first_fit_range(s: Seq<Region>, size: int, align: int, from: int)
    requires
        0 <= from,
    ensures
        from <= first_fit(s, size, align, from) <= s.len() || (from > s.len() && first_fit(s, size, align, from) == s.len()),
        first_fit(s, size, align, from) < s.len() ==> region_fits(s[first_fit(s, size, align, from)], size, align),
        forall|j: int| from <= j < first_fit(s, size, align, from) ==> !region_fits(#[trigger] s[j], size, align),
    decreases s.len() - from,
{
    if from < s.len() && !region_fits(s[from], size, align) {
        lemma_first_fit_range(s, size, align, from + 1);
    }
}

impl ListNode {
    /// This node as a region of the specification.
    pub closed spec fn entry(&self) -> Region {
        (self.first, if self.first { 0 } else { self.addr as int }, self.size as int)
    }

    /// The regions of the list that starts at this node.
    pub closed spec fn view(&self) -> Seq<Region>
        decreases self,
    {
        seq![self.entry()] + match self.next {
            Some(n) => n.view(),
            None => Seq::empty(),
        }
    }

    /// Every region of the list starts at a non-negative address and has a
    /// non-negative size.
    pub proof fn lemma_view_nonneg(&self)
        ensures
            forall|i: int| 0 <= i < self@.len() ==> (#[trigger] self@[i]).1 >= 0 && self@[i].2 >= 0,
        decreases self,
    {
        self.lemma_view();
        if let Some(n) = self.next {
            n.lemma_view_nonneg();
            assert forall|i: int| 0 <= i < self@.len() implies (#[trigger] self@[i]).1 >= 0 && self@[i].2 >= 0 by {
                if i > 0 {
                    assert(self@[i] == self@.skip(1)[i - 1]);
                }
            }
        }
    }

    proof fn lemma_view(&self)
        ensures
            self@.len() >= 1,
            self@[0] == self.entry(),
            self.next is None ==> self@.len() == 1,
            self.next is Some ==> self@.skip(1) =~= self.next->Some_0@,
        decreases self,
    {
        if let Some(n) = self.next {
            n.lemma_view();
        }
    }

    /// Creates a node of the given size and kind.
    pub fn new(size: usize, first: bool) -> (n: Self)
        ensures
            n@ == seq![(first, 0int, size as int)],
    {
        let n = ListNode { size, first, addr: 0, next: None };
        proof {
            n.lemma_view();
        }
        assert(n@ =~= seq![(first, 0int, size as int)]);
        n
    }

    /// Start address of the region: 0 for the sentinel head, the node's own
    /// address otherwise.
    pub fn start_addr(&self) -> (a: usize)
        ensures
            a == self@[0].1,
    {
        proof {
            self.lemma_view();
        }
        if self.first {
            0
        } else {
            self.addr
        }
    }

    /// End address of the region.
    pub fn end_addr(&self) -> (a: usize)
        requires
            region_end(self@[0]) <= usize::MAX,
        ensures
            a == region_end(self@[0]),
    {
        proof {
            self.lemma_view();
        }
        self.start_addr() + self.size
    }

    /// Performs up to `nb` merge steps: when `self` is not the sentinel and
    /// the next region starts where `self` ends, `self` absorbs it;
    /// otherwise the merging continues from the next region.
    pub fn merge_partial(&mut self, nb: usize)
        requires
            regions_fit(old(self)@),
        ensures
            final(self)@ == merge_spec(old(self)@, nb as nat),
            regions_fit(final(self)@),
            forall|a: int| #[trigger] region_covers(final(self)@, a) == region_covers(old(self)@, a),
            regions_sorted(old(self)@) ==> regions_sorted(final(self)@),
            regions_disjoint(old(self)@) ==> regions_disjoint(final(self)@),
            final(self)@.len() <= old(self)@.len() <= final(self)@.len() + nb,
            nb == 0 ==> final(self)@ == old(self)@,
        decreases nb,
    {
        proof {
            self.lemma_view();
            self.lemma_view_nonneg();
            assert forall|a: int| #[trigger] region_covers(merge_spec(old(self)@, nb as nat), a) == region_covers(
                old(self)@,
                a,
            ) by {
                lemma_merge_preserves_cover(old(self)@, nb as nat, a);
            }
            lemma_merge_preserves_cover(old(self)@, nb as nat, 0);
            if regions_sorted(old(self)@) {
                lemma_merge_preserves_sorted(old(self)@, nb as nat);
            }
            if regions_disjoint(old(self)@) {
                lemma_merge_preserves_disjoint(old(self)@, nb as nat);
            }
        }
        if nb != 0 && !self.first {
            let end_addr = self.end_addr();
            match self.next.take() {
                Some(mut next_region) => {
                    proof {
                        next_region.lemma_view();
                    }
                    let next_size = next_region.size;
                    let next_next = next_region.next.take();
                    if next_region.start_addr() == end_addr {
                        assert(region_end(old(self)@[1]) <= usize::MAX);
                        self.size = self.size + next_size;
                        self.next = next_next;
                        proof {
                            self.lemma_view();
                            assert(self@ =~= seq![(old(self)@[0].0, old(self)@[0].1, old(self)@[0].2 + old(self)@[1].2)] + old(self)@.skip(2));
                            assert forall|i: int| 0 <= i < self@.len() implies #[trigger] region_end(self@[i]) <= usize::MAX by {
                                if i > 0 {
                                    assert(self@[i] == old(self)@[i + 1]);
                                }
                            }
                        }
                        self.merge_partial(nb - 1);
                    } else {
                        next_region.next = next_next;
                        proof {
                            next_region.lemma_view();
                            assert(next_region@ =~= old(self)@.skip(1));
                            assert forall|i: int| 0 <= i < next_region@.len() implies #[trigger] region_end(next_region@[i]) <= usize::MAX by {
                                assert(next_region@[i] == old(self)@[i + 1]);
                            }
                        }
                        next_region.merge_partial(nb - 1);
                        self.next = Some(next_region);
                        proof {
                            self.lemma_view();
                            assert(self@ =~= seq![old(self)@[0]] + merge_spec(old(self)@.skip(1), (nb - 1) as nat));
                        }
                    }
                },
                None => {
                    assert(self@ =~= old(self)@);
                },
            }
        } else {
            if nb == 0 {
                return;
            } else {
                match self.next.take() {
                    Some(mut next_region) => {
                        proof {
                            assert(next_region@ =~= old(self)@.skip(1));
                            assert forall|i: int| 0 <= i < next_region@.len() implies #[trigger] region_end(next_region@[i]) <= usize::MAX by {
                                assert(next_region@[i] == old(self)@[i + 1]);
                            }
                        }
                        next_region.merge_partial(nb - 1);
                        self.next = Some(next_region);
                        proof {
                            self.lemma_view();
                            assert(self@ =~= seq![old(self)@[0]] + merge_spec(old(self)@.skip(1), (nb - 1) as nat));
                        }
                    },
                    None => {
                        assert(self@ =~= old(self)@);
                    },
                }
            }
        }
    }

    /// Links `node` in after every region (past this one) whose start is
    /// not above its own, then merges twice from the region before it.
    fn insert_region(&mut self, mut node: Box<ListNode>)
        requires
            regions_fit(old(self)@),
            node@.len() == 1,
            region_end(node@[0]) <= usize::MAX,
        ensures
            final(self)@ == insert_spec(old(self)@, node@[0]),
            regions_fit(final(self)@),
        decreases old(self)@.len(),
    {
        proof {
            self.lemma_view();
            node.lemma_view();
        }
        match self.next.take() {
            Some(mut next_region) => {
                proof {
                    next_region.lemma_view();
                    assert(next_region@ =~= old(self)@.skip(1));
                }
                if next_region.start_addr() > node.start_addr() {
                    let ghost r = node@[0];
                    node.next = Some(next_region);
                    self.next = Some(node);
                    proof {
                        node.lemma_view();
                        self.lemma_view();
                        assert(self@ =~= seq![old(self)@[0], r] + old(self)@.skip(1));
                        assert forall|i: int| 0 <= i < self@.len() implies #[trigger] region_end(self@[i]) <= usize::MAX by {
                            if i >= 2 {
                                assert(self@[i] == old(self)@[i - 1]);
                            }
                        }
                    }
                    self.merge_partial(2);
                } else {
                    proof {
                        assert forall|i: int| 0 <= i < next_region@.len() implies #[trigger] region_end(next_region@[i]) <= usize::MAX by {
                            assert(next_region@[i] == old(self)@[i + 1]);
                        }
                    }
                    next_region.insert_region(node);
                    self.next = Some(next_region);
                    proof {
                        self.lemma_view();
                        assert(self@ =~= seq![old(self)@[0]] + insert_spec(old(self)@.skip(1), node@[0]));
                    }
                }
            },
            None => {
                self.next = Some(node);
                proof {
                    self.lemma_view();
                    assert(self@ =~= old(self)@.push(node@[0]));
                }
            },
        }
    }

    /// Whether a first-fit search behind this node for `size` bytes aligned
    /// to `align` meets only region starts that can be rounded up to `align`
    /// inside the address space.
    fn search_alignable(&self, size: usize, align: usize) -> (b: bool)
        requires
            regions_fit(self@),
            align > 0,
        ensures
            b == searched_alignable(self@, size as int, align as int),
        decreases self@.len(),
    {
        proof {
            self.lemma_view();
            lemma_first_fit_range(self@, size as int, align as int, 1);
        }
        match &self.next {
            None => true,
            Some(region) => {
                proof {
                    region.lemma_view();
                    assert(region@ =~= self@.skip(1));
                    assert(region@[0] == self@[1]);
                }
                if region.start_addr() > usize::MAX - align {
                    return false;
                }
                match LinkedListAllocator::alloc_from_region(region, size, align) {
                    Ok(_) => true,
                    Err(()) => {
                        let ghost s = self@;
                        proof {
                            assert forall|i: int| 0 <= i < region@.len() implies #[trigger] region_end(region@[i]) <= usize::MAX by {
                                assert(region@[i] == s[i + 1]);
                            }
                            lemma_first_fit_skip(s, size as int, align as int, 2);
                            assert(first_fit(s, size as int, align as int, 1) == first_fit(s, size as int, align as int, 2));
                        }
                        let b = region.search_alignable(size, align);
                        proof {
                            if b {
                                assert forall|i: int|
                                    1 <= i < s.len() && i <= first_fit(s, size as int, align as int, 1)
                                    implies #[trigger] s[i].1 + align <= usize::MAX by {
                                    if i >= 2 {
                                        assert(s[i] == region@[i - 1]);
                                    }
                                }
                            } else {
                                let j = choose|j: int|
                                    1 <= j < region@.len() && j <= first_fit(region@, size as int, align as int, 1)
                                    && !(#[trigger] region@[j].1 + align <= usize::MAX);
                                assert(s[j + 1] == region@[j]);
                            }
                        }
                        b
                    },
                }
            },
        }
    }

    /// Detaches the first region after this node that can hold `size` bytes
    /// aligned to `align`, with the aligned start of the allocation.
    fn take_first_fit(&mut self, size: usize, align: usize) -> (r: Option<(Box<ListNode>, usize)>)
        requires
            regions_fit(old(self)@),
            searched_alignable(old(self)@, size as int, align as int),
            align > 0,
        ensures
            ({
                let s = old(self)@;
                let i = first_fit(s, size as int, align as int, 1);
                &&& i == s.len() ==> r is None && final(self)@ == s
                &&& i < s.len() ==> (r matches Some((region, start)) && region@ == seq![s[i]]
                    && start == spec_align_up(s[i].1, align as int) && final(self)@ == s.remove(i))
            }),
            regions_fit(final(self)@),
        decreases old(self)@.len(),
    {
        proof {
            self.lemma_view();
            lemma_first_fit_range(old(self)@, size as int, align as int, 1);
        }
        match self.next.take() {
            Some(mut region) => {
                proof {
                    region.lemma_view();
                    assert(region@ =~= old(self)@.skip(1));
                    assert(region_end(old(self)@[1]) <= usize::MAX);
                    assert(old(self)@[1].1 + align <= usize::MAX);
                }
                match LinkedListAllocator::alloc_from_region(&region, size, align) {
                    Ok(alloc_start) => {
                        let next = region.next.take();
                        self.next = next;
                        proof {
                            region.lemma_view();
                            self.lemma_view();
                            assert(self@ =~= old(self)@.remove(1));
                            assert(region@ =~= seq![old(self)@[1]]);
                            assert forall|i: int| 0 <= i < self@.len() implies #[trigger] region_end(self@[i]) <= usize::MAX by {
                                if i >= 1 {
                                    assert(self@[i] == old(self)@[i + 1]);
                                }
                            }
                        }
                        Some((region, alloc_start))
                    },
                    Err(()) => {
                        proof {
                            assert forall|i: int| 0 <= i < region@.len() implies #[trigger] region_end(region@[i]) <= usize::MAX by {
                                assert(region@[i] == old(self)@[i + 1]);
                            }
                            lemma_first_fit_skip(old(self)@, size as int, align as int, 1);
                            lemma_first_fit_skip(old(self)@, size as int, align as int, 2);
                            assert(old(self)@.len() >= 2);
                            assert(first_fit(old(self)@, size as int, align as int, 1) == first_fit(old(self)@, size as int, align as int, 2));
                            assert forall|j: int|
                                1 <= j < region@.len() && j <= first_fit(region@, size as int, align as int, 1)
                                implies #[trigger] region@[j].1 + align <= usize::MAX by {
                                assert(region@[j] == old(self)@[j + 1]);
                            }
                        }
                        let r = region.take_first_fit(size, align);
                        self.next = Some(region);
                        proof {
                            self.lemma_view();
                            let s = old(self)@;
                            let i = first_fit(s, size as int, align as int, 1);
                            assert(self@ =~= seq![s[0]] + region@);
                            if i < s.len() {
                                assert(i == first_fit(s.skip(1), size as int, align as int, 0) + 1);
                                assert(self@ =~= s.remove(i));
                            } else {
                                assert(self@ =~= s);
                            }
                            assert forall|i: int| 0 <= i < self@.len() implies #[trigger] region_end(self@[i]) <= usize::MAX by {
                                if i >= 1 {
                                    assert(self@[i] == region@[i - 1]);
                                }
                            }
                        }
                        r
                    },
                }
            },
            None => {
                assert(old(self)@.len() == 1);
                None
            },
        }
    }
}

/// A heap allocator keeping its free regions in a sorted linked list headed
/// by a sentinel node.
pub struct LinkedListAllocator {
    head: ListNode,
}

impl LinkedListAllocator {
    /// The free list, sentinel head first.
    pub closed spec fn view(&self) -> Seq<Region> {
        self.head@
    }

    /// The list starts with the sentinel and every region ends inside the
    /// address space.
    pub closed spec fn wf(&self) -> bool {
        &&& self@.len() >= 1
        &&& self@[0] == (true, 0int, 0int)
        &&& regions_fit(self@)
    }

    /// An allocator with no free region.
    pub fn new() -> (a: Self)
        ensures
            a.wf(),
            a@ == seq![(true, 0int, 0int)],
    {
        Self { head: ListNode::new(0, true) }
    }

    /// Adds the free region `[addr, addr + size)`, keeping the list sorted
    /// and merging it with touching neighbours.
    fn add_free_region(&mut self, addr: usize, size: usize)
        requires
            old(self).wf(),
            addr % NODE_ALIGN == 0,
            size >= NODE_SIZE,
            addr + size <= usize::MAX,
        ensures
            final(self).wf(),
            final(self)@ == insert_spec(old(self)@, (false, addr as int, size as int)),
    {
        // The node record is placed at the start of the region it describes.
        let node = ListNode { size, first: false, addr, next: None };
        proof {
            node.lemma_view();
            assert(node@ =~= seq![(false, addr as int, size as int)]);
        }
        self.head.insert_region(Box::new(node));
        proof {
            self.head.lemma_view();
        }
    }

    /// Hands the heap `[heap_start, heap_start + heap_size)` to the allocator.
    pub fn init(&mut self, heap_start: usize, heap_size: usize)
        requires
            old(self).wf(),
            heap_start % NODE_ALIGN == 0,
            heap_size >= NODE_SIZE,
            heap_start + heap_size <= usize::MAX,
        ensures
            final(self).wf(),
            final(self)@ == insert_spec(old(self)@, (false, heap_start as int, heap_size as int)),
    {
        self.add_free_region(heap_start, heap_size)
    }

    /// Detaches the first free region that can hold `size` bytes aligned to
    /// `align`, returning it with the aligned start of the allocation.
    fn find_region(&mut self, size: usize, align: usize) -> (r: Option<(Box<ListNode>, usize)>)
        requires
            old(self).wf(),
            searched_alignable(old(self)@, size as int, align as int),
            align > 0,
        ensures
            final(self).wf(),
            ({
                let s = old(self)@;
                let i = first_fit(s, size as int, align as int, 1);
                &&& i == s.len() ==> r is None && final(self)@ == s
                &&& i < s.len() ==> (r matches Some((region, start)) && region@ == seq![s[i]]
                    && start == spec_align_up(s[i].1, align as int) && final(self)@ == s.remove(i))
            }),
    {
        proof {
            lemma_first_fit_range(old(self)@, size as int, align as int, 1);
        }
        self.head.take_first_fit(size, align)
    }

    /// Size and alignment of the block reserved for a request of `size`
    /// bytes aligned to `align`: the alignment is raised to that of a node
    /// record, the size is padded to it and made at least a node record.
    pub fn size_align(size: usize, align: usize) -> (r: (usize, usize))
        requires
            is_power_of_two(align),
            size + spec_adjusted_align(align) - 1 <= isize::MAX,
        ensures
            r.0 == spec_adjusted_size(size, align),
            r.1 == spec_adjusted_align(align),
    {
        let adjusted = if align > NODE_ALIGN {
            align
        } else {
            NODE_ALIGN
        };
        let padded = align_up(size, adjusted);
        let block = if padded > NODE_SIZE {
            padded
        } else {
            NODE_SIZE
        };
        (block, adjusted)
    }

    /// Whether `allocate(size, align)` may search the free list: every region
    /// that its first-fit search looks at has a start that can be rounded up
    /// to the adjusted alignment inside the address space.
    pub fn search_in_range(&self, size: usize, align: usize) -> (b: bool)
        requires
            self.wf(),
            is_power_of_two(align),
            size + spec_adjusted_align(align) - 1 <= isize::MAX,
        ensures
            b == searched_alignable(
                self@,
                spec_adjusted_size(size, align),
                spec_adjusted_align(align),
            ),
    {
        let (size, align) = Self::size_align(size, align);
        self.head.search_alignable(size, align)
    }

    /// Allocates `size` bytes aligned to `align` in the first free region
    /// that can hold them; what is left behind the block goes back to the
    /// free list. `None` when no region fits.
    pub fn allocate(&mut self, size: usize, align: usize) -> (r: Option<usize>)
        requires
            old(self).wf(),
            is_power_of_two(align),
            size + spec_adjusted_align(align) - 1 <= isize::MAX,
            searched_alignable(
                old(self)@,
                spec_adjusted_size(size, align),
                spec_adjusted_align(align),
            ),
        ensures
            final(self).wf(),
            ({
                let s = old(self)@;
                let sz = spec_adjusted_size(size, align);
                let al = spec_adjusted_align(align);
                let i = first_fit(s, sz, al, 1);
                &&& i == s.len() ==> r is None && final(self)@ == s
                &&& i < s.len() ==> r == Some(spec_align_up(s[i].1, al) as usize)
                    && final(self)@ == after_alloc(s, i, sz, al)
            }),
    {
        let ghost requested = size;
        let (size, align) = Self::size_align(size, align);
        match self.find_region(size, align) {
            Some((region, alloc_start)) => {
                let ghost s = old(self)@;
                let ghost i = first_fit(s, size as int, align as int, 1);
                proof {
                    lemma_first_fit_range(s, size as int, align as int, 1);
                    region.lemma_view();
                }
                let alloc_end = alloc_start + size;
                let excess_size = region.end_addr() - alloc_end;
                if excess_size > 0 {
                    proof {
                        lemma_align_up(s[i].1, align as int);
                        if align > NODE_ALIGN {
                            lemma_power_of_two_above_node_align(align);
                        }
                        lemma_align_up(requested as int, align as int);
                        lemma_mod_transitive(alloc_start as int, align as int, NODE_ALIGN as int);
                        if size > NODE_SIZE {
                            lemma_mod_transitive(size as int, align as int, NODE_ALIGN as int);
                        }
                        assert((alloc_start + size) % 8 == 0) by {
                            vstd::arithmetic::div_mod::lemma_add_mod_noop(alloc_start as int, size as int, 8);
                        }
                    }
                    self.add_free_region(alloc_end, excess_size);
                }
                Some(alloc_start)
            },
            None => None,
        }
    }

    /// Gives back the block of `size` bytes aligned to `align` that starts
    /// at `ptr`.
    pub fn deallocate(&mut self, ptr: usize, size: usize, align: usize)
        requires
            old(self).wf(),
            is_power_of_two(align),
            size + spec_adjusted_align(align) - 1 <= isize::MAX,
            ptr % NODE_ALIGN == 0,
            ptr + spec_adjusted_size(size, align) <= usize::MAX,
        ensures
            final(self).wf(),
            final(self)@ == insert_spec(old(self)@, (false, ptr as int, spec_adjusted_size(size, align))),
    {
        let (size, _) = Self::size_align(size, align);
        self.add_free_region(ptr, size)
    }

    /// Whether `region` can hold `size` bytes aligned to `align`: `Ok` with
    /// the aligned start when the allocation fits and leaves either nothing
    /// or room for a node record behind it.
    fn alloc_from_region(region: &ListNode, size: usize, align: usize) -> (r: Result<usize, ()>)
        requires
            align > 0,
            region@[0].1 + align <= usize::MAX,
            region_end(region@[0]) <= usize::MAX,
        ensures
            r is Ok <==> region_fits(region@[0], size as int, align as int),
            r matches Ok(start) ==> start == spec_align_up(region@[0].1, align as int),
    {
        let alloc_start = align_up(region.start_addr(), align);
        let alloc_end = match alloc_start.checked_add(size) {
            Some(e) => e,
            None => {
                return Err(());
            },
        };
        if alloc_end > region.end_addr() {
            return Err(());
        }
        let excess_size = region.end_addr() - alloc_end;
        if excess_size > 0 && excess_size < NODE_SIZE {
            return Err(());
        }
        Ok(alloc_start)
    }
}

} // verus!

verus! {

proof fn lemma_total_cons(e: Region, s: Seq<Region>)
    ensures
        total_size(seq![e] + s) == e.2 + total_size(s),
{
    assert((seq![e] + s).skip(1) =~= s);
}

proof fn lemma_total_push(s: Seq<Region>, r: Region)
    ensures
        total_size(s.push(r)) == total_size(s) + r.2,
    decreases s.len(),
{
    if s.len() == 0 {
        assert(s.push(r).skip(1) =~= Seq::<Region>::empty());
        assert(total_size(s.push(r)) == r.2 + total_size(s.push(r).skip(1)));
    } else {
        assert(s.push(r).skip(1) =~= s.skip(1).push(r));
        lemma_total_push(s.skip(1), r);
        assert(total_size(s.push(r)) == s[0].2 + total_size(s.push(r).skip(1)));
        assert(total_size(s) == s[0].2 + total_size(s.skip(1)));
    }
}

proof fn lemma_total_remove(s: Seq<Region>, i: int)
    requires
        0 <= i < s.len(),
    ensures
        total_size(s.remove(i)) == total_size(s) - s[i].2,
    decreases i,
{
    if i == 0 {
        assert(s.remove(0) =~= s.skip(1));
    } else {
        assert(s.remove(i) =~= seq![s[0]] + s.skip(1).remove(i - 1));
        lemma_total_cons(s[0], s.skip(1).remove(i - 1));
        lemma_total_remove(s.skip(1), i - 1);
    }
}

/// Merging never changes the number of free bytes.
pub proof fn lemma_merge_preserves_total(s: Seq<Region>, nb: nat)
    ensures
        total_size(merge_spec(s, nb)) == total_size(s),
    decreases nb,
{
    if nb == 0 || s.len() < 2 {
    } else if !s[0].0 && s[1].1 == region_end(s[0]) {
        let m = seq![(s[0].0, s[0].1, s[0].2 + s[1].2)] + s.skip(2);
        lemma_merge_preserves_total(m, (nb - 1) as nat);
        lemma_total_cons((s[0].0, s[0].1, s[0].2 + s[1].2), s.skip(2));
        assert(s.skip(1).skip(1) =~= s.skip(2));
        assert(total_size(s) == s[0].2 + total_size(s.skip(1)));
        assert(total_size(s.skip(1)) == s.skip(1)[0].2 + total_size(s.skip(1).skip(1)));
        assert(merge_spec(s, nb) == merge_spec(m, (nb - 1) as nat));
    } else {
        lemma_merge_preserves_total(s.skip(1), (nb - 1) as nat);
        lemma_total_cons(s[0], merge_spec(s.skip(1), (nb - 1) as nat));
        assert(merge_spec(s, nb) == seq![s[0]] + merge_spec(s.skip(1), (nb - 1) as nat));
    }
}

/// Giving a region back adds exactly its size to the free bytes.
pub proof fn lemma_insert_adds_size(s: Seq<Region>, r: Region)
    ensures
        total_size(insert_spec(s, r)) == total_size(s) + r.2,
    decreases s.len(),
{
    if s.len() <= 1 {
        lemma_total_push(s, r);
    } else if s[1].1 > r.1 {
        let t = seq![s[0], r] + s.skip(1);
        lemma_merge_preserves_total(t, 2);
        assert(t =~= seq![s[0]] + (seq![r] + s.skip(1)));
        lemma_total_cons(s[0], seq![r] + s.skip(1));
        lemma_total_cons(r, s.skip(1));
    } else {
        lemma_insert_adds_size(s.skip(1), r);
        lemma_total_cons(s[0], insert_spec(s.skip(1), r));
    }
}

/// An allocation takes out of the free bytes exactly the block and the
/// alignment padding in front of it.
pub proof fn lemma_alloc_takes_block(s: Seq<Region>, i: int, size: int, align: int)
    requires
        1 <= i < s.len(),
        region_fits(s[i], size, align),
    ensures
        total_size(after_alloc(s, i, size, align)) == total_size(s) - (spec_align_up(s[i].1, align) + size - s[i].1),
{
    lemma_total_remove(s, i);
    let end = spec_align_up(s[i].1, align) + size;
    let excess = region_end(s[i]) - end;
    if excess > 0 {
        lemma_insert_adds_size(s.remove(i), (false, end, excess));
    }
}

proof fn lemma_merge_lower_bound(s: Seq<Region>, nb: nat, x: int)
    requires
        forall|j: int| 0 <= j < s.len() ==> #[trigger] s[j].1 >= x,
    ensures
        forall|k: int| 0 <= k < merge_spec(s, nb).len() ==> #[trigger] merge_spec(s, nb)[k].1 >= x,
    decreases nb,
{
    if nb == 0 || s.len() < 2 {
    } else if !s[0].0 && s[1].1 == region_end(s[0]) {
        let m = seq![(s[0].0, s[0].1, s[0].2 + s[1].2)] + s.skip(2);
        assert forall|j: int| 0 <= j < m.len() implies #[trigger] m[j].1 >= x by {
            if j > 0 {
                assert(m[j] == s[j + 1]);
            }
        }
        lemma_merge_lower_bound(m, (nb - 1) as nat, x);
        assert(merge_spec(s, nb) == merge_spec(m, (nb - 1) as nat));
    } else {
        assert forall|j: int| 0 <= j < s.skip(1).len() implies #[trigger] s.skip(1)[j].1 >= x by {
            assert(s.skip(1)[j] == s[j + 1]);
        }
        lemma_merge_lower_bound(s.skip(1), (nb - 1) as nat, x);
        let t = merge_spec(s.skip(1), (nb - 1) as nat);
        assert(merge_spec(s, nb) == seq![s[0]] + t);
        assert forall|k: int| 0 <= k < (seq![s[0]] + t).len() implies #[trigger] (seq![s[0]] + t)[k].1 >= x by {
            if k > 0 {
                assert((seq![s[0]] + t)[k] == t[k - 1]);
            }
        }
    }
}

/// Address `a` lies in one of the regions of `s`.
pub open spec fn region_covers(s: Seq<Region>, a: int) -> bool {
    exists|i: int| 0 <= i < s.len() && #[trigger] s[i].1 <= a < region_end(s[i])
}

/// Merging keeps the set of covered addresses, and takes away at most one
/// region per step.
pub proof fn lemma_merge_preserves_cover(s: Seq<Region>, nb: nat, a: int)
    requires
        forall|i: int| 0 <= i < s.len() ==> #[trigger] s[i].2 >= 0,
    ensures
        region_covers(merge_spec(s, nb), a) == region_covers(s, a),
        merge_spec(s, nb).len() + nb >= s.len(),
        merge_spec(s, nb).len() <= s.len(),
    decreases nb,
{
    if nb == 0 || s.len() < 2 {
    } else if !s[0].0 && s[1].1 == region_end(s[0]) {
        let m = seq![(s[0].0, s[0].1, s[0].2 + s[1].2)] + s.skip(2);
        assert forall|i: int| 0 <= i < m.len() implies #[trigger] m[i].2 >= 0 by {
            if i > 0 {
                assert(m[i] == s[i + 1]);
            }
        }
        lemma_merge_preserves_cover(m, (nb - 1) as nat, a);
        assert(merge_spec(s, nb) == merge_spec(m, (nb - 1) as nat));
        if region_covers(s, a) {
            let i = choose|i: int| 0 <= i < s.len() && #[trigger] s[i].1 <= a < region_end(s[i]);
            if i <= 1 {
                assert(m[0].1 <= a < region_end(m[0]));
            } else {
                assert(m[i - 1] == s[i]);
            }
        }
        if region_covers(m, a) {
            let i = choose|i: int| 0 <= i < m.len() && #[trigger] m[i].1 <= a < region_end(m[i]);
            if i == 0 {
                if a < region_end(s[0]) {
                    assert(s[0].1 <= a < region_end(s[0]));
                } else {
                    assert(s[1].1 <= a < region_end(s[1]));
                }
            } else {
                assert(m[i] == s[i + 1]);
            }
        }
    } else {
        let t = merge_spec(s.skip(1), (nb - 1) as nat);
        assert forall|i: int| 0 <= i < s.skip(1).len() implies #[trigger] s.skip(1)[i].2 >= 0 by {
            assert(s.skip(1)[i] == s[i + 1]);
        }
        lemma_merge_preserves_cover(s.skip(1), (nb - 1) as nat, a);
        assert(merge_spec(s, nb) == seq![s[0]] + t);
        let m = seq![s[0]] + t;
        if region_covers(s, a) {
            let i = choose|i: int| 0 <= i < s.len() && #[trigger] s[i].1 <= a < region_end(s[i]);
            if i == 0 {
                assert(m[0].1 <= a < region_end(m[0]));
            } else {
                assert(s.skip(1)[i - 1] == s[i]);
                let k = choose|k: int| 0 <= k < t.len() && #[trigger] t[k].1 <= a < region_end(t[k]);
                assert(m[k + 1] == t[k]);
            }
        }
        if region_covers(m, a) {
            let i = choose|i: int| 0 <= i < m.len() && #[trigger] m[i].1 <= a < region_end(m[i]);
            if i == 0 {
                assert(s[0].1 <= a < region_end(s[0]));
            } else {
                assert(m[i] == t[i - 1]);
                assert(region_covers(t, a));
                let k = choose|k: int| 0 <= k < s.skip(1).len() && #[trigger] s.skip(1)[k].1 <= a < region_end(
                    s.skip(1)[k],
                );
                assert(s[k + 1] == s.skip(1)[k]);
            }
        }
    }
}

/// Every region ends no later than any later region starts: the regions
/// do not overlap.
pub open spec fn regions_disjoint(s: Seq<Region>) -> bool {
    forall|i: int, j: int| 0 <= i < j < s.len() ==> region_end(#[trigger] s[i]) <= #[trigger] s[j].1
}

/// Merging keeps the regions from overlapping.
pub proof fn lemma_merge_preserves_disjoint(s: Seq<Region>, nb: nat)
    requires
        regions_disjoint(s),
    ensures
        regions_disjoint(merge_spec(s, nb)),
    decreases nb,
{
    if nb == 0 || s.len() < 2 {
    } else if !s[0].0 && s[1].1 == region_end(s[0]) {
        let m = seq![(s[0].0, s[0].1, s[0].2 + s[1].2)] + s.skip(2);
        assert forall|i: int, j: int| 0 <= i < j < m.len() implies region_end(#[trigger] m[i]) <= #[trigger] m[j].1 by {
            assert(m[j] == s[j + 1]);
            if i > 0 {
                assert(m[i] == s[i + 1]);
            } else {
                assert(region_end(m[0]) == region_end(s[1]));
                assert(region_end(s[1]) <= s[j + 1].1);
            }
        }
        lemma_merge_preserves_disjoint(m, (nb - 1) as nat);
        assert(merge_spec(s, nb) == merge_spec(m, (nb - 1) as nat));
    } else {
        let u = s.skip(1);
        assert forall|i: int, j: int| 0 <= i < j < u.len() implies region_end(#[trigger] u[i]) <= #[trigger] u[j].1 by {
            assert(u[i] == s[i + 1]);
            assert(u[j] == s[j + 1]);
        }
        assert forall|j: int| 0 <= j < u.len() implies #[trigger] u[j].1 >= region_end(s[0]) by {
            assert(u[j] == s[j + 1]);
            assert(region_end(s[0]) <= s[j + 1].1);
        }
        lemma_merge_preserves_disjoint(u, (nb - 1) as nat);
        lemma_merge_lower_bound(u, (nb - 1) as nat, region_end(s[0]));
        let t = merge_spec(u, (nb - 1) as nat);
        let w = seq![s[0]] + t;
        assert(merge_spec(s, nb) == w);
        assert forall|i: int, j: int| 0 <= i < j < w.len() implies region_end(#[trigger] w[i]) <= #[trigger] w[j].1 by {
            assert(w[j] == t[j - 1]);
            if i > 0 {
                assert(w[i] == t[i - 1]);
            }
        }
    }
}

/// Merging keeps the list sorted by start address.
pub proof fn lemma_merge_preserves_sorted(s: Seq<Region>, nb: nat)
    requires
        regions_sorted(s),
    ensures
        regions_sorted(merge_spec(s, nb)),
    decreases nb,
{
    if nb == 0 || s.len() < 2 {
    } else if !s[0].0 && s[1].1 == region_end(s[0]) {
        let m = seq![(s[0].0, s[0].1, s[0].2 + s[1].2)] + s.skip(2);
        assert forall|i: int, j: int| 0 <= i <= j < m.len() implies m[i].1 <= m[j].1 by {
            if j > 0 {
                assert(m[j] == s[j + 1]);
            }
            if i > 0 {
                assert(m[i] == s[i + 1]);
            }
        }
        lemma_merge_preserves_sorted(m, (nb - 1) as nat);
        assert(merge_spec(s, nb) == merge_spec(m, (nb - 1) as nat));
    } else {
        let u = s.skip(1);
        assert forall|i: int, j: int| 0 <= i <= j < u.len() implies u[i].1 <= u[j].1 by {
            assert(u[i] == s[i + 1]);
            assert(u[j] == s[j + 1]);
        }
        assert forall|j: int| 0 <= j < u.len() implies #[trigger] u[j].1 >= s[0].1 by {
            assert(u[j] == s[j + 1]);
        }
        lemma_merge_preserves_sorted(u, (nb - 1) as nat);
        lemma_merge_lower_bound(u, (nb - 1) as nat, s[0].1);
        let t = merge_spec(u, (nb - 1) as nat);
        let w = seq![s[0]] + t;
        assert(merge_spec(s, nb) == w);
        assert forall|i: int, j: int| 0 <= i <= j < w.len() implies w[i].1 <= w[j].1 by {
            if i > 0 {
                assert(w[i] == t[i - 1]);
            }
            if j > 0 {
                assert(w[j] == t[j - 1]);
            }
        }
    }
}

proof fn lemma_insert_lower_bound(s: Seq<Region>, r: Region, x: int)
    requires
        forall|j: int| 0 <= j < s.len() ==> #[trigger] s[j].1 >= x,
        r.1 >= x,
    ensures
        forall|k: int| 0 <= k < insert_spec(s, r).len() ==> #[trigger] insert_spec(s, r)[k].1 >= x,
    decreases s.len(),
{
    if s.len() <= 1 {
        assert forall|k: int| 0 <= k < s.push(r).len() implies #[trigger] s.push(r)[k].1 >= x by {
            if k < s.len() {
                assert(s.push(r)[k] == s[k]);
            }
        }
    } else if s[1].1 > r.1 {
        let t = seq![s[0], r] + s.skip(1);
        assert forall|j: int| 0 <= j < t.len() implies #[trigger] t[j].1 >= x by {
            if j >= 2 {
                assert(t[j] == s[j - 1]);
            }
        }
        lemma_merge_lower_bound(t, 2, x);
    } else {
        let u = s.skip(1);
        assert forall|j: int| 0 <= j < u.len() implies #[trigger] u[j].1 >= x by {
            assert(u[j] == s[j + 1]);
        }
        lemma_insert_lower_bound(u, r, x);
        let t = insert_spec(u, r);
        assert forall|k: int| 0 <= k < (seq![s[0]] + t).len() implies #[trigger] (seq![s[0]] + t)[k].1 >= x by {
            if k > 0 {
                assert((seq![s[0]] + t)[k] == t[k - 1]);
            }
        }
    }
}

/// Giving back a region that starts no lower than the head keeps the free
/// list sorted by start address.
pub proof fn lemma_insert_preserves_sorted(s: Seq<Region>, r: Region)
    requires
        regions_sorted(s),
        s.len() >= 1,
        r.1 >= s[0].1,
    ensures
        regions_sorted(insert_spec(s, r)),
    decreases s.len(),
{
    if s.len() <= 1 {
    } else if s[1].1 > r.1 {
        let t = seq![s[0], r] + s.skip(1);
        assert forall|i: int, j: int| 0 <= i <= j < t.len() implies t[i].1 <= t[j].1 by {
            if j >= 2 {
                assert(t[j] == s[j - 1]);
            }
            if i >= 2 {
                assert(t[i] == s[i - 1]);
            }
        }
        lemma_merge_preserves_sorted(t, 2);
    } else {
        let u = s.skip(1);
        assert forall|i: int, j: int| 0 <= i <= j < u.len() implies u[i].1 <= u[j].1 by {
            assert(u[i] == s[i + 1]);
            assert(u[j] == s[j + 1]);
        }
        assert forall|j: int| 0 <= j < u.len() implies #[trigger] u[j].1 >= s[0].1 by {
            assert(u[j] == s[j + 1]);
        }
        lemma_insert_preserves_sorted(u, r);
        lemma_insert_lower_bound(u, r, s[0].1);
        let t = insert_spec(u, r);
        let w = seq![s[0]] + t;
        assert forall|i: int, j: int| 0 <= i <= j < w.len() implies w[i].1 <= w[j].1 by {
            if i > 0 {
                assert(w[i] == t[i - 1]);
            }
            if j > 0 {
                assert(w[j] == t[j - 1]);
            }
        }
    }
}

} // verus!
