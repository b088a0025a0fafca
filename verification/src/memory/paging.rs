//! Four-level x86-64 page tables as they lie in physical memory, and the
//! walk that translates a virtual address through them.
use super::{
    new_phys_addr, phys_addr_as_u64, phys_addr_value, scan_distance, scan_position, BootInfoAllocator,
    MemoryError, MAX_PAGE_ALLOWED,
};
use vstd::prelude::*;

verus! {

/// Entries in one page table.
pub const ENTRY_COUNT: usize = 512;

/// Entry flag: the entry maps a frame or a lower table.
pub const PRESENT: u64 = 1;

/// Entry flag: user mode may use what the entry maps.
pub const USER_ACCESSIBLE: u64 = 4;

/// Entry flag: the entry maps a huge page rather than a lower table.
pub const HUGE_PAGE: u64 = 0x80;

/// Bits of an entry that hold the physical address it points to.
pub const PHYSICAL_ADDRESS_MASK: u64 = 0x000f_ffff_ffff_f000;

/// The frame an entry points to: none when the entry is not present or
/// maps a huge page, else the address bits of the entry.
pub open spec fn entry_frame(e: u64) -> Option<u64> {
    if e & PRESENT == 0 {
        None
    } else if e & HUGE_PAGE != 0 {
        None
    } else {
        Some(e & PHYSICAL_ADDRESS_MASK)
    }
}

/// The index that `addr` selects in its table of `level` (4 down to 1):
/// nine bits of the address, the level-1 ones just above the page offset.
pub open spec fn table_index(addr: u64, level: nat) -> int {
    if level >= 4 {
        ((addr >> 39u64) % 512) as int
    } else if level == 3 {
        ((addr >> 30u64) % 512) as int
    } else if level == 2 {
        ((addr >> 21u64) % 512) as int
    } else {
        ((addr >> 12u64) % 512) as int
    }
}

/// Position of the last table stored at `frame` in `frames`; -1 when none.
pub open spec fn last_index(frames: Seq<u64>, frame: u64) -> int
    decreases frames.len(),
{
    if frames.len() == 0 {
        -1
    } else if frames.last() == frame {
        frames.len() - 1
    } else {
        last_index(frames.drop_last(), frame)
    }
}

proof fn lemma_last_index_range(frames: Seq<u64>, frame: u64)
    ensures
        -1 <= last_index(frames, frame) < frames.len(),
        last_index(frames, frame) >= 0 ==> frames[last_index(frames, frame)] == frame,
    decreases frames.len(),
{
    if frames.len() > 0 && frames.last() != frame {
        lemma_last_index_range(frames.drop_last(), frame);
    }
}

/// Entry `index` of the table at `frame`; a frame that holds no table
/// reads as unused entries.
pub open spec fn entry_in(m: Map<u64, Seq<u64>>, frame: u64, index: int) -> u64 {
    if m.dom().contains(frame) {
        m[frame][index]
    } else {
        0
    }
}

/// The entries of the table at `frame`: unused ones where no table is.
pub open spec fn table_or_empty(m: Map<u64, Seq<u64>>, frame: u64) -> Seq<u64> {
    if m.dom().contains(frame) {
        m[frame]
    } else {
        Seq::new(ENTRY_COUNT as nat, |i: int| 0u64)
    }
}

/// The tables once entry `index` of the table at `frame` has its flags
/// replaced by `flags`, its address bits kept.
pub open spec fn set_flags_in(m: Map<u64, Seq<u64>>, frame: u64, index: int, flags: u64) -> Map<u64, Seq<u64>> {
    let entries = table_or_empty(m, frame);
    m.insert(frame, entries.update(index, (entries[index] & PHYSICAL_ADDRESS_MASK) | flags))
}

/// The tables once entry `index` of the table at `frame` is `value`.
pub open spec fn set_entry_in(m: Map<u64, Seq<u64>>, frame: u64, index: int, value: u64) -> Map<u64, Seq<u64>> {
    m.insert(frame, table_or_empty(m, frame).update(index, value))
}

/// The tables once every entry of the table at `frame` has lost its flags,
/// its address bits kept.
pub open spec fn clear_flags_of(m: Map<u64, Seq<u64>>, frame: u64) -> Map<u64, Seq<u64>> {
    if m.dom().contains(frame) {
        m.insert(frame, m[frame].map_values(|e: u64| e & PHYSICAL_ADDRESS_MASK))
    } else {
        m
    }
}

/// The page tables held in physical memory: the entries stored at each
/// frame that holds a table. A table stored again at a frame replaces the
/// one before.
pub struct PageTables {
    frames: Vec<u64>,
    tables: Vec<Vec<u64>>,
}

impl PageTables {
    /// One table per listed frame, each of 512 entries.
    pub closed spec fn wf(&self) -> bool {
        &&& self.frames@.len() == self.tables@.len()
        &&& forall|i: int| 0 <= i < self.tables@.len() ==> (#[trigger] self.tables@[i])@.len() == ENTRY_COUNT
    }

    /// The table held at each frame that holds one.
    pub closed spec fn view(&self) -> Map<u64, Seq<u64>> {
        Map::new(
            |f: u64| last_index(self.frames@, f) >= 0,
            |f: u64| self.tables@[last_index(self.frames@, f)]@,
        )
    }

    /// Physical memory with no page table in it.
    pub fn new() -> (t: Self)
        ensures
            t.wf(),
            t@ == Map::<u64, Seq<u64>>::empty(),
    {
        let t = PageTables { frames: Vec::new(), tables: Vec::new() };
        assert(t@ =~= Map::<u64, Seq<u64>>::empty());
        t
    }

    /// Stores the table `entries` at `frame`.
    pub fn store_table(&mut self, frame: u64, entries: Vec<u64>)
        requires
            old(self).wf(),
            entries@.len() == ENTRY_COUNT,
        ensures
            final(self).wf(),
            final(self)@ == old(self)@.insert(frame, entries@),
    {
        let ghost stored = entries@;
        self.frames.push(frame);
        self.tables.push(entries);
        proof {
            assert(self.frames@.drop_last() =~= old(self).frames@);
            assert forall|f: u64| #[trigger] last_index(self.frames@, f) == if f == frame {
                old(self).frames@.len() as int
            } else {
                last_index(old(self).frames@, f)
            } by {}
            assert forall|f: u64| f != frame && last_index(old(self).frames@, f) >= 0 implies
                #[trigger] self.tables@[last_index(old(self).frames@, f)] == old(self).tables@[last_index(old(self).frames@, f)] by {
                lemma_last_index_range(old(self).frames@, f);
            }
            assert(self@ =~= old(self)@.insert(frame, stored));
        }
    }

    /// Where the table at `frame` is kept: its position in the lists.
    fn find(&self, frame: u64) -> (r: Option<usize>)
        requires
            self.wf(),
        ensures
            match r {
                Some(i) => i == last_index(self.frames@, frame) && i < self.tables@.len(),
                None => last_index(self.frames@, frame) < 0,
            },
    {
        let mut found: Option<usize> = None;
        let mut i: usize = 0;
        while i < self.frames.len()
            invariant
                self.wf(),
                i <= self.frames@.len(),
                match found {
                    Some(k) => k == last_index(self.frames@.take(i as int), frame) && k < i,
                    None => last_index(self.frames@.take(i as int), frame) < 0,
                },
            decreases self.frames@.len() - i,
        {
            proof {
                assert(self.frames@.take(i + 1).drop_last() =~= self.frames@.take(i as int));
            }
            if self.frames[i] == frame {
                found = Some(i);
            }
            i = i + 1;
        }
        proof {
            assert(self.frames@.take(i as int) =~= self.frames@);
        }
        found
    }

    /// Entry `index` of the table at `frame`; an unused entry when no table
    /// is there.
    pub fn entry(&self, frame: u64, index: usize) -> (e: u64)
        requires
            self.wf(),
            index < ENTRY_COUNT,
        ensures
            e == entry_in(self@, frame, index as int),
    {
        match self.find(frame) {
            Some(i) => self.tables[i][index],
            None => 0,
        }
    }

    /// Replaces the flags of entry `index` of the table at `frame`, keeping
    /// its address bits.
    pub fn set_entry_flags(&mut self, frame: u64, index: usize, flags: u64)
        requires
            old(self).wf(),
            index < ENTRY_COUNT,
        ensures
            final(self).wf(),
            final(self)@ == set_flags_in(old(self)@, frame, index as int, flags),
    {
        let e = self.entry(frame, index);
        self.set_entry(frame, index, (e & PHYSICAL_ADDRESS_MASK) | flags);
    }

    /// Sets entry `index` of the table at `frame` to `value`; where no
    /// table was, one with only that entry used appears.
    pub fn set_entry(&mut self, frame: u64, index: usize, value: u64)
        requires
            old(self).wf(),
            index < ENTRY_COUNT,
        ensures
            final(self).wf(),
            final(self)@ == set_entry_in(old(self)@, frame, index as int, value),
    {
        match self.find(frame) {
            Some(i) => {
                let mut row = self.tables[i].clone();
                proof {
                    assert(row@ =~= old(self).tables@[i as int]@);
                }
                row.set(index, value);
                let ghost updated = row@;
                self.tables.set(i, row);
                proof {
                    lemma_last_index_range(self.frames@, frame);
                    assert(old(self)@.dom().contains(frame));
                    assert(updated =~= old(self)@[frame].update(index as int, value));
                    assert(self@.dom() =~= old(self)@.dom());
                    assert forall|f: u64| #[trigger] self@.dom().contains(f) implies self@[f]
                        == set_entry_in(old(self)@, frame, index as int, value)[f] by {
                        if f != frame {
                            lemma_last_index_range(self.frames@, f);
                        }
                    }
                    assert(self@ =~= set_entry_in(old(self)@, frame, index as int, value));
                }
            },
            None => {
                let mut row: Vec<u64> = Vec::new();
                let mut k: usize = 0;
                while k < ENTRY_COUNT
                    invariant
                        k <= ENTRY_COUNT,
                        row@.len() == k,
                        forall|j: int| 0 <= j < k ==> #[trigger] row@[j] == 0u64,
                    decreases ENTRY_COUNT - k,
                {
                    row.push(0);
                    k = k + 1;
                }
                row.set(index, value);
                proof {
                    assert(!old(self)@.dom().contains(frame));
                    assert(row@ =~= table_or_empty(old(self)@, frame).update(index as int, value));
                }
                self.store_table(frame, row);
            },
        }
    }

    /// Takes the flags off every entry of the table at `frame`, keeping
    /// their address bits; nothing changes when no table is there.
    pub fn clear_flags(&mut self, frame: u64)
        requires
            old(self).wf(),
        ensures
            final(self).wf(),
            final(self)@ == clear_flags_of(old(self)@, frame),
    {
        match self.find(frame) {
            Some(i) => {
                let mut row = self.tables[i].clone();
                let ghost old_row = old(self).tables@[i as int]@;
                proof {
                    assert(row@ =~= old_row);
                }
                let mut k: usize = 0;
                while k < row.len()
                    invariant
                        row@.len() == old_row.len(),
                        k <= row@.len(),
                        forall|j: int| 0 <= j < k ==> #[trigger] row@[j] == old_row[j] & PHYSICAL_ADDRESS_MASK,
                        forall|j: int| k <= j < row@.len() ==> #[trigger] row@[j] == old_row[j],
                    decreases row@.len() - k,
                {
                    let v = row[k] & PHYSICAL_ADDRESS_MASK;
                    row.set(k, v);
                    k = k + 1;
                }
                let ghost updated = row@;
                self.tables.set(i, row);
                proof {
                    lemma_last_index_range(self.frames@, frame);
                    assert(old(self)@.dom().contains(frame));
                    assert(updated =~= old(self)@[frame].map_values(|e: u64| e & PHYSICAL_ADDRESS_MASK));
                    assert(self@.dom() =~= old(self)@.dom());
                    assert forall|f: u64| #[trigger] self@.dom().contains(f) implies self@[f]
                        == clear_flags_of(old(self)@, frame)[f] by {
                        if f != frame {
                            lemma_last_index_range(self.frames@, f);
                        }
                    }
                    assert(self@ =~= clear_flags_of(old(self)@, frame));
                }
            },
            None => {
                proof {
                    assert(!old(self)@.dom().contains(frame));
                }
            },
        }
    }
}

/// The frame reached from the table at `frame` after `level` steps down
/// the tables, each step following the entry that `addr` selects; none
/// when a step meets an entry that points to no table.
pub open spec fn walk(t: Map<u64, Seq<u64>>, frame: u64, addr: u64, level: nat) -> Option<u64>
    decreases level,
{
    if level == 0 {
        Some(frame)
    } else {
        match entry_frame(entry_in(t, frame, table_index(addr, level))) {
            Some(next) => walk(t, next, addr, (level - 1) as nat),
            None => None,
        }
    }
}

/// The physical address that `addr` maps to under the level-4 table at
/// `table_4`: the frame of the four-step walk plus the offset of `addr` in
/// its page.
pub open spec fn translation(t: Map<u64, Seq<u64>>, table_4: u64, addr: u64) -> Option<u64> {
    match walk(t, table_4, addr, 4) {
        Some(f) => Some((f + addr % 4096) as u64),
        None => None,
    }
}

proof fn lemma_masked_entry(e: u64)
    by (bit_vector)
    ensures
        e & 0x000f_ffff_ffff_f000u64 <= 0x000f_ffff_ffff_f000u64,
        (e & 0x000f_ffff_ffff_f000u64) % 4096 == 0,
{
}

/// The frame a walk of at least one step ends on is a 4096-aligned frame
/// address taken from an entry.
proof fn lemma_walk_aligned(t: Map<u64, Seq<u64>>, frame: u64, addr: u64, level: nat)
    requires
        level >= 1,
    ensures
        walk(t, frame, addr, level) matches Some(f) ==> f % 4096 == 0 && f <= PHYSICAL_ADDRESS_MASK,
    decreases level,
{
    let e = entry_in(t, frame, table_index(addr, level));
    lemma_masked_entry(e);
    if let Some(next) = entry_frame(e) {
        if level > 1 {
            lemma_walk_aligned(t, next, addr, (level - 1) as nat);
        }
    }
}

/// Two addresses with the same page number select the same entry at every
/// level.
proof fn lemma_same_page_same_indexes(a: u64, b: u64, level: nat)
    requires
        a / 4096 == b / 4096,
    ensures
        table_index(a, level) == table_index(b, level),
{
    vstd::bits::lemma_u64_shr_is_div(a, 12);
    vstd::bits::lemma_u64_shr_is_div(b, 12);
    vstd::bits::lemma_u64_shr_is_div(a, 21);
    vstd::bits::lemma_u64_shr_is_div(b, 21);
    vstd::bits::lemma_u64_shr_is_div(a, 30);
    vstd::bits::lemma_u64_shr_is_div(b, 30);
    vstd::bits::lemma_u64_shr_is_div(a, 39);
    vstd::bits::lemma_u64_shr_is_div(b, 39);
    vstd::arithmetic::power2::lemma2_to64();
    vstd::arithmetic::power2::lemma2_to64_rest();
    vstd::arithmetic::div_mod::lemma_div_denominator(a as int, 4096, 512);
    vstd::arithmetic::div_mod::lemma_div_denominator(b as int, 4096, 512);
    vstd::arithmetic::div_mod::lemma_div_denominator(a as int, 4096, 262144);
    vstd::arithmetic::div_mod::lemma_div_denominator(b as int, 4096, 262144);
    vstd::arithmetic::div_mod::lemma_div_denominator(a as int, 4096, 134217728);
    vstd::arithmetic::div_mod::lemma_div_denominator(b as int, 4096, 134217728);
}

proof fn lemma_walk_same_page(t: Map<u64, Seq<u64>>, frame: u64, a: u64, b: u64, level: nat)
    requires
        a / 4096 == b / 4096,
    ensures
        walk(t, frame, a, level) == walk(t, frame, b, level),
    decreases level,
{
    if level > 0 {
        lemma_same_page_same_indexes(a, b, level);
        let e = entry_in(t, frame, table_index(a, level));
        if let Some(next) = entry_frame(e) {
            lemma_walk_same_page(t, next, a, b, (level - 1) as nat);
        }
    }
}

/// A translation keeps the whole offset of the address in its page: the
/// physical address found lies at the same place in its 4096-byte frame.
pub proof fn lemma_translation_keeps_offset(t: Map<u64, Seq<u64>>, table_4: u64, addr: u64)
    ensures
        translation(t, table_4, addr) matches Some(p) ==> p % 4096 == addr % 4096 && p - addr % 4096
            <= PHYSICAL_ADDRESS_MASK,
{
    lemma_walk_aligned(t, table_4, addr, 4);
}

/// Two addresses of one page translate together: both or neither, and the
/// physical addresses found lie as far apart as the virtual ones.
pub proof fn lemma_translation_same_page(t: Map<u64, Seq<u64>>, table_4: u64, a: u64, b: u64)
    requires
        a / 4096 == b / 4096,
    ensures
        translation(t, table_4, a) is Some <==> translation(t, table_4, b) is Some,
        translation(t, table_4, a) matches Some(pa) ==> (translation(t, table_4, b) matches Some(pb)
            && pa - pb == a - b),
{
    lemma_walk_same_page(t, table_4, a, b, 4);
    lemma_walk_aligned(t, table_4, a, 4);
    assert(a - a % 4096 == b - b % 4096) by {
        vstd::arithmetic::div_mod::lemma_fundamental_div_mod(a as int, 4096);
        vstd::arithmetic::div_mod::lemma_fundamental_div_mod(b as int, 4096);
    }
}

/// Translates the virtual address `addr` through the page tables whose
/// level-4 table is at `table_4`: `None` when an entry on the way is not
/// present or maps a huge page.
pub fn translate_addr_inner(tables: &PageTables, table_4: u64, addr: u64) -> (r: Option<u64>)
    requires
        tables.wf(),
    ensures
        r == translation(tables@, table_4, addr),
{
    let mut frame = table_4;
    let mut level: u64 = 4;
    while level > 0
        invariant
            tables.wf(),
            level <= 4,
            walk(tables@, table_4, addr, 4) == walk(tables@, frame, addr, level as nat),
            level < 4 ==> frame <= PHYSICAL_ADDRESS_MASK,
        decreases level,
    {
        let shift: u64 = if level == 4 {
            39
        } else if level == 3 {
            30
        } else if level == 2 {
            21
        } else {
            12
        };
        let index = ((addr >> shift) % 512) as usize;
        let e = tables.entry(frame, index);
        if e & PRESENT == 0 || e & HUGE_PAGE != 0 {
            return None;
        }
        proof {
            lemma_masked_entry(e);
        }
        frame = e & PHYSICAL_ADDRESS_MASK;
        level = level - 1;
    }
    Some(frame + addr % 4096)
}

/// The free-frame table once the frame at `addr` is given back: a frame
/// past the highest one stays as it is.
pub open spec fn give_back(free: Seq<bool>, maxi: int, addr: u64) -> Seq<bool> {
    let p = addr >> 12u64;
    if p <= maxi {
        free.update(p as int, true)
    } else {
        free
    }
}

/// What sweeping the table at `frame` of `level` (4 down to 1) leaves: the
/// tables, the free-frame table, the flags of the entries that stay, whether
/// an entry stays, and whether every frame given back lies inside the
/// free-frame table.
///
/// Each used entry whose flags hold all of `remove` is swept: at level 1,
/// and above when the table below is left with no flags, the entry loses its
/// flags and its frame is given back; otherwise it keeps the flags it shares
/// with the table below.
pub open spec fn sweep_table(
    m: Map<u64, Seq<u64>>,
    free: Seq<bool>,
    maxi: int,
    frame: u64,
    level: nat,
    remove: u64,
) -> (Map<u64, Seq<u64>>, Seq<bool>, u64, bool, bool)
    decreases level, 513int,
{
    sweep_entries(m, free, maxi, frame, level, remove, 0, 0, false)
}

/// The sweep of entries `i` to 511 of the table at `frame`, from the given
/// state, flags kept so far, and whether an entry stayed so far.
pub open spec fn sweep_entries(
    m: Map<u64, Seq<u64>>,
    free: Seq<bool>,
    maxi: int,
    frame: u64,
    level: nat,
    remove: u64,
    i: int,
    acc: u64,
    kept: bool,
) -> (Map<u64, Seq<u64>>, Seq<bool>, u64, bool, bool)
    decreases level, 512 - i,
{
    if i < 0 || i >= 512 || level == 0 {
        (m, free, acc, kept, true)
    } else {
        let e = entry_in(m, frame, i);
        let flags = e & !PHYSICAL_ADDRESS_MASK;
        if e == 0 {
            sweep_entries(m, free, maxi, frame, level, remove, i + 1, acc, kept)
        } else if flags & remove == remove {
            let child = if level == 1 {
                (m, free, 0u64, false, true)
            } else {
                sweep_table(m, free, maxi, e & PHYSICAL_ADDRESS_MASK, (level - 1) as nat, remove)
            };
            let addr = entry_in(child.0, frame, i) & PHYSICAL_ADDRESS_MASK;
            if child.2 == 0 {
                let r = sweep_entries(
                    set_flags_in(child.0, frame, i, 0),
                    give_back(child.1, maxi, addr),
                    maxi,
                    frame,
                    level,
                    remove,
                    i + 1,
                    acc,
                    kept,
                );
                (r.0, r.1, r.2, r.3, r.4 && child.4 && (addr >> 12u64) < MAX_PAGE_ALLOWED)
            } else {
                let r = sweep_entries(
                    set_flags_in(child.0, frame, i, flags & child.2),
                    child.1,
                    maxi,
                    frame,
                    level,
                    remove,
                    i + 1,
                    acc | (flags & child.2),
                    true,
                );
                (r.0, r.1, r.2, r.3, r.4 && child.4)
            }
        } else if level == 1 || flags & PRESENT != 0 {
            sweep_entries(m, free, maxi, frame, level, remove, i + 1, acc | flags, true)
        } else {
            sweep_entries(m, free, maxi, frame, level, remove, i + 1, acc, kept)
        }
    }
}

impl BootInfoAllocator {
    /// Sweeps the table at `frame` of `level`: returns the flags of the
    /// entries that stay and whether any entry stays.
    fn sweep(&mut self, tables: &mut PageTables, frame: u64, level: u64, remove: u64) -> (r: (u64, bool))
        requires
            old(self).wf(),
            old(tables).wf(),
            1 <= level <= 4,
            sweep_table(old(tables)@, old(self)@, old(self).spec_maxi() as int, frame, level as nat, remove).4,
        ensures
            final(self).wf(),
            final(tables).wf(),
            final(self).spec_maxi() == old(self).spec_maxi(),
            final(self).spec_next() == old(self).spec_next(),
            ({
                let res = sweep_table(old(tables)@, old(self)@, old(self).spec_maxi() as int, frame, level as nat, remove);
                &&& final(tables)@ == res.0
                &&& final(self)@ == res.1
                &&& r == (res.2, res.3)
            }),
        decreases level,
    {
        let ghost maxi = self.spec_maxi() as int;
        let ghost next0 = self.spec_next();
        let ghost target = sweep_table(tables@, self@, maxi, frame, level as nat, remove);
        let mut acc: u64 = 0;
        let mut kept = false;
        let mut i: usize = 0;
        while i < ENTRY_COUNT
            invariant
                self.wf(),
                tables.wf(),
                1 <= level <= 4,
                self.spec_maxi() == maxi,
                self.spec_next() == next0,
                i <= ENTRY_COUNT,
                target.4,
                target == sweep_entries(tables@, self@, maxi, frame, level as nat, remove, i as int, acc, kept),
            decreases ENTRY_COUNT - i,
        {
            let e = tables.entry(frame, i);
            if e != 0 {
                let flags = e & !PHYSICAL_ADDRESS_MASK;
                if flags & remove == remove {
                    let below: (u64, bool) = if level == 1 {
                        (0, false)
                    } else {
                        self.sweep(tables, e & PHYSICAL_ADDRESS_MASK, level - 1, remove)
                    };
                    let entry = tables.entry(frame, i);
                    let addr = entry & PHYSICAL_ADDRESS_MASK;
                    if below.0 == 0 {
                        tables.set_entry_flags(frame, i, 0);
                        proof {
                            lemma_masked_entry(entry);
                        }
                        let _ = self.deallocate_4k_frame(new_phys_addr(addr));
                    } else {
                        tables.set_entry_flags(frame, i, flags & below.0);
                        acc = acc | (flags & below.0);
                        kept = true;
                    }
                } else if level == 1 || flags & PRESENT != 0 {
                    acc = acc | flags;
                    kept = true;
                }
            }
            i = i + 1;
        }
        (acc, kept)
    }

    /// Removes from the page tables whose level-4 table is at `table_4_addr`
    /// every mapping whose entries hold all of `remove_flags`, giving back
    /// the frames of the pages and of the tables left empty. `Ok(true)` when
    /// no entry of the level-4 table stays.
    pub fn deallocate_level_4_page(
        &mut self,
        tables: &mut PageTables,
        table_4_addr: u64,
        remove_flags: u64,
    ) -> (r: Result<bool, MemoryError>)
        requires
            old(self).wf(),
            old(tables).wf(),
            sweep_table(old(tables)@, old(self)@, old(self).spec_maxi() as int, table_4_addr, 4, remove_flags).4,
        ensures
            final(self).wf(),
            final(tables).wf(),
            final(self).spec_maxi() == old(self).spec_maxi(),
            final(self).spec_next() == old(self).spec_next(),
            ({
                let res = sweep_table(old(tables)@, old(self)@, old(self).spec_maxi() as int, table_4_addr, 4, remove_flags);
                &&& final(tables)@ == res.0
                &&& final(self)@ == res.1
                &&& r matches Ok(empty) && empty == !res.3
            }),
    {
        let (_, kept) = self.sweep(tables, table_4_addr, 4, remove_flags);
        Ok(!kept)
    }
}

/// Where a search for a free frame starts: the search position, or 0 once
/// it has passed the highest frame.
pub open spec fn search_start(next: int, maxi: int) -> int {
    if next > maxi {
        0
    } else {
        next
    }
}

/// The free frame that a search from `next` meets first, walking forward
/// and wrapping after `maxi`; none when no frame is free.
pub open spec fn first_free(free: Seq<bool>, next: int, maxi: int) -> Option<int> {
    if exists|p: int| 0 <= p <= maxi && #[trigger] free[p] {
        Some(
            choose|p: int|
                0 <= p <= maxi && #[trigger] free[p] && forall|j: int|
                    0 <= j <= maxi && scan_distance(search_start(next, maxi), j, maxi) < scan_distance(
                        search_start(next, maxi),
                        p,
                        maxi,
                    ) ==> !#[trigger] free[j],
        )
    } else {
        None
    }
}

/// Taking a frame: the frame found, the free-frame table and the search
/// position afterwards.
pub open spec fn take_frame(free: Seq<bool>, next: int, maxi: int) -> (Option<int>, Seq<bool>, int) {
    match first_free(free, next, maxi) {
        Some(p) => (Some(p), free.update(p, false), p + 1),
        None => (None, free, scan_position(next, MAX_PAGE_ALLOWED as nat, maxi)),
    }
}

impl BootInfoAllocator {
    /// Takes a free frame and returns its address.
    fn take_frame(&mut self) -> (r: Option<u64>)
        requires
            old(self).wf(),
        ensures
            final(self).wf(),
            final(self).spec_maxi() == old(self).spec_maxi(),
            ({
                let t = take_frame(old(self)@, old(self).spec_next() as int, old(self).spec_maxi() as int);
                &&& final(self)@ == t.1
                &&& final(self).spec_next() == t.2
                &&& match r {
                    Some(a) => t.0 == Some((a / 4096) as int) && a % 4096 == 0 && a < 0x1000_0000,
                    None => t.0 is None,
                }
            }),
    {
        let ghost free = self@;
        let ghost next = self.spec_next() as int;
        let ghost maxi = self.spec_maxi() as int;
        let ghost start = search_start(next, maxi);
        match self.allocate_4k_frame() {
            Some(a) => {
                let v = phys_addr_as_u64(a);
                proof {
                    let p = v / 4096;
                    assert(0 <= p <= maxi && free[p as int]);
                    let q = choose|q: int|
                        0 <= q <= maxi && #[trigger] free[q] && forall|j: int|
                            0 <= j <= maxi && scan_distance(start, j, maxi) < scan_distance(start, q, maxi)
                                ==> !#[trigger] free[j];
                    assert(first_free(free, next, maxi) == Some(q));
                    if scan_distance(start, q, maxi) < scan_distance(start, p as int, maxi) {
                        assert(!free[q]);
                    }
                    if scan_distance(start, p as int, maxi) < scan_distance(start, q, maxi) {
                        assert(!free[p as int]);
                    }
                    assert(q == p);
                }
                Some(v)
            },
            None => {
                proof {
                    assert(!(exists|p: int| 0 <= p <= maxi && #[trigger] free[p]));
                }
                None
            },
        }
    }
}

/// What adding the mapping of `virt` with `flags` does from the table at
/// `table` of `level` (4 down to 1) downwards: the tables, the free-frame
/// table and search position afterwards, and whether it succeeded.
///
/// A present entry above level 1 must be user accessible: it gains `flags`
/// and the walk goes on in the table it points to. An entry that is not
/// present gets a fresh frame with `flags`; above level 1 the fresh table
/// has its entries' flags cleared (and at level 4 the entry gets back its
/// old flags besides `flags`) before the walk goes on there. At level 1 a
/// present entry gains `flags` only when duplicates are allowed.
///
/// With `data`, a present entry at level 1 is refused, the fresh page holds
/// `data`, the level-4 entry does not get its old flags back, and below a
/// fresh level-2 table the walk goes on at the fresh frame's address.
pub open spec fn add_entry_spec(
    m: Map<u64, Seq<u64>>,
    free: Seq<bool>,
    next: int,
    maxi: int,
    table: u64,
    virt: u64,
    flags: u64,
    allow_duplicate: bool,
    data: Option<Seq<u64>>,
    level: nat,
) -> (Map<u64, Seq<u64>>, Seq<bool>, int, bool)
    decreases level,
{
    if level == 0 {
        (m, free, next, true)
    } else {
        let idx = table_index(virt, level);
        let e = entry_in(m, table, idx);
        if e & PRESENT != 0 {
            if level == 1 {
                if allow_duplicate && data is None {
                    (set_flags_in(m, table, idx, (e & !PHYSICAL_ADDRESS_MASK) | flags), free, next, true)
                } else {
                    (m, free, next, false)
                }
            } else if e & USER_ACCESSIBLE != 0 {
                let m1 = set_flags_in(m, table, idx, (e & !PHYSICAL_ADDRESS_MASK) | flags);
                add_entry_spec(
                    m1,
                    free,
                    next,
                    maxi,
                    entry_in(m1, table, idx) & PHYSICAL_ADDRESS_MASK,
                    virt,
                    flags,
                    allow_duplicate,
                    data,
                    (level - 1) as nat,
                )
            } else {
                (m, free, next, false)
            }
        } else {
            let taken = take_frame(free, next, maxi);
            match taken.0 {
                None => (m, taken.1, taken.2, false),
                Some(p) => {
                    let addr = (p * 4096) as u64;
                    let m1 = set_entry_in(m, table, idx, addr | flags);
                    if level == 1 {
                        match data {
                            Some(words) => (m1.insert(addr, words), taken.1, taken.2, true),
                            None => (m1, taken.1, taken.2, true),
                        }
                    } else {
                        let m2 = clear_flags_of(m1, addr);
                        let m3 = if level == 4 && data is None {
                            set_flags_in(m2, table, idx, (e & !PHYSICAL_ADDRESS_MASK) | flags)
                        } else {
                            m2
                        };
                        let below = if level == 2 && data is Some {
                            addr
                        } else {
                            entry_in(m3, table, idx) & PHYSICAL_ADDRESS_MASK
                        };
                        add_entry_spec(m3, taken.1, taken.2, maxi, below, virt, flags, allow_duplicate, data, (level - 1) as nat)
                    }
                },
            }
        }
    }
}

/// The words a fresh page is to hold, if any.
spec fn page_words(data: Option<Vec<u64>>) -> Option<Seq<u64>> {
    match data {
        Some(d) => Some(d@),
        None => None,
    }
}

impl BootInfoAllocator {
    /// The walk shared by the two ways of adding a mapping.
    #[verifier::rlimit(40)]
    fn add_mapping(
        &mut self,
        tables: &mut PageTables,
        table_4: u64,
        virt_4: u64,
        flags: u64,
        allow_duplicate: bool,
        data: Option<Vec<u64>>,
    ) -> (r: Result<(), MemoryError>)
        requires
            old(self).wf(),
            old(tables).wf(),
            data matches Some(d) ==> d@.len() == ENTRY_COUNT,
        ensures
            final(self).wf(),
            final(tables).wf(),
            final(self).spec_maxi() == old(self).spec_maxi(),
            ({
                let res = add_entry_spec(
                    old(tables)@,
                    old(self)@,
                    old(self).spec_next() as int,
                    old(self).spec_maxi() as int,
                    table_4,
                    virt_4,
                    flags,
                    allow_duplicate,
                    page_words(data),
                    4,
                );
                &&& final(tables)@ == res.0
                &&& final(self)@ == res.1
                &&& final(self).spec_next() == res.2
                &&& (r is Ok <==> res.3)
            }),
    {
        let ghost maxi = self.spec_maxi() as int;
        let ghost words = page_words(data);
        let has_data = data.is_some();
        let ghost target = add_entry_spec(
            tables@,
            self@,
            self.spec_next() as int,
            maxi,
            table_4,
            virt_4,
            flags,
            allow_duplicate,
            words,
            4,
        );
        let mut table = table_4;
        let mut level: u64 = 4;
        loop
            invariant
                self.wf(),
                tables.wf(),
                1 <= level <= 4,
                self.spec_maxi() == maxi,
                maxi == old(self).spec_maxi(),
                has_data == words is Some,
                words == page_words(data),
                data matches Some(d) ==> d@.len() == ENTRY_COUNT,
                target == add_entry_spec(
                    old(tables)@,
                    old(self)@,
                    old(self).spec_next() as int,
                    maxi,
                    table_4,
                    virt_4,
                    flags,
                    allow_duplicate,
                    words,
                    4,
                ),
                target == add_entry_spec(
                    tables@,
                    self@,
                    self.spec_next() as int,
                    maxi,
                    table,
                    virt_4,
                    flags,
                    allow_duplicate,
                    words,
                    level as nat,
                ),
            decreases level,
        {
            let shift: u64 = if level == 4 {
                39
            } else if level == 3 {
                30
            } else if level == 2 {
                21
            } else {
                12
            };
            let idx = ((virt_4 >> shift) % 512) as usize;
            let e = tables.entry(table, idx);
            if e & PRESENT != 0 {
                if level == 1 {
                    if allow_duplicate && !has_data {
                        tables.set_entry_flags(table, idx, (e & !PHYSICAL_ADDRESS_MASK) | flags);
                        return Ok(());
                    } else {
                        return Err(MemoryError(String::from_str("Level 1 entry is already present")));
                    }
                } else if e & USER_ACCESSIBLE != 0 {
                    tables.set_entry_flags(table, idx, (e & !PHYSICAL_ADDRESS_MASK) | flags);
                    table = tables.entry(table, idx) & PHYSICAL_ADDRESS_MASK;
                    level = level - 1;
                } else {
                    return Err(MemoryError(String::from_str("Entry is not USER_ACCESSIBLE")));
                }
            } else {
                match self.take_frame() {
                    None => {
                        return Err(MemoryError(String::from_str("Could not allocate 4k frame")));
                    },
                    Some(addr) => {
                        proof {
                            vstd::arithmetic::div_mod::lemma_fundamental_div_mod(addr as int, 4096);
                        }
                        tables.set_entry(table, idx, addr | flags);
                        if level == 1 {
                            match data {
                                Some(d) => {
                                    tables.store_table(addr, d);
                                },
                                None => {},
                            }
                            return Ok(());
                        }
                        tables.clear_flags(addr);
                        if level == 4 && !has_data {
                            tables.set_entry_flags(table, idx, (e & !PHYSICAL_ADDRESS_MASK) | flags);
                        }
                        if level == 2 && has_data {
                            table = addr;
                        } else {
                            table = tables.entry(table, idx) & PHYSICAL_ADDRESS_MASK;
                        }
                        level = level - 1;
                    },
                }
            }
        }
    }

    /// Maps the virtual address `virt_4` with `flags` in the page tables
    /// whose level-4 table is at `table_4`, taking fresh frames for the
    /// missing tables and for the page. Fails when a table on the way is
    /// not user accessible, when no frame is free, or when the page is
    /// already mapped and duplicates are not allowed; the tables keep what
    /// was done before the failure.
    pub fn add_entry_to_table(
        &mut self,
        tables: &mut PageTables,
        table_4: u64,
        virt_4: u64,
        flags: u64,
        allow_duplicate: bool,
    ) -> (r: Result<(), MemoryError>)
        requires
            old(self).wf(),
            old(tables).wf(),
        ensures
            final(self).wf(),
            final(tables).wf(),
            final(self).spec_maxi() == old(self).spec_maxi(),
            ({
                let res = add_entry_spec(
                    old(tables)@,
                    old(self)@,
                    old(self).spec_next() as int,
                    old(self).spec_maxi() as int,
                    table_4,
                    virt_4,
                    flags,
                    allow_duplicate,
                    None,
                    4,
                );
                &&& final(tables)@ == res.0
                &&& final(self)@ == res.1
                &&& final(self).spec_next() == res.2
                &&& (r is Ok <==> res.3)
            }),
    {
        self.add_mapping(tables, table_4, virt_4, flags, allow_duplicate, None)
    }

    /// Maps the virtual address `virt_4` with `flags` to a fresh page that
    /// holds `data`, as `add_entry_to_table` does; fails as well when the
    /// page is already mapped.
    pub fn add_entry_to_table_with_data(
        &mut self,
        tables: &mut PageTables,
        table_4: u64,
        virt_4: u64,
        flags: u64,
        data: &[u64; 512],
    ) -> (r: Result<(), MemoryError>)
        requires
            old(self).wf(),
            old(tables).wf(),
        ensures
            final(self).wf(),
            final(tables).wf(),
            final(self).spec_maxi() == old(self).spec_maxi(),
            ({
                let res = add_entry_spec(
                    old(tables)@,
                    old(self)@,
                    old(self).spec_next() as int,
                    old(self).spec_maxi() as int,
                    table_4,
                    virt_4,
                    flags,
                    false,
                    Some(data@),
                    4,
                );
                &&& final(tables)@ == res.0
                &&& final(self)@ == res.1
                &&& final(self).spec_next() == res.2
                &&& (r is Ok <==> res.3)
            }),
    {
        let mut words: Vec<u64> = Vec::new();
        let mut i: usize = 0;
        while i < ENTRY_COUNT
            invariant
                i <= ENTRY_COUNT,
                words@ =~= data@.take(i as int),
            decreases ENTRY_COUNT - i,
        {
            words.push(data[i]);
            i = i + 1;
        }
        proof {
            assert(words@ =~= data@);
        }
        self.add_mapping(tables, table_4, virt_4, flags, false, Some(words))
    }
}

/// The tables once entries `from` to 511 of the table at `frame` have lost
/// their flags, their address bits kept.
pub open spec fn clear_flags_from(m: Map<u64, Seq<u64>>, frame: u64, from: int) -> Map<u64, Seq<u64>> {
    let entries = table_or_empty(m, frame);
    m.insert(
        frame,
        Seq::new(
            ENTRY_COUNT as nat,
            |i: int|
                if i >= from {
                    entries[i] & PHYSICAL_ADDRESS_MASK
                } else {
                    entries[i]
                },
        ),
    )
}

/// What copying the table at `src` of `level` (4 down to 1) does: the
/// tables, the free-frame table and search position afterwards, and the
/// address of the copy; none when a frame was missing.
///
/// The copy takes a fresh frame. A present user-accessible entry points to
/// a copy of what it pointed to: a copy of the lower table, or at level 1 a
/// fresh frame holding the same words as the page. Any other present entry
/// is copied as it is, and an entry that is not present gives its flags to
/// the copy's entry. When a frame is missing, the copy's entries from there
/// on lose their flags.
pub open spec fn copy_spec(
    m: Map<u64, Seq<u64>>,
    free: Seq<bool>,
    next: int,
    maxi: int,
    src: u64,
    level: nat,
) -> (Map<u64, Seq<u64>>, Seq<bool>, int, Option<u64>)
    decreases level, 513int,
{
    let taken = take_frame(free, next, maxi);
    match taken.0 {
        None => (m, taken.1, taken.2, None),
        Some(p) => {
            let copy = (p * 4096) as u64;
            let r = copy_entries(m, taken.1, taken.2, maxi, src, copy, level, 0);
            (r.0, r.1, r.2, if r.3 { Some(copy) } else { None })
        },
    }
}

/// The copy of entries `index` to 511 of the table at `src` into the table
/// at `copy`, and whether it went through.
pub open spec fn copy_entries(
    m: Map<u64, Seq<u64>>,
    free: Seq<bool>,
    next: int,
    maxi: int,
    src: u64,
    copy: u64,
    level: nat,
    index: int,
) -> (Map<u64, Seq<u64>>, Seq<bool>, int, bool)
    decreases level, 512 - index,
{
    if index < 0 || index >= 512 || level == 0 {
        (m, free, next, true)
    } else {
        let e = entry_in(m, src, index);
        let flags = e & !PHYSICAL_ADDRESS_MASK;
        if flags & PRESENT != 0 && flags & USER_ACCESSIBLE != 0 {
            if level == 1 {
                let taken = take_frame(free, next, maxi);
                match taken.0 {
                    None => (clear_flags_from(m, copy, index), taken.1, taken.2, false),
                    Some(p) => {
                        let page = (p * 4096) as u64;
                        let m1 = m.insert(page, table_or_empty(m, e & PHYSICAL_ADDRESS_MASK));
                        copy_entries(set_entry_in(m1, copy, index, page | flags), taken.1, taken.2, maxi, src, copy, level, index + 1)
                    },
                }
            } else {
                let child = copy_spec(m, free, next, maxi, e & PHYSICAL_ADDRESS_MASK, (level - 1) as nat);
                match child.3 {
                    None => (clear_flags_from(child.0, copy, index), child.1, child.2, false),
                    Some(a) => copy_entries(
                        set_entry_in(child.0, copy, index, a | flags),
                        child.1,
                        child.2,
                        maxi,
                        src,
                        copy,
                        level,
                        index + 1,
                    ),
                }
            }
        } else if flags & PRESENT != 0 {
            copy_entries(
                set_entry_in(m, copy, index, (e & PHYSICAL_ADDRESS_MASK) | flags),
                free,
                next,
                maxi,
                src,
                copy,
                level,
                index + 1,
            )
        } else {
            copy_entries(set_flags_in(m, copy, index, flags), free, next, maxi, src, copy, level, index + 1)
        }
    }
}

impl PageTables {
    /// Takes the flags off entries `from` to 511 of the table at `frame`,
    /// keeping their address bits.
    fn clear_flags_from(&mut self, frame: u64, from: usize)
        requires
            old(self).wf(),
            from <= ENTRY_COUNT,
        ensures
            final(self).wf(),
            final(self)@ == clear_flags_from(old(self)@, frame, from as int),
    {
        let ghost entries = table_or_empty(old(self)@, frame);
        proof {
            lemma_table_len(old(self), frame);
        }
        let mut row: Vec<u64> = Vec::new();
        let mut i: usize = 0;
        while i < ENTRY_COUNT
            invariant
                self@ == old(self)@,
                self.wf(),
                from <= ENTRY_COUNT,
                i <= ENTRY_COUNT,
                entries.len() == ENTRY_COUNT,
                entries == table_or_empty(self@, frame),
                row@.len() == i,
                forall|j: int|
                    0 <= j < i ==> #[trigger] row@[j] == if j >= from {
                        entries[j] & PHYSICAL_ADDRESS_MASK
                    } else {
                        entries[j]
                    },
            decreases ENTRY_COUNT - i,
        {
            let e = self.entry(frame, i);
            if i >= from {
                row.push(e & PHYSICAL_ADDRESS_MASK);
            } else {
                row.push(e);
            }
            i = i + 1;
        }
        proof {
            assert(row@ =~= clear_flags_from(old(self)@, frame, from as int)[frame]);
        }
        self.store_table(frame, row);
        proof {
            assert(self@ =~= clear_flags_from(old(self)@, frame, from as int));
        }
    }

    /// Stores at `to` the words of the frame at `from`.
    fn copy_frame(&mut self, from: u64, to: u64)
        requires
            old(self).wf(),
        ensures
            final(self).wf(),
            final(self)@ == old(self)@.insert(to, table_or_empty(old(self)@, from)),
    {
        proof {
            lemma_table_len(old(self), from);
        }
        let mut row: Vec<u64> = Vec::new();
        let mut i: usize = 0;
        while i < ENTRY_COUNT
            invariant
                self.wf(),
                i <= ENTRY_COUNT,
                row@ =~= table_or_empty(self@, from).take(i as int),
                table_or_empty(self@, from).len() == ENTRY_COUNT,
            decreases ENTRY_COUNT - i,
        {
            let w = self.entry(from, i);
            row.push(w);
            i = i + 1;
        }
        proof {
            assert(row@ =~= table_or_empty(self@, from));
        }
        self.store_table(to, row);
    }
}

/// A table held has 512 entries, as does the unused table read where none
/// is held.
proof fn lemma_table_len(t: &PageTables, frame: u64)
    requires
        t.wf(),
    ensures
        table_or_empty(t@, frame).len() == ENTRY_COUNT,
{
    lemma_last_index_range(t.frames@, frame);
}

impl BootInfoAllocator {
    /// Copies the table at `src` of `level`: the address of the copy, or
    /// none when a frame was missing.
    #[verifier::rlimit(60)]
    fn copy_table(&mut self, tables: &mut PageTables, src: u64, level: u64) -> (r: Option<u64>)
        requires
            old(self).wf(),
            old(tables).wf(),
            1 <= level <= 4,
        ensures
            final(self).wf(),
            final(tables).wf(),
            final(self).spec_maxi() == old(self).spec_maxi(),
            ({
                let res = copy_spec(
                    old(tables)@,
                    old(self)@,
                    old(self).spec_next() as int,
                    old(self).spec_maxi() as int,
                    src,
                    level as nat,
                );
                &&& final(tables)@ == res.0
                &&& final(self)@ == res.1
                &&& final(self).spec_next() == res.2
                &&& r == res.3
            }),
        decreases level,
    {
        let ghost maxi = self.spec_maxi() as int;
        let copy = match self.take_frame() {
            None => {
                return None;
            },
            Some(a) => a,
        };
        proof {
            vstd::arithmetic::div_mod::lemma_fundamental_div_mod(copy as int, 4096);
        }
        let ghost goal = copy_entries(tables@, self@, self.spec_next() as int, maxi, src, copy, level as nat, 0);
        let mut index: usize = 0;
        while index < ENTRY_COUNT
            invariant
                self.wf(),
                tables.wf(),
                1 <= level <= 4,
                self.spec_maxi() == maxi,
                maxi == old(self).spec_maxi(),
                index <= ENTRY_COUNT,
                copy_spec(old(tables)@, old(self)@, old(self).spec_next() as int, maxi, src, level as nat) == (
                    goal.0,
                    goal.1,
                    goal.2,
                    if goal.3 {
                        Some(copy)
                    } else {
                        None
                    },
                ),
                goal == copy_entries(tables@, self@, self.spec_next() as int, maxi, src, copy, level as nat, index as int),
            decreases ENTRY_COUNT - index,
        {
            let e = tables.entry(src, index);
            let flags = e & !PHYSICAL_ADDRESS_MASK;
            if flags & PRESENT != 0 && flags & USER_ACCESSIBLE != 0 {
                if level == 1 {
                    match self.take_frame() {
                        None => {
                            tables.clear_flags_from(copy, index);
                            return None;
                        },
                        Some(page) => {
                            proof {
                                vstd::arithmetic::div_mod::lemma_fundamental_div_mod(page as int, 4096);
                            }
                            tables.copy_frame(e & PHYSICAL_ADDRESS_MASK, page);
                            tables.set_entry(copy, index, page | flags);
                        },
                    }
                } else {
                    match self.copy_table(tables, e & PHYSICAL_ADDRESS_MASK, level - 1) {
                        None => {
                            tables.clear_flags_from(copy, index);
                            return None;
                        },
                        Some(lower) => {
                            tables.set_entry(copy, index, lower | flags);
                        },
                    }
                }
            } else if flags & PRESENT != 0 {
                tables.set_entry(copy, index, (e & PHYSICAL_ADDRESS_MASK) | flags);
            } else {
                tables.set_entry_flags(copy, index, flags);
            }
            index = index + 1;
        }
        Some(copy)
    }

    /// Duplicates the page tables whose level-4 table is at `table_4`, for
    /// a fork: the address of the new level-4 table, or an error when a
    /// frame was missing (the copy made so far stays in place).
    pub fn copy_table_entries(&mut self, tables: &mut PageTables, table_4: u64) -> (r: Result<u64, MemoryError>)
        requires
            old(self).wf(),
            old(tables).wf(),
        ensures
            final(self).wf(),
            final(tables).wf(),
            final(self).spec_maxi() == old(self).spec_maxi(),
            ({
                let res = copy_spec(
                    old(tables)@,
                    old(self)@,
                    old(self).spec_next() as int,
                    old(self).spec_maxi() as int,
                    table_4,
                    4,
                );
                &&& final(tables)@ == res.0
                &&& final(self)@ == res.1
                &&& final(self).spec_next() == res.2
                &&& match res.3 {
                    Some(a) => r matches Ok(b) && b == a,
                    None => r is Err,
                }
            }),
    {
        match self.copy_table(tables, table_4, 4) {
            Some(a) => Ok(a),
            None => Err(MemoryError(String::from_str("Could not copy the page tables"))),
        }
    }
}

} // verus!
