//! The entry of a global descriptor table, field by field.
use vstd::prelude::*;

verus! {

/// A segment descriptor, kept as its separate bit fields.
pub struct GdtEntryBits {
    base_high: u8,
    granularity: u8,
    attributes: u8,
    base_low1: u8,
    base_low2: u16,
    limit_low: u16,
}

/// `v` with bit mask `mask` set when `on` holds and cleared otherwise.
pub open spec fn with_bits(v: u8, mask: u8, on: bool) -> u8 {
    if on {
        v | mask
    } else {
        v & !mask
    }
}

/// The 64-bit word an entry packs into, from its fields.
pub open spec fn pack_entry(
    base_high: u8,
    granularity: u8,
    attributes: u8,
    base_low1: u8,
    base_low2: u16,
    limit_low: u16,
) -> u64 {
    (limit_low as u64) | ((base_low1 as u64) << 16u64) | ((base_low2 as u64) << 32u64) | ((attributes as u64)
        << 40u64) | ((granularity as u64) << 48u64) | ((base_high as u64) << 54u64)
}

impl GdtEntryBits {
    /// Bits 24 to 31 of the base (bits 54 to 63 of the word).
    pub closed spec fn spec_base_high(&self) -> u8 {
        self.base_high
    }

    /// Granularity, size and limit bits 16 to 19 (bits 48 to 55 of the word).
    pub closed spec fn spec_granularity(&self) -> u8 {
        self.granularity
    }

    /// Access byte: present, privilege, type and access bits.
    pub closed spec fn spec_attributes(&self) -> u8 {
        self.attributes
    }

    /// Bits 16 to 23 of the base.
    pub closed spec fn spec_base_low1(&self) -> u8 {
        self.base_low1
    }

    /// Bits 0 to 15 of the base.
    pub closed spec fn spec_base_low2(&self) -> u16 {
        self.base_low2
    }

    /// Bits 0 to 15 of the limit.
    pub closed spec fn spec_limit_low(&self) -> u16 {
        self.limit_low
    }

    /// The word the entry packs into.
    pub open spec fn spec_u64(&self) -> u64 {
        pack_entry(
            self.spec_base_high(),
            self.spec_granularity(),
            self.spec_attributes(),
            self.spec_base_low1(),
            self.spec_base_low2(),
            self.spec_limit_low(),
        )
    }

    /// Both entries hold the same fields except, possibly, the attributes.
    pub open spec fn same_but_attributes(&self, other: &Self) -> bool {
        &&& self.spec_base_high() == other.spec_base_high()
        &&& self.spec_granularity() == other.spec_granularity()
        &&& self.spec_base_low1() == other.spec_base_low1()
        &&& self.spec_base_low2() == other.spec_base_low2()
        &&& self.spec_limit_low() == other.spec_limit_low()
    }

    /// Both entries hold the same fields except, possibly, the granularity byte.
    pub open spec fn same_but_granularity(&self, other: &Self) -> bool {
        &&& self.spec_base_high() == other.spec_base_high()
        &&& self.spec_attributes() == other.spec_attributes()
        &&& self.spec_base_low1() == other.spec_base_low1()
        &&& self.spec_base_low2() == other.spec_base_low2()
        &&& self.spec_limit_low() == other.spec_limit_low()
    }

    /// A minimal entry: everything zero but the descriptor-type bit.
    pub fn new() -> (e: Self)
        ensures
            e.spec_base_high() == 0,
            e.spec_granularity() == 0,
            e.spec_attributes() == 0x10,
            e.spec_base_low1() == 0,
            e.spec_base_low2() == 0,
            e.spec_limit_low() == 0,
    {
        GdtEntryBits {
            base_high: 0,
            granularity: 0,
            attributes: 0x10,
            base_low1: 0,
            base_low2: 0,
            limit_low: 0,
        }
    }

    /// Sets the low part of the limit.
    fn set_limit_low(&mut self, val: u16)
        ensures
            final(self).spec_limit_low() == val,
            final(self).spec_base_high() == old(self).spec_base_high(),
            final(self).spec_granularity() == old(self).spec_granularity(),
            final(self).spec_attributes() == old(self).spec_attributes(),
            final(self).spec_base_low1() == old(self).spec_base_low1(),
            final(self).spec_base_low2() == old(self).spec_base_low2(),
    {
        self.limit_low = val
    }

    /// Sets the high part of the limit: the low nibble of the granularity byte.
    fn set_limit_high(&mut self, val: u8)
        ensures
            final(self).spec_granularity() == (old(self).spec_granularity() & 0xF0) | (val & 0x0F),
            final(self).same_but_granularity(&*old(self)),
    {
        self.granularity = (self.granularity & 0xF0) | (val & 0x0F)
    }

    /// Sets the limit: its low 16 bits and the nibble above them.
    pub fn set_limit(&mut self, val: u32) -> (r: &mut Self)
        ensures
            r.spec_limit_low() == val as u16,
            r.spec_granularity() == (old(self).spec_granularity() & 0xF0) | (((val >> 16u32) as u8) & 0x0F),
            r.spec_base_high() == old(self).spec_base_high(),
            r.spec_attributes() == old(self).spec_attributes(),
            r.spec_base_low1() == old(self).spec_base_low1(),
            r.spec_base_low2() == old(self).spec_base_low2(),
            *final(self) == *final(r),
    {
        self.set_limit_low(val as u16);
        self.set_limit_high((val >> 16) as u8);
        self
    }

    /// Sets the low part of the base.
    fn set_base_low(&mut self, val: u32)
        ensures
            final(self).spec_base_low1() == (val >> 16u32) as u8,
            final(self).spec_base_low2() == val as u16,
            final(self).spec_base_high() == old(self).spec_base_high(),
            final(self).spec_granularity() == old(self).spec_granularity(),
            final(self).spec_attributes() == old(self).spec_attributes(),
            final(self).spec_limit_low() == old(self).spec_limit_low(),
    {
        self.base_low1 = (val >> 16) as u8;
        self.base_low2 = val as u16
    }

    /// Sets the high part of the base.
    fn set_base_high(&mut self, val: u8)
        ensures
            final(self).spec_base_high() == val,
            final(self).spec_granularity() == old(self).spec_granularity(),
            final(self).spec_attributes() == old(self).spec_attributes(),
            final(self).spec_base_low1() == old(self).spec_base_low1(),
            final(self).spec_base_low2() == old(self).spec_base_low2(),
            final(self).spec_limit_low() == old(self).spec_limit_low(),
    {
        self.base_high = val
    }

    /// Sets the base: its bits 0 to 15 and 16 to 23 go to the low part, its
    /// top byte to the high part.
    pub fn set_base(&mut self, val: u32) -> (r: &mut Self)
        ensures
            r.spec_base_low1() == (val >> 16u32) as u8,
            r.spec_base_low2() == val as u16,
            r.spec_base_high() == (val >> 24u32) as u8,
            r.spec_granularity() == old(self).spec_granularity(),
            r.spec_attributes() == old(self).spec_attributes(),
            r.spec_limit_low() == old(self).spec_limit_low(),
            *final(self) == *final(r),
    {
        self.set_base_low(val);
        self.set_base_high((val >> 24) as u8);
        self
    }

    /// Sets the accessed attribute.
    pub fn set_accessed(&mut self, access: bool) -> (r: &mut Self)
        ensures
            r.spec_attributes() == with_bits(old(self).spec_attributes(), 0x01, access),
            r.same_but_attributes(&*old(self)),
            *final(self) == *final(r),
    {
        if access {
            self.attributes |= 0x01
        } else {
            self.attributes &= !0x01
        }
        self
    }

    /// Sets whether the segment is readable (code) or writable (data).
    pub fn set_read_write(&mut self, can_rw: bool) -> (r: &mut Self)
        ensures
            r.spec_attributes() == with_bits(old(self).spec_attributes(), 0x02, can_rw),
            r.same_but_attributes(&*old(self)),
            *final(self) == *final(r),
    {
        if can_rw {
            self.attributes |= 0x02
        } else {
            self.attributes &= !0x02
        }
        self
    }

    /// Sets whether a code segment is conforming, or a data segment expands down.
    pub fn set_conforming_expand_down(&mut self, conforming: bool) -> (r: &mut Self)
        ensures
            r.spec_attributes() == with_bits(old(self).spec_attributes(), 0x04, conforming),
            r.same_but_attributes(&*old(self)),
            *final(self) == *final(r),
    {
        if conforming {
            self.attributes |= 0x04
        } else {
            self.attributes &= !0x04
        }
        self
    }

    /// Sets whether the segment holds code (set) or data (clear).
    pub fn is_code(&mut self, is_code: bool) -> (r: &mut Self)
        ensures
            r.spec_attributes() == with_bits(old(self).spec_attributes(), 0x08, is_code),
            r.same_but_attributes(&*old(self)),
            *final(self) == *final(r),
    {
        if is_code {
            self.attributes |= 0x08
        } else {
            self.attributes &= !0x08
        }
        self
    }

    /// Sets the privilege level, from 0 to 3.
    pub fn set_dpl(&mut self, dpl: u8) -> (r: &mut Self)
        ensures
            r.spec_attributes() == (old(self).spec_attributes() & 0x9F) | ((dpl & 0b11) << 5u8),
            r.same_but_attributes(&*old(self)),
            *final(self) == *final(r),
    {
        assert((dpl & 0b11) << 5u8 <= 0xff) by (bit_vector);
        self.attributes = (self.attributes & 0x9F) | ((dpl & 0b11) << 5);
        self
    }

    /// Sets whether the segment is present.
    pub fn set_present(&mut self, present: bool) -> (r: &mut Self)
        ensures
            r.spec_attributes() == with_bits(old(self).spec_attributes(), 0x80, present),
            r.same_but_attributes(&*old(self)),
            *final(self) == *final(r),
    {
        if present {
            self.attributes |= 0x80
        } else {
            self.attributes &= !0x80
        }
        self
    }

    /// Sets the available attribute of the segment.
    pub fn set_available(&mut self, available: bool) -> (r: &mut Self)
        ensures
            r.spec_granularity() == with_bits(old(self).spec_granularity(), 0x10, available),
            r.same_but_granularity(&*old(self)),
            *final(self) == *final(r),
    {
        if available {
            self.granularity |= 0x10
        } else {
            self.granularity &= !0x10
        }
        self
    }

    /// Marks a 64-bit code descriptor; for data segments this bit is reserved.
    pub fn set_x86_64_code_descriptor(&mut self, code_descriptor: bool) -> (r: &mut Self)
        ensures
            r.spec_granularity() == with_bits(old(self).spec_granularity(), 0x20, code_descriptor),
            r.same_but_granularity(&*old(self)),
            *final(self) == *final(r),
    {
        if code_descriptor {
            self.granularity |= 0x20
        } else {
            self.granularity &= !0x20
        }
        self
    }

    /// Sets 32-bit operands for code, a 32-bit stack for data.
    pub fn set_big(&mut self, big: bool) -> (r: &mut Self)
        ensures
            r.spec_granularity() == with_bits(old(self).spec_granularity(), 0x40, big),
            r.same_but_granularity(&*old(self)),
            *final(self) == *final(r),
    {
        if big {
            self.granularity |= 0x40
        } else {
            self.granularity &= !0x40
        }
        self
    }

    /// Sets page granularity (4 KiB units) rather than byte granularity.
    pub fn set_gran(&mut self, gran: bool) -> (r: &mut Self)
        ensures
            r.spec_granularity() == with_bits(old(self).spec_granularity(), 0x80, gran),
            r.same_but_granularity(&*old(self)),
            *final(self) == *final(r),
    {
        if gran {
            self.granularity |= 0x80
        } else {
            self.granularity &= !0x80
        }
        self
    }

    /// The 64-bit word the entry packs into.
    pub fn as_u64(&self) -> (r: u64)
        ensures
            r == self.spec_u64(),
    {
        (self.limit_low as u64)
            | ((self.base_low1 as u64) << 16)
            | ((self.base_low2 as u64) << 32)
            | ((self.attributes as u64) << 40)
            | ((self.granularity as u64) << 48)
            | ((self.base_high as u64) << 54)
    }
}

/// A user data segment.
pub fn new_ds() -> (r: u64)
    ensures
        r == 0x0080_F200_0000_0000u64,
{
    let mut ds = GdtEntryBits::new();
    ds.set_present(true).set_read_write(true).is_code(false).set_dpl(3).set_big(false).set_available(
        false,
    ).set_gran(true);
    let ghost a = ds.spec_attributes();
    let ghost g = ds.spec_granularity();
    assert(a == 0xF2 && g == 0x80) by (bit_vector)
        requires
            a == (((((0x10u8 | 0x80) | 0x02) & !0x08u8) & 0x9F) | ((3u8 & 0b11) << 5u8)),
            g == (((0u8 & !0x40u8) & !0x10u8) | 0x80),
    ;
    let r = ds.as_u64();
    assert(pack_entry(0, 0x80, 0xF2, 0, 0, 0) == 0x0080_F200_0000_0000u64) by (bit_vector);
    r
}

/// A user code segment.
pub fn new_cs() -> (r: u64)
    ensures
        r == 0x0020_9C00_0000_0000u64,
{
    let mut cs = GdtEntryBits::new();
    cs.set_present(true).set_read_write(false).is_code(true).set_dpl(0).set_big(false)
        .set_conforming_expand_down(true).set_available(false).set_gran(false);
    cs.set_x86_64_code_descriptor(true);
    let ghost a = cs.spec_attributes();
    let ghost g = cs.spec_granularity();
    assert(a == 0x9C && g == 0x20) by (bit_vector)
        requires
            a == ((((((0x10u8 | 0x80) & !0x02u8) | 0x08) & 0x9F) | ((0u8 & 0b11) << 5u8)) | 0x04),
            g == ((((0u8 & !0x40u8) & !0x10u8) & !0x80u8) | 0x20),
    ;
    let r = cs.as_u64();
    assert(pack_entry(0, 0x20, 0x9C, 0, 0, 0) == 0x0020_9C00_0000_0000u64) by (bit_vector);
    r
}

/// A kernel code segment.
pub fn kernel_cs() -> (r: u64)
    ensures
        r == 0x0020_9800_0000_0000u64,
{
    let mut kernel_cs = GdtEntryBits::new();
    kernel_cs.set_present(true).set_read_write(false).is_code(true).set_dpl(0).set_big(false)
        .set_conforming_expand_down(false).set_available(false).set_gran(false);
    kernel_cs.set_x86_64_code_descriptor(true);
    let ghost a = kernel_cs.spec_attributes();
    let ghost g = kernel_cs.spec_granularity();
    assert(a == 0x98 && g == 0x20) by (bit_vector)
        requires
            a == ((((((0x10u8 | 0x80) & !0x02u8) | 0x08) & 0x9F) | ((0u8 & 0b11) << 5u8)) & !0x04u8),
            g == ((((0u8 & !0x40u8) & !0x10u8) & !0x80u8) | 0x20),
    ;
    let r = kernel_cs.as_u64();
    assert(pack_entry(0, 0x20, 0x98, 0, 0, 0) == 0x0020_9800_0000_0000u64) by (bit_vector);
    r
}

/// A kernel data segment.
pub fn kernel_ds() -> (r: u64)
    ensures
        r == 0x0080_9200_0000_0000u64,
{
    let mut kernel_ds = GdtEntryBits::new();
    kernel_ds.set_present(true).set_read_write(true).is_code(false).set_dpl(0).set_big(false)
        .set_available(false).set_gran(true);
    let ghost a = kernel_ds.spec_attributes();
    let ghost g = kernel_ds.spec_granularity();
    assert(a == 0x92 && g == 0x80) by (bit_vector)
        requires
            a == (((((0x10u8 | 0x80) | 0x02) & !0x08u8) & 0x9F) | ((0u8 & 0b11) << 5u8)),
            g == (((0u8 & !0x40u8) & !0x10u8) | 0x80),
    ;
    let r = kernel_ds.as_u64();
    assert(pack_entry(0, 0x80, 0x92, 0, 0, 0) == 0x0080_9200_0000_0000u64) by (bit_vector);
    r
}

} // verus!
