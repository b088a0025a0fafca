//! Entries of the interrupt descriptor table and their option bits.
use vstd::prelude::*;
use core::marker::PhantomData;
use crate::bits::{u16_set_bit, u16_set_bits};

verus! {

/// Option bits of an interrupt descriptor.
#[derive(Debug, Clone, Copy)]
pub struct EntryOptions(u16);

impl EntryOptions {
    /// The option word.
    pub closed spec fn view(&self) -> u16 {
        self.0
    }

    /// Options of a missing entry: only the must-be-one bits 9 to 11.
    pub fn minimal() -> (o: Self)
        ensures
            o@ == 0b1110_0000_0000u16,
    {
        EntryOptions(0b1110_0000_0000)
    }

    /// Options of a present entry.
    pub fn new() -> (o: Self)
        ensures
            o@ == 0b1000_1110_0000_0000u16,
    {
        let mut options = Self::minimal();
        options.set_present(true);
        assert(0b1110_0000_0000u16 | (1u16 << 15u16) == 0b1000_1110_0000_0000u16) by (bit_vector);
        options
    }

    /// Sets or clears the present bit (bit 15).
    pub fn set_present(&mut self, present: bool) -> (r: &mut Self)
        ensures
            r@ == if present {
                old(self)@ | (1u16 << 15u16)
            } else {
                old(self)@ & !(1u16 << 15u16)
            },
            *final(self) == *final(r),
    {
        if present {
            self.0 = self.0 | (1 << 15);
        } else {
            self.0 = self.0 & !(1 << 15);
        }
        self
    }

    /// Lets interrupts stay enabled while the handler runs (bit 8), or not.
    pub fn disable_interrupts(&mut self, disable: bool) -> (r: &mut Self)
        ensures
            r@ == if disable {
                old(self)@ & !(1u16 << 8u16)
            } else {
                old(self)@ | (1u16 << 8u16)
            },
            *final(self) == *final(r),
    {
        u16_set_bit(&mut self.0, 8, !disable);
        self
    }

    /// Makes the handler run on interrupt stack `index` of the task state
    /// segment (bits 0 to 2 hold `index + 1`).
    pub fn set_stack_index(&mut self, index: u16) -> (r: &mut Self)
        requires
            index < 7,
        ensures
            r@ == (old(self)@ & !7u16) | (index + 1) as u16,
            *final(self) == *final(r),
    {
        proof {
            vstd::arithmetic::power2::lemma2_to64();
        }
        let ghost before = self.0;
        u16_set_bits(&mut self.0, 0, 3, index + 1);
        let ghost after = self.0;
        let ghost v = (index + 1) as u16;
        assert(after == (before & !7u16) | v) by (bit_vector)
            requires
                after == (before & !((((!0u16 << 13u16) >> 13u16) >> 0u16) << 0u16)) | (v << 0u16),
        ;
        self
    }
}

/// `PhantomData::clone` gives back the marker, which holds nothing.
pub assume_specification<T: core::marker::PointeeSized>[ <PhantomData<T> as Clone>::clone ](p: &PhantomData<T>) -> (r: PhantomData<T>)
    ensures
        r == *p,
;

/// An entry of the interrupt descriptor table, for a handler of type
/// `FunctionType`.
#[derive(Debug, Clone, Copy)]
pub struct Entry<FunctionType> {
    pointer_low: u16,
    gdt_selector: u16,
    options: EntryOptions,
    pointer_middle: u16,
    pointer_high: u32,
    reserved: u32,
    phantom: PhantomData<FunctionType>,
}

impl<FunctionType> Entry<FunctionType> {
    /// Address of the handler.
    pub closed spec fn spec_handler(&self) -> u64 {
        (self.pointer_low as u64) | ((self.pointer_middle as u64) << 16u64) | ((self.pointer_high as u64) << 32u64)
    }

    /// Code segment selector the handler runs in.
    pub closed spec fn spec_selector(&self) -> u16 {
        self.gdt_selector
    }

    /// Option word of the entry.
    pub closed spec fn spec_options(&self) -> u16 {
        self.options@
    }

    /// No handler, no selector, and the options of a missing entry.
    pub open spec fn is_missing(&self) -> bool {
        &&& self.spec_handler() == 0
        &&& self.spec_selector() == 0
        &&& self.spec_options() == 0b1110_0000_0000u16
    }

    /// An entry with no handler.
    pub fn missing() -> (e: Self)
        ensures
            e.spec_handler() == 0,
            e.spec_selector() == 0,
            e.spec_options() == 0b1110_0000_0000u16,
    {
        let e = Entry {
            gdt_selector: 0,
            pointer_low: 0,
            pointer_middle: 0,
            pointer_high: 0,
            options: EntryOptions::minimal(),
            reserved: 0,
            phantom: PhantomData,
        };
        assert((0u16 as u64) | ((0u16 as u64) << 16u64) | ((0u32 as u64) << 32u64) == 0) by (bit_vector);
        e
    }

    /// Points the entry at the handler at address `handler`, running in
    /// code segment `selector`, and marks it present; returns its options.
    pub fn set_handler_address(&mut self, handler: u64, selector: u16) -> (r: &mut EntryOptions)
        ensures
            final(self).spec_handler() == handler,
            final(self).spec_selector() == selector,
            r@ == old(self).spec_options() | (1u16 << 15u16),
            final(self).spec_options() == final(r)@,
    {
        self.pointer_low = handler as u16;
        self.pointer_middle = (handler >> 16) as u16;
        self.pointer_high = (handler >> 32) as u32;
        self.gdt_selector = selector;
        let ghost lo = self.pointer_low;
        let ghost mid = self.pointer_middle;
        let ghost hi = self.pointer_high;
        assert((lo as u64) | ((mid as u64) << 16u64) | ((hi as u64) << 32u64) == handler) by (bit_vector)
            requires
                lo == handler as u16,
                mid == (handler >> 16u64) as u16,
                hi == (handler >> 32u64) as u32,
        ;
        self.options.set_present(true);
        &mut self.options
    }
}

/// Handler taking the interrupt stack frame.
#[derive(Debug, Clone, Copy)]
pub struct HandlerFunc;

/// Handler taking the interrupt stack frame and an error code.
#[derive(Debug, Clone, Copy)]
pub struct HandlerFuncWithErrorCode;

/// Handler of page faults.
#[derive(Debug, Clone, Copy)]
pub struct PageFaultHandler;

/// Handler that never returns.
#[derive(Debug, Clone, Copy)]
pub struct DivergingFunc;

/// Handler that never returns and takes an error code.
#[derive(Debug, Clone, Copy)]
pub struct DivergingFuncWithErrorCode;

/// Handler of system calls.
#[derive(Debug, Clone, Copy)]
pub struct SyscallFunc;

/// Vector of system calls.
pub const SYSCALL_POSITION: usize = 0x80;

/// The interrupt descriptor table: the processor's exceptions, the external
/// interrupts and the system call vector.
pub struct Idt {
    pub divide_error: Entry<HandlerFunc>,
    pub debug: Entry<HandlerFunc>,
    pub non_maskable_interrupt: Entry<HandlerFunc>,
    pub breakpoint: Entry<HandlerFunc>,
    pub overflow: Entry<HandlerFunc>,
    pub bound_range_exceeded: Entry<HandlerFunc>,
    pub invalid_opcode: Entry<HandlerFunc>,
    pub device_not_available: Entry<HandlerFunc>,
    pub double_fault: Entry<DivergingFuncWithErrorCode>,
    pub interrupt_09: Entry<HandlerFunc>,
    pub invalid_tss: Entry<HandlerFuncWithErrorCode>,
    pub segment_not_present: Entry<HandlerFuncWithErrorCode>,
    pub stack_segment_fault: Entry<HandlerFuncWithErrorCode>,
    pub general_protection_fault: Entry<HandlerFuncWithErrorCode>,
    pub page_fault: Entry<PageFaultHandler>,
    pub interrupt_15: Entry<HandlerFunc>,
    pub x87_floating_point: Entry<HandlerFunc>,
    pub alignment_check: Entry<HandlerFuncWithErrorCode>,
    pub machine_check: Entry<DivergingFunc>,
    pub simd_floating_point: Entry<HandlerFunc>,
    pub virtualization: Entry<HandlerFunc>,
    pub reserved_21_29: [Entry<HandlerFunc>; 9],
    pub security_exception: Entry<HandlerFuncWithErrorCode>,
    pub interrupt_31: Entry<HandlerFunc>,
    pub interrupt_32_: [Entry<HandlerFunc>; 96],
    pub syscall: Entry<SyscallFunc>,
    pub interrupt_post_syscall_: [Entry<HandlerFunc>; 127],
}

/// The vectors that can be reached by indexing the table: those whose
/// entry takes a plain handler and is neither reserved nor the system call.
pub open spec fn is_handler_position(p: int) -> bool {
    ||| 0 <= p <= 7
    ||| p == 16
    ||| p == 19
    ||| p == 20
    ||| 32 <= p <= 0x7E
    ||| 0x81 <= p <= 255
}

impl Idt {
    /// The entry at vector `p`, for `is_handler_position(p)`.
    pub open spec fn handler_entry(&self, p: int) -> Entry<HandlerFunc> {
        if p == 0 {
            self.divide_error
        } else if p == 1 {
            self.debug
        } else if p == 2 {
            self.non_maskable_interrupt
        } else if p == 3 {
            self.breakpoint
        } else if p == 4 {
            self.overflow
        } else if p == 5 {
            self.bound_range_exceeded
        } else if p == 6 {
            self.invalid_opcode
        } else if p == 7 {
            self.device_not_available
        } else if p == 16 {
            self.x87_floating_point
        } else if p == 19 {
            self.simd_floating_point
        } else if p == 20 {
            self.virtualization
        } else if p < SYSCALL_POSITION {
            self.interrupt_32_@[p - 32]
        } else {
            self.interrupt_post_syscall_@[p - SYSCALL_POSITION - 1]
        }
    }

    /// The entries that indexing does not reach are the same in both tables.
    pub open spec fn same_unindexed(&self, other: &Idt) -> bool {
        &&& self.double_fault == other.double_fault
        &&& self.interrupt_09 == other.interrupt_09
        &&& self.invalid_tss == other.invalid_tss
        &&& self.segment_not_present == other.segment_not_present
        &&& self.stack_segment_fault == other.stack_segment_fault
        &&& self.general_protection_fault == other.general_protection_fault
        &&& self.page_fault == other.page_fault
        &&& self.interrupt_15 == other.interrupt_15
        &&& self.alignment_check == other.alignment_check
        &&& self.machine_check == other.machine_check
        &&& self.reserved_21_29 == other.reserved_21_29
        &&& self.security_exception == other.security_exception
        &&& self.interrupt_31 == other.interrupt_31
        &&& self.interrupt_32_@[95] == other.interrupt_32_@[95]
        &&& self.syscall == other.syscall
    }

    /// A table whose entries are all missing.
    pub fn new() -> (idt: Self)
        ensures
            forall|p: int| is_handler_position(p) ==> (#[trigger] idt.handler_entry(p)).is_missing(),
            idt.double_fault.is_missing(),
            idt.interrupt_09.is_missing(),
            idt.invalid_tss.is_missing(),
            idt.segment_not_present.is_missing(),
            idt.stack_segment_fault.is_missing(),
            idt.general_protection_fault.is_missing(),
            idt.page_fault.is_missing(),
            idt.interrupt_15.is_missing(),
            idt.alignment_check.is_missing(),
            idt.machine_check.is_missing(),
            forall|i: int| 0 <= i < 9 ==> (#[trigger] idt.reserved_21_29@[i]).is_missing(),
            idt.security_exception.is_missing(),
            idt.interrupt_31.is_missing(),
            idt.interrupt_32_@[95].is_missing(),
            idt.syscall.is_missing(),
    {
        let handler: Entry<HandlerFunc> = Entry::missing();
        Idt {
            divide_error: Entry::missing(),
            debug: Entry::missing(),
            non_maskable_interrupt: Entry::missing(),
            breakpoint: Entry::missing(),
            overflow: Entry::missing(),
            bound_range_exceeded: Entry::missing(),
            invalid_opcode: Entry::missing(),
            device_not_available: Entry::missing(),
            double_fault: Entry::missing(),
            interrupt_09: Entry::missing(),
            invalid_tss: Entry::missing(),
            segment_not_present: Entry::missing(),
            stack_segment_fault: Entry::missing(),
            general_protection_fault: Entry::missing(),
            page_fault: Entry::missing(),
            interrupt_15: Entry::missing(),
            x87_floating_point: Entry::missing(),
            alignment_check: Entry::missing(),
            machine_check: Entry::missing(),
            simd_floating_point: Entry::missing(),
            virtualization: Entry::missing(),
            reserved_21_29: [handler; 9],
            security_exception: Entry::missing(),
            interrupt_31: Entry::missing(),
            interrupt_32_: [handler; 96],
            syscall: Entry::missing(),
            interrupt_post_syscall_: [handler; 127],
        }
    }

    /// The entry at vector `position`. The other vectors cannot be indexed:
    /// they are reserved, take another kind of handler, or do not exist.
    pub fn index(&self, position: usize) -> (r: &Entry<HandlerFunc>)
        requires
            is_handler_position(position as int),
        ensures
            *r == self.handler_entry(position as int),
    {
        match position {
            0 => &self.divide_error,
            1 => &self.debug,
            2 => &self.non_maskable_interrupt,
            3 => &self.breakpoint,
            4 => &self.overflow,
            5 => &self.bound_range_exceeded,
            6 => &self.invalid_opcode,
            7 => &self.device_not_available,
            16 => &self.x87_floating_point,
            19 => &self.simd_floating_point,
            20 => &self.virtualization,
            _ => {
                if position < SYSCALL_POSITION {
                    &self.interrupt_32_[position - 32]
                } else {
                    &self.interrupt_post_syscall_[position - SYSCALL_POSITION - 1]
                }
            },
        }
    }

    /// The entry at vector `position`, to be changed in place; every other
    /// entry stays as it is.
    pub fn index_mut(&mut self, position: usize) -> (r: &mut Entry<HandlerFunc>)
        requires
            is_handler_position(position as int),
        ensures
            *r == old(self).handler_entry(position as int),
            final(self).handler_entry(position as int) == *final(r),
            forall|q: int|
                is_handler_position(q) && q != position ==> #[trigger] final(self).handler_entry(q)
                    == old(self).handler_entry(q),
            final(self).same_unindexed(&*old(self)),
    {
        match position {
            0 => &mut self.divide_error,
            1 => &mut self.debug,
            2 => &mut self.non_maskable_interrupt,
            3 => &mut self.breakpoint,
            4 => &mut self.overflow,
            5 => &mut self.bound_range_exceeded,
            6 => &mut self.invalid_opcode,
            7 => &mut self.device_not_available,
            16 => &mut self.x87_floating_point,
            19 => &mut self.simd_floating_point,
            20 => &mut self.virtualization,
            _ => {
                if position < SYSCALL_POSITION {
                    &mut self.interrupt_32_[position - 32]
                } else {
                    &mut self.interrupt_post_syscall_[position - SYSCALL_POSITION - 1]
                }
            },
        }
    }
}

} // verus!
