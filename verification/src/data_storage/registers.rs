//! Saved states of the general-purpose registers.
use vstd::prelude::*;

verus! {

/// The general-purpose registers of an `x86-64` process, read from and
/// written to during a system call.
#[derive(Clone, Copy, Debug, PartialEq, Eq, Structural)]
pub struct Registers {
    pub r9: u64,
    pub r8: u64,
    pub r10: u64,
    pub rdx: u64,
    pub rsi: u64,
    pub rdi: u64,
    pub rax: u64,
    pub rbx: u64,
    pub rcx: u64,
    pub rbp: u64,
    pub r11: u64,
    pub r12: u64,
    pub r13: u64,
    pub r14: u64,
    pub r15: u64,
}

impl Registers {
    /// All registers at zero.
    pub fn new() -> (r: Self)
        ensures
            r == (Registers {
                r9: 0,
                r8: 0,
                r10: 0,
                rdx: 0,
                rsi: 0,
                rdi: 0,
                rax: 0,
                rbx: 0,
                rcx: 0,
                rbp: 0,
                r11: 0,
                r12: 0,
                r13: 0,
                r14: 0,
                r15: 0,
            }),
    {
        Registers {
            rax: 0,
            rbx: 0,
            rcx: 0,
            rdx: 0,
            rsi: 0,
            rdi: 0,
            rbp: 0,
            r8: 0,
            r9: 0,
            r10: 0,
            r11: 0,
            r12: 0,
            r13: 0,
            r14: 0,
            r15: 0,
        }
    }
}

/// Registers of a system call: `rax` holds its number, `rdi`, `rsi`,
/// `rdx`, `r10`, `r8` and `r9` its arguments 0 to 5.
#[derive(Clone, Copy, Debug, PartialEq, Eq, Structural)]
pub struct RegistersMini {
    pub r9: u64,
    pub r8: u64,
    pub r10: u64,
    pub rdx: u64,
    pub rsi: u64,
    pub rdi: u64,
    pub rax: u64,
}

} // verus!
