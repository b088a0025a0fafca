//! What the ATA disk is told and what it answers: the register bytes that
//! select a sector, and the fields of the drive's identify block.
use vstd::prelude::*;
use crate::filesystem::drivers::ustar::byte_of;

verus! {

/// Base port of the disk the kernel boots from.
pub const KERNEL_DISK_PORT: u16 = 0x1F0;

/// The six bytes written to the sector-number registers to select sector
/// `lba` in 48-bit mode: first bytes 3, 4 and 5 of the sector number, then
/// bytes 0, 1 and 2.
pub fn lba48_bytes(lba: u32) -> (b: [u8; 6])
    ensures
        b@ == seq![
            byte_of(lba as u64, 3),
            byte_of(lba as u64, 4),
            byte_of(lba as u64, 5),
            byte_of(lba as u64, 0),
            byte_of(lba as u64, 1),
            byte_of(lba as u64, 2),
        ],
{
    let l: u64 = lba as u64;
    let b: [u8; 6] = [
        (l >> 24u64) as u8,
        (l >> 32u64) as u8,
        (l >> 40u64) as u8,
        l as u8,
        (l >> 8u64) as u8,
        (l >> 16u64) as u8,
    ];
    proof {
        assert((l >> 24u64) as u8 == ((l >> ((8 * 3) as u64)) & 0xff) as u8
            && (l >> 32u64) as u8 == ((l >> ((8 * 4) as u64)) & 0xff) as u8
            && (l >> 40u64) as u8 == ((l >> ((8 * 5) as u64)) & 0xff) as u8
            && l as u8 == ((l >> ((8 * 0) as u64)) & 0xff) as u8
            && (l >> 8u64) as u8 == ((l >> ((8 * 1) as u64)) & 0xff) as u8
            && (l >> 16u64) as u8 == ((l >> ((8 * 2) as u64)) & 0xff) as u8) by (bit_vector);
        assert(b@ =~= seq![
            byte_of(lba as u64, 3),
            byte_of(lba as u64, 4),
            byte_of(lba as u64, 5),
            byte_of(lba as u64, 0),
            byte_of(lba as u64, 1),
            byte_of(lba as u64, 2),
        ]);
    }
    b
}

/// The four bytes written to select sector `lba` in 28-bit mode: the drive
/// register (`0xE0` with bits 24 to 27 of the sector number), then bytes 0,
/// 1 and 2 of the sector number.
pub fn lba28_bytes(lba: u32) -> (b: [u8; 4])
    ensures
        b@ == seq![
            (0xE0u8 | (byte_of(lba as u64, 3) & 0x0Fu8)) as u8,
            byte_of(lba as u64, 0),
            byte_of(lba as u64, 1),
            byte_of(lba as u64, 2),
        ],
{
    let b: [u8; 4] = [0xE0u8 | ((lba >> 24u32) & 0x0Fu32) as u8, lba as u8, (lba >> 8u32) as u8, (lba >> 16u32) as u8];
    let l: u64 = lba as u64;
    proof {
        assert(0xE0u8 | ((lba >> 24u32) & 0x0Fu32) as u8 == (0xE0u8 | ((((l >> ((8 * 3) as u64)) & 0xff) as u8)
            & 0x0Fu8)) as u8 && lba as u8 == ((l >> ((8 * 0) as u64)) & 0xff) as u8
            && (lba >> 8u32) as u8 == ((l >> ((8 * 1) as u64)) & 0xff) as u8
            && (lba >> 16u32) as u8 == ((l >> ((8 * 2) as u64)) & 0xff) as u8) by (bit_vector)
            requires
                l == lba as u64,
        ;
        assert(b@ =~= seq![
            (0xE0u8 | (byte_of(lba as u64, 3) & 0x0Fu8)) as u8,
            byte_of(lba as u64, 0),
            byte_of(lba as u64, 1),
            byte_of(lba as u64, 2),
        ]);
    }
    b
}

/// What the identify block of a drive tells.
#[derive(Copy, Clone, Debug, PartialEq, Eq, Structural)]
pub struct DriveIdentity {
    /// Word 0: general configuration.
    pub general: u16,
    /// Word 83: command sets supported.
    pub command_sets: u16,
    /// Whether the drive supports 48-bit addressing (bit 10 of word 83).
    pub lba48: bool,
    /// Word 88: direct memory access modes.
    pub udma_modes: u16,
    /// Word 93: hardware reset result.
    pub reset_result: u16,
    /// Words 60 and 61: sectors addressable in 28-bit mode.
    pub lba28_sectors: u32,
    /// Words 100 to 103: sectors addressable in 48-bit mode.
    pub lba48_sectors: u64,
}

/// Reads the fields of the identify block `words`, lowest word first.
pub fn drive_identity(words: &[u16]) -> (d: DriveIdentity)
    requires
        words@.len() >= 104,
    ensures
        d.general == words@[0],
        d.command_sets == words@[83],
        d.lba48 == ((words@[83] / 1024) % 2 == 1),
        d.udma_modes == words@[88],
        d.reset_result == words@[93],
        d.lba28_sectors == words@[60] + words@[61] * 0x1_0000,
        d.lba48_sectors == words@[100] + words@[101] * 0x1_0000 + words@[102] * 0x1_0000_0000
            + words@[103] * 0x1_0000_0000_0000,
{
    let w83 = words[83];
    let w60 = words[60];
    let w61 = words[61];
    let w100 = words[100];
    let w101 = words[101];
    let w102 = words[102];
    let w103 = words[103];
    let lba48 = w83 & 1024 != 0;
    let lba28_sectors: u32 = (w60 as u32) | ((w61 as u32) << 16u32);
    let lba48_sectors: u64 = (w100 as u64) | ((w101 as u64) << 16u64) | ((w102 as u64) << 32u64)
        | ((w103 as u64) << 48u64);
    assert(((w83 & 1024 != 0) == ((w83 / 1024) % 2 == 1))
        && (w60 as u32) | ((w61 as u32) << 16u32) == w60 + w61 * 0x1_0000
        && (w100 as u64) | ((w101 as u64) << 16u64) | ((w102 as u64) << 32u64) | ((w103 as u64) << 48u64)
        == w100 + w101 * 0x1_0000 + w102 * 0x1_0000_0000 + w103 * 0x1_0000_0000_0000) by (bit_vector);
    DriveIdentity {
        general: words[0],
        command_sets: w83,
        lba48,
        udma_modes: words[88],
        reset_result: words[93],
        lba28_sectors,
        lba48_sectors,
    }
}

} // verus!
