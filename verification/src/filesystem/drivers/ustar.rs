//! On-disk structures of the ustar-like file system: sector allocation
//! tables, file headers and data blocks, and their encoding in 512-byte
//! sectors.
use vstd::prelude::*;

verus! {

/// Errors of the file system.
#[derive(Debug, PartialEq, Eq, Structural)]
pub enum UsTarError {
    GenericError,
    FileNotFound,
    DirNotFound,
    InvalidSize,
    InvalidMode,
}

/// Number of 512-sector segments of the disk.
pub const LBA_TABLES_COUNT: u32 = 4;

/// Maximum number of blocks whose addresses fit in a header.
pub const SHORT_MODE_LIMIT: u32 = 100;

/// Base I/O port of the second disk.
pub const DISK_PORT: u16 = 0x170;

/// Number of sectors an allocation table keeps track of.
pub const LBA_TABLE_SIZE: usize = 510;

/// Quotient of `a` by `b`, rounded up.
pub open spec fn spec_div_ceil(a: int, b: int) -> int {
    a / b + if a % b == 0 {
        0int
    } else {
        1int
    }
}

/// Quotient of `a` by `b`, rounded up.
pub fn div_ceil(a: u32, b: u32) -> (r: u32)
    requires
        b > 0,
    ensures
        r == spec_div_ceil(a as int, b as int),
{
    let q = a / b;
    if a % b == 0 {
        q
    } else {
        proof {
            vstd::arithmetic::div_mod::lemma_fundamental_div_mod(a as int, b as int);
            let qq = q as int;
            let rr = (a % b) as int;
            assert(qq < u32::MAX) by (nonlinear_arith)
                requires
                    a as int == b as int * qq + rr,
                    0 < rr < b,
                    a <= u32::MAX,
                    qq >= 0,
            ;
        }
        q + 1
    }
}

/// Word `k` of the sector image of `data`: bytes `2k` and `2k + 1` as the
/// high and low halves; a last odd byte is the high half of a word whose
/// low half is 0; past the data, 0.
pub open spec fn spec_word_of(data: Seq<u8>, k: int) -> u16 {
    if 2 * k + 1 < data.len() {
        (data[2 * k] as int * 256 + data[2 * k + 1] as int) as u16
    } else if 0 <= 2 * k < data.len() {
        (data[2 * k] as int * 256) as u16
    } else {
        0
    }
}

proof fn lemma_high_byte(x: u8, y: u8)
    ensures
        (((x as u16) & 0xff) << 8u16) + (y as u16) == x as int * 256 + y as int,
        x as int * 256 + y as int <= u16::MAX,
{
    assert((((x as u16) & 0xff) << 8u16) == (x as u16) * 256) by (bit_vector);
}

/// Cuts `data` into sectors of 256 words, two bytes per word (first byte
/// high); a last odd byte fills the high half of its word, and the last
/// sector is padded with 0.
pub fn slice_vec(data: &[u8]) -> (res: Vec<[u16; 256]>)
    requires
        data@.len() <= u32::MAX,
    ensures
        res@.len() == spec_div_ceil(data@.len() as int, 512),
        forall|b: int, j: int| 0 <= b < res@.len() && 0 <= j < 256 ==>
            #[trigger] res@[b]@[j] == spec_word_of(data@, 256 * b + j),
{
    let n = data.len();
    let block_number = div_ceil(n as u32, 512) as usize;
    let mut res: Vec<[u16; 256]> = Vec::new();
    let mut index: usize = 0;
    let mut b: usize = 0;
    while b < block_number
        invariant
            n == data@.len(),
            n <= u32::MAX,
            block_number == spec_div_ceil(n as int, 512),
            b <= block_number,
            res@.len() == b,
            index == if 256 * b < n / 2 { 256 * b as int } else { (n / 2) as int },
            forall|c: int, j: int| 0 <= c < b && 0 <= j < 256 ==>
                #[trigger] res@[c]@[j] == spec_word_of(data@, 256 * c + j),
        decreases block_number - b,
    {
        let mut arr = [0_u16; 256];
        let mut j: usize = 0;
        let ghost base = index as int;
        while j < 256
            invariant_except_break
                n == data@.len(),
                n <= u32::MAX,
                b < block_number,
                block_number == spec_div_ceil(n as int, 512),
                j <= 256,
                index == base + j,
                base == if 256 * b < n / 2 { 256 * b as int } else { (n / 2) as int },
                forall|k: int| 0 <= k < j ==> #[trigger] arr@[k] == spec_word_of(data@, 256 * b + k),
                forall|k: int| j <= k < 256 ==> #[trigger] arr@[k] == 0,
                2 * index + 1 < n ==> base == 256 * b,
                index <= n / 2,
                base <= 256 * b,
            ensures
                forall|k: int| 0 <= k < 256 ==> #[trigger] arr@[k] == spec_word_of(data@, 256 * b + k),
                index == if 256 * (b + 1) < n / 2 { 256 * (b + 1) as int } else { (n / 2) as int },
            decreases 256 - j,
        {
            if 2 * index + 1 >= n {
                if 2 * index < n && index == 256 * b + j {
                    proof {
                        lemma_high_byte(data@[2 * index as int], 0);
                    }
                    arr[j] = ((data[2 * index] as u16) & 0xff) << 8;
                    assert(arr@[j as int] == spec_word_of(data@, 256 * b + j));
                }
                assert forall|k: int| j <= k < 256 implies #[trigger] arr@[k] == spec_word_of(data@, 256 * b + k) by {
                    assert(2 * (256 * b + k) + 1 >= n);
                }
                break;
            }
            proof {
                lemma_high_byte(data@[2 * index as int], data@[2 * index + 1]);
            }
            arr[j] = (((data[2 * index] as u16) & 0xff) << 8) + (data[2 * index + 1] as u16);
            index += 1;
            j += 1;
        }
        res.push(arr);
        b += 1;
    }
    res
}


/// Permission flags of a file: the user's and owner's `rwxs` bits, then the
/// group's and the rest.
#[derive(Debug, Clone, Copy, PartialEq, Eq, Structural)]
pub struct HeaderFlags {
    pub user_owner: u8,
    pub group_misc: u8,
}

/// Kind of a chunk of data.
#[derive(Debug, Clone, Copy, PartialEq, Eq, Structural)]
pub enum Type {
    Dir,
    File,
}

/// How a chunk's data blocks are found: `Short` lists the data blocks in
/// the header; `Long` lists blocks that each hold addresses of data blocks.
#[derive(Debug, Clone, Copy, PartialEq, Eq, Structural)]
pub enum FileMode {
    Short,
    Long,
}

/// A user's, group's or owner's identifier.
#[derive(Debug, Clone, Copy, PartialEq, Eq, Structural)]
pub struct UGOID(pub u64);

/// The address of a sector: the segment (`lba`) it belongs to and its
/// index (`block`) within it.
#[derive(Debug, Clone, Copy, PartialEq, Eq, Structural)]
pub struct Address {
    pub lba: u16,
    pub block: u16,
}

/// Sector allocation table of a segment: the first free sector and which
/// sectors are free.
#[derive(Debug, Clone, Copy)]
pub struct LBATable {
    index: u16,
    data: [bool; 510],
}

/// Plain view of an allocation table.
pub struct LBATableView {
    pub index: u16,
    pub data: Seq<bool>,
}

impl LBATable {
    /// The table as plain values.
    pub closed spec fn view(&self) -> LBATableView {
        LBATableView { index: self.index, data: self.data@ }
    }

    /// A table records one entry for each of its 510 sectors.
    pub proof fn lemma_len(&self)
        ensures
            self@.data.len() == LBA_TABLE_SIZE,
    {
    }

    /// A sector marked used reads as used, and one marked free as free.
    pub proof fn lemma_mark_then_read(&self, i: int)
        requires
            0 <= i < LBA_TABLE_SIZE,
        ensures
            self@.data.update(i, false)[i] == false,
            self@.data.update(i, true)[i] == true,
    {
    }

    /// A table with the given first free sector and occupation.
    pub fn from_parts(index: u16, data: [bool; 510]) -> (t: Self)
        ensures
            t@ == (LBATableView { index, data: data@ }),
    {
        LBATable { index, data }
    }

    /// Marks every sector free but the first two.
    pub fn init(&mut self)
        ensures
            final(self)@.index == old(self)@.index,
            final(self)@.data == Seq::new(510, |i: int| i >= 2),
    {
        self.data = [true; 510];
        self.data[0] = false;
        self.data[1] = false;
        assert(self.data@ =~= Seq::new(510, |i: int| i >= 2));
    }

    /// Whether sector `i` is free.
    pub fn is_available(&self, i: u32) -> (b: bool)
        requires
            i < LBA_TABLE_SIZE,
        ensures
            b == self@.data[i as int],
    {
        self.data[i as usize]
    }

    /// Marks sector `i` free.
    pub fn mark_available(&mut self, i: u32)
        requires
            i < LBA_TABLE_SIZE,
        ensures
            final(self)@.index == old(self)@.index,
            final(self)@.data == old(self)@.data.update(i as int, true),
    {
        self.data[i as usize] = true;
    }

    /// Marks sector `i` used.
    pub fn mark_unavailable(&mut self, i: u32)
        requires
            i < LBA_TABLE_SIZE,
        ensures
            final(self)@.index == old(self)@.index,
            final(self)@.data == old(self)@.data.update(i as int, false),
    {
        self.data[i as usize] = false;
    }
}

/// The allocation tables of all the segments of the disk, built at boot.
#[derive(Debug, Clone, Copy)]
pub struct LBATableGlobal {
    index: u32,
    data: [LBATable; 4],
}

impl LBATableGlobal {
    /// The first segment with a free sector.
    pub closed spec fn spec_index(&self) -> u32 {
        self.index
    }

    /// The tables of the segments.
    pub closed spec fn spec_tables(&self) -> Seq<LBATableView> {
        self.data@.map_values(|t: LBATable| t@)
    }

    /// Tables of a fresh disk: search from the first segment, each segment
    /// free from its sector 1 on, every sector free. Returns the sector
    /// writes that put the new tables on the disk.
    pub fn init(&mut self) -> (w: Vec<SectorWrite>)
        ensures
            final(self).spec_index() == 0,
            final(self).spec_tables().len() == LBA_TABLES_COUNT,
            forall|i: int| 0 <= i < LBA_TABLES_COUNT ==> #[trigger] final(self).spec_tables()[i]
                == (LBATableView { index: 1, data: Seq::new(510, |j: int| true) }),
            writes_view(w@) == table_images(final(self).spec_tables()),
    {
        self.index = 0;
        let mut i: u32 = 0;
        while i < LBA_TABLES_COUNT
            invariant
                i <= LBA_TABLES_COUNT,
                self.index == 0,
                forall|k: int| 0 <= k < i ==> #[trigger] self.data@[k]@
                    == (LBATableView { index: 1, data: Seq::new(510, |j: int| true) }),
            decreases LBA_TABLES_COUNT - i,
        {
            let mut table = self.data[i as usize];
            table.index = 1;
            let mut j: u32 = 0;
            while j < 510
                invariant
                    j <= 510,
                    table.index == 1,
                    forall|k: int| 0 <= k < j ==> #[trigger] table.data@[k],
                decreases 510 - j,
            {
                table.data[j as usize] = true;
                j += 1;
            }
            assert(table.data@ =~= Seq::new(510, |j: int| true));
            self.data[i as usize] = table;
            i += 1;
        }
        assert forall|i: int| 0 <= i < LBA_TABLES_COUNT implies #[trigger] self.spec_tables()[i]
            == (LBATableView { index: 1, data: Seq::new(510, |j: int| true) }) by {
            assert(self.spec_tables()[i] == self.data@[i]@);
        }
        self.write_to_disk()
    }

    /// There are four tables, each of 510 sectors.
    pub proof fn lemma_shape(&self)
        ensures
            self.spec_tables().len() == LBA_TABLES_COUNT,
            forall|l: int| 0 <= l < LBA_TABLES_COUNT ==> (#[trigger] self.spec_tables()[l]).data.len() == LBA_TABLE_SIZE,
    {
        assert forall|l: int| 0 <= l < LBA_TABLES_COUNT implies (#[trigger] self.spec_tables()[l]).data.len() == LBA_TABLE_SIZE by {
            assert(self.spec_tables()[l] == self.data@[l]@);
        }
    }

    /// Global table built from the tables of the four segments, searching
    /// from the first segment.
    pub fn from_tables(tables: [LBATable; 4]) -> (g: Self)
        ensures
            g.spec_index() == 0,
            g.spec_tables() == tables@.map_values(|t: LBATable| t@),
    {
        Self { index: 0, data: tables }
    }

    /// The first segment with a free sector.
    pub fn get_index(&self) -> (i: u32)
        ensures
            i == self.spec_index(),
    {
        self.index
    }

    /// Moves the first segment with a free sector forward by `index`.
    pub fn set_index(&mut self, index: u32)
        requires
            old(self).spec_index() + index <= u32::MAX,
        ensures
            final(self).spec_index() == old(self).spec_index() + index,
            final(self).spec_tables() == old(self).spec_tables(),
    {
        self.index += index;
    }

    /// Sets the first free sector of segment `lba`.
    pub fn set_lba_index(&mut self, lba: u32, index: u16)
        requires
            lba < LBA_TABLES_COUNT,
        ensures
            final(self).spec_index() == old(self).spec_index(),
            final(self).spec_tables() == old(self).spec_tables().update(
                lba as int,
                LBATableView { index, data: old(self).spec_tables()[lba as int].data },
            ),
    {
        self.data[lba as usize].index = index;
        assert(self.spec_tables() =~= old(self).spec_tables().update(
            lba as int,
            LBATableView { index, data: old(self).spec_tables()[lba as int].data },
        ));
    }

    /// The first free sector of segment `lba`.
    pub fn get_lba_index(&self, lba: u32) -> (i: u16)
        requires
            lba < LBA_TABLES_COUNT,
        ensures
            i == self.spec_tables()[lba as int].index,
    {
        self.data[lba as usize].index
    }

    /// Whether sector `index` of segment `lba` is free.
    pub fn is_available(&self, lba: u32, index: u32) -> (b: bool)
        requires
            lba < LBA_TABLES_COUNT,
            index < LBA_TABLE_SIZE,
        ensures
            b == self.spec_tables()[lba as int].data[index as int],
    {
        self.data[lba as usize].data[index as usize]
    }

    /// Marks sector `index` of segment `lba` free.
    pub fn mark_available(&mut self, lba: u32, index: u32)
        requires
            lba < LBA_TABLES_COUNT,
            index < LBA_TABLE_SIZE,
        ensures
            final(self).spec_index() == old(self).spec_index(),
            final(self).spec_tables() == old(self).spec_tables().update(
                lba as int,
                LBATableView {
                    index: old(self).spec_tables()[lba as int].index,
                    data: old(self).spec_tables()[lba as int].data.update(index as int, true),
                },
            ),
    {
        self.data[lba as usize].data[index as usize] = true;
        assert(self.spec_tables() =~= old(self).spec_tables().update(
            lba as int,
            LBATableView {
                index: old(self).spec_tables()[lba as int].index,
                data: old(self).spec_tables()[lba as int].data.update(index as int, true),
            },
        ));
    }

    /// Marks sector `index` of segment `lba` used.
    pub fn mark_unavailable(&mut self, lba: u32, index: u32)
        requires
            lba < LBA_TABLES_COUNT,
            index < LBA_TABLE_SIZE,
        ensures
            final(self).spec_index() == old(self).spec_index(),
            final(self).spec_tables() == old(self).spec_tables().update(
                lba as int,
                LBATableView {
                    index: old(self).spec_tables()[lba as int].index,
                    data: old(self).spec_tables()[lba as int].data.update(index as int, false),
                },
            ),
    {
        self.data[lba as usize].data[index as usize] = false;
        assert(self.spec_tables() =~= old(self).spec_tables().update(
            lba as int,
            LBATableView {
                index: old(self).spec_tables()[lba as int].index,
                data: old(self).spec_tables()[lba as int].data.update(index as int, false),
            },
        ));
    }

    /// Whether segment `lba` still has a free sector.
    pub fn is_lba_available(&self, lba: u32) -> (b: bool)
        requires
            lba < LBA_TABLES_COUNT,
        ensures
            b == (self.spec_tables()[lba as int].index != 510),
    {
        self.data[lba as usize].index != 510
    }
}


/// Little-endian value of two bytes.
pub open spec fn le16(b0: u8, b1: u8) -> u16 {
    (b0 as u16) | ((b1 as u16) << 8u16)
}

/// Little-endian value of four bytes.
pub open spec fn le32(b0: u8, b1: u8, b2: u8, b3: u8) -> u32 {
    (b0 as u32) | ((b1 as u32) << 8u32) | ((b2 as u32) << 16u32) | ((b3 as u32) << 24u32)
}

/// Little-endian value of eight bytes.
pub open spec fn le64(b0: u8, b1: u8, b2: u8, b3: u8, b4: u8, b5: u8, b6: u8, b7: u8) -> u64 {
    (b0 as u64) | ((b1 as u64) << 8u64) | ((b2 as u64) << 16u64) | ((b3 as u64) << 24u64) | ((b4 as u64)
        << 32u64) | ((b5 as u64) << 40u64) | ((b6 as u64) << 48u64) | ((b7 as u64) << 56u64)
}

/// Byte `k` (0 the lowest) of a value.
pub open spec fn byte_of(v: u64, k: int) -> u8 {
    ((v >> ((8 * k) as u64)) & 0xff) as u8
}

pub(crate) proof fn lemma_le16(v: u16, b0: u8, b1: u8)
    ensures
        le16(byte_of(v as u64, 0), byte_of(v as u64, 1)) == v,
        byte_of(v as u64, 1) as int * 256 + byte_of(v as u64, 0) as int == v,
        (le16(b0, b1) as u64 >> 0u64) & 0xff == b0 as u64,
        (le16(b0, b1) as u64 >> 8u64) & 0xff == b1 as u64,
        byte_of(le16(b0, b1) as u64, 0) == b0,
        byte_of(le16(b0, b1) as u64, 1) == b1,
        (le16(b0, b1) >> 8u16) as u8 == b1,
        (le16(b0, b1) & 0xffu16) as u8 == b0,
{
    assert(le16(((v as u64 >> 0u64) & 0xff) as u8, ((v as u64 >> 8u64) & 0xff) as u8) == v
        && ((v as u64 >> 8u64) & 0xff) as u8 as int * 256 + ((v as u64 >> 0u64) & 0xff) as u8 as int == v)
        by (bit_vector);
    assert((le16(b0, b1) as u64 >> 0u64) & 0xff == b0 as u64 && (le16(b0, b1) as u64 >> 8u64) & 0xff == b1 as u64
        && (le16(b0, b1) >> 8u16) as u8 == b1 && (le16(b0, b1) & 0xffu16) as u8 == b0)
        by (bit_vector);
}

proof fn lemma_le32(v: u32, b0: u8, b1: u8, b2: u8, b3: u8)
    ensures
        le32(byte_of(v as u64, 0), byte_of(v as u64, 1), byte_of(v as u64, 2), byte_of(v as u64, 3)) == v,
        byte_of(le32(b0, b1, b2, b3) as u64, 0) == b0,
        byte_of(le32(b0, b1, b2, b3) as u64, 1) == b1,
        byte_of(le32(b0, b1, b2, b3) as u64, 2) == b2,
        byte_of(le32(b0, b1, b2, b3) as u64, 3) == b3,
{
    assert(le32(((v as u64 >> 0u64) & 0xff) as u8, ((v as u64 >> 8u64) & 0xff) as u8,
        ((v as u64 >> 16u64) & 0xff) as u8, ((v as u64 >> 24u64) & 0xff) as u8) == v) by (bit_vector);
    let w = le32(b0, b1, b2, b3) as u64;
    assert(((w >> 0u64) & 0xff) as u8 == b0 && ((w >> 8u64) & 0xff) as u8 == b1
        && ((w >> 16u64) & 0xff) as u8 == b2 && ((w >> 24u64) & 0xff) as u8 == b3) by (bit_vector)
        requires
            w == ((b0 as u32) | ((b1 as u32) << 8u32) | ((b2 as u32) << 16u32) | ((b3 as u32) << 24u32)) as u64,
    ;
}

proof fn lemma_le64(v: u64, b0: u8, b1: u8, b2: u8, b3: u8, b4: u8, b5: u8, b6: u8, b7: u8)
    ensures
        le64(byte_of(v, 0), byte_of(v, 1), byte_of(v, 2), byte_of(v, 3), byte_of(v, 4), byte_of(v, 5),
            byte_of(v, 6), byte_of(v, 7)) == v,
        byte_of(le64(b0, b1, b2, b3, b4, b5, b6, b7), 0) == b0,
        byte_of(le64(b0, b1, b2, b3, b4, b5, b6, b7), 1) == b1,
        byte_of(le64(b0, b1, b2, b3, b4, b5, b6, b7), 2) == b2,
        byte_of(le64(b0, b1, b2, b3, b4, b5, b6, b7), 3) == b3,
        byte_of(le64(b0, b1, b2, b3, b4, b5, b6, b7), 4) == b4,
        byte_of(le64(b0, b1, b2, b3, b4, b5, b6, b7), 5) == b5,
        byte_of(le64(b0, b1, b2, b3, b4, b5, b6, b7), 6) == b6,
        byte_of(le64(b0, b1, b2, b3, b4, b5, b6, b7), 7) == b7,
{
    assert(le64(((v >> 0u64) & 0xff) as u8, ((v >> 8u64) & 0xff) as u8, ((v >> 16u64) & 0xff) as u8,
        ((v >> 24u64) & 0xff) as u8, ((v >> 32u64) & 0xff) as u8, ((v >> 40u64) & 0xff) as u8,
        ((v >> 48u64) & 0xff) as u8, ((v >> 56u64) & 0xff) as u8) == v) by (bit_vector);
    let w = le64(b0, b1, b2, b3, b4, b5, b6, b7);
    assert(((w >> 0u64) & 0xff) as u8 == b0 && ((w >> 8u64) & 0xff) as u8 == b1
        && ((w >> 16u64) & 0xff) as u8 == b2 && ((w >> 24u64) & 0xff) as u8 == b3
        && ((w >> 32u64) & 0xff) as u8 == b4 && ((w >> 40u64) & 0xff) as u8 == b5
        && ((w >> 48u64) & 0xff) as u8 == b6 && ((w >> 56u64) & 0xff) as u8 == b7) by (bit_vector)
        requires
            w == (b0 as u64) | ((b1 as u64) << 8u64) | ((b2 as u64) << 16u64) | ((b3 as u64) << 24u64) | ((b4 as u64)
                << 32u64) | ((b5 as u64) << 40u64) | ((b6 as u64) << 48u64) | ((b7 as u64) << 56u64),
    ;
}

/// The 512 bytes of a sector held as 256 words, each word low byte first.
pub open spec fn sector_bytes(a: Seq<u16>) -> Seq<u8> {
    Seq::new(512, |i: int| byte_of(a[i / 2] as u64, i % 2))
}

/// The 256 words of a sector given as 512 bytes, each word low byte first.
pub open spec fn sector_words(b: Seq<u8>) -> Seq<u16> {
    Seq::new(256, |k: int| le16(b[2 * k], b[2 * k + 1]))
}

/// Putting the bytes of a sector into words and taking them out again
/// gives the bytes back.
pub proof fn lemma_sector_roundtrip(b: Seq<u8>)
    requires
        b.len() == 512,
    ensures
        sector_bytes(sector_words(b)) == b,
{
    assert forall|i: int| 0 <= i < 512 implies #[trigger] sector_bytes(sector_words(b))[i] == b[i] by {
        let k = i / 2;
        lemma_le16(0, b[2 * k], b[2 * k + 1]);
        assert(sector_words(b)[k] == le16(b[2 * k], b[2 * k + 1]));
        if i % 2 == 0 {
            assert(i == 2 * k);
        } else {
            assert(i == 2 * k + 1);
        }
    }
    assert(sector_bytes(sector_words(b)) =~= b);
}

/// Putting the words of a sector into bytes and back gives the words back.
pub proof fn lemma_words_roundtrip(a: Seq<u16>)
    requires
        a.len() == 256,
    ensures
        sector_words(sector_bytes(a)) == a,
{
    assert forall|k: int| 0 <= k < 256 implies #[trigger] sector_words(sector_bytes(a))[k] == a[k] by {
        lemma_le16(a[k], 0, 0);
        assert(sector_bytes(a)[2 * k] == byte_of(a[k] as u64, 0));
        assert(sector_bytes(a)[2 * k + 1] == byte_of(a[k] as u64, 1));
    }
    assert(sector_words(sector_bytes(a)) =~= a);
}

/// The bytes of a sector, each word low byte first.
fn unpack_sector(a: &[u16; 256]) -> (v: Vec<u8>)
    ensures
        v@ == sector_bytes(a@),
{
    let mut v: Vec<u8> = Vec::new();
    let mut k: usize = 0;
    while k < 256
        invariant
            k <= 256,
            v@.len() == 2 * k,
            forall|i: int| 0 <= i < 2 * k ==> #[trigger] v@[i] == byte_of(a@[i / 2] as u64, i % 2),
        decreases 256 - k,
    {
        let w = a[k];
        assert((w as u64 >> 0u64) & 0xff == (w & 0xff) as u64 && (w as u64 >> 8u64) & 0xff == (w >> 8u16) as u64)
            by (bit_vector);
        v.push((w & 0xff) as u8);
        v.push((w >> 8) as u8);
        k += 1;
    }
    assert(v@ =~= sector_bytes(a@));
    v
}

/// The words of a sector given as bytes, each word low byte first.
fn pack_sector(b: &Vec<u8>) -> (a: [u16; 256])
    requires
        b@.len() == 512,
    ensures
        a@ == sector_words(b@),
{
    let mut a = [0u16; 256];
    let mut k: usize = 0;
    while k < 256
        invariant
            k <= 256,
            b@.len() == 512,
            forall|j: int| 0 <= j < k ==> #[trigger] a@[j] == le16(b@[2 * j], b@[2 * j + 1]),
        decreases 256 - k,
    {
        a[k] = (b[2 * k] as u16) | ((b[2 * k + 1] as u16) << 8);
        k += 1;
    }
    assert(a@ =~= sector_words(b@));
    a
}

/// Pushes the two bytes of `x`, low first.
fn push_u16(v: &mut Vec<u8>, x: u16)
    ensures
        final(v)@ == old(v)@.push(byte_of(x as u64, 0)).push(byte_of(x as u64, 1)),
{
    assert((x as u64 >> 0u64) & 0xff == (x & 0xff) as u64 && (x as u64 >> 8u64) & 0xff == (x >> 8u16) as u64)
        by (bit_vector);
    v.push((x & 0xff) as u8);
    v.push((x >> 8) as u8);
}

/// Pushes the four bytes of `x`, lowest first.
fn push_u32(v: &mut Vec<u8>, x: u32)
    ensures
        final(v)@.len() == old(v)@.len() + 4,
        forall|i: int| 0 <= i < old(v)@.len() ==> #[trigger] final(v)@[i] == old(v)@[i],
        forall|i: int| 0 <= i < 4 ==> #[trigger] final(v)@[old(v)@.len() + i] == byte_of(x as u64, i),
{
    let x = x as u64;
    let mut k: u64 = 0;
    let ghost start = v@;
    while k < 4
        invariant
            k <= 4,
            v@.len() == start.len() + k,
            forall|i: int| 0 <= i < start.len() ==> #[trigger] v@[i] == start[i],
            forall|i: int| 0 <= i < k ==> #[trigger] v@[start.len() + i] == byte_of(x, i),
        decreases 4 - k,
    {
        v.push(((x >> (8 * k)) & 0xff) as u8);
        k += 1;
    }
}

/// Pushes the eight bytes of `x`, lowest first.
fn push_u64(v: &mut Vec<u8>, x: u64)
    ensures
        final(v)@.len() == old(v)@.len() + 8,
        forall|i: int| 0 <= i < old(v)@.len() ==> #[trigger] final(v)@[i] == old(v)@[i],
        forall|i: int| 0 <= i < 8 ==> #[trigger] final(v)@[old(v)@.len() + i] == byte_of(x, i),
{
    let mut k: u64 = 0;
    let ghost start = v@;
    while k < 8
        invariant
            k <= 8,
            v@.len() == start.len() + k,
            forall|i: int| 0 <= i < start.len() ==> #[trigger] v@[i] == start[i],
            forall|i: int| 0 <= i < k ==> #[trigger] v@[start.len() + i] == byte_of(x, i),
        decreases 8 - k,
    {
        v.push(((x >> (8 * k)) & 0xff) as u8);
        k += 1;
    }
}


/// Reads the two bytes at `off`, low first.
fn read_u16(b: &Vec<u8>, off: usize) -> (r: u16)
    requires
        b@.len() == 512,
        off + 2 <= 512,
    ensures
        r == le16(b@[off as int], b@[off + 1]),
{
    (b[off] as u16) | ((b[off + 1] as u16) << 8)
}

/// Reads the four bytes at `off`, lowest first.
fn read_u32(b: &Vec<u8>, off: usize) -> (r: u32)
    requires
        b@.len() == 512,
        off + 4 <= 512,
    ensures
        r == le32(b@[off as int], b@[off + 1], b@[off + 2], b@[off + 3]),
{
    (b[off] as u32) | ((b[off + 1] as u32) << 8) | ((b[off + 2] as u32) << 16) | ((b[off + 3] as u32) << 24)
}

/// Reads the eight bytes at `off`, lowest first.
fn read_u64(b: &Vec<u8>, off: usize) -> (r: u64)
    requires
        b@.len() == 512,
        off + 8 <= 512,
    ensures
        r == le64(b@[off as int], b@[off + 1], b@[off + 2], b@[off + 3], b@[off + 4], b@[off + 5], b@[off + 6], b@[off + 7]),
{
    (b[off] as u64) | ((b[off + 1] as u64) << 8) | ((b[off + 2] as u64) << 16) | ((b[off + 3] as u64) << 24)
        | ((b[off + 4] as u64) << 32) | ((b[off + 5] as u64) << 40) | ((b[off + 6] as u64) << 48) | ((b[off + 7] as u64) << 56)
}

/// A structure stored in one 512-byte sector. A sector written with the
/// image of a value reads back as a value with the same image.
pub trait U16Array: Sized {
    /// The sector image of the structure.
    spec fn spec_words(&self) -> Seq<u16>;

    /// The sector holding the structure.
    fn to_u16_array(&self) -> (a: [u16; 256])
        ensures
            a@ == self.spec_words(),
    ;

    /// The structure a sector holds; `None` when the sector holds no valid
    /// value of the structure. A sector that is the image of some value
    /// always gives a value, and a value given has the sector as image.
    fn from_u16_array(array: [u16; 256]) -> (r: Option<Self>)
        ensures
            r matches Some(x) ==> x.spec_words() == array@,
            (exists|x: Self| #[trigger] x.spec_words() == array@) ==> r is Some,
    ;
}

/// A sector to write on the disk: its number and its 256 words.
#[derive(Debug, Clone, Copy)]
pub struct SectorWrite {
    pub lba: u32,
    pub data: [u16; 256],
}

/// Sector writes as plain values: sector number and words.
pub open spec fn writes_view(w: Seq<SectorWrite>) -> Seq<(u32, Seq<u16>)> {
    w.map_values(|x: SectorWrite| (x.lba, x.data@))
}

/// The writes that put allocation tables back on the disk: table `i` at
/// sector `512 i`.
pub open spec fn table_images(tables: Seq<LBATableView>) -> Seq<(u32, Seq<u16>)> {
    Seq::new(4, |i: int| ((512 * i) as u32, sector_words(encode_lba_table(tables[i]))))
}

impl LBATableGlobal {
    /// The sector writes that put the four tables back on the disk, in
    /// order: table `i` at sector `512 i`.
    pub fn write_to_disk(&self) -> (w: Vec<SectorWrite>)
        ensures
            writes_view(w@) == table_images(self.spec_tables()),
    {
        let mut w: Vec<SectorWrite> = Vec::new();
        let mut i: u32 = 0;
        while i < LBA_TABLES_COUNT
            invariant
                i <= LBA_TABLES_COUNT,
                writes_view(w@) == table_images(self.spec_tables()).take(i as int),
            decreases LBA_TABLES_COUNT - i,
        {
            let data = self.data[i as usize].to_u16_array();
            proof {
                self.lemma_shape();
                assert(self.spec_tables()[i as int] == self.data@[i as int]@);
            }
            let ghost before = w@;
            w.push(SectorWrite { lba: 512 * i, data });
            assert(writes_view(w@) == writes_view(before).push(((512 * i) as u32, data@)));
            assert(writes_view(w@) =~= table_images(self.spec_tables()).take(i + 1));
            i += 1;
        }
        assert(table_images(self.spec_tables()).take(4) =~= table_images(self.spec_tables()));
        w
    }
}

/// A sector of file data.
#[derive(Debug, Clone, Copy)]
pub struct FileBlock {
    pub data: [u16; 256],
}

impl U16Array for FileBlock {
    open spec fn spec_words(&self) -> Seq<u16> {
        self.data@
    }

    /// The sector is the block's data.
    fn to_u16_array(&self) -> (a: [u16; 256])
        ensures
            a@ == self.data@,
    {
        self.data
    }

    /// Every sector holds a block of data.
    fn from_u16_array(array: [u16; 256]) -> (r: Option<Self>)
        ensures
            r matches Some(b) && b.data@ == array@,
    {
        Some(FileBlock { data: array })
    }
}

/// Byte `i` of the sector image of an allocation table: the first free
/// sector (two bytes, low first), then one byte per sector, 1 when free.
pub open spec fn lba_table_byte(index: u16, data: Seq<bool>, i: int) -> u8 {
    if i < 2 {
        byte_of(index as u64, i)
    } else if data[i - 2] {
        1
    } else {
        0
    }
}

/// Sector image of an allocation table.
pub open spec fn encode_lba_table(t: LBATableView) -> Seq<u8> {
    Seq::new(512, |i: int| lba_table_byte(t.index, t.data, i))
}

impl LBATable {
    /// The table a sector holds: `None` unless every occupation byte is 0
    /// or 1.
    fn decode_sector(array: [u16; 256]) -> (r: Option<Self>)
        ensures
            r is Some <==> forall|i: int| 2 <= i < 512 ==> #[trigger] sector_bytes(array@)[i] <= 1,
            r matches Some(t) ==> encode_lba_table(t@) == sector_bytes(array@),
    {
        let b = unpack_sector(&array);
        let index = read_u16(&b, 0);
        let mut data = [false; 510];
        let mut k: usize = 0;
        while k < 510
            invariant
                k <= 510,
                b@ == sector_bytes(array@),
                b@.len() == 512,
                forall|i: int| 2 <= i < 2 + k ==> #[trigger] b@[i] <= 1,
                forall|j: int| 0 <= j < k ==> #[trigger] data@[j] == (b@[j + 2] == 1),
            decreases 510 - k,
        {
            if b[k + 2] > 1 {
                return None;
            }
            data[k] = b[k + 2] == 1;
            k += 1;
        }
        let t = LBATable { index, data };
        proof {
            lemma_le16(0, b@[0], b@[1]);
            assert forall|i: int| 0 <= i < 512 implies #[trigger] encode_lba_table(t@)[i] == b@[i] by {
                if i >= 2 {
                    assert(data@[i - 2] == (b@[i] == 1));
                }
            }
            assert(encode_lba_table(t@) =~= b@);
        }
        Some(t)
    }
}

impl U16Array for LBATable {
    open spec fn spec_words(&self) -> Seq<u16> {
        sector_words(encode_lba_table(self@))
    }

    /// The sector image of the table.
    fn to_u16_array(&self) -> (a: [u16; 256])
        ensures
            a@ == sector_words(encode_lba_table(self@)),
    {
        let mut v: Vec<u8> = Vec::new();
        push_u16(&mut v, self.index);
        let mut k: usize = 0;
        while k < 510
            invariant
                k <= 510,
                v@.len() == 2 + k,
                forall|i: int| 0 <= i < 2 + k ==> #[trigger] v@[i] == lba_table_byte(self.index, self.data@, i),
            decreases 510 - k,
        {
            v.push(if self.data[k] { 1u8 } else { 0u8 });
            k += 1;
        }
        assert(v@ =~= encode_lba_table(self@));
        pack_sector(&v)
    }

    /// The table a sector holds: `None` unless every occupation byte is 0
    /// or 1.
    fn from_u16_array(array: [u16; 256]) -> (r: Option<Self>)
        ensures
            r is Some <==> forall|i: int| 2 <= i < 512 ==> #[trigger] sector_bytes(array@)[i] <= 1,
            r matches Some(t) ==> encode_lba_table(t@) == sector_bytes(array@),
    {
        let r = Self::decode_sector(array);
        proof {
            lemma_words_roundtrip(array@);
            if exists|x: Self| #[trigger] x.spec_words() == array@ {
                let x = choose|x: Self| #[trigger] x.spec_words() == array@;
                x.lemma_len();
                lemma_sector_roundtrip(encode_lba_table(x@));
                lemma_lba_table_roundtrip(x@, x@);
            }
        }
        r
    }
}

/// Addresses of data blocks, held in a sector of a file stored in long mode.
#[derive(Debug, Clone, Copy)]
pub struct LongFile {
    pub addresses: [Address; 128],
}

/// Byte `i` of the sector image of a sequence of addresses: four bytes per
/// address, the segment then the index, each low byte first.
pub open spec fn address_byte(a: Seq<Address>, i: int) -> u8 {
    let k = i / 4;
    let r = i % 4;
    if r < 2 {
        byte_of(a[k].lba as u64, r)
    } else {
        byte_of(a[k].block as u64, r - 2)
    }
}

/// Sector image of an address block.
pub open spec fn encode_long_file(l: LongFile) -> Seq<u8> {
    Seq::new(512, |i: int| address_byte(l.addresses@, i))
}

impl LongFile {
    /// Every sector holds an address block.
    fn decode_sector(array: [u16; 256]) -> (r: Option<Self>)
        ensures
            r matches Some(l) && encode_long_file(l) == sector_bytes(array@),
    {
        let b = unpack_sector(&array);
        let mut addresses = [Address { lba: 0, block: 0 }; 128];
        let mut k: usize = 0;
        while k < 128
            invariant
                k <= 128,
                b@ == sector_bytes(array@),
                b@.len() == 512,
                forall|j: int| 0 <= j < k ==> #[trigger] addresses@[j] == (Address {
                    lba: le16(b@[4 * j], b@[4 * j + 1]),
                    block: le16(b@[4 * j + 2], b@[4 * j + 3]),
                }),
            decreases 128 - k,
        {
            addresses[k] = Address { lba: read_u16(&b, 4 * k), block: read_u16(&b, 4 * k + 2) };
            k += 1;
        }
        let l = LongFile { addresses };
        proof {
            assert forall|i: int| 0 <= i < 512 implies #[trigger] encode_long_file(l)[i] == b@[i] by {
                let k = i / 4;
                lemma_le16(0, b@[4 * k], b@[4 * k + 1]);
                lemma_le16(0, b@[4 * k + 2], b@[4 * k + 3]);
                assert(addresses@[k] == Address {
                    lba: le16(b@[4 * k], b@[4 * k + 1]),
                    block: le16(b@[4 * k + 2], b@[4 * k + 3]),
                });
            }
            assert(encode_long_file(l) =~= b@);
        }
        Some(l)
    }
}

impl U16Array for LongFile {
    open spec fn spec_words(&self) -> Seq<u16> {
        sector_words(encode_long_file(*self))
    }

    /// The sector image of the address block.
    fn to_u16_array(&self) -> (a: [u16; 256])
        ensures
            a@ == sector_words(encode_long_file(*self)),
    {
        let mut v: Vec<u8> = Vec::new();
        let mut k: usize = 0;
        while k < 128
            invariant
                k <= 128,
                v@.len() == 4 * k,
                forall|i: int| 0 <= i < 4 * k ==> #[trigger] v@[i] == address_byte(self.addresses@, i),
            decreases 128 - k,
        {
            let ghost before = v@;
            push_u16(&mut v, self.addresses[k].lba);
            push_u16(&mut v, self.addresses[k].block);
            assert forall|i: int| 0 <= i < 4 * k + 4 implies #[trigger] v@[i] == address_byte(self.addresses@, i) by {
                if i >= 4 * k {
                    assert(i / 4 == k);
                    assert(i % 4 == i - 4 * k);
                } else {
                    assert(v@[i] == before[i]);
                }
            }
            k += 1;
        }
        assert(v@ =~= encode_long_file(*self));
        pack_sector(&v)
    }

    /// Every sector holds an address block.
    fn from_u16_array(array: [u16; 256]) -> (r: Option<Self>)
        ensures
            r matches Some(l) && encode_long_file(l) == sector_bytes(array@),
    {
        let r = Self::decode_sector(array);
        proof {
            lemma_words_roundtrip(array@);
        }
        r
    }
}


/// A sector of a directory's data: sixteen entries, each a name of 28
/// bytes and the address of the chunk it names.
#[derive(Debug, Clone, Copy)]
pub struct DirBlock {
    subitems: [([u8; 28], Address); 16],
}

impl DirBlock {
    /// The entries of the sector.
    pub closed spec fn view(&self) -> Seq<([u8; 28], Address)> {
        self.subitems@
    }
}

/// Byte `i` of the sector image of directory entries: 32 bytes an entry,
/// the name, then the segment and the index of the address, each low byte
/// first.
pub open spec fn dir_block_byte(e: Seq<([u8; 28], Address)>, i: int) -> u8 {
    let k = i / 32;
    let r = i % 32;
    if r < 28 {
        e[k].0@[r]
    } else if r < 30 {
        byte_of(e[k].1.lba as u64, r - 28)
    } else {
        byte_of(e[k].1.block as u64, r - 30)
    }
}

/// Sector image of a directory block.
pub open spec fn encode_dir_block(e: Seq<([u8; 28], Address)>) -> Seq<u8> {
    Seq::new(512, |i: int| dir_block_byte(e, i))
}

impl DirBlock {
    /// Every sector holds a directory block.
    fn decode_sector(array: [u16; 256]) -> (r: Option<Self>)
        ensures
            r matches Some(d) && encode_dir_block(d@) == sector_bytes(array@),
    {
        let b = unpack_sector(&array);
        let mut subitems = [([0u8; 28], Address { lba: 0, block: 0 }); 16];
        let mut k: usize = 0;
        while k < 16
            invariant
                k <= 16,
                b@ == sector_bytes(array@),
                b@.len() == 512,
                forall|m: int, i: int| 0 <= m < k && 0 <= i < 32 ==> #[trigger] dir_block_byte(subitems@, 32 * m + i)
                    == b@[32 * m + i],
            decreases 16 - k,
        {
            let mut name = [0u8; 28];
            let mut j: usize = 0;
            while j < 28
                invariant
                    j <= 28,
                    k < 16,
                    b@.len() == 512,
                    forall|i: int| 0 <= i < j ==> #[trigger] name@[i] == b@[32 * k + i],
                decreases 28 - j,
            {
                name[j] = b[32 * k + j];
                j += 1;
            }
            let address = Address { lba: read_u16(&b, 32 * k + 28), block: read_u16(&b, 32 * k + 30) };
            let ghost before = subitems@;
            subitems[k] = (name, address);
            proof {
                lemma_le16(0, b@[32 * k + 28], b@[32 * k + 29]);
                lemma_le16(0, b@[32 * k + 30], b@[32 * k + 31]);
                assert forall|m: int, i: int| 0 <= m < k + 1 && 0 <= i < 32 implies #[trigger] dir_block_byte(subitems@, 32 * m + i)
                    == b@[32 * m + i] by {
                    assert((32 * m + i) / 32 == m);
                    assert((32 * m + i) % 32 == i);
                    if m < k {
                        assert(subitems@[m] == before[m]);
                        assert(dir_block_byte(before, 32 * m + i) == b@[32 * m + i]);
                    }
                }
            }
            k += 1;
        }
        let d = DirBlock { subitems };
        proof {
            assert forall|i: int| 0 <= i < 512 implies #[trigger] encode_dir_block(d@)[i] == b@[i] by {
                let m = i / 32;
                let r = i % 32;
                assert(i == 32 * m + r);
                assert(dir_block_byte(subitems@, 32 * m + r) == b@[32 * m + r]);
            }
            assert(encode_dir_block(d@) =~= b@);
        }
        Some(d)
    }
}

impl U16Array for DirBlock {
    open spec fn spec_words(&self) -> Seq<u16> {
        sector_words(encode_dir_block(self@))
    }

    /// The sector image of the entries.
    fn to_u16_array(&self) -> (a: [u16; 256])
        ensures
            a@ == sector_words(encode_dir_block(self@)),
    {
        let mut v: Vec<u8> = Vec::new();
        let mut k: usize = 0;
        while k < 16
            invariant
                k <= 16,
                v@.len() == 32 * k,
                forall|i: int| 0 <= i < 32 * k ==> #[trigger] v@[i] == dir_block_byte(self.subitems@, i),
            decreases 16 - k,
        {
            let ghost before = v@;
            let (name, address) = self.subitems[k];
            let mut j: usize = 0;
            assert(before.len() == 32 * k);
            while j < 28
                invariant
                    j <= 28,
                    k < 16,
                    before.len() == 32 * k,
                    name == self.subitems@[k as int].0,
                    v@.len() == 32 * k + j,
                    forall|i: int| 0 <= i < 32 * k ==> #[trigger] v@[i] == before[i],
                    forall|i: int| 0 <= i < j ==> #[trigger] v@[32 * k + i] == name@[i],
                decreases 28 - j,
            {
                v.push(name[j]);
                j += 1;
            }
            let ghost with_name = v@;
            push_u16(&mut v, address.lba);
            push_u16(&mut v, address.block);
            assert(address == self.subitems@[k as int].1);
            assert forall|i: int| 0 <= i < 32 * k + 32 implies #[trigger] v@[i] == dir_block_byte(self.subitems@, i) by {
                if i >= 32 * k {
                    assert(i / 32 == k);
                    assert(i % 32 == i - 32 * k);
                    let r = i - 32 * k;
                    if r < 28 {
                        assert(v@[i] == with_name[i]);
                        assert(with_name[32 * k + r] == name@[r]);
                    }
                } else {
                    assert(v@[i] == before[i]);
                }
            }
            k += 1;
        }
        assert(v@ =~= encode_dir_block(self@));
        pack_sector(&v)
    }

    /// Every sector holds a directory block.
    fn from_u16_array(array: [u16; 256]) -> (r: Option<Self>)
        ensures
            r matches Some(d) && encode_dir_block(d@) == sector_bytes(array@),
    {
        let r = Self::decode_sector(array);
        proof {
            lemma_words_roundtrip(array@);
        }
        r
    }
}

/// A chunk's header.
///
/// * `file_type` - whether the chunk is a directory or a file.
/// * `flags` - permission flags of the chunk.
/// * `name` - the chunk's name.
/// * `user`, `owner`, `group` - identifiers of the user, the owner and the group.
/// * `length` - size in bytes of a file, number of entries of a directory.
/// * `blocks` - the data blocks (short mode) or the address blocks (long mode).
#[derive(Debug, Clone, Copy)]
pub struct Header {
    pub user: UGOID,
    pub owner: UGOID,
    pub group: UGOID,
    pub parent_address: Address,
    pub length: u32,
    pub blocks_number: u32,
    pub blocks: [Address; 100],
    pub flags: HeaderFlags,
    pub mode: FileMode,
    pub name: [u8; 32],
    pub file_type: Type,
    pub padding: [u8; 40],
}

impl Header {
    /// Whether the header is that of a directory.
    pub fn is_dir(&self) -> (b: bool)
        ensures
            b == (self.file_type == Type::Dir),
    {
        match self.file_type {
            Type::Dir => true,
            Type::File => false,
        }
    }
}

/// Byte a storage mode is written as.
pub open spec fn mode_byte(m: FileMode) -> u8 {
    match m {
        FileMode::Short => 0,
        FileMode::Long => 1,
    }
}

/// Byte a chunk kind is written as.
pub open spec fn type_byte(t: Type) -> u8 {
    match t {
        Type::Dir => 1,
        Type::File => 2,
    }
}

/// Byte `i` of the sector image of a header: the three identifiers (eight
/// bytes each), the parent's address, the length and the number of blocks,
/// the hundred block addresses, the two flag bytes, the mode, the 32 bytes
/// of the name, the kind and 40 bytes of padding; numbers low byte first.
pub open spec fn header_byte(h: Header, i: int) -> u8 {
    if i < 8 {
        byte_of(h.user.0, i)
    } else if i < 16 {
        byte_of(h.owner.0, i - 8)
    } else if i < 24 {
        byte_of(h.group.0, i - 16)
    } else if i < 26 {
        byte_of(h.parent_address.lba as u64, i - 24)
    } else if i < 28 {
        byte_of(h.parent_address.block as u64, i - 26)
    } else if i < 32 {
        byte_of(h.length as u64, i - 28)
    } else if i < 36 {
        byte_of(h.blocks_number as u64, i - 32)
    } else if i < 436 {
        address_byte(h.blocks@, i - 36)
    } else if i == 436 {
        h.flags.user_owner
    } else if i == 437 {
        h.flags.group_misc
    } else if i == 438 {
        mode_byte(h.mode)
    } else if i < 471 {
        h.name@[i - 439]
    } else if i == 471 {
        type_byte(h.file_type)
    } else {
        h.padding@[i - 472]
    }
}

/// Sector image of a header.
pub open spec fn encode_header(h: Header) -> Seq<u8> {
    Seq::new(512, |i: int| header_byte(h, i))
}

/// Whether a sector holds a valid header: a known mode and kind.
pub open spec fn valid_header_bytes(b: Seq<u8>) -> bool {
    b[438] <= 1 && (b[471] == 1 || b[471] == 2)
}

impl Header {
    /// The header a sector holds: `None` unless its mode and kind bytes are
    /// known values.
    fn decode_sector(array: [u16; 256]) -> (r: Option<Self>)
        ensures
            r is Some <==> valid_header_bytes(sector_bytes(array@)),
            r matches Some(h) ==> encode_header(h) == sector_bytes(array@),
    {
        let b = unpack_sector(&array);
        let mode = match b[438] {
            0 => FileMode::Short,
            1 => FileMode::Long,
            _ => {
                return None;
            },
        };
        let file_type = match b[471] {
            1 => Type::Dir,
            2 => Type::File,
            _ => {
                return None;
            },
        };
        let mut blocks = [Address { lba: 0, block: 0 }; 100];
        let mut k: usize = 0;
        while k < 100
            invariant
                k <= 100,
                b@ == sector_bytes(array@),
                b@.len() == 512,
                forall|j: int| 0 <= j < k ==> #[trigger] blocks@[j] == (Address {
                    lba: le16(b@[36 + 4 * j], b@[36 + 4 * j + 1]),
                    block: le16(b@[36 + 4 * j + 2], b@[36 + 4 * j + 3]),
                }),
            decreases 100 - k,
        {
            blocks[k] = Address { lba: read_u16(&b, 36 + 4 * k), block: read_u16(&b, 36 + 4 * k + 2) };
            k += 1;
        }
        let mut name = [0u8; 32];
        let mut k: usize = 0;
        while k < 32
            invariant
                k <= 32,
                b@.len() == 512,
                forall|j: int| 0 <= j < k ==> #[trigger] name@[j] == b@[439 + j],
            decreases 32 - k,
        {
            name[k] = b[439 + k];
            k += 1;
        }
        let mut padding = [0u8; 40];
        let mut k: usize = 0;
        while k < 40
            invariant
                k <= 40,
                b@.len() == 512,
                forall|j: int| 0 <= j < k ==> #[trigger] padding@[j] == b@[472 + j],
            decreases 40 - k,
        {
            padding[k] = b[472 + k];
            k += 1;
        }
        let h = Header {
            user: UGOID(read_u64(&b, 0)),
            owner: UGOID(read_u64(&b, 8)),
            group: UGOID(read_u64(&b, 16)),
            parent_address: Address { lba: read_u16(&b, 24), block: read_u16(&b, 26) },
            length: read_u32(&b, 28),
            blocks_number: read_u32(&b, 32),
            blocks,
            flags: HeaderFlags { user_owner: b[436], group_misc: b[437] },
            mode,
            name,
            file_type,
            padding,
        };
        proof {
            let s = b@;
            lemma_le64(0, s[0], s[1], s[2], s[3], s[4], s[5], s[6], s[7]);
            lemma_le64(0, s[8], s[9], s[10], s[11], s[12], s[13], s[14], s[15]);
            lemma_le64(0, s[16], s[17], s[18], s[19], s[20], s[21], s[22], s[23]);
            lemma_le16(0, s[24], s[25]);
            lemma_le16(0, s[26], s[27]);
            lemma_le32(0, s[28], s[29], s[30], s[31]);
            lemma_le32(0, s[32], s[33], s[34], s[35]);
            assert forall|i: int| 0 <= i < 512 implies #[trigger] encode_header(h)[i] == s[i] by {
                if 36 <= i < 436 {
                    let k = (i - 36) / 4;
                    lemma_le16(0, s[36 + 4 * k], s[36 + 4 * k + 1]);
                    lemma_le16(0, s[36 + 4 * k + 2], s[36 + 4 * k + 3]);
                    assert(blocks@[k] == Address {
                        lba: le16(s[36 + 4 * k], s[36 + 4 * k + 1]),
                        block: le16(s[36 + 4 * k + 2], s[36 + 4 * k + 3]),
                    });
                } else if 439 <= i < 471 {
                    assert(name@[i - 439] == s[i]);
                } else if 472 <= i {
                    assert(padding@[i - 472] == s[i]);
                }
            }
            assert(encode_header(h) =~= s);
        }
        Some(h)
    }
}

impl U16Array for Header {
    open spec fn spec_words(&self) -> Seq<u16> {
        sector_words(encode_header(*self))
    }

    /// The sector image of the header.
    fn to_u16_array(&self) -> (a: [u16; 256])
        ensures
            a@ == sector_words(encode_header(*self)),
    {
        let mut v: Vec<u8> = Vec::new();
        push_u64(&mut v, self.user.0);
        assert forall|i: int| 0 <= i < 8 implies #[trigger] v@[i] == header_byte(*self, i) by {
            assert(v@[0 + i] == byte_of(self.user.0, i));
        }
        let ghost v0 = v@;
        push_u64(&mut v, self.owner.0);
        assert forall|i: int| 0 <= i < 16 implies #[trigger] v@[i] == header_byte(*self, i) by {
            if i >= 8 {
                assert(v@[8 + (i - 8)] == byte_of(self.owner.0, i - 8));
            } else {
                assert(v@[i] == v0[i]);
            }
        }
        let ghost v1 = v@;
        push_u64(&mut v, self.group.0);
        assert forall|i: int| 0 <= i < 24 implies #[trigger] v@[i] == header_byte(*self, i) by {
            if i >= 16 {
                assert(v@[16 + (i - 16)] == byte_of(self.group.0, i - 16));
            } else {
                assert(v@[i] == v1[i]);
            }
        }
        push_u16(&mut v, self.parent_address.lba);
        push_u16(&mut v, self.parent_address.block);
        let ghost v2 = v@;
        push_u32(&mut v, self.length);
        assert forall|i: int| 0 <= i < 32 implies #[trigger] v@[i] == header_byte(*self, i) by {
            if i >= 28 {
                assert(v@[28 + (i - 28)] == byte_of(self.length as u64, i - 28));
            } else {
                assert(v@[i] == v2[i]);
            }
        }
        let ghost v3 = v@;
        push_u32(&mut v, self.blocks_number);
        assert forall|i: int| 0 <= i < 36 implies #[trigger] v@[i] == header_byte(*self, i) by {
            if i >= 32 {
                assert(v@[32 + (i - 32)] == byte_of(self.blocks_number as u64, i - 32));
            } else {
                assert(v@[i] == v3[i]);
            }
        }
        let mut k: usize = 0;
        while k < 100
            invariant
                k <= 100,
                v@.len() == 36 + 4 * k,
                forall|i: int| 0 <= i < 36 + 4 * k ==> #[trigger] v@[i] == header_byte(*self, i),
            decreases 100 - k,
        {
            let ghost before = v@;
            push_u16(&mut v, self.blocks[k].lba);
            push_u16(&mut v, self.blocks[k].block);
            assert forall|i: int| 0 <= i < 36 + 4 * k + 4 implies #[trigger] v@[i] == header_byte(*self, i) by {
                if i >= 36 + 4 * k {
                    assert((i - 36) / 4 == k);
                    assert((i - 36) % 4 == i - 36 - 4 * k);
                } else {
                    assert(v@[i] == before[i]);
                }
            }
            k += 1;
        }
        v.push(self.flags.user_owner);
        v.push(self.flags.group_misc);
        v.push(
            match self.mode {
                FileMode::Short => 0u8,
                FileMode::Long => 1u8,
            },
        );
        let mut k: usize = 0;
        while k < 32
            invariant
                k <= 32,
                v@.len() == 439 + k,
                forall|i: int| 0 <= i < 439 + k ==> #[trigger] v@[i] == header_byte(*self, i),
            decreases 32 - k,
        {
            v.push(self.name[k]);
            k += 1;
        }
        v.push(
            match self.file_type {
                Type::Dir => 1u8,
                Type::File => 2u8,
            },
        );
        let mut k: usize = 0;
        while k < 40
            invariant
                k <= 40,
                v@.len() == 472 + k,
                forall|i: int| 0 <= i < 472 + k ==> #[trigger] v@[i] == header_byte(*self, i),
            decreases 40 - k,
        {
            v.push(self.padding[k]);
            k += 1;
        }
        assert(v@ =~= encode_header(*self));
        pack_sector(&v)
    }

    /// The header a sector holds: `None` unless its mode and kind bytes are
    /// known values.
    fn from_u16_array(array: [u16; 256]) -> (r: Option<Self>)
        ensures
            r is Some <==> valid_header_bytes(sector_bytes(array@)),
            r matches Some(h) ==> encode_header(h) == sector_bytes(array@),
    {
        let r = Self::decode_sector(array);
        proof {
            lemma_words_roundtrip(array@);
            if exists|x: Self| #[trigger] x.spec_words() == array@ {
                let x = choose|x: Self| #[trigger] x.spec_words() == array@;
                lemma_sector_roundtrip(encode_header(x));
                lemma_header_roundtrip(x, x);
            }
        }
        r
    }
}


proof fn lemma_u16_bytes_eq(a: u16, b: u16)
    requires
        byte_of(a as u64, 0) == byte_of(b as u64, 0),
        byte_of(a as u64, 1) == byte_of(b as u64, 1),
    ensures
        a == b,
{
    lemma_le16(a, 0, 0);
    lemma_le16(b, 0, 0);
}

proof fn lemma_u32_bytes_eq(a: u32, b: u32)
    requires
        forall|k: int| 0 <= k < 4 ==> #[trigger] byte_of(a as u64, k) == byte_of(b as u64, k),
    ensures
        a == b,
{
    assert(byte_of(a as u64, 0) == byte_of(b as u64, 0));
    assert(byte_of(a as u64, 1) == byte_of(b as u64, 1));
    assert(byte_of(a as u64, 2) == byte_of(b as u64, 2));
    assert(byte_of(a as u64, 3) == byte_of(b as u64, 3));
    lemma_le32(a, 0, 0, 0, 0);
    lemma_le32(b, 0, 0, 0, 0);
}

proof fn lemma_u64_bytes_eq(a: u64, b: u64)
    requires
        forall|k: int| 0 <= k < 8 ==> #[trigger] byte_of(a, k) == byte_of(b, k),
    ensures
        a == b,
{
    assert(byte_of(a, 0) == byte_of(b, 0));
    assert(byte_of(a, 1) == byte_of(b, 1));
    assert(byte_of(a, 2) == byte_of(b, 2));
    assert(byte_of(a, 3) == byte_of(b, 3));
    assert(byte_of(a, 4) == byte_of(b, 4));
    assert(byte_of(a, 5) == byte_of(b, 5));
    assert(byte_of(a, 6) == byte_of(b, 6));
    assert(byte_of(a, 7) == byte_of(b, 7));
    lemma_le64(a, 0, 0, 0, 0, 0, 0, 0, 0);
    lemma_le64(b, 0, 0, 0, 0, 0, 0, 0, 0);
}

proof fn lemma_addresses_eq(a: Seq<Address>, a2: Seq<Address>, k: int)
    requires
        0 <= k,
        forall|r: int| 0 <= r < 4 ==> #[trigger] address_byte(a2, 4 * k + r) == address_byte(a, 4 * k + r),
    ensures
        a2[k] == a[k],
{
    assert((4 * k + 0) / 4 == k && (4 * k + 0) % 4 == 0);
    assert((4 * k + 1) / 4 == k && (4 * k + 1) % 4 == 1);
    assert((4 * k + 2) / 4 == k && (4 * k + 2) % 4 == 2);
    assert((4 * k + 3) / 4 == k && (4 * k + 3) % 4 == 3);
    assert(address_byte(a2, 4 * k + 0) == address_byte(a, 4 * k + 0));
    assert(address_byte(a2, 4 * k + 1) == address_byte(a, 4 * k + 1));
    assert(address_byte(a2, 4 * k + 2) == address_byte(a, 4 * k + 2));
    assert(address_byte(a2, 4 * k + 3) == address_byte(a, 4 * k + 3));
    lemma_u16_bytes_eq(a2[k].lba, a[k].lba);
    lemma_u16_bytes_eq(a2[k].block, a[k].block);
}

proof fn lemma_header_ids_eq(h: Header, h2: Header)
    requires
        encode_header(h2) == encode_header(h),
    ensures
        h2.user == h.user,
        h2.owner == h.owner,
        h2.group == h.group,
{
    let e = encode_header(h);
    let e2 = encode_header(h2);
    assert forall|k: int| 0 <= k < 8 implies #[trigger] byte_of(h2.user.0, k) == byte_of(h.user.0, k) by {
        assert(e2[k] == e[k]);
    }
    assert forall|k: int| 0 <= k < 8 implies #[trigger] byte_of(h2.owner.0, k) == byte_of(h.owner.0, k) by {
        assert(e2[8 + k] == e[8 + k]);
    }
    assert forall|k: int| 0 <= k < 8 implies #[trigger] byte_of(h2.group.0, k) == byte_of(h.group.0, k) by {
        assert(e2[16 + k] == e[16 + k]);
    }
    lemma_u64_bytes_eq(h2.user.0, h.user.0);
    lemma_u64_bytes_eq(h2.owner.0, h.owner.0);
    lemma_u64_bytes_eq(h2.group.0, h.group.0);
}

proof fn lemma_header_sizes_eq(h: Header, h2: Header)
    requires
        encode_header(h2) == encode_header(h),
    ensures
        h2.parent_address == h.parent_address,
        h2.length == h.length,
        h2.blocks_number == h.blocks_number,
{
    let e = encode_header(h);
    let e2 = encode_header(h2);
    assert(e2[24] == e[24] && e2[25] == e[25] && e2[26] == e[26] && e2[27] == e[27]);
    lemma_u16_bytes_eq(h2.parent_address.lba, h.parent_address.lba);
    lemma_u16_bytes_eq(h2.parent_address.block, h.parent_address.block);
    assert forall|k: int| 0 <= k < 4 implies #[trigger] byte_of(h2.length as u64, k) == byte_of(h.length as u64, k) by {
        assert(e2[28 + k] == e[28 + k]);
    }
    assert forall|k: int| 0 <= k < 4 implies #[trigger] byte_of(h2.blocks_number as u64, k) == byte_of(h.blocks_number as u64, k) by {
        assert(e2[32 + k] == e[32 + k]);
    }
    lemma_u32_bytes_eq(h2.length, h.length);
    lemma_u32_bytes_eq(h2.blocks_number, h.blocks_number);
}

proof fn lemma_header_blocks_eq(h: Header, h2: Header)
    requires
        encode_header(h2) == encode_header(h),
    ensures
        h2.blocks == h.blocks,
{
    let e = encode_header(h);
    let e2 = encode_header(h2);
    assert forall|k: int| 0 <= k < 100 implies #[trigger] h2.blocks@[k] == h.blocks@[k] by {
        assert forall|r: int| 0 <= r < 4 implies #[trigger] address_byte(h2.blocks@, 4 * k + r) == address_byte(h.blocks@, 4 * k + r) by {
            assert(e2[36 + 4 * k + r] == e[36 + 4 * k + r]);
        }
        lemma_addresses_eq(h.blocks@, h2.blocks@, k);
    }
    assert(h2.blocks@ =~= h.blocks@);
}

proof fn lemma_header_bytes_eq(h: Header, h2: Header)
    requires
        encode_header(h2) == encode_header(h),
    ensures
        h2.name == h.name,
        h2.padding == h.padding,
        h2.flags == h.flags,
        h2.mode == h.mode,
        h2.file_type == h.file_type,
{
    let e = encode_header(h);
    let e2 = encode_header(h2);
    assert forall|k: int| 0 <= k < 32 implies #[trigger] h2.name@[k] == h.name@[k] by {
        assert(e2[439 + k] == e[439 + k]);
    }
    assert(h2.name@ =~= h.name@);
    assert forall|k: int| 0 <= k < 40 implies #[trigger] h2.padding@[k] == h.padding@[k] by {
        assert(e2[472 + k] == e[472 + k]);
    }
    assert(h2.padding@ =~= h.padding@);
    assert(e2[436] == e[436] && e2[437] == e[437]);
    assert(e2[438] == e[438] && e2[471] == e[471]);
}

/// A header whose image is that of `h` with the block list replaced by
/// `blocks` has the fields of `h` and lists `blocks`.
pub(crate) proof fn lemma_header_fields_from_bytes(h: Header, blocks: Seq<Address>, h2: Header)
    requires
        blocks.len() == 100,
        encode_header(h2) == Seq::new(512, |i: int| if 36 <= i < 436 {
            address_byte(blocks, i - 36)
        } else {
            header_byte(h, i)
        }),
    ensures
        h2.length == h.length,
        h2.blocks_number == h.blocks_number,
        h2.mode == h.mode,
        h2.file_type == h.file_type,
        h2.name == h.name,
        h2.blocks@ == blocks,
{
    let e = encode_header(h);
    let e2 = encode_header(h2);
    assert forall|k: int| 0 <= k < 4 implies #[trigger] byte_of(h2.length as u64, k) == byte_of(h.length as u64, k) by {
        assert(e2[28 + k] == e[28 + k]);
    }
    assert forall|k: int| 0 <= k < 4 implies #[trigger] byte_of(h2.blocks_number as u64, k) == byte_of(
        h.blocks_number as u64,
        k,
    ) by {
        assert(e2[32 + k] == e[32 + k]);
    }
    lemma_u32_bytes_eq(h2.length, h.length);
    lemma_u32_bytes_eq(h2.blocks_number, h.blocks_number);
    assert forall|k: int| 0 <= k < 100 implies #[trigger] h2.blocks@[k] == blocks[k] by {
        assert forall|r: int| 0 <= r < 4 implies #[trigger] address_byte(h2.blocks@, 4 * k + r) == address_byte(
            blocks,
            4 * k + r,
        ) by {
            assert(e2[36 + 4 * k + r] == address_byte(blocks, 4 * k + r));
        }
        lemma_addresses_eq(blocks, h2.blocks@, k);
    }
    assert(h2.blocks@ =~= blocks);
    assert forall|k: int| 0 <= k < 32 implies #[trigger] h2.name@[k] == h.name@[k] by {
        assert(e2[439 + k] == e[439 + k]);
    }
    assert(h2.name@ =~= h.name@);
    assert(e2[438] == e[438] && e2[471] == e[471]);
}

/// A header read back from the sector it was written to is the header
/// that was written: the image is valid, and any header whose image it is
/// equals the header written.
pub proof fn lemma_header_roundtrip(h: Header, h2: Header)
    requires
        encode_header(h2) == sector_bytes(sector_words(encode_header(h))),
    ensures
        valid_header_bytes(sector_bytes(sector_words(encode_header(h)))),
        h2 == h,
{
    let e = encode_header(h);
    lemma_sector_roundtrip(e);
    assert(e[438] == mode_byte(h.mode));
    assert(e[471] == type_byte(h.file_type));
    lemma_header_ids_eq(h, h2);
    lemma_header_sizes_eq(h, h2);
    lemma_header_blocks_eq(h, h2);
    lemma_header_bytes_eq(h, h2);
}

/// An allocation table read back from the sector it was written to is the
/// table that was written.
pub proof fn lemma_lba_table_roundtrip(t: LBATableView, t2: LBATableView)
    requires
        t.data.len() == 510,
        t2.data.len() == 510,
        encode_lba_table(t2) == sector_bytes(sector_words(encode_lba_table(t))),
    ensures
        forall|i: int| 2 <= i < 512 ==> #[trigger] sector_bytes(sector_words(encode_lba_table(t)))[i] <= 1,
        t2 == t,
{
    let e = encode_lba_table(t);
    lemma_sector_roundtrip(e);
    let e2 = encode_lba_table(t2);
    assert(e2[0] == e[0] && e2[1] == e[1]);
    lemma_u16_bytes_eq(t2.index, t.index);
    assert forall|k: int| 0 <= k < 510 implies #[trigger] t2.data[k] == t.data[k] by {
        assert(e2[k + 2] == e[k + 2]);
    }
    assert(t2.data =~= t.data);
}

/// A directory block read back from the sector it was written to is the
/// block that was written.
pub proof fn lemma_dir_block_roundtrip(d: DirBlock, d2: DirBlock)
    requires
        encode_dir_block(d2@) == sector_bytes(sector_words(encode_dir_block(d@))),
    ensures
        d2@ == d@,
{
    let e = encode_dir_block(d@);
    lemma_sector_roundtrip(e);
    let e2 = encode_dir_block(d2@);
    assert forall|k: int| 0 <= k < 16 implies #[trigger] d2@[k] == d@[k] by {
        assert forall|j: int| 0 <= j < 28 implies #[trigger] d2@[k].0@[j] == d@[k].0@[j] by {
            assert((32 * k + j) / 32 == k && (32 * k + j) % 32 == j);
            assert(e2[32 * k + j] == e[32 * k + j]);
        }
        assert(d2@[k].0 =~= d@[k].0);
        assert((32 * k + 28) / 32 == k && (32 * k + 28) % 32 == 28);
        assert((32 * k + 29) / 32 == k && (32 * k + 29) % 32 == 29);
        assert((32 * k + 30) / 32 == k && (32 * k + 30) % 32 == 30);
        assert((32 * k + 31) / 32 == k && (32 * k + 31) % 32 == 31);
        assert(e2[32 * k + 28] == e[32 * k + 28] && e2[32 * k + 29] == e[32 * k + 29]);
        assert(e2[32 * k + 30] == e[32 * k + 30] && e2[32 * k + 31] == e[32 * k + 31]);
        lemma_u16_bytes_eq(d2@[k].1.lba, d@[k].1.lba);
        lemma_u16_bytes_eq(d2@[k].1.block, d@[k].1.block);
    }
    assert(d2@ =~= d@);
}

/// An address block read back from the sector it was written to is the
/// block that was written.
pub proof fn lemma_long_file_roundtrip(l: LongFile, l2: LongFile)
    requires
        encode_long_file(l2) == sector_bytes(sector_words(encode_long_file(l))),
    ensures
        l2.addresses@ == l.addresses@,
{
    let e = encode_long_file(l);
    lemma_sector_roundtrip(e);
    let e2 = encode_long_file(l2);
    assert forall|k: int| 0 <= k < 128 implies #[trigger] l2.addresses@[k] == l.addresses@[k] by {
        assert forall|r: int| 0 <= r < 4 implies #[trigger] address_byte(l2.addresses@, 4 * k + r) == address_byte(l.addresses@, 4 * k + r) by {
            assert(e2[4 * k + r] == e[4 * k + r]);
        }
        lemma_addresses_eq(l.addresses@, l2.addresses@, k);
    }
    assert(l2.addresses@ =~= l.addresses@);
}

} // verus!
