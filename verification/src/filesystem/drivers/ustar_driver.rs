//! The ustar-like file system as a partition: sector allocation, files and
//! directories read back from their sectors, and the sectors a write puts
//! on the disk.
use vstd::prelude::*;
use crate::data_storage::path::Path;
use crate::filesystem::fsflags::{OpenFlags, OCREAT, OWR};
use crate::filesystem::drivers::ustar::{
    UsTarError,
    address_byte, header_byte, sector_words, slice_vec, spec_div_ceil, spec_word_of, table_images,
    writes_view, Address, FileBlock, FileMode, Header, HeaderFlags, Type, UGOID, div_ceil, LBATableGlobal, LBATableView, LongFile, SectorWrite,
    U16Array, encode_header, encode_long_file, SHORT_MODE_LIMIT, sector_bytes, valid_header_bytes, mode_byte,
    type_byte, lemma_sector_roundtrip, lemma_header_fields_from_bytes, encode_dir_block, dir_block_byte,
    byte_of, le16, lemma_le16,
};

verus! {

/// The tables once sector `block` of segment `lba` is taken: the sector is
/// used and the segment's count of handed-out sectors moves up, up to 510.
pub open spec fn take_block(tables: Seq<LBATableView>, lba: int, block: int) -> Seq<LBATableView> {
    let t = tables[lba];
    tables.update(lba, LBATableView {
        index: if t.index < 510 { (t.index + 1) as u16 } else { 510u16 },
        data: t.data.update(block, false),
    })
}

/// The sector search of the allocator: from segment `lba` and sector
/// `block`, take the first `n` free sectors. In a segment whose table is
/// not full, a free sector is taken (and the table's count moves up), a
/// used one makes the table's first free sector move past it. A full
/// segment moves the global index forward by one more than the segment's
/// number, and the search goes on in the next segment from the first free
/// sector of the segment the global index then names. The result is the
/// sectors taken, the global index and the tables at the end; `None` when
/// the search would read outside the tables.
pub open spec fn alloc_scan(
    index: u32,
    tables: Seq<LBATableView>,
    lba: int,
    block: int,
    n: nat,
) -> Option<(Seq<Address>, u32, Seq<LBATableView>)>
    decreases 4 - lba, 510 - block, n,
{
    if n == 0 {
        Some((Seq::empty(), index, tables))
    } else if !(0 <= lba < 4) {
        None
    } else if tables[lba].index != 510 {
        if !(0 <= block < 510) {
            None
        } else if tables[lba].data[block] {
            match alloc_scan(index, take_block(tables, lba, block), lba, block, (n - 1) as nat) {
                Some((s, i2, t2)) => Some((seq![Address { lba: lba as u16, block: block as u16 }] + s, i2, t2)),
                None => None,
            }
        } else {
            alloc_scan(
                index,
                tables.update(lba, LBATableView { index: (block + 1) as u16, data: tables[lba].data }),
                lba,
                block + 1,
                n,
            )
        }
    } else {
        let i2 = index + lba + 1;
        if i2 > u32::MAX || i2 >= 4 {
            None
        } else {
            alloc_scan(i2 as u32, tables, lba + 1, tables[i2].index as int, n)
        }
    }
}

/// The allocator's search for `n` sectors, started where the global index
/// points.
pub open spec fn alloc_from(index: u32, tables: Seq<LBATableView>, n: nat) -> Option<(Seq<Address>, u32, Seq<LBATableView>)> {
    if index < 4 {
        alloc_scan(index, tables, index as int, tables[index as int].index as int, n)
    } else {
        None
    }
}

/// Tables of the four segments, each keeping track of 510 sectors.
pub open spec fn tables_shape(tables: Seq<LBATableView>) -> bool {
    &&& tables.len() == 4
    &&& forall|l: int| 0 <= l < 4 ==> (#[trigger] tables[l]).data.len() == 510
}

/// Whether sector `block` of segment `lba` is free in `tables`.
pub open spec fn is_free(tables: Seq<LBATableView>, a: Address) -> bool {
    tables[a.lba as int].data[a.block as int]
}

/// Allocation never hands out a sector twice nor a used one: the sectors
/// taken are distinct, each was free and is used afterwards, and no other
/// sector changes state.
pub proof fn lemma_alloc_scan_takes_free(
    index: u32,
    tables: Seq<LBATableView>,
    lba: int,
    block: int,
    n: nat,
)
    requires
        tables_shape(tables),
        alloc_scan(index, tables, lba, block, n) is Some,
    ensures
        ({
            let (s, i2, t2) = alloc_scan(index, tables, lba, block, n)->Some_0;
            &&& s.len() == n
            &&& tables_shape(t2)
            &&& forall|k: int| 0 <= k < s.len() ==> (#[trigger] s[k]).lba < 4 && s[k].block < 510
            &&& forall|k: int| 0 <= k < s.len() ==> is_free(tables, #[trigger] s[k]) && !is_free(t2, s[k])
            &&& forall|i: int, j: int| 0 <= i < j < s.len() ==> #[trigger] s[i] != #[trigger] s[j]
            &&& forall|a: Address| a.lba < 4 && a.block < 510 && !s.contains(a) ==> #[trigger] is_free(t2, a) == is_free(tables, a)
        }),
    decreases 4 - lba, 510 - block, n,
{
    if n == 0 {
    } else if tables[lba].index != 510 {
        if tables[lba].data[block] {
            let t1 = take_block(tables, lba, block);
            let me = Address { lba: lba as u16, block: block as u16 };
            assert(tables_shape(t1)) by {
                assert forall|l: int| 0 <= l < 4 implies (#[trigger] t1[l]).data.len() == 510 by {
                    if l != lba {
                        assert(t1[l] == tables[l]);
                    }
                }
            }
            lemma_alloc_scan_takes_free(index, t1, lba, block, (n - 1) as nat);
            let (s1, i2, t2) = alloc_scan(index, t1, lba, block, (n - 1) as nat)->Some_0;
            let s = seq![me] + s1;
            assert(is_free(tables, me));
            assert(!is_free(t1, me));
            assert(!s1.contains(me)) by {
                if s1.contains(me) {
                    let k = choose|k: int| 0 <= k < s1.len() && s1[k] == me;
                    assert(is_free(t1, s1[k]));
                }
            }
            assert(!is_free(t2, me));
            assert forall|a: Address| a.lba < 4 && a.block < 510 && a != me implies #[trigger] is_free(t1, a)
                == is_free(tables, a) by {
                if a.lba as int == lba {
                    assert(a.block as int != block);
                }
            }
            assert forall|k: int| 0 <= k < s.len() implies is_free(tables, #[trigger] s[k]) && !is_free(t2, s[k]) by {
                if k > 0 {
                    assert(s[k] == s1[k - 1]);
                    assert(s[k] != me) by {
                        assert(is_free(t1, s1[k - 1]));
                    }
                }
            }
            assert forall|i: int, j: int| 0 <= i < j < s.len() implies #[trigger] s[i] != #[trigger] s[j] by {
                if i == 0 {
                    assert(s[j] == s1[j - 1]);
                    assert(s1.contains(s[j]));
                } else {
                    assert(s[i] == s1[i - 1] && s[j] == s1[j - 1]);
                }
            }
            assert forall|a: Address| a.lba < 4 && a.block < 510 && !s.contains(a) implies #[trigger] is_free(t2, a)
                == is_free(tables, a) by {
                assert(s[0] == me);
                if s1.contains(a) {
                    let k = choose|k: int| 0 <= k < s1.len() && s1[k] == a;
                    assert(s[k + 1] == a);
                }
                assert(a != me);
            }
            assert forall|k: int| 0 <= k < s.len() implies (#[trigger] s[k]).lba < 4 && s[k].block < 510 by {
                if k > 0 {
                    assert(s[k] == s1[k - 1]);
                }
            }
        } else {
            let t1 = tables.update(lba, LBATableView { index: (block + 1) as u16, data: tables[lba].data });
            assert(tables_shape(t1)) by {
                assert forall|l: int| 0 <= l < 4 implies (#[trigger] t1[l]).data.len() == 510 by {
                    if l != lba {
                        assert(t1[l] == tables[l]);
                    }
                }
            }
            lemma_alloc_scan_takes_free(index, t1, lba, block + 1, n);
            assert forall|a: Address| a.lba < 4 && a.block < 510 implies #[trigger] is_free(t1, a) == is_free(tables, a) by {
                if a.lba as int != lba {
                    assert(t1[a.lba as int] == tables[a.lba as int]);
                }
            }
        }
    } else {
        let i2 = index + lba + 1;
        lemma_alloc_scan_takes_free(i2 as u32, tables, lba + 1, tables[i2].index as int, n);
    }
}

/// A chunk (file or directory) in memory: its header and its data.
#[derive(Debug, Clone)]
pub struct MemFile {
    pub header: Header,
    pub data: Vec<u8>,
}

/// Number of the sector at address `a`: 512 sectors per segment.
pub open spec fn sector_of(a: Address) -> int {
    a.lba as int * 512 + a.block as int
}

/// `n` addresses of `a` from `start` on, the missing ones zero.
pub open spec fn window(a: Seq<Address>, start: int, n: nat) -> Seq<Address> {
    Seq::new(n, |k: int| if start + k < a.len() { a[start + k] } else { Address { lba: 0, block: 0 } })
}

/// Sector image of header `h` with its block list replaced by `blocks`
/// (zero after them).
pub open spec fn header_image(h: Header, blocks: Seq<Address>) -> Seq<u16> {
    sector_words(Seq::new(512, |i: int| if 36 <= i < 436 {
        address_byte(window(blocks, 0, 100), i - 36)
    } else {
        header_byte(h, i)
    }))
}

/// Writes of the data blocks of `data`: block `i` at the sector of
/// `addrs[i]`.
pub open spec fn data_images(data: Seq<u8>, addrs: Seq<Address>) -> Seq<(u32, Seq<u16>)> {
    Seq::new(addrs.len(), |i: int| (sector_of(addrs[i]) as u32, Seq::new(256, |j: int| spec_word_of(data, 256 * i + j))))
}

/// Writes of the address blocks of a long-mode chunk: block `i`, at the
/// sector of `blocks[i]`, lists data addresses `128 i` to `128 i + 127`.
pub open spec fn address_block_images(blocks: Seq<Address>, data_addrs: Seq<Address>) -> Seq<(u32, Seq<u16>)> {
    Seq::new(blocks.len(), |i: int| (sector_of(blocks[i]) as u32, sector_words(
        Seq::new(512, |b: int| address_byte(window(data_addrs, 128 * i, 128), b)),
    )))
}

/// What writing chunk `h`/`data` does, from allocation state `index` and
/// `tables`: the header's address, the sector writes in order, and the
/// allocation state after. The header takes one sector. In short mode the
/// data takes `blocks_number` sectors, listed in the header and written
/// there; in long mode the header lists the address
/// blocks, which list the data sectors. The tables are written back after
/// each allocation and at the end.
pub open spec fn memfile_plan(index: u32, tables: Seq<LBATableView>, h: Header, data: Seq<u8>)
    -> Option<(Address, Seq<(u32, Seq<u16>)>, u32, Seq<LBATableView>)>
{
    let bn = h.blocks_number as nat;
    match alloc_from(index, tables, 1) {
        None => None,
        Some((hs, i1, t1)) => match h.mode {
            FileMode::Short => match alloc_from(i1, t1, bn) {
                None => None,
                Some((bs, i2, t2)) => Some((
                    hs[0],
                    table_images(t1) + table_images(t2) + seq![(sector_of(hs[0]) as u32, header_image(h, bs))]
                        + data_images(data, bs) + table_images(t2),
                    i2,
                    t2,
                )),
            },
            FileMode::Long => match alloc_from(i1, t1, spec_div_ceil(bn as int, 128) as nat) {
                None => None,
                Some((abs, i2, t2)) => match alloc_from(i2, t2, bn) {
                    None => None,
                    Some((ds, i3, t3)) => Some((
                        hs[0],
                        table_images(t1) + table_images(t2) + table_images(t3)
                            + seq![(sector_of(hs[0]) as u32, header_image(h, abs))]
                            + address_block_images(abs, ds) + data_images(data, ds) + table_images(t3),
                        i3,
                        t3,
                    )),
                },
            },
        },
    }
}

/// A header whose block list is `blocks` (zero after them) and whose other
/// fields are those of `h` has the sector image `header_image(h, blocks)`.
proof fn lemma_header_image(h: Header, h2: Header, blocks: Seq<Address>)
    requires
        h2.blocks@ == window(blocks, 0, 100),
        h2.user == h.user,
        h2.owner == h.owner,
        h2.group == h.group,
        h2.parent_address == h.parent_address,
        h2.length == h.length,
        h2.blocks_number == h.blocks_number,
        h2.flags == h.flags,
        h2.mode == h.mode,
        h2.name == h.name,
        h2.file_type == h.file_type,
        h2.padding == h.padding,
    ensures
        sector_words(encode_header(h2)) == header_image(h, blocks),
{
    assert(encode_header(h2) =~= Seq::new(512, |i: int| if 36 <= i < 436 {
        address_byte(window(blocks, 0, 100), i - 36)
    } else {
        header_byte(h, i)
    }));
}

/// Byte `i` of the data held by `blocks`, 512 bytes a block: each word
/// gives its high byte, then its low byte.
pub open spec fn block_byte(blocks: Seq<FileBlock>, i: int) -> u8 {
    let w = blocks[i / 512].data@[(i % 512) / 2];
    if i % 2 == 0 {
        (w >> 8u16) as u8
    } else {
        (w & 0xffu16) as u8
    }
}

/// Number of bytes of a chunk's data: a file's length, 32 bytes for each
/// entry of a directory.
pub open spec fn chunk_length(h: Header) -> int {
    match h.file_type {
        Type::File => h.length as int,
        Type::Dir => h.length as int * 32,
    }
}

/// Bytes read back from the first `nb` blocks of a short-mode chunk of
/// `length` bytes: the first `length` bytes, all the bytes when the blocks
/// hold fewer. When `length` is odd, each block after the one where the
/// data ends gives one more byte, its first.
pub open spec fn short_data(blocks: Seq<FileBlock>, length: int, nb: int) -> Seq<u8> {
    if length >= 512 * nb {
        Seq::new((512 * nb) as nat, |i: int| block_byte(blocks, i))
    } else if length % 2 == 0 {
        Seq::new(length as nat, |i: int| block_byte(blocks, i))
    } else {
        let last = (length - 1) / 512;
        Seq::new(length as nat, |i: int| block_byte(blocks, i))
            + Seq::new((nb - 1 - last) as nat, |k: int| block_byte(blocks, 512 * (last + 1 + k)))
    }
}

/// Bytes read back from the first `nb` blocks of a long-mode chunk of
/// `length` bytes: whole words, `length` of them, or all the bytes when the
/// blocks hold fewer.
pub open spec fn long_data(blocks: Seq<FileBlock>, length: int, nb: int) -> Seq<u8> {
    let n = if 2 * length < 512 * nb { 2 * length } else { 512 * nb };
    Seq::new(n as nat, |i: int| block_byte(blocks, i))
}

/// The data a chunk with header `h` reads back from its data blocks.
pub open spec fn chunk_data(h: Header, blocks: Seq<FileBlock>) -> Seq<u8> {
    match h.mode {
        FileMode::Short => short_data(blocks, chunk_length(h), blocks.len() as int),
        FileMode::Long => long_data(blocks, chunk_length(h), blocks.len() as int),
    }
}

/// The high and low bytes of a word made of bytes `x` and `y` are `x`
/// and `y`.
proof fn lemma_word_bytes(x: u8, y: u8, w: u16)
    requires
        w == x * 256 + y,
    ensures
        (w >> 8u16) as u8 == x,
        (w & 0xffu16) as u8 == y,
{
    assert((w >> 8u16) as u8 == x && (w & 0xffu16) as u8 == y) by (bit_vector)
        requires
            w == x * 256 + y,
    ;
}

/// Data written in short mode reads back as it was: when the blocks read
/// hold the words `data_images` writes for `data`, one block per 512 bytes,
/// `short_data` gives `data` back.
pub proof fn lemma_short_data_roundtrip(data: Seq<u8>, addrs: Seq<Address>, blocks: Seq<FileBlock>)
    requires
        addrs.len() == spec_div_ceil(data.len() as int, 512),
        blocks.len() == addrs.len(),
        forall|b: int| 0 <= b < blocks.len() ==> (#[trigger] blocks[b]).data@ == data_images(data, addrs)[b].1,
    ensures
        short_data(blocks, data.len() as int, blocks.len() as int) == data,
{
    let n = data.len() as int;
    let nb = blocks.len() as int;
    assert(512 * (nb - 1) < n <= 512 * nb || (n == 0 && nb == 0)) by (nonlinear_arith)
        requires
            nb == spec_div_ceil(n, 512),
            n >= 0,
    {
        if n % 512 == 0 {
            assert(n == 512 * (n / 512));
        }
    }
    assert forall|i: int| 0 <= i < n implies #[trigger] block_byte(blocks, i) == data[i] by {
        let q = i / 512;
        let r = i % 512;
        assert(i == 512 * q + r && 0 <= r < 512 && 0 <= q < nb) by (nonlinear_arith)
            requires
                0 <= i < n,
                n <= 512 * nb,
                q == i / 512,
                r == i % 512,
        ;
        let k = i / 2;
        assert(256 * q + r / 2 == k && (i % 2 == 0 <==> r % 2 == 0)) by (nonlinear_arith)
            requires
                i == 512 * q + r,
                0 <= r < 512,
                k == i / 2,
        ;
        let w = blocks[q].data@[r / 2];
        assert(w == spec_word_of(data, 256 * q + r / 2));
        if i % 2 == 0 {
            assert(2 * k == i);
            if 2 * k + 1 < n {
                lemma_word_bytes(data[2 * k], data[2 * k + 1], w);
            } else {
                lemma_word_bytes(data[2 * k], 0, w);
            }
        } else {
            assert(2 * k + 1 == i);
            lemma_word_bytes(data[2 * k], data[2 * k + 1], w);
        }
    }
    if n >= 512 * nb {
        assert(short_data(blocks, n, nb) =~= data);
    } else if n % 2 == 0 {
        assert(short_data(blocks, n, nb) =~= data);
    } else {
        assert((n - 1) / 512 == nb - 1) by (nonlinear_arith)
            requires
                512 * (nb - 1) < n <= 512 * nb,
        ;
        assert(short_data(blocks, n, nb) =~= data);
    }
}

/// Byte `t` of block `b` is byte `512 b + t` of the blocks' data.
proof fn lemma_block_byte(blocks: Seq<FileBlock>, b: int, t: int)
    requires
        0 <= b,
        0 <= t < 512,
    ensures
        (512 * b + t) / 512 == b,
        (512 * b + t) % 512 == t,
        (512 * b + t) % 2 == t % 2,
{
    vstd::arithmetic::div_mod::lemma_fundamental_div_mod_converse(512 * b + t, 512, b, t);
    assert((512 * b + t) % 2 == t % 2) by {
        vstd::arithmetic::div_mod::lemma_fundamental_div_mod_converse(512 * b + t, 2, 256 * b + t / 2, t % 2);
    }
}

/// Appends to `data` bytes `0` to `count - 1` of block `b`.
fn push_block_bytes(data: &mut Vec<u8>, blocks: &[FileBlock], b: usize, count: usize)
    requires
        b < blocks@.len(),
        count <= 512,
    ensures
        final(data)@ == old(data)@ + Seq::new(count as nat, |t: int| block_byte(blocks@, 512 * b + t)),
{
    let mut t: usize = 0;
    while t < count
        invariant
            t <= count <= 512,
            b < blocks@.len(),
            data@ == old(data)@ + Seq::new(t as nat, |u: int| block_byte(blocks@, 512 * b + u)),
        decreases count - t,
    {
        proof {
            lemma_block_byte(blocks@, b as int, t as int);
        }
        let w = blocks[b].data[t / 2];
        let byte: u8 = if t % 2 == 0 { (w >> 8) as u8 } else { (w & 0xff) as u8 };
        data.push(byte);
        assert(data@ =~= old(data)@ + Seq::new((t + 1) as nat, |u: int| block_byte(blocks@, 512 * b + u)));
        t += 1;
    }
}

/// Reading one more block of a short-mode chunk adds what that block gives.
proof fn lemma_short_data_step(blocks: Seq<FileBlock>, length: int, b: int)
    requires
        0 <= b,
        0 <= length,
    ensures
        short_data(blocks, length, b + 1) == short_data(blocks, length, b) + if length >= 512 * (b + 1) {
            Seq::new(512, |t: int| block_byte(blocks, 512 * b + t))
        } else if length > 512 * b {
            Seq::new((length - 512 * b) as nat, |t: int| block_byte(blocks, 512 * b + t))
        } else if length % 2 == 1 {
            seq![block_byte(blocks, 512 * b)]
        } else {
            Seq::<u8>::empty()
        },
{
    if length >= 512 * (b + 1) {
        assert(short_data(blocks, length, b + 1) =~= short_data(blocks, length, b) + Seq::new(512, |t: int| block_byte(blocks, 512 * b + t)));
    } else if length > 512 * b {
        if length % 2 == 1 {
            assert((length - 1) / 512 == b);
        }
        assert(short_data(blocks, length, b + 1) =~= short_data(blocks, length, b)
            + Seq::new((length - 512 * b) as nat, |t: int| block_byte(blocks, 512 * b + t)));
    } else if length % 2 == 1 {
        let last = (length - 1) / 512;
        assert(last < b);
        assert(short_data(blocks, length, b + 1) =~= short_data(blocks, length, b) + seq![block_byte(blocks, 512 * b)]);
    } else {
        assert(short_data(blocks, length, b + 1) =~= short_data(blocks, length, b));
    }
}

/// Reading one more block of a long-mode chunk adds its whole words, up to
/// the chunk's length.
proof fn lemma_long_data_step(blocks: Seq<FileBlock>, length: int, b: int)
    requires
        0 <= b,
        0 <= length,
    ensures
        long_data(blocks, length, b + 1) == long_data(blocks, length, b) + if 2 * length >= 512 * (b + 1) {
            Seq::new(512, |t: int| block_byte(blocks, 512 * b + t))
        } else if 2 * length > 512 * b {
            Seq::new((2 * length - 512 * b) as nat, |t: int| block_byte(blocks, 512 * b + t))
        } else {
            Seq::<u8>::empty()
        },
{
    if 2 * length >= 512 * (b + 1) {
        assert(long_data(blocks, length, b + 1) =~= long_data(blocks, length, b) + Seq::new(512, |t: int| block_byte(blocks, 512 * b + t)));
    } else if 2 * length > 512 * b {
        assert(long_data(blocks, length, b + 1) =~= long_data(blocks, length, b)
            + Seq::new((2 * length - 512 * b) as nat, |t: int| block_byte(blocks, 512 * b + t)));
    } else {
        assert(long_data(blocks, length, b + 1) =~= long_data(blocks, length, b));
    }
}

impl MemFile {
    /// The chunk with header `header` whose data blocks, read from the disk,
    /// are `blocks`: its data is what `chunk_data` says.
    pub fn from_blocks(header: Header, blocks: &[FileBlock]) -> (f: MemFile)
        requires
            header.file_type == Type::Dir ==> header.length * 32 <= u32::MAX,
        ensures
            f.header == header,
            f.data@ == chunk_data(header, blocks@),
    {
        let length: u32 = match header.file_type {
            Type::File => header.length,
            Type::Dir => header.length * 32,
        };
        let mut data: Vec<u8> = Vec::new();
        let mut b: usize = 0;
        match header.mode {
            FileMode::Short => {
                let mut remaining: u32 = length;
                while b < blocks.len()
                    invariant
                        b <= blocks@.len(),
                        length == chunk_length(header),
                        data@ == short_data(blocks@, length as int, b as int),
                        remaining == if length >= 512 * b { length - 512 * b } else { 0 },
                    decreases blocks@.len() - b,
                {
                    proof {
                        lemma_short_data_step(blocks@, length as int, b as int);
                    }
                    if remaining >= 512 {
                        push_block_bytes(&mut data, blocks, b, 512);
                        remaining -= 512;
                    } else if remaining > 0 {
                        push_block_bytes(&mut data, blocks, b, remaining as usize);
                        remaining = 0;
                    } else if length % 2 == 1 {
                        let ghost before = data@;
                        push_block_bytes(&mut data, blocks, b, 1);
                        assert(data@ =~= before + seq![block_byte(blocks@, 512 * b)]);
                    }
                    b += 1;
                }
            },
            FileMode::Long => {
                let mut remaining: u64 = 2 * (length as u64);
                while b < blocks.len()
                    invariant
                        b <= blocks@.len(),
                        length == chunk_length(header),
                        data@ == long_data(blocks@, length as int, b as int),
                        remaining == if 2 * length >= 512 * b { 2 * length - 512 * b } else { 0 },
                    decreases blocks@.len() - b,
                {
                    proof {
                        lemma_long_data_step(blocks@, length as int, b as int);
                    }
                    if remaining >= 512 {
                        push_block_bytes(&mut data, blocks, b, 512);
                        remaining -= 512;
                    } else if remaining > 0 {
                        push_block_bytes(&mut data, blocks, b, remaining as usize);
                        remaining = 0;
                    }
                    b += 1;
                }
            },
        }
        MemFile { header, data }
    }
}

/// The blocks a chunk's header lists: its data blocks in short mode, and
/// in long mode as many address blocks as it has data blocks.
pub fn header_blocks(header: &Header) -> (v: Vec<Address>)
    requires
        header.blocks_number <= SHORT_MODE_LIMIT,
    ensures
        v@ == header.blocks@.take(header.blocks_number as int),
{
    let mut v: Vec<Address> = Vec::new();
    let mut i: usize = 0;
    while i < header.blocks_number as usize
        invariant
            i <= header.blocks_number <= 100,
            v@ == header.blocks@.take(i as int),
        decreases header.blocks_number - i,
    {
        v.push(header.blocks[i]);
        assert(v@ =~= header.blocks@.take(i + 1));
        i += 1;
    }
    v
}

/// Address `k` of the concatenated address blocks `tables`.
pub open spec fn listed_address(tables: Seq<LongFile>, k: int) -> Address {
    tables[k / 128].addresses@[k % 128]
}

/// The data blocks of a long-mode chunk with header `header`, read from
/// its address blocks `tables`: the first `ceil(chunk_length / 512)`
/// addresses they list, or all of them when they list fewer.
pub fn long_data_addresses(header: &Header, tables: &[LongFile]) -> (v: Vec<Address>)
    requires
        header.file_type == Type::Dir ==> header.length * 32 <= u32::MAX,
    ensures
        ({
            let nb = spec_div_ceil(chunk_length(*header), 512);
            let n = if nb < 128 * tables@.len() { nb } else { 128 * tables@.len() as int };
            v@ == Seq::new(n as nat, |k: int| listed_address(tables@, k))
        }),
{
    let length: u32 = match header.file_type {
        Type::File => header.length,
        Type::Dir => header.length * 32,
    };
    let nb_bloc = crate::filesystem::drivers::ustar::div_ceil(length, 512);
    let mut v: Vec<Address> = Vec::new();
    let mut counter: u32 = 0;
    let mut i: usize = 0;
    while i < tables.len()
        invariant
            i <= tables@.len(),
            nb_bloc == spec_div_ceil(chunk_length(*header), 512),
            counter == if nb_bloc < 128 * i { nb_bloc as int } else { 128 * i as int },
            v@ == Seq::new(counter as nat, |k: int| listed_address(tables@, k)),
        decreases tables@.len() - i,
    {
        let mut j: usize = 0;
        while j < 128
            invariant_except_break
                j <= 128,
                i < tables@.len(),
                nb_bloc < 128 * i ==> counter == nb_bloc && j == 0,
                nb_bloc >= 128 * i ==> counter == 128 * i + j && counter <= nb_bloc,
                v@ == Seq::new(counter as nat, |k: int| listed_address(tables@, k)),
            ensures
                counter == if nb_bloc < 128 * (i + 1) { nb_bloc as int } else { 128 * (i + 1) as int },
                v@ == Seq::new(counter as nat, |k: int| listed_address(tables@, k)),
            decreases 128 - j,
        {
            if counter >= nb_bloc {
                break;
            }
            proof {
                vstd::arithmetic::div_mod::lemma_fundamental_div_mod_converse(128 * i + j, 128, i as int, j as int);
            }
            v.push(tables[i].addresses[j]);
            assert(v@ =~= Seq::new((counter + 1) as nat, |k: int| listed_address(tables@, k)));
            counter += 1;
            j += 1;
        }
        i += 1;
    }
    v
}

/// The characters that `String::from_utf8_lossy` makes of `bytes`.
pub uninterp spec fn utf8_lossy(bytes: Seq<u8>) -> Seq<char>;

/// `String::from_utf8_lossy`, taken as an owned string: the characters
/// `bytes` encode in UTF-8, each invalid sequence replaced by U+FFFD. An
/// ASCII byte is a character of its own, so ASCII bytes give their own
/// characters; of other bytes only the name is stated.
#[verifier::external_body]
fn string_from_utf8_lossy(bytes: &[u8]) -> (s: String)
    ensures
        s@ == utf8_lossy(bytes@),
        (forall|i: int| 0 <= i < bytes@.len() ==> #[trigger] bytes@[i] < 128) ==> s@ == bytes@.map_values(
            |b: u8| b as char,
        ),
{
    String::from_utf8_lossy(bytes).into_owned()
}

/// The bytes of `s` before its first zero.
pub open spec fn until_zero(s: Seq<u8>) -> Seq<u8>
    decreases s.len(),
{
    if s.len() == 0 {
        s
    } else if s[0] == 0 {
        Seq::empty()
    } else {
        seq![s[0]] + until_zero(s.drop_first())
    }
}

/// A prefix free of zeros followed by a zero, or by nothing, is what
/// comes before the first zero.
proof fn lemma_until_zero(s: Seq<u8>, k: int)
    requires
        0 <= k <= s.len(),
        forall|i: int| 0 <= i < k ==> #[trigger] s[i] != 0,
        k == s.len() || s[k] == 0,
    ensures
        until_zero(s) == s.take(k),
    decreases s.len(),
{
    if s.len() == 0 {
    } else if k == 0 {
        assert(s.take(0) =~= Seq::<u8>::empty());
    } else {
        let t = s.drop_first();
        assert forall|i: int| 0 <= i < k - 1 implies #[trigger] t[i] != 0 by {
            assert(t[i] == s[i + 1]);
        }
        lemma_until_zero(t, k - 1);
        assert(s.take(k) =~= seq![s[0]] + t.take(k - 1));
    }
}

/// Name of entry `i` of a directory's data: the bytes of the entry's first
/// 28 before a zero, decoded as UTF-8.
pub open spec fn dir_entry_name(data: Seq<u8>, i: int) -> Seq<char> {
    utf8_lossy(until_zero(data.subrange(32 * i, 32 * i + 28)))
}

/// Address of entry `i` of a directory's data: its last four bytes, the
/// segment then the sector, high byte first.
pub open spec fn dir_entry_address(data: Seq<u8>, i: int) -> Address {
    Address {
        lba: (data[32 * i + 28] as int * 256 + data[32 * i + 29] as int) as u16,
        block: (data[32 * i + 30] as int * 256 + data[32 * i + 31] as int) as u16,
    }
}

/// The 512 bytes a data block reads back as, each word giving its high
/// byte, then its low byte.
pub open spec fn block_data(fb: FileBlock) -> Seq<u8> {
    Seq::new(512, |j: int| block_byte(seq![fb], j))
}

proof fn lemma_dir_address_read_back_at(fb: FileBlock, entries: Seq<([u8; 28], Address)>, i: int)
    requires
        entries.len() == 16,
        fb.data@ == sector_words(encode_dir_block(entries)),
        0 <= i < 16,
    ensures
        dir_entry_address(block_data(fb), i) == entries[i].1,
{
    let data = block_data(fb);
    let enc = encode_dir_block(entries);
    let a = entries[i].1;
    let (l0, l1) = (byte_of(a.lba as u64, 0), byte_of(a.lba as u64, 1));
    let (k0, k1) = (byte_of(a.block as u64, 0), byte_of(a.block as u64, 1));
    assert((32 * i + 28) / 32 == i && (32 * i + 28) % 32 == 28);
    assert((32 * i + 29) / 32 == i && (32 * i + 29) % 32 == 29);
    assert((32 * i + 30) / 32 == i && (32 * i + 30) % 32 == 30);
    assert((32 * i + 31) / 32 == i && (32 * i + 31) % 32 == 31);
    assert(enc[32 * i + 28] == l0 && enc[32 * i + 29] == l1);
    assert(enc[32 * i + 30] == k0 && enc[32 * i + 31] == k1);
    assert(fb.data@[16 * i + 14] == le16(l0, l1));
    assert(fb.data@[16 * i + 15] == le16(k0, k1));
    lemma_le16(a.lba, l0, l1);
    lemma_le16(a.block, k0, k1);
    assert(data[32 * i + 28] == l1 && data[32 * i + 29] == l0);
    assert(data[32 * i + 30] == k1 && data[32 * i + 31] == k0);
}

/// A directory sector written from its entries and read back as file data
/// (each word giving its high byte, then its low byte) gives every entry's
/// address back: its segment and its sector.
pub proof fn lemma_dir_addresses_read_back(fb: FileBlock, entries: Seq<([u8; 28], Address)>)
    requires
        entries.len() == 16,
        fb.data@ == sector_words(encode_dir_block(entries)),
    ensures
        forall|i: int|
            0 <= i < 16 ==> #[trigger] dir_entry_address(block_data(fb), i)
                == entries[i].1,
{
    assert forall|i: int| 0 <= i < 16 implies #[trigger] dir_entry_address(block_data(fb), i) == entries[i].1 by {
        lemma_dir_address_read_back_at(fb, entries, i);
    }
}

/// The names of the first `n` entries of a directory's data with their
/// addresses; a name met again keeps its first address.
pub open spec fn dir_files(data: Seq<u8>, n: nat) -> Map<Seq<char>, Address>
    decreases n,
{
    if n == 0 {
        Map::empty()
    } else {
        let m = dir_files(data, (n - 1) as nat);
        let k = dir_entry_name(data, n - 1);
        if m.contains_key(k) {
            m
        } else {
            m.insert(k, dir_entry_address(data, n - 1))
        }
    }
}

/// Number of entries a directory header announces, counted as the length
/// doubled on 32 bits, then halved.
pub open spec fn dir_entry_count(h: Header) -> int {
    ((h.length << 1u32) as int) / 2
}

/// The name a header holds: its bytes before the first zero, one character
/// each.
pub open spec fn header_name(h: Header) -> Seq<char> {
    until_zero(h.name@).map_values(|b: u8| b as char)
}

/// A directory in memory: its name, the address of its header, and its
/// entries, each name with the address of the chunk it names.
#[derive(Debug, Clone)]
pub struct MemDir {
    name: String,
    address: Address,
    files: Vec<(String, Address)>,
}

impl MemDir {
    /// The directory's name.
    pub closed spec fn spec_name(&self) -> Seq<char> {
        self.name@
    }

    /// Address of the directory's header.
    pub closed spec fn spec_address(&self) -> Address {
        self.address
    }

    /// The entries: names and the addresses they lead to.
    pub closed spec fn spec_files(&self) -> Map<Seq<char>, Address> {
        Map::new(
            |k: Seq<char>| exists|j: int| 0 <= j < self.files@.len() && (#[trigger] self.files@[j]).0@ == k,
            |k: Seq<char>| self.files@[choose|j: int| 0 <= j < self.files@.len() && (#[trigger] self.files@[j]).0@ == k].1,
        )
    }

    /// No name is listed twice.
    pub closed spec fn wf(&self) -> bool {
        forall|i: int, j: int| 0 <= i < j < self.files@.len() ==> (#[trigger] self.files@[i]).0@ != (#[trigger] self.files@[j]).0@
    }

    /// A copy of the directory.
    pub fn duplicate(&self) -> (d: MemDir)
        ensures
            d.spec_name() == self.spec_name(),
            d.spec_address() == self.spec_address(),
            d.spec_files() == self.spec_files(),
            self.wf() ==> d.wf(),
    {
        let mut files: Vec<(String, Address)> = Vec::new();
        let mut i: usize = 0;
        while i < self.files.len()
            invariant
                i <= self.files@.len(),
                files@ == self.files@.take(i as int),
            decreases self.files@.len() - i,
        {
            let entry = (self.files[i].0.clone(), self.files[i].1);
            files.push(entry);
            assert(files@ =~= self.files@.take(i + 1));
            i += 1;
        }
        assert(files@ =~= self.files@);
        let d = MemDir { name: self.name.clone(), address: self.address, files };
        assert(d.spec_files() =~= self.spec_files());
        d
    }

    /// Address of the directory's header.
    pub fn address(&self) -> (a: Address)
        ensures
            a == self.spec_address(),
    {
        self.address
    }

    /// The address entry `name` leads to, if the directory has one.
    pub fn get(&self, name: &String) -> (r: Option<Address>)
        requires
            self.wf(),
        ensures
            r == if self.spec_files().contains_key(name@) {
                Some(self.spec_files()[name@])
            } else {
                None::<Address>
            },
    {
        let mut j: usize = 0;
        while j < self.files.len()
            invariant
                self.wf(),
                j <= self.files@.len(),
                forall|k: int| 0 <= k < j ==> (#[trigger] self.files@[k]).0@ != name@,
            decreases self.files@.len() - j,
        {
            if self.files[j].0 == *name {
                proof {
                    assert(self.spec_files().contains_key(name@));
                    let c = choose|c: int| 0 <= c < self.files@.len() && (#[trigger] self.files@[c]).0@ == name@;
                    if c != j {
                        if c < j {
                            assert(self.files@[c].0@ != self.files@[j as int].0@);
                        } else {
                            assert(self.files@[j as int].0@ != self.files@[c].0@);
                        }
                    }
                }
                return Some(self.files[j].1);
            }
            j += 1;
        }
        None
    }

    /// The directory a chunk read from `address` holds; `InvalidMode` when
    /// the chunk is not a directory. Its name is the header's; its entries
    /// are those `dir_files` reads from the data, as many as
    /// `dir_entry_count` says.
    pub fn from_memfile(file: MemFile, address: Address) -> (r: Result<MemDir, UsTarError>)
        requires
            file.header.file_type == Type::Dir ==> file.data@.len() >= 32 * dir_entry_count(file.header),
        ensures
            file.header.file_type != Type::Dir ==> r == Err::<MemDir, UsTarError>(UsTarError::InvalidMode),
            file.header.file_type == Type::Dir ==> (r matches Ok(d) && {
                &&& d.wf()
                &&& d.spec_name() == header_name(file.header)
                &&& d.spec_address() == address
                &&& d.spec_files() == dir_files(file.data@, dir_entry_count(file.header) as nat)
            }),
    {
        let data = file.data;
        let len = (file.header.length << 1) as usize;
        if file.header.file_type != Type::Dir {
            return Err(UsTarError::InvalidMode);
        }
        let mut files: Vec<(String, Address)> = Vec::new();
        let dlen = data.len();
        let mut i: usize = 0;
        while i < len / 2
            invariant
                dlen == data@.len(),
                len / 2 == dir_entry_count(file.header),
                data@.len() >= 32 * (len / 2),
                i <= len / 2,
                forall|a: int, b: int| 0 <= a < b < files@.len() ==> (#[trigger] files@[a]).0@ != (#[trigger] files@[b]).0@,
                forall|k: Seq<char>| #![trigger dir_files(data@, i as nat).contains_key(k)]
                    dir_files(data@, i as nat).contains_key(k) <==> exists|j: int| 0 <= j < files@.len() && (#[trigger] files@[j]).0@ == k,
                forall|j: int| 0 <= j < files@.len() ==> dir_files(data@, i as nat)[(#[trigger] files@[j]).0@] == files@[j].1,
            decreases len / 2 - i,
        {
            assert(32 * i + 32 <= 32 * (len / 2)) by (nonlinear_arith)
                requires
                    i < len / 2,
            ;
            let mut name_vec: Vec<u8> = Vec::new();
            let mut itter: usize = 0;
            while itter < 28 && data[32 * i + itter] != 0
                invariant
                    i < len / 2,
                    dlen == data@.len(),
                    32 * i + 32 <= data@.len(),
                    itter <= 28,
                    name_vec@ == data@.subrange(32 * i, 32 * i + itter),
                    forall|t: int| 0 <= t < itter ==> #[trigger] data@[32 * i + t] != 0,
                decreases 28 - itter,
            {
                name_vec.push(data[32 * i + itter]);
                assert(name_vec@ =~= data@.subrange(32 * i, 32 * i + itter + 1));
                itter += 1;
            }
            proof {
                let e = data@.subrange(32 * i, 32 * i + 28);
                assert forall|t: int| 0 <= t < itter implies #[trigger] e[t] != 0 by {
                    assert(e[t] == data@[32 * i + t]);
                }
                lemma_until_zero(e, itter as int);
                assert(e.take(itter as int) =~= name_vec@);
            }
            let name = string_from_utf8_lossy(name_vec.as_slice());
            let x = data[32 * i + 28];
            let z = data[32 * i + 30];
            let lba_high = (x as u16) << 8;
            let block_high = (z as u16) << 8;
            assert(lba_high == (x as u16) * 256) by (bit_vector)
                requires
                    lba_high == (x as u16) << 8u16,
            ;
            assert(block_high == (z as u16) * 256) by (bit_vector)
                requires
                    block_high == (z as u16) << 8u16,
            ;
            let temp_address = Address {
                lba: lba_high + (data[32 * i + 29] as u16),
                block: block_high + (data[32 * i + 31] as u16),
            };
            assert(temp_address == dir_entry_address(data@, i as int));
            let mut found = false;
            let mut j: usize = 0;
            while j < files.len()
                invariant
                    j <= files@.len(),
                    !found ==> forall|k: int| 0 <= k < j ==> (#[trigger] files@[k]).0@ != name@,
                    found ==> exists|k: int| 0 <= k < files@.len() && (#[trigger] files@[k]).0@ == name@,
                decreases files@.len() - j,
            {
                if files[j].0 == name {
                    found = true;
                }
                j += 1;
            }
            let ghost prev = files@;
            if !found {
                files.push((name, temp_address));
            }
            proof {
                let k0 = dir_entry_name(data@, i as int);
                let m = dir_files(data@, i as nat);
                assert(k0 == name@);
                if found {
                    let j0 = choose|j: int| 0 <= j < prev.len() && (#[trigger] prev[j]).0@ == name@;
                    assert(m.contains_key(k0));
                    assert(dir_files(data@, (i + 1) as nat) == m);
                } else {
                    assert(!m.contains_key(k0)) by {
                        if m.contains_key(k0) {
                            let j = choose|j: int| 0 <= j < prev.len() && (#[trigger] prev[j]).0@ == k0;
                        }
                    }
                    assert(dir_files(data@, (i + 1) as nat) == m.insert(k0, temp_address));
                    assert(files@ == prev.push((name, temp_address)));
                    assert forall|a: int, b: int| 0 <= a < b < files@.len() implies (#[trigger] files@[a]).0@
                        != (#[trigger] files@[b]).0@ by {
                        if b == prev.len() {
                            assert(files@[a] == prev[a]);
                        } else {
                            assert(files@[a] == prev[a] && files@[b] == prev[b]);
                        }
                    }
                    assert forall|k: Seq<char>| #![trigger dir_files(data@, (i + 1) as nat).contains_key(k)]
                        dir_files(data@, (i + 1) as nat).contains_key(k) <==> exists|j: int| 0 <= j < files@.len()
                            && (#[trigger] files@[j]).0@ == k by {
                        if m.contains_key(k) {
                            let j = choose|j: int| 0 <= j < prev.len() && (#[trigger] prev[j]).0@ == k;
                            assert(files@[j] == prev[j]);
                        }
                        if k == k0 {
                            assert(files@[prev.len() as int].0@ == k);
                        }
                        if exists|j: int| 0 <= j < files@.len() && (#[trigger] files@[j]).0@ == k {
                            let j = choose|j: int| 0 <= j < files@.len() && (#[trigger] files@[j]).0@ == k;
                            if j < prev.len() {
                                assert(files@[j] == prev[j]);
                                assert(m.contains_key(k));
                            }
                        }
                    }
                    assert forall|j: int| 0 <= j < files@.len() implies dir_files(data@, (i + 1) as nat)[(#[trigger] files@[j]).0@]
                        == files@[j].1 by {
                        if j < prev.len() {
                            assert(files@[j] == prev[j]);
                            assert(m.contains_key(prev[j].0@));
                        }
                    }
                }
            }
            i += 1;
        }
        let mut name = String::new();
        let mut itter: usize = 0;
        while itter < 32 && file.header.name[itter] != 0
            invariant
                itter <= 32,
                name@ == file.header.name@.take(itter as int).map_values(|b: u8| b as char),
                forall|t: int| 0 <= t < itter ==> #[trigger] file.header.name@[t] != 0,
            decreases 32 - itter,
        {
            name.push(file.header.name[itter] as char);
            assert(name@ =~= file.header.name@.take(itter + 1).map_values(|b: u8| b as char));
            itter += 1;
        }
        proof {
            lemma_until_zero(file.header.name@, itter as int);
        }
        let d = MemDir { name, address, files };
        proof {
            assert(d.spec_files() =~= dir_files(data@, dir_entry_count(file.header) as nat));
        }
        Ok(d)
    }
}

/// What a read of `size` bytes at `offset` gets of a file's data: all of
/// it when `size` is `usize::MAX`, nothing from past the end, and what is
/// left when the end comes first.
pub open spec fn window_of(data: Seq<u8>, offset: int, size: int) -> Seq<u8> {
    if size == usize::MAX {
        data
    } else if offset >= data.len() {
        Seq::empty()
    } else if offset + size >= data.len() {
        data.skip(offset)
    } else {
        data.subrange(offset, offset + size)
    }
}

/// The bytes a read of `size` bytes at `offset` gets of a file's data, as
/// `window_of` says.
pub fn read_window(data: Vec<u8>, offset: usize, size: usize) -> (r: Vec<u8>)
    requires
        size != usize::MAX && offset < data@.len() ==> offset + size <= usize::MAX,
    ensures
        r@ == window_of(data@, offset as int, size as int),
{
    if size == usize::MAX {
        data
    } else if offset >= data.len() {
        Vec::new()
    } else if offset + size >= data.len() {
        vstd::slice::slice_to_vec(vstd::slice::slice_subrange(data.as_slice(), offset, data.len()))
    } else {
        vstd::slice::slice_to_vec(vstd::slice::slice_subrange(data.as_slice(), offset, offset + size))
    }
}

/// Whether `h` is the header the driver gives a new file named by the bytes
/// `name` (at most 32 of them), of `length` bytes, in the directory whose
/// header is at `parent`: identifiers 412, 666 and 7, every permission,
/// no block listed, the name padded with zeros, and the storage mode chosen
/// as the file's size asks: short when the file takes at most
/// `SHORT_MODE_LIMIT` blocks, long otherwise.
pub open spec fn is_new_file_header(h: Header, parent: Address, name: Seq<u8>, length: u32) -> bool {
    let bn = spec_div_ceil(length as int, 512);
    &&& h.user == UGOID(412)
    &&& h.owner == UGOID(666)
    &&& h.group == UGOID(7)
    &&& h.parent_address == parent
    &&& h.length == length
    &&& h.blocks_number == bn
    &&& h.blocks@ == Seq::new(100, |i: int| Address { lba: 0, block: 0 })
    &&& h.flags == (HeaderFlags { user_owner: 0xff, group_misc: 0xff })
    &&& h.mode == if bn > SHORT_MODE_LIMIT { FileMode::Long } else { FileMode::Short }
    &&& h.name@ == name + Seq::new((32 - name.len()) as nat, |i: int| 0u8)
    &&& h.file_type == Type::File
    &&& h.padding@ == Seq::new(40, |i: int| 0u8)
}

/// The tables once the sectors `blocks` are marked free, one after the
/// other.
pub open spec fn mark_free(tables: Seq<LBATableView>, blocks: Seq<Address>) -> Seq<LBATableView>
    decreases blocks.len(),
{
    if blocks.len() == 0 {
        tables
    } else {
        let a = blocks.last();
        let t = mark_free(tables, blocks.drop_last());
        t.update(a.lba as int, LBATableView { index: t[a.lba as int].index, data: t[a.lba as int].data.update(a.block as int, true) })
    }
}

/// Header `h` once a write made it `blocks_number` blocks and `length`
/// bytes long.
pub open spec fn resized(h: Header, blocks_number: u32, length: u32) -> Header {
    Header { blocks_number, length, ..h }
}

/// What writing `buffer` at byte `true_offset` of a short-mode file with
/// header `h` at `header_address` does: the sector writes, the global index
/// and the tables after. The data goes in whole blocks from block
/// `ceil(true_offset / 512)` on, into the sectors the header lists; the file then counts that many blocks and ends at
/// the end of the write. A write that does not make the file longer marks
/// the blocks it writes free; one that does takes as many new sectors as
/// the file gains blocks, without listing them.
pub open spec fn overwrite_plan(
    index: u32,
    tables: Seq<LBATableView>,
    h: Header,
    header_address: Address,
    buffer: Seq<u8>,
    true_offset: u32,
) -> Option<(Seq<(u32, Seq<u16>)>, u32, Seq<LBATableView>)> {
    let nbw = spec_div_ceil(buffer.len() as int, 512);
    let bo = spec_div_ceil(true_offset as int, 512);
    let nbn = bo + nbw;
    let new_size = true_offset + buffer.len();
    let data_w = data_images(buffer, h.blocks@.subrange(bo, bo + nbw));
    let hw = seq![(sector_of(header_address) as u32, sector_words(encode_header(resized(h, nbn as u32, new_size as u32))))];
    if new_size <= h.length {
        let t2 = mark_free(tables, h.blocks@.subrange(bo, nbn));
        Some((data_w + hw + table_images(t2), index, t2))
    } else {
        match alloc_from(index, tables, (nbn - h.blocks_number) as nat) {
            Some((s, i1, t1)) => Some((table_images(t1) + data_w + hw + table_images(t1), i1, t1)),
            None => None,
        }
    }
}

/// When `overwrite_file` can write `buffer` into the file with header `h`
/// at `header_address`: a short-mode file, a valid header address, a write
/// that fits in the file's hundred listed sectors and in 32 bits, listed
/// sectors where the data goes, a file that grows by at most one sector,
/// and room for the sectors it gains.
pub open spec fn overwrite_allowed(
    index: u32,
    tables: Seq<LBATableView>,
    h: Header,
    header_address: Address,
    buffer: Seq<u8>,
    offset: usize,
    append: bool,
) -> bool {
    let true_offset = if append { h.length } else { offset as u32 };
    let nbw = spec_div_ceil(buffer.len() as int, 512);
    let bo = spec_div_ceil(true_offset as int, 512);
    let new_size = true_offset + buffer.len();
    &&& h.mode == FileMode::Short
    &&& header_address.lba < 4 && header_address.block < 510
    &&& new_size <= u32::MAX
    &&& bo + nbw <= SHORT_MODE_LIMIT
    &&& forall|i: int| bo <= i < bo + nbw ==> (#[trigger] h.blocks@[i]).lba < 4 && h.blocks@[i].block < 510
    &&& new_size > h.length ==> {
        &&& new_size < 512 * SHORT_MODE_LIMIT
        &&& h.blocks_number <= bo + nbw <= h.blocks_number + 1
    }
    &&& overwrite_plan(index, tables, h, header_address, buffer, true_offset) is Some
}

/// What a write request on the disk does.
#[derive(Copy, Clone, Debug, PartialEq, Eq, Structural)]
pub enum WriteAction {
    /// The request is refused: -1.
    Refuse,
    /// A new file is created with the data.
    Create,
    /// The existing short-mode file is written.
    Overwrite,
    /// The existing file is in long mode, which cannot be written.
    LongMode,
}

/// What writing with `flags` does to the file at the path, `existing` being
/// the storage mode of the file there, if any: without the write flag the
/// request is refused; a missing file is created when the create flag is
/// set and the request refused otherwise; an existing file is written when
/// it is in short mode.
pub fn write_action(flags: &OpenFlags, existing: Option<FileMode>) -> (a: WriteAction)
    ensures
        flags@ & OWR != OWR ==> a == WriteAction::Refuse,
        flags@ & OWR == OWR ==> a == match existing {
            None => if flags@ & OCREAT == OCREAT {
                WriteAction::Create
            } else {
                WriteAction::Refuse
            },
            Some(FileMode::Short) => WriteAction::Overwrite,
            Some(FileMode::Long) => WriteAction::LongMode,
        },
{
    if !flags.contains(OWR) {
        return WriteAction::Refuse;
    }
    match existing {
        None => {
            if flags.contains(OCREAT) {
                WriteAction::Create
            } else {
                WriteAction::Refuse
            }
        },
        Some(FileMode::Short) => WriteAction::Overwrite,
        Some(FileMode::Long) => WriteAction::LongMode,
    }
}

/// Number of the sector at `a`, computed on 16 bits.
fn sector_number(a: Address) -> (r: u32)
    requires
        a.lba < 4,
        a.block < 510,
    ensures
        r == sector_of(a),
{
    (a.lba * 512 + a.block) as u32
}

/// Appends the writes `more` to `w`.
fn append_writes(w: &mut Vec<SectorWrite>, more: Vec<SectorWrite>)
    ensures
        writes_view(final(w)@) == writes_view(old(w)@) + writes_view(more@),
{
    let mut more = more;
    let ghost m = more@;
    w.append(&mut more);
    assert(writes_view(w@) =~= writes_view(old(w)@) + writes_view(m));
}

/// An allocation that succeeds gives `n` distinct sectors inside the
/// tables, each free before and used after, and tables of the same shape.
proof fn lemma_alloc_from(index: u32, tables: Seq<LBATableView>, n: nat)
    requires
        tables_shape(tables),
        alloc_from(index, tables, n) is Some,
    ensures
        ({
            let (s, i2, t2) = alloc_from(index, tables, n)->Some_0;
            &&& s.len() == n
            &&& tables_shape(t2)
            &&& forall|k: int| 0 <= k < s.len() ==> (#[trigger] s[k]).lba < 4 && s[k].block < 510
            &&& forall|k: int| 0 <= k < s.len() ==> is_free(tables, #[trigger] s[k]) && !is_free(t2, s[k])
            &&& forall|i: int, j: int| 0 <= i < j < s.len() ==> #[trigger] s[i] != #[trigger] s[j]
            &&& forall|a: Address| a.lba < 4 && a.block < 510 && !s.contains(a) ==> #[trigger] is_free(t2, a) == is_free(tables, a)
        }),
{
    lemma_alloc_scan_takes_free(index, tables, index as int, tables[index as int].index as int, n);
}

/// Sector `n` is one of the four table sectors, or the sector of an
/// address that was free in `before` and is used in `after`.
pub open spec fn reserved_sector(n: u32, before: Seq<LBATableView>, after: Seq<LBATableView>) -> bool {
    ||| n % 512 == 0 && n < 2048
    ||| exists|a: Address|
        #![trigger sector_of(a), is_free(before, a)]
        a.lba < 4 && a.block < 510 && is_free(before, a) && !is_free(after, a) && n == sector_of(a)
}

/// Writing a chunk touches only the table sectors and sectors it has just
/// taken: every sector the plan writes, and the header's, is a table
/// sector or was free before and is used after.
pub proof fn lemma_plan_writes_reserved(index: u32, tables: Seq<LBATableView>, h: Header, data: Seq<u8>)
    requires
        tables_shape(tables),
        memfile_plan(index, tables, h, data) is Some,
    ensures
        ({
            let (a, ws, i2, t2) = memfile_plan(index, tables, h, data)->Some_0;
            &&& reserved_sector(sector_of(a) as u32, tables, t2)
            &&& forall|k: int| 0 <= k < ws.len() ==> reserved_sector(#[trigger] ws[k].0, tables, t2)
        }),
{
    let bn = h.blocks_number as nat;
    lemma_alloc_from(index, tables, 1);
    let (hs, i1, t1) = alloc_from(index, tables, 1)->Some_0;
    let hx = hs[0];
    assert(sector_of(hx) < 2048);
    match h.mode {
        FileMode::Short => {
            lemma_alloc_from(i1, t1, bn);
            let (bs, i2, t2) = alloc_from(i1, t1, bn)->Some_0;
            assert(!bs.contains(hx)) by {
                if bs.contains(hx) {
                    let j = choose|j: int| 0 <= j < bs.len() && bs[j] == hx;
                    assert(is_free(t1, bs[j]));
                }
            }
            assert(reserved_sector(sector_of(hx) as u32, tables, t2)) by {
                assert(is_free(tables, hx) && !is_free(t2, hx));
            }
            let ws = memfile_plan(index, tables, h, data)->Some_0.1;
            let di = data_images(data, bs);
            assert(ws == table_images(t1) + table_images(t2) + seq![(sector_of(hx) as u32, header_image(h, bs))] + di
                + table_images(t2));
            assert forall|k: int| 0 <= k < ws.len() implies reserved_sector(#[trigger] ws[k].0, tables, t2) by {
                if k < 4 {
                    assert(ws[k].0 == 512 * k);
                } else if k < 8 {
                    assert(ws[k].0 == 512 * (k - 4));
                } else if k == 8 {
                } else if k < 9 + di.len() {
                    let j = k - 9;
                    let x = bs[j];
                    assert(ws[k] == di[j]);
                    assert(x.lba < 4 && x.block < 510);
                    assert(x != hx);
                    assert(is_free(t1, x) == is_free(tables, x));
                    assert(is_free(tables, x) && !is_free(t2, x));
                    assert(sector_of(x) < 2048);
                } else {
                    assert(ws[k].0 == 512 * (k - 9 - di.len()));
                }
            }
        },
        FileMode::Long => {
            let nab = spec_div_ceil(bn as int, 128) as nat;
            lemma_alloc_from(i1, t1, nab);
            let (abs, i2, t2) = alloc_from(i1, t1, nab)->Some_0;
            lemma_alloc_from(i2, t2, bn);
            let (ds, i3, t3) = alloc_from(i2, t2, bn)->Some_0;
            assert(!abs.contains(hx)) by {
                if abs.contains(hx) {
                    let j = choose|j: int| 0 <= j < abs.len() && abs[j] == hx;
                    assert(is_free(t1, abs[j]));
                }
            }
            assert(!ds.contains(hx)) by {
                if ds.contains(hx) {
                    let j = choose|j: int| 0 <= j < ds.len() && ds[j] == hx;
                    assert(is_free(t2, ds[j]));
                }
            }
            assert(reserved_sector(sector_of(hx) as u32, tables, t3)) by {
                assert(is_free(tables, hx) && !is_free(t3, hx));
            }
            let ws = memfile_plan(index, tables, h, data)->Some_0.1;
            let ai = address_block_images(abs, ds);
            let di = data_images(data, ds);
            assert(ws == table_images(t1) + table_images(t2) + table_images(t3) + seq![(sector_of(hx) as u32, header_image(h, abs))]
                + ai + di + table_images(t3));
            assert forall|k: int| 0 <= k < ws.len() implies reserved_sector(#[trigger] ws[k].0, tables, t3) by {
                if k < 4 {
                    assert(ws[k].0 == 512 * k);
                } else if k < 8 {
                    assert(ws[k].0 == 512 * (k - 4));
                } else if k < 12 {
                    assert(ws[k].0 == 512 * (k - 8));
                } else if k == 12 {
                } else if k < 13 + ai.len() {
                    let j = k - 13;
                    let x = abs[j];
                    assert(ws[k] == ai[j]);
                    assert(x.lba < 4 && x.block < 510);
                    assert(x != hx);
                    assert(!ds.contains(x)) by {
                        if ds.contains(x) {
                            let m = choose|m: int| 0 <= m < ds.len() && ds[m] == x;
                            assert(is_free(t2, ds[m]));
                        }
                    }
                    assert(is_free(t1, x) == is_free(tables, x));
                    assert(is_free(t3, x) == is_free(t2, x));
                    assert(sector_of(x) < 2048);
                } else if k < 13 + ai.len() + di.len() {
                    let j = k - 13 - ai.len();
                    let x = ds[j];
                    assert(ws[k] == di[j]);
                    assert(x.lba < 4 && x.block < 510);
                    assert(x != hx);
                    assert(!abs.contains(x)) by {
                        if abs.contains(x) {
                            let m = choose|m: int| 0 <= m < abs.len() && abs[m] == x;
                            assert(!is_free(t2, abs[m]));
                        }
                    }
                    assert(is_free(t2, x) == is_free(t1, x));
                    assert(is_free(t1, x) == is_free(tables, x));
                    assert(sector_of(x) < 2048);
                } else {
                    assert(ws[k].0 == 512 * (k - 13 - ai.len() - di.len()));
                }
            }
        },
    }
}

/// What sector `n` holds after the writes `ws`: the words of the last write
/// to it, `None` when none writes it.
pub open spec fn sector_after(ws: Seq<(u32, Seq<u16>)>, n: u32) -> Option<Seq<u16>>
    decreases ws.len(),
{
    if ws.len() == 0 {
        None
    } else if ws.last().0 == n {
        Some(ws.last().1)
    } else {
        sector_after(ws.drop_last(), n)
    }
}

/// After two runs of writes, a sector holds what the second run last wrote
/// to it, or else what the first did.
proof fn lemma_sector_after_concat(a: Seq<(u32, Seq<u16>)>, b: Seq<(u32, Seq<u16>)>, n: u32)
    ensures
        sector_after(a + b, n) == if sector_after(b, n) is Some {
            sector_after(b, n)
        } else {
            sector_after(a, n)
        },
    decreases b.len(),
{
    if b.len() == 0 {
        assert(a + b =~= a);
    } else {
        assert((a + b).drop_last() =~= a + b.drop_last());
        assert((a + b).last() == b.last());
        lemma_sector_after_concat(a, b.drop_last(), n);
    }
}

/// Writes to pairwise different sectors: each sector holds what was
/// written to it, and no other sector is written.
proof fn lemma_sector_after_distinct(ws: Seq<(u32, Seq<u16>)>, n: u32)
    requires
        forall|i: int, j: int| 0 <= i < j < ws.len() ==> #[trigger] ws[i].0 != #[trigger] ws[j].0,
    ensures
        forall|k: int| 0 <= k < ws.len() && ws[k].0 == n ==> sector_after(ws, n) == Some(#[trigger] ws[k].1),
        (forall|k: int| 0 <= k < ws.len() ==> #[trigger] ws[k].0 != n) ==> sector_after(ws, n) is None,
    decreases ws.len(),
{
    if ws.len() > 0 {
        let w = ws.drop_last();
        assert forall|i: int, j: int| 0 <= i < j < w.len() implies #[trigger] w[i].0 != #[trigger] w[j].0 by {
            assert(w[i] == ws[i] && w[j] == ws[j]);
        }
        lemma_sector_after_distinct(w, n);
        assert forall|k: int| 0 <= k < ws.len() && ws[k].0 == n implies sector_after(ws, n) == Some(#[trigger] ws[k].1) by {
            if k < ws.len() - 1 {
                assert(w[k] == ws[k]);
                assert(ws[k].0 != ws[ws.len() - 1].0);
            }
        }
        if forall|k: int| 0 <= k < ws.len() ==> #[trigger] ws[k].0 != n {
            assert forall|k: int| 0 <= k < w.len() implies #[trigger] w[k].0 != n by {
                assert(w[k] == ws[k]);
            }
            assert(ws[ws.len() - 1].0 != n);
        }
    }
}

/// No table write reaches a sector that is not a multiple of 512.
proof fn lemma_sector_after_tables(t: Seq<LBATableView>, n: u32)
    requires
        n % 512 != 0,
    ensures
        sector_after(table_images(t), n) is None,
{
    let ws = table_images(t);
    assert forall|i: int, j: int| 0 <= i < j < ws.len() implies #[trigger] ws[i].0 != #[trigger] ws[j].0 by {}
    lemma_sector_after_distinct(ws, n);
}

/// A short-mode file written as a new chunk, on tables whose sector 0 of
/// each segment is used (it holds the segment's table), reads back as it
/// was written. Its header sector holds a valid header image, which lists
/// the data sectors; see `lemma_short_chunk_reads_back` for the data.
pub proof fn lemma_short_chunk_header_written(index: u32, tables: Seq<LBATableView>, h: Header, data: Seq<u8>)
    requires
        tables_shape(tables),
        forall|l: int| 0 <= l < 4 ==> !(#[trigger] tables[l]).data[0],
        h.mode == FileMode::Short,
        h.file_type == Type::File,
        memfile_plan(index, tables, h, data) is Some,
    ensures
        ({
            let (a, ws, i2, t2) = memfile_plan(index, tables, h, data)->Some_0;
            &&& sector_after(ws, sector_of(a) as u32) is Some
            &&& valid_header_bytes(sector_bytes(sector_after(ws, sector_of(a) as u32)->Some_0))
        }),
{
    lemma_chunk_sectors(index, tables, h, data);
}

/// A short-mode file written as a new chunk reads back as it was written:
/// any header `h2` read from its header sector has the file's length, name,
/// mode and kind, and the blocks read from the sectors `h2` lists give
/// back the file's data.
pub proof fn lemma_short_chunk_reads_back(
    index: u32,
    tables: Seq<LBATableView>,
    h: Header,
    data: Seq<u8>,
    h2: Header,
    blocks: Seq<FileBlock>,
)
    requires
        tables_shape(tables),
        forall|l: int| 0 <= l < 4 ==> !(#[trigger] tables[l]).data[0],
        h.mode == FileMode::Short,
        h.file_type == Type::File,
        h.length == data.len(),
        h.blocks_number == spec_div_ceil(data.len() as int, 512),
        h.blocks_number <= SHORT_MODE_LIMIT,
        memfile_plan(index, tables, h, data) is Some,
        ({
            let (a, ws, i2, t2) = memfile_plan(index, tables, h, data)->Some_0;
            &&& encode_header(h2) == sector_bytes(sector_after(ws, sector_of(a) as u32)->Some_0)
            &&& blocks.len() == h2.blocks_number
            &&& forall|k: int| 0 <= k < blocks.len() ==> sector_after(ws, sector_of(h2.blocks@[k]) as u32) == Some(
                (#[trigger] blocks[k]).data@,
            )
        }),
    ensures
        h2.length == h.length,
        h2.name == h.name,
        h2.mode == h.mode,
        h2.file_type == h.file_type,
        h2.blocks_number == h.blocks_number,
        chunk_data(h2, blocks) == data,
{
    lemma_chunk_sectors(index, tables, h, data);
    let (hs, i1, t1) = alloc_from(index, tables, 1)->Some_0;
    let (bs, i2, t2) = alloc_from(i1, t1, h.blocks_number as nat)->Some_0;
    let (a, ws, i3, t3) = memfile_plan(index, tables, h, data)->Some_0;
    let img = Seq::new(512, |i: int| if 36 <= i < 436 {
        address_byte(window(bs, 0, 100), i - 36)
    } else {
        header_byte(h, i)
    });
    lemma_sector_roundtrip(img);
    assert(sector_after(ws, sector_of(a) as u32) == Some(header_image(h, bs)));
    lemma_header_fields_from_bytes(h, window(bs, 0, 100), h2);
    assert forall|k: int| 0 <= k < blocks.len() implies (#[trigger] blocks[k]).data@ == data_images(data, bs)[k].1 by {
        assert(h2.blocks@[k] == bs[k]);
    }
    lemma_short_data_roundtrip(data, bs, blocks);
}

/// Where a short-mode chunk's writes land: the header sector last holds
/// the header image listing the data sectors, each data sector last holds
/// its block of data, and these sectors are not table sectors.
proof fn lemma_chunk_sectors(index: u32, tables: Seq<LBATableView>, h: Header, data: Seq<u8>)
    requires
        tables_shape(tables),
        forall|l: int| 0 <= l < 4 ==> !(#[trigger] tables[l]).data[0],
        h.mode == FileMode::Short,
        memfile_plan(index, tables, h, data) is Some,
    ensures
        ({
            let (hs, i1, t1) = alloc_from(index, tables, 1)->Some_0;
            let (bs, i2, t2) = alloc_from(i1, t1, h.blocks_number as nat)->Some_0;
            let (a, ws, i3, t3) = memfile_plan(index, tables, h, data)->Some_0;
            &&& a == hs[0]
            &&& bs.len() == h.blocks_number
            &&& sector_after(ws, sector_of(a) as u32) == Some(header_image(h, bs))
            &&& valid_header_bytes(sector_bytes(header_image(h, bs)))
            &&& forall|k: int| 0 <= k < bs.len() ==> sector_after(ws, #[trigger] sector_of(bs[k]) as u32) == Some(
                data_images(data, bs)[k].1,
            )
        }),
{
    let bn = h.blocks_number as nat;
    lemma_alloc_from(index, tables, 1);
    let (hs, i1, t1) = alloc_from(index, tables, 1)->Some_0;
    lemma_alloc_from(i1, t1, bn);
    let (bs, i2, t2) = alloc_from(i1, t1, bn)->Some_0;
    let hx = hs[0];
    let (a, ws, i3, t3) = memfile_plan(index, tables, h, data)->Some_0;
    let di = data_images(data, bs);
    let hw = seq![(sector_of(hx) as u32, header_image(h, bs))];
    assert(ws == table_images(t1) + table_images(t2) + hw + di + table_images(t2));
    assert(hx.block != 0) by {
        assert(is_free(tables, hx));
    }
    assert forall|k: int| 0 <= k < bs.len() implies (#[trigger] bs[k]).block != 0 && bs[k] != hx by {
        assert(is_free(t1, bs[k]));
        if bs[k].block == 0 {
            assert(is_free(t1, bs[k]) == is_free(tables, bs[k]));
        }
    }
    assert forall|i: int, j: int| 0 <= i < j < di.len() implies #[trigger] di[i].0 != #[trigger] di[j].0 by {
        assert(bs[i] != bs[j]);
    }
    let img = Seq::new(512, |i: int| if 36 <= i < 436 {
        address_byte(window(bs, 0, 100), i - 36)
    } else {
        header_byte(h, i)
    });
    lemma_sector_roundtrip(img);
    assert(img[438] == mode_byte(h.mode) && img[471] == type_byte(h.file_type));
    // the header sector
    let n0 = sector_of(hx) as u32;
    lemma_sector_after_tables(t2, n0);
    lemma_sector_after_distinct(di, n0);
    assert forall|k: int| 0 <= k < di.len() implies #[trigger] di[k].0 != n0 by {
        assert(bs[k] != hx);
    }
    lemma_sector_after_concat(table_images(t1) + table_images(t2) + hw + di, table_images(t2), n0);
    lemma_sector_after_concat(table_images(t1) + table_images(t2) + hw, di, n0);
    lemma_sector_after_concat(table_images(t1) + table_images(t2), hw, n0);
    assert(sector_after(hw, n0) == Some(header_image(h, bs))) by {
        assert(hw.drop_last() =~= Seq::<(u32, Seq<u16>)>::empty());
    }
    // the data sectors
    assert forall|k: int| 0 <= k < bs.len() implies sector_after(ws, #[trigger] sector_of(bs[k]) as u32) == Some(
        di[k].1,
    ) by {
        let n = sector_of(bs[k]) as u32;
        lemma_sector_after_tables(t2, n);
        lemma_sector_after_distinct(di, n);
        assert(di[k].0 == n);
        lemma_sector_after_concat(table_images(t1) + table_images(t2) + hw + di, table_images(t2), n);
        lemma_sector_after_concat(table_images(t1) + table_images(t2) + hw, di, n);
    }
}

/// The file system on a disk: the disk's I/O port and the sector allocation
/// tables of its segments.
pub struct UsTar {
    port: u16,
    lba_table_global: LBATableGlobal,
}

impl UsTar {
    /// I/O port of the disk.
    pub closed spec fn spec_port(&self) -> u16 {
        self.port
    }

    /// The segment the allocator searches first.
    pub closed spec fn spec_alloc_index(&self) -> u32 {
        self.lba_table_global.spec_index()
    }

    /// The allocation tables of the segments.
    pub closed spec fn spec_tables(&self) -> Seq<LBATableView> {
        self.lba_table_global.spec_tables()
    }

    /// The file system on the disk at `port`, with allocation tables `table`
    /// as read from the disk.
    pub fn from_parts(port: u16, table: LBATableGlobal) -> (u: Self)
        ensures
            u.spec_port() == port,
            u.spec_alloc_index() == table.spec_index(),
            u.spec_tables() == table.spec_tables(),
    {
        UsTar { port, lba_table_global: table }
    }

    /// Every path opens, as file 1.
    pub fn open(&mut self, path: &Path) -> (r: Option<usize>)
        ensures
            r == Some(1usize),
    {
        Some(1)
    }

    /// Closing a file does nothing.
    pub fn close(&mut self, path: &Path) -> (r: bool)
        ensures
            !r,
    {
        false
    }

    /// The file system takes no parameter.
    pub fn give_param(&mut self, path: &Path, param: usize) -> (r: usize)
        ensures
            r == usize::MAX,
    {
        usize::MAX
    }

    /// I/O port of the disk.
    pub fn port(&self) -> (p: u16)
        ensures
            p == self.spec_port(),
    {
        self.port
    }

    /// Takes `n` free sectors for a new chunk, searching as `alloc_from`
    /// says, and marks them used. Returns them with the sector writes that
    /// put the tables back on the disk.
    pub fn get_addresses(&mut self, n: u32) -> (r: (Vec<Address>, Vec<SectorWrite>))
        requires
            alloc_from(old(self).spec_alloc_index(), old(self).spec_tables(), n as nat) is Some,
        ensures
            ({
                let (s, i2, t2) = alloc_from(old(self).spec_alloc_index(), old(self).spec_tables(), n as nat)->Some_0;
                &&& r.0@ == s
                &&& writes_view(r.1@) == table_images(t2)
                &&& final(self).spec_alloc_index() == i2
                &&& final(self).spec_tables() == t2
            }),
            final(self).spec_port() == old(self).spec_port(),
    {
        let ghost total = alloc_from(self.spec_alloc_index(), self.spec_tables(), n as nat)->Some_0;
        let mut index: u32 = 0;
        let mut res: Vec<Address> = Vec::new();
        let mut current_lba: usize = self.lba_table_global.get_index() as usize;
        let mut current_block: usize = self.lba_table_global.get_lba_index(current_lba as u32) as usize;
        while index < n
            invariant
                index <= n,
                self.port == old(self).port,
                alloc_scan(self.spec_alloc_index(), self.spec_tables(), current_lba as int, current_block as int, (n - index) as nat) matches Some(r)
                    && res@ + r.0 == total.0 && r.1 == total.1 && r.2 == total.2,
            decreases 4 - current_lba, 510 - current_block, n - index,
        {
            let ghost tables0 = self.spec_tables();
            proof {
                self.lba_table_global.lemma_shape();
            }
            if self.lba_table_global.is_lba_available(current_lba as u32) {
                if self.lba_table_global.is_available(current_lba as u32, current_block as u32) {
                    res.push(Address { lba: current_lba as u16, block: current_block as u16 });
                    self.lba_table_global.mark_unavailable(current_lba as u32, current_block as u32);
                    index += 1;
                    let i = self.lba_table_global.get_lba_index(current_lba as u32);
                    let ni: u16 = if i < 510 { i + 1 } else { 510 };
                    self.lba_table_global.set_lba_index(current_lba as u32, ni);
                    assert(self.spec_tables() =~= take_block(tables0, current_lba as int, current_block as int));
                } else {
                    self.lba_table_global.set_lba_index(current_lba as u32, (current_block + 1) as u16);
                    current_block += 1;
                }
            } else {
                self.lba_table_global.set_index((current_lba + 1) as u32);
                current_lba += 1;
                current_block = self.lba_table_global.get_lba_index(self.lba_table_global.get_index()) as usize;
            }
        }
        let w = self.lba_table_global.write_to_disk();
        (res, w)
    }

    /// Whether the allocator finds `n` free sectors from where it stands:
    /// the search of `get_addresses`, run without taking anything.
    pub fn can_allocate(&self, n: u32) -> (b: bool)
        ensures
            b == (alloc_from(self.spec_alloc_index(), self.spec_tables(), n as nat) is Some),
    {
        let mut g = self.lba_table_global;
        proof {
            g.lemma_shape();
        }
        let idx = g.get_index();
        if idx >= 4 {
            return false;
        }
        let ghost goal = alloc_from(self.spec_alloc_index(), self.spec_tables(), n as nat) is Some;
        let mut index: u32 = 0;
        let mut lba: usize = idx as usize;
        let mut block: usize = g.get_lba_index(idx) as usize;
        loop
            invariant
                index <= n,
                lba <= 4,
                g.spec_tables().len() == 4,
                forall|l: int| 0 <= l < 4 ==> (#[trigger] g.spec_tables()[l]).data.len() == 510,
                (alloc_scan(g.spec_index(), g.spec_tables(), lba as int, block as int, (n - index) as nat) is Some)
                    == goal,
                goal == (alloc_from(self.spec_alloc_index(), self.spec_tables(), n as nat) is Some),
            decreases 4 - lba, 510 - block, n - index,
        {
            if index == n {
                return true;
            }
            if lba >= 4 {
                return false;
            }
            let ghost tables0 = g.spec_tables();
            if g.is_lba_available(lba as u32) {
                if block >= 510 {
                    return false;
                }
                if g.is_available(lba as u32, block as u32) {
                    g.mark_unavailable(lba as u32, block as u32);
                    index += 1;
                    let i = g.get_lba_index(lba as u32);
                    let ni: u16 = if i < 510 { i + 1 } else { 510 };
                    g.set_lba_index(lba as u32, ni);
                    assert(g.spec_tables() =~= take_block(tables0, lba as int, block as int));
                } else {
                    g.set_lba_index(lba as u32, (block + 1) as u16);
                    block += 1;
                }
            } else {
                let gi = g.get_index();
                if gi as u64 + lba as u64 + 1 > u32::MAX as u64 || gi as u64 + lba as u64 + 1 >= 4 {
                    return false;
                }
                g.set_index((lba + 1) as u32);
                lba += 1;
                block = g.get_lba_index(g.get_index()) as usize;
            }
        }
    }

    /// Whether a chunk in storage mode `mode` taking `blocks_number` data
    /// sectors can be written from where the allocator stands: whether
    /// `memfile_plan` is `Some` for every header of that mode and size.
    pub fn can_store(&self, mode: FileMode, blocks_number: u32) -> (b: bool)
        ensures
            forall|h: Header, d: Seq<u8>|
                h.mode == mode && h.blocks_number == blocks_number ==> (#[trigger] memfile_plan(
                    self.spec_alloc_index(),
                    self.spec_tables(),
                    h,
                    d,
                ) is Some) == b,
    {
        if !self.can_allocate(1) {
            return false;
        }
        let mut copy = UsTar { port: self.port, lba_table_global: self.lba_table_global };
        let _ = copy.get_addresses(1);
        match mode {
            FileMode::Short => copy.can_allocate(blocks_number),
            FileMode::Long => {
                let nab = div_ceil(blocks_number, 128);
                if !copy.can_allocate(nab) {
                    return false;
                }
                let _ = copy.get_addresses(nab);
                copy.can_allocate(blocks_number)
            },
        }
    }

    /// Whether a new file of `length` bytes can be written from where the
    /// allocator stands: whether `memfile_plan` is `Some` for every header
    /// `create_file` may make for it.
    pub fn can_create_file(&self, length: u32) -> (b: bool)
        ensures
            forall|h: Header, p: Address, nm: Seq<u8>, d: Seq<u8>|
                #![trigger is_new_file_header(h, p, nm, length), memfile_plan(self.spec_alloc_index(), self.spec_tables(), h, d)]
                is_new_file_header(h, p, nm, length) ==> (memfile_plan(
                    self.spec_alloc_index(),
                    self.spec_tables(),
                    h,
                    d,
                ) is Some) == b,
    {
        let blocks_number = div_ceil(length, 512);
        let mode = if blocks_number > SHORT_MODE_LIMIT {
            FileMode::Long
        } else {
            FileMode::Short
        };
        self.can_store(mode, blocks_number)
    }

    /// Whether `overwrite_file` can be called with these arguments, as
    /// `overwrite_allowed` says.
    pub fn can_overwrite_file(&self, file: &MemFile, header_address: Address, buffer: &[u8], offset: usize, append: bool)
        -> (b: bool)
        ensures
            b == overwrite_allowed(
                self.spec_alloc_index(),
                self.spec_tables(),
                file.header,
                header_address,
                buffer@,
                offset,
                append,
            ),
    {
        let h = &file.header;
        let is_short = match h.mode {
            FileMode::Short => true,
            FileMode::Long => false,
        };
        if !is_short || !(header_address.lba < 4 && header_address.block < 510) {
            return false;
        }
        let true_offset: u32 = if append {
            h.length
        } else {
            #[verifier::truncate]
            (offset as u32)
        };
        if buffer.len() > (u32::MAX - true_offset) as usize {
            return false;
        }
        let new_size: u32 = true_offset + buffer.len() as u32;
        let nbw = div_ceil(buffer.len() as u32, 512);
        let bo = div_ceil(true_offset, 512);
        if bo + nbw > SHORT_MODE_LIMIT {
            return false;
        }
        let mut i: u32 = bo;
        while i < bo + nbw
            invariant
                bo <= i <= bo + nbw <= SHORT_MODE_LIMIT,
                forall|k: int| bo <= k < i ==> (#[trigger] h.blocks@[k]).lba < 4 && h.blocks@[k].block < 510,
                *h == file.header,
                true_offset == if append { h.length } else { offset as u32 },
                bo == spec_div_ceil(true_offset as int, 512),
                nbw == spec_div_ceil(buffer@.len() as int, 512),
            decreases bo + nbw - i,
        {
            let a = h.blocks[i as usize];
            if !(a.lba < 4 && a.block < 510) {
                assert(h.blocks@[i as int] == a);
                return false;
            }
            i += 1;
        }
        if new_size > h.length {
            if !(new_size < 512 * SHORT_MODE_LIMIT && h.blocks_number <= bo + nbw && bo + nbw <= h.blocks_number
                + 1) {
                return false;
            }
            self.can_allocate(bo + nbw - h.blocks_number)
        } else {
            true
        }
    }

    /// Writes `memfile` as a new chunk: takes the sectors it needs and
    /// returns the address of its header with the sector writes to perform,
    /// in order, as `memfile_plan` says.
    pub fn write_memfile_to_disk(&mut self, memfile: &MemFile) -> (r: (Address, Vec<SectorWrite>))
        requires
            memfile.data@.len() <= u32::MAX,
            memfile.header.blocks_number <= spec_div_ceil(memfile.data@.len() as int, 512),
            memfile.header.mode == FileMode::Short ==> memfile.header.blocks_number <= SHORT_MODE_LIMIT,
            memfile.header.mode == FileMode::Long ==> spec_div_ceil(memfile.header.blocks_number as int, 128)
                <= SHORT_MODE_LIMIT,
            memfile_plan(old(self).spec_alloc_index(), old(self).spec_tables(), memfile.header, memfile.data@) is Some,
        ensures
            ({
                let (a, w, i2, t2) = memfile_plan(
                    old(self).spec_alloc_index(),
                    old(self).spec_tables(),
                    memfile.header,
                    memfile.data@,
                )->Some_0;
                &&& r.0 == a
                &&& writes_view(r.1@) == w
                &&& final(self).spec_alloc_index() == i2
                &&& final(self).spec_tables() == t2
            }),
            final(self).spec_port() == old(self).spec_port(),
    {
        let ghost idx0 = self.spec_alloc_index();
        let ghost tab0 = self.spec_tables();
        let mut file_header = memfile.header;
        let blocks_number = file_header.blocks_number;
        let mut writes: Vec<SectorWrite> = Vec::new();
        proof {
            self.lba_table_global.lemma_shape();
            lemma_alloc_from(idx0, tab0, 1);
        }
        let (hs, table_writes) = self.get_addresses(1);
        let header_address = hs[0];
        append_writes(&mut writes, table_writes);
        let ghost t1 = self.spec_tables();
        assert(writes_view(writes@) =~= table_images(t1));
        let ghost i1 = self.spec_alloc_index();
        match file_header.mode {
            FileMode::Short => {
                proof {
                    lemma_alloc_from(i1, t1, blocks_number as nat);
                }
                let (block_addresses, table_writes) = self.get_addresses(blocks_number);
                append_writes(&mut writes, table_writes);
                let mut addresses = [Address { lba: 0, block: 0 }; 100];
                let mut i: usize = 0;
                while i < blocks_number as usize
                    invariant
                        i <= blocks_number <= 100,
                        block_addresses@.len() == blocks_number,
                        forall|k: int| 0 <= k < i ==> #[trigger] addresses@[k] == block_addresses@[k],
                        forall|k: int| i <= k < 100 ==> #[trigger] addresses@[k] == (Address { lba: 0, block: 0 }),
                    decreases blocks_number - i,
                {
                    addresses[i] = block_addresses[i];
                    i += 1;
                }
                file_header.blocks = addresses;
                assert(file_header.blocks@ =~= window(block_addresses@, 0, 100));
                let image = file_header.to_u16_array();
                proof {
                    lemma_header_image(memfile.header, file_header, block_addresses@);
                }
                let ghost before_header = writes@;
                assert(writes_view(before_header) =~= table_images(t1) + table_images(self.spec_tables()));
                let hw = SectorWrite { lba: sector_number(header_address), data: image };
                writes.push(hw);
                assert(writes_view(writes@) =~= writes_view(before_header) + seq![(hw.lba, hw.data@)]);
                let blocks_to_write = slice_vec(&memfile.data);
                let mut i: usize = 0;
                while i < blocks_number as usize
                    invariant
                        i <= blocks_number,
                        block_addresses@.len() == blocks_number,
                        blocks_number <= blocks_to_write@.len(),
                        forall|k: int| 0 <= k < block_addresses@.len() ==> (#[trigger] block_addresses@[k]).lba < 4
                            && block_addresses@[k].block < 510,
                        forall|b: int, j: int| 0 <= b < blocks_to_write@.len() && 0 <= j < 256 ==>
                            #[trigger] blocks_to_write@[b]@[j] == spec_word_of(memfile.data@, 256 * b + j),
                        writes_view(writes@) == writes_view(before_header)
                            + seq![(sector_of(header_address) as u32, header_image(memfile.header, block_addresses@))]
                            + data_images(memfile.data@, block_addresses@).take(i as int),
                    decreases blocks_number - i,
                {
                    let ghost before = writes@;
                    let w = SectorWrite { lba: sector_number(block_addresses[i]), data: blocks_to_write[i] };
                    writes.push(w);
                    assert(writes_view(writes@) =~= writes_view(before).push((w.lba, w.data@)));
                    assert(blocks_to_write@[i as int]@ =~= Seq::new(256, |j: int| spec_word_of(memfile.data@, 256 * i + j)));
                    assert(writes_view(writes@) =~= writes_view(before_header)
                        + seq![(sector_of(header_address) as u32, header_image(memfile.header, block_addresses@))]
                        + data_images(memfile.data@, block_addresses@).take(i + 1));
                    i += 1;
                }
                assert(data_images(memfile.data@, block_addresses@).take(blocks_number as int)
                    =~= data_images(memfile.data@, block_addresses@));
                let ghost before_tables = writes@;
                append_writes(&mut writes, self.lba_table_global.write_to_disk());
                assert(writes_view(writes@) =~= table_images(t1) + table_images(self.spec_tables())
                    + seq![(sector_of(header_address) as u32, header_image(memfile.header, block_addresses@))]
                    + data_images(memfile.data@, block_addresses@) + table_images(self.spec_tables()));
                assert(alloc_from(idx0, tab0, 1) == Some((hs@, i1, t1)));
                assert(alloc_from(i1, t1, blocks_number as nat) == Some((block_addresses@, self.spec_alloc_index(), self.spec_tables())));
                assert(memfile_plan(idx0, tab0, memfile.header, memfile.data@) == Some((header_address, writes_view(writes@), self.spec_alloc_index(), self.spec_tables())));
                (header_address, writes)
            },
            FileMode::Long => {
                let number_address_block = blocks_number / 128 + if blocks_number % 128 == 0 { 0 } else { 1 };
                assert(number_address_block == spec_div_ceil(blocks_number as int, 128));
                proof {
                    lemma_alloc_from(i1, t1, number_address_block as nat);
                }
                let (address_block_addresses, table_writes) = self.get_addresses(number_address_block);
                append_writes(&mut writes, table_writes);
                let ghost t2 = self.spec_tables();
                let ghost i2 = self.spec_alloc_index();
                proof {
                    lemma_alloc_from(i2, t2, blocks_number as nat);
                }
                let (data_addresses, table_writes) = self.get_addresses(blocks_number);
                append_writes(&mut writes, table_writes);
                assert(writes_view(writes@) =~= table_images(t1) + table_images(t2) + table_images(self.spec_tables()));
                let mut addresses = [Address { lba: 0, block: 0 }; 100];
                let mut i: usize = 0;
                while i < number_address_block as usize
                    invariant
                        i <= number_address_block <= 100,
                        address_block_addresses@.len() == number_address_block,
                        forall|k: int| 0 <= k < i ==> #[trigger] addresses@[k] == address_block_addresses@[k],
                        forall|k: int| i <= k < 100 ==> #[trigger] addresses@[k] == (Address { lba: 0, block: 0 }),
                    decreases number_address_block - i,
                {
                    addresses[i] = address_block_addresses[i];
                    i += 1;
                }
                file_header.blocks = addresses;
                assert(file_header.blocks@ =~= window(address_block_addresses@, 0, 100));
                let image = file_header.to_u16_array();
                proof {
                    lemma_header_image(memfile.header, file_header, address_block_addresses@);
                }
                let ghost before_header = writes@;
                let hw = SectorWrite { lba: sector_number(header_address), data: image };
                writes.push(hw);
                assert(writes_view(writes@) =~= writes_view(before_header) + seq![(hw.lba, hw.data@)]);
                let ghost after_header = writes@;
                let mut i: u32 = 0;
                while i < number_address_block
                    invariant
                        i <= number_address_block,
                        number_address_block == spec_div_ceil(blocks_number as int, 128),
                        address_block_addresses@.len() == number_address_block,
                        data_addresses@.len() == blocks_number,
                        forall|k: int| 0 <= k < address_block_addresses@.len() ==> (#[trigger] address_block_addresses@[k]).lba < 4
                            && address_block_addresses@[k].block < 510,
                        writes_view(writes@) == writes_view(after_header)
                            + address_block_images(address_block_addresses@, data_addresses@).take(i as int),
                    decreases number_address_block - i,
                {
                    let mut block = LongFile { addresses: [Address { lba: 0, block: 0 }; 128] };
                    let mut k: u32 = 0;
                    while k < 128
                        invariant
                            k <= 128,
                            i < number_address_block,
                            number_address_block == spec_div_ceil(blocks_number as int, 128),
                            data_addresses@.len() == blocks_number,
                            forall|m: int| 0 <= m < k ==> #[trigger] block.addresses@[m] == window(data_addresses@, 128 * i, 128)[m],
                            forall|m: int| k <= m < 128 ==> #[trigger] block.addresses@[m] == (Address { lba: 0, block: 0 }),
                        ensures
                            forall|m: int| 0 <= m < 128 ==> #[trigger] block.addresses@[m] == window(data_addresses@, 128 * i, 128)[m],
                        decreases 128 - k,
                    {
                        proof {
                            assert(128 * (i as int) < blocks_number as int + 128) by {
                                assert(i < spec_div_ceil(blocks_number as int, 128));
                            }
                        }
                        if 128 * i + k >= blocks_number {
                            assert forall|m: int| k <= m < 128 implies #[trigger] block.addresses@[m]
                                == window(data_addresses@, 128 * i, 128)[m] by {}
                            break;
                        }
                        block.addresses[k as usize] = data_addresses[(128 * i + k) as usize];
                        k += 1;
                    }
                    assert(block.addresses@ =~= window(data_addresses@, 128 * i, 128));
                    let data = block.to_u16_array();
                    assert(encode_long_file(block) =~= Seq::new(512, |b: int| address_byte(window(data_addresses@, 128 * i, 128), b)));
                    let ghost before = writes@;
                    let w = SectorWrite { lba: sector_number(address_block_addresses[i as usize]), data };
                    writes.push(w);
                    assert(writes_view(writes@) =~= writes_view(before).push((w.lba, w.data@)));
                    assert(writes_view(writes@) =~= writes_view(after_header)
                        + address_block_images(address_block_addresses@, data_addresses@).take(i + 1));
                    i += 1;
                }
                assert(address_block_images(address_block_addresses@, data_addresses@).take(number_address_block as int)
                    =~= address_block_images(address_block_addresses@, data_addresses@));
                let ghost after_address_blocks = writes@;
                let blocks_to_write = slice_vec(&memfile.data);
                let mut i: usize = 0;
                while i < blocks_number as usize
                    invariant
                        i <= blocks_number,
                        data_addresses@.len() == blocks_number,
                        blocks_number <= blocks_to_write@.len(),
                        forall|k: int| 0 <= k < data_addresses@.len() ==> (#[trigger] data_addresses@[k]).lba < 4
                            && data_addresses@[k].block < 510,
                        forall|b: int, j: int| 0 <= b < blocks_to_write@.len() && 0 <= j < 256 ==>
                            #[trigger] blocks_to_write@[b]@[j] == spec_word_of(memfile.data@, 256 * b + j),
                        writes_view(writes@) == writes_view(after_address_blocks)
                            + data_images(memfile.data@, data_addresses@).take(i as int),
                    decreases blocks_number - i,
                {
                    let ghost before = writes@;
                    let w = SectorWrite { lba: sector_number(data_addresses[i]), data: blocks_to_write[i] };
                    writes.push(w);
                    assert(writes_view(writes@) =~= writes_view(before).push((w.lba, w.data@)));
                    assert(blocks_to_write@[i as int]@ =~= Seq::new(256, |j: int| spec_word_of(memfile.data@, 256 * i + j)));
                    assert(writes_view(writes@) =~= writes_view(after_address_blocks)
                        + data_images(memfile.data@, data_addresses@).take(i + 1));
                    i += 1;
                }
                assert(data_images(memfile.data@, data_addresses@).take(blocks_number as int)
                    =~= data_images(memfile.data@, data_addresses@));
                append_writes(&mut writes, self.lba_table_global.write_to_disk());
                assert(writes_view(writes@) =~= table_images(t1) + table_images(t2) + table_images(self.spec_tables())
                    + seq![(sector_of(header_address) as u32, header_image(memfile.header, address_block_addresses@))]
                    + address_block_images(address_block_addresses@, data_addresses@)
                    + data_images(memfile.data@, data_addresses@) + table_images(self.spec_tables()));
                assert(alloc_from(idx0, tab0, 1) == Some((hs@, i1, t1)));
                assert(memfile_plan(idx0, tab0, memfile.header, memfile.data@) == Some((header_address, writes_view(writes@), self.spec_alloc_index(), self.spec_tables())));
                (header_address, writes)
            },
        }
    }

    /// Creates the file named `name` in the directory `parent` with the
    /// bytes of `buffer`: `None` when the name takes more than 32 bytes;
    /// otherwise the address of its header and the sector writes, as
    /// `memfile_plan` says for its new header (`is_new_file_header`).
    pub fn create_file(&mut self, parent: &MemDir, name: &String, buffer: &[u8]) -> (r: Option<(Address, Vec<SectorWrite>)>)
        requires
            buffer@.len() <= 512 * 128 * SHORT_MODE_LIMIT,
            vstd::utf8::encode_utf8(name@).len() <= 32 ==> forall|h: Header| #[trigger] is_new_file_header(
                h,
                parent.spec_address(),
                vstd::utf8::encode_utf8(name@),
                buffer@.len() as u32,
            ) ==> memfile_plan(old(self).spec_alloc_index(), old(self).spec_tables(), h, buffer@) is Some,
        ensures
            vstd::utf8::encode_utf8(name@).len() > 32 ==> r is None && final(self).spec_alloc_index()
                == old(self).spec_alloc_index() && final(self).spec_tables() == old(self).spec_tables(),
            vstd::utf8::encode_utf8(name@).len() <= 32 ==> (r matches Some((a, w)) && forall|h: Header| #[trigger] is_new_file_header(
                h,
                parent.spec_address(),
                vstd::utf8::encode_utf8(name@),
                buffer@.len() as u32,
            ) ==> memfile_plan(old(self).spec_alloc_index(), old(self).spec_tables(), h, buffer@) == Some((
                a,
                writes_view(w@),
                final(self).spec_alloc_index(),
                final(self).spec_tables(),
            ))),
            final(self).spec_port() == old(self).spec_port(),
    {
        let bytes = name.as_str().as_bytes();
        if bytes.len() > 32 {
            return None;
        }
        let mut name_arr = [0u8; 32];
        let mut i: usize = 0;
        while i < bytes.len()
            invariant
                i <= bytes@.len() <= 32,
                forall|k: int| 0 <= k < i ==> #[trigger] name_arr@[k] == bytes@[k],
                forall|k: int| i <= k < 32 ==> #[trigger] name_arr@[k] == 0,
            decreases bytes@.len() - i,
        {
            name_arr[i] = bytes[i];
            i += 1;
        }
        let length = buffer.len() as u32;
        let blocks_number = div_ceil(length, 512);
        let mode = if blocks_number > SHORT_MODE_LIMIT {
            FileMode::Long
        } else {
            FileMode::Short
        };
        let header = Header {
            user: UGOID(412),
            owner: UGOID(666),
            group: UGOID(7),
            parent_address: parent.address(),
            length,
            blocks_number,
            blocks: [Address { lba: 0, block: 0 }; 100],
            flags: HeaderFlags { user_owner: 0b1111_1111u8, group_misc: 0b1111_1111u8 },
            mode,
            name: name_arr,
            file_type: Type::File,
            padding: [0u8; 40],
        };
        proof {
            assert(header.name@ =~= vstd::utf8::encode_utf8(name@) + Seq::new((32 - bytes@.len()) as nat, |i: int| 0u8));
            assert(header.blocks@ =~= Seq::new(100, |i: int| Address { lba: 0, block: 0 }));
            assert(header.padding@ =~= Seq::new(40, |i: int| 0u8));
            assert(is_new_file_header(header, parent.spec_address(), vstd::utf8::encode_utf8(name@), buffer@.len() as u32));
        }
        let file = MemFile { header, data: vstd::slice::slice_to_vec(buffer) };
        let (a, w) = self.write_memfile_to_disk(&file);
        proof {
            assert forall|h: Header| #[trigger] is_new_file_header(
                h,
                parent.spec_address(),
                vstd::utf8::encode_utf8(name@),
                buffer@.len() as u32,
            ) implies memfile_plan(old(self).spec_alloc_index(), old(self).spec_tables(), h, buffer@) == Some((
                a,
                writes_view(w@),
                self.spec_alloc_index(),
                self.spec_tables(),
            )) by {
                assert(h.blocks@ =~= header.blocks@);
                assert(h.name@ =~= header.name@);
                assert(h.padding@ =~= header.padding@);
                assert(h.blocks =~= header.blocks);
                assert(h.name =~= header.name);
                assert(h.padding =~= header.padding);
                assert(h == header);
            }
        }
        Some((a, w))
    }

    /// Writes `buffer` into the short-mode file `file`, whose header is at
    /// `header_address`: at its end when `append` holds, at byte `offset`
    /// otherwise. Returns the sector writes, as `overwrite_plan` says.
    pub fn overwrite_file(&mut self, file: MemFile, header_address: Address, buffer: &[u8], offset: usize, append: bool)
        -> (w: Vec<SectorWrite>)
        requires
            overwrite_allowed(
                old(self).spec_alloc_index(),
                old(self).spec_tables(),
                file.header,
                header_address,
                buffer@,
                offset,
                append,
            ),
        ensures
            ({
                let true_offset = if append { file.header.length } else { offset as u32 };
                let (ws, i2, t2) = overwrite_plan(
                    old(self).spec_alloc_index(),
                    old(self).spec_tables(),
                    file.header,
                    header_address,
                    buffer@,
                    true_offset,
                )->Some_0;
                &&& writes_view(w@) == ws
                &&& final(self).spec_alloc_index() == i2
                &&& final(self).spec_tables() == t2
            }),
            final(self).spec_port() == old(self).spec_port(),
    {
        let ghost idx0 = self.spec_alloc_index();
        let ghost tab0 = self.spec_tables();
        let mut file = file;
        let old_size = file.header.length;
        let true_offset: u32 = if append { old_size } else { offset as u32 };
        let new_size = true_offset + (buffer.len() as u32);
        let block_addresses = file.header.blocks;
        let blocks_to_write = slice_vec(buffer);
        let number_blocks_to_write = blocks_to_write.len();
        let block_offset = div_ceil(true_offset, 512);
        let new_blocks_number = block_offset + number_blocks_to_write as u32;
        let mut writes: Vec<SectorWrite> = Vec::new();
        let ghost data_w = data_images(buffer@, file.header.blocks@.subrange(block_offset as int, new_blocks_number as int));
        if new_size <= old_size {
            let mut i = block_offset;
            while i < new_blocks_number
                invariant
                    block_offset <= i <= new_blocks_number <= 100,
                    file.header.blocks == block_addresses,
                    forall|k: int| block_offset <= k < new_blocks_number ==> (#[trigger] block_addresses@[k]).lba < 4
                        && block_addresses@[k].block < 510,
                    self.spec_alloc_index() == idx0,
                    self.spec_port() == old(self).spec_port(),
                    self.spec_tables() == mark_free(tab0, block_addresses@.subrange(block_offset as int, i as int)),
                decreases new_blocks_number - i,
            {
                let addr = file.header.blocks[i as usize];
                self.lba_table_global.mark_available(addr.lba as u32, addr.block as u32);
                assert(block_addresses@.subrange(block_offset as int, i + 1).drop_last()
                    =~= block_addresses@.subrange(block_offset as int, i as int));
                i += 1;
            }
        } else {
            let (new_addresses, table_writes) = self.get_addresses(new_blocks_number - file.header.blocks_number);
            append_writes(&mut writes, table_writes);
            let mut i = file.header.blocks_number + 1;
            while i < new_blocks_number
                invariant
                    new_blocks_number <= file.header.blocks_number + 1,
                decreases new_blocks_number - i,
            {
                i += 1;
            }
        }
        let ghost before_data = writes@;
        let mut i: usize = 0;
        while i < number_blocks_to_write
            invariant
                i <= number_blocks_to_write,
                number_blocks_to_write == spec_div_ceil(buffer@.len() as int, 512),
                blocks_to_write@.len() == number_blocks_to_write,
                block_offset + number_blocks_to_write == new_blocks_number <= 100,
                forall|k: int| block_offset <= k < new_blocks_number ==> (#[trigger] block_addresses@[k]).lba < 4
                    && block_addresses@[k].block < 510,
                block_addresses == file.header.blocks,
                forall|b: int, j: int| 0 <= b < blocks_to_write@.len() && 0 <= j < 256 ==>
                    #[trigger] blocks_to_write@[b]@[j] == spec_word_of(buffer@, 256 * b + j),
                writes_view(writes@) == writes_view(before_data) + data_images(
                    buffer@,
                    block_addresses@.subrange(block_offset as int, new_blocks_number as int),
                ).take(i as int),
            decreases number_blocks_to_write - i,
        {
            let ghost before = writes@;
            let wr = SectorWrite {
                lba: sector_number(block_addresses[i + block_offset as usize]),
                data: blocks_to_write[i],
            };
            writes.push(wr);
            assert(writes_view(writes@) =~= writes_view(before).push((wr.lba, wr.data@)));
            assert(blocks_to_write@[i as int]@ =~= Seq::new(256, |j: int| spec_word_of(buffer@, 256 * i + j)));
            assert(writes_view(writes@) =~= writes_view(before_data) + data_images(
                buffer@,
                block_addresses@.subrange(block_offset as int, new_blocks_number as int),
            ).take(i + 1));
            i += 1;
        }
        assert(data_images(buffer@, block_addresses@.subrange(block_offset as int, new_blocks_number as int)).take(
            number_blocks_to_write as int,
        ) =~= data_w);
        file.header.blocks_number = new_blocks_number;
        file.header.length = new_size;
        let image = file.header.to_u16_array();
        let ghost before_header = writes@;
        let hw = SectorWrite { lba: sector_number(header_address), data: image };
        writes.push(hw);
        assert(writes_view(writes@) =~= writes_view(before_header).push((hw.lba, hw.data@)));
        append_writes(&mut writes, self.lba_table_global.write_to_disk());
        writes
    }
}

} // verus!