use ferr_os::filesystem::fsflags::{OpenFlags, OCREAT, OWR};
use ferr_os::filesystem::drivers::disk_operations::{drive_identity, lba28_bytes, lba48_bytes};
use ferr_os::filesystem::drivers::ustar::{
    div_ceil, slice_vec, Address, FileBlock, FileMode, Header, HeaderFlags, LBATable, LBATableGlobal, LongFile,
    Type, U16Array, UsTarError, UGOID,
};
use ferr_os::filesystem::drivers::ustar_driver::{
    header_blocks, long_data_addresses, read_window, write_action, MemDir, MemFile, UsTar, WriteAction,
};

fn header(mode: FileMode, file_type: Type, length: u32, blocks_number: u32) -> Header {
    let mut name = [0u8; 32];
    name[..4].copy_from_slice(b"root");
    Header {
        user: UGOID(1),
        owner: UGOID(2),
        group: UGOID(3),
        parent_address: Address { lba: 0, block: 0 },
        length,
        blocks_number,
        blocks: [Address { lba: 0, block: 0 }; 100],
        flags: HeaderFlags { user_owner: 0xff, group_misc: 0x0f },
        mode,
        name,
        file_type,
        padding: [0u8; 40],
    }
}

fn fresh_disk() -> UsTar {
    let tables = [LBATable::from_parts(1, [true; 510]); 4];
    UsTar::from_parts(0x170, LBATableGlobal::from_tables(tables))
}

fn block_of(bytes: &[u8]) -> FileBlock {
    let mut data = [0u16; 256];
    for (k, pair) in bytes.chunks(2).enumerate() {
        let hi = pair[0] as u16;
        let lo = if pair.len() > 1 { pair[1] as u16 } else { 0 };
        data[k] = (hi << 8) | lo;
    }
    FileBlock { data }
}

#[test]
fn div_ceil_rounds_up() {
    assert_eq!(div_ceil(0, 512), 0);
    assert_eq!(div_ceil(1, 512), 1);
    assert_eq!(div_ceil(512, 512), 1);
    assert_eq!(div_ceil(513, 512), 2);
}

#[test]
fn slice_vec_packs_two_bytes_a_word() {
    let v = slice_vec(b"ABC");
    assert_eq!(v.len(), 1);
    assert_eq!(v[0][0], 0x4142);
    assert_eq!(v[0][1], 0x4300);
    assert_eq!(v[0][2], 0);
    assert_eq!(slice_vec(&vec![1u8; 1024]).len(), 2);
    assert!(slice_vec(b"").is_empty());
}

#[test]
fn header_sector_round_trip() {
    let mut h = header(FileMode::Long, Type::Dir, 12345, 7);
    h.blocks[3] = Address { lba: 2, block: 300 };
    let back = Header::from_u16_array(h.to_u16_array()).expect("a valid header");
    assert_eq!(back.to_u16_array(), h.to_u16_array());
    assert_eq!(back.length, 12345);
    assert_eq!(back.blocks[3], Address { lba: 2, block: 300 });
    assert!(back.is_dir());
    let mut bad = h.to_u16_array();
    bad[219] = 0xffff;
    assert!(Header::from_u16_array(bad).is_none());
}

#[test]
fn allocation_table_round_trip() {
    let mut t = LBATable::from_parts(5, [false; 510]);
    t.mark_available(7);
    let back = LBATable::from_u16_array(t.to_u16_array()).expect("a valid table");
    assert!(back.is_available(7));
    assert!(!back.is_available(8));
    let mut l = LongFile { addresses: [Address { lba: 0, block: 0 }; 128] };
    l.addresses[127] = Address { lba: 3, block: 509 };
    let lb = LongFile::from_u16_array(l.to_u16_array()).unwrap();
    assert_eq!(lb.addresses[127], Address { lba: 3, block: 509 });
}

#[test]
fn global_table_marks_sectors() {
    let mut g = LBATableGlobal::from_tables([LBATable::from_parts(1, [true; 510]); 4]);
    assert_eq!(g.get_index(), 0);
    g.mark_unavailable(2, 10);
    assert!(!g.is_available(2, 10));
    g.mark_available(2, 10);
    assert!(g.is_available(2, 10));
    g.set_lba_index(1, 510);
    assert!(!g.is_lba_available(1));
    assert_eq!(g.get_lba_index(1), 510);
    g.set_index(2);
    assert_eq!(g.get_index(), 2);
    let w = g.write_to_disk();
    assert_eq!(w.iter().map(|s| s.lba).collect::<Vec<_>>(), vec![0, 512, 1024, 1536]);
    let w = g.init();
    assert_eq!(w.iter().map(|s| s.lba).collect::<Vec<_>>(), vec![0, 512, 1024, 1536]);
    assert_eq!(w[0].data[0], 1);
    assert_eq!(g.get_index(), 0);
    assert!(g.is_available(1, 0));
}

#[test]
fn sectors_are_taken_in_order_and_never_twice() {
    let mut u = fresh_disk();
    let (a, w) = u.get_addresses(3);
    assert_eq!(a, vec![Address { lba: 0, block: 1 }, Address { lba: 0, block: 2 }, Address { lba: 0, block: 3 }]);
    assert_eq!(w.iter().map(|s| s.lba).collect::<Vec<_>>(), vec![0, 512, 1024, 1536]);
    let (b, _) = u.get_addresses(2);
    assert_eq!(b, vec![Address { lba: 0, block: 4 }, Address { lba: 0, block: 5 }]);
}

#[test]
fn writing_a_long_mode_file_plans_its_sectors() {
    let mut u = fresh_disk();
    let mut h = header(FileMode::Long, Type::File, 10, 1);
    h.name = [b'f'; 32];
    let file = MemFile { header: h, data: b"0123456789".to_vec() };
    let (addr, writes) = u.write_memfile_to_disk(&file);
    assert_eq!(addr, Address { lba: 0, block: 1 });
    let lbas: Vec<u32> = writes.iter().map(|w| w.lba).collect();
    let tables = vec![0, 512, 1024, 1536];
    let mut expected = Vec::new();
    expected.extend(&tables);
    expected.extend(&tables);
    expected.extend(&tables);
    expected.extend([1, 2, 3]);
    expected.extend(&tables);
    assert_eq!(lbas, expected);
    let written = Header::from_u16_array(writes[12].data).unwrap();
    assert_eq!(written.blocks[0], Address { lba: 0, block: 2 });
    let listed = LongFile::from_u16_array(writes[13].data).unwrap();
    assert_eq!(listed.addresses[0], Address { lba: 0, block: 3 });
    assert_eq!(listed.addresses[1], Address { lba: 0, block: 0 });
    assert_eq!(writes[14].data[0], 0x3031);
}

#[test]
fn writing_a_short_mode_file_puts_blocks_where_listed() {
    let mut u = fresh_disk();
    let h = header(FileMode::Short, Type::File, 600, 2);
    let file = MemFile { header: h, data: vec![b'x'; 600] };
    let (addr, writes) = u.write_memfile_to_disk(&file);
    assert_eq!(addr, Address { lba: 0, block: 1 });
    let lbas: Vec<u32> = writes.iter().map(|w| w.lba).collect();
    assert_eq!(&lbas[8..11], &[1, 2, 3]);
    assert_eq!(lbas.len(), 15);
}

#[test]
fn short_mode_file_written_then_read_comes_back() {
    let mut u = fresh_disk();
    let data: Vec<u8> = (0..701u32).map(|i| (i % 251) as u8 + 1).collect();
    let h = header(FileMode::Short, Type::File, 701, 2);
    let file = MemFile { header: h, data: data.clone() };
    let (addr, writes) = u.write_memfile_to_disk(&file);
    let mut disk: std::collections::HashMap<u32, [u16; 256]> = std::collections::HashMap::new();
    for w in &writes {
        disk.insert(w.lba, w.data);
    }
    let sector = |a: &Address| (a.lba as u32) * 512 + a.block as u32;
    let read_header = Header::from_u16_array(disk[&sector(&addr)]).unwrap();
    let blocks: Vec<FileBlock> = header_blocks(&read_header)
        .iter()
        .map(|a| FileBlock { data: disk[&sector(a)] })
        .collect();
    let back = MemFile::from_blocks(read_header, &blocks);
    assert_eq!(back.data, data);
    assert_eq!(back.header.length, 701);
}

#[test]
fn short_mode_data_is_cut_at_the_length() {
    let h = header(FileMode::Short, Type::File, 5, 1);
    let f = MemFile::from_blocks(h, &[block_of(b"ABCDEFGH")]);
    assert_eq!(f.data, b"ABCDE".to_vec());
    let odd = header(FileMode::Short, Type::File, 3, 2);
    let g = MemFile::from_blocks(odd, &[block_of(b"ABCD"), block_of(b"XY")]);
    assert_eq!(g.data, b"ABCX".to_vec());
}

#[test]
fn long_mode_data_comes_in_whole_blocks() {
    let h = header(FileMode::Long, Type::File, 3, 1);
    let f = MemFile::from_blocks(h, &[block_of(b"ABCDEFGH")]);
    assert_eq!(f.data, b"ABCDEF".to_vec());
    let h2 = header(FileMode::Long, Type::File, 1000, 1);
    assert_eq!(MemFile::from_blocks(h2, &[block_of(b"A")]).data.len(), 512);
}

#[test]
fn long_mode_addresses_are_read_from_address_blocks() {
    let mut l = LongFile { addresses: [Address { lba: 0, block: 0 }; 128] };
    for k in 0..128 {
        l.addresses[k] = Address { lba: 1, block: k as u16 };
    }
    let h = header(FileMode::Long, Type::File, 600, 1);
    let a = long_data_addresses(&h, &[l]);
    assert_eq!(a, vec![Address { lba: 1, block: 0 }, Address { lba: 1, block: 1 }]);
    let mut h3 = header(FileMode::Short, Type::File, 0, 2);
    h3.blocks[1] = Address { lba: 2, block: 9 };
    assert_eq!(header_blocks(&h3), vec![Address { lba: 0, block: 0 }, Address { lba: 2, block: 9 }]);
}

#[test]
fn directories_keep_the_first_address_of_a_name() {
    let mut data = vec![0u8; 64];
    data[..3].copy_from_slice(b"bin");
    data[28..32].copy_from_slice(&[0, 1, 0, 2]);
    data[32..35].copy_from_slice(b"bin");
    data[60..64].copy_from_slice(&[0, 3, 0, 4]);
    let file = MemFile { header: header(FileMode::Short, Type::Dir, 2, 1), data };
    let d = MemDir::from_memfile(file, Address { lba: 0, block: 1 }).ok().expect("a directory");
    assert_eq!(d.get(&String::from("bin")), Some(Address { lba: 1, block: 2 }));
    assert_eq!(d.get(&String::from("etc")), None);
    assert_eq!(d.address(), Address { lba: 0, block: 1 });
    let not_dir = MemFile { header: header(FileMode::Short, Type::File, 2, 1), data: vec![0u8; 64] };
    assert_eq!(MemDir::from_memfile(not_dir, Address { lba: 0, block: 1 }).err(), Some(UsTarError::InvalidMode));
}

#[test]
fn reads_get_a_window_of_the_data() {
    let d = b"abcdef".to_vec();
    assert_eq!(read_window(d.clone(), 1, 2), b"bc".to_vec());
    assert_eq!(read_window(d.clone(), 4, 10), b"ef".to_vec());
    assert_eq!(read_window(d.clone(), 6, 1), Vec::<u8>::new());
    assert_eq!(read_window(d.clone(), 3, usize::MAX), d);
}

#[test]
fn new_files_get_their_mode_from_their_size() {
    let mut u = fresh_disk();
    let mut data = vec![0u8; 64];
    data[..3].copy_from_slice(b"usr");
    let parent = MemDir::from_memfile(
        MemFile { header: header(FileMode::Short, Type::Dir, 1, 1), data },
        Address { lba: 0, block: 7 },
    )
    .ok()
    .unwrap();
    assert!(u.create_file(&parent, &String::from("a-name-that-is-much-longer-than-32"), b"x").is_none());
    let (addr, writes) = u.create_file(&parent, &String::from("notes"), b"hello").expect("created");
    assert_eq!(addr, Address { lba: 0, block: 1 });
    let h = Header::from_u16_array(writes[8].data).unwrap();
    assert_eq!(h.length, 5);
    assert_eq!(h.mode, FileMode::Short);
    assert_eq!(h.parent_address, Address { lba: 0, block: 7 });
    assert_eq!(&h.name[..6], b"notes\0");
    assert_eq!(h.owner, UGOID(666));
    let big = vec![7u8; 512 * 101];
    let (_, writes) = u.create_file(&parent, &String::from("big"), &big).expect("created");
    let h = Header::from_u16_array(writes[12].data).unwrap();
    assert_eq!(h.mode, FileMode::Long);
    assert_eq!(h.blocks_number, 101);
}

#[test]
fn overwriting_within_a_file_frees_then_rewrites_its_blocks() {
    let mut u = fresh_disk();
    let mut h = header(FileMode::Short, Type::File, 1024, 2);
    h.blocks[0] = Address { lba: 0, block: 10 };
    h.blocks[1] = Address { lba: 0, block: 11 };
    let file = MemFile { header: h, data: vec![0u8; 1024] };
    let writes = u.overwrite_file(file, Address { lba: 0, block: 9 }, b"hi", 0, false);
    let lbas: Vec<u32> = writes.iter().map(|w| w.lba).collect();
    assert_eq!(lbas, vec![10, 9, 0, 512, 1024, 1536]);
    assert_eq!(writes[0].data[0], 0x6869);
    let back = Header::from_u16_array(writes[1].data).unwrap();
    assert_eq!((back.length, back.blocks_number), (2, 1));
}

#[test]
fn sector_number_bytes_go_high_half_first() {
    assert_eq!(lba48_bytes(0x0403_0201), [4, 0, 0, 1, 2, 3]);
    assert_eq!(lba48_bytes(0), [0; 6]);
}

#[test]
fn identify_block_fields() {
    let mut words = [0u16; 256];
    words[0] = 0x0040;
    words[60] = 0x1234;
    words[61] = 0x0001;
    words[83] = 0x0400;
    words[88] = 7;
    words[93] = 9;
    words[100] = 1;
    words[101] = 2;
    words[102] = 3;
    words[103] = 4;
    let d = drive_identity(&words);
    assert_eq!(d.general, 0x40);
    assert!(d.lba48);
    assert_eq!(d.command_sets, 0x400);
    assert_eq!(d.udma_modes, 7);
    assert_eq!(d.reset_result, 9);
    assert_eq!(d.lba28_sectors, 0x0001_1234);
    assert_eq!(d.lba48_sectors, 0x0004_0003_0002_0001);
    words[83] = 0x0200;
    assert!(!drive_identity(&words).lba48);
}

#[test]
fn sector_number_bytes_in_28_bit_mode() {
    assert_eq!(lba28_bytes(0x1403_0201), [0xE4, 1, 2, 3]);
    assert_eq!(lba28_bytes(0), [0xE0, 0, 0, 0]);
}

#[test]
fn write_requests_are_decided_by_flags_and_mode() {
    let none = OpenFlags::from_bits_unchecked(0);
    let wr = OpenFlags::from_bits_unchecked(OWR);
    let wr_creat = OpenFlags::from_bits_unchecked(OWR | OCREAT);
    assert_eq!(write_action(&none, Some(FileMode::Short)), WriteAction::Refuse);
    assert_eq!(write_action(&wr, None), WriteAction::Refuse);
    assert_eq!(write_action(&wr_creat, None), WriteAction::Create);
    assert_eq!(write_action(&wr, Some(FileMode::Short)), WriteAction::Overwrite);
    assert_eq!(write_action(&wr, Some(FileMode::Long)), WriteAction::LongMode);
}

#[test]
fn room_checks_follow_the_allocator() {
    let u = fresh_disk();
    assert!(u.can_allocate(5));
    assert!(u.can_create_file(1000));
    let full = UsTar::from_parts(0x170, LBATableGlobal::from_tables([LBATable::from_parts(510, [false; 510]); 4]));
    assert!(!full.can_allocate(1));
    assert!(!full.can_create_file(10));
    let mut h = header(FileMode::Short, Type::File, 1024, 2);
    h.blocks[0] = Address { lba: 0, block: 10 };
    h.blocks[1] = Address { lba: 0, block: 11 };
    let file = MemFile { header: h, data: vec![0u8; 1024] };
    assert!(u.can_overwrite_file(&file, Address { lba: 0, block: 9 }, b"hi", 0, false));
    assert!(!u.can_overwrite_file(&file, Address { lba: 4, block: 9 }, b"hi", 0, false));
    assert!(!full.can_overwrite_file(&file, Address { lba: 0, block: 9 }, &[1u8; 600], 1000, false));
}
