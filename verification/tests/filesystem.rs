use crossbeam_queue::ArrayQueue;
use ferr_os::data_storage::path::Path;
use ferr_os::filesystem::descriptor::{FileDescriptor, GeneralFileTable, OpenFileTable, ProcessDescriptorTable};
use ferr_os::filesystem::drivers::fifo::FiFoPartition;
use ferr_os::filesystem::drivers::keyboard::KeyBoard;
use ferr_os::keyboard::{add_scancode, ScancodeStream};
use ferr_os::filesystem::drivers::mouse_driver::MouseDriver;
use ferr_os::filesystem::drivers::nopart::NoPart;
use ferr_os::filesystem::drivers::proc::{clip_window, parse_decimal, ProcDriver, ProcRead};
use ferr_os::filesystem::drivers::screen_partition::{ScreenPartition, ScreenRequest};
use ferr_os::filesystem::drivers::sound::{u8slice_to_u64, SoundDriver};
use ferr_os::filesystem::fsflags::{OpenFlags, OAPPEND, OCREAT, ORD, OWR};
use ferr_os::filesystem::host_shell::HostShellPartition;
use ferr_os::filesystem::partition::{IoError, Partition};
use ferr_os::filesystem::vfs::VFS;
use ferr_os::filesystem::{open_mode_from_flags, OpenMode};
use ferr_os::hardware::mouse::{enqueue_packet, MousePacket};

/// A partition that remembers what it was asked.
struct Probe {
    name: u8,
    opened: Vec<String>,
}

impl Partition for Probe {
    fn open(&mut self, path: &Path, _flags: OpenFlags) -> Option<usize> {
        self.opened.push(path.to());
        Some(self.name as usize)
    }

    fn read(&mut self, oft: &OpenFileTable, size: usize) -> Result<Vec<u8>, IoError> {
        let mut v = oft.get_path().to().into_bytes();
        v.push(self.name);
        v.truncate(size);
        Ok(v)
    }

    fn write(&mut self, _oft: &OpenFileTable, buffer: &[u8]) -> isize {
        buffer.len() as isize
    }

    fn close(&mut self, _oft: &OpenFileTable) -> bool {
        true
    }

    fn give_param(&mut self, _oft: &OpenFileTable, param: usize) -> usize {
        param + 1
    }
}

fn probe(name: u8) -> Probe {
    Probe { name, opened: Vec::new() }
}

fn oft(path: &str) -> OpenFileTable {
    OpenFileTable::new(Path::from(path), 0)
}

#[test]
fn open_flags_contain_their_bits() {
    let f = OpenFlags::from_bits_unchecked(OWR | OCREAT);
    assert!(f.contains(OWR));
    assert!(f.contains(OCREAT));
    assert!(!f.contains(OAPPEND));
    assert_eq!(f.bits(), 6);
    assert_eq!(OpenFlags::from(OWR).bits(), ORD);
    assert_eq!(open_mode_from_flags(5), OpenMode::Read);
}

#[test]
fn open_file_table_views() {
    let t = OpenFileTable::new(Path::from("/dev/fifo"), 3);
    assert_eq!(t.get_offset(), 0);
    assert_eq!(t.get_id(), 0);
    assert_eq!(t.get_amount(), 1);
    let u = t.with_id(4).with_amount(2).with_new_path(Path::from(""));
    assert_eq!((u.get_id(), u.get_amount()), (4, 2));
    assert_eq!(u.get_path().to(), String::new());
    assert_eq!(t.get_path().to(), String::from("/dev/fifo"));
}

#[test]
fn general_table_fills_round_from_its_index() {
    let mut g = GeneralFileTable::new();
    let a = g.insert(oft("/a"));
    let b = g.insert(oft("/b"));
    assert_eq!((a, b), (0, 1));
    g.delete(a);
    let c = g.insert(oft("/c"));
    assert_eq!(c, 2);
    assert_eq!(g.get_file_table_ref(b).get_path().to(), String::from("/b"));
}

#[test]
fn process_table_opens_dups_and_closes() {
    let mut g = GeneralFileTable::new();
    let mut p = ProcessDescriptorTable::init();
    let fd = p.create_file_table(&mut g, Path::from("/hard/screen"), 0);
    assert_eq!(fd.into_usize(), 1);
    assert_eq!(fd.into_u64(), 1);
    let t = p.get_file_table(&g, fd).ok().expect("descriptor 1 is open");
    assert_eq!(t.get_path().to(), String::from("/hard/screen"));
    assert!(p.get_file_table(&g, FileDescriptor::new(5)).is_err());
    assert!(p.dup(fd, FileDescriptor::new(0)).is_ok());
    assert_eq!(p.files[0], p.files[1]);
    let slot = p.files[1].expect("in use");
    p.close(&mut g);
    let _ = slot;
    let again = g.insert(oft("/x"));
    assert!(again < 256);
}

#[test]
fn fifo_passes_bytes_in_order() {
    let mut f = FiFoPartition::new();
    let root = Path::from("");
    let id = f.open(&root).expect("a pipe");
    assert_eq!(id, 0);
    assert_eq!(f.open(&Path::from("x")), None);
    assert_eq!(f.write(&root, id, b"hello"), 5);
    assert_eq!(f.read(&root, id, 3, false), Ok(b"hel".to_vec()));
    assert_eq!(f.give_param(&root, id, 1), 1);
    assert_eq!(f.read(&root, id, 10, false), Ok(b"o".to_vec()));
    assert_eq!(f.read(&root, id, 10, false), Ok(Vec::new()));
    assert_eq!(f.read(&root, id, 10, true), Err(IoError::Kill));
    assert!(!f.close(&root, id));
    assert_eq!(f.read(&root, id, 1, false), Err(IoError::Kill));
    assert_eq!(f.open(&root), Some(0));
    assert_eq!(f.read(&Path::from("a"), id, 1, false), Err(IoError::Kill));
    assert_eq!(f.write(&Path::from("a"), id, b"x"), 0);
}

#[test]
fn fifo_holds_at_most_1024_bytes() {
    let mut f = FiFoPartition::new();
    let root = Path::from("");
    let id = f.open(&root).unwrap();
    let big = vec![7u8; 1500];
    assert_eq!(f.write(&root, id, &big), 1024);
    assert_eq!(f.write(&root, id, b"z"), 0);
    assert_eq!(f.give_param(&root, id, 24), 1000);
}

#[test]
fn vfs_routes_to_the_partition_added() {
    let mut v: VFS<Probe> = VFS::new();
    assert!(v.add_file(Path::from("/hard/screen"), probe(b's')).is_ok());
    assert!(v.add_file(Path::from("/hard/mouse"), probe(b'm')).is_ok());
    assert!(v.add_file(Path::from("/hard/screen"), probe(b'x')).is_err());
    assert!(v.add_file(Path::from("/hard"), probe(b'x')).is_err());
    assert!(v.add_file(Path::from("/hard/screen/deeper"), probe(b'x')).is_err());
    let flags = OpenFlags::from(0);
    assert_eq!(v.open(&Path::from("/hard/screen"), flags), Some(b's' as usize));
    assert_eq!(v.open(&Path::from("/hard/mouse/left"), flags), Some(b'm' as usize));
    assert_eq!(v.open(&Path::from("/hard"), flags), Some(0));
    assert_eq!(v.open(&Path::from("/hard/"), flags), Some(0));
    assert_eq!(v.open(&Path::from("/nothing"), flags), None);
}

#[test]
fn vfs_lists_directories_and_forwards_requests() {
    let mut v: VFS<Probe> = VFS::default();
    v.add_file(Path::from("/hard/screen"), probe(b's')).unwrap();
    v.add_file(Path::from("/hard/clock"), probe(b'c')).unwrap();
    let listing = v.read(&oft("/hard"), 1000).ok().expect("a listing");
    let mut expected = Vec::new();
    for name in ["clock", "screen"] {
        expected.extend_from_slice(name.as_bytes());
        expected.extend(std::iter::repeat(b' ').take(28 - name.len()));
        expected.push(b'\n');
    }
    assert_eq!(listing, expected);
    assert_eq!(v.read(&oft("/hard"), 40).ok().unwrap().len(), 29);
    assert_eq!(v.read(&oft("/hard"), 10).ok().unwrap().len(), 0);
    assert_eq!(v.read(&oft("/hard/screen/a/b"), 100).ok().unwrap(), b"a/bs".to_vec());
    assert_eq!(v.read(&oft("/none"), 10), Err(IoError::Kill));
    assert_eq!(v.write(&oft("/hard/clock"), b"abc"), 3);
    assert_eq!(v.write(&oft("/hard"), b"abc"), -1);
    assert!(!v.close(&oft("/hard/clock")));
    assert_eq!(v.give_param(&oft("/hard/clock"), 41), 42);
    assert_eq!(v.give_param(&oft("/hard"), 41), usize::MAX);
}

#[test]
fn decimal_numbers_parse_as_rust_does() {
    for s in ["0", "42", "+7", "18446744073709551615", "", "+", "-1", "4a", "18446744073709551616"] {
        assert_eq!(parse_decimal(&String::from(s)), s.parse::<usize>().ok(), "{}", s);
    }
}

#[test]
fn clip_window_takes_the_requested_bytes() {
    assert_eq!(clip_window(b"abcdef".to_vec(), 2, 3), b"cde".to_vec());
    assert_eq!(clip_window(b"abcdef".to_vec(), 4, 10), b"ef".to_vec());
    assert_eq!(clip_window(b"abcdef".to_vec(), 6, 1), Vec::<u8>::new());
}

#[test]
fn proc_reads() {
    let mut d = ProcDriver::new();
    assert!(d.get_info(&String::from("heap")).is_err());
    assert_eq!(d.open(&Path::from(""), OpenFlags::from(0)), None);
    match d.read(&Path::from("3/heap"), 0, 10, &[]) {
        ProcRead::Data(v) => assert!(v.is_empty()),
        ProcRead::Info(_, _) => panic!("no such file"),
    }
    match d.read(&Path::from("3"), 0, 10, &[]) {
        ProcRead::Data(v) => assert!(v.is_empty()),
        ProcRead::Info(_, _) => panic!("a directory"),
    }
    assert_eq!(d.write(&Path::from(""), b"x"), -1);
    assert!(!d.close(&Path::from("")));
    assert_eq!(d.give_param(&Path::from(""), 3), usize::MAX);
}

#[test]
fn keyboard_reads_queued_scancodes() {
    let mut k = KeyBoard::new();
    assert_eq!(k.open(&Path::from(""), OpenFlags::from(0)), Some(0));
    assert_eq!(k.open(&Path::from("a"), OpenFlags::from(0)), None);
    let mut none: Option<ScancodeStream> = None;
    assert_eq!(k.read(&mut none, 4), Ok(Vec::new()));
    let mut q = Some(ScancodeStream::new());
    for c in [30u8, 31, 32] {
        add_scancode(&mut q, c);
    }
    assert_eq!(k.read(&mut q, 2), Ok(vec![30, 31]));
    assert_eq!(k.read(&mut q, 5), Ok(vec![32]));
    assert_eq!(k.write(b"x"), -1);
    assert!(!k.close());
    assert_eq!(k.give_param(0), usize::MAX);
}

#[test]
fn mouse_reads_whole_packets() {
    let mut m = MouseDriver::new();
    assert_eq!(m.open(&Path::from(""), OpenFlags::from(0)), None);
    let mut q = Some(ArrayQueue::new(256));
    let p = MousePacket::new(false, false, false, false, true, false, false, true, 4, 5);
    enqueue_packet(&mut q, p).unwrap();
    enqueue_packet(&mut q, p).unwrap();
    assert_eq!(m.read(&mut q, 5), Ok(vec![0b1001, 4, 5]));
    assert_eq!(m.read(&mut q, 9), Ok(vec![0b1001, 4, 5]));
    assert_eq!(m.read(&mut q, 9), Ok(Vec::new()));
    assert_eq!(m.write(b"x"), -1);
}

#[test]
fn sound_packets_are_read_little_endian() {
    assert_eq!(u8slice_to_u64(&[1, 2, 0, 0, 0, 0, 0, 0x80]), 0x8000_0000_0000_0201);
    let mut s = SoundDriver::new();
    let mut buf = Vec::new();
    for v in [440u64, 100, 7] {
        buf.extend_from_slice(&v.to_le_bytes());
    }
    buf.push(9);
    let (n, sounds) = s.write(&buf);
    assert_eq!(n, 24);
    assert_eq!(sounds, vec![(440, 100, 7)]);
    assert_eq!(s.read(3), Err(IoError::Kill));
    assert_eq!(s.open(&Path::from(""), OpenFlags::from(0)), Some(0));
}

#[test]
fn host_shell_prints_bytes_as_characters() {
    let mut h = HostShellPartition::new();
    assert_eq!(h.open(&Path::from("any/thing"), OpenFlags::from(0)), Some(0));
    let (n, text) = h.write(b"ok\n");
    assert_eq!(n, 3);
    assert_eq!(text, String::from("ok\n"));
    assert_eq!(h.give_param(1), usize::MAX);
    assert_eq!(NoPart::new().give_param(1), usize::MAX);
}

#[test]
fn screen_parameters_resize_or_move() {
    let s = ScreenPartition::new();
    match s.param_request((1usize << 63) | (5usize << 32) | 80) {
        ScreenRequest::Resize(c) => assert_eq!((c.get_col(), c.get_row()), (80, 5)),
        ScreenRequest::Move(_) => panic!("top bit set"),
    }
    match s.param_request((3usize << 32) | 0x1_07) {
        ScreenRequest::Move(c) => assert_eq!((c.get_col(), c.get_row()), (7, 3)),
        ScreenRequest::Resize(_) => panic!("top bit clear"),
    }
    assert!(!s.opens(&Path::from("")));
}

#[test]
fn a_path_ending_in_a_slash_mounts_under_the_empty_name() {
    let mut v: VFS<Probe> = VFS::new();
    assert!(v.add_file(Path::from("/hard/screen"), probe(b's')).is_ok());
    assert!(v.add_file(Path::from("/hard/"), probe(b'e')).is_ok());
    assert!(v.add_file(Path::from("/hard/"), probe(b'f')).is_err());
    assert_eq!(v.open(&Path::from("/hard//x"), OpenFlags::from(0)), Some(b'e' as usize));
    assert_eq!(v.open(&Path::from("/hard/screen"), OpenFlags::from(0)), Some(b's' as usize));
}
