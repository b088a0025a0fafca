use ferr_os::data_storage::random::{random_u8, INITIAL_SEED};
use ferr_os::hardware::power::QemuExitCode;
use ferr_os::data_storage::path::Path;
use ferr_os::data_storage::queue::{Error, Queue};
use ferr_os::data_storage::screen::Coord;
use ferr_os::allocator::align_up;
use ferr_os::allocator::linked_list::LinkedListAllocator;

#[test]
fn path_slice_cuts_at_every_separator() {
    let p = Path::from("/hard/screen");
    let s = p.slice();
    assert_eq!(s, vec![String::new(), String::from("hard"), String::from("screen")]);
    assert_eq!(p.len(), 3);
    assert_eq!(Path::from("").slice(), vec![String::new()]);
    assert_eq!(Path::from("").len(), 1);
}

#[test]
fn path_parent_and_name() {
    let p = Path::from("/usr/bin/ls");
    assert_eq!(p.get_parent().to(), String::from("/usr/bin"));
    assert_eq!(p.get_name(), String::from("ls"));
}

#[test]
fn path_join_of_split_gives_path_back() {
    let p = Path::from("a//b/c/");
    let q = Path::from_sliced(&p.slice());
    assert_eq!(q.to(), p.to());
}

#[test]
fn path_push_then_name_and_parent() {
    let mut p = Path::from("/dev");
    p.push_str("fifo");
    assert_eq!(p.to(), String::from("/dev/fifo"));
    assert_eq!(p.get_name(), String::from("fifo"));
    assert_eq!(p.get_parent().to(), String::from("/dev"));
    assert!(!p.is_empty());
    assert!(Path::new().is_empty());
    assert_eq!(p.duplicate().owned_to(), String::from("/dev/fifo"));
}

#[test]
fn queue_is_first_in_first_out() {
    let mut q: Queue<u32> = Queue::new();
    assert!(q.is_empty());
    assert_eq!(q.push(1), Ok(()));
    assert_eq!(q.push(2), Ok(()));
    assert_eq!(q.pop(), Ok(1));
    assert_eq!(q.pop(), Ok(2));
    assert_eq!(q.pop(), Err(Error::Underflow));
}

#[test]
fn queue_refuses_a_33rd_element() {
    let mut q: Queue<u8> = Queue::new();
    for i in 0..32u8 {
        assert_eq!(q.push(i), Ok(()));
    }
    assert!(q.is_full());
    assert_eq!(q.push(99), Err(Error::Overflow));
    assert_eq!(q.pop(), Ok(0));
    assert_eq!(q.push(99), Ok(()));
}

#[test]
fn coord_setters() {
    let mut c = Coord::new(3, 4);
    assert_eq!((c.get_col(), c.get_row()), (3, 4));
    c.set_col(7);
    c.set_row(9);
    assert_eq!((c.get_col(), c.get_row()), (7, 9));
}

#[test]
fn align_up_rounds_to_multiples() {
    assert_eq!(align_up(0, 8), 0);
    assert_eq!(align_up(1, 8), 8);
    assert_eq!(align_up(16, 8), 16);
    assert_eq!(align_up(17, 16), 32);
}

#[test]
fn allocator_sizes_and_alignments() {
    assert_eq!(LinkedListAllocator::size_align(1, 1), (24, 8));
    assert_eq!(LinkedListAllocator::size_align(30, 4), (32, 8));
    assert_eq!(LinkedListAllocator::size_align(10, 64), (64, 64));
}

#[test]
fn allocator_hands_out_then_takes_back() {
    let mut a = LinkedListAllocator::new();
    a.init(4096, 1024);
    let p = a.allocate(100, 8).expect("room for 100 bytes");
    assert_eq!(p, 4096);
    let q = a.allocate(100, 8).expect("room for 100 more bytes");
    assert_eq!(q, 4096 + 104);
    assert_eq!(a.allocate(4096, 8), None);
    a.deallocate(p, 100, 8);
    let r = a.allocate(50, 8).expect("the freed block is reused");
    assert_eq!(r, 4096);
}

#[test]
fn allocator_search_stays_in_the_address_space() {
    let top = (usize::MAX - 64) & !7;
    let mut a = LinkedListAllocator::new();
    a.init(top, 64);
    assert!(a.search_in_range(8, 8));
    assert!(!a.search_in_range(8, 128));
    let mut b = LinkedListAllocator::new();
    b.init(top, 64);
    b.init(4096, 1024);
    assert!(b.search_in_range(8, 128));
    assert_eq!(b.allocate(8, 128), Some(4096));
}

#[test]
fn random_bytes_follow_the_shift_register() {
    let mut seed = INITIAL_SEED;
    assert_eq!(random_u8(&mut seed), 0xAD);
    assert_eq!(random_u8(&mut seed), 0x56);
    assert_eq!(random_u8(&mut seed), 0x93);
    assert_eq!(seed, 0x93);
}

#[test]
fn random_steps_never_merge_two_seeds() {
    let mut seen = [false; 256];
    for s in 0u8..=255 {
        let mut t = s;
        let n = random_u8(&mut t) as usize;
        assert!(!seen[n]);
        seen[n] = true;
    }
}

#[test]
fn qemu_exit_codes() {
    assert_eq!(QemuExitCode::Success.code(), 0x10);
    assert_eq!(QemuExitCode::Failed.code(), 0x11);
}
