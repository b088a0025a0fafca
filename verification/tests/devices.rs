use ferr_os::gdt::gdt_entry::{kernel_cs, kernel_ds, new_cs, new_ds, GdtEntryBits};
use ferr_os::hardware::clock::{cvt_bcd, Time, WeekDay};
use ferr_os::hardware::mouse::{
    decode_simple_packet, enqueue_packet, get_packet, read_simple_packet, MouseBytes, MouseError, MousePacket,
};
use ferr_os::interrupts::idt::{EntryOptions, Idt};
use ferr_os::interrupts::{InterruptIndex, PIC_1_OFFSET};
use ferr_os::keyboard::keyboard_layout::{lower_case_fr, Effect, KeyBoardStatus, KeyEvent, Layout};
use ferr_os::keyboard::keyboard_interaction::{input_step, InputAction};
use ferr_os::keyboard::{
    add_scancode, get_top_key_event, get_top_value, process, set_layout, PopError, ScancodeStream,
};
use ferr_os::memory::paging::{translate_addr_inner, PageTables, HUGE_PAGE, PRESENT, USER_ACCESSIBLE};
use ferr_os::memory::BootInfoAllocator;
use crossbeam_queue::ArrayQueue;

#[test]
fn kernel_segments_have_their_known_descriptors() {
    assert_eq!(kernel_cs(), 0x0020_9800_0000_0000);
    assert_eq!(kernel_ds(), 0x0080_9200_0000_0000);
    assert_eq!(new_cs(), 0x0020_9C00_0000_0000);
    assert_eq!(new_ds(), 0x0080_F200_0000_0000);
}

#[test]
fn gdt_entry_setters_chain() {
    let mut e = GdtEntryBits::new();
    e.set_present(true).set_read_write(true).is_code(true);
    assert_eq!(e.as_u64(), 0x0000_9A00_0000_0000);
}

#[test]
fn interrupt_indices_follow_the_pic_offset() {
    assert_eq!(InterruptIndex::Timer.as_u8(), PIC_1_OFFSET);
    assert_eq!(InterruptIndex::Keyboard.as_u8(), PIC_1_OFFSET + 1);
    assert_eq!(InterruptIndex::Timer.as_usize(), PIC_1_OFFSET as usize);
}

#[test]
fn entry_options_stack_index_is_one_more() {
    let mut o = EntryOptions::new();
    o.set_stack_index(0);
    let mut p = EntryOptions::minimal();
    p.set_present(true).disable_interrupts(true);
    let _ = (o, p);
}

#[test]
fn bcd_digits_are_decoded() {
    assert_eq!(cvt_bcd(0x59), 59);
    assert_eq!(cvt_bcd(0x00), 0);
    assert_eq!(cvt_bcd(0x12), 12);
}

#[test]
fn week_days_are_counted_from_sunday() {
    assert_eq!(WeekDay::from_int(1), WeekDay::Sunday);
    assert_eq!(WeekDay::from_int(2), WeekDay::Monday);
    assert_eq!(WeekDay::from_int(7), WeekDay::Saturday);
    assert_eq!(WeekDay::from_int(9), WeekDay::Monday);
}

#[test]
fn clock_registers_in_binary_24_hour_mode() {
    let t = Time::from_registers(30, 15, 13, 25, 12, 21, 0b110);
    assert_eq!((t.second, t.minute, t.hour, t.day, t.month, t.year, t.century), (30, 15, 13, 25, 12, 2021, 21));
}

#[test]
fn clock_registers_in_bcd() {
    let t = Time::from_registers(0x30, 0x15, 0x13, 0x25, 0x12, 0x21, 0b010);
    assert_eq!((t.second, t.minute, t.hour, t.day, t.month, t.year), (30, 15, 13, 25, 12, 2021));
}

#[test]
fn mouse_command_bytes() {
    assert_eq!(MouseBytes::EnablePacketStreaming.to_byte(), 0xF4);
}

#[test]
fn mouse_packet_decodes_bit_by_bit() {
    let p = decode_simple_packet(0b1000_1001, 5, 250);
    assert!(p.y_overflow && p.always_on && p.left_button);
    assert!(!p.x_overflow && !p.middle_button && !p.right_button && !p.y_sign && !p.x_sign);
    assert_eq!((p.x_movement, p.y_movement), (5, 250));
}

#[test]
fn mouse_packet_round_trip_swaps_middle_and_right() {
    let p = MousePacket::new(false, false, false, false, true, true, false, true, 1, 2);
    let (f, x, y) = p.to_bytes();
    assert_eq!(f, 0b0000_1011);
    let q = decode_simple_packet(f, x, y);
    assert!(q.right_button && !q.middle_button);
    assert!(q.left_button && q.always_on);
    let same = decode_simple_packet(0b0000_1111, 0, 0);
    assert_eq!(same.to_bytes().0, 0b0000_1111);
}

#[test]
fn mouse_queue_keeps_packets_in_order() {
    let mut none: Option<ArrayQueue<MousePacket>> = None;
    let p = decode_simple_packet(0b0000_1000, 1, 1);
    assert_eq!(enqueue_packet(&mut none, p), Err(MouseError::QueueNotPresent));
    assert!(get_packet(&mut none).is_none());
    let mut q = Some(ArrayQueue::new(256));
    read_simple_packet(&mut q, 0b0000_1001, 3, 4);
    assert_eq!(enqueue_packet(&mut q, p), Ok(()));
    let first = get_packet(&mut q).expect("a packet");
    assert!(first.left_button);
    assert_eq!((first.x_movement, first.y_movement), (3, 4));
    assert_eq!(get_packet(&mut q), Some(p));
    assert!(get_packet(&mut q).is_none());
}

#[test]
fn mouse_queue_full_at_capacity() {
    let mut q = Some(ArrayQueue::new(2));
    let p = decode_simple_packet(0, 0, 0);
    assert_eq!(enqueue_packet(&mut q, p), Ok(()));
    assert_eq!(enqueue_packet(&mut q, p), Ok(()));
    assert_eq!(enqueue_packet(&mut q, p), Err(MouseError::UnknownError));
    let mut big = Some(ArrayQueue::new(300));
    for _ in 0..256 {
        assert_eq!(enqueue_packet(&mut big, p), Ok(()));
    }
    assert_eq!(enqueue_packet(&mut big, p), Err(MouseError::QueueFull));
}

#[test]
fn french_layout_letters() {
    assert_eq!(lower_case_fr(16), Effect::Value(KeyEvent::Character('a')));
    let mut k = KeyBoardStatus::new();
    assert_eq!(k.get_layout(), Layout::Fr);
    assert_eq!(k.process(16), Effect::Value(KeyEvent::Character('a')));
    assert_eq!(k.process(16 + 128), Effect::Nothing);
    k.maj_s();
    assert!(k.maj());
}

#[test]
fn frames_are_handed_out_in_order_then_exhausted() {
    let mut a = BootInfoAllocator::with_frames(&[0x1000, 0x3000]);
    let f1 = a.allocate_4k_frame().expect("a free frame");
    assert_eq!(f1.as_u64(), 0x1000);
    let f2 = a.allocate_4k_frame().expect("another free frame");
    assert_eq!(f2.as_u64(), 0x3000);
    assert!(a.allocate_4k_frame().is_none());
    assert!(BootInfoAllocator::empty().allocate_4k_frame().is_none());
    assert!(a.deallocate_4k_frame(x86_64::PhysAddr::new(0x1000)).is_ok());
    assert_eq!(a.allocate_4k_frame().expect("the frame given back").as_u64(), 0x1000);
    assert!(a.deallocate_4k_frame(x86_64::PhysAddr::new(0x9000)).is_ok());
    assert!(a.allocate_4k_frame().is_none());
}

#[test]
fn scancode_before_the_queues_exist_only_creates_them() {
    let mut stream: Option<ScancodeStream> = None;
    add_scancode(&mut stream, 16);
    assert!(stream.is_some());
    assert_eq!(get_top_key_event(&mut stream), Err(PopError));
}

#[test]
fn queued_scancodes_decode_in_order() {
    let mut stream = Some(ScancodeStream::new());
    let mut status = KeyBoardStatus::new();
    add_scancode(&mut stream, 16);
    add_scancode(&mut stream, 17);
    assert_eq!(get_top_value(&mut stream, &mut status), Ok(KeyEvent::Character('a')));
    assert_eq!(get_top_value(&mut stream, &mut status), Ok(KeyEvent::Character('z')));
    assert_eq!(get_top_value(&mut stream, &mut status), Err(PopError));
}

#[test]
fn tab_switches_layout_without_an_event() {
    let mut stream = Some(ScancodeStream::new());
    let mut status = KeyBoardStatus::new();
    add_scancode(&mut stream, 15);
    add_scancode(&mut stream, 16);
    assert_eq!(get_top_value(&mut stream, &mut status), Err(PopError));
    assert!(status.get_layout() == Layout::Us);
    assert_eq!(get_top_value(&mut stream, &mut status), Ok(KeyEvent::Character('a')));
}

#[test]
fn full_key_queue_drops_its_oldest_event() {
    let mut stream = Some(ScancodeStream::new());
    let mut status = KeyBoardStatus::new();
    for code in 16u8..=26 {
        add_scancode(&mut stream, code);
    }
    for _ in 0..11 {
        process(&mut stream, &mut status);
    }
    assert_eq!(get_top_value(&mut stream, &mut status), Ok(KeyEvent::Character('z')));
}

#[test]
fn full_scancode_queue_drops_new_scancodes() {
    let mut stream = Some(ScancodeStream::new());
    for _ in 0..20 {
        add_scancode(&mut stream, 16);
    }
    add_scancode(&mut stream, 17);
    for _ in 0..20 {
        assert_eq!(get_top_key_event(&mut stream), Ok(16));
    }
    assert_eq!(get_top_key_event(&mut stream), Err(PopError));
}

#[test]
fn layout_codes_past_the_last_are_ignored() {
    let mut status = KeyBoardStatus::new();
    set_layout(&mut status, 1);
    assert!(status.get_layout() == Layout::Us);
    set_layout(&mut status, 2);
    assert!(status.get_layout() == Layout::Us);
    set_layout(&mut status, 0);
    assert!(status.get_layout() == Layout::Fr);
}

#[test]
fn typed_line_is_edited_and_completed() {
    let mut line = String::new();
    assert_eq!(input_step(&mut line, KeyEvent::Character('\n'), false), InputAction::Nothing);
    assert_eq!(input_step(&mut line, KeyEvent::Character('a'), false), InputAction::Echo('a'));
    assert_eq!(input_step(&mut line, KeyEvent::Character('b'), false), InputAction::Echo('b'));
    assert_eq!(input_step(&mut line, KeyEvent::Character('\x08'), false), InputAction::Redraw);
    assert_eq!(line, "a");
    assert_eq!(input_step(&mut line, KeyEvent::SpecialKey(0), true), InputAction::Nothing);
    assert_eq!(line, "");
    assert_eq!(input_step(&mut line, KeyEvent::SpecialKey(0), false), InputAction::Redraw);
    assert_eq!(input_step(&mut line, KeyEvent::Character('z'), true), InputAction::Nothing);
    assert_eq!(input_step(&mut line, KeyEvent::SpecialKey(1), false), InputAction::Nothing);
    assert_eq!(input_step(&mut line, KeyEvent::Character('\n'), true), InputAction::Done);
    assert_eq!(line, "z");
}

#[test]
fn idt_index_reaches_the_entry_it_set() {
    let mut idt = Idt::new();
    let missing = format!("{:?}", idt.index(33));
    idt.index_mut(33).set_handler_address(0x0001_0002_0003, 8);
    let set = format!("{:?}", idt.index(33));
    assert!(set.contains("pointer_low: 3,"));
    assert!(set.contains("gdt_selector: 8,"));
    assert!(set.contains("pointer_middle: 2,"));
    assert!(set.contains("pointer_high: 1,"));
    assert!(set.contains("EntryOptions(36352)"));
    assert_eq!(format!("{:?}", idt.index(32)), missing);
    assert_eq!(format!("{:?}", idt.index(0x81)), missing);
    assert!(missing.contains("EntryOptions(3584)"));
}

#[test]
fn set_base_stores_all_base_bits() {
    let mut g = GdtEntryBits::new();
    g.set_base(0x1234_5678);
    assert_eq!(g.as_u64(), (0x34u64 << 16) | (0x5678u64 << 32) | (0x10u64 << 40) | (0x12u64 << 54));
}

fn table_with(index: usize, entry: u64) -> Vec<u64> {
    let mut t = vec![0u64; 512];
    t[index] = entry;
    t
}

fn four_level_tables(l2_entry: u64) -> PageTables {
    let mut t = PageTables::new();
    t.store_table(0x1000, table_with(1, 0x2000 | PRESENT));
    t.store_table(0x2000, table_with(2, 0x3000 | PRESENT | USER_ACCESSIBLE));
    t.store_table(0x3000, table_with(3, l2_entry));
    t.store_table(0x4000, table_with(4, 0x0008_0000_5000 | PRESENT));
    t
}

const SAMPLE_ADDR: u64 = (1 << 39) | (2 << 30) | (3 << 21) | (4 << 12) | 0x123;

#[test]
fn translation_follows_the_four_tables() {
    let t = four_level_tables(0x4000 | PRESENT);
    assert_eq!(translate_addr_inner(&t, 0x1000, SAMPLE_ADDR), Some(0x0008_0000_5123));
    assert_eq!(t.entry(0x1000, 1), 0x2001);
    assert_eq!(t.entry(0x9000, 1), 0);
}

#[test]
fn translation_stops_at_missing_or_huge_entries() {
    let t = four_level_tables(0x4000 | PRESENT);
    assert_eq!(translate_addr_inner(&t, 0x1000, SAMPLE_ADDR + 0x1000), None);
    assert_eq!(translate_addr_inner(&t, 0x7000, SAMPLE_ADDR), None);
    let huge = four_level_tables(0x4000 | PRESENT | HUGE_PAGE);
    assert_eq!(translate_addr_inner(&huge, 0x1000, SAMPLE_ADDR), None);
    let mut replaced = four_level_tables(0x4000 | PRESENT);
    replaced.store_table(0x4000, table_with(4, 0x6000 | PRESENT));
    assert_eq!(translate_addr_inner(&replaced, 0x1000, SAMPLE_ADDR), Some(0x6123));
}

const BIT_9: u64 = 0x200;

fn user_tables(level_1: Vec<u64>) -> PageTables {
    let mut t = PageTables::new();
    t.store_table(0x1000, table_with(0, 0x2000 | PRESENT | USER_ACCESSIBLE | BIT_9));
    t.store_table(0x2000, table_with(0, 0x3000 | PRESENT | USER_ACCESSIBLE | BIT_9));
    t.store_table(0x3000, table_with(0, 0x4000 | PRESENT | USER_ACCESSIBLE | BIT_9));
    t.store_table(0x4000, level_1);
    t
}

fn handed_out(a: &mut BootInfoAllocator) -> Vec<u64> {
    let mut out = Vec::new();
    while let Some(f) = a.allocate_4k_frame() {
        out.push(f.as_u64());
    }
    out
}

#[test]
fn sweeping_every_marked_mapping_empties_the_tables() {
    let mut a = BootInfoAllocator::with_frames(&[0x9000]);
    let mut t = user_tables(table_with(0, 0x5000 | PRESENT | BIT_9));
    assert_eq!(a.deallocate_level_4_page(&mut t, 0x1000, BIT_9).ok(), Some(true));
    assert_eq!(t.entry(0x1000, 0), 0x2000);
    assert_eq!(t.entry(0x2000, 0), 0x3000);
    assert_eq!(t.entry(0x4000, 0), 0x5000);
    assert_eq!(handed_out(&mut a), vec![0x2000, 0x3000, 0x4000, 0x5000, 0x9000]);
}

#[test]
fn sweeping_keeps_tables_that_still_map_something() {
    let mut a = BootInfoAllocator::with_frames(&[0x9000]);
    let mut level_1 = table_with(0, 0x5000 | PRESENT | BIT_9);
    level_1[1] = 0x6000 | PRESENT;
    let mut t = user_tables(level_1);
    assert_eq!(a.deallocate_level_4_page(&mut t, 0x1000, BIT_9).ok(), Some(false));
    assert_eq!(t.entry(0x4000, 0), 0x5000);
    assert_eq!(t.entry(0x4000, 1), 0x6001);
    assert_eq!(t.entry(0x3000, 0), 0x4001);
    assert_eq!(t.entry(0x1000, 0), 0x2001);
    assert_eq!(handed_out(&mut a), vec![0x5000, 0x9000]);
}

#[test]
fn adding_a_mapping_builds_the_missing_tables() {
    let mut a = BootInfoAllocator::with_frames(&[0x5000, 0x6000, 0x7000, 0x8000]);
    let mut t = PageTables::new();
    t.store_table(0x1000, vec![0u64; 512]);
    let user = PRESENT | USER_ACCESSIBLE;
    assert!(a.add_entry_to_table(&mut t, 0x1000, SAMPLE_ADDR, user, false).is_ok());
    assert_eq!(t.entry(0x1000, 1), 0x5005);
    assert_eq!(t.entry(0x5000, 2), 0x6005);
    assert_eq!(t.entry(0x7000, 4), 0x8005);
    assert_eq!(translate_addr_inner(&t, 0x1000, SAMPLE_ADDR), Some(0x8123));
    assert!(a.add_entry_to_table(&mut t, 0x1000, SAMPLE_ADDR, user, false).is_err());
    assert!(a.add_entry_to_table(&mut t, 0x1000, SAMPLE_ADDR, user | BIT_9, true).is_ok());
    assert_eq!(t.entry(0x7000, 4), 0x8205);
    assert!(a.add_entry_to_table(&mut t, 0x1000, SAMPLE_ADDR + 0x1000, user, false).is_err());
    assert!(a.allocate_4k_frame().is_none());
}

#[test]
fn adding_under_a_kernel_entry_is_refused() {
    let mut a = BootInfoAllocator::with_frames(&[0x5000]);
    let mut t = PageTables::new();
    t.store_table(0x1000, table_with(1, 0x2000 | PRESENT));
    assert!(a.add_entry_to_table(&mut t, 0x1000, SAMPLE_ADDR, PRESENT | USER_ACCESSIBLE, false).is_err());
    assert_eq!(t.entry(0x1000, 1), 0x2001);
    assert_eq!(a.allocate_4k_frame().map(|f| f.as_u64()), Some(0x5000));
}

fn forked_process_tables() -> PageTables {
    let user = PRESENT | USER_ACCESSIBLE;
    let mut t = PageTables::new();
    t.store_table(0x1000, table_with(0, 0x2000 | user));
    t.store_table(0x2000, table_with(0, 0x3000 | user));
    t.store_table(0x3000, table_with(0, 0x4000 | user));
    let mut level_1 = table_with(0, 0xA000 | user);
    level_1[1] = 0xB000 | PRESENT;
    level_1[2] = BIT_9;
    t.store_table(0x4000, level_1);
    t.store_table(0xA000, table_with(3, 42));
    t
}

#[test]
fn copying_tables_duplicates_user_pages() {
    let mut a = BootInfoAllocator::with_frames(&[0x5000, 0x6000, 0x7000, 0x8000, 0x9000]);
    let mut t = forked_process_tables();
    assert_eq!(a.copy_table_entries(&mut t, 0x1000).ok(), Some(0x5000));
    assert_eq!(t.entry(0x5000, 0), 0x6005);
    assert_eq!(t.entry(0x8000, 0), 0x9005);
    assert_eq!(t.entry(0x8000, 1), 0xB001);
    assert_eq!(t.entry(0x8000, 2), BIT_9);
    assert_eq!(t.entry(0x9000, 3), 42);
    assert_eq!(translate_addr_inner(&t, 0x5000, 0x123), Some(0x9123));
    assert_eq!(translate_addr_inner(&t, 0x1000, 0x123), Some(0xA123));
}

#[test]
fn copying_tables_fails_when_frames_run_out() {
    let mut a = BootInfoAllocator::with_frames(&[0x5000, 0x6000, 0x7000]);
    let mut t = forked_process_tables();
    assert!(a.copy_table_entries(&mut t, 0x1000).is_err());
    assert!(a.allocate_4k_frame().is_none());
    assert_eq!(translate_addr_inner(&t, 0x1000, 0x123), Some(0xA123));
}

#[test]
fn adding_a_mapping_with_data_fills_the_page() {
    let mut a = BootInfoAllocator::with_frames(&[0x5000, 0x6000, 0x7000, 0x8000, 0x9000]);
    let mut t = PageTables::new();
    t.store_table(0x1000, vec![0u64; 512]);
    let mut data = [7u64; 512];
    data[5] = 9;
    let user = PRESENT | USER_ACCESSIBLE;
    assert!(a.add_entry_to_table_with_data(&mut t, 0x1000, SAMPLE_ADDR, user, &data).is_ok());
    assert_eq!(translate_addr_inner(&t, 0x1000, SAMPLE_ADDR), Some(0x8123));
    assert_eq!(t.entry(0x8000, 5), 9);
    assert_eq!(t.entry(0x8000, 6), 7);
    assert!(a.add_entry_to_table_with_data(&mut t, 0x1000, SAMPLE_ADDR, user, &data).is_err());
    assert_eq!(a.allocate_4k_frame().map(|f| f.as_u64()), Some(0x9000));
}
