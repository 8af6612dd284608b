use kernel::memory::build;
use kernel::memory::translate_page;
use kernel::memory::Memory;
use kernel::memory::MemmapEntry;
use kernel::memory::MemoryKind;
use kernel::process::create_new_pagemap;
use kernel::process::create_process;
use kernel::process::Process;
use kernel::process::Scheduler;

const KERNEL_PML4: u64 = 0x100000;

fn memory(frames: u64) -> Memory {
    let mut m = Memory::new();
    let mut kernel = vec![0u64; 512];
    kernel[0] = 0x55_5007;
    kernel[511] = 0x66_6003;
    m.load_table(KERNEL_PML4, kernel);
    build(&mut m, &[MemmapEntry { base: 0x200000, len: frames * 0x1000, typ: MemoryKind::Usable }], 0);
    m
}

fn process(pagemap: u64) -> Process {
    Process { _pid: 1, _active: None, pagemap, stack: 0, rip: 0, regs: vec![0; 16], next: None, prev: None }
}

#[test]
fn new_pagemap_copies_the_kernel_table_without_its_first_entry() {
    let mut m = memory(4);
    let p = create_new_pagemap(&mut m, KERNEL_PML4).unwrap();
    assert_eq!(p, 0x203000);
    let t = m.table(p).unwrap();
    assert_eq!(t[0], 0);
    assert_eq!(t[511], 0x66_6003);
    assert_eq!(m.free_count(), 3);
}

#[test]
fn new_pagemap_out_of_frames() {
    let mut m = memory(0);
    assert_eq!(create_new_pagemap(&mut m, KERNEL_PML4), None);
}

#[test]
fn create_process_maps_image_stack_and_process_page() {
    let mut m = memory(64);
    let mut s = Scheduler::new();
    assert_eq!(create_process(&mut s, &mut m, KERNEL_PML4, 0x30_0000, 5000), Some(()));
    assert_eq!(s.process_count(), 1);
    assert_eq!(s.current_process(), Some(0));
    assert_eq!(s.restore_rip(), 0x2000);
    assert_eq!(s.restore_stack(), 0x2000 + 0x1000 + 0x7f00);
    assert_eq!(s.restore_register(5), 0);
    let pagemap = s.restore_pagemap() as u64;
    assert_eq!(translate_page(&m, pagemap, 0x2000), Some(0x30_0000));
    assert_eq!(translate_page(&m, pagemap, 0x3000), Some(0x30_1000));
    for k in 0..8 {
        assert!(translate_page(&m, pagemap, 0x4000 + 0x1000 * k).is_some());
    }
    assert!(translate_page(&m, pagemap, 0x1000).is_some());
    assert_eq!(translate_page(&m, pagemap, 0xC000), None);
    assert_eq!(translate_page(&m, pagemap, 0x0), None);
    assert_eq!(translate_page(&m, pagemap, 0x20_0000), None);
    assert_eq!(m.table(pagemap).unwrap()[511], 0x66_6003);
    // pagemap, three tables, eight stack pages and the process page
    assert_eq!(m.free_count(), 64 - 13);
}

#[test]
fn create_process_fails_when_frames_run_out() {
    let mut m = memory(5);
    let mut s = Scheduler::new();
    assert_eq!(create_process(&mut s, &mut m, KERNEL_PML4, 0x30_0000, 100), None);
    assert_eq!(m.free_count(), 0);
    assert_eq!(s.process_count(), 0);
    assert_eq!(s.current_process(), None);
}

#[test]
fn create_process_needs_exactly_its_frames() {
    let mut m = memory(12);
    let mut s = Scheduler::new();
    assert_eq!(create_process(&mut s, &mut m, KERNEL_PML4, 0x30_0000, 4096), None);
    assert_eq!(m.free_count(), 0);
    let mut m = memory(12);
    assert_eq!(create_process(&mut s, &mut m, KERNEL_PML4, 0x30_0000, 0), None);
    assert_eq!(s.process_count(), 0);
    let mut m = memory(13);
    let mut s = Scheduler::new();
    assert_eq!(create_process(&mut s, &mut m, KERNEL_PML4, 0x30_0000, 4096), Some(()));
    assert_eq!(m.free_count(), 0);
}

#[test]
fn an_image_past_two_mib_takes_one_more_table() {
    // pages 2 to 512 are mapped: page 512 starts the second 2 MiB
    let len = 503 * 4096;
    let mut m = memory(13);
    let mut s = Scheduler::new();
    assert_eq!(create_process(&mut s, &mut m, KERNEL_PML4, 0x40_0000, len), None);
    let mut m = memory(14);
    assert_eq!(create_process(&mut s, &mut m, KERNEL_PML4, 0x40_0000, len), Some(()));
    assert_eq!(m.free_count(), 0);
    let pagemap = s.pagemap_of(0);
    assert_eq!(translate_page(&m, pagemap, 0x2000 + 502 * 0x1000), Some(0x40_0000 + 502 * 0x1000));
    assert!(translate_page(&m, pagemap, 0x2000 + 510 * 0x1000).is_some());
    assert_eq!(translate_page(&m, pagemap, 0x2000 + 511 * 0x1000), None);
}

#[test]
fn second_process_joins_before_the_first() {
    let mut m = memory(64);
    let mut s = Scheduler::new();
    create_process(&mut s, &mut m, KERNEL_PML4, 0x30_0000, 2).unwrap();
    create_process(&mut s, &mut m, KERNEL_PML4, 0x31_0000, 2).unwrap();
    assert_eq!(s.process_count(), 2);
    assert_eq!(s.current_process(), Some(0));
    let first = s.pagemap_of(0);
    let second = s.pagemap_of(1);
    assert_ne!(first, second);
    assert_eq!(translate_page(&m, first, 0x2000), Some(0x30_0000));
    assert_eq!(translate_page(&m, second, 0x2000), Some(0x31_0000));
    assert_eq!(m.free_count(), 64 - 26);
    s.schedule_next();
    assert_eq!(s.current_process(), Some(1));
}

#[test]
fn stack_and_process_pages_get_fresh_distinct_frames() {
    let mut m = memory(64);
    let free = m.free_list().clone();
    let mut s = Scheduler::new();
    create_process(&mut s, &mut m, KERNEL_PML4, 0x30_0000, 5000).unwrap();
    let pagemap = s.pagemap_of(0);
    let mut frames = vec![];
    for k in 0..8 {
        let f = translate_page(&m, pagemap, 0x4000 + 0x1000 * k).unwrap();
        assert!(free.contains(&f));
        assert!(m.table(f).is_none());
        assert_ne!(f, 0x30_0000);
        assert!(!frames.contains(&f));
        frames.push(f);
    }
    let p = translate_page(&m, pagemap, 0x1000).unwrap();
    assert!(free.contains(&p) && !frames.contains(&p));
    // the process page is the last frame taken
    assert_eq!(p, free[64 - 13]);
}

#[test]
fn three_processes_leave_the_kernel_table_alone_and_run_in_order() {
    let mut m = memory(64);
    let kernel_before = m.table(KERNEL_PML4).unwrap();
    let mut s = Scheduler::new();
    for image in [0x30_0000u64, 0x31_0000, 0x32_0000] {
        create_process(&mut s, &mut m, KERNEL_PML4, image, 2).unwrap();
        assert_eq!(m.table(KERNEL_PML4).unwrap(), kernel_before);
    }
    assert_eq!(s.current_process(), Some(0));
    for expected in [1, 2, 0, 1, 2, 0] {
        s.schedule_next();
        assert_eq!(s.current_process(), Some(expected));
    }
    assert_eq!(translate_page(&m, s.pagemap_of(2), 0x2000), Some(0x32_0000));
}

#[test]
fn new_processes_run_last_in_the_round() {
    let mut s = Scheduler::new();
    s.insert(process(0xA000));
    s.insert(process(0xB000));
    s.insert(process(0xC000));
    assert_eq!(s.current_process(), Some(0));
    s.schedule_next();
    assert_eq!(s.current_process(), Some(1));
    s.schedule_next();
    assert_eq!(s.current_process(), Some(2));
    s.schedule_next();
    assert_eq!(s.current_process(), Some(0));
    s.schedule_next();
    s.insert(process(0xD000));
    s.schedule_next();
    s.schedule_next();
    assert_eq!(s.current_process(), Some(0));
    s.schedule_next();
    assert_eq!(s.current_process(), Some(3));
    s.schedule_next();
    assert_eq!(s.current_process(), Some(1));
}

#[test]
fn every_process_runs_once_in_each_round_however_long() {
    let mut s = Scheduler::new();
    for pm in [0xA000u64, 0xB000, 0xC000] {
        s.insert(process(pm));
    }
    for k in 1..100usize {
        s.schedule_next();
        assert_eq!(s.current_process(), Some(k % 3));
    }
}

#[test]
fn one_process_runs_again_and_again() {
    let mut s = Scheduler::new();
    s.insert(process(0xA000));
    s.schedule_next();
    assert_eq!(s.current_process(), Some(0));
}

#[test]
fn registers_stack_and_rip_are_saved_for_the_current_process() {
    let mut s = Scheduler::new();
    s.insert(process(0xA000));
    s.insert(process(0xB000));
    s.store_register(3, 42);
    s.store_stack(0x7000);
    s.store_rip(0x2345);
    assert_eq!(s.restore_register(3), 42);
    assert_eq!(s.restore_stack(), 0x7000);
    assert_eq!(s.restore_rip(), 0x2345);
    assert_eq!(s.restore_pagemap(), 0xA000);
    s.schedule_next();
    assert_eq!(s.restore_register(3), 0);
    assert_eq!(s.restore_pagemap(), 0xB000);
}

#[test]
fn kernel_pagemap_and_rip_are_remembered() {
    let mut s = Scheduler::new();
    s.store_kernel_pagemap(0x1000);
    s.store_kernel_rip(0xFFFF_8000_0000_1234);
    assert_eq!(s.restore_kernel_pagemap(), 0x1000);
    assert_eq!(s.restore_kernel_rip(), 0xFFFF_8000_0000_1234);
}

#[test]
fn test_image_is_a_jump_to_itself() {
    assert_eq!(kernel::TEST_IMAGE.1, [0xEB, 0xFE]);
}
