use kernel::memory::allocate;
use kernel::memory::build;
use kernel::memory::free;
use kernel::memory::hhdm;
use kernel::memory::map_to;
use kernel::memory::translate_page;
use kernel::memory::Memory;
use kernel::memory::MemmapEntry;
use kernel::memory::MemoryError;
use kernel::memory::MemoryKind;

fn usable(base: u64, len: u64) -> MemmapEntry {
    MemmapEntry { base, len, typ: MemoryKind::Usable }
}

#[test]
fn allocate_from_empty_list_is_out_of_memory() {
    let mut m = Memory::new();
    assert_eq!(allocate(&mut m), Err(MemoryError::OutOfMemory));
    assert_eq!(MemoryError::OutOfMemory.message(), "Out of memory");
}

#[test]
fn free_rounds_down_and_allocate_is_lifo() {
    let mut m = Memory::new();
    free(&mut m, 0x5123);
    free(&mut m, 0x9000);
    assert_eq!(allocate(&mut m), Ok(0x9000));
    assert_eq!(allocate(&mut m), Ok(0x5000));
    assert_eq!(allocate(&mut m), Err(MemoryError::OutOfMemory));
}

#[test]
fn free_then_allocate_gives_the_frame_back() {
    let mut m = Memory::new();
    free(&mut m, 0x3000);
    let before = m.free_list().clone();
    free(&mut m, 0x7fff);
    assert_eq!(allocate(&mut m), Ok(0x7000));
    assert_eq!(m.free_list(), &before);
}

#[test]
fn allocate_then_free_restores_the_list() {
    let mut m = Memory::new();
    free(&mut m, 0x3000);
    free(&mut m, 0x8000);
    let before = m.free_list().clone();
    let page = allocate(&mut m).unwrap();
    assert_eq!(page, 0x8000);
    free(&mut m, page);
    assert_eq!(m.free_list(), &before);
}

#[test]
fn build_frees_usable_regions_frame_by_frame() {
    let mut m = Memory::new();
    let map = vec![
        usable(0x1000, 0x2800),
        MemmapEntry { base: 0x10000, len: 0x1000, typ: MemoryKind::Reserved },
        usable(0x20100, 0x1000),
    ];
    build(&mut m, &map, 0xffff_8000_0000_0000);
    assert_eq!(m.free_list(), &vec![0x1000, 0x2000, 0x3000, 0x20000]);
    assert_eq!(allocate(&mut m), Ok(0x20000));
    assert_eq!(hhdm(&m), 0xffff_8000_0000_0000);
}

#[test]
fn hhdm_sign_extends_bit_47() {
    let mut m = Memory::new();
    build(&mut m, &[], 0x0000_8000_0000_0000);
    assert_eq!(hhdm(&m), 0xffff_8000_0000_0000);
}

fn memory_with_root(frames: u64) -> Memory {
    let mut m = Memory::new();
    m.load_table(0x100000, vec![0; 512]);
    build(&mut m, &[usable(0x200000, frames * 0x1000)], 0xffff_8000_0000_0000);
    m
}

#[test]
fn map_to_then_translate() {
    let mut m = memory_with_root(16);
    assert_eq!(map_to(&mut m, 0x100000, 0x4000_1000, 0xABC000, 7), Some(0xABC000));
    assert_eq!(m.free_count(), 13);
    assert_eq!(translate_page(&m, 0x100000, 0x4000_1000), Some(0xABC000));
    assert_eq!(translate_page(&m, 0x100000, 0x4000_1234), Some(0xABC000));
    assert_eq!(translate_page(&m, 0x100000, 0x4000_2000), None);
    assert_eq!(translate_page(&m, 0x100000, 0x8000_0000), None);
}

#[test]
fn map_to_reuses_existing_tables() {
    let mut m = memory_with_root(16);
    map_to(&mut m, 0x100000, 0x1000, 0x5000, 7).unwrap();
    map_to(&mut m, 0x100000, 0x2000, 0x6000, 7).unwrap();
    assert_eq!(m.free_count(), 13);
    assert_eq!(translate_page(&m, 0x100000, 0x1000), Some(0x5000));
    assert_eq!(translate_page(&m, 0x100000, 0x2000), Some(0x6000));
}

#[test]
fn map_to_without_present_flag_is_not_mapped() {
    let mut m = memory_with_root(16);
    assert_eq!(map_to(&mut m, 0x100000, 0x1000, 0x5000, 6), Some(0x5000));
    assert_eq!(translate_page(&m, 0x100000, 0x1000), None);
}

#[test]
fn map_to_out_of_frames() {
    let mut m = memory_with_root(2);
    assert_eq!(map_to(&mut m, 0x100000, 0x1000, 0x5000, 7), None);
    assert_eq!(m.free_count(), 0);
}

#[test]
fn new_tables_are_taken_from_the_free_list() {
    let mut m = memory_with_root(3);
    map_to(&mut m, 0x100000, 0x1000, 0x5000, 7).unwrap();
    let root = m.table(0x100000).unwrap();
    assert_eq!(root[0], 0x202000 | 7);
    let l3 = m.table(0x202000).unwrap();
    assert_eq!(l3[0], 0x201000 | 7);
    let l1 = m.table(0x200000).unwrap();
    assert_eq!(l1[1], 0x5007);
}

#[test]
fn failed_map_to_writes_no_leaf_and_keeps_mappings() {
    let mut m = memory_with_root(16);
    map_to(&mut m, 0x100000, 0x1000, 0x5000, 7).unwrap();
    // leave one frame: a walk in another 1 GiB region needs two tables
    while m.free_count() > 1 {
        allocate(&mut m).unwrap();
    }
    assert_eq!(map_to(&mut m, 0x100000, 0x4000_0000, 0x9000, 7), None);
    assert_eq!(m.free_count(), 0);
    assert_eq!(translate_page(&m, 0x100000, 0x1000), Some(0x5000));
    assert_eq!(translate_page(&m, 0x100000, 0x4000_0000), None);
    // the level-2 table made before the list ran out is linked and empty
    let l3 = m.table(m.table(0x100000).unwrap()[0] & !0xFFF).unwrap();
    assert_eq!(l3[1] & 7, 7);
    let l2 = m.table(l3[1] & !0xFFF).unwrap();
    assert!(l2.iter().all(|e| *e == 0));
}
