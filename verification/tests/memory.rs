//! Physical memory, frames, page tables and programs.
use forge_kernel::audit;
use forge_kernel::elf::{self, Trouble};
use forge_kernel::heap::{self, BumpAllocator};
use forge_kernel::mb2;
use forge_kernel::mem::PhysMemory;
use forge_kernel::mmu;
use forge_kernel::pmm::{self, FrameBitmap};

const ROOT: u64 = 0x1000;

/// `frames` frames from address 0 on, all zero.
fn memory(frames: usize) -> PhysMemory {
    PhysMemory::new(0, vec![0u64; frames * 512])
}

/// The frames from number `from` up to `to` are free.
fn pool(from: u64, to: u64) -> FrameBitmap {
    let mut p = FrameBitmap::new();
    for f in from..to {
        pmm::free_frame(&mut p, f * 4096);
    }
    p
}

fn put32(v: &mut Vec<u8>, x: u32) {
    v.extend_from_slice(&x.to_le_bytes());
}

fn put64(v: &mut Vec<u8>, x: u64) {
    v.extend_from_slice(&x.to_le_bytes());
}

/// Boot information with one memory map tag.
fn boot_info(regions: &[(u64, u64, u32)]) -> Vec<u8> {
    let mut v: Vec<u8> = Vec::new();
    let map_size = 16 + 24 * regions.len() as u32;
    put32(&mut v, 8 + map_size + (map_size % 8) + 8);
    put32(&mut v, 0);
    put32(&mut v, mb2::TAG_MEMORY_MAP);
    put32(&mut v, map_size);
    put32(&mut v, 24);
    put32(&mut v, 0);
    for (base, length, kind) in regions {
        put64(&mut v, *base);
        put64(&mut v, *length);
        put32(&mut v, *kind);
        put32(&mut v, 0);
    }
    put32(&mut v, 0);
    put32(&mut v, 8);
    v
}

// --- memory ------------------------------------------------------------------------

#[test]
fn words_and_bytes_share_the_memory() {
    let mut m = memory(4);
    m.write(0x2000, 1, 0x1122_3344_5566_7788);
    assert_eq!(m.read(0x2000, 1), 0x1122_3344_5566_7788);
    assert_eq!(m.read_byte(0x2000, 8), 0x88);
    assert_eq!(m.read_byte(0x2000, 15), 0x11);
    m.write_byte(0x2000, 9, 0xAA);
    assert_eq!(m.read(0x2000, 1), 0x1122_3344_5566_AA88);
    m.write_bytes(0x2000, 4094, &[1, 2]);
    assert_eq!(m.read_byte(0x2000, 4095), 2);
    assert_eq!(m.read_byte(0x3000, 0), 0);
    assert!(m.contains(0x3000));
    assert!(!m.contains(0x4000));
    assert!(!m.contains(0x2001));
}

#[test]
fn frames_are_copied_and_cleared() {
    let mut m = memory(4);
    m.write(0x1000, 511, 7);
    m.copy(0x1000, 0x3000);
    assert_eq!(m.read(0x3000, 511), 7);
    m.zero(0x1000);
    assert_eq!(m.read(0x1000, 511), 0);
    assert_eq!(m.read(0x3000, 511), 7);
}

// --- frames ------------------------------------------------------------------------

#[test]
fn the_lowest_frame_comes_first() {
    let mut p = pool(5, 8);
    assert_eq!(pmm::free_frame_count(&p), 3);
    assert_eq!(pmm::alloc_frame(&mut p), Some(5 * 4096));
    assert_eq!(pmm::alloc_frame(&mut p), Some(6 * 4096));
    pmm::free_frame(&mut p, 5 * 4096 + 123);
    assert_eq!(pmm::alloc_frame(&mut p), Some(5 * 4096));
    assert_eq!(pmm::alloc_frame(&mut p), Some(7 * 4096));
    assert_eq!(pmm::alloc_frame(&mut p), None);
    assert_eq!(pmm::free_frame_count(&p), 0);
}

#[test]
fn a_freed_frame_is_as_before() {
    let mut p = pool(3, 9);
    let a = pmm::alloc_frame(&mut p).unwrap();
    pmm::free_frame(&mut p, a);
    assert_eq!(pmm::free_frame_count(&p), 6);
    assert_eq!(pmm::alloc_frame(&mut p), Some(a));
}

#[test]
fn frames_past_the_end_are_ignored() {
    let mut p = pool(0, 0);
    pmm::free_frame(&mut p, pmm::MANAGED_BYTES);
    assert_eq!(pmm::free_frame_count(&p), 0);
    pmm::free_frame(&mut p, pmm::MANAGED_BYTES - 1);
    assert_eq!(pmm::alloc_frame(&mut p), Some(pmm::MANAGED_BYTES - 4096));
}

#[test]
fn contiguous_frames_are_the_first_run() {
    let mut p = pool(10, 12);
    for f in 20..24 {
        pmm::free_frame(&mut p, f * 4096);
    }
    assert_eq!(pmm::alloc_contiguous(&mut p, 0), None);
    assert_eq!(pmm::alloc_contiguous(&mut p, 3), Some(20 * 4096));
    assert_eq!(pmm::free_frame_count(&p), 3);
    assert_eq!(pmm::alloc_contiguous(&mut p, 3), None);
    assert_eq!(pmm::alloc_contiguous(&mut p, 2), Some(10 * 4096));
    assert_eq!(pmm::alloc_contiguous(&mut p, 1), Some(23 * 4096));
}

#[test]
fn the_memory_map_decides_what_is_free() {
    let info = boot_info(&[(0, 0x9_0000, 1), (0x10_0000, 0x10_0000, 1), (0x20_0000, 0x10_0000, 2)]);
    let mut p = pmm::init(&info, 0x10_4000);
    // The first MiB and the kernel stay reserved.
    assert_eq!(pmm::free_frame_count(&p), 256 - 5);
    assert_eq!(pmm::alloc_frame(&mut p), Some(0x10_5000));
    let regions = mb2::for_each_memory_region(&info);
    assert_eq!(regions.len(), 3);
    assert_eq!(regions[1].base, 0x10_0000);
    assert_eq!(regions[2].kind, 2);
}

#[test]
fn frames_only_partly_in_a_region_stay_used() {
    let info = boot_info(&[(0x40_0800, 0x2000, 1)]);
    let mut pmm = pmm::init(&info, 0x10_0000);
    assert_eq!(pmm::free_frame_count(&pmm), 1);
    assert_eq!(pmm::alloc_frame(&mut pmm), Some(0x40_1000));
    let info = boot_info(&[(0x40_0001, 0x1FFF, 1), (0x50_0000, 0x1FFF, 1)]);
    let mut pmm = pmm::init(&info, 0x10_0000);
    assert_eq!(pmm::alloc_frame(&mut pmm), Some(0x40_1000));
    assert_eq!(pmm::alloc_frame(&mut pmm), Some(0x50_0000));
    assert_eq!(pmm::alloc_frame(&mut pmm), None);
}

#[test]
fn boot_information_without_a_map_frees_nothing() {
    let mut v: Vec<u8> = Vec::new();
    put32(&mut v, 16);
    put32(&mut v, 0);
    put32(&mut v, 0);
    put32(&mut v, 8);
    assert_eq!(pmm::free_frame_count(&pmm::init(&v, 0)), 0);
    assert!(mb2::for_each_memory_region(&[]).is_empty());
}

// --- page tables -------------------------------------------------------------------

#[test]
fn a_mapped_page_is_translated() {
    let mut m = memory(64);
    let mut p = pool(16, 64);
    let virt = 0x80_0000_5000;
    assert_eq!(mmu::translate(&m, ROOT, virt), None);
    let r = mmu::map_page_in(&mut m, &mut p, ROOT, ROOT, virt, 0x7000, true, false);
    assert_eq!(r, Ok(true));
    assert_eq!(mmu::translate(&m, ROOT, virt + 0x123), Some(0x7123));
    assert_eq!(mmu::translate(&m, ROOT, virt + 0x1000), None);
    // Three tables were needed.
    assert_eq!(pmm::free_frame_count(&p), 48 - 3);
    let r = mmu::map_page(&mut m, &mut p, ROOT, virt + 0x1000, 0x8000, false, true);
    assert_eq!(r, Ok(true));
    assert_eq!(mmu::translate(&m, ROOT, virt + 0x1FFF), Some(0x8FFF));
    assert_eq!(pmm::free_frame_count(&p), 48 - 3);
}

#[test]
fn an_inactive_space_needs_no_flush() {
    let mut m = memory(64);
    let mut p = pool(16, 64);
    assert_eq!(mmu::map_page_in(&mut m, &mut p, 0x2000, ROOT, 0x4000, 0x7000, true, true), Ok(false));
}

#[test]
fn unaligned_addresses_are_refused() {
    let mut m = memory(64);
    let mut p = pool(16, 64);
    let r = mmu::map_page_in(&mut m, &mut p, ROOT, ROOT, 0x4001, 0x7000, true, true);
    assert_eq!(r, Err(mmu::ERR_UNALIGNED));
    let r = mmu::map_page_in(&mut m, &mut p, ROOT, ROOT, 0x4000, 0x7010, true, true);
    assert_eq!(r, Err(mmu::ERR_UNALIGNED));
    assert_eq!(pmm::free_frame_count(&p), 48);
}

#[test]
fn mapping_without_frames_fails() {
    let mut m = memory(64);
    let mut p = pool(16, 18);
    assert!(mmu::map_page_in(&mut m, &mut p, ROOT, ROOT, 0x80_0000_0000, 0x7000, true, true).is_err());
    assert_eq!(mmu::translate(&m, ROOT, 0x80_0000_0000), None);
}

#[test]
fn an_unmapped_page_is_gone() {
    let mut m = memory(64);
    let mut p = pool(16, 64);
    mmu::map_page(&mut m, &mut p, ROOT, 0x4000, 0x7000, true, true).unwrap();
    mmu::map_page(&mut m, &mut p, ROOT, 0x5000, 0x8000, true, true).unwrap();
    assert_eq!(mmu::unmap_page(&mut m, ROOT, 0x4000), Ok(()));
    assert_eq!(mmu::translate(&m, ROOT, 0x4000), None);
    assert_eq!(mmu::translate(&m, ROOT, 0x5000), Some(0x8000));
    assert!(mmu::unmap_page(&mut m, ROOT, 0x4000).is_err());
}

#[test]
fn a_new_space_shares_only_the_first_entry() {
    let mut m = memory(64);
    let mut p = pool(16, 64);
    mmu::map_page(&mut m, &mut p, ROOT, 0x4000, 0x7000, true, true).unwrap();
    mmu::map_page(&mut m, &mut p, ROOT, 0x80_0000_0000, 0x8000, true, true).unwrap();
    let before = pmm::free_frame_count(&p);
    let space = mmu::create_address_space(&mut m, &mut p, ROOT).unwrap();
    assert_eq!(mmu::translate(&m, space, 0x4000), Some(0x7000));
    assert_eq!(mmu::translate(&m, space, 0x80_0000_0000), None);
    mmu::free_address_space(&m, &mut p, space);
    assert_eq!(pmm::free_frame_count(&p), before);
}

#[test]
fn a_clone_has_its_own_memory() {
    let mut m = memory(64);
    let mut p = pool(16, 64);
    let space = mmu::create_address_space(&mut m, &mut p, ROOT).unwrap();
    let page = pmm::alloc_frame(&mut p).unwrap();
    let virt = 0x90_0000_0000;
    mmu::map_page_in(&mut m, &mut p, ROOT, space, virt, page, true, false).unwrap();
    m.write(page, 0, 42);
    let before = pmm::free_frame_count(&p);
    let copy = mmu::clone_address_space(&mut m, &mut p, space).unwrap();
    // A root, three tables and the page.
    assert_eq!(pmm::free_frame_count(&p), before - 5);
    let twin = mmu::translate(&m, copy, virt).unwrap();
    assert_ne!(twin, page);
    assert_eq!(m.read(twin, 0), 42);
    m.write(twin, 0, 43);
    assert_eq!(m.read(page, 0), 42);
    mmu::free_address_space(&m, &mut p, copy);
    assert_eq!(pmm::free_frame_count(&p), before);
}

#[test]
fn no_two_pages_of_a_clone_share_a_frame() {
    let mut mem = memory(128);
    let mut p = pool(16, 128);
    let space = mmu::create_address_space(&mut mem, &mut p, 0x1000).unwrap();
    let addresses = [0x80_0000_0000u64, 0x80_0000_1000, 0x80_0020_0000, 0x90_0000_0000];
    let shared = pmm::alloc_frame(&mut p).unwrap();
    for v in addresses {
        mmu::map_page_in(&mut mem, &mut p, 0x1000, space, v, shared, true, false).unwrap();
    }
    let clone = mmu::clone_address_space(&mut mem, &mut p, space).unwrap();
    let frames: Vec<u64> = addresses.iter().map(|v| mmu::translate(&mem, clone, *v).unwrap()).collect();
    for i in 0..4 {
        for j in 0..i {
            assert_ne!(frames[i], frames[j]);
        }
    }
}

#[test]
fn a_clone_that_does_not_fit_is_refused() {
    let mut m = memory(64);
    let mut p = pool(16, 64);
    let space = mmu::create_address_space(&mut m, &mut p, ROOT).unwrap();
    let page = pmm::alloc_frame(&mut p).unwrap();
    mmu::map_page_in(&mut m, &mut p, ROOT, space, 0x90_0000_0000, page, true, false).unwrap();
    while pmm::free_frame_count(&p) > 4 {
        pmm::alloc_frame(&mut p);
    }
    assert_eq!(mmu::clone_address_space(&mut m, &mut p, space), None);
}

#[test]
fn control_registers_are_cut_to_size() {
    assert_eq!(mmu::init(0x500), 0xD00);
    assert_eq!(mmu::current_address_space(0x1234_5018), 0x1234_5000);
}

// --- programs ----------------------------------------------------------------------

/// A program with one segment at `vaddr`.
fn program(vaddr: u64, code: &[u8], memsz: u64) -> Vec<u8> {
    let mut image = elf::TEST_ELF[0..120].to_vec();
    image[24..32].copy_from_slice(&(vaddr + 120).to_le_bytes());
    image[80..88].copy_from_slice(&vaddr.to_le_bytes());
    image[96..104].copy_from_slice(&(120 + code.len() as u64).to_le_bytes());
    image[104..112].copy_from_slice(&memsz.to_le_bytes());
    image.extend_from_slice(code);
    image
}

#[test]
fn a_program_is_loaded_where_it_says() {
    let mut m = memory(64);
    let mut p = pool(16, 64);
    let vaddr = 0x80_0000_0000;
    let image = program(vaddr, &[0xEB, 0xFE], 0x1800);
    let loaded = elf::load(&mut m, &mut p, ROOT, &image).unwrap();
    assert_eq!(loaded.entry_point, vaddr + 120);
    assert_eq!(loaded.page_table, 16 * 4096);
    let at = mmu::translate(&m, loaded.page_table, vaddr).unwrap();
    for (i, b) in image.iter().enumerate() {
        assert_eq!(m.read_byte(at, i), *b);
    }
    assert_eq!(m.read_byte(at, image.len()), 0);
    assert!(mmu::translate(&m, loaded.page_table, vaddr + 0x1000).is_some());
    assert!(mmu::translate(&m, loaded.page_table, vaddr + 0x2000).is_none());
    assert!(mmu::translate(&m, ROOT, vaddr).is_none());
}

#[test]
fn bad_images_are_refused() {
    let mut m = memory(64);
    let mut p = pool(16, 64);
    assert_eq!(elf::load(&mut m, &mut p, ROOT, &[0x7F]).err(), Some(elf::ERR_TOO_SMALL));
    let good = program(0x80_0000_0000, &[0xEB, 0xFE], 122);
    let mut bad = good.clone();
    bad[1] = 0;
    assert_eq!(elf::load(&mut m, &mut p, ROOT, &bad).err(), Some(elf::ERR_MAGIC));
    let mut bad = good.clone();
    bad[4] = 1;
    assert_eq!(elf::load(&mut m, &mut p, ROOT, &bad).err(), Some(elf::ERR_CLASS));
    let mut bad = good.clone();
    bad[16] = 1;
    assert_eq!(elf::load(&mut m, &mut p, ROOT, &bad).err(), Some(elf::ERR_TYPE));
    assert_eq!(pmm::free_frame_count(&p), 48);
    let mut bad = good.clone();
    bad[56] = 2;
    assert_eq!(elf::load(&mut m, &mut p, ROOT, &bad).err(), Some(elf::ERR_HEADER_RANGE));
    let mut bad = good.clone();
    bad[96] = 0xFF;
    bad[104] = 0xFF;
    assert_eq!(elf::load(&mut m, &mut p, ROOT, &bad).err(), Some(elf::ERR_FILE_RANGE));
    let mut bad = good.clone();
    bad[80..88].copy_from_slice(&0xFFFF_FFFF_FFFF_FF00u64.to_le_bytes());
    assert_eq!(elf::load(&mut m, &mut p, ROOT, &bad).err(), Some(elf::ERR_ADDRESS_RANGE));
}

#[test]
fn an_image_larger_than_its_memory_is_refused() {
    let mut m = memory(64);
    let mut p = pool(16, 64);
    let image = program(0x80_0000_0000, &vec![0x90u8; 5000], 100);
    assert_eq!(elf::load(&mut m, &mut p, ROOT, &image).err(), Some(elf::ERR_NOT_MAPPED));
    // The page that is mapped was filled before.
    let at = mmu::translate(&m, 16 * 4096, 0x80_0000_0000).unwrap();
    assert_eq!(m.read_byte(at, 0), 0x7F);
    assert_eq!(m.read_byte(at, 4095), 0x90);
}

#[test]
fn an_image_can_run_into_pages_of_another_segment() {
    let vaddr: u64 = 0x80_0000_0000;
    // The second segment has a page of its own, and goes on into the first one.
    let mut image = elf::TEST_ELF[0..120].to_vec();
    let header = image[64..120].to_vec();
    image.extend_from_slice(&header);
    image[56..58].copy_from_slice(&2u16.to_le_bytes());
    for (at, start, filesz, memsz) in [(64, vaddr + 4096, 0u64, 4096u64), (120, vaddr, 5000, 100)] {
        image[at + 16..at + 24].copy_from_slice(&start.to_le_bytes());
        image[at + 32..at + 40].copy_from_slice(&filesz.to_le_bytes());
        image[at + 40..at + 48].copy_from_slice(&memsz.to_le_bytes());
    }
    image.resize(6000, 0x90);
    let mut m = memory(64);
    let mut p = pool(16, 64);
    let loaded = elf::load(&mut m, &mut p, ROOT, &image).unwrap();
    let at = mmu::translate(&m, loaded.page_table, vaddr + 4096).unwrap();
    assert_eq!(m.read_byte(at, 0), 0x90);
    assert_eq!(m.read_byte(at, 903), 0x90);
    assert_eq!(m.read_byte(at, 904), 0);
}

#[test]
fn an_image_can_spoil_its_tables() {
    // The page at 0x5000 is a table that leads to other tables.
    let mut m = memory(64);
    let mut p = pool(16, 64);
    mmu::map_page(&mut m, &mut p, ROOT, 0x5000, 0x8000, true, true).unwrap();
    let upper = m.read(ROOT, 0) & mmu::ADDR_MASK;
    let table = m.read(upper, 0) & mmu::ADDR_MASK;
    let last = m.read(table, 0) & mmu::ADDR_MASK;
    m.write(last, 5, table | 3);
    // A segment of eight bytes in the file and none in memory: no page is mapped.
    let mut image = program(0x5000, &(last | 3).to_le_bytes(), 0);
    image[72..80].copy_from_slice(&120u64.to_le_bytes());
    image[96..104].copy_from_slice(&8u64.to_le_bytes());
    assert!(elf::load(&mut m, &mut p, ROOT, &image).is_ok());
    assert_eq!(m.read(table, 0), last | 3);
    // With this entry the table leads nowhere.
    image[120..128].copy_from_slice(&0x4000_0003u64.to_le_bytes());
    assert_eq!(elf::load(&mut m, &mut p, ROOT, &image).err(), Some(elf::ERR_TABLES));
    assert_eq!(m.read(table, 0), 0x4000_0003);
}

#[test]
fn loading_without_frames_fails() {
    let image = program(0x80_0000_0000, &[0xEB, 0xFE], 122);
    let mut m = memory(64);
    let mut p = pool(16, 16);
    assert_eq!(elf::load(&mut m, &mut p, ROOT, &image).err(), Some(elf::ERR_NO_SPACE));
    let mut p = pool(16, 17);
    assert_eq!(elf::load(&mut m, &mut p, ROOT, &image).err(), Some(elf::ERR_NO_FRAME));
}

#[test]
fn a_program_gets_its_stack() {
    let image = program(0x80_0000_0000, &[0xEB, 0xFE], 122);
    let stack = 0x90_0000_0000;
    let mut m = memory(64);
    let mut p = pool(16, 64);
    let loaded = match elf::load_with_stack(&mut m, &mut p, ROOT, &image, stack) {
        Ok(l) => l,
        Err(_) => panic!("the program fits"),
    };
    assert!(mmu::translate(&m, loaded.page_table, stack).is_some());
    // A root, three tables and a page for the program: nothing for the stack.
    let mut m = memory(64);
    let mut p = pool(16, 21);
    let r = elf::load_with_stack(&mut m, &mut p, ROOT, &image, stack);
    assert!(matches!(r, Err(Trouble::NoStack)));
    let mut m = memory(64);
    let mut p = pool(16, 22);
    let r = elf::load_with_stack(&mut m, &mut p, ROOT, &image, stack);
    assert!(matches!(r, Err(Trouble::Stack(_))));
    let r = elf::load_with_stack(&mut m, &mut p, ROOT, &[], stack);
    assert!(matches!(r, Err(Trouble::Load(elf::ERR_TOO_SMALL))));
}

#[test]
fn the_built_in_programs_are_whole() {
    assert_eq!(elf::TEST_ELF.len(), 123);
    assert_eq!(&elf::TEST_ELF[120..], &[0xF4, 0xEB, 0xFD]);
    assert_eq!(&elf::TEST_ELF_RING3[120..], &[0xEB, 0xFE]);
    assert_eq!(&elf::TEST_ELF_SYSCALL[120..], &[0xB8, 1, 0, 0, 0, 0x0F, 0x05, 0xEB, 0xFE]);
    let mut m = memory(64);
    let mut p = pool(16, 64);
    let loaded = elf::load(&mut m, &mut p, ROOT, &elf::TEST_ELF_SYSCALL).unwrap();
    assert_eq!(loaded.entry_point, 0x40_0078);
    let at = mmu::translate(&m, loaded.page_table, 0x40_0078).unwrap();
    assert_eq!(m.read_byte(at - at % 4096, 120), 0xB8);
}

// --- heap --------------------------------------------------------------------------

#[test]
fn the_heap_hands_out_blocks_in_order() {
    let mut h = BumpAllocator::new();
    assert_eq!(h.allocate(0x1000, 10, 1), Some(0x1000));
    assert_eq!(h.allocate(0x1000, 8, 16), Some(0x1010));
    assert_eq!(h.used_bytes(), 0x18);
    assert_eq!(h.allocate(0x1000, 0x10_0000, 1), None);
    assert_eq!(h.allocate(0x1000, 0x10_0000 - 0x18, 1), Some(0x1018));
    assert_eq!(h.allocate(0x1000, 1, 1), None);
}

#[test]
fn two_parts_share_the_heap() {
    let mut h = BumpAllocator::new();
    assert_eq!(h.allocate_beside(0x1000, 0x8_0000, 1, 0x8_0001), None);
    assert_eq!(h.used_bytes(), 0);
    assert_eq!(h.allocate_beside(0x1000, 0x8_0000, 1, 0x8_0000), Some(0x1000));
    assert_eq!(h.allocate_beside(0x1000, 0, 1, u64::MAX), None);
    let mut out = Vec::new();
    heap::alloc_error(&mut out, 16384, 8);
    assert_eq!(out, b"[FATAL] Heap agotado pidiendo 16384 bytes (align 8)\n");
}

/// The entry that maps the page at `virt`.
fn leaf(m: &PhysMemory, root: u64, virt: u64) -> u64 {
    let mut table = root;
    for shift in [39, 30, 21] {
        table = m.read(table, (virt >> shift & 0x1FF) as usize) & mmu::ADDR_MASK;
    }
    m.read(table, (virt >> 12 & 0x1FF) as usize)
}

#[test]
fn pages_are_written_or_executed() {
    let (vaddr, stack) = (0x80_0000_0000, 0x90_0000_0000);
    // Readable and executable, then readable and writable.
    for (flags, writable, executable) in [(5u32, false, true), (6, true, false)] {
        let mut m = memory(64);
        let mut p = pool(16, 64);
        let mut image = program(vaddr, &[0xEB, 0xFE], 122);
        image[68..72].copy_from_slice(&flags.to_le_bytes());
        let loaded = match elf::load_with_stack(&mut m, &mut p, ROOT, &image, stack) {
            Ok(l) => l,
            Err(_) => panic!("the program fits"),
        };
        let entry = leaf(&m, loaded.page_table, vaddr);
        assert_eq!(entry & 2 != 0, writable);
        assert_eq!(entry >> 63 == 0, executable);
        let entry = leaf(&m, loaded.page_table, stack);
        assert_eq!(entry & 2, 2);
        assert_eq!(entry >> 63, 1);
    }
}

// --- checks at run time --------------------------------------------------------------

#[test]
fn sound_spaces_pass() {
    let mut m = memory(64);
    let mut p = pool(16, 64);
    let space = mmu::create_address_space(&mut m, &mut p, ROOT).unwrap();
    let page = pmm::alloc_frame(&mut p).unwrap();
    mmu::map_page_in(&mut m, &mut p, ROOT, space, 0x90_0000_0000, page, true, false).unwrap();
    assert!(audit::tables_ok(&m, space));
    assert!(audit::frames_in_memory(&m, &p));
    assert!(audit::can_fill(&m, &p, space));
    assert!(audit::can_clone(&m, &p, space));
}

#[test]
fn damaged_tables_are_noticed() {
    let mut m = memory(16);
    // Not a frame of the memory.
    assert!(!audit::tables_ok(&m, 0x10_0000));
    assert!(!audit::tables_ok(&m, 0x1008));
    m.write(ROOT, 1, 0x2003);
    assert!(audit::tables_ok(&m, ROOT));
    // A table that is reached twice, one that leads to itself, and one that is
    // not there.
    m.write(ROOT, 2, 0x2003);
    assert!(!audit::tables_ok(&m, ROOT));
    m.write(ROOT, 2, ROOT | 3);
    assert!(!audit::tables_ok(&m, ROOT));
    m.write(ROOT, 2, 0x10_0003);
    assert!(!audit::tables_ok(&m, ROOT));
    // A huge page in the root.
    m.write(ROOT, 2, 0x4000_0083);
    assert!(!audit::tables_ok(&m, ROOT));
    m.write(ROOT, 2, 0);
    // Huge pages are aligned to their size.
    m.write(0x2000, 0, 0x4000_0083);
    m.write(0x2000, 1, 0x3003);
    m.write(0x3000, 0, 0x20_0083);
    assert!(audit::tables_ok(&m, ROOT));
    m.write(0x3000, 1, 0x20_1083);
    assert!(!audit::tables_ok(&m, ROOT));
    m.write(0x3000, 1, 0);
    m.write(0x2000, 0, 0x20_0083);
    assert!(!audit::tables_ok(&m, ROOT));
}

#[test]
fn free_frames_in_use_are_noticed() {
    let mut m = memory(64);
    assert!(!audit::frames_in_memory(&m, &pool(63, 65)));
    assert!(!audit::can_fill(&m, &pool(63, 65), ROOT));
    // The root itself, and a page, which is no table.
    assert!(!audit::can_fill(&m, &pool(1, 64), ROOT));
    let mut p = pool(16, 64);
    mmu::map_page(&mut m, &mut p, ROOT, 0x90_0000_0000, 0x8000, true, true).unwrap();
    assert!(audit::can_clone(&m, &p, ROOT));
    pmm::free_frame(&mut p, 0x8000);
    assert!(audit::can_fill(&m, &p, ROOT));
    assert!(!audit::can_clone(&m, &p, ROOT));
    assert!(p.is_free(0x8000));
    assert!(!p.is_free(0x7000));
    assert!(!p.is_free(0x8001));
    assert!(!p.is_free(0x1_0000_8000));
}
