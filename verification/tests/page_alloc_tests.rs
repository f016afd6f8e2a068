use lib::page_alloc::{PageAllocator, PAGE_R, PAGE_U, PAGE_V, PAGE_W, PAGE_X};

const BASE: u32 = 0x8040_0000;

#[test]
fn alloc_pages_bumps_and_zeroes() {
    let mut a = PageAllocator::new(BASE, BASE + 4 * 4096);
    assert_eq!(a.next_paddr(), BASE);
    assert_eq!(a.alloc_pages(1), BASE);
    assert_eq!(a.alloc_pages(2), BASE + 4096);
    assert_eq!(a.next_paddr(), BASE + 3 * 4096);
    assert_eq!(a.read_word(BASE + 8), 0);
    assert_eq!(a.read_byte(BASE + 3 * 4096 - 1), 0);
    assert_eq!(a.alloc_pages(0), BASE + 3 * 4096);
}

#[test]
fn alloc_pages_fills_the_region_exactly() {
    let mut a = PageAllocator::new(BASE, BASE + 2 * 4096);
    assert_eq!(a.alloc_pages(2), BASE);
    assert_eq!(a.next_paddr(), a.free_ram_end());
    assert_eq!(a.alloc_pages(0), BASE + 2 * 4096);
}

#[test]
fn words_are_little_endian() {
    let mut a = PageAllocator::new(BASE, BASE + 4096);
    a.alloc_pages(1);
    a.write_word(BASE + 4, 0x1234_5678);
    assert_eq!(a.read_word(BASE + 4), 0x1234_5678);
    assert_eq!(a.read_byte(BASE + 4), 0x78);
    assert_eq!(a.read_byte(BASE + 7), 0x12);
    assert_eq!(a.read_word(BASE), 0);
}

#[test]
fn map_page_then_translate() {
    let mut a = PageAllocator::new(BASE, BASE + 8 * 4096);
    let root = a.alloc_pages(1);
    assert_eq!(a.translate(root, 0x1000_0000), None);
    let flags = PAGE_R | PAGE_W;
    a.map_page(root, 0x1000_0000, 0x8020_0000, flags);
    let pte = ((0x8020_0000u32 / 4096) << 10) | flags | PAGE_V;
    assert_eq!(a.translate(root, 0x1000_0000), Some(pte));
    assert_eq!(a.translate(root, 0x1000_0fff), Some(pte));
    assert_eq!(a.translate(root, 0x1000_1000), None);
    // one second-level table was handed out
    assert_eq!(a.next_paddr(), BASE + 2 * 4096);
    // the root entry points to it
    assert_eq!(a.read_word(root + 4 * (0x1000_0000 >> 22)), (((BASE + 4096) / 4096) << 10) | PAGE_V);
    // a neighbouring page shares the table
    a.map_page(root, 0x1000_1000, 0x8020_1000, PAGE_U | PAGE_X);
    assert_eq!(a.next_paddr(), BASE + 2 * 4096);
    assert_eq!(a.translate(root, 0x1000_0000), Some(pte));
    assert_eq!(
        a.translate(root, 0x1000_1000),
        Some(((0x8020_1000u32 / 4096) << 10) | PAGE_U | PAGE_X | PAGE_V)
    );
    // remapping replaces the entry
    a.map_page(root, 0x1000_0000, 0x8030_0000, flags);
    assert_eq!(a.translate(root, 0x1000_0000), Some(((0x8030_0000u32 / 4096) << 10) | flags | PAGE_V));
}

#[test]
fn map_page_new_table_holds_one_entry() {
    let mut a = PageAllocator::new(BASE, BASE + 8 * 4096);
    let root = a.alloc_pages(1);
    let va = 0x1040_3000usize;
    a.map_page(root, va, 0x8020_0000, PAGE_R);
    let table = BASE + 4096;
    // the root entry points to the new table and is not a leaf
    assert_eq!(a.read_word(root + 4 * (va as u32 >> 22)), ((table / 4096) << 10) | PAGE_V);
    // only the entry for the page is set in the new table
    for i in 0..1024u32 {
        let expected = if i == (va as u32 >> 12) & 0x3ff { ((0x8020_0000u32 / 4096) << 10) | PAGE_R | PAGE_V } else { 0 };
        assert_eq!(a.read_word(table + 4 * i), expected);
    }
}

#[test]
fn translate_follows_sv32_leaves() {
    let mut a = PageAllocator::new(BASE, BASE + 8 * 4096);
    let root = a.alloc_pages(1);
    // a valid entry without R, W or X at the last level is no leaf: the walk faults
    a.map_page(root, 0x1000_0000, 0x8020_0000, PAGE_U);
    assert_eq!(a.translate(root, 0x1000_0000), None);
    // a valid root entry with R set is a superpage leaf and ends the walk
    let superpage = ((0x8040_0000u32 / 4096) << 10) | PAGE_R | PAGE_V;
    a.write_word(root + 4 * 5, superpage);
    assert_eq!(a.translate(root, 5 << 22), Some(superpage));
    assert_eq!(a.translate(root, (5 << 22) + 0x3000), Some(superpage));
}
