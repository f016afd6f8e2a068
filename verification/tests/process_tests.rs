use lib::page_alloc::{KernelError, PAGE_R, PAGE_U, PAGE_V, PAGE_W, PAGE_X, SATP_SV32};
use lib::process::{Kernel, Process, KERNEL_STACK_SIZE, PROCS_MAX, PROC_RUNNABLE, PROC_UNUSED, USER_BASE};

const KERNEL_BASE: u32 = 0x8020_0000;
const FREE_RAM: u32 = 0x8022_0000;
const FREE_RAM_END: u32 = 0x8026_0000;
const USER_ENTRY: u32 = 0x8020_1234;

fn pte(paddr: u32, flags: u32) -> u32 {
    ((paddr / 4096) << 10) | flags | PAGE_V
}

fn word(stack: &[u8], o: usize) -> u32 {
    u32::from_le_bytes([stack[o], stack[o + 1], stack[o + 2], stack[o + 3]])
}

#[test]
fn process_new_is_unused() {
    let p = Process::new();
    assert_eq!(p.pid, 0);
    assert_eq!(p.state, PROC_UNUSED);
    assert_eq!(p.stack.len(), KERNEL_STACK_SIZE);
    assert!(p.stack.iter().all(|&b| b == 0));
}

#[test]
fn create_process_maps_kernel_and_image() {
    let mut k = Kernel::new(KERNEL_BASE, FREE_RAM, FREE_RAM_END, USER_ENTRY);
    let image: Vec<u8> = (0..5000u32).map(|i| (i % 251) as u8 + 1).collect();
    let slot = k.create_process(&image);
    assert_eq!(slot, 0);
    let p = k.proc(slot);
    assert_eq!(p.pid, 1);
    assert_eq!(p.state, PROC_RUNNABLE);
    assert_eq!(p.sp, KERNEL_STACK_SIZE - 13 * 4);
    assert_eq!(word(&p.stack, p.sp), USER_ENTRY);
    for i in 1..13 {
        assert_eq!(word(&p.stack, p.sp + 4 * i), 0);
    }
    let root = p.page_table;
    assert_eq!(root, FREE_RAM);
    let mem = k.memory();
    // kernel pages are mapped to themselves
    let kflags = PAGE_R | PAGE_W | PAGE_X;
    assert_eq!(mem.translate(root, KERNEL_BASE as usize), Some(pte(KERNEL_BASE, kflags)));
    assert_eq!(mem.translate(root, (FREE_RAM_END - 4096) as usize), Some(pte(FREE_RAM_END - 4096, kflags)));
    assert_eq!(mem.translate(root, FREE_RAM_END as usize), None);
    assert_eq!(mem.translate(root, (KERNEL_BASE - 4096) as usize), None);
    // two image pages, holding the image and zeros after it
    let uflags = PAGE_U | PAGE_R | PAGE_W | PAGE_X;
    for (page, off) in [(0usize, 0usize), (1, 4096)] {
        let e = mem.translate(root, USER_BASE + off).unwrap();
        let frame = (e >> 10) * 4096;
        assert_eq!(e, pte(frame, uflags));
        assert!(frame >= FREE_RAM);
        for k2 in 0..4096usize {
            let expected = if off + k2 < image.len() { image[off + k2] } else { 0 };
            assert_eq!(mem.read_byte(frame + k2 as u32), expected, "page {} byte {}", page, k2);
        }
    }
    assert_eq!(mem.translate(root, USER_BASE + 8192), None);
    // the two image pages sit in different frames
    let f0 = mem.translate(root, USER_BASE).unwrap() >> 10;
    let f1 = mem.translate(root, USER_BASE + 4096).unwrap() >> 10;
    assert_ne!(f0, f1);
    // root, one second-level table each for the kernel and the image, two image pages
    assert_eq!(mem.next_paddr(), FREE_RAM + 5 * 4096);
}

#[test]
fn create_process_uses_next_free_slot() {
    let mut k = Kernel::new(KERNEL_BASE, FREE_RAM, FREE_RAM_END, USER_ENTRY);
    assert_eq!(k.create_process(&[]), 0);
    assert_eq!(k.create_process(&[1, 2, 3]), 1);
    assert_eq!(k.proc(1).pid, 2);
    let t0 = k.proc(0).page_table;
    let t1 = k.proc(1).page_table;
    assert_ne!(t0, t1);
    // the first address space has no image page
    assert_eq!(k.memory().translate(t0, USER_BASE), None);
    assert!(k.memory().translate(t1, USER_BASE).is_some());
}

#[test]
fn create_process_runs_out_of_slots() {
    let mut k = Kernel::new(KERNEL_BASE, FREE_RAM, 0x8030_0000, USER_ENTRY);
    for i in 0..PROCS_MAX {
        assert_eq!(k.create_process(&[]), i);
    }
    assert_eq!(k.try_create_process(&[]), Err(KernelError::NoFreeProcessSlots));
}

#[test]
fn create_process_out_of_memory() {
    // room for the root and one second-level table only
    let mut k = Kernel::new(KERNEL_BASE, FREE_RAM, FREE_RAM + 2 * 4096, USER_ENTRY);
    assert_eq!(k.try_create_process(&[7u8; 10]), Err(KernelError::OutOfMemory));
    assert_eq!(k.proc(0).state, PROC_UNUSED);
}

#[test]
fn create_process_unaligned_kernel_base() {
    let mut k = Kernel::new(KERNEL_BASE + 8, FREE_RAM, FREE_RAM_END, USER_ENTRY);
    assert_eq!(k.try_create_process(&[]), Err(KernelError::UnalignedVaddr));
    assert_eq!(k.proc(0).state, PROC_UNUSED);
}

#[test]
fn yield_cpu_round_robin() {
    let mut k = Kernel::new(KERNEL_BASE, FREE_RAM, 0x8030_0000, USER_ENTRY);
    let sw = k.kernel_main(&[0x13, 0, 0, 0]);
    // idle in slot 0, user process in slot 1
    assert_eq!(k.idle(), 0);
    assert_eq!(k.proc(0).pid, 0);
    let sw = sw.unwrap();
    assert_eq!(sw.prev, 0);
    assert_eq!(sw.next, 1);
    assert_eq!(sw.satp, SATP_SV32 | (k.proc(1).page_table / 4096));
    assert_eq!(k.current(), 1);
    // alone, the user process keeps running
    assert_eq!(k.yield_cpu(), None);
    // a second process takes turns with it
    assert_eq!(k.create_process(&[1]), 2);
    let sw = k.yield_cpu().unwrap();
    assert_eq!((sw.prev, sw.next), (1, 2));
    let sw = k.yield_cpu().unwrap();
    assert_eq!((sw.prev, sw.next), (2, 1));
}

#[test]
fn yield_from_idle_with_no_process_stays_idle() {
    let mut k = Kernel::new(KERNEL_BASE, FREE_RAM, 0x8030_0000, USER_ENTRY);
    assert_eq!(k.yield_cpu(), None);
    assert_eq!(k.current(), 0);
}

#[test]
fn create_process_memory_boundary_is_exact() {
    let image = vec![1u8; 5000];
    // five pages are needed: root, two second-level tables, two image pages
    let mut k = Kernel::new(KERNEL_BASE, FREE_RAM, FREE_RAM + 5 * 4096, USER_ENTRY);
    // the kernel region here is [KERNEL_BASE, FREE_RAM + 5 pages)
    assert_eq!(k.create_process(&image), 0);
    assert_eq!(k.memory().next_paddr(), FREE_RAM + 5 * 4096);
    let mut k = Kernel::new(KERNEL_BASE, FREE_RAM, FREE_RAM + 4 * 4096, USER_ENTRY);
    assert_eq!(k.try_create_process(&image), Err(KernelError::OutOfMemory));
}

#[test]
fn kernel_main_needs_two_slots_and_memory() {
    let mut k = Kernel::new(KERNEL_BASE, FREE_RAM, FREE_RAM + 3 * 4096, USER_ENTRY);
    // the idle process takes its root and one table; nothing is left for the user process
    assert_eq!(k.try_kernel_main(&[1, 2, 3]), Err(KernelError::OutOfMemory));
    // with one slot left, the user process has nowhere to go
    let mut k = Kernel::new(KERNEL_BASE, FREE_RAM, 0x8030_0000, USER_ENTRY);
    for i in 0..PROCS_MAX - 1 {
        assert_eq!(k.create_process(&[]), i);
    }
    assert_eq!(k.try_kernel_main(&[1]), Err(KernelError::NoFreeProcessSlots));
}

#[test]
fn kernel_main_puts_user_program_in_slot_one() {
    let mut k = Kernel::new(KERNEL_BASE, FREE_RAM, 0x8030_0000, USER_ENTRY);
    let sw = k.kernel_main(&[0x13, 0, 0, 0]).unwrap();
    assert_eq!((sw.prev, sw.next), (0, 1));
    assert_eq!(k.proc(1).pid, 2);
    assert_eq!(k.proc(1).state, PROC_RUNNABLE);
    for i in 2..PROCS_MAX {
        assert_eq!(k.proc(i).state, PROC_UNUSED);
    }
}

#[test]
fn kernel_main_reports_first_failing_step() {
    let mut k = Kernel::new(KERNEL_BASE + 8, FREE_RAM, 0x8030_0000, USER_ENTRY);
    assert_eq!(k.try_kernel_main(&[1]), Err(KernelError::UnalignedVaddr));
    let mut k = Kernel::new(KERNEL_BASE, FREE_RAM, FREE_RAM + 4096, USER_ENTRY);
    assert_eq!(k.try_kernel_main(&[1]), Err(KernelError::OutOfMemory));
    let mut k = Kernel::new(KERNEL_BASE, FREE_RAM, 0x8030_0000, USER_ENTRY);
    for i in 0..PROCS_MAX {
        assert_eq!(k.create_process(&[]), i);
    }
    assert_eq!(k.try_kernel_main(&[1]), Err(KernelError::NoFreeProcessSlots));
}

#[test]
fn every_process_runs_within_procs_max_yields() {
    let mut k = Kernel::new(KERNEL_BASE, FREE_RAM, 0x8030_0000, USER_ENTRY);
    k.kernel_main(&[1]);
    assert_eq!(k.create_process(&[2]), 2);
    assert_eq!(k.create_process(&[3]), 3);
    for target in 1..4 {
        let mut seen = false;
        for _ in 0..PROCS_MAX {
            k.yield_cpu();
            if k.current() == target {
                seen = true;
                break;
            }
        }
        assert!(seen, "slot {} did not run", target);
    }
}

#[test]
fn create_process_leaves_unused_entries_zero() {
    let mut k = Kernel::new(KERNEL_BASE, FREE_RAM, FREE_RAM_END, USER_ENTRY);
    let slot = k.create_process(&[5u8; 100]);
    let root = k.proc(slot).page_table;
    let mem = k.memory();
    for w1 in 0..1024u32 {
        let e1 = mem.read_word(root + 4 * w1);
        if e1 & PAGE_V == 0 {
            assert_eq!(e1, 0);
        } else {
            let table = (e1 >> 10) * 4096;
            for w0 in 0..1024u32 {
                let e0 = mem.read_word(table + 4 * w0);
                assert!(e0 == 0 || e0 & PAGE_V != 0);
            }
        }
    }
}
