use vstd::prelude::*;

use crate::common::{align_up_spec, zero_bytes};
use crate::page_alloc::{
    zeros,
    count_where, lemma_count_false, lemma_count_where_ext, lemma_count_where_insert, lemma_count_where_mono, valid_roots,
    store_word, word_at,
    extends, lemma_fresh_root, lemma_same_word, mapped_one_page, table_clean, lemma_clean_frame,
    lemma_clean_after_map, lemma_make_pte, lemma_page_va, lemma_table_frame, make_pte,
    page_va, pte_frame, pte_valid, same_below, vpn0, vpn1, KernelError, PAddr, PageAllocator,
    PAGE_R, PAGE_SIZE, PAGE_U, PAGE_W, PAGE_X, SATP_SV32,
};

verus! {

/// Number of process slots.
pub const PROCS_MAX: usize = 8;

/// Size of each process's kernel stack, in bytes.
pub const KERNEL_STACK_SIZE: usize = 8192;

/// State of a process slot that holds no process.
pub const PROC_UNUSED: i32 = 0;

/// State of a process that can be scheduled.
pub const PROC_RUNNABLE: i32 = 1;

/// Virtual address at which a user program's image is mapped.
pub const USER_BASE: usize = 0x100_0000;

/// Flags of the kernel's identity mapping in every address space.
pub open spec fn kernel_flags() -> u32 {
    PAGE_R | PAGE_W | PAGE_X
}

/// Flags of the pages of a user program's image.
pub open spec fn user_flags() -> u32 {
    PAGE_U | PAGE_R | PAGE_W | PAGE_X
}

proof fn lemma_flag_values()
    ensures
        kernel_flags() == 14,
        user_flags() == 30,
{
    assert(2u32 | 4u32 | 8u32 == 14u32) by (bit_vector);
    assert(16u32 | 2u32 | 4u32 | 8u32 == 30u32) by (bit_vector);
}

/// What the kernel's identity mapping of `[kernel_base, kernel_end)` holds for a page.
pub open spec fn kernel_pte(kernel_base: int, kernel_end: int, w1: int, w0: int) -> Option<u32> {
    let va = page_va(w1, w0);
    if kernel_base <= va < kernel_end {
        Some(make_pte(va as u32, kernel_flags()))
    } else {
        None
    }
}

/// Root-table index `i` covers part of `[start, end)`: one of the 4 MiB regions that the
/// pages of the range, from the page-aligned `start` on, fall in.
pub open spec fn region_roots(start: int, end: int, i: int) -> bool {
    start < end && start / 0x40_0000 <= i <= (end - 1) / 0x40_0000
}

/// The root-table indices that the pages of `[start, end)` use.
pub open spec fn range_roots(start: int, end: int) -> spec_fn(int) -> bool {
    |i: int| region_roots(start, end, i)
}

proof fn lemma_same_region(b: u64, x: u64)
    requires
        b % 4096 == 0,
        b <= x,
        x < b + 4096,
        x < 0x1_0000_0000_0000,
    ensures
        x / 0x40_0000 == b / 0x40_0000,
{
    assert(x / 0x40_0000 == b / 0x40_0000) by (bit_vector)
        requires
            b % 4096 == 0,
            b <= x,
            x < b + 4096,
            x < 0x1_0000_0000_0000,
    ;
}

proof fn lemma_div_region_mono(x: int, y: int)
    requires
        x <= y,
    ensures
        x / 0x40_0000 <= y / 0x40_0000,
{
    assert(x / 0x40_0000 <= y / 0x40_0000) by (nonlinear_arith)
        requires
            x <= y,
    ;
}

proof fn lemma_region_roots_step(start: int, addr: int, i: int)
    requires
        start % 4096 == 0,
        addr % 4096 == 0,
        0 <= start <= addr,
        addr + 4096 < 0x1_0000_0000_0000,
    ensures
        region_roots(start, addr + 4096, i) == (region_roots(start, addr, i) || i == addr
            / 0x40_0000),
{
    lemma_same_region(addr as u64, (addr + 4095) as u64);
    lemma_div_region_mono(start, addr);
    if addr > start {
        lemma_same_region((addr - 4096) as u64, (addr - 1) as u64);
        lemma_same_region((addr - 4096) as u64, (addr - 4096) as u64);
        lemma_div_region_mono(start, addr - 4096);
        assert((addr - 4096) / 0x40_0000 + 1 >= addr / 0x40_0000) by (nonlinear_arith)
            requires
                addr >= 4096,
        ;
    }
}

proof fn lemma_region_roots_mono(start: int, e1: int, e2: int, i: int)
    requires
        e1 <= e2,
    ensures
        region_roots(start, e1, i) ==> region_roots(start, e2, i),
{
    lemma_div_region_mono(e1 - 1, e2 - 1);
}

proof fn lemma_region_roots_end(start: int, addr: int, end: int, i: int)
    requires
        start % 4096 == 0,
        addr % 4096 == 0,
        0 <= start <= end,
        addr - 4096 < end <= addr,
        start < addr ==> start < end,
        addr < 0x1_0000_0000_0000,
    ensures
        region_roots(start, addr, i) == region_roots(start, end, i),
{
    if addr > 0 {
        lemma_same_region((addr - 4096) as u64, (addr - 1) as u64);
        lemma_same_region((addr - 4096) as u64, (end - 1) as u64);
    }
}

/// Mapping a page in a table whose pages lie at or above `low` keeps them there and changes
/// no byte below `low`.
proof fn lemma_map_page_above(
    before: PageAllocator,
    after: PageAllocator,
    pt: int,
    va: int,
    paddr: u32,
    flags: u32,
    low: int,
)
    requires
        before.wf(),
        before.table_wf(pt),
        before.tables_above(pt, low),
        low <= pt,
        0 <= va < 0x1_0000_0000,
        mapped_one_page(before, after, pt, va, paddr, flags),
    ensures
        after.tables_above(pt, low),
        same_below(before, after, low),
{
    let v1 = vpn1(va);
    let v0 = vpn0(va);
    let t0 = after.l0_table(pt, v1);
    assert(0 <= v1 < 1024 && 0 <= v0 < 1024) by (nonlinear_arith)
        requires
            v1 == (va / 0x40_0000) % 1024,
            v0 == (va / 4096) % 1024,
    ;
    if pte_valid(before.entry(pt, v1)) {
        assert(t0 == before.l0_table(pt, v1));
    }
    assert(t0 >= low);
    assert forall|i: int| 0 <= i < 1024 && pte_valid(#[trigger] after.entry(pt, i)) implies after.l0_table(
        pt,
        i,
    ) >= low by {
        if i != v1 {
            assert(after.entry(pt, i) == before.entry(pt, i));
        }
    }
}

/// A root index that `[start, end)` needs and `[start, addr)` does not: the one of the page
/// at `addr`.
proof fn lemma_range_roots_grow(start: int, addr: int, end: int)
    requires
        start % 4096 == 0,
        addr % 4096 == 0,
        0 <= start <= addr < end,
        end < 0x1_0000_0000,
        !region_roots(start, addr, addr / 0x40_0000),
    ensures
        count_where(range_roots(start, addr), 1024) + 1 <= count_where(range_roots(start, end), 1024),
{
    let v1 = addr / 0x40_0000;
    assert forall|i: int| 0 <= i < 1024 && #[trigger] range_roots(start, addr)(i) implies range_roots(
        start,
        end,
    )(i) by {
        lemma_region_roots_mono(start, addr, end, i);
    }
    lemma_region_roots_step(start, addr, v1);
    lemma_region_roots_mono(start, addr + 4096, end + 4095, v1);
    lemma_div_region_mono(addr, end - 1);
    lemma_div_region_mono(start, addr);
    assert(0 <= v1 < 1024) by (nonlinear_arith)
        requires
            v1 == addr / 0x40_0000,
            0 <= addr < 0x1_0000_0000,
    ;
    assert(range_roots(start, end)(v1));
    assert(!range_roots(start, addr)(v1));
    lemma_count_where_mono(range_roots(start, addr), range_roots(start, end), 1024);
}

/// One page of the kernel's identity mapping, at `addr`, has been mapped: the mapping and
/// the root entries in use now cover `[kernel_base, addr + 4096)`.
proof fn lemma_kernel_page_step(before: PageAllocator, after: PageAllocator, pt: int, kernel_base: int, addr: int)
    requires
        before.wf(),
        kernel_base % 4096 == 0,
        addr % 4096 == 0,
        0 <= kernel_base <= addr < 0x1_0000_0000,
        mapped_one_page(before, after, pt, addr, addr as u32, kernel_flags()),
        forall|w1: int, w0: int|
            0 <= w1 < 1024 && 0 <= w0 < 1024 ==> #[trigger] before.lookup_vpn(pt, w1, w0)
                == kernel_pte(kernel_base, addr, w1, w0),
        forall|w1: int|
            0 <= w1 < 1024 ==> pte_valid(#[trigger] before.entry(pt, w1)) == region_roots(
                kernel_base,
                addr,
                w1,
            ),
    ensures
        forall|w1: int, w0: int|
            0 <= w1 < 1024 && 0 <= w0 < 1024 ==> #[trigger] after.lookup_vpn(pt, w1, w0)
                == kernel_pte(kernel_base, addr + 4096, w1, w0),
        forall|w1: int|
            0 <= w1 < 1024 ==> pte_valid(#[trigger] after.entry(pt, w1)) == region_roots(
                kernel_base,
                addr + 4096,
                w1,
            ),
        after.ram().len() - before.ram().len() == 4096 * (count_where(
            range_roots(kernel_base, addr + 4096),
            1024,
        ) - count_where(range_roots(kernel_base, addr), 1024)),
{
    lemma_page_va(addr);
    let v1 = vpn1(addr);
    lemma_flag_values();
    lemma_make_pte(addr as u32, kernel_flags());
    assert forall|w1: int, w0: int| 0 <= w1 < 1024 && 0 <= w0 < 1024 implies #[trigger] after.lookup_vpn(
        pt,
        w1,
        w0,
    ) == kernel_pte(kernel_base, addr + 4096, w1, w0) by {
        lemma_page_va_aligned(w1, w0);
        if w1 == vpn1(addr) && w0 == vpn0(addr) {
        } else {
            assert(after.lookup_vpn(pt, w1, w0) == before.lookup_vpn(pt, w1, w0));
            assert(page_va(w1, w0) != addr);
        }
    }
    assert forall|w1: int| 0 <= w1 < 1024 implies pte_valid(#[trigger] after.entry(pt, w1))
        == region_roots(kernel_base, addr + 4096, w1) by {
        lemma_region_roots_step(kernel_base, addr, w1);
        if w1 != v1 {
            assert(after.entry(pt, w1) == before.entry(pt, w1));
        }
    }
    assert forall|i: int| 0 <= i < 1024 implies #[trigger] range_roots(kernel_base, addr + 4096)(i)
        == (range_roots(kernel_base, addr)(i) || i == v1) by {
        lemma_region_roots_step(kernel_base, addr, i);
    }
    if pte_valid(before.entry(pt, v1)) {
        lemma_count_where_ext(range_roots(kernel_base, addr), range_roots(kernel_base, addr + 4096), 1024);
    } else {
        lemma_count_where_insert(
            range_roots(kernel_base, addr),
            range_roots(kernel_base, addr + 4096),
            1024,
            v1,
        );
    }
}

/// Map every page of `[kernel_base, kernel_end)` to itself, readable, writable and
/// executable, in the fresh table `pt`; the pages start at `kernel_base`, one page apart.
#[verifier::spinoff_prover]
#[verifier::rlimit(80)]
fn map_kernel_pages(a: &mut PageAllocator, pt: PAddr, kernel_base: u32, kernel_end: u32, low: Ghost<int>)
    -> (r: Result<(), KernelError>)
    requires
        old(a).wf(),
        old(a).table_wf(pt as int),
        old(a).tables_above(pt as int, low@),
        low@ <= pt,
        table_clean(*old(a), pt as int),
        forall|w1: int| 0 <= w1 < 1024 ==> !pte_valid(#[trigger] old(a).entry(pt as int, w1)),
        forall|w1: int, w0: int|
            0 <= w1 < 1024 && 0 <= w0 < 1024 ==> #[trigger] old(a).lookup_vpn(pt as int, w1, w0)
                is None,
    ensures
        final(a).wf(),
        final(a).table_wf(pt as int),
        final(a).tables_above(pt as int, low@),
        same_below(*old(a), *final(a), low@),
        match r {
            Ok(()) => {
                &&& table_clean(*final(a), pt as int)
                &&& kernel_base < kernel_end ==> kernel_base % 4096 == 0
                &&& forall|w1: int, w0: int|
                    0 <= w1 < 1024 && 0 <= w0 < 1024 ==> #[trigger] final(a).lookup_vpn(
                        pt as int,
                        w1,
                        w0,
                    ) == kernel_pte(kernel_base as int, kernel_end as int, w1, w0)
                &&& forall|w1: int|
                    0 <= w1 < 1024 ==> pte_valid(#[trigger] final(a).entry(pt as int, w1))
                        == region_roots(kernel_base as int, kernel_end as int, w1)
                &&& final(a).ram().len() == old(a).ram().len() + 4096 * count_where(
                    range_roots(kernel_base as int, kernel_end as int),
                    1024,
                )
            },
            Err(e) => {
                ||| e == KernelError::OutOfMemory && (kernel_base < kernel_end ==> kernel_base % 4096
                    == 0) && old(a).next() + 4096 * count_where(
                    range_roots(kernel_base as int, kernel_end as int),
                    1024,
                ) > old(a).end()
                ||| e == KernelError::UnalignedVaddr && kernel_base % 4096 != 0 && kernel_base
                    < kernel_end && *final(a) == *old(a)
            },
        },
{
    proof {
        lemma_count_where_ext(valid_roots(*old(a), pt as int), range_roots(kernel_base as int, kernel_base as int), 1024);
        assert(count_where(range_roots(kernel_base as int, kernel_base as int), 1024) == 0) by {
            lemma_count_where_ext(range_roots(kernel_base as int, kernel_base as int), |i: int| false, 1024);
            lemma_count_where_mono(|i: int| false, |i: int| false, 1024);
            lemma_count_false(1024);
        }
    }
    let mut addr: u64 = kernel_base as u64;
    while addr < kernel_end as u64
        invariant
            a.wf(),
            a.table_wf(pt as int),
            a.tables_above(pt as int, low@),
            low@ <= pt,
            table_clean(*a, pt as int),
            same_below(*old(a), *a, low@),
            kernel_base <= addr,
            (addr - kernel_base) % 4096 == 0,
            addr == kernel_base || addr - 4096 < kernel_end,
            addr > kernel_base ==> kernel_base % 4096 == 0,
            addr == kernel_base ==> *a == *old(a),
            forall|w1: int, w0: int|
                0 <= w1 < 1024 && 0 <= w0 < 1024 ==> #[trigger] a.lookup_vpn(pt as int, w1, w0)
                    == kernel_pte(kernel_base as int, addr as int, w1, w0),
            forall|w1: int|
                0 <= w1 < 1024 ==> pte_valid(#[trigger] a.entry(pt as int, w1)) == region_roots(
                    kernel_base as int,
                    addr as int,
                    w1,
                ),
            a.ram().len() == old(a).ram().len() + 4096 * count_where(
                range_roots(kernel_base as int, addr as int),
                1024,
            ),
        decreases kernel_end + 4096 - addr,
    {
        let ghost before = *a;
        proof {
            if addr == kernel_base {
                assert forall|w1: int, w0: int|
                    0 <= w1 < 1024 && 0 <= w0 < 1024 implies #[trigger] a.lookup_vpn(
                    pt as int,
                    w1,
                    w0,
                ) == kernel_pte(kernel_base as int, addr as int, w1, w0) by {
                    assert(old(a).lookup_vpn(pt as int, w1, w0) is None);
                }
            }
        }
        let res = a.try_map_page(pt, addr as usize, addr as u32, PAGE_R | PAGE_W | PAGE_X);
        match res {
            Ok(()) => {},
            Err(e) => {
                proof {
                    if e == KernelError::OutOfMemory {
                        lemma_page_va(addr as int);
                        lemma_range_roots_grow(kernel_base as int, addr as int, kernel_end as int);
                    } else if e == KernelError::UnalignedVaddr {
                        assert(addr == kernel_base);
                    } else {
                        assert(e == KernelError::UnalignedPaddr);
                    }
                }
                return Err(e);
            },
        }
        proof {
            lemma_flag_values();
            assert(mapped_one_page(before, *a, pt as int, addr as int, addr as u32, kernel_flags()));
            lemma_kernel_page_step(before, *a, pt as int, kernel_base as int, addr as int);
            lemma_clean_after_map(before, *a, pt as int, addr as int, addr as u32, kernel_flags());
            lemma_map_page_above(before, *a, pt as int, addr as int, addr as u32, kernel_flags(), low@);
            lemma_same_below_trans(*old(a), before, *a, low@);
        }
        addr = addr + 4096;
    }
    proof {
        assert forall|w1: int, w0: int|
            0 <= w1 < 1024 && 0 <= w0 < 1024 implies #[trigger] a.lookup_vpn(pt as int, w1, w0)
            == kernel_pte(kernel_base as int, kernel_end as int, w1, w0) by {
            assert(page_va(w1, w0) % 4096 == 0) by (nonlinear_arith)
                requires
                    page_va(w1, w0) == (w1 * 1024 + w0) * 4096,
            ;
        }
        if addr > kernel_base {
            assert forall|i: int| 0 <= i < 1024 implies #[trigger] range_roots(kernel_base as int, addr as int)(i)
                == range_roots(kernel_base as int, kernel_end as int)(i) by {
                lemma_region_roots_end(kernel_base as int, addr as int, kernel_end as int, i);
            }
        } else {
            assert forall|i: int| 0 <= i < 1024 implies #[trigger] range_roots(kernel_base as int, addr as int)(i)
                == range_roots(kernel_base as int, kernel_end as int)(i) by {}
        }
        lemma_count_where_ext(
            range_roots(kernel_base as int, addr as int),
            range_roots(kernel_base as int, kernel_end as int),
            1024,
        );
    }
    Ok(())
}

/// Byte `k` of the page of a program image that starts at offset `off`: the image's byte
/// there, or zero past the image's end.
pub open spec fn image_byte(image: Seq<u8>, off: int, k: int) -> u8 {
    if 0 <= off + k < image.len() {
        image[off + k]
    } else {
        0
    }
}

/// Entry `e` maps a user page whose frame, at or above `low`, holds the page of `image` at
/// offset `off`.
pub open spec fn user_page_holds(a: PageAllocator, e: u32, image: Seq<u8>, off: int, low: int) -> bool {
    &&& e == make_pte(pte_frame(e) as u32, user_flags())
    &&& low <= pte_frame(e)
    &&& a.page_in_ram(pte_frame(e))
    &&& forall|k: int| 0 <= k < 4096 ==> #[trigger] a.byte(pte_frame(e) + k) == image_byte(image, off, k)
}

/// The frame at `f` is neither the root page of `root` nor one of its second-level tables.
pub open spec fn frame_apart(a: PageAllocator, root: int, f: int) -> bool {
    &&& f != root
    &&& forall|i: int|
        0 <= i < 1024 && pte_valid(#[trigger] a.entry(root, i)) ==> a.l0_table(root, i) != f
}

/// The address space rooted at `root` maps page `(w1, w0)` as a new process's should once
/// its first `mapped` image bytes' pages are mapped: an image page above the kernel's
/// identity mapping of `[kernel_base, kernel_end)`.
pub open spec fn maps_page_as_process(
    a: PageAllocator,
    root: int,
    kernel_base: int,
    kernel_end: int,
    image: Seq<u8>,
    mapped: int,
    low: int,
    w1: int,
    w0: int,
) -> bool {
    let va = page_va(w1, w0);
    if USER_BASE <= va < USER_BASE + mapped {
        &&& a.lookup_vpn(root, w1, w0) is Some
        &&& user_page_holds(a, a.lookup_vpn(root, w1, w0)->0, image, va - USER_BASE, low)
        &&& frame_apart(a, root, pte_frame(a.lookup_vpn(root, w1, w0)->0))
    } else {
        a.lookup_vpn(root, w1, w0) == kernel_pte(kernel_base, kernel_end, w1, w0)
    }
}

/// Distinct image pages of the first `mapped` bytes sit in distinct frames.
pub open spec fn image_frames_distinct(a: PageAllocator, root: int, mapped: int) -> bool {
    forall|w1: int, w0: int, x1: int, x0: int|
        0 <= w1 < 1024 && 0 <= w0 < 1024 && 0 <= x1 < 1024 && 0 <= x0 < 1024 && USER_BASE
            <= page_va(w1, w0) < USER_BASE + mapped && USER_BASE <= page_va(x1, x0) < USER_BASE
            + mapped && (w1 != x1 || w0 != x0) ==> pte_frame(
            #[trigger] a.lookup_vpn(root, w1, w0)->0,
        ) != pte_frame(#[trigger] a.lookup_vpn(root, x1, x0)->0)
}

proof fn lemma_page_va_aligned(w1: int, w0: int)
    requires
        0 <= w1 < 1024,
        0 <= w0 < 1024,
    ensures
        page_va(w1, w0) % 4096 == 0,
        0 <= page_va(w1, w0) < 0x1_0000_0000,
{
    assert(page_va(w1, w0) % 4096 == 0 && 0 <= page_va(w1, w0) < 0x1_0000_0000) by (nonlinear_arith)
        requires
            page_va(w1, w0) == (w1 * 1024 + w0) * 4096,
            0 <= w1 < 1024,
            0 <= w0 < 1024,
    ;
}

/// What holds of an address space with its image frames at or above `hi` holds with any
/// lower bound.
proof fn lemma_maps_lower_bound(
    a: PageAllocator,
    root: int,
    kernel_base: int,
    kernel_end: int,
    image: Seq<u8>,
    hi: int,
    lo: int,
)
    requires
        lo <= hi,
        forall|w1: int, w0: int|
            0 <= w1 < 1024 && 0 <= w0 < 1024 ==> #[trigger] maps_page_as_process(
                a,
                root,
                kernel_base,
                kernel_end,
                image,
                image.len() as int,
                hi,
                w1,
                w0,
            ),
    ensures
        forall|w1: int, w0: int|
            0 <= w1 < 1024 && 0 <= w0 < 1024 ==> #[trigger] maps_page_as_process(
                a,
                root,
                kernel_base,
                kernel_end,
                image,
                image.len() as int,
                lo,
                w1,
                w0,
            ),
{
    assert forall|w1: int, w0: int| 0 <= w1 < 1024 && 0 <= w0 < 1024 implies #[trigger] maps_page_as_process(
        a,
        root,
        kernel_base,
        kernel_end,
        image,
        image.len() as int,
        lo,
        w1,
        w0,
    ) by {
        assert(maps_page_as_process(a, root, kernel_base, kernel_end, image, image.len() as int, hi, w1, w0));
    }
}

/// One step of mapping a program image: after a fresh page holding the image page at
/// `off` is mapped at `USER_BASE + off`, the pages up to `off + 4096` are mapped as a
/// process's should be.
#[verifier::spinoff_prover]
#[verifier::rlimit(40)]
proof fn lemma_user_page_step(
    a0: PageAllocator,
    a2: PageAllocator,
    a3: PageAllocator,
    pt: int,
    kernel_base: int,
    kernel_end: int,
    image: Seq<u8>,
    off: int,
    low: int,
    page: u32,
)
    requires
        a0.wf(),
        a0.table_wf(pt),
        a0.tables_above(pt, low),
        low <= pt,
        forall|w1: int, w0: int|
            0 <= w1 < 1024 && 0 <= w0 < 1024 ==> #[trigger] maps_page_as_process(
                a0,
                pt,
                kernel_base,
                kernel_end,
                image,
                off,
                low,
                w1,
                w0,
            ),
        page == a0.next(),
        off % 4096 == 0,
        0 <= off,
        USER_BASE + off < 0x1_0000_0000,
        a2.wf(),
        extends(a0, a2),
        a2.ram().len() == a0.ram().len() + 4096,
        a2.table_wf(pt),
        forall|w1: int| 0 <= w1 < 1024 ==> #[trigger] a2.entry(pt, w1) == a0.entry(pt, w1),
        forall|w1: int, w0: int|
            0 <= w1 < 1024 && 0 <= w0 < 1024 ==> #[trigger] a2.lookup_vpn(pt, w1, w0)
                == a0.lookup_vpn(pt, w1, w0),
        forall|k: int| 0 <= k < 4096 ==> #[trigger] a2.byte(page + k) == image_byte(image, off, k),
        mapped_one_page(a2, a3, pt, USER_BASE + off, page, user_flags()),
    ensures
        a3.tables_above(pt, low),
        same_below(a2, a3, low),
        forall|w1: int, w0: int|
            0 <= w1 < 1024 && 0 <= w0 < 1024 ==> #[trigger] maps_page_as_process(
                a3,
                pt,
                kernel_base,
                kernel_end,
                image,
                off + 4096,
                low,
                w1,
                w0,
            ),
{
    let va = USER_BASE + off;
    let v1 = vpn1(va);
    let v0 = vpn0(va);
    let t0 = a3.l0_table(pt, v1);
    lemma_page_va(va);
    lemma_flag_values();
    lemma_make_pte(page, user_flags());
    crate::page_alloc::lemma_page_starts_apart(pt, page as int);
    if pte_valid(a2.entry(pt, v1)) {
        assert(a2.entry(pt, v1) == a0.entry(pt, v1));
        assert(a0.page_in_ram(a0.l0_table(pt, v1)));
    }
    assert(t0 + 4096 <= page || t0 == page + 4096);
    assert forall|i: int|
        0 <= i < 1024 && pte_valid(#[trigger] a3.entry(pt, i)) implies a3.l0_table(pt, i) >= low by {
        if i != v1 {
            assert(a3.entry(pt, i) == a2.entry(pt, i));
        } else if pte_valid(a2.entry(pt, v1)) {
        }
    }
    assert forall|w1: int, w0: int|
        0 <= w1 < 1024 && 0 <= w0 < 1024 implies #[trigger] maps_page_as_process(
        a3,
        pt,
        kernel_base,
        kernel_end,
        image,
        off + 4096,
        low,
        w1,
        w0,
    ) by {
        lemma_page_va_aligned(w1, w0);
        let pva = page_va(w1, w0);
        assert(maps_page_as_process(a0, pt, kernel_base, kernel_end, image, off, low, w1, w0));
        if w1 == v1 && w0 == v0 {
            lemma_new_user_page(a2, a3, pt, v1, t0, page, image, off);
        } else if USER_BASE <= pva < USER_BASE + off {
            let e = a0.lookup_vpn(pt, w1, w0)->0;
            let f = pte_frame(e);
            assert(a3.lookup_vpn(pt, w1, w0) == a2.lookup_vpn(pt, w1, w0));
            lemma_old_user_page(a0, a2, a3, pt, v1, t0, f, page, image, pva - USER_BASE, low);
        } else {
            assert(pva != va);
            assert(a3.lookup_vpn(pt, w1, w0) == a2.lookup_vpn(pt, w1, w0));
        }
    }
}

proof fn lemma_new_user_page(
    a2: PageAllocator,
    a3: PageAllocator,
    pt: int,
    v1: int,
    t0: int,
    page: u32,
    image: Seq<u8>,
    off: int,
)
    requires
        a2.wf(),
        a3.wf(),
        a3.base() == a2.base(),
        a2.table_wf(pt),
        a3.ram().len() >= a2.ram().len(),
        page + 4096 == a2.next(),
        pt + 4096 <= page,
        t0 == a3.l0_table(pt, v1),
        t0 + 4096 <= page || t0 == page + 4096,
        0 <= v1 < 1024,
        forall|w1: int| 0 <= w1 < 1024 && w1 != v1 ==> #[trigger] a3.entry(pt, w1) == a2.entry(pt, w1),
        forall|i: int|
            0 <= i < 1024 && pte_valid(#[trigger] a2.entry(pt, i)) ==> a2.l0_table(pt, i) + 4096 <= page,
        forall|i: int|
            0 <= i < a2.ram().len() && !(pt <= a2.base() + i < pt + 4096) && !(t0 <= a2.base() + i
                < t0 + 4096) ==> #[trigger] a3.ram()[i] == a2.ram()[i],
        forall|k: int| 0 <= k < 4096 ==> #[trigger] a2.byte(page + k) == image_byte(image, off, k),
    ensures
        forall|k: int| 0 <= k < 4096 ==> #[trigger] a3.byte(page + k) == image_byte(image, off, k),
        frame_apart(a3, pt, page as int),
{
    assert forall|k: int| 0 <= k < 4096 implies #[trigger] a3.byte(page + k) == image_byte(image, off, k) by {
        assert(a2.byte(page + k) == image_byte(image, off, k));
        assert(a3.ram()[page - a2.base() + k] == a2.ram()[page - a2.base() + k]);
    }
    assert forall|i: int|
        0 <= i < 1024 && pte_valid(#[trigger] a3.entry(pt, i)) implies a3.l0_table(pt, i) != page by {
        if i != v1 {
            assert(a3.entry(pt, i) == a2.entry(pt, i));
        }
    }
}

proof fn lemma_old_user_page(
    a0: PageAllocator,
    a2: PageAllocator,
    a3: PageAllocator,
    pt: int,
    v1: int,
    t0: int,
    f: int,
    page: u32,
    image: Seq<u8>,
    off: int,
    low: int,
)
    requires
        a0.wf(),
        a3.wf(),
        extends(a0, a2),
        a3.base() == a2.base(),
        a3.ram().len() >= a2.ram().len(),
        page == a0.next(),
        0 <= v1 < 1024,
        t0 == a3.l0_table(pt, v1),
        t0 + 4096 <= page || t0 == page + 4096,
        pte_valid(a2.entry(pt, v1)) ==> t0 == a0.l0_table(pt, v1) && a2.entry(pt, v1) == a0.entry(pt, v1),
        !pte_valid(a2.entry(pt, v1)) ==> t0 == page + 4096,
        forall|w1: int| 0 <= w1 < 1024 && w1 != v1 ==> #[trigger] a3.entry(pt, w1) == a2.entry(pt, w1),
        forall|w1: int| 0 <= w1 < 1024 ==> #[trigger] a2.entry(pt, w1) == a0.entry(pt, w1),
        pt % 4096 == 0,
        t0 % 4096 == 0,
        low <= f,
        a0.page_in_ram(f),
        frame_apart(a0, pt, f),
        forall|i: int|
            0 <= i < a2.ram().len() && !(pt <= a2.base() + i < pt + 4096) && !(t0 <= a2.base() + i
                < t0 + 4096) ==> #[trigger] a3.ram()[i] == a2.ram()[i],
        forall|k: int| 0 <= k < 4096 ==> #[trigger] a0.byte(f + k) == image_byte(image, off, k),
    ensures
        forall|k: int| 0 <= k < 4096 ==> #[trigger] a3.byte(f + k) == image_byte(image, off, k),
        frame_apart(a3, pt, f),
        a3.page_in_ram(f),
{
    crate::page_alloc::lemma_page_starts_apart(pt, f);
    crate::page_alloc::lemma_page_starts_apart(t0, f);
    if pte_valid(a2.entry(pt, v1)) {
        assert(pte_valid(a0.entry(pt, v1)));
        assert(a0.l0_table(pt, v1) != f);
    }
    assert forall|k: int| 0 <= k < 4096 implies #[trigger] a3.byte(f + k) == image_byte(image, off, k) by {
        assert(a0.byte(f + k) == image_byte(image, off, k));
        assert(a2.ram()[f - a0.base() + k] == a0.ram()[f - a0.base() + k]);
        assert(a3.ram()[f - a0.base() + k] == a2.ram()[f - a0.base() + k]);
    }
    assert forall|i: int|
        0 <= i < 1024 && pte_valid(#[trigger] a3.entry(pt, i)) implies a3.l0_table(pt, i) != f by {
        if i != v1 {
            assert(a3.entry(pt, i) == a2.entry(pt, i));
            assert(a2.entry(pt, i) == a0.entry(pt, i));
        }
    }
}

/// The root indices that the kernel's pages `[kernel_base, kernel_end)` and the first
/// `mapped` bytes' pages of an image at `USER_BASE` use.
pub open spec fn needed_roots(kernel_base: int, kernel_end: int, mapped: int) -> spec_fn(int) -> bool {
    |i: int| region_roots(kernel_base, kernel_end, i) || region_roots(USER_BASE as int, USER_BASE + mapped, i)
}

/// Pages that mapping the first `mapped` bytes of an image takes, on top of an address space
/// that maps the kernel: one per image page, and one per second-level table that the
/// kernel's mapping did not already need.
pub open spec fn image_pages_needed(kernel_base: int, kernel_end: int, mapped: int) -> int {
    count_where(needed_roots(kernel_base, kernel_end, mapped), 1024) - count_where(
        needed_roots(kernel_base, kernel_end, 0),
        1024,
    ) + align_up_spec(mapped, 4096) / 4096
}

proof fn lemma_needed_roots_mono(kernel_base: int, kernel_end: int, m1: int, m2: int)
    requires
        0 <= m1 <= m2,
    ensures
        forall|i: int| 0 <= i < 1024 && #[trigger] needed_roots(kernel_base, kernel_end, m1)(i)
            ==> needed_roots(kernel_base, kernel_end, m2)(i),
{
    assert forall|i: int| 0 <= i < 1024 && #[trigger] needed_roots(kernel_base, kernel_end, m1)(i)
        implies needed_roots(kernel_base, kernel_end, m2)(i) by {
        lemma_region_roots_mono(USER_BASE as int, USER_BASE + m1, USER_BASE + m2, i);
    }
}

proof fn lemma_image_pages_needed_bounds(kernel_base: int, kernel_end: int, off: int, len: int)
    requires
        off % 4096 == 0,
        0 <= off,
        off < len || off == 0,
        0 <= len,
    ensures
        image_pages_needed(kernel_base, kernel_end, off) == count_where(
            needed_roots(kernel_base, kernel_end, off),
            1024,
        ) - count_where(needed_roots(kernel_base, kernel_end, 0), 1024) + off / 4096,
        count_where(needed_roots(kernel_base, kernel_end, off), 1024) <= count_where(
            needed_roots(kernel_base, kernel_end, len),
            1024,
        ),
        count_where(needed_roots(kernel_base, kernel_end, 0), 1024) <= count_where(
            needed_roots(kernel_base, kernel_end, off),
            1024,
        ),
        off < len ==> off / 4096 + 1 <= align_up_spec(len, 4096) / 4096,
{
    crate::common::lemma_align_up(off, 4096);
    crate::common::lemma_align_up(len, 4096);
    assert(align_up_spec(off, 4096) == off);
    lemma_needed_roots_mono(kernel_base, kernel_end, off, len);
    lemma_needed_roots_mono(kernel_base, kernel_end, 0, off);
    lemma_count_where_mono(
        needed_roots(kernel_base, kernel_end, off),
        needed_roots(kernel_base, kernel_end, len),
        1024,
    );
    lemma_count_where_mono(
        needed_roots(kernel_base, kernel_end, 0),
        needed_roots(kernel_base, kernel_end, off),
        1024,
    );
    if off < len {
        let au = align_up_spec(len, 4096);
        assert(off / 4096 + 1 <= au / 4096) by (nonlinear_arith)
            requires
                off % 4096 == 0,
                au % 4096 == 0,
                off < len <= au,
                0 <= off,
        ;
    }
}

/// Mapping the image page at `off` failed for want of memory: the whole image needs more
/// pages than there were.
proof fn lemma_needed_roots_grow(kernel_base: int, kernel_end: int, off: int, len: int)
    requires
        off % 4096 == 0,
        0 <= off < len,
        USER_BASE + len <= u32::MAX,
    ensures
        !needed_roots(kernel_base, kernel_end, off)((USER_BASE + off) / 0x40_0000) ==> count_where(
            needed_roots(kernel_base, kernel_end, off),
            1024,
        ) + 1 <= count_where(needed_roots(kernel_base, kernel_end, len), 1024),
{
    let v1 = (USER_BASE + off) / 0x40_0000;
    lemma_needed_roots_mono(kernel_base, kernel_end, off, len);
    lemma_region_roots_step(USER_BASE as int, (USER_BASE + off) as int, v1);
    lemma_region_roots_mono(USER_BASE as int, USER_BASE + off + 4096, USER_BASE + len + 4095, v1);
    lemma_div_region_mono(USER_BASE + off, USER_BASE + len - 1);
    lemma_div_region_mono(USER_BASE as int, USER_BASE + off);
    assert(0 <= v1 < 1024) by (nonlinear_arith)
        requires
            v1 == (USER_BASE + off) / 0x40_0000,
            0 <= USER_BASE + off < 0x1_0000_0000,
    ;
    assert(needed_roots(kernel_base, kernel_end, len)(v1));
    lemma_count_where_mono(
        needed_roots(kernel_base, kernel_end, off),
        needed_roots(kernel_base, kernel_end, len),
        1024,
    );
}

/// One image page, at `off`, has been mapped: the root entries in use are those of the
/// kernel and of the image's first `off + 4096` bytes.
proof fn lemma_user_roots_step(
    a2: PageAllocator,
    a3: PageAllocator,
    pt: int,
    kernel_base: int,
    kernel_end: int,
    off: int,
    page: u32,
)
    requires
        off % 4096 == 0,
        0 <= off,
        USER_BASE + off + 4096 <= 0x1_0000_0000,
        mapped_one_page(a2, a3, pt, USER_BASE + off, page, user_flags()),
        forall|w1: int|
            0 <= w1 < 1024 ==> pte_valid(#[trigger] a2.entry(pt, w1)) == needed_roots(
                kernel_base,
                kernel_end,
                off,
            )(w1),
    ensures
        forall|w1: int|
            0 <= w1 < 1024 ==> pte_valid(#[trigger] a3.entry(pt, w1)) == needed_roots(
                kernel_base,
                kernel_end,
                off + 4096,
            )(w1),
        a3.ram().len() - a2.ram().len() == 4096 * (count_where(
            needed_roots(kernel_base, kernel_end, off + 4096),
            1024,
        ) - count_where(needed_roots(kernel_base, kernel_end, off), 1024)),
{
    let va = USER_BASE + off;
    lemma_page_va(va);
    let v1 = vpn1(va);
    assert forall|i: int| 0 <= i < 1024 implies #[trigger] needed_roots(kernel_base, kernel_end, off + 4096)(i)
        == (needed_roots(kernel_base, kernel_end, off)(i) || i == v1) by {
        lemma_region_roots_step(USER_BASE as int, va, i);
    }
    assert forall|w1: int| 0 <= w1 < 1024 implies pte_valid(#[trigger] a3.entry(pt, w1))
        == needed_roots(kernel_base, kernel_end, off + 4096)(w1) by {
        if w1 != v1 {
            assert(a3.entry(pt, w1) == a2.entry(pt, w1));
        }
    }
    if pte_valid(a2.entry(pt, v1)) {
        lemma_count_where_ext(
            needed_roots(kernel_base, kernel_end, off),
            needed_roots(kernel_base, kernel_end, off + 4096),
            1024,
        );
    } else {
        lemma_count_where_insert(
            needed_roots(kernel_base, kernel_end, off),
            needed_roots(kernel_base, kernel_end, off + 4096),
            1024,
            v1,
        );
    }
}

proof fn lemma_image_pages_needed_end(kernel_base: int, kernel_end: int, off: int, len: int)
    requires
        off % 4096 == 0,
        0 <= len <= off,
        off == 0 || off - 4096 < len,
        USER_BASE + off < 0x1_0000_0000_0000,
    ensures
        image_pages_needed(kernel_base, kernel_end, off) == image_pages_needed(kernel_base, kernel_end, len),
{
    crate::common::lemma_align_up(off, 4096);
    crate::common::lemma_align_up(len, 4096);
    if off > 0 {
        assert forall|i: int| 0 <= i < 1024 implies #[trigger] needed_roots(kernel_base, kernel_end, off)(i)
            == needed_roots(kernel_base, kernel_end, len)(i) by {
            lemma_region_roots_end(USER_BASE as int, USER_BASE + off, USER_BASE + len, i);
        }
        lemma_count_where_ext(
            needed_roots(kernel_base, kernel_end, off),
            needed_roots(kernel_base, kernel_end, len),
            1024,
        );
        assert(align_up_spec(len, 4096) == off) by (nonlinear_arith)
            requires
                off % 4096 == 0,
                off - 4096 < len <= off,
                align_up_spec(len, 4096) % 4096 == 0,
                align_up_spec(len, 4096) >= len,
                align_up_spec(len, 4096) - len < 4096,
        ;
    } else {
        assert(len == 0);
    }
}

/// Pages that creating a process takes from the allocator: its root table, the
/// second-level tables that the kernel's pages `[kernel_base, kernel_end)` and the image's
/// `len` bytes at `USER_BASE` use, and one page per page of the image.
pub open spec fn process_pages_needed(kernel_base: int, kernel_end: int, len: int) -> int {
    1 + count_where(needed_roots(kernel_base, kernel_end, len), 1024) + align_up_spec(len, 4096)
        / 4096
}

proof fn lemma_process_pages_needed(kernel_base: int, kernel_end: int, len: int)
    requires
        0 <= len,
    ensures
        process_pages_needed(kernel_base, kernel_end, len) == 1 + count_where(
            range_roots(kernel_base, kernel_end),
            1024,
        ) + image_pages_needed(kernel_base, kernel_end, len),
        count_where(range_roots(kernel_base, kernel_end), 1024) <= count_where(
            needed_roots(kernel_base, kernel_end, len),
            1024,
        ),
        process_pages_needed(kernel_base, kernel_end, len) >= 1 + count_where(
            range_roots(kernel_base, kernel_end),
            1024,
        ),
        count_where(range_roots(kernel_base, kernel_end), 1024) >= 0,
        process_pages_needed(kernel_base, kernel_end, len) >= 1,
{
    assert forall|i: int| 0 <= i < 1024 implies #[trigger] range_roots(kernel_base, kernel_end)(i)
        == needed_roots(kernel_base, kernel_end, 0)(i) by {}
    lemma_count_where_ext(range_roots(kernel_base, kernel_end), needed_roots(kernel_base, kernel_end, 0), 1024);
    lemma_needed_roots_mono(kernel_base, kernel_end, 0, len);
    lemma_count_where_mono(
        needed_roots(kernel_base, kernel_end, 0),
        needed_roots(kernel_base, kernel_end, len),
        1024,
    );
    crate::common::lemma_align_up(len, 4096);
}

/// Hands out a fresh page and copies the page of `image` at offset `off` into it, zeros
/// past the image's end.
fn load_image_page(a: &mut PageAllocator, image: &[u8], off: usize) -> (r: Result<PAddr, KernelError>)
    requires
        old(a).wf(),
        off < image@.len(),
    ensures
        final(a).wf(),
        extends(*old(a), *final(a)),
        r is Err ==> r == Err::<PAddr, KernelError>(KernelError::OutOfMemory) && *final(a) == *old(a)
            && old(a).next() + 4096 > old(a).end(),
        r is Ok ==> {
            &&& r->Ok_0 == old(a).next()
            &&& final(a).ram().len() == old(a).ram().len() + 4096
            &&& forall|k: int|
                0 <= k < 4096 ==> #[trigger] final(a).byte(r->Ok_0 + k) == image_byte(
                    image@,
                    off as int,
                    k,
                )
        },
{
    let ghost a0 = *a;
    let page = a.try_alloc_pages(1)?;
    let remaining = image.len() - off;
    let copy_size = if PAGE_SIZE < remaining {
        PAGE_SIZE
    } else {
        remaining
    };
    a.write_bytes(page, image, off, copy_size);
    proof {
        assert forall|k: int| 0 <= k < 4096 implies #[trigger] a.byte(page + k) == image_byte(
            image@,
            off as int,
            k,
        ) by {
            if k >= copy_size {
                assert(a.ram()[page - a0.base() + k] == 0u8);
            }
        }
    }
    Ok(page)
}

proof fn lemma_same_below_trans(a: PageAllocator, b: PageAllocator, c: PageAllocator, addr: int)
    requires
        same_below(a, b, addr),
        same_below(b, c, addr),
    ensures
        same_below(a, c, addr),
{
    assert forall|i: int| 0 <= i < a.ram().len() && a.base() + i < addr implies #[trigger] c.ram()[i]
        == a.ram()[i] by {
        assert(b.ram()[i] == a.ram()[i]);
        assert(c.ram()[i] == b.ram()[i]);
    }
}

/// The first `off` bytes of `image` are mapped in the table `pt`, on top of the kernel's
/// identity mapping, with all of the table at or above `low`.
#[verifier::opaque]
spec fn image_progress(
    a: PageAllocator,
    pt: int,
    kernel_base: int,
    kernel_end: int,
    image: Seq<u8>,
    off: int,
    low: int,
) -> bool {
    &&& a.wf()
    &&& a.table_wf(pt)
    &&& a.tables_above(pt, low)
    &&& low <= pt
    &&& forall|w1: int, w0: int|
        0 <= w1 < 1024 && 0 <= w0 < 1024 ==> #[trigger] maps_page_as_process(
            a,
            pt,
            kernel_base,
            kernel_end,
            image,
            off,
            low,
            w1,
            w0,
        )
    &&& forall|w1: int|
        0 <= w1 < 1024 ==> pte_valid(#[trigger] a.entry(pt, w1)) == needed_roots(
            kernel_base,
            kernel_end,
            off,
        )(w1)
    &&& image_frames_distinct(a, pt, off)
}

proof fn lemma_progress_elim(
    a: PageAllocator,
    pt: int,
    kernel_base: int,
    kernel_end: int,
    image: Seq<u8>,
    off: int,
    low: int,
)
    requires
        image_progress(a, pt, kernel_base, kernel_end, image, off, low),
    ensures
        a.wf(),
        a.table_wf(pt),
        a.tables_above(pt, low),
        low <= pt,
        forall|w1: int, w0: int|
            0 <= w1 < 1024 && 0 <= w0 < 1024 ==> #[trigger] maps_page_as_process(
                a,
                pt,
                kernel_base,
                kernel_end,
                image,
                off,
                low,
                w1,
                w0,
            ),
        forall|w1: int|
            0 <= w1 < 1024 ==> pte_valid(#[trigger] a.entry(pt, w1)) == needed_roots(
                kernel_base,
                kernel_end,
                off,
            )(w1),
        image_frames_distinct(a, pt, off),
{
    reveal(image_progress);
}

proof fn lemma_progress_intro(
    a: PageAllocator,
    pt: int,
    kernel_base: int,
    kernel_end: int,
    image: Seq<u8>,
    off: int,
    low: int,
)
    requires
        a.wf(),
        a.table_wf(pt),
        a.tables_above(pt, low),
        low <= pt,
        forall|w1: int, w0: int|
            0 <= w1 < 1024 && 0 <= w0 < 1024 ==> #[trigger] maps_page_as_process(
                a,
                pt,
                kernel_base,
                kernel_end,
                image,
                off,
                low,
                w1,
                w0,
            ),
        forall|w1: int|
            0 <= w1 < 1024 ==> pte_valid(#[trigger] a.entry(pt, w1)) == needed_roots(
                kernel_base,
                kernel_end,
                off,
            )(w1),
        image_frames_distinct(a, pt, off),
    ensures
        image_progress(a, pt, kernel_base, kernel_end, image, off, low),
{
    reveal(image_progress);
}

proof fn lemma_progress_basics(
    a: PageAllocator,
    pt: int,
    kernel_base: int,
    kernel_end: int,
    image: Seq<u8>,
    off: int,
    low: int,
)
    requires
        image_progress(a, pt, kernel_base, kernel_end, image, off, low),
    ensures
        a.wf(),
        a.table_wf(pt),
        a.tables_above(pt, low),
        low <= pt,
        forall|w1: int|
            0 <= w1 < 1024 ==> pte_valid(#[trigger] a.entry(pt, w1)) == needed_roots(
                kernel_base,
                kernel_end,
                off,
            )(w1),
{
    reveal(image_progress);
}

proof fn lemma_progress_after_load(
    a0: PageAllocator,
    a2: PageAllocator,
    pt: int,
    kernel_base: int,
    kernel_end: int,
    image: Seq<u8>,
    off: int,
    low: int,
)
    requires
        image_progress(a0, pt, kernel_base, kernel_end, image, off, low),
        a2.wf(),
        extends(a0, a2),
        forall|w1: int| 0 <= w1 < 1024 ==> #[trigger] a2.entry(pt, w1) == a0.entry(pt, w1),
    ensures
        a2.table_wf(pt),
        a2.tables_above(pt, low),
        same_below(a0, a2, low),
        forall|w1: int|
            0 <= w1 < 1024 ==> pte_valid(#[trigger] a2.entry(pt, w1)) == needed_roots(
                kernel_base,
                kernel_end,
                off,
            )(w1),
{
    reveal(image_progress);
    lemma_table_frame(a0, a2, pt);
    assert forall|i: int| 0 <= i < 1024 && pte_valid(#[trigger] a2.entry(pt, i)) implies a2.l0_table(
        pt,
        i,
    ) >= low by {
        assert(a2.entry(pt, i) == a0.entry(pt, i));
    }
}

#[verifier::spinoff_prover]
#[verifier::rlimit(100)]
proof fn lemma_progress_step(
    a0: PageAllocator,
    a2: PageAllocator,
    a3: PageAllocator,
    pt: int,
    kernel_base: int,
    kernel_end: int,
    image: Seq<u8>,
    off: int,
    low: int,
    page: u32,
)
    requires
        image_progress(a0, pt, kernel_base, kernel_end, image, off, low),
        off % 4096 == 0,
        0 <= off < image.len(),
        USER_BASE + image.len() <= u32::MAX,
        page == a0.next(),
        a2.wf(),
        extends(a0, a2),
        a2.ram().len() == a0.ram().len() + 4096,
        a2.table_wf(pt),
        forall|w1: int| 0 <= w1 < 1024 ==> #[trigger] a2.entry(pt, w1) == a0.entry(pt, w1),
        forall|w1: int, w0: int|
            0 <= w1 < 1024 && 0 <= w0 < 1024 ==> #[trigger] a2.lookup_vpn(pt, w1, w0)
                == a0.lookup_vpn(pt, w1, w0),
        forall|k: int| 0 <= k < 4096 ==> #[trigger] a2.byte(page + k) == image_byte(image, off, k),
        mapped_one_page(a2, a3, pt, USER_BASE + off, page, user_flags()),
    ensures
        image_progress(a3, pt, kernel_base, kernel_end, image, off + 4096, low),
        same_below(a0, a3, low),
        a3.ram().len() - a0.ram().len() == 4096 * (image_pages_needed(kernel_base, kernel_end, off + 4096)
            - image_pages_needed(kernel_base, kernel_end, off)),
{
    lemma_progress_elim(a0, pt, kernel_base, kernel_end, image, off, low);
    lemma_user_page_step(a0, a2, a3, pt, kernel_base, kernel_end, image, off, low, page);
    assert forall|w1: int|
        0 <= w1 < 1024 implies pte_valid(#[trigger] a2.entry(pt, w1)) == needed_roots(
        kernel_base,
        kernel_end,
        off,
    )(w1) by {
        assert(a2.entry(pt, w1) == a0.entry(pt, w1));
    }
    lemma_user_roots_step(a2, a3, pt, kernel_base, kernel_end, off, page);
    lemma_same_below_trans(a0, a2, a3, low);
    lemma_image_pages_needed_bounds(kernel_base, kernel_end, off, image.len() as int);
    lemma_image_pages_needed_bounds(kernel_base, kernel_end, off + 4096, off + 4097);
    lemma_frames_distinct_step(a0, a2, a3, pt, kernel_base, kernel_end, image, off, low, page);
    lemma_progress_intro(a3, pt, kernel_base, kernel_end, image, off + 4096, low);
}

#[verifier::spinoff_prover]
#[verifier::rlimit(60)]
proof fn lemma_frames_distinct_step(
    a0: PageAllocator,
    a2: PageAllocator,
    a3: PageAllocator,
    pt: int,
    kernel_base: int,
    kernel_end: int,
    image: Seq<u8>,
    off: int,
    low: int,
    page: u32,
)
    requires
        a0.wf(),
        off % 4096 == 0,
        0 <= off,
        USER_BASE + off < 0x1_0000_0000,
        page == a0.next(),
        image_frames_distinct(a0, pt, off),
        forall|w1: int, w0: int|
            0 <= w1 < 1024 && 0 <= w0 < 1024 ==> #[trigger] maps_page_as_process(
                a0,
                pt,
                kernel_base,
                kernel_end,
                image,
                off,
                low,
                w1,
                w0,
            ),
        forall|w1: int, w0: int|
            0 <= w1 < 1024 && 0 <= w0 < 1024 ==> #[trigger] a2.lookup_vpn(pt, w1, w0)
                == a0.lookup_vpn(pt, w1, w0),
        mapped_one_page(a2, a3, pt, USER_BASE + off, page, user_flags()),
    ensures
        image_frames_distinct(a3, pt, off + 4096),
{
    let va = USER_BASE + off;
    lemma_page_va(va);
    lemma_flag_values();
    lemma_make_pte(page, user_flags());
    assert forall|w1: int, w0: int, x1: int, x0: int|
        0 <= w1 < 1024 && 0 <= w0 < 1024 && 0 <= x1 < 1024 && 0 <= x0 < 1024 && USER_BASE
            <= page_va(w1, w0) < USER_BASE + off + 4096 && USER_BASE <= page_va(x1, x0) < USER_BASE
            + off + 4096 && (w1 != x1 || w0 != x0) implies pte_frame(
        #[trigger] a3.lookup_vpn(pt, w1, w0)->0,
    ) != pte_frame(#[trigger] a3.lookup_vpn(pt, x1, x0)->0) by {
        lemma_page_va_aligned(w1, w0);
        lemma_page_va_aligned(x1, x0);
        let new_w = w1 == vpn1(va) && w0 == vpn0(va);
        let new_x = x1 == vpn1(va) && x0 == vpn0(va);
        if !new_w {
            assert(page_va(w1, w0) != va);
            assert(a3.lookup_vpn(pt, w1, w0) == a2.lookup_vpn(pt, w1, w0));
            assert(maps_page_as_process(a0, pt, kernel_base, kernel_end, image, off, low, w1, w0));
        }
        if !new_x {
            assert(page_va(x1, x0) != va);
            assert(a3.lookup_vpn(pt, x1, x0) == a2.lookup_vpn(pt, x1, x0));
            assert(maps_page_as_process(a0, pt, kernel_base, kernel_end, image, off, low, x1, x0));
        }
    }
}

proof fn lemma_progress_done(
    a: PageAllocator,
    pt: int,
    kernel_base: int,
    kernel_end: int,
    image: Seq<u8>,
    off: int,
    low: int,
)
    requires
        image_progress(a, pt, kernel_base, kernel_end, image, off, low),
        off % 4096 == 0,
        image.len() <= off,
        off == 0 || off - 4096 < image.len(),
        USER_BASE + image.len() <= u32::MAX,
    ensures
        a.wf(),
        a.table_wf(pt),
        a.tables_above(pt, low),
        forall|w1: int, w0: int|
            0 <= w1 < 1024 && 0 <= w0 < 1024 ==> #[trigger] maps_page_as_process(
                a,
                pt,
                kernel_base,
                kernel_end,
                image,
                image.len() as int,
                low,
                w1,
                w0,
            ),
        image_frames_distinct(a, pt, image.len() as int),
        image_pages_needed(kernel_base, kernel_end, off) == image_pages_needed(
            kernel_base,
            kernel_end,
            image.len() as int,
        ),
{
    reveal(image_progress);
    let len = image.len() as int;
    assert forall|w1: int, w0: int|
        0 <= w1 < 1024 && 0 <= w0 < 1024 implies #[trigger] maps_page_as_process(
        a,
        pt,
        kernel_base,
        kernel_end,
        image,
        len,
        low,
        w1,
        w0,
    ) by {
        lemma_page_va_aligned(w1, w0);
        assert(maps_page_as_process(a, pt, kernel_base, kernel_end, image, off, low, w1, w0));
    }
    assert forall|w1: int, w0: int|
        0 <= w1 < 1024 && 0 <= w0 < 1024 && USER_BASE <= page_va(w1, w0) implies (page_va(w1, w0)
        < USER_BASE + len <==> page_va(w1, w0) < USER_BASE + off) by {
        lemma_page_va_aligned(w1, w0);
    }
    assert forall|w1: int, w0: int, x1: int, x0: int|
        0 <= w1 < 1024 && 0 <= w0 < 1024 && 0 <= x1 < 1024 && 0 <= x0 < 1024 && USER_BASE
            <= page_va(w1, w0) < USER_BASE + len && USER_BASE <= page_va(x1, x0) < USER_BASE + len
            && (w1 != x1 || w0 != x0) implies pte_frame(#[trigger] a.lookup_vpn(pt, w1, w0)->0)
        != pte_frame(#[trigger] a.lookup_vpn(pt, x1, x0)->0) by {
        lemma_page_va_aligned(w1, w0);
        lemma_page_va_aligned(x1, x0);
    }
    lemma_image_pages_needed_end(kernel_base, kernel_end, off, len);
}

/// Copies the image page at `off` to a fresh page and maps it at `USER_BASE + off`.
#[verifier::spinoff_prover]
fn map_image_page(
    a: &mut PageAllocator,
    pt: PAddr,
    image: &[u8],
    off: usize,
    kernel_base: Ghost<int>,
    kernel_end: Ghost<int>,
    low: Ghost<int>,
) -> (r: Result<(), KernelError>)
    requires
        image_progress(*old(a), pt as int, kernel_base@, kernel_end@, image@, off as int, low@),
        table_clean(*old(a), pt as int),
        off % 4096 == 0,
        off < image@.len(),
        USER_BASE + image@.len() <= u32::MAX,
    ensures
        same_below(*old(a), *final(a), low@),
        r is Ok ==> {
            &&& image_progress(*final(a), pt as int, kernel_base@, kernel_end@, image@, off + 4096, low@)
            &&& table_clean(*final(a), pt as int)
            &&& final(a).ram().len() - old(a).ram().len() == 4096 * (image_pages_needed(
                kernel_base@,
                kernel_end@,
                off + 4096,
            ) - image_pages_needed(kernel_base@, kernel_end@, off as int))
        },
        r is Err ==> {
            &&& r == Err::<(), KernelError>(KernelError::OutOfMemory)
            &&& final(a).wf()
            &&& final(a).table_wf(pt as int)
            &&& final(a).tables_above(pt as int, low@)
            &&& old(a).next() + 4096 * (image_pages_needed(
                kernel_base@,
                kernel_end@,
                image@.len() as int,
            ) - image_pages_needed(kernel_base@, kernel_end@, off as int)) > old(a).end()
        },
{
    proof {
        lemma_progress_basics(*old(a), pt as int, kernel_base@, kernel_end@, image@, off as int, low@);
        lemma_image_pages_needed_bounds(kernel_base@, kernel_end@, off as int, image@.len() as int);
    }
    let ghost a0 = *a;
    let page = match load_image_page(a, image, off) {
        Ok(p) => p,
        Err(e) => {
            return Err(e);
        },
    };
    let ghost a2 = *a;
    proof {
        lemma_table_frame(a0, a2, pt as int);
        lemma_clean_frame(a0, a2, pt as int);
        lemma_progress_after_load(a0, a2, pt as int, kernel_base@, kernel_end@, image@, off as int, low@);
    }
    let res = a.try_map_page(pt, USER_BASE + off, page, PAGE_U | PAGE_R | PAGE_W | PAGE_X);
    proof {
        lemma_flag_values();
        lemma_page_va((USER_BASE + off) as int);
    }
    match res {
        Ok(()) => {},
        Err(e) => {
            proof {
                lemma_needed_roots_grow(kernel_base@, kernel_end@, off as int, image@.len() as int);
            }
            return Err(e);
        },
    }
    proof {
        assert(mapped_one_page(a2, *a, pt as int, (USER_BASE + off) as int, page, user_flags()));
        lemma_clean_after_map(a2, *a, pt as int, (USER_BASE + off) as int, page, user_flags());
        lemma_progress_step(a0, a2, *a, pt as int, kernel_base@, kernel_end@, image@, off as int, low@, page);
    }
    Ok(())
}

/// Copy each page of `image` to a fresh page and map it, user-accessible, at `USER_BASE`
/// onwards in the table `pt`.
#[verifier::spinoff_prover]
fn map_user_image(
    a: &mut PageAllocator,
    pt: PAddr,
    image: &[u8],
    kernel_base: Ghost<int>,
    kernel_end: Ghost<int>,
    low: Ghost<int>,
) -> (r: Result<(), KernelError>)
    requires
        old(a).wf(),
        old(a).table_wf(pt as int),
        old(a).tables_above(pt as int, low@),
        low@ <= pt,
        table_clean(*old(a), pt as int),
        USER_BASE + image@.len() <= u32::MAX,
        forall|w1: int, w0: int|
            0 <= w1 < 1024 && 0 <= w0 < 1024 ==> #[trigger] old(a).lookup_vpn(pt as int, w1, w0)
                == kernel_pte(kernel_base@, kernel_end@, w1, w0),
        forall|w1: int|
            0 <= w1 < 1024 ==> pte_valid(#[trigger] old(a).entry(pt as int, w1)) == needed_roots(
                kernel_base@,
                kernel_end@,
                0,
            )(w1),
    ensures
        final(a).wf(),
        final(a).table_wf(pt as int),
        final(a).tables_above(pt as int, low@),
        same_below(*old(a), *final(a), low@),
        r is Err ==> r == Err::<(), KernelError>(KernelError::OutOfMemory) && old(a).next() + 4096 * (
        image_pages_needed(kernel_base@, kernel_end@, image@.len() as int)) > old(a).end(),
        r is Ok ==> {
            &&& table_clean(*final(a), pt as int)
            &&& forall|w1: int, w0: int|
                0 <= w1 < 1024 && 0 <= w0 < 1024 ==> #[trigger] maps_page_as_process(
                    *final(a),
                    pt as int,
                    kernel_base@,
                    kernel_end@,
                    image@,
                    image@.len() as int,
                    low@,
                    w1,
                    w0,
                )
            &&& final(a).ram().len() == old(a).ram().len() + 4096 * image_pages_needed(
                kernel_base@,
                kernel_end@,
                image@.len() as int,
            )
            &&& image_frames_distinct(*final(a), pt as int, image@.len() as int)
        },
{
    let len = image.len();
    let mut off: usize = 0;
    proof {
        lemma_image_pages_needed_bounds(kernel_base@, kernel_end@, 0, len as int);
        reveal(image_progress);
        assert forall|w1: int, w0: int|
            0 <= w1 < 1024 && 0 <= w0 < 1024 implies #[trigger] maps_page_as_process(
            *a,
            pt as int,
            kernel_base@,
            kernel_end@,
            image@,
            0,
            low@,
            w1,
            w0,
        ) by {
            lemma_page_va_aligned(w1, w0);
        }
    }
    while off < len
        invariant
            len == image@.len(),
            USER_BASE + len <= u32::MAX,
            off % 4096 == 0,
            off == 0 || off - 4096 < len,
            image_progress(*a, pt as int, kernel_base@, kernel_end@, image@, off as int, low@),
            table_clean(*a, pt as int),
            same_below(*old(a), *a, low@),
            a.ram().len() == old(a).ram().len() + 4096 * image_pages_needed(
                kernel_base@,
                kernel_end@,
                off as int,
            ),
        decreases len + 4096 - off,
    {
        let ghost a0 = *a;
        let res = map_image_page(a, pt, image, off, kernel_base, kernel_end, low);
        proof {
            lemma_same_below_trans(*old(a), a0, *a, low@);
        }
        match res {
            Ok(()) => {},
            Err(e) => {
                return Err(e);
            },
        }
        off = off + PAGE_SIZE;
    }
    proof {
        lemma_progress_done(*a, pt as int, kernel_base@, kernel_end@, image@, off as int, low@);
    }
    Ok(())
}


/// A process slot: its process control block and kernel stack.
pub struct Process {
    /// Process id: slot index plus one, or 0 for the idle process and unused slots.
    pub pid: i32,
    /// `PROC_UNUSED` or `PROC_RUNNABLE`.
    pub state: i32,
    /// Saved kernel stack pointer, as a byte offset into `stack`.
    pub sp: usize,
    /// Physical address of the root of the process's page table.
    pub page_table: PAddr,
    /// The kernel stack.
    pub stack: Vec<u8>,
}

impl Process {
    /// An unused slot with a zeroed stack.
    pub fn new() -> (r: Self)
        ensures
            r.pid == 0,
            r.state == PROC_UNUSED,
            r.sp == 0,
            r.page_table == 0,
            r.stack@ == Seq::new(KERNEL_STACK_SIZE as nat, |i: int| 0u8),
    {
        let stack = zero_bytes(KERNEL_STACK_SIZE);
        Process { pid: 0, state: PROC_UNUSED, sp: 0, page_table: 0, stack }
    }
}

/// A switch from one process to another that the CPU must carry out: install the next
/// process's address space with `satp` and switch kernel stacks.
#[derive(Debug, Clone, Copy, PartialEq, Eq, Structural)]
pub struct ContextSwitch {
    /// Slot of the process that gives up the CPU.
    pub prev: usize,
    /// Slot of the process that takes it.
    pub next: usize,
    /// Value for the `satp` register: Sv32 paging with the next process's page table.
    pub satp: u32,
}

/// The process may be picked to run: it is runnable and is not the idle process.
pub open spec fn schedulable(p: Process) -> bool {
    p.state == PROC_RUNNABLE && p.pid > 0
}

/// The `d`-th slot in round-robin order from slot `start`.
pub open spec fn rr_slot(start: int, d: int) -> int {
    (start + d) % (PROCS_MAX as int)
}

/// The first slot in the order `start, start + 1, ...` (modulo the slot count), from the
/// `i`-th on, whose process is schedulable.
pub open spec fn pick_from(procs: Seq<Process>, start: int, i: int) -> Option<int>
    decreases PROCS_MAX - i,
{
    if i < 0 || i >= PROCS_MAX {
        None
    } else if schedulable(procs[rr_slot(start, i)]) {
        Some(rr_slot(start, i))
    } else {
        pick_from(procs, start, i + 1)
    }
}

/// The round-robin search from offset `i` finds the first schedulable slot in that order,
/// and finds none only when no slot in the rest of the order is schedulable.
pub proof fn lemma_pick_from(procs: Seq<Process>, start: int, i: int)
    requires
        0 <= i <= PROCS_MAX,
        0 <= start,
        procs.len() == PROCS_MAX,
    ensures
        match pick_from(procs, start, i) {
            Some(j) => {
                &&& 0 <= j < PROCS_MAX
                &&& schedulable(procs[j])
                &&& exists|d: int|
                    i <= d < PROCS_MAX && j == #[trigger] rr_slot(start, d) && forall|e: int|
                        i <= e < d ==> !schedulable(#[trigger] procs[rr_slot(start, e)])
            },
            None => forall|e: int|
                i <= e < PROCS_MAX ==> !schedulable(#[trigger] procs[rr_slot(start, e)]),
        },
    decreases PROCS_MAX - i,
{
    if i < PROCS_MAX && !schedulable(procs[rr_slot(start, i)]) {
        lemma_pick_from(procs, start, i + 1);
        match pick_from(procs, start, i + 1) {
            Some(j) => {
                let d = choose|d: int|
                    i + 1 <= d < PROCS_MAX && j == #[trigger] rr_slot(start, d) && forall|e: int|
                        i + 1 <= e < d ==> !schedulable(#[trigger] procs[rr_slot(start, e)]);
                assert(i <= d < PROCS_MAX && j == #[trigger] rr_slot(start, d) && forall|e: int|
                    i <= e < d ==> !schedulable(#[trigger] procs[rr_slot(start, e)]));
            },
            None => {},
        }
    } else if i < PROCS_MAX {
        assert(i <= i < PROCS_MAX && rr_slot(start, i) == rr_slot(start, i) && forall|e: int|
            i <= e < i ==> !schedulable(#[trigger] procs[rr_slot(start, e)]));
    }
}

/// The slot that runs after `current` gives up the CPU: the first schedulable process in
/// round-robin order from the slot after `current` (slot `pid` of the current process),
/// or the idle process when none is schedulable.
pub open spec fn next_to_run(procs: Seq<Process>, current: int, idle: int) -> int {
    match pick_from(procs, procs[current].pid as int, 0) {
        Some(i) => i,
        None => idle,
    }
}

/// Yielding is round robin: when some process is schedulable, the next to run is
/// schedulable and no schedulable process comes before it in the order that starts at the
/// slot after the current process; the idle process runs only when none is schedulable.
pub proof fn lemma_yield_round_robin(procs: Seq<Process>, current: int, idle: int)
    requires
        procs.len() == PROCS_MAX,
        0 <= current < PROCS_MAX,
        0 <= procs[current].pid <= PROCS_MAX,
    ensures
        ({
            let n = next_to_run(procs, current, idle);
            let start = procs[current].pid as int;
            &&& (exists|j: int| 0 <= j < PROCS_MAX && schedulable(#[trigger] procs[j])) ==> {
                &&& 0 <= n < PROCS_MAX
                &&& schedulable(procs[n])
                &&& exists|d: int|
                    0 <= d < PROCS_MAX && n == #[trigger] rr_slot(start, d) && forall|e: int|
                        0 <= e < d ==> !schedulable(#[trigger] procs[rr_slot(start, e)])
            }
            &&& (forall|j: int| 0 <= j < PROCS_MAX ==> !schedulable(#[trigger] procs[j])) ==> n
                == idle
        }),
{
    let start = procs[current].pid as int;
    lemma_pick_from(procs, start, 0);
    if pick_from(procs, start, 0) is None {
        assert forall|j: int| 0 <= j < PROCS_MAX implies !schedulable(#[trigger] procs[j]) by {
            let d = (j - start + 16) % (PROCS_MAX as int);
            assert(rr_slot(start, d) == j);
            assert(!schedulable(procs[rr_slot(start, d)]));
        }
    }
}

/// The kernel's process table and physical memory.
pub struct Kernel {
    procs: Vec<Process>,
    allocator: PageAllocator,
    kernel_base: u32,
    user_entry: u32,
    current: usize,
    idle: usize,
}

/// The index of the first unused slot in `procs`, if there is one.
pub open spec fn first_unused(procs: Seq<Process>) -> Option<int> {
    if exists|i: int| 0 <= i < procs.len() && procs[i].state == PROC_UNUSED {
        Some(
            choose|i: int|
                0 <= i < procs.len() && procs[i].state == PROC_UNUSED && forall|j: int|
                    0 <= j < i ==> procs[j].state != PROC_UNUSED,
        )
    } else {
        None
    }
}

/// The first word of a new process's kernel stack is where it starts running; the twelve
/// saved registers above it are zero.
pub open spec fn initial_stack(stack: Seq<u8>, sp: int, entry: u32) -> bool {
    &&& word_at(stack, sp) == entry
    &&& forall|k: int| 1 <= k <= 12 ==> #[trigger] word_at(stack, sp + 4 * k) == 0
}

/// What creating a process from `image` in slot `slot` of `k0` leaves in `k1`: the slot was
/// the first unused one and no other slot changes; the process is runnable with pid
/// `slot + 1`, its kernel stack holds the saved registers of a process about to start at
/// the kernel's user entry point; its page table is the first page handed out, and it maps
/// every page as `maps_page_as_process` says, the image's pages to distinct frames.
pub open spec fn process_created(k0: Kernel, k1: Kernel, image: Seq<u8>, slot: int) -> bool {
        let p = k1.procs()[slot];
        let low = k0.mem().next();
        &&& first_unused(k0.procs()) == Some(slot)
        &&& forall|j: int|
            0 <= j < PROCS_MAX && j != slot ==> #[trigger] k1.procs()[j]
                == k0.procs()[j]
        &&& p.pid == slot + 1
        &&& p.state == PROC_RUNNABLE
        &&& p.sp == KERNEL_STACK_SIZE - 13 * 4
        &&& initial_stack(p.stack@, p.sp as int, k0.user_entry_spec())
        &&& forall|k: int|
            0 <= k < p.sp ==> #[trigger] p.stack@[k] == k0.procs()[slot].stack@[k]
        &&& p.page_table == low
        &&& k1.mem().tables_above(p.page_table as int, low)
        &&& table_clean(k1.mem(), p.page_table as int)
        &&& k0.kernel_base_spec() < k0.mem().end()
            ==> k0.kernel_base_spec() % 4096 == 0
        &&& k1.mem().next() == low + 4096 * process_pages_needed(
            k0.kernel_base_spec(),
            k0.mem().end(),
            image.len() as int,
        )
        &&& forall|w1: int, w0: int|
            0 <= w1 < 1024 && 0 <= w0 < 1024 ==> #[trigger] maps_page_as_process(
                k1.mem(),
                p.page_table as int,
                k0.kernel_base_spec(),
                k0.mem().end(),
                image,
                image.len() as int,
                low,
                w1,
                w0,
            )
        &&& image_frames_distinct(k1.mem(), p.page_table as int, image.len() as int)
}

/// The kernel `k` can create a process from an image of `image_len` bytes: a slot is free,
/// the kernel's base is page aligned (where it lies below the end of the free RAM), and the
/// free RAM holds every page the new address space needs.
pub open spec fn can_create_process(k: Kernel, image_len: int) -> bool {
    (first_unused(k.procs()) is Some && (k.kernel_base_spec()
                >= k.mem().end() || k.kernel_base_spec() % 4096 == 0) && k.mem().next() + 4096 * process_pages_needed(
                k.kernel_base_spec(),
                k.mem().end(),
                image_len,
            ) <= k.mem().end())
}

/// What booting with the user program `image` leaves in `k1`, starting from `k0`: the idle
/// process (pid 0) sits in the first unused slot and maps only the kernel; the user program
/// runs with pid `u + 1` in the first unused slot `u` after it, its kernel stack set up to
/// start at the kernel's user entry point and its address space mapped as
/// `maps_page_as_process` says, the image in distinct frames; no other slot changes; and
/// the first yield has picked the next process to run (`sw`).
pub open spec fn booted(k0: Kernel, k1: Kernel, image: Seq<u8>, sw: Option<ContextSwitch>) -> bool {
    let idle = k1.idle_spec();
    &&& first_unused(k0.procs()) == Some(idle)
    &&& k1.procs()[idle].pid == 0
    &&& k1.procs()[idle].state == PROC_RUNNABLE
    &&& forall|w1: int, w0: int|
        0 <= w1 < 1024 && 0 <= w0 < 1024 ==> #[trigger] k1.mem().lookup_vpn(
            k1.procs()[idle].page_table as int,
            w1,
            w0,
        ) == kernel_pte(k0.kernel_base_spec(), k0.mem().end(), w1, w0)
    &&& exists|u: int|
        {
            &&& 0 <= u < PROCS_MAX
            &&& u != idle
            &&& #[trigger] k1.procs()[u].pid == u + 1
            &&& k1.procs()[u].state == PROC_RUNNABLE
            &&& k1.procs()[u].sp == KERNEL_STACK_SIZE - 13 * 4
            &&& initial_stack(k1.procs()[u].stack@, k1.procs()[u].sp as int, k0.user_entry_spec())
            &&& image_frames_distinct(k1.mem(), k1.procs()[u].page_table as int, image.len() as int)
            &&& table_clean(k1.mem(), k1.procs()[u].page_table as int)
            &&& k0.procs()[u].state == PROC_UNUSED
            &&& forall|j: int| 0 <= j < u && j != idle ==> #[trigger] k0.procs()[j].state != PROC_UNUSED
            &&& forall|j: int|
                0 <= j < PROCS_MAX && j != idle && j != u ==> #[trigger] k1.procs()[j] == k0.procs()[j]
            &&& forall|w1: int, w0: int|
                0 <= w1 < 1024 && 0 <= w0 < 1024 ==> #[trigger] maps_page_as_process(
                    k1.mem(),
                    k1.procs()[u].page_table as int,
                    k0.kernel_base_spec(),
                    k0.mem().end(),
                    image,
                    image.len() as int,
                    k0.mem().next(),
                    w1,
                    w0,
                )
        }
    &&& k1.current_spec() == next_to_run(k1.procs(), idle, idle)
    &&& (sw is None <==> k1.current_spec() == idle)
    &&& sw is Some ==> {
        &&& sw->0.prev == idle
        &&& sw->0.next == k1.current_spec()
        &&& sw->0.satp == SATP_SV32 | (k1.procs()[sw->0.next as int].page_table / 4096)
    }
}

/// The kernel `k` can boot with a user program of `image_len` bytes: two slots are free,
/// the kernel's base is page aligned (where it lies below the end of the free RAM), and the
/// free RAM holds the pages of both address spaces.
pub open spec fn can_boot(k: Kernel, image_len: int) -> bool {
    &&& two_free_slots(k.procs())
    &&& (k.kernel_base_spec() >= k.mem().end() || k.kernel_base_spec() % 4096 == 0)
    &&& k.mem().next() + 4096 * (process_pages_needed(k.kernel_base_spec(), k.mem().end(), 0)
        + process_pages_needed(k.kernel_base_spec(), k.mem().end(), image_len)) <= k.mem().end()
}

/// At least two slots of `procs` are unused.
pub open spec fn two_free_slots(procs: Seq<Process>) -> bool {
    exists|i: int, j: int|
        0 <= i < PROCS_MAX && 0 <= j < PROCS_MAX && i != j && #[trigger] procs[i].state
            == PROC_UNUSED && #[trigger] procs[j].state == PROC_UNUSED
}

/// With two unused slots there is a first unused one.
proof fn lemma_two_free_slots_first(procs: Seq<Process>)
    requires
        procs.len() == PROCS_MAX,
    ensures
        two_free_slots(procs) ==> first_unused(procs) is Some,
{
    if two_free_slots(procs) {
        let (i, j) = choose|i: int, j: int|
            0 <= i < PROCS_MAX && 0 <= j < PROCS_MAX && i != j && #[trigger] procs[i].state
                == PROC_UNUSED && #[trigger] procs[j].state == PROC_UNUSED;
        assert(procs[i].state == PROC_UNUSED);
    }
}

/// Once the unused slot `taken` of `before` is in use, an unused slot is left exactly when
/// `before` had two.
proof fn lemma_two_free_slots_after(before: Seq<Process>, after: Seq<Process>, taken: int)
    requires
        before.len() == PROCS_MAX,
        after.len() == PROCS_MAX,
        0 <= taken < PROCS_MAX,
        before[taken].state == PROC_UNUSED,
        after[taken].state != PROC_UNUSED,
        forall|j: int| 0 <= j < PROCS_MAX && j != taken ==> #[trigger] after[j].state == before[j].state,
    ensures
        (first_unused(after) is Some) <==> two_free_slots(before),
{
    if two_free_slots(before) {
        let (i, j) = choose|i: int, j: int|
            0 <= i < PROCS_MAX && 0 <= j < PROCS_MAX && i != j && #[trigger] before[i].state
                == PROC_UNUSED && #[trigger] before[j].state == PROC_UNUSED;
        if i != taken {
            assert(after[i].state == PROC_UNUSED);
        } else {
            assert(after[j].state == PROC_UNUSED);
        }
    }
    if first_unused(after) is Some {
        let j = choose|j: int| 0 <= j < after.len() && after[j].state == PROC_UNUSED;
        assert(j != taken);
        assert(before[j].state == PROC_UNUSED);
        assert(before[taken].state == PROC_UNUSED);
    }
}

/// The error that booting the kernel `k` with a user program of `image_len` bytes fails
/// with: that of creating the idle process (no free slot, an unaligned kernel base, or too
/// little free RAM), and otherwise that of creating the user program (no second free slot,
/// or too little free RAM left).
pub open spec fn boot_error(k: Kernel, image_len: int) -> KernelError {
    let kb = k.kernel_base_spec();
    let end = k.mem().end();
    let next = k.mem().next();
    if first_unused(k.procs()) is None {
        KernelError::NoFreeProcessSlots
    } else if next + 4096 <= end && kb % 4096 != 0 && kb < end {
        KernelError::UnalignedVaddr
    } else if !can_create_process(k, 0) {
        KernelError::OutOfMemory
    } else if !two_free_slots(k.procs()) {
        KernelError::NoFreeProcessSlots
    } else {
        KernelError::OutOfMemory
    }
}

impl Kernel {
    /// The process slots.
    pub closed spec fn procs(&self) -> Seq<Process> {
        self.procs@
    }

    /// Physical memory and its allocator.
    pub closed spec fn mem(&self) -> PageAllocator {
        self.allocator
    }

    /// First address of the kernel image, mapped in every address space.
    pub closed spec fn kernel_base_spec(&self) -> int {
        self.kernel_base as int
    }

    /// Address where a new process starts running in kernel mode.
    pub closed spec fn user_entry_spec(&self) -> u32 {
        self.user_entry
    }

    /// Slot of the running process.
    pub closed spec fn current_spec(&self) -> int {
        self.current as int
    }

    /// Slot of the idle process.
    pub closed spec fn idle_spec(&self) -> int {
        self.idle as int
    }

    /// The kernel's invariant: every slot holds a whole kernel stack and a pid in range, a
    /// schedulable process has pid `slot + 1`, and each process's page table is well formed.
    pub open spec fn wf(&self) -> bool {
        &&& self.procs().len() == PROCS_MAX
        &&& self.mem().wf()
        &&& 0 <= self.current_spec() < PROCS_MAX
        &&& 0 <= self.idle_spec() < PROCS_MAX
        &&& forall|i: int|
            0 <= i < PROCS_MAX ==> {
                &&& (#[trigger] self.procs()[i]).stack@.len() == KERNEL_STACK_SIZE
                &&& 0 <= self.procs()[i].pid <= PROCS_MAX
                &&& schedulable(self.procs()[i]) ==> self.procs()[i].pid == i + 1
                &&& self.procs()[i].state != PROC_UNUSED ==> self.mem().table_wf(
                    self.procs()[i].page_table as int,
                )
            }
    }

    /// A kernel with no processes, whose free RAM is `[free_ram, free_ram_end)`, whose image
    /// starts at `kernel_base`, and whose new processes start running at `user_entry`.
    pub fn new(kernel_base: u32, free_ram: u32, free_ram_end: u32, user_entry: u32) -> (r: Self)
        requires
            free_ram % 4096 == 0,
            free_ram <= free_ram_end,
        ensures
            r.wf(),
            r.kernel_base_spec() == kernel_base,
            r.user_entry_spec() == user_entry,
            r.current_spec() == 0,
            r.idle_spec() == 0,
            r.mem().base() == free_ram,
            r.mem().end() == free_ram_end,
            r.mem().ram() == Seq::<u8>::empty(),
            forall|i: int|
                0 <= i < PROCS_MAX ==> {
                    &&& (#[trigger] r.procs()[i]).pid == 0
                    &&& r.procs()[i].state == PROC_UNUSED
                    &&& r.procs()[i].sp == 0
                    &&& r.procs()[i].page_table == 0
                    &&& r.procs()[i].stack@ == Seq::new(KERNEL_STACK_SIZE as nat, |j: int| 0u8)
                },
    {
        let mut procs: Vec<Process> = Vec::new();
        let mut i: usize = 0;
        while i < PROCS_MAX
            invariant
                i <= PROCS_MAX,
                procs@.len() == i,
                forall|j: int|
                    0 <= j < i ==> {
                        &&& (#[trigger] procs@[j]).pid == 0
                        &&& procs@[j].state == PROC_UNUSED
                        &&& procs@[j].sp == 0
                        &&& procs@[j].page_table == 0
                        &&& procs@[j].stack@ == Seq::new(KERNEL_STACK_SIZE as nat, |k: int| 0u8)
                    },
            decreases PROCS_MAX - i,
        {
            procs.push(Process::new());
            i = i + 1;
        }
        Kernel {
            procs,
            allocator: PageAllocator::new(free_ram, free_ram_end),
            kernel_base,
            user_entry,
            current: 0,
            idle: 0,
        }
    }

    /// The process in slot `i`.
    pub fn proc(&self, i: usize) -> (r: &Process)
        requires
            self.wf(),
            i < PROCS_MAX,
        ensures
            *r == self.procs()[i as int],
    {
        &self.procs[i]
    }

    /// Physical memory and its allocator.
    pub fn memory(&self) -> (r: &PageAllocator)
        ensures
            *r == self.mem(),
    {
        &self.allocator
    }

    /// Slot of the running process.
    pub fn current(&self) -> (r: usize)
        ensures
            r == self.current_spec(),
    {
        self.current
    }

    /// Slot of the idle process.
    pub fn idle(&self) -> (r: usize)
        ensures
            r == self.idle_spec(),
    {
        self.idle
    }

    /// Creates a process in the first unused slot, running `image`: a fresh page table
    /// maps the kernel's pages `[kernel_base, free_ram_end)` to themselves, readable,
    /// writable and executable, and the image's pages, copied to fresh pages, at
    /// `USER_BASE` onwards for user mode too. The process is runnable with pid `slot + 1`,
    /// and its kernel stack is set up to start at the kernel's user entry point
    /// (`process_created`). A slot must be free, and the pages must fit and be mappable
    /// (`can_create_process`).
    ///
    /// Nothing below the allocator's next page at the call changes, so no other address
    /// space does.
    pub fn create_process(&mut self, image: &[u8]) -> (r: usize)
        requires
            old(self).wf(),
            USER_BASE + image@.len() <= u32::MAX,
            can_create_process(*old(self), image@.len() as int),
        ensures
            final(self).wf(),
            final(self).kernel_base_spec() == old(self).kernel_base_spec(),
            final(self).user_entry_spec() == old(self).user_entry_spec(),
            final(self).current_spec() == old(self).current_spec(),
            final(self).idle_spec() == old(self).idle_spec(),
            same_below(old(self).mem(), final(self).mem(), old(self).mem().next()),
            forall|i: int, w1: int, w0: int|
                0 <= i < PROCS_MAX && old(self).procs()[i].state != PROC_UNUSED && 0 <= w1 < 1024
                    && 0 <= w0 < 1024 ==> #[trigger] final(self).mem().lookup_vpn(
                    old(self).procs()[i].page_table as int,
                    w1,
                    w0,
                ) == old(self).mem().lookup_vpn(old(self).procs()[i].page_table as int, w1, w0),
            process_created(*old(self), *final(self), image@, r as int),
    {
        match self.try_create_process(image) {
            Ok(slot) => slot,
            Err(e) => {
                proof {
                    assert(false);
                }
                0
            },
        }
    }

    /// `create_process`, failing instead where the kernel would halt: with
    /// `NoFreeProcessSlots` (changing nothing) when every slot is in use, with
    /// `UnalignedVaddr` when the kernel's base is not page aligned, and with `OutOfMemory`
    /// when the free RAM runs out. On failure the slots are unchanged, and nothing below
    /// the allocator's next page at the call changes.
    pub fn try_create_process(&mut self, image: &[u8]) -> (r: Result<usize, KernelError>)
        requires
            old(self).wf(),
            USER_BASE + image@.len() <= u32::MAX,
        ensures
            final(self).wf(),
            final(self).kernel_base_spec() == old(self).kernel_base_spec(),
            final(self).user_entry_spec() == old(self).user_entry_spec(),
            final(self).current_spec() == old(self).current_spec(),
            final(self).idle_spec() == old(self).idle_spec(),
            same_below(old(self).mem(), final(self).mem(), old(self).mem().next()),
            forall|i: int, w1: int, w0: int|
                0 <= i < PROCS_MAX && old(self).procs()[i].state != PROC_UNUSED && 0 <= w1 < 1024
                    && 0 <= w0 < 1024 ==> #[trigger] final(self).mem().lookup_vpn(
                    old(self).procs()[i].page_table as int,
                    w1,
                    w0,
                ) == old(self).mem().lookup_vpn(old(self).procs()[i].page_table as int, w1, w0),
            match r {
                Ok(slot) => process_created(*old(self), *final(self), image@, slot as int),
                Err(e) => {
                    let kb = old(self).kernel_base_spec();
                    let end = old(self).mem().end();
                    let next = old(self).mem().next();
                    &&& final(self).procs() == old(self).procs()
                    &&& e == KernelError::NoFreeProcessSlots ==> *final(self) == *old(self)
                    &&& (e == KernelError::NoFreeProcessSlots <==> first_unused(old(self).procs())
                        is None)
                    &&& (e == KernelError::UnalignedVaddr <==> first_unused(old(self).procs()) is Some
                        && next + 4096 <= end && kb % 4096 != 0 && kb < end)
                    &&& (e == KernelError::OutOfMemory <==> first_unused(old(self).procs()) is Some
                        && (next + 4096 > end || ((kb >= end || kb % 4096 == 0) && next + 4096
                        * process_pages_needed(kb, end, image@.len() as int) > end)))
                    &&& e != KernelError::UnalignedPaddr
                },
            },
            r is Ok <==> can_create_process(*old(self), image@.len() as int),
    {
        let slot = match self.find_unused_slot() {
            Some(i) => i,
            None => {
                return Err(KernelError::NoFreeProcessSlots);
            },
        };
        let ghost k0 = *self;
        let ghost a0 = self.allocator;
        let ghost low = a0.next();
        let ghost needed = process_pages_needed(
            self.kernel_base as int,
            a0.end(),
            image@.len() as int,
        );
        proof {
            lemma_process_pages_needed(self.kernel_base as int, a0.end(), image@.len() as int);
        }
        let page_table = self.allocator.try_alloc_pages(1)?;
        let ghost a1 = self.allocator;
        proof {
            lemma_fresh_root(a0, a1);
            assert(same_below(a0, a1, low));
        }
        let kernel_end = self.allocator.free_ram_end();
        let kernel_base = self.kernel_base;
        let res = map_kernel_pages(&mut self.allocator, page_table, kernel_base, kernel_end, Ghost(low));
        let ghost a2 = self.allocator;
        proof {
            k0.lemma_tables_kept(a0, a2);
        }
        match res {
            Ok(()) => {},
            Err(e) => {
                return Err(e);
            },
        }
        proof {
            assert forall|w1: int|
                0 <= w1 < 1024 implies pte_valid(#[trigger] a2.entry(page_table as int, w1))
                == needed_roots(kernel_base as int, kernel_end as int, 0)(w1) by {}
        }
        let res = map_user_image(
            &mut self.allocator,
            page_table,
            image,
            Ghost(kernel_base as int),
            Ghost(kernel_end as int),
            Ghost(low),
        );
        let ghost a3 = self.allocator;
        proof {
            k0.lemma_tables_kept(a0, a3);
        }
        match res {
            Ok(()) => {},
            Err(e) => {
                return Err(e);
            },
        }
        let mut p = self.procs.remove(slot);
        let sp = KERNEL_STACK_SIZE - 13 * 4;
        let ghost old_stack = p.stack@;
        store_word(&mut p.stack, sp, self.user_entry);
        let mut k: usize = 1;
        while k <= 12
            invariant
                1 <= k <= 13,
                sp == KERNEL_STACK_SIZE - 13 * 4,
                p.stack@.len() == KERNEL_STACK_SIZE,
                word_at(p.stack@, sp as int) == self.user_entry,
                forall|j: int| 1 <= j < k ==> #[trigger] word_at(p.stack@, sp + 4 * j) == 0,
                forall|i: int| 0 <= i < sp ==> #[trigger] p.stack@[i] == old_stack[i],
            decreases 13 - k,
        {
            let ghost before = p.stack@;
            store_word(&mut p.stack, sp + 4 * k, 0);
            proof {
                assert forall|j: int| 1 <= j < k + 1 implies #[trigger] word_at(p.stack@, sp + 4 * j)
                    == 0 by {
                    if j < k {
                        assert(word_at(before, sp + 4 * j) == 0);
                        lemma_same_word(p.stack@, before, sp + 4 * j);
                    }
                }
                lemma_same_word(p.stack@, before, sp as int);
            }
            k = k + 1;
        }
        p.pid = slot as i32 + 1;
        p.state = PROC_RUNNABLE;
        p.sp = sp;
        p.page_table = page_table;
        self.procs.insert(slot, p);
        proof {
            assert(self.procs@ =~= old(self).procs@.update(slot as int, p));
        }
        Ok(slot)
    }

    /// Every other process's table lies below `a0.next()`, so memory that kept those bytes
    /// keeps those tables.
    proof fn lemma_tables_kept(&self, a0: PageAllocator, a: PageAllocator)
        requires
            self.wf(),
            self.mem() == a0,
            same_below(a0, a, a0.next()),
        ensures
            forall|i: int|
                0 <= i < PROCS_MAX && (#[trigger] self.procs()[i]).state != PROC_UNUSED
                    ==> a.table_wf(self.procs()[i].page_table as int),
            forall|i: int, w1: int, w0: int|
                0 <= i < PROCS_MAX && self.procs()[i].state != PROC_UNUSED && 0 <= w1 < 1024 && 0
                    <= w0 < 1024 ==> #[trigger] a.lookup_vpn(self.procs()[i].page_table as int, w1, w0)
                    == self.mem().lookup_vpn(self.procs()[i].page_table as int, w1, w0),
    {
        assert(extends(a0, a));
        assert forall|i: int|
            0 <= i < PROCS_MAX && (#[trigger] self.procs()[i]).state != PROC_UNUSED implies a.table_wf(
            self.procs()[i].page_table as int,
        ) by {
            lemma_table_frame(a0, a, self.procs()[i].page_table as int);
        }
        assert forall|i: int, w1: int, w0: int|
            0 <= i < PROCS_MAX && self.procs()[i].state != PROC_UNUSED && 0 <= w1 < 1024 && 0 <= w0
                < 1024 implies #[trigger] a.lookup_vpn(self.procs()[i].page_table as int, w1, w0)
            == self.mem().lookup_vpn(self.procs()[i].page_table as int, w1, w0) by {
            lemma_table_frame(a0, a, self.procs()[i].page_table as int);
        }
    }

    /// Hands out `n` consecutive zero-filled pages of the free RAM region, which must fit,
    /// as `PageAllocator::alloc_pages` does, for the kernel's own use.
    pub fn alloc_pages(&mut self, n: usize) -> (r: PAddr)
        requires
            old(self).wf(),
            old(self).mem().next() + n * 4096 <= old(self).mem().end(),
        ensures
            final(self).wf(),
            final(self).procs() == old(self).procs(),
            final(self).kernel_base_spec() == old(self).kernel_base_spec(),
            final(self).user_entry_spec() == old(self).user_entry_spec(),
            final(self).current_spec() == old(self).current_spec(),
            final(self).idle_spec() == old(self).idle_spec(),
            final(self).mem().base() == old(self).mem().base(),
            final(self).mem().end() == old(self).mem().end(),
            forall|i: int, w1: int, w0: int|
                0 <= i < PROCS_MAX && old(self).procs()[i].state != PROC_UNUSED && 0 <= w1 < 1024
                    && 0 <= w0 < 1024 ==> #[trigger] final(self).mem().lookup_vpn(
                    old(self).procs()[i].page_table as int,
                    w1,
                    w0,
                ) == old(self).mem().lookup_vpn(old(self).procs()[i].page_table as int, w1, w0),
            r == old(self).mem().next(),
            final(self).mem().ram() == old(self).mem().ram() + zeros((n * 4096) as nat),
    {
        let ghost k0 = *self;
        let r = self.allocator.alloc_pages(n);
        proof {
            assert(same_below(k0.mem(), self.allocator, k0.mem().next()));
            k0.lemma_tables_kept(k0.mem(), self.allocator);
        }
        r
    }

    /// Gives up the CPU: picks the next process round-robin (`next_to_run`) and makes it
    /// the current one. Returns the switch to carry out, or `None` when the current
    /// process keeps running.
    pub fn yield_cpu(&mut self) -> (r: Option<ContextSwitch>)
        requires
            old(self).wf(),
        ensures
            final(self).wf(),
            final(self).procs() == old(self).procs(),
            final(self).mem() == old(self).mem(),
            final(self).kernel_base_spec() == old(self).kernel_base_spec(),
            final(self).user_entry_spec() == old(self).user_entry_spec(),
            final(self).idle_spec() == old(self).idle_spec(),
            final(self).current_spec() == next_to_run(
                old(self).procs(),
                old(self).current_spec(),
                old(self).idle_spec(),
            ),
            r is None <==> final(self).current_spec() == old(self).current_spec(),
            r is Some ==> {
                let sw = r->0;
                &&& sw.prev == old(self).current_spec()
                &&& sw.next == final(self).current_spec()
                &&& sw.satp == SATP_SV32 | (old(self).procs()[sw.next as int].page_table / 4096)
            },
    {
        let start = self.procs[self.current].pid as usize;
        let mut next = self.idle;
        let mut i: usize = 0;
        while i < PROCS_MAX
            invariant_except_break
                next == self.idle_spec(),
            invariant
                self.wf(),
                start == self.procs()[self.current_spec()].pid,
                i <= PROCS_MAX,
                pick_from(self.procs(), start as int, 0) == pick_from(self.procs(), start as int, i as int),
            ensures
                next == next_to_run(self.procs(), self.current_spec(), self.idle_spec()),
            decreases PROCS_MAX - i,
        {
            let index = (start + i) % PROCS_MAX;
            let p = &self.procs[index];
            if p.state == PROC_RUNNABLE && p.pid > 0 {
                next = index;
                break;
            }
            i = i + 1;
        }
        proof {
            lemma_pick_from(self.procs(), start as int, 0);
        }
        if next == self.current {
            return None;
        }
        let prev = self.current;
        self.current = next;
        let satp = SATP_SV32 | (self.procs[next].page_table / PAGE_SIZE as u32);
        Some(ContextSwitch { prev, next, satp })
    }

    /// `kernel_main`, failing instead where the kernel would halt, with the error of the
    /// first step that fails (`boot_error`): no slot for the idle process or then none for
    /// the user program (`NoFreeProcessSlots`), a kernel base that is not page aligned
    /// (`UnalignedVaddr`), or free RAM that runs out (`OutOfMemory`). Nothing below the
    /// allocator's next page at the call changes either way.
    pub fn try_kernel_main(&mut self, user_image: &[u8]) -> (r: Result<Option<ContextSwitch>, KernelError>)
        requires
            old(self).wf(),
            USER_BASE + user_image@.len() <= u32::MAX,
        ensures
            final(self).wf(),
            same_below(old(self).mem(), final(self).mem(), old(self).mem().next()),
            match r {
                Ok(sw) => booted(*old(self), *final(self), user_image@, sw),
                Err(e) => e == boot_error(*old(self), user_image@.len() as int),
            },
            r is Ok <==> can_boot(*old(self), user_image@.len() as int),
    {
        let empty: Vec<u8> = Vec::new();
        proof {
            lemma_process_pages_needed(self.kernel_base as int, self.allocator.end(), 0);
            lemma_process_pages_needed(self.kernel_base as int, self.allocator.end(), user_image@.len() as int);
        }
        let ghost k0 = *self;
        let r0 = self.try_create_process(empty.as_slice());
        let idle = match r0 {
            Ok(i) => i,
            Err(e) => {
                proof {
                    lemma_two_free_slots_first(k0.procs());
                }
                proof {
                    if e == KernelError::OutOfMemory {
                        assert(!can_create_process(k0, 0));
                    }
                }
                return Err(e);
            },
        };
        let ghost k1 = *self;
        let mut p = self.procs.remove(idle);
        p.pid = 0;
        self.procs.insert(idle, p);
        proof {
            assert(self.procs@ =~= k1.procs@.update(idle as int, p));
        }
        self.idle = idle;
        self.current = idle;
        let ghost k2 = *self;
        proof {
            assert forall|w1: int, w0: int| 0 <= w1 < 1024 && 0 <= w0 < 1024 implies #[trigger] k2.mem().lookup_vpn(
                k2.procs()[idle as int].page_table as int,
                w1,
                w0,
            ) == kernel_pte(k0.kernel_base_spec(), k0.mem().end(), w1, w0) by {
                lemma_page_va_aligned(w1, w0);
                assert(maps_page_as_process(
                    k1.mem(),
                    k1.procs()[idle as int].page_table as int,
                    k0.kernel_base_spec(),
                    k0.mem().end(),
                    empty@,
                    0,
                    k0.mem().next(),
                    w1,
                    w0,
                ));
            }
            assert forall|j: int| 0 <= j < PROCS_MAX && j != idle implies #[trigger] k2.procs()[j].state
                == k0.procs()[j].state by {
                assert(k2.procs()[j] == k1.procs()[j]);
                assert(k1.procs()[j] == k0.procs()[j]);
            }
            assert(k2.procs()[idle as int].state == PROC_RUNNABLE);
            lemma_two_free_slots_after(k0.procs(), k2.procs(), idle as int);
        }
        let user = match self.try_create_process(user_image) {
            Ok(u) => u,
            Err(e) => {
                proof {
                    assert(can_create_process(k0, 0));
                    assert(e != KernelError::UnalignedVaddr);
                    if e == KernelError::NoFreeProcessSlots {
                        assert(first_unused(k2.procs()) is None);
                    } else {
                        assert(first_unused(k2.procs()) is Some);
                    }
                }
                return Err(e);
            },
        };
        let ghost k3 = *self;
        proof {
            assert(first_unused(k2.procs()) == Some(user as int));
            assert(k2.procs()[user as int].state == PROC_UNUSED);
            assert(user != idle);
            assert(old(self).procs()[user as int] == k2.procs()[user as int]);
            assert(k3.procs()[user as int].pid == user + 1);
            assert(forall|w1: int, w0: int|
                0 <= w1 < 1024 && 0 <= w0 < 1024 ==> #[trigger] maps_page_as_process(
                    k3.mem(),
                    k3.procs()[user as int].page_table as int,
                    old(self).kernel_base_spec(),
                    old(self).mem().end(),
                    user_image@,
                    user_image@.len() as int,
                    k2.mem().next(),
                    w1,
                    w0,
                ));
            assert(k2.mem().next() >= old(self).mem().next());
            lemma_maps_lower_bound(k3.mem(), k3.procs()[user as int].page_table as int, old(self).kernel_base_spec(), old(self).mem().end(), user_image@, k2.mem().next(), old(self).mem().next());
            assert forall|j: int| 0 <= j < user && j != idle implies #[trigger] old(self).procs()[j].state
                != PROC_UNUSED by {
                assert(k2.procs()[j].state != PROC_UNUSED);
                assert(k2.procs()[j] == k1.procs()[j]);
            }
            assert forall|j: int| 0 <= j < PROCS_MAX && j != idle && j != user implies #[trigger] k3.procs()[j]
                == old(self).procs()[j] by {
                assert(k3.procs()[j] == k2.procs()[j]);
                assert(k2.procs()[j] == k1.procs()[j]);
            }
        }
        let sw = self.yield_cpu();
        proof {
            let k4 = *self;
            assert(k4.procs()[user as int].pid == user + 1);
            assert(booted(*old(self), k4, user_image@, sw)) by {
                assert(user as int != idle as int && k4.procs()[user as int].pid == user + 1);
            }
        }
        Ok(sw)
    }

    /// Brings up the process table: creates the idle process (pid 0) in the first unused
    /// slot with an empty image and makes it current, creates the process running
    /// `user_image` in the next unused slot, and yields to it (`booted`). Returns the
    /// switch to carry out. Two slots must be free, and both address spaces must fit and be
    /// mappable (`can_boot`).
    pub fn kernel_main(&mut self, user_image: &[u8]) -> (r: Option<ContextSwitch>)
        requires
            old(self).wf(),
            USER_BASE + user_image@.len() <= u32::MAX,
            can_boot(*old(self), user_image@.len() as int),
        ensures
            final(self).wf(),
            same_below(old(self).mem(), final(self).mem(), old(self).mem().next()),
            booted(*old(self), *final(self), user_image@, r),
    {
        match self.try_kernel_main(user_image) {
            Ok(sw) => sw,
            Err(e) => {
                proof {
                    assert(false);
                }
                None
            },
        }
    }

    fn find_unused_slot(&self) -> (r: Option<usize>)
        requires
            self.wf(),
        ensures
            r is Some <==> first_unused(self.procs()) is Some,
            r is Some ==> r->0 == first_unused(self.procs())->0,
    {
        let mut i: usize = 0;
        while i < PROCS_MAX
            invariant
                self.wf(),
                i <= PROCS_MAX,
                forall|j: int| 0 <= j < i ==> self.procs()[j].state != PROC_UNUSED,
            decreases PROCS_MAX - i,
        {
            if self.procs[i].state == PROC_UNUSED {
                proof {
                    let k = choose|k: int|
                        0 <= k < self.procs().len() && self.procs()[k].state == PROC_UNUSED
                            && forall|j: int| 0 <= j < k ==> self.procs()[j].state != PROC_UNUSED;
                    assert(0 <= i < self.procs().len() && self.procs()[i as int].state
                        == PROC_UNUSED && forall|j: int| 0 <= j < i ==> self.procs()[j].state
                        != PROC_UNUSED);
                    if k < i {
                    } else if k > i {
                        assert(self.procs()[i as int].state != PROC_UNUSED);
                    }
                }
                return Some(i);
            }
            i = i + 1;
        }
        None
    }
}

/// Booting a kernel whose slots are all unused puts the idle process (pid 0) in slot 0 and
/// the user program in slot 1 with pid 2, leaves the other slots unused, and the first yield
/// switches from slot 0 to slot 1.
pub proof fn lemma_boot_from_empty(k0: Kernel, k1: Kernel, image: Seq<u8>, sw: Option<ContextSwitch>)
    requires
        k0.wf(),
        k1.wf(),
        forall|i: int| 0 <= i < PROCS_MAX ==> #[trigger] k0.procs()[i].state == PROC_UNUSED,
        booted(k0, k1, image, sw),
    ensures
        k1.idle_spec() == 0,
        k1.procs()[0].pid == 0,
        k1.procs()[1].pid == 2,
        k1.procs()[1].state == PROC_RUNNABLE,
        forall|j: int| 2 <= j < PROCS_MAX ==> #[trigger] k1.procs()[j].state == PROC_UNUSED,
        k1.current_spec() == 1,
        sw is Some,
        sw->0.prev == 0,
        sw->0.next == 1,
{
    assert(k0.procs()[0].state == PROC_UNUSED);
    let idle = k1.idle_spec();
    assert(idle == 0);
    let u = choose|u: int|
        {
            &&& 0 <= u < PROCS_MAX
            &&& u != idle
            &&& #[trigger] k1.procs()[u].pid == u + 1
            &&& k1.procs()[u].state == PROC_RUNNABLE
            &&& k1.procs()[u].sp == KERNEL_STACK_SIZE - 13 * 4
            &&& initial_stack(k1.procs()[u].stack@, k1.procs()[u].sp as int, k0.user_entry_spec())
            &&& image_frames_distinct(k1.mem(), k1.procs()[u].page_table as int, image.len() as int)
            &&& table_clean(k1.mem(), k1.procs()[u].page_table as int)
            &&& k0.procs()[u].state == PROC_UNUSED
            &&& forall|j: int| 0 <= j < u && j != idle ==> #[trigger] k0.procs()[j].state != PROC_UNUSED
            &&& forall|j: int|
                0 <= j < PROCS_MAX && j != idle && j != u ==> #[trigger] k1.procs()[j] == k0.procs()[j]
            &&& forall|w1: int, w0: int|
                0 <= w1 < 1024 && 0 <= w0 < 1024 ==> #[trigger] maps_page_as_process(
                    k1.mem(),
                    k1.procs()[u].page_table as int,
                    k0.kernel_base_spec(),
                    k0.mem().end(),
                    image,
                    image.len() as int,
                    k0.mem().next(),
                    w1,
                    w0,
                )
        };
    if u > 1 {
        assert(k0.procs()[1].state == PROC_UNUSED);
    }
    assert(u == 1);
    assert forall|j: int| 2 <= j < PROCS_MAX implies #[trigger] k1.procs()[j].state == PROC_UNUSED by {
        assert(k1.procs()[j] == k0.procs()[j]);
    }
    assert(!schedulable(k1.procs()[rr_slot(0, 0)]));
    assert(schedulable(k1.procs()[rr_slot(0, 1)]));
    reveal_with_fuel(pick_from, 3);
    assert(pick_from(k1.procs(), 0, 0) == Some(1int));
}

/// The slot that runs after `n` consecutive yields from slot `current`, while the process
/// table stays `procs`.
pub open spec fn after_yields(procs: Seq<Process>, current: int, idle: int, n: nat) -> int
    decreases n,
{
    if n == 0 {
        current
    } else {
        after_yields(procs, next_to_run(procs, current, idle), idle, (n - 1) as nat)
    }
}

/// Yielding reaches every process: while the process table stays the same and each
/// schedulable process has pid `slot + 1`, a schedulable process in slot `j` runs within
/// `PROCS_MAX` consecutive yields from any current slot.
pub proof fn lemma_yield_reaches_every_process(procs: Seq<Process>, current: int, idle: int, j: int)
    requires
        procs.len() == PROCS_MAX,
        0 <= current < PROCS_MAX,
        0 <= procs[current].pid <= PROCS_MAX,
        0 <= j < PROCS_MAX,
        schedulable(procs[j]),
        forall|i: int| 0 <= i < PROCS_MAX && schedulable(#[trigger] procs[i]) ==> procs[i].pid == i + 1,
    ensures
        exists|n: nat| 1 <= n <= PROCS_MAX && #[trigger] after_yields(procs, current, idle, n) == j,
{
    lemma_yield_reaches_within(procs, current, idle, j);
}

/// Round-robin distances: slot `j` lies `(j - start) % PROCS_MAX` steps from `start`, and
/// from the slot after the one `d` steps before it, one step fewer than `d` less.
proof fn lemma_rr_distance(start: int, j: int, d: int)
    requires
        0 <= start <= PROCS_MAX,
        0 <= j < PROCS_MAX,
        0 <= d,
    ensures
        rr_slot(start, (j - start) % (PROCS_MAX as int)) == j,
        d < (j - start) % (PROCS_MAX as int) ==> (j - (rr_slot(start, d) + 1)) % (PROCS_MAX as int)
            == (j - start) % (PROCS_MAX as int) - d - 1,
{
    let q = (j - start) % 8;
    assert(q == if j >= start { j - start } else { j - start + 8 }) by (nonlinear_arith)
        requires
            0 <= start <= 8,
            0 <= j < 8,
            q == (j - start) % 8,
    ;
    assert((start + q) % 8 == j) by (nonlinear_arith)
        requires
            0 <= j < 8,
            start + q == j || start + q == j + 8,
    ;
    if d < q {
        let n1 = (start + d) % 8;
        assert(n1 == if start + d < 8 { start + d } else { start + d - 8 }) by (nonlinear_arith)
            requires
                0 <= start + d < 16,
                n1 == (start + d) % 8,
        ;
        let x = j - (n1 + 1);
        assert(x % 8 == q - d - 1) by (nonlinear_arith)
            requires
                x == q - d - 1 || x == q - d - 1 - 8,
                0 <= q - d - 1 < 8,
        ;
    }
}

/// Yielding from `current` reaches the schedulable slot `j` within its round-robin distance
/// from the slot after `current`, plus one.
proof fn lemma_yield_reaches_within(procs: Seq<Process>, current: int, idle: int, j: int)
    requires
        procs.len() == PROCS_MAX,
        0 <= current < PROCS_MAX,
        0 <= procs[current].pid <= PROCS_MAX,
        0 <= j < PROCS_MAX,
        schedulable(procs[j]),
        forall|i: int| 0 <= i < PROCS_MAX && schedulable(#[trigger] procs[i]) ==> procs[i].pid == i + 1,
    ensures
        exists|n: nat|
            1 <= n <= (j - procs[current].pid) % (PROCS_MAX as int) + 1 && #[trigger] after_yields(
                procs,
                current,
                idle,
                n,
            ) == j,
    decreases (j - procs[current].pid) % (PROCS_MAX as int),
{
    let start = procs[current].pid as int;
    let dj = (j - start) % (PROCS_MAX as int);
    lemma_yield_round_robin(procs, current, idle);
    lemma_rr_distance(start, j, 0);
    let n1 = next_to_run(procs, current, idle);
    let d = choose|d: int|
        0 <= d < PROCS_MAX && n1 == #[trigger] rr_slot(start, d) && forall|e: int|
            0 <= e < d ==> !schedulable(#[trigger] procs[rr_slot(start, e)]);
    if d > dj {
        assert(!schedulable(procs[rr_slot(start, dj)]));
    }
    assert(after_yields(procs, current, idle, 1) == after_yields(procs, n1, idle, 0));
    if d == dj {
        assert(after_yields(procs, current, idle, 1) == j);
    } else {
        assert(procs[n1].pid == n1 + 1);
        let dn = (j - (n1 + 1)) % (PROCS_MAX as int);
        lemma_rr_distance(start, j, d);
        lemma_yield_reaches_within(procs, n1, idle, j);
        let m = choose|m: nat|
            1 <= m <= dn + 1 && #[trigger] after_yields(procs, n1, idle, m) == j;
        assert(after_yields(procs, current, idle, m + 1) == after_yields(procs, n1, idle, m));
        assert(after_yields(procs, current, idle, (m + 1) as nat) == j);
    }
}

/// Yielding reaches every process of a kernel: while its process table stays as it is,
/// each schedulable process runs within `PROCS_MAX` consecutive yields (each of which makes
/// `next_to_run` current, as `yield_cpu` states), whichever process runs now.
pub proof fn lemma_kernel_yield_reaches(k: Kernel, j: int)
    requires
        k.wf(),
        0 <= j < PROCS_MAX,
        schedulable(k.procs()[j]),
    ensures
        exists|n: nat|
            1 <= n <= PROCS_MAX && #[trigger] after_yields(k.procs(), k.current_spec(), k.idle_spec(), n)
                == j,
{
    assert forall|i: int| 0 <= i < PROCS_MAX && schedulable(#[trigger] k.procs()[i]) implies k.procs()[i].pid
        == i + 1 by {
    }
    assert(0 <= k.procs()[k.current_spec()].pid <= PROCS_MAX);
    lemma_yield_reaches_every_process(k.procs(), k.current_spec(), k.idle_spec(), j);
}

} // verus!
