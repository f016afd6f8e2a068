use vstd::prelude::*;

use crate::common::{is_aligned, is_aligned_spec};

verus! {

/// Size of a physical page, in bytes.
pub const PAGE_SIZE: usize = 4096;

/// Mode bit of the `satp` register that turns on Sv32 paging.
pub const SATP_SV32: u32 = 0x8000_0000;

/// Page table entry flag: the entry is valid.
pub const PAGE_V: u32 = 1;

/// Page table entry flag: readable.
pub const PAGE_R: u32 = 2;

/// Page table entry flag: writable.
pub const PAGE_W: u32 = 4;

/// Page table entry flag: executable.
pub const PAGE_X: u32 = 8;

/// Page table entry flag: accessible from user mode.
pub const PAGE_U: u32 = 16;

/// A physical address.
pub type PAddr = u32;

/// Why a kernel operation could not complete; the kernel halts with the matching message.
#[derive(Debug, Clone, Copy, PartialEq, Eq, Structural)]
pub enum KernelError {
    /// "out of memory": the free RAM region cannot hold the requested pages.
    OutOfMemory,
    /// "unaligned vaddr": a virtual address to map is not page aligned.
    UnalignedVaddr,
    /// "unaligned paddr": a physical address to map is not page aligned.
    UnalignedPaddr,
    /// "no free process slots": every process slot is in use.
    NoFreeProcessSlots,
}

/// The free RAM region and its bump allocator.
///
/// Pages are handed out in address order from `free_ram` up to `free_ram_end` and never
/// given back. `ram` holds the contents of every page handed out so far, so the next page
/// to hand out starts at `free_ram + ram.len()`.
pub struct PageAllocator {
    free_ram: u32,
    free_ram_end: u32,
    ram: Vec<u8>,
}

/// Little-endian 32-bit word stored in `s` at offset `i`.
pub open spec fn word_at(s: Seq<u8>, i: int) -> u32 {
    (s[i] as u32) | ((s[i + 1] as u32) << 8u32) | ((s[i + 2] as u32) << 16u32) | ((s[i + 3]
        as u32) << 24u32)
}

/// Writes `value` as the little-endian word at offset `o` of `buf`.
pub fn store_word(buf: &mut Vec<u8>, o: usize, value: u32)
    requires
        o + 4 <= old(buf)@.len(),
    ensures
        final(buf)@.len() == old(buf)@.len(),
        word_at(final(buf)@, o as int) == value,
        forall|i: int|
            0 <= i < old(buf)@.len() && !(o <= i < o + 4) ==> #[trigger] final(buf)@[i] == old(
                buf,
            )@[i],
{
    let b0 = (value & 0xff) as u8;
    let b1 = ((value >> 8u32) & 0xff) as u8;
    let b2 = ((value >> 16u32) & 0xff) as u8;
    let b3 = ((value >> 24u32) & 0xff) as u8;
    let len = buf.len();
    assert(o + 4 <= len);
    buf.set(o, b0);
    buf.set(o + 1, b1);
    buf.set(o + 2, b2);
    buf.set(o + 3, b3);
    assert((b0 as u32) | ((b1 as u32) << 8u32) | ((b2 as u32) << 16u32) | ((b3 as u32) << 24u32)
        == value) by (bit_vector)
        requires
            b0 == (value & 0xff) as u8,
            b1 == ((value >> 8u32) & 0xff) as u8,
            b2 == ((value >> 16u32) & 0xff) as u8,
            b3 == ((value >> 24u32) & 0xff) as u8,
    ;
}

/// Two byte sequences that agree on the four bytes at `o` hold the same word there.
pub proof fn lemma_same_word(s: Seq<u8>, t: Seq<u8>, o: int)
    requires
        s[o] == t[o],
        s[o + 1] == t[o + 1],
        s[o + 2] == t[o + 2],
        s[o + 3] == t[o + 3],
    ensures
        word_at(s, o) == word_at(t, o),
{
}

/// Four zero bytes at `o` hold the word zero.
pub proof fn lemma_zero_word(s: Seq<u8>, o: int)
    requires
        s[o] == 0,
        s[o + 1] == 0,
        s[o + 2] == 0,
        s[o + 3] == 0,
    ensures
        word_at(s, o) == 0,
{
    assert((0u8 as u32) | ((0u8 as u32) << 8u32) | ((0u8 as u32) << 16u32) | ((0u8 as u32)
        << 24u32) == 0) by (bit_vector);
}

/// `n` zero bytes.
pub open spec fn zeros(n: nat) -> Seq<u8> {
    Seq::new(n, |i: int| 0u8)
}

impl PageAllocator {
    /// First address of the free RAM region.
    pub closed spec fn base(&self) -> int {
        self.free_ram as int
    }

    /// End of the free RAM region.
    pub closed spec fn end(&self) -> int {
        self.free_ram_end as int
    }

    /// Contents of the pages handed out so far, from the start of the region.
    pub closed spec fn ram(&self) -> Seq<u8> {
        self.ram@
    }

    /// Address of the next page to hand out.
    pub open spec fn next(&self) -> int {
        self.base() + self.ram().len()
    }

    /// The allocator's invariant: a page-aligned region that holds what was handed out.
    pub open spec fn wf(&self) -> bool {
        &&& self.base() % 4096 == 0
        &&& self.ram().len() % 4096 == 0
        &&& self.base() <= self.next() <= self.end() <= u32::MAX
    }

    /// The word stored at physical address `paddr`.
    pub open spec fn word(&self, paddr: int) -> u32 {
        word_at(self.ram(), paddr - self.base())
    }

    /// The byte stored at physical address `paddr`.
    pub open spec fn byte(&self, paddr: int) -> u8 {
        self.ram()[paddr - self.base()]
    }

    /// A whole page at `p` has been handed out.
    pub open spec fn page_in_ram(&self, p: int) -> bool {
        &&& p % 4096 == 0
        &&& self.base() <= p
        &&& p + 4096 <= self.next()
    }

    /// An allocator for the region from `free_ram` to `free_ram_end` that has handed out nothing.
    pub fn new(free_ram: u32, free_ram_end: u32) -> (r: Self)
        requires
            free_ram % 4096 == 0,
            free_ram <= free_ram_end,
        ensures
            r.wf(),
            r.base() == free_ram,
            r.end() == free_ram_end,
            r.ram() == Seq::<u8>::empty(),
    {
        PageAllocator { free_ram, free_ram_end, ram: Vec::new() }
    }

    /// Address of the next page to hand out.
    pub fn next_paddr(&self) -> (r: u32)
        requires
            self.wf(),
        ensures
            r == self.next(),
    {
        self.free_ram + self.ram.len() as u32
    }

    /// Start of the free RAM region.
    pub fn free_ram(&self) -> (r: u32)
        ensures
            r == self.base(),
    {
        self.free_ram
    }

    /// End of the free RAM region.
    pub fn free_ram_end(&self) -> (r: u32)
        ensures
            r == self.end(),
    {
        self.free_ram_end
    }

    /// Hands out `n` consecutive zero-filled pages, which must fit in the region, and
    /// returns the address of the first.
    pub fn alloc_pages(&mut self, n: usize) -> (r: PAddr)
        requires
            old(self).wf(),
            old(self).next() + n * 4096 <= old(self).end(),
        ensures
            final(self).wf(),
            final(self).base() == old(self).base(),
            final(self).end() == old(self).end(),
            r == old(self).next(),
            final(self).ram() == old(self).ram() + zeros((n * 4096) as nat),
    {
        match self.try_alloc_pages(n) {
            Ok(p) => p,
            Err(e) => {
                proof {
                    assert(false);
                }
                0
            },
        }
    }

    /// `alloc_pages`, failing with `OutOfMemory` and handing out nothing where the pages do
    /// not fit in the region.
    pub(crate) fn try_alloc_pages(&mut self, n: usize) -> (r: Result<PAddr, KernelError>)
        requires
            old(self).wf(),
        ensures
            final(self).wf(),
            final(self).base() == old(self).base(),
            final(self).end() == old(self).end(),
            match r {
                Ok(p) => {
                    &&& old(self).next() + n * 4096 <= old(self).end()
                    &&& p == old(self).next()
                    &&& final(self).ram() == old(self).ram() + zeros((n * 4096) as nat)
                },
                Err(e) => {
                    &&& e == KernelError::OutOfMemory
                    &&& old(self).next() + n * 4096 > old(self).end()
                    &&& *final(self) == *old(self)
                },
            },
    {
        let next = self.free_ram + self.ram.len() as u32;
        let avail = ((self.free_ram_end - next) / 4096) as usize;
        if n > avail {
            return Err(KernelError::OutOfMemory);
        }
        let size = n * PAGE_SIZE;
        let mut i: usize = 0;
        let ghost start = self.ram@;
        while i < size
            invariant
                i <= size,
                size == n * 4096,
                self.free_ram == old(self).free_ram,
                self.free_ram_end == old(self).free_ram_end,
                start == old(self).ram@,
                self.ram@ == start + zeros(i as nat),
                old(self).wf(),
                old(self).next() + size <= old(self).end(),
            decreases size - i,
        {
            self.ram.push(0u8);
            i = i + 1;
            assert(self.ram@ =~= start + zeros(i as nat));
        }
        Ok(next)
    }

    /// Copies `len` bytes of `src`, from index `from` on, to physical address `paddr`.
    pub fn write_bytes(&mut self, paddr: u32, src: &[u8], from: usize, len: usize)
        requires
            old(self).wf(),
            old(self).base() <= paddr,
            paddr + len <= old(self).next(),
            from + len <= src@.len(),
        ensures
            final(self).wf(),
            final(self).base() == old(self).base(),
            final(self).end() == old(self).end(),
            final(self).ram().len() == old(self).ram().len(),
            forall|k: int| 0 <= k < len ==> #[trigger] final(self).byte(paddr + k) == src@[from + k],
            forall|i: int|
                0 <= i < old(self).ram().len() && !(paddr - old(self).base() <= i < paddr
                    - old(self).base() + len) ==> #[trigger] final(self).ram()[i] == old(
                    self,
                ).ram()[i],
    {
        let o = (paddr - self.free_ram) as usize;
        let src_len = src.len();
        let mut k: usize = 0;
        while k < len
            invariant
                k <= len,
                o == paddr - old(self).base(),
                o + len <= old(self).ram().len(),
                o + len <= self.ram@.len(),
                self.ram@.len() <= usize::MAX,
                src@.len() == src_len,
                from + len <= src@.len(),
                self.free_ram == old(self).free_ram,
                self.free_ram_end == old(self).free_ram_end,
                self.ram@.len() == old(self).ram@.len(),
                forall|j: int| 0 <= j < k ==> #[trigger] self.ram@[o + j] == src@[from + j],
                forall|i: int|
                    0 <= i < old(self).ram().len() && !(o <= i < o + k) ==> #[trigger] self.ram@[i]
                        == old(self).ram@[i],
            decreases len - k,
        {
            self.ram.set(o + k, src[from + k]);
            k = k + 1;
        }
        assert forall|j: int| 0 <= j < len implies #[trigger] self.byte(paddr + j) == src@[from + j] by {
            assert(self.ram@[o + j] == src@[from + j]);
        }
    }

    /// Reads the word at physical address `paddr`.
    pub fn read_word(&self, paddr: u32) -> (r: u32)
        requires
            self.wf(),
            self.base() <= paddr,
            paddr + 4 <= self.next(),
        ensures
            r == self.word(paddr as int),
    {
        let o = (paddr - self.free_ram) as usize;
        let b0 = self.ram[o] as u32;
        let b1 = self.ram[o + 1] as u32;
        let b2 = self.ram[o + 2] as u32;
        let b3 = self.ram[o + 3] as u32;
        b0 | (b1 << 8u32) | (b2 << 16u32) | (b3 << 24u32)
    }

    /// Writes `value` as the word at physical address `paddr`.
    pub fn write_word(&mut self, paddr: u32, value: u32)
        requires
            old(self).wf(),
            old(self).base() <= paddr,
            paddr + 4 <= old(self).next(),
        ensures
            final(self).wf(),
            final(self).base() == old(self).base(),
            final(self).end() == old(self).end(),
            final(self).ram().len() == old(self).ram().len(),
            final(self).word(paddr as int) == value,
            forall|i: int|
                0 <= i < old(self).ram().len() && !(paddr - old(self).base() <= i < paddr
                    - old(self).base() + 4) ==> #[trigger] final(self).ram()[i] == old(
                    self,
                ).ram()[i],
    {
        let o = (paddr - self.free_ram) as usize;
        store_word(&mut self.ram, o, value);
    }
}


/// Number of indices in `[0, n)` at which `p` holds.
pub open spec fn count_where(p: spec_fn(int) -> bool, n: int) -> int
    decreases n,
{
    if n <= 0 {
        0
    } else {
        count_where(p, n - 1) + if p(n - 1) {
            1int
        } else {
            0int
        }
    }
}

/// Counting only looks at the indices below `n`.
pub proof fn lemma_count_where_ext(p: spec_fn(int) -> bool, q: spec_fn(int) -> bool, n: int)
    requires
        forall|i: int| 0 <= i < n ==> #[trigger] p(i) == q(i),
    ensures
        count_where(p, n) == count_where(q, n),
    decreases n,
{
    if n > 0 {
        lemma_count_where_ext(p, q, n - 1);
    }
}

/// A count grows with its predicate, and strictly when the larger one holds somewhere the
/// smaller does not.
pub proof fn lemma_count_where_mono(p: spec_fn(int) -> bool, q: spec_fn(int) -> bool, n: int)
    requires
        forall|i: int| 0 <= i < n && #[trigger] p(i) ==> q(i),
    ensures
        0 <= count_where(p, n) <= count_where(q, n),
        (exists|x: int| 0 <= x < n && #[trigger] q(x) && !p(x)) ==> count_where(p, n) + 1 <= count_where(q, n),
    decreases n,
{
    if n > 0 {
        lemma_count_where_mono(p, q, n - 1);
        if exists|x: int| 0 <= x < n && #[trigger] q(x) && !p(x) {
            let x = choose|x: int| 0 <= x < n && #[trigger] q(x) && !p(x);
            if x < n - 1 {
                assert(exists|y: int| 0 <= y < n - 1 && #[trigger] q(y) && !p(y));
            }
        }
    }
}

/// Nothing is counted where the predicate never holds.
pub proof fn lemma_count_false(n: int)
    ensures
        count_where(|i: int| false, n) == 0,
    decreases n,
{
    if n > 0 {
        lemma_count_false(n - 1);
    }
}

/// Making the predicate true at one more index below `n` adds one to the count.
pub proof fn lemma_count_where_insert(p: spec_fn(int) -> bool, q: spec_fn(int) -> bool, n: int, x: int)
    requires
        0 <= x < n,
        !p(x),
        q(x),
        forall|i: int| 0 <= i < n && i != x ==> #[trigger] p(i) == q(i),
    ensures
        count_where(q, n) == count_where(p, n) + 1,
    decreases n,
{
    if n - 1 == x {
        lemma_count_where_ext(p, q, n - 1);
    } else {
        lemma_count_where_insert(p, q, n - 1, x);
    }
}

/// The root entries of `root` that are valid.
pub open spec fn valid_roots(a: PageAllocator, root: int) -> spec_fn(int) -> bool {
    |i: int| pte_valid(a.entry(root, i))
}

/// Index into the first-level page table for virtual address `va`.
pub open spec fn vpn1(va: int) -> int {
    (va / 0x40_0000) % 1024
}

/// Index into the second-level page table for virtual address `va`.
pub open spec fn vpn0(va: int) -> int {
    (va / 4096) % 1024
}

/// The entry has its valid bit set.
pub open spec fn pte_valid(e: u32) -> bool {
    e % 2 == 1
}

/// The entry is a leaf: one of its readable, writable or executable bits is set. Under
/// Sv32 a valid entry without any of them points to the next level of the table.
pub open spec fn pte_leaf(e: u32) -> bool {
    (e / 2) % 8 != 0
}

/// What the walk makes of entry `e` at the last level: the entry itself when it is a valid
/// leaf, and nothing (a page fault) otherwise.
pub open spec fn leaf_or_none(e: u32) -> Option<u32> {
    if pte_valid(e) && pte_leaf(e) {
        Some(e)
    } else {
        None
    }
}

/// Physical address of the page an entry points to.
pub open spec fn pte_frame(e: u32) -> int {
    (e / 1024) * 4096
}

/// The page table entry that maps to the page at `paddr` with `flags`, valid.
pub open spec fn make_pte(paddr: u32, flags: u32) -> u32 {
    ((paddr / 4096) << 10u32) | flags | PAGE_V
}

pub proof fn lemma_make_pte(paddr: u32, flags: u32)
    requires
        paddr % 4096 == 0,
        flags < 1024,
    ensures
        pte_valid(make_pte(paddr, flags)),
        pte_frame(make_pte(paddr, flags)) == paddr,
        make_pte(paddr, flags) % 1024 == flags | PAGE_V,
        pte_leaf(make_pte(paddr, flags)) == ((flags / 2) % 8 != 0),
{
    assert(((((paddr / 4096) << 10u32) | flags | 1u32) % 2 == 1) && ((((paddr / 4096) << 10u32)
        | flags | 1u32) / 1024) * 4096 == paddr && (((paddr / 4096) << 10u32) | flags | 1u32)
        % 1024 == flags | 1u32 && ((((((paddr / 4096) << 10u32) | flags | 1u32) / 2) % 8 != 0)
        == ((flags / 2) % 8 != 0))) by (bit_vector)
        requires
            paddr % 4096 == 0,
            flags < 1024,
    ;
}

impl PageAllocator {
    /// Entry `i` of the page table at `table`.
    pub open spec fn entry(&self, table: int, i: int) -> u32 {
        self.word(table + 4 * i)
    }

    /// The leaf entry at which the Sv32 walk of the table rooted at `root` ends for the
    /// virtual page with indices `v1` and `v0`, or `None` where the walk faults. A valid root
    /// entry that is a leaf maps a whole 4 MiB superpage and ends the walk; any other valid
    /// root entry points to a second-level table, whose entry must be a valid leaf.
    pub open spec fn lookup_vpn(&self, root: int, v1: int, v0: int) -> Option<u32> {
        let e1 = self.entry(root, v1);
        if !pte_valid(e1) {
            None
        } else if pte_leaf(e1) {
            Some(e1)
        } else {
            leaf_or_none(self.entry(pte_frame(e1), v0))
        }
    }

    /// The leaf entry that the table rooted at `root` holds for virtual address `va`.
    pub open spec fn lookup(&self, root: int, va: int) -> Option<u32> {
        self.lookup_vpn(root, vpn1(va), vpn0(va))
    }

    /// The second-level table that entry `i` of the root points to.
    pub open spec fn l0_table(&self, root: int, i: int) -> int {
        pte_frame(self.entry(root, i))
    }

    /// A well-formed two-level table rooted at `root`: every valid root entry points to a
    /// second-level table (none is a superpage leaf), and the root and every second-level
    /// table are distinct whole pages inside the handed-out part of the region.
    pub open spec fn table_wf(&self, root: int) -> bool {
        &&& self.page_in_ram(root)
        &&& forall|i: int|
            0 <= i < 1024 && pte_valid(#[trigger] self.entry(root, i)) ==> {
                &&& !pte_leaf(self.entry(root, i))
                &&& self.page_in_ram(self.l0_table(root, i))
                &&& self.l0_table(root, i) != root
            }
        &&& forall|i: int, j: int|
            0 <= i < 1024 && 0 <= j < 1024 && i != j && pte_valid(#[trigger] self.entry(root, i))
                && pte_valid(#[trigger] self.entry(root, j)) ==> self.l0_table(root, i)
                != self.l0_table(root, j)
    }

    /// Every second-level table of `root` lies at or above `low`.
    pub open spec fn tables_above(&self, root: int, low: int) -> bool {
        forall|i: int|
            0 <= i < 1024 && pte_valid(#[trigger] self.entry(root, i)) ==> self.l0_table(root, i)
                >= low
    }
}


proof fn lemma_vpn_bits(va: usize)
    ensures
        (va >> 22usize) & 0x3ff == vpn1(va as int),
        (va >> 12usize) & 0x3ff == vpn0(va as int),
{
    assert((va >> 22usize) & 0x3ff == (va / 0x40_0000) % 1024) by (bit_vector);
    assert((va >> 12usize) & 0x3ff == (va / 4096) % 1024) by (bit_vector);
}

proof fn lemma_valid_bit(e: u32)
    ensures
        (e & PAGE_V == 0) == !pte_valid(e),
        (e >> 10u32) * 4096 == pte_frame(e),
{
    assert((e & 1u32 == 0) == (e % 2 != 1)) by (bit_vector);
    assert(e >> 10u32 == e / 1024) by (bit_vector);
}

/// Two distinct page-aligned addresses start pages that do not overlap.
pub proof fn lemma_page_starts_apart(a: int, b: int)
    requires
        a % 4096 == 0,
        b % 4096 == 0,
    ensures
        a == b || a + 4096 <= b || b + 4096 <= a,
{
    assert(a == b || a + 4096 <= b || b + 4096 <= a) by (nonlinear_arith)
        requires
            a % 4096 == 0,
            b % 4096 == 0,
    ;
}

/// Virtual address of the page with table indices `w1` and `w0`.
pub open spec fn page_va(w1: int, w0: int) -> int {
    (w1 * 1024 + w0) * 4096
}

/// The table indices of a page-aligned 32-bit address give back that address, and no
/// other indices do.
pub proof fn lemma_page_va(va: int)
    requires
        0 <= va < 0x1_0000_0000,
        va % 4096 == 0,
    ensures
        0 <= vpn1(va) < 1024,
        0 <= vpn0(va) < 1024,
        vpn1(va) == va / 0x40_0000,
        page_va(vpn1(va), vpn0(va)) == va,
        forall|w1: int, w0: int|
            0 <= w1 < 1024 && 0 <= w0 < 1024 && #[trigger] page_va(w1, w0) == va ==> w1 == vpn1(va)
                && w0 == vpn0(va),
{
    assert forall|w1: int, w0: int|
        0 <= w1 < 1024 && 0 <= w0 < 1024 && #[trigger] page_va(w1, w0) == va implies w1 == vpn1(va)
        && w0 == vpn0(va) by {
        assert(va / 0x40_0000 == w1 && (va / 4096) % 1024 == w0) by (nonlinear_arith)
            requires
                va == (w1 * 1024 + w0) * 4096,
                0 <= w1 < 1024,
                0 <= w0 < 1024,
        ;
    }
    assert(page_va(vpn1(va), vpn0(va)) == va && vpn1(va) == va / 0x40_0000) by (nonlinear_arith)
        requires
            0 <= va < 0x1_0000_0000,
            va % 4096 == 0,
    ;
}

/// The bytes of `b` below `len` are those of `a`, and `b` is at least as long.
pub open spec fn extends(a: PageAllocator, b: PageAllocator) -> bool {
    &&& b.base() == a.base()
    &&& b.end() == a.end()
    &&& b.ram().len() >= a.ram().len()
    &&& forall|i: int| 0 <= i < a.ram().len() ==> #[trigger] b.ram()[i] == a.ram()[i]
}

/// A table whose pages all lie in memory that did not change keeps its translations.
pub proof fn lemma_table_frame(a: PageAllocator, b: PageAllocator, root: int)
    requires
        a.wf(),
        a.table_wf(root),
        extends(a, b),
    ensures
        b.table_wf(root),
        forall|w1: int| 0 <= w1 < 1024 ==> #[trigger] b.entry(root, w1) == a.entry(root, w1),
        forall|w1: int, w0: int|
            0 <= w1 < 1024 && 0 <= w0 < 1024 ==> #[trigger] b.lookup_vpn(root, w1, w0)
                == a.lookup_vpn(root, w1, w0),
{
    assert forall|w1: int| 0 <= w1 < 1024 implies #[trigger] b.entry(root, w1) == a.entry(
        root,
        w1,
    ) by {
        let o = root - a.base() + 4 * w1;
        lemma_same_word(b.ram(), a.ram(), o);
    }
    assert forall|w1: int, w0: int| 0 <= w1 < 1024 && 0 <= w0 < 1024 implies #[trigger] b.lookup_vpn(
        root,
        w1,
        w0,
    ) == a.lookup_vpn(root, w1, w0) by {
        assert(b.entry(root, w1) == a.entry(root, w1));
        if pte_valid(a.entry(root, w1)) {
            let o = a.l0_table(root, w1) - a.base() + 4 * w0;
            lemma_same_word(b.ram(), a.ram(), o);
        }
    }
}

/// The allocators agree on every byte below address `addr`, and `b` is at least as long.
pub open spec fn same_below(a: PageAllocator, b: PageAllocator, addr: int) -> bool {
    &&& b.base() == a.base()
    &&& b.end() == a.end()
    &&& b.ram().len() >= a.ram().len()
    &&& forall|i: int|
        0 <= i < a.ram().len() && a.base() + i < addr ==> #[trigger] b.ram()[i] == a.ram()[i]
}

/// A freshly handed-out zero page is a well-formed root that translates nothing.
pub proof fn lemma_fresh_root(a0: PageAllocator, a1: PageAllocator)
    requires
        a0.wf(),
        a1.wf(),
        a1.base() == a0.base(),
        a1.ram() == a0.ram() + zeros(4096),
    ensures
        a1.table_wf(a0.next()),
        forall|w1: int| 0 <= w1 < 1024 ==> !pte_valid(#[trigger] a1.entry(a0.next(), w1)),
        forall|w1: int, w0: int|
            0 <= w1 < 1024 && 0 <= w0 < 1024 ==> #[trigger] a1.lookup_vpn(a0.next(), w1, w0)
                is None,
        table_clean(a1, a0.next()),
{
    assert forall|w1: int| 0 <= w1 < 1024 implies #[trigger] a1.entry(a0.next(), w1) == 0 by {
        let o = a0.ram().len() + 4 * w1;
        lemma_zero_word(a1.ram(), o);
    }
    assert forall|w1: int, w0: int| 0 <= w1 < 1024 && 0 <= w0 < 1024 implies #[trigger] a1.lookup_vpn(
        a0.next(),
        w1,
        w0,
    ) is None by {
        assert(!pte_valid(a1.entry(a0.next(), w1)));
    }
}

/// A fresh, zeroed second-level table installed at root entry `v1` keeps the table well
/// formed and changes no translation.
proof fn lemma_install_l0(
    a0: PageAllocator,
    a_alloc: PageAllocator,
    a1: PageAllocator,
    root: int,
    v1: int,
)
    requires
        a0.wf(),
        a0.table_wf(root),
        0 <= v1 < 1024,
        !pte_valid(a0.entry(root, v1)),
        a_alloc.base() == a0.base(),
        a_alloc.ram() == a0.ram() + zeros(4096),
        a1.base() == a0.base(),
        a1.ram().len() == a_alloc.ram().len(),
        forall|i: int|
            0 <= i < a_alloc.ram().len() && !(root + 4 * v1 <= a0.base() + i < root + 4 * v1 + 4)
                ==> #[trigger] a1.ram()[i] == a_alloc.ram()[i],
        pte_valid(a1.entry(root, v1)),
        !pte_leaf(a1.entry(root, v1)),
        a1.l0_table(root, v1) == a0.next(),
    ensures
        a1.table_wf(root),
        forall|w0: int| 0 <= w0 < 1024 ==> #[trigger] a1.entry(a0.next(), w0) == 0,
        forall|w1: int|
            0 <= w1 < 1024 && w1 != v1 ==> #[trigger] a1.entry(root, w1) == a0.entry(root, w1),
        forall|w1: int, w0: int|
            0 <= w1 < 1024 && 0 <= w0 < 1024 ==> #[trigger] a1.lookup_vpn(root, w1, w0)
                == a0.lookup_vpn(root, w1, w0),
{
    assert forall|w1: int| 0 <= w1 < 1024 && w1 != v1 implies #[trigger] a1.entry(root, w1)
        == a0.entry(root, w1) by {
        lemma_same_word(a_alloc.ram(), a0.ram(), root - a0.base() + 4 * w1);
    }
    assert forall|w0: int| 0 <= w0 < 1024 implies #[trigger] a1.entry(a0.next(), w0) == 0 by {
        let t = a0.next();
        let o = t - a0.base() + 4 * w0;
        lemma_zero_word(a1.ram(), o);
    }
    assert forall|w1: int, w0: int| 0 <= w1 < 1024 && 0 <= w0 < 1024 implies #[trigger] a1.lookup_vpn(
        root,
        w1,
        w0,
    ) == a0.lookup_vpn(root, w1, w0) by {
        if w1 == v1 {
            let t = a0.next();
            let o = t - a0.base() + 4 * w0;
            lemma_zero_word(a1.ram(), o);
        } else if pte_valid(a0.entry(root, w1)) {
            let f = a0.l0_table(root, w1);
            lemma_page_starts_apart(f, root);
            let o = f - a0.base() + 4 * w0;
            lemma_same_word(a_alloc.ram(), a0.ram(), o);
        }
    }
}

/// Writing a leaf entry at index `v0` of the second-level table of root entry `v1` sets the
/// translation of that one virtual page and keeps the table well formed.
proof fn lemma_set_leaf(a1: PageAllocator, a2: PageAllocator, root: int, v1: int, v0: int, pte: u32)
    requires
        a1.wf(),
        a1.table_wf(root),
        0 <= v1 < 1024,
        0 <= v0 < 1024,
        pte_valid(a1.entry(root, v1)),
        a2.base() == a1.base(),
        a2.ram().len() == a1.ram().len(),
        forall|i: int|
            0 <= i < a1.ram().len() && !(a1.l0_table(root, v1) + 4 * v0 <= a1.base() + i
                < a1.l0_table(root, v1) + 4 * v0 + 4) ==> #[trigger] a2.ram()[i] == a1.ram()[i],
        a2.entry(a1.l0_table(root, v1), v0) == pte,
    ensures
        a2.table_wf(root),
        forall|w1: int| 0 <= w1 < 1024 ==> #[trigger] a2.entry(root, w1) == a1.entry(root, w1),
        a2.lookup_vpn(root, v1, v0) == leaf_or_none(pte),
        forall|w0: int|
            0 <= w0 < 1024 && w0 != v0 ==> #[trigger] a2.entry(a1.l0_table(root, v1), w0)
                == a1.entry(a1.l0_table(root, v1), w0),
        forall|w1: int, w0: int|
            0 <= w1 < 1024 && 0 <= w0 < 1024 && (w1 != v1 || w0 != v0)
                ==> #[trigger] a2.lookup_vpn(root, w1, w0) == a1.lookup_vpn(root, w1, w0),
{
    let t0 = a1.l0_table(root, v1);
    lemma_page_starts_apart(t0, root);
    assert forall|w1: int| 0 <= w1 < 1024 implies #[trigger] a2.entry(root, w1) == a1.entry(
        root,
        w1,
    ) by {
        let o = root - a1.base() + 4 * w1;
        lemma_same_word(a2.ram(), a1.ram(), o);
    }
    assert forall|w1: int, w0: int|
        0 <= w1 < 1024 && 0 <= w0 < 1024 && (w1 != v1 || w0 != v0) implies #[trigger] a2.lookup_vpn(
        root,
        w1,
        w0,
    ) == a1.lookup_vpn(root, w1, w0) by {
        assert(a2.entry(root, w1) == a1.entry(root, w1));
        if pte_valid(a1.entry(root, w1)) {
            let f = a1.l0_table(root, w1);
            if w1 != v1 {
                lemma_page_starts_apart(f, t0);
            }
            let o = f - a1.base() + 4 * w0;
            lemma_same_word(a2.ram(), a1.ram(), o);
        }
    }
    assert(a2.entry(root, v1) == a1.entry(root, v1));
    assert forall|w0: int| 0 <= w0 < 1024 && w0 != v0 implies #[trigger] a2.entry(t0, w0)
        == a1.entry(t0, w0) by {
        let o = t0 - a1.base() + 4 * w0;
        lemma_same_word(a2.ram(), a1.ram(), o);
    }
}

/// Every entry of the table rooted at `root` that is not valid is zero, in the root and in
/// every second-level table it points to.
pub open spec fn table_clean(a: PageAllocator, root: int) -> bool {
    &&& forall|w1: int|
        0 <= w1 < 1024 && !pte_valid(#[trigger] a.entry(root, w1)) ==> a.entry(root, w1) == 0
    &&& forall|w1: int, w0: int|
        0 <= w1 < 1024 && 0 <= w0 < 1024 && pte_valid(a.entry(root, w1)) && !pte_valid(
            #[trigger] a.entry(a.l0_table(root, w1), w0),
        ) ==> a.entry(a.l0_table(root, w1), w0) == 0
}

/// A table whose pages lie in memory that did not change stays clean.
pub proof fn lemma_clean_frame(a: PageAllocator, b: PageAllocator, root: int)
    requires
        a.wf(),
        a.table_wf(root),
        table_clean(a, root),
        extends(a, b),
    ensures
        table_clean(b, root),
{
    lemma_table_frame(a, b, root);
    assert forall|w1: int, w0: int|
        0 <= w1 < 1024 && 0 <= w0 < 1024 && pte_valid(b.entry(root, w1)) implies #[trigger] b.entry(
        b.l0_table(root, w1),
        w0,
    ) == a.entry(a.l0_table(root, w1), w0) by {
        assert(b.entry(root, w1) == a.entry(root, w1));
        let o = a.l0_table(root, w1) - a.base() + 4 * w0;
        lemma_same_word(b.ram(), a.ram(), o);
    }
}

/// Mapping one page keeps the table clean: the entries it writes are valid, and a new
/// second-level table is zero but for its one entry.
pub proof fn lemma_clean_after_map(
    a2: PageAllocator,
    a3: PageAllocator,
    root: int,
    va: int,
    paddr: u32,
    flags: u32,
)
    requires
        a2.wf(),
        a2.table_wf(root),
        table_clean(a2, root),
        mapped_one_page(a2, a3, root, va, paddr, flags),
    ensures
        table_clean(a3, root),
{
    let v1 = vpn1(va);
    let v0 = vpn0(va);
    let t0 = a3.l0_table(root, v1);
    assert((((paddr / 4096) << 10u32) | flags | 1u32) % 2 == 1) by (bit_vector);
    assert(pte_valid(make_pte(paddr, flags)));
    assert forall|w1: int| 0 <= w1 < 1024 && !pte_valid(#[trigger] a3.entry(root, w1)) implies a3.entry(
        root,
        w1,
    ) == 0 by {
        assert(w1 != v1);
        assert(a3.entry(root, w1) == a2.entry(root, w1));
    }
    assert forall|w1: int, w0: int|
        0 <= w1 < 1024 && 0 <= w0 < 1024 && pte_valid(a3.entry(root, w1)) && !pte_valid(
            #[trigger] a3.entry(a3.l0_table(root, w1), w0),
        ) implies a3.entry(a3.l0_table(root, w1), w0) == 0 by {
        if w1 == v1 {
            assert(w0 != v0);
            if pte_valid(a2.entry(root, v1)) {
                assert(t0 == a2.l0_table(root, v1));
                let o = t0 - a2.base() + 4 * w0;
                lemma_page_starts_apart(t0, root);
                assert(a2.page_in_ram(t0));
                lemma_same_word(a3.ram(), a2.ram(), o);
                assert(a3.entry(t0, w0) == a2.entry(t0, w0));
            } else {
                assert(a3.entry(t0, w0) == 0);
            }
        } else {
            assert(a3.entry(root, w1) == a2.entry(root, w1));
            assert(pte_valid(a2.entry(root, w1)));
            let f = a2.l0_table(root, w1);
            assert(a2.page_in_ram(f));
            lemma_page_starts_apart(f, root);
            if pte_valid(a2.entry(root, v1)) {
                lemma_page_starts_apart(f, t0);
            }
            let o = f - a2.base() + 4 * w0;
            lemma_same_word(a3.ram(), a2.ram(), o);
            assert(a3.entry(f, w0) == a2.entry(f, w0));
        }
    }
}

/// What mapping the virtual page at `va` to the physical page `paddr` with `flags` in the
/// table rooted at `root` of `a2` leaves in `a3`:
/// - the walk for that page ends at the new entry (if `flags` make it a leaf), and the walk
///   for every other page is unchanged;
/// - the root entry for `va` is valid and is the only root entry that may change;
/// - if it was not valid before, it now points, as a non-leaf entry, to a fresh page
///   handed out at `a2`'s next address, whose other entries are zero;
/// - the only bytes of `a2` that change are the root entry and the second-level entry.
pub open spec fn mapped_one_page(
    a2: PageAllocator,
    a3: PageAllocator,
    root: int,
    va: int,
    paddr: u32,
    flags: u32,
) -> bool {
    let v1 = vpn1(va);
    let v0 = vpn0(va);
    let t0 = a3.l0_table(root, v1);
    &&& a3.wf()
    &&& a3.base() == a2.base()
    &&& a3.end() == a2.end()
    &&& a3.table_wf(root)
    &&& a3.entry(t0, v0) == make_pte(paddr, flags)
    &&& a3.lookup_vpn(root, v1, v0) == leaf_or_none(make_pte(paddr, flags))
    &&& forall|w1: int, w0: int|
        0 <= w1 < 1024 && 0 <= w0 < 1024 && (w1 != v1 || w0 != v0) ==> #[trigger] a3.lookup_vpn(
            root,
            w1,
            w0,
        ) == a2.lookup_vpn(root, w1, w0)
    &&& pte_valid(a3.entry(root, v1))
    &&& forall|w1: int|
        0 <= w1 < 1024 && w1 != v1 ==> #[trigger] a3.entry(root, w1) == a2.entry(root, w1)
    &&& if pte_valid(a2.entry(root, v1)) {
        &&& a3.entry(root, v1) == a2.entry(root, v1)
        &&& a3.ram().len() == a2.ram().len()
    } else {
        &&& t0 == a2.next()
        &&& a3.entry(root, v1) == make_pte(a2.next() as u32, 0)
        &&& forall|w0: int| 0 <= w0 < 1024 && w0 != v0 ==> #[trigger] a3.entry(t0, w0) == 0
        &&& a3.ram().len() == a2.ram().len() + 4096
    }
    &&& forall|i: int|
        0 <= i < a2.ram().len() && !(root + 4 * v1 <= a2.base() + i < root + 4 * v1 + 4) && !(t0
            + 4 * v0 <= a2.base() + i < t0 + 4 * v0 + 4) ==> #[trigger] a3.ram()[i] == a2.ram()[i]
}

proof fn lemma_leaf_bits(e: u32)
    ensures
        (e & 14u32 == 0) == !pte_leaf(e),
{
    assert((e & 14u32 == 0) == ((e / 2) % 8 == 0)) by (bit_vector);
}

impl PageAllocator {
    /// Reads the byte at physical address `paddr`.
    pub fn read_byte(&self, paddr: u32) -> (r: u8)
        requires
            self.wf(),
            self.base() <= paddr < self.next(),
        ensures
            r == self.byte(paddr as int),
    {
        self.ram[(paddr - self.free_ram) as usize]
    }

    /// The leaf entry at which the Sv32 walk of the table rooted at `table1` ends for the
    /// page of `vaddr`, as `lookup` gives it.
    pub fn translate(&self, table1: PAddr, vaddr: usize) -> (r: Option<u32>)
        requires
            self.wf(),
            self.table_wf(table1 as int),
        ensures
            r == self.lookup(table1 as int, vaddr as int),
    {
        proof {
            lemma_vpn_bits(vaddr);
        }
        let leaf_bits: u32 = PAGE_R | PAGE_W | PAGE_X;
        assert(leaf_bits == 14) by (bit_vector)
            requires
                leaf_bits == 2u32 | 4u32 | 8u32,
        ;
        let vpn1 = (vaddr >> 22usize) & 0x3ff;
        let e1 = self.read_word(table1 + (vpn1 as u32) * 4);
        proof {
            lemma_valid_bit(e1);
            lemma_leaf_bits(e1);
        }
        if e1 & PAGE_V == 0 {
            return None;
        }
        if e1 & leaf_bits != 0 {
            return Some(e1);
        }
        let vpn0 = (vaddr >> 12usize) & 0x3ff;
        let table0 = (e1 >> 10u32) * PAGE_SIZE as u32;
        let e0 = self.read_word(table0 + (vpn0 as u32) * 4);
        proof {
            lemma_valid_bit(e0);
            lemma_leaf_bits(e0);
        }
        if e0 & PAGE_V == 0 || e0 & leaf_bits == 0 {
            None
        } else {
            Some(e0)
        }
    }

    /// Maps the virtual page at `vaddr` to the physical page at `paddr` with `flags` in the
    /// two-level table rooted at `table1`, handing out a zeroed page for its second-level
    /// table if its root entry is not valid yet (see `mapped_one_page`).
    ///
    /// Both addresses must be page aligned, and there must be room for that page.
    pub fn map_page(&mut self, table1: PAddr, vaddr: usize, paddr: PAddr, flags: u32)
        requires
            old(self).wf(),
            old(self).table_wf(table1 as int),
            is_aligned_spec(vaddr as int, 4096),
            is_aligned_spec(paddr as int, 4096),
            pte_valid(old(self).entry(table1 as int, vpn1(vaddr as int))) || old(self).next() + 4096
                <= old(self).end(),
        ensures
            mapped_one_page(*old(self), *final(self), table1 as int, vaddr as int, paddr, flags),
    {
        let r = self.try_map_page(table1, vaddr, paddr, flags);
        match r {
            Ok(()) => {},
            Err(e) => {
                proof {
                    assert(false);
                }
            },
        }
    }

    /// `map_page`, failing instead where the addresses are unaligned (`UnalignedVaddr`,
    /// then `UnalignedPaddr`) or no page is left for a new second-level table
    /// (`OutOfMemory`); on failure nothing changes.
    pub(crate) fn try_map_page(&mut self, table1: PAddr, vaddr: usize, paddr: PAddr, flags: u32) -> (r: Result<
        (),
        KernelError,
    >)
        requires
            old(self).wf(),
            old(self).table_wf(table1 as int),
        ensures
            final(self).wf(),
            final(self).base() == old(self).base(),
            final(self).end() == old(self).end(),
            final(self).table_wf(table1 as int),
            match r {
                Ok(()) => {
                    &&& is_aligned_spec(vaddr as int, 4096)
                    &&& is_aligned_spec(paddr as int, 4096)
                    &&& mapped_one_page(*old(self), *final(self), table1 as int, vaddr as int, paddr, flags)
                },
                Err(e) => {
                    &&& *final(self) == *old(self)
                    &&& e == KernelError::UnalignedVaddr ==> !is_aligned_spec(vaddr as int, 4096)
                    &&& e == KernelError::UnalignedPaddr ==> is_aligned_spec(vaddr as int, 4096)
                        && !is_aligned_spec(paddr as int, 4096)
                    &&& e == KernelError::OutOfMemory ==> is_aligned_spec(vaddr as int, 4096)
                        && is_aligned_spec(paddr as int, 4096) && !pte_valid(
                        old(self).entry(table1 as int, vpn1(vaddr as int)),
                    ) && old(self).next() + 4096 > old(self).end()
                    &&& e != KernelError::NoFreeProcessSlots
                },
            },
    {
        if !is_aligned(vaddr, PAGE_SIZE) {
            return Err(KernelError::UnalignedVaddr);
        }
        if !is_aligned(paddr as usize, PAGE_SIZE) {
            return Err(KernelError::UnalignedPaddr);
        }
        proof {
            lemma_vpn_bits(vaddr);
        }
        let ghost a0 = *self;
        let vpn1 = (vaddr >> 22usize) & 0x3ff;
        let entry1 = table1 + (vpn1 as u32) * 4;
        let mut e1 = self.read_word(entry1);
        proof {
            lemma_valid_bit(e1);
        }
        let ghost mut a_alloc = *self;
        if e1 & PAGE_V == 0 {
            let pt_paddr = self.try_alloc_pages(1)?;
            proof {
                a_alloc = *self;
            }
            e1 = ((pt_paddr / PAGE_SIZE as u32) << 10u32) | PAGE_V;
            proof {
                lemma_make_pte(pt_paddr, 0);
                assert(e1 == make_pte(pt_paddr, 0)) by (bit_vector)
                    requires
                        e1 == ((pt_paddr / 4096) << 10u32) | 1u32,
                ;
            }
            self.write_word(entry1, e1);
        }
        let ghost a1 = *self;
        proof {
            lemma_valid_bit(e1);
            if pte_valid(a0.entry(table1 as int, vpn1 as int)) {
                assert(a1 == a0);
            } else {
                lemma_install_l0(a0, a_alloc, a1, table1 as int, vpn1 as int);
            }
            assert(a1.entry(table1 as int, vpn1 as int) == e1);
        }
        let vpn0 = (vaddr >> 12usize) & 0x3ff;
        let table0 = (e1 >> 10u32) * PAGE_SIZE as u32;
        let entry0 = table0 + (vpn0 as u32) * 4;
        let pte = ((paddr / PAGE_SIZE as u32) << 10u32) | flags | PAGE_V;
        self.write_word(entry0, pte);
        proof {
            lemma_set_leaf(a1, *self, table1 as int, vpn1 as int, vpn0 as int, pte);
        }
        Ok(())
    }
}

} // verus!
