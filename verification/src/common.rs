use vstd::prelude::*;
use vstd::string::StringSliceAdditionalSpecFns;

verus! {

/// System call number for writing one character to the console.
pub const SYS_PUTCHAR: i32 = 1;

/// System call number for reading one character from the console.
pub const SYS_GETCHAR: i32 = 2;

/// System call number for terminating the calling process.
pub const SYS_EXIT: i32 = 3;

/// A buffer of `n` zero bytes.
pub fn zero_bytes(n: usize) -> (r: Vec<u8>)
    ensures
        r@ == Seq::new(n as nat, |i: int| 0u8),
{
    let mut out: Vec<u8> = Vec::new();
    let mut k: usize = 0;
    while k < n
        invariant
            k <= n,
            out@ == Seq::new(k as nat, |i: int| 0u8),
        decreases n - k,
    {
        out.push(0u8);
        k = k + 1;
        assert(out@ =~= Seq::new(k as nat, |i: int| 0u8));
    }
    out
}

/// `value` rounded up to the next multiple of `align`.
pub open spec fn align_up_spec(value: int, align: int) -> int {
    ((value + align - 1) / align) * align
}

/// Rounds `value` up to the next multiple of `align`.
pub fn align_up(value: usize, align: usize) -> (r: usize)
    requires
        align > 0,
        align_up_spec(value as int, align as int) <= usize::MAX,
    ensures
        r == align_up_spec(value as int, align as int),
{
    let q = value / align;
    proof {
        let v = value as int;
        let a = align as int;
        assert(v % a != 0 ==> v / a < usize::MAX) by (nonlinear_arith)
            requires a > 0, v >= 0, v <= usize::MAX, v / a == q,
        ;
    }
    let q = if value % align == 0 { q } else { q + 1 };
    proof {
        let v = value as int;
        let a = align as int;
        assert(q == (v + a - 1) / a) by (nonlinear_arith)
            requires
                a > 0,
                v >= 0,
                q == (if v % a == 0 { v / a } else { v / a + 1 }),
        ;
    }
    q * align
}


/// Whether `value` is a multiple of `align` (only `0` is a multiple of `0`).
pub open spec fn is_aligned_spec(value: int, align: int) -> bool {
    if align == 0 {
        value == 0
    } else {
        value % align == 0
    }
}

/// Whether `value` is a multiple of `align`; with `align == 0` only `0` is.
pub fn is_aligned(value: usize, align: usize) -> (r: bool)
    ensures
        r == is_aligned_spec(value as int, align as int),
{
    if align == 0 {
        value == 0
    } else {
        value % align == 0
    }
}

/// Fills the first `size` bytes of `dst` with `value`.
pub fn memset(dst: &mut [u8], value: u8, size: usize)
    requires
        size <= old(dst)@.len(),
    ensures
        final(dst)@.len() == old(dst)@.len(),
        forall|i: int| 0 <= i < size ==> final(dst)@[i] == value,
        forall|i: int| size <= i < old(dst)@.len() ==> final(dst)@[i] == old(dst)@[i],
{
    let mut i: usize = 0;
    while i < size
        invariant
            i <= size,
            size <= dst@.len(),
            dst@.len() == old(dst)@.len(),
            forall|j: int| 0 <= j < i ==> dst@[j] == value,
            forall|j: int| size <= j < old(dst)@.len() ==> dst@[j] == old(dst)@[j],
        decreases size - i,
    {
        dst[i] = value;
        i = i + 1;
    }
}

/// Copies the first `size` bytes of `src` over the first `size` bytes of `dst`.
pub fn memcpy(dst: &mut [u8], src: &[u8], size: usize)
    requires
        size <= old(dst)@.len(),
        size <= src@.len(),
    ensures
        final(dst)@ == src@.subrange(0, size as int) + old(dst)@.subrange(
            size as int,
            old(dst)@.len() as int,
        ),
{
    let mut i: usize = 0;
    while i < size
        invariant
            i <= size,
            size <= dst@.len(),
            size <= src@.len(),
            dst@.len() == old(dst)@.len(),
            forall|j: int| 0 <= j < i ==> dst@[j] == src@[j],
            forall|j: int| i <= j < old(dst)@.len() ==> dst@[j] == old(dst)@[j],
        decreases size - i,
    {
        dst[i] = src[i];
        i = i + 1;
    }
    assert(dst@ =~= src@.subrange(0, size as int) + old(dst)@.subrange(
        size as int,
        old(dst)@.len() as int,
    ));
}

/// Index of the first NUL byte of `s` at or after `i` (or `s.len()` if there is none).
pub open spec fn nul_from(s: Seq<u8>, i: int) -> int
    decreases s.len() - i,
{
    if i < 0 || i >= s.len() {
        s.len() as int
    } else if s[i] == 0 {
        i
    } else {
        nul_from(s, i + 1)
    }
}

/// Length of the NUL-terminated string at the start of `s`: the index of its first NUL.
pub open spec fn cstr_len(s: Seq<u8>) -> int {
    nul_from(s, 0)
}

/// `s` holds a NUL-terminated string: it has a NUL byte somewhere.
pub open spec fn is_cstr(s: Seq<u8>) -> bool {
    cstr_len(s) < s.len()
}

/// The string at the start of `s`, without its terminating NUL.
pub open spec fn cstr(s: Seq<u8>) -> Seq<u8> {
    s.subrange(0, cstr_len(s))
}

pub proof fn lemma_nul_from(s: Seq<u8>, i: int)
    requires
        0 <= i <= s.len(),
    ensures
        i <= nul_from(s, i) <= s.len(),
        nul_from(s, i) < s.len() ==> s[nul_from(s, i)] == 0,
        forall|j: int| i <= j < nul_from(s, i) ==> s[j] != 0,
    decreases s.len() - i,
{
    if i < s.len() && s[i] != 0 {
        lemma_nul_from(s, i + 1);
    }
}

/// Copies the NUL-terminated string in `src`, terminator included, to the start of `dst`.
pub fn strcpy(dst: &mut [u8], src: &[u8])
    requires
        is_cstr(src@),
        cstr_len(src@) < old(dst)@.len(),
    ensures
        final(dst)@ == src@.subrange(0, cstr_len(src@) + 1) + old(dst)@.subrange(
            cstr_len(src@) + 1,
            old(dst)@.len() as int,
        ),
{
    proof {
        lemma_nul_from(src@, 0);
    }
    let mut i: usize = 0;
    loop
        invariant_except_break
            forall|j: int| 0 <= j < i ==> dst@[j] == src@[j],
            forall|j: int| i <= j < old(dst)@.len() ==> dst@[j] == old(dst)@[j],
        invariant
            0 <= i <= cstr_len(src@),
            cstr_len(src@) < src@.len(),
            cstr_len(src@) < dst@.len(),
            dst@.len() == old(dst)@.len(),
            src@[cstr_len(src@)] == 0,
            forall|j: int| 0 <= j < cstr_len(src@) ==> src@[j] != 0,
        ensures
            i == cstr_len(src@),
            dst@.len() == old(dst)@.len(),
            forall|j: int| 0 <= j <= i ==> dst@[j] == src@[j],
            forall|j: int| i < j < old(dst)@.len() ==> dst@[j] == old(dst)@[j],
        decreases cstr_len(src@) - i,
    {
        let c = src[i];
        dst[i] = c;
        if c == 0 {
            break;
        }
        i = i + 1;
    }
    assert(dst@ =~= src@.subrange(0, cstr_len(src@) + 1) + old(dst)@.subrange(
        cstr_len(src@) + 1,
        old(dst)@.len() as int,
    ));
}

/// Whether a string comparison stops at index `k`: one string ends there or they differ.
pub open spec fn scan_stops(s1: Seq<u8>, s2: Seq<u8>, k: int) -> bool {
    s1[k] == 0 || s2[k] == 0 || s1[k] != s2[k]
}

/// `scan_stops` at a machine index.
pub open spec fn scan_stops_at(s1: Seq<u8>, s2: Seq<u8>, k: usize) -> bool {
    scan_stops(s1, s2, k as int)
}

/// First index at or after `i` where a comparison of `s1` and `s2` stops, or the end of
/// the shorter buffer when it does not stop inside both.
pub open spec fn scan_stop_from(s1: Seq<u8>, s2: Seq<u8>, i: int) -> int
    decreases s1.len() - i,
{
    if i < 0 || i >= s1.len() || i >= s2.len() {
        if s1.len() < s2.len() {
            s1.len() as int
        } else {
            s2.len() as int
        }
    } else if scan_stops(s1, s2, i) {
        i
    } else {
        scan_stop_from(s1, s2, i + 1)
    }
}

/// Index where `strcmp` stops comparing `s1` and `s2`.
pub open spec fn scan_stop(s1: Seq<u8>, s2: Seq<u8>) -> int {
    scan_stop_from(s1, s2, 0)
}

/// The comparison stops inside both buffers, so it never reads past either.
pub open spec fn scan_in_bounds(s1: Seq<u8>, s2: Seq<u8>) -> bool {
    scan_stop(s1, s2) < s1.len() && scan_stop(s1, s2) < s2.len()
}

/// What `strcmp` returns: the difference of the bytes at the stopping index.
pub open spec fn cstr_diff(s1: Seq<u8>, s2: Seq<u8>) -> int {
    s1[scan_stop(s1, s2)] as int - s2[scan_stop(s1, s2)] as int
}

pub proof fn lemma_scan_stop_from(s1: Seq<u8>, s2: Seq<u8>, i: int)
    requires
        0 <= i <= s1.len(),
        i <= s2.len(),
    ensures
        i <= scan_stop_from(s1, s2, i),
        scan_stop_from(s1, s2, i) <= s1.len(),
        scan_stop_from(s1, s2, i) <= s2.len(),
        scan_stop_from(s1, s2, i) < s1.len() && scan_stop_from(s1, s2, i) < s2.len()
            ==> scan_stops(s1, s2, scan_stop_from(s1, s2, i)),
        forall|j: int| i <= j < scan_stop_from(s1, s2, i) ==> !scan_stops(s1, s2, j),
    decreases s1.len() - i,
{
    if i < s1.len() && i < s2.len() && !scan_stops(s1, s2, i) {
        lemma_scan_stop_from(s1, s2, i + 1);
    }
}

/// Difference of two bytes, as a signed number.
pub fn byte_diff(a: u8, b: u8) -> (r: i32)
    ensures
        r == a as int - b as int,
{
    a as i32 - b as i32
}

/// Compares the NUL-terminated strings in `s1` and `s2` byte by byte; returns the
/// difference of the first bytes where they differ, or where one of them ends.
pub fn strcmp(s1: &[u8], s2: &[u8]) -> (r: i32)
    requires
        scan_in_bounds(s1@, s2@),
    ensures
        r == cstr_diff(s1@, s2@),
{
    proof {
        lemma_scan_stop_from(s1@, s2@, 0);
    }
    let mut i: usize = 0;
    loop
        invariant
            0 <= i <= scan_stop(s1@, s2@),
            scan_in_bounds(s1@, s2@),
            scan_stops(s1@, s2@, scan_stop(s1@, s2@)),
            forall|j: int| 0 <= j < scan_stop(s1@, s2@) ==> !scan_stops(s1@, s2@, j),
        ensures
            i == scan_stop(s1@, s2@),
        decreases scan_stop(s1@, s2@) - i,
    {
        let a = s1[i];
        let b = s2[i];
        if a == 0 || b == 0 || a != b {
            assert(scan_stops_at(s1@, s2@, i));
            break;
        }
        i = i + 1;
    }
    byte_diff(s1[i], s2[i])
}

/// The bytes that printing `text` hands to the character output routine, in order.
pub fn print(text: &str) -> (bytes: Vec<u8>)
    ensures
        bytes@ == text.spec_bytes(),
{
    let src = text.as_bytes();
    let mut out: Vec<u8> = Vec::new();
    let mut i: usize = 0;
    while i < src.len()
        invariant
            i <= src@.len(),
            src@ == text.spec_bytes(),
            out@ == src@.subrange(0, i as int),
        decreases src@.len() - i,
    {
        out.push(src[i]);
        i = i + 1;
        assert(out@ =~= src@.subrange(0, i as int));
    }
    assert(out@ =~= src@);
    out
}


pub proof fn lemma_nul_from_at(s: Seq<u8>, i: int, k: int)
    requires
        0 <= i <= k < s.len(),
        s[k] == 0,
        forall|j: int| i <= j < k ==> s[j] != 0,
    ensures
        nul_from(s, i) == k,
    decreases k - i,
{
    if i < k {
        lemma_nul_from_at(s, i + 1, k);
    }
}

pub proof fn lemma_scan_stop_from_at(s1: Seq<u8>, s2: Seq<u8>, i: int, k: int)
    requires
        0 <= i <= k,
        k < s1.len(),
        k < s2.len(),
        scan_stops(s1, s2, k),
        forall|j: int| i <= j < k ==> !scan_stops(s1, s2, j),
    ensures
        scan_stop_from(s1, s2, i) == k,
    decreases k - i,
{
    if i < k {
        lemma_scan_stop_from_at(s1, s2, i + 1, k);
    }
}

proof fn lemma_scan_stop_from_symmetric(s1: Seq<u8>, s2: Seq<u8>, i: int)
    requires
        0 <= i,
    ensures
        scan_stop_from(s1, s2, i) == scan_stop_from(s2, s1, i),
    decreases s1.len() - i,
{
    if i < s1.len() && i < s2.len() && !scan_stops(s1, s2, i) {
        lemma_scan_stop_from_symmetric(s1, s2, i + 1);
    }
}

proof fn lemma_scan_stop_from_self(s: Seq<u8>, i: int)
    requires
        0 <= i <= s.len(),
    ensures
        scan_stop_from(s, s, i) == nul_from(s, i),
    decreases s.len() - i,
{
    if i < s.len() && s[i] != 0 {
        lemma_scan_stop_from_self(s, i + 1);
    }
}

/// `align_up` gives the least multiple of `align` that is not below `value`.
pub proof fn lemma_align_up(value: int, align: int)
    requires
        value >= 0,
        align > 0,
    ensures
        align_up_spec(value, align) >= value,
        align_up_spec(value, align) - value < align,
        align_up_spec(value, align) % align == 0,
        is_aligned_spec(align_up_spec(value, align), align),
        is_aligned_spec(value, align) ==> align_up_spec(value, align) == value,
{
    let q = (value + align - 1) / align;
    assert(q * align >= value && q * align - value < align) by (nonlinear_arith)
        requires
            value >= 0,
            align > 0,
            q == (value + align - 1) / align,
    ;
    assert((q * align) % align == 0) by (nonlinear_arith)
        requires
            align > 0,
    ;
    assert(value % align == 0 ==> q * align == value) by (nonlinear_arith)
        requires
            value >= 0,
            align > 0,
            q == (value + align - 1) / align,
    ;
}

/// A NUL-terminated string compares equal to itself.
pub proof fn lemma_strcmp_reflexive(s: Seq<u8>)
    requires
        is_cstr(s),
    ensures
        scan_in_bounds(s, s),
        cstr_diff(s, s) == 0,
{
    lemma_scan_stop_from_self(s, 0);
    lemma_nul_from(s, 0);
}

/// Swapping the two strings negates the result of the comparison.
pub proof fn lemma_strcmp_antisymmetric(s1: Seq<u8>, s2: Seq<u8>)
    requires
        scan_in_bounds(s1, s2),
    ensures
        scan_in_bounds(s2, s1),
        cstr_diff(s2, s1) == -cstr_diff(s1, s2),
{
    lemma_scan_stop_from_symmetric(s1, s2, 0);
}

/// The comparison gives zero exactly when both buffers hold the same NUL-terminated string.
pub proof fn lemma_strcmp_zero_iff_equal(s1: Seq<u8>, s2: Seq<u8>)
    requires
        scan_in_bounds(s1, s2),
    ensures
        cstr_diff(s1, s2) == 0 <==> (is_cstr(s1) && is_cstr(s2) && cstr(s1) == cstr(s2)),
{
    let k = scan_stop(s1, s2);
    lemma_scan_stop_from(s1, s2, 0);
    lemma_nul_from(s1, 0);
    lemma_nul_from(s2, 0);
    if cstr_diff(s1, s2) == 0 {
        assert(s1[k] == 0 && s2[k] == 0);
        assert forall|j: int| 0 <= j < k implies s1[j] != 0 && s2[j] != 0 && s1[j] == s2[j] by {
            assert(!scan_stops(s1, s2, j));
        }
        lemma_nul_from_at(s1, 0, k);
        lemma_nul_from_at(s2, 0, k);
        assert(cstr(s1) =~= cstr(s2));
    }
    if is_cstr(s1) && is_cstr(s2) && cstr(s1) == cstr(s2) {
        let n = cstr_len(s1);
        assert(cstr(s1).len() == n);
        assert(cstr_len(s2) == n);
        assert forall|j: int| 0 <= j < n implies !scan_stops(s1, s2, j) by {
            assert(cstr(s1)[j] == cstr(s2)[j]);
        }
        lemma_scan_stop_from_at(s1, s2, 0, n);
    }
}

/// After copying a string, the destination holds that same string.
pub proof fn lemma_strcpy_copies_string(src: Seq<u8>, dst: Seq<u8>)
    requires
        is_cstr(src),
        cstr_len(src) < dst.len(),
    ensures
        ({
            let copied = src.subrange(0, cstr_len(src) + 1) + dst.subrange(
                cstr_len(src) + 1,
                dst.len() as int,
            );
            &&& is_cstr(copied)
            &&& cstr(copied) == cstr(src)
            &&& scan_in_bounds(copied, src)
            &&& cstr_diff(copied, src) == 0
        }),
{
    let n = cstr_len(src);
    let copied = src.subrange(0, n + 1) + dst.subrange(n + 1, dst.len() as int);
    lemma_nul_from(src, 0);
    assert forall|j: int| 0 <= j <= n implies copied[j] == src[j] by {}
    lemma_nul_from_at(copied, 0, n);
    assert(cstr(copied) =~= cstr(src));
    assert forall|j: int| 0 <= j < n implies !scan_stops(copied, src, j) by {
        assert(copied[j] == src[j]);
    }
    assert(scan_stops(copied, src, n));
    lemma_scan_stop_from_at(copied, src, 0, n);
}

/// Comparing two strings gives the difference of the unsigned byte values (0 to 255) at
/// the first index `k` where they differ or one of them ends: so the result is negative
/// exactly when that byte of `s1` is the smaller, and zero exactly when both end there.
pub proof fn lemma_string_order_is_byte_order(s1: Seq<u8>, s2: Seq<u8>, k: int)
    requires
        0 <= k < s1.len(),
        k < s2.len(),
        forall|j: int| 0 <= j < k ==> s1[j] == s2[j] && s1[j] != 0,
        s1[k] == 0 || s2[k] == 0 || s1[k] != s2[k],
    ensures
        scan_in_bounds(s1, s2),
        cstr_diff(s1, s2) == (s1[k] as int) - (s2[k] as int),
        -255 <= cstr_diff(s1, s2) <= 255,
        cstr_diff(s1, s2) < 0 <==> s1[k] < s2[k],
        cstr_diff(s1, s2) == 0 <==> s1[k] == 0 && s2[k] == 0,
{
    assert forall|j: int| 0 <= j < k implies !scan_stops(s1, s2, j) by {}
    lemma_scan_stop_from_at(s1, s2, 0, k);
}

} // verus!
