use vstd::prelude::*;

use crate::common::{
    align_up, align_up_spec, cstr, cstr_diff, cstr_len, is_cstr, lemma_align_up, lemma_nul_from,
    lemma_scan_stop_from, scan_in_bounds, scan_stop, scan_stops, strcmp, strcpy, memcpy, zero_bytes,
};
use crate::page_alloc::zeros;
use crate::virtio::SECTOR_SIZE;

verus! {

/// Number of files the file system holds.
pub const FILES_MAX: usize = 2;

/// Size of the disk image the file system is read from: two file records, rounded up to
/// whole sectors.
pub const DISK_MAX_SIZE: usize = 2560;

/// Size of a tar header, in bytes.
pub const TAR_HEADER_SIZE: usize = 512;

/// Capacity of a file's name buffer.
pub const FILE_NAME_SIZE: usize = 100;

/// Capacity of a file's data buffer.
pub const FILE_DATA_SIZE: usize = 1024;

/// A ustar header: a 512-byte block, split into its fields.
pub struct TarHeader {
    pub name: Vec<u8>,
    pub mode: Vec<u8>,
    pub uid: Vec<u8>,
    pub gid: Vec<u8>,
    pub size: Vec<u8>,
    pub mtime: Vec<u8>,
    pub checksum: Vec<u8>,
    pub type_: u8,
    pub linkname: Vec<u8>,
    pub magic: Vec<u8>,
    pub version: Vec<u8>,
    pub uname: Vec<u8>,
    pub gname: Vec<u8>,
    pub devmajor: Vec<u8>,
    pub devminor: Vec<u8>,
    pub prefix: Vec<u8>,
    pub padding: Vec<u8>,
}

/// A file of the in-memory file system.
pub struct File {
    /// The slot holds a file.
    pub in_use: bool,
    /// NUL-terminated file name.
    pub name: Vec<u8>,
    /// Contents; the first `size` bytes are the file's.
    pub data: Vec<u8>,
    /// Length of the file, in bytes.
    pub size: usize,
}

/// Copy of `len` bytes of `src` starting at `start`.
fn field(src: &[u8], start: usize, len: usize) -> (r: Vec<u8>)
    requires
        start + len <= src@.len(),
    ensures
        r@ == src@.subrange(start as int, start + len),
{
    let mut out: Vec<u8> = Vec::new();
    let src_len = src.len();
    let mut k: usize = 0;
    while k < len
        invariant
            k <= len,
            src@.len() == src_len,
            start + len <= src@.len(),
            out@ == src@.subrange(start as int, start + k),
        decreases len - k,
    {
        out.push(src[start + k]);
        k = k + 1;
        assert(out@ =~= src@.subrange(start as int, start + k));
    }
    out
}

impl TarHeader {
    /// The header stored in the first 512 bytes of `block`, field by field.
    pub fn parse(block: &[u8]) -> (r: Self)
        requires
            block@.len() >= TAR_HEADER_SIZE,
        ensures
            r.name@ == block@.subrange(0, 100),
            r.mode@ == block@.subrange(100, 108),
            r.uid@ == block@.subrange(108, 116),
            r.gid@ == block@.subrange(116, 124),
            r.size@ == block@.subrange(124, 136),
            r.mtime@ == block@.subrange(136, 148),
            r.checksum@ == block@.subrange(148, 156),
            r.type_ == block@[156],
            r.linkname@ == block@.subrange(157, 257),
            r.magic@ == block@.subrange(257, 263),
            r.version@ == block@.subrange(263, 265),
            r.uname@ == block@.subrange(265, 297),
            r.gname@ == block@.subrange(297, 329),
            r.devmajor@ == block@.subrange(329, 337),
            r.devminor@ == block@.subrange(337, 345),
            r.prefix@ == block@.subrange(345, 500),
            r.padding@ == block@.subrange(500, 512),
    {
        TarHeader {
            name: field(block, 0, 100),
            mode: field(block, 100, 8),
            uid: field(block, 108, 8),
            gid: field(block, 116, 8),
            size: field(block, 124, 12),
            mtime: field(block, 136, 12),
            checksum: field(block, 148, 8),
            type_: block[156],
            linkname: field(block, 157, 100),
            magic: field(block, 257, 6),
            version: field(block, 263, 2),
            uname: field(block, 265, 32),
            gname: field(block, 297, 32),
            devmajor: field(block, 329, 8),
            devminor: field(block, 337, 8),
            prefix: field(block, 345, 155),
            padding: field(block, 500, 12),
        }
    }
}

impl File {
    /// An unused file slot, all zero.
    pub fn new() -> (r: Self)
        ensures
            !r.in_use,
            r.name@ == zeros(FILE_NAME_SIZE as nat),
            r.data@ == zeros(FILE_DATA_SIZE as nat),
            r.size == 0,
    {
        File { in_use: false, name: zero_bytes(FILE_NAME_SIZE), data: zero_bytes(FILE_DATA_SIZE), size: 0 }
    }
}


/// The byte is an octal digit.
pub open spec fn is_octal_digit(c: u8) -> bool {
    48 <= c <= 55
}

/// Number of octal digits at the start of `s`, from index `i` on.
pub open spec fn octal_digits_from(s: Seq<u8>, i: int) -> int
    decreases s.len() - i,
{
    if i < 0 || i >= s.len() || !is_octal_digit(s[i]) {
        i
    } else {
        octal_digits_from(s, i + 1)
    }
}

/// Value of the first `n` bytes of `s` read as octal digits.
pub open spec fn octal_value(s: Seq<u8>, n: int) -> int
    decreases n,
{
    if n <= 0 {
        0
    } else {
        octal_value(s, n - 1) * 8 + (s[n - 1] - 48)
    }
}

/// Value of the octal number at the start of `s`: its leading octal digits, up to the first
/// byte that is not one.
pub open spec fn octal_prefix_value(s: Seq<u8>) -> int {
    octal_value(s, octal_digits_from(s, 0))
}

proof fn lemma_octal_digits_from(s: Seq<u8>, i: int)
    requires
        0 <= i <= s.len(),
    ensures
        i <= octal_digits_from(s, i) <= s.len(),
        octal_digits_from(s, i) < s.len() ==> !is_octal_digit(s[octal_digits_from(s, i)]),
        forall|j: int| i <= j < octal_digits_from(s, i) ==> is_octal_digit(s[j]),
    decreases s.len() - i,
{
    if i < s.len() && is_octal_digit(s[i]) {
        lemma_octal_digits_from(s, i + 1);
    }
}

proof fn lemma_octal_value_monotone(s: Seq<u8>, k: int, n: int)
    requires
        0 <= k <= n <= s.len(),
        forall|j: int| 0 <= j < n ==> is_octal_digit(s[j]),
    ensures
        0 <= octal_value(s, k) <= octal_value(s, n),
    decreases n - k,
{
    if k < n {
        lemma_octal_value_monotone(s, k, n - 1);
        lemma_octal_value_nonneg(s, n - 1);
    } else {
        lemma_octal_value_nonneg(s, n);
    }
}

proof fn lemma_octal_value_nonneg(s: Seq<u8>, n: int)
    requires
        0 <= n <= s.len(),
        forall|j: int| 0 <= j < n ==> is_octal_digit(s[j]),
    ensures
        0 <= octal_value(s, n),
    decreases n,
{
    if n > 0 {
        lemma_octal_value_nonneg(s, n - 1);
    }
}

/// Reads the octal number at the start of `oct`: its leading octal digits, up to the first
/// byte that is not one. `None` when the value does not fit in an `i32`.
pub fn oct2int(oct: &[u8]) -> (r: Option<i32>)
    ensures
        r is Some <==> octal_prefix_value(oct@) <= i32::MAX,
        r is Some ==> r->0 == octal_prefix_value(oct@),
{
    proof {
        lemma_octal_digits_from(oct@, 0);
    }
    let ghost n = octal_digits_from(oct@, 0);
    let mut dec: i64 = 0;
    let mut i: usize = 0;
    while i < oct.len()
        invariant
            0 <= i <= n,
            n == octal_digits_from(oct@, 0),
            n <= oct@.len(),
            n < oct@.len() ==> !is_octal_digit(oct@[n]),
            forall|j: int| 0 <= j < n ==> is_octal_digit(oct@[j]),
            dec == octal_value(oct@, i as int),
            0 <= dec <= i32::MAX,
        ensures
            i == n,
            dec == octal_value(oct@, i as int),
            0 <= dec <= i32::MAX,
        decreases oct@.len() - i,
    {
        let ch = oct[i];
        if ch < 48 || ch > 55 {
            break;
        }
        proof {
            lemma_octal_value_monotone(oct@, i + 1, n);
        }
        dec = dec * 8 + (ch - 48) as i64;
        i = i + 1;
        if dec > i32::MAX as i64 {
            proof {
                lemma_octal_value_monotone(oct@, i as int, n);
            }
            return None;
        }
    }
    Some(dec as i32)
}


/// Why a disk image is not a valid file system image; the kernel halts on it.
#[derive(Debug, Clone, Copy, PartialEq, Eq, Structural)]
pub enum FsError {
    /// The magic of the header at this offset of the disk image is not "ustar".
    InvalidMagic(usize),
    /// A header's size field does not fit in an `i32`.
    InvalidSize,
    /// A header's name has no terminating NUL within its 100 bytes.
    NameUnterminated,
    /// A file is larger than a file's data buffer.
    FileTooLarge,
    /// A header or a file's data runs past the end of the disk image.
    Truncated,
}

/// The magic of a ustar header, NUL-terminated.
pub open spec fn ustar_magic() -> Seq<u8> {
    seq![117u8, 115u8, 116u8, 97u8, 114u8, 0u8]
}

/// The name field of the header at `off`.
pub open spec fn header_name(disk: Seq<u8>, off: int) -> Seq<u8> {
    disk.subrange(off, off + 100)
}

/// The magic field of the header at `off`.
pub open spec fn header_magic(disk: Seq<u8>, off: int) -> Seq<u8> {
    disk.subrange(off + 257, off + 263)
}

/// The file size that the header at `off` gives.
pub open spec fn header_size(disk: Seq<u8>, off: int) -> int {
    octal_prefix_value(disk.subrange(off + 124, off + 136))
}

/// Offsets of the headers of the files in the archive in `disk`, from the `i`-th header,
/// found at `off`, on: headers are read until `FILES_MAX` files, or a header whose name is
/// empty; each file's data follows its header and is padded to whole sectors.
pub open spec fn tar_files(disk: Seq<u8>, off: int, i: int) -> Result<Seq<int>, FsError>
    decreases FILES_MAX - i,
{
    if i < 0 || i >= FILES_MAX {
        Ok(Seq::empty())
    } else if off + TAR_HEADER_SIZE > disk.len() {
        Err(FsError::Truncated)
    } else if disk[off] == 0 {
        Ok(Seq::empty())
    } else if cstr_diff(header_magic(disk, off), ustar_magic()) != 0 {
        Err(FsError::InvalidMagic(off as usize))
    } else if header_size(disk, off) > i32::MAX {
        Err(FsError::InvalidSize)
    } else if !is_cstr(header_name(disk, off)) {
        Err(FsError::NameUnterminated)
    } else if header_size(disk, off) > FILE_DATA_SIZE {
        Err(FsError::FileTooLarge)
    } else if off + TAR_HEADER_SIZE + header_size(disk, off) > disk.len() {
        Err(FsError::Truncated)
    } else {
        match tar_files(
            disk,
            off + align_up_spec(TAR_HEADER_SIZE + header_size(disk, off), SECTOR_SIZE as int),
            i + 1,
        ) {
            Ok(rest) => Ok(seq![off] + rest),
            Err(e) => Err(e),
        }
    }
}

/// `f` is the file whose header is at `off` in `disk`.
pub open spec fn file_from_header(f: File, disk: Seq<u8>, off: int) -> bool {
    let name = header_name(disk, off);
    let n = cstr_len(name);
    let size = header_size(disk, off);
    &&& f.in_use
    &&& f.size == size
    &&& f.name@ == name.subrange(0, n + 1) + zeros((FILE_NAME_SIZE - n - 1) as nat)
    &&& f.data@ == disk.subrange(off + TAR_HEADER_SIZE, off + TAR_HEADER_SIZE + size) + zeros(
        (FILE_DATA_SIZE - size) as nat,
    )
}

/// `f` is an unused file slot.
pub open spec fn empty_file(f: File) -> bool {
    &&& !f.in_use
    &&& f.name@ == zeros(FILE_NAME_SIZE as nat)
    &&& f.data@ == zeros(FILE_DATA_SIZE as nat)
    &&& f.size == 0
}

/// Index of the first NUL byte of `s`, if it has one.
pub fn find_nul(s: &[u8]) -> (r: Option<usize>)
    ensures
        r is Some <==> is_cstr(s@),
        r is Some ==> r->0 == cstr_len(s@),
{
    proof {
        lemma_nul_from(s@, 0);
    }
    let mut i: usize = 0;
    while i < s.len()
        invariant
            i <= s@.len(),
            i <= cstr_len(s@),
            cstr_len(s@) <= s@.len(),
            cstr_len(s@) < s@.len() ==> s@[cstr_len(s@)] == 0,
            forall|j: int| 0 <= j < cstr_len(s@) ==> s@[j] != 0,
        decreases s@.len() - i,
    {
        if s[i] == 0 {
            return Some(i);
        }
        i = i + 1;
    }
    None
}

proof fn lemma_magic_in_bounds(m: Seq<u8>)
    requires
        m.len() == 6,
    ensures
        scan_in_bounds(m, ustar_magic()),
{
    lemma_scan_stop_from(m, ustar_magic(), 0);
    if scan_stop(m, ustar_magic()) > 5 {
        assert(scan_stops(m, ustar_magic(), 5));
    }
}

/// The magic field `field` holds "ustar", compared as C strings with `magic`.
fn has_ustar_magic(field: &[u8], magic: &[u8]) -> (r: bool)
    requires
        field@.len() == 6,
        magic@ == ustar_magic(),
    ensures
        r == (cstr_diff(field@, ustar_magic()) == 0),
{
    proof {
        lemma_magic_in_bounds(field@);
    }
    strcmp(field, magic) == 0
}

/// Reads the file system from the disk image `disk`, a ustar archive: up to `FILES_MAX`
/// files, each with its name and data. Slots after the last file stay unused.
///
/// Every header read must carry the ustar magic: on any other the kernel halts. A disk
/// that is otherwise malformed (a size that does not fit, a name without its NUL, a file
/// too large for its slot, or an archive that runs past the disk) is rejected with the
/// matching error.
pub fn fs_init(disk: &[u8]) -> (r: Result<Vec<File>, FsError>)
    requires
        !(tar_files(disk@, 0, 0) matches Err(FsError::InvalidMagic(_))),
    ensures
        match tar_files(disk@, 0, 0) {
            Ok(offs) => r is Ok && r->Ok_0@.len() == FILES_MAX && (forall|j: int|
                0 <= j < offs.len() ==> file_from_header(#[trigger] r->Ok_0@[j], disk@, offs[j]))
                && (forall|j: int| offs.len() <= j < FILES_MAX ==> empty_file(#[trigger] r->Ok_0@[j]))
                && archive_read(disk@, offs, r->Ok_0@),
            Err(e) => r is Err && r->Err_0 == e,
        },
        !(r matches Err(FsError::InvalidMagic(_))),
{
    try_fs_init(disk)
}

/// `fs_init`, failing with `InvalidMagic` instead where a header read lacks the ustar
/// magic.
pub fn try_fs_init(disk: &[u8]) -> (r: Result<Vec<File>, FsError>)
    ensures
        match tar_files(disk@, 0, 0) {
            Ok(offs) => r is Ok && r->Ok_0@.len() == FILES_MAX && (forall|j: int|
                0 <= j < offs.len() ==> file_from_header(#[trigger] r->Ok_0@[j], disk@, offs[j]))
                && (forall|j: int| offs.len() <= j < FILES_MAX ==> empty_file(#[trigger] r->Ok_0@[j]))
                && archive_read(disk@, offs, r->Ok_0@),
            Err(e) => r is Err && r->Err_0 == e,
        },
{
    let mut magic: Vec<u8> = Vec::new();
    magic.push(117u8);
    magic.push(115u8);
    magic.push(116u8);
    magic.push(97u8);
    magic.push(114u8);
    magic.push(0u8);
    assert(magic@ =~= ustar_magic());
    let mut files: Vec<File> = Vec::new();
    files.push(File::new());
    files.push(File::new());
    let len = disk.len();
    let mut off: usize = 0;
    let mut i: usize = 0;
    let ghost mut found: Seq<int> = Seq::empty();
    while i < FILES_MAX
        invariant
            len == disk@.len(),
            magic@ == ustar_magic(),
            i <= FILES_MAX,
            found.len() == i,
            files@.len() == FILES_MAX,
            tar_files(disk@, 0, 0) == match tar_files(disk@, off as int, i as int) {
                Ok(rest) => Ok(found + rest),
                Err(e) => Err(e),
            },
            forall|j: int| 0 <= j < i ==> file_from_header(#[trigger] files@[j], disk@, found[j]),
            forall|j: int| i <= j < FILES_MAX ==> empty_file(#[trigger] files@[j]),
        ensures
            match tar_files(disk@, 0, 0) {
                Ok(offs) => offs == found,
                Err(e) => false,
            },
            files@.len() == FILES_MAX,
            forall|j: int| 0 <= j < found.len() ==> file_from_header(#[trigger] files@[j], disk@, found[j]),
            forall|j: int| found.len() <= j < FILES_MAX ==> empty_file(#[trigger] files@[j]),
        decreases FILES_MAX - i,
    {
        if off > len || len - off < TAR_HEADER_SIZE {
            return Err(FsError::Truncated);
        }
        let header = &disk[off..off + TAR_HEADER_SIZE];
        if header[0] == 0 {
            assert(found + Seq::<int>::empty() =~= found);
            break;
        }
        proof {
            assert(header@.subrange(257, 263) =~= header_magic(disk@, off as int));
        }
        if !has_ustar_magic(&header[257..263], magic.as_slice()) {
            return Err(FsError::InvalidMagic(off));
        }
        proof {
            assert(header@.subrange(124, 136) =~= disk@.subrange(off + 124, off + 136));
        }
        let filesz = match oct2int(&header[124..136]) {
            Some(v) => v,
            None => {
                return Err(FsError::InvalidSize);
            },
        };
        let name = &header[0..FILE_NAME_SIZE];
        proof {
            assert(name@ =~= header_name(disk@, off as int));
        }
        let n = match find_nul(name) {
            Some(n) => n,
            None => {
                return Err(FsError::NameUnterminated);
            },
        };
        proof {
            lemma_octal_digits_from(disk@.subrange(off + 124, off + 136), 0);
            lemma_octal_value_nonneg(
                disk@.subrange(off + 124, off + 136),
                octal_digits_from(disk@.subrange(off + 124, off + 136), 0),
            );
        }
        let size = filesz as usize;
        if size > FILE_DATA_SIZE {
            return Err(FsError::FileTooLarge);
        }
        if len - off - TAR_HEADER_SIZE < size {
            return Err(FsError::Truncated);
        }
        let mut f = File::new();
        f.in_use = true;
        strcpy(f.name.as_mut_slice(), name);
        let data = &disk[off + TAR_HEADER_SIZE..off + TAR_HEADER_SIZE + size];
        memcpy(f.data.as_mut_slice(), data, size);
        f.size = size;
        proof {
            assert(f.name@ =~= name@.subrange(0, n + 1) + zeros((FILE_NAME_SIZE - n - 1) as nat));
            assert(f.data@ =~= disk@.subrange(
                off + TAR_HEADER_SIZE,
                off + TAR_HEADER_SIZE + size,
            ) + zeros((FILE_DATA_SIZE - size) as nat));
            assert(file_from_header(f, disk@, off as int));
        }
        files.set(i, f);
        let step = align_up(TAR_HEADER_SIZE + size, SECTOR_SIZE);
        let next = off.saturating_add(step);
        proof {
            lemma_align_up((TAR_HEADER_SIZE + size) as int, SECTOR_SIZE as int);
            assert(header@[0] == disk@[off as int]);
            assert(header_size(disk@, off as int) == size);
            let rest = tar_files(disk@, off + step, i + 1);
            assert(tar_files(disk@, off as int, i as int) == match rest {
                Ok(r) => Ok(seq![off as int] + r),
                Err(e) => Err(e),
            });
            assert(tar_files(disk@, next as int, i + 1) == rest);
            match rest {
                Ok(r) => {
                    assert(found.push(off as int) + r =~= found + (seq![off as int] + r));
                },
                Err(e) => {},
            }
            found = found.push(off as int);
        }
        off = next;
        i = i + 1;
    }
    proof {
        lemma_archive_read(disk@, found, files@);
    }
    Ok(files)
}

/// The header at `off` of `disk` is one that is read as a file: it lies inside the disk, its
/// name is non-empty and NUL-terminated, its magic is "ustar" with its NUL, and its file's
/// data, at most `FILE_DATA_SIZE` bytes, follows it inside the disk.
pub open spec fn header_ok(disk: Seq<u8>, off: int) -> bool {
    &&& 0 <= off
    &&& off + TAR_HEADER_SIZE <= disk.len()
    &&& disk[off] != 0
    &&& header_magic(disk, off) == ustar_magic()
    &&& is_cstr(header_name(disk, off))
    &&& header_size(disk, off) <= FILE_DATA_SIZE
    &&& off + TAR_HEADER_SIZE + header_size(disk, off) <= disk.len()
}

/// Where the header after the one at `off` starts: after this header's 512 bytes and its
/// file's data, rounded up to a whole number of 512-byte sectors.
pub open spec fn next_header(disk: Seq<u8>, off: int) -> int {
    off + 512 + 512 * ((header_size(disk, off) + 511) / 512)
}

proof fn lemma_header_size_nonneg(disk: Seq<u8>, off: int)
    requires
        0 <= off,
        off + TAR_HEADER_SIZE <= disk.len(),
    ensures
        header_size(disk, off) >= 0,
{
    let f = disk.subrange(off + 124, off + 136);
    lemma_octal_digits_from(f, 0);
    lemma_octal_value_nonneg(f, octal_digits_from(f, 0));
}

/// A well-formed header is read as a file, and the archive goes on at the next whole
/// sector after its data: the headers read from `off` on are `off` followed by those read
/// from `next_header(disk, off)`.
pub proof fn lemma_tar_next_header(disk: Seq<u8>, off: int, i: int)
    requires
        0 <= i < FILES_MAX,
        header_ok(disk, off),
    ensures
        tar_files(disk, off, i) == match tar_files(
            disk,
            off + 512 + 512 * ((header_size(disk, off) + 511) / 512),
            i + 1,
        ) {
            Ok(rest) => Ok(seq![off] + rest),
            Err(e) => Err(e),
        },
{
    lemma_header_size_nonneg(disk, off);
    let size = header_size(disk, off);
    lemma_magic_in_bounds(header_magic(disk, off));
    crate::common::lemma_strcmp_zero_iff_equal(header_magic(disk, off), ustar_magic());
    assert(cstr(header_magic(disk, off)) == cstr(ustar_magic()));
    assert(align_up_spec(TAR_HEADER_SIZE + size, 512) == 512 + 512 * ((size + 511)
        / 512)) by (nonlinear_arith)
        requires
            size >= 0,
    ;
}

/// An archive of two well-formed files is read as those two files, wherever the first
/// file's data ends: the second header is the one at the next whole sector after it.
pub proof fn lemma_tar_two_files(disk: Seq<u8>)
    requires
        header_ok(disk, 0),
        header_ok(disk, 512 + 512 * ((header_size(disk, 0) + 511) / 512)),
    ensures
        tar_files(disk, 0, 0) == Ok::<Seq<int>, FsError>(
            seq![0, 512 + 512 * ((header_size(disk, 0) + 511) / 512)],
        ),
{
    let n1 = next_header(disk, 0);
    lemma_tar_next_header(disk, 0, 0);
    lemma_tar_next_header(disk, n1, 1);
    assert(tar_files(disk, next_header(disk, n1), 2) == Ok::<Seq<int>, FsError>(Seq::empty()));
    assert(seq![0int] + (seq![n1] + Seq::<int>::empty()) =~= seq![0, n1]);
}

/// The headers of the files read: the first at offset 0, each next one at `next_header`
/// of the one before, and each well formed.
pub proof fn lemma_tar_offsets(disk: Seq<u8>, off: int, i: int)
    requires
        0 <= i <= FILES_MAX,
        0 <= off,
    ensures
        tar_files(disk, off, i) matches Ok(offs) ==> {
            &&& offs.len() <= FILES_MAX - i
            &&& offs.len() > 0 ==> offs[0] == off
            &&& forall|j: int| 0 <= j < offs.len() ==> header_ok(disk, #[trigger] offs[j])
            &&& forall|j: int|
                0 < j < offs.len() ==> #[trigger] offs[j] == next_header(disk, offs[j - 1])
        },
    decreases FILES_MAX - i,
{
    if i < FILES_MAX && off + TAR_HEADER_SIZE <= disk.len() && disk[off] != 0 {
        if tar_files(disk, off, i) is Ok {
            lemma_header_size_nonneg(disk, off);
            let size = header_size(disk, off);
            lemma_magic_in_bounds(header_magic(disk, off));
            crate::common::lemma_strcmp_zero_iff_equal(header_magic(disk, off), ustar_magic());
            crate::common::lemma_nul_from(header_magic(disk, off), 0);
            crate::common::lemma_nul_from(ustar_magic(), 0);
            assert(cstr(ustar_magic()) =~= ustar_magic().subrange(0, 5)) by {
                crate::common::lemma_nul_from_at(ustar_magic(), 0, 5);
            }
            assert(header_magic(disk, off) =~= ustar_magic()) by {
                let m = header_magic(disk, off);
                let n = crate::common::cstr_len(m);
                assert(cstr(m).len() == 5);
                assert(n == 5);
                assert forall|k: int| 0 <= k < 6 implies m[k] == ustar_magic()[k] by {
                    if k < 5 {
                        assert(cstr(m)[k] == m[k]);
                    }
                }
            }
            assert(header_ok(disk, off));
            lemma_tar_next_header(disk, off, i);
            let n = next_header(disk, off);
            lemma_tar_offsets(disk, n, i + 1);
            let rest = tar_files(disk, n, i + 1)->Ok_0;
            let offs = seq![off] + rest;
            assert forall|j: int| 0 <= j < offs.len() implies header_ok(disk, #[trigger] offs[j]) by {
                if j > 0 {
                    assert(offs[j] == rest[j - 1]);
                }
            }
            assert forall|j: int| 0 < j < offs.len() implies #[trigger] offs[j] == next_header(
                disk,
                offs[j - 1],
            ) by {
                assert(offs[j] == rest[j - 1]);
                if j > 1 {
                    assert(offs[j - 1] == rest[j - 2]);
                }
            }
        }
    }
}

/// A file read from the header at `off` holds its whole size of data: its size is the
/// header's, its first `size` data bytes are the disk bytes right after the header, the rest
/// of its data buffer is zero, and its name is the header's name up to and including its NUL.
pub proof fn lemma_file_holds_its_data(f: File, disk: Seq<u8>, off: int)
    requires
        header_ok(disk, off),
        file_from_header(f, disk, off),
    ensures
        f.in_use,
        f.size == header_size(disk, off),
        f.data@.len() == FILE_DATA_SIZE,
        forall|k: int| 0 <= k < f.size ==> #[trigger] f.data@[k] == disk[off + TAR_HEADER_SIZE + k],
        forall|k: int| f.size <= k < FILE_DATA_SIZE ==> #[trigger] f.data@[k] == 0,
        forall|k: int|
            0 <= k <= cstr_len(header_name(disk, off)) ==> #[trigger] f.name@[k] == disk[off + k],
{
    lemma_header_size_nonneg(disk, off);
    crate::common::lemma_nul_from(header_name(disk, off), 0);
    let size = header_size(disk, off);
    assert forall|k: int| 0 <= k < f.size implies #[trigger] f.data@[k] == disk[off + TAR_HEADER_SIZE + k] by {
        assert(f.data@[k] == disk.subrange(off + TAR_HEADER_SIZE, off + TAR_HEADER_SIZE + size)[k]);
    }
    assert forall|k: int| 0 <= k <= cstr_len(header_name(disk, off)) implies #[trigger] f.name@[k]
        == disk[off + k] by {
        let n = cstr_len(header_name(disk, off));
        assert(f.name@[k] == header_name(disk, off).subrange(0, n + 1)[k]);
    }
}

/// The files `files` were read from the headers at `offs` in `disk`: the first header is at
/// offset 0 and each next one at the next whole sector after the previous file's data;
/// each header is well formed; and each file has its header's size and holds exactly that
/// many bytes of data, those right after its header.
pub open spec fn archive_read(disk: Seq<u8>, offs: Seq<int>, files: Seq<File>) -> bool {
    &&& offs.len() <= FILES_MAX
    &&& offs.len() > 0 ==> offs[0] == 0
    &&& forall|j: int| 0 < j < offs.len() ==> #[trigger] offs[j] == next_header(disk, offs[j - 1])
    &&& forall|j: int| 0 <= j < offs.len() ==> header_ok(disk, #[trigger] offs[j])
    &&& forall|j: int|
        0 <= j < offs.len() ==> (#[trigger] files[j]).size == header_size(disk, offs[j])
    &&& forall|j: int, k: int|
        0 <= j < offs.len() && 0 <= k < files[j].size ==> #[trigger] files[j].data@[k] == disk[offs[j]
            + TAR_HEADER_SIZE + k]
}

/// The archive read by following the headers holds each file's whole data.
proof fn lemma_archive_read(disk: Seq<u8>, offs: Seq<int>, files: Seq<File>)
    requires
        tar_files(disk, 0, 0) == Ok::<Seq<int>, FsError>(offs),
        files.len() == FILES_MAX,
        forall|j: int| 0 <= j < offs.len() ==> file_from_header(#[trigger] files[j], disk, offs[j]),
    ensures
        archive_read(disk, offs, files),
{
    lemma_tar_offsets(disk, 0, 0);
    assert forall|j: int| 0 <= j < offs.len() implies (#[trigger] files[j]).size == header_size(
        disk,
        offs[j],
    ) && forall|k: int| 0 <= k < files[j].size ==> #[trigger] files[j].data@[k] == disk[offs[j]
        + TAR_HEADER_SIZE + k] by {
        assert(header_ok(disk, offs[j]));
        lemma_file_holds_its_data(files[j], disk, offs[j]);
    }
}

} // verus!
