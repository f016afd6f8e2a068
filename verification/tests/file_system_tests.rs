use lib::file_system::{fs_init, try_fs_init, oct2int, File, FsError, TarHeader, DISK_MAX_SIZE, FILES_MAX};

fn header(name: &str, size: usize) -> Vec<u8> {
    let mut h = vec![0u8; 512];
    h[..name.len()].copy_from_slice(name.as_bytes());
    let sz = format!("{:011o}", size);
    h[124..135].copy_from_slice(sz.as_bytes());
    h[257..263].copy_from_slice(b"ustar\0");
    h[263..265].copy_from_slice(b"00");
    h
}

fn archive(files: &[(&str, &[u8])]) -> Vec<u8> {
    let mut disk = Vec::new();
    for (name, data) in files {
        disk.extend(header(name, data.len()));
        disk.extend_from_slice(data);
        while disk.len() % 512 != 0 {
            disk.push(0);
        }
    }
    disk.resize(DISK_MAX_SIZE, 0);
    disk
}

#[test]
fn oct2int_reads_leading_digits() {
    assert_eq!(oct2int(b"00000000014\0"), Some(12));
    assert_eq!(oct2int(b"777"), Some(511));
    assert_eq!(oct2int(b"12 34"), Some(10));
    assert_eq!(oct2int(b"8"), Some(0));
    assert_eq!(oct2int(b""), Some(0));
    assert_eq!(oct2int(b"17777777777"), Some(i32::MAX));
    assert_eq!(oct2int(b"20000000000"), None);
}

#[test]
fn file_new_is_empty() {
    let f = File::new();
    assert!(!f.in_use);
    assert_eq!(f.name.len(), 100);
    assert_eq!(f.data.len(), 1024);
    assert_eq!(f.size, 0);
}

#[test]
fn tar_header_parse_splits_fields() {
    let h = header("hello.txt", 12);
    let t = TarHeader::parse(&h);
    assert_eq!(&t.name[..9], b"hello.txt");
    assert_eq!(t.size, b"00000000014\0".to_vec());
    assert_eq!(t.magic, b"ustar\0".to_vec());
    assert_eq!(t.version, b"00".to_vec());
    assert_eq!(t.padding.len(), 12);
    assert_eq!(t.prefix.len(), 155);
}

#[test]
fn fs_init_reads_two_files() {
    let disk = archive(&[("hello.txt", b"Can you see me? Ah, there you are!\n"), ("meow.txt", b"meow\n")]);
    let files = fs_init(&disk).unwrap();
    assert_eq!(files.len(), FILES_MAX);
    assert!(files[0].in_use);
    assert_eq!(&files[0].name[..10], b"hello.txt\0");
    assert_eq!(files[0].size, 35);
    assert_eq!(&files[0].data[..35], b"Can you see me? Ah, there you are!\n");
    assert!(files[0].data[35..].iter().all(|&b| b == 0));
    assert!(files[1].in_use);
    assert_eq!(&files[1].name[..9], b"meow.txt\0");
    assert_eq!(files[1].size, 5);
    assert_eq!(&files[1].data[..5], b"meow\n");
}

#[test]
fn fs_init_stops_at_empty_name() {
    let disk = archive(&[("only.txt", b"x")]);
    let files = fs_init(&disk).unwrap();
    assert!(files[0].in_use);
    assert!(!files[1].in_use);
    assert_eq!(files[1].size, 0);
}

#[test]
fn fs_init_empty_disk() {
    let disk = vec![0u8; DISK_MAX_SIZE];
    let files = fs_init(&disk).unwrap();
    assert!(files.iter().all(|f| !f.in_use));
}

#[test]
fn fs_init_rejects_bad_magic() {
    let mut disk = archive(&[("a", b"1")]);
    disk[257..263].copy_from_slice(b"ustar ");
    assert!(matches!(try_fs_init(&disk), Err(FsError::InvalidMagic(0))));
}

#[test]
fn fs_init_rejects_oversized_files() {
    let mut disk = archive(&[("a", b"1")]);
    disk[124..135].copy_from_slice(b"00000002001");
    assert!(matches!(fs_init(&disk), Err(FsError::FileTooLarge)));
    disk[124..136].copy_from_slice(b"777777777777");
    assert!(matches!(fs_init(&disk), Err(FsError::InvalidSize)));
}

#[test]
fn fs_init_rejects_unterminated_name() {
    let mut disk = archive(&[("a", b"1")]);
    for b in disk[..100].iter_mut() {
        *b = b'n';
    }
    assert!(matches!(fs_init(&disk), Err(FsError::NameUnterminated)));
}

#[test]
fn fs_init_rejects_truncated_images() {
    let disk = archive(&[("a", b"1")]);
    assert!(matches!(fs_init(&disk[..100]), Err(FsError::Truncated)));
    let big = vec![b'z'; 1000];
    let mut disk = archive(&[("a", b"1")]);
    disk.truncate(1024);
    disk.extend(header("b", big.len()));
    disk.extend(&big[..500]);
    assert!(matches!(fs_init(&disk), Err(FsError::Truncated)));
}

#[test]
fn fs_init_bad_magic_reports_header_offset() {
    let mut disk = archive(&[("a", b"1"), ("b", b"2")]);
    disk[1024 + 257..1024 + 263].copy_from_slice(b"tar\0\0\0");
    assert!(matches!(try_fs_init(&disk), Err(FsError::InvalidMagic(1024))));
}
