use lib::common::{align_up, byte_diff, is_aligned, memcpy, memset, print, strcmp, strcpy};

#[test]
fn align_up_rounds_to_multiples() {
    assert_eq!(align_up(0, 4096), 0);
    assert_eq!(align_up(1, 4096), 4096);
    assert_eq!(align_up(4096, 4096), 4096);
    assert_eq!(align_up(4097, 4096), 8192);
    assert_eq!(align_up(2264, 512), 2560);
    assert_eq!(align_up(7, 1), 7);
    assert_eq!(align_up(10, 3), 12);
}

#[test]
fn is_aligned_checks_multiples() {
    assert!(is_aligned(0, 4096));
    assert!(is_aligned(8192, 4096));
    assert!(!is_aligned(8193, 4096));
    assert!(is_aligned(0, 0));
    assert!(!is_aligned(5, 0));
    assert!(is_aligned(9, 3));
}

#[test]
fn memset_fills_prefix() {
    let mut buf = [1u8; 8];
    memset(&mut buf, 0xab, 5);
    assert_eq!(buf, [0xab, 0xab, 0xab, 0xab, 0xab, 1, 1, 1]);
    memset(&mut buf, 7, 0);
    assert_eq!(buf[0], 0xab);
}

#[test]
fn memcpy_copies_prefix() {
    let mut dst = [0u8; 6];
    let src = [1u8, 2, 3, 4, 5, 6, 7];
    memcpy(&mut dst, &src, 4);
    assert_eq!(dst, [1, 2, 3, 4, 0, 0]);
}

#[test]
fn strcpy_copies_through_terminator() {
    let mut dst = [9u8; 8];
    strcpy(&mut dst, b"abc\0xyz");
    assert_eq!(dst, [b'a', b'b', b'c', 0, 9, 9, 9, 9]);
    assert_eq!(strcmp(&dst, b"abc\0"), 0);
}

#[test]
fn strcmp_orders_strings() {
    assert_eq!(strcmp(b"hello\0", b"hello\0"), 0);
    assert_eq!(strcmp(b"abc\0", b"abd\0"), -1);
    assert_eq!(strcmp(b"abd\0", b"abc\0"), 1);
    assert_eq!(strcmp(b"ab\0", b"abc\0"), -(b'c' as i32));
    assert_eq!(strcmp(b"abc\0", b"ab\0"), b'c' as i32);
    assert_eq!(strcmp(b"\0", b"\0"), 0);
    assert_eq!(strcmp(b"hello\0junk", b"hello\0"), 0);
    assert_eq!(strcmp(b"ustar ", b"ustar\0"), b' ' as i32);
}

#[test]
fn strcmp_is_antisymmetric_on_examples() {
    let pairs: [(&[u8], &[u8]); 3] = [(b"kernel\0", b"kern\0"), (b"a\0", b"b\0"), (b"x\0", b"x\0")];
    for (a, b) in pairs {
        assert_eq!(strcmp(a, b), -strcmp(b, a));
    }
}

#[test]
fn byte_diff_is_signed() {
    assert_eq!(byte_diff(0, 255), -255);
    assert_eq!(byte_diff(255, 0), 255);
}

#[test]
fn print_hands_out_utf8_bytes() {
    assert_eq!(print("hi\n"), b"hi\n".to_vec());
    assert_eq!(print("é"), vec![0xc3, 0xa9]);
    assert!(print("").is_empty());
}
