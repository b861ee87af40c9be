use zero_kernel::bytes::{
    push_be32, push_be64, push_le32, push_le64, u16_le, u32_be, u32_le, u64_be, u64_le,
};
use zero_kernel::text::{
    digit, hex_len, push_dec, push_dec2, push_fill, push_hex, push_hex_padded, str_eq,
};

#[test]
fn numbers_are_written_as_std_writes_them() {
    for n in [0u64, 7, 10, 99, 100, 4095, 65_536, 1_000_000_007, u64::MAX] {
        let mut s = String::from("<");
        push_dec(&mut s, n);
        assert_eq!(s, format!("<{}", n));
        let mut s = String::new();
        push_hex(&mut s, n);
        assert_eq!(s, format!("{:x}", n));
        assert_eq!(hex_len(n), s.len());
        for w in [0usize, 2, 8, 16] {
            let mut s = String::new();
            push_hex_padded(&mut s, n, w);
            assert_eq!(s, format!("{:0w$x}", n, w = w));
        }
        let mut s = String::new();
        push_dec2(&mut s, n);
        assert_eq!(s, format!("{:02}", n));
        // What was written reads back.
        let mut s = String::new();
        push_dec(&mut s, n);
        assert_eq!(s.parse::<u64>(), Ok(n));
    }
    assert_eq!((digit(9), digit(10), digit(15)), ('9', 'a', 'f'));
}

#[test]
fn fill_and_comparison() {
    let mut s = String::from("x");
    push_fill(&mut s, '\u{2550}', 3);
    assert_eq!(s, "x\u{2550}\u{2550}\u{2550}");
    assert!(str_eq("a\u{e9}", "a\u{e9}"));
    assert!(!str_eq("ab", "abc"));
    assert!(!str_eq("ab", "ac"));
}

#[test]
fn byte_orders() {
    let b = [1u8, 2, 3, 4, 5, 6, 7, 8, 9];
    assert_eq!(u16_le(&b, 1), 0x0302);
    assert_eq!(u32_le(&b, 1), 0x0504_0302);
    assert_eq!(u32_be(&b, 1), 0x0203_0405);
    assert_eq!(u64_le(&b, 1), 0x0908_0706_0504_0302);
    assert_eq!(u64_be(&b, 1), 0x0203_0405_0607_0809);
    let mut v = Vec::new();
    push_le32(&mut v, 0x0403_0201);
    push_le64(&mut v, 5);
    push_be32(&mut v, 0x0102_0304);
    push_be64(&mut v, 6);
    assert_eq!(&v[..5], &[1, 2, 3, 4, 5]);
    assert_eq!(&v[12..16], &[1, 2, 3, 4]);
    assert_eq!(v[23], 6);
}
