/// Reads an unsigned integer; base zero is sixteen behind `0x` and ten elsewhere.
fn parse(units: &[u16], base: u32) -> Option<u32> {
    let text = String::from_utf16(units).ok()?;
    match base {
        0 => match text.strip_prefix("0x") {
            Some(digits) => u32::from_str_radix(digits, 16).ok(),
            None => text.parse().ok(),
        },
        _ => u32::from_str_radix(&text, base).ok(),
    }
}

use nt_ntdll::integer::{char_to_integer, enlarged_integer_multiply, enlarged_unsigned_divide, enlarged_unsigned_multiply, extended_integer_multiply, extended_large_integer_divide, extended_magic_divide, int64_to_unicode, integer_to_char, large_integer_add, large_integer_arithmetic_shift, large_integer_divide, large_integer_shift_left, large_integer_shift_right, large_integer_subtract, large_integer_to_char, ulong_byte_swap, ulonglong_byte_swap, ushort_byte_swap};

fn u(s: &str) -> Vec<u16> {
    s.encode_utf16().collect()
}

#[test]
fn char_roundtrip() {
    assert_eq!(integer_to_char(255, 16).unwrap(), b"FF");
    assert_eq!(
        large_integer_to_char(0x1234_5678_9ABC_DEF0, 16).unwrap(),
        b"123456789ABCDEF0"
    );
    assert_eq!(char_to_integer(b"255", 10, parse), Some(255));
    assert_eq!(char_to_integer(b"0xFF", 0, parse), Some(255));
    assert!(integer_to_char(1, 7).is_none());
    assert!(integer_to_char(1, 3).is_none());
    assert!(large_integer_to_char(1, 12).is_none());
}

#[test]
fn int64_format() {
    assert_eq!(int64_to_unicode(0, 10).unwrap(), u("0"));
    assert_eq!(
        int64_to_unicode(0xDEAD_BEEF_CAFE, 16).unwrap(),
        u("DEADBEEFCAFE")
    );
    assert_eq!(
        int64_to_unicode(1_000_000_000_000, 10).unwrap(),
        u("1000000000000")
    );
    assert!(int64_to_unicode(5, 3).is_none());
}

#[test]
fn large_integer_ops() {
    assert_eq!(large_integer_add(5, -3), 2);
    assert_eq!(large_integer_subtract(5, -3), 8);
    assert_eq!(large_integer_divide(100, 7), Some((14, 2)));
    assert_eq!(large_integer_divide(1, 0), None);
    assert_eq!(large_integer_shift_left(1, 65), 2);
    assert_eq!(large_integer_shift_right(-1, 1), 0x7fff_ffff_ffff_ffff);
    assert_eq!(large_integer_arithmetic_shift(-2, 1), -1);
    assert_eq!(enlarged_integer_multiply(-3, 7), -21);
    assert_eq!(enlarged_unsigned_multiply(0xFFFF_FFFF, 2), 0x1_FFFF_FFFE);
    assert_eq!(enlarged_unsigned_divide(100, 7), Some((14, 2)));
    assert_eq!(enlarged_unsigned_divide(1, 0), None);
    assert_eq!(extended_integer_multiply(-3, 7), -21);
    assert_eq!(extended_large_integer_divide(100, 7), Some((14, 2)));
    assert_eq!(
        extended_large_integer_divide(-100, 7),
        Some((-14, (-2i32) as u32))
    );
    assert_eq!(extended_large_integer_divide(1, 0), None);
}

#[test]
fn extended_magic_divide_matches_wine_vectors() {
    assert_eq!(
        extended_magic_divide(333_333_333, 0x5555_5555_5555_5555, 0),
        111_111_110
    );
    assert_eq!(
        extended_magic_divide(-333_333_333, 0x5555_5555_5555_5555, 0),
        -111_111_110
    );
    assert_eq!(
        extended_magic_divide(555_555_555, 0x6666_6666_6666_67fe, 1),
        111_111_111
    );
    assert_eq!(
        extended_magic_divide(0x081a_c1b9_c231_0a80, 0x002f_1e28_fd1b_5cca, 33),
        0xbeef
    );
}

#[test]
fn byte_swaps_match_rtl_exports() {
    assert_eq!(ushort_byte_swap(0x1234), 0x3412);
    assert_eq!(ulong_byte_swap(0x1234_5678), 0x7856_3412);
    assert_eq!(
        ulonglong_byte_swap(0x0123_4567_89AB_CDEF),
        0xEFCD_AB89_6745_2301
    );
}

#[test]
fn numbers_are_written_in_every_base() {
    assert_eq!(integer_to_char(0, 2).unwrap(), b"0");
    assert_eq!(integer_to_char(10, 2).unwrap(), b"1010");
    assert_eq!(integer_to_char(64, 8).unwrap(), b"100");
    assert_eq!(integer_to_char(u32::MAX, 10).unwrap(), b"4294967295");
    assert_eq!(
        large_integer_to_char(u64::MAX, 10).unwrap(),
        b"18446744073709551615"
    );
    assert_eq!(int64_to_unicode(0xABC, 16).unwrap(), u("ABC"));
}

#[test]
fn the_parser_gets_the_bytes_as_code_units() {
    let mut seen = Vec::new();
    let r = char_to_integer(&[0x31, 0xff], 8, |units, base| {
        seen = units.to_vec();
        Some(base)
    });
    assert_eq!(r, Some(8));
    assert_eq!(seen, [0x31, 0xff]);
}

#[test]
fn arithmetic_wraps_at_its_limits() {
    assert_eq!(large_integer_add(i64::MAX, 1), i64::MIN);
    assert_eq!(large_integer_subtract(i64::MIN, 1), i64::MAX);
    assert_eq!(large_integer_divide(i64::MIN, -1), Some((i64::MIN, 0)));
    assert_eq!(large_integer_divide(-7, 2), Some((-3, -1)));
    assert_eq!(large_integer_divide(7, -2), Some((-3, 1)));
    assert_eq!(large_integer_shift_left(1, -1), i64::MIN);
    assert_eq!(large_integer_shift_right(i64::MIN, 63), 1);
    assert_eq!(large_integer_arithmetic_shift(i64::MIN, 63), -1);
    assert_eq!(enlarged_integer_multiply(i32::MIN, i32::MIN), 1 << 62);
    assert_eq!(
        enlarged_unsigned_multiply(u32::MAX, u32::MAX),
        0xFFFF_FFFE_0000_0001
    );
    assert_eq!(enlarged_unsigned_divide(u64::MAX, 1), Some((u32::MAX, 0)));
    assert_eq!(extended_integer_multiply(i64::MAX, 2), -2);
    assert_eq!(
        extended_large_integer_divide(i64::MIN, 1),
        Some((i64::MIN, 0))
    );
    assert_eq!(extended_magic_divide(i64::MIN, -1, 0), i64::MIN + 1);
}
