use nt_ntdll::activation_manifest::extend_ascii;
use nt_ntdll::decimal::{decimal_u16_digits, parse_canonical_version, parse_digits, push_decimal_u16};
use nt_ntdll::guid::{guid_from_string, guid_to_string, parse_hex_digits, Guid};
use nt_ntdll::strings::{
    equal_unicode_string, hash_unicode_string, upcase_char, x65599_step,
    HASH_STRING_ALGORITHM_DEFAULT, HASH_STRING_ALGORITHM_X65599,
};
use nt_ntdll::utf16::{chars_of, decode, push_chars, push_encoded, string_of};

fn wide(value: &str) -> Vec<u16> {
    value.encode_utf16().collect()
}

#[test]
fn names_that_are_equal_hash_alike() {
    let (a, b) = (wide("Kernel32.DLL"), wide("kernel32.dll"));
    assert!(equal_unicode_string(&a, &b, true));
    assert!(!equal_unicode_string(&a, &b, false));
    assert_eq!(
        hash_unicode_string(&a, true, HASH_STRING_ALGORITHM_DEFAULT),
        hash_unicode_string(&b, true, HASH_STRING_ALGORITHM_X65599)
    );
    assert_ne!(
        hash_unicode_string(&a, false, HASH_STRING_ALGORITHM_X65599),
        hash_unicode_string(&b, false, HASH_STRING_ALGORITHM_X65599)
    );
    assert_eq!(hash_unicode_string(&a, true, 2), None);
    assert_eq!(x65599_step(1, 2), 65601);
    assert_eq!(
        hash_unicode_string(&wide("ab"), false, HASH_STRING_ALGORITHM_X65599),
        Some(0x61 * 65599 + 0x62)
    );
    assert_eq!(upcase_char(b'z' as u16), b'Z' as u16);
    assert_eq!(upcase_char(upcase_char(0xe9)), upcase_char(0xe9));
}

#[test]
fn decimal_numbers_read_back() {
    for value in [0u16, 7, 10, 99, 100, 9999, 10000, 65535] {
        let mut text = Vec::new();
        push_decimal_u16(&mut text, value);
        assert_eq!(text, wide(&value.to_string()));
        assert_eq!(decimal_u16_digits(value), text.len());
        assert_eq!(parse_digits(&text, 65535), Some(u32::from(value)));
    }
    assert_eq!(parse_digits(&wide("65536"), 65535), None);
    assert_eq!(parse_digits(&wide("1x"), 65535), None);
    assert!(parse_canonical_version(&wide("1.0.0.65535")));
    assert!(!parse_canonical_version(&wide("1.0.0")));
    assert!(!parse_canonical_version(&wide("1.0.00.1")));
    assert!(!parse_canonical_version(&wide("1.0.0.65536")));
}

#[test]
fn values_are_told_apart_by_every_field() {
    let value = Guid {
        data1: 0x1234_5678,
        data2: 0x9abc,
        data3: 0xdef0,
        data4: [1, 2, 3, 4, 5, 6, 7, 8],
    };
    let text = guid_to_string(&value);
    assert_eq!(text, wide("{12345678-9abc-def0-0102-030405060708}"));
    assert!(guid_from_string(&text).unwrap().equals(&value));
    assert!(!value.equals(&Guid {
        data4: [1, 2, 3, 4, 5, 6, 7, 9],
        ..value
    }));
    assert!(Guid::from_windows_bytes(value.to_windows_bytes()).equals(&value));
    assert_eq!(parse_hex_digits(&wide("ffFF"), 0xffff), Some(0xffff));
    assert_eq!(parse_hex_digits(&wide("10000"), 0xffff), None);
    assert_eq!(parse_hex_digits(&wide("fg"), 0xffff), None);
}

#[test]
fn text_comes_back_from_code_units() {
    let text = "a\u{20ac}\u{1F600}z";
    let chars = chars_of(text);
    assert_eq!(string_of(&chars), text);
    let mut units = Vec::new();
    push_encoded(&mut units, &chars);
    assert_eq!(units, wide(text));
    assert_eq!(decode(&units), chars);
    assert_eq!(
        string_of(&decode(&[0xDC00, 0x41, 0xD800, 0x42, 0xD83D])),
        "\u{FFFD}A\u{FFFD}B\u{FFFD}"
    );
    let mut more = chars_of("x");
    push_chars(&mut more, &chars);
    assert_eq!(string_of(&more), "xa\u{20ac}\u{1F600}z");
    let mut ascii = wide("<");
    extend_ascii(&mut ascii, "tag>");
    assert_eq!(ascii, wide("<tag>"));
}
