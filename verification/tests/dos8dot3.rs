use nt_ntdll::dos8dot3::{GenerateNameContext, OemMappedChar, generate_8dot3_name, legal_dos_8dot3_oem};
use nt_ntdll::strings::{upcase_char};

fn u(value: &str) -> Vec<u16> {
    value.encode_utf16().collect()
}

fn s(value: &[u16]) -> std::string::String {
    std::string::String::from_utf16(value).unwrap()
}

fn ascii(name: &str, context: &mut GenerateNameContext) -> std::string::String {
    s(&generate_8dot3_name(&u(name), false, context, |_| None))
}

#[test]
fn ascii_names_and_collisions() {
    let mut context = GenerateNameContext::default();
    assert_eq!(ascii("Long file name.txt", &mut context), "LONGFI~1.TXT");
    assert_eq!(ascii("Long file name.txt", &mut context), "LONGFI~2.TXT");
    assert_eq!(
        ascii("a+b.txt", &mut GenerateNameContext::default()),
        "A_B~1.TXT"
    );
    assert_eq!(
        ascii("foo.bar.baz", &mut GenerateNameContext::default()),
        "FOOBAR~1.BAZ"
    );
}

#[test]
fn fifth_collision_inserts_reversed_checksum_digits() {
    let mut context = GenerateNameContext::default();
    let expected = [
        "LONGFI~1.TXT",
        "LONGFI~2.TXT",
        "LONGFI~3.TXT",
        "LONGFI~4.TXT",
        "LO1796~1.TXT",
        "LO1796~2.TXT",
    ];
    for (index, expected) in expected.into_iter().enumerate() {
        assert_eq!(
            ascii(
                &std::format!("Long File Name {}.txt", index + 1),
                &mut context
            ),
            expected
        );
    }
}

#[test]
fn short_and_non_ascii_stems_use_checksum() {
    assert_eq!(
        ascii("ab.txt", &mut GenerateNameContext::default()),
        "AB6082~1.TXT"
    );
    assert_eq!(
        ascii(
            "\u{30c7}\u{30b9}\u{30af}\u{30c8}\u{30c3}\u{30d7}",
            &mut GenerateNameContext::default()
        ),
        "9A16~1"
    );
    assert_eq!(
        ascii("Menu D\u{e9}marrer", &mut GenerateNameContext::default()),
        "MENUDM~1"
    );
}

#[test]
fn injected_extended_oem_mapping_is_used() {
    let mut context = GenerateNameContext::default();
    let output = generate_8dot3_name(&u("Menu D\u{e9}marrer"), true, &mut context, |unit| {
        Some(OemMappedChar {
            unit: upcase_char(unit),
            width: 1,
        })
    });
    assert_eq!(s(&output), "MENUD\u{c9}~1");
}

#[test]
fn legal_oem_names_match_reactos_vectors() {
    let cases: &[(&[u8], Option<bool>)] = &[
        (b"12345678", Some(false)),
        (b"123 5678", Some(true)),
        (b"12345678.", None),
        (b"1234 678.", None),
        (b"12345678.A", Some(false)),
        (b"12345678.A ", None),
        (b"12345678.A C", Some(true)),
        (b" 2345678.A ", None),
        (b"1 345678.ABC", Some(true)),
        (b"1      8.A C", Some(true)),
        (b"1 3 5 7 .ABC", None),
        (b"12345678.  C", Some(true)),
        (b"123456789.A", None),
        (b"12345.ABCD", None),
        (b"12345.AB D", None),
        (b".ABC", None),
        (b"12.ABC.D", None),
        (b".", Some(false)),
        (b"..", Some(false)),
        (b"...", None),
        (b"", None),
    ];
    for &(name, expected) in cases {
        assert_eq!(legal_dos_8dot3_oem(name), expected, "{name:?}");
    }
}

#[test]
fn legal_oem_names_reject_native_illegal_bytes() {
    for byte in b"*?<>|\"+=,;[]:/\\".iter().copied().chain([0xe5, 0]) {
        assert_eq!(legal_dos_8dot3_oem(&[b'A', byte]), None, "{byte:#x}");
    }
}

#[test]
fn a_checksum_takes_over_after_four_names() {
    let mut context = GenerateNameContext::default();
    let mut names = Vec::new();
    for _ in 0..7 {
        names.push(ascii("Long file name.txt", &mut context));
    }
    assert_eq!(names[3], "LONGFI~4.TXT");
    assert!(names[4].starts_with("LO") && names[4].ends_with("~1.TXT"));
    for (index, name) in names.iter().enumerate() {
        assert!(name.len() <= 12);
        assert!(!names[..index].contains(name));
    }
}

#[test]
fn the_map_is_not_asked_where_extended_characters_are_not_allowed() {
    let mut context = GenerateNameContext::default();
    let name = generate_8dot3_name(&u("M\u{e9}nu d\u{e9}marrer.t\u{e9}"), false, &mut context, |_| {
        unreachable!()
    });
    assert_eq!(s(&name), "MNUDMA~1.T");
}

#[test]
fn checksum_digits_replace_a_stem_that_is_too_long() {
    let mut context = GenerateNameContext::default();
    assert_eq!(ascii("Long File Name 5.txt", &mut context), "LONGFI~1.TXT");
    context.name_length = 9;
    context.last_index_value = 4;
    assert_eq!(ascii("Long File Name 5.txt", &mut context), "LO1796~1.TXT");
    assert_eq!(context.name_length, 6);
}
