use nt_ntdll::convert::{ansi_char_to_unicode_char, CodePage, ansi_string_to_unicode_size, multi_byte_to_unicode, unicode_string_to_ansi_size, unicode_to_multi_byte, unicode_to_multi_byte_size};

#[test]
fn latin1_roundtrip_ascii_and_supplement() {
    let cp = &CodePage::latin1();
    for b in 0u8..=0xFF {
        let w = cp.widen_byte(b);
        assert_eq!(w, b as u16);
        assert_eq!(cp.narrow_unit(w), b);
    }
}

#[test]
fn narrow_unrepresentable_uses_default() {
    let cp = &CodePage::latin1();
    // A code unit above the Latin-1 range (e.g. a CJK char) narrows to '?'.
    assert_eq!(cp.narrow_unit(0x4E00), b'?');
}

#[test]
fn multibyte_widen_narrow() {
    let cp = &CodePage::latin1();
    let bytes = b"System32";
    let wide = multi_byte_to_unicode(cp, bytes);
    assert_eq!(wide, "System32".encode_utf16().collect::<Vec<_>>());
    let back = unicode_to_multi_byte(cp, &wide);
    assert_eq!(&back, bytes);
}

#[test]
fn sizes() {
    let w: Vec<u16> = "abc".encode_utf16().collect();
    assert_eq!(unicode_to_multi_byte_size(&w), 3);
    assert_eq!(unicode_string_to_ansi_size(&w), 4); // + NUL
    assert_eq!(ansi_string_to_unicode_size(b"abc"), 8); // (3+1)*2
}

#[test]
fn custom_codepage_reverse_lookup() {
    // A tiny custom page: byte 0x80 -> U+20AC (euro), like cp1252.
    let mut w: [u16; 256] = std::array::from_fn(|i| i as u16);
    w[0x80] = 0x20AC;
    let cp = CodePage::from_widen(w, b'?');
    assert_eq!(cp.widen_byte(0x80), 0x20AC);
    assert_eq!(cp.narrow_unit(0x20AC), 0x80);
}

#[test]
fn ascii_stands_for_itself_on_every_page() {
    let cp = CodePage::from_widen([0x4E00; 256], b'!');
    assert_eq!(cp.narrow_unit(b'a' as u16), b'a');
    assert_eq!(cp.narrow_unit(0x4E00), 0);
    assert_eq!(cp.narrow_unit(0x4E01), b'!');
    assert_eq!(multi_byte_to_unicode(&cp, b"ab"), [0x4E00, 0x4E00]);
    assert_eq!(unicode_to_multi_byte(&cp, &[0x41, 0x4E01]), b"A!");
    assert_eq!(ansi_char_to_unicode_char(0xe9), 0xe9);
}
