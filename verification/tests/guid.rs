use nt_ntdll::guid::{Guid, guid_from_string, guid_to_string};

fn s(v: &[u16]) -> std::string::String {
    std::string::String::from_utf16(v).unwrap()
}

#[test]
fn known_guid_roundtrip() {
    // {6BA7B810-9DAD-11D1-80B4-00C04FD430C8} (namespace DNS)
    let g = Guid {
        data1: 0x6BA7_B810,
        data2: 0x9DAD,
        data3: 0x11D1,
        data4: [0x80, 0xB4, 0x00, 0xC0, 0x4F, 0xD4, 0x30, 0xC8],
    };
    let txt = guid_to_string(&g);
    assert_eq!(s(&txt), "{6ba7b810-9dad-11d1-80b4-00c04fd430c8}");
    let back = guid_from_string(&txt).unwrap();
    assert_eq!(back, g);
}

#[test]
fn native_byte_layout_roundtrips() {
    let guid = Guid {
        data1: 0x1122_3344,
        data2: 0x5566,
        data3: 0x7788,
        data4: [0x99, 0xaa, 0xbb, 0xcc, 0xdd, 0xee, 0xff, 0x10],
    };
    let bytes = [
        0x44, 0x33, 0x22, 0x11, 0x66, 0x55, 0x88, 0x77, 0x99, 0xaa, 0xbb, 0xcc, 0xdd, 0xee,
        0xff, 0x10,
    ];
    assert_eq!(guid.to_windows_bytes(), bytes);
    assert_eq!(Guid::from_windows_bytes(bytes), guid);
}

#[test]
fn parser_requires_exact_native_syntax() {
    let upper = "{6BA7B810-9DAD-11D1-80B4-00C04FD430C8}"
        .encode_utf16()
        .collect::<Vec<_>>();
    assert!(guid_from_string(&upper).is_some());
    for malformed in [
        "not-a-guid",
        "{6ba7b810}",
        "6ba7b810-9dad-11d1-80b4-00c04fd430c8",
        "{6ba7b8109-dad-11d1-80b4-00c04fd430c8}",
        "{6ba7b810-9dad-11d1-80b4-00c04fd430c8}x",
        "{6ba7b810-9dad-11d1-80b4-00c04fd430cg}",
    ] {
        assert!(
            guid_from_string(&malformed.encode_utf16().collect::<Vec<_>>()).is_none(),
            "accepted malformed GUID: {malformed}"
        );
    }
}
