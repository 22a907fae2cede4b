use nt_ntdll::pe::{DataDirectory, PeHeaders, PeSection};
use nt_ntdll::image::{image_directory_entry, image_nt_header, image_rva_to_section, image_rva_to_va, pc_to_file_header};

/// Reads the headers of a PE32+ file.
fn headers(image: &[u8]) -> Option<PeHeaders> {
    let u16_at = |at: usize| Some(u16::from_le_bytes(image.get(at..at + 2)?.try_into().unwrap()));
    let u32_at = |at: usize| Some(u32::from_le_bytes(image.get(at..at + 4)?.try_into().unwrap()));
    let u64_at = |at: usize| Some(u64::from_le_bytes(image.get(at..at + 8)?.try_into().unwrap()));
    if u16_at(0)? != 0x5a4d {
        return None;
    }
    let nt_offset = u32_at(0x3c)? as usize;
    if u32_at(nt_offset)? != 0x4550 {
        return None;
    }
    let optional = nt_offset + 24;
    let optional_size = u16_at(nt_offset + 20)? as usize;
    if optional_size < 0xf0 || u16_at(optional)? != 0x20b {
        return None;
    }
    let mut directories = [DataDirectory { virtual_address: 0, size: 0 }; 16];
    for (index, directory) in directories.iter_mut().enumerate() {
        directory.virtual_address = u32_at(optional + 112 + index * 8)?;
        directory.size = u32_at(optional + 116 + index * 8)?;
    }
    let mut sections = Vec::new();
    for index in 0..u16_at(nt_offset + 6)? as usize {
        let section = optional + optional_size + index * 40;
        let name = image.get(section..section + 8)?;
        let length = name.iter().position(|byte| *byte == 0).unwrap_or(8);
        sections.push(PeSection {
            name: String::from_utf8(name[..length].to_vec()).ok()?,
            virtual_size: u32_at(section + 8)?,
            virtual_address: u32_at(section + 12)?,
            size_of_raw_data: u32_at(section + 16)?,
        });
    }
    Some(PeHeaders {
        nt_offset,
        characteristics: u16_at(nt_offset + 22)?,
        image_base: u64_at(optional + 24)?,
        entry_point_rva: u32_at(optional + 16)?,
        size_of_image: u32_at(optional + 56)?,
        subsystem: u16_at(optional + 68)?,
        directories,
        sections,
    })
}

/// Build a minimal valid PE32+ image: DOS stub + NT headers + one section, enough for the
/// nt-pe-loader parser (which is exercised in its own crate; here we just confirm the wrappers
/// route + return the header fields).
fn minimal_pe() -> Vec<u8> {
    // 4 KiB buffer.
    let mut b = vec![0u8; 0x400];
    // DOS header: "MZ" + e_lfanew at 0x3C -> 0x80.
    b[0] = b'M';
    b[1] = b'Z';
    let nt = 0x80usize;
    b[0x3C..0x40].copy_from_slice(&(nt as u32).to_le_bytes());
    // PE signature.
    b[nt..nt + 4].copy_from_slice(b"PE\0\0");
    // COFF header @ nt+4: Machine (0x8664), NumberOfSections=1, SizeOfOptionalHeader=0xF0,
    // Characteristics.
    let coff = nt + 4;
    b[coff..coff + 2].copy_from_slice(&0x8664u16.to_le_bytes());
    b[coff + 2..coff + 4].copy_from_slice(&1u16.to_le_bytes());
    b[coff + 16..coff + 18].copy_from_slice(&0xF0u16.to_le_bytes());
    b[coff + 18..coff + 20].copy_from_slice(&0x22u16.to_le_bytes()); // EXECUTABLE|LARGE_ADDR
    // Optional header @ coff+20.
    let opt = coff + 20;
    b[opt..opt + 2].copy_from_slice(&0x20Bu16.to_le_bytes()); // PE32+ magic
    b[opt + 16..opt + 20].copy_from_slice(&0x1000u32.to_le_bytes()); // AddressOfEntryPoint
    b[opt + 24..opt + 32].copy_from_slice(&0x1_4000_0000u64.to_le_bytes()); // ImageBase
    b[opt + 32..opt + 36].copy_from_slice(&0x1000u32.to_le_bytes()); // SectionAlignment
    b[opt + 36..opt + 40].copy_from_slice(&0x200u32.to_le_bytes()); // FileAlignment
    b[opt + 56..opt + 60].copy_from_slice(&0x4000u32.to_le_bytes()); // SizeOfImage
    b[opt + 60..opt + 64].copy_from_slice(&0x400u32.to_le_bytes()); // SizeOfHeaders
    b[opt + 68..opt + 70].copy_from_slice(&3u16.to_le_bytes()); // Subsystem = CONSOLE
    b[opt + 108..opt + 112].copy_from_slice(&16u32.to_le_bytes()); // NumberOfRvaAndSizes
    // Section table @ opt + 0xF0.
    let sec = opt + 0xF0;
    b[sec..sec + 8].copy_from_slice(b".text\0\0\0");
    b[sec + 8..sec + 12].copy_from_slice(&0x1000u32.to_le_bytes()); // VirtualSize
    b[sec + 12..sec + 16].copy_from_slice(&0x1000u32.to_le_bytes()); // VirtualAddress
    b[sec + 16..sec + 20].copy_from_slice(&0x200u32.to_le_bytes()); // SizeOfRawData
    b[sec + 20..sec + 24].copy_from_slice(&0x400u32.to_le_bytes()); // PointerToRawData
    b[sec + 36..sec + 40].copy_from_slice(&0x6000_0020u32.to_le_bytes()); // CODE|EXEC|READ
    b
}

#[test]
fn nt_header_fields() {
    let img = minimal_pe();
    let info = image_nt_header(headers(&img).as_ref()).expect("valid PE");
    assert_eq!(info.image_base, 0x1_4000_0000);
    assert_eq!(info.entry_point_rva, 0x1000);
    assert_eq!(info.size_of_image, 0x4000);
    assert_eq!(info.subsystem, 3);
}

#[test]
fn rejects_non_pe() {
    assert!(image_nt_header(headers(b"not a pe").as_ref()).is_none());
}

#[test]
fn rva_to_va_and_section() {
    let img = minimal_pe();
    assert_eq!(image_rva_to_va(headers(&img).as_ref(), 0x1_4000_0000, 0x1000), Some(0x1_4000_1000));
    // Past the image size → None.
    assert!(image_rva_to_va(headers(&img).as_ref(), 0x1_4000_0000, 0x9000).is_none());
    assert_eq!(image_rva_to_section(headers(&img).as_ref(), 0x1000), Some(".text"));
    assert!(image_rva_to_section(headers(&img).as_ref(), 0x8000).is_none());
}

#[test]
fn pc_to_file_header_range() {
    let img = minimal_pe();
    assert_eq!(pc_to_file_header(headers(&img).as_ref(), 0x1_4000_0000, 0x1_4000_1500), Some(0x1_4000_0000));
    assert!(pc_to_file_header(headers(&img).as_ref(), 0x1_4000_0000, 0x1_5000_0000).is_none());
}

#[test]
fn directories_that_are_empty_or_unknown_are_absent() {
    let mut directories = [DataDirectory { virtual_address: 0, size: 0 }; 16];
    directories[1] = DataDirectory { virtual_address: 0x3000, size: 0x28 };
    directories[2] = DataDirectory { virtual_address: 0x4000, size: 0 };
    let headers = PeHeaders {
        nt_offset: 0x80,
        characteristics: 0,
        image_base: 0x1_4000_0000,
        entry_point_rva: 0x1000,
        size_of_image: 0x5000,
        subsystem: 3,
        directories,
        sections: Vec::new(),
    };
    assert_eq!(
        image_directory_entry(Some(&headers), nt_ntdll::image::directory::IMPORT),
        Some((0x3000, 0x28))
    );
    assert_eq!(
        image_directory_entry(Some(&headers), nt_ntdll::image::directory::RESOURCE),
        None
    );
    assert_eq!(image_directory_entry(Some(&headers), 0), None);
    assert_eq!(image_directory_entry(Some(&headers), 16), None);
    assert_eq!(image_directory_entry(None, 1), None);
    assert_eq!(image_rva_to_va(Some(&headers), 0x1000, 0x4fff), Some(0x5fff));
    assert_eq!(image_rva_to_va(Some(&headers), 0x1000, 0x5000), None);
}

#[test]
fn sections_behind_the_one_that_covers_an_address_do_not_matter() {
    let mut pe = headers(&minimal_pe()).unwrap();
    pe.sections.push(PeSection {
        name: String::from(".far"),
        virtual_address: u32::MAX,
        virtual_size: u32::MAX,
        size_of_raw_data: 0,
    });
    assert_eq!(image_rva_to_section(Some(&pe), 0x1000), Some(".text"));
}
