use nt_ntdll::image_verify;
use nt_ntdll::pe::{DataDirectory, PeHeaders, PeSection};
use nt_ntdll::image_verify::{VerifiedImage, ImageVerificationError, calculate_checksum};

/// Reads the headers of a PE32+ file.
fn headers(image: &[u8]) -> Option<PeHeaders> {
    let u16_at = |at: usize| Some(u16::from_le_bytes(image.get(at..at + 2)?.try_into().unwrap()));
    let u32_at = |at: usize| Some(u32::from_le_bytes(image.get(at..at + 4)?.try_into().unwrap()));
    let u64_at = |at: usize| Some(u64::from_le_bytes(image.get(at..at + 8)?.try_into().unwrap()));
    if u16_at(0)? != 0x5a4d {
        return None;
    }
    let nt_offset = u32_at(0x3c)? as usize;
    if u32_at(nt_offset)? != 0x4550 {
        return None;
    }
    let optional = nt_offset + 24;
    let optional_size = u16_at(nt_offset + 20)? as usize;
    if optional_size < 0xf0 || u16_at(optional)? != 0x20b {
        return None;
    }
    let mut directories = [DataDirectory { virtual_address: 0, size: 0 }; 16];
    for (index, directory) in directories.iter_mut().enumerate() {
        directory.virtual_address = u32_at(optional + 112 + index * 8)?;
        directory.size = u32_at(optional + 116 + index * 8)?;
    }
    let mut sections = Vec::new();
    for index in 0..u16_at(nt_offset + 6)? as usize {
        let section = optional + optional_size + index * 40;
        let name = image.get(section..section + 8)?;
        let length = name.iter().position(|byte| *byte == 0).unwrap_or(8);
        sections.push(PeSection {
            name: String::from_utf8(name[..length].to_vec()).ok()?,
            virtual_size: u32_at(section + 8)?,
            virtual_address: u32_at(section + 12)?,
            size_of_raw_data: u32_at(section + 16)?,
        });
    }
    Some(PeHeaders {
        nt_offset,
        characteristics: u16_at(nt_offset + 22)?,
        image_base: u64_at(optional + 24)?,
        entry_point_rva: u32_at(optional + 16)?,
        size_of_image: u32_at(optional + 56)?,
        subsystem: u16_at(optional + 68)?,
        directories,
        sections,
    })
}

/// Where a relative virtual address is in a file whose one section is mapped as the tests map it.
fn file_offset(rva: u32) -> usize {
    if rva >= SECTION_RVA {
        (rva - SECTION_RVA) as usize + RAW_OFFSET
    } else {
        rva as usize
    }
}

fn bytes_at(image: &[u8], rva: u32, length: usize) -> Option<Vec<u8>> {
    let at = file_offset(rva);
    Some(image.get(at..at.checked_add(length)?)?.to_vec())
}

fn text_at(image: &[u8], rva: u32) -> Option<Vec<u8>> {
    let rest = image.get(file_offset(rva)..)?;
    let length = rest.iter().position(|byte| *byte == 0)?;
    Some(rest[..length].to_vec())
}

fn verify_image(
    image: &[u8],
    bypass_checksum: bool,
    enumerate_imports: bool,
) -> Result<VerifiedImage, ImageVerificationError> {
    image_verify::verify_image(
        image,
        headers(image).as_ref(),
        bypass_checksum,
        enumerate_imports,
        |rva, length| bytes_at(image, rva, length),
        |rva| text_at(image, rva),
    )
}

const NT_OFFSET: usize = 0x80;
const OPTIONAL_OFFSET: usize = NT_OFFSET + 24;
const CHECKSUM_OFFSET: usize = OPTIONAL_OFFSET + 64;
const RAW_OFFSET: usize = 0x200;
const SECTION_RVA: u32 = 0x1000;

fn put_u16(bytes: &mut [u8], offset: usize, value: u16) {
    bytes[offset..offset + 2].copy_from_slice(&value.to_le_bytes());
}

fn put_u32(bytes: &mut [u8], offset: usize, value: u32) {
    bytes[offset..offset + 4].copy_from_slice(&value.to_le_bytes());
}

fn put_u64(bytes: &mut [u8], offset: usize, value: u64) {
    bytes[offset..offset + 8].copy_from_slice(&value.to_le_bytes());
}

fn test_image(imports: &[&[u8]]) -> Vec<u8> {
    let mut image = vec![0u8; 0x400];
    put_u16(&mut image, 0, 0x5a4d);
    put_u32(&mut image, 0x3c, NT_OFFSET as u32);
    put_u32(&mut image, NT_OFFSET, 0x0000_4550);
    put_u16(&mut image, NT_OFFSET + 4, 0x8664);
    put_u16(&mut image, NT_OFFSET + 6, 1);
    put_u16(&mut image, NT_OFFSET + 20, 0xf0);
    put_u16(&mut image, NT_OFFSET + 22, 0x2002); // EXECUTABLE_IMAGE | DLL
    put_u16(&mut image, OPTIONAL_OFFSET, 0x20b);
    put_u64(&mut image, OPTIONAL_OFFSET + 24, 0x1_4000_0000);
    put_u32(&mut image, OPTIONAL_OFFSET + 32, 0x1000);
    put_u32(&mut image, OPTIONAL_OFFSET + 36, 0x200);
    put_u32(&mut image, OPTIONAL_OFFSET + 56, 0x2000);
    put_u32(&mut image, OPTIONAL_OFFSET + 60, 0x200);
    put_u32(&mut image, OPTIONAL_OFFSET + 108, 16);
    if !imports.is_empty() {
        put_u32(&mut image, OPTIONAL_OFFSET + 120, SECTION_RVA);
        put_u32(
            &mut image,
            OPTIONAL_OFFSET + 124,
            ((imports.len() + 1) * 20) as u32,
        );
    }

    let section = OPTIONAL_OFFSET + 0xf0;
    image[section..section + 8].copy_from_slice(b".rdata\0\0");
    put_u32(&mut image, section + 8, 0x200);
    put_u32(&mut image, section + 12, SECTION_RVA);
    put_u32(&mut image, section + 16, 0x200);
    put_u32(&mut image, section + 20, RAW_OFFSET as u32);
    put_u32(&mut image, section + 36, 0x4000_0040);

    let mut name_offset = (imports.len() + 1) * 20;
    for (index, name) in imports.iter().enumerate() {
        put_u32(
            &mut image,
            RAW_OFFSET + index * 20 + 12,
            SECTION_RVA + name_offset as u32,
        );
        let raw_name = RAW_OFFSET + name_offset;
        image[raw_name..raw_name + name.len()].copy_from_slice(name);
        image[raw_name + name.len()] = 0;
        name_offset += name.len() + 1;
    }
    image
}

fn install_checksum(image: &mut [u8]) -> u32 {
    put_u32(image, CHECKSUM_OFFSET, 0);
    let checksum = calculate_checksum(image, CHECKSUM_OFFSET).unwrap();
    put_u32(image, CHECKSUM_OFFSET, checksum);
    checksum
}

#[test]
fn accepts_zero_checksum_and_lists_imports_in_order() {
    let image = test_image(&[b"ntdll.dll", b"kernel32.dll"]);
    let verified = verify_image(&image, false, true).unwrap();
    assert_eq!(verified.characteristics, 0x2002);
    assert_eq!(verified.stored_checksum, 0);
    assert_eq!(
        verified.import_names,
        vec![b"ntdll.dll".to_vec(), b"kernel32.dll".to_vec()]
    );
}

#[test]
fn accepts_valid_checksum_for_even_and_odd_file_lengths() {
    let mut even = test_image(&[]);
    let expected = install_checksum(&mut even);
    assert_eq!(
        verify_image(&even, false, false)
            .unwrap()
            .calculated_checksum,
        expected
    );

    let mut odd = test_image(&[]);
    odd.push(0x5a);
    let expected = install_checksum(&mut odd);
    assert_eq!(
        verify_image(&odd, false, false)
            .unwrap()
            .calculated_checksum,
        expected
    );
}

#[test]
fn rejects_mismatch_but_knowndll_tag_bypasses_only_checksum() {
    let mut image = test_image(&[b"ntdll.dll"]);
    install_checksum(&mut image);
    image[RAW_OFFSET + 0x80] ^= 0x40;
    assert_eq!(
        verify_image(&image, false, true),
        Err(ImageVerificationError::ChecksumMismatch)
    );
    assert_eq!(
        verify_image(&image, true, true).unwrap().import_names,
        vec![b"ntdll.dll".to_vec()]
    );
}

#[test]
fn bypass_does_not_accept_malformed_images_or_import_names() {
    assert_eq!(
        verify_image(b"not a PE", true, true),
        Err(ImageVerificationError::MalformedImage)
    );

    let mut image = test_image(&[b"ntdll.dll"]);
    let name_offset = RAW_OFFSET + 40;
    image[name_offset..].fill(b'x');
    assert_eq!(
        verify_image(&image, true, true),
        Err(ImageVerificationError::MalformedImage)
    );
}

#[test]
fn rejects_truncated_advertised_optional_header() {
    let mut image = test_image(&[]);
    put_u16(&mut image, NT_OFFSET + 20, 2);
    assert_eq!(
        verify_image(&image, true, false),
        Err(ImageVerificationError::MalformedImage)
    );
}

#[test]
fn accepts_header_resident_import_descriptors_and_names() {
    let mut image = test_image(&[]);
    const DESCRIPTOR_OFFSET: usize = 0x1c0;
    const NAME_OFFSET: usize = 0x1e8;
    put_u32(&mut image, OPTIONAL_OFFSET + 120, DESCRIPTOR_OFFSET as u32);
    put_u32(&mut image, OPTIONAL_OFFSET + 124, 40);
    put_u32(&mut image, DESCRIPTOR_OFFSET + 12, NAME_OFFSET as u32);
    image[NAME_OFFSET..NAME_OFFSET + 10].copy_from_slice(b"ntdll.dll\0");
    assert_eq!(
        verify_image(&image, true, true).unwrap().import_names,
        vec![b"ntdll.dll".to_vec()]
    );
}

#[test]
fn checksum_math_excludes_field_and_folds_odd_byte() {
    let mut bytes = [1, 0, 0xff, 0xff, 0, 0, 0, 0, 2, 0, 3];
    assert_eq!(calculate_checksum(&bytes, 4), Some(17));
    bytes[4..8].copy_from_slice(&0xdead_beefu32.to_le_bytes());
    assert_eq!(calculate_checksum(&bytes, 4), Some(17));
}
