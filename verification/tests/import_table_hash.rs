use nt_ntdll::import_table_hash;
use nt_ntdll::pe::{DataDirectory, PeHeaders, PeSection};
use nt_ntdll::import_table_hash::{IMAGE_ORDINAL_FLAG64, ImportTableHashError, insert_nt5_sorted};

/// Reads the headers of a PE32+ file.
fn headers(image: &[u8]) -> Option<PeHeaders> {
    let u16_at = |at: usize| Some(u16::from_le_bytes(image.get(at..at + 2)?.try_into().unwrap()));
    let u32_at = |at: usize| Some(u32::from_le_bytes(image.get(at..at + 4)?.try_into().unwrap()));
    let u64_at = |at: usize| Some(u64::from_le_bytes(image.get(at..at + 8)?.try_into().unwrap()));
    if u16_at(0)? != 0x5a4d {
        return None;
    }
    let nt_offset = u32_at(0x3c)? as usize;
    if u32_at(nt_offset)? != 0x4550 {
        return None;
    }
    let optional = nt_offset + 24;
    let optional_size = u16_at(nt_offset + 20)? as usize;
    if optional_size < 0xf0 || u16_at(optional)? != 0x20b {
        return None;
    }
    let mut directories = [DataDirectory { virtual_address: 0, size: 0 }; 16];
    for (index, directory) in directories.iter_mut().enumerate() {
        directory.virtual_address = u32_at(optional + 112 + index * 8)?;
        directory.size = u32_at(optional + 116 + index * 8)?;
    }
    let mut sections = Vec::new();
    for index in 0..u16_at(nt_offset + 6)? as usize {
        let section = optional + optional_size + index * 40;
        let name = image.get(section..section + 8)?;
        let length = name.iter().position(|byte| *byte == 0).unwrap_or(8);
        sections.push(PeSection {
            name: String::from_utf8(name[..length].to_vec()).ok()?,
            virtual_size: u32_at(section + 8)?,
            virtual_address: u32_at(section + 12)?,
            size_of_raw_data: u32_at(section + 16)?,
        });
    }
    Some(PeHeaders {
        nt_offset,
        characteristics: u16_at(nt_offset + 22)?,
        image_base: u64_at(optional + 24)?,
        entry_point_rva: u32_at(optional + 16)?,
        size_of_image: u32_at(optional + 56)?,
        subsystem: u16_at(optional + 68)?,
        directories,
        sections,
    })
}

/// Where a relative virtual address is in a file whose one section is mapped as the tests map it.
fn file_offset(rva: u32) -> usize {
    if rva >= SECTION_RVA {
        (rva - SECTION_RVA) as usize + RAW_OFFSET
    } else {
        rva as usize
    }
}

fn bytes_at(image: &[u8], rva: u32, length: usize) -> Option<Vec<u8>> {
    let at = file_offset(rva);
    Some(image.get(at..at.checked_add(length)?)?.to_vec())
}

fn text_at(image: &[u8], rva: u32) -> Option<Vec<u8>> {
    let rest = image.get(file_offset(rva)..)?;
    let length = rest.iter().position(|byte| *byte == 0)?;
    Some(rest[..length].to_vec())
}

/// The MD5 digest.
fn md5(message: &[u8]) -> [u8; 16] {
    const SHIFTS: [[u32; 4]; 4] = [[7, 12, 17, 22], [5, 9, 14, 20], [4, 11, 16, 23], [6, 10, 15, 21]];
    let mut state = [0x6745_2301u32, 0xefcd_ab89, 0x98ba_dcfe, 0x1032_5476];
    let mut padded = message.to_vec();
    padded.push(0x80);
    while padded.len() % 64 != 56 {
        padded.push(0);
    }
    padded.extend_from_slice(&(message.len() as u64 * 8).to_le_bytes());
    for block in padded.chunks(64) {
        let [mut a, mut b, mut c, mut d] = state;
        for round in 0..64usize {
            let (mixed, word) = match round / 16 {
                0 => ((b & c) | (!b & d), round),
                1 => ((d & b) | (!d & c), (5 * round + 1) % 16),
                2 => (b ^ c ^ d, (3 * round + 5) % 16),
                _ => (c ^ (b | !d), 7 * round % 16),
            };
            let constant = (((round + 1) as f64).sin().abs() * 4_294_967_296.0) as u32;
            let value = u32::from_le_bytes(block[word * 4..word * 4 + 4].try_into().unwrap());
            let sum = a.wrapping_add(mixed).wrapping_add(constant).wrapping_add(value);
            a = d;
            d = c;
            c = b;
            b = b.wrapping_add(sum.rotate_left(SHIFTS[round / 16][round % 4]));
        }
        state[0] = state[0].wrapping_add(a);
        state[1] = state[1].wrapping_add(b);
        state[2] = state[2].wrapping_add(c);
        state[3] = state[3].wrapping_add(d);
    }
    let mut digest = [0; 16];
    for (index, word) in state.iter().enumerate() {
        digest[index * 4..index * 4 + 4].copy_from_slice(&word.to_le_bytes());
    }
    digest
}

fn compute_import_table_hash(image: &[u8], revision: u32) -> Result<[u8; 16], ImportTableHashError> {
    import_table_hash::compute_import_table_hash(
        headers(image).as_ref(),
        revision,
        |rva, length| bytes_at(image, rva, length),
        |rva| text_at(image, rva),
        md5,
    )
}

const NT_OFFSET: usize = 0x80;
const OPTIONAL_OFFSET: usize = NT_OFFSET + 24;
const RAW_OFFSET: usize = 0x200;
const SECTION_RVA: u32 = 0x1000;

fn put_u16(bytes: &mut [u8], offset: usize, value: u16) {
    bytes[offset..offset + 2].copy_from_slice(&value.to_le_bytes());
}

fn put_u32(bytes: &mut [u8], offset: usize, value: u32) {
    bytes[offset..offset + 4].copy_from_slice(&value.to_le_bytes());
}

fn put_u64(bytes: &mut [u8], offset: usize, value: u64) {
    bytes[offset..offset + 8].copy_from_slice(&value.to_le_bytes());
}

fn image_with_imports(function_thunks: &[u64]) -> Vec<u8> {
    let mut image = vec![0u8; 0x800];
    put_u16(&mut image, 0, 0x5a4d);
    put_u32(&mut image, 0x3c, NT_OFFSET as u32);
    put_u32(&mut image, NT_OFFSET, 0x0000_4550);
    put_u16(&mut image, NT_OFFSET + 4, 0x8664);
    put_u16(&mut image, NT_OFFSET + 6, 1);
    put_u16(&mut image, NT_OFFSET + 20, 0xf0);
    put_u16(&mut image, OPTIONAL_OFFSET, 0x20b);
    put_u64(&mut image, OPTIONAL_OFFSET + 24, 0x1_4000_0000);
    put_u32(&mut image, OPTIONAL_OFFSET + 32, 0x1000);
    put_u32(&mut image, OPTIONAL_OFFSET + 36, 0x200);
    put_u32(&mut image, OPTIONAL_OFFSET + 56, 0x2000);
    put_u32(&mut image, OPTIONAL_OFFSET + 60, 0x200);
    put_u32(&mut image, OPTIONAL_OFFSET + 108, 16);
    put_u32(&mut image, OPTIONAL_OFFSET + 120, SECTION_RVA);
    put_u32(&mut image, OPTIONAL_OFFSET + 124, 40);

    let section = OPTIONAL_OFFSET + 0xf0;
    image[section..section + 8].copy_from_slice(b".rdata\0\0");
    put_u32(&mut image, section + 8, 0x600);
    put_u32(&mut image, section + 12, SECTION_RVA);
    put_u32(&mut image, section + 16, 0x600);
    put_u32(&mut image, section + 20, RAW_OFFSET as u32);
    put_u32(&mut image, section + 36, 0x4000_0040);

    put_u32(&mut image, RAW_OFFSET, SECTION_RVA + 0x100);
    put_u32(&mut image, RAW_OFFSET + 12, SECTION_RVA + 0x80);
    put_u32(&mut image, RAW_OFFSET + 16, SECTION_RVA + 0x180);
    image[RAW_OFFSET + 0x80..RAW_OFFSET + 0x8d].copy_from_slice(b"KERNEL32.dll\0");
    for (index, thunk) in function_thunks.iter().enumerate() {
        put_u64(&mut image, RAW_OFFSET + 0x100 + index * 8, *thunk);
    }
    image
}

#[test]
fn rejects_unknown_revision_before_parsing() {
    assert_eq!(
        compute_import_table_hash(b"not a PE", 0),
        Err(ImportTableHashError::UnknownRevision)
    );
}

#[test]
fn missing_import_directory_is_reported() {
    let mut image = image_with_imports(&[0]);
    put_u32(&mut image, OPTIONAL_OFFSET + 120, 0);
    put_u32(&mut image, OPTIONAL_OFFSET + 124, 0);
    assert_eq!(
        compute_import_table_hash(&image, 1),
        Err(ImportTableHashError::ResourceDataNotFound)
    );
}

#[test]
fn hashes_named_imports_and_ignores_ordinals() {
    let mut image = image_with_imports(&[
        (SECTION_RVA + 0x220) as u64,
        IMAGE_ORDINAL_FLAG64 | 7,
        (SECTION_RVA + 0x200) as u64,
        0,
    ]);
    image[RAW_OFFSET + 0x202..RAW_OFFSET + 0x208].copy_from_slice(b"alpha\0");
    image[RAW_OFFSET + 0x222..RAW_OFFSET + 0x227].copy_from_slice(b"Zeta\0");
    assert_eq!(
        compute_import_table_hash(&image, 1).unwrap(),
        [
            0x68, 0x21, 0xb0, 0x9e, 0x2a, 0x6c, 0x3f, 0x18, 0xfb, 0x35, 0xe6, 0x2f, 0x57, 0x3e,
            0xcc, 0x2e,
        ]
    );
}

#[test]
fn equal_case_keys_follow_nt5_insertion_order() {
    let mut values = Vec::new();
    insert_nt5_sorted(&mut values, b"Name".to_vec()).unwrap();
    insert_nt5_sorted(&mut values, b"NAME".to_vec()).unwrap();
    insert_nt5_sorted(&mut values, b"name".to_vec()).unwrap();
    assert_eq!(values, vec![b"Name".to_vec(), b"name".to_vec(), b"NAME".to_vec()]);
}

#[test]
fn a_name_outside_the_image_is_not_found() {
    let image = image_with_imports(&[0x7000_0000, 0]);
    assert_eq!(
        compute_import_table_hash(&image, 1),
        Err(ImportTableHashError::ResourceNameNotFound)
    );
}

#[test]
fn names_are_hashed_in_lower_case_order_behind_their_module() {
    let mut image = image_with_imports(&[
        (SECTION_RVA + 0x220) as u64,
        (SECTION_RVA + 0x200) as u64,
        0,
    ]);
    image[RAW_OFFSET + 0x202..RAW_OFFSET + 0x208].copy_from_slice(b"alpha\0");
    image[RAW_OFFSET + 0x222..RAW_OFFSET + 0x227].copy_from_slice(b"Zeta\0");
    let bytes = import_table_hash::canonical_import_bytes(
        headers(&image).as_ref(),
        1,
        &|rva, length| bytes_at(&image, rva, length),
        &|rva| text_at(&image, rva),
    )
    .unwrap();
    assert!(bytes.ends_with(b"alphaZeta"));
}

/// The hashed bytes of an image whose modules and functions are listed as given.
fn hashed(modules: &[(&str, &[Option<&str>])]) -> Vec<u8> {
    let mut image = image_with_imports(&[]);
    image.resize(0x2000, 0);
    let mut next: u32 = SECTION_RVA + 0x400;
    let mut store = |image: &mut Vec<u8>, bytes: &[u8]| -> u32 {
        let at = next;
        let offset = file_offset(at);
        image[offset..offset + bytes.len()].copy_from_slice(bytes);
        next += (bytes.len() as u32 + 8) / 8 * 8;
        at
    };
    for (index, (name, functions)) in modules.iter().enumerate() {
        let mut thunks = Vec::new();
        for function in functions.iter() {
            let thunk = match function {
                Some(function) => {
                    let mut bytes = vec![0, 0];
                    bytes.extend_from_slice(function.as_bytes());
                    bytes.push(0);
                    store(&mut image, &bytes) as u64
                }
                None => IMAGE_ORDINAL_FLAG64 | 5,
            };
            thunks.extend_from_slice(&thunk.to_le_bytes());
        }
        thunks.extend_from_slice(&[0; 8]);
        let table = store(&mut image, &thunks);
        let mut text = name.as_bytes().to_vec();
        text.push(0);
        let text = store(&mut image, &text);
        let descriptor = RAW_OFFSET + index * 20;
        put_u32(&mut image, descriptor, table);
        put_u32(&mut image, descriptor + 12, text);
        put_u32(&mut image, descriptor + 16, table);
    }
    import_table_hash::canonical_import_bytes(
        headers(&image).as_ref(),
        1,
        &|rva, length| bytes_at(&image, rva, length),
        &|rva| text_at(&image, rva),
    )
    .unwrap()
}

#[test]
fn neither_order_nor_imports_by_number_count() {
    let first = hashed(&[
        ("b.dll", &[Some("two"), None, Some("One")]),
        ("A.dll", &[Some("x"), Some("Y")]),
    ]);
    let second = hashed(&[
        ("A.dll", &[Some("Y"), Some("x"), None, None]),
        ("b.dll", &[Some("One"), Some("two")]),
    ]);
    assert_eq!(first, b"A.dllxYb.dllOnetwo".to_vec());
    assert_eq!(first, second);
}
