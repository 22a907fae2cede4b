use nt_ntdll::compression::{COMPRESSION_ENGINE_MAXIMUM, COMPRESSION_FORMAT_DEFAULT, COMPRESSION_FORMAT_LZNT1, COMPRESSION_FORMAT_NONE, STATUS_BAD_COMPRESSION_BUFFER, STATUS_INVALID_PARAMETER, STATUS_UNSUPPORTED_COMPRESSION, compress_buffer, compression_workspace_size, decompress_buffer, decompress_fragment};

#[test]
fn workspace_sizes_match_reactos_lznt1() {
    assert_eq!(
        compression_workspace_size(COMPRESSION_FORMAT_NONE),
        Err(STATUS_INVALID_PARAMETER)
    );
    assert_eq!(
        compression_workspace_size(COMPRESSION_FORMAT_DEFAULT),
        Err(STATUS_INVALID_PARAMETER)
    );
    assert_eq!(
        compression_workspace_size(0x00FF),
        Err(STATUS_UNSUPPORTED_COMPRESSION)
    );
    assert_eq!(
        compression_workspace_size(COMPRESSION_FORMAT_LZNT1),
        Ok((0x8010, 0x1000))
    );
    assert_eq!(
        compression_workspace_size(COMPRESSION_FORMAT_LZNT1 | COMPRESSION_ENGINE_MAXIMUM),
        Ok((0x10, 0x1000))
    );
}

#[test]
fn compressor_emits_uncompressed_lznt1_chunks() {
    let src = b"WineWineWine\0";
    let mut compressed = [0x11u8; 64];
    let size = compress_buffer(COMPRESSION_FORMAT_LZNT1, src, &mut compressed, 4096).unwrap();
    assert_eq!(
        u16::from_le_bytes([compressed[0], compressed[1]]) & 0x7000,
        0x3000
    );
    let mut out = [0x11u8; 64];
    let final_size =
        decompress_buffer(COMPRESSION_FORMAT_LZNT1, &mut out, &compressed[..size]).unwrap();
    assert_eq!(final_size, src.len());
    assert_eq!(&out[..src.len()], src);
    assert_eq!(out[src.len()], 0x11);
}

#[test]
fn decompresses_back_reference_chunk() {
    let compressed = [0x06, 0xB0, 0x10, b'W', b'i', b'n', b'e', 0x01, 0x30];
    let mut out = [0x11u8; 32];
    let final_size =
        decompress_buffer(COMPRESSION_FORMAT_LZNT1, &mut out, &compressed).unwrap();
    assert_eq!(final_size, 8);
    assert_eq!(&out[..8], b"WineWine");
    assert_eq!(out[8], 0x11);
}

#[test]
fn decompress_fragment_uses_offset() {
    let compressed = [0x07, 0x30, b'W', b'i', b'n', b'e', b'W', b'i', b'n', b'e'];
    let mut out = [0x11u8; 32];
    let mut workspace = [0u8; 0x1000];
    let final_size = decompress_fragment(
        COMPRESSION_FORMAT_LZNT1,
        &mut out,
        &compressed,
        1,
        Some(&mut workspace),
    )
    .unwrap();
    assert_eq!(final_size, 7);
    assert_eq!(&out[..7], b"ineWine");
}

#[test]
fn rejects_invalid_and_incomplete_chunks() {
    let mut out = [0u8; 32];
    assert_eq!(
        decompress_buffer(COMPRESSION_FORMAT_LZNT1, &mut out, &[0x01]),
        Err(STATUS_BAD_COMPRESSION_BUFFER)
    );
    let bad_ref = [0x06, 0xB0, 0x10, b'W', b'i', b'n', b'e', 0x05, 0x40];
    assert_eq!(
        decompress_buffer(COMPRESSION_FORMAT_LZNT1, &mut out, &bad_ref),
        Err(STATUS_BAD_COMPRESSION_BUFFER)
    );
}

#[test]
fn workspace_sizes_depend_on_the_engine() {
    assert_eq!(compression_workspace_size(0x0002), Ok((0x8010, 0x1000)));
    assert_eq!(compression_workspace_size(0x0102), Ok((0x10, 0x1000)));
    assert_eq!(
        compression_workspace_size(0x0202),
        Err(nt_ntdll::compression::STATUS_NOT_SUPPORTED)
    );
    assert_eq!(
        compression_workspace_size(0x0003),
        Err(nt_ntdll::compression::STATUS_UNSUPPORTED_COMPRESSION)
    );
}
