//! LZNT1 compression.
//!
//! Compressed data is a row of chunks of up to 4096 bytes. A chunk starts with a 16-bit header that
//! holds its size less one in the low twelve bits and, in the top bit, whether it is compressed. The
//! compressor stores its chunks; the decompressor reads both kinds, from any offset.

use vstd::prelude::*;

use crate::bytes::{get_u16, le16, lemma_sub_le16};
pub use crate::{NtStatus, STATUS_INVALID_PARAMETER};

pub mod fragments;
pub mod laws;

verus! {

pub const STATUS_SUCCESS: NtStatus = 0x0000_0000;

pub const STATUS_ACCESS_VIOLATION: NtStatus = 0xC000_0005;

pub const STATUS_BUFFER_TOO_SMALL: NtStatus = 0xC000_0023;

pub const STATUS_NOT_SUPPORTED: NtStatus = 0xC000_00BB;

pub const STATUS_BAD_COMPRESSION_BUFFER: NtStatus = 0xC000_0242;

pub const STATUS_UNSUPPORTED_COMPRESSION: NtStatus = 0xC000_025F;

pub const COMPRESSION_FORMAT_MASK: u16 = 0x00FF;

pub const COMPRESSION_ENGINE_MASK: u16 = 0xFF00;

pub const COMPRESSION_FORMAT_NONE: u16 = 0x0000;

pub const COMPRESSION_FORMAT_DEFAULT: u16 = 0x0001;

pub const COMPRESSION_FORMAT_LZNT1: u16 = 0x0002;

pub const COMPRESSION_ENGINE_STANDARD: u16 = 0x0000;

pub const COMPRESSION_ENGINE_MAXIMUM: u16 = 0x0100;

// ---------------------------------------------------------------------------------------------
// Compressed data
// ---------------------------------------------------------------------------------------------

/// The smaller of two numbers.
pub open spec fn least(a: int, b: int) -> int {
    if a < b {
        a
    } else {
        b
    }
}

/// `s` with `out` written over it from `at` on.
pub open spec fn overwritten(s: Seq<u8>, at: int, out: Seq<u8>) -> Seq<u8> {
    s.subrange(0, at) + out + s.subrange(at + out.len(), s.len() as int)
}

/// One stored chunk.
pub open spec fn stored_chunk(block: Seq<u8>) -> Seq<u8> {
    let header = 0x3000 + block.len() - 1;
    seq![(header % 0x100) as u8, (header / 0x100) as u8] + block
}

/// The stored chunks of `src` that fit `room` bytes, and whether all of them do.
pub open spec fn stored(src: Seq<u8>, room: int) -> (Seq<u8>, bool)
    decreases src.len(),
{
    if src.len() == 0 {
        (Seq::empty(), true)
    } else {
        let block = least(src.len() as int, 4096);
        if 2 + block > room {
            (Seq::empty(), false)
        } else {
            let (rest, all) = stored(src.subrange(block, src.len() as int), room - 2 - block);
            (stored_chunk(src.subrange(0, block)) + rest, all)
        }
    }
}

/// What the length part of a back reference is taken modulo, when `pos` bytes were decoded: the
/// more bytes, the more bits tell the distance.
pub open spec fn length_range(pos: int) -> int {
    if pos > 2048 {
        16
    } else if pos > 1024 {
        32
    } else if pos > 512 {
        64
    } else if pos > 256 {
        128
    } else if pos > 128 {
        256
    } else if pos > 64 {
        512
    } else if pos > 32 {
        1024
    } else if pos > 16 {
        2048
    } else {
        4096
    }
}

/// `out` followed by `n` bytes, each the one `distance` bytes before it.
pub open spec fn repeated(out: Seq<u8>, distance: int, n: int) -> Seq<u8>
    decreases n,
{
    if n <= 0 {
        out
    } else {
        let before = repeated(out, distance, n - 1);
        before.push(before[before.len() - distance])
    }
}

/// What a compressed chunk decodes to from `sp` on, when `out` was decoded and at most `room` bytes
/// are kept. `left` of the eight tokens of a group are to come, and `bits` tells which of them are
/// back references. Reports whether the chunk made sense as far as it was read.
pub open spec fn decoded(
    src: Seq<u8>,
    sp: int,
    bits: int,
    left: int,
    out: Seq<u8>,
    room: int,
) -> (Seq<u8>, bool)
    decreases src.len() - sp,
{
    if sp >= src.len() {
        (out, true)
    } else if left <= 0 {
        if out.len() < room {
            decoded(src, sp + 1, src[sp] as int, 8, out, room)
        } else {
            (out, true)
        }
    } else if bits % 2 == 1 {
        let range = length_range(out.len() as int);
        let code = le16(src, sp) as int;
        let length = code % range + 3;
        let distance = code / range + 1;
        if sp + 2 > src.len() || out.len() < distance {
            (out, false)
        } else if out.len() + length > room {
            (repeated(out, distance, room - out.len()), true)
        } else {
            decoded(src, sp + 2, bits / 2, left - 1, repeated(out, distance, length), room)
        }
    } else if out.len() >= room {
        (out, true)
    } else {
        decoded(src, sp + 1, bits / 2, left - 1, out.push(src[sp]), room)
    }
}

/// What a compressed chunk decodes to when at most `room` bytes are kept.
pub open spec fn decoded_chunk(src: Seq<u8>, room: int) -> (Seq<u8>, bool) {
    decoded(src, 0, 0, 0, Seq::empty(), room)
}

/// The size of the chunk with a header.
pub open spec fn chunk_size(header: u16) -> int {
    header as int % 4096 + 1
}

/// `n` zero bytes.
pub open spec fn zeros(n: int) -> Seq<u8> {
    Seq::new(n as nat, |i: int| 0u8)
}

/// Where decoding stands.
pub enum Reached {
    /// Go on with the chunk at `sp`.
    Chunk { sp: int, offset: int, out: Seq<u8> },
    /// Nothing more is decoded.
    Stop { out: Seq<u8>, status: Result<(), NtStatus> },
}

/// Decode the chunk at `sp` behind `out`, when at most `room` bytes are kept. A chunk starts at a
/// multiple of 4096 bytes; a short one before it is filled up with zeros. A header of zero ends the
/// data.
pub open spec fn next_chunk(src: Seq<u8>, sp: int, offset: int, out: Seq<u8>, room: int) -> Reached {
    let header = le16(src, sp);
    let body = sp + 2;
    let size = chunk_size(header);
    let over = (out.len() + offset) % 4096;
    let fill = if over == 0 {
        0
    } else {
        4096 - over
    };
    let filled = out + zeros(fill);
    if sp + 2 > src.len() || header == 0 {
        Reached::Stop { out, status: Ok(()) }
    } else if body + size > src.len() {
        Reached::Stop { out, status: Err(STATUS_BAD_COMPRESSION_BUFFER) }
    } else if over != 0 && out.len() + fill >= room {
        Reached::Stop { out, status: Ok(()) }
    } else if filled.len() >= room {
        Reached::Stop { out: filled, status: Ok(()) }
    } else if header >= 0x8000 {
        let (chunk, ok) = decoded_chunk(src.subrange(body, body + size), room - filled.len());
        if ok {
            Reached::Chunk { sp: body + size, offset, out: filled + chunk }
        } else {
            Reached::Stop { out: filled + chunk, status: Err(STATUS_BAD_COMPRESSION_BUFFER) }
        }
    } else {
        let block = least(size, room - filled.len());
        Reached::Chunk {
            sp: body + size,
            offset,
            out: filled + src.subrange(body, body + block),
        }
    }
}

/// What the chunks from `sp` on decode to, behind `out`, and how decoding ends.
pub open spec fn chunks_decoded(
    src: Seq<u8>,
    sp: int,
    offset: int,
    out: Seq<u8>,
    room: int,
) -> (Seq<u8>, Result<(), NtStatus>)
    decreases src.len() - sp,
{
    match next_chunk(src, sp, offset, out, room) {
        Reached::Stop { out, status } => (out, status),
        Reached::Chunk { sp: next, offset, out } => chunks_decoded(src, next, offset, out, room),
    }
}

/// Pass over the chunks that lie in front of `offset`.
pub open spec fn chunks_skipped(src: Seq<u8>, sp: int, offset: int) -> Reached
    decreases offset,
{
    let header = le16(src, sp);
    if offset < 4096 || sp + 2 > src.len() {
        Reached::Chunk { sp, offset, out: Seq::empty() }
    } else if header == 0 {
        Reached::Stop { out: Seq::empty(), status: Ok(()) }
    } else if sp + 2 + chunk_size(header) > src.len() {
        Reached::Stop { out: Seq::empty(), status: Err(STATUS_BAD_COMPRESSION_BUFFER) }
    } else {
        chunks_skipped(src, sp + 2 + chunk_size(header), offset - 4096)
    }
}

/// Decode the chunk that `offset` lies in, from `offset` on. A compressed one is decoded into a
/// workspace of `workspace` bytes first.
pub open spec fn partial_chunk(
    src: Seq<u8>,
    sp: int,
    offset: int,
    room: int,
    workspace: Option<int>,
) -> Reached {
    let header = le16(src, sp);
    let body = sp + 2;
    let size = chunk_size(header);
    let nothing = Seq::<u8>::empty();
    if offset == 0 || sp + 2 > src.len() {
        Reached::Chunk { sp, offset, out: nothing }
    } else if header == 0 {
        Reached::Stop { out: nothing, status: Ok(()) }
    } else if body + size > src.len() {
        Reached::Stop { out: nothing, status: Err(STATUS_BAD_COMPRESSION_BUFFER) }
    } else if room == 0 {
        Reached::Stop { out: nothing, status: Ok(()) }
    } else if header >= 0x8000 {
        if workspace is None || workspace->0 < 4096 {
            Reached::Stop { out: nothing, status: Err(STATUS_ACCESS_VIOLATION) }
        } else {
            let (chunk, ok) = decoded_chunk(src.subrange(body, body + size), 4096);
            if !ok {
                Reached::Stop { out: nothing, status: Err(STATUS_BAD_COMPRESSION_BUFFER) }
            } else if chunk.len() > offset {
                Reached::Chunk {
                    sp: body + size,
                    offset,
                    out: chunk.subrange(offset, offset + least(chunk.len() - offset, room)),
                }
            } else {
                Reached::Chunk { sp: body + size, offset, out: nothing }
            }
        }
    } else if size > offset {
        Reached::Chunk {
            sp: body + size,
            offset,
            out: src.subrange(body + offset, body + offset + least(size - offset, room)),
        }
    } else {
        Reached::Chunk { sp: body + size, offset, out: nothing }
    }
}

/// What decompressing from `offset` on writes, and how it ends.
pub open spec fn decompressed(src: Seq<u8>, offset: int, room: int, workspace: Option<int>) -> (
    Seq<u8>,
    Result<(), NtStatus>,
) {
    if src.len() < 2 {
        (Seq::empty(), Err(STATUS_BAD_COMPRESSION_BUFFER))
    } else {
        match chunks_skipped(src, 0, offset) {
            Reached::Stop { out, status } => (out, status),
            Reached::Chunk { sp, offset, .. } => match partial_chunk(
                src,
                sp,
                offset,
                room,
                workspace,
            ) {
                Reached::Stop { out, status } => (out, status),
                Reached::Chunk { sp, offset, out } => chunks_decoded(src, sp, offset, out, room),
            },
        }
    }
}

// ---------------------------------------------------------------------------------------------
// Lemmas
// ---------------------------------------------------------------------------------------------

proof fn lemma_repeated(out: Seq<u8>, distance: int, n: int)
    requires
        0 <= n,
    ensures
        repeated(out, distance, n).len() == out.len() + n,
    decreases n,
{
    if n > 0 {
        lemma_repeated(out, distance, n - 1);
    }
}

proof fn lemma_decoded_len(src: Seq<u8>, sp: int, bits: int, left: int, out: Seq<u8>, room: int)
    requires
        out.len() <= room,
    ensures
        out.len() <= decoded(src, sp, bits, left, out, room).0.len() <= room,
    decreases src.len() - sp,
{
    if sp >= src.len() {
    } else if left <= 0 {
        if out.len() < room {
            lemma_decoded_len(src, sp + 1, src[sp] as int, 8, out, room);
        }
    } else if bits % 2 == 1 {
        let range = length_range(out.len() as int);
        let code = le16(src, sp) as int;
        let length = code % range + 3;
        let distance = code / range + 1;
        if sp + 2 > src.len() || out.len() < distance {
        } else if out.len() + length > room {
            lemma_repeated(out, distance, room - out.len());
        } else {
            lemma_repeated(out, distance, length);
            lemma_decoded_len(
                src,
                sp + 2,
                bits / 2,
                left - 1,
                repeated(out, distance, length),
                room,
            );
        }
    } else if out.len() < room {
        lemma_decoded_len(src, sp + 1, bits / 2, left - 1, out.push(src[sp]), room);
    }
}

proof fn lemma_stored_round_trip(
    src: Seq<u8>,
    room: int,
    comp: Seq<u8>,
    sp: int,
    out: Seq<u8>,
    dst_room: int,
)
    requires
        stored(src, room).1,
        0 <= sp <= comp.len(),
        comp.subrange(sp, comp.len() as int) == stored(src, room).0,
        out.len() % 4096 == 0 || src.len() == 0,
        out.len() + src.len() <= dst_room,
    ensures
        chunks_decoded(comp, sp, 0, out, dst_room) == (out + src, Ok::<(), NtStatus>(())),
    decreases src.len(),
{
    if src.len() == 0 {
        assert(comp.subrange(sp, comp.len() as int).len() == comp.len() - sp);
        assert(out + src =~= out);
    } else {
        let block = least(src.len() as int, 4096);
        let rest = src.subrange(block, src.len() as int);
        let first = src.subrange(0, block);
        let chunk = stored_chunk(first);
        let tail = stored(rest, room - 2 - block).0;
        assert(comp.subrange(sp, comp.len() as int).len() == chunk.len() + tail.len());
        assert(comp.subrange(sp, sp + chunk.len()) =~= comp.subrange(
            sp,
            comp.len() as int,
        ).subrange(0, chunk.len() as int));
        assert(comp.subrange(sp, sp + chunk.len()) =~= chunk);
        lemma_sub_le16(comp, sp, chunk, 0);
        let header = le16(comp, sp);
        assert(header == 0x3000 + block - 1) by {
            reveal(le16);
        }
        let body = sp + 2;
        let bytes = comp.subrange(body, body + block);
        assert forall|i: int| 0 <= i < block implies #[trigger] bytes[i] == first[i] by {
            assert(comp.subrange(sp, sp + chunk.len())[2 + i] == chunk[2 + i]);
        }
        assert(bytes =~= first);
        assert(out + zeros(0) =~= out);
        assert(comp.subrange(body + block, comp.len() as int) =~= comp.subrange(
            sp,
            comp.len() as int,
        ).subrange(2 + block, comp.len() - sp));
        assert(comp.subrange(body + block, comp.len() as int) =~= tail);
        lemma_stored_round_trip(
            rest,
            room - 2 - block,
            comp,
            body + block,
            out + first,
            dst_room,
        );
        assert(out + first + rest =~= out + src);
    }
}

/// Decompressing what was compressed gives the data back, where the destination has room for it.
pub proof fn compression_round_trip(src: Seq<u8>, room: int, dst_room: int)
    requires
        src.len() > 0,
        stored(src, room).1,
        src.len() <= dst_room,
    ensures
        decompressed(stored(src, room).0, 0, dst_room, None) == (src, Ok::<(), NtStatus>(())),
{
    let comp = stored(src, room).0;
    assert(comp.subrange(0, comp.len() as int) =~= comp);
    lemma_stored_round_trip(src, room, comp, 0, Seq::empty(), dst_room);
    assert(Seq::<u8>::empty() + src =~= src);
}

/// What is written never exceeds the destination.
pub proof fn decompression_fits(
    src: Seq<u8>,
    sp: int,
    offset: int,
    out: Seq<u8>,
    room: int,
)
    requires
        0 <= sp,
        out.len() <= room,
    ensures
        out.len() <= chunks_decoded(src, sp, offset, out, room).0.len() <= room,
    decreases src.len() - sp,
{
    let header = le16(src, sp);
    let body = sp + 2;
    let size = chunk_size(header);
    let over = (out.len() + offset) % 4096;
    let fill = if over == 0 {
        0
    } else {
        4096 - over
    };
    let filled = out + zeros(fill);
    if header >= 0x8000 && filled.len() < room {
        lemma_decoded_len(
            src.subrange(body, body + size),
            0,
            0,
            0,
            Seq::empty(),
            room - filled.len(),
        );
    }
    match next_chunk(src, sp, offset, out, room) {
        Reached::Stop { .. } => {},
        Reached::Chunk { sp: next, offset, out: more } => {
            decompression_fits(src, next, offset, more, room);
        },
    }
}

// ---------------------------------------------------------------------------------------------
// Compressing
// ---------------------------------------------------------------------------------------------

/// The sizes of the workspaces that compressing and decompressing a fragment need.
pub fn compression_workspace_size(format_and_engine: u16) -> (r: Result<(u32, u32), NtStatus>)
    ensures
        r == ({
            let format = format_and_engine as int % 256;
            let engine = format_and_engine as int / 256;
            if format == 0 || format == 1 {
                Err::<(u32, u32), NtStatus>(STATUS_INVALID_PARAMETER)
            } else if format != 2 {
                Err(STATUS_UNSUPPORTED_COMPRESSION)
            } else if engine == 0 {
                Ok((0x8010u32, 0x1000u32))
            } else if engine == 1 {
                Ok((0x10u32, 0x1000u32))
            } else {
                Err(STATUS_NOT_SUPPORTED)
            }
        }),
{
    let format: u16 = format_and_engine % 256;
    let engine: u16 = format_and_engine / 256;
    if format == COMPRESSION_FORMAT_NONE || format == COMPRESSION_FORMAT_DEFAULT {
        Err(STATUS_INVALID_PARAMETER)
    } else if format != COMPRESSION_FORMAT_LZNT1 {
        Err(STATUS_UNSUPPORTED_COMPRESSION)
    } else if engine == 0 {
        Ok((0x8010, 0x1000))
    } else if engine == 1 {
        Ok((0x10, 0x1000))
    } else {
        Err(STATUS_NOT_SUPPORTED)
    }
}

/// Copy `n` bytes of `src` at `from` over `dst` at `at`.
fn copy_over(dst: &mut [u8], at: usize, src: &[u8], from: usize, n: usize)
    requires
        at + n <= old(dst)@.len(),
        from + n <= src@.len(),
    ensures
        final(dst)@ == overwritten(old(dst)@, at as int, src@.subrange(from as int, from + n)),
{
    let dst_len: usize = dst.len();
    let src_len: usize = src.len();
    let mut i: usize = 0;
    assert(dst@ =~= overwritten(dst@, at as int, src@.subrange(from as int, from as int)));
    while i < n
        invariant
            i <= n,
            dst_len == dst@.len() == old(dst)@.len(),
            src_len == src@.len(),
            at + n <= dst_len,
            from + n <= src_len,
            dst@ == overwritten(old(dst)@, at as int, src@.subrange(from as int, from + i)),
        decreases n - i,
    {
        dst[at + i] = src[from + i];
        i += 1;
        assert(dst@ =~= overwritten(old(dst)@, at as int, src@.subrange(from as int, from + i)));
    }
}

/// Overwriting twice in a row is overwriting with both.
proof fn lemma_overwritten_append(s: Seq<u8>, at: int, a: Seq<u8>, b: Seq<u8>)
    requires
        0 <= at,
        at + a.len() + b.len() <= s.len(),
    ensures
        overwritten(overwritten(s, at, a), at + a.len(), b) == overwritten(s, at, a + b),
        overwritten(s, at, a).len() == s.len(),
{
    assert(overwritten(overwritten(s, at, a), at + a.len(), b) =~= overwritten(s, at, a + b));
}

/// Store chunks of `src` in `dst`.
fn compress_lznt1_uncompressed_chunks(src: &[u8], dst: &mut [u8]) -> (r: Result<usize, NtStatus>)
    ensures
        final(dst)@ == overwritten(old(dst)@, 0, stored(src@, old(dst)@.len() as int).0),
        match r {
            Ok(n) => stored(src@, old(dst)@.len() as int).1 && n == stored(
                src@,
                old(dst)@.len() as int,
            ).0.len(),
            Err(e) => !stored(src@, old(dst)@.len() as int).1 && e == STATUS_BUFFER_TOO_SMALL,
        },
{
    let ghost whole = stored(src@, dst@.len() as int);
    let ghost mut done: Seq<u8> = Seq::empty();
    let room: usize = dst.len();
    let length: usize = src.len();
    let mut sp: usize = 0;
    let mut dp: usize = 0;
    proof {
        assert(src@.subrange(0, src@.len() as int) =~= src@);
        assert(overwritten(dst@, 0, done) =~= dst@);
        assert(done + whole.0 =~= whole.0);
    }
    while sp < length
        invariant
            sp <= length == src@.len(),
            dp <= room == dst@.len(),
            room == old(dst)@.len(),
            whole == stored(src@, room as int),
            dp == done.len(),
            dst@ == overwritten(old(dst)@, 0, done),
            whole.0 == done + stored(src@.subrange(sp as int, length as int), room - dp).0,
            whole.1 == stored(src@.subrange(sp as int, length as int), room - dp).1,
        decreases length - sp,
    {
        let block: usize = if length - sp < 4096 {
            length - sp
        } else {
            4096
        };
        let ghost left = src@.subrange(sp as int, length as int);
        if room - dp < 2 + block {
            assert(done + Seq::<u8>::empty() =~= done);
            return Err(STATUS_BUFFER_TOO_SMALL);
        }
        let header: u16 = 0x3000 + (block as u16 - 1);
        let low: u8 = (header % 0x100) as u8;
        let high: u8 = (header / 0x100) as u8;
        dst[dp] = low;
        dst[dp + 1] = high;
        proof {
            let pair = seq![low, high];
            lemma_overwritten_append(old(dst)@, 0, done, pair);
            assert(dst@ =~= overwritten(overwritten(old(dst)@, 0, done), dp as int, pair));
        }
        copy_over(dst, dp + 2, src, sp, block);
        proof {
            let pair = seq![low, high];
            let bytes = src@.subrange(sp as int, sp + block);
            lemma_overwritten_append(old(dst)@, 0, done + pair, bytes);
            assert(left.subrange(0, block as int) =~= bytes);
            assert(done + pair + bytes =~= done + stored_chunk(bytes));
            assert(left.subrange(block as int, left.len() as int) =~= src@.subrange(
                sp + block,
                length as int,
            ));
            let rest = stored(src@.subrange(sp + block, length as int), room - dp - 2 - block).0;
            assert(done + (stored_chunk(bytes) + rest) =~= done + stored_chunk(bytes) + rest);
            done = done + stored_chunk(bytes);
        }
        dp += 2 + block;
        sp += block;
    }
    assert(done + Seq::<u8>::empty() =~= done);
    Ok(dp)
}

/// What compressing in a format gives.
pub open spec fn compress_status(format_and_engine: u16) -> Result<(), NtStatus> {
    let format = format_and_engine as int % 256;
    if format == 0 || format == 1 {
        Err(STATUS_INVALID_PARAMETER)
    } else if format != 2 {
        Err(STATUS_UNSUPPORTED_COMPRESSION)
    } else {
        Ok(())
    }
}

/// Compress data. The chunk size is not used.
pub fn compress_buffer(
    format_and_engine: u16,
    uncompressed: &[u8],
    compressed: &mut [u8],
    _chunk_size: u32,
) -> (r: Result<usize, NtStatus>)
    ensures
        match compress_status(format_and_engine) {
            Err(e) => r == Err::<usize, NtStatus>(e) && final(compressed)@ == old(compressed)@,
            Ok(_) => {
                let (out, all) = stored(uncompressed@, old(compressed)@.len() as int);
                &&& final(compressed)@ == overwritten(old(compressed)@, 0, out)
                &&& match r {
                    Ok(n) => all && n == out.len(),
                    Err(e) => !all && e == STATUS_BUFFER_TOO_SMALL,
                }
            },
        },
{
    let format: u16 = format_and_engine % 256;
    if format == COMPRESSION_FORMAT_NONE || format == COMPRESSION_FORMAT_DEFAULT {
        Err(STATUS_INVALID_PARAMETER)
    } else if format == COMPRESSION_FORMAT_LZNT1 {
        compress_lznt1_uncompressed_chunks(uncompressed, compressed)
    } else {
        Err(STATUS_UNSUPPORTED_COMPRESSION)
    }
}

// ---------------------------------------------------------------------------------------------
// Decompressing
// ---------------------------------------------------------------------------------------------

/// What the length part of a back reference is taken modulo.
fn length_range_of(pos: usize) -> (range: u16)
    ensures
        range == length_range(pos as int),
        16 <= range <= 4096,
{
    if pos > 2048 {
        16
    } else if pos > 1024 {
        32
    } else if pos > 512 {
        64
    } else if pos > 256 {
        128
    } else if pos > 128 {
        256
    } else if pos > 64 {
        512
    } else if pos > 32 {
        1024
    } else if pos > 16 {
        2048
    } else {
        4096
    }
}

/// Repeat bytes of `dst[start..start + have]` behind them.
fn repeat_bytes(dst: &mut [u8], start: usize, have: usize, distance: usize, n: usize, Ghost(out): Ghost<
    Seq<u8>,
>, Ghost(orig): Ghost<Seq<u8>>)
    requires
        old(dst)@ == overwritten(orig, start as int, out),
        orig.len() == old(dst)@.len(),
        have == out.len(),
        1 <= distance <= have,
        start + have + n <= old(dst)@.len(),
    ensures
        final(dst)@ == overwritten(orig, start as int, repeated(out, distance as int, n as int)),
{
    let length: usize = dst.len();
    let mut i: usize = 0;
    while i < n
        invariant
            i <= n,
            length == dst@.len() == orig.len(),
            have == out.len(),
            1 <= distance <= have,
            start + have + n <= length,
            dst@ == overwritten(orig, start as int, repeated(out, distance as int, i as int)),
        decreases n - i,
    {
        let ghost before = repeated(out, distance as int, i as int);
        proof {
            lemma_repeated(out, distance as int, i as int);
        }
        let at: usize = start + have + i;
        let value: u8 = dst[at - distance];
        assert(value == before[before.len() - distance]);
        dst[at] = value;
        assert(dst@ =~= overwritten(orig, start as int, before.push(value)));
        i += 1;
    }
}

/// Decode a compressed chunk into `dst[start..limit]`.
fn lznt1_decompress_chunk(
    dst: &mut [u8],
    start: usize,
    limit: usize,
    src: &[u8],
    from: usize,
    to: usize,
) -> (r: Option<usize>)
    requires
        start <= limit <= old(dst)@.len(),
        from <= to <= src@.len(),
    ensures
        ({
            let (out, ok) = decoded_chunk(src@.subrange(from as int, to as int), limit - start);
            &&& final(dst)@ == overwritten(old(dst)@, start as int, out)
            &&& out.len() <= limit - start
            &&& match r {
                Some(n) => ok && n == out.len(),
                None => !ok,
            }
        }),
{
    let room: usize = limit - start;
    let length: usize = to - from;
    let dst_len: usize = dst.len();
    let src_len: usize = src.len();
    let ghost chunk = src@.subrange(from as int, to as int);
    let ghost orig = dst@;
    let ghost mut out: Seq<u8> = Seq::empty();
    let ghost goal = decoded_chunk(chunk, room as int);
    let mut sp: usize = 0;
    let mut dp: usize = 0;
    let mut bits: u8 = 0;
    let mut left: u8 = 0;
    proof {
        lemma_decoded_len(chunk, 0, 0, 0, out, room as int);
        assert(overwritten(orig, start as int, out) =~= orig);
    }
    while sp < length
        invariant
            orig == old(dst)@,
            dst_len == dst@.len() == orig.len(),
            src_len == src@.len(),
            from <= to <= src_len,
            length == to - from,
            chunk == src@.subrange(from as int, to as int),
            room == limit - start,
            start <= limit <= dst_len,
            sp <= length,
            dp == out.len(),
            dp <= room,
            left <= 8,
            dst@ == overwritten(orig, start as int, out),
            goal == decoded_chunk(chunk, room as int),
            goal.0.len() <= room,
            goal == decoded(chunk, sp as int, bits as int, left as int, out, room as int),
        decreases length - sp,
    {
        if left == 0 {
            if dp >= room {
                return Some(dp);
            }
            bits = src[from + sp];
            left = 8;
            sp += 1;
        } else if bits % 2 == 1 {
            if length - sp < 2 {
                return None;
            }
            let code: u16 = get_u16(src, from + sp);
            assert(code == le16(chunk, sp as int)) by {
                reveal(le16);
            }
            let range: u16 = length_range_of(dp);
            assert(code as int / range as int <= code) by (nonlinear_arith)
                requires
                    range >= 16,
                    code >= 0,
            ;
            let count: usize = (code % range) as usize + 3;
            let distance: usize = (code / range) as usize + 1;
            if dp < distance {
                return None;
            }
            if count > room - dp {
                repeat_bytes(dst, start, dp, distance, room - dp, Ghost(out), Ghost(orig));
                proof {
                    lemma_repeated(out, distance as int, room - dp);
                }
                return Some(room);
            }
            repeat_bytes(dst, start, dp, distance, count, Ghost(out), Ghost(orig));
            proof {
                lemma_repeated(out, distance as int, count as int);
                out = repeated(out, distance as int, count as int);
            }
            dp += count;
            sp += 2;
            bits = bits / 2;
            left = left - 1;
        } else {
            if dp >= room {
                return Some(dp);
            }
            let value: u8 = src[from + sp];
            dst[start + dp] = value;
            proof {
                assert(value == chunk[sp as int]);
                assert(dst@ =~= overwritten(orig, start as int, out.push(value)));
                out = out.push(value);
            }
            dp += 1;
            sp += 1;
            bits = bits / 2;
            left = left - 1;
        }
    }
    Some(dp)
}

/// Set `n` bytes of `dst` at `at` to zero.
fn clear_bytes(dst: &mut [u8], at: usize, n: usize)
    requires
        at + n <= old(dst)@.len(),
    ensures
        final(dst)@ == overwritten(old(dst)@, at as int, zeros(n as int)),
{
    let length: usize = dst.len();
    let mut i: usize = 0;
    assert(dst@ =~= overwritten(old(dst)@, at as int, zeros(0)));
    while i < n
        invariant
            i <= n,
            length == dst@.len() == old(dst)@.len(),
            at + n <= length,
            dst@ == overwritten(old(dst)@, at as int, zeros(i as int)),
        decreases n - i,
    {
        dst[at + i] = 0;
        i += 1;
        assert(dst@ =~= overwritten(old(dst)@, at as int, zeros(i as int)));
    }
}

/// Decode the chunk of `src` at `sp` behind the `dp` bytes decoded before. `Err` carries how
/// decompressing ends.
fn decompress_next(dst: &mut [u8], src: &[u8], sp: usize, dp: usize, offset: usize, Ghost(orig): Ghost<
    Seq<u8>,
>, Ghost(out): Ghost<Seq<u8>>) -> (r: Result<(usize, usize), Result<usize, NtStatus>>)
    requires
        orig.len() == old(dst)@.len(),
        old(dst)@ == overwritten(orig, 0, out),
        dp == out.len(),
        dp <= old(dst)@.len(),
        sp <= src@.len(),
    ensures
        match next_chunk(src@, sp as int, offset as int, out, orig.len() as int) {
            Reached::Stop { out, status } => {
                &&& final(dst)@ == overwritten(orig, 0, out)
                &&& r matches Err(outcome) && match outcome {
                    Ok(n) => status is Ok && n == out.len(),
                    Err(e) => status == Err::<(), NtStatus>(e),
                }
            },
            Reached::Chunk { sp: next, offset: o, out } => {
                &&& final(dst)@ == overwritten(orig, 0, out)
                &&& out.len() <= orig.len()
                &&& o == offset
                &&& r matches Ok((a, b)) && a == next && b == out.len() && sp < next <= src@.len()
            },
        },
{
    let room: usize = dst.len();
    let length: usize = src.len();
    if length - sp < 2 {
        return Err(Ok(dp));
    }
    let header: u16 = get_u16(src, sp);
    if header == 0 {
        return Err(Ok(dp));
    }
    let body: usize = sp + 2;
    let size: usize = (header % 4096) as usize + 1;
    if length - body < size {
        return Err(Err(STATUS_BAD_COMPRESSION_BUFFER));
    }
    let over: usize = (dp % 4096 + offset % 4096) % 4096;
    assert(over == (out.len() + offset) % 4096);
    let fill: usize = if over == 0 {
        0
    } else {
        4096 - over
    };
    if over != 0 && fill >= room - dp {
        return Err(Ok(dp));
    }
    clear_bytes(dst, dp, fill);
    let ghost filled = out + zeros(fill as int);
    proof {
        lemma_overwritten_append(orig, 0, out, zeros(fill as int));
    }
    let at: usize = dp + fill;
    if at >= room {
        return Err(Ok(at));
    }
    if header >= 0x8000 {
        let ghost chunk = decoded_chunk(src@.subrange(body as int, body + size), room - at);
        let written = lznt1_decompress_chunk(dst, at, room, src, body, body + size);
        proof {
            lemma_overwritten_append(orig, 0, filled, chunk.0);
        }
        match written {
            Some(n) => Ok((body + size, at + n)),
            None => Err(Err(STATUS_BAD_COMPRESSION_BUFFER)),
        }
    } else {
        let block: usize = if size < room - at {
            size
        } else {
            room - at
        };
        copy_over(dst, at, src, body, block);
        proof {
            lemma_overwritten_append(orig, 0, filled, src@.subrange(body as int, body + block));
        }
        Ok((body + size, at + block))
    }
}

/// Decode the chunks of `src` from `from` on, behind the `have` bytes decoded before.
fn decompress_chunks(dst: &mut [u8], src: &[u8], from: usize, have: usize, offset: usize, Ghost(
    orig,
): Ghost<Seq<u8>>, Ghost(before): Ghost<Seq<u8>>) -> (r: Result<usize, NtStatus>)
    requires
        orig.len() == old(dst)@.len(),
        old(dst)@ == overwritten(orig, 0, before),
        have == before.len(),
        have <= old(dst)@.len(),
        from <= src@.len(),
    ensures
        ({
            let (out, status) = chunks_decoded(
                src@,
                from as int,
                offset as int,
                before,
                orig.len() as int,
            );
            &&& final(dst)@ == overwritten(orig, 0, out)
            &&& match r {
                Ok(n) => status is Ok && n == out.len(),
                Err(e) => status == Err::<(), NtStatus>(e),
            }
        }),
{
    let ghost goal = chunks_decoded(src@, from as int, offset as int, before, orig.len() as int);
    let ghost mut out: Seq<u8> = before;
    let mut sp: usize = from;
    let mut dp: usize = have;
    loop
        invariant
            goal == chunks_decoded(
                src@,
                from as int,
                offset as int,
                before,
                orig.len() as int,
            ),
            dst@.len() == orig.len(),
            sp <= src@.len(),
            dp == out.len(),
            dp <= orig.len(),
            dst@ == overwritten(orig, 0, out),
            goal == chunks_decoded(src@, sp as int, offset as int, out, orig.len() as int),
        decreases src@.len() - sp,
    {
        let ghost next = next_chunk(src@, sp as int, offset as int, out, orig.len() as int);
        match decompress_next(dst, src, sp, dp, offset, Ghost(orig), Ghost(out)) {
            Ok((a, b)) => {
                proof {
                    out = next->Chunk_out;
                    assert(overwritten(orig, 0, out).len() == orig.len());
                }
                sp = a;
                dp = b;
            },
            Err(outcome) => return outcome,
        }
    }
}

/// Pass over the chunks in front of `offset`. `Err` carries how decompressing ends.
fn skip_chunks(src: &[u8], offset: usize) -> (r: Result<(usize, usize), Result<usize, NtStatus>>)
    ensures
        match r {
            Ok((sp, left)) => chunks_skipped(src@, 0, offset as int) == (Reached::Chunk {
                sp: sp as int,
                offset: left as int,
                out: Seq::empty(),
            }) && sp <= src@.len(),
            Err(Ok(n)) => n == 0 && chunks_skipped(src@, 0, offset as int) == (Reached::Stop {
                out: Seq::empty(),
                status: Ok(()),
            }),
            Err(Err(e)) => chunks_skipped(src@, 0, offset as int) == (Reached::Stop {
                out: Seq::empty(),
                status: Err(e),
            }),
        },
{
    let ghost goal = chunks_skipped(src@, 0, offset as int);
    let length: usize = src.len();
    let mut sp: usize = 0;
    let mut left: usize = offset;
    while left >= 4096 && length - sp >= 2
        invariant
            length == src@.len(),
            sp <= length,
            goal == chunks_skipped(src@, 0, offset as int),
            goal == chunks_skipped(src@, sp as int, left as int),
        decreases left,
    {
        let header: u16 = get_u16(src, sp);
        if header == 0 {
            return Err(Ok(0));
        }
        let size: usize = (header % 4096) as usize + 1;
        if length - sp - 2 < size {
            return Err(Err(STATUS_BAD_COMPRESSION_BUFFER));
        }
        sp = sp + 2 + size;
        left = left - 4096;
    }
    Ok((sp, left))
}

/// How long a workspace is.
pub open spec fn workspace_len(workspace: Option<&mut [u8]>) -> Option<int> {
    match workspace {
        Some(w) => Some(w@.len() as int),
        None => None,
    }
}

/// Decompress from `offset` on.
fn lznt1_decompress(
    dst: &mut [u8],
    src: &[u8],
    offset: usize,
    workspace: Option<&mut [u8]>,
) -> (r: Result<usize, NtStatus>)
    ensures
        ({
            let (out, status) = decompressed(
                src@,
                offset as int,
                old(dst)@.len() as int,
                workspace_len(workspace),
            );
            &&& final(dst)@ == overwritten(old(dst)@, 0, out)
            &&& match r {
                Ok(n) => status is Ok && n == out.len(),
                Err(e) => status == Err::<(), NtStatus>(e),
            }
        }),
{
    let ghost orig = dst@;
    let ghost nothing = Seq::<u8>::empty();
    assert(overwritten(orig, 0, nothing) =~= orig);
    let room: usize = dst.len();
    let length: usize = src.len();
    if length < 2 {
        return Err(STATUS_BAD_COMPRESSION_BUFFER);
    }
    let (sp, left) = match skip_chunks(src, offset) {
        Ok(reached) => reached,
        Err(outcome) => return outcome,
    };
    if left == 0 || length - sp < 2 {
        return decompress_chunks(dst, src, sp, 0, left, Ghost(orig), Ghost(nothing));
    }
    let header: u16 = get_u16(src, sp);
    if header == 0 {
        return Ok(0);
    }
    let body: usize = sp + 2;
    let size: usize = (header % 4096) as usize + 1;
    if length - body < size {
        return Err(STATUS_BAD_COMPRESSION_BUFFER);
    }
    if room == 0 {
        return Ok(0);
    }
    let mut dp: usize = 0;
    let ghost mut out: Seq<u8> = nothing;
    if header >= 0x8000 {
        match workspace {
            None => return Err(STATUS_ACCESS_VIOLATION),
            Some(w) => {
                if w.len() < 4096 {
                    return Err(STATUS_ACCESS_VIOLATION);
                }
                let ghost chunk = decoded_chunk(src@.subrange(body as int, body + size), 4096);
                match lznt1_decompress_chunk(w, 0, 4096, src, body, body + size) {
                    None => return Err(STATUS_BAD_COMPRESSION_BUFFER),
                    Some(n) => {
                        if n > left {
                            let block: usize = if n - left < room {
                                n - left
                            } else {
                                room
                            };
                            copy_over(dst, 0, w, left, block);
                            proof {
                                out = chunk.0.subrange(left as int, left + block);
                                assert(w@.subrange(left as int, left + block) =~= out);
                            }
                            dp = block;
                        }
                    },
                }
            },
        }
    } else if size > left {
        let block: usize = if size - left < room {
            size - left
        } else {
            room
        };
        copy_over(dst, 0, src, body + left, block);
        proof {
            out = src@.subrange(body + left, body + left + block);
        }
        dp = block;
    }
    decompress_chunks(dst, src, body + size, dp, left, Ghost(orig), Ghost(out))
}

/// What decompressing a format gives.
pub open spec fn decompress_status(format: u16) -> Result<(), NtStatus> {
    let f = if format as int / 256 % 2 == 1 {
        format - 256
    } else {
        format as int
    };
    if f == 2 {
        Ok(())
    } else if f == 0 || f == 1 {
        Err(STATUS_INVALID_PARAMETER)
    } else {
        Err(STATUS_UNSUPPORTED_COMPRESSION)
    }
}

/// Decompress data.
pub fn decompress_buffer(format: u16, uncompressed: &mut [u8], compressed: &[u8]) -> (r: Result<
    usize,
    NtStatus,
>)
    ensures
        match decompress_status(format) {
            Err(e) => r == Err::<usize, NtStatus>(e) && final(uncompressed)@ == old(uncompressed)@,
            Ok(_) => {
                let (out, status) = decompressed(
                    compressed@,
                    0,
                    old(uncompressed)@.len() as int,
                    None,
                );
                &&& final(uncompressed)@ == overwritten(old(uncompressed)@, 0, out)
                &&& match r {
                    Ok(n) => status is Ok && n == out.len(),
                    Err(e) => status == Err::<(), NtStatus>(e),
                }
            },
        },
{
    decompress_fragment(format, uncompressed, compressed, 0, None)
}

/// Decompress data from `offset` of the uncompressed data on. The workspace holds a chunk that
/// `offset` lies in; what it holds afterwards is not of interest.
pub fn decompress_fragment(
    format: u16,
    uncompressed: &mut [u8],
    compressed: &[u8],
    offset: u32,
    workspace: Option<&mut [u8]>,
) -> (r: Result<usize, NtStatus>)
    ensures
        match decompress_status(format) {
            Err(e) => r == Err::<usize, NtStatus>(e) && final(uncompressed)@ == old(uncompressed)@,
            Ok(_) => {
                let (out, status) = decompressed(
                    compressed@,
                    offset as int,
                    old(uncompressed)@.len() as int,
                    workspace_len(workspace),
                );
                &&& final(uncompressed)@ == overwritten(old(uncompressed)@, 0, out)
                &&& match r {
                    Ok(n) => status is Ok && n == out.len(),
                    Err(e) => status == Err::<(), NtStatus>(e),
                }
            },
        },
{
    let plain: u16 = if format / 256 % 2 == 1 {
        format - 256
    } else {
        format
    };
    if plain == COMPRESSION_FORMAT_LZNT1 {
        lznt1_decompress(uncompressed, compressed, offset as usize, workspace)
    } else if plain == COMPRESSION_FORMAT_NONE || plain == COMPRESSION_FORMAT_DEFAULT {
        Err(STATUS_INVALID_PARAMETER)
    } else {
        Err(STATUS_UNSUPPORTED_COMPRESSION)
    }
}

} // verus!
