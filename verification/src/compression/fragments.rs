//! What data of several chunks decompresses to, from any place in it.

use vstd::prelude::*;

use super::laws::{
    chunk_bytes, token_size, tokens_ok, tokens_size, with_token, with_tokens,
    written_tokens_are_decoded, Token,
};
use super::{
    chunk_size, chunks_decoded, chunks_skipped, compress_status, decoded_chunk, decompress_status,
    decompressed, next_chunk, partial_chunk, zeros, Reached,
};
use crate::bytes::{le16, le16_bytes, lemma_sub_le16};
use crate::NtStatus;

verus! {

/// A chunk of compressed data.
pub enum Chunk {
    Stored { bytes: Seq<u8> },
    Compressed { tokens: Seq<Token> },
}

/// What a chunk stands for.
pub open spec fn plain(c: Chunk) -> Seq<u8> {
    match c {
        Chunk::Stored { bytes } => bytes,
        Chunk::Compressed { tokens } => with_tokens(Seq::empty(), tokens),
    }
}

/// The bytes of a chunk behind its header.
pub open spec fn body(c: Chunk) -> Seq<u8> {
    match c {
        Chunk::Stored { bytes } => bytes,
        Chunk::Compressed { tokens } => chunk_bytes(tokens, 0),
    }
}

/// The header of a chunk: the size less one, three in the next bits, and the highest bit where it is
/// compressed.
pub open spec fn head(c: Chunk) -> u16 {
    (body(c).len() - 1 + (if c is Compressed {
        0xb000int
    } else {
        0x3000int
    })) as u16
}

/// Whether a chunk can be written: it stands for one to 4096 bytes and takes no more.
pub open spec fn chunk_ok(c: Chunk) -> bool {
    &&& 1 <= plain(c).len() <= 4096
    &&& 1 <= body(c).len() <= 4096
    &&& c matches Chunk::Compressed { tokens } ==> tokens_ok(tokens, 0) && tokens_size(tokens)
        <= 4096
}

/// Whether all chunks can be written.
pub open spec fn chunks_ok(cs: Seq<Chunk>) -> bool {
    forall|i: int| 0 <= i < cs.len() ==> chunk_ok(#[trigger] cs[i])
}

/// The bytes of chunks, one behind the other.
pub open spec fn chunk_data(cs: Seq<Chunk>) -> Seq<u8>
    decreases cs.len(),
{
    if cs.len() == 0 {
        Seq::empty()
    } else {
        le16_bytes(head(cs[0])) + body(cs[0]) + chunk_data(cs.skip(1))
    }
}

/// How many bytes are missing to a multiple of 4096.
pub open spec fn missing(n: int) -> int {
    (-n) % 4096
}

/// What chunks stand for: each starts at a multiple of 4096, with zeros in front of it where the one
/// before is shorter.
pub open spec fn meant(cs: Seq<Chunk>) -> Seq<u8>
    decreases cs.len(),
{
    if cs.len() == 0 {
        Seq::empty()
    } else if cs.len() == 1 {
        plain(cs[0])
    } else {
        plain(cs[0]) + zeros(missing(plain(cs[0]).len() as int)) + meant(cs.skip(1))
    }
}

/// What chunks stand for behind `n` bytes.
pub open spec fn behind(n: int, cs: Seq<Chunk>) -> Seq<u8> {
    if cs.len() == 0 {
        Seq::empty()
    } else {
        zeros(missing(n)) + meant(cs)
    }
}

proof fn lemma_meant(cs: Seq<Chunk>)
    requires
        cs.len() > 0,
    ensures
        meant(cs) == plain(cs[0]) + behind(plain(cs[0]).len() as int, cs.skip(1)),
{
    assert(meant(cs) =~= plain(cs[0]) + behind(plain(cs[0]).len() as int, cs.skip(1)));
}

proof fn lemma_missing(n: int)
    requires
        0 <= n,
    ensures
        0 <= missing(n) < 4096,
        (n + missing(n)) % 4096 == 0,
        n % 4096 == 0 ==> missing(n) == 0,
        n % 4096 != 0 ==> missing(n) == 4096 - n % 4096,
{
}

proof fn lemma_plain_size(out: Seq<u8>, ts: Seq<Token>, pos: int)
    requires
        tokens_ok(ts, pos),
        0 <= pos,
    ensures
        with_tokens(out, ts).len() == out.len() + tokens_size(ts),
    decreases ts.len(),
{
    if ts.len() > 0 {
        lemma_plain_size(with_token(out, ts[0]), ts.skip(1), pos + token_size(ts[0]));
    }
}

/// Data is compressed in format two, whatever the engine in the high byte; formats zero and one stand
/// for none and for a default, and others are not known.
pub proof fn formats_are_judged(format: u16)
    ensures
        format % 0x100 == 2 <==> compress_status(format) is Ok,
        format % 0x100 < 2 ==> compress_status(format) == Err::<(), NtStatus>(0xC000_000D),
        format % 0x100 > 2 ==> compress_status(format) == Err::<(), NtStatus>(0xC000_025F),
        format == 0x002 || format == 0x102 <==> decompress_status(format) is Ok,
        format == 0x000 || format == 0x001 || format == 0x100 || format == 0x101
            ==> decompress_status(format) == Err::<(), NtStatus>(0xC000_000D),
        (2 < format < 0x100) || format > 0x102 ==> decompress_status(format) == Err::<(), NtStatus>(
            0xC000_025F,
        ),
{
}

proof fn lemma_head(c: Chunk)
    requires
        chunk_ok(c),
    ensures
        head(c) >= 0x3000,
        chunk_size(head(c)) == body(c).len(),
        head(c) >= 0x8000 <==> c is Compressed,
{
}

proof fn lemma_decodes(c: Chunk, room: int)
    requires
        chunk_ok(c),
        c is Compressed,
        plain(c).len() <= room,
    ensures
        decoded_chunk(body(c), room) == (plain(c), true),
{
    let tokens = c->tokens;
    lemma_plain_size(Seq::empty(), tokens, 0);
    written_tokens_are_decoded(tokens, room);
}

/// Where a chunk stands in data.
spec fn stands(src: Seq<u8>, sp: int, cs: Seq<Chunk>) -> bool {
    0 <= sp <= src.len() && src.subrange(sp, src.len() as int) == chunk_data(cs)
}

proof fn lemma_stands(src: Seq<u8>, sp: int, cs: Seq<Chunk>)
    requires
        stands(src, sp, cs),
        chunks_ok(cs),
        cs.len() > 0,
    ensures
        chunk_ok(cs[0]),
        chunks_ok(cs.skip(1)),
        le16(src, sp) == head(cs[0]),
        sp + 2 + body(cs[0]).len() <= src.len(),
        src.subrange(sp + 2, sp + 2 + body(cs[0]).len()) == body(cs[0]),
        stands(src, sp + 2 + body(cs[0]).len(), cs.skip(1)),
{
    let c = cs[0];
    let tail = src.subrange(sp, src.len() as int);
    let bytes = le16_bytes(head(c));
    let rest = chunk_data(cs.skip(1));
    assert(tail == bytes + body(c) + rest);
    assert(tail.len() == src.len() - sp);
    assert(src.subrange(sp, sp + 2) =~= bytes) by {
        assert(tail.subrange(0, 2) =~= bytes);
        assert(tail.subrange(0, 2) =~= src.subrange(sp, sp + 2));
    }
    lemma_sub_le16(src, sp, bytes, 0);
    assert(le16(bytes, 0) == head(c)) by {
        reveal(le16);
    }
    let end = sp + 2 + body(c).len();
    assert(src.subrange(sp + 2, end) =~= body(c)) by {
        assert(tail.subrange(2, (2 + body(c).len()) as int) =~= body(c));
        assert(tail.subrange(2, (2 + body(c).len()) as int) =~= src.subrange(sp + 2, end));
    }
    assert(src.subrange(end, src.len() as int) =~= rest) by {
        assert(tail.skip((2 + body(c).len()) as int) =~= rest);
        assert(tail.skip((2 + body(c).len()) as int) =~= src.subrange(end, src.len() as int));
    }
    assert forall|i: int| 0 <= i < cs.skip(1).len() implies chunk_ok(#[trigger] cs.skip(1)[i]) by {
        assert(chunk_ok(cs[i + 1]));
    }
}

proof fn lemma_behind_length(n: int, cs: Seq<Chunk>)
    requires
        chunks_ok(cs),
        cs.len() > 0,
    ensures
        0 <= n ==> behind(n, cs).len() == missing(n) + meant(cs).len(),
        meant(cs).len() >= plain(cs[0]).len() >= 1,
{
    assert(chunk_ok(cs[0]));
    lemma_meant(cs);
}

proof fn lemma_next(src: Seq<u8>, sp: int, offset: int, out: Seq<u8>, room: int, cs: Seq<Chunk>)
    requires
        stands(src, sp, cs),
        chunks_ok(cs),
        cs.len() > 0,
        0 <= offset,
        out.len() + missing(out.len() + offset) + plain(cs[0]).len() <= room,
    ensures
        next_chunk(src, sp, offset, out, room) == (Reached::Chunk {
            sp: sp + 2 + body(cs[0]).len(),
            offset,
            out: out + zeros(missing(out.len() + offset)) + plain(cs[0]),
        }),
{
    let c = cs[0];
    lemma_stands(src, sp, cs);
    lemma_head(c);
    lemma_missing(out.len() + offset);
    let filled = out + zeros(missing(out.len() + offset));
    assert(filled.len() == out.len() + missing(out.len() + offset));
    if c is Compressed {
        lemma_decodes(c, room - filled.len());
    }
}

proof fn lemma_chunks(src: Seq<u8>, sp: int, offset: int, out: Seq<u8>, room: int, cs: Seq<Chunk>)
    requires
        stands(src, sp, cs),
        chunks_ok(cs),
        0 <= offset,
        out.len() + behind(out.len() + offset, cs).len() <= room,
    ensures
        chunks_decoded(src, sp, offset, out, room) == (
            out + behind(out.len() + offset, cs),
            Ok::<(), NtStatus>(()),
        ),
    decreases cs.len(),
{
    if cs.len() == 0 {
        assert(sp == src.len()) by {
            assert(src.subrange(sp, src.len() as int).len() == 0);
        }
        assert(out + behind(out.len() + offset, cs) =~= out);
    } else {
        let n = out.len() + offset;
        let here = plain(cs[0]);
        let others = cs.skip(1);
        lemma_behind_length(n, cs);
        lemma_meant(cs);
        lemma_missing(n);
        lemma_missing(here.len() as int);
        lemma_stands(src, sp, cs);
        lemma_next(src, sp, offset, out, room, cs);
        let after = out + zeros(missing(n)) + here;
        lemma_missing(after.len() + offset);
        assert(after.len() + offset == n + missing(n) + here.len());
        assert(missing(after.len() + offset) == missing(here.len() as int));
        let next = sp + 2 + body(cs[0]).len();
        lemma_chunks(src, next, offset, after, room, others);
        assert(after + behind(here.len() as int, others) =~= out + behind(n, cs));
    }
}

proof fn lemma_skipped(src: Seq<u8>, sp: int, offset: int, cs: Seq<Chunk>) -> (rest: Seq<Chunk>)
    requires
        stands(src, sp, cs),
        chunks_ok(cs),
        0 <= offset < meant(cs).len(),
    ensures
        chunks_ok(rest),
        chunks_skipped(src, sp, offset) matches Reached::Chunk { sp: at, offset: left, out } && {
            &&& stands(src, at, rest)
            &&& out == Seq::<u8>::empty()
            &&& 0 <= left < 4096
            &&& left < meant(rest).len()
            &&& meant(rest).skip(left) == meant(cs).skip(offset)
        },
    decreases cs.len(),
{
    if offset < 4096 {
        cs
    } else {
        let c = cs[0];
        lemma_stands(src, sp, cs);
        lemma_head(c);
        let n = plain(c).len() as int;
        let others = cs.skip(1);
        lemma_meant(cs);
        lemma_missing(n);
        assert(others.len() > 0);
        assert(n + missing(n) == 4096);
        lemma_behind_length(n, others);
        let rest = lemma_skipped(src, sp + 2 + body(c).len(), offset - 4096, others);
        assert(meant(cs).skip(offset) =~= meant(others).skip(offset - 4096));
        rest
    }
}

/// Decompressing data from a place in it gives what its chunks stand for from that place on.
pub proof fn data_is_decompressed_from_any_place(
    cs: Seq<Chunk>,
    offset: int,
    room: int,
    workspace: Option<int>,
)
    requires
        chunks_ok(cs),
        0 <= offset < meant(cs).len(),
        meant(cs).len() - offset <= room,
        workspace matches Some(n) && n >= 4096,
    ensures
        decompressed(chunk_data(cs), offset, room, workspace) == (
            meant(cs).skip(offset),
            Ok::<(), NtStatus>(()),
        ),
{
    let src = chunk_data(cs);
    assert(src.subrange(0, src.len() as int) =~= src);
    lemma_stands(src, 0, cs);
    let rest = lemma_skipped(src, 0, offset, cs);
    let sp = chunks_skipped(src, 0, offset)->Chunk_sp;
    let left = chunks_skipped(src, 0, offset)->Chunk_offset;
    let nothing = Seq::<u8>::empty();
    assert(meant(rest).skip(left).len() == meant(cs).skip(offset).len());
    if left == 0 {
        lemma_missing(0);
        assert(behind(0, rest) =~= meant(rest));
        assert(meant(rest).skip(0) =~= meant(rest));
        lemma_chunks(src, sp, 0, nothing, room, rest);
        assert(nothing + behind(0, rest) =~= meant(rest));
    } else {
        lemma_partial(src, sp, left, room, workspace, rest);
    }
}

proof fn lemma_partial(
    src: Seq<u8>,
    sp: int,
    left: int,
    room: int,
    workspace: Option<int>,
    cs: Seq<Chunk>,
)
    requires
        stands(src, sp, cs),
        chunks_ok(cs),
        0 < left < 4096,
        left < meant(cs).len(),
        meant(cs).len() - left <= room,
        workspace matches Some(n) && n >= 4096,
    ensures
        partial_chunk(src, sp, left, room, workspace) matches Reached::Chunk { sp: at, offset, out }
            && chunks_decoded(src, at, offset, out, room) == (
            meant(cs).skip(left),
            Ok::<(), NtStatus>(()),
        ),
{
    let c = cs[0];
    lemma_stands(src, sp, cs);
    lemma_head(c);
    lemma_meant(cs);
    let here = plain(c);
    let next = sp + 2 + body(c).len();
    let others = cs.skip(1);
    let n = here.len() as int;
    lemma_missing(n);
    lemma_missing(left);
    if c is Compressed {
        lemma_decodes(c, 4096);
    }
    if others.len() > 0 {
        lemma_behind_length(n, others);
        lemma_behind_length(left, others);
    }
    if n > left {
        let out = here.skip(left);
        assert(out =~= here.subrange(left, left + (n - left)));
        if c is Stored {
            assert(src.subrange(sp + 2 + left, sp + 2 + n) =~= src.subrange(sp + 2, next).skip(
                left,
            ));
        }
        assert(partial_chunk(src, sp, left, room, workspace) == (Reached::Chunk {
            sp: next,
            offset: left,
            out,
        }));
        assert(out.len() + left == n);
        assert(out + behind(n, others) =~= meant(cs).skip(left));
        lemma_chunks(src, next, left, out, room, others);
    } else {
        let out = Seq::<u8>::empty();
        assert(others.len() > 0);
        assert(partial_chunk(src, sp, left, room, workspace) == (Reached::Chunk {
            sp: next,
            offset: left,
            out,
        }));
        assert(out.len() + left == left);
        assert(out + behind(left, others) =~= meant(cs).skip(left));
        lemma_chunks(src, next, left, out, room, others);
    }
}

} // verus!
