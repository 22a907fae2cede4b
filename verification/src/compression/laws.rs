//! What compressed chunks stand for.
//!
//! A chunk is told as a row of tokens: single bytes, and copies of what was decoded before. The laws
//! say how tokens are written down, and that decoding gives back what they stand for.

use vstd::prelude::*;

use super::{
    chunk_size, chunks_decoded, decoded, decoded_chunk, decompressed, length_range, repeated, zeros,
};
use crate::bytes::{le16, le16_bytes, lemma_sub_le16};
use crate::NtStatus;

verus! {

/// A part of a chunk.
pub enum Token {
    /// One byte.
    Literal { byte: u8 },
    /// As many bytes as `length` says, from `distance` bytes before.
    Copy { distance: int, length: int },
}

/// How many bytes a token stands for.
pub open spec fn token_size(t: Token) -> int {
    match t {
        Token::Literal { .. } => 1,
        Token::Copy { length, .. } => length,
    }
}

/// How many bytes tokens stand for.
pub open spec fn tokens_size(ts: Seq<Token>) -> int
    decreases ts.len(),
{
    if ts.len() == 0 {
        0
    } else {
        token_size(ts[0]) + tokens_size(ts.skip(1))
    }
}

/// The least power of two that is at least `d` and reaches over `pos` bytes; 4096 at most.
pub open spec fn reach_from(pos: int, d: int) -> int
    decreases 8192 - d,
{
    if d <= 0 || d >= pos || d >= 4096 {
        d
    } else {
        reach_from(pos, 2 * d)
    }
}

/// How far back a copy can reach behind `pos` bytes: the least power of two from 16 on that reaches
/// the first byte.
pub open spec fn reach(pos: int) -> int {
    reach_from(pos, 16)
}

/// How many lengths a copy can have behind `pos` bytes: distance and length share sixteen bits.
pub open spec fn lengths(pos: int) -> int {
    0x1_0000int / reach(pos)
}

/// At every place of a chunk, distances reach over all that was decoded, and distance and length use
/// up the sixteen bits of a copy.
pub proof fn copies_reach_everything(pos: int)
    requires
        1 <= pos <= 4096,
    ensures
        reach(pos) >= pos,
        reach(pos) == 16 || reach(pos) / 2 < pos,
        length_range(pos) * reach(pos) == 0x1_0000,
        length_range(pos) == lengths(pos),
{
    reveal_with_fuel(reach_from, 10);
    let d = reach(pos);
    assert(d == 16 || d == 32 || d == 64 || d == 128 || d == 256 || d == 512 || d == 1024 || d
        == 2048 || d == 4096);
}

/// The sixteen bits of a copy behind `pos` bytes: the distance less one above the length less three.
pub open spec fn copy_code(distance: int, length: int, pos: int) -> int {
    (distance - 1) * lengths(pos) + (length - 3)
}

/// The bytes of a token behind `pos` bytes.
pub open spec fn token_bytes(t: Token, pos: int) -> Seq<u8> {
    match t {
        Token::Literal { byte } => seq![byte],
        Token::Copy { distance, length } => le16_bytes(copy_code(distance, length, pos) as u16),
    }
}

/// The bytes of tokens behind `pos` bytes.
pub open spec fn bodies(ts: Seq<Token>, pos: int) -> Seq<u8>
    decreases ts.len(),
{
    if ts.len() == 0 {
        Seq::empty()
    } else {
        token_bytes(ts[0], pos) + bodies(ts.skip(1), pos + token_size(ts[0]))
    }
}

/// Which of the tokens are copies, one bit for each, the first one lowest.
pub open spec fn flags(ts: Seq<Token>) -> int
    decreases ts.len(),
{
    if ts.len() == 0 {
        0
    } else {
        (if ts[0] is Copy {
            1int
        } else {
            0
        }) + 2 * flags(ts.skip(1))
    }
}

/// The first tokens, eight at most.
pub open spec fn group(ts: Seq<Token>) -> Seq<Token> {
    if ts.len() > 8 {
        ts.take(8)
    } else {
        ts
    }
}

/// The tokens behind the first eight.
pub open spec fn behind_group(ts: Seq<Token>) -> Seq<Token> {
    if ts.len() > 8 {
        ts.skip(8)
    } else {
        Seq::empty()
    }
}

/// The bytes of a chunk behind `pos` bytes: groups of eight tokens, each behind a byte that tells
/// which of them are copies.
pub open spec fn chunk_bytes(ts: Seq<Token>, pos: int) -> Seq<u8>
    decreases ts.len(),
{
    if ts.len() == 0 {
        Seq::empty()
    } else {
        seq![flags(group(ts)) as u8] + bodies(group(ts), pos) + chunk_bytes(
            behind_group(ts),
            pos + tokens_size(group(ts)),
        )
    }
}

/// Whether tokens make sense behind `pos` bytes: a copy starts at a byte that was decoded, and its
/// length can be written down.
pub open spec fn tokens_ok(ts: Seq<Token>, pos: int) -> bool
    decreases ts.len(),
{
    if ts.len() == 0 {
        true
    } else {
        &&& match ts[0] {
            Token::Literal { .. } => true,
            Token::Copy { distance, length } => 1 <= distance <= pos && 3 <= length < 3 + lengths(
                pos,
            ),
        }
        &&& tokens_ok(ts.skip(1), pos + token_size(ts[0]))
    }
}

/// The data with a token behind it. A copy that is longer than its distance goes round.
pub open spec fn with_token(out: Seq<u8>, t: Token) -> Seq<u8> {
    match t {
        Token::Literal { byte } => out.push(byte),
        Token::Copy { distance, length } => Seq::new(
            (out.len() + length) as nat,
            |i: int|
                if i < out.len() {
                    out[i]
                } else {
                    out[out.len() - distance + (i - out.len()) % distance]
                },
        ),
    }
}

/// The data with tokens behind it.
pub open spec fn with_tokens(out: Seq<u8>, ts: Seq<Token>) -> Seq<u8>
    decreases ts.len(),
{
    if ts.len() == 0 {
        out
    } else {
        with_tokens(with_token(out, ts[0]), ts.skip(1))
    }
}

proof fn lemma_repeated_goes_round(out: Seq<u8>, distance: int, n: int)
    requires
        1 <= distance <= out.len(),
        0 <= n,
    ensures
        repeated(out, distance, n) == with_token(out, Token::Copy { distance, length: n }),
    decreases n,
{
    let whole = with_token(out, Token::Copy { distance, length: n });
    if n == 0 {
        assert(repeated(out, distance, n) =~= whole);
    } else {
        lemma_repeated_goes_round(out, distance, n - 1);
        let before = repeated(out, distance, n - 1);
        let k = out.len() + n - 1;
        assert(before.len() == k);
        let from = k - distance;
        if from < out.len() {
            assert((n - 1) % distance == n - 1) by {
                vstd::arithmetic::div_mod::lemma_small_mod((n - 1) as nat, distance as nat);
            }
        } else {
            vstd::arithmetic::div_mod::lemma_mod_sub_multiples_vanish(n - 1, distance);
            assert((from - out.len()) % distance == (n - 1) % distance);
        }
        assert(repeated(out, distance, n) =~= whole);
    }
}

proof fn lemma_code(distance: int, length: int, pos: int)
    requires
        1 <= pos <= 4096,
        1 <= distance <= pos,
        3 <= length < 3 + lengths(pos),
    ensures
        0 <= copy_code(distance, length, pos) < 0x1_0000,
        copy_code(distance, length, pos) % length_range(pos) == length - 3,
        copy_code(distance, length, pos) / length_range(pos) == distance - 1,
{
    copies_reach_everything(pos);
    let r = length_range(pos);
    let d = reach(pos);
    let code = copy_code(distance, length, pos);
    assert((distance - 1) * r <= (d - 1) * r) by (nonlinear_arith)
        requires
            distance <= d,
            0 <= r,
    ;
    assert((d - 1) * r == r * d - r) by (nonlinear_arith);
    assert(0 <= (distance - 1) * r) by (nonlinear_arith)
        requires
            1 <= distance,
            0 <= r,
    ;
    vstd::arithmetic::div_mod::lemma_fundamental_div_mod_converse(
        code,
        r,
        distance - 1,
        length - 3,
    );
}

proof fn lemma_size(ts: Seq<Token>, pos: int)
    requires
        tokens_ok(ts, pos),
        0 <= pos,
    ensures
        tokens_size(ts) >= ts.len(),
    decreases ts.len(),
{
    if ts.len() > 0 {
        lemma_size(ts.skip(1), pos + token_size(ts[0]));
    }
}

proof fn lemma_flags(ts: Seq<Token>)
    requires
        ts.len() <= 8,
    ensures
        0 <= flags(ts) < 0x100,
{
    reveal_with_fuel(flags, 9);
}

proof fn lemma_split(ts: Seq<Token>, k: int, pos: int)
    requires
        0 <= k <= ts.len(),
    ensures
        tokens_size(ts) == tokens_size(ts.take(k)) + tokens_size(ts.skip(k)),
        tokens_ok(ts, pos) ==> tokens_ok(ts.take(k), pos) && tokens_ok(
            ts.skip(k),
            pos + tokens_size(ts.take(k)),
        ),
        forall|out: Seq<u8>| #[trigger]
            with_tokens(out, ts) == with_tokens(with_tokens(out, ts.take(k)), ts.skip(k)),
    decreases k,
{
    if k == 0 {
        assert(ts.skip(0) =~= ts);
        assert(ts.take(0) =~= Seq::empty());
    } else {
        lemma_split(ts.skip(1), k - 1, pos + token_size(ts[0]));
        assert(ts.skip(1).take(k - 1) =~= ts.take(k).skip(1));
        assert(ts.skip(1).skip(k - 1) =~= ts.skip(k));
        assert(ts.take(k)[0] == ts[0]);
        assert forall|out: Seq<u8>| #[trigger]
            with_tokens(out, ts) == with_tokens(with_tokens(out, ts.take(k)), ts.skip(k)) by {
            let next = with_token(out, ts[0]);
            assert(with_tokens(next, ts.skip(1)) == with_tokens(
                with_tokens(next, ts.skip(1).take(k - 1)),
                ts.skip(1).skip(k - 1),
            ));
        }
    }
}

/// Decoding a part of a group and what is behind it.
proof fn lemma_decodes(
    src: Seq<u8>,
    sp: int,
    g: Seq<Token>,
    rest: Seq<Token>,
    left: int,
    out: Seq<u8>,
    room: int,
)
    requires
        0 <= sp <= src.len(),
        g.len() <= left <= 8,
        g.len() == left || rest.len() == 0,
        src.subrange(sp, src.len() as int) == bodies(g, out.len() as int) + chunk_bytes(
            rest,
            out.len() + tokens_size(g),
        ),
        tokens_ok(g, out.len() as int),
        tokens_ok(rest, out.len() + tokens_size(g)),
        out.len() + tokens_size(g) + tokens_size(rest) <= 4096,
        out.len() + tokens_size(g) + tokens_size(rest) <= room,
    ensures
        decoded(src, sp, flags(g), left, out, room) == (
            with_tokens(with_tokens(out, g), rest),
            true,
        ),
    decreases src.len() - sp,
{
    let pos = out.len() as int;
    let tail = src.subrange(sp, src.len() as int);
    assert(tail.len() == src.len() - sp);
    lemma_size(g, pos);
    lemma_size(rest, pos + tokens_size(g));
    if g.len() == 0 {
        assert(bodies(g, pos) =~= Seq::empty());
        assert(tail =~= chunk_bytes(rest, pos));
        if rest.len() == 0 {
            assert(tail =~= Seq::empty());
        } else {
            let next = group(rest);
            let more = behind_group(rest);
            lemma_flags(next);
            assert(tail[0] == flags(next) as u8);
            assert(src[sp] == tail[0]);
            if rest.len() > 8 {
                lemma_split(rest, 8, pos);
            } else {
                assert(tokens_ok(more, pos + tokens_size(next)));
                assert(with_tokens(with_tokens(out, next), more) == with_tokens(out, next));
            }
            assert(src.subrange(sp + 1, src.len() as int) =~= tail.skip(1));
            assert(tail.skip(1) =~= bodies(next, pos) + chunk_bytes(more, pos + tokens_size(next)));
            lemma_decodes(src, sp + 1, next, more, 8, out, room);
            assert(with_tokens(out, g) == out);
            assert(with_tokens(with_tokens(out, next), more) == with_tokens(out, rest));
            assert(decoded(src, sp, flags(g), 0, out, room) == decoded(
                src,
                sp + 1,
                flags(next),
                8,
                out,
                room,
            ));
        }
    } else {
        let t = g[0];
        let others = g.skip(1);
        let bytes = token_bytes(t, pos);
        lemma_size(others, pos + token_size(t));
        let all = bodies(g, pos) + chunk_bytes(rest, pos + tokens_size(g));
        let behind = bodies(others, pos + token_size(t)) + chunk_bytes(rest, pos + tokens_size(g));
        assert(all =~= bytes + behind);
        assert forall|i: int| 0 <= i < bytes.len() implies src[sp + i] == bytes[i] by {
            assert(tail[i] == bytes[i]);
        }
        let after = with_token(out, t);
        assert(after.len() == pos + token_size(t));
        match t {
            Token::Literal { byte } => {
                assert(src.subrange(sp + 1, src.len() as int) =~= tail.skip(1));
                assert(tail.skip(1) =~= behind);
                assert(flags(g) / 2 == flags(others));
                lemma_decodes(src, sp + 1, others, rest, left - 1, after, room);
                assert(tail[0] == byte && src[sp] == tail[0]);
                assert(flags(g) % 2 == 0);
                assert(decoded(src, sp, flags(g), left, out, room) == decoded(
                    src,
                    sp + 1,
                    flags(others),
                    left - 1,
                    after,
                    room,
                ));
            },
            Token::Copy { distance, length } => {
                lemma_code(distance, length, pos);
                let code = copy_code(distance, length, pos);
                assert(src.subrange(sp, sp + 2) =~= bytes);
                lemma_sub_le16(src, sp, bytes, 0);
                assert(le16(bytes, 0) == code) by {
                    reveal(le16);
                }
                assert(src.subrange(sp + 2, src.len() as int) =~= tail.skip(2));
                assert(tail.skip(2) =~= behind);
                assert(flags(g) / 2 == flags(others));
                lemma_repeated_goes_round(out, distance, length);
                lemma_decodes(src, sp + 2, others, rest, left - 1, after, room);
                assert(flags(g) % 2 == 1);
                assert(le16(src, sp) == code);
                assert(repeated(out, distance, length) == after);
                assert(decoded(src, sp, flags(g), left, out, room) == decoded(
                    src,
                    sp + 2,
                    flags(others),
                    left - 1,
                    after,
                    room,
                ));
            },
        }
    }
}

/// A chunk that tokens were written down in decodes to what they stand for.
pub proof fn written_tokens_are_decoded(ts: Seq<Token>, room: int)
    requires
        tokens_ok(ts, 0),
        tokens_size(ts) <= 4096,
        tokens_size(ts) <= room,
    ensures
        decoded_chunk(chunk_bytes(ts, 0), room) == (with_tokens(Seq::empty(), ts), true),
{
    let src = chunk_bytes(ts, 0);
    let nothing = Seq::<Token>::empty();
    assert(src.subrange(0, src.len() as int) =~= bodies(nothing, 0) + src);
    lemma_decodes(src, 0, nothing, ts, 0, Seq::empty(), room);
}

/// The bytes of a compressed chunk with its header: the size less one in twelve bits, three, and the
/// bit that tells a compressed chunk.
pub open spec fn compressed_chunk(ts: Seq<Token>) -> Seq<u8> {
    let body = chunk_bytes(ts, 0);
    le16_bytes((0xb000 + body.len() - 1) as u16) + body
}

/// Data that consists of one compressed chunk is decompressed to what its tokens stand for.
pub proof fn compressed_chunks_are_decompressed(ts: Seq<Token>, room: int)
    requires
        ts.len() > 0,
        tokens_ok(ts, 0),
        tokens_size(ts) <= 4096,
        tokens_size(ts) <= room,
        chunk_bytes(ts, 0).len() <= 4096,
    ensures
        decompressed(compressed_chunk(ts), 0, room, None) == (
            with_tokens(Seq::empty(), ts),
            Ok::<(), NtStatus>(()),
        ),
{
    let body = chunk_bytes(ts, 0);
    let src = compressed_chunk(ts);
    let head = le16_bytes((0xb000 + body.len() - 1) as u16);
    written_tokens_are_decoded(ts, room);
    lemma_size(ts, 0);
    assert(src.subrange(0, 2) =~= head);
    lemma_sub_le16(src, 0, head, 0);
    let header = le16(src, 0);
    assert(header == 0xb000 + body.len() - 1) by {
        reveal(le16);
    }
    assert(chunk_size(header) == body.len());
    assert(src.subrange(2, src.len() as int) =~= body);
    let empty = Seq::<u8>::empty();
    assert(empty + zeros(0) =~= empty);
    let data = with_tokens(empty, ts);
    assert(empty + data =~= data);
    assert(chunks_decoded(src, src.len() as int, 0, data, room) == (data, Ok::<(), NtStatus>(())));
    assert(chunks_decoded(src, 0, 0, empty, room) == (data, Ok::<(), NtStatus>(())));
}

} // verus!
