//! What unwinding is for: it gives back the registers of the caller.
//!
//! A prologue is told as the row of its steps: registers pushed, stack allocated, registers saved
//! beside the stack pointer. The laws say how steps are written down as unwind codes and as
//! instructions, and that unwinding undoes them.

use vstd::prelude::*;

use super::{
    adjust_stack, byte, epilogue, half, header, header_of, no_handler, plus, pop_at, pops,
    resolve_row, signed, slot_at, slots_of, undo, undo_chain, undo_codes, undo_slot, unwind_frame,
    virtual_unwind_of, word, FrameWalkError, ImageReader, Registers, RuntimeFunction, StackReader,
    UnwindInfoHeader, UnwindResult,
};
use crate::bytes::{le16_bytes, le32_bytes};

verus! {

/// A step of a prologue.
pub enum Step {
    /// A general register is pushed.
    Push { reg: int },
    /// The stack pointer goes down.
    Allocate { size: int },
    /// A general register is stored above the stack pointer.
    Save { reg: int, offset: int },
    /// An XMM register is stored above the stack pointer.
    SaveXmm { reg: int, offset: int },
}

/// A step with where its instruction ends, and whether its operand is written in 32 bits.
pub struct Code {
    pub position: u8,
    pub step: Step,
    pub far: bool,
}

/// The bytes of an unwind code: where the instruction ends, the operation in the low four bits of
/// the second byte with a register or a small size above, and an operand in units of the step.
pub open spec fn code_bytes(c: Code) -> Seq<u8> {
    match c.step {
        Step::Push { reg } => seq![c.position, (0 + 16 * reg) as u8],
        Step::Allocate { size } => if c.far {
            seq![c.position, 0x11u8] + le32_bytes(size as u32)
        } else if size <= 128 {
            seq![c.position, (2 + 16 * (size / 8 - 1)) as u8]
        } else {
            seq![c.position, 1u8] + le16_bytes((size / 8) as u16)
        },
        Step::Save { reg, offset } => if c.far {
            seq![c.position, (5 + 16 * reg) as u8] + le32_bytes(offset as u32)
        } else {
            seq![c.position, (4 + 16 * reg) as u8] + le16_bytes((offset / 8) as u16)
        },
        Step::SaveXmm { reg, offset } => if c.far {
            seq![c.position, (9 + 16 * reg) as u8] + le32_bytes(offset as u32)
        } else {
            seq![c.position, (8 + 16 * reg) as u8] + le16_bytes((offset / 16) as u16)
        },
    }
}

/// Whether a step can be written down: registers have numbers below sixteen, the stack pointer is
/// not among them, and sizes fit their operands.
pub open spec fn code_ok(c: Code) -> bool {
    match c.step {
        Step::Push { reg } => 0 <= reg < 16 && reg != 4,
        Step::Allocate { size } => if c.far {
            0 < size <= 0xffff_ffff
        } else {
            0 < size <= 8 * 0xffff && size % 8 == 0
        },
        Step::Save { reg, offset } => 0 <= reg < 16 && reg != 4 && 0 <= offset && if c.far {
            offset <= 0xffff_ffff
        } else {
            offset <= 8 * 0xffff && offset % 8 == 0
        },
        Step::SaveXmm { reg, offset } => 0 <= reg < 16 && 0 <= offset && if c.far {
            offset <= 0xffff_ffff
        } else {
            offset <= 16 * 0xffff && offset % 16 == 0
        },
    }
}

/// The unwind codes of a prologue: those of the last step come first.
pub open spec fn codes_bytes(p: Seq<Code>) -> Seq<u8>
    decreases p.len(),
{
    if p.len() == 0 {
        Seq::empty()
    } else {
        code_bytes(p.last()) + codes_bytes(p.drop_last())
    }
}

/// Whether bytes stand in an image at `at`.
pub open spec fn stands<I: ImageReader>(img: &I, base: u64, at: int, bytes: Seq<u8>) -> bool {
    forall|i: int| 0 <= i < bytes.len() ==> #[trigger] byte(img, base, at + i) == Some(bytes[i])
}

/// How far a step takes the stack pointer down.
pub open spec fn step_size(s: Step) -> int {
    match s {
        Step::Push { .. } => 8,
        Step::Allocate { size } => size,
        _ => 0,
    }
}

/// How far a prologue takes the stack pointer down.
pub open spec fn frame_size(p: Seq<Code>) -> int
    decreases p.len(),
{
    if p.len() == 0 {
        0
    } else {
        frame_size(p.drop_last()) + step_size(p.last().step)
    }
}

/// Whether a prologue keeps a general register.
pub open spec fn keeps(p: Seq<Code>, reg: int) -> bool {
    exists|i: int|
        0 <= i < p.len() && match (#[trigger] p[i]).step {
            Step::Push { reg: r } => r == reg,
            Step::Save { reg: r, .. } => r == reg,
            _ => false,
        }
}

/// Whether a prologue keeps an XMM register.
pub open spec fn keeps_xmm(p: Seq<Code>, reg: int) -> bool {
    exists|i: int|
        0 <= i < p.len() && match (#[trigger] p[i]).step {
            Step::SaveXmm { reg: r, .. } => r == reg,
            _ => false,
        }
}

/// Whether the stack holds what a prologue that started with the registers `r0` kept there.
pub open spec fn stack_keeps<S: StackReader>(stack: &S, p: Seq<Code>, r0: Registers) -> bool
    decreases p.len(),
{
    if p.len() == 0 {
        true
    } else {
        &&& stack_keeps(stack, p.drop_last(), r0)
        &&& match p.last().step {
            Step::Push { reg } => stack.word_at(plus(r0.rsp(), -frame_size(p))) == Some(
                r0.gpr[reg],
            ),
            Step::Save { reg, offset } => stack.word_at(plus(r0.rsp(), offset - frame_size(p)))
                == Some(r0.gpr[reg]),
            Step::SaveXmm { reg, offset } => {
                &&& stack.word_at(plus(r0.rsp(), offset - frame_size(p))) == Some(r0.xmm[reg].0)
                &&& stack.word_at(plus(r0.rsp(), offset + 8 - frame_size(p))) == Some(
                    r0.xmm[reg].1,
                )
            },
            Step::Allocate { .. } => true,
        }
    }
}

/// The registers `r` with those that a prologue kept, and the stack pointer, as they were in `r0`.
pub open spec fn restored(p: Seq<Code>, r0: Registers, r: Registers) -> Registers {
    Registers {
        gpr: Seq::new(
            16,
            |i: int|
                if i == 4 || keeps(p, i) {
                    r0.gpr[i]
                } else {
                    r.gpr[i]
                },
        ),
        rip: r.rip,
        xmm: Seq::new(
            16,
            |i: int|
                if keeps_xmm(p, i) {
                    r0.xmm[i]
                } else {
                    r.xmm[i]
                },
        ),
    }
}

/// Whether registers are sixteen general and sixteen XMM ones.
pub open spec fn registers_ok(r: Registers) -> bool {
    r.gpr.len() == 16 && r.xmm.len() == 16
}

/// Whether the steps of a prologue can be written down, and the first `executed` of them are those
/// whose instructions end at or before `done`.
pub open spec fn executed_up_to(p: Seq<Code>, executed: int, done: Option<u32>) -> bool {
    &&& 0 <= executed <= p.len()
    &&& forall|i: int| 0 <= i < p.len() ==> code_ok(#[trigger] p[i])
    &&& match done {
        Some(done) => forall|i: int|
            0 <= i < p.len() ==> ((#[trigger] p[i]).position <= done <==> i < executed),
        None => executed == p.len(),
    }
}

proof fn lemma_plus(a: u64, m: int, n: int)
    ensures
        plus(plus(a, m), n) == plus(a, m + n),
        plus(a, 0) == a,
{
    vstd::arithmetic::div_mod::lemma_add_mod_noop(a + m, n, 0x1_0000_0000_0000_0000);
    vstd::arithmetic::div_mod::lemma_add_mod_noop(
        (a + m) % 0x1_0000_0000_0000_0000,
        n,
        0x1_0000_0000_0000_0000,
    );
}

proof fn lemma_stands<I: ImageReader>(img: &I, base: u64, at: int, a: Seq<u8>, b: Seq<u8>)
    requires
        stands(img, base, at, a + b),
    ensures
        stands(img, base, at, a),
        stands(img, base, at + a.len(), b),
        forall|i: int|
            0 <= i < a.len() ==> #[trigger] byte(img, base, at + i) == Some(a[i]),
{
    assert forall|i: int| 0 <= i < a.len() implies #[trigger] byte(img, base, at + i) == Some(
        a[i],
    ) by {
        assert((a + b)[i] == a[i]);
    }
    assert forall|i: int| 0 <= i < b.len() implies #[trigger] byte(img, base, at + a.len() + i)
        == Some(b[i]) by {
        assert((a + b)[a.len() + i] == b[i]);
        assert(byte(img, base, at + (a.len() + i)) == Some((a + b)[a.len() + i]));
    }
}

proof fn lemma_operand16<I: ImageReader>(img: &I, base: u64, at: int, v: u16)
    requires
        stands(img, base, at, le16_bytes(v)),
    ensures
        half(img, base, at) == Some(v as int),
{
    assert(byte(img, base, at + 0) == Some(le16_bytes(v)[0]));
    assert(byte(img, base, at + 1) == Some(le16_bytes(v)[1]));
}

proof fn lemma_operand32<I: ImageReader>(img: &I, base: u64, at: int, v: u32)
    requires
        stands(img, base, at, le32_bytes(v)),
    ensures
        word(img, base, at) == Some(v as int),
{
    let b = le32_bytes(v);
    assert(byte(img, base, at + 0) == Some(b[0]));
    assert(byte(img, base, at + 1) == Some(b[1]));
    assert(byte(img, base, at + 2) == Some(b[2]));
    assert(byte(img, base, at + 3) == Some(b[3]));
    assert(v % 0x100 + 0x100 * (v / 0x100 % 0x100) + 0x1_0000 * (v / 0x1_0000 % 0x100 + 0x100 * (v
        / 0x100_0000)) == v);
}

/// The operation and the register or size of a code.
spec fn operation(c: Code) -> (int, int) {
    match c.step {
        Step::Push { reg } => (0, reg),
        Step::Allocate { size } => if c.far {
            (1, 1)
        } else if size <= 128 {
            (2, size / 8 - 1)
        } else {
            (1, 0)
        },
        Step::Save { reg, .. } => (
            if c.far {
                5
            } else {
                4
            },
            reg,
        ),
        Step::SaveXmm { reg, .. } => (
            if c.far {
                9
            } else {
                8
            },
            reg,
        ),
    }
}

proof fn lemma_code_head(c: Code)
    requires
        code_ok(c),
    ensures
        code_bytes(c).len() >= 2,
        code_bytes(c).len() % 2 == 0,
        code_bytes(c)[0] == c.position,
        code_bytes(c)[1] as int % 16 == operation(c).0,
        code_bytes(c)[1] as int / 16 == operation(c).1,
        slots_of(operation(c).0, operation(c).1) == Some(code_bytes(c).len() as int / 2),
{
}

/// What undoing the code of one step does.
proof fn lemma_undo_step<I: ImageReader, S: StackReader>(
    img: &I,
    stack: &S,
    base: u64,
    rva: int,
    idx: int,
    frame: UnwindInfoHeader,
    p: Seq<Code>,
    r0: Registers,
    r: Registers,
)
    requires
        p.len() > 0,
        code_ok(p.last()),
        stands(img, base, slot_at(rva, idx), code_bytes(p.last())),
        stack_keeps(stack, p, r0),
        r.rsp() == plus(r0.rsp(), -frame_size(p)),
        registers_ok(r),
        registers_ok(r0),
    ensures
        ({
            let (op, info) = operation(p.last());
            let (next, outcome) = undo(img, stack, base, rva, idx, op, info, frame, r);
            &&& outcome == Ok::<bool, FrameWalkError>(false)
            &&& next.rsp() == plus(r0.rsp(), -frame_size(p.drop_last()))
            &&& registers_ok(next)
            &&& next.rip == r.rip
            &&& forall|i: int|
                0 <= i < 16 && i != 4 ==> #[trigger] next.gpr[i] == match p.last().step {
                    Step::Push { reg } => if i == reg {
                        r0.gpr[i]
                    } else {
                        r.gpr[i]
                    },
                    Step::Save { reg, .. } => if i == reg {
                        r0.gpr[i]
                    } else {
                        r.gpr[i]
                    },
                    _ => r.gpr[i],
                }
            &&& forall|i: int|
                0 <= i < 16 ==> #[trigger] next.xmm[i] == match p.last().step {
                    Step::SaveXmm { reg, .. } => if i == reg {
                        r0.xmm[i]
                    } else {
                        r.xmm[i]
                    },
                    _ => r.xmm[i],
                }
        }),
{
    let c = p.last();
    let at = slot_at(rva, idx);
    let head = code_bytes(c).take(2);
    let operand = code_bytes(c).skip(2);
    assert(code_bytes(c) =~= head + operand);
    lemma_stands(img, base, at, head, operand);
    assert(slot_at(rva, idx + 1) == at + 2);
    lemma_plus(r0.rsp(), -frame_size(p), step_size(c.step));
    match c.step {
        Step::Push { reg } => {
            assert(r.with_gpr(reg, r0.gpr[reg]).rsp() == r.rsp());
        },
        Step::Allocate { size } => {
            if c.far {
                assert(operand =~= le32_bytes(size as u32));
                lemma_operand32(img, base, at + 2, size as u32);
            } else if size > 128 {
                assert(operand =~= le16_bytes((size / 8) as u16));
                lemma_operand16(img, base, at + 2, (size / 8) as u16);
            }
        },
        Step::Save { reg, offset } => {
            lemma_plus(r0.rsp(), -frame_size(p), offset);
            if c.far {
                assert(operand =~= le32_bytes(offset as u32));
                lemma_operand32(img, base, at + 2, offset as u32);
            } else {
                assert(operand =~= le16_bytes((offset / 8) as u16));
                lemma_operand16(img, base, at + 2, (offset / 8) as u16);
            }
        },
        Step::SaveXmm { reg, offset } => {
            lemma_plus(r0.rsp(), -frame_size(p), offset);
            lemma_plus(r0.rsp(), -frame_size(p), offset + 8);
            if c.far {
                assert(operand =~= le32_bytes(offset as u32));
                lemma_operand32(img, base, at + 2, offset as u32);
            } else {
                assert(operand =~= le16_bytes((offset / 16) as u16));
                lemma_operand16(img, base, at + 2, (offset / 16) as u16);
            }
        },
    }
}

proof fn lemma_keeps(p: Seq<Code>, reg: int)
    requires
        p.len() > 0,
    ensures
        keeps(p, reg) <==> keeps(p.drop_last(), reg) || match p.last().step {
            Step::Push { reg: r } => r == reg,
            Step::Save { reg: r, .. } => r == reg,
            _ => false,
        },
        keeps_xmm(p, reg) <==> keeps_xmm(p.drop_last(), reg) || match p.last().step {
            Step::SaveXmm { reg: r, .. } => r == reg,
            _ => false,
        },
{
    let q = p.drop_last();
    let n = p.len() - 1;
    assert(p[n] == p.last());
    if keeps(p, reg) {
        let i = choose|i: int|
            0 <= i < p.len() && match (#[trigger] p[i]).step {
                Step::Push { reg: r } => r == reg,
                Step::Save { reg: r, .. } => r == reg,
                _ => false,
            };
        if i < n {
            assert(q[i] == p[i]);
        }
    }
    if keeps(q, reg) {
        let i = choose|i: int|
            0 <= i < q.len() && match (#[trigger] q[i]).step {
                Step::Push { reg: r } => r == reg,
                Step::Save { reg: r, .. } => r == reg,
                _ => false,
            };
        assert(p[i] == q[i]);
    }
    if keeps_xmm(p, reg) {
        let i = choose|i: int|
            0 <= i < p.len() && match (#[trigger] p[i]).step {
                Step::SaveXmm { reg: r, .. } => r == reg,
                _ => false,
            };
        if i < n {
            assert(q[i] == p[i]);
        }
    }
    if keeps_xmm(q, reg) {
        let i = choose|i: int|
            0 <= i < q.len() && match (#[trigger] q[i]).step {
                Step::SaveXmm { reg: r, .. } => r == reg,
                _ => false,
            };
        assert(p[i] == q[i]);
    }
}

proof fn lemma_code_count(p: Seq<Code>)
    requires
        forall|i: int| 0 <= i < p.len() ==> code_ok(#[trigger] p[i]),
    ensures
        codes_bytes(p).len() % 2 == 0,
        codes_bytes(p).len() >= 2 * p.len(),
    decreases p.len(),
{
    if p.len() > 0 {
        assert(code_ok(p[p.len() - 1]));
        lemma_code_head(p.last());
        assert forall|i: int| 0 <= i < p.drop_last().len() implies code_ok(
            #[trigger] p.drop_last()[i],
        ) by {
            assert(code_ok(p[i]));
        }
        lemma_code_count(p.drop_last());
    }
}

/// Undoing the unwind codes of a prologue gives back all that it kept, and the stack pointer that it
/// started with. Steps that have not executed are passed over.
pub proof fn undoing_restores<I: ImageReader, S: StackReader>(
    img: &I,
    stack: &S,
    base: u64,
    rva: int,
    frame: UnwindInfoHeader,
    done: Option<u32>,
    idx: int,
    machine_frame: bool,
    p: Seq<Code>,
    executed: int,
    r0: Registers,
    r: Registers,
)
    requires
        0 <= idx,
        executed_up_to(p, executed, done),
        stands(img, base, slot_at(rva, idx), codes_bytes(p)),
        frame.count_of_codes == idx + codes_bytes(p).len() / 2,
        stack_keeps(stack, p.take(executed), r0),
        r.rsp() == plus(r0.rsp(), -frame_size(p.take(executed))),
        registers_ok(r),
        registers_ok(r0),
    ensures
        undo_codes(img, stack, base, rva, frame, done, idx, machine_frame, r) == (
            restored(p.take(executed), r0, r),
            Ok::<bool, FrameWalkError>(machine_frame),
        ),
    decreases p.len(),
{
    lemma_code_count(p);
    if p.len() == 0 {
        assert(p.take(executed) =~= p);
        lemma_plus(r0.rsp(), 0, 0);
        assert(frame_size(p) == 0);
        assert(restored(p, r0, r) =~= r);
    } else {
        let c = p.last();
        let q = p.drop_last();
        assert(code_ok(p[p.len() - 1]));
        lemma_code_head(c);
        lemma_stands(img, base, slot_at(rva, idx), code_bytes(c), codes_bytes(q));
        let slots = code_bytes(c).len() as int / 2;
        assert(slot_at(rva, idx) + code_bytes(c).len() == slot_at(rva, idx + slots));
        assert(byte(img, base, slot_at(rva, idx) + 0) == Some(c.position));
        assert(byte(img, base, slot_at(rva, idx) + 1) == Some(code_bytes(c)[1]));
        lemma_code_count_prefix(p);
        assert(codes_bytes(p).len() == code_bytes(c).len() + codes_bytes(q).len());
        let fewer = if executed < p.len() {
            executed
        } else {
            executed - 1
        };
        assert forall|i: int| 0 <= i < q.len() implies code_ok(#[trigger] q[i]) && (match done {
            Some(done) => q[i].position <= done <==> i < fewer,
            None => true,
        }) by {
            assert(code_ok(p[i]));
            assert(q[i] == p[i]);
        }
        assert(executed_up_to(q, fewer, done));
        assert(p[p.len() - 1] == c);
        if executed < p.len() {
            assert(q.take(fewer) =~= p.take(executed));
            assert(undo_slot(img, stack, base, rva, frame, done, idx, r) == (
                r,
                Ok::<(int, bool), FrameWalkError>((slots, false)),
            ));
            undoing_restores(
                img,
                stack,
                base,
                rva,
                frame,
                done,
                idx + slots,
                machine_frame,
                q,
                fewer,
                r0,
                r,
            );
        } else {
            assert(p.take(executed) =~= p);
            assert(q.take(fewer) =~= q);
            lemma_undo_step(img, stack, base, rva, idx, frame, p, r0, r);
            let (op, info) = operation(c);
            let next = undo(img, stack, base, rva, idx, op, info, frame, r).0;
            undoing_restores(
                img,
                stack,
                base,
                rva,
                frame,
                done,
                idx + slots,
                machine_frame,
                q,
                fewer,
                r0,
                next,
            );
            assert forall|i: int| 0 <= i < 16 implies #[trigger] restored(q, r0, next).gpr[i]
                == restored(p, r0, r).gpr[i] by {
                lemma_keeps(p, i);
            }
            assert forall|i: int| 0 <= i < 16 implies #[trigger] restored(q, r0, next).xmm[i]
                == restored(p, r0, r).xmm[i] by {
                lemma_keeps(p, i);
            }
            assert(restored(q, r0, next) =~= restored(p, r0, r));
        }
    }
}

proof fn lemma_code_count_prefix(p: Seq<Code>)
    requires
        p.len() > 0,
        forall|i: int| 0 <= i < p.len() ==> code_ok(#[trigger] p[i]),
    ensures
        codes_bytes(p.drop_last()).len() % 2 == 0,
{
    assert forall|i: int| 0 <= i < p.drop_last().len() implies code_ok(
        #[trigger] p.drop_last()[i],
    ) by {
        assert(code_ok(p[i]));
    }
    lemma_code_count(p.drop_last());
}

/// The header of unwind information: the version and flags, the length of the prologue, the number of
/// code slots, and the frame register with its offset in units of sixteen bytes.
pub open spec fn header_bytes(h: UnwindInfoHeader) -> Seq<u8> {
    seq![
        (h.version + 8 * h.flags) as u8,
        h.size_of_prolog,
        h.count_of_codes,
        (h.frame_register + 16 * h.frame_offset) as u8,
    ]
}

/// Whether the parts of a header fit their bits.
pub open spec fn header_ok(h: UnwindInfoHeader) -> bool {
    h.version < 8 && h.flags < 32 && h.frame_register < 16 && h.frame_offset < 16
}

/// A header that was written down reads back.
pub proof fn headers_read_back<I: ImageReader>(img: &I, base: u64, rva: int, h: UnwindInfoHeader)
    requires
        header_ok(h),
        stands(img, base, rva, header_bytes(h)),
    ensures
        header(img, base, rva) == Some(h),
{
    let b = header_bytes(h);
    assert(byte(img, base, rva + 0) == Some(b[0]));
    assert(byte(img, base, rva + 1) == Some(b[1]));
    assert(byte(img, base, rva + 2) == Some(b[2]));
    assert(byte(img, base, rva + 3) == Some(b[3]));
    assert(header_of(b[0], b[1], b[2], b[3]) == h);
}

/// The flags tell the handlers and the chain: one for an exception handler, two for a termination
/// handler, four for a chain. What follows the codes stands at a multiple of four bytes.
pub proof fn flags_tell_handlers(h: UnwindInfoHeader)
    requires
        header_ok(h),
    ensures
        h.names_handler() <==> (h.flags & 1 == 1 || h.flags & 2 == 2),
        h.chains() <==> h.flags & 4 == 4,
        h.tail() % 4 == 0,
        4 + 2 * h.count_of_codes <= h.tail() <= 6 + 2 * h.count_of_codes,
{
    let f = h.flags;
    assert((f % 4 != 0) <==> (f & 1 == 1 || f & 2 == 2)) by (bit_vector);
    assert((f / 4 % 2 == 1) <==> f & 4 == 4) by (bit_vector);
}

/// The registers of the caller, given those at the start of the function, where the stack pointer
/// points at the return address.
pub open spec fn returned(r0: Registers, address: u64) -> Registers {
    r0.with_rip(address).with_rsp(plus(r0.rsp(), 8))
}

/// Whether registers are those that a function started with, but for the stack pointer, the
/// instruction pointer, and registers that its prologue keeps.
pub open spec fn differs_in_kept(p: Seq<Code>, r0: Registers, r: Registers) -> bool {
    &&& registers_ok(r)
    &&& registers_ok(r0)
    &&& forall|i: int|
        0 <= i < 16 && i != 4 && !keeps(p, i) ==> #[trigger] r.gpr[i] == r0.gpr[i]
    &&& forall|i: int| 0 <= i < 16 && !keeps_xmm(p, i) ==> #[trigger] r.xmm[i] == r0.xmm[i]
}

proof fn lemma_restored(p: Seq<Code>, r0: Registers, r: Registers)
    requires
        differs_in_kept(p, r0, r),
    ensures
        restored(p, r0, r) == r0.with_rip(r.rip),
{
    assert(restored(p, r0, r) =~= r0.with_rip(r.rip));
}

/// Unwinding where the codes of the prologue can be undone.
proof fn lemma_unwinds<I: ImageReader, S: StackReader>(
    img: &I,
    stack: &S,
    base: u64,
    pc: u64,
    f: RuntimeFunction,
    h: UnwindInfoHeader,
    own: Registers,
    r: Registers,
    address: u64,
)
    requires
        base <= pc,
        f.begin <= pc - base < f.end,
        f.unwind_info % 2 == 0,
        header(img, base, f.unwind_info as int) == Some(h),
        !h.chains(),
        super::establisher(
            img,
            base,
            f.unwind_info as int,
            h,
            (pc - base - f.begin) as u32,
            r,
        ) is Some,
        epilogue(img, stack, base, (pc - base) as u32, f.end, r) is None,
        undo_codes(
            img,
            stack,
            base,
            f.unwind_info as int,
            h,
            Some((pc - base - f.begin) as u32),
            0,
            false,
            r,
        ) == (own, Ok::<bool, FrameWalkError>(false)),
        stack.word_at(own.rsp()) == Some(address),
    ensures
        virtual_unwind_of(img, stack, 0, base, pc, f, r) == (
            own.with_rip(address).bump(8),
            Ok::<UnwindResult, FrameWalkError>(no_handler()),
        ),
{
    let done = (pc - base - f.begin) as u32;
    let rva = f.unwind_info as int;
    assert(unwind_frame(
        img,
        stack,
        0,
        base,
        rva,
        done,
        (pc - base) as u32,
        f.end,
        r,
    ) == (own.with_rip(address).bump(8), Ok::<UnwindResult, FrameWalkError>(no_handler()))) by {
        reveal(unwind_frame);
    }
    assert(resolve_row(img, base, f, 0) == Some(f));
    reveal(virtual_unwind_of);
}

proof fn lemma_no_chain(h: UnwindInfoHeader)
    requires
        h.flags < 4,
    ensures
        !h.chains(),
{
}

/// Unwinding gives the registers of the caller back: wherever in its prologue or its body a function
/// without a frame register was interrupted, all that it changed and kept is restored, and the
/// return address and the stack pointer are the caller's.
pub proof fn unwinding_restores_the_caller<I: ImageReader, S: StackReader>(
    img: &I,
    stack: &S,
    base: u64,
    pc: u64,
    f: RuntimeFunction,
    h: UnwindInfoHeader,
    p: Seq<Code>,
    executed: int,
    r0: Registers,
    r: Registers,
    address: u64,
)
    requires
        base <= pc,
        f.begin <= pc - base < f.end,
        f.unwind_info % 2 == 0,
        header_ok(h),
        h.flags < 4,
        h.frame_register == 0,
        h.count_of_codes == codes_bytes(p).len() / 2,
        stands(img, base, f.unwind_info as int, header_bytes(h) + codes_bytes(p)),
        executed_up_to(p, executed, Some((pc - base - f.begin) as u32)),
        epilogue(img, stack, base, (pc - base) as u32, f.end, r) is None,
        stack_keeps(stack, p.take(executed), r0),
        r.rsp() == plus(r0.rsp(), -frame_size(p.take(executed))),
        differs_in_kept(p.take(executed), r0, r),
        stack.word_at(r0.rsp()) == Some(address),
    ensures
        virtual_unwind_of(img, stack, 0, base, pc, f, r) == (
            returned(r0, address),
            Ok::<UnwindResult, FrameWalkError>(no_handler()),
        ),
{
    let rva = f.unwind_info as int;
    let done = (pc - base - f.begin) as u32;
    lemma_stands(img, base, rva, header_bytes(h), codes_bytes(p));
    headers_read_back(img, base, rva, h);
    lemma_no_chain(h);
    assert(slot_at(rva, 0) == rva + 4);
    undoing_restores(img, stack, base, rva, h, Some(done), 0, false, p, executed, r0, r);
    lemma_restored(p.take(executed), r0, r);
    let own = r0.with_rip(r.rip);
    lemma_unwinds(img, stack, base, pc, f, h, own, r, address);
    assert(own.with_rip(address).bump(8) =~= returned(r0, address));
}

/// Unwinding a function with a frame register, in its body, gives the registers of the caller back
/// wherever the stack pointer is: the frame register tells how far the prologue took it down. The
/// frame of its handlers is where the stack pointer was behind the prologue.
pub proof fn frame_registers_restore_the_caller<I: ImageReader, S: StackReader>(
    img: &I,
    stack: &S,
    base: u64,
    pc: u64,
    f: RuntimeFunction,
    h: UnwindInfoHeader,
    position: u8,
    p: Seq<Code>,
    r0: Registers,
    r: Registers,
    address: u64,
)
    requires
        base <= pc,
        f.begin <= pc - base < f.end,
        f.unwind_info % 2 == 0,
        header_ok(h),
        h.flags < 4,
        h.frame_register != 0,
        h.frame_register != 4,
        h.size_of_prolog <= pc - base - f.begin,
        position <= h.size_of_prolog,
        h.count_of_codes == 1 + codes_bytes(p).len() / 2,
        stands(
            img,
            base,
            f.unwind_info as int,
            header_bytes(h) + seq![position, 3u8] + codes_bytes(p),
        ),
        executed_up_to(p, p.len() as int, Some((pc - base - f.begin) as u32)),
        epilogue(img, stack, base, (pc - base) as u32, f.end, r) is None,
        stack_keeps(stack, p, r0),
        r.gpr[h.frame_register as int] == plus(r0.rsp(), 16 * h.frame_offset - frame_size(p)),
        differs_in_kept(p, r0, r),
        stack.word_at(r0.rsp()) == Some(address),
    ensures
        virtual_unwind_of(img, stack, 0, base, pc, f, r) == (
            returned(r0, address),
            Ok::<UnwindResult, FrameWalkError>(no_handler()),
        ),
        super::establisher(
            img,
            base,
            f.unwind_info as int,
            h,
            (pc - base - f.begin) as u32,
            r,
        ) == Some(plus(r0.rsp(), -frame_size(p))),
{
    let rva = f.unwind_info as int;
    let done = (pc - base - f.begin) as u32;
    let set = seq![position, 3u8];
    assert(header_bytes(h) + set + codes_bytes(p) =~= header_bytes(h) + (set + codes_bytes(p)));
    lemma_stands(img, base, rva, header_bytes(h), set + codes_bytes(p));
    lemma_stands(img, base, rva + 4, set, codes_bytes(p));
    headers_read_back(img, base, rva, h);
    lemma_no_chain(h);
    lemma_plus(r0.rsp(), 16 * h.frame_offset - frame_size(p), -(16 * h.frame_offset));
    let next = r.with_rsp(plus(r0.rsp(), -frame_size(p)));
    lemma_frame_code(img, stack, base, rva, h, done, position, p, r0, r);
    assert(slot_at(rva, 1) == rva + 4 + 2);
    assert(p.take(p.len() as int) =~= p);
    undoing_restores(
        img,
        stack,
        base,
        rva,
        h,
        Some(done),
        1,
        false,
        p,
        p.len() as int,
        r0,
        next,
    );
    lemma_restored(p, r0, next);
    let own = r0.with_rip(r.rip);
    lemma_unwinds(img, stack, base, pc, f, h, own, r, address);
    assert(own.with_rip(address).bump(8) =~= returned(r0, address));
}

proof fn lemma_frame_code<I: ImageReader, S: StackReader>(
    img: &I,
    stack: &S,
    base: u64,
    rva: int,
    h: UnwindInfoHeader,
    done: u32,
    position: u8,
    p: Seq<Code>,
    r0: Registers,
    r: Registers,
)
    requires
        h.count_of_codes > 0,
        h.frame_register < 16,
        position <= done,
        stands(img, base, rva + 4, seq![position, 3u8]),
        plus(r.gpr[h.frame_register as int], -(16 * h.frame_offset)) == plus(
            r0.rsp(),
            -frame_size(p),
        ),
    ensures
        undo_codes(img, stack, base, rva, h, Some(done), 0, false, r) == undo_codes(
            img,
            stack,
            base,
            rva,
            h,
            Some(done),
            1,
            false,
            r.with_rsp(plus(r0.rsp(), -frame_size(p))),
        ),
{
    let set = seq![position, 3u8];
    assert(slot_at(rva, 0) == rva + 4);
    assert(byte(img, base, rva + 4 + 0) == Some(set[0]));
    assert(byte(img, base, rva + 4 + 1) == Some(set[1]));
    let next = r.with_rsp(plus(r0.rsp(), -frame_size(p)));
    assert(undo_slot(img, stack, base, rva, h, Some(done), 0, r) == (
        next,
        Ok::<(int, bool), FrameWalkError>((1, false)),
    ));
}

/// Unwind information that another one chains to is undone in full: all that its prologue kept comes
/// back, and the stack pointer that it started with.
pub proof fn chained_prologues_are_undone<I: ImageReader, S: StackReader>(
    img: &I,
    stack: &S,
    base: u64,
    rva: int,
    depth: int,
    h: UnwindInfoHeader,
    p: Seq<Code>,
    r0: Registers,
    r: Registers,
)
    requires
        depth <= 32,
        header_ok(h),
        h.flags & 4 == 0,
        h.count_of_codes == codes_bytes(p).len() / 2,
        stands(img, base, rva, header_bytes(h) + codes_bytes(p)),
        executed_up_to(p, p.len() as int, None),
        stack_keeps(stack, p, r0),
        r.rsp() == plus(r0.rsp(), -frame_size(p)),
        registers_ok(r),
        registers_ok(r0),
    ensures
        undo_chain(img, stack, base, rva, depth, r) == (
            restored(p, r0, r),
            Ok::<(), FrameWalkError>(()),
        ),
{
    lemma_stands(img, base, rva, header_bytes(h), codes_bytes(p));
    headers_read_back(img, base, rva, h);
    flags_tell_handlers(h);
    assert(h.flags & 4 != 4) by {
        let x = h.flags;
        assert(x & 4 == 0 ==> x & 4 != 4) by (bit_vector);
    }
    assert(slot_at(rva, 0) == rva + 4);
    assert(p.take(p.len() as int) =~= p);
    undoing_restores(img, stack, base, rva, h, None, 0, false, p, p.len() as int, r0, r);
}

/// An interrupted function whose information starts with a machine frame is gone back from to where
/// it was interrupted: behind an error code, if there is one, stand the instruction pointer and,
/// three words above it, the stack pointer.
pub proof fn machine_frames_are_left<I: ImageReader, S: StackReader>(
    img: &I,
    stack: &S,
    base: u64,
    rva: int,
    idx: int,
    frame: UnwindInfoHeader,
    with_code: bool,
    rip: u64,
    rsp: u64,
    r: Registers,
)
    requires
        registers_ok(r),
        stack.word_at(
            plus(
                r.rsp(),
                if with_code {
                    8
                } else {
                    0
                },
            ),
        ) == Some(rip),
        stack.word_at(
            plus(
                r.rsp(),
                if with_code {
                    32
                } else {
                    24
                },
            ),
        ) == Some(rsp),
        stands(
            img,
            base,
            slot_at(rva, idx),
            seq![
                0u8,
                if with_code {
                    0x1au8
                } else {
                    0x0au8
                },
            ],
        ),
    ensures
        undo_slot(img, stack, base, rva, frame, None, idx, r) == (
            r.with_rip(rip).with_rsp(rsp),
            Ok::<(int, bool), FrameWalkError>((1, true)),
        ),
{
    let n: int = if with_code {
        8
    } else {
        0
    };
    lemma_plus(r.rsp(), n, 0x18);
    let at = slot_at(rva, idx);
    assert(byte(img, base, at + 0) == Some(0u8));
    assert(byte(img, base, at + 1) == Some(
        if with_code {
            0x1au8
        } else {
            0x0au8
        },
    ));
    assert(r.bump(n).with_rip(rip).with_rsp(rsp) =~= r.with_rip(rip).with_rsp(rsp));
}

// ---------------------------------------------------------------------------------------------
// Epilogues
// ---------------------------------------------------------------------------------------------

/// The instruction with which an epilogue takes the stack pointer up.
pub enum Adjustment {
    /// None.
    Nothing,
    /// `add rsp, n`, with one byte for the number.
    AddByte { n: int },
    /// `add rsp, n`, with four bytes for the number.
    AddWord { n: int },
    /// `lea rsp, [reg]`.
    Lea { reg: int },
    /// `lea rsp, [reg + n]`, with one byte for the signed number.
    LeaByte { reg: int, n: int },
    /// `lea rsp, [reg + n]`, with four bytes for the signed number.
    LeaWord { reg: int, n: int },
}

/// A number modulo `size`.
pub open spec fn unsigned(n: int, size: int) -> int {
    if n < 0 {
        n + size
    } else {
        n
    }
}

/// The bytes of an adjustment.
pub open spec fn adjustment_bytes(a: Adjustment) -> Seq<u8> {
    match a {
        Adjustment::Nothing => Seq::empty(),
        Adjustment::AddByte { n } => seq![0x48u8, 0x83, 0xc4, n as u8],
        Adjustment::AddWord { n } => seq![0x48u8, 0x81, 0xc4] + le32_bytes(n as u32),
        Adjustment::Lea { reg } => seq![(0x48 + reg / 8) as u8, 0x8d, (0x20 + reg % 8) as u8],
        Adjustment::LeaByte { reg, n } => seq![
            (0x48 + reg / 8) as u8,
            0x8d,
            (0x60 + reg % 8) as u8,
            unsigned(n, 0x100) as u8,
        ],
        Adjustment::LeaWord { reg, n } => seq![
            (0x48 + reg / 8) as u8,
            0x8d,
            (0xa0 + reg % 8) as u8,
        ] + le32_bytes(unsigned(n, 0x1_0000_0000) as u32),
    }
}

/// Whether an adjustment can be written down. One byte counts from zero to 255.
pub open spec fn adjustment_ok(a: Adjustment) -> bool {
    match a {
        Adjustment::Nothing => true,
        Adjustment::AddByte { n } => 0 <= n <= 0xff,
        Adjustment::AddWord { n } => 0 <= n <= 0xffff_ffff,
        Adjustment::Lea { reg } => 0 <= reg < 16,
        Adjustment::LeaByte { reg, n } => 0 <= reg < 16 && -0x80 <= n <= 0x7f,
        Adjustment::LeaWord { reg, n } => 0 <= reg < 16 && -0x8000_0000 <= n <= 0x7fff_ffff,
    }
}

/// The stack pointer behind an adjustment.
pub open spec fn adjusted(a: Adjustment, r: Registers) -> u64 {
    match a {
        Adjustment::Nothing => r.rsp(),
        Adjustment::AddByte { n } => plus(r.rsp(), n),
        Adjustment::AddWord { n } => plus(r.rsp(), n),
        Adjustment::Lea { reg } => r.gpr[reg],
        Adjustment::LeaByte { reg, n } => plus(r.gpr[reg], n),
        Adjustment::LeaWord { reg, n } => plus(r.gpr[reg], n),
    }
}

/// The bytes of `pop reg`. The eight upper registers take a prefix, for which there are two bytes.
pub open spec fn pop_bytes(reg: int, wide: bool) -> Seq<u8> {
    if reg < 8 {
        seq![(0x58 + reg) as u8]
    } else if wide {
        seq![0x49u8, (0x58 + (reg - 8)) as u8]
    } else {
        seq![0x41u8, (0x58 + (reg - 8)) as u8]
    }
}

/// The bytes of pops, one behind the other.
pub open spec fn pops_bytes(regs: Seq<int>, wide: bool) -> Seq<u8>
    decreases regs.len(),
{
    if regs.len() == 0 {
        Seq::empty()
    } else {
        pop_bytes(regs[0], wide) + pops_bytes(regs.skip(1), wide)
    }
}

/// Whether registers can be popped: none twice, and not the stack pointer.
pub open spec fn pops_ok(regs: Seq<int>) -> bool {
    &&& regs.no_duplicates()
    &&& forall|i: int| 0 <= i < regs.len() ==> 0 <= #[trigger] regs[i] < 16 && regs[i] != 4
}

/// An instruction that pops a register is read as one.
pub proof fn pops_read_back<I: ImageReader>(img: &I, base: u64, at: int, reg: int, wide: bool)
    requires
        0 <= reg < 16,
        stands(img, base, at, pop_bytes(reg, wide)),
    ensures
        pop_at(img, base, at) == Some((reg, pop_bytes(reg, wide).len() as int)),
{
    let b = pop_bytes(reg, wide);
    assert(byte(img, base, at + 0) == Some(b[0]));
    if reg >= 8 {
        assert(byte(img, base, at + 1) == Some(b[1]));
    }
}

proof fn lemma_pops<I: ImageReader, S: StackReader>(
    img: &I,
    stack: &S,
    base: u64,
    at: int,
    end: int,
    regs: Seq<int>,
    wide: bool,
    values: Seq<u64>,
    r: Registers,
) -> (out: Registers)
    requires
        pops_ok(regs),
        registers_ok(r),
        stands(img, base, at, pops_bytes(regs, wide)),
        end == at + pops_bytes(regs, wide).len(),
        values.len() == regs.len(),
        forall|i: int|
            0 <= i < regs.len() ==> #[trigger] stack.word_at(plus(r.rsp(), 8 * i)) == Some(
                values[i],
            ),
    ensures
        pops(img, stack, base, at, end, r) == Some((end, out)),
        registers_ok(out),
        out.rip == r.rip,
        out.xmm == r.xmm,
        out.rsp() == plus(r.rsp(), 8 * (regs.len() as int)),
        forall|i: int| 0 <= i < regs.len() ==> out.gpr[#[trigger] regs[i]] == values[i],
        forall|i: int|
            0 <= i < 16 && i != 4 && !regs.contains(i) ==> #[trigger] out.gpr[i] == r.gpr[i],
    decreases regs.len(),
{
    lemma_plus(r.rsp(), 0, 0);
    if regs.len() == 0 {
        r
    } else {
        let reg = regs[0];
        let rest = regs.skip(1);
        lemma_stands(img, base, at, pop_bytes(reg, wide), pops_bytes(rest, wide));
        pops_read_back(img, base, at, reg, wide);
        let length = pop_bytes(reg, wide).len() as int;
        assert(stack.word_at(plus(r.rsp(), 8 * 0int)) == Some(values[0]));
        let next = r.with_gpr(reg, values[0]).bump(8);
        assert(next.rsp() == plus(r.rsp(), 8));
        assert(pops_ok(rest)) by {
            assert forall|i: int| 0 <= i < rest.len() implies 0 <= #[trigger] rest[i] < 16
                && rest[i] != 4 by {
                assert(rest[i] == regs[i + 1]);
            }
            assert forall|i: int, j: int| 0 <= i < rest.len() && 0 <= j < rest.len() && i != j
                implies rest[i] != rest[j] by {
                assert(rest[i] == regs[i + 1] && rest[j] == regs[j + 1]);
            }
        }
        assert forall|i: int| 0 <= i < rest.len() implies #[trigger] stack.word_at(
            plus(next.rsp(), 8 * i),
        ) == Some(values.skip(1)[i]) by {
            lemma_plus(r.rsp(), 8, 8 * i);
            assert(stack.word_at(plus(r.rsp(), 8 * (i + 1))) == Some(values[i + 1]));
        }
        let out = lemma_pops(
            img,
            stack,
            base,
            at + length,
            end,
            rest,
            wide,
            values.skip(1),
            next,
        );
        lemma_plus(r.rsp(), 8, 8 * (rest.len() as int));
        assert(!rest.contains(reg)) by {
            if rest.contains(reg) {
                let i = choose|i: int| 0 <= i < rest.len() && rest[i] == reg;
                assert(regs[i + 1] == regs[0]);
            }
        }
        assert forall|i: int| 0 <= i < regs.len() implies out.gpr[#[trigger] regs[i]]
            == values[i] by {
            if i == 0 {
                assert(out.gpr[reg] == next.gpr[reg]);
            } else {
                assert(rest[i - 1] == regs[i]);
                assert(out.gpr[rest[i - 1]] == values.skip(1)[i - 1]);
            }
        }
        assert forall|i: int| 0 <= i < 16 && i != 4 && !regs.contains(i) implies
            #[trigger] out.gpr[i] == r.gpr[i] by {
            assert(!rest.contains(i)) by {
                if rest.contains(i) {
                    let k = choose|k: int| 0 <= k < rest.len() && rest[k] == i;
                    assert(regs[k + 1] == i);
                }
            }
            assert(regs[0] == reg);
            assert(i != reg);
            assert(out.gpr[i] == next.gpr[i]);
        }
        assert(pops(img, stack, base, at, end, r) == pops(
            img,
            stack,
            base,
            at + length,
            end,
            next,
        ));
        out
    }
}

proof fn lemma_adjusts<I: ImageReader>(
    img: &I,
    base: u64,
    at: int,
    a: Adjustment,
    behind: Seq<u8>,
    r: Registers,
)
    requires
        registers_ok(r),
        adjustment_ok(a),
        stands(img, base, at, adjustment_bytes(a) + behind),
        behind.len() > 0,
        behind[0] != 0x48,
        a is Nothing && behind[0] == 0x49 ==> behind.len() > 1 && behind[1] != 0x8d,
    ensures
        adjust_stack(img, base, at, r) == Some(
            (adjustment_bytes(a).len() as int, r.with_rsp(adjusted(a, r))),
        ),
{
    let b = adjustment_bytes(a) + behind;
    lemma_stands(img, base, at, adjustment_bytes(a), behind);
    assert(byte(img, base, at + 0) == Some(b[0]));
    assert(r.with_rsp(r.rsp()) =~= r);
    match a {
        Adjustment::Nothing => {
            assert(b =~= behind);
            if b[0] == 0x49 {
                assert(byte(img, base, at + 1) == Some(b[1]));
            }
        },
        Adjustment::AddByte { n } => {
            assert(byte(img, base, at + 1) == Some(b[1]));
            assert(byte(img, base, at + 2) == Some(b[2]));
            assert(byte(img, base, at + 3) == Some(b[3]));
        },
        Adjustment::AddWord { n } => {
            assert(byte(img, base, at + 1) == Some(b[1]));
            assert(byte(img, base, at + 2) == Some(b[2]));
            assert(byte(img, base, at + 3) == Some(b[3]));
            lemma_stands(
                img,
                base,
                at,
                seq![0x48u8, 0x81, 0xc4],
                le32_bytes(n as u32),
            );
            lemma_operand32(img, base, at + 3, n as u32);
        },
        Adjustment::Lea { reg } => {
            assert(byte(img, base, at + 1) == Some(b[1]));
            assert(byte(img, base, at + 2) == Some(b[2]));
            assert(byte(img, base, at + 3) == Some(b[3]));
            assert(reg % 8 + 8 * (reg / 8) == reg);
        },
        Adjustment::LeaByte { reg, n } => {
            assert(byte(img, base, at + 1) == Some(b[1]));
            assert(byte(img, base, at + 2) == Some(b[2]));
            assert(byte(img, base, at + 3) == Some(b[3]));
            assert(reg % 8 + 8 * (reg / 8) == reg);
            assert(signed(b[3] as int, 0x100) == n);
        },
        Adjustment::LeaWord { reg, n } => {
            assert(byte(img, base, at + 1) == Some(b[1]));
            assert(byte(img, base, at + 2) == Some(b[2]));
            assert(byte(img, base, at + 3) == Some(b[3]));
            assert(reg % 8 + 8 * (reg / 8) == reg);
            let v = unsigned(n, 0x1_0000_0000) as u32;
            lemma_stands(
                img,
                base,
                at,
                seq![(0x48 + reg / 8) as u8, 0x8d, (0xa0 + reg % 8) as u8],
                le32_bytes(v),
            );
            lemma_operand32(img, base, at + 3, v);
            assert(signed(v as int, 0x1_0000_0000) == n);
        },
    }
}

/// What an epilogue of written instructions does. The stack pointer is adjusted; each popped register
/// gets its word from the stack, in the order of the pops; the instruction pointer gets the next
/// word, and the stack pointer is behind it. All other registers stay.
pub proof fn epilogues_are_executed<I: ImageReader, S: StackReader>(
    img: &I,
    stack: &S,
    base: u64,
    at: u32,
    end: u32,
    a: Adjustment,
    regs: Seq<int>,
    wide: bool,
    values: Seq<u64>,
    address: u64,
    r: Registers,
)
    requires
        registers_ok(r),
        adjustment_ok(a),
        pops_ok(regs),
        values.len() == regs.len(),
        stands(
            img,
            base,
            at as int,
            adjustment_bytes(a) + (pops_bytes(regs, wide) + seq![0xc3u8]),
        ),
        end == at + adjustment_bytes(a).len() + pops_bytes(regs, wide).len() + 1,
        a is Lea ==> adjustment_bytes(a).len() + pops_bytes(regs, wide).len() + 1 >= 4,
        forall|i: int|
            0 <= i < regs.len() ==> #[trigger] stack.word_at(plus(adjusted(a, r), 8 * i)) == Some(
                values[i],
            ),
        stack.word_at(plus(adjusted(a, r), 8 * (regs.len() as int))) == Some(address),
    ensures
        epilogue(img, stack, base, at, end, r) matches Some(out) && {
            &&& registers_ok(out)
            &&& out.rip == address
            &&& out.rsp() == plus(adjusted(a, r), 8 * (regs.len() as int) + 8)
            &&& out.xmm == r.xmm
            &&& forall|i: int| 0 <= i < regs.len() ==> out.gpr[#[trigger] regs[i]] == values[i]
            &&& forall|i: int|
                0 <= i < 16 && i != 4 && !regs.contains(i) ==> #[trigger] out.gpr[i] == r.gpr[i]
        },
{
    let ret = seq![0xc3u8];
    let behind = pops_bytes(regs, wide) + ret;
    if regs.len() > 0 {
        let first = pop_bytes(regs[0], wide);
        assert(pops_bytes(regs, wide)[0] == first[0]);
        assert(behind[0] == first[0]);
        if regs[0] >= 8 {
            assert(pops_bytes(regs, wide)[1] == first[1]);
            assert(behind[1] == first[1]);
        }
    } else {
        assert(pops_bytes(regs, wide) =~= Seq::empty());
        assert(behind =~= ret);
    }
    lemma_adjusts(img, base, at as int, a, behind, r);
    lemma_stands(img, base, at as int, adjustment_bytes(a), behind);
    let length = adjustment_bytes(a).len() as int;
    lemma_stands(img, base, at + length, pops_bytes(regs, wide), ret);
    let moved = r.with_rsp(adjusted(a, r));
    assert(moved.rsp() == adjusted(a, r));
    let out = lemma_pops(
        img,
        stack,
        base,
        at + length,
        end - 1,
        regs,
        wide,
        values,
        moved,
    );
    assert(byte(img, base, end - 1 + 0) == Some(ret[0]));
    assert(out.rsp() == plus(adjusted(a, r), 8 * (regs.len() as int)));
    lemma_plus(adjusted(a, r), 8 * (regs.len() as int), 8);
    let last = out.with_rip(address).bump(8);
    assert(epilogue(img, stack, base, at, end, r) == Some(last));
    assert forall|i: int| 0 <= i < 16 && i != 4 implies #[trigger] last.gpr[i] == out.gpr[i] by {}
}

/// The registers that pushes push, last one first.
pub open spec fn reversed(regs: Seq<int>) -> Seq<int> {
    Seq::new(regs.len(), |i: int| regs[regs.len() - 1 - i])
}

/// The steps of a prologue that pushes registers and then allocates.
pub open spec fn pushes(regs: Seq<int>, size: int) -> Seq<Code> {
    Seq::new(
        regs.len() + 1,
        |i: int|
            Code {
                position: 0,
                step: if i < regs.len() {
                    Step::Push { reg: regs[i] }
                } else {
                    Step::Allocate { size }
                },
                far: false,
            },
    )
}

proof fn lemma_pushes<S: StackReader>(stack: &S, regs: Seq<int>, size: int, r0: Registers, k: int)
    requires
        0 <= k <= regs.len(),
        stack_keeps(stack, pushes(regs, size).take(k), r0),
    ensures
        frame_size(pushes(regs, size).take(k)) == 8 * k,
        forall|i: int|
            0 <= i < k ==> #[trigger] stack.word_at(plus(r0.rsp(), -(8 * (i + 1)))) == Some(
                r0.gpr[regs[i]],
            ),
    decreases k,
{
    let p = pushes(regs, size);
    if k > 0 {
        assert(p.take(k).drop_last() =~= p.take(k - 1));
        lemma_pushes(stack, regs, size, r0, k - 1);
        assert(p.take(k).last() == p[k - 1]);
        assert forall|i: int| 0 <= i < k implies #[trigger] stack.word_at(
            plus(r0.rsp(), -(8 * (i + 1))),
        ) == Some(r0.gpr[regs[i]]) by {
            if i == k - 1 {
                assert(-frame_size(p.take(k)) == -(8 * (i + 1)));
            }
        }
    } else {
        assert(p.take(0) =~= Seq::empty());
    }
}

/// An epilogue that takes back the allocation and pops, in reverse, the registers that the prologue
/// pushed gives the registers of the caller back, just as undoing the codes of the prologue does.
pub proof fn epilogues_restore_the_caller<I: ImageReader, S: StackReader>(
    img: &I,
    stack: &S,
    base: u64,
    at: u32,
    end: u32,
    regs: Seq<int>,
    size: int,
    wide: bool,
    address: u64,
    r0: Registers,
    r: Registers,
)
    requires
        pops_ok(regs),
        0 < size <= 0xff,
        stack_keeps(stack, pushes(regs, size), r0),
        stack.word_at(r0.rsp()) == Some(address),
        r.rsp() == plus(r0.rsp(), -frame_size(pushes(regs, size))),
        differs_in_kept(pushes(regs, size), r0, r),
        stands(
            img,
            base,
            at as int,
            seq![0x48u8, 0x83, 0xc4, size as u8] + (pops_bytes(reversed(regs), wide) + seq![
                0xc3u8,
            ]),
        ),
        end == at + 4 + pops_bytes(reversed(regs), wide).len() + 1,
    ensures
        epilogue(img, stack, base, at, end, r) == Some(returned(r0, address)),
{
    let p = pushes(regs, size);
    let n = regs.len() as int;
    let back = reversed(regs);
    let a = Adjustment::AddByte { n: size };
    assert(p.drop_last() =~= p.take(n));
    assert(p.last() == p[n]);
    lemma_pushes(stack, regs, size, r0, n);
    assert(frame_size(p) == 8 * n + size);
    lemma_plus(r0.rsp(), -frame_size(p), size);
    assert(adjusted(a, r) == plus(r0.rsp(), -(8 * n)));
    let values = Seq::new(n as nat, |i: int| r0.gpr[back[i]]);
    assert forall|i: int| 0 <= i < n implies #[trigger] stack.word_at(plus(adjusted(a, r), 8 * i))
        == Some(values[i]) by {
        lemma_plus(r0.rsp(), -(8 * n), 8 * i);
        let j = n - 1 - i;
        assert(-(8 * (j + 1)) == -(8 * n) + 8 * i);
        assert(stack.word_at(plus(r0.rsp(), -(8 * (j + 1)))) == Some(r0.gpr[regs[j]]));
    }
    lemma_plus(r0.rsp(), -(8 * n), 8 * n);
    lemma_plus(r0.rsp(), -(8 * n), 8 * n + 8);
    assert(pops_ok(back)) by {
        assert forall|i: int| 0 <= i < back.len() implies 0 <= #[trigger] back[i] < 16 && back[i]
            != 4 by {
            assert(back[i] == regs[n - 1 - i]);
        }
        assert forall|i: int, j: int| 0 <= i < back.len() && 0 <= j < back.len() && i != j implies
            back[i] != back[j] by {
            assert(back[i] == regs[n - 1 - i] && back[j] == regs[n - 1 - j]);
        }
    }
    epilogues_are_executed(img, stack, base, at, end, a, back, wide, values, address, r);
    let out = epilogue(img, stack, base, at, end, r)->0;
    let goal = returned(r0, address);
    assert forall|i: int| 0 <= i < 16 implies out.gpr[i] == goal.gpr[i] by {
        if i == 4 {
            assert(out.rsp() == plus(r0.rsp(), 8));
        } else if back.contains(i) {
            let k = choose|k: int| 0 <= k < back.len() && back[k] == i;
            assert(out.gpr[back[k]] == values[k]);
        } else {
            assert(!keeps(p, i)) by {
                if keeps(p, i) {
                    let k = choose|k: int|
                        0 <= k < p.len() && match (#[trigger] p[k]).step {
                            Step::Push { reg: q } => q == i,
                            Step::Save { reg: q, .. } => q == i,
                            _ => false,
                        };
                    assert(k < n && regs[k] == i);
                    assert(back[n - 1 - k] == i);
                }
            }
            assert(out.gpr[i] == r.gpr[i]);
        }
    }
    assert forall|i: int| 0 <= i < 16 implies out.xmm[i] == goal.xmm[i] by {
        assert(!keeps_xmm(p, i));
        assert(r.xmm[i] == r0.xmm[i]);
    }
    assert(out =~= goal);
}

} // verus!
