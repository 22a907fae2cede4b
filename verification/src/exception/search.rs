//! Which handlers are reported, which routines are run, and which frames are walked.

use vstd::prelude::*;

use super::{
    address_hash, caller_of, finally_routines, handled_frames, handler_report, in_user_frame,
    names_asked_handler, plus, resolve_row, walk_from, word, FrameModel, FrameWalkError,
    ImageReader, Registers, RuntimeFunction, ScopeRecord, StackReader, UnwindInfoHeader,
};

verus! {

proof fn lemma_flags(flags: u8)
    by (bit_vector)
    ensures
        flags & 1 != 0 <==> flags % 2 == 1,
        flags & 2 != 0 <==> flags / 2 % 2 == 1,
        flags & 3 != 0 <==> flags % 4 != 0,
{
}

/// Flags one and two tell handlers of exceptions and of unwinding; each is reported to who asks for
/// it, unless flag four says that other information follows.
pub proof fn handlers_are_asked_for_by_kind(h: UnwindInfoHeader)
    ensures
        names_asked_handler(1, h) <==> h.flags % 2 == 1 && h.flags / 4 % 2 == 0,
        names_asked_handler(2, h) <==> h.flags / 2 % 2 == 1 && h.flags / 4 % 2 == 0,
        names_asked_handler(3, h) <==> h.flags % 4 != 0 && h.flags / 4 % 2 == 0,
        !names_asked_handler(0, h),
{
    lemma_flags(h.flags);
}

/// A handler that is asked for stands behind the codes, of which there is an even number with the
/// padding, and its data stands behind it.
pub proof fn handlers_stand_behind_the_codes<I: ImageReader>(
    img: &I,
    handler_type: u8,
    base: u64,
    rva: int,
    h: UnwindInfoHeader,
    establisher_frame: u64,
    padding: int,
    handler: u32,
)
    requires
        names_asked_handler(handler_type, h),
        0 <= padding <= 1,
        (h.count_of_codes + padding) % 2 == 0,
        word(img, base, rva + 4 + 2 * (h.count_of_codes + padding)) == Some(handler as int),
        0 <= rva,
        rva + 8 + 2 * (h.count_of_codes + padding) <= u32::MAX,
    ensures
        handler_report(img, handler_type, base, rva, h, establisher_frame) matches Ok(report) && {
            &&& report.image_base == base
            &&& report.handler_rva == handler
            &&& report.handler_data_rva == rva + 8 + 2 * (h.count_of_codes + padding)
            &&& report.establisher_frame == establisher_frame
        },
{
    assert(h.tail() == 4 + 2 * (h.count_of_codes + padding));
}

/// Nothing is reported where no handler was asked for.
pub proof fn other_handlers_are_not_reported<I: ImageReader>(
    img: &I,
    base: u64,
    rva: int,
    h: UnwindInfoHeader,
    establisher_frame: u64,
)
    ensures
        handler_report(img, 0, base, rva, h, establisher_frame) matches Ok(report)
            && report.image_base == 0 && report.handler_rva == 0 && report.handler_data_rva == 0
            && report.establisher_frame == 0,
{
}

/// A row whose unwind information is odd leads to the row that stands one byte before that.
pub proof fn rows_lead_to_rows<I: ImageReader>(
    img: &I,
    base: u64,
    f: RuntimeFunction,
    target: RuntimeFunction,
)
    requires
        f.unwind_info % 2 == 1,
        target.unwind_info % 2 == 0,
        word(img, base, f.unwind_info - 1) == Some(target.begin as int),
        word(img, base, f.unwind_info + 3) == Some(target.end as int),
        word(img, base, f.unwind_info + 7) == Some(target.unwind_info as int),
    ensures
        resolve_row(img, base, f, 0) == Some(target),
        resolve_row(img, base, target, 0) == Some(target),
{
    reveal_with_fuel(resolve_row, 2);
}

/// The caller of a function without unwind information is where the word at the stack pointer leads,
/// and that word is popped.
pub proof fn leaves_return_to_the_top_of_the_stack<I: ImageReader, S: StackReader>(
    img: &I,
    stack: &S,
    r: Registers,
    rip: u64,
)
    requires
        img.function_at(r.rip) is None,
        stack.word_at(r.rsp()) == Some(rip),
        r.gpr.len() == 16,
        r.rsp() + 8 <= u64::MAX,
    ensures
        caller_of(img, stack, r) matches Ok(next) && {
            &&& next.rip == rip
            &&& next.rsp() == r.rsp() + 8
            &&& forall|i: int| 0 <= i < 16 && i != 4 ==> #[trigger] next.gpr[i] == r.gpr[i]
            &&& next.xmm == r.xmm
        },
{
    let _ = plus(r.rsp(), 8);
}

/// Whether registers are those of the frames of a chain of calls, each the caller of the one before,
/// and all but the first in user mode on the stack.
pub open spec fn calls_stand<I: ImageReader, S: StackReader>(
    img: &I,
    stack: &S,
    low: u64,
    high: u64,
    frames: Seq<Registers>,
) -> bool {
    &&& frames.len() > 0
    &&& forall|i: int|
        0 <= i < frames.len() - 1 ==> caller_of(img, stack, #[trigger] frames[i]) == Ok::<
            Registers,
            FrameWalkError,
        >(frames[i + 1])
    &&& forall|i: int|
        1 <= i < frames.len() ==> in_user_frame(#[trigger] frames[i], low, high)
}

/// The addresses of frames from the one behind `first` on, over those in a buffer.
pub open spec fn noted(frames: Seq<Registers>, skip: int, out: Seq<u64>) -> Seq<u64> {
    Seq::new(
        out.len(),
        |i: int|
            if i + skip + 1 < frames.len() {
                frames[i + skip + 1].rip
            } else {
                out[i]
            },
    )
}

/// Walking notes where each frame was called from, without the first `skip` ones, until there are as
/// many as were asked for, or the next caller is not in user mode on the stack.
pub proof fn callers_are_noted<I: ImageReader, S: StackReader>(
    img: &I,
    stack: &S,
    low: u64,
    high: u64,
    skip: int,
    total: int,
    frames: Seq<Registers>,
    out: Seq<u64>,
)
    requires
        calls_stand(img, stack, low, high, frames),
        0 <= skip,
        frames.len() - 1 <= total,
        total - skip <= out.len(),
        frames.len() - 1 < total ==> (caller_of(img, stack, frames.last()) matches Ok(next)
            && !in_user_frame(next, low, high)),
    ensures
        walk_from(img, stack, low, high, skip, total, 0, frames[0], out) == (
            Ok::<int, FrameWalkError>(frames.len() - 1),
            noted(frames, skip, out),
        ),
{
    assert(noted(frames.take(1), skip, out) =~= out);
    lemma_walk(img, stack, low, high, skip, total, frames, out, 0);
}

proof fn lemma_walk<I: ImageReader, S: StackReader>(
    img: &I,
    stack: &S,
    low: u64,
    high: u64,
    skip: int,
    total: int,
    frames: Seq<Registers>,
    out: Seq<u64>,
    k: int,
)
    requires
        calls_stand(img, stack, low, high, frames),
        0 <= skip,
        0 <= k < frames.len(),
        frames.len() - 1 <= total,
        total - skip <= out.len(),
        frames.len() - 1 < total ==> (caller_of(img, stack, frames.last()) matches Ok(next)
            && !in_user_frame(next, low, high)),
    ensures
        walk_from(
            img,
            stack,
            low,
            high,
            skip,
            total,
            k,
            frames[k],
            noted(frames.take(k + 1), skip, out),
        ) == (Ok::<int, FrameWalkError>(frames.len() - 1), noted(frames, skip, out)),
    decreases frames.len() - k,
{
    if k + 1 < frames.len() {
        assert(caller_of(img, stack, frames[k]) == Ok::<Registers, FrameWalkError>(frames[k + 1]));
        assert(in_user_frame(frames[k + 1], low, high));
        lemma_walk(img, stack, low, high, skip, total, frames, out, k + 1);
        let before = noted(frames.take(k + 1), skip, out);
        let after = noted(frames.take(k + 2), skip, out);
        if k >= skip {
            assert(before.update(k - skip, frames[k + 1].rip) =~= after);
        } else {
            assert(before =~= after);
        }
    } else {
        assert(frames.take(k + 1) =~= frames);
        assert(frames.last() == frames[k]);
    }
}

/// The sum of addresses.
pub open spec fn address_sum(addresses: Seq<u64>) -> int
    decreases addresses.len(),
{
    if addresses.len() == 0 {
        0
    } else {
        addresses[0] + address_sum(addresses.skip(1))
    }
}

proof fn lemma_sum(addresses: Seq<u64>)
    requires
        addresses.len() > 0,
    ensures
        address_sum(addresses) == address_sum(addresses.drop_last()) + addresses.last(),
    decreases addresses.len(),
{
    if addresses.len() > 1 {
        lemma_sum(addresses.skip(1));
        assert(addresses.skip(1).drop_last() =~= addresses.drop_last().skip(1));
    } else {
        assert(addresses.skip(1) =~= Seq::empty());
        assert(addresses.drop_last() =~= Seq::empty());
    }
}

/// The hash of addresses is the low half of their sum.
pub proof fn hashes_are_sums(addresses: Seq<u64>)
    ensures
        address_hash(addresses) == address_sum(addresses) % 0x1_0000_0000,
    decreases addresses.len(),
{
    if addresses.len() > 0 {
        lemma_sum(addresses);
        hashes_are_sums(addresses.drop_last());
    }
}

/// The routines that are run are those of the regions that guard an instruction and have no body, in
/// the order of the regions.
pub proof fn guarding_routines_are_run(pc: u32, scopes: Seq<ScopeRecord>)
    ensures
        finally_routines(pc, scopes) == scopes.filter(
            |s: ScopeRecord| s.begin <= pc && pc < s.end && s.target == 0,
        ).map_values(|s: ScopeRecord| s.handler),
    decreases scopes.len(),
{
    reveal(Seq::filter);
    let wanted = |s: ScopeRecord| s.begin <= pc && pc < s.end && s.target == 0;
    let handler = |s: ScopeRecord| s.handler;
    if scopes.len() > 0 {
        guarding_routines_are_run(pc, scopes.drop_last());
        let before = scopes.drop_last().filter(wanted);
        if wanted(scopes.last()) {
            assert(before.push(scopes.last()).map_values(handler) =~= before.map_values(
                handler,
            ).push(scopes.last().handler));
        }
    } else {
        assert(scopes.filter(wanted).map_values(handler) =~= Seq::empty());
    }
}

/// The frames whose handlers run are those below the target that have one, in order.
pub proof fn handlers_run_in_order(frames: Seq<FrameModel>, n: int)
    requires
        0 <= n <= frames.len() <= usize::MAX,
    ensures
        forall|i: int|
            0 <= i < n ==> ((#[trigger] frames[i]).handler is Some <==> handled_frames(
                frames,
                n,
            ).contains(i as usize)),
        forall|k: int|
            0 <= k < handled_frames(frames, n).len() ==> (#[trigger] handled_frames(frames, n)[k])
                < n,
        forall|j: int, k: int|
            0 <= j < k < handled_frames(frames, n).len() ==> (#[trigger] handled_frames(
                frames,
                n,
            )[j]) < (#[trigger] handled_frames(frames, n)[k]),
    decreases n,
{
    if n > 0 {
        handlers_run_in_order(frames, n - 1);
        let before = handled_frames(frames, n - 1);
        let all = handled_frames(frames, n);
        assert forall|i: int| 0 <= i < n implies ((#[trigger] frames[i]).handler is Some
            <==> all.contains(i as usize)) by {
            if frames[n - 1].handler is Some {
                assert(all == before.push((n - 1) as usize));
                assert(all[before.len() as int] == n - 1);
                if before.contains(i as usize) {
                    let k = choose|k: int| 0 <= k < before.len() && before[k] == i as usize;
                    assert(all[k] == i as usize);
                }
                if all.contains(i as usize) && i < n - 1 {
                    let k = choose|k: int| 0 <= k < all.len() && all[k] == i as usize;
                    assert(before[k] == i as usize);
                }
            } else if i == n - 1 && all.contains(i as usize) {
                let k = choose|k: int| 0 <= k < all.len() && all[k] == i as usize;
                assert(before[k] < n - 1);
            }
        }
    }
}

} // verus!
