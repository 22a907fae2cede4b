use std::collections::BTreeMap;

use nt_ntdll::exception::{CHandlerAction, Context, DispatchResult, Disposition, EXCEPTION_CONTINUE_EXECUTION, EXCEPTION_CONTINUE_SEARCH, EXCEPTION_EXECUTE_HANDLER, EXCEPTION_NONCONTINUABLE, ExceptionRecord, FrameModel, FrameWalkError, FunctionTable, ImageReader, REG_RBP, REG_RBX, REG_RDI, REG_RSI, RuntimeFunction, SCOPE_HANDLER_EXECUTE, STATUS_POSSIBLE_DEADLOCK, ScopeRecord, StackReader, USER_ADDRESS_LOW, UnwindInfoHeader, UnwindResult, c_specific_handler_search, c_specific_handler_unwind, callers_addresses, dispatch_exception, project_stack_back_trace, stack_back_trace_request, unhandled_exception_filter, unw_flag, unwind, virtual_unwind, walk_frame_chain};

// ---- A concrete host ImageReader over a byte blob at a fixed base + a .pdata table ----------

struct MockImage {
    base: u64,
    // rva -> byte
    bytes: BTreeMap<u32, u8>,
    pdata: FunctionTable,
}

impl MockImage {
    fn new(base: u64) -> Self {
        MockImage {
            base,
            bytes: BTreeMap::new(),
            pdata: FunctionTable::add(base, vec![]),
        }
    }
    fn write(&mut self, rva: u32, data: &[u8]) {
        for (k, b) in data.iter().enumerate() {
            self.bytes.insert(rva + k as u32, *b);
        }
    }
    fn set_pdata(&mut self, funcs: Vec<RuntimeFunction>) {
        self.pdata = FunctionTable::add(self.base, funcs);
    }
}

impl ImageReader for MockImage {
    fn lookup_function(&self, control_pc: u64) -> Option<(u64, RuntimeFunction)> {
        self.pdata.lookup(control_pc).map(|f| (self.base, f))
    }
    fn read_u8(&self, image_base: u64, rva: u32) -> Option<u8> {
        if image_base != self.base {
            return None;
        }
        self.bytes.get(&rva).copied()
    }
}

// A mock stack: absolute addr -> u64.
struct MockStack {
    cells: BTreeMap<u64, u64>,
}
impl MockStack {
    fn new() -> Self {
        MockStack {
            cells: BTreeMap::new(),
        }
    }
    fn put(&mut self, addr: u64, v: u64) {
        self.cells.insert(addr, v);
    }
}
impl StackReader for MockStack {
    fn read_u64(&self, addr: u64) -> Option<u64> {
        self.cells.get(&addr).copied()
    }
}

fn rec(code: u32, flags: u32) -> ExceptionRecord {
    ExceptionRecord {
        code,
        flags,
        address: 0x1000,
        information: Vec::new(),
    }
}

// ------------------------------------------------------------------------------------------
// RtlWalkFrameChain / RtlCaptureStackBackTrace
// ------------------------------------------------------------------------------------------

#[test]
fn frame_walk_leaf_frames_and_skip_prefix() {
    let image = MockImage::new(0x1400_0000);
    let mut stack = MockStack::new();
    stack.put(0x2000, 0x1400_1111);
    stack.put(0x2008, 0x1400_2222);
    stack.put(0x2010, 0x1400_3333);
    let mut context = Context::default();
    context.rip = 0x1400_0100;
    context.set_rsp(0x2000);
    let mut callers = [0u64; 2];

    let count =
        walk_frame_chain(context, &mut callers, 1, 0x1000, 0x3000, &image, &stack).unwrap();

    assert_eq!(count, 3);
    assert_eq!(callers, [0x1400_2222, 0x1400_3333]);
}

#[test]
fn frame_walk_uses_runtime_unwind_for_nonleaf_frame() {
    let mut image = MockImage::new(0x1_4000_0000);
    image.set_pdata(vec![RuntimeFunction {
        begin: 0x1000,
        end: 0x1100,
        unwind_info: 0x2000,
    }]);
    image.write(0x2000, &[0x01, 0, 0, 0]);
    let mut stack = MockStack::new();
    stack.put(0x2000, 0x1_4000_3000);
    let mut context = Context::default();
    context.rip = 0x1_4000_1050;
    context.set_rsp(0x2000);
    let mut callers = [0u64; 1];

    let count =
        walk_frame_chain(context, &mut callers, 0, 0x1000, 0x3000, &image, &stack).unwrap();

    assert_eq!(count, 1);
    assert_eq!(callers, [0x1_4000_3000]);
}

#[test]
fn frame_walk_stops_before_recording_invalid_frame() {
    let image = MockImage::new(0x1400_0000);
    let mut stack = MockStack::new();
    stack.put(0x2000, USER_ADDRESS_LOW - 1);
    let mut context = Context::default();
    context.rip = 0x1400_0100;
    context.set_rsp(0x2000);
    let mut callers = [0xAAAA_AAAAu64; 1];

    let count =
        walk_frame_chain(context, &mut callers, 0, 0x1000, 0x3000, &image, &stack).unwrap();

    assert_eq!(count, 0);
    assert_eq!(callers, [0xAAAA_AAAA]);
}

#[test]
fn frame_walk_rejects_missing_or_out_of_bounds_stack_reads() {
    let image = MockImage::new(0x1400_0000);
    let stack = MockStack::new();
    let mut context = Context::default();
    context.rip = 0x1400_0100;
    context.set_rsp(0x1000);
    let mut callers = [0u64; 1];

    assert_eq!(
        walk_frame_chain(context, &mut callers, 0, 0x1000, 0x3000, &image, &stack,),
        Err(FrameWalkError::StackRead)
    );
    assert_eq!(
        walk_frame_chain(context, &mut callers, 0, 0x3000, 0x3000, &image, &stack,),
        Err(FrameWalkError::InvalidStackBounds)
    );
}

#[test]
fn frame_walk_preserves_prior_output_at_stack_boundary() {
    let image = MockImage::new(0x1400_0000);
    let mut stack = MockStack::new();
    stack.put(0x2ff0, 0x1400_1111);
    stack.put(0x2ff8, 0x1400_2222);
    let mut context = Context::default();
    context.rip = 0x1400_0100;
    context.set_rsp(0x2ff0);
    let mut callers = [0xAAAA_AAAAu64; 2];

    let count =
        walk_frame_chain(context, &mut callers, 0, 0x1000, 0x3000, &image, &stack).unwrap();

    assert_eq!(count, 1);
    assert_eq!(callers, [0x1400_1111, 0xAAAA_AAAA]);
}

#[test]
fn stack_back_trace_request_enforces_native_limit() {
    assert_eq!(stack_back_trace_request(0, 126), Some((1, 127)));
    assert_eq!(stack_back_trace_request(0, 127), None);
    assert_eq!(stack_back_trace_request(u32::MAX, 0), None);
}

#[test]
fn stack_back_trace_projection_copies_and_wraps_hash() {
    let frames = [0x1000_0000_FFFF_FFF0, 0x20, 0x30, 0x40];
    let mut trace = [0u64; 3];
    let projected = project_stack_back_trace(&frames, 1, &mut trace);
    assert_eq!(projected, Some((3, 0x90)));
    assert_eq!(trace, [0x20, 0x30, 0x40]);

    let mut untouched = [0xABCDu64; 1];
    assert_eq!(
        project_stack_back_trace(&frames[..1], 1, &mut untouched),
        None
    );
    assert_eq!(untouched, [0xABCD]);
}

#[test]
fn callers_address_selection_matches_native_count_rules() {
    let frames = [1, 2, 3, 4];
    assert_eq!(callers_addresses(&frames, 2), (0, 0));
    assert_eq!(callers_addresses(&frames, 3), (3, 0));
    assert_eq!(callers_addresses(&frames, 4), (3, 4));
    assert_eq!(callers_addresses(&frames, 5), (3, 0));
}

#[test]
fn virtual_unwind_executes_remaining_epilogue() {
    let mut image = MockImage::new(0x1_4000_0000);
    image.set_pdata(vec![RuntimeFunction {
        begin: 0x1000,
        end: 0x1100,
        unwind_info: 0x2000,
    }]);
    // One ALLOC_SMALL(0x20) unwind code makes this a non-leaf function. At 0x10f8 the compiled
    // epilogue is: add rsp,20h; pop rbx; pop rsi; pop rdi; ret.
    image.write(0x2000, &[0x01, 4, 1, 0, 4, 0x32]);
    image.write(0x10f8, &[0x48, 0x83, 0xc4, 0x20, 0x5b, 0x5e, 0x5f, 0xc3]);
    let mut stack = MockStack::new();
    stack.put(0x8020, 0xBBBB_BBBB);
    stack.put(0x8028, 0x6666_6666);
    stack.put(0x8030, 0x7777_7777);
    stack.put(0x8038, 0x1_4000_3000);
    let mut context = Context::default();
    context.rip = 0x1_4000_10f8;
    context.set_rsp(0x8000);

    let result = virtual_unwind(
        unw_flag::NHANDLER,
        image.base,
        context.rip,
        image.pdata.functions[0],
        &mut context,
        &image,
        &stack,
    )
    .unwrap();

    assert_eq!(result.handler_rva, 0);
    assert_eq!(context.gpr[REG_RBX], 0xBBBB_BBBB);
    assert_eq!(context.gpr[REG_RSI], 0x6666_6666);
    assert_eq!(context.gpr[REG_RDI], 0x7777_7777);
    assert_eq!(context.rip, 0x1_4000_3000);
    assert_eq!(context.rsp(), 0x8040);
}

// ------------------------------------------------------------------------------------------
// UNWIND_INFO header parsing
// ------------------------------------------------------------------------------------------

#[test]
fn unwind_header_parse() {
    // version=1, flags=EHANDLER(1) -> byte0 = 1 | (1<<3) = 0x09
    // size_of_prolog=0x0C, count=3, framereg=5(RBP), frameoffset=2 -> byte3 = 5 | (2<<4)=0x25
    let h = UnwindInfoHeader::parse(&[0x09, 0x0C, 0x03, 0x25]);
    assert_eq!(h.version, 1);
    assert_eq!(h.flags, unw_flag::EHANDLER);
    assert_eq!(h.size_of_prolog, 0x0C);
    assert_eq!(h.count_of_codes, 3);
    assert_eq!(h.frame_register, REG_RBP as u8);
    assert_eq!(h.frame_offset, 2);
    assert!(h.has_handler());
    // 3 codes -> padded to 4 -> tail at 4 + 4*2 = 12
    assert_eq!(h.tail_offset(), 12);
}

#[test]
fn unwind_header_flags() {
    let h = UnwindInfoHeader::parse(&[(unw_flag::CHAININFO << 3) | 1, 0, 0, 0]);
    assert!(h.is_chained());
    assert!(!h.has_handler());
    let h2 = UnwindInfoHeader::parse(&[(unw_flag::UHANDLER << 3) | 1, 0, 2, 0]);
    assert!(h2.has_handler());
    assert_eq!(h2.tail_offset(), 4 + 2 * 2);
}

// ------------------------------------------------------------------------------------------
// RtlLookupFunctionEntry
// ------------------------------------------------------------------------------------------

#[test]
fn function_table_lookup() {
    let t = FunctionTable::add(
        0x1_0000,
        vec![
            RuntimeFunction {
                begin: 0x100,
                end: 0x200,
                unwind_info: 0x900,
            },
            RuntimeFunction {
                begin: 0x200,
                end: 0x350,
                unwind_info: 0x910,
            },
        ],
    );
    let f = t.lookup(0x1_0000 + 0x250).unwrap();
    assert_eq!(f.begin, 0x200);
    assert!(t.lookup(0x1_0000 + 0x050).is_none());
    assert!(t.lookup(0x1_0000 + 0x400).is_none());
    assert!(t.lookup(0x0FFF).is_none());
}

#[test]
fn lookup_at_exact_begin_and_end_boundaries() {
    let t = FunctionTable::add(
        0x400000,
        vec![RuntimeFunction {
            begin: 0x1000,
            end: 0x1100,
            unwind_info: 0x5000,
        }],
    );
    assert!(t.lookup(0x400000 + 0x1000).is_some()); // first byte covered
    assert!(t.lookup(0x400000 + 0x10FF).is_some()); // last byte covered
    assert!(t.lookup(0x400000 + 0x1100).is_none()); // end is exclusive
}

// ------------------------------------------------------------------------------------------
// virtual_unwind: individual unwind codes
// ------------------------------------------------------------------------------------------

// Build a function at base+0x1000..0x1100 with UNWIND_INFO at 0x2000; return the image + a
// helper to run virtual_unwind at a given (already-past-prologue) PC.
fn img_with_unwind(
    codes: &[u8],
    flags_byte: u8,
    size_of_prolog: u8,
    count: u8,
    framereg: u8,
) -> MockImage {
    let mut img = MockImage::new(0x14000000);
    img.set_pdata(vec![RuntimeFunction {
        begin: 0x1000,
        end: 0x1100,
        unwind_info: 0x2000,
    }]);
    let hdr = [flags_byte, size_of_prolog, count, framereg];
    img.write(0x2000, &hdr);
    img.write(0x2004, codes);
    img
}

#[test]
fn unwind_push_nonvol_restores_reg_and_pops() {
    // A single `push rbx` (UWOP_PUSH_NONVOL, OpInfo=RBX=3) at prologue offset 1.
    // op byte = op(0) | (opinfo(3) << 4) = 0x30, code_off = 1.
    let img = img_with_unwind(&[0x01, 0x30], 0x01 /*ver1,nhandler*/, 0x08, 1, 0);
    let mut stack = MockStack::new();
    // RSP starts at 0x9000. The pushed RBX value sits at [RSP] = 0x9000.
    stack.put(0x9000, 0xDEAD_BEEF); // saved RBX
    stack.put(0x9008, 0x1400_2222); // return address (after popping RBX, RSP=0x9008)
    let mut ctx = Context::default();
    ctx.set_rsp(0x9000);
    let (base, f) = img.lookup_function(0x14000000 + 0x1050).unwrap();
    let r = virtual_unwind(0, base, 0x14000000 + 0x1050, f, &mut ctx, &img, &stack).unwrap();
    assert_eq!(ctx.gpr[REG_RBX], 0xDEAD_BEEF); // RBX restored
    assert_eq!(ctx.rip, 0x1400_2222); // return address popped into RIP
    assert_eq!(ctx.rsp(), 0x9010); // RSP: 0x9000 +8 (pop RBX) +8 (pop retaddr)
    assert_eq!(r.handler_rva, 0); // no handler requested / present
}

#[test]
fn unwind_alloc_small() {
    // `sub rsp, 0x28` == UWOP_ALLOC_SMALL, size=(OpInfo*8)+8 => OpInfo=4 => 0x28.
    // op byte = 2 | (4<<4) = 0x42, code_off = 4.
    let img = img_with_unwind(&[0x04, 0x42], 0x01, 0x08, 1, 0);
    let mut stack = MockStack::new();
    // After undoing the 0x28 alloc, RSP = 0x8000 + 0x28 = 0x8028; return addr there.
    stack.put(0x8028, 0x1400_3333);
    let mut ctx = Context::default();
    ctx.set_rsp(0x8000);
    let (base, f) = img.lookup_function(0x14000000 + 0x1050).unwrap();
    virtual_unwind(0, base, 0x14000000 + 0x1050, f, &mut ctx, &img, &stack).unwrap();
    assert_eq!(ctx.rip, 0x1400_3333);
    assert_eq!(ctx.rsp(), 0x8028 + 8);
}

#[test]
fn unwind_alloc_large_op0() {
    // UWOP_ALLOC_LARGE OpInfo=0: next u16 * 8 bytes. size 0x200 => u16 = 0x40.
    // op byte = 1 | (0<<4) = 0x01, code_off = 8, then u16 operand 0x0040.
    let img = img_with_unwind(&[0x08, 0x01, 0x40, 0x00], 0x01, 0x10, 2, 0);
    let mut stack = MockStack::new();
    stack.put(0x8000 + 0x200, 0x1400_4444);
    let mut ctx = Context::default();
    ctx.set_rsp(0x8000);
    let (base, f) = img.lookup_function(0x14000000 + 0x1050).unwrap();
    virtual_unwind(0, base, 0x14000000 + 0x1050, f, &mut ctx, &img, &stack).unwrap();
    assert_eq!(ctx.rip, 0x1400_4444);
    assert_eq!(ctx.rsp(), 0x8000 + 0x200 + 8);
}

#[test]
fn unwind_alloc_large_op1() {
    // UWOP_ALLOC_LARGE OpInfo=1: next u32 bytes. size 0x1_2340.
    // op byte = 1 | (1<<4) = 0x11, code_off = 8, then u32 0x0001_2340.
    let img = img_with_unwind(&[0x08, 0x11, 0x40, 0x23, 0x01, 0x00], 0x01, 0x10, 3, 0);
    let mut stack = MockStack::new();
    stack.put(0x8000 + 0x1_2340, 0x1400_5555);
    let mut ctx = Context::default();
    ctx.set_rsp(0x8000);
    let (base, f) = img.lookup_function(0x14000000 + 0x1050).unwrap();
    virtual_unwind(0, base, 0x14000000 + 0x1050, f, &mut ctx, &img, &stack).unwrap();
    assert_eq!(ctx.rip, 0x1400_5555);
    assert_eq!(ctx.rsp(), 0x8000 + 0x1_2340 + 8);
}

#[test]
fn unwind_save_nonvol() {
    // UWOP_SAVE_NONVOL OpInfo=RSI(6): value at [RSP + u16*8]. offset units=3 => +0x18.
    // op byte = 4 | (6<<4) = 0x64, code_off = 0x0A, then u16 = 0x0003.
    let img = img_with_unwind(&[0x0A, 0x64, 0x03, 0x00], 0x01, 0x10, 2, 0);
    let mut stack = MockStack::new();
    stack.put(0x7000 + 0x18, 0xCAFE_F00D); // saved RSI
    stack.put(0x7000, 0x1400_6666); // return address (RSP unchanged; no alloc undone)
    let mut ctx = Context::default();
    ctx.set_rsp(0x7000);
    let (base, f) = img.lookup_function(0x14000000 + 0x1050).unwrap();
    virtual_unwind(0, base, 0x14000000 + 0x1050, f, &mut ctx, &img, &stack).unwrap();
    assert_eq!(ctx.gpr[REG_RSI], 0xCAFE_F00D);
    assert_eq!(ctx.rip, 0x1400_6666);
    assert_eq!(ctx.rsp(), 0x7008);
}

#[test]
fn unwind_respects_prologue_offset() {
    // A `push rbx` at code_off=4: if the PC is at prologue offset 2 (before the push executed),
    // the code must NOT be applied (RBX not restored, RSP not popped for it).
    let img = img_with_unwind(&[0x04, 0x30], 0x01, 0x08, 1, 0);
    let mut stack = MockStack::new();
    // If the push were WRONGLY applied it'd pop [0x9000] first; instead RSP should stay and the
    // return address is directly at [0x9000].
    stack.put(0x9000, 0x1400_7777);
    let mut ctx = Context::default();
    ctx.set_rsp(0x9000);
    // PC at func begin + 2 (prologue offset 2 < code_off 4).
    let pc = 0x14000000 + 0x1002;
    let (base, f) = img.lookup_function(pc).unwrap();
    virtual_unwind(0, base, pc, f, &mut ctx, &img, &stack).unwrap();
    assert_eq!(ctx.gpr[REG_RBX], 0); // NOT restored — push hadn't executed
    assert_eq!(ctx.rip, 0x1400_7777);
    assert_eq!(ctx.rsp(), 0x9008); // only the return-address pop
}

#[test]
fn unwind_returns_handler_when_requested() {
    // UWOP_ALLOC_SMALL 0x08 (OpInfo=0), flags=EHANDLER. Tail after 2 codes(1 slot padded to 2):
    // count=1 -> padded 2 -> tail at 4 + 2*2 = 8. handler RVA there = 0xABCD.
    let flags_byte = 0x01 | (unw_flag::EHANDLER << 3); // ver1, EHANDLER
    let mut img = img_with_unwind(&[0x02, 0x12], flags_byte, 0x08, 1, 0);
    img.write(0x2000 + 8, &0x0000_ABCDu32.to_le_bytes()); // handler RVA
    img.write(0x2000 + 12, &0x0000_1111u32.to_le_bytes()); // handler data (scope table RVA)
    let mut stack = MockStack::new();
    stack.put(0x8010, 0x1400_8888); // after undoing 0x10 alloc: 0x8000+0x10
    let mut ctx = Context::default();
    ctx.set_rsp(0x8000);
    let (base, f) = img.lookup_function(0x14000000 + 0x1050).unwrap();
    // Request the EHANDLER (search pass).
    let r = virtual_unwind(
        unw_flag::EHANDLER,
        base,
        0x14000000 + 0x1050,
        f,
        &mut ctx,
        &img,
        &stack,
    )
    .unwrap();
    assert_eq!(r.handler_rva, 0xABCD);
    assert_eq!(r.handler_data_rva, 0x2000 + 12); // points at the handler-data (RVA in xdata)
    assert_eq!(ctx.rip, 0x1400_8888);
}

#[test]
fn unwind_no_handler_when_type_zero() {
    let flags_byte = 0x01 | (unw_flag::EHANDLER << 3);
    let mut img = img_with_unwind(&[0x02, 0x12], flags_byte, 0x08, 1, 0);
    img.write(0x2000 + 8, &0x0000_ABCDu32.to_le_bytes());
    let mut stack = MockStack::new();
    stack.put(0x8010, 0x1400_8888);
    let mut ctx = Context::default();
    ctx.set_rsp(0x8000);
    let (base, f) = img.lookup_function(0x14000000 + 0x1050).unwrap();
    // handler_type 0 => don't return a handler even though one exists.
    let r = virtual_unwind(0, base, 0x14000000 + 0x1050, f, &mut ctx, &img, &stack).unwrap();
    assert_eq!(r.handler_rva, 0);
}

#[test]
fn unwind_frame_pointer_function() {
    // Prologue: push rbp; mov rbp,rsp (via lea + SET_FPREG). Codes (reverse order, highest
    // code_off first as the linker emits):
    //   [code_off=5, SET_FPREG]   op=3|(0<<4)=0x03
    //   [code_off=1, PUSH_NONVOL RBP(5)] op=0|(5<<4)=0x50
    // framereg=RBP(5), frameoffset=0.
    let framereg_byte = REG_RBP as u8; // frameoffset 0
    let img = img_with_unwind(&[0x05, 0x03, 0x01, 0x50], 0x01, 0x08, 2, framereg_byte);
    let mut stack = MockStack::new();
    // At the fault PC (past prologue), RBP holds the frame base. We model: RBP = 0xA000.
    // push rbp saved the caller's RBP at [frame]. After SET_FPREG restore, RSP := frame base
    // (0xA000). Then PUSH_NONVOL RBP pops caller RBP from [0xA000], RSP -> 0xA008; return addr
    // at [0xA008].
    stack.put(0xA000, 0xBBBB_0000); // caller's saved RBP
    stack.put(0xA008, 0x1400_9999); // return address
    let mut ctx = Context::default();
    ctx.gpr[REG_RBP] = 0xA000; // current frame register value
    ctx.set_rsp(0x1000); // arbitrary current RSP (frame-pointer func → RSP restored from RBP)
    let (base, f) = img.lookup_function(0x14000000 + 0x1050).unwrap();
    virtual_unwind(0, base, 0x14000000 + 0x1050, f, &mut ctx, &img, &stack).unwrap();
    assert_eq!(ctx.gpr[REG_RBP], 0xBBBB_0000); // caller RBP restored
    assert_eq!(ctx.rip, 0x1400_9999);
    assert_eq!(ctx.rsp(), 0xA010);
}

// ------------------------------------------------------------------------------------------
// __C_specific_handler scope-table walk
// ------------------------------------------------------------------------------------------

#[test]
fn c_handler_executes_matching_except() {
    // One __try/__except covering [0x100,0x200); filter at 0x900 returns EXECUTE; body at 0x250.
    let scopes = [ScopeRecord {
        begin: 0x100,
        end: 0x200,
        handler: 0x900,
        target: 0x250,
    }];
    let action = c_specific_handler_search(0x150, &scopes, |filt| {
        assert_eq!(filt, 0x900);
        EXCEPTION_EXECUTE_HANDLER
    });
    assert_eq!(
        action,
        CHandlerAction::ExecuteHandler {
            target_rva: 0x250,
            scope_index: 0
        }
    );
}

#[test]
fn c_handler_continue_search_when_filter_declines() {
    let scopes = [ScopeRecord {
        begin: 0x100,
        end: 0x200,
        handler: 0x900,
        target: 0x250,
    }];
    let action = c_specific_handler_search(0x150, &scopes, |_| EXCEPTION_CONTINUE_SEARCH);
    assert_eq!(action, CHandlerAction::ContinueSearch);
}

#[test]
fn c_handler_pc_outside_all_scopes() {
    let scopes = [ScopeRecord {
        begin: 0x100,
        end: 0x200,
        handler: 0x900,
        target: 0x250,
    }];
    let action = c_specific_handler_search(0x500, &scopes, |_| EXCEPTION_EXECUTE_HANDLER);
    assert_eq!(action, CHandlerAction::ContinueSearch);
}

#[test]
fn c_handler_execute_sentinel_skips_filter() {
    // HandlerAddress == 1 (EXCEPTION_EXECUTE_HANDLER sentinel) → no filter call, always execute.
    let scopes = [ScopeRecord {
        begin: 0x100,
        end: 0x200,
        handler: SCOPE_HANDLER_EXECUTE,
        target: 0x300,
    }];
    let mut called = false;
    let action = c_specific_handler_search(0x150, &scopes, |_| {
        called = true;
        EXCEPTION_CONTINUE_SEARCH
    });
    assert!(!called);
    assert_eq!(
        action,
        CHandlerAction::ExecuteHandler {
            target_rva: 0x300,
            scope_index: 0
        }
    );
}

#[test]
fn c_handler_continue_execution() {
    let scopes = [ScopeRecord {
        begin: 0x100,
        end: 0x200,
        handler: 0x900,
        target: 0x250,
    }];
    let action = c_specific_handler_search(0x150, &scopes, |_| EXCEPTION_CONTINUE_EXECUTION);
    assert_eq!(action, CHandlerAction::ContinueExecution);
}

#[test]
fn c_handler_first_matching_except_wins() {
    // Two nested scopes both cover 0x150; the first (inner) declines, the second executes.
    let scopes = [
        ScopeRecord {
            begin: 0x140,
            end: 0x160,
            handler: 0x900,
            target: 0x250,
        },
        ScopeRecord {
            begin: 0x100,
            end: 0x200,
            handler: 0x910,
            target: 0x260,
        },
    ];
    let action = c_specific_handler_search(0x150, &scopes, |filt| {
        if filt == 0x900 {
            EXCEPTION_CONTINUE_SEARCH
        } else {
            EXCEPTION_EXECUTE_HANDLER
        }
    });
    assert_eq!(
        action,
        CHandlerAction::ExecuteHandler {
            target_rva: 0x260,
            scope_index: 1
        }
    );
}

#[test]
fn c_handler_unwind_collects_finally() {
    // Two __finally scopes (target==0) covering the PC, plus a __except that should be ignored.
    let scopes = [
        ScopeRecord {
            begin: 0x100,
            end: 0x200,
            handler: 0xAAA,
            target: 0,
        }, // __finally
        ScopeRecord {
            begin: 0x140,
            end: 0x160,
            handler: 0xBBB,
            target: 0,
        }, // __finally
        ScopeRecord {
            begin: 0x100,
            end: 0x200,
            handler: 0x900,
            target: 0x250,
        }, // __except
    ];
    let f = c_specific_handler_unwind(0x150, &scopes);
    assert_eq!(f, vec![0xAAA, 0xBBB]);
}

#[test]
fn c_handler_search_skips_finally() {
    // A __finally (target==0) covering the PC must be skipped in the SEARCH pass.
    let scopes = [ScopeRecord {
        begin: 0x100,
        end: 0x200,
        handler: 0xAAA,
        target: 0,
    }];
    let action = c_specific_handler_search(0x150, &scopes, |_| EXCEPTION_EXECUTE_HANDLER);
    assert_eq!(action, CHandlerAction::ContinueSearch);
}

// ------------------------------------------------------------------------------------------
// dispatch + unwind frame-walk model
// ------------------------------------------------------------------------------------------

#[test]
fn dispatch_finds_handler() {
    let frames = [
        FrameModel {
            control_pc: 0x100,
            handler: Some(Disposition::ContinueSearch),
        },
        FrameModel {
            control_pc: 0x200,
            handler: Some(Disposition::ContinueExecution),
        },
        FrameModel {
            control_pc: 0x300,
            handler: None,
        },
    ];
    assert_eq!(
        dispatch_exception(&rec(0xC000_0005, 0), &frames),
        DispatchResult::Handled { frame: 1 }
    );
}

#[test]
fn dispatch_unhandled_when_all_search() {
    let frames = [
        FrameModel {
            control_pc: 0x100,
            handler: Some(Disposition::ContinueSearch),
        },
        FrameModel {
            control_pc: 0x200,
            handler: None,
        },
    ];
    assert_eq!(
        dispatch_exception(&rec(0xC000_0005, 0), &frames),
        DispatchResult::Unhandled
    );
}

#[test]
fn noncontinuable_rejected() {
    let frames = [FrameModel {
        control_pc: 0x100,
        handler: Some(Disposition::ContinueExecution),
    }];
    assert_eq!(
        dispatch_exception(&rec(0xC000_0025, EXCEPTION_NONCONTINUABLE), &frames),
        DispatchResult::Noncontinuable
    );
}

#[test]
fn unwind_runs_intervening_finally_blocks() {
    let frames = [
        FrameModel {
            control_pc: 0x100,
            handler: Some(Disposition::ContinueSearch),
        },
        FrameModel {
            control_pc: 0x200,
            handler: None,
        },
        FrameModel {
            control_pc: 0x300,
            handler: Some(Disposition::ContinueSearch),
        },
        FrameModel {
            control_pc: 0x400,
            handler: Some(Disposition::ContinueExecution),
        },
    ];
    assert_eq!(unwind(&frames, 3), vec![0, 2]);
}

#[test]
fn disposition_from_raw() {
    assert_eq!(Disposition::from_raw(0), Disposition::ContinueExecution);
    assert_eq!(Disposition::from_raw(1), Disposition::ContinueSearch);
    assert_eq!(Disposition::from_raw(2), Disposition::NestedException);
    assert_eq!(Disposition::from_raw(3), Disposition::CollidedUnwind);
    assert_eq!(Disposition::from_raw(99), Disposition::ContinueSearch);
}

// ------------------------------------------------------------------------------------------
// A multi-frame end-to-end unwind: two stacked frames, unwind through both.
// ------------------------------------------------------------------------------------------

#[test]
fn unwind_two_stacked_frames() {
    // Frame A (inner): func at 0x1000, `push rbx; sub rsp,0x20`.
    //   codes: [code_off=5, ALLOC_SMALL(0x20 => OpInfo=3)] op=2|(3<<4)=0x32
    //          [code_off=1, PUSH_NONVOL RBX(3)]           op=0|(3<<4)=0x30
    // Frame B (outer): func at 0x1200, `push rbx`.
    let mut img = MockImage::new(0x14000000);
    img.set_pdata(vec![
        RuntimeFunction {
            begin: 0x1000,
            end: 0x1100,
            unwind_info: 0x2000,
        },
        RuntimeFunction {
            begin: 0x1200,
            end: 0x1300,
            unwind_info: 0x2100,
        },
    ]);
    img.write(0x2000, &[0x01, 0x08, 0x02, 0x00]); // ver1, size 8, 2 codes
    img.write(0x2004, &[0x05, 0x32, 0x01, 0x30]);
    img.write(0x2100, &[0x01, 0x04, 0x01, 0x00]); // ver1, size 4, 1 code
    img.write(0x2104, &[0x01, 0x30]);

    let mut stack = MockStack::new();
    // Frame A: RSP=0x8000. Undo sub 0x20 -> 0x8020. Pop RBX from 0x8020 -> RBX_A, RSP 0x8028.
    // Return address at 0x8028 points into frame B (0x14000000+0x1250).
    stack.put(0x8020, 0xAAAA_AAAA); // saved RBX in A
    stack.put(0x8028, 0x14000000 + 0x1250); // return into B
                                            // Frame B: RSP now 0x8030. Pop RBX from 0x8030 -> RBX_B, RSP 0x8038. Return addr = caller.
    stack.put(0x8030, 0xBBBB_BBBB); // saved RBX in B
    stack.put(0x8038, 0xDEAD_C0DE); // final caller return

    let mut ctx = Context::default();
    ctx.set_rsp(0x8000);

    // Unwind frame A.
    let pc_a = 0x14000000 + 0x1050;
    let (base, fa) = img.lookup_function(pc_a).unwrap();
    virtual_unwind(0, base, pc_a, fa, &mut ctx, &img, &stack).unwrap();
    assert_eq!(ctx.gpr[REG_RBX], 0xAAAA_AAAA);
    assert_eq!(ctx.rip, 0x14000000 + 0x1250);
    assert_eq!(ctx.rsp(), 0x8030);

    // Unwind frame B (PC now = ctx.rip).
    let (base2, fb) = img.lookup_function(ctx.rip).unwrap();
    virtual_unwind(0, base2, ctx.rip, fb, &mut ctx, &img, &stack).unwrap();
    assert_eq!(ctx.gpr[REG_RBX], 0xBBBB_BBBB);
    assert_eq!(ctx.rip, 0xDEAD_C0DE);
    assert_eq!(ctx.rsp(), 0x8040);
}

#[test]
fn lookup_returns_none_for_leaf_frame() {
    let img = MockImage::new(0x14000000);
    // No pdata rows.
    assert!(img.lookup_function(0x14000000 + 0x50).is_none());
}

#[test]
fn corrupt_unwind_op_returns_none() {
    // An unknown unwind op (0x0F) should make virtual_unwind return None (corrupt xdata), not
    // panic or fabricate.
    let img = img_with_unwind(&[0x01, 0x0F], 0x01, 0x08, 1, 0);
    let stack = MockStack::new();
    let mut ctx = Context::default();
    ctx.set_rsp(0x8000);
    let (base, f) = img.lookup_function(0x14000000 + 0x1050).unwrap();
    assert!(virtual_unwind(0, base, 0x14000000 + 0x1050, f, &mut ctx, &img, &stack).is_none());
}

#[test]
fn unwind_save_nonvol_far() {
    // UWOP_SAVE_NONVOL_FAR OpInfo=RDI(7): value at [RSP + u32] (raw byte offset, 3 slots).
    // op byte = 5 | (7<<4) = 0x75, code_off = 0x0C, then u32 = 0x0000_1000.
    let img = img_with_unwind(&[0x0C, 0x75, 0x00, 0x10, 0x00, 0x00], 0x01, 0x10, 3, 0);
    let mut stack = MockStack::new();
    stack.put(0x7000 + 0x1000, 0xFEED_FACE); // saved RDI at raw byte offset 0x1000
    stack.put(0x7000, 0x1400_ABAB); // return address (RSP unchanged; SAVE_* doesn't move RSP)
    let mut ctx = Context::default();
    ctx.set_rsp(0x7000);
    let (base, f) = img.lookup_function(0x14000000 + 0x1050).unwrap();
    virtual_unwind(0, base, 0x14000000 + 0x1050, f, &mut ctx, &img, &stack).unwrap();
    assert_eq!(ctx.gpr[REG_RDI], 0xFEED_FACE);
    assert_eq!(ctx.rip, 0x1400_ABAB);
    assert_eq!(ctx.rsp(), 0x7008);
}

#[test]
fn unwind_save_xmm128() {
    // UWOP_SAVE_XMM128 OpInfo=XMM6(6): 128-bit value at [RSP + u16*16] (2 slots).
    // op byte = 8 | (6<<4) = 0x68, code_off = 0x0A, then u16 = 0x0002 => byte offset 0x20.
    let img = img_with_unwind(&[0x0A, 0x68, 0x02, 0x00], 0x01, 0x10, 2, 0);
    let mut stack = MockStack::new();
    stack.put(0x7000 + 0x20, 0x1111_2222_3333_4444); // XMM6 low
    stack.put(0x7000 + 0x28, 0x5555_6666_7777_8888); // XMM6 high
    stack.put(0x7000, 0x1400_CDCD); // return address
    let mut ctx = Context::default();
    ctx.set_rsp(0x7000);
    let (base, f) = img.lookup_function(0x14000000 + 0x1050).unwrap();
    virtual_unwind(0, base, 0x14000000 + 0x1050, f, &mut ctx, &img, &stack).unwrap();
    assert_eq!(ctx.xmm[6], [0x1111_2222_3333_4444, 0x5555_6666_7777_8888]);
    assert_eq!(ctx.rip, 0x1400_CDCD);
    assert_eq!(ctx.rsp(), 0x7008);
}

#[test]
fn unwind_save_xmm128_far() {
    // UWOP_SAVE_XMM128_FAR OpInfo=XMM10(10): 128-bit value at [RSP + u32] raw offset (3 slots).
    // op byte = 9 | (10<<4) = 0xA9, code_off = 0x10, then u32 = 0x0000_0200.
    let img = img_with_unwind(&[0x10, 0xA9, 0x00, 0x02, 0x00, 0x00], 0x01, 0x18, 3, 0);
    let mut stack = MockStack::new();
    stack.put(0x7000 + 0x200, 0xAAAA_BBBB_CCCC_DDDD); // XMM10 low
    stack.put(0x7000 + 0x208, 0xEEEE_FFFF_0000_1111); // XMM10 high
    stack.put(0x7000, 0x1400_EFEF); // return address
    let mut ctx = Context::default();
    ctx.set_rsp(0x7000);
    let (base, f) = img.lookup_function(0x14000000 + 0x1050).unwrap();
    virtual_unwind(0, base, 0x14000000 + 0x1050, f, &mut ctx, &img, &stack).unwrap();
    assert_eq!(ctx.xmm[10], [0xAAAA_BBBB_CCCC_DDDD, 0xEEEE_FFFF_0000_1111]);
    assert_eq!(ctx.rip, 0x1400_EFEF);
    assert_eq!(ctx.rsp(), 0x7008);
}

#[test]
fn unwind_push_machframe_terminates_without_retaddr_pop() {
    // UWOP_PUSH_MACHFRAME (op 10) OpInfo=0 (no error code): RSP += 0; RIP=[RSP]; RSP=[RSP+0x18].
    // This op TERMINATES the unwind — no return-address pop happens after it (it IS the trap
    // frame). op byte = 10 | (0<<4) = 0x0A, code_off = 1.
    let img = img_with_unwind(&[0x01, 0x0A], 0x01, 0x08, 1, 0);
    let mut stack = MockStack::new();
    stack.put(0x6000, 0x1400_1234); // trap-frame RIP at [RSP]
    stack.put(0x6000 + 0x18, 0x9999_0000); // trap-frame RSP at [RSP+0x18]
                                           // A poisoned cell where a spurious return-address pop WOULD read from (must NOT be used).
    stack.put(0x9999_0000, 0xDEAD_DEAD);
    let mut ctx = Context::default();
    ctx.set_rsp(0x6000);
    let (base, f) = img.lookup_function(0x14000000 + 0x1050).unwrap();
    virtual_unwind(0, base, 0x14000000 + 0x1050, f, &mut ctx, &img, &stack).unwrap();
    assert_eq!(
        ctx.rip, 0x1400_1234,
        "RIP comes straight from the trap frame, not a ret pop"
    );
    assert_eq!(
        ctx.rsp(),
        0x9999_0000,
        "RSP restored from [orig+0x18], not orig+8"
    );
}

#[test]
fn unwind_push_machframe_with_error_code_adjusts_rsp() {
    // UWOP_PUSH_MACHFRAME OpInfo=1 (an error-code was pushed): RSP += 1*8 first, THEN the frame.
    // op byte = 10 | (1<<4) = 0x1A, code_off = 1.
    let img = img_with_unwind(&[0x01, 0x1A], 0x01, 0x08, 1, 0);
    let mut stack = MockStack::new();
    // RSP starts 0x6000; +8 for error code → machine frame based at 0x6008.
    stack.put(0x6008, 0x1400_5678); // RIP
    stack.put(0x6008 + 0x18, 0x8888_0000); // caller RSP
    let mut ctx = Context::default();
    ctx.set_rsp(0x6000);
    let (base, f) = img.lookup_function(0x14000000 + 0x1050).unwrap();
    virtual_unwind(0, base, 0x14000000 + 0x1050, f, &mut ctx, &img, &stack).unwrap();
    assert_eq!(ctx.rip, 0x1400_5678);
    assert_eq!(ctx.rsp(), 0x8888_0000);
}

#[test]
fn unwind_epilog_and_spare_codes_are_noops() {
    // UWOP_EPILOG (op 6, 2 slots) and UWOP_SPARE_CODE (op 7, 3 slots) have NO register effect
    // during a virtual unwind, but their slots must be consumed so a following real code (a
    // PUSH_NONVOL RBX here) is decoded at the correct offset. Layout (all past prologue):
    //   [off=1, EPILOG]     op=6|(0<<4)=0x06  + 1 operand slot (u16)
    //   [off=1, SPARE]      op=7|(0<<4)=0x07  + 2 operand slots (u32)
    //   [off=1, PUSH RBX]   op=0|(3<<4)=0x30
    // count = 2(epilog) + 3(spare) + 1(push) = 6 codes worth of slots.
    let codes = [
        0x01, 0x06, 0x00, 0x00, // EPILOG + u16 operand
        0x01, 0x07, 0x00, 0x00, 0x00, 0x00, // SPARE + u32 operand
        0x01, 0x30, // PUSH_NONVOL RBX
    ];
    let img = img_with_unwind(&codes, 0x01, 0x08, 6, 0);
    let mut stack = MockStack::new();
    stack.put(0x8000, 0xC0DE_C0DE); // saved RBX popped by the PUSH_NONVOL
    stack.put(0x8008, 0x1400_7A7A); // return address after the pop
    let mut ctx = Context::default();
    ctx.set_rsp(0x8000);
    let (base, f) = img.lookup_function(0x14000000 + 0x1050).unwrap();
    virtual_unwind(0, base, 0x14000000 + 0x1050, f, &mut ctx, &img, &stack).unwrap();
    assert_eq!(
        ctx.gpr[REG_RBX], 0xC0DE_C0DE,
        "the PUSH after the no-op codes decoded correctly"
    );
    assert_eq!(ctx.rip, 0x1400_7A7A);
    assert_eq!(ctx.rsp(), 0x8010);
}

#[test]
fn unhandled_filter_dismisses_possible_deadlock() {
    // The deadlock detector's exception is dismissed → resume execution.
    assert_eq!(
        unhandled_exception_filter(STATUS_POSSIBLE_DEADLOCK),
        EXCEPTION_CONTINUE_EXECUTION
    );
}

#[test]
fn unhandled_filter_declines_ordinary_exceptions() {
    // STATUS_ACCESS_VIOLATION and friends keep propagating (continue search).
    assert_eq!(
        unhandled_exception_filter(0xC000_0005),
        EXCEPTION_CONTINUE_SEARCH
    );
    assert_eq!(
        unhandled_exception_filter(0x8000_0003),
        EXCEPTION_CONTINUE_SEARCH
    ); // breakpoint
    assert_eq!(unhandled_exception_filter(0), EXCEPTION_CONTINUE_SEARCH);
}

#[test]
fn frame_walk_reports_counts_and_unwind_data_that_make_no_sense() {
    let mut image = MockImage::new(0x1400_0000);
    image.set_pdata(vec![RuntimeFunction {
        begin: 0x100,
        end: 0x200,
        unwind_info: 0x2000,
    }]);
    let mut stack = MockStack::new();
    stack.put(0x2000, 0x1400_3000);
    let mut context = Context::default();
    context.rip = 0x1400_0110;
    context.set_rsp(0x2000);
    let mut callers = [0u64; 1];
    assert_eq!(
        walk_frame_chain(context, &mut callers, usize::MAX, 0x1000, 0x3000, &image, &stack),
        Err(FrameWalkError::CountOverflow)
    );
    assert_eq!(
        walk_frame_chain(context, &mut callers, 0, 0x1000, 0x3000, &image, &stack),
        Err(FrameWalkError::UnwindData)
    );
    assert_eq!(callers, [0]);
}

#[test]
fn rows_cover_their_first_byte_and_not_the_one_behind_their_last() {
    let row = RuntimeFunction {
        begin: 0x10,
        end: 0x20,
        unwind_info: 0x31,
    };
    assert!(row.covers(0x10));
    assert!(row.covers(0x1f));
    assert!(!row.covers(0x20));
    assert!(!row.covers(0x0f));
    assert!(row.is_chained_ptr());
    let table = FunctionTable::add(
        0x1000,
        vec![
            RuntimeFunction { begin: 0x40, end: 0x50, unwind_info: 0 },
            RuntimeFunction { begin: 0x20, end: 0x30, unwind_info: 0 },
            row,
        ],
    );
    assert_eq!(table.functions[0], row);
    assert_eq!(table.lookup(0x1018), Some(row));
    assert_eq!(table.lookup(0x1038), None);
    assert_eq!(table.lookup(0x0fff), None);
}

#[test]
fn addresses_four_gigabytes_behind_a_function_are_not_covered() {
    let row = RuntimeFunction { begin: 0x100, end: 0x200, unwind_info: 0x900 };
    let table = FunctionTable::add(0x1_0000, vec![row]);
    assert_eq!(table.lookup(0x1_0150), Some(row));
    assert_eq!(table.lookup(0x1_0001_0150), None);
    assert_eq!(table.lookup(u64::MAX), None);
}

#[test]
fn nothing_is_reported_without_a_handler_of_the_kind() {
    // An exception handler is there, a termination handler is asked for.
    let mut img = img_with_unwind(&[0x02, 0x12], 0x01 | (unw_flag::EHANDLER << 3), 0x08, 1, 0);
    img.write(0x2000 + 8, &0x0000_ABCDu32.to_le_bytes());
    let mut stack = MockStack::new();
    stack.put(0x8010, 0x1400_8888);
    let pc = 0x14000000 + 0x1050;
    let (base, f) = img.lookup_function(pc).unwrap();
    let mut ctx = Context::default();
    ctx.set_rsp(0x8000);
    let none = virtual_unwind(unw_flag::UHANDLER, base, pc, f, &mut ctx, &img, &stack);
    assert_eq!(none, Some(UnwindResult::default()));
    assert_eq!((ctx.rip, ctx.rsp()), (0x1400_8888, 0x8018));
    let mut ctx = Context::default();
    ctx.set_rsp(0x8000);
    let some = virtual_unwind(unw_flag::EHANDLER, base, pc, f, &mut ctx, &img, &stack);
    assert_eq!(
        some,
        Some(UnwindResult {
            image_base: base,
            handler_rva: 0xABCD,
            handler_data_rva: 0x2000 + 12,
            establisher_frame: 0x8000,
        })
    );
}

#[test]
fn no_handler_is_named_in_an_epilogue() {
    let mut img = img_with_unwind(&[0x04, 0x32], 0x01 | (unw_flag::EHANDLER << 3), 4, 1, 0);
    img.write(0x2000 + 8, &0x0000_ABCDu32.to_le_bytes());
    img.write(0x10fb, &[0x48, 0x83, 0xc4, 0x20, 0xc3]);
    let mut stack = MockStack::new();
    stack.put(0x8020, 0x1400_3000);
    let pc = 0x14000000 + 0x10fb;
    let (base, f) = img.lookup_function(pc).unwrap();
    let mut ctx = Context::default();
    ctx.set_rsp(0x8000);
    let asked = virtual_unwind(unw_flag::EHANDLER, base, pc, f, &mut ctx, &img, &stack);
    let report = UnwindResult {
        image_base: base,
        establisher_frame: 0x8000,
        ..UnwindResult::default()
    };
    assert_eq!(asked, Some(report));
    assert_eq!((ctx.rip, ctx.rsp()), (0x1400_3000, 0x8028));
    for other in [unw_flag::NHANDLER, unw_flag::UHANDLER] {
        let mut ctx = Context::default();
        ctx.set_rsp(0x8000);
        let none = virtual_unwind(other, base, pc, f, &mut ctx, &img, &stack);
        assert_eq!(none, Some(UnwindResult::default()));
        assert_eq!((ctx.rip, ctx.rsp()), (0x1400_3000, 0x8028));
    }
}

#[test]
fn a_handler_that_cannot_be_read_fails_the_unwind() {
    let img = img_with_unwind(&[0x02, 0x12], 0x01 | (unw_flag::EHANDLER << 3), 0x08, 1, 0);
    let mut stack = MockStack::new();
    stack.put(0x8010, 0x1400_8888);
    let pc = 0x14000000 + 0x1050;
    let (base, f) = img.lookup_function(pc).unwrap();
    let mut ctx = Context::default();
    ctx.set_rsp(0x8000);
    assert_eq!(virtual_unwind(unw_flag::EHANDLER, base, pc, f, &mut ctx, &img, &stack), None);
}

#[test]
fn a_stack_that_refuses_a_word_is_told_from_unwind_data() {
    // push rbx: the saved value is not on the stack.
    let img = img_with_unwind(&[0x01, 0x30], 0x01, 0x08, 1, 0);
    let mut context = Context::default();
    context.rip = 0x14000000 + 0x1050;
    context.set_rsp(0x2000);
    let mut callers = [0u64; 1];
    assert_eq!(
        walk_frame_chain(context, &mut callers, 0, 0x1000, 0x3000, &img, &MockStack::new()),
        Err(FrameWalkError::StackRead)
    );
    // The saved value is there, the return address lies outside the bounds.
    let mut stack = MockStack::new();
    stack.put(0x2000, 1);
    stack.put(0x2008, 0x1400_3000);
    assert_eq!(
        walk_frame_chain(context, &mut callers, 0, 0x1000, 0x2008, &img, &stack),
        Err(FrameWalkError::StackRead)
    );
    // An unknown code is unwind data, whatever the stack says.
    let img = img_with_unwind(&[0x01, 0x0f], 0x01, 0x08, 1, 0);
    assert_eq!(
        walk_frame_chain(context, &mut callers, 0, 0x1000, 0x3000, &img, &stack),
        Err(FrameWalkError::UnwindData)
    );
}

#[test]
fn filters_run_in_order_and_only_as_far_as_needed() {
    let scope = |begin, end, handler, target| ScopeRecord { begin, end, handler, target };
    let scopes = [
        scope(0x300, 0x400, 0x900, 0x250), // does not guard the address
        scope(0x100, 0x200, 0x910, 0),     // a termination routine
        scope(0x100, 0x200, 0x920, 0x250),
        scope(0x100, 0x200, 0x930, 0x260),
        scope(0x100, 0x200, 0x940, 0x270),
    ];
    let mut asked = Vec::new();
    let action = c_specific_handler_search(0x150, &scopes, |filter| {
        asked.push(filter);
        if filter == 0x930 {
            EXCEPTION_EXECUTE_HANDLER
        } else {
            EXCEPTION_CONTINUE_SEARCH
        }
    });
    assert_eq!(action, CHandlerAction::ExecuteHandler { target_rva: 0x260, scope_index: 3 });
    assert_eq!(asked, vec![0x920, 0x930]);
}

#[test]
fn wider_values_are_little_endian_and_end_with_the_image() {
    let mut image = MockImage::new(0x1400_0000);
    image.write(0x10, &[0x01, 0x02, 0x03, 0x84]);
    image.write(0xffff_fffd, &[1, 2, 3]);
    assert_eq!(image.read_u16(0x1400_0000, 0x12), Some(0x8403));
    assert_eq!(image.read_u32(0x1400_0000, 0x10), Some(0x8403_0201));
    assert_eq!(image.read_u32(0x1400_0000, 0x11), None);
    assert_eq!(image.read_u16(0x1400_0000, 0xffff_fffe), Some(0x0302));
    assert_eq!(image.read_u16(0x1400_0000, 0xffff_ffff), None);
    assert_eq!(image.read_u32(0x1400_0000, 0xffff_fffd), None);
}

#[test]
fn information_that_chains_names_no_handler() {
    // The chained row stands where a handler would.
    let flags = 0x01 | ((unw_flag::CHAININFO | unw_flag::EHANDLER) << 3);
    let mut img = img_with_unwind(&[0x02, 0x12], flags, 0x08, 1, 0);
    img.write(0x2008, &0x1000u32.to_le_bytes());
    img.write(0x200c, &0x1100u32.to_le_bytes());
    img.write(0x2010, &0x3000u32.to_le_bytes());
    img.write(0x3000, &[0x01, 0, 0, 0]);
    let mut stack = MockStack::new();
    stack.put(0x8010, 0x1400_8888);
    let pc = 0x14000000 + 0x1050;
    let (base, f) = img.lookup_function(pc).unwrap();
    let mut ctx = Context::default();
    ctx.set_rsp(0x8000);
    let none = virtual_unwind(unw_flag::EHANDLER, base, pc, f, &mut ctx, &img, &stack);
    assert_eq!(none, Some(UnwindResult::default()));
    assert_eq!((ctx.rip, ctx.rsp()), (0x1400_8888, 0x8018));
}
