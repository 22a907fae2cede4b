//! Table-based structured exception handling for x64.
//!
//! Each function has a row in its image's function table, and the row points at unwind information
//! that tells how to undo the function's prologue. Unwinding a frame restores the registers of its
//! caller. The images and the stack are read through [`ImageReader`] and [`StackReader`].

use vstd::prelude::*;

pub mod frames;
pub mod search;
pub mod unw_flag;
pub mod uwop;

verus! {

// ---------------------------------------------------------------------------------------------
// Exceptions and dispositions
// ---------------------------------------------------------------------------------------------

/// A language handler's verdict on an exception.
#[derive(Copy, Clone, Debug, PartialEq, Eq, Structural)]
pub enum Disposition {
    /// The handler fixed it; resume at the faulting point.
    ContinueExecution,
    /// Keep walking up the frames.
    ContinueSearch,
    /// An exception occurred within the handler.
    NestedException,
    /// An unwind collided with another.
    CollidedUnwind,
}

impl Disposition {
    /// The disposition of the raw integer a language handler returns; unknown ones search on.
    pub fn from_raw(v: i32) -> (d: Disposition)
        ensures
            v == 0 <==> d == Disposition::ContinueExecution,
            v == 2 <==> d == Disposition::NestedException,
            v == 3 <==> d == Disposition::CollidedUnwind,
    {
        if v == 0 {
            Disposition::ContinueExecution
        } else if v == 2 {
            Disposition::NestedException
        } else if v == 3 {
            Disposition::CollidedUnwind
        } else {
            Disposition::ContinueSearch
        }
    }
}

/// An exception.
#[derive(Clone, Debug, PartialEq, Eq)]
pub struct ExceptionRecord {
    /// The exception code, a status.
    pub code: u32,
    /// The exception flags.
    pub flags: u32,
    /// The faulting instruction pointer.
    pub address: u64,
    /// Parameters of the exception.
    pub information: Vec<u64>,
}

/// The exception cannot be continued.
pub const EXCEPTION_NONCONTINUABLE: u32 = 0x0000_0001;

/// An unwind is in progress.
pub const EXCEPTION_UNWINDING: u32 = 0x0000_0002;

/// An exit unwind is in progress.
pub const EXCEPTION_EXIT_UNWIND: u32 = 0x0000_0004;

/// The frame is the target of the unwind.
pub const EXCEPTION_TARGET_UNWIND: u32 = 0x0000_0020;

/// Two unwinds collided.
pub const EXCEPTION_COLLIDED_UNWIND: u32 = 0x0000_0040;

/// A handler continued an exception that cannot be continued.
pub const STATUS_NONCONTINUABLE_EXCEPTION: u32 = 0xC000_0025;

/// An unwind is required.
pub const STATUS_UNWIND: u32 = 0xC000_0027;

// ---------------------------------------------------------------------------------------------
// Registers
// ---------------------------------------------------------------------------------------------

/// The registers that an unwind restores.
#[derive(Copy, Clone, Debug, PartialEq, Eq)]
pub struct Context {
    /// General registers by their ABI number.
    pub gpr: [u64; 16],
    /// The instruction pointer.
    pub rip: u64,
    /// The XMM registers, low half first.
    pub xmm: [[u64; 2]; 16],
}

/// The registers as mathematical values.
#[verifier::ext_equal]
pub struct Registers {
    pub gpr: Seq<u64>,
    pub rip: u64,
    pub xmm: Seq<(u64, u64)>,
}

impl View for Context {
    type V = Registers;

    open spec fn view(&self) -> Registers {
        Registers {
            gpr: self.gpr@,
            rip: self.rip,
            xmm: Seq::new(16, |i: int| (self.xmm@[i]@[0], self.xmm@[i]@[1])),
        }
    }
}

/// Number of RAX.
pub const REG_RAX: usize = 0;

/// Number of RCX.
pub const REG_RCX: usize = 1;

/// Number of RDX.
pub const REG_RDX: usize = 2;

/// Number of RBX.
pub const REG_RBX: usize = 3;

/// Number of RSP.
pub const REG_RSP: usize = 4;

/// Number of RBP.
pub const REG_RBP: usize = 5;

/// Number of RSI.
pub const REG_RSI: usize = 6;

/// Number of RDI.
pub const REG_RDI: usize = 7;

impl Registers {
    /// The stack pointer.
    pub open spec fn rsp(self) -> u64 {
        self.gpr[4]
    }

    /// General register `i` set to `v`.
    pub open spec fn with_gpr(self, i: int, v: u64) -> Registers {
        Registers { gpr: self.gpr.update(i, v), ..self }
    }

    /// The stack pointer set to `v`.
    pub open spec fn with_rsp(self, v: u64) -> Registers {
        self.with_gpr(4, v)
    }

    /// The stack pointer moved up by `n`, modulo 2^64.
    pub open spec fn bump(self, n: int) -> Registers {
        self.with_rsp(plus(self.rsp(), n))
    }

    /// The instruction pointer set to `v`.
    pub open spec fn with_rip(self, v: u64) -> Registers {
        Registers { rip: v, ..self }
    }

    /// XMM register `i` set.
    pub open spec fn with_xmm(self, i: int, low: u64, high: u64) -> Registers {
        Registers { xmm: self.xmm.update(i, (low, high)), ..self }
    }
}

/// `a + n` modulo 2^64.
pub open spec fn plus(a: u64, n: int) -> u64 {
    ((a + n) % 0x1_0000_0000_0000_0000) as u64
}

impl Default for Context {
    fn default() -> (c: Self)
        ensures
            forall|i: int| 0 <= i < 16 ==> c.gpr@[i] == 0,
            c.rip == 0,
            forall|i: int| 0 <= i < 16 ==> c@.xmm[i] == (0u64, 0u64),
    {
        Context { gpr: [0u64; 16], rip: 0, xmm: [[0u64, 0u64]; 16] }
    }
}

impl Context {
    /// The stack pointer.
    pub fn rsp(&self) -> (v: u64)
        ensures
            v == self@.rsp(),
    {
        self.gpr[4]
    }

    /// Set the stack pointer.
    pub fn set_rsp(&mut self, v: u64)
        ensures
            final(self)@ == old(self)@.with_rsp(v),
    {
        self.gpr[4] = v;
        assert(self@ =~= old(self)@.with_rsp(v));
    }

    /// Set general register `i`.
    fn set_gpr(&mut self, i: usize, v: u64)
        requires
            i < 16,
        ensures
            final(self)@ == old(self)@.with_gpr(i as int, v),
    {
        self.gpr[i] = v;
        assert(self@ =~= old(self)@.with_gpr(i as int, v));
    }

    /// Set XMM register `i`.
    fn set_xmm(&mut self, i: usize, low: u64, high: u64)
        requires
            i < 16,
        ensures
            final(self)@ == old(self)@.with_xmm(i as int, low, high),
    {
        self.xmm[i] = [low, high];
        assert(self@ =~= old(self)@.with_xmm(i as int, low, high));
    }

    /// Set the instruction pointer.
    fn set_rip(&mut self, v: u64)
        ensures
            final(self)@ == old(self)@.with_rip(v),
    {
        self.rip = v;
        assert(self@ =~= old(self)@.with_rip(v));
    }

    /// Move the stack pointer up.
    fn bump(&mut self, n: u64)
        ensures
            final(self)@ == old(self)@.bump(n as int),
    {
        let rsp: u64 = self.rsp();
        self.set_rsp(wrapping_plus(rsp, n));
    }
}

/// `a + n` modulo 2^64.
fn wrapping_plus(a: u64, n: u64) -> (sum: u64)
    ensures
        sum == plus(a, n as int),
{
    ((a as u128 + n as u128) % 0x1_0000_0000_0000_0000) as u64
}

/// `a - n` modulo 2^64.
fn wrapping_minus(a: u64, n: u64) -> (difference: u64)
    ensures
        difference == plus(a, -(n as int)),
{
    ((a as u128 + 0x1_0000_0000_0000_0000 - n as u128) % 0x1_0000_0000_0000_0000) as u64
}

// ---------------------------------------------------------------------------------------------
// Function tables and unwind information
// ---------------------------------------------------------------------------------------------

/// The index of the exception data directory.
pub const DIRECTORY_ENTRY_EXCEPTION: usize = 3;

/// A function-table row; all addresses are relative to the image base.
#[derive(Copy, Clone, Debug, PartialEq, Eq, Structural)]
pub struct RuntimeFunction {
    /// The first byte of the function.
    pub begin: u32,
    /// One past the last byte of the function.
    pub end: u32,
    /// The unwind information, or, when odd, one more than the address of another row.
    pub unwind_info: u32,
}

impl RuntimeFunction {
    /// Whether this row covers the address `rva`.
    pub open spec fn holds(self, rva: u32) -> bool {
        self.begin <= rva < self.end
    }

    /// Whether this row covers the address `rva`.
    pub fn covers(&self, rva: u32) -> (yes: bool)
        ensures
            yes == self.holds(rva),
    {
        rva >= self.begin && rva < self.end
    }

    /// Whether this row points at another row.
    pub fn is_chained_ptr(&self) -> (yes: bool)
        ensures
            yes == (self.unwind_info % 2 == 1),
    {
        self.unwind_info % 2 == 1
    }
}

/// The fixed header of unwind information.
#[derive(Copy, Clone, Debug, PartialEq, Eq, Structural)]
pub struct UnwindInfoHeader {
    /// The version, in three bits.
    pub version: u8,
    /// The flags, in five bits.
    pub flags: u8,
    /// The byte length of the prologue.
    pub size_of_prolog: u8,
    /// The number of two-byte code slots.
    pub count_of_codes: u8,
    /// The number of the frame register, or zero.
    pub frame_register: u8,
    /// The offset of the frame register, in units of sixteen bytes.
    pub frame_offset: u8,
}

/// The header that four bytes hold.
pub open spec fn header_of(b0: u8, b1: u8, b2: u8, b3: u8) -> UnwindInfoHeader {
    UnwindInfoHeader {
        version: (b0 % 8) as u8,
        flags: (b0 / 8) as u8,
        size_of_prolog: b1,
        count_of_codes: b2,
        frame_register: (b3 % 16) as u8,
        frame_offset: (b3 / 16) as u8,
    }
}

impl UnwindInfoHeader {
    /// Where the data behind the code slots starts; the slots are padded to an even number.
    pub open spec fn tail(self) -> int {
        4 + (self.count_of_codes as int + 1) / 2 * 4
    }

    /// Whether a language handler is named.
    pub open spec fn names_handler(self) -> bool {
        self.flags % 4 != 0
    }

    /// Whether the unwind information of another function follows.
    pub open spec fn chains(self) -> bool {
        self.flags / 4 % 2 == 1
    }

    /// Parse the fixed header.
    pub fn parse(b: &[u8; 4]) -> (h: UnwindInfoHeader)
        ensures
            h == header_of(b@[0], b@[1], b@[2], b@[3]),
    {
        UnwindInfoHeader {
            version: b[0] % 8,
            flags: b[0] / 8,
            size_of_prolog: b[1],
            count_of_codes: b[2],
            frame_register: b[3] % 16,
            frame_offset: b[3] / 16,
        }
    }

    /// Where the data behind the code slots starts.
    pub fn tail_offset(&self) -> (offset: usize)
        ensures
            offset == self.tail(),
    {
        4 + (self.count_of_codes as usize + 1) / 2 * 4
    }

    /// Whether a language handler is named.
    pub fn has_handler(&self) -> (yes: bool)
        ensures
            yes == self.names_handler(),
    {
        self.flags % 4 != 0
    }

    /// Whether the unwind information of another function follows.
    pub fn is_chained(&self) -> (yes: bool)
        ensures
            yes == self.chains(),
    {
        self.flags / 4 % 2 == 1
    }
}

// ---------------------------------------------------------------------------------------------
// Reading images and the stack
// ---------------------------------------------------------------------------------------------

/// What the unwinder sees of the loaded images.
///
/// An impl defines `function_at` and `byte_at` along with the functions that read: the bodies that
/// stand in for them say that no function is known and that nothing can be read.
pub trait ImageReader {
    /// The image base and function-table row that cover an instruction.
    open spec fn function_at(&self, control_pc: u64) -> Option<(u64, RuntimeFunction)> {
        None
    }

    /// The byte at an address of an image, where it can be read.
    open spec fn byte_at(&self, image_base: u64, rva: u32) -> Option<u8> {
        None
    }

    /// The image base and function-table row that cover `control_pc`; `None` for a leaf function.
    fn lookup_function(&self, control_pc: u64) -> (r: Option<(u64, RuntimeFunction)>)
        ensures
            r == self.function_at(control_pc),
    ;

    /// The byte at `image_base + rva`.
    fn read_u8(&self, image_base: u64, rva: u32) -> (r: Option<u8>)
        ensures
            r == self.byte_at(image_base, rva),
    ;

    /// The little-endian 16-bit value at `image_base + rva`.
    fn read_u16(&self, image_base: u64, rva: u32) -> (r: Option<u16>)
        ensures
            match r {
                Some(v) => rva < u32::MAX && self.byte_at(image_base, rva) == Some((v % 0x100) as u8)
                    && self.byte_at(image_base, (rva + 1) as u32) == Some((v / 0x100) as u8),
                None => rva == u32::MAX || self.byte_at(image_base, rva) is None || self.byte_at(
                    image_base,
                    (rva + 1) as u32,
                ) is None,
            },
    {
        if rva == 0xffff_ffff {
            return None;
        }
        match (self.read_u8(image_base, rva), self.read_u8(image_base, rva + 1)) {
            (Some(low), Some(high)) => Some(low as u16 + 0x100 * high as u16),
            _ => None,
        }
    }

    /// The little-endian 32-bit value at `image_base + rva`.
    fn read_u32(&self, image_base: u64, rva: u32) -> (r: Option<u32>)
        ensures
            match r {
                Some(v) => {
                    &&& rva <= u32::MAX - 3
                    &&& self.byte_at(image_base, rva) == Some((v % 0x100) as u8)
                    &&& self.byte_at(image_base, (rva + 1) as u32) == Some((v / 0x100 % 0x100) as u8)
                    &&& self.byte_at(image_base, (rva + 2) as u32) == Some(
                        (v / 0x1_0000 % 0x100) as u8,
                    )
                    &&& self.byte_at(image_base, (rva + 3) as u32) == Some((v / 0x100_0000) as u8)
                },
                None => rva > u32::MAX - 3 || self.byte_at(image_base, rva) is None || self.byte_at(
                    image_base,
                    (rva + 1) as u32,
                ) is None || self.byte_at(image_base, (rva + 2) as u32) is None || self.byte_at(
                    image_base,
                    (rva + 3) as u32,
                ) is None,
            },
    {
        if rva > 0xffff_fffc {
            return None;
        }
        match (self.read_u16(image_base, rva), self.read_u16(image_base, rva + 2)) {
            (Some(low), Some(high)) => Some(low as u32 + 0x1_0000 * high as u32),
            _ => None,
        }
    }
}

/// What the unwinder sees of the stack.
///
/// An impl defines `word_at` along with `read_u64`: the body that stands in for it says that nothing
/// can be read.
pub trait StackReader {
    /// The 64-bit value at an address, where it can be read.
    open spec fn word_at(&self, addr: u64) -> Option<u64> {
        None
    }

    /// The 64-bit value at `addr`.
    fn read_u64(&self, addr: u64) -> (r: Option<u64>)
        ensures
            r == self.word_at(addr),
    ;
}

/// The byte at `rva`; nothing can be read beyond 32-bit addresses.
pub open spec fn byte<I: ImageReader>(img: &I, base: u64, rva: int) -> Option<u8> {
    if 0 <= rva <= u32::MAX {
        img.byte_at(base, rva as u32)
    } else {
        None
    }
}

/// The little-endian 16-bit value at `rva`.
pub open spec fn half<I: ImageReader>(img: &I, base: u64, rva: int) -> Option<int> {
    match (byte(img, base, rva), byte(img, base, rva + 1)) {
        (Some(a), Some(b)) => Some(a + 0x100 * b),
        _ => None,
    }
}

/// The little-endian 32-bit value at `rva`.
pub open spec fn word<I: ImageReader>(img: &I, base: u64, rva: int) -> Option<int> {
    match (half(img, base, rva), half(img, base, rva + 2)) {
        (Some(a), Some(b)) => Some(a + 0x1_0000 * b),
        _ => None,
    }
}

/// The header of the unwind information at `rva`.
pub open spec fn header<I: ImageReader>(img: &I, base: u64, rva: int) -> Option<UnwindInfoHeader> {
    match (
        byte(img, base, rva),
        byte(img, base, rva + 1),
        byte(img, base, rva + 2),
        byte(img, base, rva + 3),
    ) {
        (Some(b0), Some(b1), Some(b2), Some(b3)) => Some(header_of(b0, b1, b2, b3)),
        _ => None,
    }
}

fn read_byte<I: ImageReader>(img: &I, base: u64, rva: u64) -> (r: Option<u8>)
    ensures
        r == byte(img, base, rva as int),
{
    if rva <= 0xffff_ffff {
        img.read_u8(base, rva as u32)
    } else {
        None
    }
}

fn read_half<I: ImageReader>(img: &I, base: u64, rva: u64) -> (r: Option<u16>)
    ensures
        match r {
            Some(v) => half(img, base, rva as int) == Some(v as int),
            None => half(img, base, rva as int) is None,
        },
{
    if rva <= 0xffff_ffff {
        img.read_u16(base, rva as u32)
    } else {
        None
    }
}

fn read_word<I: ImageReader>(img: &I, base: u64, rva: u64) -> (r: Option<u32>)
    ensures
        match r {
            Some(v) => word(img, base, rva as int) == Some(v as int),
            None => word(img, base, rva as int) is None,
        },
{
    if rva <= 0xffff_ffff {
        img.read_u32(base, rva as u32)
    } else {
        None
    }
}

fn read_header<I: ImageReader>(img: &I, base: u64, rva: u64) -> (r: Option<UnwindInfoHeader>)
    requires
        rva < 0x1_0000_0000_0000,
    ensures
        r == header(img, base, rva as int),
{
    let b0: u8 = match read_byte(img, base, rva) {
        Some(b) => b,
        None => return None,
    };
    let b1: u8 = match read_byte(img, base, rva + 1) {
        Some(b) => b,
        None => return None,
    };
    let b2: u8 = match read_byte(img, base, rva + 2) {
        Some(b) => b,
        None => return None,
    };
    let b3: u8 = match read_byte(img, base, rva + 3) {
        Some(b) => b,
        None => return None,
    };
    Some(UnwindInfoHeader::parse(&[b0, b1, b2, b3]))
}

// ---------------------------------------------------------------------------------------------
// Function lookup
// ---------------------------------------------------------------------------------------------

/// The function table of one image.
#[derive(Clone, Debug, Default)]
pub struct FunctionTable {
    /// The image base.
    pub image_base: u64,
    /// The rows, ordered by where the functions begin.
    pub functions: Vec<RuntimeFunction>,
}

/// Whether rows are ordered by where the functions begin.
pub open spec fn ordered(rows: Seq<RuntimeFunction>) -> bool {
    forall|i: int, j: int| 0 <= i <= j < rows.len() ==> rows[i].begin <= rows[j].begin
}

/// The rows that begin at `begin`, in order.
pub open spec fn rows_at(rows: Seq<RuntimeFunction>, begin: u32) -> Seq<RuntimeFunction> {
    rows.filter(|f: RuntimeFunction| f.begin == begin)
}

/// Whether `sorted` holds the rows of `rows` ordered by where they begin, those that begin at one
/// place in their old order.
pub open spec fn stably_sorted(rows: Seq<RuntimeFunction>, sorted: Seq<RuntimeFunction>) -> bool {
    &&& ordered(sorted)
    &&& sorted.to_multiset() == rows.to_multiset()
    &&& forall|begin: u32| #[trigger] rows_at(sorted, begin) == rows_at(rows, begin)
}

proof fn lemma_filter_none(rows: Seq<RuntimeFunction>, begin: u32)
    requires
        forall|i: int| 0 <= i < rows.len() ==> (#[trigger] rows[i]).begin != begin,
    ensures
        rows_at(rows, begin) == Seq::<RuntimeFunction>::empty(),
    decreases rows.len(),
{
    reveal(Seq::filter);
    if rows.len() > 0 {
        let front = rows.drop_last();
        assert forall|i: int| 0 <= i < front.len() implies (#[trigger] front[i]).begin != begin by {
            assert(front[i] == rows[i]);
        }
        lemma_filter_none(front, begin);
        assert(rows[rows.len() - 1].begin != begin);
    }
}

proof fn lemma_filter_split(a: Seq<RuntimeFunction>, b: Seq<RuntimeFunction>, begin: u32)
    ensures
        rows_at(a + b, begin) == rows_at(a, begin) + rows_at(b, begin),
    decreases b.len(),
{
    reveal(Seq::filter);
    if b.len() == 0 {
        assert(a + b =~= a);
        assert(rows_at(a, begin) + rows_at(b, begin) =~= rows_at(a, begin));
    } else {
        lemma_filter_split(a, b.drop_last(), begin);
        assert((a + b).drop_last() =~= a + b.drop_last());
        assert(rows_at(a + b, begin) =~= rows_at(a, begin) + rows_at(b, begin));
    }
}

/// Inserting a row behind all rows that do not begin later keeps rows stably sorted.
proof fn lemma_insert(rows: Seq<RuntimeFunction>, sorted: Seq<RuntimeFunction>, row: RuntimeFunction, at: int)
    requires
        stably_sorted(rows, sorted),
        0 <= at <= sorted.len(),
        forall|i: int| 0 <= i < at ==> (#[trigger] sorted[i]).begin <= row.begin,
        forall|i: int| at <= i < sorted.len() ==> (#[trigger] sorted[i]).begin > row.begin,
    ensures
        stably_sorted(rows.push(row), sorted.insert(at, row)),
{
    broadcast use vstd::seq_lib::group_to_multiset_ensures;

    let out = sorted.insert(at, row);
    let a = sorted.take(at);
    let b = sorted.subrange(at, sorted.len() as int);
    assert(sorted =~= a + b);
    assert(out =~= a + seq![row] + b);
    assert(rows.push(row).to_multiset() =~= rows.to_multiset().insert(row));
    assert(out.to_multiset() =~= sorted.to_multiset().insert(row));
    assert forall|begin: u32| #[trigger] rows_at(out, begin) == rows_at(rows.push(row), begin) by {
        lemma_filter_split(a, b, begin);
        lemma_filter_split(a + seq![row], b, begin);
        lemma_filter_split(a, seq![row], begin);
        lemma_filter_split(rows, seq![row], begin);
        assert(rows.push(row) =~= rows + seq![row]);
        assert(rows_at(sorted, begin) == rows_at(rows, begin));
        if begin == row.begin {
            assert forall|i: int| 0 <= i < b.len() implies (#[trigger] b[i]).begin != begin by {
                assert(b[i] == sorted[at + i]);
            }
            lemma_filter_none(b, begin);
            assert(rows_at(out, begin) =~= rows_at(rows.push(row), begin));
        } else {
            assert(seq![row][0].begin != begin);
            lemma_filter_none(seq![row], begin);
            assert(rows_at(out, begin) =~= rows_at(rows.push(row), begin));
        }
    }
}

/// Whether row `i` is the last one that begins at or before `rva`.
pub open spec fn last_before(rows: Seq<RuntimeFunction>, rva: u32, i: int) -> bool {
    &&& 0 <= i < rows.len()
    &&& rows[i].begin <= rva
    &&& i + 1 < rows.len() ==> rows[i + 1].begin > rva
}

/// Where functions do not overlap, the row that covers an address is the one that a lookup looks at.
pub proof fn covering_rows_are_found(rows: Seq<RuntimeFunction>, rva: u32, i: int)
    requires
        ordered(rows),
        forall|j: int, k: int|
            0 <= j < k < rows.len() ==> (#[trigger] rows[j]).end <= (#[trigger] rows[k]).begin,
        0 <= i < rows.len(),
        rows[i].holds(rva),
    ensures
        last_before(rows, rva, i),
        forall|j: int| 0 <= j < rows.len() && j != i ==> !(#[trigger] rows[j]).holds(rva),
{
    if i + 1 < rows.len() {
        assert(rows[i].end <= rows[i + 1].begin);
    }
}

impl FunctionTable {
    /// Whether an instruction is near enough behind the image base to belong to the image.
    pub open spec fn in_reach(self, control_pc: u64) -> bool {
        0 <= control_pc - self.image_base <= u32::MAX
    }

    /// The distance of an instruction in reach from the image base.
    pub open spec fn offset_of(self, control_pc: u64) -> u32 {
        (control_pc - self.image_base) as u32
    }

    /// Order the rows of an image.
    pub fn add(image_base: u64, functions: Vec<RuntimeFunction>) -> (table: Self)
        ensures
            table.image_base == image_base,
            stably_sorted(functions@, table.functions@),
    {
        let mut sorted: Vec<RuntimeFunction> = Vec::new();
        let mut k: usize = 0;
        assert(functions@.take(0) =~= sorted@);
        while k < functions.len()
            invariant
                k <= functions@.len(),
                stably_sorted(functions@.take(k as int), sorted@),
            decreases functions@.len() - k,
        {
            let row: RuntimeFunction = functions[k];
            let mut at: usize = sorted.len();
            while at > 0 && sorted[at - 1].begin > row.begin
                invariant
                    at <= sorted@.len(),
                    ordered(sorted@),
                    forall|i: int| at <= i < sorted@.len() ==> (#[trigger] sorted@[i]).begin
                        > row.begin,
                decreases at,
            {
                at -= 1;
            }
            proof {
                assert forall|i: int| 0 <= i < at implies (#[trigger] sorted@[i]).begin
                    <= row.begin by {
                    assert(sorted@[i].begin <= sorted@[at - 1].begin);
                }
                lemma_insert(functions@.take(k as int), sorted@, row, at as int);
                assert(functions@.take(k + 1) =~= functions@.take(k as int).push(row));
            }
            sorted.insert(at, row);
            k += 1;
        }
        assert(functions@.take(k as int) =~= functions@);
        FunctionTable { image_base, functions: sorted }
    }

    /// The row that covers an instruction; `None` for a leaf function.
    pub fn lookup(&self, control_pc: u64) -> (r: Option<RuntimeFunction>)
        requires
            ordered(self.functions@),
        ensures
            match r {
                Some(f) => self.in_reach(control_pc) && f.holds(self.offset_of(control_pc))
                    && exists|i: int| #[trigger]
                    last_before(self.functions@, self.offset_of(control_pc), i)
                        && self.functions@[i] == f,
                None => !self.in_reach(control_pc) || forall|i: int| #[trigger]
                    last_before(self.functions@, self.offset_of(control_pc), i)
                        ==> !self.functions@[i].holds(self.offset_of(control_pc)),
            },
    {
        if control_pc < self.image_base || control_pc - self.image_base > 0xffff_ffff {
            return None;
        }
        let rva: u32 = (control_pc - self.image_base) as u32;
        let mut low: usize = 0;
        let mut high: usize = self.functions.len();
        while low < high
            invariant
                low <= high <= self.functions@.len(),
                ordered(self.functions@),
                forall|i: int| 0 <= i < low ==> (#[trigger] self.functions@[i]).begin <= rva,
                forall|i: int|
                    high <= i < self.functions@.len() ==> (#[trigger] self.functions@[i]).begin
                        > rva,
            decreases high - low,
        {
            let mid: usize = low + (high - low) / 2;
            if self.functions[mid].begin <= rva {
                low = mid + 1;
            } else {
                high = mid;
            }
        }
        if low == 0 {
            return None;
        }
        let candidate: RuntimeFunction = self.functions[low - 1];
        assert(last_before(self.functions@, rva, low - 1));
        assert forall|i: int| #[trigger] last_before(self.functions@, rva, i) implies i == low
            - 1 by {
            if i < low - 1 {
                assert(self.functions@[i + 1].begin <= rva);
            }
        }
        if candidate.covers(rva) {
            Some(candidate)
        } else {
            None
        }
    }
}

// ---------------------------------------------------------------------------------------------
// Unwind codes
// ---------------------------------------------------------------------------------------------

/// How many two-byte slots an unwind code takes; `None` for an unknown operation.
pub open spec fn slots_of(op: int, info: int) -> Option<int> {
    if op == 0 || op == 2 || op == 3 || op == 10 {
        Some(1)
    } else if op == 1 {
        Some(
            if info == 0 {
                2
            } else {
                3
            },
        )
    } else if op == 4 || op == 6 || op == 8 {
        Some(2)
    } else if op == 5 || op == 7 || op == 9 {
        Some(3)
    } else {
        None
    }
}

/// Where slot `i` of the unwind information at `rva` stands.
pub open spec fn slot_at(rva: int, i: int) -> int {
    rva + 4 + 2 * i
}

/// What undoing one unwind code does: the registers afterwards, and whether the code was a machine
/// frame. A word that the stack does not give is one error, an operand that cannot be read or an
/// unknown operation the other; the registers are then those the attempt leaves.
pub open spec fn undo<I: ImageReader, S: StackReader>(
    img: &I,
    stack: &S,
    base: u64,
    rva: int,
    idx: int,
    op: int,
    info: int,
    frame: UnwindInfoHeader,
    r: Registers,
) -> (Registers, Result<bool, FrameWalkError>) {
    let operand = slot_at(rva, idx + 1);
    if op == 0 {
        match stack.word_at(r.rsp()) {
            Some(v) => (r.with_gpr(info, v).bump(8), Ok(false)),
            None => (r, Err(FrameWalkError::StackRead)),
        }
    } else if op == 1 {
        let size = if info == 0 {
            match half(img, base, operand) {
                Some(v) => Some(8 * v),
                None => None,
            }
        } else {
            word(img, base, operand)
        };
        match size {
            Some(n) => (r.bump(n), Ok(false)),
            None => (r, Err(FrameWalkError::UnwindData)),
        }
    } else if op == 2 {
        (r.bump(8 * info + 8), Ok(false))
    } else if op == 3 {
        (
            r.with_rsp(plus(r.gpr[frame.frame_register as int], -(16 * frame.frame_offset))),
            Ok(false),
        )
    } else if op == 4 || op == 5 {
        let offset = if op == 4 {
            match half(img, base, operand) {
                Some(v) => Some(8 * v),
                None => None,
            }
        } else {
            word(img, base, operand)
        };
        match offset {
            Some(n) => match stack.word_at(plus(r.rsp(), n)) {
                Some(v) => (r.with_gpr(info, v), Ok(false)),
                None => (r, Err(FrameWalkError::StackRead)),
            },
            None => (r, Err(FrameWalkError::UnwindData)),
        }
    } else if op == 8 || op == 9 {
        let offset = if op == 8 {
            match half(img, base, operand) {
                Some(v) => Some(16 * v),
                None => None,
            }
        } else {
            word(img, base, operand)
        };
        match offset {
            Some(n) => match (
                stack.word_at(plus(r.rsp(), n)),
                stack.word_at(plus(r.rsp(), n + 8)),
            ) {
                (Some(low), Some(high)) => (r.with_xmm(info, low, high), Ok(false)),
                _ => (r, Err(FrameWalkError::StackRead)),
            },
            None => (r, Err(FrameWalkError::UnwindData)),
        }
    } else if op == 6 || op == 7 {
        (r, Ok(false))
    } else if op == 10 {
        let t = r.bump(8 * info);
        match (stack.word_at(t.rsp()), stack.word_at(plus(t.rsp(), 0x18))) {
            (Some(rip), Some(rsp)) => (t.with_rip(rip).with_rsp(rsp), Ok(true)),
            _ => (t, Err(FrameWalkError::StackRead)),
        }
    } else {
        (r, Err(FrameWalkError::UnwindData))
    }
}

/// What undoing the code in slot `i` does: the registers afterwards, how many slots the code
/// takes, and whether it was a machine frame. `done` is how far the prologue has executed: the code
/// of a later instruction changes nothing. Without it the code is undone wherever its instruction
/// stands.
pub open spec fn undo_slot<I: ImageReader, S: StackReader>(
    img: &I,
    stack: &S,
    base: u64,
    rva: int,
    frame: UnwindInfoHeader,
    done: Option<u32>,
    i: int,
    r: Registers,
) -> (Registers, Result<(int, bool), FrameWalkError>) {
    let at = slot_at(rva, i);
    match byte(img, base, at + 1) {
        None => (r, Err(FrameWalkError::UnwindData)),
        Some(code) => {
            let op = code as int % 16;
            let info = code as int / 16;
            match slots_of(op, info) {
                None => (r, Err(FrameWalkError::UnwindData)),
                Some(slots) => if done is Some && byte(img, base, at) is None {
                    (r, Err(FrameWalkError::UnwindData))
                } else if done is Some && byte(img, base, at)->0 > done->0 {
                    (r, Ok((slots, false)))
                } else {
                    let (next, outcome) = undo(img, stack, base, rva, i, op, info, frame, r);
                    match outcome {
                        Err(e) => (next, Err(e)),
                        Ok(machine_frame) => (next, Ok((slots, machine_frame))),
                    }
                },
            }
        },
    }
}

/// What undoing the codes from slot `i` on does; reports whether a machine frame was among them.
pub open spec fn undo_codes<I: ImageReader, S: StackReader>(
    img: &I,
    stack: &S,
    base: u64,
    rva: int,
    frame: UnwindInfoHeader,
    done: Option<u32>,
    i: int,
    machine_frame: bool,
    r: Registers,
) -> (Registers, Result<bool, FrameWalkError>)
    decreases frame.count_of_codes + 3 - i,
{
    if i >= frame.count_of_codes {
        (r, Ok(machine_frame))
    } else {
        let (next, outcome) = undo_slot(img, stack, base, rva, frame, done, i, r);
        match outcome {
            Err(e) => (next, Err(e)),
            Ok((slots, m)) => undo_codes(
                img,
                stack,
                base,
                rva,
                frame,
                done,
                i + slots,
                machine_frame || m,
                next,
            ),
        }
    }
}

/// What undoing the chained unwind information at `rva` does: all of its codes, then those of the
/// information it chains to, at most 33 deep.
pub open spec fn undo_chain<I: ImageReader, S: StackReader>(
    img: &I,
    stack: &S,
    base: u64,
    rva: int,
    depth: int,
    r: Registers,
) -> (Registers, Result<(), FrameWalkError>)
    decreases 33 - depth,
{
    if depth > 32 {
        (r, Err(FrameWalkError::UnwindData))
    } else {
        match header(img, base, rva) {
            None => (r, Err(FrameWalkError::UnwindData)),
            Some(h) => {
                let (next, outcome) = undo_codes(img, stack, base, rva, h, None, 0, false, r);
                match outcome {
                    Err(e) => (next, Err(e)),
                    Ok(_) => if h.chains() {
                        match word(img, base, rva + h.tail() + 8) {
                            Some(info) => undo_chain(
                                img,
                                stack,
                                base,
                                info / 2 * 2,
                                depth + 1,
                                next,
                            ),
                            None => (next, Err(FrameWalkError::UnwindData)),
                        }
                    } else {
                        (next, Ok(()))
                    },
                }
            },
        }
    }
}

/// Whether the code that establishes the frame pointer has executed, looking from slot `i` on.
pub open spec fn frame_established<I: ImageReader>(
    img: &I,
    base: u64,
    rva: int,
    frame: UnwindInfoHeader,
    done: u32,
    i: int,
) -> Option<bool>
    decreases frame.count_of_codes + 3 - i,
{
    if i >= frame.count_of_codes {
        Some(false)
    } else {
        match (byte(img, base, slot_at(rva, i)), byte(img, base, slot_at(rva, i) + 1)) {
            (Some(at), Some(code)) => if code as int % 16 == 3 && at <= done {
                Some(true)
            } else {
                match slots_of(code as int % 16, code as int / 16) {
                    Some(slots) => frame_established(img, base, rva, frame, done, i + slots),
                    None => None,
                }
            },
            _ => None,
        }
    }
}

/// The frame that handler data is relative to: the frame register's once it is established, else
/// the stack pointer.
pub open spec fn establisher<I: ImageReader>(
    img: &I,
    base: u64,
    rva: int,
    frame: UnwindInfoHeader,
    done: u32,
    r: Registers,
) -> Option<u64> {
    let framed = plus(r.gpr[frame.frame_register as int], -(16 * frame.frame_offset));
    if frame.frame_register == 0 {
        Some(r.rsp())
    } else if done >= frame.size_of_prolog {
        Some(framed)
    } else {
        match frame_established(img, base, rva, frame, done, 0) {
            Some(true) => Some(framed),
            Some(false) => Some(r.rsp()),
            None => None,
        }
    }
}

/// The number of 2-byte slots of an unwind code, its own included.
fn op_slots(op: u8, op_info: u8) -> (slots: Option<usize>)
    ensures
        match slots {
            Some(n) => slots_of(op as int, op_info as int) == Some(n as int) && 1 <= n <= 3,
            None => slots_of(op as int, op_info as int) is None,
        },
{
    if op == uwop::PUSH_NONVOL || op == uwop::ALLOC_SMALL || op == uwop::SET_FPREG || op
        == uwop::PUSH_MACHFRAME {
        Some(1)
    } else if op == uwop::ALLOC_LARGE {
        if op_info == 0 {
            Some(2)
        } else {
            Some(3)
        }
    } else if op == uwop::SAVE_NONVOL || op == 6 || op == uwop::SAVE_XMM128 {
        Some(2)
    } else if op == uwop::SAVE_NONVOL_FAR || op == 7 || op == uwop::SAVE_XMM128_FAR {
        Some(3)
    } else {
        None
    }
}

/// A scaled 16-bit operand, or a 32-bit one.
fn read_operand<I: ImageReader>(img: &I, base: u64, at: u64, scale: u64, far: bool) -> (r: Option<u64>)
    requires
        scale <= 16,
    ensures
        match r {
            Some(v) => v <= u32::MAX && if far {
                word(img, base, at as int) == Some(v as int)
            } else {
                half(img, base, at as int) matches Some(h) && v == scale * h
            },
            None => if far {
                word(img, base, at as int) is None
            } else {
                half(img, base, at as int) is None
            },
        },
{
    if far {
        match read_word(img, base, at) {
            Some(v) => Some(v as u64),
            None => None,
        }
    } else {
        match read_half(img, base, at) {
            Some(v) => {
                assert(scale * v <= 16 * 0xffff) by (nonlinear_arith)
                    requires
                        scale <= 16,
                        v <= 0xffff,
                ;
                Some(scale * v as u64)
            },
            None => None,
        }
    }
}

/// Undo one unwind code. `Ok(true)` reports a machine frame.
fn apply_code<I: ImageReader, S: StackReader>(
    op: u8,
    op_info: u8,
    image_base: u64,
    unwind_rva: u32,
    idx: usize,
    frame: &UnwindInfoHeader,
    ctx: &mut Context,
    img: &I,
    stack: &S,
) -> (r: Result<bool, FrameWalkError>)
    requires
        op_info < 16,
        frame.frame_register < 16,
        frame.frame_offset < 16,
        idx < 256,
    ensures
        (final(ctx)@, r) == undo(
            img,
            stack,
            image_base,
            unwind_rva as int,
            idx as int,
            op as int,
            op_info as int,
            *frame,
            old(ctx)@,
        ),
{
    let operand: u64 = unwind_rva as u64 + 4 + 2 * (idx as u64 + 1);
    if op == uwop::PUSH_NONVOL {
        match stack.read_u64(ctx.rsp()) {
            Some(v) => {
                ctx.set_gpr(op_info as usize, v);
                ctx.bump(8);
                Ok(false)
            },
            None => Err(FrameWalkError::StackRead),
        }
    } else if op == uwop::ALLOC_LARGE {
        match read_operand(img, image_base, operand, 8, op_info != 0) {
            Some(size) => {
                ctx.bump(size);
                Ok(false)
            },
            None => Err(FrameWalkError::UnwindData),
        }
    } else if op == uwop::ALLOC_SMALL {
        ctx.bump(8 * op_info as u64 + 8);
        Ok(false)
    } else if op == uwop::SET_FPREG {
        let value: u64 = ctx.gpr[frame.frame_register as usize];
        ctx.set_rsp(wrapping_minus(value, 16 * frame.frame_offset as u64));
        Ok(false)
    } else if op == uwop::SAVE_NONVOL || op == uwop::SAVE_NONVOL_FAR {
        match read_operand(img, image_base, operand, 8, op == uwop::SAVE_NONVOL_FAR) {
            Some(offset) => match stack.read_u64(wrapping_plus(ctx.rsp(), offset)) {
                Some(v) => {
                    ctx.set_gpr(op_info as usize, v);
                    Ok(false)
                },
                None => Err(FrameWalkError::StackRead),
            },
            None => Err(FrameWalkError::UnwindData),
        }
    } else if op == uwop::SAVE_XMM128 || op == uwop::SAVE_XMM128_FAR {
        match read_operand(img, image_base, operand, 16, op == uwop::SAVE_XMM128_FAR) {
            Some(offset) => match (
                stack.read_u64(wrapping_plus(ctx.rsp(), offset)),
                stack.read_u64(wrapping_plus(ctx.rsp(), offset + 8)),
            ) {
                (Some(low), Some(high)) => {
                    ctx.set_xmm(op_info as usize, low, high);
                    Ok(false)
                },
                _ => Err(FrameWalkError::StackRead),
            },
            None => Err(FrameWalkError::UnwindData),
        }
    } else if op == 6 || op == 7 {
        Ok(false)
    } else if op == uwop::PUSH_MACHFRAME {
        ctx.bump(8 * op_info as u64);
        match (stack.read_u64(ctx.rsp()), stack.read_u64(wrapping_plus(ctx.rsp(), 0x18))) {
            (Some(rip), Some(rsp)) => {
                ctx.set_rip(rip);
                ctx.set_rsp(rsp);
                Ok(true)
            },
            _ => Err(FrameWalkError::StackRead),
        }
    } else {
        Err(FrameWalkError::UnwindData)
    }
}

/// Undo the code in slot `i`.
fn apply_slot<I: ImageReader, S: StackReader>(
    image_base: u64,
    unwind_rva: u32,
    frame: &UnwindInfoHeader,
    done: Option<u32>,
    i: usize,
    ctx: &mut Context,
    img: &I,
    stack: &S,
) -> (r: Result<(usize, bool), FrameWalkError>)
    requires
        frame.frame_register < 16,
        frame.frame_offset < 16,
        i < 256,
    ensures
        ({
            let (next, outcome) = undo_slot(
                img,
                stack,
                image_base,
                unwind_rva as int,
                *frame,
                done,
                i as int,
                old(ctx)@,
            );
            &&& final(ctx)@ == next
            &&& match r {
                Ok((slots, m)) => outcome == Ok::<(int, bool), FrameWalkError>((slots as int, m))
                    && 1 <= slots <= 3,
                Err(e) => outcome == Err::<(int, bool), FrameWalkError>(e),
            }
        }),
{
    let at: u64 = unwind_rva as u64 + 4 + 2 * i as u64;
    let code: u8 = match read_byte(img, image_base, at + 1) {
        Some(code) => code,
        None => return Err(FrameWalkError::UnwindData),
    };
    let op: u8 = code % 16;
    let info: u8 = code / 16;
    let slots: usize = match op_slots(op, info) {
        Some(slots) => slots,
        None => return Err(FrameWalkError::UnwindData),
    };
    match done {
        Some(done) => match read_byte(img, image_base, at) {
            Some(position) => {
                if position as u32 > done {
                    return Ok((slots, false));
                }
            },
            None => return Err(FrameWalkError::UnwindData),
        },
        None => {},
    }
    match apply_code(op, info, image_base, unwind_rva, i, frame, ctx, img, stack) {
        Ok(m) => Ok((slots, m)),
        Err(e) => Err(e),
    }
}

/// Undo the codes of the unwind information at `unwind_rva`.
fn apply_codes<I: ImageReader, S: StackReader>(
    image_base: u64,
    unwind_rva: u32,
    frame: &UnwindInfoHeader,
    done: Option<u32>,
    ctx: &mut Context,
    img: &I,
    stack: &S,
) -> (r: Result<bool, FrameWalkError>)
    requires
        frame.frame_register < 16,
        frame.frame_offset < 16,
    ensures
        (final(ctx)@, r) == undo_codes(
            img,
            stack,
            image_base,
            unwind_rva as int,
            *frame,
            done,
            0,
            false,
            old(ctx)@,
        ),
{
    let ghost goal = undo_codes(
        img,
        stack,
        image_base,
        unwind_rva as int,
        *frame,
        done,
        0,
        false,
        ctx@,
    );
    let mut i: usize = 0;
    let mut machine_frame: bool = false;
    while i < frame.count_of_codes as usize
        invariant
            i <= frame.count_of_codes + 2,
            frame.frame_register < 16,
            frame.frame_offset < 16,
            goal == undo_codes(
                img,
                stack,
                image_base,
                unwind_rva as int,
                *frame,
                done,
                0,
                false,
                old(ctx)@,
            ),
            goal == undo_codes(
                img,
                stack,
                image_base,
                unwind_rva as int,
                *frame,
                done,
                i as int,
                machine_frame,
                ctx@,
            ),
        decreases frame.count_of_codes + 2 - i,
    {
        match apply_slot(image_base, unwind_rva, frame, done, i, ctx, img, stack) {
            Ok((slots, m)) => {
                machine_frame = machine_frame || m;
                i += slots;
            },
            Err(e) => return Err(e),
        }
    }
    Ok(machine_frame)
}

/// Undo a chained prologue in full.
fn apply_chained_codes<I: ImageReader, S: StackReader>(
    image_base: u64,
    unwind_rva: u32,
    ctx: &mut Context,
    img: &I,
    stack: &S,
    depth: u32,
) -> (r: Result<(), FrameWalkError>)
    ensures
        (final(ctx)@, r) == undo_chain(
            img,
            stack,
            image_base,
            unwind_rva as int,
            depth as int,
            old(ctx)@,
        ),
    decreases 33 - depth,
{
    if depth > 32 {
        return Err(FrameWalkError::UnwindData);
    }
    let frame: UnwindInfoHeader = match read_header(img, image_base, unwind_rva as u64) {
        Some(frame) => frame,
        None => return Err(FrameWalkError::UnwindData),
    };
    match apply_codes(image_base, unwind_rva, &frame, None, ctx, img, stack) {
        Ok(_) => {},
        Err(e) => return Err(e),
    }
    if frame.is_chained() {
        let tail: u64 = unwind_rva as u64 + frame.tail_offset() as u64;
        match read_word(img, image_base, tail + 8) {
            Some(info) => apply_chained_codes(image_base, info / 2 * 2, ctx, img, stack, depth + 1),
            None => Err(FrameWalkError::UnwindData),
        }
    } else {
        Ok(())
    }
}

/// The frame that handler data is relative to.
fn compute_establisher_frame<I: ImageReader>(
    frame: &UnwindInfoHeader,
    image_base: u64,
    unwind_rva: u32,
    prologue_offset: u32,
    ctx: &Context,
    img: &I,
) -> (r: Option<u64>)
    requires
        frame.frame_register < 16,
        frame.frame_offset < 16,
    ensures
        r == establisher(
            img,
            image_base,
            unwind_rva as int,
            *frame,
            prologue_offset,
            ctx@,
        ),
{
    if frame.frame_register == 0 {
        return Some(ctx.rsp());
    }
    let framed: u64 = wrapping_minus(
        ctx.gpr[frame.frame_register as usize],
        16 * frame.frame_offset as u64,
    );
    if prologue_offset >= frame.size_of_prolog as u32 {
        return Some(framed);
    }
    let ghost goal = frame_established(
        img,
        image_base,
        unwind_rva as int,
        *frame,
        prologue_offset,
        0,
    );
    let mut i: usize = 0;
    while i < frame.count_of_codes as usize
        invariant
            i <= frame.count_of_codes + 2,
            frame.frame_register != 0,
            prologue_offset < frame.size_of_prolog,
            framed == plus(ctx@.gpr[frame.frame_register as int], -(16 * frame.frame_offset)),
            goal == frame_established(
                img,
                image_base,
                unwind_rva as int,
                *frame,
                prologue_offset,
                0,
            ),
            goal == frame_established(
                img,
                image_base,
                unwind_rva as int,
                *frame,
                prologue_offset,
                i as int,
            ),
        decreases frame.count_of_codes + 2 - i,
    {
        let at: u64 = unwind_rva as u64 + 4 + 2 * i as u64;
        let position: u8 = match read_byte(img, image_base, at) {
            Some(position) => position,
            None => return None,
        };
        let code: u8 = match read_byte(img, image_base, at + 1) {
            Some(code) => code,
            None => return None,
        };
        if code % 16 == uwop::SET_FPREG && position as u32 <= prologue_offset {
            return Some(framed);
        }
        match op_slots(code % 16, code / 16) {
            Some(slots) => {
                i += slots;
            },
            None => return None,
        }
    }
    Some(ctx.rsp())
}

// ---------------------------------------------------------------------------------------------
// Epilogues
// ---------------------------------------------------------------------------------------------

/// The signed value of an unsigned one of `size` possible values.
pub open spec fn signed(v: int, size: int) -> int {
    if v < size / 2 {
        v
    } else {
        v - size
    }
}

/// The stack adjustment that may start an epilogue at `at`: how long it is, and the registers
/// behind it. `None` if an adjustment is there and cannot be executed.
pub open spec fn adjust_stack<I: ImageReader>(img: &I, base: u64, at: int, r: Registers) -> Option<
    (int, Registers),
> {
    match (
        byte(img, base, at),
        byte(img, base, at + 1),
        byte(img, base, at + 2),
        byte(img, base, at + 3),
    ) {
        (Some(b0), Some(b1), Some(b2), Some(b3)) => if b0 == 0x48 && b1 == 0x83 && b2 == 0xc4 {
            Some((4, r.bump(b3 as int)))
        } else if b0 == 0x48 && b1 == 0x81 && b2 == 0xc4 {
            match word(img, base, at + 3) {
                Some(n) => Some((7, r.bump(n))),
                None => None,
            }
        } else if (b0 == 0x48 || b0 == 0x49) && b1 == 0x8d && b2 as int / 8 % 8 == 4 {
            let from = r.gpr[b2 as int % 8 + 8 * (b0 - 0x48)];
            let mode = b2 as int / 64;
            if mode == 0 {
                Some((3, r.with_rsp(from)))
            } else if mode == 1 {
                Some((4, r.with_rsp(plus(from, signed(b3 as int, 0x100)))))
            } else if mode == 2 {
                match word(img, base, at + 3) {
                    Some(n) => Some((7, r.with_rsp(plus(from, signed(n, 0x1_0000_0000))))),
                    None => None,
                }
            } else {
                None
            }
        } else {
            Some((0, r))
        },
        _ => Some((0, r)),
    }
}

/// The register pop at `at`: its register and its length.
pub open spec fn pop_at<I: ImageReader>(img: &I, base: u64, at: int) -> Option<(int, int)> {
    match byte(img, base, at) {
        Some(op) => if 0x58 <= op <= 0x5f {
            Some((op - 0x58, 1))
        } else if op == 0x41 || op == 0x49 {
            match byte(img, base, at + 1) {
                Some(next) => if 0x58 <= next <= 0x5f {
                    Some((next - 0x58 + 8, 2))
                } else {
                    None
                },
                None => None,
            }
        } else {
            None
        },
        None => None,
    }
}

/// The registers behind the pops from `at` up to `end`; `None` if something else stands there.
pub open spec fn pops<I: ImageReader, S: StackReader>(
    img: &I,
    stack: &S,
    base: u64,
    at: int,
    end: int,
    r: Registers,
) -> Option<(int, Registers)>
    decreases end + 2 - at,
{
    if at >= end {
        Some((at, r))
    } else {
        match pop_at(img, base, at) {
            Some((reg, length)) => match stack.word_at(r.rsp()) {
                Some(v) => pops(
                    img,
                    stack,
                    base,
                    at + length,
                    end,
                    r.with_gpr(reg, v).bump(8),
                ),
                None => None,
            },
            None => None,
        }
    }
}

/// The registers of the caller, when the rest of a function from `at` to `end` is an epilogue: an
/// optional stack adjustment, register pops, and a return in the last byte.
pub open spec fn epilogue<I: ImageReader, S: StackReader>(
    img: &I,
    stack: &S,
    base: u64,
    at: u32,
    end: u32,
    r: Registers,
) -> Option<Registers> {
    let last = end - 1;
    if at > last {
        None
    } else {
        match adjust_stack(img, base, at as int, r) {
            None => None,
            Some((length, adjusted)) => if at + length > u32::MAX {
                None
            } else {
                match pops(img, stack, base, at + length, last, adjusted) {
                    Some((cursor, popped)) => if cursor == last && byte(img, base, last) == Some(
                        0xc3u8,
                    ) {
                        match stack.word_at(popped.rsp()) {
                            Some(rip) => Some(popped.with_rip(rip).bump(8)),
                            None => None,
                        }
                    } else {
                        None
                    },
                    None => None,
                }
            },
        }
    }
}

/// `a` moved by a signed distance, modulo 2^64. The distance is given as one of `size` values.
fn plus_signed(a: u64, v: u64, size: u64) -> (r: u64)
    requires
        v < size,
        size == 0x100 || size == 0x1_0000_0000,
    ensures
        r == plus(a, signed(v as int, size as int)),
{
    if v < size / 2 {
        wrapping_plus(a, v)
    } else {
        wrapping_minus(a, size - v)
    }
}

/// Execute the stack adjustment that may stand at `at`.
fn run_adjustment<I: ImageReader>(img: &I, base: u64, at: u32, local: &mut Context) -> (r: Option<u32>)
    ensures
        match r {
            Some(length) => adjust_stack(img, base, at as int, old(local)@) == Some(
                (length as int, final(local)@),
            ) && length <= 7,
            None => adjust_stack(img, base, at as int, old(local)@) is None,
        },
{
    let at: u64 = at as u64;
    let (b0, b1, b2, b3) = match (
        read_byte(img, base, at),
        read_byte(img, base, at + 1),
        read_byte(img, base, at + 2),
        read_byte(img, base, at + 3),
    ) {
        (Some(b0), Some(b1), Some(b2), Some(b3)) => (b0, b1, b2, b3),
        _ => return Some(0),
    };
    if b0 == 0x48 && b1 == 0x83 && b2 == 0xc4 {
        local.bump(b3 as u64);
        return Some(4);
    }
    if b0 == 0x48 && b1 == 0x81 && b2 == 0xc4 {
        return match read_word(img, base, at + 3) {
            Some(n) => {
                local.bump(n as u64);
                Some(7)
            },
            None => None,
        };
    }
    if (b0 == 0x48 || b0 == 0x49) && b1 == 0x8d && b2 / 8 % 8 == 4 {
        let from: u64 = local.gpr[(b2 % 8 + 8 * (b0 - 0x48)) as usize];
        let mode: u8 = b2 / 64;
        if mode == 0 {
            local.set_rsp(from);
            return Some(3);
        }
        if mode == 1 {
            local.set_rsp(plus_signed(from, b3 as u64, 0x100));
            return Some(4);
        }
        if mode == 2 {
            return match read_word(img, base, at + 3) {
                Some(n) => {
                    local.set_rsp(plus_signed(from, n as u64, 0x1_0000_0000));
                    Some(7)
                },
                None => None,
            };
        }
        return None;
    }
    Some(0)
}

/// The register pop at `at`.
fn read_pop<I: ImageReader>(img: &I, base: u64, at: u64) -> (r: Option<(usize, u64)>)
    requires
        at < 0x1_0000_0000_0000,
    ensures
        match r {
            Some((reg, length)) => pop_at(img, base, at as int) == Some(
                (reg as int, length as int),
            ) && reg < 16 && 1 <= length <= 2,
            None => pop_at(img, base, at as int) is None,
        },
{
    match read_byte(img, base, at) {
        Some(op) => {
            if 0x58 <= op && op <= 0x5f {
                Some(((op - 0x58) as usize, 1))
            } else if op == 0x41 || op == 0x49 {
                match read_byte(img, base, at + 1) {
                    Some(next) => if 0x58 <= next && next <= 0x5f {
                        Some(((next - 0x58 + 8) as usize, 2))
                    } else {
                        None
                    },
                    None => None,
                }
            } else {
                None
            }
        },
        None => None,
    }
}

/// Execute the rest of an epilogue. The registers change only when it is one.
fn try_unwind_epilogue<I: ImageReader, S: StackReader>(
    image_base: u64,
    control_rva: u32,
    function_end_rva: u32,
    ctx: &mut Context,
    img: &I,
    stack: &S,
) -> (done: bool)
    ensures
        done == epilogue(
            img,
            stack,
            image_base,
            control_rva,
            function_end_rva,
            old(ctx)@,
        ) is Some,
        done ==> epilogue(
            img,
            stack,
            image_base,
            control_rva,
            function_end_rva,
            old(ctx)@,
        ) == Some(final(ctx)@),
        !done ==> final(ctx)@ == old(ctx)@,
{
    if function_end_rva == 0 || control_rva > function_end_rva - 1 {
        return false;
    }
    let end: u64 = function_end_rva as u64 - 1;
    let mut local: Context = *ctx;
    let length: u32 = match run_adjustment(img, image_base, control_rva, &mut local) {
        Some(length) => length,
        None => return false,
    };
    let mut cursor: u64 = control_rva as u64 + length as u64;
    if cursor > 0xffff_ffff {
        return false;
    }
    let ghost goal = pops(img, stack, image_base, cursor as int, end as int, local@);
    while cursor < end
        invariant
            ctx@ == old(ctx)@,
            goal is None ==> epilogue(
                img,
                stack,
                image_base,
                control_rva,
                function_end_rva,
                old(ctx)@,
            ) is None,
            end <= u32::MAX,
            cursor <= u32::MAX + 2,
            goal == pops(img, stack, image_base, cursor as int, end as int, local@),
        decreases end + 2 - cursor,
    {
        let (reg, length) = match read_pop(img, image_base, cursor) {
            Some(pop) => pop,
            None => return false,
        };
        match stack.read_u64(local.rsp()) {
            Some(value) => {
                local.set_gpr(reg, value);
                local.bump(8);
            },
            None => return false,
        }
        cursor = cursor + length;
    }
    if cursor != end || read_byte(img, image_base, end) != Some(0xc3u8) {
        return false;
    }
    match stack.read_u64(local.rsp()) {
        Some(rip) => {
            local.set_rip(rip);
            local.bump(8);
            *ctx = local;
            true
        },
        None => false,
    }
}

// ---------------------------------------------------------------------------------------------
// Unwinding a frame
// ---------------------------------------------------------------------------------------------

/// Which handler an unwind reports: a flag of the unwind information, or none.
pub type HandlerType = u8;

/// What unwinding one frame reports.
#[derive(Copy, Clone, Debug, PartialEq, Eq, Default, Structural)]
pub struct UnwindResult {
    /// The image that the addresses are relative to.
    pub image_base: u64,
    /// The language handler, or zero.
    pub handler_rva: u32,
    /// The data of the language handler, or zero.
    pub handler_data_rva: u32,
    /// The frame that handler data is relative to.
    pub establisher_frame: u64,
}

/// What is reported where there is no handler of the kind that was asked for: nothing.
pub open spec fn no_handler() -> UnwindResult {
    UnwindResult { image_base: 0, handler_rva: 0, handler_data_rva: 0, establisher_frame: 0 }
}

/// Whether unwind information names a handler of the kind that was asked for. Information that
/// chains to other information names that in place of a handler.
pub open spec fn names_asked_handler(handler_type: u8, frame: UnwindInfoHeader) -> bool {
    handler_type != 0 && frame.names_handler() && !frame.chains() && (frame.flags & handler_type)
        != 0
}

/// What is reported in an epilogue: the image and the frame of a handler that was asked for, but not
/// the handler, which does not cover the epilogue.
pub open spec fn epilogue_report(
    handler_type: u8,
    base: u64,
    frame: UnwindInfoHeader,
    establisher_frame: u64,
) -> UnwindResult {
    if names_asked_handler(handler_type, frame) {
        UnwindResult { image_base: base, handler_rva: 0, handler_data_rva: 0, establisher_frame }
    } else {
        no_handler()
    }
}

/// What is reported of the handler of the unwind information at `rva`: it is named when its flag
/// was asked for, and its data stands behind its address. An address that cannot be read is an
/// error.
pub open spec fn handler_report<I: ImageReader>(
    img: &I,
    handler_type: u8,
    base: u64,
    rva: int,
    frame: UnwindInfoHeader,
    establisher_frame: u64,
) -> Result<UnwindResult, FrameWalkError> {
    if names_asked_handler(handler_type, frame) {
        match word(img, base, rva + frame.tail()) {
            Some(handler) => Ok(
                UnwindResult {
                    image_base: base,
                    handler_rva: handler as u32,
                    handler_data_rva: ((rva + frame.tail() + 4) % 0x1_0000_0000) as u32,
                    establisher_frame,
                },
            ),
            None => Err(FrameWalkError::UnwindData),
        }
    } else {
        Ok(no_handler())
    }
}

/// What unwinding a frame with the unwind information at `rva` does. `done` is how far the
/// prologue has executed. Where the rest of the function is an epilogue, that is executed, and no
/// handler is named. Otherwise the prologue and the prologues it chains to are undone, and the
/// return address is popped unless a machine frame was found.
#[verifier::opaque]
pub open spec fn unwind_frame<I: ImageReader, S: StackReader>(
    img: &I,
    stack: &S,
    handler_type: u8,
    base: u64,
    rva: int,
    done: u32,
    control_rva: u32,
    end: u32,
    r: Registers,
) -> (Registers, Result<UnwindResult, FrameWalkError>) {
    match header(img, base, rva) {
        None => (r, Err(FrameWalkError::UnwindData)),
        Some(h) => match establisher(img, base, rva, h, done, r) {
            None => (r, Err(FrameWalkError::UnwindData)),
            Some(frame) => if done > h.size_of_prolog && h.count_of_codes != 0 && epilogue(
                img,
                stack,
                base,
                control_rva,
                end,
                r,
            ) is Some {
                (
                    epilogue(img, stack, base, control_rva, end, r)->0,
                    Ok(epilogue_report(handler_type, base, h, frame)),
                )
            } else {
                let (own, outcome) = undo_codes(img, stack, base, rva, h, Some(done), 0, false, r);
                match outcome {
                    Err(e) => (own, Err(e)),
                    Ok(machine_frame) => {
                        let (undone, chained) = if h.chains() {
                            match word(img, base, rva + h.tail() + 8) {
                                Some(info) => undo_chain(img, stack, base, info / 2 * 2, 1, own),
                                None => (own, Err(FrameWalkError::UnwindData)),
                            }
                        } else {
                            (own, Ok(()))
                        };
                        match chained {
                            Err(e) => (undone, Err(e)),
                            Ok(_) => if machine_frame {
                                (
                                    undone,
                                    handler_report(img, handler_type, base, rva, h, frame),
                                )
                            } else {
                                match stack.word_at(undone.rsp()) {
                                    Some(rip) => (
                                        undone.with_rip(rip).bump(8),
                                        handler_report(img, handler_type, base, rva, h, frame),
                                    ),
                                    None => (undone, Err(FrameWalkError::StackRead)),
                                }
                            },
                        }
                    },
                }
            },
        },
    }
}

/// The row that `f` leads to: rows may point at other rows, over at most 32 steps.
pub open spec fn resolve_row<I: ImageReader>(
    img: &I,
    base: u64,
    f: RuntimeFunction,
    steps: int,
) -> Option<RuntimeFunction>
    decreases 33 - steps,
{
    if f.unwind_info % 2 == 0 {
        Some(f)
    } else {
        let at = f.unwind_info - 1;
        match (word(img, base, at), word(img, base, at + 4), word(img, base, at + 8)) {
            (Some(begin), Some(end), Some(info)) => if steps >= 32 {
                None
            } else {
                resolve_row(
                    img,
                    base,
                    RuntimeFunction {
                        begin: begin as u32,
                        end: end as u32,
                        unwind_info: info as u32,
                    },
                    steps + 1,
                )
            },
            _ => None,
        }
    }
}

/// What unwinding the frame of an instruction that `f` covers does.
#[verifier::opaque]
pub open spec fn virtual_unwind_of<I: ImageReader, S: StackReader>(
    img: &I,
    stack: &S,
    handler_type: u8,
    base: u64,
    control_pc: u64,
    f: RuntimeFunction,
    r: Registers,
) -> (Registers, Result<UnwindResult, FrameWalkError>) {
    let control_rva = control_pc - base;
    if !(0 <= control_rva <= u32::MAX) || !f.holds(control_rva as u32) {
        (r, Err(FrameWalkError::UnwindData))
    } else {
        match resolve_row(img, base, f, 0) {
            None => (r, Err(FrameWalkError::UnwindData)),
            Some(row) => unwind_frame(
                img,
                stack,
                handler_type,
                base,
                row.unwind_info as int,
                ((control_rva - row.begin) % 0x1_0000_0000) as u32,
                control_rva as u32,
                f.end,
                r,
            ),
        }
    }
}

/// Whether unwind information names a handler of the kind that was asked for.
fn has_asked_handler(handler_type: HandlerType, frame: &UnwindInfoHeader) -> (r: bool)
    ensures
        r == names_asked_handler(handler_type, *frame),
{
    handler_type != 0 && frame.has_handler() && !frame.is_chained() && (frame.flags & handler_type)
        != 0
}

/// The handler of the unwind information, where it was asked for.
fn collect_handler<I: ImageReader>(
    handler_type: HandlerType,
    image_base: u64,
    frame: &UnwindInfoHeader,
    unwind_rva: u32,
    establisher_frame: u64,
    img: &I,
) -> (r: Result<UnwindResult, FrameWalkError>)
    ensures
        r == handler_report(
            img,
            handler_type,
            image_base,
            unwind_rva as int,
            *frame,
            establisher_frame,
        ),
{
    if has_asked_handler(handler_type, frame) {
        let tail: u64 = unwind_rva as u64 + frame.tail_offset() as u64;
        match read_word(img, image_base, tail) {
            Some(handler_rva) => Ok(
                UnwindResult {
                    image_base,
                    handler_rva,
                    handler_data_rva: ((tail + 4) % 0x1_0000_0000) as u32,
                    establisher_frame,
                },
            ),
            None => Err(FrameWalkError::UnwindData),
        }
    } else {
        Ok(nothing_reported())
    }
}

/// What is reported where there is no handler of the kind that was asked for.
fn nothing_reported() -> (r: UnwindResult)
    ensures
        r == no_handler(),
{
    UnwindResult { image_base: 0, handler_rva: 0, handler_data_rva: 0, establisher_frame: 0 }
}

/// Unwind a frame with the unwind information at `unwind_rva`.
fn unwind_one<I: ImageReader, S: StackReader>(
    handler_type: HandlerType,
    image_base: u64,
    unwind_rva: u32,
    prologue_offset: u32,
    ctx: &mut Context,
    img: &I,
    stack: &S,
    control_rva: u32,
    function_end_rva: u32,
) -> (r: Result<UnwindResult, FrameWalkError>)
    ensures
        (final(ctx)@, r) == unwind_frame(
            img,
            stack,
            handler_type,
            image_base,
            unwind_rva as int,
            prologue_offset,
            control_rva,
            function_end_rva,
            old(ctx)@,
        ),
{
    reveal(unwind_frame);
    let frame: UnwindInfoHeader = match read_header(img, image_base, unwind_rva as u64) {
        Some(frame) => frame,
        None => return Err(FrameWalkError::UnwindData),
    };
    let establisher_frame: u64 = match compute_establisher_frame(
        &frame,
        image_base,
        unwind_rva,
        prologue_offset,
        ctx,
        img,
    ) {
        Some(value) => value,
        None => return Err(FrameWalkError::UnwindData),
    };
    if prologue_offset > frame.size_of_prolog as u32 && frame.count_of_codes != 0
        && try_unwind_epilogue(image_base, control_rva, function_end_rva, ctx, img, stack) {
        if has_asked_handler(handler_type, &frame) {
            return Ok(
                UnwindResult { image_base, handler_rva: 0, handler_data_rva: 0, establisher_frame },
            );
        }
        return Ok(nothing_reported());
    }
    let machine_frame: bool = match apply_codes(
        image_base,
        unwind_rva,
        &frame,
        Some(prologue_offset),
        ctx,
        img,
        stack,
    ) {
        Ok(machine_frame) => machine_frame,
        Err(e) => return Err(e),
    };
    if frame.is_chained() {
        let tail: u64 = unwind_rva as u64 + frame.tail_offset() as u64;
        let info: u32 = match read_word(img, image_base, tail + 8) {
            Some(info) => info,
            None => return Err(FrameWalkError::UnwindData),
        };
        match apply_chained_codes(image_base, info / 2 * 2, ctx, img, stack, 1) {
            Ok(_) => {},
            Err(e) => return Err(e),
        }
    }
    if !machine_frame {
        match stack.read_u64(ctx.rsp()) {
            Some(rip) => {
                ctx.set_rip(rip);
                ctx.bump(8);
            },
            None => return Err(FrameWalkError::StackRead),
        }
    }
    collect_handler(handler_type, image_base, &frame, unwind_rva, establisher_frame, img)
}

/// The row that `func` leads to.
fn resolve_chained_row<I: ImageReader>(img: &I, image_base: u64, func: RuntimeFunction) -> (r: Option<
    RuntimeFunction,
>)
    ensures
        r == resolve_row(img, image_base, func, 0),
        r matches Some(row) ==> row.unwind_info % 2 == 0,
{
    let mut row: RuntimeFunction = func;
    let mut steps: u32 = 0;
    while row.is_chained_ptr()
        invariant
            steps <= 32,
            resolve_row(img, image_base, func, 0) == resolve_row(
                img,
                image_base,
                row,
                steps as int,
            ),
        decreases 33 - steps,
    {
        let at: u64 = row.unwind_info as u64 - 1;
        let begin: u32 = match read_word(img, image_base, at) {
            Some(v) => v,
            None => return None,
        };
        let end: u32 = match read_word(img, image_base, at + 4) {
            Some(v) => v,
            None => return None,
        };
        let unwind_info: u32 = match read_word(img, image_base, at + 8) {
            Some(v) => v,
            None => return None,
        };
        if steps >= 32 {
            return None;
        }
        row = RuntimeFunction { begin, end, unwind_info };
        steps += 1;
    }
    Some(row)
}

/// Unwind exactly one frame, or tell why that cannot be done.
fn unwind_covered<I: ImageReader, S: StackReader>(
    handler_type: HandlerType,
    image_base: u64,
    control_pc: u64,
    func: RuntimeFunction,
    ctx: &mut Context,
    img: &I,
    stack: &S,
) -> (r: Result<UnwindResult, FrameWalkError>)
    ensures
        (final(ctx)@, r) == virtual_unwind_of(
            img,
            stack,
            handler_type,
            image_base,
            control_pc,
            func,
            old(ctx)@,
        ),
{
    reveal(virtual_unwind_of);
    if control_pc < image_base || control_pc - image_base > 0xffff_ffff {
        return Err(FrameWalkError::UnwindData);
    }
    let control_rva: u32 = (control_pc - image_base) as u32;
    if !func.covers(control_rva) {
        return Err(FrameWalkError::UnwindData);
    }
    let row: RuntimeFunction = match resolve_chained_row(img, image_base, func) {
        Some(row) => row,
        None => return Err(FrameWalkError::UnwindData),
    };
    let done: u32 = ((control_rva as u64 + 0x1_0000_0000 - row.begin as u64) % 0x1_0000_0000) as u32;
    assert(done == ((control_pc - image_base - row.begin) % 0x1_0000_0000) as u32);
    unwind_one(
        handler_type,
        image_base,
        row.unwind_info,
        done,
        ctx,
        img,
        stack,
        control_rva,
        func.end,
    )
}

/// Unwind exactly one frame: restore the registers of the caller, and report the handler that
/// `handler_type` asks for. In an epilogue only its image and its frame are reported. Where the
/// function has no such handler, nothing is reported: all fields are zero. `None` reports unwind data or a stack that cannot be read, and unwind data that
/// makes no sense.
pub fn virtual_unwind<I: ImageReader, S: StackReader>(
    handler_type: HandlerType,
    image_base: u64,
    control_pc: u64,
    func: RuntimeFunction,
    ctx: &mut Context,
    img: &I,
    stack: &S,
) -> (r: Option<UnwindResult>)
    ensures
        ({
            let (registers, outcome) = virtual_unwind_of(
                img,
                stack,
                handler_type,
                image_base,
                control_pc,
                func,
                old(ctx)@,
            );
            &&& final(ctx)@ == registers
            &&& r == match outcome {
                Ok(report) => Some(report),
                Err(_) => None,
            }
        }),
{
    match unwind_covered(handler_type, image_base, control_pc, func, ctx, img, stack) {
        Ok(report) => Some(report),
        Err(_) => None,
    }
}

/// Codes of instructions that have not executed yet change no register.
pub proof fn unexecuted_codes_change_nothing<I: ImageReader, S: StackReader>(
    img: &I,
    stack: &S,
    base: u64,
    rva: int,
    frame: UnwindInfoHeader,
    done: u32,
    i: int,
    machine_frame: bool,
    r: Registers,
)
    requires
        forall|j: int|
            0 <= j < frame.count_of_codes ==> match #[trigger] byte(img, base, slot_at(rva, j)) {
                Some(position) => position > done,
                None => true,
            },
        0 <= i,
    ensures
        undo_codes(img, stack, base, rva, frame, Some(done), i, machine_frame, r).0 == r,
    decreases frame.count_of_codes + 3 - i,
{
    if i < frame.count_of_codes {
        let (next, outcome) = undo_slot(img, stack, base, rva, frame, Some(done), i, r);
        assert(match byte(img, base, slot_at(rva, i)) {
            Some(position) => position > done,
            None => true,
        });
        if let Ok((slots, m)) = outcome {
            unexecuted_codes_change_nothing(
                img,
                stack,
                base,
                rva,
                frame,
                done,
                i + slots,
                machine_frame || m,
                next,
            );
        }
    }
}

// ---------------------------------------------------------------------------------------------
// Walking frames
// ---------------------------------------------------------------------------------------------

/// Lowest user-mode instruction address.
pub const USER_ADDRESS_LOW: u64 = 0x0000_0000_0001_0000;

/// Highest user-mode instruction address.
pub const USER_ADDRESS_HIGH: u64 = 0x0000_07ff_fffe_ffff;

/// Why walking frames failed.
#[derive(Copy, Clone, Debug, PartialEq, Eq, Structural)]
pub enum FrameWalkError {
    /// The stack range is empty or inverted.
    InvalidStackBounds,
    /// The number of frames is out of range.
    CountOverflow,
    /// A word that a leaf function or an unwind code needs is outside the stack or cannot be read.
    StackRead,
    /// The unwind data of a function cannot be read or makes no sense.
    UnwindData,
}

/// A stack of which only the aligned words of a range are read.
pub struct BoundedStack<'a, S: StackReader> {
    pub inner: &'a S,
    pub low: u64,
    pub high: u64,
}

impl<'a, S: StackReader> StackReader for BoundedStack<'a, S> {
    open spec fn word_at(&self, addr: u64) -> Option<u64> {
        if self.low <= addr && addr + 8 <= self.high && addr % 8 == 0 {
            self.inner.word_at(addr)
        } else {
            None
        }
    }

    fn read_u64(&self, addr: u64) -> Option<u64> {
        if addr < self.low || self.high < 8 || addr > self.high - 8 || addr % 8 != 0 {
            None
        } else {
            self.inner.read_u64(addr)
        }
    }
}

/// The registers of the caller of the frame that `r` stands in. A leaf function has only pushed
/// its return address.
pub open spec fn caller_of<I: ImageReader, S: StackReader>(img: &I, stack: &S, r: Registers) -> Result<
    Registers,
    FrameWalkError,
> {
    match img.function_at(r.rip) {
        Some((base, f)) => {
            let (next, outcome) = virtual_unwind_of(img, stack, 0, base, r.rip, f, r);
            match outcome {
                Ok(_) => Ok(next),
                Err(e) => Err(e),
            }
        },
        None => match stack.word_at(r.rsp()) {
            Some(rip) => Ok(r.with_rip(rip).bump(8)),
            None => Err(FrameWalkError::StackRead),
        },
    }
}

/// Whether registers stand in a user-mode frame on the stack.
pub open spec fn in_user_frame(r: Registers, low: u64, high: u64) -> bool {
    &&& USER_ADDRESS_LOW <= r.rip <= USER_ADDRESS_HIGH
    &&& low < r.rsp() < high
}

/// What walking frames gives from frame `index` on: how many frames were walked, and the addresses
/// that were noted in `out`. The first `skip` frames are walked and not noted.
pub open spec fn walk_from<I: ImageReader, S: StackReader>(
    img: &I,
    stack: &S,
    low: u64,
    high: u64,
    skip: int,
    total: int,
    index: int,
    r: Registers,
    out: Seq<u64>,
) -> (Result<int, FrameWalkError>, Seq<u64>)
    decreases total - index,
{
    if index >= total {
        (Ok(total), out)
    } else {
        match caller_of(img, stack, r) {
            Err(e) => (Err(e), out),
            Ok(next) => if !in_user_frame(next, low, high) {
                (Ok(index), out)
            } else {
                walk_from(
                    img,
                    stack,
                    low,
                    high,
                    skip,
                    total,
                    index + 1,
                    next,
                    if index >= skip {
                        out.update(index - skip, next.rip)
                    } else {
                        out
                    },
                )
            },
        }
    }
}

/// Unwind to the caller.
fn step_to_caller<I: ImageReader, S: StackReader>(context: &mut Context, image: &I, stack: &S) -> (r:
    Result<(), FrameWalkError>)
    ensures
        match r {
            Ok(_) => caller_of(image, stack, old(context)@) == Ok::<Registers, FrameWalkError>(
                final(context)@,
            ),
            Err(e) => caller_of(image, stack, old(context)@) == Err::<Registers, FrameWalkError>(e),
        },
{
    let control_pc: u64 = context.rip;
    match image.lookup_function(control_pc) {
        Some((image_base, function)) => {
            match unwind_covered(
                unw_flag::NHANDLER,
                image_base,
                control_pc,
                function,
                context,
                image,
                stack,
            ) {
                Ok(_) => Ok(()),
                Err(e) => Err(e),
            }
        },
        None => match stack.read_u64(context.rsp()) {
            Some(rip) => {
                context.set_rip(rip);
                context.bump(8);
                Ok(())
            },
            None => Err(FrameWalkError::StackRead),
        },
    }
}

/// Walk user-mode frames from captured registers. The first `frames_to_skip` return addresses are
/// passed over, the next ones are stored in `callers`. The count that is returned includes frames
/// that were passed over.
pub fn walk_frame_chain<I: ImageReader, S: StackReader>(
    context: Context,
    callers: &mut [u64],
    frames_to_skip: usize,
    stack_low: u64,
    stack_high: u64,
    image: &I,
    stack: &S,
) -> (r: Result<usize, FrameWalkError>)
    ensures
        final(callers)@.len() == old(callers)@.len(),
        stack_low >= stack_high ==> r == Err::<usize, _>(FrameWalkError::InvalidStackBounds)
            && final(callers)@ == old(callers)@,
        stack_low < stack_high && frames_to_skip + old(callers)@.len() > usize::MAX ==> r == Err::<
            usize,
            _,
        >(FrameWalkError::CountOverflow) && final(callers)@ == old(callers)@,
        stack_low < stack_high && frames_to_skip + old(callers)@.len() <= usize::MAX ==> {
            let (outcome, out) = walk_from(
                image,
                &(BoundedStack { inner: stack, low: stack_low, high: stack_high }),
                stack_low,
                stack_high,
                frames_to_skip as int,
                frames_to_skip + old(callers)@.len(),
                0,
                context@,
                old(callers)@,
            );
            &&& final(callers)@ == out
            &&& match r {
                Ok(count) => outcome == Ok::<int, FrameWalkError>(count as int),
                Err(e) => outcome == Err::<int, FrameWalkError>(e),
            }
        },
{
    if stack_low >= stack_high {
        return Err(FrameWalkError::InvalidStackBounds);
    }
    if callers.len() > usize::MAX - frames_to_skip {
        return Err(FrameWalkError::CountOverflow);
    }
    let total: usize = frames_to_skip + callers.len();
    let bounded = BoundedStack { inner: stack, low: stack_low, high: stack_high };
    let mut ctx: Context = context;
    let ghost goal = walk_from(
        image,
        &bounded,
        stack_low,
        stack_high,
        frames_to_skip as int,
        total as int,
        0,
        context@,
        callers@,
    );
    let mut index: usize = 0;
    while index < total
        invariant
            index <= total,
            total == frames_to_skip + callers@.len(),
            callers@.len() == old(callers)@.len(),
            stack_low < stack_high,
            bounded == (BoundedStack { inner: stack, low: stack_low, high: stack_high }),
            goal == walk_from(
                image,
                &(BoundedStack { inner: stack, low: stack_low, high: stack_high }),
                stack_low,
                stack_high,
                frames_to_skip as int,
                frames_to_skip + old(callers)@.len(),
                0,
                context@,
                old(callers)@,
            ),
            goal == walk_from(
                image,
                &bounded,
                stack_low,
                stack_high,
                frames_to_skip as int,
                total as int,
                index as int,
                ctx@,
                callers@,
            ),
        decreases total - index,
    {
        match step_to_caller(&mut ctx, image, &bounded) {
            Ok(_) => {},
            Err(e) => return Err(e),
        }
        let rsp: u64 = ctx.rsp();
        if ctx.rip < USER_ADDRESS_LOW || ctx.rip > USER_ADDRESS_HIGH || rsp <= stack_low
            || rsp >= stack_high {
            return Ok(index);
        }
        if index >= frames_to_skip {
            callers[index - frames_to_skip] = ctx.rip;
        }
        index += 1;
    }
    Ok(total)
}

/// The frames to skip and to walk for a back trace, the own frame included. Requests for 128 or
/// more frames are rejected.
pub fn stack_back_trace_request(frames_to_skip: u32, frames_to_capture: u32) -> (r: Option<
    (usize, usize),
>)
    ensures
        match r {
            Some((skip, total)) => skip == frames_to_skip + 1 && total == skip + frames_to_capture
                && total < 128,
            None => frames_to_skip + 1 + frames_to_capture >= 128,
        },
{
    if frames_to_skip >= 128 || frames_to_capture >= 128 {
        return None;
    }
    let skip: usize = frames_to_skip as usize + 1;
    let total: usize = skip + frames_to_capture as usize;
    if total < 128 {
        Some((skip, total))
    } else {
        None
    }
}

/// The sum of addresses, modulo 2^32.
pub open spec fn address_hash(addresses: Seq<u64>) -> int
    decreases addresses.len(),
{
    if addresses.len() == 0 {
        0
    } else {
        (address_hash(addresses.drop_last()) + addresses.last()) % 0x1_0000_0000
    }
}

/// Copy the frames behind the skipped ones, and hash them. `None` when no frame is left.
pub fn project_stack_back_trace(
    frames: &[u64],
    frames_to_skip: usize,
    back_trace: &mut [u64],
) -> (r: Option<(usize, u32)>)
    ensures
        frames@.len() <= frames_to_skip ==> r is None && final(back_trace)@ == old(back_trace)@,
        frames@.len() > frames_to_skip ==> {
            let left = frames@.len() - frames_to_skip;
            let count = if left < old(back_trace)@.len() {
                left
            } else {
                old(back_trace)@.len() as int
            };
            let kept = frames@.subrange(frames_to_skip as int, frames_to_skip + count);
            &&& final(back_trace)@ == kept + old(back_trace)@.subrange(
                count,
                old(back_trace)@.len() as int,
            )
            &&& r matches Some((n, hash)) && n == count && hash == address_hash(kept)
        },
{
    if frames.len() <= frames_to_skip {
        return None;
    }
    let left: usize = frames.len() - frames_to_skip;
    let count: usize = if left < back_trace.len() {
        left
    } else {
        back_trace.len()
    };
    let ghost kept = frames@.subrange(frames_to_skip as int, frames_to_skip + count);
    let mut hash: u32 = 0;
    let mut i: usize = 0;
    while i < count
        invariant
            i <= count <= back_trace@.len(),
            back_trace@.len() == old(back_trace)@.len(),
            frames_to_skip + count <= frames@.len(),
            frames@.len() <= usize::MAX,
            kept == frames@.subrange(frames_to_skip as int, frames_to_skip + count),
            forall|j: int| 0 <= j < i ==> back_trace@[j] == kept[j],
            forall|j: int| i <= j < back_trace@.len() ==> back_trace@[j] == old(back_trace)@[j],
            hash == address_hash(kept.take(i as int)),
        decreases count - i,
    {
        let address: u64 = frames[frames_to_skip + i];
        back_trace[i] = address;
        hash = ((hash as u64 + address % 0x1_0000_0000) % 0x1_0000_0000) as u32;
        assert(kept.take(i + 1).drop_last() =~= kept.take(i as int));
        i += 1;
    }
    assert(kept.take(i as int) =~= kept);
    assert(back_trace@ =~= kept + old(back_trace)@.subrange(
        count as int,
        old(back_trace)@.len() as int,
    ));
    Some((count, hash))
}

/// The caller and the caller's caller, of the frames of a walk over four.
pub fn callers_addresses(frames: &[u64; 4], frame_count: usize) -> (r: (u64, u64))
    ensures
        r.0 == if frame_count >= 3 {
            frames@[2]
        } else {
            0
        },
        r.1 == if frame_count == 4 {
            frames@[3]
        } else {
            0
        },
{
    let first: u64 = if frame_count >= 3 {
        frames[2]
    } else {
        0
    };
    let second: u64 = if frame_count == 4 {
        frames[3]
    } else {
        0
    };
    (first, second)
}

// ---------------------------------------------------------------------------------------------
// Scope tables
// ---------------------------------------------------------------------------------------------

/// A guarded region: a filter and the body to run, or a termination routine.
#[derive(Copy, Clone, Debug, PartialEq, Eq, Structural)]
pub struct ScopeRecord {
    /// Where the guarded region starts.
    pub begin: u32,
    /// One past the guarded region.
    pub end: u32,
    /// The filter, or one to run the body without a filter, or the termination routine.
    pub handler: u32,
    /// The body to run; zero for a termination routine.
    pub target: u32,
}

impl ScopeRecord {
    /// Whether the region guards an instruction.
    pub open spec fn guards(self, pc: u32) -> bool {
        self.begin <= pc < self.end
    }

    /// Whether the region guards an instruction and has a body to run.
    pub open spec fn catches(self, pc: u32) -> bool {
        self.guards(pc) && self.target != 0
    }
}

/// Run the body without a filter.
pub const SCOPE_HANDLER_EXECUTE: u32 = 1;

/// What a filter says: run the body.
pub const EXCEPTION_EXECUTE_HANDLER: i32 = 1;

/// What a filter says: look further.
pub const EXCEPTION_CONTINUE_SEARCH: i32 = 0;

/// What a filter says: resume.
pub const EXCEPTION_CONTINUE_EXECUTION: i32 = -1;

/// What a search through a scope table decides.
#[derive(Clone, Copy, Debug, PartialEq, Eq, Structural)]
pub enum CHandlerAction {
    /// No region claimed the exception.
    ContinueSearch,
    /// Run the body of a region.
    ExecuteHandler {
        /// The body.
        target_rva: u32,
        /// The region.
        scope_index: usize,
    },
    /// Resume the faulting instruction.
    ContinueExecution,
}

/// Whether region `s` may have answered `verdict`: a region without a filter runs its body, another
/// answers what its filter returns.
pub open spec fn verdict_of<F: FnMut(u32) -> i32>(run_filter: F, s: ScopeRecord, verdict: i32) -> bool {
    if s.handler == SCOPE_HANDLER_EXECUTE {
        verdict == EXCEPTION_EXECUTE_HANDLER
    } else {
        call_ensures(run_filter, (s.handler,), verdict)
    }
}

/// Whether region `s` passed the exception on: it does not catch it, or its filter declined.
pub open spec fn passed_on<F: FnMut(u32) -> i32>(run_filter: F, s: ScopeRecord, pc: u32) -> bool {
    s.catches(pc) ==> exists|v: i32| #[trigger]
        verdict_of(run_filter, s, v) && v != EXCEPTION_EXECUTE_HANDLER && v
            != EXCEPTION_CONTINUE_EXECUTION
}

/// Whether the filter of region `i` is run: the region catches the exception, has a filter, and all
/// regions in front of it passed the exception on.
pub open spec fn asks<F: FnMut(u32) -> i32>(run_filter: F, scopes: Seq<ScopeRecord>, pc: u32, i: int) -> bool {
    &&& 0 <= i < scopes.len()
    &&& scopes[i].catches(pc)
    &&& scopes[i].handler != SCOPE_HANDLER_EXECUTE
    &&& forall|j: int| 0 <= j < i ==> passed_on(run_filter, #[trigger] scopes[j], pc)
}

/// Search a scope table for the region that handles an exception at `pc_rva`. Regions are asked in
/// order; termination routines are passed over. A filter is run only for a region that guards the
/// address, and only where the regions in front of it passed the exception on.
pub fn c_specific_handler_search<F: FnMut(u32) -> i32>(
    pc_rva: u32,
    scopes: &[ScopeRecord],
    run_filter: F,
) -> (action: CHandlerAction)
    requires
        forall|i: int| #[trigger]
            asks(run_filter, scopes@, pc_rva, i) ==> call_requires(
                run_filter,
                (scopes@[i].handler,),
            ),
    ensures
        match action {
            CHandlerAction::ContinueSearch => forall|i: int|
                0 <= i < scopes@.len() ==> passed_on(run_filter, #[trigger] scopes@[i], pc_rva),
            CHandlerAction::ExecuteHandler { target_rva, scope_index } => {
                &&& scope_index < scopes@.len()
                &&& scopes@[scope_index as int].catches(pc_rva)
                &&& scopes@[scope_index as int].target == target_rva
                &&& verdict_of(
                    run_filter,
                    scopes@[scope_index as int],
                    EXCEPTION_EXECUTE_HANDLER,
                )
                &&& forall|i: int|
                    0 <= i < scope_index ==> passed_on(run_filter, #[trigger] scopes@[i], pc_rva)
            },
            CHandlerAction::ContinueExecution => exists|k: int|
                {
                    &&& 0 <= k < scopes@.len()
                    &&& (#[trigger] scopes@[k]).catches(pc_rva)
                    &&& verdict_of(run_filter, scopes@[k], EXCEPTION_CONTINUE_EXECUTION)
                    &&& forall|i: int|
                        0 <= i < k ==> passed_on(run_filter, #[trigger] scopes@[i], pc_rva)
                },
        },
{
    let mut filter: F = run_filter;
    let mut i: usize = 0;
    while i < scopes.len()
        invariant
            i <= scopes@.len(),
            filter == run_filter,
            forall|i: int| #[trigger]
                asks(run_filter, scopes@, pc_rva, i) ==> call_requires(
                    run_filter,
                    (scopes@[i].handler,),
                ),
            forall|j: int| 0 <= j < i ==> passed_on(run_filter, #[trigger] scopes@[j], pc_rva),
        decreases scopes@.len() - i,
    {
        let s: ScopeRecord = scopes[i];
        if s.begin <= pc_rva && pc_rva < s.end && s.target != 0 {
            let verdict: i32 = if s.handler == SCOPE_HANDLER_EXECUTE {
                EXCEPTION_EXECUTE_HANDLER
            } else {
                assert(asks(run_filter, scopes@, pc_rva, i as int));
                filter(s.handler)
            };
            assert(verdict_of(run_filter, s, verdict));
            if verdict == EXCEPTION_EXECUTE_HANDLER {
                return CHandlerAction::ExecuteHandler { target_rva: s.target, scope_index: i };
            }
            if verdict == EXCEPTION_CONTINUE_EXECUTION {
                assert(scopes@[i as int].catches(pc_rva));
                return CHandlerAction::ContinueExecution;
            }
        }
        i += 1;
    }
    CHandlerAction::ContinueSearch
}

/// The termination routines of the regions that guard `pc`, in order.
pub open spec fn finally_routines(pc: u32, scopes: Seq<ScopeRecord>) -> Seq<u32>
    decreases scopes.len(),
{
    if scopes.len() == 0 {
        Seq::empty()
    } else {
        let before = finally_routines(pc, scopes.drop_last());
        if scopes.last().guards(pc) && scopes.last().target == 0 {
            before.push(scopes.last().handler)
        } else {
            before
        }
    }
}

/// The termination routines to run when unwinding out of `pc_rva`.
pub fn c_specific_handler_unwind(pc_rva: u32, scopes: &[ScopeRecord]) -> (routines: Vec<u32>)
    ensures
        routines@ == finally_routines(pc_rva, scopes@),
{
    let mut routines: Vec<u32> = Vec::new();
    let mut i: usize = 0;
    while i < scopes.len()
        invariant
            i <= scopes@.len(),
            routines@ == finally_routines(pc_rva, scopes@.take(i as int)),
        decreases scopes@.len() - i,
    {
        let s: ScopeRecord = scopes[i];
        assert(scopes@.take(i + 1).drop_last() =~= scopes@.take(i as int));
        if s.begin <= pc_rva && pc_rva < s.end && s.target == 0 {
            routines.push(s.handler);
        }
        i += 1;
    }
    assert(scopes@.take(i as int) =~= scopes@);
    routines
}

// ---------------------------------------------------------------------------------------------
// Dispatch
// ---------------------------------------------------------------------------------------------

/// A frame and what its language handler answers.
#[derive(Copy, Clone, Debug)]
pub struct FrameModel {
    /// The frame's instruction.
    pub control_pc: u64,
    /// The handler's verdict, where the frame has a handler.
    pub handler: Option<Disposition>,
}

/// The outcome of a dispatch.
#[derive(Clone, Copy, Debug, PartialEq, Eq, Structural)]
pub enum DispatchResult {
    /// The handler of a frame resumes the thread.
    Handled { frame: usize },
    /// No handler claimed the exception.
    Unhandled,
    /// A handler resumes an exception that cannot be continued.
    Noncontinuable,
}

/// Whether frame `i` is the first whose handler resumes.
pub open spec fn first_to_resume(frames: Seq<FrameModel>, i: int) -> bool {
    &&& 0 <= i < frames.len()
    &&& frames[i].handler == Some(Disposition::ContinueExecution)
    &&& forall|j: int|
        0 <= j < i ==> (#[trigger] frames[j]).handler != Some(Disposition::ContinueExecution)
}

/// Ask the handlers of the frames in order until one resumes.
pub fn dispatch_exception(record: &ExceptionRecord, frames: &[FrameModel]) -> (r: DispatchResult)
    ensures
        match r {
            DispatchResult::Handled { frame } => first_to_resume(frames@, frame as int)
                && record.flags % 2 == 0,
            DispatchResult::Noncontinuable => record.flags % 2 == 1 && exists|i: int|
                first_to_resume(frames@, i),
            DispatchResult::Unhandled => forall|i: int|
                0 <= i < frames@.len() ==> (#[trigger] frames@[i]).handler != Some(
                    Disposition::ContinueExecution,
                ),
        },
{
    let mut i: usize = 0;
    while i < frames.len()
        invariant
            i <= frames@.len(),
            forall|j: int|
                0 <= j < i ==> (#[trigger] frames@[j]).handler != Some(
                    Disposition::ContinueExecution,
                ),
        decreases frames@.len() - i,
    {
        match frames[i].handler {
            Some(disposition) => {
                if disposition == Disposition::ContinueExecution {
                    assert(first_to_resume(frames@, i as int));
                    if record.flags % 2 == 1 {
                        return DispatchResult::Noncontinuable;
                    }
                    return DispatchResult::Handled { frame: i };
                }
            },
            None => {},
        }
        i += 1;
    }
    DispatchResult::Unhandled
}

/// The frames below `n` that have a handler, in order.
pub open spec fn handled_frames(frames: Seq<FrameModel>, n: int) -> Seq<usize>
    decreases n,
{
    if n <= 0 {
        Seq::empty()
    } else if frames[n - 1].handler is Some {
        handled_frames(frames, n - 1).push((n - 1) as usize)
    } else {
        handled_frames(frames, n - 1)
    }
}

/// The frames whose handlers run when unwinding to `target_frame`.
pub fn unwind(frames: &[FrameModel], target_frame: usize) -> (unwound: Vec<usize>)
    ensures
        unwound@ == handled_frames(
            frames@,
            if target_frame < frames@.len() {
                target_frame as int
            } else {
                frames@.len() as int
            },
        ),
{
    let mut unwound: Vec<usize> = Vec::new();
    let end: usize = if target_frame < frames.len() {
        target_frame
    } else {
        frames.len()
    };
    let mut i: usize = 0;
    while i < end
        invariant
            i <= end <= frames@.len(),
            unwound@ == handled_frames(frames@, i as int),
        decreases end - i,
    {
        if frames[i].handler.is_some() {
            unwound.push(i);
        }
        i += 1;
    }
    unwound
}

/// The exception that the deadlock detector raises.
pub const STATUS_POSSIBLE_DEADLOCK: u32 = 0xC000_0194;

/// The top-level filter: a possible deadlock is dismissed, everything else is passed on.
pub fn unhandled_exception_filter(exception_code: u32) -> (verdict: i32)
    ensures
        verdict == if exception_code == STATUS_POSSIBLE_DEADLOCK {
            EXCEPTION_CONTINUE_EXECUTION
        } else {
            EXCEPTION_CONTINUE_SEARCH
        },
{
    if exception_code == STATUS_POSSIBLE_DEADLOCK {
        EXCEPTION_CONTINUE_EXECUTION
    } else {
        EXCEPTION_CONTINUE_SEARCH
    }
}

} // verus!
