//! An early bump allocator over one memory range: bytes are handed out forward from
//! the start, pages backward from the end.
//!
//! ```text
//! [ bytes-used | avail-area | pages-used ]
//! |            | -->    <-- |            |
//! start       b_pos        p_pos       end
//! ```
//!
//! The byte area counts its live allocations and is emptied when the count drops to
//! zero; pages are never given back.

use vstd::prelude::*;

verus! {

/// `a` is a power of two.
pub open spec fn is_power_of_two(a: usize) -> bool {
    a != 0 && a & ((a - 1) as usize) == 0
}

proof fn lemma_mask_halve_step(x: usize, a: usize)
    by (bit_vector)
    requires
        a != 0,
        a != 1,
        a & ((a - 1) as usize) == 0,
    ensures
        x & !((a - 1) as usize) == 2 * ((x >> 1) & !(((a >> 1) - 1) as usize)),
        (a >> 1) != 0,
        (a >> 1) & (((a >> 1) - 1) as usize) == 0,
        a >> 1 == a / 2,
        x >> 1 == x / 2,
        a % 2 == 0,
{
}

proof fn lemma_mask_one(x: usize)
    by (bit_vector)
    ensures
        x & !((1usize - 1) as usize) == x,
{
}

/// Clearing the bits below a power of two `a` rounds down to a multiple of `a`.
pub(crate) proof fn lemma_mask_round_down(x: usize, a: usize)
    requires
        is_power_of_two(a),
    ensures
        x & !((a - 1) as usize) == (x / a) * a,
    decreases a,
{
    if a == 1 {
        lemma_mask_one(x);
    } else {
        lemma_mask_halve_step(x, a);
        let h = (a >> 1) as usize;
        lemma_mask_round_down((x >> 1) as usize, h);
        vstd::arithmetic::div_mod::lemma_div_denominator(x as int, 2, h as int);
        assert(2 * h == a);
        assert(2 * (((x / 2) / h) * h) == ((x / 2) / h) * a) by (nonlinear_arith)
            requires
                a == 2 * h,
        ;
    }
}


/// `x` rounded up to a multiple of `a`.
pub open spec fn align_up(x: int, a: int) -> int {
    ((x + a - 1) / a) * a
}

/// `x` rounded down to a multiple of `a`.
pub open spec fn align_down(x: int, a: int) -> int {
    (x / a) * a
}

/// The errors of an allocator.
#[derive(Clone, Copy, Debug, PartialEq, Eq, Structural)]
pub enum AllocError {
    /// An argument is invalid.
    InvalidParam,
    /// The memory added overlaps memory already managed.
    MemoryOverlap,
    /// Not enough memory is left.
    NoMemory,
    /// The memory given back was not allocated.
    NotAllocated,
}

/// The state of an early allocator.
#[derive(Clone, Copy, Debug, PartialEq, Eq, Structural)]
pub struct EarlyState {
    /// The first address of the range.
    pub start: usize,
    /// The length of the range in bytes.
    pub size: usize,
    /// The end of the byte area: the next byte allocation starts at or after it.
    pub bytes_pos: usize,
    /// The start of the page area: the next page allocation ends at or before it.
    pub pages_pos: usize,
    /// The number of byte allocations not yet given back.
    pub bytes_count: usize,
}

impl EarlyState {
    /// One past the last address of the range.
    pub open spec fn end(self) -> int {
        self.start + self.size
    }

    /// The byte area lies before the page area, both inside the range, and an empty byte
    /// count means an empty byte area.
    pub open spec fn wf(self) -> bool {
        &&& self.start <= self.bytes_pos <= self.pages_pos <= self.end() <= usize::MAX
        &&& self.bytes_count == 0 ==> self.bytes_pos == self.start
    }

    /// The state after `init(start, size)`.
    pub open spec fn init_spec(start: usize, size: usize) -> EarlyState {
        EarlyState {
            start,
            size,
            bytes_pos: start,
            pages_pos: (start + size) as usize,
            bytes_count: 0,
        }
    }

    /// Whether `alloc_bytes(size, align)` succeeds: the aligned block ends within the free
    /// area and does not start at address zero, which no pointer can hold.
    pub open spec fn alloc_fits(self, size: usize, align: usize) -> bool {
        &&& align_up(self.bytes_pos as int, align as int) != 0
        &&& align_up(self.bytes_pos as int, align as int) + size <= self.pages_pos
    }

    /// The state after a successful `alloc_bytes(size, align)`.
    pub open spec fn alloc_spec(self, size: usize, align: usize) -> EarlyState {
        EarlyState {
            bytes_pos: (align_up(self.bytes_pos as int, align as int) + size) as usize,
            bytes_count: (self.bytes_count + 1) as usize,
            ..self
        }
    }

    /// The state after `dealloc`: one allocation fewer, and an empty byte area once none
    /// is left.
    pub open spec fn dealloc_spec(self) -> EarlyState {
        let count = (self.bytes_count - 1) as usize;
        EarlyState {
            bytes_count: count,
            bytes_pos: if count == 0 {
                self.start
            } else {
                self.bytes_pos
            },
            ..self
        }
    }

    /// The address that `alloc_pages(num_pages, align_pow2)` picks with pages of
    /// `page_size` bytes: the start of the page area moved down by the block's length,
    /// with the bits below `align_pow2` cleared (for a power of two, rounded down to a
    /// multiple of it).
    pub open spec fn pages_target(self, num_pages: usize, align_pow2: usize, page_size: usize) -> int {
        (((self.pages_pos - num_pages * page_size) as usize) & !((align_pow2 - 1) as usize)) as int
    }

    /// Whether `alloc_pages` succeeds: the aligned block starts at or after the byte area.
    pub open spec fn pages_fit(self, num_pages: usize, align_pow2: usize, page_size: usize) -> bool {
        self.pages_target(num_pages, align_pow2, page_size) >= self.bytes_pos
    }
}

/// An early allocator of one memory range with pages of `SIZE` bytes.
pub struct EarlyAllocator<const SIZE: usize> {
    start: usize,
    size: usize,
    bytes_pos: usize,
    pages_pos: usize,
    bytes_count: usize,
}

impl<const SIZE: usize> View for EarlyAllocator<SIZE> {
    type V = EarlyState;

    closed spec fn view(&self) -> EarlyState {
        EarlyState {
            start: self.start,
            size: self.size,
            bytes_pos: self.bytes_pos,
            pages_pos: self.pages_pos,
            bytes_count: self.bytes_count,
        }
    }
}

impl<const SIZE: usize> EarlyAllocator<SIZE> {
    /// An allocator of the empty range at address zero.
    pub fn new() -> (a: Self)
        ensures
            a@ == (EarlyState { start: 0, size: 0, bytes_pos: 0, pages_pos: 0, bytes_count: 0 }),
            a@.wf(),
    {
        EarlyAllocator { start: 0, size: 0, bytes_pos: 0, pages_pos: 0, bytes_count: 0 }
    }

    /// Hands the allocator the range of `size` bytes at `start`, forgetting earlier state.
    pub fn init(&mut self, start: usize, size: usize)
        requires
            start + size <= usize::MAX,
        ensures
            final(self)@ == EarlyState::init_spec(start, size),
            final(self)@.wf(),
    {
        self.start = start;
        self.size = size;
        self.bytes_pos = start;
        self.pages_pos = start + size;
        self.bytes_count = 0;
    }

    /// Adding memory is not supported: always `NoMemory`, and nothing changes.
    pub fn add_memory(&mut self, start: usize, size: usize) -> (r: Result<(), AllocError>)
        ensures
            r == Err::<(), AllocError>(AllocError::NoMemory),
            final(self)@ == old(self)@,
    {
        Err(AllocError::NoMemory)
    }

    /// Allocates `size` bytes aligned to `align` from the front of the free area and
    /// returns their address.
    pub fn alloc_bytes(&mut self, size: usize, align: usize) -> (r: Result<usize, AllocError>)
        requires
            old(self)@.wf(),
            is_power_of_two(align),
            old(self)@.bytes_pos + align <= usize::MAX,
            align_up(old(self)@.bytes_pos as int, align as int) + size <= usize::MAX,
            old(self)@.alloc_fits(size, align) ==> old(self)@.bytes_count < usize::MAX,
        ensures
            final(self)@.wf(),
            old(self)@.alloc_fits(size, align) ==> r == Ok::<usize, AllocError>(
                align_up(old(self)@.bytes_pos as int, align as int) as usize,
            ) && final(self)@ == old(self)@.alloc_spec(size, align),
            r is Ok ==> r.unwrap() != 0 && r.unwrap() % align == 0 && old(self)@.bytes_pos <= r.unwrap()
                && r.unwrap() + size <= old(self)@.pages_pos,
            !old(self)@.alloc_fits(size, align) ==> r == Err::<usize, AllocError>(
                AllocError::NoMemory,
            ) && final(self)@ == old(self)@,
    {
        let bytes_pos_aligned: usize = (self.bytes_pos + align - 1) & !(align - 1);
        proof {
            lemma_mask_round_down((self.bytes_pos + align - 1) as usize, align);
        }
        let new_bytes_pos: usize = bytes_pos_aligned + size;
        if bytes_pos_aligned == 0 || new_bytes_pos > self.pages_pos {
            return Err(AllocError::NoMemory);
        }
        proof {
            lemma_align_up_bounds(self.bytes_pos as int, align as int);
        }
        let ptr: usize = bytes_pos_aligned;
        self.bytes_pos = new_bytes_pos;
        self.bytes_count = self.bytes_count + 1;
        Ok(ptr)
    }

    /// Gives back one byte allocation; when none is left the byte area is emptied.
    pub fn dealloc(&mut self, pos: usize, size: usize, align: usize)
        requires
            old(self)@.wf(),
            old(self)@.bytes_count > 0,
        ensures
            final(self)@ == old(self)@.dealloc_spec(),
            final(self)@.wf(),
    {
        self.bytes_count = self.bytes_count - 1;
        if self.bytes_count == 0 {
            self.bytes_pos = self.start;
        }
    }

    /// The allocator's state.
    pub fn state(&self) -> (s: EarlyState)
        ensures
            s == self@,
    {
        EarlyState {
            start: self.start,
            size: self.size,
            bytes_pos: self.bytes_pos,
            pages_pos: self.pages_pos,
            bytes_count: self.bytes_count,
        }
    }

    /// The length of the range.
    pub fn total_bytes(&self) -> (r: usize)
        ensures
            r == self@.size,
    {
        self.size
    }

    /// The length of the byte area.
    pub fn used_bytes(&self) -> (r: usize)
        requires
            self@.wf(),
        ensures
            r == self@.bytes_pos - self@.start,
    {
        self.bytes_pos - self.start
    }

    /// The length of the free area between the byte area and the page area.
    pub fn available_bytes(&self) -> (r: usize)
        requires
            self@.wf(),
        ensures
            r == self@.pages_pos - self@.bytes_pos,
    {
        self.pages_pos - self.bytes_pos
    }

    /// Allocates `num_pages` pages aligned to `align_pow2` from the back of the free area
    /// and returns their address.
    pub fn alloc_pages(&mut self, num_pages: usize, align_pow2: usize) -> (r: Result<usize, AllocError>)
        requires
            old(self)@.wf(),
            align_pow2 > 0,
            num_pages * SIZE <= old(self)@.pages_pos,
        ensures
            final(self)@.wf(),
            old(self)@.pages_fit(num_pages, align_pow2, SIZE) ==> r == Ok::<usize, AllocError>(
                old(self)@.pages_target(num_pages, align_pow2, SIZE) as usize,
            ) && final(self)@ == (EarlyState {
                pages_pos: old(self)@.pages_target(num_pages, align_pow2, SIZE) as usize,
                ..old(self)@
            }),
            r is Ok ==> old(self)@.bytes_pos <= r.unwrap() && r.unwrap() + num_pages * SIZE
                <= old(self)@.pages_pos,
            r is Ok && is_power_of_two(align_pow2) ==> r.unwrap() % align_pow2 == 0
                && r.unwrap() == align_down(
                old(self)@.pages_pos - num_pages * SIZE,
                align_pow2 as int,
            ),
            !old(self)@.pages_fit(num_pages, align_pow2, SIZE) ==> r == Err::<usize, AllocError>(
                AllocError::NoMemory,
            ) && final(self)@ == old(self)@,
    {
        let size: usize = num_pages * SIZE;
        let below: usize = self.pages_pos - size;
        let aligned_pos: usize = below & !(align_pow2 - 1);
        proof {
            lemma_pages_target(self@, num_pages, align_pow2, SIZE);
        }
        if aligned_pos < self.bytes_pos {
            return Err(AllocError::NoMemory);
        }
        self.pages_pos = aligned_pos;
        Ok(aligned_pos)
    }

    /// Pages are never given back: nothing changes.
    pub fn dealloc_pages(&mut self, pos: usize, num_pages: usize)
        ensures
            final(self)@ == old(self)@,
    {
    }

    /// The number of whole pages in the range.
    pub fn total_pages(&self) -> (r: usize)
        requires
            SIZE > 0,
        ensures
            r == self@.size as int / (SIZE as int),
    {
        self.size / SIZE
    }

    /// The number of whole pages in the page area.
    pub fn used_pages(&self) -> (r: usize)
        requires
            self@.wf(),
            SIZE > 0,
        ensures
            r == (self@.end() - self@.pages_pos) / (SIZE as int),
    {
        (self.start + self.size - self.pages_pos) / SIZE
    }

    /// The number of whole pages in the free area.
    pub fn available_pages(&self) -> (r: usize)
        requires
            self@.wf(),
            SIZE > 0,
        ensures
            r == (self@.pages_pos - self@.bytes_pos) / (SIZE as int),
    {
        (self.pages_pos - self.bytes_pos) / SIZE
    }
}


/// The byte area, the free area and the page area together make up the whole range.
pub proof fn lemma_areas_partition(s: EarlyState)
    requires
        s.wf(),
    ensures
        (s.bytes_pos - s.start) + (s.pages_pos - s.bytes_pos) + (s.end() - s.pages_pos) == s.size,
{
}

/// A byte block that fits starts aligned in the free area, ends inside it, and the byte
/// area then ends where the block ends.
pub proof fn lemma_alloc_block_in_free_area(s: EarlyState, size: usize, align: usize)
    requires
        s.wf(),
        is_power_of_two(align),
        s.bytes_pos + align <= usize::MAX,
        s.alloc_fits(size, align),
        s.bytes_count < usize::MAX,
    ensures
        ({
            let p = align_up(s.bytes_pos as int, align as int);
            &&& p % align as int == 0
            &&& s.bytes_pos <= p < s.bytes_pos + align
            &&& p + size <= s.pages_pos
            &&& s.alloc_spec(size, align).bytes_pos == p + size
            &&& s.alloc_spec(size, align).pages_pos == s.pages_pos
            &&& s.alloc_spec(size, align).wf()
        }),
{
    lemma_align_up_bounds(s.bytes_pos as int, align as int);
}

/// Two byte blocks handed out one after the other do not overlap: the second starts at
/// or after the end of the first.
pub proof fn lemma_successive_byte_blocks_disjoint(
    s: EarlyState,
    size1: usize,
    align1: usize,
    size2: usize,
    align2: usize,
)
    requires
        s.wf(),
        is_power_of_two(align1),
        is_power_of_two(align2),
        s.bytes_pos + align1 <= usize::MAX,
        s.alloc_fits(size1, align1),
        s.bytes_count < usize::MAX,
        s.alloc_spec(size1, align1).alloc_fits(size2, align2),
    ensures
        align_up(s.bytes_pos as int, align1 as int) + size1 <= align_up(
            s.alloc_spec(size1, align1).bytes_pos as int,
            align2 as int,
        ),
{
    lemma_align_up_bounds(s.bytes_pos as int, align1 as int);
    lemma_align_up_bounds(s.alloc_spec(size1, align1).bytes_pos as int, align2 as int);
}

/// The mask clears bits, so the address it picks never exceeds the unmasked one; for a
/// power of two it rounds down.
proof fn lemma_mask_le(x: usize, m: usize)
    by (bit_vector)
    ensures
        x & m <= x,
{
}

/// Where `alloc_pages` puts its block: at most the start of the page area less the
/// block's length, and for a power of two the multiple of it just below.
pub proof fn lemma_pages_target(s: EarlyState, num_pages: usize, align_pow2: usize, page_size: usize)
    requires
        align_pow2 > 0,
        num_pages * page_size <= s.pages_pos,
    ensures
        0 <= s.pages_target(num_pages, align_pow2, page_size) <= s.pages_pos - num_pages
            * page_size,
        is_power_of_two(align_pow2) ==> s.pages_target(num_pages, align_pow2, page_size)
            == align_down(s.pages_pos - num_pages * page_size, align_pow2 as int) && s.pages_target(
            num_pages,
            align_pow2,
            page_size,
        ) % align_pow2 as int == 0,
{
    let below = (s.pages_pos - num_pages * page_size) as usize;
    lemma_mask_le(below, !((align_pow2 - 1) as usize));
    if is_power_of_two(align_pow2) {
        lemma_mask_round_down(below, align_pow2);
        lemma_align_down_bounds(below as int, align_pow2 as int);
    }
}

/// A page block that fits starts at or after the byte area and ends at or before the old
/// start of the page area, which then starts where the block starts.
pub proof fn lemma_page_block_in_free_area(
    s: EarlyState,
    num_pages: usize,
    align_pow2: usize,
    page_size: usize,
)
    requires
        s.wf(),
        align_pow2 > 0,
        num_pages * page_size <= s.pages_pos,
        s.pages_fit(num_pages, align_pow2, page_size),
    ensures
        ({
            let q = s.pages_target(num_pages, align_pow2, page_size);
            &&& is_power_of_two(align_pow2) ==> q % align_pow2 as int == 0
            &&& s.bytes_pos <= q
            &&& q + num_pages * page_size <= s.pages_pos
            &&& (EarlyState { pages_pos: q as usize, ..s }).wf()
        }),
{
    lemma_pages_target(s, num_pages, align_pow2, page_size);
}

/// The live-allocation count: a successful byte allocation adds exactly one, a
/// deallocation takes exactly one away, and the byte area is emptied exactly when the count
/// reaches zero, so it stays while any byte block has not been given back.
pub proof fn lemma_byte_count(s: EarlyState, size: usize, align: usize)
    requires
        s.wf(),
    ensures
        s.alloc_fits(size, align) && s.bytes_count < usize::MAX ==> s.alloc_spec(
            size,
            align,
        ).bytes_count == s.bytes_count + 1 && s.alloc_spec(size, align).bytes_pos >= s.bytes_pos,
        s.bytes_count > 0 ==> s.dealloc_spec().bytes_count == s.bytes_count - 1,
        s.bytes_count > 1 ==> s.dealloc_spec().bytes_pos == s.bytes_pos,
        s.bytes_count == 1 ==> s.dealloc_spec().bytes_pos == s.start,
{
    if s.alloc_fits(size, align) {
        assert(align as int > 0 ==> align_up(s.bytes_pos as int, align as int) >= s.bytes_pos) by {
            if align as int > 0 {
                lemma_align_up_bounds(s.bytes_pos as int, align as int);
            }
        }
    }
}

/// A page allocation with a power-of-two alignment succeeds exactly when the block,
/// moved down to that alignment, starts at or after the end of the byte area, and then
/// starts there.
pub proof fn lemma_pages_fit_exactly(s: EarlyState, num_pages: usize, align_pow2: usize, page_size: usize)
    requires
        s.wf(),
        is_power_of_two(align_pow2),
        num_pages * page_size <= s.pages_pos,
    ensures
        s.pages_fit(num_pages, align_pow2, page_size) == (align_down(
            s.pages_pos - num_pages * page_size,
            align_pow2 as int,
        ) >= s.bytes_pos),
        s.pages_target(num_pages, align_pow2, page_size) == align_down(
            s.pages_pos - num_pages * page_size,
            align_pow2 as int,
        ),
{
    lemma_pages_target(s, num_pages, align_pow2, page_size);
}

/// Giving back bytes never touches the page area, and giving back the last live byte
/// block empties the byte area.
pub proof fn lemma_dealloc_keeps_pages(s: EarlyState)
    requires
        s.wf(),
        s.bytes_count > 0,
    ensures
        s.dealloc_spec().pages_pos == s.pages_pos,
        s.dealloc_spec().wf(),
        s.bytes_count == 1 ==> s.dealloc_spec().bytes_pos == s.start,
{
}

/// Rounding down stays above `x - a` and reaches at most `x`.
proof fn lemma_align_down_bounds(x: int, a: int)
    requires
        x >= 0,
        a > 0,
    ensures
        x - a < align_down(x, a) <= x,
        align_down(x, a) % a == 0,
        align_down(x, a) >= 0,
{
    vstd::arithmetic::div_mod::lemma_fundamental_div_mod(x, a);
    vstd::arithmetic::div_mod::lemma_mod_multiples_basic(x / a, a);
    assert(align_down(x, a) == a * (x / a)) by (nonlinear_arith)
        requires
            align_down(x, a) == (x / a) * a,
    ;
    assert(x / a >= 0) by (nonlinear_arith)
        requires
            x >= 0,
            a > 0,
    ;
    assert(a * (x / a) >= 0) by (nonlinear_arith)
        requires
            x / a >= 0,
            a > 0,
    ;
}

/// Rounding up stays below `x + a` and reaches at least `x`.
pub(crate) proof fn lemma_align_up_bounds(x: int, a: int)
    requires
        x >= 0,
        a > 0,
    ensures
        x <= align_up(x, a) < x + a,
        align_up(x, a) % a == 0,
{
    let y = x + a - 1;
    vstd::arithmetic::div_mod::lemma_fundamental_div_mod(y, a);
    vstd::arithmetic::div_mod::lemma_mod_multiples_basic(y / a, a);
    assert(align_up(x, a) == a * (y / a)) by (nonlinear_arith)
        requires
            align_up(x, a) == (y / a) * a,
    ;
}

/// One call on an early allocator.
#[derive(Clone, Copy, Debug, PartialEq, Eq, Structural)]
pub enum AllocOp {
    /// `alloc_bytes(size, align)`.
    Bytes { size: usize, align: usize },
    /// `dealloc`.
    FreeBytes,
    /// `alloc_pages(num_pages, align_pow2)`.
    Pages { num_pages: usize, align_pow2: usize },
    /// `dealloc_pages`.
    FreePages,
}

/// A block handed out by an allocator: the addresses `start..end`, whether it is a page
/// block, and how many times the byte area had been emptied before it was handed out.
pub struct Block {
    pub start: int,
    pub end: int,
    pub pages: bool,
    pub epoch: nat,
}

/// The call's `requires`, with pages of `page_size` bytes.
pub open spec fn op_ok(s: EarlyState, op: AllocOp, page_size: usize) -> bool {
    match op {
        AllocOp::Bytes { size, align } => {
            &&& is_power_of_two(align)
            &&& s.bytes_pos + align <= usize::MAX
            &&& align_up(s.bytes_pos as int, align as int) + size <= usize::MAX
            &&& s.alloc_fits(size, align) ==> s.bytes_count < usize::MAX
        },
        AllocOp::FreeBytes => s.bytes_count > 0,
        AllocOp::Pages { num_pages, align_pow2 } => align_pow2 > 0 && num_pages * page_size
            <= s.pages_pos,
        AllocOp::FreePages => true,
    }
}

/// The state after the call.
pub open spec fn op_next(s: EarlyState, op: AllocOp, page_size: usize) -> EarlyState {
    match op {
        AllocOp::Bytes { size, align } => if s.alloc_fits(size, align) {
            s.alloc_spec(size, align)
        } else {
            s
        },
        AllocOp::FreeBytes => s.dealloc_spec(),
        AllocOp::Pages { num_pages, align_pow2 } => if s.pages_fit(
            num_pages,
            align_pow2,
            page_size,
        ) {
            EarlyState { pages_pos: s.pages_target(num_pages, align_pow2, page_size) as usize, ..s }
        } else {
            s
        },
        AllocOp::FreePages => s,
    }
}

/// The blocks that the call hands out (none when it fails or frees).
pub open spec fn op_blocks(s: EarlyState, op: AllocOp, page_size: usize, epoch: nat) -> Seq<Block> {
    match op {
        AllocOp::Bytes { size, align } => if s.alloc_fits(size, align) {
            let p = align_up(s.bytes_pos as int, align as int);
            seq![Block { start: p, end: p + size, pages: false, epoch }]
        } else {
            Seq::empty()
        },
        AllocOp::Pages { num_pages, align_pow2 } => if s.pages_fit(
            num_pages,
            align_pow2,
            page_size,
        ) {
            let q = s.pages_target(num_pages, align_pow2, page_size);
            seq![Block { start: q, end: q + num_pages * page_size, pages: true, epoch }]
        } else {
            Seq::empty()
        },
        _ => Seq::empty(),
    }
}

/// The count of emptyings of the byte area after the call.
pub open spec fn op_epoch(s: EarlyState, op: AllocOp, page_size: usize, epoch: nat) -> nat {
    if op is FreeBytes && op_next(s, op, page_size).bytes_count == 0 {
        epoch + 1
    } else {
        epoch
    }
}

/// Every call of the sequence meets its `requires` in the state it is made in.
pub open spec fn run_ok(s: EarlyState, ops: Seq<AllocOp>, page_size: usize) -> bool
    decreases ops.len(),
{
    ops.len() == 0 || (op_ok(s, ops[0], page_size) && run_ok(
        op_next(s, ops[0], page_size),
        ops.drop_first(),
        page_size,
    ))
}

/// The blocks handed out by the sequence of calls, in order.
pub open spec fn run_blocks(s: EarlyState, ops: Seq<AllocOp>, page_size: usize, epoch: nat) -> Seq<
    Block,
>
    decreases ops.len(),
{
    if ops.len() == 0 {
        Seq::empty()
    } else {
        op_blocks(s, ops[0], page_size, epoch) + run_blocks(
            op_next(s, ops[0], page_size),
            ops.drop_first(),
            page_size,
            op_epoch(s, ops[0], page_size, epoch),
        )
    }
}

/// One call keeps the invariant; its block lies between the byte area and the page area,
/// a byte block ends where the byte area now ends, a page block starts where the page area
/// now starts; the page area never moves up, and the byte area moves down only when it is
/// emptied.
proof fn lemma_op_step(s: EarlyState, op: AllocOp, page_size: usize, epoch: nat)
    requires
        s.wf(),
        op_ok(s, op, page_size),
    ensures
        ({
            let s2 = op_next(s, op, page_size);
            let bs = op_blocks(s, op, page_size, epoch);
            &&& s2.wf()
            &&& s2.start == s.start
            &&& s2.size == s.size
            &&& s2.pages_pos <= s.pages_pos
            &&& op_epoch(s, op, page_size, epoch) >= epoch
            &&& op_epoch(s, op, page_size, epoch) == epoch ==> s2.bytes_pos >= s.bytes_pos
            &&& bs.len() <= 1
            &&& forall|i: int|
                0 <= i < bs.len() ==> {
                    &&& s.bytes_pos <= (#[trigger] bs[i]).start <= bs[i].end <= s.pages_pos
                    &&& bs[i].epoch == epoch
                    &&& !bs[i].pages ==> bs[i].end <= s2.bytes_pos
                    &&& bs[i].pages ==> s2.pages_pos <= bs[i].start
                }
        }),
{
    match op {
        AllocOp::Bytes { size, align } => {
            if s.alloc_fits(size, align) {
                lemma_align_up_bounds(s.bytes_pos as int, align as int);
            }
        },
        AllocOp::Pages { num_pages, align_pow2 } => {
            lemma_pages_target(s, num_pages, align_pow2, page_size);
        },
        _ => {},
    }
}

/// Every block that a sequence of calls hands out lies in the range; once the page area
/// and the byte area have been entered, later blocks stay out of the part handed out.
proof fn lemma_run_bounds(s: EarlyState, ops: Seq<AllocOp>, page_size: usize, epoch: nat)
    requires
        s.wf(),
        run_ok(s, ops, page_size),
    ensures
        forall|i: int|
            0 <= i < run_blocks(s, ops, page_size, epoch).len() ==> {
                let b = #[trigger] run_blocks(s, ops, page_size, epoch)[i];
                &&& s.start <= b.start <= b.end <= s.pages_pos
                &&& b.epoch >= epoch
                &&& b.epoch == epoch ==> s.bytes_pos <= b.start
            },
    decreases ops.len(),
{
    if ops.len() > 0 {
        let s2 = op_next(s, ops[0], page_size);
        let e2 = op_epoch(s, ops[0], page_size, epoch);
        lemma_op_step(s, ops[0], page_size, epoch);
        lemma_run_bounds(s2, ops.drop_first(), page_size, e2);
        let head = op_blocks(s, ops[0], page_size, epoch);
        let tail = run_blocks(s2, ops.drop_first(), page_size, e2);
        assert forall|i: int| 0 <= i < (head + tail).len() implies {
            let b = #[trigger] (head + tail)[i];
            &&& s.start <= b.start <= b.end <= s.pages_pos
            &&& b.epoch >= epoch
            &&& b.epoch == epoch ==> s.bytes_pos <= b.start
        } by {
            if i >= head.len() {
                assert((head + tail)[i] == tail[i - head.len()]);
            } else {
                assert((head + tail)[i] == head[i]);
            }
        }
    }
}

/// Two blocks overlap in no address.
pub open spec fn blocks_disjoint(a: Block, b: Block) -> bool {
    a.end <= b.start || b.end <= a.start
}

/// Every block lies in `start..end`, and a block overlaps no later one, except a byte
/// block once the byte area has been emptied after it; byte blocks come out in rising
/// address order until the byte area is emptied, page blocks in falling order.
pub open spec fn blocks_well_placed(bs: Seq<Block>, start: int, end: int) -> bool {
    &&& forall|i: int| 0 <= i < bs.len() ==> start <= (#[trigger] bs[i]).start <= bs[i].end <= end
    &&& forall|i: int, j: int|
        0 <= i < j < bs.len() ==> {
            &&& ((#[trigger] bs[i]).pages || bs[i].epoch == (#[trigger] bs[j]).epoch)
                ==> blocks_disjoint(bs[i], bs[j])
            &&& (!bs[i].pages && !bs[j].pages && bs[i].epoch == bs[j].epoch) ==> bs[i].end
                <= bs[j].start
            &&& (bs[i].pages && bs[j].pages) ==> bs[j].end <= bs[i].start
        }
}

/// Whatever sequence of calls is made on an allocator, the blocks it hands out are well
/// placed in its range: page blocks are never reused, byte blocks only after every byte
/// block was given back, byte blocks rise and page blocks fall in address.
pub proof fn lemma_blocks_never_overlap(s: EarlyState, ops: Seq<AllocOp>, page_size: usize, epoch: nat)
    requires
        s.wf(),
        run_ok(s, ops, page_size),
    ensures
        blocks_well_placed(run_blocks(s, ops, page_size, epoch), s.start as int, s.end()),
    decreases ops.len(),
{
    lemma_run_bounds(s, ops, page_size, epoch);
    if ops.len() > 0 {
        let s2 = op_next(s, ops[0], page_size);
        let e2 = op_epoch(s, ops[0], page_size, epoch);
        lemma_op_step(s, ops[0], page_size, epoch);
        lemma_run_bounds(s2, ops.drop_first(), page_size, e2);
        lemma_blocks_never_overlap(s2, ops.drop_first(), page_size, e2);
        let head = op_blocks(s, ops[0], page_size, epoch);
        let tail = run_blocks(s2, ops.drop_first(), page_size, e2);
        let all = run_blocks(s, ops, page_size, epoch);
        assert(all == head + tail);
        assert forall|i: int| 0 <= i < all.len() implies s.start <= (#[trigger] all[i]).start
            <= all[i].end <= s.end() by {}
        assert forall|i: int, j: int| 0 <= i < j < all.len() implies {
            &&& ((#[trigger] all[i]).pages || all[i].epoch == (#[trigger] all[j]).epoch)
                ==> blocks_disjoint(all[i], all[j])
            &&& (!all[i].pages && !all[j].pages && all[i].epoch == all[j].epoch) ==> all[i].end
                <= all[j].start
            &&& (all[i].pages && all[j].pages) ==> all[j].end <= all[i].start
        } by {
            if i >= head.len() {
                assert(all[i] == tail[i - head.len()]);
                assert(all[j] == tail[j - head.len()]);
            } else {
                assert(all[i] == head[i]);
                assert(i == 0);
                assert(all[j] == tail[j - head.len()]);
                let b = tail[j - head.len()];
                assert(b.start <= b.end <= s2.pages_pos);
                if !all[i].pages && all[i].epoch == b.epoch {
                    assert(b.epoch == e2);
                }
            }
        }
    }
}

} // verus!
