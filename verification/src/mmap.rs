//! The decisions of the `mmap` system call: flag parsing, the length rounding, where the
//! mapping goes, what is returned, and how a file-backed mapping is filled region by
//! region. The caller performs the mapping and the reads and reports their outcomes.

use vstd::prelude::*;
use crate::bump::{align_up, lemma_align_up_bounds, lemma_mask_round_down};
use crate::errno::{Errno, syscall_error};

verus! {

/// Page can be read.
pub const PROT_READ: i32 = 1;
/// Page can be written.
pub const PROT_WRITE: i32 = 2;
/// Page can be executed.
pub const PROT_EXEC: i32 = 4;
/// Every known protection bit.
pub const PROT_ALL: i32 = 7;

/// Share changes.
pub const MAP_SHARED: i32 = 1;
/// Changes private; copy pages on write.
pub const MAP_PRIVATE: i32 = 2;
/// Map address must be exactly as requested, no matter whether it is available.
pub const MAP_FIXED: i32 = 0x10;
/// Don't use a file.
pub const MAP_ANONYMOUS: i32 = 0x20;
/// Don't check for reservations.
pub const MAP_NORESERVE: i32 = 0x4000;
/// Allocation is for a stack.
pub const MAP_STACK: i32 = 0x20000;
/// Every known mapping flag.
pub const MAP_ALL: i32 = 0x24033;

/// The memory is readable.
pub const MAPPING_READ: usize = 1;
/// The memory is writable.
pub const MAPPING_WRITE: usize = 2;
/// The memory is executable.
pub const MAPPING_EXECUTE: usize = 4;
/// The memory is user accessible.
pub const MAPPING_USER: usize = 8;

/// Where an anonymous mapping is placed.
pub const ANON_MAP_START: usize = 0x1000_0000;
/// Where a file-backed mapping is placed.
pub const FILE_MAP_START: usize = 0x2000_0000;

/// The protection bits of an `mmap` request.
#[derive(Clone, Copy, Debug, PartialEq, Eq, Structural)]
pub struct MmapProt {
    pub bits: i32,
}

/// The flag bits of an `mmap` request.
#[derive(Clone, Copy, Debug, PartialEq, Eq, Structural)]
pub struct MmapFlags {
    pub bits: i32,
}

/// The permissions of a memory mapping, in the bit layout of the page-table flags.
#[derive(Clone, Copy, Debug, PartialEq, Eq, Structural)]
pub struct MappingFlags {
    pub bits: usize,
}

impl MmapProt {
    /// The known bits of `bits`; the others are dropped.
    pub fn from_bits_truncate(bits: i32) -> (p: Self)
        ensures
            p.bits == bits & PROT_ALL,
    {
        MmapProt { bits: bits & PROT_ALL }
    }

    /// Whether every bit of `flag` is set.
    pub fn contains(&self, flag: i32) -> (r: bool)
        ensures
            r == (self.bits & flag == flag),
    {
        self.bits & flag == flag
    }
}

impl MmapFlags {
    /// The known bits of `bits`; the others are dropped.
    pub fn from_bits_truncate(bits: i32) -> (f: Self)
        ensures
            f.bits == bits & MAP_ALL,
    {
        MmapFlags { bits: bits & MAP_ALL }
    }

    /// Whether every bit of `flag` is set.
    pub fn contains(&self, flag: i32) -> (r: bool)
        ensures
            r == (self.bits & flag == flag),
    {
        self.bits & flag == flag
    }
}

/// `f` with `bit` set when `c` holds.
pub open spec fn set_if(f: usize, c: bool, bit: usize) -> usize {
    if c {
        f | bit
    } else {
        f
    }
}

/// The mapping flags for protection bits `prot`: user access, and reading, writing and
/// executing exactly as `prot` allows.
pub open spec fn mapping_bits(prot: i32) -> usize {
    (MAPPING_USER + (if prot & PROT_READ == PROT_READ {
        MAPPING_READ
    } else {
        0
    }) + (if prot & PROT_WRITE == PROT_WRITE {
        MAPPING_WRITE
    } else {
        0
    }) + (if prot & PROT_EXEC == PROT_EXEC {
        MAPPING_EXECUTE
    } else {
        0
    })) as usize
}

proof fn lemma_set_bits(r: bool, w: bool, x: bool)
    by (bit_vector)
    ensures
        set_if(set_if(set_if(8usize, r, 1usize), w, 2usize), x, 4usize) == (8usize + (if r {
            1usize
        } else {
            0usize
        }) + (if w {
            2usize
        } else {
            0usize
        }) + (if x {
            4usize
        } else {
            0usize
        })) as usize,
{
}

impl From<MmapProt> for MappingFlags {
    fn from(value: MmapProt) -> (r: Self) {
        let mut flags: usize = MAPPING_USER;
        if value.contains(PROT_READ) {
            flags = flags | MAPPING_READ;
        }
        if value.contains(PROT_WRITE) {
            flags = flags | MAPPING_WRITE;
        }
        if value.contains(PROT_EXEC) {
            flags = flags | MAPPING_EXECUTE;
        }
        proof {
            lemma_set_bits(
                value.bits & PROT_READ == PROT_READ,
                value.bits & PROT_WRITE == PROT_WRITE,
                value.bits & PROT_EXEC == PROT_EXEC,
            );
        }
        MappingFlags { bits: flags }
    }
}

impl vstd::std_specs::convert::FromSpecImpl<MmapProt> for MappingFlags {
    open spec fn obeys_from_spec() -> bool {
        true
    }

    open spec fn from_spec(v: MmapProt) -> MappingFlags {
        MappingFlags { bits: mapping_bits(v.bits) }
    }
}

/// A mapping that `mmap` asks for.
#[derive(Clone, Copy, Debug, PartialEq, Eq, Structural)]
pub struct MmapRequest {
    /// The first address of the mapping.
    pub start: usize,
    /// Its length, a whole number of pages.
    pub length: usize,
    /// Its permissions.
    pub flags: MappingFlags,
    /// Whether it is filled from a file after it is made.
    pub file_backed: bool,
}

/// The first step of `mmap`: make a mapping, or return at once.
#[derive(Clone, Copy, Debug, PartialEq, Eq, Structural)]
pub enum MmapStart {
    /// Make this mapping.
    MakeMapping(MmapRequest),
    /// Return this value.
    Return(isize),
}

/// The step of `mmap` after the mapping was attempted.
#[derive(Clone, Copy, Debug, PartialEq, Eq, Structural)]
pub enum MmapMapped {
    /// Return this value.
    Return(isize),
    /// Fill the mapping from the file, then return this value (the mapping's start).
    FillFromFile(isize),
}

/// The page size of the mappings.
pub const MMAP_PAGE_SIZE: usize = 0x1000;

/// The mapping `mmap` asks for on the given arguments (the mapped length is the requested
/// one rounded up to whole pages, the permissions follow `prot`), or the error it returns
/// at once: `EBADF` for a file mapping with a negative descriptor.
pub open spec fn mmap_start_spec(length: usize, prot: i32, flags: i32, fd: i32) -> MmapStart {
    let req_length = align_up(length as int, MMAP_PAGE_SIZE as int) as usize;
    let perm = MappingFlags { bits: mapping_bits(prot & PROT_ALL) };
    if flags & MAP_ALL & MAP_ANONYMOUS == MAP_ANONYMOUS {
        MmapStart::MakeMapping(
            MmapRequest { start: ANON_MAP_START, length: req_length, flags: perm, file_backed: false },
        )
    } else if fd < 0 {
        MmapStart::Return(-(Errno::EBADF.code_spec() as int) as isize)
    } else {
        MmapStart::MakeMapping(
            MmapRequest { start: FILE_MAP_START, length: req_length, flags: perm, file_backed: true },
        )
    }
}

/// The first step of `mmap(addr, length, prot, flags, fd, offset)`; `addr` and `offset`
/// are not used.
pub fn mmap_start(length: usize, prot: i32, flags: i32, fd: i32) -> (r: MmapStart)
    requires
        length + 0xfff <= usize::MAX,
    ensures
        r == mmap_start_spec(length, prot, flags, fd),
{
    let mmap_flags = MmapFlags::from_bits_truncate(flags);
    let prot_flags = MmapProt::from_bits_truncate(prot);
    let mapping_flags = MappingFlags::from(prot_flags);
    let aligned_length: usize = (length + 0xfff) & !0xfff;
    proof {
        assert(0xfffusize == (MMAP_PAGE_SIZE - 1) as usize);
        assert(MMAP_PAGE_SIZE & ((MMAP_PAGE_SIZE - 1) as usize) == 0) by (bit_vector);
        lemma_mask_round_down((length + 0xfff) as usize, MMAP_PAGE_SIZE);
    }
    if mmap_flags.contains(MAP_ANONYMOUS) {
        MmapStart::MakeMapping(
            MmapRequest {
                start: ANON_MAP_START,
                length: aligned_length,
                flags: mapping_flags,
                file_backed: false,
            },
        )
    } else {
        if fd < 0 {
            return MmapStart::Return(syscall_error(Errno::EBADF));
        }
        MmapStart::MakeMapping(
            MmapRequest {
                start: FILE_MAP_START,
                length: aligned_length,
                flags: mapping_flags,
                file_backed: true,
            },
        )
    }
}

proof fn lemma_flag_bits(prot: i32, flags: i32)
    by (bit_vector)
    ensures
        (flags & 0x24033i32 & 0x20i32 == 0x20i32) == (flags & 0x20i32 != 0),
        0 <= prot & 7i32 <= 7,
        (if (prot & 7i32) & 1i32 == 1i32 {
            1i32
        } else {
            0i32
        }) + (if (prot & 7i32) & 2i32 == 2i32 {
            2i32
        } else {
            0i32
        }) + (if (prot & 7i32) & 4i32 == 4i32 {
            4i32
        } else {
            0i32
        }) == prot & 7i32,
{
}

/// What `mmap` starts with, for every argument: with `MAP_ANONYMOUS` set, whatever the
/// other flags and the descriptor, an anonymous mapping at `ANON_MAP_START`; without it,
/// `-EBADF` (-9) for a negative descriptor, else a file mapping at `FILE_MAP_START`. A
/// mapping's length is the requested one rounded up to the next multiple of 4096, and
/// its permissions are user access plus the read, write and execute bits of `prot`.
pub proof fn lemma_mmap_start_cases(length: usize, prot: i32, flags: i32, fd: i32)
    requires
        length + 0xfff <= usize::MAX,
    ensures
        flags & MAP_ANONYMOUS != 0 ==> (mmap_start_spec(length, prot, flags, fd) matches
            MmapStart::MakeMapping(req) && req.start == ANON_MAP_START && !req.file_backed),
        flags & MAP_ANONYMOUS == 0 && fd < 0 ==> mmap_start_spec(length, prot, flags, fd)
            == MmapStart::Return(-9isize),
        flags & MAP_ANONYMOUS == 0 && fd >= 0 ==> (mmap_start_spec(length, prot, flags, fd) matches
            MmapStart::MakeMapping(req) && req.start == FILE_MAP_START && req.file_backed),
        mmap_start_spec(length, prot, flags, fd) matches MmapStart::MakeMapping(req) ==> {
            &&& req.length % 4096 == 0
            &&& length <= req.length < length + 4096
            &&& req.flags.bits == MAPPING_USER + (prot & PROT_ALL) as usize
        },
{
    lemma_flag_bits(prot, flags);
    lemma_align_up_bounds(length as int, 4096);
}

/// What `mmap` does once the mapping of `req` was attempted: `ENOMEM` when it failed; the
/// start of an anonymous mapping; the filling of a file mapping.
pub fn mmap_mapped(req: &MmapRequest, mapped: bool) -> (r: MmapMapped)
    requires
        req.start <= isize::MAX,
    ensures
        !mapped ==> r == MmapMapped::Return(-(Errno::ENOMEM.code_spec() as int) as isize),
        mapped && !req.file_backed ==> r == MmapMapped::Return(req.start as isize),
        mapped && req.file_backed ==> r == MmapMapped::FillFromFile(req.start as isize),
{
    if !mapped {
        MmapMapped::Return(syscall_error(Errno::ENOMEM))
    } else if req.file_backed {
        MmapMapped::FillFromFile(req.start as isize)
    } else {
        MmapMapped::Return(req.start as isize)
    }
}

/// How much of the next region is read, after `total_read` of `length` bytes were read:
/// `None` once `length` is reached, else as much of the region as is still missing.
pub open spec fn next_read_size(total_read: nat, length: nat, region_len: nat) -> Option<nat> {
    if total_read >= length {
        None
    } else if region_len < length - total_read {
        Some(region_len)
    } else {
        Some((length - total_read) as nat)
    }
}

/// Where zeroing starts in a buffer of `read_size` bytes: after the bytes read (`Some(n)`),
/// or at its start when the read failed (`None`).
pub open spec fn zero_start(read_size: nat, read: Option<nat>) -> nat {
    match read {
        Some(n) => if n < read_size {
            n
        } else {
            read_size
        },
        None => 0,
    }
}

/// How much of the next region of a file mapping is read, after `total_read` of `length`
/// bytes have been read: nothing more (`None`) once `length` is reached, else as much of
/// the region as is still missing.
pub fn fill_read_size(total_read: usize, length: usize, region_len: usize) -> (r: Option<usize>)
    ensures
        r is Some == next_read_size(total_read as nat, length as nat, region_len as nat) is Some,
        r is Some ==> r.unwrap() == next_read_size(
            total_read as nat,
            length as nat,
            region_len as nat,
        ).unwrap(),
{
    if total_read >= length {
        return None;
    }
    let missing: usize = length - total_read;
    if region_len < missing {
        Some(region_len)
    } else {
        Some(missing)
    }
}

/// The outcome of reading the file into a buffer.
#[derive(Clone, Copy, Debug, PartialEq, Eq, Structural)]
pub enum ReadOutcome {
    /// This many bytes were read.
    Read(usize),
    /// The file could not be had, or the read failed.
    Failed,
}

/// The bookkeeping after reading into a buffer of `read_size` bytes.
#[derive(Clone, Copy, Debug, PartialEq, Eq, Structural)]
pub struct FillStep {
    /// The bytes read so far.
    pub total_read: usize,
    /// The buffer is zeroed from this offset up to its end.
    pub zero_from: usize,
}

/// After a read into a buffer of `read_size` bytes: the bytes read are counted, and the
/// part of the buffer they did not fill is zeroed (the whole buffer when the read failed).
pub fn fill_after_read(total_read: usize, read_size: usize, outcome: ReadOutcome) -> (r: FillStep)
    requires
        outcome matches ReadOutcome::Read(n) ==> total_read + n <= usize::MAX,
    ensures
        outcome matches ReadOutcome::Read(n) ==> r == (FillStep {
            total_read: (total_read + n) as usize,
            zero_from: zero_start(read_size as nat, Some(n as nat)) as usize,
        }),
        outcome is Failed ==> r == (FillStep {
            total_read,
            zero_from: zero_start(read_size as nat, None) as usize,
        }),
{
    match outcome {
        ReadOutcome::Read(bytes_read) => {
            let zero_from: usize = if bytes_read < read_size {
                bytes_read
            } else {
                read_size
            };
            FillStep { total_read: total_read + bytes_read, zero_from }
        },
        ReadOutcome::Failed => FillStep { total_read, zero_from: 0 },
    }
}

/// Zeroes `buffer` from offset `from` to its end, the part that a read did not fill.
pub fn zero_tail(buffer: &mut [u8], from: usize)
    ensures
        final(buffer)@.len() == old(buffer)@.len(),
        forall|i: int| 0 <= i < from && i < old(buffer)@.len() ==> final(buffer)@[i] == old(
            buffer,
        )@[i],
        forall|i: int| from <= i < old(buffer)@.len() ==> final(buffer)@[i] == 0,
{
    let mut i: usize = from;
    while i < buffer.len()
        invariant
            buffer@.len() == old(buffer)@.len(),
            i >= from,
            forall|j: int| 0 <= j < from && j < buffer@.len() ==> buffer@[j] == old(buffer)@[j],
            forall|j: int| from <= j < i && j < buffer@.len() ==> buffer@[j] == 0,
        decreases buffer@.len() - i,
    {
        buffer[i] = 0;
        i = i + 1;
    }
}

/// The total length of a list of regions.
pub open spec fn regions_len(regions: Seq<nat>) -> nat
    decreases regions.len(),
{
    if regions.len() == 0 {
        0
    } else {
        regions[0] + regions_len(regions.drop_first())
    }
}

/// What a read of `read_size` bytes at offset `t` returns from a file whose bytes are
/// `data`: as many bytes as asked for and left.
pub open spec fn file_read_len(data: Seq<u8>, t: nat, read_size: nat) -> nat {
    if t >= data.len() {
        0
    } else if read_size < data.len() - t {
        read_size
    } else {
        (data.len() - t) as nat
    }
}

/// The bytes that the fill loop of a file mapping leaves in the regions, read from a file
/// whose bytes are `data`, after `t` bytes were read: in each region the bytes read, then
/// zeros from `zero_start` to the read size.
pub open spec fn fill_image(regions: Seq<nat>, data: Seq<u8>, length: nat, t: nat) -> Seq<u8>
    decreases regions.len(),
{
    if regions.len() == 0 {
        Seq::empty()
    } else {
        match next_read_size(t, length, regions[0]) {
            None => Seq::empty(),
            Some(rs) => {
                let n = file_read_len(data, t, rs);
                data.subrange(t as int, (t + n) as int) + Seq::new(
                    (rs - zero_start(rs, Some(n))) as nat,
                    |i: int| 0u8,
                ) + fill_image(regions.drop_first(), data, length, t + n)
            },
        }
    }
}

/// The file's bytes, then zeros, over `length` bytes from offset `pos`.
pub open spec fn file_then_zeros(data: Seq<u8>, length: nat, pos: nat) -> Seq<u8> {
    Seq::new(
        (length - pos) as nat,
        |i: int|
            if pos + i < data.len() {
                data[pos + i]
            } else {
                0u8
            },
    )
}

proof fn lemma_fill_image_from(regions: Seq<nat>, data: Seq<u8>, length: nat, pos: nat, t: nat)
    requires
        pos <= length,
        regions_len(regions) == length - pos,
        t == (if pos < data.len() {
            pos
        } else {
            data.len()
        }),
    ensures
        fill_image(regions, data, length, t) == file_then_zeros(data, length, pos),
    decreases regions.len(),
{
    if regions.len() == 0 {
        assert(file_then_zeros(data, length, pos) =~= Seq::<u8>::empty());
    } else {
        let r = regions[0];
        if t >= length {
            assert(pos == length);
            assert(file_then_zeros(data, length, pos) =~= Seq::<u8>::empty());
        } else {
            let rs = next_read_size(t, length, r).unwrap();
            assert(rs == r);
            let n = file_read_len(data, t, rs);
            let t2 = t + n;
            let pos2 = pos + r;
            lemma_fill_image_from(regions.drop_first(), data, length, pos2, t2);
            let head = data.subrange(t as int, (t + n) as int) + Seq::new(
                (rs - zero_start(rs, Some(n))) as nat,
                |i: int| 0u8,
            );
            assert(head =~= file_then_zeros(data, pos2, pos));
            assert(head + file_then_zeros(data, length, pos2) =~= file_then_zeros(
                data,
                length,
                pos,
            ));
        }
    }
}

/// A file mapping whose regions cover the requested length, filled from a file that
/// returns as many bytes as asked for and left, holds the file's bytes and then zeros.
pub proof fn lemma_file_mapping_image(regions: Seq<nat>, data: Seq<u8>, length: nat)
    requires
        regions_len(regions) == length,
    ensures
        fill_image(regions, data, length, 0) == file_then_zeros(data, length, 0),
{
    lemma_fill_image_from(regions, data, length, 0, 0);
}

} // verus!
