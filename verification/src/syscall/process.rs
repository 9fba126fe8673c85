//! Process management system calls.
use crate::fs::{concat, le_bytes, lemma_le_bytes_len, push_le, total_len, UserBuffer};
use vstd::prelude::*;

verus! {

/// Bytes in a page.
pub const PAGE_SIZE: usize = 0x1000;

/// Virtual addresses keep their low 39 bits (Sv39).
pub const VA_SPACE: u64 = 0x80_0000_0000;

/// The virtual address that a `usize` denotes: its low 39 bits.
pub open spec fn va_of(v: usize) -> int {
    v as int % VA_SPACE as int
}

/// Number of the page that address `va` starts or lies in, rounded up.
pub open spec fn page_ceil(va: int) -> int {
    if va == 0 {
        0
    } else {
        (va - 1 + PAGE_SIZE) / PAGE_SIZE as int
    }
}

/// Time as seconds and microseconds.
pub struct TimeVal {
    pub sec: usize,
    pub usec: usize,
}

/// Bytes in a `usize`.
pub open spec fn usize_bytes() -> nat {
    (usize::BITS / 8) as nat
}

impl TimeVal {
    /// The time `us` microseconds after the epoch.
    pub fn from_us(us: usize) -> (r: Self)
        ensures
            r.sec == us / 1_000_000,
            r.usec == us % 1_000_000,
    {
        TimeVal { sec: us / 1_000_000, usec: us % 1_000_000 }
    }

    /// The in-memory image of the value on a little-endian machine: `sec`
    /// then `usec`, each as a `usize`.
    pub fn to_bytes(&self) -> (r: Vec<u8>)
        ensures
            r@ == le_bytes(self.sec as nat, usize_bytes()) + le_bytes(self.usec as nat, usize_bytes()),
    {
        let mut r: Vec<u8> = Vec::new();
        push_le(&mut r, self.sec as u64, usize::BITS / 8);
        push_le(&mut r, self.usec as u64, usize::BITS / 8);
        assert(r@ =~= le_bytes(self.sec as nat, usize_bytes()) + le_bytes(self.usec as nat, usize_bytes()));
        r
    }
}

/// Writes the current time, `us` microseconds, into the user's `TimeVal`
/// buffer; returns 0.
pub fn sys_get_time(us: usize, buf: &mut UserBuffer) -> (r: isize)
    requires
        total_len(old(buf)@) <= 2 * usize_bytes(),
    ensures
        r == 0,
        final(buf)@.len() == old(buf)@.len(),
        forall|i: int| 0 <= i < old(buf)@.len() ==> #[trigger] final(buf)@[i].len() == old(buf)@[i].len(),
        concat(final(buf)@) == (le_bytes((us / 1_000_000) as nat, usize_bytes()) + le_bytes(
            (us % 1_000_000) as nat,
            usize_bytes(),
        )).subrange(0, total_len(old(buf)@)),
{
    let ts = TimeVal::from_us(us);
    let src = ts.to_bytes();
    proof {
        lemma_le_bytes_len(ts.sec as nat, usize_bytes());
        lemma_le_bytes_len(ts.usec as nat, usize_bytes());
    }
    buf.fill_from(src.as_slice());
    0
}

/// What a page-table entry allows.
#[derive(Copy, Clone)]
pub struct PteFlags {
    pub valid: bool,
    pub readable: bool,
    pub writable: bool,
}

/// What `sys_trace` asks of the kernel.
pub enum TraceAction {
    /// Return -1.
    Fail,
    /// Read the byte at the traced address and return it.
    ReadByte,
    /// Store this byte at the traced address and return 0.
    WriteByte(u8),
    /// Return how many times system call `id` was made.
    CountSyscalls(usize),
}

/// Decides a trace request: 0 reads the byte at address `id`, 1 stores the
/// low byte of `data` there, 2 counts the calls of system call `id`; any
/// other request fails. A read or a store fails when the address is not a
/// valid user address (`addr_valid`), is not mapped (`pte` is `None`), or its
/// page is not valid or lacks the permission.
pub fn sys_trace(
    trace_request: usize,
    id: usize,
    data: usize,
    addr_valid: bool,
    pte: Option<PteFlags>,
) -> (r: TraceAction)
    ensures
        trace_request == 0 ==> r == (match pte {
            Some(p) if addr_valid && p.valid && p.readable => TraceAction::ReadByte,
            _ => TraceAction::Fail,
        }),
        trace_request == 1 ==> r == (match pte {
            Some(p) if addr_valid && p.valid && p.writable => TraceAction::WriteByte((data % 256) as u8),
            _ => TraceAction::Fail,
        }),
        trace_request == 2 ==> r == TraceAction::CountSyscalls(id),
        trace_request > 2 ==> r == TraceAction::Fail,
{
    match trace_request {
        0 => {
            if !addr_valid {
                return TraceAction::Fail;
            }
            match pte {
                Some(p) => {
                    if !p.valid || !p.readable {
                        TraceAction::Fail
                    } else {
                        TraceAction::ReadByte
                    }
                },
                None => TraceAction::Fail,
            }
        },
        1 => {
            if !addr_valid {
                return TraceAction::Fail;
            }
            match pte {
                Some(p) => {
                    if !p.valid || !p.writable {
                        TraceAction::Fail
                    } else {
                        TraceAction::WriteByte((data % 256) as u8)
                    }
                },
                None => TraceAction::Fail,
            }
        },
        2 => TraceAction::CountSyscalls(id),
        _ => TraceAction::Fail,
    }
}

/// The virtual address that `v` denotes.
fn va_from(v: usize) -> (r: usize)
    ensures
        r == va_of(v),
{
    ((v as u64) % VA_SPACE) as usize
}

/// Number of the page that address `va` lies in, rounded up.
fn ceil_page(va: usize) -> (r: usize)
    requires
        va < VA_SPACE,
    ensures
        r == page_ceil(va as int),
{
    if va == 0 {
        0
    } else {
        ((va as u64 - 1 + 0x1000) / 0x1000) as usize
    }
}

/// A range of virtual page numbers, `start` included, `end` excluded.
#[derive(Copy, Clone)]
pub struct VpnRange {
    pub start: usize,
    pub end: usize,
}

/// The pages `[s, e)` share a page with `r`.
pub open spec fn overlaps(s: int, e: int, r: VpnRange) -> bool {
    r.start < e && s < r.end
}

/// A region to map: its virtual address range and its permission bits
/// (R = 2, W = 4, X = 8, U = 16).
pub struct MmapRegion {
    pub start_va: usize,
    pub end_va: usize,
    pub permission: u8,
}

/// `start` is page aligned and `prot` asks for some of read, write and
/// execute and nothing else.
pub open spec fn mmap_args_ok(start: usize, prot: usize) -> bool {
    va_of(start) % PAGE_SIZE as int == 0 && 1 <= prot <= 7
}

/// First page of the region `sys_mmap` and `sys_munmap` work on.
pub open spec fn first_page(start: usize) -> int {
    va_of(start) / PAGE_SIZE as int
}

/// Page just past the region `sys_mmap` and `sys_munmap` work on.
pub open spec fn end_page(start: usize, len: usize) -> int {
    page_ceil(va_of((start + len) as usize))
}

/// What `sys_mmap` decides: `None` (the call returns -1) when the arguments
/// are not valid, there are fewer free pages than pages asked for, or the
/// pages overlap a mapped range; otherwise the user region to map.
pub open spec fn mmap_decision(
    start: usize,
    len: usize,
    prot: usize,
    free_pages: usize,
    areas: Seq<VpnRange>,
) -> Option<MmapRegion> {
    if !mmap_args_ok(start, prot) {
        None
    } else if end_page(start, len) - first_page(start) > free_pages || exists|k: int|
        0 <= k < areas.len() && #[trigger] overlaps(first_page(start), end_page(start, len), areas[k]) {
        None
    } else {
        Some(
            MmapRegion {
                start_va: va_of(start) as usize,
                end_va: (end_page(start, len) * PAGE_SIZE) as usize,
                permission: (16 + 2 * prot) as u8,
            },
        )
    }
}

/// Whether `sys_mmap` admits the request: when the arguments pass its
/// checks, `start + len` fits and the pages do not run past the end of the
/// virtual address space.
pub fn mmap_admissible(start: usize, len: usize, prot: usize) -> (r: bool)
    ensures
        r == (mmap_args_ok(start, prot) ==> start + len <= usize::MAX && end_page(start, len)
            >= first_page(start)),
{
    proof {
        assert((prot & !7usize) != 0usize <==> prot > 7) by (bit_vector);
        assert(prot <= 7 ==> ((prot & 7usize) == 0usize <==> prot == 0)) by (bit_vector);
    }
    let start_va = va_from(start);
    if start_va % PAGE_SIZE != 0 || (prot & !0x7 != 0) || (prot & 0x7 == 0) {
        return true;
    }
    if start > usize::MAX - len {
        return false;
    }
    ceil_page(va_from(start + len)) >= start_va / PAGE_SIZE
}

/// Whether `sys_munmap` admits the request: when `start` is page aligned,
/// `start + len` fits.
pub fn munmap_admissible(start: usize, len: usize) -> (r: bool)
    ensures
        r == (va_of(start) % PAGE_SIZE as int == 0 ==> start + len <= usize::MAX),
{
    va_from(start) % PAGE_SIZE != 0 || start <= usize::MAX - len
}

/// Decides a request to map `len` bytes at `start` with permissions `prot`
/// (bit 0 read, bit 1 write, bit 2 execute), given the number of free
/// physical pages and the page ranges already mapped: `None` (the call
/// returns -1) when `start` is not page aligned, `prot` is empty or has
/// other bits, there are fewer free pages than pages asked for, or the
/// pages overlap a mapped range; otherwise the user region to map.
pub fn sys_mmap(
    start: usize,
    len: usize,
    prot: usize,
    free_pages: usize,
    areas: &Vec<VpnRange>,
) -> (r: Option<MmapRegion>)
    requires
        mmap_args_ok(start, prot) ==> start + len <= usize::MAX && end_page(start, len) >= first_page(
            start,
        ),
    ensures
        r == mmap_decision(start, len, prot, free_pages, areas@),
{
    let start_va = va_from(start);
    proof {
        assert((prot & !7usize) != 0usize <==> prot > 7) by (bit_vector);
        assert(prot <= 7 ==> ((prot & 7usize) == 0usize <==> prot == 0)) by (bit_vector);
    }
    if start_va % PAGE_SIZE != 0 || (prot & !0x7 != 0) || (prot & 0x7 == 0) {
        return None;
    }
    let end_vpn = ceil_page(va_from(start + len));
    let start_vpn = start_va / PAGE_SIZE;
    if end_vpn - start_vpn > free_pages {
        return None;
    }
    let n = areas.len();
    let mut k: usize = 0;
    while k < n
        invariant
            n == areas@.len(),
            k <= n,
            start_vpn == first_page(start),
            end_vpn == end_page(start, len),
            forall|k2: int| 0 <= k2 < k ==> !#[trigger] overlaps(start_vpn as int, end_vpn as int, areas@[k2]),
        decreases n - k,
    {
        if areas[k].start < end_vpn && start_vpn < areas[k].end {
            assert(overlaps(start_vpn as int, end_vpn as int, areas@[k as int]));
            return None;
        }
        k += 1;
    }
    let end_va = ((end_vpn as u64) * (PAGE_SIZE as u64)) as usize;
    let permission = 16u8 | ((prot << 1) as u8);
    proof {
        assert(1 <= prot <= 7 ==> (16u8 | ((prot << 1usize) as u8)) == (16 + 2 * prot) as u8) by (bit_vector);
    }
    Some(MmapRegion { start_va, end_va, permission })
}

/// What `sys_munmap` decides: `None` (the call returns -1) when `start` is
/// not page aligned, else the virtual address range to unmap.
pub open spec fn munmap_decision(start: usize, len: usize) -> Option<(usize, usize)> {
    if va_of(start) % PAGE_SIZE as int != 0 {
        None
    } else {
        Some((va_of(start) as usize, (end_page(start, len) * PAGE_SIZE) as usize))
    }
}

/// Decides a request to unmap `len` bytes at `start`: `None` (the call
/// returns -1) when `start` is not page aligned, else the virtual address
/// range to unmap, from `start` up to the end of the page holding the last
/// byte.
pub fn sys_munmap(start: usize, len: usize) -> (r: Option<(usize, usize)>)
    requires
        va_of(start) % PAGE_SIZE as int == 0 ==> start + len <= usize::MAX,
    ensures
        r == munmap_decision(start, len),
{
    let start_va = va_from(start);
    if start_va % PAGE_SIZE != 0 {
        return None;
    }
    let end_vpn = ceil_page(va_from(start + len));
    let end_va = ((end_vpn as u64) * (PAGE_SIZE as u64)) as usize;
    Some((start_va, end_va))
}

/// Reports a change of the program break: the old break when the kernel
/// moved it, else -1.
pub fn sys_sbrk(old_brk: Option<usize>) -> (r: isize)
    ensures
        r == match old_brk {
            Some(b) => b as isize,
            None => -1isize,
        },
{
    match old_brk {
        Some(b) => b as isize,
        None => -1,
    }
}

/// The page just past an address is the least page boundary at or above
/// it: page 0 for address 0, and for an address `va > 0` the page `p` with
/// `(p - 1) * PAGE_SIZE < va <= p * PAGE_SIZE`.
pub proof fn lemma_page_ceil_bounds(va: int)
    requires
        va >= 0,
    ensures
        va == 0 ==> page_ceil(va) == 0,
        va > 0 ==> (page_ceil(va) - 1) * 0x1000 < va <= page_ceil(va) * 0x1000,
{
}

/// When its arguments are valid, `sys_mmap` refuses every request whose
/// pages `[first_page(start), end_page(start, len))` share a page with some
/// mapped range, a request lying wholly inside a mapped range included.
pub proof fn lemma_mmap_refuses_overlap(
    start: usize,
    len: usize,
    prot: usize,
    free_pages: usize,
    areas: Seq<VpnRange>,
    k: int,
)
    requires
        mmap_args_ok(start, prot),
        0 <= k < areas.len(),
        areas[k].start < end_page(start, len),
        first_page(start) < areas[k].end,
    ensures
        mmap_decision(start, len, prot, free_pages, areas) is None,
{
    assert(overlaps(first_page(start), end_page(start, len), areas[k]));
}

/// What `sys_mmap` grants: only page-aligned requests (in the low 39 bits
/// of `start`) with `prot` among 1..=7, for no more pages than are free and
/// only when no mapped range shares a page with the request; the region
/// starts at the requested address and carries the user bit (16) together
/// with `prot` shifted left by one.
pub proof fn lemma_mmap_grants(
    start: usize,
    len: usize,
    prot: usize,
    free_pages: usize,
    areas: Seq<VpnRange>,
)
    ensures
        mmap_decision(start, len, prot, free_pages, areas) is Some ==> {
            &&& (start as int % 0x80_0000_0000) % 0x1000 == 0
            &&& 1 <= prot <= 7
            &&& end_page(start, len) - (start as int % 0x80_0000_0000) / 0x1000 <= free_pages
            &&& forall|k: int|
                0 <= k < areas.len() ==> !(#[trigger] areas[k].start < end_page(start, len) && (start as int
                    % 0x80_0000_0000) / 0x1000 < areas[k].end)
        },
        mmap_decision(start, len, prot, free_pages, areas) matches Some(r) ==> r.start_va as int
            == start as int % 0x80_0000_0000 && r.permission as int == 16 + 2 * prot,
{
    if mmap_decision(start, len, prot, free_pages, areas) is Some {
        assert forall|k: int|
            0 <= k < areas.len() implies !(#[trigger] areas[k].start < end_page(start, len) && (start as int
                % 0x80_0000_0000) / 0x1000 < areas[k].end) by {
            assert(!overlaps(first_page(start), end_page(start, len), areas[k]));
        }
    }
}

/// `sys_munmap` refuses exactly the requests whose start is not page aligned
/// (in the low 39 bits), and otherwise unmaps from the requested address up
/// to a page boundary.
pub proof fn lemma_munmap_range(start: usize, len: usize)
    requires
        (start as int % 0x80_0000_0000) % 0x1000 == 0 ==> start + len <= usize::MAX,
    ensures
        munmap_decision(start, len) is None <==> (start as int % 0x80_0000_0000) % 0x1000 != 0,
        munmap_decision(start, len) matches Some(p) ==> p.0 as int == start as int % 0x80_0000_0000,
        munmap_decision(start, len) matches Some(p) ==> p.1 as int == (end_page(start, len) * 0x1000)
            as usize as int,
{
}

} // verus!
