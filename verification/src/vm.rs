//! User address-space bookkeeping of the kernel: Sv39 page arithmetic, mapped areas, and the
//! decisions of the `mmap`, `munmap` and `sbrk` system calls.
use vstd::prelude::*;

verus! {

/// Sv39 virtual addresses have 39 significant bits.
pub open spec fn va_space() -> int {
    0x80_0000_0000
}

/// Addresses at or above this value are sign-extended when read back.
pub open spec fn va_sign_bit() -> int {
    0x40_0000_0000
}

/// Page number of the page holding `a`, after truncating `a` to 39 bits.
pub open spec fn spec_floor(a: int) -> int {
    (a % va_space()) / 4096
}

/// Page number of the first page boundary at or above `a`, after truncating `a` to 39 bits.
pub open spec fn spec_ceil(a: int) -> int {
    (a % va_space() + 4095) / 4096
}

/// Page number of the page holding `a` (`VAddr::new(a).floor()` of the `page-table` crate).
pub fn page_floor(a: usize) -> (r: usize)
    ensures
        r == spec_floor(a as int),
{
    let x: u64 = a as u64;
    let m: u64 = x & 0x7F_FFFF_FFFFu64;
    assert(m == x % 0x80_0000_0000u64) by (bit_vector)
        requires m == x & 0x7F_FFFF_FFFFu64;
    (m / 4096) as usize
}

/// Page number of the first page boundary at or above `a` (`VAddr::new(a).ceil()`).
pub fn page_ceil(a: usize) -> (r: usize)
    ensures
        r == spec_ceil(a as int),
{
    let x: u64 = a as u64;
    let m: u64 = x & 0x7F_FFFF_FFFFu64;
    assert(m == x % 0x80_0000_0000u64) by (bit_vector)
        requires m == x & 0x7F_FFFF_FFFFu64;
    ((m + 4095) / 4096) as usize
}

/// The 64-bit address of page `vpn` (`VPN::base().val()`): the page's address truncated to 39
/// bits and sign-extended from bit 38.
pub open spec fn spec_base(vpn: int) -> int {
    let x = (vpn * 4096) % va_space();
    if x < va_sign_bit() { x } else { x + 0x1_0000_0000_0000_0000 - va_space() }
}

/// The address of page `vpn`, as the page-table crate reports it.
pub fn page_base(vpn: usize) -> (r: usize)
    ensures
        r == spec_base(vpn as int) as usize,
{
    let v: u64 = vpn as u64;
    let x: u64 = (v << 12u64) & 0x7F_FFFF_FFFFu64;
    let val: u64 = if x <= 0x3F_FFFF_FFFFu64 { x } else { x | !0x3F_FFFF_FFFFu64 };
    assert(x == (v * 4096) % 0x80_0000_0000) by (bit_vector)
        requires x == (v << 12u64) & 0x7F_FFFF_FFFFu64;
    assert(val == if x < 0x40_0000_0000 { x as int } else { x + 0x1_0000_0000_0000_0000 - 0x80_0000_0000 })
        by (bit_vector)
        requires
            x < 0x80_0000_0000u64,
            val == if x <= 0x3F_FFFF_FFFFu64 { x } else { x | !0x3F_FFFF_FFFFu64 },
    ;
    val as usize
}

/// Whether a mapping may be seen by child processes.
#[derive(Debug, Clone, Copy, PartialEq, Eq, Structural)]
pub enum MapVisibility {
    /// Changes are not shared with child processes.
    PRIVATE,
    /// Changes are shared with child processes.
    SHARED,
}

/// A mapped range of pages `start..end`.
#[derive(Debug, Clone, Copy, PartialEq, Eq, Structural)]
pub struct MappedRange {
    /// First page number.
    pub range_start: usize,
    /// Page number after the last.
    pub range_end: usize,
    /// Sharing with child processes.
    pub visibility: MapVisibility,
}

impl MappedRange {
    /// The range of pages `start..end`.
    pub fn new(start: usize, end: usize, visibility: MapVisibility) -> (r: Self)
        ensures
            r == (MappedRange { range_start: start, range_end: end, visibility }),
    {
        MappedRange { range_start: start, range_end: end, visibility }
    }

    /// First page number.
    pub fn start(&self) -> (r: usize)
        ensures
            r == self.range_start,
    {
        self.range_start
    }

    /// Page number after the last.
    pub fn end(&self) -> (r: usize)
        ensures
            r == self.range_end,
    {
        self.range_end
    }
}

/// `mmap` protection bit: readable.
pub const PROT_READ: i32 = 1;
/// `mmap` protection bit: writable.
pub const PROT_WRITE: i32 = 2;
/// `mmap` protection bit: executable.
pub const PROT_EXEC: i32 = 4;
/// `mmap` flag: private mapping.
pub const MAP_PRIVATE: i32 = 0x1;
/// `mmap` flag: shared mapping.
pub const MAP_SHARED: i32 = 0x2;
/// `mmap` flag: not backed by a file.
pub const MAP_ANONYMOUS: i32 = 0x20;

/// Permission string of a user mapping with protection `prot`: `U`, then `X`, `W`, `R` or `_`,
/// then `V`.
pub open spec fn spec_prot_bytes(prot: i32) -> Seq<u8> {
    seq![
        85u8,
        if prot & PROT_EXEC != 0 { 88u8 } else { 95u8 },
        if prot & PROT_WRITE != 0 { 87u8 } else { 95u8 },
        if prot & PROT_READ != 0 { 82u8 } else { 95u8 },
        86u8
    ]
}

/// The permission string for protection bits `prot`.
pub fn prot_flag_bytes(prot: i32) -> (r: [u8; 5])
    ensures
        r@ == spec_prot_bytes(prot),
{
    let mut prot_bytes: [u8; 5] = [85, 95, 95, 95, 86];
    if prot & PROT_READ != 0 {
        prot_bytes[3] = 82;
    }
    if prot & PROT_WRITE != 0 {
        prot_bytes[2] = 87;
    }
    if prot & PROT_EXEC != 0 {
        prot_bytes[1] = 88;
    }
    assert(prot_bytes@ =~= spec_prot_bytes(prot));
    prot_bytes
}

/// Sharing requested by `mmap` flags: exactly one of private and shared.
pub open spec fn spec_visibility(flags: i32) -> Option<MapVisibility> {
    if flags & (MAP_PRIVATE | MAP_SHARED) == MAP_PRIVATE {
        Some(MapVisibility::PRIVATE)
    } else if flags & (MAP_PRIVATE | MAP_SHARED) == MAP_SHARED {
        Some(MapVisibility::SHARED)
    } else {
        None
    }
}

/// Some area overlaps the pages `start..end`.
pub open spec fn conflicts(areas: Seq<MappedRange>, start: int, end: int) -> bool {
    exists|i: int| 0 <= i < areas.len() && areas[i].range_end > start && areas[i].range_start < end
}

/// What an accepted `mmap` does.
#[derive(Debug, Clone, Copy, PartialEq, Eq, Structural)]
pub struct MmapPlan {
    /// First page to map.
    pub start_vpn: usize,
    /// Page after the last to map.
    pub end_vpn: usize,
    /// Sharing with child processes.
    pub visibility: MapVisibility,
    /// Back the pages with fresh zeroed memory rather than with the file `fd`.
    pub anonymous: bool,
}

/// The pages an `mmap` would cover: from `addr` when given, else from the program break.
pub open spec fn mmap_pages(addr: usize, len: usize, brk: usize) -> (int, int) {
    if addr != 0 {
        (spec_floor(addr as int), spec_ceil(addr + len))
    } else {
        (spec_floor(brk as int), spec_ceil(brk + len))
    }
}

/// Decides an `mmap`: refuses an unaligned address, an empty length, and flags that are not
/// exactly one of private and shared. Without an address the mapping goes at the program
/// break, and the break moves past it even when the mapping is then refused. A range that
/// overlaps a mapped area is refused.
pub fn plan_mmap(
    areas: &Vec<MappedRange>,
    program_brk: &mut usize,
    addr: usize,
    len: usize,
    flags: i32,
) -> (r: Option<MmapPlan>)
    requires
        addr % 4096 == 0 && len != 0 && spec_visibility(flags) is Some ==> if addr != 0 {
            addr + len <= usize::MAX
        } else {
            *old(program_brk) + len <= usize::MAX
        },
    ensures
        ({
            let pages = mmap_pages(addr, len, *old(program_brk));
            let checked = addr % 4096 == 0 && len != 0 && spec_visibility(flags) is Some;
            &&& *final(program_brk) == if checked && addr == 0 {
                    spec_base(pages.1) as usize
                } else {
                    *old(program_brk)
                }
            &&& r is Some <==> checked && !conflicts(areas@, pages.0, pages.1)
            &&& r is Some ==> r->Some_0 == (MmapPlan {
                    start_vpn: pages.0 as usize,
                    end_vpn: pages.1 as usize,
                    visibility: spec_visibility(flags)->Some_0,
                    anonymous: flags & MAP_ANONYMOUS == MAP_ANONYMOUS,
                })
        }),
{
    if addr % 4096 != 0 {
        return None;
    }
    if len == 0 {
        return None;
    }
    let both = flags & (MAP_PRIVATE | MAP_SHARED);
    let visibility = if both == MAP_PRIVATE {
        MapVisibility::PRIVATE
    } else if both == MAP_SHARED {
        MapVisibility::SHARED
    } else {
        return None;
    };
    let start;
    let end;
    if addr != 0 {
        start = page_floor(addr);
        end = page_ceil(addr + len);
    } else {
        let brk = *program_brk;
        start = page_floor(brk);
        end = page_ceil(brk + len);
        *program_brk = page_base(end);
    }
    if overlaps_any(areas, start, end) {
        return None;
    }
    Some(MmapPlan { start_vpn: start, end_vpn: end, visibility, anonymous: (flags & MAP_ANONYMOUS) == MAP_ANONYMOUS })
}

/// Some area contains the pages `start..end`.
pub open spec fn within_area(areas: Seq<MappedRange>, start: int, end: int) -> bool {
    exists|i: int| 0 <= i < areas.len() && start >= areas[i].range_start && end <= areas[i].range_end
}

/// Decides a `munmap`: the pages to unmap, or `None` for an unaligned address or a range not
/// inside a single mapped area.
pub fn plan_munmap(areas: &Vec<MappedRange>, addr: usize, len: usize) -> (r: Option<(usize, usize)>)
    requires
        addr % 4096 == 0 ==> addr + len <= usize::MAX,
    ensures
        ({
            let start = spec_floor(addr as int);
            let end = spec_ceil(addr + len);
            &&& r is Some <==> addr % 4096 == 0 && within_area(areas@, start, end)
            &&& r is Some ==> r->Some_0 == (start as usize, end as usize)
        }),
{
    if addr % 4096 != 0 {
        return None;
    }
    let start = page_floor(addr);
    let end = page_ceil(addr + len);
    if inside_some(areas, start, end) {
        Some((start, end))
    } else {
        None
    }
}

/// Whether some area overlaps the pages `start..end`.
fn overlaps_any(areas: &Vec<MappedRange>, start: usize, end: usize) -> (r: bool)
    ensures
        r == conflicts(areas@, start as int, end as int),
{
    let mut i: usize = 0;
    while i < areas.len()
        invariant
            0 <= i <= areas@.len(),
            forall|k: int| 0 <= k < i ==> !(areas@[k].range_end > start && areas@[k].range_start < end),
        decreases areas@.len() - i,
    {
        if areas[i].range_end > start && areas[i].range_start < end {
            assert(areas@[i as int].range_end > start && areas@[i as int].range_start < end);
            return true;
        }
        i = i + 1;
    }
    false
}

/// Whether some area contains the pages `start..end`.
fn inside_some(areas: &Vec<MappedRange>, start: usize, end: usize) -> (r: bool)
    ensures
        r == within_area(areas@, start as int, end as int),
{
    let mut i: usize = 0;
    while i < areas.len()
        invariant
            0 <= i <= areas@.len(),
            forall|k: int| 0 <= k < i ==> !(start >= areas@[k].range_start && end <= areas@[k].range_end),
        decreases areas@.len() - i,
    {
        if start >= areas[i].range_start && end <= areas[i].range_end {
            assert(start >= areas@[i as int].range_start && end <= areas@[i as int].range_end);
            return true;
        }
        i = i + 1;
    }
    false
}

/// Page-table work that moving the program break needs.
#[derive(Debug, Clone, Copy, PartialEq, Eq, Structural)]
pub enum BrkPages {
    /// Map pages `start..end`.
    MapPages(usize, usize),
    /// Unmap pages `start..end`.
    UnmapPages(usize, usize),
    /// Nothing.
    Keep,
}

/// Moving the program break `brk` by `size` over a heap starting at `heap_bottom`: `None` when
/// the break would drop below the heap bottom, else the new break and the page-table work.
pub open spec fn brk_step(heap_bottom: int, brk: int, size: int) -> Option<(int, BrkPages)> {
    let new_brk = brk + size;
    if new_brk < heap_bottom {
        None
    } else {
        let oc = spec_ceil(brk);
        let nc = spec_ceil(new_brk);
        Some((new_brk, if size > 0 && nc > oc {
            BrkPages::MapPages(oc as usize, nc as usize)
        } else if size < 0 && oc > nc {
            BrkPages::UnmapPages(nc as usize, oc as usize)
        } else {
            BrkPages::Keep
        }))
    }
}

/// The page-table work that undoes `p`.
pub open spec fn undo_pages(p: BrkPages) -> BrkPages {
    match p {
        BrkPages::MapPages(a, b) => BrkPages::UnmapPages(a, b),
        BrkPages::UnmapPages(a, b) => BrkPages::MapPages(a, b),
        BrkPages::Keep => BrkPages::Keep,
    }
}

/// Growing the heap by `s` bytes and then shrinking it by `s` bytes brings the break back and
/// unmaps exactly the pages the growth mapped.
pub proof fn lemma_brk_roundtrip(heap_bottom: int, brk: int, s: int)
    requires
        heap_bottom <= brk,
        0 < s,
    ensures
        brk_step(heap_bottom, brk, s) is Some,
        brk_step(heap_bottom, brk, s)->Some_0.0 == brk + s,
        brk_step(heap_bottom, brk + s, -s) == Some((brk, undo_pages(brk_step(heap_bottom, brk, s)->Some_0.1))),
{
}

/// Where the heap begins and where it currently ends.
pub struct HeapBounds {
    /// Bottom of the heap.
    pub heap_bottom: usize,
    /// Current program break.
    pub program_brk: usize,
}

impl HeapBounds {
    /// Moves the program break by `size` bytes: refused (`None`) when it would drop below the
    /// heap bottom; otherwise returns the old break and the pages to map (growing past a page
    /// boundary) or unmap (shrinking below one).
    pub fn change_program_brk(&mut self, size: isize) -> (r: Option<(usize, BrkPages)>)
        requires
            old(self).program_brk <= isize::MAX,
            old(self).heap_bottom <= isize::MAX,
            isize::MIN <= old(self).program_brk + size <= isize::MAX,
        ensures
            final(self).heap_bottom == old(self).heap_bottom,
            ({
                let new_brk = old(self).program_brk + size;
                let oc = spec_ceil(old(self).program_brk as int);
                let nc = spec_ceil(new_brk);
                &&& r is None <==> new_brk < old(self).heap_bottom
                &&& r is None ==> final(self).program_brk == old(self).program_brk
                &&& r is Some ==> final(self).program_brk == new_brk
                &&& r is Some ==> r->Some_0.0 == old(self).program_brk
                &&& r is Some ==> r->Some_0.1 == if size > 0 && nc > oc {
                        BrkPages::MapPages(oc as usize, nc as usize)
                    } else if size < 0 && oc > nc {
                        BrkPages::UnmapPages(nc as usize, oc as usize)
                    } else {
                        BrkPages::Keep
                    }
            }),
            match brk_step(old(self).heap_bottom as int, old(self).program_brk as int, size as int) {
                None => r is None,
                Some((b, pages)) => r == Some((old(self).program_brk, pages)) && final(self).program_brk == b,
            },
    {
        let old_brk = self.program_brk;
        let new_brk = self.program_brk as isize + size;
        if new_brk < self.heap_bottom as isize {
            return None;
        }
        let new_brk = new_brk as usize;
        let old_ceil = page_ceil(old_brk);
        let new_ceil = page_ceil(new_brk);
        let pages = if size > 0 && new_ceil > old_ceil {
            BrkPages::MapPages(old_ceil, new_ceil)
        } else if size < 0 && old_ceil > new_ceil {
            BrkPages::UnmapPages(new_ceil, old_ceil)
        } else {
            BrkPages::Keep
        };
        self.program_brk = new_brk;
        Some((old_brk, pages))
    }
}

/// `lseek` origin: from the start of the file.
pub const SEEK_SET: usize = 0;
/// `lseek` origin: from the current offset.
pub const SEEK_CUR: usize = 1;

/// The file offset `lseek` moves to, or `None` for an unsupported origin (including
/// `SEEK_END`). A negative move from the current offset wraps around.
pub fn lseek_target(cur: usize, offset: isize, whence: usize) -> (r: Option<usize>)
    requires
        whence == SEEK_CUR && offset >= 0 ==> cur + offset <= usize::MAX,
    ensures
        r == if whence == SEEK_SET {
            Some(offset as usize)
        } else if whence == SEEK_CUR {
            if offset < 0 {
                Some(vstd::wrapping::usize_specs::wrapping_add(cur, offset as usize))
            } else {
                Some((cur + offset) as usize)
            }
        } else {
            None
        },
{
    if whence == SEEK_SET {
        Some(offset as usize)
    } else if whence == SEEK_CUR {
        if offset < 0 {
            Some(cur.wrapping_add(offset as usize))
        } else {
            Some(cur + offset as usize)
        }
    } else {
        None
    }
}

/// `set_priority` accepts priorities of at least 2.
pub fn priority_accepted(prio: isize) -> (r: bool)
    ensures
        r == (prio >= 2),
{
    prio >= 2
}

} // verus!
