//! Loading a user program: checking the ELF header, ordering the loadable segments, and laying
//! them out page by page, merging the page that two neighbouring segments share.
use vstd::prelude::*;
use xmas_elf::header::{HeaderPt2, Machine};
use xmas_elf::{program, ElfFile};

verus! {

/// Bytes per page.
pub const PAGE_SIZE: usize = 4096;
/// ELF object type of an executable.
pub const ET_EXEC: u16 = 2;
/// Program header flag: executable.
pub const PF_X: u32 = 0x1;
/// Program header flag: writable.
pub const PF_W: u32 = 0x2;
/// Program header flag: readable.
pub const PF_R: u32 = 0x4;

/// Access rights of a mapping.
#[derive(Debug, Clone, Copy, PartialEq, Eq, Structural)]
pub struct SegFlags {
    /// Instructions may be fetched.
    pub executable: bool,
    /// Stores are allowed.
    pub write: bool,
    /// Loads are allowed.
    pub read: bool,
}

/// Rights granted by either of two flag sets.
pub open spec fn flags_union(a: SegFlags, b: SegFlags) -> SegFlags {
    SegFlags { executable: a.executable || b.executable, write: a.write || b.write, read: a.read || b.read }
}

/// `a` grants at least the rights of `b`.
pub open spec fn flags_cover(a: SegFlags, b: SegFlags) -> bool {
    (b.executable ==> a.executable) && (b.write ==> a.write) && (b.read ==> a.read)
}

/// A program header as the loader reads it.
#[derive(Debug, Clone, Copy, PartialEq, Eq, Structural)]
pub struct ProgramSegment {
    /// The segment is of type LOAD.
    pub is_load: bool,
    /// Offset of the segment's bytes in the file.
    pub offset: usize,
    /// Number of bytes in the file.
    pub file_size: usize,
    /// Virtual address of the first byte.
    pub vaddr: usize,
    /// Number of bytes in memory.
    pub mem_size: usize,
    /// Raw permission bits (`PF_X`, `PF_W`, `PF_R`).
    pub flags: u32,
}

/// The parts of an ELF file the loader uses.
pub struct ElfImage {
    /// The file uses the 64-bit layout.
    pub class64: bool,
    /// Object file type.
    pub elf_type: u16,
    /// The target machine is RISC-V.
    pub riscv: bool,
    /// Entry point.
    pub entry: u64,
    /// The program headers in file order.
    pub segments: Vec<ProgramSegment>,
    /// The whole file.
    pub input: Vec<u8>,
}

/// Pages `start_vpn..end_vpn`, zero-filled, with `data` copied in at byte `page_offset` of the
/// first page, mapped with `flags`.
pub struct PageMapping {
    /// First page number.
    pub start_vpn: usize,
    /// Page number after the last.
    pub end_vpn: usize,
    /// Bytes to copy in.
    pub data: Vec<u8>,
    /// Where the bytes start within the first page.
    pub page_offset: usize,
    /// Access rights.
    pub flags: SegFlags,
}

/// The mappings of a loaded program and where its heap begins.
pub struct LoadPlan {
    /// Entry point.
    pub entry: usize,
    /// The mappings, in the order they are made.
    pub mappings: Vec<PageMapping>,
    /// First page-aligned address above every loaded segment.
    pub heap_bottom: usize,
}

/// The header describes a 64-bit RISC-V executable.
pub open spec fn header_accepted(image: &ElfImage) -> bool {
    image.class64 && image.elf_type == ET_EXEC && image.riscv
}

/// Rights named by raw permission bits.
pub open spec fn spec_seg_flags(bits: u32) -> SegFlags {
    SegFlags { executable: bits & PF_X == PF_X, write: bits & PF_W == PF_W, read: bits & PF_R == PF_R }
}

/// Rights named by raw permission bits.
pub fn seg_flags(bits: u32) -> (f: SegFlags)
    ensures
        f == spec_seg_flags(bits),
{
    SegFlags { executable: bits & PF_X == PF_X, write: bits & PF_W == PF_W, read: bits & PF_R == PF_R }
}

/// A loadable segment the loader can lay out without fault: its bytes lie in the file, its
/// file offset and address agree within a page, and its memory ends at least a page below the top of the address space.
pub open spec fn segment_loadable(s: ProgramSegment, input_len: int) -> bool {
    &&& s.offset + s.file_size <= input_len
    &&& s.offset % 4096 == s.vaddr % 4096
    &&& s.vaddr + s.mem_size + 4096 <= usize::MAX
    &&& s.vaddr + s.file_size <= usize::MAX
}

/// Every loadable segment of `segs` can be laid out from a file of `input_len` bytes.
pub open spec fn segments_loadable(segs: Seq<ProgramSegment>, input_len: int) -> bool {
    forall|i: int| 0 <= i < segs.len() && (#[trigger] segs[i]).is_load ==> segment_loadable(segs[i], input_len)
}

/// Every loadable segment of the image can be laid out.
pub open spec fn image_loadable(image: &ElfImage) -> bool {
    segments_loadable(image.segments@, image.input@.len() as int)
}

/// Mapping `m` covers address `a`.
pub open spec fn maps_addr(m: &PageMapping, a: int) -> bool {
    m.start_vpn * 4096 <= a < m.end_vpn * 4096
}

/// The byte that mapping `m` places at address `a`.
pub open spec fn mapped_byte(m: &PageMapping, a: int) -> u8 {
    let i = a - m.start_vpn * 4096 - m.page_offset;
    if 0 <= i < m.data@.len() { m.data@[i] } else { 0 }
}

/// Address `a` is mapped by some mapping of `ms` holding byte `v`.
pub open spec fn image_holds(ms: Seq<PageMapping>, a: int, v: u8) -> bool {
    exists|i: int| 0 <= i < ms.len() && maps_addr(&ms[i], a) && mapped_byte(&ms[i], a) == v
}

/// The page of address `a` is mapped by some mapping of `ms` with at least rights `f`.
pub open spec fn image_grants(ms: Seq<PageMapping>, a: int, f: SegFlags) -> bool {
    exists|i: int| 0 <= i < ms.len() && maps_addr(&ms[i], a) && flags_cover(ms[i].flags, f)
}

/// No two mappings of `ms` share a page.
pub open spec fn mappings_disjoint(ms: Seq<PageMapping>) -> bool {
    forall|i: int, j: int| 0 <= i < j < ms.len() ==>
        ms[i].end_vpn <= ms[j].start_vpn || ms[j].end_vpn <= ms[i].start_vpn
}

/// The highest end address of the loadable segments, 0 if there is none.
pub open spec fn max_load_end(segs: Seq<ProgramSegment>) -> int
    decreases segs.len(),
{
    if segs.len() == 0 {
        0
    } else {
        let m = max_load_end(segs.drop_last());
        let s = segs.last();
        if s.is_load && s.vaddr + s.mem_size > m { s.vaddr + s.mem_size } else { m }
    }
}

/// The loadable segments of `segs`, in file order.
pub open spec fn loads_of(segs: Seq<ProgramSegment>) -> Seq<ProgramSegment>
    decreases segs.len(),
{
    if segs.len() == 0 {
        Seq::empty()
    } else if segs.last().is_load {
        loads_of(segs.drop_last()).push(segs.last())
    } else {
        loads_of(segs.drop_last())
    }
}

/// Page `v` is one that segment `s` is laid out on: the page of its first address, and every
/// later page that holds part of its memory.
pub open spec fn touches(s: ProgramSegment, v: int) -> bool {
    s.vaddr / 4096 <= v && (v == s.vaddr / 4096 || v * 4096 < s.vaddr + s.mem_size)
}

/// Some segment of `segs` is laid out on page `v`.
pub open spec fn page_touched(segs: Seq<ProgramSegment>, v: int) -> bool {
    exists|j: int| 0 <= j < segs.len() && #[trigger] touches(segs[j], v)
}

/// No access rights.
pub open spec fn no_rights() -> SegFlags {
    SegFlags { executable: false, write: false, read: false }
}

/// The rights of all segments of `segs` laid out on page `v`, together.
pub open spec fn page_rights(segs: Seq<ProgramSegment>, v: int) -> SegFlags
    decreases segs.len(),
{
    if segs.len() == 0 {
        no_rights()
    } else {
        flags_union(page_rights(segs.drop_last(), v),
            if touches(segs.last(), v) { spec_seg_flags(segs.last().flags) } else { no_rights() })
    }
}

/// Page `v` is one that some segment of `segs` is laid out on, and rights `f` are among the
/// rights of those segments.
pub open spec fn rights_bounded(segs: Seq<ProgramSegment>, f: SegFlags, v: int) -> bool {
    page_touched(segs, v) && flags_cover(page_rights(segs, v), f)
}

/// Address `a` holds a byte of the file part of some segment of `segs`.
pub open spec fn in_file(segs: Seq<ProgramSegment>, a: int) -> bool {
    exists|j: int| 0 <= j < segs.len() && #[trigger] segs[j].vaddr <= a < segs[j].vaddr + segs[j].file_size
}

/// The rights of a segment laid out on page `v` are among the rights of page `v`.
proof fn lemma_rights_include(segs: Seq<ProgramSegment>, j: int, v: int)
    requires
        0 <= j < segs.len(),
        touches(segs[j], v),
    ensures
        flags_cover(page_rights(segs, v), spec_seg_flags(segs[j].flags)),
        page_touched(segs, v),
    decreases segs.len(),
{
    if j < segs.len() - 1 {
        lemma_rights_include(segs.drop_last(), j, v);
        assert(segs.drop_last()[j] == segs[j]);
    }
}

/// Rights drawn from segments that all occur in `b` are among the rights that `b` gives.
proof fn lemma_rights_subset(a: Seq<ProgramSegment>, b: Seq<ProgramSegment>, v: int)
    requires
        forall|i: int| 0 <= i < a.len() ==> b.contains(#[trigger] a[i]),
    ensures
        flags_cover(page_rights(b, v), page_rights(a, v)),
        page_touched(a, v) ==> page_touched(b, v),
    decreases a.len(),
{
    if a.len() > 0 {
        let d = a.drop_last();
        assert forall|i: int| 0 <= i < d.len() implies b.contains(#[trigger] d[i]) by {
            assert(d[i] == a[i]);
        }
        lemma_rights_subset(d, b, v);
        assert(b.contains(a[a.len() - 1]));
        let k = choose|k: int| 0 <= k < b.len() && b[k] == a[a.len() - 1];
        if touches(a.last(), v) {
            lemma_rights_include(b, k, v);
        }
        if page_touched(a, v) {
            let j = choose|j: int| 0 <= j < a.len() && #[trigger] touches(a[j], v);
            if j < a.len() - 1 {
                assert(d[j] == a[j]);
                assert(page_touched(d, v));
            } else {
                lemma_rights_include(b, k, v);
            }
        }
    }
}

/// A page being assembled from one or more segments before it is mapped.
struct Pending {
    vpn: usize,
    flags: SegFlags,
    data: Vec<u8>,
}

/// `p` holds byte `v` for address `a`.
spec fn pend_holds(p: Option<Pending>, a: int, v: u8) -> bool {
    &&& p is Some
    &&& p->Some_0.vpn * 4096 <= a < p->Some_0.vpn * 4096 + 4096
    &&& p->Some_0.data@[a - p->Some_0.vpn * 4096] == v
}

/// `p` grants rights `f` for address `a`.
spec fn pend_grants(p: Option<Pending>, a: int, f: SegFlags) -> bool {
    &&& p is Some
    &&& p->Some_0.vpn * 4096 <= a < p->Some_0.vpn * 4096 + 4096
    &&& flags_cover(p->Some_0.flags, f)
}

spec fn holds(ms: Seq<PageMapping>, p: Option<Pending>, a: int, v: u8) -> bool {
    image_holds(ms, a, v) || pend_holds(p, a, v)
}

spec fn grants(ms: Seq<PageMapping>, p: Option<Pending>, a: int, f: SegFlags) -> bool {
    image_grants(ms, a, f) || pend_grants(p, a, f)
}

/// Segment `s` is laid out: its file bytes, its zero fill and its rights.
spec fn placed(ms: Seq<PageMapping>, p: Option<Pending>, s: ProgramSegment, input: Seq<u8>) -> bool {
    &&& forall|a: int| s.vaddr <= a < s.vaddr + s.file_size ==> #[trigger] holds(ms, p, a, input[s.offset + a - s.vaddr])
    &&& forall|a: int| s.vaddr + s.file_size <= a < s.vaddr + s.mem_size ==> #[trigger] holds(ms, p, a, 0u8)
    &&& forall|a: int| s.vaddr <= a < s.vaddr + s.mem_size ==> #[trigger] grants(ms, p, a, spec_seg_flags(s.flags))
}

/// The pending page, if any, is a full page of a valid address.
spec fn state_ok(p: Option<Pending>) -> bool {
    p is Some ==> p->Some_0.data@.len() == 4096 && p->Some_0.vpn * 4096 + 4096 <= usize::MAX
}

/// Every mapped page and the pending page are pages some segment of `segs` is laid out on,
/// with no rights beyond those segments', and every byte outside the file parts of `segs` is
/// zero.
spec fn bounded(ms: Seq<PageMapping>, p: Option<Pending>, segs: Seq<ProgramSegment>) -> bool {
    &&& forall|i: int, v: int| 0 <= i < ms.len() && ms[i].start_vpn <= v < ms[i].end_vpn
        ==> #[trigger] rights_bounded(segs, ms[i].flags, v)
    &&& forall|i: int, a: int| 0 <= i < ms.len() && maps_addr(&ms[i], a) && !in_file(segs, a)
        ==> #[trigger] mapped_byte(&ms[i], a) == 0u8
    &&& p is Some ==> rights_bounded(segs, p->Some_0.flags, p->Some_0.vpn as int)
    &&& p is Some ==> forall|k: int| 0 <= k < 4096 && !in_file(segs, p->Some_0.vpn * 4096 + k)
        ==> #[trigger] p->Some_0.data@[k] == 0u8
}

/// Mapping the pending page keeps the image within its segments' pages, rights and bytes.
proof fn lemma_bounded_flush(ms: Seq<PageMapping>, p: Option<Pending>, msf: Seq<PageMapping>, segs: Seq<ProgramSegment>)
    requires
        bounded(ms, p, segs),
        state_ok(p),
        p is Some,
        msf.len() == ms.len() + 1,
        msf.drop_last() == ms,
        msf.last().start_vpn == p->Some_0.vpn,
        msf.last().end_vpn == p->Some_0.vpn + 1,
        msf.last().data@ == p->Some_0.data@,
        msf.last().page_offset == 0,
        msf.last().flags == p->Some_0.flags,
    ensures
        bounded(msf, None, segs),
{
    let n = ms.len() as int;
    assert forall|i: int, v: int| 0 <= i < msf.len() && msf[i].start_vpn <= v < msf[i].end_vpn
        implies #[trigger] rights_bounded(segs, msf[i].flags, v) by {
        if i < n {
            assert(msf[i] == ms[i]);
        }
    }
    assert forall|i: int, a: int| 0 <= i < msf.len() && maps_addr(&msf[i], a) && !in_file(segs, a)
        implies #[trigger] mapped_byte(&msf[i], a) == 0u8 by {
        if i < n {
            assert(msf[i] == ms[i]);
        } else {
            let k = a - p->Some_0.vpn * 4096;
            assert(p->Some_0.data@[k] == 0u8);
        }
    }
}

/// Mapped pages lie below `frontier` and do not overlap; the pending page is at or above it.
spec fn layout_ok(ms: Seq<PageMapping>, p: Option<Pending>, frontier: int) -> bool {
    &&& mappings_disjoint(ms)
    &&& forall|i: int| 0 <= i < ms.len() ==> #[trigger] ms[i].start_vpn < ms[i].end_vpn <= frontier
    &&& p is Some ==> frontier <= p->Some_0.vpn
    &&& frontier >= 0
}

/// Where the loader stands after the segments ending at `last_end`: the pending page holds the
/// last of them, and nothing beyond `last_end` has been written in it.
spec fn frontier_ok(p: Option<Pending>, frontier: int, last_end: int, started: bool) -> bool {
    &&& !started ==> p is None && frontier == 0 && last_end == 0
    &&& p is None ==> frontier * 4096 <= last_end
    &&& p is Some ==> started
    &&& p is Some ==> p->Some_0.vpn * 4096 < last_end <= p->Some_0.vpn * 4096 + 4096
    &&& p is Some ==> forall|k: int| 0 <= k < 4096 && p->Some_0.vpn * 4096 + k >= last_end
        ==> #[trigger] p->Some_0.data@[k] == 0u8
}

/// The bytes `src[from..from + len]`.
fn bytes_of(src: &Vec<u8>, from: usize, len: usize) -> (r: Vec<u8>)
    requires
        from + len <= src@.len(),
    ensures
        r@ == src@.subrange(from as int, from + len),
{
    let mut r: Vec<u8> = Vec::new();
    let n = src.len();
    let mut i: usize = 0;
    while i < len
        invariant
            0 <= i <= len,
            from + len <= src@.len(),
            n == src@.len(),
            r@ == src@.subrange(from as int, from + i),
        decreases len - i,
    {
        r.push(src[from + i]);
        assert(src@.subrange(from as int, from + i + 1) =~= src@.subrange(from as int, from + i).push(src@[from + i]));
        i = i + 1;
    }
    r
}

/// Copies `src[from..from + len]` into `dst` at `at`.
fn copy_bytes(dst: &mut Vec<u8>, at: usize, src: &Vec<u8>, from: usize, len: usize)
    requires
        at + len <= old(dst)@.len(),
        from + len <= src@.len(),
    ensures
        final(dst)@.len() == old(dst)@.len(),
        forall|k: int| 0 <= k < old(dst)@.len() ==> #[trigger] final(dst)@[k] == if at <= k < at + len {
            src@[from + k - at]
        } else {
            old(dst)@[k]
        },
{
    let ghost orig = dst@;
    let n = src.len();
    let m = dst.len();
    let mut i: usize = 0;
    while i < len
        invariant
            0 <= i <= len,
            n == src@.len(),
            m == orig.len(),
            at + len <= orig.len(),
            from + len <= src@.len(),
            dst@.len() == orig.len(),
            forall|k: int| 0 <= k < orig.len() ==> #[trigger] dst@[k] == if at <= k < at + i {
                src@[from + k - at]
            } else {
                orig[k]
            },
        decreases len - i,
    {
        dst.set(at + i, src[from + i]);
        i = i + 1;
    }
}

/// A page of zero bytes.
fn zero_page() -> (r: Vec<u8>)
    ensures
        r@.len() == 4096,
        forall|k: int| 0 <= k < 4096 ==> #[trigger] r@[k] == 0u8,
{
    let mut r: Vec<u8> = Vec::new();
    let mut i: usize = 0;
    while i < PAGE_SIZE
        invariant
            0 <= i <= 4096,
            r@.len() == i,
            forall|k: int| 0 <= k < i ==> #[trigger] r@[k] == 0u8,
        decreases 4096 - i,
    {
        r.push(0);
        i = i + 1;
    }
    r
}

fn min_usize(a: usize, b: usize) -> (r: usize)
    ensures
        r == if a < b { a } else { b },
{
    if a < b { a } else { b }
}

fn max_usize(a: usize, b: usize) -> (r: usize)
    ensures
        r == if a > b { a } else { b },
{
    if a > b { a } else { b }
}

/// How many file bytes of a segment at `off_mem` with `len` file bytes lie below page `vpn`.
spec fn target_offset(len: int, off_mem: int, vpn: int) -> int {
    let d = vpn * 4096 - off_mem;
    if d <= 0 { 0 } else if d < len { d } else { len }
}

/// What a step of the layout may assume about the segment it places: it follows the segments
/// already placed and has no more file bytes than memory bytes.
spec fn step_hyp(ms: Seq<PageMapping>, p: Option<Pending>, frontier: int, last_end: int, started: bool, s: ProgramSegment) -> bool {
    &&& layout_ok(ms, p, frontier)
    &&& frontier_ok(p, frontier, last_end, started)
    &&& last_end <= s.vaddr
    &&& s.file_size <= s.mem_size
}

/// The part of `placed` for addresses in `lo..hi`.
spec fn placed_part(ms: Seq<PageMapping>, p: Option<Pending>, s: ProgramSegment, input: Seq<u8>, lo: int, hi: int) -> bool {
    &&& forall|a: int| s.vaddr <= a < s.vaddr + s.file_size && lo <= a < hi
        ==> #[trigger] holds(ms, p, a, input[s.offset + a - s.vaddr])
    &&& forall|a: int| s.vaddr + s.file_size <= a < s.vaddr + s.mem_size && lo <= a < hi
        ==> #[trigger] holds(ms, p, a, 0u8)
    &&& forall|a: int| s.vaddr <= a < s.vaddr + s.mem_size && lo <= a < hi
        ==> #[trigger] grants(ms, p, a, spec_seg_flags(s.flags))
}

/// After the pending page was dealt with: what was laid out before is now in `ms1`, and the
/// segment is laid out below page `current`.
spec fn flushed_ok(ms0: Seq<PageMapping>, p0: Option<Pending>, ms1: Seq<PageMapping>, s: ProgramSegment,
    input: Seq<u8>, current: int) -> bool
{
    &&& forall|a: int, v: u8| a < s.vaddr && #[trigger] holds(ms0, p0, a, v) ==> image_holds(ms1, a, v)
    &&& forall|a: int, f: SegFlags| a < s.vaddr && #[trigger] grants(ms0, p0, a, f) ==> image_grants(ms1, a, f)
    &&& placed_part(ms1, None, s, input, s.vaddr as int, current * 4096)
}

/// `ms2` extends `ms1`.
spec fn extends(ms1: Seq<PageMapping>, ms2: Seq<PageMapping>) -> bool {
    ms1.len() <= ms2.len() && forall|i: int| 0 <= i < ms1.len() ==> #[trigger] ms2[i] == ms1[i]
}

proof fn lemma_extends_holds(ms1: Seq<PageMapping>, ms2: Seq<PageMapping>, p: Option<Pending>)
    requires
        extends(ms1, ms2),
    ensures
        forall|a: int, v: u8| #[trigger] image_holds(ms1, a, v) ==> holds(ms2, p, a, v),
        forall|a: int, f: SegFlags| #[trigger] image_grants(ms1, a, f) ==> grants(ms2, p, a, f),
{
    assert forall|a: int, v: u8| #[trigger] image_holds(ms1, a, v) implies holds(ms2, p, a, v) by {
        let i = choose|i: int| 0 <= i < ms1.len() && maps_addr(&ms1[i], a) && mapped_byte(&ms1[i], a) == v;
        assert(ms2[i] == ms1[i]);
    }
    assert forall|a: int, f: SegFlags| #[trigger] image_grants(ms1, a, f) implies grants(ms2, p, a, f) by {
        let i = choose|i: int| 0 <= i < ms1.len() && maps_addr(&ms1[i], a) && flags_cover(ms1[i].flags, f);
        assert(ms2[i] == ms1[i]);
    }
}

/// Maps the pages of segment `s` from page `current_vpn` on: whole pages in bulk, the last page
/// kept pending.
#[verifier::spinoff_prover]
fn place_tail(
    ms: &mut Vec<PageMapping>,
    pending: &mut Option<Pending>,
    s: ProgramSegment,
    input: &Vec<u8>,
    current_vpn: usize,
    current_file_offset: usize,
    Ghost(nf0): Ghost<int>,
    Ghost(h): Ghost<bool>,
    Ghost(segs): Ghost<Seq<ProgramSegment>>,
    Ghost(j): Ghost<int>,
) -> (nf: Ghost<int>)
    requires
        segment_loadable(s, input@.len() as int),
        *old(pending) is None,
        0 <= j < segs.len(),
        segs[j] == s,
        bounded(old(ms)@, None, segs),
        current_file_offset == target_offset(s.file_size as int, s.vaddr as int, current_vpn as int),
        s.vaddr / 4096 <= current_vpn <= s.vaddr / 4096 + 1,
        current_vpn < (s.vaddr + s.mem_size + 4095) / 4096,
        h ==> layout_ok(old(ms)@, None, nf0) && nf0 <= current_vpn && s.file_size <= s.mem_size,
    ensures
        state_ok(*final(pending)),
        extends(old(ms)@, final(ms)@),
        bounded(final(ms)@, *final(pending), segs),
        h ==> {
            &&& layout_ok(final(ms)@, *final(pending), nf@)
            &&& frontier_ok(*final(pending), nf@, s.vaddr + s.mem_size, true)
            &&& placed_part(final(ms)@, *final(pending), s, input@, current_vpn * 4096, s.vaddr + s.mem_size)
        },
{
    let ghost ms1 = ms@;
    let input_len = input.len();
    let off_file = s.offset;
    let len_file = s.file_size;
    let off_mem = s.vaddr;
    let end_mem = s.vaddr + s.mem_size;
    let flags = seg_flags(s.flags);
    let end_vpn = (end_mem + PAGE_SIZE - 1) / PAGE_SIZE;
    let last_vpn = end_vpn - 1;
    assert((last_vpn as int) * 4096 < end_mem <= (last_vpn as int) * 4096 + 4096);
    let mut cfo = current_file_offset;
    let mut nf: Ghost<int> = Ghost(nf0);
    let ghost mut bulk_idx: int = -1;
    if current_vpn < last_vpn {
        let bulk_off_mem = max_usize(off_mem, current_vpn * PAGE_SIZE);
        let bulk_end_mem = min_usize(off_mem + len_file, last_vpn * PAGE_SIZE);
        let bulk_copy_len = bulk_end_mem.saturating_sub(bulk_off_mem);
        let bulk_data = bytes_of(input, off_file + cfo, bulk_copy_len);
        let bulk_page_offset = bulk_off_mem - current_vpn * PAGE_SIZE;
        proof { bulk_idx = ms@.len() as int; }
        ms.push(PageMapping { start_vpn: current_vpn, end_vpn: last_vpn, data: bulk_data, page_offset: bulk_page_offset, flags });
        nf = Ghost(last_vpn as int);
        cfo = cfo + bulk_copy_len;
        proof {
            let m = ms@[bulk_idx];
            let msb = ms@;
            assert forall|i: int, v: int| 0 <= i < msb.len() && msb[i].start_vpn <= v < msb[i].end_vpn
                implies #[trigger] rights_bounded(segs, msb[i].flags, v) by {
                if i < ms1.len() {
                    assert(msb[i] == ms1[i]);
                } else {
                    assert(touches(segs[j], v));
                    lemma_rights_include(segs, j, v);
                }
            }
            assert forall|i: int, a: int| 0 <= i < msb.len() && maps_addr(&msb[i], a) && !in_file(segs, a)
                implies #[trigger] mapped_byte(&msb[i], a) == 0u8 by {
                if i < ms1.len() {
                    assert(msb[i] == ms1[i]);
                } else {
                    let k = a - m.start_vpn * 4096 - m.page_offset;
                    if 0 <= k < m.data@.len() {
                        assert(segs[j].vaddr <= a < segs[j].vaddr + segs[j].file_size);
                    }
                }
            }
            assert(bounded(msb, None, segs));
        }
        proof {
            if h {
                let m = ms@[bulk_idx];
                assert forall|a: int| current_vpn * 4096 <= a < last_vpn * 4096 && s.vaddr <= a < s.vaddr + s.file_size
                    implies #[trigger] mapped_byte(&m, a) == input@[s.offset + a - s.vaddr] by {}
                assert forall|a: int| current_vpn * 4096 <= a < last_vpn * 4096 && s.vaddr + s.file_size <= a
                    implies #[trigger] mapped_byte(&m, a) == 0u8 by {}
            }
        }
    }
    assert(cfo == target_offset(len_file as int, off_mem as int, last_vpn as int));
    let ghost ms2 = ms@;
    let mut p_data = zero_page();
    let last_page_va = last_vpn * PAGE_SIZE;
    let last_off_mem = max_usize(off_mem, last_page_va);
    let last_page_offset = last_off_mem - last_page_va;
    let remaining = len_file.saturating_sub(cfo);
    let copy_len = min_usize(remaining, PAGE_SIZE - last_page_offset);
    copy_bytes(&mut p_data, last_page_offset, input, off_file + cfo, copy_len);
    proof {
        assert(bounded(ms2, None, segs));
        assert(touches(segs[j], last_vpn as int));
        lemma_rights_include(segs, j, last_vpn as int);
        assert forall|k: int| 0 <= k < 4096 && !in_file(segs, last_vpn * 4096 + k) implies #[trigger] p_data@[k] == 0u8 by {
            if last_page_offset <= k < last_page_offset + copy_len {
                assert(segs[j].vaddr <= last_vpn * 4096 + k < segs[j].vaddr + segs[j].file_size);
            }
        }
    }
    *pending = Some(Pending { vpn: last_vpn, flags, data: p_data });
    proof {
        assert(extends(ms1, ms2));
        if h {
            let pf = *pending;
            assert(mappings_disjoint(ms2));
            assert(forall|i: int| 0 <= i < ms2.len() ==> #[trigger] ms2[i].start_vpn < ms2[i].end_vpn <= nf@);
            assert(pf is Some && nf@ <= pf->Some_0.vpn && nf@ >= 0);
            assert(layout_ok(ms2, pf, nf@));
            assert forall|k: int| 0 <= k < 4096 && last_vpn * 4096 + k >= end_mem implies
                #[trigger] pf->Some_0.data@[k] == 0u8 by {}
            assert forall|a: int| s.vaddr <= a < s.vaddr + s.file_size && current_vpn * 4096 <= a < end_mem
                implies #[trigger] holds(ms2, pf, a, input@[s.offset + a - s.vaddr]) by {
                if a >= last_vpn * 4096 {
                    assert(pend_holds(pf, a, input@[s.offset + a - s.vaddr]));
                } else {
                    assert(maps_addr(&ms2[bulk_idx], a));
                    assert(mapped_byte(&ms2[bulk_idx], a) == input@[s.offset + a - s.vaddr]);
                }
            }
            assert forall|a: int| s.vaddr + s.file_size <= a < s.vaddr + s.mem_size && current_vpn * 4096 <= a < end_mem
                implies #[trigger] holds(ms2, pf, a, 0u8) by {
                if a >= last_vpn * 4096 {
                    assert(pend_holds(pf, a, 0u8));
                } else {
                    assert(maps_addr(&ms2[bulk_idx], a));
                    assert(mapped_byte(&ms2[bulk_idx], a) == 0u8);
                }
            }
            assert forall|a: int| s.vaddr <= a < s.vaddr + s.mem_size && current_vpn * 4096 <= a < end_mem
                implies #[trigger] grants(ms2, pf, a, spec_seg_flags(s.flags)) by {
                if a >= last_vpn * 4096 {
                    assert(pend_grants(pf, a, spec_seg_flags(s.flags)));
                } else {
                    assert(maps_addr(&ms2[bulk_idx], a));
                }
            }
        }
    }
    nf
}

/// Lays out one loadable segment: merges its first page into the pending page when they are the
/// same page, maps whole pages in bulk, and keeps its last page pending.
#[verifier::spinoff_prover]
fn place_segment(
    ms: &mut Vec<PageMapping>,
    pending: &mut Option<Pending>,
    s: ProgramSegment,
    input: &Vec<u8>,
    Ghost(frontier): Ghost<int>,
    Ghost(last_end): Ghost<int>,
    Ghost(started): Ghost<bool>,
    Ghost(segs): Ghost<Seq<ProgramSegment>>,
    Ghost(j): Ghost<int>,
) -> (nf: Ghost<int>)
    requires
        segment_loadable(s, input@.len() as int),
        state_ok(*old(pending)),
        0 <= j < segs.len(),
        segs[j] == s,
        bounded(old(ms)@, *old(pending), segs),
    ensures
        state_ok(*final(pending)),
        bounded(final(ms)@, *final(pending), segs),
        step_hyp(old(ms)@, *old(pending), frontier, last_end, started, s) ==> {
            &&& layout_ok(final(ms)@, *final(pending), nf@)
            &&& frontier_ok(*final(pending), nf@, s.vaddr + s.mem_size, true)
            &&& placed(final(ms)@, *final(pending), s, input@)
            &&& forall|a: int, v: u8| a < s.vaddr && #[trigger] holds(old(ms)@, *old(pending), a, v)
                ==> holds(final(ms)@, *final(pending), a, v)
            &&& forall|a: int, f: SegFlags| a < s.vaddr && #[trigger] grants(old(ms)@, *old(pending), a, f)
                ==> grants(final(ms)@, *final(pending), a, f)
        },
{
    let ghost hyp = step_hyp(ms@, *pending, frontier, last_end, started, s);
    let ghost ms0 = ms@;
    let ghost p0 = *pending;
    let off_file = s.offset;
    let len_file = s.file_size;
    let off_mem = s.vaddr;
    let end_mem = s.vaddr + s.mem_size;
    let flags = seg_flags(s.flags);
    let start_vpn = off_mem / PAGE_SIZE;
    let end_vpn = (end_mem + PAGE_SIZE - 1) / PAGE_SIZE;
    let mut current_vpn = start_vpn;
    let mut current_file_offset: usize = 0;
    let mut nf: Ghost<int> = Ghost(frontier);
    let ghost mut first_idx: int = -1;
    assert(start_vpn * 4096 <= off_mem < start_vpn * 4096 + 4096);
    let taken = pending.take();
    match taken {
        Some(mut pg) => {
            if pg.vpn == current_vpn {
                let ghost old_pg_data = pg.data@;
                let ghost old_pg_flags = pg.flags;
                pg.flags = SegFlags {
                    executable: pg.flags.executable || flags.executable,
                    write: pg.flags.write || flags.write,
                    read: pg.flags.read || flags.read,
                };
                let page_offset = off_mem % PAGE_SIZE;
                let copy_len = min_usize(PAGE_SIZE - page_offset, len_file);
                copy_bytes(&mut pg.data, page_offset, input, off_file, copy_len);
                proof {
                    assert(touches(segs[j], pg.vpn as int));
                    lemma_rights_include(segs, j, pg.vpn as int);
                    assert(rights_bounded(segs, old_pg_flags, pg.vpn as int));
                    assert forall|k: int| 0 <= k < 4096 && !in_file(segs, pg.vpn * 4096 + k)
                        implies #[trigger] pg.data@[k] == 0u8 by {
                        if page_offset <= k < page_offset + copy_len {
                            assert(segs[j].vaddr <= pg.vpn * 4096 + k < segs[j].vaddr + segs[j].file_size);
                        } else {
                            assert(p0->Some_0.data@[k] == 0u8);
                        }
                    }
                }
                proof {
                    if hyp {
                        lemma_merged_page(old_pg_data, pg.data@, old_pg_flags, pg.flags, pg.vpn as int, s, input@,
                            last_end, page_offset as int, copy_len as int);
                    }
                }
                if end_vpn == current_vpn + 1 {
                    *pending = Some(pg);
                    proof {
                        if hyp {
                            lemma_page_only(ms0, p0, *pending, s, input@);
                        }
                    }
                    return nf;
                }
                let ghost merged = pg.data@;
                let ghost merged_page = Some(pg);
                ms.push(PageMapping { start_vpn: pg.vpn, end_vpn: pg.vpn + 1, data: pg.data, page_offset: 0, flags: pg.flags });
                proof {
                    assert(ms@.drop_last() =~= ms0);
                    lemma_bounded_flush(ms0, merged_page, ms@, segs);
                }
                nf = Ghost(current_vpn + 1);
                current_vpn = current_vpn + 1;
                current_file_offset = copy_len;
                proof {
                    if hyp {
                        let ms1 = ms@;
                        let j = ms0.len() as int;
                        assert(ms1[j].data@ == merged);
                        assert(extends(ms0, ms1));
                        lemma_extends_holds(ms0, ms1, None);
                        assert forall|a: int, v: u8| a < s.vaddr && #[trigger] holds(ms0, p0, a, v)
                            implies image_holds(ms1, a, v) by {
                            if pend_holds(p0, a, v) {
                                assert(maps_addr(&ms1[j], a) && mapped_byte(&ms1[j], a) == v);
                            } else {
                                assert(holds(ms1, None, a, v));
                            }
                        }
                        assert forall|a: int, f: SegFlags| a < s.vaddr && #[trigger] grants(ms0, p0, a, f)
                            implies image_grants(ms1, a, f) by {
                            if pend_grants(p0, a, f) {
                                assert(maps_addr(&ms1[j], a) && flags_cover(ms1[j].flags, f));
                            } else {
                                assert(grants(ms1, None, a, f));
                            }
                        }
                        assert forall|a: int| s.vaddr <= a < s.vaddr + s.file_size && a < current_vpn * 4096
                            implies #[trigger] holds(ms1, None, a, input@[s.offset + a - s.vaddr]) by {
                            assert(maps_addr(&ms1[j], a) && mapped_byte(&ms1[j], a) == input@[s.offset + a - s.vaddr]);
                        }
                        assert forall|a: int| s.vaddr + s.file_size <= a < s.vaddr + s.mem_size && a < current_vpn * 4096
                            implies #[trigger] holds(ms1, None, a, 0u8) by {
                            assert(maps_addr(&ms1[j], a) && mapped_byte(&ms1[j], a) == 0u8);
                        }
                        assert forall|a: int| s.vaddr <= a < s.vaddr + s.mem_size && a < current_vpn * 4096
                            implies #[trigger] grants(ms1, None, a, spec_seg_flags(s.flags)) by {
                            assert(maps_addr(&ms1[j], a) && flags_cover(ms1[j].flags, spec_seg_flags(s.flags)));
                        }
                        assert(flushed_ok(ms0, p0, ms1, s, input@, current_vpn as int));
                    }
                }
            } else {
                let ghost flushed = Some(pg);
                ms.push(PageMapping { start_vpn: pg.vpn, end_vpn: pg.vpn + 1, data: pg.data, page_offset: 0, flags: pg.flags });
                proof {
                    assert(ms@.drop_last() =~= ms0);
                    lemma_bounded_flush(ms0, flushed, ms@, segs);
                }
                nf = Ghost(pg.vpn + 1);
                proof {
                    if hyp {
                        let ms1 = ms@;
                        let j = ms0.len() as int;
                        assert(extends(ms0, ms1));
                        lemma_extends_holds(ms0, ms1, None);
                        assert forall|a: int, v: u8| a < s.vaddr && #[trigger] holds(ms0, p0, a, v)
                            implies image_holds(ms1, a, v) by {
                            if pend_holds(p0, a, v) {
                                assert(maps_addr(&ms1[j], a) && mapped_byte(&ms1[j], a) == v);
                            } else {
                                assert(holds(ms1, None, a, v));
                            }
                        }
                        assert forall|a: int, f: SegFlags| a < s.vaddr && #[trigger] grants(ms0, p0, a, f)
                            implies image_grants(ms1, a, f) by {
                            if pend_grants(p0, a, f) {
                                assert(maps_addr(&ms1[j], a) && flags_cover(ms1[j].flags, f));
                            } else {
                                assert(grants(ms1, None, a, f));
                            }
                        }
                        assert(flushed_ok(ms0, p0, ms1, s, input@, current_vpn as int));
                    }
                }
            }
        },
        None => {
            proof {
                if hyp {
                    assert(flushed_ok(ms0, p0, ms@, s, input@, current_vpn as int));
                }
            }
        },
    }
    let ghost ms1 = ms@;
    assert(current_file_offset == target_offset(len_file as int, off_mem as int, current_vpn as int));
    if current_vpn >= end_vpn {
        return nf;
    }
    let nf2 = place_tail(ms, pending, s, input, current_vpn, current_file_offset, nf, Ghost(hyp), Ghost(segs), Ghost(j));
    proof {
        if hyp {
            let ms2 = ms@;
            let pf = *pending;
            lemma_extends_holds(ms1, ms2, pf);
            assert forall|a: int, v: u8| a < s.vaddr && #[trigger] holds(ms0, p0, a, v)
                implies holds(ms2, pf, a, v) by {
                assert(image_holds(ms1, a, v));
            }
            assert forall|a: int, f: SegFlags| a < s.vaddr && #[trigger] grants(ms0, p0, a, f)
                implies grants(ms2, pf, a, f) by {
                assert(image_grants(ms1, a, f));
            }
            assert forall|a: int| s.vaddr <= a < s.vaddr + s.file_size implies
                #[trigger] holds(ms2, pf, a, input@[s.offset + a - s.vaddr]) by {
                if a < current_vpn * 4096 {
                    assert(image_holds(ms1, a, input@[s.offset + a - s.vaddr]));
                }
            }
            assert forall|a: int| s.vaddr + s.file_size <= a < s.vaddr + s.mem_size implies
                #[trigger] holds(ms2, pf, a, 0u8) by {
                if a < current_vpn * 4096 {
                    assert(image_holds(ms1, a, 0u8));
                }
            }
            assert forall|a: int| s.vaddr <= a < s.vaddr + s.mem_size implies
                #[trigger] grants(ms2, pf, a, spec_seg_flags(s.flags)) by {
                if a < current_vpn * 4096 {
                    assert(image_grants(ms1, a, spec_seg_flags(s.flags)));
                }
            }
        }
    }
    nf2
}

/// A segment that fits in the pending page is laid out by the merge alone.
proof fn lemma_page_only(ms0: Seq<PageMapping>, p0: Option<Pending>, pf: Option<Pending>, s: ProgramSegment, input: Seq<u8>)
    requires
        p0 is Some,
        pf is Some,
        pf->Some_0.vpn == p0->Some_0.vpn,
        pf->Some_0.data@.len() == 4096,
        p0->Some_0.data@.len() == 4096,
        pf->Some_0.vpn * 4096 <= s.vaddr,
        s.vaddr + s.mem_size <= pf->Some_0.vpn * 4096 + 4096,
        s.file_size <= s.mem_size,
        forall|k: int| 0 <= k < 4096 && pf->Some_0.vpn * 4096 + k < s.vaddr ==> #[trigger] pf->Some_0.data@[k] == p0->Some_0.data@[k],
        forall|k: int| 0 <= k < 4096 && s.vaddr <= pf->Some_0.vpn * 4096 + k < s.vaddr + s.file_size
            ==> #[trigger] pf->Some_0.data@[k] == input[s.offset + pf->Some_0.vpn * 4096 + k - s.vaddr],
        forall|k: int| 0 <= k < 4096 && pf->Some_0.vpn * 4096 + k >= s.vaddr + s.file_size ==> #[trigger] pf->Some_0.data@[k] == 0u8,
        flags_cover(pf->Some_0.flags, p0->Some_0.flags),
        flags_cover(pf->Some_0.flags, spec_seg_flags(s.flags)),
    ensures
        placed(ms0, pf, s, input),
        forall|k: int| 0 <= k < 4096 && pf->Some_0.vpn * 4096 + k >= s.vaddr + s.mem_size ==> #[trigger] pf->Some_0.data@[k] == 0u8,
        forall|a: int, v: u8| a < s.vaddr && #[trigger] holds(ms0, p0, a, v) ==> holds(ms0, pf, a, v),
        forall|a: int, f: SegFlags| a < s.vaddr && #[trigger] grants(ms0, p0, a, f) ==> grants(ms0, pf, a, f),
{
    let vpn = pf->Some_0.vpn;
    assert forall|a: int, v: u8| a < s.vaddr && #[trigger] holds(ms0, p0, a, v) implies holds(ms0, pf, a, v) by {
        if pend_holds(p0, a, v) {
            assert(pf->Some_0.data@[a - vpn * 4096] == p0->Some_0.data@[a - vpn * 4096]);
            assert(pend_holds(pf, a, v));
        }
    }
    assert forall|a: int, f: SegFlags| a < s.vaddr && #[trigger] grants(ms0, p0, a, f) implies grants(ms0, pf, a, f) by {
        if pend_grants(p0, a, f) {
            assert(pend_grants(pf, a, f));
        }
    }
    assert forall|a: int| s.vaddr <= a < s.vaddr + s.file_size implies
        #[trigger] holds(ms0, pf, a, input[s.offset + a - s.vaddr]) by {
        assert(pf->Some_0.data@[a - vpn * 4096] == input[s.offset + vpn * 4096 + (a - vpn * 4096) - s.vaddr]);
        assert(pend_holds(pf, a, input[s.offset + a - s.vaddr]));
    }
    assert forall|a: int| s.vaddr + s.file_size <= a < s.vaddr + s.mem_size implies
        #[trigger] holds(ms0, pf, a, 0u8) by {
        assert(pf->Some_0.data@[a - vpn * 4096] == 0u8);
        assert(pend_holds(pf, a, 0u8));
    }
    assert forall|a: int| s.vaddr <= a < s.vaddr + s.mem_size implies
        #[trigger] grants(ms0, pf, a, spec_seg_flags(s.flags)) by {
        assert(pend_grants(pf, a, spec_seg_flags(s.flags)));
    }
}

/// Merging a segment's first bytes into the pending page keeps the bytes below the segment,
/// writes the segment's file bytes and zero fill that fall in the page, and adds its rights.
proof fn lemma_merged_page(
    old_data: Seq<u8>,
    new_data: Seq<u8>,
    old_flags: SegFlags,
    new_flags: SegFlags,
    vpn: int,
    s: ProgramSegment,
    input: Seq<u8>,
    last_end: int,
    page_offset: int,
    copy_len: int,
)
    requires
        old_data.len() == 4096,
        new_data.len() == 4096,
        vpn * 4096 < last_end <= s.vaddr,
        vpn * 4096 <= s.vaddr < vpn * 4096 + 4096,
        page_offset == s.vaddr - vpn * 4096,
        copy_len == if 4096 - page_offset < s.file_size { 4096 - page_offset } else { s.file_size as int },
        s.file_size <= s.mem_size,
        s.offset + s.file_size <= input.len(),
        forall|k: int| 0 <= k < 4096 && vpn * 4096 + k >= last_end ==> #[trigger] old_data[k] == 0u8,
        forall|k: int| 0 <= k < 4096 ==> #[trigger] new_data[k] == if page_offset <= k < page_offset + copy_len {
            input[s.offset + k - page_offset]
        } else {
            old_data[k]
        },
        new_flags == flags_union(old_flags, spec_seg_flags(s.flags)),
    ensures
        forall|k: int| 0 <= k < 4096 && vpn * 4096 + k < s.vaddr ==> #[trigger] new_data[k] == old_data[k],
        forall|k: int| 0 <= k < 4096 && s.vaddr <= vpn * 4096 + k < s.vaddr + s.file_size
            ==> #[trigger] new_data[k] == input[s.offset + vpn * 4096 + k - s.vaddr],
        forall|k: int| 0 <= k < 4096 && vpn * 4096 + k >= s.vaddr + s.file_size ==> #[trigger] new_data[k] == 0u8,
        flags_cover(new_flags, old_flags),
        flags_cover(new_flags, spec_seg_flags(s.flags)),
{
}

/// The loadable segments appear in ascending address order, each ending at or before the next
/// begins, and none has more file bytes than memory bytes.
pub open spec fn loads_well_ordered(loads: Seq<ProgramSegment>) -> bool {
    &&& forall|j: int| 0 <= j < loads.len() ==> #[trigger] loads[j].file_size <= loads[j].mem_size
    &&& forall|j: int, k: int| 0 <= j < k < loads.len() ==> #[trigger] loads[j].vaddr + loads[j].mem_size <= #[trigger] loads[k].vaddr
}

/// The loadable segments, listed in whatever order, occupy pairwise disjoint memory: no segment
/// begins at or inside the memory of another that is not empty (an empty segment may stand
/// anywhere else); and none has more file bytes than memory bytes, as the ELF format requires.
pub open spec fn loads_disjoint(loads: Seq<ProgramSegment>) -> bool {
    &&& forall|j: int| 0 <= j < loads.len() ==> #[trigger] loads[j].file_size <= loads[j].mem_size
    &&& forall|j: int, k: int| 0 <= j < loads.len() && 0 <= k < loads.len() && j != k && 0 < loads[k].mem_size
        ==> !(#[trigger] loads[k].vaddr <= #[trigger] loads[j].vaddr < loads[k].vaddr + loads[k].mem_size)
}

/// A segment that occurs twice in `s` occurs twice in any rearrangement `t` of `s`.
proof fn lemma_twice_in_rearrangement(s: Seq<ProgramSegment>, t: Seq<ProgramSegment>, i: int, k: int)
    requires
        s.to_multiset() == t.to_multiset(),
        0 <= i < k < s.len(),
        s[i] == s[k],
    ensures
        exists|a: int, b: int| 0 <= a < t.len() && 0 <= b < t.len() && a != b && #[trigger] t[a] == s[i] && #[trigger] t[b] == s[i],
{
    broadcast use vstd::seq_lib::group_to_multiset_ensures;
    let x = s[i];
    vstd::seq_lib::to_multiset_remove(s, i);
    assert(s.remove(i)[k - 1] == x);
    assert(s.remove(i).contains(x));
    assert(s.to_multiset().remove(x).count(x) > 0);
    assert(t.contains(x));
    let a = choose|a: int| 0 <= a < t.len() && t[a] == x;
    vstd::seq_lib::to_multiset_remove(t, a);
    assert(t.remove(a).to_multiset().count(x) > 0);
    assert(t.remove(a).contains(x));
    let c = choose|c: int| 0 <= c < t.remove(a).len() && t.remove(a)[c] == x;
    let b = if c < a { c } else { c + 1 };
    assert(t[b] == x);
}

/// Disjoint segments taken in ascending address order follow one another without overlap, and
/// the ordering loses none of them.
proof fn lemma_sorted_well_ordered(loads: Seq<ProgramSegment>, sorted: Seq<ProgramSegment>)
    requires
        loads_disjoint(loads),
        sorted.to_multiset() == loads.to_multiset(),
        forall|i: int, j: int| 0 <= i < j < sorted.len() ==> sorted[i].vaddr <= sorted[j].vaddr,
    ensures
        loads_well_ordered(sorted),
        forall|j: int| 0 <= j < loads.len() ==> sorted.contains(#[trigger] loads[j]),
{
    broadcast use vstd::seq_lib::group_to_multiset_ensures;
    assert forall|j: int| 0 <= j < loads.len() implies sorted.contains(#[trigger] loads[j]) by {
        assert(loads.contains(loads[j]));
        assert(loads.to_multiset().count(loads[j]) > 0);
    }
    assert forall|k: int| 0 <= k < sorted.len() implies loads.contains(#[trigger] sorted[k]) by {
        assert(sorted.contains(sorted[k]));
        assert(sorted.to_multiset().count(sorted[k]) > 0);
    }
    assert forall|j: int| 0 <= j < sorted.len() implies #[trigger] sorted[j].file_size <= sorted[j].mem_size by {
        assert(loads.contains(sorted[j]));
        let a = choose|a: int| 0 <= a < loads.len() && loads[a] == sorted[j];
        assert(loads[a].file_size <= loads[a].mem_size);
    }
    assert forall|i: int, k: int| 0 <= i < k < sorted.len() implies
        #[trigger] sorted[i].vaddr + sorted[i].mem_size <= #[trigger] sorted[k].vaddr by {
        if sorted[i].mem_size > 0 {
            if sorted[i] == sorted[k] {
                lemma_twice_in_rearrangement(sorted, loads, i, k);
                let (a, b) = choose|a: int, b: int| 0 <= a < loads.len() && 0 <= b < loads.len() && a != b
                    && #[trigger] loads[a] == sorted[i] && #[trigger] loads[b] == sorted[i];
                assert(!(loads[b].vaddr <= loads[a].vaddr < loads[b].vaddr + loads[b].mem_size));
            } else {
                assert(loads.contains(sorted[i]));
                assert(loads.contains(sorted[k]));
                let a = choose|a: int| 0 <= a < loads.len() && loads[a] == sorted[i];
                let b = choose|b: int| 0 <= b < loads.len() && loads[b] == sorted[k];
                assert(a != b);
                assert(!(loads[a].vaddr <= loads[b].vaddr < loads[a].vaddr + loads[a].mem_size));
            }
        }
    }
}

proof fn lemma_loads_of_push(segs: Seq<ProgramSegment>, i: int)
    requires
        0 <= i < segs.len(),
    ensures
        loads_of(segs.take(i + 1)) == if segs[i].is_load { loads_of(segs.take(i)).push(segs[i]) } else { loads_of(segs.take(i)) },
        max_load_end(segs.take(i + 1)) == if segs[i].is_load && segs[i].vaddr + segs[i].mem_size > max_load_end(segs.take(i)) {
            segs[i].vaddr + segs[i].mem_size
        } else {
            max_load_end(segs.take(i))
        },
{
    assert(segs.take(i + 1).drop_last() =~= segs.take(i));
}

proof fn lemma_loads_of_loadable(segs: Seq<ProgramSegment>, len: int)
    requires
        forall|i: int| 0 <= i < segs.len() && (#[trigger] segs[i]).is_load ==> segment_loadable(segs[i], len),
    ensures
        forall|j: int| 0 <= j < loads_of(segs).len() ==> segment_loadable(#[trigger] loads_of(segs)[j], len),
        forall|j: int| 0 <= j < loads_of(segs).len() ==> (#[trigger] loads_of(segs)[j]).is_load,
        max_load_end(segs) >= 0,
        max_load_end(segs) + 4096 <= usize::MAX,
    decreases segs.len(),
{
    if segs.len() > 0 {
        let d = segs.drop_last();
        assert forall|i: int| 0 <= i < d.len() && (#[trigger] d[i]).is_load implies segment_loadable(d[i], len) by {
            assert(d[i] == segs[i]);
        }
        lemma_loads_of_loadable(d, len);
        assert(segs[segs.len() - 1] == segs.last());
        let l = loads_of(segs);
        assert forall|j: int| 0 <= j < l.len() implies segment_loadable(#[trigger] l[j], len) && l[j].is_load by {
            if segs.last().is_load && j == l.len() - 1 {
                assert(l[j] == segs.last());
            } else {
                assert(l[j] == loads_of(d)[j]);
            }
        }
    }
}

/// Collects the loadable segments in file order and the highest end address among them.
fn collect_loads(image: &ElfImage) -> (r: (Vec<ProgramSegment>, usize))
    requires
        image_loadable(image),
    ensures
        r.0@ == loads_of(image.segments@),
        r.1 == max_load_end(image.segments@),
{
    let mut loads: Vec<ProgramSegment> = Vec::new();
    let mut max_end: usize = 0;
    let mut i: usize = 0;
    proof { lemma_loads_of_loadable(image.segments@, image.input@.len() as int); }
    while i < image.segments.len()
        invariant
            0 <= i <= image.segments@.len(),
            image_loadable(image),
            loads@ == loads_of(image.segments@.take(i as int)),
            max_end == max_load_end(image.segments@.take(i as int)),
        decreases image.segments@.len() - i,
    {
        let seg = image.segments[i];
        proof {
            lemma_loads_of_push(image.segments@, i as int);
            lemma_loads_of_loadable(image.segments@.take(i as int), image.input@.len() as int);
            assert(image.segments@.take(i + 1)[i as int] == seg);
        }
        if seg.is_load {
            let end = seg.vaddr + seg.mem_size;
            if end > max_end {
                max_end = end;
            }
            loads.push(seg);
        }
        i = i + 1;
    }
    assert(image.segments@.take(i as int) =~= image.segments@);
    (loads, max_end)
}

/// Orders segments by address, keeping segments with equal addresses in their original order.
fn sort_by_vaddr(loads: Vec<ProgramSegment>) -> (r: Vec<ProgramSegment>)
    ensures
        forall|i: int, j: int| 0 <= i < j < r@.len() ==> r@[i].vaddr <= r@[j].vaddr,
        r@.len() == loads@.len(),
        forall|i: int| 0 <= i < r@.len() ==> loads@.contains(#[trigger] r@[i]),
        r@.to_multiset() == loads@.to_multiset(),
        (forall|i: int, j: int| 0 <= i < j < loads@.len() ==> loads@[i].vaddr <= loads@[j].vaddr) ==> r@ == loads@,
{
    let mut sorted: Vec<ProgramSegment> = Vec::new();
    let ghost in_order = forall|i: int, j: int| 0 <= i < j < loads@.len() ==> loads@[i].vaddr <= loads@[j].vaddr;
    let mut k: usize = 0;
    assert(sorted@ =~= loads@.take(0));
    while k < loads.len()
        invariant
            0 <= k <= loads@.len(),
            sorted@.len() == k,
            forall|i: int, j: int| 0 <= i < j < sorted@.len() ==> sorted@[i].vaddr <= sorted@[j].vaddr,
            forall|i: int| 0 <= i < sorted@.len() ==> loads@.contains(#[trigger] sorted@[i]),
            in_order == (forall|i: int, j: int| 0 <= i < j < loads@.len() ==> loads@[i].vaddr <= loads@[j].vaddr),
            in_order ==> sorted@ == loads@.take(k as int),
            sorted@.to_multiset() == loads@.take(k as int).to_multiset(),
        decreases loads@.len() - k,
    {
        let x = loads[k];
        let mut pos = sorted.len();
        while pos > 0 && sorted[pos - 1].vaddr > x.vaddr
            invariant
                0 <= pos <= sorted@.len(),
                forall|i: int| pos <= i < sorted@.len() ==> sorted@[i].vaddr > x.vaddr,
            decreases pos,
        {
            pos = pos - 1;
        }
        proof {
            if in_order && pos < sorted@.len() {
                assert(sorted@[pos as int] == loads@[pos as int]);
                assert(loads@[pos as int].vaddr <= loads@[k as int].vaddr);
            }
        }
        let ghost before = sorted@;
        sorted.insert(pos, x);
        assert(loads@.contains(x)) by { assert(loads@[k as int] == x); }
        proof {
            assert forall|i: int| 0 <= i < sorted@.len() implies loads@.contains(#[trigger] sorted@[i]) by {
                if i < pos { assert(sorted@[i] == before[i]); }
                else if i > pos { assert(sorted@[i] == before[i - 1]); }
            }
            if in_order {
                assert(sorted@ =~= loads@.take(k + 1));
            }
            broadcast use vstd::seq_lib::group_to_multiset_ensures;
            assert(loads@.take(k + 1) =~= loads@.take(k as int).push(x));
            assert(sorted@ == before.insert(pos as int, x));
        }
        k = k + 1;
    }
    assert(loads@.take(k as int) =~= loads@);
    sorted
}

/// `plan` lays out the program with entry point `entry` and program headers `segs` read from
/// the file `input`: it starts at `entry`; its heap begins at the first page boundary above all
/// loadable segments, taken as a 39-bit virtual address; every mapped page is a page some
/// loadable segment is laid out on, with no rights beyond those of the segments laid out on it;
/// every mapped byte outside the segments' file bytes is zero; and, when the loadable segments occupy pairwise disjoint memory, listed
/// in any order in the file, every byte of every segment is mapped exactly as the file gives it,
/// the rest of its memory size reads as zero, its pages carry at least its access rights (so the
/// rights of a page are exactly those of the segments on it), and no page is mapped twice.
pub open spec fn lays_out(plan: LoadPlan, entry: u64, segs: Seq<ProgramSegment>, input: Seq<u8>) -> bool {
    &&& plan.entry == entry as usize
    &&& plan.heap_bottom == crate::vm::spec_base(crate::vm::spec_ceil(max_load_end(segs))) as usize
    &&& forall|i: int, v: int| 0 <= i < plan.mappings@.len()
        && plan.mappings@[i].start_vpn <= v < plan.mappings@[i].end_vpn
        ==> #[trigger] rights_bounded(loads_of(segs), plan.mappings@[i].flags, v)
    &&& forall|i: int, a: int| 0 <= i < plan.mappings@.len() && maps_addr(&plan.mappings@[i], a)
        && !in_file(loads_of(segs), a) ==> #[trigger] mapped_byte(&plan.mappings@[i], a) == 0u8
    &&& loads_disjoint(loads_of(segs)) ==> {
        let ms = plan.mappings@;
        let loads = loads_of(segs);
        &&& mappings_disjoint(ms)
        &&& forall|j: int, a: int| 0 <= j < loads.len() && loads[j].vaddr <= a < loads[j].vaddr + loads[j].file_size
            ==> #[trigger] image_holds(ms, a, input[loads[j].offset + a - loads[j].vaddr])
        &&& forall|j: int, a: int| #![trigger loads[j], image_holds(ms, a, 0u8)]
            0 <= j < loads.len() && loads[j].vaddr + loads[j].file_size <= a < loads[j].vaddr + loads[j].mem_size
            ==> image_holds(ms, a, 0u8)
        &&& forall|j: int, a: int| 0 <= j < loads.len() && loads[j].vaddr <= a < loads[j].vaddr + loads[j].mem_size
            ==> #[trigger] image_grants(ms, a, spec_seg_flags(loads[j].flags))
    }
}

/// Lays out a program: `None` unless the header describes a 64-bit RISC-V executable;
/// otherwise the mappings of its loadable segments taken in address order, the entry point,
/// and the first page boundary above all segments as the bottom of the heap, laid out as
/// `lays_out` describes. The segments need to fit only when the header is accepted.
#[verifier::spinoff_prover]
#[verifier::rlimit(40)]
pub fn from_elf(image: &ElfImage) -> (r: Option<LoadPlan>)
    requires
        header_accepted(image) ==> image_loadable(image),
    ensures
        r is Some <==> header_accepted(image),
        r is Some ==> lays_out(r->Some_0, image.entry, image.segments@, image.input@),
{
    if !(image.class64 && image.elf_type == ET_EXEC && image.riscv) {
        return None;
    }
    let entry = image.entry as usize;
    let (loads, max_end) = collect_loads(image);
    proof { lemma_loads_of_loadable(image.segments@, image.input@.len() as int); }
    let ghost well = loads_disjoint(loads@);
    let ghost lseq = loads@;
    let sorted = sort_by_vaddr(loads);
    proof {
        if well {
            lemma_sorted_well_ordered(lseq, sorted@);
        }
    }
    let mut ms: Vec<PageMapping> = Vec::new();
    let mut pending: Option<Pending> = None;
    let ghost mut frontier: int = 0;
    let ghost mut last_end: int = 0;
    let mut i: usize = 0;
    while i < sorted.len()
        invariant
            0 <= i <= sorted@.len(),
            forall|j: int| 0 <= j < sorted@.len() ==> segment_loadable(#[trigger] sorted@[j], image.input@.len() as int),
            state_ok(pending),
            lseq == loads_of(image.segments@),
            well ==> forall|j: int| 0 <= j < lseq.len() ==> sorted@.contains(#[trigger] lseq[j]),
            well ==> loads_well_ordered(sorted@),
            well ==> layout_ok(ms@, pending, frontier),
            well ==> frontier_ok(pending, frontier, last_end, i > 0),
            well && i > 0 ==> last_end == sorted@[i - 1].vaddr + sorted@[i - 1].mem_size,
            well ==> forall|j: int| 0 <= j < i ==> placed(ms@, pending, #[trigger] sorted@[j], image.input@),
            bounded(ms@, pending, sorted@),
        decreases sorted@.len() - i,
    {
        let s = sorted[i];
        let ghost ms_before = ms@;
        let ghost p_before = pending;
        proof {
            if well && i > 0 {
                assert(sorted@[i - 1].vaddr + sorted@[i - 1].mem_size <= sorted@[i as int].vaddr);
            }
        }
        let nf = place_segment(&mut ms, &mut pending, s, &image.input, Ghost(frontier), Ghost(last_end), Ghost(i > 0),
            Ghost(sorted@), Ghost(i as int));
        proof {
            if well {
                assert forall|j: int| 0 <= j < i + 1 implies placed(ms@, pending, #[trigger] sorted@[j], image.input@) by {
                    if j < i {
                        let t = sorted@[j];
                        assert(t.vaddr + t.mem_size <= s.vaddr);
                        assert(placed(ms_before, p_before, t, image.input@));
                        assert forall|a: int| t.vaddr <= a < t.vaddr + t.file_size implies
                            #[trigger] holds(ms@, pending, a, image.input@[t.offset + a - t.vaddr]) by {
                            assert(holds(ms_before, p_before, a, image.input@[t.offset + a - t.vaddr]));
                        }
                        assert forall|a: int| t.vaddr + t.file_size <= a < t.vaddr + t.mem_size implies
                            #[trigger] holds(ms@, pending, a, 0u8) by {
                            assert(holds(ms_before, p_before, a, 0u8));
                        }
                        assert forall|a: int| t.vaddr <= a < t.vaddr + t.mem_size implies
                            #[trigger] grants(ms@, pending, a, spec_seg_flags(t.flags)) by {
                            assert(grants(ms_before, p_before, a, spec_seg_flags(t.flags)));
                        }
                    }
                }
            }
            frontier = nf@;
            last_end = s.vaddr + s.mem_size;
        }
        i = i + 1;
    }
    let ghost ms_loop = ms@;
    let ghost p_loop = pending;
    match pending {
        Some(pg) => {
            ms.push(PageMapping { start_vpn: pg.vpn, end_vpn: pg.vpn + 1, data: pg.data, page_offset: 0, flags: pg.flags });
            assert(ms@.drop_last() =~= ms_loop);
            proof { lemma_bounded_flush(ms_loop, p_loop, ms@, sorted@); }
        },
        None => {},
    }
    proof {
        let msf = ms@;
        let loads = loads_of(image.segments@);
        assert(bounded(msf, None, sorted@));
        assert forall|i: int, v: int| 0 <= i < msf.len() && msf[i].start_vpn <= v < msf[i].end_vpn
            implies #[trigger] rights_bounded(loads, msf[i].flags, v) by {
            assert(rights_bounded(sorted@, msf[i].flags, v));
            lemma_rights_subset(sorted@, loads, v);
        }
        assert forall|i: int, a: int| 0 <= i < msf.len() && maps_addr(&msf[i], a) && !in_file(loads, a)
            implies #[trigger] mapped_byte(&msf[i], a) == 0u8 by {
            if in_file(sorted@, a) {
                let k = choose|k: int| 0 <= k < sorted@.len() && #[trigger] sorted@[k].vaddr <= a < sorted@[k].vaddr + sorted@[k].file_size;
                assert(loads.contains(sorted@[k]));
                let m = choose|m: int| 0 <= m < loads.len() && loads[m] == sorted@[k];
                assert(loads[m].vaddr <= a < loads[m].vaddr + loads[m].file_size);
            }
        }
    }
    proof {
        if well {
            let msf = ms@;
            lemma_final_image(ms_loop, p_loop, msf, frontier);
            let loads = loads_of(image.segments@);
            assert forall|j: int| 0 <= j < loads.len() implies placed(ms_loop, p_loop, #[trigger] loads[j], image.input@) by {
                assert(sorted@.contains(lseq[j]));
                let k = choose|k: int| 0 <= k < sorted@.len() && sorted@[k] == lseq[j];
                assert(placed(ms_loop, p_loop, sorted@[k], image.input@));
            }
            assert forall|j: int, a: int| 0 <= j < loads.len() && loads[j].vaddr <= a < loads[j].vaddr + loads[j].file_size
                implies #[trigger] image_holds(msf, a, image.input@[loads[j].offset + a - loads[j].vaddr]) by {
                assert(placed(ms_loop, p_loop, loads[j], image.input@));
                assert(holds(ms_loop, p_loop, a, image.input@[loads[j].offset + a - loads[j].vaddr]));
            }
            assert forall|j: int, a: int| #![trigger loads[j], image_holds(msf, a, 0u8)]
                0 <= j < loads.len() && loads[j].vaddr + loads[j].file_size <= a < loads[j].vaddr + loads[j].mem_size
                implies image_holds(msf, a, 0u8) by {
                assert(placed(ms_loop, p_loop, loads[j], image.input@));
                assert(holds(ms_loop, p_loop, a, 0u8));
            }
            assert forall|j: int, a: int| 0 <= j < loads.len() && loads[j].vaddr <= a < loads[j].vaddr + loads[j].mem_size
                implies #[trigger] image_grants(msf, a, spec_seg_flags(loads[j].flags)) by {
                assert(placed(ms_loop, p_loop, loads[j], image.input@));
                assert(grants(ms_loop, p_loop, a, spec_seg_flags(loads[j].flags)));
            }
        }
    }
    let heap_bottom = crate::vm::page_base(crate::vm::page_ceil(max_end));
    Some(LoadPlan { entry, mappings: ms, heap_bottom })
}

/// Mapping the pending page completes the image: everything held before is mapped, and pages
/// stay unshared.
proof fn lemma_final_image(ms: Seq<PageMapping>, p: Option<Pending>, msf: Seq<PageMapping>, frontier: int)
    requires
        layout_ok(ms, p, frontier),
        state_ok(p),
        p is None ==> msf == ms,
        p is Some ==> msf.len() == ms.len() + 1 && msf.drop_last() == ms && msf.last().start_vpn == p->Some_0.vpn
            && msf.last().end_vpn == p->Some_0.vpn + 1 && msf.last().data@ == p->Some_0.data@
            && msf.last().page_offset == 0 && msf.last().flags == p->Some_0.flags,
    ensures
        mappings_disjoint(msf),
        forall|a: int, v: u8| #[trigger] holds(ms, p, a, v) ==> image_holds(msf, a, v),
        forall|a: int, f: SegFlags| #[trigger] grants(ms, p, a, f) ==> image_grants(msf, a, f),
{
    assert forall|a: int, v: u8| #[trigger] holds(ms, p, a, v) implies image_holds(msf, a, v) by {
        if image_holds(ms, a, v) {
            let i = choose|i: int| 0 <= i < ms.len() && maps_addr(&ms[i], a) && mapped_byte(&ms[i], a) == v;
            assert(msf[i] == ms[i]);
        } else {
            let j = ms.len() as int;
            assert(maps_addr(&msf[j], a) && mapped_byte(&msf[j], a) == v);
        }
    }
    assert forall|a: int, f: SegFlags| #[trigger] grants(ms, p, a, f) implies image_grants(msf, a, f) by {
        if image_grants(ms, a, f) {
            let i = choose|i: int| 0 <= i < ms.len() && maps_addr(&ms[i], a) && flags_cover(ms[i].flags, f);
            assert(msf[i] == ms[i]);
        } else {
            let j = ms.len() as int;
            assert(maps_addr(&msf[j], a) && flags_cover(msf[j].flags, f));
        }
    }
    if p is Some {
        assert forall|i: int, j: int| 0 <= i < j < msf.len() implies
            msf[i].end_vpn <= msf[j].start_vpn || msf[j].end_vpn <= msf[i].start_vpn by {
            if j == ms.len() {
                assert(msf[i] == ms[i]);
            } else {
                assert(msf[i] == ms[i] && msf[j] == ms[j]);
            }
        }
    }
}

/// The header fields the loader reads, as `xmas_elf` reports them.
#[derive(Debug, Clone, Copy, PartialEq, Eq, Structural)]
pub struct ElfHeader {
    /// The file uses the 64-bit layout.
    pub class64: bool,
    /// Object file type.
    pub elf_type: u16,
    /// The target machine is RISC-V.
    pub riscv: bool,
    /// Entry point.
    pub entry: u64,
    /// File offset of the program header table.
    pub ph_offset: u64,
    /// Bytes per program header.
    pub ph_entry_size: u16,
    /// Number of program headers.
    pub ph_count: u16,
}

/// The header that `xmas_elf::ElfFile::new` reads from `bytes`; `None` where it refuses them.
pub uninterp spec fn elf_header_of(bytes: Seq<u8>) -> Option<ElfHeader>;

/// The ELF identification of `bytes` is acceptable and the file is long enough for the header
/// of its class: the magic number `7f 45 4c 46`, class byte 1 (32-bit, a 52-byte header) or 2
/// (64-bit, a 64-byte header).
pub open spec fn header_parses(bytes: Seq<u8>) -> bool {
    &&& bytes.len() >= 16
    &&& bytes[0] == 0x7fu8 && bytes[1] == 0x45u8 && bytes[2] == 0x4cu8 && bytes[3] == 0x46u8
    &&& bytes[4] == 1u8 || bytes[4] == 2u8
    &&& bytes[4] == 1u8 ==> bytes.len() >= 52
    &&& bytes[4] == 2u8 ==> bytes.len() >= 64
}

/// The program headers that `xmas_elf` reads from `bytes`, in table order.
pub uninterp spec fn elf_segments_of(bytes: Seq<u8>) -> Seq<ProgramSegment>;

/// Bytes of a 64-bit program header.
pub const PH64_SIZE: u16 = 56;


/// The header `h` is that of a 64-bit file whose program header table lies within its `len`
/// bytes, each entry starting 8-aligned and holding a whole 64-bit program header.
pub open spec fn program_table_readable(h: ElfHeader, len: int) -> bool {
    &&& h.class64
    &&& h.ph_offset > 0 && h.ph_entry_size > 0 && h.ph_count > 0 ==> {
        &&& h.ph_offset % 8 == 0
        &&& h.ph_entry_size % 8 == 0
        &&& h.ph_entry_size >= PH64_SIZE
        &&& h.ph_offset + h.ph_count * h.ph_entry_size <= len
    }
}

/// Number of program headers that `xmas_elf` yields for header `h`.
pub open spec fn program_table_len(h: ElfHeader) -> int {
    if h.ph_offset > 0 && h.ph_entry_size > 0 { h.ph_count as int } else { 0 }
}

/// Reads the header of `bytes` with `xmas_elf::ElfFile::new`: its class, object type,
/// machine, entry point and program header table position. The result is named
/// `elf_header_of`. `header::parse_header` refuses the bytes exactly when `header_parses`
/// fails, and takes the 64-bit layout exactly when the class byte is 2; the other fields it
/// reads in place, in the machine's byte order, which is why they are left to the name.
/// `xmas_elf` asserts the alignment of what it reads in place, so the bytes are first copied
/// to an 8-aligned place in a buffer of their own.
#[verifier::external_body]
fn elf_header(bytes: &[u8]) -> (r: Option<ElfHeader>)
    ensures
        r == elf_header_of(bytes@),
        r is Some <==> header_parses(bytes@),
        r matches Some(h) ==> h.class64 == (bytes@[4] == 2u8),
{
    let mut buf = bytes.to_vec();
    buf.extend_from_slice(&[0u8; 8]);
    let off = buf.as_ptr().align_offset(8);
    buf.copy_within(0..bytes.len(), off);
    let h = match ElfFile::new(&buf[off..][..bytes.len()]) { Ok(e) => e.header.pt2, Err(_) => return None };
    Some(ElfHeader {
        class64: matches!(h, HeaderPt2::Header64(_)), elf_type: h.type_().0,
        riscv: matches!(h.machine().as_machine(), Machine::RISC_V), entry: h.entry_point(),
        ph_offset: h.ph_offset(), ph_entry_size: h.ph_entry_size(), ph_count: h.ph_count(),
    })
}

/// Reads the program headers of `bytes` with `xmas_elf::ElfFile::program_iter`, each with
/// whether its type is LOAD, its offset, sizes, address and flags. The result is named
/// `elf_segments_of`; the iteration yields one header per table entry, or none when the
/// table offset or entry size is zero. `xmas_elf` reads each entry in place, slicing the file
/// and asserting alignment, so the table must lie within the file with 8-aligned, whole
/// entries, and the bytes are first copied to an 8-aligned place in a buffer of their own.
#[verifier::external_body]
fn elf_program_headers(bytes: &[u8]) -> (r: Vec<ProgramSegment>)
    requires
        elf_header_of(bytes@) is Some,
        program_table_readable(elf_header_of(bytes@)->Some_0, bytes@.len() as int),
    ensures
        r@ == elf_segments_of(bytes@),
        r@.len() == program_table_len(elf_header_of(bytes@)->Some_0),
{
    let mut buf = bytes.to_vec();
    buf.extend_from_slice(&[0u8; 8]);
    let off = buf.as_ptr().align_offset(8);
    buf.copy_within(0..bytes.len(), off);
    let elf = ElfFile::new(&buf[off..][..bytes.len()]).unwrap();
    elf.program_iter().map(|p| ProgramSegment {
        is_load: matches!(p.get_type(), Ok(program::Type::Load)), offset: p.offset() as usize,
        file_size: p.file_size() as usize, vaddr: p.virtual_addr() as usize,
        mem_size: p.mem_size() as usize, flags: p.flags().0,
    }).collect()
}

/// Whether the program header table of header `h` can be read from `len` bytes.
fn table_readable(h: ElfHeader, len: usize) -> (b: bool)
    ensures
        b == program_table_readable(h, len as int),
{
    if !h.class64 {
        return false;
    }
    if !(h.ph_offset > 0 && h.ph_entry_size > 0 && h.ph_count > 0) {
        return true;
    }
    assert((h.ph_count as int) * (h.ph_entry_size as int) <= 0xFFFF * 0xFFFF) by (nonlinear_arith)
        requires
            h.ph_count <= 0xFFFF,
            h.ph_entry_size <= 0xFFFF,
    ;
    let span: u64 = h.ph_count as u64 * h.ph_entry_size as u64;
    let fits = match h.ph_offset.checked_add(span) {
        Some(end) => end <= len as u64,
        None => false,
    };
    h.ph_offset % 8 == 0 && h.ph_entry_size % 8 == 0 && h.ph_entry_size >= PH64_SIZE && fits
}

/// The parts of the ELF file `bytes` that the loader uses, as `xmas_elf` reads them: `None`
/// where `xmas_elf` refuses the header (too short, no ELF magic number, no valid class) or the
/// program header table does not lie within the file as a 64-bit table.
pub fn elf_image(bytes: Vec<u8>) -> (r: Option<ElfImage>)
    ensures
        r is Some <==> (elf_header_of(bytes@) matches Some(h) && program_table_readable(h, bytes@.len() as int)),
        !header_parses(bytes@) ==> r is None,
        r is Some ==> bytes@[4] == 2u8,
        r matches Some(img) ==> {
            let h = elf_header_of(bytes@)->Some_0;
            &&& img.class64 == h.class64
            &&& img.elf_type == h.elf_type
            &&& img.riscv == h.riscv
            &&& img.entry == h.entry
            &&& img.segments@ == elf_segments_of(bytes@)
            &&& img.input@ == bytes@
        },
{
    let h = match elf_header(bytes.as_slice()) {
        Some(h) => h,
        None => return None,
    };
    if !table_readable(h, bytes.len()) {
        return None;
    }
    let segments = elf_program_headers(bytes.as_slice());
    Some(ElfImage { class64: h.class64, elf_type: h.elf_type, riscv: h.riscv, entry: h.entry, segments, input: bytes })
}

/// Whether segment `s` of a file of `input_len` bytes can be laid out.
fn segment_fits(s: ProgramSegment, input_len: usize) -> (b: bool)
    ensures
        b == segment_loadable(s, input_len as int),
{
    if !(s.offset <= input_len && s.file_size <= input_len - s.offset) {
        return false;
    }
    if s.offset % 4096 != s.vaddr % 4096 {
        return false;
    }
    match s.vaddr.checked_add(s.mem_size) {
        Some(mem_end) => mem_end <= usize::MAX - 4096 && s.file_size <= usize::MAX - s.vaddr,
        None => false,
    }
}

/// Whether every loadable segment of `image` can be laid out.
pub fn image_fits(image: &ElfImage) -> (b: bool)
    ensures
        b == image_loadable(image),
{
    let n = image.input.len();
    let mut i: usize = 0;
    while i < image.segments.len()
        invariant
            0 <= i <= image.segments@.len(),
            n == image.input@.len(),
            forall|k: int| 0 <= k < i && (#[trigger] image.segments@[k]).is_load
                ==> segment_loadable(image.segments@[k], n as int),
        decreases image.segments@.len() - i,
    {
        let s = image.segments[i];
        if s.is_load && !segment_fits(s, n) {
            assert(!segment_loadable(image.segments@[i as int], n as int));
            return false;
        }
        i = i + 1;
    }
    true
}

/// `xmas_elf` reads the header of `bytes`, the header describes a 64-bit RISC-V executable
/// whose program header table lies within the file, and every loadable segment can be laid out.
pub open spec fn elf_loads(bytes: Seq<u8>) -> bool {
    elf_header_of(bytes) matches Some(h) && program_table_readable(h, bytes.len() as int)
        && h.elf_type == ET_EXEC && h.riscv
        && segments_loadable(elf_segments_of(bytes), bytes.len() as int)
}

/// Loads the ELF file `bytes`: `Some` exactly when `elf_loads` holds of it; the plan then lays
/// the program out as `lays_out` describes.
pub fn load_elf(bytes: Vec<u8>) -> (r: Option<LoadPlan>)
    ensures
        r is Some <==> elf_loads(bytes@),
        r is Some ==> lays_out(r->Some_0, elf_header_of(bytes@)->Some_0.entry, elf_segments_of(bytes@), bytes@),
{
    let image = match elf_image(bytes) {
        Some(i) => i,
        None => return None,
    };
    if !image_fits(&image) {
        return None;
    }
    from_elf(&image)
}

} // verus!
