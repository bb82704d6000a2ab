//! The kernel's boot-time address space plan and its per-trap scheduling decision, and the
//! dispatch of `open`, `read` and `write` by path and descriptor.
use vstd::prelude::*;
use crate::vm::{page_floor, page_ceil};
use crate::elf_load::LoadPlan;
use crate::fd_table::FdTable;
use crate::user_alloc::UserAllocator;

verus! {

/// Page-table entry permissions of a mapping.
#[derive(Clone, Copy, PartialEq, Eq, Structural, Debug)]
pub struct PageFlags {
    pub user: bool,
    pub global: bool,
    pub execute: bool,
    pub write: bool,
    pub read: bool,
    pub valid: bool,
}

/// Kind of a section of the kernel image.
#[derive(Clone, Copy, PartialEq, Eq, Structural, Debug)]
pub enum RegionTitle {
    Text,
    Rodata,
    Data,
    Boot,
}

/// Kernel-only, readable and valid, with the given write and execute rights.
pub open spec fn kernel_flags(exec: bool, write: bool) -> PageFlags {
    PageFlags { user: false, global: false, execute: exec, write, read: true, valid: true }
}

/// Rights of a section: code is executable, read-only data read-only, data and the boot stack
/// writable.
pub open spec fn spec_region_flags(t: RegionTitle) -> PageFlags {
    match t {
        RegionTitle::Text => kernel_flags(true, false),
        RegionTitle::Rodata => kernel_flags(false, false),
        RegionTitle::Data | RegionTitle::Boot => kernel_flags(false, true),
    }
}

/// The rights of a kernel section.
pub fn region_flags(t: RegionTitle) -> (r: PageFlags)
    ensures
        r == spec_region_flags(t),
{
    match t {
        RegionTitle::Text => PageFlags { user: false, global: false, execute: true, write: false, read: true, valid: true },
        RegionTitle::Rodata => PageFlags { user: false, global: false, execute: false, write: false, read: true, valid: true },
        RegionTitle::Data | RegionTitle::Boot => PageFlags { user: false, global: false, execute: false, write: true, read: true, valid: true },
    }
}

/// The rights of the kernel's sections: every section is mapped for the kernel alone, valid,
/// readable and not global; only code may be executed and only the data and the boot stack
/// written, so no section is both writable and executable.
pub proof fn lemma_region_rights(t: RegionTitle)
    ensures
        !spec_region_flags(t).user && !spec_region_flags(t).global,
        spec_region_flags(t).valid && spec_region_flags(t).read,
        spec_region_flags(t).execute <==> t == RegionTitle::Text,
        spec_region_flags(t).write <==> (t == RegionTitle::Data || t == RegionTitle::Boot),
        !(spec_region_flags(t).write && spec_region_flags(t).execute),
{
}

/// Rights of the portal page: global, executable, writable, readable.
pub open spec fn portal_flags() -> PageFlags {
    PageFlags { user: false, global: true, execute: true, write: true, read: true, valid: true }
}

/// A run of virtual pages `vpn_start..vpn_end` mapped to physical pages from `ppn` on.
#[derive(Clone, Copy, PartialEq, Eq, Structural, Debug)]
pub struct Mapping {
    pub vpn_start: usize,
    pub vpn_end: usize,
    pub ppn: usize,
    pub flags: PageFlags,
}

/// The highest virtual page of Sv39, where the portal lives.
pub const PORTAL_VPN: usize = 0x7FF_FFFF;

/// The identity mapping of the pages covering `start..end` with `flags`.
pub open spec fn identity_map(start: usize, end: usize, flags: PageFlags) -> Mapping {
    Mapping {
        vpn_start: crate::vm::spec_floor(start as int) as usize,
        vpn_end: crate::vm::spec_ceil(end as int) as usize,
        ppn: crate::vm::spec_floor(start as int) as usize,
        flags,
    }
}

/// The pages of a device window `start..end` (both page aligned), mapped to themselves.
pub open spec fn device_map(start: usize, end: usize) -> Mapping {
    Mapping { vpn_start: start / 4096, vpn_end: end / 4096, ppn: start / 4096, flags: kernel_flags(false, true) }
}

/// The kernel address space: each section of the image mapped to itself with its rights, the
/// heap `heap_start..heap_end` writable, the portal page at the top of the address space
/// backed by the page at `portal`, and each device window writable.
pub open spec fn kernel_plan(regions: Seq<(RegionTitle, usize, usize)>, heap_start: usize, heap_end: usize, portal: usize,
    devices: Seq<(usize, usize)>) -> Seq<Mapping>
{
    regions.map_values(|r: (RegionTitle, usize, usize)| identity_map(r.1, r.2, spec_region_flags(r.0)))
        + seq![identity_map(heap_start, heap_end, kernel_flags(false, true)),
            Mapping { vpn_start: PORTAL_VPN, vpn_end: (PORTAL_VPN + 1) as usize, ppn: portal / 4096, flags: portal_flags() }]
        + devices.map_values(|d: (usize, usize)| device_map(d.0, d.1))
}

/// Plans the kernel's address space (see `kernel_plan`). Device windows must be page aligned.
pub fn kernel_space_plan(regions: &Vec<(RegionTitle, usize, usize)>, heap_start: usize, heap_end: usize, portal: usize,
    devices: &Vec<(usize, usize)>) -> (r: Vec<Mapping>)
    requires
        forall|i: int| 0 <= i < devices@.len() ==> #[trigger] devices@[i].0 % 4096 == 0 && devices@[i].1 % 4096 == 0,
    ensures
        r@ == kernel_plan(regions@, heap_start, heap_end, portal, devices@),
{
    let mut plan: Vec<Mapping> = Vec::new();
    let mut i: usize = 0;
    while i < regions.len()
        invariant
            0 <= i <= regions@.len(),
            plan@ == regions@.subrange(0, i as int).map_values(
                |r: (RegionTitle, usize, usize)| identity_map(r.1, r.2, spec_region_flags(r.0))),
        decreases regions@.len() - i,
    {
        let (title, start, end) = regions[i];
        let first = page_floor(start);
        plan.push(Mapping { vpn_start: first, vpn_end: page_ceil(end), ppn: first, flags: region_flags(title) });
        i = i + 1;
        assert(plan@ =~= regions@.subrange(0, i as int).map_values(
            |r: (RegionTitle, usize, usize)| identity_map(r.1, r.2, spec_region_flags(r.0))));
    }
    let heap_first = page_floor(heap_start);
    plan.push(Mapping {
        vpn_start: heap_first,
        vpn_end: page_ceil(heap_end),
        ppn: heap_first,
        flags: PageFlags { user: false, global: false, execute: false, write: true, read: true, valid: true },
    });
    plan.push(Mapping {
        vpn_start: PORTAL_VPN,
        vpn_end: PORTAL_VPN + 1,
        ppn: portal >> 12,
        flags: PageFlags { user: false, global: true, execute: true, write: true, read: true, valid: true },
    });
    proof {
        assert(regions@.subrange(0, regions@.len() as int) =~= regions@);
        assert(portal >> 12 == portal / 4096) by (bit_vector);
    }
    let ghost head = plan@;
    let mut k: usize = 0;
    while k < devices.len()
        invariant
            0 <= k <= devices@.len(),
            plan@ == head + devices@.subrange(0, k as int).map_values(|d: (usize, usize)| device_map(d.0, d.1)),
            forall|i: int| 0 <= i < devices@.len() ==> #[trigger] devices@[i].0 % 4096 == 0 && devices@[i].1 % 4096 == 0,
        decreases devices@.len() - k,
    {
        let (start, end) = devices[k];
        plan.push(Mapping {
            vpn_start: start >> 12,
            vpn_end: end >> 12,
            ppn: start >> 12,
            flags: PageFlags { user: false, global: false, execute: false, write: true, read: true, valid: true },
        });
        proof {
            assert(start >> 12 == start / 4096) by (bit_vector);
            assert(end >> 12 == end / 4096) by (bit_vector);
        }
        k = k + 1;
        assert(plan@ =~= head + devices@.subrange(0, k as int).map_values(|d: (usize, usize)| device_map(d.0, d.1)));
    }
    proof {
        assert(devices@.subrange(0, devices@.len() as int) =~= devices@);
        assert(plan@ =~= kernel_plan(regions@, heap_start, heap_end, portal, devices@));
    }
    plan
}

/// Cause of a trap taken from user mode.
#[derive(Clone, Copy, PartialEq, Eq, Structural, Debug)]
pub enum UserTrap {
    /// An `ecall` from user mode.
    Syscall,
    /// A supervisor external (device) interrupt.
    ExternalInterrupt,
    /// Any other exception or interrupt.
    Other,
}

/// System call number of `exit`.
pub const SYSCALL_EXIT: usize = 93;

/// What the scheduler does with the current process after a trap.
#[derive(Clone, Copy, PartialEq, Eq, Structural, Debug)]
pub enum TrapAction {
    /// The process ends with this exit code.
    Exit { code: isize },
    /// The system call returns `ret` in `a0` and the process waits for its next turn.
    Suspend { ret: isize },
    /// Serve the interrupting devices, then let the process wait for its next turn.
    ServeDevicesAndSuspend,
}

/// The decision after a trap of cause `trap`; for a system call, `id` is its number and
/// `result` its outcome (`None` when the call is not supported): `exit` ends the process with
/// the code it returned, another call hands its result back, an unsupported call ends the
/// process with -2, a device interrupt is served, and any other trap ends the process with -3.
pub fn trap_action(trap: UserTrap, id: usize, result: Option<isize>) -> (r: TrapAction)
    ensures
        r == match trap {
            UserTrap::Syscall => match result {
                Some(ret) => if id == SYSCALL_EXIT { TrapAction::Exit { code: ret } } else { TrapAction::Suspend { ret } },
                None => TrapAction::Exit { code: -2isize },
            },
            UserTrap::ExternalInterrupt => TrapAction::ServeDevicesAndSuspend,
            UserTrap::Other => TrapAction::Exit { code: -3isize },
        },
{
    match trap {
        UserTrap::Syscall => match result {
            Some(ret) => if id == SYSCALL_EXIT { TrapAction::Exit { code: ret } } else { TrapAction::Suspend { ret } },
            None => TrapAction::Exit { code: -2 },
        },
        UserTrap::ExternalInterrupt => TrapAction::ServeDevicesAndSuspend,
        UserTrap::Other => TrapAction::Exit { code: -3 },
    }
}

/// What a path given to `open` names.
#[derive(Clone, Copy, PartialEq, Eq, Structural, Debug)]
pub enum OpenTarget {
    /// The framebuffer device `/dev/fb0`.
    Framebuffer,
    /// The keyboard device `/dev/input0`.
    Keyboard,
    /// A file of the disk's file system.
    Disk,
}

/// The bytes of `/dev/fb0`.
pub open spec fn fb_path() -> Seq<u8> {
    seq![47u8, 100u8, 101u8, 118u8, 47u8, 102u8, 98u8, 48u8]
}

/// The bytes of `/dev/input0`.
pub open spec fn input_path() -> Seq<u8> {
    seq![47u8, 100u8, 101u8, 118u8, 47u8, 105u8, 110u8, 112u8, 117u8, 116u8, 48u8]
}

fn bytes_equal(a: &[u8], b: &[u8]) -> (r: bool)
    ensures
        r == (a@ == b@),
{
    if a.len() != b.len() {
        return false;
    }
    let mut i: usize = 0;
    while i < a.len()
        invariant
            a@.len() == b@.len(),
            0 <= i <= a@.len(),
            forall|j: int| 0 <= j < i ==> a@[j] == b@[j],
        decreases a@.len() - i,
    {
        if a[i] != b[i] {
            return false;
        }
        i = i + 1;
    }
    assert(a@ =~= b@);
    true
}

/// Decides what the path `path` opens.
pub fn open_target(path: &[u8]) -> (r: OpenTarget)
    ensures
        r == if path@ == fb_path() { OpenTarget::Framebuffer } else if path@ == input_path() { OpenTarget::Keyboard }
            else { OpenTarget::Disk },
{
    let fb: [u8; 8] = [47, 100, 101, 118, 47, 102, 98, 48];
    let input: [u8; 11] = [47, 100, 101, 118, 47, 105, 110, 112, 117, 116, 48];
    assert(fb@ =~= fb_path());
    assert(input@ =~= input_path());
    if bytes_equal(path, &fb) {
        OpenTarget::Framebuffer
    } else if bytes_equal(path, &input) {
        OpenTarget::Keyboard
    } else {
        OpenTarget::Disk
    }
}

/// Descriptor of the debug console.
pub const STDDEBUG: usize = 2;

/// `write` to `fd` goes straight to the console (standard output and the debug stream).
pub fn writes_to_console(fd: usize) -> (r: bool)
    ensures
        r == (fd == crate::fd_table::STDOUT || fd == STDDEBUG),
{
    fd == crate::fd_table::STDOUT || fd == STDDEBUG
}

/// `read` from `fd` comes straight from the console (standard input).
pub fn reads_from_console(fd: usize) -> (r: bool)
    ensures
        r == (fd == crate::fd_table::STDIN),
{
    fd == crate::fd_table::STDIN
}

/// How a batch kernel goes on after an application's system call.
#[derive(Clone, Copy, PartialEq, Eq, Structural, Debug)]
pub enum BatchOutcome {
    /// Write `ret` to `a0`, step past the `ecall` and resume the application.
    Resume { ret: isize },
    /// The application exited with the code it passed in `a0`.
    Exit { code: usize },
    /// The call `id` is not supported; the application is stopped.
    Unsupported { id: usize },
}

/// The batch kernel's reading of system call `id` made with `a0` as first argument, whose
/// outcome is `result` (`None` when unsupported).
pub fn batch_syscall_outcome(id: usize, a0: usize, result: Option<isize>) -> (r: BatchOutcome)
    ensures
        r == match result {
            Some(ret) => if id == SYSCALL_EXIT { BatchOutcome::Exit { code: a0 } } else { BatchOutcome::Resume { ret } },
            None => BatchOutcome::Unsupported { id },
        },
{
    match result {
        Some(ret) => if id == SYSCALL_EXIT { BatchOutcome::Exit { code: a0 } } else { BatchOutcome::Resume { ret } },
        None => BatchOutcome::Unsupported { id },
    }
}

/// The `satp` value that turns on Sv39 paging with the root page table at page `root_ppn`
/// (address-space id 0).
pub fn satp_sv39(root_ppn: u64) -> (r: u64)
    ensures
        r == (8u64 << 60u64) | root_ppn,
{
    (8u64 << 60u64) | root_ppn
}

/// The per-process numbers that `fork` carries over.
#[derive(Clone, Copy, PartialEq, Eq, Structural, Debug)]
pub struct ProcessParams {
    pub heap_bottom: usize,
    pub program_brk: usize,
    pub stride: usize,
    pub priority: usize,
}

/// A forked child's numbers: the parent's heap and priority, and a stride starting at zero.
pub fn forked_params(parent: ProcessParams) -> (r: ProcessParams)
    ensures
        r == (ProcessParams { stride: 0, ..parent }),
{
    ProcessParams { stride: 0, ..parent }
}

/// A standard descriptor's file: whether it can be read and whether it can be written.
#[derive(Clone, Copy, PartialEq, Eq, Structural, Debug)]
pub struct StdFile {
    pub readable: bool,
    pub writable: bool,
}

/// Initial user stack pointer: the top of the user half of the address space.
pub const USER_SP: u64 = 0x40_0000_0000;
/// First page of the user stack.
pub const USER_STACK_START_VPN: usize = 0x3FF_FFFE;
/// Page after the user stack.
pub const USER_STACK_END_VPN: usize = 0x400_0000;
/// Start of the window that anonymous and file mappings are placed in.
pub const MMAP_START: u64 = 0x3F_FF83_0000;
/// End of the mapping window.
pub const MMAP_END: u64 = 0x3F_FFFF_B000;
/// Scheduling priority of a new process.
pub const INITIAL_PRIORITY: usize = 16;

/// What a process starts with besides its loaded image: where it starts running, its stack,
/// its heap and scheduling numbers, its descriptors, and its mapping window.
pub struct ProcessStart {
    /// The program counter of the first instruction.
    pub entry: usize,
    /// The stack pointer.
    pub sp: u64,
    /// The stack pages, `stack_start_vpn..stack_end_vpn`.
    pub stack_start_vpn: usize,
    pub stack_end_vpn: usize,
    /// Rights of the stack pages.
    pub stack_flags: PageFlags,
    /// Heap bottom, program break, stride and priority.
    pub params: ProcessParams,
    /// Descriptors 0, 1 and 2: standard input, output and error.
    pub fd_table: FdTable<StdFile>,
    /// Allocator of the mapping window.
    pub allocator: UserAllocator,
}

/// `r` is the starting state of a process whose program was laid out as `plan` (see
/// `process_start`).
pub open spec fn started_from(r: ProcessStart, plan: LoadPlan) -> bool {
    &&& r.entry == plan.entry
    &&& r.sp == USER_SP
    &&& r.stack_start_vpn == USER_STACK_START_VPN
    &&& r.stack_end_vpn == USER_STACK_END_VPN
    &&& r.stack_flags == (PageFlags { user: true, global: false, execute: false, write: true, read: true, valid: true })
    &&& r.params == (ProcessParams { heap_bottom: plan.heap_bottom, program_brk: plan.heap_bottom, stride: 0, priority: INITIAL_PRIORITY })
    &&& r.fd_table@ == seq![
            Some(StdFile { readable: true, writable: false }),
            Some(StdFile { readable: false, writable: true }),
            Some(StdFile { readable: false, writable: true }),
        ]
    &&& r.allocator.lo() == MMAP_START as usize
    &&& r.allocator.hi() == MMAP_END as usize
    &&& r.allocator.allocated() == Set::<usize>::empty()
}

/// The starting state of a process whose program was laid out as `plan`: it runs from the
/// entry point with the stack pointer at the top of the user half, over two user stack pages
/// that are writable and readable; its heap is empty at the plan's heap bottom; its stride is
/// zero and its priority 16; descriptor 0 reads standard input and descriptors 1 and 2 write
/// standard output and error; and its mapping window is empty.
pub fn process_start(plan: &LoadPlan) -> (r: ProcessStart)
    ensures
        started_from(r, *plan),
{
    ProcessStart {
        entry: plan.entry,
        sp: USER_SP,
        stack_start_vpn: USER_STACK_START_VPN,
        stack_end_vpn: USER_STACK_END_VPN,
        stack_flags: PageFlags { user: true, global: false, execute: false, write: true, read: true, valid: true },
        params: ProcessParams { heap_bottom: plan.heap_bottom, program_brk: plan.heap_bottom, stride: 0, priority: INITIAL_PRIORITY },
        fd_table: FdTable::with_std(
            StdFile { readable: true, writable: false },
            StdFile { readable: false, writable: true },
            StdFile { readable: false, writable: true },
        ),
        allocator: UserAllocator::new((MMAP_START as usize)..(MMAP_END as usize)),
    }
}

/// A new process from the ELF file `bytes`: `None` exactly when the file does not load (see
/// `load_elf`); otherwise the plan of its image, laid out as `lays_out` describes, and its
/// starting state.
pub fn load_process(bytes: Vec<u8>) -> (r: Option<(LoadPlan, ProcessStart)>)
    ensures
        r is Some <==> crate::elf_load::elf_loads(bytes@),
        r matches Some(p) ==> crate::elf_load::lays_out(p.0, crate::elf_load::elf_header_of(bytes@)->Some_0.entry,
            crate::elf_load::elf_segments_of(bytes@), bytes@) && started_from(p.1, p.0),
{
    match crate::elf_load::load_elf(bytes) {
        Some(plan) => {
            let start = process_start(&plan);
            Some((plan, start))
        },
        None => None,
    }
}

} // verus!
