use tg_rcore::boot;
use tg_rcore::devices::{self, DeviceKind, DeviceRegistry, VirtIOProbingIterator};
use tg_rcore::fd_table::{self, FdTable, FbRequest};
use tg_rcore::kernel::{self, BatchOutcome, OpenTarget, RegionTitle, TrapAction, UserTrap};
use tg_rcore::sbi::{self, HartTable, MachineTrapFrame, SbiCall, SbiRet, TrapKind};
use tg_rcore::vm::{self, BrkPages, HeapBounds, MapVisibility, MappedRange};

#[test]
fn sbi_base_extension() {
    assert_eq!(sbi::handle_base(0), SbiRet { error: 0, value: 0x0100_0000 });
    assert_eq!(sbi::handle_base(3), SbiRet { error: 0, value: 1 });
    assert_eq!(sbi::handle_base(6), SbiRet { error: 0, value: 0 });
    assert_eq!(sbi::handle_base(7), SbiRet { error: -2, value: 0 });
    assert_eq!(sbi::reset_code(0), 0x5555);
    assert_eq!(sbi::reset_code(1), 0x3333);
    assert!(sbi::uart_tx_ready(0x60));
    assert!(!sbi::uart_tx_ready(0x01));
    assert!(sbi::uart_rx_ready(0x01));
    assert_eq!(sbi::msip_address(3), 0x200_000c);
}

#[test]
fn sbi_hart_start_once() {
    let mut t = HartTable::new();
    assert_eq!(t.handle_hsm(0, 1, 0x8020_0000, 7), SbiRet { error: 0, value: 0 });
    let c = t.context(1);
    assert_eq!((c.start_addr, c.opaque, c.started), (0x8020_0000, 7, true));
    assert_eq!(t.handle_hsm(0, 1, 0x8030_0000, 8), SbiRet { error: -6, value: 0 });
    assert_eq!(t.handle_hsm(0, 8, 0, 0), SbiRet { error: -3, value: 0 });
    assert_eq!(t.handle_hsm(1, 2, 0, 0), SbiRet { error: -2, value: 0 });
    assert!(!t.context(2).started);
}

#[test]
fn sbi_trap_decoding() {
    assert_eq!(sbi::decode_mcause(0x8000_0000_0000_0003), TrapKind::WakeIpi);
    assert_eq!(sbi::decode_mcause(9), TrapKind::SupervisorEcall);
    assert_eq!(sbi::decode_mcause(3), TrapKind::Other);
    let mut f = MachineTrapFrame { ra: 0, t0: 0, t1: 0, t2: 0, a0: 65, a1: 0, a2: 0, a3: 0, a4: 0, a5: 0, a6: 0, a7: 1, mepc: 0x1000 };
    assert_eq!(sbi::classify_ecall(&f), SbiCall::ConsolePutchar(65));
    f.a7 = 0x48534D;
    f.a6 = 0;
    assert_eq!(sbi::classify_ecall(&f), SbiCall::Hsm(0, 65, 0, 0));
    f.a7 = 0x99;
    assert_eq!(sbi::classify_ecall(&f), SbiCall::Unsupported);
    sbi::complete_ecall(&mut f, SbiRet { error: -2, value: 5 });
    assert_eq!((f.a0, f.a1, f.mepc), ((-2isize) as usize, 5, 0x1004));
    let ctx = sbi::HartContext { start_addr: 0x8020_0000, opaque: 9, started: true };
    sbi::prepare_wake(&mut f, 3, ctx);
    assert_eq!((f.a0, f.a1, f.mepc), (3, 9, 0x8020_0000));
}

#[test]
fn boot_smp_and_stacks() {
    assert_eq!(boot::parse_env_smp("4"), 4);
    assert_eq!(boot::parse_env_smp("12"), 12);
    assert_eq!(boot::parse_env_smp(""), 0);
    assert_eq!(boot::hart_stack_top(0x1000, 2, 1), 0x1000 + 2 * boot::STACK_SIZE_PER_HART - boot::STACK_SIZE_PER_HART);
    assert_eq!(boot::hart_greeting(3), b"Hello, world! from hart 3\n".to_vec());
}

#[test]
fn devices_virtio_windows() {
    let r = devices::virtio_ranges();
    assert_eq!(r, vec![(0x1000_1000, 0x1000_9000), (0x0C00_0000, 0x0D00_0000)]);
    let mut it = VirtIOProbingIterator::new();
    assert_eq!(it.next(), Some((1, 0x1000_1000)));
    let mut n = 1;
    let mut last = (1, 0x1000_1000);
    while let Some(x) = it.next() {
        n += 1;
        last = x;
    }
    assert_eq!(n, 8);
    assert_eq!(last, (8, 0x1000_8000));
    assert_eq!(it.next(), None);
    let mut seen = Vec::new();
    devices::visit_virtio_ranges(|s, e| seen.push((s, e)));
    assert_eq!(seen, r);
    assert_eq!(devices::window_pages(0x1000_1000, 0x1000_9000), (0x10001, 0x10009));
}

#[test]
fn devices_registry_routes_interrupts() {
    let mut reg = DeviceRegistry::new();
    assert!(reg.wants(DeviceKind::Gpu));
    reg.adopt(1, DeviceKind::Gpu);
    assert!(!reg.wants(DeviceKind::Gpu));
    reg.adopt(3, DeviceKind::Keyboard);
    assert_eq!(reg.device_for_irq(3), Some(DeviceKind::Keyboard));
    assert_eq!(reg.device_for_irq(1), Some(DeviceKind::Gpu));
    assert_eq!(reg.device_for_irq(9), None);
    assert_eq!(devices::irq_from_claim(0), None);
    assert_eq!(devices::irq_from_claim(5), Some(5));
    assert_eq!(devices::time_spec(125_000_000), (10, 0));
}

#[test]
fn fd_table_never_reuses_descriptors() {
    let mut t: FdTable<u32> = FdTable::with_std(10, 11, 12);
    assert_eq!(t.len(), 3);
    let fd = t.open(13);
    assert_eq!(fd, 3);
    assert!(t.close(fd));
    assert!(!t.close(fd));
    assert!(!t.close(99));
    assert_eq!(t.get(fd), None);
    assert_eq!(t.open(14), 4);
    assert_eq!(t.get(4), Some(&14));
    let child = t.fork();
    assert_eq!(child.len(), 5);
    assert_eq!(child.get(3), None);
    assert_eq!(child.get(1), Some(&11));
    assert_eq!(fd_table::fb_request(1), Some(FbRequest::Flush));
    assert_eq!(fd_table::fb_request(3), None);
    assert_eq!(fd_table::input_read_len(40, 5), 32);
    assert_eq!(fd_table::input_read_len(40, 1), 16);
}

#[test]
fn vm_page_arithmetic() {
    assert_eq!(vm::page_floor(0x1fff), 1);
    assert_eq!(vm::page_ceil(0x1001), 2);
    assert_eq!(vm::page_ceil(0x1000), 1);
    assert_eq!(vm::page_base(3), 0x3000);
    assert_eq!(vm::page_base(0x4000000), 0xffff_ffc0_0000_0000);
    assert_eq!(vm::prot_flag_bytes(3), *b"U_WRV");
    assert_eq!(vm::prot_flag_bytes(4), *b"UX__V");
}

#[test]
fn vm_mmap_and_munmap_decisions() {
    let areas = vec![MappedRange::new(0x10, 0x20, MapVisibility::PRIVATE)];
    let mut brk = 0x5000usize;
    assert!(vm::plan_mmap(&areas, &mut brk, 0x1001, 10, vm::MAP_PRIVATE).is_none());
    assert!(vm::plan_mmap(&areas, &mut brk, 0x1000, 0, vm::MAP_PRIVATE).is_none());
    assert!(vm::plan_mmap(&areas, &mut brk, 0x1000, 10, 3).is_none());
    let p = vm::plan_mmap(&areas, &mut brk, 0, 0x1800, vm::MAP_SHARED | vm::MAP_ANONYMOUS).unwrap();
    assert_eq!((p.start_vpn, p.end_vpn, p.visibility, p.anonymous), (5, 7, MapVisibility::SHARED, true));
    assert_eq!(brk, 0x7000);
    assert!(vm::plan_mmap(&areas, &mut brk, 0x18000, 0x1000, vm::MAP_PRIVATE).is_none());
    assert_eq!(vm::plan_munmap(&areas, 0x12000, 0x1000), Some((0x12, 0x13)));
    assert_eq!(vm::plan_munmap(&areas, 0x1f000, 0x2000), None);
    assert_eq!(vm::plan_munmap(&areas, 0x12001, 0x1000), None);
    // refused before the end of the range is computed
    assert_eq!(vm::plan_munmap(&areas, 0x12001, usize::MAX), None);
    assert!(vm::plan_mmap(&areas, &mut brk, 0x1001, usize::MAX, vm::MAP_PRIVATE).is_none());
    assert!(vm::plan_mmap(&areas, &mut brk, 0x1000, usize::MAX, 3).is_none());
}

#[test]
fn vm_program_break_moves() {
    let mut h = HeapBounds { heap_bottom: 0x10000, program_brk: 0x10000 };
    assert_eq!(h.change_program_brk(0x1800), Some((0x10000, BrkPages::MapPages(0x10, 0x12))));
    assert_eq!(h.program_brk, 0x11800);
    assert_eq!(h.change_program_brk(16), Some((0x11800, BrkPages::Keep)));
    assert_eq!(h.change_program_brk(-0x1000), Some((0x11810, BrkPages::UnmapPages(0x11, 0x12))));
    assert_eq!(h.change_program_brk(-0x10000), None);
    assert_eq!(h.program_brk, 0x10810);
    assert_eq!(vm::lseek_target(10, 5, vm::SEEK_SET), Some(5));
    assert_eq!(vm::lseek_target(10, -3, vm::SEEK_CUR), Some(7));
    assert_eq!(vm::lseek_target(10, 1, 2), None);
    assert!(!vm::priority_accepted(1));
    assert!(vm::priority_accepted(2));
}

#[test]
fn kernel_address_space_plan() {
    let regions = vec![(RegionTitle::Text, 0x8020_0000usize, 0x8020_1800usize), (RegionTitle::Data, 0x8020_2000, 0x8020_3000)];
    let devices = vec![(0x1000_1000usize, 0x1000_2000usize)];
    let plan = kernel::kernel_space_plan(&regions, 0x8030_0000, 0x8300_0000, 0x8040_0000, &devices);
    assert_eq!(plan.len(), 5);
    assert_eq!((plan[0].vpn_start, plan[0].vpn_end, plan[0].ppn), (0x80200, 0x80202, 0x80200));
    assert!(plan[0].flags.execute && !plan[0].flags.write);
    assert!(plan[1].flags.write && !plan[1].flags.execute);
    assert_eq!((plan[2].vpn_start, plan[2].vpn_end), (0x80300, 0x83000));
    assert_eq!((plan[3].vpn_start, plan[3].vpn_end, plan[3].ppn), (0x7FF_FFFF, 0x800_0000, 0x80400));
    assert!(plan[3].flags.global);
    assert_eq!((plan[4].vpn_start, plan[4].vpn_end, plan[4].ppn), (0x10001, 0x10002, 0x10001));
}

#[test]
fn kernel_trap_and_syscall_decisions() {
    assert_eq!(kernel::trap_action(UserTrap::Syscall, 93, Some(7)), TrapAction::Exit { code: 7 });
    assert_eq!(kernel::trap_action(UserTrap::Syscall, 64, Some(5)), TrapAction::Suspend { ret: 5 });
    assert_eq!(kernel::trap_action(UserTrap::Syscall, 64, None), TrapAction::Exit { code: -2 });
    assert_eq!(kernel::trap_action(UserTrap::ExternalInterrupt, 0, None), TrapAction::ServeDevicesAndSuspend);
    assert_eq!(kernel::trap_action(UserTrap::Other, 0, Some(1)), TrapAction::Exit { code: -3 });
    assert_eq!(kernel::batch_syscall_outcome(93, 4, Some(0)), BatchOutcome::Exit { code: 4 });
    assert_eq!(kernel::batch_syscall_outcome(64, 4, Some(3)), BatchOutcome::Resume { ret: 3 });
    assert_eq!(kernel::batch_syscall_outcome(12, 4, None), BatchOutcome::Unsupported { id: 12 });
    assert_eq!(kernel::open_target(b"/dev/fb0"), OpenTarget::Framebuffer);
    assert_eq!(kernel::open_target(b"/dev/input0"), OpenTarget::Keyboard);
    assert_eq!(kernel::open_target(b"initproc"), OpenTarget::Disk);
    assert!(kernel::writes_to_console(1) && kernel::writes_to_console(2) && !kernel::writes_to_console(3));
    assert!(kernel::reads_from_console(0) && !kernel::reads_from_console(1));
    assert_eq!(kernel::satp_sv39(0x80400), 0x8000_0000_0008_0400);
    let p = kernel::ProcessParams { heap_bottom: 1, program_brk: 2, stride: 30, priority: 16 };
    assert_eq!(kernel::forked_params(p), kernel::ProcessParams { heap_bottom: 1, program_brk: 2, stride: 0, priority: 16 });
}

#[test]
fn new_process_starts_with_std_descriptors_and_empty_heap() {
    let plan = tg_rcore::elf_load::LoadPlan { entry: 0x10000, mappings: vec![], heap_bottom: 0x11000 };
    let p = tg_rcore::kernel::process_start(&plan);
    assert_eq!(p.entry, 0x10000);
    assert_eq!(p.sp, 1u64 << 38);
    assert_eq!((p.stack_start_vpn, p.stack_end_vpn), ((1 << 26) - 2, 1 << 26));
    assert!(p.stack_flags.user && p.stack_flags.write && p.stack_flags.read && !p.stack_flags.execute);
    assert_eq!((p.params.heap_bottom, p.params.program_brk, p.params.stride, p.params.priority), (0x11000, 0x11000, 0, 16));
    assert_eq!(p.fd_table.len(), 3);
    assert_eq!(p.fd_table.get(0), Some(&tg_rcore::kernel::StdFile { readable: true, writable: false }));
    assert_eq!(p.fd_table.get(2), Some(&tg_rcore::kernel::StdFile { readable: false, writable: true }));
    assert_eq!(tg_rcore::kernel::MMAP_START, ((1u64 << 26) - 2000) << 12);
    assert_eq!(tg_rcore::kernel::MMAP_END, ((1u64 << 26) - 5) << 12);
}

#[test]
fn brk_growth_undone_by_shrinking() {
    let mut h = HeapBounds { heap_bottom: 0x10000, program_brk: 0x10800 };
    assert_eq!(h.change_program_brk(0x2000), Some((0x10800, BrkPages::MapPages(0x11, 0x13))));
    assert_eq!(h.change_program_brk(-0x2000), Some((0x12800, BrkPages::UnmapPages(0x11, 0x13))));
    assert_eq!(h.program_brk, 0x10800);
    assert_eq!(h.change_program_brk(-0x1000), None);
    assert_eq!(h.program_brk, 0x10800);
}
