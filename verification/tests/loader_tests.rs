use tg_rcore::elf_load::{self, ElfImage, ProgramSegment, SegFlags};
use tg_rcore::user_alloc::UserAllocator;

fn image(riscv: bool, segments: Vec<ProgramSegment>, input: Vec<u8>) -> ElfImage {
    ElfImage { class64: true, elf_type: elf_load::ET_EXEC, riscv, entry: 0x1004, segments, input }
}

/// A 64-bit little-endian ELF file with one program header of type `p_type` whose four data
/// bytes follow the table at offset 0x78 and load at 0x1078.
fn elf_file(machine: u16, p_type: u32) -> Vec<u8> {
    let mut f: Vec<u8> = vec![0x7f, 0x45, 0x4c, 0x46, 2, 1, 1, 0, 0, 0, 0, 0, 0, 0, 0, 0];
    f.extend_from_slice(&2u16.to_le_bytes());
    f.extend_from_slice(&machine.to_le_bytes());
    f.extend_from_slice(&1u32.to_le_bytes());
    f.extend_from_slice(&0x1078u64.to_le_bytes());
    f.extend_from_slice(&64u64.to_le_bytes());
    f.extend_from_slice(&0u64.to_le_bytes());
    f.extend_from_slice(&0u32.to_le_bytes());
    for v in [64u16, 56, 1, 0, 0, 0] {
        f.extend_from_slice(&v.to_le_bytes());
    }
    assert_eq!(f.len(), 64);
    f.extend_from_slice(&p_type.to_le_bytes());
    f.extend_from_slice(&5u32.to_le_bytes());
    for v in [0x78u64, 0x1078, 0x1078, 4, 0x10, 0x1000] {
        f.extend_from_slice(&v.to_le_bytes());
    }
    f.extend_from_slice(&[0xaa, 0xbb, 0xcc, 0xdd]);
    f
}

#[test]
fn elf_image_reads_header_and_program_table() {
    let img = elf_load::elf_image(elf_file(0xF3, 1)).unwrap();
    assert!(img.class64 && img.riscv);
    assert_eq!(img.elf_type, elf_load::ET_EXEC);
    assert_eq!(img.entry, 0x1078);
    assert_eq!(img.segments.len(), 1);
    let s = img.segments[0];
    assert_eq!(s, ProgramSegment { is_load: true, offset: 0x78, file_size: 4, vaddr: 0x1078, mem_size: 0x10, flags: 5 });
    assert_eq!(img.input.len(), 0x7c);
    assert!(elf_load::image_fits(&img));
}

#[test]
fn elf_image_refuses_non_elf_bytes() {
    assert!(elf_load::elf_image(vec![0u8; 128]).is_none());
    assert!(elf_load::elf_image(vec![0x7f, 0x45]).is_none());
    assert!(elf_load::load_elf(vec![0u8; 128]).is_none());
}

#[test]
fn elf_image_refuses_bad_identification_and_short_headers() {
    let mut bad_class = elf_file(0xF3, 1);
    bad_class[4] = 3;
    assert!(elf_load::elf_image(bad_class).is_none());
    let mut no_class = elf_file(0xF3, 1);
    no_class[4] = 0;
    assert!(elf_load::elf_image(no_class).is_none());
    let mut bad_magic = elf_file(0xF3, 1);
    bad_magic[1] = b'F';
    assert!(elf_load::elf_image(bad_magic).is_none());
    let short: Vec<u8> = elf_file(0xF3, 1)[..63].to_vec();
    assert!(elf_load::elf_image(short).is_none());
    // a 32-bit header is read, but its program headers are not 64-bit ones
    let mut class32 = elf_file(0xF3, 1);
    class32[4] = 1;
    assert!(elf_load::elf_image(class32).is_none());
}

#[test]
fn load_elf_lays_out_a_file() {
    let plan = elf_load::load_elf(elf_file(0xF3, 1)).unwrap();
    assert_eq!(plan.entry, 0x1078);
    assert_eq!(plan.heap_bottom, 0x2000);
    assert_eq!(plan.mappings.len(), 1);
    let m = &plan.mappings[0];
    assert_eq!((m.start_vpn, m.end_vpn), (1, 2));
    assert_eq!(&m.data[0x78..0x7c], &[0xaa, 0xbb, 0xcc, 0xdd]);
    assert_eq!(m.flags, SegFlags { executable: true, write: false, read: true });
}

#[test]
fn load_elf_refuses_other_machines_and_skips_other_segments() {
    let img = elf_load::elf_image(elf_file(0x3E, 1)).unwrap();
    assert!(!img.riscv);
    assert!(elf_load::load_elf(elf_file(0x3E, 1)).is_none());
    // a NOTE header is read but not loaded
    let plan = elf_load::load_elf(elf_file(0xF3, 4)).unwrap();
    assert_eq!(plan.mappings.len(), 0);
    assert_eq!(plan.heap_bottom, 0);
}

#[test]
fn elf_rejects_foreign_headers() {
    let img = image(false, vec![], vec![]);
    assert!(elf_load::from_elf(&img).is_none());
    let mut img32 = image(true, vec![], vec![]);
    img32.class64 = false;
    assert!(elf_load::from_elf(&img32).is_none());
}

#[test]
fn elf_lays_out_one_segment() {
    let seg = ProgramSegment { is_load: true, offset: 0, file_size: 8, vaddr: 0x1000, mem_size: 0x20, flags: elf_load::PF_R | elf_load::PF_X };
    let note = ProgramSegment { is_load: false, offset: 0, file_size: 0, vaddr: 0, mem_size: 0, flags: 0 };
    let img = image(true, vec![note, seg], vec![1, 2, 3, 4, 5, 6, 7, 8]);
    let plan = elf_load::from_elf(&img).unwrap();
    assert_eq!(plan.entry, 0x1004);
    assert_eq!(plan.heap_bottom, 0x2000);
    assert_eq!(plan.mappings.len(), 1);
    let m = &plan.mappings[0];
    assert_eq!((m.start_vpn, m.end_vpn, m.page_offset), (1, 2, 0));
    // the last page of a segment is mapped as a whole page image
    assert_eq!(m.data.len(), 4096);
    assert_eq!(&m.data[..8], &[1, 2, 3, 4, 5, 6, 7, 8]);
    assert!(m.data[8..].iter().all(|b| *b == 0));
    assert_eq!(m.flags, SegFlags { executable: true, write: false, read: true });
}

#[test]
fn elf_two_segments_in_address_order() {
    let data = ProgramSegment { is_load: true, offset: 0x10, file_size: 4, vaddr: 0x3010, mem_size: 0x2000, flags: elf_load::PF_R | elf_load::PF_W };
    let text = ProgramSegment { is_load: true, offset: 0, file_size: 4, vaddr: 0x1000, mem_size: 4, flags: elf_load::PF_R | elf_load::PF_X };
    let img = image(true, vec![data, text], vec![9, 9, 9, 9, 0, 0, 0, 0, 0, 0, 0, 0, 0, 0, 0, 0, 5, 6, 7, 8]);
    let plan = elf_load::from_elf(&img).unwrap();
    assert_eq!(plan.heap_bottom, 0x6000);
    assert_eq!(plan.mappings.len(), 3);
    assert_eq!((plan.mappings[0].start_vpn, plan.mappings[0].end_vpn), (1, 2));
    assert_eq!(&plan.mappings[0].data[..5], &[9, 9, 9, 9, 0]);
    assert_eq!((plan.mappings[1].start_vpn, plan.mappings[1].end_vpn, plan.mappings[1].page_offset), (3, 5, 0x10));
    assert_eq!(plan.mappings[1].data, vec![5, 6, 7, 8]);
    assert_eq!((plan.mappings[2].start_vpn, plan.mappings[2].end_vpn, plan.mappings[2].page_offset), (5, 6, 0));
    assert!(plan.mappings[2].data.iter().all(|b| *b == 0));
    assert_eq!(elf_load::seg_flags(7), SegFlags { executable: true, write: true, read: true });
}

#[test]
fn elf_segments_listed_out_of_address_order_share_a_page() {
    // the file lists the segment at 0x11800 before the one at 0x10000..0x11800 that ends on its page
    let b = ProgramSegment { is_load: true, offset: 0x1800, file_size: 4, vaddr: 0x11800, mem_size: 0x100, flags: elf_load::PF_R | elf_load::PF_W };
    let a = ProgramSegment { is_load: true, offset: 0, file_size: 0x1800, vaddr: 0x10000, mem_size: 0x1800, flags: elf_load::PF_R | elf_load::PF_X };
    let mut input: Vec<u8> = (0..0x1800u32).map(|i| (i % 251) as u8 + 1).collect();
    input.extend_from_slice(&[0xb0, 0xb1, 0xb2, 0xb3]);
    let img = image(true, vec![b, a], input.clone());
    assert!(elf_load::image_fits(&img));
    let plan = elf_load::from_elf(&img).unwrap();
    assert_eq!(plan.heap_bottom, 0x12000);
    assert_eq!(plan.mappings.len(), 2);
    let whole = &plan.mappings[0];
    assert_eq!((whole.start_vpn, whole.end_vpn, whole.page_offset), (0x10, 0x11, 0));
    assert_eq!(&whole.data[..], &input[..0x1000]);
    assert_eq!(whole.flags, SegFlags { executable: true, write: false, read: true });
    // page 0x11 is mapped once, with the tail of the first segment and the head of the second
    let shared = &plan.mappings[1];
    assert_eq!((shared.start_vpn, shared.end_vpn, shared.page_offset), (0x11, 0x12, 0));
    assert_eq!(shared.data.len(), 4096);
    assert_eq!(&shared.data[..0x800], &input[0x1000..0x1800]);
    assert_eq!(&shared.data[0x800..0x804], &[0xb0, 0xb1, 0xb2, 0xb3]);
    assert!(shared.data[0x804..].iter().all(|x| *x == 0));
    assert_eq!(shared.flags, SegFlags { executable: true, write: true, read: true });
}

#[test]
fn elf_empty_segment_between_others_keeps_the_page_single() {
    let a = ProgramSegment { is_load: true, offset: 0, file_size: 0x10, vaddr: 0x10000, mem_size: 0x800, flags: elf_load::PF_R | elf_load::PF_X };
    let z = ProgramSegment { is_load: true, offset: 0x800, file_size: 0, vaddr: 0x10800, mem_size: 0, flags: elf_load::PF_R };
    let b = ProgramSegment { is_load: true, offset: 0x900, file_size: 4, vaddr: 0x10900, mem_size: 0x100, flags: elf_load::PF_R | elf_load::PF_W };
    let mut input: Vec<u8> = (1..=0x10u8).collect();
    input.resize(0x900, 0xee);
    input.extend_from_slice(&[0xc0, 0xc1, 0xc2, 0xc3]);
    let img = image(true, vec![b, z, a], input.clone());
    let plan = elf_load::from_elf(&img).unwrap();
    assert_eq!(plan.heap_bottom, 0x11000);
    assert_eq!(plan.mappings.len(), 1);
    let m = &plan.mappings[0];
    assert_eq!((m.start_vpn, m.end_vpn, m.page_offset), (0x10, 0x11, 0));
    assert_eq!(&m.data[..0x10], &input[..0x10]);
    assert!(m.data[0x10..0x900].iter().all(|x| *x == 0));
    assert_eq!(&m.data[0x900..0x904], &[0xc0, 0xc1, 0xc2, 0xc3]);
    assert!(m.data[0x904..].iter().all(|x| *x == 0));
    assert_eq!(m.flags, SegFlags { executable: true, write: true, read: true });
}

#[test]
fn elf_empty_segment_at_the_start_of_another_maps_its_page_again() {
    // an empty segment listed after a segment with the same page-aligned address sends that
    // segment's page out early, so the next segment on the page maps it a second time
    let p = ProgramSegment { is_load: true, offset: 0, file_size: 4, vaddr: 0x2000, mem_size: 0x100, flags: elf_load::PF_R };
    let z = ProgramSegment { is_load: true, offset: 0, file_size: 0, vaddr: 0x2000, mem_size: 0, flags: elf_load::PF_R };
    let d = ProgramSegment { is_load: true, offset: 0x100, file_size: 4, vaddr: 0x2100, mem_size: 0x100, flags: elf_load::PF_R | elf_load::PF_W };
    let mut input: Vec<u8> = vec![1, 2, 3, 4];
    input.resize(0x100, 0);
    input.extend_from_slice(&[5, 6, 7, 8]);
    let plan = elf_load::from_elf(&image(true, vec![p, z, d], input)).unwrap();
    assert_eq!(plan.mappings.len(), 2);
    assert_eq!((plan.mappings[0].start_vpn, plan.mappings[0].end_vpn), (2, 3));
    assert_eq!((plan.mappings[1].start_vpn, plan.mappings[1].end_vpn), (2, 3));
    assert_eq!(&plan.mappings[0].data[..4], &[1, 2, 3, 4]);
    assert_eq!(&plan.mappings[1].data[0x100..0x104], &[5, 6, 7, 8]);
}

#[test]
fn elf_heap_bottom_is_a_39_bit_address() {
    // a segment ending just above 2^38 puts the heap at a page whose base sign-extends
    let seg = ProgramSegment { is_load: true, offset: 0, file_size: 0, vaddr: 0x3F_FFFF_F000, mem_size: 0x1001, flags: elf_load::PF_R };
    let img = image(true, vec![seg], vec![]);
    let plan = elf_load::from_elf(&img).unwrap();
    assert_eq!(plan.heap_bottom, 0xFFFF_FFC0_0000_1000);
}

#[test]
fn user_allocator_first_fit() {
    let mut a = UserAllocator::new(0x1000..0x8000);
    assert_eq!(a.alloc_aligned(1), Some(0x1000));
    assert_eq!(a.alloc_aligned(0x1001), Some(0x2000));
    assert_eq!(a.alloc_aligned(0x1000), Some(0x4000));
    let mut b = a.clone();
    assert_eq!(a.alloc_aligned(0x4000), None);
    assert_eq!(a.alloc_aligned(0x3000), Some(0x5000));
    assert_eq!(b.alloc_aligned(0x1000), Some(0x5000));
    assert_eq!(a.alloc_aligned(1), None);
}

#[test]
fn elf_shared_page_gets_the_union_of_rights_and_zero_elsewhere() {
    let mut input = vec![0u8; 0x1810];
    for b in &mut input[0x1000..0x1010] {
        *b = 0xAA;
    }
    for b in &mut input[0x1800..0x1810] {
        *b = 0xBB;
    }
    let a = ProgramSegment { is_load: true, offset: 0x1000, file_size: 0x10, vaddr: 0x10000, mem_size: 0x10, flags: elf_load::PF_R | elf_load::PF_X };
    let b = ProgramSegment { is_load: true, offset: 0x1800, file_size: 0x10, vaddr: 0x10800, mem_size: 0x20, flags: elf_load::PF_R | elf_load::PF_W };
    let img = ElfImage { class64: true, elf_type: elf_load::ET_EXEC, riscv: true, entry: 0x10000, segments: vec![a, b], input };
    assert!(elf_load::image_fits(&img));
    let plan = elf_load::from_elf(&img).unwrap();
    assert_eq!(plan.heap_bottom, 0x11000);
    assert_eq!(plan.mappings.len(), 1);
    let m = &plan.mappings[0];
    assert_eq!((m.start_vpn, m.end_vpn, m.page_offset), (0x10, 0x11, 0));
    assert_eq!(m.flags, SegFlags { executable: true, write: true, read: true });
    assert!(m.data[..0x10].iter().all(|x| *x == 0xAA));
    assert!(m.data[0x800..0x810].iter().all(|x| *x == 0xBB));
    assert!(m.data[0x10..0x800].iter().all(|x| *x == 0));
    assert!(m.data[0x810..].iter().all(|x| *x == 0));
}

#[test]
fn elf_segment_above_the_user_half_is_loaded() {
    let seg = ProgramSegment { is_load: true, offset: 0, file_size: 4, vaddr: 0x40_0000_0000, mem_size: 4, flags: elf_load::PF_R };
    let img = image(true, vec![seg], vec![1, 2, 3, 4]);
    assert!(elf_load::image_fits(&img));
    let plan = elf_load::from_elf(&img).unwrap();
    assert_eq!(plan.mappings[0].start_vpn, 0x40_0000_0000 / 4096);
}

#[test]
fn load_process_gives_plan_and_starting_state() {
    let (plan, start) = tg_rcore::kernel::load_process(elf_file(0xF3, 1)).unwrap();
    assert_eq!(plan.entry, 0x1078);
    assert_eq!(start.entry, 0x1078);
    assert_eq!((start.params.heap_bottom, start.params.program_brk), (0x2000, 0x2000));
    assert_eq!((start.params.stride, start.params.priority), (0, 16));
    assert_eq!(start.fd_table.len(), 3);
    assert!(tg_rcore::kernel::load_process(elf_file(0x3E, 1)).is_none());
}
