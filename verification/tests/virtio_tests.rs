use tg_rcore::virtio_blk::{self, BlkReq, DmaArena, DtNode, VirtQueue};

#[test]
fn virtio_device_recognition() {
    assert!(virtio_blk::is_block_device(0x74726976, 2));
    assert!(!virtio_blk::is_block_device(0x74726976, 1));
    let cands = [(0x1000_1000usize, 0u32, 0u32), (0x1000_2000, 0x74726976, 16), (0x1000_8000, 0x74726976, 2), (0x1000_9000, 0x74726976, 2)];
    assert_eq!(virtio_blk::find_block_device(&cands), Some(0x1000_8000));
    assert_eq!(virtio_blk::find_block_device(&cands[..2]), None);
    assert_eq!(virtio_blk::with_status(1, 2), 3);
    assert_eq!(virtio_blk::queue_pfn(0x8040_2000), 0x80402);
}

#[test]
fn virtio_requests_and_buffers() {
    assert_eq!(virtio_blk::block_request(5, true), BlkReq { type_: 1, reserved: 0, sector: 5 });
    assert_eq!(virtio_blk::block_request(0, false), BlkReq { type_: 0, reserved: 0, sector: 0 });
    let s = virtio_blk::padded_sector(b"Hello World!");
    assert_eq!(s.len(), 512);
    assert_eq!(&s[..12], b"Hello World!");
    assert!(s[12..].iter().all(|b| *b == 0));
    assert_eq!(virtio_blk::nul_terminated_len(&s), 12);
    assert_eq!(virtio_blk::nul_terminated_len(b"abc"), 3);
}

#[test]
fn virtio_queue_enqueue_and_reclaim() {
    let mut q = VirtQueue::new();
    assert_eq!(q.num_free(), 16);
    assert_eq!(q.desc_at(15).next, 0);
    assert_eq!(q.desc_at(3).next, 4);
    let head = q.enqueue(0x100, 0x200, 512, false, 0x300);
    assert_eq!(head, 0);
    assert_eq!(q.num_free(), 13);
    let d0 = q.desc_at(0);
    let d1 = q.desc_at(1);
    let d2 = q.desc_at(2);
    assert_eq!((d0.addr, d0.len, d0.flags, d0.next), (0x100, 16, 1, 1));
    assert_eq!((d1.addr, d1.len, d1.flags, d1.next), (0x200, 512, 3, 2));
    assert_eq!((d2.addr, d2.len, d2.flags, d2.next), (0x300, 1, 2, 0));
    assert_eq!(q.avail_at(0), 0);
    assert_eq!(q.avail_idx(), 1);
    assert_eq!(q.used_slot(), 0);
    assert_eq!(q.last_used_idx(), 0);
    // a completion naming no pending chain changes nothing
    assert_eq!(q.reclaim(5), None);
    assert_eq!(q.num_free(), 13);
    assert_eq!(q.reclaim(0), Some(0));
    assert_eq!(q.num_free(), 16);
    assert_eq!(q.used_slot(), 1);
    assert_eq!(q.last_used_idx(), 1);
    assert_eq!(q.desc_at(2).next, 3);
    // the same descriptors come back first
    let again = q.enqueue(0x100, 0x200, 512, true, 0x300);
    assert_eq!(again, 0);
    assert_eq!(q.desc_at(1).flags, 1);
    assert_eq!(q.avail_at(1), 0);
    assert_eq!(q.avail_idx(), 2);
}

#[test]
fn virtio_dma_arena_bumps() {
    let mut a = DmaArena::new(0x8000_0000);
    assert_eq!(a.alloc_pages(2), 0x8000_0000);
    assert_eq!(a.alloc_pages(1), 0x8000_2000);
    assert_eq!(a.offset, 0x3000);
}

#[test]
fn virtio_mmio_nodes_in_devicetree_order() {
    let mmio = b"virtio,mmio".to_vec();
    let nodes = vec![
        DtNode { compatible: Some(vec![b"ns16550a".to_vec()]), first_reg: Some(0x1000_0000) },
        DtNode { compatible: Some(vec![mmio.clone()]), first_reg: Some(0x1000_8000) },
        DtNode { compatible: None, first_reg: Some(0x1000_2000) },
        DtNode { compatible: Some(vec![b"other".to_vec(), mmio.clone()]), first_reg: Some(0x1000_1000) },
        DtNode { compatible: Some(vec![mmio.clone()]), first_reg: None },
        DtNode { compatible: Some(vec![b"virtio,mmi".to_vec()]), first_reg: Some(0x1000_3000) },
    ];
    assert_eq!(virtio_blk::virtio_mmio_bases(&nodes), vec![0x1000_8000, 0x1000_1000]);
    assert!(virtio_blk::node_is_virtio_mmio(&nodes[3]));
    assert!(!virtio_blk::node_is_virtio_mmio(&nodes[5]));
    assert!(virtio_blk::virtio_mmio_bases(&[]).is_empty());
}
