//! A minimal legacy VirtIO block driver's bookkeeping: device recognition, the split
//! virtqueue's descriptor free list, request chains, the available ring and reclaiming used
//! chains, and sector buffers.
use vstd::prelude::*;

verus! {

/// Value of the magic register of a VirtIO MMIO device ("virt").
pub const VIRTIO_MAGIC: u32 = 0x74726976;
/// Device id of a block device.
pub const VIRTIO_ID_BLOCK: u32 = 2;
/// Descriptors in the queue.
pub const QUEUE_SIZE: usize = 16;
/// Descriptor flag: the chain continues at `next`.
pub const VRING_DESC_F_NEXT: u16 = 1;
/// Descriptor flag: the device writes this buffer.
pub const VRING_DESC_F_WRITE: u16 = 2;
/// Request type: read sectors.
pub const VIRTIO_BLK_T_IN: u32 = 0;
/// Request type: write sectors.
pub const VIRTIO_BLK_T_OUT: u32 = 1;
/// Size in bytes of a request header.
pub const BLK_REQ_LEN: u32 = 16;
/// Size in bytes of a sector.
pub const SECTOR_SIZE: usize = 512;
/// Legacy queue page size and alignment.
pub const PAGE_SIZE: u32 = 4096;
/// Offset of the available ring from the start of the queue memory.
pub const AVAIL_OFFSET: usize = 256;
/// Offset of the used ring from the start of the queue memory.
pub const USED_OFFSET: usize = 4096;

/// Device status bits written during initialisation.
pub const VIRTIO_STATUS_RESET: u32 = 0;
pub const VIRTIO_STATUS_ACKNOWLEDGE: u32 = 1;
pub const VIRTIO_STATUS_DRIVER: u32 = 2;
pub const VIRTIO_STATUS_DRIVER_OK: u32 = 4;

/// A device whose magic and device-id registers read `magic` and `device_id` is a VirtIO block
/// device.
pub fn is_block_device(magic: u32, device_id: u32) -> (r: bool)
    ensures
        r == (magic == VIRTIO_MAGIC && device_id == VIRTIO_ID_BLOCK),
{
    magic == VIRTIO_MAGIC && device_id == VIRTIO_ID_BLOCK
}

/// The first of the `(address, magic, device id)` candidates that is a block device.
pub fn find_block_device(candidates: &[(usize, u32, u32)]) -> (r: Option<usize>)
    ensures
        match r {
            None => forall|i: int| 0 <= i < candidates@.len() ==>
                !(#[trigger] candidates@[i].1 == VIRTIO_MAGIC && candidates@[i].2 == VIRTIO_ID_BLOCK),
            Some(a) => exists|i: int| 0 <= i < candidates@.len() && candidates@[i].0 == a
                && candidates@[i].1 == VIRTIO_MAGIC && candidates@[i].2 == VIRTIO_ID_BLOCK
                && forall|j: int| 0 <= j < i ==> !(#[trigger] candidates@[j].1 == VIRTIO_MAGIC && candidates@[j].2 == VIRTIO_ID_BLOCK),
        },
{
    let mut i: usize = 0;
    while i < candidates.len()
        invariant
            0 <= i <= candidates@.len(),
            forall|j: int| 0 <= j < i ==> !(#[trigger] candidates@[j].1 == VIRTIO_MAGIC && candidates@[j].2 == VIRTIO_ID_BLOCK),
        decreases candidates@.len() - i,
    {
        let (addr, magic, id) = candidates[i];
        if is_block_device(magic, id) {
            return Some(addr);
        }
        i = i + 1;
    }
    None
}

/// A devicetree node as the driver reads it: its compatible strings, if it has the property,
/// and the start of its first register range, if it has one.
pub struct DtNode {
    pub compatible: Option<Vec<Vec<u8>>>,
    pub first_reg: Option<usize>,
}

/// The compatible string of the VirtIO MMIO transport, `virtio,mmio`.
pub open spec fn virtio_mmio_compat() -> Seq<u8> {
    seq![118u8, 105u8, 114u8, 116u8, 105u8, 111u8, 44u8, 109u8, 109u8, 105u8, 111u8]
}

/// Node `n` declares itself compatible with the VirtIO MMIO transport.
pub open spec fn is_virtio_mmio(n: DtNode) -> bool {
    match n.compatible {
        Some(c) => exists|i: int| 0 <= i < c@.len() && #[trigger] c@[i]@ == virtio_mmio_compat(),
        None => false,
    }
}

/// The first register addresses of the VirtIO MMIO nodes of `nodes` that have registers, in
/// order.
pub open spec fn mmio_bases(nodes: Seq<DtNode>) -> Seq<usize>
    decreases nodes.len(),
{
    if nodes.len() == 0 {
        Seq::empty()
    } else {
        let rest = mmio_bases(nodes.drop_last());
        let n = nodes.last();
        if is_virtio_mmio(n) && n.first_reg is Some { rest.push(n.first_reg->Some_0) } else { rest }
    }
}

fn bytes_equal(a: &Vec<u8>, b: &Vec<u8>) -> (r: bool)
    ensures
        r == (a@ == b@),
{
    if a.len() != b.len() {
        return false;
    }
    let mut i: usize = 0;
    while i < a.len()
        invariant
            0 <= i <= a@.len(),
            a@.len() == b@.len(),
            forall|k: int| 0 <= k < i ==> a@[k] == b@[k],
        decreases a@.len() - i,
    {
        if a[i] != b[i] {
            return false;
        }
        i = i + 1;
    }
    assert(a@ =~= b@);
    true
}

fn virtio_mmio_name() -> (r: Vec<u8>)
    ensures
        r@ == virtio_mmio_compat(),
{
    let r: Vec<u8> = vec![118u8, 105u8, 114u8, 116u8, 105u8, 111u8, 44u8, 109u8, 109u8, 105u8, 111u8];
    assert(r@ =~= virtio_mmio_compat());
    r
}

/// Whether some of the strings `names` is `virtio,mmio`.
fn lists_virtio_mmio(names: &Vec<Vec<u8>>) -> (r: bool)
    ensures
        r == exists|i: int| 0 <= i < names@.len() && #[trigger] names@[i]@ == virtio_mmio_compat(),
{
    let name = virtio_mmio_name();
    let mut i: usize = 0;
    while i < names.len()
        invariant
            0 <= i <= names@.len(),
            name@ == virtio_mmio_compat(),
            forall|k: int| 0 <= k < i ==> #[trigger] names@[k]@ != virtio_mmio_compat(),
        decreases names@.len() - i,
    {
        if bytes_equal(&names[i], &name) {
            assert(names@[i as int]@ == virtio_mmio_compat());
            return true;
        }
        i = i + 1;
    }
    false
}

/// Whether node `n` declares itself compatible with the VirtIO MMIO transport.
pub fn node_is_virtio_mmio(n: &DtNode) -> (r: bool)
    ensures
        r == is_virtio_mmio(*n),
{
    match &n.compatible {
        None => false,
        Some(c) => lists_virtio_mmio(c),
    }
}

/// The first register addresses of the VirtIO MMIO nodes among `nodes` that have registers,
/// in devicetree order: the places to look for the block device.
pub fn virtio_mmio_bases(nodes: &[DtNode]) -> (r: Vec<usize>)
    ensures
        r@ == mmio_bases(nodes@),
{
    let mut r: Vec<usize> = Vec::new();
    let mut i: usize = 0;
    while i < nodes.len()
        invariant
            0 <= i <= nodes@.len(),
            r@ == mmio_bases(nodes@.take(i as int)),
        decreases nodes@.len() - i,
    {
        assert(nodes@.take(i + 1).drop_last() =~= nodes@.take(i as int));
        assert(nodes@.take(i + 1).last() == nodes@[i as int]);
        let n = &nodes[i];
        if node_is_virtio_mmio(n) {
            match n.first_reg {
                Some(a) => r.push(a),
                None => {},
            }
        }
        i = i + 1;
    }
    assert(nodes@.take(nodes@.len() as int) =~= nodes@);
    r
}

/// The status value that adds `bit` to the status register's current value `status`.
pub fn with_status(status: u32, bit: u32) -> (r: u32)
    ensures
        r == status | bit,
{
    status | bit
}

/// Page frame number of the queue memory at physical address `paddr`, as the legacy
/// QueuePFN register takes it.
pub fn queue_pfn(paddr: usize) -> (r: u32)
    ensures
        r == (paddr / PAGE_SIZE as usize) as u32,
{
    (paddr / PAGE_SIZE as usize) as u32
}

/// A descriptor of the queue's table.
#[derive(Clone, Copy, PartialEq, Eq, Structural, Debug)]
pub struct Desc {
    pub addr: u64,
    pub len: u32,
    pub flags: u16,
    pub next: u16,
}

/// A block request header: `type_` is `VIRTIO_BLK_T_IN` or `VIRTIO_BLK_T_OUT`.
#[derive(Clone, Copy, PartialEq, Eq, Structural, Debug)]
pub struct BlkReq {
    pub type_: u32,
    pub reserved: u32,
    pub sector: u64,
}

/// The request header for reading (`is_write` false) or writing sector `sector`.
pub fn block_request(sector: u64, is_write: bool) -> (r: BlkReq)
    ensures
        r == (BlkReq { type_: if is_write { VIRTIO_BLK_T_OUT } else { VIRTIO_BLK_T_IN }, reserved: 0, sector }),
{
    BlkReq { type_: if is_write { VIRTIO_BLK_T_OUT } else { VIRTIO_BLK_T_IN }, reserved: 0, sector }
}

/// A sector's worth of bytes: `buf` followed by zeros.
pub fn padded_sector(buf: &[u8]) -> (r: Vec<u8>)
    requires
        buf@.len() <= SECTOR_SIZE,
    ensures
        r@.len() == SECTOR_SIZE,
        r@.subrange(0, buf@.len() as int) == buf@,
        forall|i: int| buf@.len() <= i < SECTOR_SIZE ==> #[trigger] r@[i] == 0,
{
    let mut v: Vec<u8> = Vec::new();
    let mut i: usize = 0;
    while i < SECTOR_SIZE
        invariant
            0 <= i <= SECTOR_SIZE,
            buf@.len() <= SECTOR_SIZE,
            v@.len() == i,
            forall|j: int| 0 <= j < i ==> #[trigger] v@[j] == if j < buf@.len() { buf@[j] } else { 0u8 },
        decreases SECTOR_SIZE - i,
    {
        if i < buf.len() {
            v.push(buf[i]);
        } else {
            v.push(0);
        }
        i = i + 1;
    }
    assert(v@.subrange(0, buf@.len() as int) =~= buf@);
    v
}

/// Length of the text in `buf` up to its first zero byte (all of it when there is none).
pub fn nul_terminated_len(buf: &[u8]) -> (r: usize)
    ensures
        r <= buf@.len(),
        forall|i: int| 0 <= i < r ==> #[trigger] buf@[i] != 0,
        r < buf@.len() ==> buf@[r as int] == 0,
{
    let mut end: usize = 0;
    while end < buf.len() && buf[end] != 0
        invariant
            0 <= end <= buf@.len(),
            forall|i: int| 0 <= i < end ==> #[trigger] buf@[i] != 0,
        decreases buf@.len() - end,
    {
        end = end + 1;
    }
    end
}

/// The descriptor indices met by following `next` links `n` times from `start`.
pub open spec fn chain(desc: Seq<Desc>, start: u16, n: nat) -> Seq<u16>
    decreases n,
{
    if n == 0 {
        Seq::empty()
    } else {
        seq![start] + chain(desc, desc[start as int].next, (n - 1) as nat)
    }
}

/// The descriptors of `c`, in order, form a chain in `desc`: each but the last has the NEXT
/// flag and links to the following one; the last has no NEXT flag.
pub open spec fn linked(desc: Seq<Desc>, c: Seq<u16>) -> bool {
    &&& c.len() >= 1
    &&& forall|k: int| 0 <= k < c.len() ==> (#[trigger] c[k]) < QUEUE_SIZE
    &&& forall|k: int| 0 <= k < c.len() - 1 ==> #[trigger] desc[c[k] as int].flags & VRING_DESC_F_NEXT != 0
        && desc[c[k] as int].next == c[k + 1]
    &&& desc[c.last() as int].flags & VRING_DESC_F_NEXT == 0
}

proof fn lemma_linked_at(desc: Seq<Desc>, c: Seq<u16>, k: int)
    requires
        linked(desc, c),
        0 <= k < c.len() - 1,
    ensures
        desc[c[k] as int].flags & VRING_DESC_F_NEXT != 0,
        desc[c[k] as int].next == c[k + 1],
        c[k] < QUEUE_SIZE,
{
}

proof fn lemma_chain_len(desc: Seq<Desc>, start: u16, n: nat)
    ensures
        chain(desc, start, n).len() == n,
        n > 0 ==> chain(desc, start, n)[0] == start,
    decreases n,
{
    if n > 0 {
        lemma_chain_len(desc, desc[start as int].next, (n - 1) as nat);
    }
}

proof fn lemma_chain_index(desc: Seq<Desc>, start: u16, n: nat, k: int)
    requires
        0 <= k < n - 1,
    ensures
        chain(desc, start, n)[k + 1] == desc[chain(desc, start, n)[k] as int].next,
    decreases n,
{
    lemma_chain_len(desc, start, n);
    let next = desc[start as int].next;
    lemma_chain_len(desc, next, (n - 1) as nat);
    if k > 0 {
        lemma_chain_index(desc, next, (n - 1) as nat, k - 1);
    }
}

/// Following links only reads the descriptors met along the way.
proof fn lemma_chain_frame(d1: Seq<Desc>, d2: Seq<Desc>, start: u16, n: nat)
    requires
        forall|k: int| 0 <= k < n ==> #[trigger] d1[chain(d1, start, n)[k] as int] == d2[chain(d1, start, n)[k] as int],
    ensures
        chain(d1, start, n) == chain(d2, start, n),
    decreases n,
{
    if n > 0 {
        lemma_chain_len(d1, start, n);
        assert(d1[chain(d1, start, n)[0] as int] == d2[chain(d1, start, n)[0] as int]);
        let next = d1[start as int].next;
        assert forall|k: int| 0 <= k < n - 1 implies
            #[trigger] d1[chain(d1, next, (n - 1) as nat)[k] as int] == d2[chain(d1, next, (n - 1) as nat)[k] as int] by {
            assert(chain(d1, start, n)[k + 1] == chain(d1, next, (n - 1) as nat)[k]);
        }
        lemma_chain_frame(d1, d2, next, (n - 1) as nat);
    }
}

/// A chain linked in `desc`, whose last descriptor is re-linked to `tail_start`, continues
/// with the chain from `tail_start`.
proof fn lemma_chain_append(desc: Seq<Desc>, c: Seq<u16>, tail_start: u16, m: nat)
    requires
        linked(desc, c),
        desc[c.last() as int].next == tail_start,
    ensures
        chain(desc, c[0], (c.len() + m) as nat) == c + chain(desc, tail_start, m),
    decreases c.len(),
{
    if c.len() == 1 {
        assert(chain(desc, c[0], (1 + m) as nat) =~= c + chain(desc, tail_start, m));
    } else {
        let rest = c.subrange(1, c.len() as int);
        assert(desc[c[0] as int].flags & VRING_DESC_F_NEXT != 0 && desc[c[0] as int].next == c[1]);
        assert(linked(desc, rest)) by {
            assert forall|k: int| 0 <= k < rest.len() - 1 implies #[trigger] desc[rest[k] as int].flags & VRING_DESC_F_NEXT != 0
                && desc[rest[k] as int].next == rest[k + 1] by {
                assert(rest[k] == c[k + 1]);
            }
            assert(rest.last() == c.last());
        }
        lemma_chain_append(desc, rest, tail_start, m);
        assert(chain(desc, c[0], (c.len() + m) as nat) =~= c + chain(desc, tail_start, m));
    }
}

/// The split virtqueue as the driver sees it: the descriptor table, the available ring and
/// its index, the free list and the request chains handed to the device.
pub struct VirtQueue {
    desc: Vec<Desc>,
    avail_ring: Vec<u16>,
    avail_idx: u16,
    free_head: u16,
    num_free: u16,
    last_used_idx: u16,
    pending: Vec<bool>,
    chains: Ghost<Map<u16, Seq<u16>>>,
}

impl VirtQueue {
    /// The descriptor table.
    pub closed spec fn desc_view(&self) -> Seq<Desc> {
        self.desc@
    }

    /// The available ring.
    pub closed spec fn avail_view(&self) -> Seq<u16> {
        self.avail_ring@
    }

    /// The available index published to the device.
    pub closed spec fn spec_avail_idx(&self) -> u16 {
        self.avail_idx
    }

    /// The used index up to which the driver has reclaimed.
    pub closed spec fn spec_last_used_idx(&self) -> u16 {
        self.last_used_idx
    }

    /// The free descriptors, in the order they will be handed out.
    pub closed spec fn free_list(&self) -> Seq<u16> {
        chain(self.desc@, self.free_head, self.num_free as nat)
    }

    /// The request chains with the device, by head descriptor.
    pub closed spec fn in_flight(&self) -> Map<u16, Seq<u16>> {
        self.chains@
    }

    /// The queue's bookkeeping is consistent: every descriptor is free or in exactly one
    /// request chain, at most once, and the chains are linked in the table.
    pub closed spec fn wf(&self) -> bool {
        let f = self.free_list();
        let cs = self.chains@;
        &&& self.desc@.len() == QUEUE_SIZE
        &&& self.avail_ring@.len() == QUEUE_SIZE
        &&& self.pending@.len() == QUEUE_SIZE
        &&& self.free_head < QUEUE_SIZE
        &&& self.num_free <= QUEUE_SIZE
        &&& forall|i: int| 0 <= i < QUEUE_SIZE ==> (#[trigger] self.desc@[i]).next < QUEUE_SIZE
        &&& f.no_duplicates()
        &&& forall|h: u16| #[trigger] cs.contains_key(h) <==> (h < QUEUE_SIZE && self.pending@[h as int])
        &&& forall|h: u16| #[trigger] cs.contains_key(h) ==> linked(self.desc@, cs[h]) && cs[h][0] == h
            && cs[h].no_duplicates()
        &&& forall|h: u16, k: int, j: int| cs.contains_key(h) && 0 <= k < cs[h].len() && 0 <= j < f.len()
            ==> #[trigger] cs[h][k] != #[trigger] f[j]
        &&& forall|h1: u16, h2: u16, k1: int, k2: int| cs.contains_key(h1) && cs.contains_key(h2) && h1 != h2
            && 0 <= k1 < cs[h1].len() && 0 <= k2 < cs[h2].len() ==> #[trigger] cs[h1][k1] != #[trigger] cs[h2][k2]
    }
}

proof fn lemma_chain_counting(desc: Seq<Desc>, start: u16, n: nat)
    requires
        start + n <= QUEUE_SIZE,
        forall|i: int| 0 <= i < QUEUE_SIZE - 1 ==> (#[trigger] desc[i]).next == i + 1,
    ensures
        forall|k: int| 0 <= k < n ==> #[trigger] chain(desc, start, n)[k] == start + k,
    decreases n,
{
    lemma_chain_len(desc, start, n);
    if n > 0 {
        if n > 1 {
            assert(desc[start as int].next == start + 1);
            lemma_chain_counting(desc, desc[start as int].next, (n - 1) as nat);
        }
        assert forall|k: int| 0 <= k < n implies #[trigger] chain(desc, start, n)[k] == start + k by {
            if k > 0 {
                assert(chain(desc, start, n)[k] == chain(desc, desc[start as int].next, (n - 1) as nat)[k - 1]);
            }
        }
    }
}

impl VirtQueue {
    /// A fresh queue: a zeroed table whose descriptors are all free, linked in index order, an
    /// empty available ring and nothing with the device.
    pub fn new() -> (q: Self)
        ensures
            q.wf(),
            q.free_list() == Seq::new(QUEUE_SIZE as nat, |i: int| i as u16),
            q.in_flight() == Map::<u16, Seq<u16>>::empty(),
            q.spec_avail_idx() == 0,
            q.spec_last_used_idx() == 0,
            q.avail_view() == Seq::new(QUEUE_SIZE as nat, |i: int| 0u16),
            forall|i: int| 0 <= i < QUEUE_SIZE ==> (#[trigger] q.desc_view()[i]).addr == 0 && q.desc_view()[i].len == 0
                && q.desc_view()[i].flags == 0,
    {
        let mut desc: Vec<Desc> = Vec::new();
        let mut avail_ring: Vec<u16> = Vec::new();
        let mut pending: Vec<bool> = Vec::new();
        let mut i: usize = 0;
        while i < QUEUE_SIZE
            invariant
                0 <= i <= QUEUE_SIZE,
                desc@.len() == i,
                avail_ring@.len() == i,
                pending@.len() == i,
                forall|j: int| 0 <= j < i ==> (#[trigger] desc@[j]) == (Desc { addr: 0, len: 0, flags: 0,
                    next: if j < QUEUE_SIZE - 1 { (j + 1) as u16 } else { 0u16 } }),
                forall|j: int| 0 <= j < i ==> #[trigger] avail_ring@[j] == 0u16,
                forall|j: int| 0 <= j < i ==> !#[trigger] pending@[j],
            decreases QUEUE_SIZE - i,
        {
            let next: u16 = if i < QUEUE_SIZE - 1 { (i + 1) as u16 } else { 0 };
            desc.push(Desc { addr: 0, len: 0, flags: 0, next });
            avail_ring.push(0);
            pending.push(false);
            i = i + 1;
        }
        let q = VirtQueue {
            desc,
            avail_ring,
            avail_idx: 0,
            free_head: 0,
            num_free: QUEUE_SIZE as u16,
            last_used_idx: 0,
            pending,
            chains: Ghost(Map::empty()),
        };
        proof {
            lemma_chain_len(q.desc@, 0, 16);
            lemma_chain_counting(q.desc@, 0, 16);
            assert(q.free_list() =~= Seq::new(QUEUE_SIZE as nat, |i: int| i as u16));
            assert(q.avail_ring@ =~= Seq::new(QUEUE_SIZE as nat, |i: int| 0u16));
        }
        q
    }

    /// How many descriptors are free.
    pub fn num_free(&self) -> (r: u16)
        requires
            self.wf(),
        ensures
            r == self.free_list().len(),
    {
        proof { lemma_chain_len(self.desc@, self.free_head, self.num_free as nat); }
        self.num_free
    }

    /// Descriptor `i` of the table.
    pub fn desc_at(&self, i: usize) -> (r: Desc)
        requires
            self.wf(),
            i < QUEUE_SIZE,
        ensures
            r == self.desc_view()[i as int],
    {
        self.desc[i]
    }

    /// Slot `i` of the available ring.
    pub fn avail_at(&self, i: usize) -> (r: u16)
        requires
            self.wf(),
            i < QUEUE_SIZE,
        ensures
            r == self.avail_view()[i as int],
    {
        self.avail_ring[i]
    }

    /// The available index to publish to the device.
    pub fn avail_idx(&self) -> (r: u16)
        ensures
            r == self.spec_avail_idx(),
    {
        self.avail_idx
    }

    /// The used-ring index up to which finished requests have been taken back.
    pub fn last_used_idx(&self) -> (r: u16)
        ensures
            r == self.spec_last_used_idx(),
    {
        self.last_used_idx
    }

    /// The used-ring slot that holds the device's next completion.
    pub fn used_slot(&self) -> (r: usize)
        ensures
            r == self.spec_last_used_idx() as int % QUEUE_SIZE as int,
    {
        self.last_used_idx as usize % QUEUE_SIZE
    }
}

proof fn lemma_chain_bounded(desc: Seq<Desc>, start: u16, n: nat)
    requires
        start < QUEUE_SIZE,
        desc.len() == QUEUE_SIZE,
        forall|i: int| 0 <= i < QUEUE_SIZE ==> (#[trigger] desc[i]).next < QUEUE_SIZE,
    ensures
        forall|k: int| 0 <= k < n ==> #[trigger] chain(desc, start, n)[k] < QUEUE_SIZE,
    decreases n,
{
    lemma_chain_len(desc, start, n);
    if n > 0 {
        let next = desc[start as int].next;
        lemma_chain_bounded(desc, next, (n - 1) as nat);
        assert forall|k: int| 0 <= k < n implies #[trigger] chain(desc, start, n)[k] < QUEUE_SIZE by {
            if k > 0 {
                assert(chain(desc, start, n)[k] == chain(desc, next, (n - 1) as nat)[k - 1]);
            }
        }
    }
}

proof fn lemma_chain_step(desc: Seq<Desc>, start: u16, n: nat)
    requires
        n > 0,
    ensures
        chain(desc, start, n).subrange(1, n as int) == chain(desc, desc[start as int].next, (n - 1) as nat),
{
    lemma_chain_len(desc, start, n);
    assert(chain(desc, start, n).subrange(1, n as int) =~= chain(desc, desc[start as int].next, (n - 1) as nat));
}

/// The three descriptors of a request: its header, the data buffer and the status byte.
pub open spec fn request_descs(req_addr: u64, buf_addr: u64, len: u32, is_write: bool, status_addr: u64, d2: u16, d3: u16)
    -> (Desc, Desc, Desc)
{
    (
        Desc { addr: req_addr, len: BLK_REQ_LEN, flags: VRING_DESC_F_NEXT, next: d2 },
        Desc { addr: buf_addr, len, flags: if is_write { VRING_DESC_F_NEXT } else { VRING_DESC_F_NEXT | VRING_DESC_F_WRITE }, next: d3 },
        Desc { addr: status_addr, len: 1, flags: VRING_DESC_F_WRITE, next: 0 },
    )
}

impl VirtQueue {
    /// Hands a request to the device: takes the first three free descriptors for the header at
    /// `req_addr`, the `len`-byte buffer at `buf_addr` (written by the device when reading) and
    /// the status byte at `status_addr`, chains them, and publishes the chain's head in the next
    /// slot of the available ring. Returns the head.
    #[verifier::spinoff_prover]
    pub fn enqueue(&mut self, req_addr: u64, buf_addr: u64, len: u32, is_write: bool, status_addr: u64) -> (head: u16)
        requires
            old(self).wf(),
            old(self).free_list().len() >= 3,
        ensures
            final(self).wf(),
            ({
                let f = old(self).free_list();
                let ds = request_descs(req_addr, buf_addr, len, is_write, status_addr, f[1], f[2]);
                &&& head == f[0]
                &&& final(self).free_list() == f.subrange(3, f.len() as int)
                &&& final(self).desc_view() == old(self).desc_view().update(f[0] as int, ds.0).update(f[1] as int, ds.1)
                        .update(f[2] as int, ds.2)
                &&& final(self).in_flight() == old(self).in_flight().insert(f[0], seq![f[0], f[1], f[2]])
            }),
            final(self).avail_view() == old(self).avail_view().update(old(self).spec_avail_idx() as int % QUEUE_SIZE as int, head),
            final(self).spec_avail_idx() == old(self).spec_avail_idx().wrapping_add(1),
            final(self).spec_last_used_idx() == old(self).spec_last_used_idx(),
    {
        let ghost f = self.free_list();
        let ghost n = self.num_free as nat;
        let ghost old_desc = self.desc@;
        let ghost cs = self.chains@;
        proof {
            lemma_chain_len(old_desc, self.free_head, n);
            lemma_chain_step(old_desc, f[0], n);
            lemma_chain_len(old_desc, old_desc[f[0] as int].next, (n - 1) as nat);
            lemma_chain_step(old_desc, f[1], (n - 1) as nat);
            lemma_chain_len(old_desc, old_desc[f[1] as int].next, (n - 2) as nat);
            lemma_chain_step(old_desc, f[2], (n - 2) as nat);
            assert(f[1] == chain(old_desc, old_desc[f[0] as int].next, (n - 1) as nat)[0]);
            assert(f[2] == chain(old_desc, old_desc[f[1] as int].next, (n - 2) as nat)[0]);
        }
        let head = self.free_head;
        let desc1 = head;
        let desc2 = self.desc[desc1 as usize].next;
        let desc3 = self.desc[desc2 as usize].next;
        let new_free = self.desc[desc3 as usize].next;
        assert(desc1 == f[0] && desc2 == f[1] && desc3 == f[2]);
        let ghost rest = chain(old_desc, new_free, (n - 3) as nat);
        proof {
            assert(f.subrange(3, n as int) =~= rest) by {
                assert(f.subrange(1, n as int).subrange(1, (n - 1) as int) =~= f.subrange(2, n as int));
                assert(f.subrange(2, n as int).subrange(1, (n - 2) as int) =~= f.subrange(3, n as int));
                lemma_chain_step(old_desc, f[2], (n - 2) as nat);
            }
        }
        let ds1 = Desc { addr: req_addr, len: BLK_REQ_LEN, flags: VRING_DESC_F_NEXT, next: desc2 };
        let ds2 = Desc {
            addr: buf_addr,
            len,
            flags: VRING_DESC_F_NEXT | if is_write { 0 } else { VRING_DESC_F_WRITE },
            next: desc3,
        };
        let ds3 = Desc { addr: status_addr, len: 1, flags: VRING_DESC_F_WRITE, next: 0 };
        self.desc.set(desc1 as usize, ds1);
        self.desc.set(desc2 as usize, ds2);
        self.desc.set(desc3 as usize, ds3);
        self.free_head = new_free;
        self.num_free = self.num_free - 3;
        let slot = self.avail_idx as usize % QUEUE_SIZE;
        self.avail_ring.set(slot, head);
        self.avail_idx = self.avail_idx.wrapping_add(1);
        self.pending.set(head as usize, true);
        self.chains = Ghost(cs.insert(head, seq![desc1, desc2, desc3]));
        proof {
            let nd = self.desc@;
            assert((1u16 | 0u16) == 1u16 && (1u16 | 2u16) & 1u16 != 0 && 1u16 & 1u16 != 0 && 2u16 & 1u16 == 0) by (bit_vector);
            lemma_chain_len(old_desc, new_free, (n - 3) as nat);
            lemma_chain_bounded(old_desc, head, n);
            assert(ds2.flags == (if is_write { VRING_DESC_F_NEXT } else { VRING_DESC_F_NEXT | VRING_DESC_F_WRITE }));
            // the rest of the free list is untouched
            assert forall|k: int| 0 <= k < n - 3 implies #[trigger] old_desc[rest[k] as int] == nd[rest[k] as int] by {
                assert(rest[k] == f[k + 3]);
                assert(f[k + 3] < QUEUE_SIZE);
                assert(f[k + 3] != f[0] && f[k + 3] != f[1] && f[k + 3] != f[2]);
            }
            lemma_chain_frame(old_desc, nd, new_free, (n - 3) as nat);
            assert(self.free_list() == f.subrange(3, n as int));
            // the new chain
            let c = seq![desc1, desc2, desc3];
            assert(linked(nd, c));
            // other chains are untouched
            assert forall|h: u16| #[trigger] self.chains@.contains_key(h) implies linked(nd, self.chains@[h])
                && self.chains@[h][0] == h && self.chains@[h].no_duplicates() by {
                if h != head {
                    let ch = cs[h];
                    assert(cs.contains_key(h));
                    assert forall|k: int| 0 <= k < ch.len() implies #[trigger] nd[ch[k] as int] == old_desc[ch[k] as int] by {
                        assert(ch[k] != f[0] && ch[k] != f[1] && ch[k] != f[2]);
                    }
                    assert(linked(old_desc, ch));
                }
            }
            assert forall|h: u16| #[trigger] self.chains@.contains_key(h) <==> (h < QUEUE_SIZE && self.pending@[h as int]) by {
                if h == head {
                } else {
                    assert(cs.contains_key(h) <==> (h < QUEUE_SIZE && self.pending@[h as int]));
                }
            }
            assert(!cs.contains_key(head)) by {
                if cs.contains_key(head) {
                    assert(cs[head][0] == head);
                    assert(cs[head][0] != f[0]);
                }
            }
            let nf = self.free_list();
            assert forall|h: u16, k: int, j: int| self.chains@.contains_key(h) && 0 <= k < self.chains@[h].len() && 0 <= j < nf.len()
                implies #[trigger] self.chains@[h][k] != #[trigger] nf[j] by {
                assert(nf[j] == f[j + 3]);
                if h != head {
                    assert(cs.contains_key(h));
                }
            }
            assert forall|h1: u16, h2: u16, k1: int, k2: int| self.chains@.contains_key(h1) && self.chains@.contains_key(h2) && h1 != h2
                && 0 <= k1 < self.chains@[h1].len() && 0 <= k2 < self.chains@[h2].len()
                implies #[trigger] self.chains@[h1][k1] != #[trigger] self.chains@[h2][k2] by {
                if h1 == head {
                    assert(cs.contains_key(h2));
                    assert(c[k1] == f[k1]);
                } else if h2 == head {
                    assert(cs.contains_key(h1));
                    assert(c[k2] == f[k2]);
                } else {
                    assert(cs.contains_key(h1) && cs.contains_key(h2));
                }
            }
            assert forall|i: int| 0 <= i < QUEUE_SIZE implies (#[trigger] nd[i]).next < QUEUE_SIZE by {
                assert(old_desc[i].next < QUEUE_SIZE);
            }
        }
        head
    }
}

proof fn lemma_unique_bounded(s: Seq<u16>)
    requires
        s.no_duplicates(),
        forall|k: int| 0 <= k < s.len() ==> #[trigger] s[k] < QUEUE_SIZE,
    ensures
        s.len() <= QUEUE_SIZE,
{
    let t = s.map_values(|x: u16| x as int);
    assert(t.no_duplicates()) by {
        assert forall|i: int, j: int| 0 <= i < t.len() && 0 <= j < t.len() && i != j implies t[i] != t[j] by {
            assert(s[i] != s[j]);
        }
    }
    t.unique_seq_to_set();
    vstd::set_lib::lemma_int_range(0, QUEUE_SIZE as int);
    assert forall|x: int| t.to_set().contains(x) implies vstd::set_lib::set_int_range(0, QUEUE_SIZE as int).contains(x) by {
        let k = choose|k: int| 0 <= k < t.len() && t[k] == x;
        assert(s[k] < QUEUE_SIZE);
    }
    vstd::set_lib::lemma_len_subset(t.to_set(), vstd::set_lib::set_int_range(0, QUEUE_SIZE as int));
}

impl VirtQueue {
    /// Takes back the request chain that the device reports done with head `used_id` (read
    /// from the used ring at `used_slot`): the chain is put in front of the free list and the
    /// used index advances. An id that names no chain with the device changes nothing and gives
    /// `None`.
    #[verifier::spinoff_prover]
    pub fn reclaim(&mut self, used_id: u32) -> (r: Option<u16>)
        requires
            old(self).wf(),
        ensures
            final(self).wf(),
            r is None <==> !old(self).in_flight().contains_key(used_id as u16),
            r is None ==> *final(self) == *old(self),
            r is Some ==> {
                let h = r->Some_0;
                let c = old(self).in_flight()[h];
                &&& h == used_id as u16
                &&& final(self).free_list() == c + old(self).free_list()
                &&& final(self).in_flight() == old(self).in_flight().remove(h)
                &&& final(self).spec_last_used_idx() == old(self).spec_last_used_idx().wrapping_add(1)
                &&& final(self).avail_view() == old(self).avail_view()
                &&& final(self).spec_avail_idx() == old(self).spec_avail_idx()
                &&& forall|i: int| 0 <= i < QUEUE_SIZE && i != c.last() ==> #[trigger] final(self).desc_view()[i] == old(self).desc_view()[i]
                &&& final(self).desc_view()[c.last() as int].addr == old(self).desc_view()[c.last() as int].addr
                &&& final(self).desc_view()[c.last() as int].len == old(self).desc_view()[c.last() as int].len
                &&& final(self).desc_view()[c.last() as int].flags == old(self).desc_view()[c.last() as int].flags
            },
    {
        let head = used_id as u16;
        if head as usize >= QUEUE_SIZE || !self.pending[head as usize] {
            return None;
        }
        let ghost cs = self.chains@;
        let ghost c = cs[head];
        let ghost f = self.free_list();
        let ghost old_desc = self.desc@;
        let ghost n = self.num_free as nat;
        assert(cs.contains_key(head));
        let mut curr = head;
        let mut chain_len: u16 = 1;
        proof {
            assert(c.no_duplicates());
            lemma_unique_bounded(c);
        }
        while self.desc[curr as usize].flags & VRING_DESC_F_NEXT != 0
            invariant
                self.desc@ == old_desc,
                linked(old_desc, c),
                c.len() <= QUEUE_SIZE,
                old_desc.len() == QUEUE_SIZE,
                1 <= chain_len <= c.len(),
                curr == c[chain_len - 1],
            decreases c.len() - chain_len,
        {
            assert(chain_len < c.len());
            curr = self.desc[curr as usize].next;
            chain_len = chain_len + 1;
        }
        let ghost k = chain_len - 1;
        assert(k == c.len() - 1);
        let old_head = self.free_head;
        let mut last = self.desc[curr as usize];
        last.next = old_head;
        self.desc.set(curr as usize, last);
        proof {
            lemma_chain_len(old_desc, old_head, n);
            lemma_chain_bounded(old_desc, old_head, n);
            let all = c + f;
            assert(all.no_duplicates()) by {
                assert forall|i: int, j: int| 0 <= i < all.len() && 0 <= j < all.len() && i != j implies all[i] != all[j] by {
                    if i < c.len() && j >= c.len() {
                        assert(cs[head][i] != f[j - c.len()]);
                    } else if i >= c.len() && j < c.len() {
                        assert(cs[head][j] != f[i - c.len()]);
                    }
                }
            }
            lemma_unique_bounded(all);
        }
        self.free_head = head;
        self.num_free = self.num_free + chain_len;
        self.pending.set(head as usize, false);
        self.chains = Ghost(cs.remove(head));
        self.last_used_idx = self.last_used_idx.wrapping_add(1);
        proof {
            let nd = self.desc@;
            // the free list keeps its links, apart from the re-linked tail of the chain
            assert forall|j: int| 0 <= j < n implies #[trigger] old_desc[chain(old_desc, old_head, n)[j] as int]
                == nd[chain(old_desc, old_head, n)[j] as int] by {
                assert(cs[head][c.len() - 1] != f[j]);
            }
            lemma_chain_frame(old_desc, nd, old_head, n);
            assert(linked(old_desc, c));
            assert(linked(nd, c)) by {
                assert forall|i: int| 0 <= i < c.len() - 1 implies #[trigger] nd[c[i] as int].flags & VRING_DESC_F_NEXT != 0
                    && nd[c[i] as int].next == c[i + 1] by {
                    assert(c[i] != c[c.len() - 1]);
                    assert(c[i] < QUEUE_SIZE);
                    lemma_linked_at(old_desc, c, i);
                    assert(nd[c[i] as int] == old_desc[c[i] as int]);
                }
            }
            lemma_chain_append(nd, c, old_head, n);
            assert(self.free_list() == c + f);
            assert forall|h: u16| #[trigger] self.chains@.contains_key(h) implies linked(nd, self.chains@[h])
                && self.chains@[h][0] == h && self.chains@[h].no_duplicates() by {
                let ch = cs[h];
                assert(cs.contains_key(h));
                assert forall|i: int| 0 <= i < ch.len() implies #[trigger] nd[ch[i] as int] == old_desc[ch[i] as int] by {
                    assert(ch[i] != cs[head][c.len() - 1]);
                }
                assert(linked(old_desc, ch));
            }
            let nf = self.free_list();
            assert forall|h: u16, kk: int, j: int| self.chains@.contains_key(h) && 0 <= kk < self.chains@[h].len() && 0 <= j < nf.len()
                implies #[trigger] self.chains@[h][kk] != #[trigger] nf[j] by {
                assert(cs.contains_key(h));
                if j < c.len() {
                    assert(nf[j] == cs[head][j]);
                } else {
                    assert(nf[j] == f[j - c.len()]);
                }
            }
            assert forall|i: int| 0 <= i < QUEUE_SIZE implies (#[trigger] nd[i]).next < QUEUE_SIZE by {
                assert(old_desc[i].next < QUEUE_SIZE);
            }
            assert forall|h: u16| #[trigger] self.chains@.contains_key(h) <==> (h < QUEUE_SIZE && self.pending@[h as int]) by {
                if h != head {
                    assert(cs.contains_key(h) <==> (h < QUEUE_SIZE && old(self).pending@[h as int]));
                }
            }
        }
        Some(head)
    }
}

/// A bump allocator of DMA pages inside a static buffer starting at `base`: pages are handed
/// out in order and never returned.
#[derive(Clone, Copy, PartialEq, Eq, Structural, Debug)]
pub struct DmaArena {
    pub base: usize,
    pub offset: usize,
}

impl DmaArena {
    /// An arena whose first allocation starts at `base`.
    pub fn new(base: usize) -> (r: Self)
        ensures
            r == (DmaArena { base, offset: 0 }),
    {
        DmaArena { base, offset: 0 }
    }

    /// Hands out `pages` pages: the address of the first one, right after the previous
    /// allocation.
    pub fn alloc_pages(&mut self, pages: usize) -> (paddr: usize)
        requires
            old(self).base + old(self).offset + pages * 4096 <= usize::MAX,
        ensures
            paddr == old(self).base + old(self).offset,
            final(self).base == old(self).base,
            final(self).offset == old(self).offset + pages * 4096,
    {
        let paddr = self.base + self.offset;
        self.offset = self.offset + pages * 4096;
        paddr
    }
}

/// A request's descriptors go back to the free list in the order they left it: handing a
/// request to the device and then reclaiming it restores the free list and the set of chains
/// with the device.
pub proof fn lemma_request_roundtrip(free0: Seq<u16>, chains0: Map<u16, Seq<u16>>, free1: Seq<u16>,
    chains1: Map<u16, Seq<u16>>, free2: Seq<u16>, chains2: Map<u16, Seq<u16>>, head: u16)
    requires
        free0.len() >= 3,
        !chains0.contains_key(free0[0]),
        head == free0[0],
        free1 == free0.subrange(3, free0.len() as int),
        chains1 == chains0.insert(head, seq![free0[0], free0[1], free0[2]]),
        free2 == chains1[head] + free1,
        chains2 == chains1.remove(head),
    ensures
        free2 == free0,
        chains2 == chains0,
{
    assert(free2 =~= free0);
    assert(chains2 =~= chains0);
}

} // verus!
