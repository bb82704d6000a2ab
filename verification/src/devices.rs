//! Device discovery on the QEMU `virt` board: the VirtIO MMIO slots, the interrupt routing
//! table kept by the device manager, and the time base.
use vstd::prelude::*;
use std::collections::BTreeMap;

verus! {

/// Base address of the platform-level interrupt controller.
pub const VIRT_PLIC: usize = 0xC00_0000;
/// Address of the first VirtIO MMIO slot.
pub const VIRTIO_START: usize = 0x1000_1000;
/// End of the VirtIO MMIO slots.
pub const VIRTIO_END: usize = 0x1000_9000;
/// Distance between two VirtIO MMIO slots.
pub const VIRTIO_STEP: usize = 0x1000;
/// Size of the interrupt controller's register window.
pub const PLIC_SIZE: usize = 0x100_0000;

/// The device MMIO windows the kernel maps, in the order it maps them: the VirtIO slots, then
/// the interrupt controller.
pub open spec fn spec_virtio_ranges() -> Seq<(usize, usize)> {
    seq![(VIRTIO_START, VIRTIO_END), (VIRT_PLIC, (VIRT_PLIC + PLIC_SIZE) as usize)]
}

/// The device MMIO windows as `(start, end)` pairs.
pub fn virtio_ranges() -> (r: Vec<(usize, usize)>)
    ensures
        r@ == spec_virtio_ranges(),
        forall|i: int| 0 <= i < r@.len() ==> r@[i].0 % 4096 == 0 && r@[i].1 % 4096 == 0 && r@[i].0 < r@[i].1,
{
    let r = vec![(VIRTIO_START, VIRTIO_END), (VIRT_PLIC, VIRT_PLIC + PLIC_SIZE)];
    assert(r@ =~= spec_virtio_ranges());
    r
}

/// Calls `visitor(start, end)` on each device MMIO window, in the order of `virtio_ranges`.
pub fn visit_virtio_ranges<F: FnMut(usize, usize)>(mut visitor: F)
    requires
        forall|f: F, a: usize, b: usize| #[trigger] call_requires(f, (a, b)),
{
    let ranges = virtio_ranges();
    let mut i: usize = 0;
    while i < ranges.len()
        invariant
            ranges@ == spec_virtio_ranges(),
            forall|f: F, a: usize, b: usize| #[trigger] call_requires(f, (a, b)),
        decreases ranges.len() - i,
    {
        let (start, end) = ranges[i];
        visitor(start, end);
        i = i + 1;
    }
}

/// First and end page numbers of a page-aligned window.
pub fn window_pages(start: usize, end: usize) -> (r: (usize, usize))
    requires
        start % 4096 == 0,
        end % 4096 == 0,
    ensures
        r.0 == start / 4096,
        r.1 == end / 4096,
{
    (start / 4096, end / 4096)
}

/// Walks the VirtIO MMIO slots in order, numbering them from 1.
pub struct VirtIOProbingIterator {
    current: usize,
}

impl VirtIOProbingIterator {
    #[verifier::type_invariant]
    closed spec fn inv(&self) -> bool {
        self.current <= 8
    }

    /// How many slots have been handed out.
    pub closed spec fn visited(&self) -> int {
        self.current as int
    }

    /// A walk that starts at the first slot.
    pub fn new() -> (r: Self)
        ensures
            r.visited() == 0,
    {
        Self { current: 0 }
    }

    /// The next slot number and its MMIO address, or `None` after the last slot.
    pub fn next(&mut self) -> (r: Option<(usize, usize)>)
        ensures
            old(self).visited() < 8 ==> r == Some(((old(self).visited() + 1) as usize,
                (VIRTIO_START + old(self).visited() * VIRTIO_STEP) as usize))
                && final(self).visited() == old(self).visited() + 1,
            old(self).visited() >= 8 ==> r is None && final(self).visited() == old(self).visited(),
    {
        proof { use_type_invariant(&*self); }
        let addr = VIRTIO_START + self.current * VIRTIO_STEP;
        if addr >= VIRTIO_END {
            None
        } else {
            self.current = self.current + 1;
            Some((self.current, addr))
        }
    }
}

/// The kinds of device the manager keeps.
#[derive(Debug, Clone, Copy, PartialEq, Eq, Structural)]
pub enum DeviceKind {
    /// The framebuffer device.
    Gpu,
    /// The keyboard.
    Keyboard,
}

/// `usize` keys are ordered as the map's specification needs.
proof fn lemma_usize_keys_ordered()
    ensures
        vstd::laws_cmp::obeys_cmp::<usize>(),
{
    broadcast use vstd::laws_cmp::group_laws_cmp;
}

/// Which devices were adopted and which interrupt slot leads to which.
pub struct DeviceRegistry {
    gpu: Option<usize>,
    keyboard: Option<usize>,
    irq_map: BTreeMap<usize, DeviceKind>,
}

impl DeviceRegistry {
    /// Slot of the adopted GPU.
    pub closed spec fn gpu_slot(&self) -> Option<usize> {
        self.gpu
    }

    /// Slot of the adopted keyboard.
    pub closed spec fn keyboard_slot(&self) -> Option<usize> {
        self.keyboard
    }

    /// Interrupt slot to device.
    pub closed spec fn irq_routes(&self) -> Map<usize, DeviceKind> {
        self.irq_map@
    }

    /// No device adopted yet.
    pub fn new() -> (r: Self)
        ensures
            r.gpu_slot() is None,
            r.keyboard_slot() is None,
            r.irq_routes() == Map::<usize, DeviceKind>::empty(),
    {
        Self { gpu: None, keyboard: None, irq_map: BTreeMap::new() }
    }

    /// Whether a probed device of this kind would be adopted: only the first of each kind is.
    pub fn wants(&self, kind: DeviceKind) -> (r: bool)
        ensures
            r == match kind {
                DeviceKind::Gpu => self.gpu_slot() is None,
                DeviceKind::Keyboard => self.keyboard_slot() is None,
            },
    {
        match kind {
            DeviceKind::Gpu => self.gpu.is_none(),
            DeviceKind::Keyboard => self.keyboard.is_none(),
        }
    }

    /// Records a device found and set up at `slot`, and routes the slot's interrupts to it.
    pub fn adopt(&mut self, slot: usize, kind: DeviceKind)
        ensures
            final(self).irq_routes() == old(self).irq_routes().insert(slot, kind),
            kind == DeviceKind::Gpu ==> final(self).gpu_slot() == Some(slot)
                && final(self).keyboard_slot() == old(self).keyboard_slot(),
            kind == DeviceKind::Keyboard ==> final(self).keyboard_slot() == Some(slot)
                && final(self).gpu_slot() == old(self).gpu_slot(),
    {
        proof { lemma_usize_keys_ordered(); }
        self.irq_map.insert(slot, kind);
        match kind {
            DeviceKind::Gpu => self.gpu = Some(slot),
            DeviceKind::Keyboard => self.keyboard = Some(slot),
        }
    }

    /// The device whose interrupts arrive on `slot`, if one was adopted there.
    pub fn device_for_irq(&self, slot: u32) -> (r: Option<DeviceKind>)
        ensures
            r == (if self.irq_routes().contains_key(slot as usize) {
                Some(self.irq_routes()[slot as usize])
            } else {
                None
            }),
    {
        broadcast use vstd::std_specs::btree::group_btree_axioms;
        proof { lemma_usize_keys_ordered(); }
        let s = slot as usize;
        match self.irq_map.get(&s) {
            Some(k) => Some(*k),
            None => None,
        }
    }
}

/// Interprets the interrupt controller's claim register: 0 means no interrupt is pending.
pub fn irq_from_claim(raw: u32) -> (r: Option<u32>)
    ensures
        r == if raw == 0 { None } else { Some(raw) },
{
    if raw == 0 { None } else { Some(raw) }
}

/// Microseconds elapsed for `ticks` of the 12.5 MHz time counter.
pub fn ticks_to_us(ticks: usize) -> (r: usize)
    requires
        ticks * 10000 <= usize::MAX,
    ensures
        r == ticks * 10000 / 125,
{
    ticks * 10000 / 125
}

/// Seconds and remainder of the scaled tick count, as the clock system call reports them.
pub fn time_spec(ticks: usize) -> (r: (usize, usize))
    requires
        ticks * 10000 <= usize::MAX,
    ensures
        r.0 == (ticks * 10000 / 125) / 1_000_000_000,
        r.1 == (ticks * 10000 / 125) % 1_000_000_000,
{
    let time = ticks_to_us(ticks);
    (time / 1_000_000_000, time % 1_000_000_000)
}

} // verus!
