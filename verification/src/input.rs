//! Keyboard input events as user programs read them: the 16-byte record layout, and the
//! input device file's read, which hands out whole records from the device's event queue.
use vstd::prelude::*;
use crate::ring_buffer::RingBuffer;

verus! {

/// A key event: when it happened, its type, its code and its value (1 press, 0 release,
/// 2 repeat).
#[derive(Clone, Copy, PartialEq, Eq, Structural, Debug)]
pub struct InputEvent {
    pub timestamp_usec: u64,
    pub event_type: u16,
    pub code: u16,
    pub value: u32,
}

/// Size in bytes of an event record.
pub const EVENT_SIZE: usize = 16;

/// The record of `e` as laid out in memory on a little-endian machine.
pub open spec fn event_bytes(e: InputEvent) -> Seq<u8> {
    vstd::bytes::spec_u64_to_le_bytes(e.timestamp_usec) + vstd::bytes::spec_u16_to_le_bytes(e.event_type)
        + vstd::bytes::spec_u16_to_le_bytes(e.code) + vstd::bytes::spec_u32_to_le_bytes(e.value)
}

/// The event stored in the 16-byte record `b`.
pub open spec fn event_of(b: Seq<u8>) -> InputEvent {
    InputEvent {
        timestamp_usec: vstd::bytes::spec_u64_from_le_bytes(b.subrange(0, 8)),
        event_type: vstd::bytes::spec_u16_from_le_bytes(b.subrange(8, 10)),
        code: vstd::bytes::spec_u16_from_le_bytes(b.subrange(10, 12)),
        value: vstd::bytes::spec_u32_from_le_bytes(b.subrange(12, 16)),
    }
}

/// The record of an event.
pub fn encode_event(e: &InputEvent) -> (r: Vec<u8>)
    ensures
        r@ == event_bytes(*e),
{
    let mut v = vstd::bytes::u64_to_le_bytes(e.timestamp_usec);
    let a = vstd::bytes::u16_to_le_bytes(e.event_type);
    let b = vstd::bytes::u16_to_le_bytes(e.code);
    let c = vstd::bytes::u32_to_le_bytes(e.value);
    let ghost v0 = v@;
    let mut i: usize = 0;
    while i < 2
        invariant 0 <= i <= 2, a@.len() == 2, v@ == v0 + a@.subrange(0, i as int),
        decreases 2 - i,
    {
        v.push(a[i]);
        i = i + 1;
        assert(v@ =~= v0 + a@.subrange(0, i as int));
    }
    let ghost v1 = v@;
    let mut i: usize = 0;
    while i < 2
        invariant 0 <= i <= 2, b@.len() == 2, v@ == v1 + b@.subrange(0, i as int),
        decreases 2 - i,
    {
        v.push(b[i]);
        i = i + 1;
        assert(v@ =~= v1 + b@.subrange(0, i as int));
    }
    let ghost v2 = v@;
    let mut i: usize = 0;
    while i < 4
        invariant 0 <= i <= 4, c@.len() == 4, v@ == v2 + c@.subrange(0, i as int),
        decreases 4 - i,
    {
        v.push(c[i]);
        i = i + 1;
        assert(v@ =~= v2 + c@.subrange(0, i as int));
    }
    assert(a@.subrange(0, 2) =~= a@);
    assert(b@.subrange(0, 2) =~= b@);
    assert(c@.subrange(0, 4) =~= c@);
    v
}

/// The event in a 16-byte record.
pub fn decode_event(b: &[u8]) -> (e: InputEvent)
    requires
        b@.len() == EVENT_SIZE,
    ensures
        e == event_of(b@),
{
    InputEvent {
        timestamp_usec: vstd::bytes::u64_from_le_bytes(vstd::slice::slice_subrange(b, 0, 8)),
        event_type: vstd::bytes::u16_from_le_bytes(vstd::slice::slice_subrange(b, 8, 10)),
        code: vstd::bytes::u16_from_le_bytes(vstd::slice::slice_subrange(b, 10, 12)),
        value: vstd::bytes::u32_from_le_bytes(vstd::slice::slice_subrange(b, 12, 16)),
    }
}

/// Reading back a record gives the event written.
pub proof fn lemma_event_roundtrip(e: InputEvent)
    ensures
        event_bytes(e).len() == EVENT_SIZE,
        event_of(event_bytes(e)) == e,
{
    vstd::bytes::lemma_auto_spec_u64_to_from_le_bytes();
    vstd::bytes::lemma_auto_spec_u32_to_from_le_bytes();
    vstd::bytes::lemma_auto_spec_u16_to_from_le_bytes();
    let b = event_bytes(e);
    assert(b.subrange(0, 8) =~= vstd::bytes::spec_u64_to_le_bytes(e.timestamp_usec));
    assert(b.subrange(8, 10) =~= vstd::bytes::spec_u16_to_le_bytes(e.event_type));
    assert(b.subrange(10, 12) =~= vstd::bytes::spec_u16_to_le_bytes(e.code));
    assert(b.subrange(12, 16) =~= vstd::bytes::spec_u32_to_le_bytes(e.value));
}

/// The records of `events`, one after another.
pub open spec fn records(events: Seq<InputEvent>) -> Seq<u8>
    decreases events.len(),
{
    if events.len() == 0 { Seq::empty() } else { records(events.drop_last()) + event_bytes(events.last()) }
}

/// The file through which a program reads an input device.
pub struct InputDevFile<D> {
    pub device: D,
}

impl<D> InputDevFile<D> {
    /// A file reading from `device`.
    pub fn new(device: D) -> (r: Self)
        ensures
            r.device == device,
    {
        InputDevFile { device }
    }
}

/// A read of a `buf_len`-byte buffer from an input device whose pending events are `queue`:
/// as many whole records as fit and are pending, oldest first, taken off the queue.
pub fn read_events<const N: usize>(queue: &mut RingBuffer<InputEvent, N>, buf_len: usize) -> (r: Vec<u8>)
    ensures
        ({
            let k = if buf_len / EVENT_SIZE < old(queue)@.len() { (buf_len / EVENT_SIZE) as int } else { old(queue)@.len() as int };
            &&& r@ == records(old(queue)@.take(k))
            &&& final(queue)@ == old(queue)@.skip(k)
            &&& r@.len() == EVENT_SIZE * k
        }),
{
    let mut out: Vec<u8> = Vec::new();
    let mut remaining = buf_len;
    let ghost q0 = queue@;
    let ghost mut k: int = 0;
    loop
        invariant
            0 <= k <= q0.len(),
            remaining == buf_len - EVENT_SIZE * k,
            remaining <= buf_len,
            queue@ == q0.skip(k),
            out@ == records(q0.take(k)),
            out@.len() == EVENT_SIZE * k,
        ensures
            k == if buf_len / EVENT_SIZE < q0.len() { (buf_len / EVENT_SIZE) as int } else { q0.len() as int },
            queue@ == q0.skip(k),
            out@ == records(q0.take(k)),
            out@.len() == EVENT_SIZE * k,
        decreases remaining,
    {
        if remaining < EVENT_SIZE {
            break;
        }
        match queue.pop() {
            Some(e) => {
                let rec = encode_event(&e);
                proof { lemma_event_roundtrip(e); }
                let ghost before = out@;
                let mut i: usize = 0;
                while i < EVENT_SIZE
                    invariant
                        0 <= i <= EVENT_SIZE,
                        rec@.len() == EVENT_SIZE,
                        out@ == before + rec@.subrange(0, i as int),
                    decreases EVENT_SIZE - i,
                {
                    out.push(rec[i]);
                    i = i + 1;
                    assert(out@ =~= before + rec@.subrange(0, i as int));
                }
                proof {
                    lemma_event_roundtrip(e);
                    assert(rec@.subrange(0, 16) =~= rec@);
                    assert(q0.take(k + 1).drop_last() =~= q0.take(k));
                    assert(q0.skip(k)[0] == q0[k]);
                    assert(q0.skip(k).drop_first() =~= q0.skip(k + 1));
                    k = k + 1;
                }
                remaining = remaining - EVENT_SIZE;
            },
            None => {
                break;
            },
        }
    }
    out
}

} // verus!
