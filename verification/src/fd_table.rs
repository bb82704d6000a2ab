//! Per-process file descriptor tables: descriptors are indices, opened files are appended, and
//! closed descriptors stay empty (they are never handed out again).
use vstd::prelude::*;

verus! {

/// Standard input descriptor.
pub const STDIN: usize = 0;
/// Standard output descriptor.
pub const STDOUT: usize = 1;
/// Standard error descriptor.
pub const STDERR: usize = 2;

/// A table of open files indexed by descriptor.
pub struct FdTable<T> {
    entries: Vec<Option<T>>,
}

impl<T> View for FdTable<T> {
    type V = Seq<Option<T>>;

    /// Entry `fd` is the file open under `fd`, or `None`.
    closed spec fn view(&self) -> Seq<Option<T>> {
        self.entries@
    }
}

impl<T> FdTable<T> {
    /// A table with the three standard descriptors open.
    pub fn with_std(stdin: T, stdout: T, stderr: T) -> (r: Self)
        ensures
            r@ == seq![Some(stdin), Some(stdout), Some(stderr)],
    {
        let mut entries: Vec<Option<T>> = Vec::new();
        entries.push(Some(stdin));
        entries.push(Some(stdout));
        entries.push(Some(stderr));
        let r = FdTable { entries };
        assert(r@ =~= seq![Some(stdin), Some(stdout), Some(stderr)]);
        r
    }

    /// An empty table.
    pub fn new() -> (r: Self)
        ensures
            r@ == Seq::<Option<T>>::empty(),
    {
        FdTable { entries: Vec::new() }
    }

    /// The number of descriptors ever handed out.
    pub fn len(&self) -> (r: usize)
        ensures
            r == self@.len(),
    {
        self.entries.len()
    }

    /// Stores `file` under the next unused descriptor and returns that descriptor.
    pub fn open(&mut self, file: T) -> (fd: usize)
        ensures
            fd == old(self)@.len(),
            final(self)@ == old(self)@.push(Some(file)),
    {
        let fd = self.entries.len();
        self.entries.push(Some(file));
        fd
    }

    /// Closes `fd`; `false` when it is out of range or already closed.
    pub fn close(&mut self, fd: usize) -> (ok: bool)
        ensures
            ok == (fd < old(self)@.len() && old(self)@[fd as int] is Some),
            ok ==> final(self)@ == old(self)@.update(fd as int, None),
            !ok ==> final(self)@ == old(self)@,
    {
        if fd >= self.entries.len() || self.entries[fd].is_none() {
            return false;
        }
        self.entries.set(fd, None);
        true
    }

    /// The file open under `fd`, if any.
    pub fn get(&self, fd: usize) -> (r: Option<&T>)
        ensures
            r == if fd < self@.len() {
                match self@[fd as int] {
                    Some(f) => Some(&f),
                    None => None,
                }
            } else {
                None::<&T>
            },
    {
        if fd >= self.entries.len() {
            return None;
        }
        match &self.entries[fd] {
            Some(f) => Some(f),
            None => None,
        }
    }
}

impl<T: Clone> FdTable<T> {
    /// The table a forked child starts with: every descriptor of this one, open files shared
    /// through a clone of their handle, closed descriptors closed.
    pub fn fork(&self) -> (r: Self)
        ensures
            r@.len() == self@.len(),
            forall|i: int| 0 <= i < self@.len() ==> (#[trigger] r@[i] is Some) == (self@[i] is Some),
            forall|i: int| 0 <= i < self@.len() && self@[i] is Some ==> cloned::<T>(#[trigger] self@[i]->Some_0, r@[i]->Some_0),
    {
        let mut entries: Vec<Option<T>> = Vec::new();
        let mut i: usize = 0;
        while i < self.entries.len()
            invariant
                0 <= i <= self@.len(),
                entries@.len() == i,
                forall|j: int| 0 <= j < i ==> (#[trigger] entries@[j] is Some) == (self@[j] is Some),
                forall|j: int| 0 <= j < i && self@[j] is Some ==> cloned::<T>(#[trigger] self@[j]->Some_0, entries@[j]->Some_0),
            decreases self@.len() - i,
        {
            match &self.entries[i] {
                Some(f) => entries.push(Some(f.clone())),
                None => entries.push(None),
            }
            i = i + 1;
        }
        FdTable { entries }
    }
}

/// The framebuffer `ioctl` requests.
#[derive(Debug, Clone, Copy, PartialEq, Eq, Structural)]
pub enum FbRequest {
    /// Push the framebuffer to the screen.
    Flush,
    /// Report the resolution.
    GetResolution,
}

/// The framebuffer request with number `request`: 1 flushes, 2 reports the resolution.
pub fn fb_request(request: usize) -> (r: Option<FbRequest>)
    ensures
        r == if request == 1 {
            Some(FbRequest::Flush)
        } else if request == 2 {
            Some(FbRequest::GetResolution)
        } else {
            None
        },
{
    match request {
        1 => Some(FbRequest::Flush),
        2 => Some(FbRequest::GetResolution),
        _ => None,
    }
}

/// Bytes in one input event record.
pub const INPUT_EVENT_SIZE: usize = 16;

/// How many bytes a read of a `buf_len`-byte buffer from an input device returns when the
/// device delivers `available` events: whole records only, as many as fit and are available.
pub fn input_read_len(buf_len: usize, available: usize) -> (r: usize)
    ensures
        r == INPUT_EVENT_SIZE * (if buf_len / 16 < available { buf_len / 16 } else { available }),
        r <= buf_len,
{
    let mut remaining = buf_len;
    let mut delivered: usize = 0;
    while remaining >= INPUT_EVENT_SIZE && delivered < available
        invariant
            remaining <= buf_len,
            buf_len - remaining == 16 * delivered,
            delivered <= available,
        decreases remaining,
    {
        remaining = remaining - INPUT_EVENT_SIZE;
        delivered = delivered + 1;
    }
    assert(delivered == if buf_len / 16 < available { buf_len / 16 } else { available }) by (nonlinear_arith)
        requires
            buf_len - remaining == 16 * delivered,
            remaining < 16 || delivered == available,
            delivered <= available,
            remaining <= buf_len,
    ;
    buf_len - remaining
}

} // verus!
