//! The multi-hart console stress test: capturing what is printed, and checking afterwards that
//! no two harts' lines got interleaved.
use vstd::prelude::*;
use vstd::string::StringSliceAdditionalSpecFns;

verus! {

/// Bytes of console output kept for the check.
pub const BUFFER_SIZE: usize = 4096;

/// The first `BUFFER_SIZE` bytes printed.
pub struct CaptureBuffer {
    bytes: Vec<u8>,
}

impl View for CaptureBuffer {
    type V = Seq<u8>;

    closed spec fn view(&self) -> Seq<u8> {
        self.bytes@
    }
}

impl CaptureBuffer {
    /// Nothing captured yet.
    pub fn new() -> (r: Self)
        ensures
            r@ == Seq::<u8>::empty(),
    {
        CaptureBuffer { bytes: Vec::new() }
    }

    /// Records printed byte `c` while there is room.
    pub fn put_char(&mut self, c: u8)
        requires
            old(self)@.len() <= BUFFER_SIZE,
        ensures
            final(self)@ == if old(self)@.len() < BUFFER_SIZE { old(self)@.push(c) } else { old(self)@ },
    {
        if self.bytes.len() < BUFFER_SIZE {
            self.bytes.push(c);
        }
    }

    /// What was captured.
    pub fn contents(&self) -> (r: &Vec<u8>)
        ensures
            r@ == self@,
    {
        &self.bytes
    }
}

/// Index of the first line feed at or after `k` (the length when there is none).
pub open spec fn line_end(s: Seq<u8>, k: int) -> int
    decreases s.len() - k,
{
    if k >= s.len() { s.len() as int } else if s[k] == 10 { k } else { line_end(s, k + 1) }
}

/// `pat` occurs in `s` starting at `i`.
pub open spec fn occurs_at(s: Seq<u8>, pat: Seq<u8>, i: int) -> bool {
    0 <= i && i + pat.len() <= s.len() && s.subrange(i, i + pat.len()) == pat
}

/// `pat` occurs somewhere in `s`.
pub open spec fn occurs(s: Seq<u8>, pat: Seq<u8>) -> bool {
    exists|i: int| occurs_at(s, pat, i)
}

/// `prelude`
pub open spec fn prelude_word() -> Seq<u8> {
    seq![112u8, 114, 101, 108, 117, 100, 101]
}

/// `Stress test from hart `
pub open spec fn line_head() -> Seq<u8> {
    seq![83u8, 116, 114, 101, 115, 115, 32, 116, 101, 115, 116, 32, 102, 114, 111, 109, 32, 104, 97, 114, 116, 32]
}

/// `, iteration `
pub open spec fn iteration_word() -> Seq<u8> {
    seq![44u8, 32, 105, 116, 101, 114, 97, 116, 105, 111, 110, 32]
}

/// A line of the stress output that counts: not empty and not the prelude's.
pub open spec fn checked(line: Seq<u8>) -> bool {
    line.len() > 0 && !occurs(line, prelude_word())
}

/// A well-formed line of the test: it starts with the hart greeting and names an iteration.
pub open spec fn well_formed(line: Seq<u8>) -> bool {
    occurs_at(line, line_head(), 0) && occurs(line, iteration_word())
}

/// The check of the lines of `s` from byte `k` on: the number of checked lines when all are
/// well formed, or the first checked line that is not.
pub open spec fn check_from(s: Seq<u8>, k: int) -> Result<nat, Seq<u8>>
    decreases s.len() + 1 - k,
{
    if k < 0 || k > s.len() {
        Ok(0)
    } else {
        let e = line_end(s, k);
        proof { lemma_line_end_bounds(s, k); }
        let line = s.subrange(k, e);
        let rest = if e >= s.len() { Ok(0nat) } else { check_from(s, e + 1) };
        if !checked(line) {
            rest
        } else if !well_formed(line) {
            Err(line)
        } else {
            match rest {
                Ok(n) => Ok(n + 1),
                Err(l) => Err(l),
            }
        }
    }
}

pub proof fn lemma_line_end_bounds(s: Seq<u8>, k: int)
    requires
        0 <= k <= s.len(),
    ensures
        k <= line_end(s, k) <= s.len(),
        line_end(s, k) < s.len() ==> s[line_end(s, k)] == 10,
        forall|j: int| k <= j < line_end(s, k) ==> s[j] != 10,
    decreases s.len() - k,
{
    if k < s.len() && s[k] != 10 {
        lemma_line_end_bounds(s, k + 1);
    }
}

fn find_line_end(s: &[u8], k: usize) -> (r: usize)
    requires
        k <= s@.len(),
    ensures
        r == line_end(s@, k as int),
{
    let mut i = k;
    while i < s.len() && s[i] != 10
        invariant
            k <= i <= s@.len(),
            line_end(s@, k as int) == line_end(s@, i as int),
        decreases s@.len() - i,
    {
        i = i + 1;
    }
    i
}

fn occurs_at_exec(s: &[u8], lo: usize, hi: usize, pat: &[u8], i: usize) -> (r: bool)
    requires
        lo <= hi <= s@.len(),
    ensures
        r == occurs_at(s@.subrange(lo as int, hi as int), pat@, i as int),
{
    let ghost line = s@.subrange(lo as int, hi as int);
    if i > hi - lo || pat.len() > hi - lo - i {
        return false;
    }
    let mut j: usize = 0;
    while j < pat.len()
        invariant
            0 <= j <= pat@.len(),
            i + pat@.len() <= hi - lo,
            lo <= hi <= s@.len(),
            line == s@.subrange(lo as int, hi as int),
            forall|m: int| 0 <= m < j ==> line[i + m] == pat@[m],
        decreases pat@.len() - j,
    {
        if s[lo + i + j] != pat[j] {
            assert(line.subrange(i as int, i + pat@.len())[j as int] != pat@[j as int]);
            return false;
        }
        j = j + 1;
    }
    assert(line.subrange(i as int, i + pat@.len()) =~= pat@);
    true
}

fn occurs_exec(s: &[u8], lo: usize, hi: usize, pat: &[u8]) -> (r: bool)
    requires
        lo <= hi <= s@.len(),
    ensures
        r == occurs(s@.subrange(lo as int, hi as int), pat@),
{
    let mut i: usize = 0;
    loop
        invariant
            0 <= i <= hi - lo,
            lo <= hi <= s@.len(),
            forall|m: int| 0 <= m < i ==> !occurs_at(s@.subrange(lo as int, hi as int), pat@, m),
        ensures
            forall|m: int| 0 <= m <= hi - lo ==> !occurs_at(s@.subrange(lo as int, hi as int), pat@, m),
        decreases hi - lo - i,
    {
        if occurs_at_exec(s, lo, hi, pat, i) {
            return true;
        }
        if i == hi - lo {
            break;
        }
        i = i + 1;
    }
    proof {
        let line = s@.subrange(lo as int, hi as int);
        assert forall|m: int| !occurs_at(line, pat@, m) by {
            if 0 <= m <= hi - lo {
            }
        }
    }
    false
}

/// Checks the captured output `log`: every nonempty line other than the prelude's must start
/// with `Stress test from hart ` and contain `, iteration `. Gives the number of such lines, or
/// the first line that breaks the rule.
pub fn check_log(log: &str) -> (r: Result<usize, Vec<u8>>)
    ensures
        match check_from(log.spec_bytes(), 0) {
            Ok(n) => r is Ok && r->Ok_0 == n,
            Err(l) => r is Err && r->Err_0@ == l,
        },
{
    let s = log.as_bytes();
    let ghost sb = s@;
    let prelude: [u8; 7] = [112, 114, 101, 108, 117, 100, 101];
    let head: [u8; 22] = [83, 116, 114, 101, 115, 115, 32, 116, 101, 115, 116, 32, 102, 114, 111, 109, 32, 104, 97, 114, 116, 32];
    let iteration: [u8; 12] = [44, 32, 105, 116, 101, 114, 97, 116, 105, 111, 110, 32];
    assert(prelude@ =~= prelude_word());
    assert(head@ =~= line_head());
    assert(iteration@ =~= iteration_word());
    let mut count: usize = 0;
    let mut start: usize = 0;
    loop
        invariant
            sb == s@,
            sb == log.spec_bytes(),
            0 <= start <= sb.len(),
            count <= start,
            prelude@ == prelude_word(),
            head@ == line_head(),
            iteration@ == iteration_word(),
            check_from(sb, 0) == match check_from(sb, start as int) {
                Ok(n) => Ok::<nat, Seq<u8>>((count + n) as nat),
                Err(l) => Err(l),
            },
        decreases sb.len() + 1 - start,
    {
        let end = find_line_end(s, start);
        proof { lemma_line_end_bounds(sb, start as int); }
        let nonempty = end > start;
        let is_prelude = occurs_exec(s, start, end, &prelude);
        if nonempty && !is_prelude {
            let good = occurs_at_exec(s, start, end, &head, 0) && occurs_exec(s, start, end, &iteration);
            if !good {
                let mut line: Vec<u8> = Vec::new();
                let mut j = start;
                while j < end
                    invariant
                        start <= j <= end,
                        end <= sb.len(),
                        sb == s@,
                        line@ == sb.subrange(start as int, j as int),
                    decreases end - j,
                {
                    line.push(s[j]);
                    j = j + 1;
                    assert(line@ =~= sb.subrange(start as int, j as int));
                }
                return Err(line);
            }
            count = count + 1;
        }
        if end >= s.len() {
            return Ok(count);
        }
        start = end + 1;
    }
}

} // verus!
