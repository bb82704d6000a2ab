//! Page-aligned first-fit allocation of user virtual address ranges for `mmap`, on top of the
//! `rangemap` crate's interval map.
use vstd::prelude::*;
use core::ops::Range;
use rangemap::RangeMap;

verus! {

/// Page size used to align allocations.
pub const PAGE_SIZE: usize = 4096;

#[verifier::external_type_specification]
#[verifier::external_body]
#[verifier::reject_recursive_types(K)]
#[verifier::reject_recursive_types(V)]
pub struct ExRangeMap<K, V>(RangeMap<K, V>);

/// The addresses covered by the ranges stored in the map.
pub uninterp spec fn covered(m: RangeMap<usize, ()>) -> Set<usize>;

/// The addresses `start..end`.
pub open spec fn span(start: int, end: int) -> Set<usize> {
    Set::new(|p: usize| start <= p < end)
}

/// `g` lists, in increasing order, the maximal runs of `lo..hi` that `cov` leaves uncovered:
/// each is non-empty, inside `lo..hi` and uncovered, they are separated, and every uncovered
/// address of `lo..hi` lies in one of them.
pub open spec fn is_gap_list(g: Seq<(usize, usize)>, cov: Set<usize>, lo: int, hi: int) -> bool {
    &&& forall|i: int| 0 <= i < g.len() ==> lo <= #[trigger] g[i].0 < g[i].1 <= hi
    &&& forall|i: int, j: int| 0 <= i < j < g.len() ==> #[trigger] g[i].1 < #[trigger] g[j].0
    &&& forall|i: int, p: usize| #![trigger g[i], cov.contains(p)] 0 <= i < g.len() && g[i].0 <= p < g[i].1 ==> !cov.contains(p)
    &&& forall|p: usize| lo <= p < hi && !cov.contains(p) ==> exists|i: int| 0 <= i < g.len() && #[trigger] g[i].0 <= p < g[i].1
}

/// `RangeMap::new`: the new map covers nothing.
#[verifier::external_body]
fn range_map_new() -> (m: RangeMap<usize, ()>)
    ensures
        covered(m) == Set::<usize>::empty(),
{
    RangeMap::new()
}

/// `RangeMap::clone`: the copy covers the same addresses.
#[verifier::external_body]
fn range_map_clone(m: &RangeMap<usize, ()>) -> (c: RangeMap<usize, ()>)
    ensures
        covered(c) == covered(*m),
{
    m.clone()
}

/// `RangeMap::insert` of `start..end` mapped to `()`: afterwards the map also covers
/// `start..end`. The crate panics on an empty range, which `requires` rules out.
#[verifier::external_body]
fn range_map_insert(m: &mut RangeMap<usize, ()>, start: usize, end: usize)
    requires
        start < end,
    ensures
        covered(*final(m)) == covered(*old(m)).union(span(start as int, end as int)),
{
    m.insert(start..end, ());
}

/// `RangeMap::gaps` over `lo..hi`, collected as `(start, end)` pairs: the maximal uncovered
/// runs of `lo..hi` in increasing order.
#[verifier::external_body]
fn range_map_gaps(m: &RangeMap<usize, ()>, lo: usize, hi: usize) -> (g: Vec<(usize, usize)>)
    requires
        lo < hi,
    ensures
        is_gap_list(g@, covered(*m), lo as int, hi as int),
{
    let outer = lo..hi;
    m.gaps(&outer).map(|r| (r.start, r.end)).collect()
}

/// `x` rounded up to a multiple of the page size.
pub open spec fn round_up(x: int) -> int {
    ((x + 4095) / 4096) * 4096
}

/// The `n` addresses from `a` lie in `lo..hi` and none of them is covered.
pub open spec fn free_run(cov: Set<usize>, lo: int, hi: int, a: int, n: int) -> bool {
    &&& lo <= a
    &&& a + n <= hi
    &&& forall|p: usize| a <= p < a + n ==> !#[trigger] cov.contains(p)
}

/// A page-aligned address from which `n` addresses are free.
pub open spec fn fits_at(cov: Set<usize>, lo: int, hi: int, a: int, n: int) -> bool {
    a % 4096 == 0 && free_run(cov, lo, hi, a, n)
}

fn round_up_exec(x: usize) -> (r: usize)
    requires
        x <= usize::MAX - 4095,
    ensures
        r == round_up(x as int),
        x <= r <= x + 4095,
        r % 4096 == 0,
{
    let y = x + 4095;
    let r = y & !(4096 - 1);
    assert(r == (y / 4096) * 4096 && y - 4095 <= r <= y && r % 4096 == 0) by (bit_vector)
        requires
            y >= 4095,
            r == y & !(4095usize),
    ;
    r
}

/// Hands out page-aligned address ranges from a fixed window, first fit.
pub struct UserAllocator {
    range: Range<usize>,
    inner: RangeMap<usize, ()>,
}

impl UserAllocator {
    /// Start of the window.
    pub closed spec fn lo(&self) -> int {
        self.range.start as int
    }

    /// End of the window.
    pub closed spec fn hi(&self) -> int {
        self.range.end as int
    }

    /// Addresses already handed out.
    pub closed spec fn allocated(&self) -> Set<usize> {
        covered(self.inner)
    }

    /// An allocator for the window `range` with nothing handed out.
    pub fn new(range: Range<usize>) -> (r: Self)
        ensures
            r.lo() == range.start,
            r.hi() == range.end,
            r.allocated() == Set::<usize>::empty(),
    {
        Self { range, inner: range_map_new() }
    }

    /// A copy with the same window and the same allocations.
    pub fn clone(&self) -> (r: Self)
        ensures
            r.lo() == self.lo(),
            r.hi() == self.hi(),
            r.allocated() == self.allocated(),
    {
        Self { range: self.range.start..self.range.end, inner: range_map_clone(&self.inner) }
    }

    /// Reserves `size` bytes rounded up to whole pages at the lowest page-aligned address of the
    /// window from which that many addresses are free, and returns that address; `None` when
    /// no such address exists.
    pub fn alloc_aligned(&mut self, size: usize) -> (r: Option<usize>)
        requires
            0 < size <= usize::MAX - 4095,
            old(self).hi() <= usize::MAX - 4095,
        ensures
            final(self).lo() == old(self).lo(),
            final(self).hi() == old(self).hi(),
            ({
                let n = round_up(size as int);
                let cov = old(self).allocated();
                match r {
                    Some(a) => {
                        &&& fits_at(cov, old(self).lo(), old(self).hi(), a as int, n)
                        &&& forall|b: int| #[trigger] fits_at(cov, old(self).lo(), old(self).hi(), b, n) ==> a <= b
                        &&& final(self).allocated() == cov.union(span(a as int, a + n))
                    },
                    None => {
                        &&& forall|b: int| !#[trigger] fits_at(cov, old(self).lo(), old(self).hi(), b, n)
                        &&& final(self).allocated() == cov
                    },
                }
            }),
    {
        let aligned_size = round_up_exec(size);
        let lo = self.range.start;
        let hi = self.range.end;
        let ghost cov = covered(self.inner);
        let ghost n = aligned_size as int;
        if lo >= hi {
            proof {
                assert forall|b: int| !#[trigger] fits_at(cov, lo as int, hi as int, b, n) by {
                    if fits_at(cov, lo as int, hi as int, b, n) {
                        assert(n > 0);
                    }
                }
            }
            return None;
        }
        let gaps = range_map_gaps(&self.inner, lo, hi);
        let mut target: Option<(usize, usize)> = None;
        let mut i: usize = 0;
        while i < gaps.len()
            invariant_except_break
                0 <= i <= gaps@.len(),
                target is None,
                is_gap_list(gaps@, cov, lo as int, hi as int),
                hi <= usize::MAX - 4095,
                n == aligned_size,
                forall|k: int| 0 <= k < i ==> !#[trigger] gap_fits(gaps@[k], n),
            ensures
                0 <= i <= gaps@.len(),
                target is None ==> forall|k: int| 0 <= k < gaps@.len() ==> !#[trigger] gap_fits(gaps@[k], n),
                target is Some ==> i < gaps@.len() && gap_fits(gaps@[i as int], n)
                    && target == Some((round_up(gaps@[i as int].0 as int) as usize, (round_up(gaps@[i as int].0 as int) + n) as usize))
                    && forall|k: int| 0 <= k < i ==> !#[trigger] gap_fits(gaps@[k], n),
            decreases gaps@.len() - i,
        {
            let (gap_start, gap_end) = gaps[i];
            assert(gap_start < hi);
            let aligned_start = round_up_exec(gap_start);
            let alloc_end = aligned_start.saturating_add(aligned_size);
            if alloc_end <= gap_end {
                target = Some((aligned_start, alloc_end));
                break;
            }
            i = i + 1;
        }
        proof {
            Self::lemma_first_fit(gaps@, cov, lo as int, hi as int, n, i as int, target is Some);
        }
        match target {
            Some((start, end)) => {
                range_map_insert(&mut self.inner, start, end);
                Some(start)
            },
            None => None,
        }
    }

    proof fn lemma_first_fit(g: Seq<(usize, usize)>, cov: Set<usize>, lo: int, hi: int, n: int, i: int, found: bool)
        requires
            is_gap_list(g, cov, lo, hi),
            n > 0,
            n % 4096 == 0,
            0 <= lo < hi <= usize::MAX,
            found ==> 0 <= i < g.len() && gap_fits(g[i], n),
            forall|k: int| 0 <= k < (if found { i } else { g.len() as int }) ==> !#[trigger] gap_fits(g[k], n),
        ensures
            found ==> fits_at(cov, lo, hi, round_up(g[i].0 as int), n),
            found ==> forall|b: int| #[trigger] fits_at(cov, lo, hi, b, n) ==> round_up(g[i].0 as int) <= b,
            !found ==> forall|b: int| !#[trigger] fits_at(cov, lo, hi, b, n),
    {
        assert forall|b: int| #[trigger] fits_at(cov, lo, hi, b, n) implies
            (exists|k: int| 0 <= k < g.len() && gap_fits(g[k], n) && g[k].0 <= b < g[k].1
                && round_up(g[k].0 as int) <= b) by {
            let pb = b as usize;
            assert(pb as int == b);
            assert(!cov.contains(pb));
            let k = choose|k: int| 0 <= k < g.len() && #[trigger] g[k].0 <= pb < g[k].1;
            assert(round_up(g[k].0 as int) <= b) by {
                assert(round_up(g[k].0 as int) == ((g[k].0 + 4095) / 4096) * 4096);
                assert(b % 4096 == 0);
                assert(((g[k].0 + 4095) / 4096) * 4096 <= b) by (nonlinear_arith)
                    requires g[k].0 <= b, b % 4096 == 0, b >= 0, g[k].0 >= 0;
            }
            if g[k].1 < b + n {
                let q = g[k].1;
                assert(b < q < b + n);
                assert(q < hi);
                assert(!cov.contains(q));
                let m = choose|m: int| 0 <= m < g.len() && #[trigger] g[m].0 <= q < g[m].1;
                if m < k {
                    assert(g[m].1 < g[k].0);
                } else if m > k {
                    assert(g[k].1 < g[m].0);
                }
                assert(false);
            }
            assert(gap_fits(g[k], n));
        }
        if found {
            let a = round_up(g[i].0 as int);
            assert(a % 4096 == 0) by (nonlinear_arith)
                requires a == ((g[i].0 + 4095) / 4096) * 4096;
            assert(g[i].0 <= a) by (nonlinear_arith)
                requires a == ((g[i].0 + 4095) / 4096) * 4096, g[i].0 >= 0;
            assert forall|p: usize| a <= p < a + n implies !#[trigger] cov.contains(p) by {
                assert(g[i].0 <= p < g[i].1);
            }
            assert forall|b: int| #[trigger] fits_at(cov, lo, hi, b, n) implies a <= b by {
                let k = choose|k: int| 0 <= k < g.len() && gap_fits(g[k], n) && g[k].0 <= b < g[k].1
                    && round_up(g[k].0 as int) <= b;
                if k < i {
                    assert(!gap_fits(g[k], n));
                } else if k > i {
                    assert(g[i].1 < g[k].0);
                }
            }
        }
    }
}

/// The page-aligned start of gap `g` leaves room for `n` addresses before the gap ends.
pub open spec fn gap_fits(g: (usize, usize), n: int) -> bool {
    round_up(g.0 as int) + n <= g.1
}

} // verus!
