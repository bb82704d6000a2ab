//! Start-up arithmetic of the multi-hart boot framework: the hart count given at build time and
//! the per-hart boot stacks.
use vstd::prelude::*;
use vstd::string::StringSliceAdditionalSpecFns;

verus! {

/// Bytes of boot stack given to each hart.
pub const STACK_SIZE_PER_HART: usize = 16 * 4096;

/// The number written in decimal by `b`, each byte standing for the digit `b - '0'`.
pub open spec fn decimal_value(b: Seq<u8>) -> int
    decreases b.len(),
{
    if b.len() == 0 {
        0
    } else {
        decimal_value(b.drop_last()) * 10 + (b.last() - 48)
    }
}

proof fn lemma_decimal_prefix_le(b: Seq<u8>, k: int)
    requires
        0 <= k <= b.len(),
        forall|i: int| 0 <= i < b.len() ==> b[i] >= 48,
    ensures
        0 <= decimal_value(b.take(k)) <= decimal_value(b),
    decreases b.len() - k,
{
    if k < b.len() {
        lemma_decimal_prefix_le(b, k + 1);
        assert(b.take(k + 1).drop_last() =~= b.take(k));
        assert(decimal_value(b.take(k)) >= 0) by {
            lemma_decimal_nonneg(b.take(k));
        }
    } else {
        assert(b.take(k) =~= b);
        lemma_decimal_nonneg(b);
    }
}

proof fn lemma_decimal_nonneg(b: Seq<u8>)
    requires
        forall|i: int| 0 <= i < b.len() ==> b[i] >= 48,
    ensures
        decimal_value(b) >= 0,
    decreases b.len(),
{
    if b.len() > 0 {
        lemma_decimal_nonneg(b.drop_last());
    }
}

/// Reads the decimal hart count given in the build environment.
pub fn parse_env_smp(s: &str) -> (r: usize)
    requires
        forall|i: int| 0 <= i < s.spec_bytes().len() ==> s.spec_bytes()[i] >= 48,
        decimal_value(s.spec_bytes()) <= usize::MAX,
    ensures
        r == decimal_value(s.spec_bytes()),
{
    let bytes = s.as_bytes();
    let mut num: usize = 0;
    let mut i: usize = 0;
    while i < bytes.len()
        invariant
            0 <= i <= bytes@.len(),
            bytes@ == s.spec_bytes(),
            forall|k: int| 0 <= k < bytes@.len() ==> bytes@[k] >= 48,
            decimal_value(bytes@) <= usize::MAX,
            num == decimal_value(bytes@.take(i as int)),
        decreases bytes@.len() - i,
    {
        proof {
            lemma_decimal_prefix_le(bytes@, i + 1);
            assert(bytes@.take(i + 1).drop_last() =~= bytes@.take(i as int));
            lemma_decimal_nonneg(bytes@.take(i as int));
        }
        num = num * 10 + (bytes[i] - 48u8) as usize;
        i = i + 1;
    }
    assert(bytes@.take(i as int) =~= bytes@);
    num
}

/// Top of the boot stack of hart `hart`: the stacks are laid out downwards from the end of the
/// stack area, hart 0 highest.
pub fn hart_stack_top(stack_base: usize, max_harts: usize, hart: usize) -> (r: usize)
    requires
        hart < max_harts,
        stack_base + STACK_SIZE_PER_HART * max_harts <= usize::MAX,
    ensures
        r == stack_base + STACK_SIZE_PER_HART * max_harts - hart * STACK_SIZE_PER_HART,
        stack_base < r <= stack_base + STACK_SIZE_PER_HART * max_harts,
{
    assert(hart * STACK_SIZE_PER_HART < STACK_SIZE_PER_HART * max_harts) by (nonlinear_arith)
        requires hart < max_harts;
    stack_base + (STACK_SIZE_PER_HART * max_harts - hart * STACK_SIZE_PER_HART)
}

/// The boot greeting of hart `hartid`: the text, the hart's digit and a newline.
pub fn hart_greeting(hartid: usize) -> (r: Vec<u8>)
    requires
        hartid < 10,
    ensures
        r@ == "Hello, world! from hart ".spec_bytes() + seq![(48 + hartid) as u8, 10u8],
{
    let text = "Hello, world! from hart ";
    let bytes = text.as_bytes();
    let mut r: Vec<u8> = Vec::new();
    let mut i: usize = 0;
    while i < bytes.len()
        invariant
            0 <= i <= bytes@.len(),
            bytes@ == text.spec_bytes(),
            r@ == bytes@.take(i as int),
        decreases bytes@.len() - i,
    {
        r.push(bytes[i]);
        assert(bytes@.take(i + 1) =~= bytes@.take(i as int).push(bytes@[i as int]));
        i = i + 1;
    }
    r.push(48u8 + hartid as u8);
    r.push(10u8);
    assert(r@ =~= text.spec_bytes() + seq![(48 + hartid) as u8, 10u8]);
    r
}

} // verus!
