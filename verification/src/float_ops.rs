//! Rounding arithmetic on bit patterns.
//!
//! The library decides what is computed from what; the hardware's
//! floating-point unit does the rounding. [`FloatOps`] is the seam between
//! the two. Nothing is assumed of an implementation: every contract built on
//! it says which operation was applied to which operands, and holds whatever
//! the operations return.

use vstd::prelude::*;

verus! {

/// The binary32 and binary64 operations that round.
pub trait FloatOps {
    /// `a + b` in binary32.
    fn add32(a: u32, b: u32) -> u32;

    /// `a - b` in binary32.
    fn sub32(a: u32, b: u32) -> u32;

    /// `a * b` in binary32.
    fn mul32(a: u32, b: u32) -> u32;

    /// `a / b` in binary32.
    fn div32(a: u32, b: u32) -> u32;

    /// `a + b` in binary64.
    fn add64(a: u64, b: u64) -> u64;

    /// `a - b` in binary64.
    fn sub64(a: u64, b: u64) -> u64;

    /// `a * b` in binary64.
    fn mul64(a: u64, b: u64) -> u64;

    /// `a / b` in binary64.
    fn div64(a: u64, b: u64) -> u64;

    /// Square root in binary64.
    fn sqrt64(a: u64) -> u64;
}

/// `r` is what [`FloatOps::add32`] returns for `a` and `b`.
pub open spec fn added32<F: FloatOps>(a: u32, b: u32, r: u32) -> bool {
    call_ensures(F::add32, (a, b), r)
}

/// `r` is what [`FloatOps::sub32`] returns for `a` and `b`.
pub open spec fn subtracted32<F: FloatOps>(a: u32, b: u32, r: u32) -> bool {
    call_ensures(F::sub32, (a, b), r)
}

/// `r` is what [`FloatOps::mul32`] returns for `a` and `b`.
pub open spec fn multiplied32<F: FloatOps>(a: u32, b: u32, r: u32) -> bool {
    call_ensures(F::mul32, (a, b), r)
}

/// `r` is what [`FloatOps::div32`] returns for `a` and `b`.
pub open spec fn divided32<F: FloatOps>(a: u32, b: u32, r: u32) -> bool {
    call_ensures(F::div32, (a, b), r)
}

/// `r` is what [`FloatOps::add64`] returns for `a` and `b`.
pub open spec fn added64<F: FloatOps>(a: u64, b: u64, r: u64) -> bool {
    call_ensures(F::add64, (a, b), r)
}

/// `r` is what [`FloatOps::sub64`] returns for `a` and `b`.
pub open spec fn subtracted64<F: FloatOps>(a: u64, b: u64, r: u64) -> bool {
    call_ensures(F::sub64, (a, b), r)
}

/// `r` is what [`FloatOps::mul64`] returns for `a` and `b`.
pub open spec fn multiplied64<F: FloatOps>(a: u64, b: u64, r: u64) -> bool {
    call_ensures(F::mul64, (a, b), r)
}

/// `r` is what [`FloatOps::div64`] returns for `a` and `b`.
pub open spec fn divided64<F: FloatOps>(a: u64, b: u64, r: u64) -> bool {
    call_ensures(F::div64, (a, b), r)
}

/// `r` is what [`FloatOps::sqrt64`] returns for `a`.
pub open spec fn rooted64<F: FloatOps>(a: u64, r: u64) -> bool {
    call_ensures(F::sqrt64, (a,), r)
}

/// Whether every operation of `F` has one result for given operands.
pub open spec fn is_repeatable<F: FloatOps>() -> bool {
    &&& forall|a: u32, b: u32, r: u32, s: u32| #[trigger]
        added32::<F>(a, b, r) && #[trigger] added32::<F>(a, b, s) ==> r == s
    &&& forall|a: u32, b: u32, r: u32, s: u32| #[trigger]
        subtracted32::<F>(a, b, r) && #[trigger] subtracted32::<F>(a, b, s) ==> r == s
    &&& forall|a: u32, b: u32, r: u32, s: u32| #[trigger]
        multiplied32::<F>(a, b, r) && #[trigger] multiplied32::<F>(a, b, s) ==> r == s
    &&& forall|a: u32, b: u32, r: u32, s: u32| #[trigger]
        divided32::<F>(a, b, r) && #[trigger] divided32::<F>(a, b, s) ==> r == s
    &&& forall|a: u64, b: u64, r: u64, s: u64| #[trigger]
        added64::<F>(a, b, r) && #[trigger] added64::<F>(a, b, s) ==> r == s
    &&& forall|a: u64, b: u64, r: u64, s: u64| #[trigger]
        subtracted64::<F>(a, b, r) && #[trigger] subtracted64::<F>(a, b, s) ==> r == s
    &&& forall|a: u64, b: u64, r: u64, s: u64| #[trigger]
        multiplied64::<F>(a, b, r) && #[trigger] multiplied64::<F>(a, b, s) ==> r == s
    &&& forall|a: u64, b: u64, r: u64, s: u64| #[trigger]
        divided64::<F>(a, b, r) && #[trigger] divided64::<F>(a, b, s) ==> r == s
    &&& forall|a: u64, r: u64, s: u64| #[trigger]
        rooted64::<F>(a, r) && #[trigger] rooted64::<F>(a, s) ==> r == s
}

pub fn add32<F: FloatOps>(a: u32, b: u32) -> (r: u32)
    ensures
        added32::<F>(a, b, r),
{
    F::add32(a, b)
}

pub fn sub32<F: FloatOps>(a: u32, b: u32) -> (r: u32)
    ensures
        subtracted32::<F>(a, b, r),
{
    F::sub32(a, b)
}

pub fn mul32<F: FloatOps>(a: u32, b: u32) -> (r: u32)
    ensures
        multiplied32::<F>(a, b, r),
{
    F::mul32(a, b)
}

pub fn div32<F: FloatOps>(a: u32, b: u32) -> (r: u32)
    ensures
        divided32::<F>(a, b, r),
{
    F::div32(a, b)
}

pub fn add64<F: FloatOps>(a: u64, b: u64) -> (r: u64)
    ensures
        added64::<F>(a, b, r),
{
    F::add64(a, b)
}

pub fn sub64<F: FloatOps>(a: u64, b: u64) -> (r: u64)
    ensures
        subtracted64::<F>(a, b, r),
{
    F::sub64(a, b)
}

pub fn mul64<F: FloatOps>(a: u64, b: u64) -> (r: u64)
    ensures
        multiplied64::<F>(a, b, r),
{
    F::mul64(a, b)
}

pub fn div64<F: FloatOps>(a: u64, b: u64) -> (r: u64)
    ensures
        divided64::<F>(a, b, r),
{
    F::div64(a, b)
}

pub fn sqrt64<F: FloatOps>(a: u64) -> (r: u64)
    ensures
        rooted64::<F>(a, r),
{
    F::sqrt64(a)
}

/// `r` is `xs[lo] * ys[lo] + ... + xs[hi - 1] * ys[hi - 1]`, each product
/// added to the running sum in turn, starting from zero.
pub open spec fn dot_is<F: FloatOps>(
    xs: Seq<u64>,
    ys: Seq<u64>,
    lo: int,
    hi: int,
    r: u64,
) -> bool
    decreases hi - lo,
{
    if hi <= lo {
        r == 0
    } else {
        exists|s: u64, p: u64|
            {
                &&& dot_is::<F>(xs, ys, lo, hi - 1, s)
                &&& #[trigger] multiplied64::<F>(xs[hi - 1], ys[hi - 1], p)
                &&& #[trigger] added64::<F>(s, p, r)
            }
    }
}

/// Adds one more product to a running dot product.
pub proof fn lemma_dot_step<F: FloatOps>(
    xs: Seq<u64>,
    ys: Seq<u64>,
    lo: int,
    hi: int,
    s: u64,
    p: u64,
    r: u64,
)
    requires
        lo <= hi,
        dot_is::<F>(xs, ys, lo, hi, s),
        multiplied64::<F>(xs[hi], ys[hi], p),
        added64::<F>(s, p, r),
    ensures
        dot_is::<F>(xs, ys, lo, hi + 1, r),
{
    assert(multiplied64::<F>(xs[hi + 1 - 1], ys[hi + 1 - 1], p));
}

/// A dot product only reads the entries in its range.
pub proof fn lemma_dot_frame<F: FloatOps>(
    xs: Seq<u64>,
    ys: Seq<u64>,
    us: Seq<u64>,
    vs: Seq<u64>,
    lo: int,
    hi: int,
    r: u64,
)
    requires
        forall|i: int| lo <= i < hi ==> xs[i] == us[i],
        forall|i: int| lo <= i < hi ==> ys[i] == vs[i],
        dot_is::<F>(xs, ys, lo, hi, r),
    ensures
        dot_is::<F>(us, vs, lo, hi, r),
    decreases hi - lo,
{
    if lo < hi {
        let (s, p) = choose|s: u64, p: u64|
            {
                &&& dot_is::<F>(xs, ys, lo, hi - 1, s)
                &&& #[trigger] multiplied64::<F>(xs[hi - 1], ys[hi - 1], p)
                &&& #[trigger] added64::<F>(s, p, r)
            };
        lemma_dot_frame::<F>(xs, ys, us, vs, lo, hi - 1, s);
        assert(multiplied64::<F>(us[hi - 1], vs[hi - 1], p));
        assert(added64::<F>(s, p, r));
    }
}

/// Dot product of `xs[..n]` and `ys[..n]`.
pub fn dot<F: FloatOps>(xs: &[u64], ys: &[u64], n: usize) -> (r: u64)
    requires
        n <= xs@.len(),
        n <= ys@.len(),
    ensures
        dot_is::<F>(xs@, ys@, 0, n as int, r),
{
    let mut sum: u64 = 0;
    let mut i: usize = 0;
    while i < n
        invariant
            i <= n <= xs@.len(),
            n <= ys@.len(),
            dot_is::<F>(xs@, ys@, 0, i as int, sum),
        decreases n - i,
    {
        let p: u64 = mul64::<F>(xs[i], ys[i]);
        let next: u64 = add64::<F>(sum, p);
        proof {
            lemma_dot_step::<F>(xs@, ys@, 0, i as int, sum, p, next);
        }
        sum = next;
        i = i + 1;
    }
    sum
}

/// Every operation is the one of that name, on its operands in their order.
pub proof fn law_operations_are_those_of_the_arithmetic<F: FloatOps>(
    a: u32,
    b: u32,
    r: u32,
    c: u64,
    d: u64,
    s: u64,
)
    ensures
        added32::<F>(a, b, r) <==> call_ensures(F::add32, (a, b), r),
        subtracted32::<F>(a, b, r) <==> call_ensures(F::sub32, (a, b), r),
        multiplied32::<F>(a, b, r) <==> call_ensures(F::mul32, (a, b), r),
        divided32::<F>(a, b, r) <==> call_ensures(F::div32, (a, b), r),
        added64::<F>(c, d, s) <==> call_ensures(F::add64, (c, d), s),
        subtracted64::<F>(c, d, s) <==> call_ensures(F::sub64, (c, d), s),
        multiplied64::<F>(c, d, s) <==> call_ensures(F::mul64, (c, d), s),
        divided64::<F>(c, d, s) <==> call_ensures(F::div64, (c, d), s),
        rooted64::<F>(c, s) <==> call_ensures(F::sqrt64, (c,), s),
{
}

} // verus!
