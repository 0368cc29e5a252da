use vstd::prelude::*;
use rand::seq::SliceRandom;
use crate::seq_util::is_reordering;

verus! {

/// A random index below `n`.
///
/// Calls `rand::random_range` on `0..n`, which samples the thread's generator
/// and panics on an empty range. The contract says only that the index lies in
/// the range.
#[verifier::external_body]
pub(crate) fn random_below(n: usize) -> (r: usize)
    requires
        n > 0,
    ensures
        r < n,
{
    rand::random_range(0..n)
}

/// A coin that shows `true` with chance `numerator` in `denominator`.
///
/// Calls `rand::random_ratio`, which panics on a zero denominator or a ratio
/// above one. The contract says what the crate documents of the two certain
/// coins, and nothing of the others.
#[verifier::external_body]
pub(crate) fn random_ratio(numerator: u32, denominator: u32) -> (b: bool)
    requires
        denominator > 0,
        numerator <= denominator,
    ensures
        numerator == denominator ==> b,
        numerator == 0 ==> !b,
{
    rand::random_ratio(numerator, denominator)
}

/// Shuffles `v` in place.
///
/// Calls `SliceRandom::shuffle` with the thread's generator, which moves the
/// items about within the slice. The contract says that the items are those
/// of before, in some other order.
#[verifier::external_body]
pub(crate) fn shuffle<T>(v: &mut Vec<T>)
    ensures
        exists|perm: Seq<int>| #[trigger] is_reordering(old(v)@, final(v)@, perm),
{
    v.shuffle(&mut rand::rng())
}

} // verus!
