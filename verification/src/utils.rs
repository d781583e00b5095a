//! Helpers for producing sample data.

use vstd::prelude::*;
use rand::Rng;

verus! {

/// Relies on rand's `thread_rng` and `Rng::gen_range`: the call returns
/// some value of the half-open range, and panics only on an empty range,
/// which the precondition rules out. Nothing more is assumed of the
/// drawn value than its bounds.
#[verifier::external_body]
fn random_in_range(min: i64, max: i64) -> (r: i64)
    requires
        min < max,
    ensures
        min <= r < max,
{
    rand::thread_rng().gen_range(min..max)
}

/// A vector of `len` values drawn from `min..max`.
pub fn random_vec(len: usize, min: i64, max: i64) -> (r: Vec<i64>)
    requires
        min < max,
    ensures
        r@.len() == len,
        forall|i: int| 0 <= i < r@.len() ==> min <= #[trigger] r@[i] < max,
{
    let mut arr: Vec<i64> = Vec::new();
    let mut k: usize = 0;
    while k < len
        invariant
            min < max,
            k <= len,
            arr@.len() == k,
            forall|i: int| 0 <= i < arr@.len() ==> min <= #[trigger] arr@[i] < max,
        decreases len - k,
    {
        let v = random_in_range(min, max);
        arr.push(v);
        k = k + 1;
    }
    arr
}

} // verus!
