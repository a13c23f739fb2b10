use vstd::prelude::*;

use std::hash::{Hash, Hasher};

verus! {

/// What a fresh `DefaultHasher` yields for one `u64`.
pub uninterp spec fn default_hash_u64(x: u64) -> u64;

/// Relies on `std::collections::hash_map::DefaultHasher`: every hasher made by `new`
/// starts from the same state, so the hash of `x` depends on `x` alone.
#[verifier::external_body]
fn hash_u64(x: u64) -> (r: u64)
    ensures
        r == default_hash_u64(x),
{
    let mut h = std::collections::hash_map::DefaultHasher::new();
    x.hash(&mut h);
    h.finish()
}

/// The value that position `i` of a generated array gets from `seed`.
pub open spec fn generated_value(seed: u64, i: int) -> int {
    (default_hash_u64(((seed as int + i) % 0x1_0000_0000_0000_0000) as u64) % 400) + 20
}

/// `size` pseudo-random values in `[20, 420)`, derived from `seed`.
pub fn values_from_seed(seed: u64, size: usize) -> (r: Vec<i32>)
    ensures
        r@.len() == size,
        forall|i: int| 0 <= i < size ==> r@[i] == generated_value(seed, i),
        forall|i: int| 0 <= i < size ==> 20 <= #[trigger] r@[i] < 420,
{
    let mut array: Vec<i32> = Vec::new();
    let mut i: usize = 0;
    while i < size
        invariant
            i <= size,
            array@.len() == i,
            forall|t: int| 0 <= t < i ==> array@[t] == generated_value(seed, t),
            forall|t: int| 0 <= t < i ==> 20 <= #[trigger] array@[t] < 420,
        decreases size - i,
    {
        let h = hash_u64(seed.wrapping_add(i as u64));
        let value = (h % 400) as i32 + 20;
        array.push(value);
        i = i + 1;
    }
    array
}

} // verus!
