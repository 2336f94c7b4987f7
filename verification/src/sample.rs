//! Random input to try the codec on.

use vstd::prelude::*;

verus! {

/// Calls `rand::random::<u16>()`, which draws a value from the thread-local
/// generator. Every 16-bit value can come back, and two calls need not
/// agree, so nothing is claimed of the result beyond its type. The generator
/// seeds itself from the operating system on first use and panics if that
/// fails.
#[verifier::external_body]
fn random_u16() -> (x: u16) {
    rand::random::<u16>()
}

/// `n` random values, each of them within sixteen bits.
pub fn random_values(n: usize) -> (values: Vec<u32>)
    ensures
        values@.len() == n,
        forall|i: int| 0 <= i < n ==> values@[i] <= 0xFFFF,
{
    let mut values: Vec<u32> = Vec::new();
    let mut i: usize = 0;
    while i < n
        invariant
            i <= n,
            values@.len() == i,
            forall|j: int| 0 <= j < i ==> values@[j] <= 0xFFFF,
        decreases n - i,
    {
        let x = random_u16();
        values.push(x as u32);
        i += 1;
    }
    values
}

} // verus!
