//! Synthetic input: sequential keys with random payloads drawn from a
//! caller-supplied, seedable generator.
use vstd::prelude::*;
use rand::rngs::StdRng;
use rand::Rng;

use crate::tuple::Tuple;

verus! {

#[verifier::external_type_specification]
#[verifier::external_body]
pub struct ExStdRng(StdRng);

/// Relies on rand's `Rng::gen::<u64>` on a `StdRng`: the next word of the
/// generator's stream. Any value may come back.
#[verifier::external_body]
fn random_payload(rng: &mut StdRng) -> u64 {
    rng.gen::<u64>()
}

/// `size` tuples whose keys are `0, 1, .., size - 1` in order, each with a
/// payload drawn from `rng`.
pub fn generate_tuples(size: usize, rng: &mut StdRng) -> (r: Vec<Tuple>)
    ensures
        r.len() == size,
        forall|i: int| 0 <= i < size ==> #[trigger] r[i].key == i,
{
    let mut r: Vec<Tuple> = Vec::new();
    let mut i: usize = 0;
    while i < size
        invariant
            i <= size,
            r.len() == i,
            forall|j: int| 0 <= j < i ==> #[trigger] r[j].key == j,
        decreases size - i,
    {
        let payload = random_payload(rng);
        r.push(Tuple { key: i as u64, payload });
        i = i + 1;
    }
    r
}

} // verus!
