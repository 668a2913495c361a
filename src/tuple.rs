use vstd::prelude::*;

verus! {

/// A fixed-width record: a 64-bit partitioning key and a 64-bit payload.
#[derive(Clone, Copy, Debug, PartialEq, Eq, Structural)]
pub struct Tuple {
    pub key: u64,
    pub payload: u64,
}

impl Tuple {
    pub fn new(key: u64, payload: u64) -> (r: Tuple)
        ensures
            r.key == key,
            r.payload == payload,
    {
        Tuple { key, payload }
    }
}

} // verus!
