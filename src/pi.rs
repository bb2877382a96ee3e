//! Pi: a fixed permutation of the lanes, with no arithmetic.
use vstd::prelude::*;
use crate::keccak::pi_source;

verus! {

/// Lanes after Pi: lane `(x, y)` takes lane `((x + 3y) mod 5, x)`.
pub open spec fn pi_state_spec(s: Seq<Seq<u8>>) -> Seq<Seq<u8>> {
    Seq::new(25, |k: int| s[pi_source(k)])
}

pub struct PiConfig;

impl PiConfig {
    pub fn assign_region(state: &Vec<Vec<u8>>) -> (r: Vec<Vec<u8>>)
        requires
            state@.len() == 25,
        ensures
            r@.len() == 25,
            forall|k: int| 0 <= k < 25 ==> #[trigger] r@[k]@ == state@[pi_source(k)]@,
    {
        let mut r: Vec<Vec<u8>> = Vec::new();
        let mut k: usize = 0;
        while k < 25
            invariant
                k <= 25,
                state@.len() == 25,
                r@.len() == k,
                forall|q: int| 0 <= q < k ==> #[trigger] r@[q]@ == state@[pi_source(q)]@,
            decreases 25 - k,
        {
            let src = 5 * ((k / 5 + 3 * (k % 5)) % 5) + k / 5;
            r.push(state[src].clone());
            k = k + 1;
        }
        r
    }
}

} // verus!
