//! Miss-ratio curves: the optimal simulation over a range of capacities.
use crate::opt::{opt_misses, simulate, SimulationResult};
use crate::reuse::{forward_distance, forward_distances};
use vstd::prelude::*;

verus! {

/// One point of a miss-ratio curve.
#[derive(Clone, Copy, Debug, PartialEq, Eq, Structural)]
pub struct CurvePoint {
    pub capacity: usize,
    pub result: SimulationResult,
}

/// Simulates `trace` at every capacity from 1 to `max_capacity`, in
/// increasing order; the forward distances are computed once and shared.
pub fn sweep(trace: &[usize], max_capacity: usize) -> (r: Vec<CurvePoint>)
    ensures
        r@.len() == max_capacity,
        forall|k: int|
            0 <= k < max_capacity ==> {
                let p = #[trigger] r@[k];
                &&& p.capacity == k + 1
                &&& p.result.accesses == trace@.len()
                &&& p.result.misses == opt_misses(trace@, forward_distances(trace@), (k + 1) as nat)
            },
{
    let distances = forward_distance(trace);
    let mut curve: Vec<CurvePoint> = Vec::new();
    let mut k: usize = 0;
    while k < max_capacity
        invariant
            k <= max_capacity,
            distances@ == forward_distances(trace@),
            curve@.len() == k,
            forall|j: int|
                0 <= j < k ==> {
                    let p = #[trigger] curve@[j];
                    &&& p.capacity == j + 1
                    &&& p.result.accesses == trace@.len()
                    &&& p.result.misses == opt_misses(trace@, forward_distances(trace@), (j + 1) as nat)
                },
        decreases max_capacity - k,
    {
        let capacity = k + 1;
        let result = simulate(trace, distances.as_slice(), capacity);
        curve.push(CurvePoint { capacity, result });
        k = k + 1;
    }
    curve
}

} // verus!
