//! Access records of a recorded trace, annotated with forward distances.
use crate::reuse::{distance_at, forward_distance, NEVER};
use vstd::prelude::*;

verus! {

/// One recorded access: the referencing site, its backward reuse distance,
/// its forward reuse distance once known, the address, and a counter.
#[derive(Clone, Copy, Debug, PartialEq, Eq, Structural)]
pub struct AccessTrace {
    pub ref_id: usize,
    pub backward_ri: usize,
    pub forward_ri: Option<usize>,
    pub address: usize,
    pub counter: usize,
}

/// The addresses of a sequence of records, in order.
pub open spec fn addresses(records: Seq<AccessTrace>) -> Seq<usize> {
    records.map_values(|r: AccessTrace| r.address)
}

/// The forward distance of position `i` as a record holds it: `None` when
/// the address is not referenced again.
pub open spec fn forward_ri_at(records: Seq<AccessTrace>, i: int) -> Option<usize> {
    let d = distance_at(addresses(records), i);
    if d == NEVER {
        None
    } else {
        Some(d)
    }
}

/// Fills in the forward distance of every record, by address; every other
/// field is kept.
pub fn calculate_forward_ri(records: &mut Vec<AccessTrace>)
    ensures
        final(records)@.len() == old(records)@.len(),
        forall|i: int|
            0 <= i < old(records)@.len() ==> {
                let a = #[trigger] old(records)@[i];
                let b = final(records)@[i];
                &&& b.ref_id == a.ref_id
                &&& b.backward_ri == a.backward_ri
                &&& b.address == a.address
                &&& b.counter == a.counter
                &&& b.forward_ri == forward_ri_at(old(records)@, i)
            },
{
    let n = records.len();
    let mut trace: Vec<usize> = Vec::new();
    let mut i: usize = 0;
    while i < n
        invariant
            n == records@.len(),
            i <= n,
            trace@ == addresses(records@).take(i as int),
        decreases n - i,
    {
        trace.push(records[i].address);
        i = i + 1;
        proof {
            assert(trace@ =~= addresses(records@).take(i as int));
        }
    }
    assert(trace@ =~= addresses(records@));
    let distances = forward_distance(trace.as_slice());
    let ghost before = records@;
    let mut j: usize = 0;
    while j < n
        invariant
            n == records@.len(),
            n == before.len(),
            j <= n,
            distances@ == crate::reuse::forward_distances(addresses(before)),
            forall|k: int|
                0 <= k < n ==> {
                    let a = #[trigger] before[k];
                    let b = records@[k];
                    &&& b.ref_id == a.ref_id
                    &&& b.backward_ri == a.backward_ri
                    &&& b.address == a.address
                    &&& b.counter == a.counter
                    &&& k < j ==> b.forward_ri == forward_ri_at(before, k)
                },
        decreases n - j,
    {
        let d = distances[j];
        let mut record = records[j];
        record.forward_ri = if d == NEVER {
            None
        } else {
            Some(d)
        };
        records.set(j, record);
        j = j + 1;
    }
}

} // verus!
