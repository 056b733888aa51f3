//! Forward reuse distances of a trace.
use std::collections::HashMap;
use vstd::prelude::*;

verus! {

broadcast use vstd::std_specs::hash::group_hash_axioms;

/// The distance given to an access whose item is never referenced again.
pub const NEVER: usize = usize::MAX;

/// `j` is the first position after `i` that references the item of `i`.
pub open spec fn is_next_occurrence(s: Seq<usize>, i: int, j: int) -> bool {
    &&& 0 <= i < j < s.len()
    &&& s[j] == s[i]
    &&& forall|k: int| i < k < j ==> s[k] != s[i]
}

/// The forward reuse distance of position `i`: the number of accesses until
/// its item is referenced again, or `NEVER` when it is not.
pub open spec fn distance_at(s: Seq<usize>, i: int) -> usize {
    if exists|j: int| is_next_occurrence(s, i, j) {
        ((choose|j: int| is_next_occurrence(s, i, j)) - i) as usize
    } else {
        NEVER
    }
}

/// The forward reuse distances of a whole trace, one per position.
pub open spec fn forward_distances(s: Seq<usize>) -> Seq<usize> {
    Seq::new(s.len(), |i: int| distance_at(s, i))
}

/// A position has at most one next occurrence.
pub proof fn lemma_next_occurrence_unique(s: Seq<usize>, i: int, j1: int, j2: int)
    requires
        is_next_occurrence(s, i, j1),
        is_next_occurrence(s, i, j2),
    ensures
        j1 == j2,
{
    if j1 < j2 {
        assert(s[j1] != s[i]);
    } else if j2 < j1 {
        assert(s[j2] != s[i]);
    }
}

/// Where the next occurrence of position `i` is `j`, its distance is `j - i`.
pub proof fn lemma_distance_of_next(s: Seq<usize>, i: int, j: int)
    requires
        is_next_occurrence(s, i, j),
        s.len() <= usize::MAX,
    ensures
        distance_at(s, i) == j - i,
{
    assert(exists|c: int| is_next_occurrence(s, i, c));
    let c = choose|c: int| is_next_occurrence(s, i, c);
    lemma_next_occurrence_unique(s, i, c, j);
}

/// Computes the forward reuse distance of every position of `trace` in one
/// backward pass, remembering for each item the nearest later position that
/// references it.
pub fn forward_distance(trace: &[usize]) -> (r: Vec<usize>)
    ensures
        r@.len() == trace@.len(),
        r@ == forward_distances(trace@),
{
    let n = trace.len();
    let mut next_seen: HashMap<usize, usize> = HashMap::new();
    let mut result: Vec<usize> = vec![0usize; n];
    let mut i: usize = n;
    while i > 0
        invariant
            i <= n,
            n == trace@.len(),
            result@.len() == n,
            forall|k: int| i <= k < n ==> result@[k] == distance_at(trace@, k),
            forall|x: usize|
                #![trigger next_seen@.contains_key(x)]
                next_seen@.contains_key(x) <==> exists|j: int| i <= j < n && trace@[j] == x,
            forall|x: usize|
                #![trigger next_seen@[x]]
                next_seen@.contains_key(x) ==> {
                    let p = next_seen@[x] as int;
                    &&& i <= p < n
                    &&& trace@[p] == x
                    &&& forall|k: int| i <= k < p ==> trace@[k] != x
                },
        decreases i,
    {
        i = i - 1;
        let item = trace[i];
        match next_seen.get(&item) {
            Some(j) => {
                let j = *j;
                proof {
                    assert(is_next_occurrence(trace@, i as int, j as int));
                    lemma_distance_of_next(trace@, i as int, j as int);
                }
                result.set(i, j - i);
            },
            None => {
                proof {
                    assert forall|j: int| !is_next_occurrence(trace@, i as int, j) by {
                        if is_next_occurrence(trace@, i as int, j) {
                            assert(next_seen@.contains_key(item));
                        }
                    }
                }
                result.set(i, NEVER);
            },
        }
        next_seen.insert(item, i);
    }
    proof {
        assert(result@ =~= forward_distances(trace@));
    }
    result
}

/// An access whose item occurs nowhere else in the trace is never reused.
pub proof fn lemma_single_occurrence_never_reused(s: Seq<usize>, i: int)
    requires
        0 <= i < s.len(),
        forall|j: int| 0 <= j < s.len() && j != i ==> s[j] != s[i],
    ensures
        forward_distances(s)[i] == NEVER,
{
    assert forall|j: int| !is_next_occurrence(s, i, j) by {
        if is_next_occurrence(s, i, j) {
            assert(s[j] != s[i]);
        }
    }
}

/// The forward distances depend on the trace alone: two computations on one
/// trace agree.
pub proof fn lemma_forward_distances_deterministic(s: Seq<usize>, r1: Seq<usize>, r2: Seq<usize>)
    requires
        r1 == forward_distances(s),
        r2 == forward_distances(s),
    ensures
        r1 == r2,
{
}

} // verus!
