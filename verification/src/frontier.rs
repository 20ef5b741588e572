//! The search frontier: a vector of candidate nodes from which the node
//! with the smallest `distance` is extracted each round (ties go to the
//! earliest inserted candidate).

use vstd::prelude::*;
use crate::node::Node;

verus! {

/// Index of the first node of `s` whose `distance` is minimal.
pub open spec fn first_min_idx(s: Seq<Node>) -> int
    decreases s.len(),
{
    if s.len() <= 1 {
        0
    } else {
        let m = first_min_idx(s.drop_last());
        if s.last().distance < s[m].distance {
            s.len() - 1
        } else {
            m
        }
    }
}

pub proof fn lemma_first_min_idx(s: Seq<Node>)
    requires
        s.len() > 0,
    ensures
        0 <= first_min_idx(s) < s.len(),
        forall|k: int|
            0 <= k < s.len() ==> s[first_min_idx(s)].distance <= (#[trigger] s[k]).distance,
    decreases s.len(),
{
    if s.len() > 1 {
        lemma_first_min_idx(s.drop_last());
        assert forall|k: int|
            0 <= k < s.len() implies s[first_min_idx(s)].distance <= (#[trigger] s[k]).distance by {
            if k < s.len() - 1 {
                assert(s.drop_last()[k] == s[k]);
                assert(s.drop_last()[first_min_idx(s.drop_last())] == s[first_min_idx(
                    s.drop_last(),
                )]);
            }
        }
    }
}

/// Removes and returns the first node with minimal `distance`, or
/// `None` when the frontier is empty.
pub fn pop_min(heap: &mut Vec<Node>) -> (r: Option<Node>)
    ensures
        match r {
            None => old(heap)@.len() == 0 && final(heap)@ == old(heap)@,
            Some(n) => {
                &&& old(heap)@.len() > 0
                &&& n == old(heap)@[first_min_idx(old(heap)@)]
                &&& final(heap)@ == old(heap)@.remove(first_min_idx(old(heap)@))
                &&& forall|k: int|
                    0 <= k < old(heap)@.len() ==> n.distance <= (#[trigger] old(
                        heap,
                    )@[k]).distance
                &&& forall|k: int|
                    0 <= k < final(heap)@.len() ==> exists|j: int|
                        0 <= j < old(heap)@.len() && #[trigger] final(heap)@[k] == old(heap)@[j]
            },
        },
{
    if heap.len() == 0 {
        return None;
    }
    let mut best: usize = 0;
    let mut i: usize = 1;
    proof {
        assert(heap@.subrange(0, 1).len() == 1);
        assert(first_min_idx(heap@.subrange(0, 1)) == 0);
    }
    while i < heap.len()
        invariant
            1 <= i <= heap@.len(),
            heap@.len() > 0,
            best < i,
            best as int == first_min_idx(heap@.subrange(0, i as int)),
        decreases heap@.len() - i,
    {
        proof {
            assert(heap@.subrange(0, i + 1).drop_last() == heap@.subrange(0, i as int));
            assert(heap@.subrange(0, i + 1).last() == heap@[i as int]);
            assert(heap@.subrange(0, i + 1)[best as int] == heap@[best as int]);
        }
        if heap[i].distance < heap[best].distance {
            best = i;
        }
        i = i + 1;
    }
    proof {
        assert(heap@.subrange(0, heap@.len() as int) == heap@);
        lemma_first_min_idx(heap@);
    }
    let ghost before = heap@;
    let n = heap.remove(best);
    proof {
        assert forall|k: int| 0 <= k < heap@.len() implies exists|j: int|
            0 <= j < before.len() && #[trigger] heap@[k] == before[j] by {
            if k < best {
                assert(heap@[k] == before[k]);
            } else {
                assert(heap@[k] == before[k + 1]);
            }
        }
    }
    Some(n)
}

} // verus!
