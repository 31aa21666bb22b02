//! The rule that fires on the nearest enemy it may fire on.
use vstd::prelude::*;
use crate::order::{le, total_key_of};
use crate::algorithm::{count_records, eligible_at, is_nearest_eligible, is_record, some_eligible, strictly_before, SelectResult, TargetingAlgorithm, TargetingInput, TargetingView, names_nearest_eligible};

verus! {

/// Fires on the nearest eligible enemy contact.
pub struct NearestInRange;

/// The best eligible contact among the first `i`, as a scan keeps it.
pub open spec fn is_nearest_in_prefix(input: TargetingView, k: int, i: int) -> bool {
    &&& 0 <= k < i
    &&& eligible_at(input, k)
    &&& forall|j: int|
        0 <= j < i && #[trigger] eligible_at(input, j) ==> {
            &&& (j < k ==> strictly_before(input.targets[k], input.targets[j]))
            &&& (k < j ==> !strictly_before(input.targets[j], input.targets[k]))
        }
}

/// Scans the enemy contacts in order, keeping the best eligible one seen so
/// far. Returns its index and the operations spent: one to examine each
/// contact and one for each replacement of the best.
pub fn scan_targets(input: &TargetingInput) -> (r: (Option<usize>, u64))
    requires
        input.targets@.len() <= 0x3fff_ffff_ffff_ffff,
    ensures
        r.1 == input.targets@.len() + count_records(input@, input.targets@.len() as int),
        count_records(input@, input.targets@.len() as int) <= input.targets@.len(),
        match r.0 {
            None => !some_eligible(input@),
            Some(k) => is_nearest_eligible(input@, k as int),
        },
{
    let n = input.targets.len();
    let mut ops: u64 = 0;
    let mut best: Option<usize> = None;
    let mut i: usize = 0;
    while i < n
        invariant
            n == input.targets@.len(),
            n <= 0x3fff_ffff_ffff_ffff,
            i <= n,
            ops == i + count_records(input@, i as int),
            count_records(input@, i as int) <= i,
            match best {
                None => forall|j: int| 0 <= j < i ==> !#[trigger] eligible_at(input@, j),
                Some(b) => is_nearest_in_prefix(input@, b as int, i as int),
            },
        decreases n - i,
    {
        let c = input.targets[i];
        ops = ops + 1;
        let in_range = le(c.distance, input.detection_range);
        let free = match c.engaged_by {
            None => true,
            Some(owner) => owner == input.self_id,
        };
        let ghost old_best = best;
        if in_range && free {
            let better = match best {
                None => true,
                Some(b) => {
                    let cur = input.targets[b];
                    let kc = total_key_of(c.distance);
                    let kb = total_key_of(cur.distance);
                    kc < kb || (kc == kb && c.id.0 < cur.id.0)
                },
            };
            if better {
                ops = ops + 1;
                best = Some(i);
            }
            proof {
                assert(eligible_at(input@, i as int));
                match old_best {
                    None => {
                        assert(is_record(input@, i as int));
                    },
                    Some(b) => {
                        if better {
                            assert(is_record(input@, i as int));
                        } else {
                            assert(!is_record(input@, i as int)) by {
                                assert(eligible_at(input@, b as int));
                            }
                        }
                    },
                }
            }
        } else {
            assert(!eligible_at(input@, i as int));
        }
        i = i + 1;
        proof {
            match best {
                None => {},
                Some(b) => {
                    assert(is_nearest_in_prefix(input@, b as int, i as int));
                },
            }
        }
    }
    proof {
        match best {
            None => {},
            Some(b) => {
                assert(is_nearest_eligible(input@, b as int));
            },
        }
    }
    (best, ops)
}

impl TargetingAlgorithm for NearestInRange {
    /// The decision names the nearest eligible contact (none when no contact
    /// is eligible) and costs one operation per contact examined, one per
    /// replacement of the best so far, and one to return.
    open spec fn selects(&self, input: TargetingView, r: SelectResult) -> bool {
        &&& names_nearest_eligible(input, r.target)
        &&& r.compute_ops == input.targets.len() + count_records(input, input.targets.len() as int) + 1
    }

    fn name(&self) -> (r: &'static str)
        ensures
            r@ == "nearest_in_range"@,
    {
        "nearest_in_range"
    }

    fn select(&self, input: &TargetingInput) -> (r: SelectResult) {
        let (best, ops) = scan_targets(input);
        let target = match best {
            None => None,
            Some(k) => Some(input.targets[k].id),
        };
        SelectResult { target, compute_ops: ops + 1 }
    }
}

} // verus!
