//! A session: a run of rounds, numbered from zero, each with its own seed.
use vstd::prelude::*;

verus! {

/// Why a session is refused.
#[derive(Clone, Copy, Debug, PartialEq, Eq, Structural)]
pub enum SessionError {
    /// A session asked for no round at all.
    NoRounds,
}

impl SessionError {
    /// The message reported for this refusal.
    pub fn message(&self) -> (r: &'static str)
        ensures
            r@ == "rounds must be >= 1"@,
    {
        match self {
            SessionError::NoRounds => "rounds must be >= 1",
        }
    }
}

/// The seed of round `round_index` of a session started at `base_seed`:
/// the base plus the round's number, wrapping around past `u64::MAX`.
pub open spec fn round_seed_of(base_seed: u64, round_index: int) -> int {
    (base_seed + round_index) % 0x1_0000_0000_0000_0000
}

/// The seed of round `round_index` of a session started at `base_seed`.
pub fn round_seed(base_seed: u64, round_index: u32) -> (r: u64)
    ensures
        r == round_seed_of(base_seed, round_index as int),
{
    base_seed.wrapping_add(round_index as u64)
}

/// The seeds of the `rounds` rounds of a session started at `base_seed`, in
/// round order; a session of no round is refused.
pub fn session_seeds(rounds: u32, base_seed: u64) -> (r: Result<Vec<u64>, SessionError>)
    ensures
        rounds == 0 <==> r == Err::<Vec<u64>, SessionError>(SessionError::NoRounds),
        r matches Ok(seeds) ==> {
            &&& seeds@.len() == rounds
            &&& forall|i: int| 0 <= i < rounds ==> #[trigger] seeds@[i] == round_seed_of(base_seed, i)
        },
{
    if rounds < 1 {
        return Err(SessionError::NoRounds);
    }
    let mut seeds: Vec<u64> = Vec::new();
    for i in 0..rounds
        invariant
            seeds@.len() == i,
            forall|k: int| 0 <= k < i ==> #[trigger] seeds@[k] == round_seed_of(base_seed, k),
    {
        seeds.push(round_seed(base_seed, i));
    }
    Ok(seeds)
}

/// No two rounds of a session share a seed.
pub proof fn law_round_seeds_distinct(base_seed: u64, i: int, k: int)
    requires
        0 <= i < k <= u32::MAX,
    ensures
        round_seed_of(base_seed, i) != round_seed_of(base_seed, k),
{
}

} // verus!
