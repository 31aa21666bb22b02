use battlefield_sim::session::{round_seed, session_seeds, SessionError};

#[test]
fn session_of_no_round_is_refused() {
    assert_eq!(session_seeds(0, 42), Err(SessionError::NoRounds));
    assert_eq!(SessionError::NoRounds.message(), "rounds must be >= 1");
}

#[test]
fn rounds_take_consecutive_seeds() {
    assert_eq!(session_seeds(3, 42), Ok(vec![42, 43, 44]));
    assert_eq!(session_seeds(1, 10_000), Ok(vec![10_000]));
    assert_eq!(round_seed(42, 0), 42);
    assert_eq!(round_seed(20260823, 199), 20261022);
}

#[test]
fn seeds_wrap_past_the_largest() {
    assert_eq!(round_seed(u64::MAX, 1), 0);
    assert_eq!(session_seeds(3, u64::MAX - 1), Ok(vec![u64::MAX - 1, u64::MAX, 0]));
}

#[test]
fn seeds_of_a_session_are_distinct() {
    let seeds = session_seeds(50, u64::MAX - 20).unwrap();
    for a in 0..seeds.len() {
        for b in (a + 1)..seeds.len() {
            assert_ne!(seeds[a], seeds[b]);
        }
    }
}
