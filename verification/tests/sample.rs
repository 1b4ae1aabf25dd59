use cog_engine::sample::{next_sample, SAMPLE_SCALE, SAMPLE_SEED};

#[test]
fn sample_sequence_from_the_fixed_seed() {
    let mut state = SAMPLE_SEED;
    assert_eq!(next_sample(&mut state), 7744336963927657);
    assert_eq!(state, 0xdc1b77ae0bf34dad);
    assert_eq!(next_sample(&mut state), 3551550720986572);
    assert_eq!(next_sample(&mut state), 4328750740976140);
    assert_eq!(state, 0x7b07ce91e5906136);
}

#[test]
fn samples_stay_below_scale_and_state_never_zero() {
    let mut state = SAMPLE_SEED;
    for _ in 0..1000 {
        let s = next_sample(&mut state);
        assert!(s < SAMPLE_SCALE);
        assert_ne!(state, 0);
    }
    let mut one = 1u64;
    next_sample(&mut one);
    assert_ne!(one, 0);
}
