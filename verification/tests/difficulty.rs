use num_bigint::BigUint;
use neptune_core::block_height::BlockHeight;
use neptune_core::difficulty::{difficulty_control, Difficulty, ProofOfWork};
use neptune_core::timestamp::Timestamp;

#[test]
fn multiplying_by_one_keeps_the_difficulty() {
    let d = Difficulty::new([7, 8, 9, 10, 11]);
    let (product, overflow) = d.safe_mul_fixed_point_rational(0, 1);
    assert_eq!(product, d);
    assert_eq!(overflow, 0);
}

#[test]
fn multiplying_by_one_half_halves_and_drops_the_fraction() {
    let d = Difficulty::new([7, 1, 0, 0, 0]);
    let (product, overflow) = d.safe_mul_fixed_point_rational(0x8000_0000, 0);
    assert_eq!(product, Difficulty::new([0x8000_0003, 0, 0, 0, 0]));
    assert_eq!(overflow, 0);
}

#[test]
fn multiplying_the_maximum_by_two_overflows_by_one() {
    let (product, overflow) = Difficulty::maximum().safe_mul_fixed_point_rational(0, 2);
    assert_eq!(
        product,
        Difficulty::new([0xffff_fffe, 0xffff_ffff, 0xffff_ffff, 0xffff_ffff, 0xffff_ffff])
    );
    assert_eq!(overflow, 1);
}

#[test]
fn genesis_keeps_the_difficulty() {
    let d = Difficulty::new([123456, 0, 0, 0, 0]);
    let next = difficulty_control(
        Timestamp::millis(5_000_000),
        Timestamp::millis(1_000),
        d,
        None,
        BlockHeight::genesis(),
    );
    assert_eq!(next, d);
}

#[test]
fn a_block_on_target_keeps_the_difficulty() {
    let d = Difficulty::new([1 << 20, 0, 0, 0, 0]);
    let next = difficulty_control(
        Timestamp::millis(601_000),
        Timestamp::millis(1_000),
        d,
        Some(Timestamp::millis(600_000)),
        BlockHeight(5),
    );
    assert_eq!(next, d);
}

#[test]
fn an_instant_block_raises_the_difficulty_by_a_sixteenth() {
    let d = Difficulty::new([1 << 20, 0, 0, 0, 0]);
    let next = difficulty_control(
        Timestamp::millis(1_000),
        Timestamp::millis(1_000),
        d,
        Some(Timestamp::millis(600_000)),
        BlockHeight(5),
    );
    assert_eq!(next, Difficulty::new([(1 << 20) + (1 << 16), 0, 0, 0, 0]));
}

#[test]
fn a_very_late_block_lowers_the_difficulty_by_a_quarter() {
    let d = Difficulty::new([1 << 20, 0, 0, 0, 0]);
    let next = difficulty_control(
        Timestamp::millis(100_000_000),
        Timestamp::millis(1_000),
        d,
        Some(Timestamp::millis(600_000)),
        BlockHeight(5),
    );
    assert_eq!(next, Difficulty::new([(1 << 20) - (1 << 18), 0, 0, 0, 0]));
}

#[test]
fn the_difficulty_never_falls_below_the_minimum() {
    let next = difficulty_control(
        Timestamp::millis(100_000_000),
        Timestamp::millis(1_000),
        Difficulty::minimum(),
        Some(Timestamp::millis(600_000)),
        BlockHeight(5),
    );
    assert_eq!(next, Difficulty::minimum());
}

#[test]
fn the_difficulty_saturates_at_the_maximum() {
    let next = difficulty_control(
        Timestamp::millis(1_000),
        Timestamp::millis(1_000),
        Difficulty::maximum(),
        Some(Timestamp::millis(600_000)),
        BlockHeight(5),
    );
    assert_eq!(next, Difficulty::maximum());
}

#[test]
fn difficulties_are_ordered_from_the_most_significant_limb() {
    let small = Difficulty::new([0xffff_ffff, 0, 0, 0, 0]);
    let large = Difficulty::new([0, 1, 0, 0, 0]);
    assert!(small < large);
    assert!(large > small);
    assert!(small <= small);
    assert!(Difficulty::minimum() < Difficulty::maximum());
}

#[test]
fn proof_of_work_adds_with_carry() {
    let pow = ProofOfWork::new([0xffff_ffff, 0xffff_ffff, 0, 0, 0, 0]);
    let sum = pow.add(Difficulty::new([1, 0, 0, 0, 0]));
    assert_eq!(sum, ProofOfWork::new([0, 0, 1, 0, 0, 0]));
    assert!(ProofOfWork::zero().is_zero());
    assert!(!sum.is_zero());
    assert!(pow < sum);
}

#[test]
fn proof_of_work_wraps_at_192_bits() {
    let all = ProofOfWork::new([0xffff_ffff; 6]);
    let sum = all.add(Difficulty::new([1, 0, 0, 0, 0]));
    assert!(sum.is_zero());
}

#[test]
fn a_difficulty_from_a_small_number_has_one_limb() {
    assert_eq!(Difficulty::from(42u32), Difficulty::new([42, 0, 0, 0, 0]));
}

#[test]
fn a_difficulty_goes_to_a_big_integer_and_back() {
    let d = Difficulty::new([1, 2, 3, 4, 5]);
    let bi = d.to_biguint();
    assert_eq!(bi, num_bigint::BigUint::new(vec![1, 2, 3, 4, 5]));
    assert_eq!(Difficulty::from_biguint(&bi), Some(d));
    assert_eq!(
        Difficulty::from_biguint(&Difficulty::maximum().to_biguint()),
        Some(Difficulty::maximum())
    );
    assert_eq!(
        Difficulty::from_biguint(&num_bigint::BigUint::from(0u32)),
        Some(Difficulty::new([0; 5]))
    );
}

#[test]
fn a_big_integer_of_six_limbs_is_no_difficulty() {
    let too_large = num_bigint::BigUint::new(vec![0, 0, 0, 0, 0, 1]);
    assert_eq!(Difficulty::from_biguint(&too_large), None);
    // a zero limb at the end does not count
    let padded = num_bigint::BigUint::new(vec![7, 0, 0, 0, 0, 0]);
    assert_eq!(
        Difficulty::from_biguint(&padded),
        Some(Difficulty::new([7, 0, 0, 0, 0]))
    );
}

#[test]
fn the_target_of_difficulty_one_is_the_greatest_digest() {
    let p = neptune_core::digest::BFIELD_MODULUS;
    let target = Difficulty::new([1, 0, 0, 0, 0]).target();
    assert_eq!(target.values(), [p - 1; 5]);
}

#[test]
fn the_target_is_the_greatest_digest_divided_by_the_difficulty() {
    let p = num_bigint::BigUint::from(neptune_core::digest::BFIELD_MODULUS);
    let greatest = p.pow(5) - 1u32;
    let d = Difficulty::new([1000, 7, 0, 0, 0]);
    let expected = greatest / d.to_biguint();
    let target = d.target();
    let mut value = num_bigint::BigUint::from(0u32);
    for element in target.values().iter().rev() {
        value = value * &p + num_bigint::BigUint::from(*element);
    }
    assert_eq!(value, expected);
    // a greater difficulty has a smaller target
    assert!(Difficulty::new([1001, 7, 0, 0, 0]).target() < target);
}

#[test]
fn decimal_strings() {
    assert_eq!(Difficulty::new([1000, 0, 0, 0, 0]).to_decimal_string(), "1000");
    assert_eq!(
        Difficulty::new([0, 1, 0, 0, 0]).to_decimal_string(),
        "4294967296"
    );
    assert_eq!(ProofOfWork::zero().to_decimal_string(), "0");
}

#[test]
fn multiplication_is_linear_up_to_one_unit() {
    // (r * a) + (r * b) is r * (a + b), or one less
    let cases = [
        ([5u32, 0, 0, 0, 0], [9u32, 0, 0, 0, 0], 0x8000_0000u32, 0u32),
        ([0xffff_ffff, 3, 0, 0, 0], [1, 0, 7, 0, 0], 0x1234_5678, 3),
        ([1000, 0, 0, 0, 1], [999, 1, 1, 1, 1], 0xffff_ffff, 0xffff_ffff),
    ];
    for (a, b, lo, hi) in cases {
        let value = |limbs: &[u32]| num_bigint::BigUint::new(limbs.to_vec());
        let r = num_bigint::BigUint::from(lo) + (num_bigint::BigUint::from(hi) << 32);
        let (ra, oa) = Difficulty::new(a).safe_mul_fixed_point_rational(lo, hi);
        let (rb, ob) = Difficulty::new(b).safe_mul_fixed_point_rational(lo, hi);
        let with_overflow = |d: Difficulty, o: u32| {
            let mut limbs = d.to_limbs();
            limbs.push(o);
            num_bigint::BigUint::new(limbs)
        };
        let sum = with_overflow(ra, oa) + with_overflow(rb, ob);
        let expected: num_bigint::BigUint = ((value(&a) + value(&b)) * r) >> 32;
        assert!(sum == expected || sum.clone() + 1u32 == expected);
        assert_eq!(with_overflow(ra, oa), (value(&a) * (num_bigint::BigUint::from(lo) + (num_bigint::BigUint::from(hi) << 32))) >> 32);
    }
}

fn sample_block_time(hash_rate: f64, difficulty: Difficulty, proving_time: f64, state: &mut u64) -> f64 {
    // the number of hashes until one is below the target is geometrically distributed
    let mut value = 0f64;
    for limb in difficulty.to_limbs().iter().rev() {
        value = value * 4294967296f64 + (*limb as f64);
    }
    let p = 1.0 / value;
    *state ^= *state << 13;
    *state ^= *state >> 7;
    *state ^= *state << 17;
    let uniform = ((*state >> 11) as f64 + 0.5) / ((1u64 << 53) as f64);
    let num_hashes = 1.0 + (uniform.ln() / (1.0 - p).ln()).floor();
    proving_time + num_hashes / hash_rate
}

#[test]
fn block_time_tracks_target() {
    // declare epochs: (log hash rate, proving time, number of iterations)
    let epochs: [(f64, f64, usize); 5] = [
        (2.0, 300.0, 2000),
        (3.0, 300.0, 2000),
        (3.0, 60.0, 2000),
        (5.0, 60.0, 2000),
        (2.0, 0.0, 2000),
    ];

    // run simulation
    let mut state: u64 = 0x2545_f491_4f6c_dd1d;
    let mut block_times = vec![];
    let mut difficulty = Difficulty::minimum();
    let target_block_time = 600f64;
    let target_block_interval = Timestamp::seconds(target_block_time.round() as u64).unwrap();
    let mut new_timestamp = Timestamp::millis(1_700_000_000_000);
    let mut block_height = BlockHeight::genesis();
    for (log_hash_rate, proving_time, num_iterations) in epochs {
        let hash_rate = 10f64.powf(log_hash_rate);
        for _ in 0..num_iterations {
            let block_time = sample_block_time(hash_rate, difficulty, proving_time, &mut state);
            block_times.push(block_time);
            let old_timestamp = new_timestamp;
            new_timestamp = Timestamp::millis(
                new_timestamp.to_millis() + (block_time * 1000.0).round() as u64,
            );

            difficulty = difficulty_control(
                new_timestamp,
                old_timestamp,
                difficulty,
                Some(target_block_interval),
                block_height,
            );
            block_height = block_height.next();
        }
    }

    // select monitored block times
    let allowed_adjustment_period = 1000usize;
    let mut monitored_block_times = vec![];
    let mut counter = 0;
    for (_, _, num_iterations) in epochs {
        monitored_block_times.append(
            &mut block_times[counter + allowed_adjustment_period..counter + num_iterations]
                .to_owned(),
        );
        counter += num_iterations;
    }

    // perform statistical test on block times
    let n = monitored_block_times.len();
    let mean = monitored_block_times.into_iter().sum::<f64>() / (n as f64);
    println!("mean block time: {mean}\ntarget is: {target_block_time}");

    let margin = 0.05;
    assert!(target_block_time * (1.0 - margin) < mean);
    assert!(mean < target_block_time * (1.0 + margin));
}

#[test]
fn work_adds_to_work_with_carry_and_wraps() {
    let p = ProofOfWork::new([0xffff_ffff, 0xffff_ffff, 7, 0, 0, 0xffff_fffe]);
    let q = ProofOfWork::new([1, 0, 0, 0, 0, 1]);
    // the carry runs through two limbs, and the last limb does not overflow yet
    assert_eq!(
        p.add_proof_of_work(q),
        ProofOfWork::new([0, 0, 8, 0, 0, 0xffff_ffff])
    );
    // the carry out of the last limb is dropped
    let r = ProofOfWork::new([5, 0, 0, 0, 0, 2]);
    assert_eq!(
        p.add_proof_of_work(r),
        ProofOfWork::new([4, 0, 8, 0, 0, 0])
    );
    let greatest = ProofOfWork::new([0xffff_ffff; 6]);
    assert_eq!(
        greatest.add_proof_of_work(ProofOfWork::new([1, 0, 0, 0, 0, 0])),
        ProofOfWork::zero()
    );
    assert_eq!(
        greatest.add_proof_of_work(greatest),
        ProofOfWork::new([0xffff_fffe, 0xffff_ffff, 0xffff_ffff, 0xffff_ffff, 0xffff_ffff, 0xffff_ffff])
    );
    // the sum of the big integers, modulo 2^192
    let modulus = BigUint::from(1u32) << 192usize;
    for (a, b) in [(p, q), (p, r), (greatest, greatest), (q, r)] {
        assert_eq!(
            a.add_proof_of_work(b).to_biguint(),
            (a.to_biguint() + b.to_biguint()) % &modulus
        );
    }
}

#[test]
fn work_is_a_monoid_under_its_sum() {
    let p = ProofOfWork::new([0xffff_ffff, 3, 0, 9, 0xffff_ffff, 0xffff_fff0]);
    let q = ProofOfWork::new([7, 0xffff_ffff, 0xffff_ffff, 0, 1, 0x10]);
    let r = ProofOfWork::new([0xffff_fff9, 0, 5, 0xffff_ffff, 0xffff_ffff, 0xffff_ffff]);
    assert_eq!(p.add_proof_of_work(ProofOfWork::zero()), p);
    assert_eq!(ProofOfWork::zero().add_proof_of_work(p), p);
    assert_eq!(p.add_proof_of_work(q), q.add_proof_of_work(p));
    assert_eq!(
        p.add_proof_of_work(q).add_proof_of_work(r),
        p.add_proof_of_work(q.add_proof_of_work(r))
    );
}

#[test]
fn limbs_are_added_as_far_as_they_count() {
    let p = ProofOfWork::new([0xffff_ffff, 0, 0, 0, 0, 0]);
    // fewer limbs than six: the others are zero
    assert_eq!(p.add_limbs(&[]), p);
    assert_eq!(p.add_limbs(&[1]), ProofOfWork::new([0, 1, 0, 0, 0, 0]));
    assert_eq!(p.add_limbs(&[1, 2, 3]), ProofOfWork::new([0, 3, 3, 0, 0, 0]));
    // a difficulty is five limbs
    let d = Difficulty::new([1, 2, 3, 4, 5]);
    assert_eq!(p.add(d), p.add_limbs(&[1, 2, 3, 4, 5]));
    assert_eq!(p.add(d), ProofOfWork::new([0, 3, 3, 4, 5, 0]));
    // more limbs than six: the first six count
    assert_eq!(
        p.add_limbs(&[1, 0, 0, 0, 0, 6, 7, 8]),
        ProofOfWork::new([0, 1, 0, 0, 0, 6])
    );
}

#[test]
fn after_genesis_any_target_interval_keeps_the_difficulty() {
    let old = Difficulty::new([1234, 5, 0, 0, 0]);
    for target in [None, Some(Timestamp::millis(0)), Some(Timestamp::millis(1))] {
        assert_eq!(
            difficulty_control(
                Timestamp::millis(5),
                Timestamp::millis(1_000_000),
                old,
                target,
                BlockHeight::genesis(),
            ),
            old
        );
    }
}
