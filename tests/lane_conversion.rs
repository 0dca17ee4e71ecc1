use keccak256::bignum::Big;
use keccak256::block_count::{BlockCountAccConfig, BlockCountFinalConfig};
use keccak256::conversion::{small_pow, ChunkRotateConversionConfig, ChunkTable, RotatingVariables};
use keccak256::lane::{rotation_constant, LaneRotateConversionConfig, LaneTrace, SpecialChunkConfig};
use keccak256::slicer::{get_step_size, is_at_rotation_offset, slice_lane};
use num_bigint::BigUint;

fn big(v: &BigUint) -> Big {
    Big { limbs: v.to_u32_digits() }
}

fn val(b: &Big) -> BigUint {
    BigUint::new(b.limbs.clone())
}

fn pow_big(base: u32, exp: u32) -> BigUint {
    BigUint::from(base).pow(exp)
}

/// A table that maps each base-13 digit to its parity, with a fixed block count.
fn parity_table(block_count: u32) -> ChunkTable {
    let mut entries = Vec::new();
    for v in 0u32..28561 {
        let mut x = v;
        let mut out = 0u32;
        let mut w = 1u32;
        for _ in 0..4 {
            out += (x % 13 % 2) * w;
            x /= 13;
            w *= 9;
        }
        entries.push((block_count, out));
    }
    ChunkTable { entries }
}

/// A base-13 lane whose digit `i` has parity `bit i` of `bits`, the bit at
/// position 0 being shared by digits 0 and 64.
fn lane_from_bits(bits: u64, seed: u32) -> BigUint {
    let mut digits = Vec::new();
    for i in 0..65u32 {
        let bit = if i == 64 { 0 } else { ((bits >> i) & 1) as u32 };
        let extra = ((i * 7 + seed) % 6) * 2;
        digits.push((bit + extra) as u8);
    }
    if digits[64] % 2 == 1 {
        digits[64] -= 1;
    }
    let mut v = BigUint::from(0u32);
    for d in digits.iter().rev() {
        v = v * 13u32 + BigUint::from(*d);
    }
    v
}

fn base9_of_bits(bits: u64) -> BigUint {
    let mut v = BigUint::from(0u32);
    for i in (0..64).rev() {
        v = v * 9u32 + BigUint::from((bits >> i) & 1);
    }
    v
}

fn run_lane(rotation: u32, lane: &BigUint, table: &ChunkTable) -> LaneTrace {
    let config = LaneRotateConversionConfig::with_rotation((0, 0), rotation);
    config.assign_region(&big(lane), table)
}

fn aligned(rotation: u32) -> bool {
    slice_lane(rotation).iter().any(|(end, _)| *end == 64 - rotation)
}

#[test]
fn slicer_default_schedule() {
    let s = slice_lane(0);
    let mut expected: Vec<(u32, u32)> = (1..16).map(|k| (4 * k + 1, 4)).collect();
    expected.push((64, 3));
    assert_eq!(s, expected);
}

#[test]
fn slicer_cuts_at_rotation_amount() {
    let s = slice_lane(36);
    assert!(s.contains(&(36, 3)));
    assert!(s.contains(&(40, 4)));
    assert_eq!(*s.last().unwrap(), (64, 4));
    assert_eq!(get_step_size(33, 36), 3);
    assert_eq!(get_step_size(61, 0), 3);
    assert_eq!(get_step_size(5, 36), 4);
    assert_eq!(get_step_size(62, 63), 1);
}

#[test]
fn slicer_partitions_every_rotation() {
    for r in 0..64u32 {
        let s = slice_lane(r);
        let mut start = 1u32;
        let mut total = 0u32;
        for (end, step) in s.iter() {
            assert!((1..=4).contains(step));
            assert_eq!(end - step, start);
            start = *end;
            total += step;
        }
        assert_eq!(start, 64);
        assert_eq!(total, 63);
    }
}

#[test]
fn rotation_offset_position() {
    assert!(is_at_rotation_offset(64, 0));
    assert!(is_at_rotation_offset(28, 36));
    assert!(!is_at_rotation_offset(36, 36));
}

#[test]
fn rotation_offset_hit_once_when_aligned() {
    for r in 0..64u32 {
        let hits = slice_lane(r).iter().filter(|(end, _)| is_at_rotation_offset(*end, r)).count();
        assert!(hits <= 1);
        if r % 2 == 0 && r <= 32 {
            assert_eq!(hits, 1);
        }
    }
    assert_eq!(slice_lane(1).iter().filter(|(end, _)| *end == 63).count(), 0);
}

#[test]
fn output_weight_restarts_after_offset() {
    let table = parity_table(0);
    let lane = lane_from_bits(0xdead_beef_0123_4567, 3);
    for r in [0u32, 2, 20, 32, 39] {
        let t = run_lane(r, &lane, &table);
        let s = slice_lane(r);
        for k in 0..s.len() - 1 {
            if s[k].0 == 64 - r {
                assert_eq!(val(&t.rows[k + 1].output.power_of_base), BigUint::from(1u32));
            }
        }
    }
}

#[test]
fn small_powers() {
    assert_eq!(small_pow(13, 4), 28561);
    assert_eq!(small_pow(9, 3), 729);
    assert_eq!(small_pow(13, 0), 1);
}

#[test]
fn rotation_constants_of_keccak() {
    assert_eq!(rotation_constant(0, 0), 0);
    assert_eq!(rotation_constant(0, 1), 36);
    assert_eq!(rotation_constant(1, 0), 1);
    assert_eq!(rotation_constant(4, 4), 14);
    let c = LaneRotateConversionConfig::configure((2, 1));
    assert_eq!(c.rotation, 6);
    assert_eq!(c.chunk_rotate_convert_configs.len(), slice_lane(6).len());
}

#[test]
fn block_count_routing_by_step() {
    let acc = (5u64, 7u64);
    assert_eq!(BlockCountAccConfig::configure(2).accumulate(3, acc), (8, 7));
    assert_eq!(BlockCountAccConfig::configure(3).accumulate(3, acc), (5, 10));
    assert_eq!(BlockCountAccConfig::configure(1).accumulate(3, acc), (5, 7));
    assert_eq!(BlockCountAccConfig::configure(4).accumulate(0, acc), (5, 7));
}

#[test]
fn uniform_block_count_totals() {
    for r in [0u32, 1, 3, 36, 62] {
        let k = 2u32;
        let table = parity_table(k);
        let t = run_lane(r, &lane_from_bits(0x0f0f, 1), &table);
        let s = slice_lane(r);
        let c2 = s.iter().filter(|(_, st)| *st == 2).count() as u64;
        let c3 = s.iter().filter(|(_, st)| *st == 3).count() as u64;
        assert_eq!(t.block_counts, (k as u64 * c2, k as u64 * c3));
    }
}

#[test]
fn final_gate_bounds() {
    let f = BlockCountFinalConfig::configure();
    assert!(f.lane_accepted(0, 0));
    assert!(f.lane_accepted(12, 169));
    assert!(!f.lane_accepted(13, 0));
    assert!(!f.lane_accepted(0, 170));
    let mut pairs = vec![(12u64, 169u64); 25];
    assert!(f.assign_region(&pairs));
    pairs[17] = (3, 170);
    assert!(!f.assign_region(&pairs));
    pairs[17] = (13, 3);
    assert!(!f.assign_region(&pairs));
}

#[test]
fn input_running_sum_reconstructs_lane() {
    let table = parity_table(0);
    for (r, seed) in [(0u32, 0u32), (36, 1), (63, 2), (14, 5)] {
        let lane = lane_from_bits(0x1234_5678_9abc_def0 ^ (seed as u64), seed);
        let t = run_lane(r, &lane, &table);
        let low = &lane % 13u32;
        let high = (&lane / pow_big(13, 64)) % 13u32;
        let mut sum = low.clone() + high * pow_big(13, 64);
        let mut acc = lane.clone();
        for row in t.rows.iter() {
            assert_eq!(val(&row.input.acc), acc);
            let term = val(&row.input.power_of_base) * BigUint::from(row.input.coef);
            acc -= &term;
            sum += term;
        }
        assert_eq!(sum, lane);
        assert_eq!(val(&t.special.base_13_acc), acc);
        assert_eq!(val(&t.special.base_13_acc_next), BigUint::from(0u32));
    }
}

#[test]
fn first_row_weights() {
    let table = parity_table(0);
    let lane = lane_from_bits(1, 0);
    let t = run_lane(5, &lane, &table);
    assert_eq!(val(&t.rows[0].input.power_of_base), BigUint::from(13u32));
    assert_eq!(val(&t.rows[0].output.power_of_base), pow_big(9, 6));
    assert_eq!(val(&t.rows[1].input.power_of_base), pow_big(13, 5));
    let t = run_lane(63, &lane, &table);
    assert_eq!(val(&t.rows[0].output.power_of_base), BigUint::from(1u32));
}

#[test]
fn special_chunk_adds_parity() {
    let c = SpecialChunkConfig::configure(10);
    let row = c.assign_region(3, 4, big(&BigUint::from(99u32)), big(&BigUint::from(7u32)));
    assert_eq!(row.last_b9_coef, 1);
    assert_eq!(val(&row.base_9_acc_next), BigUint::from(7u32) + pow_big(9, 10));
    assert_eq!(val(&row.base_13_acc), BigUint::from(99u32));
    let row = c.assign_region(3, 5, big(&BigUint::from(99u32)), big(&BigUint::from(7u32)));
    assert_eq!(row.last_b9_coef, 0);
    assert_eq!(val(&row.base_9_acc_next), BigUint::from(7u32));
}

#[test]
fn chunk_row_consumes_digits() {
    let table = parity_table(1);
    let lane = BigUint::from(13u32 * 13 * 13 * 13 * 5 + 2 * 13 * 13 + 3);
    let rv = RotatingVariables::from(&big(&lane), 0);
    let c = ChunkRotateConversionConfig::configure(4, false);
    let (next, row) = c.assign_region(rv, &table);
    assert_eq!(row.input.coef, 2 * 169 + 3);
    assert_eq!(row.output.coef, 1);
    assert_eq!(row.block_count, 1);
    assert_eq!(val(&next.input_raw), BigUint::from(5u32));
    assert_eq!(val(&next.input_acc), lane.clone() - BigUint::from(13u32 * (2 * 169 + 3)));
    assert_eq!(val(&next.output_acc), pow_big(9, 1));
    assert_eq!(val(&next.output_power_of_base), pow_big(9, 5));
    assert_eq!(next.block_count_acc, (0, 0));
}

#[test]
fn round_matches_bit_rotation() {
    let table = parity_table(0);
    let final_check = BlockCountFinalConfig::configure();
    let mut pairs = Vec::new();
    let mut checked = 0;
    for x in 0..5usize {
        for y in 0..5usize {
            let bits = 0x9e37_79b9_7f4a_7c15u64.wrapping_mul((5 * x + y + 1) as u64);
            let lane = lane_from_bits(bits, (5 * x + y) as u32);
            let config = LaneRotateConversionConfig::configure((x, y));
            let r = config.rotation;
            let t = config.assign_region(&big(&lane), &table);
            pairs.push(t.block_counts);
            if aligned(r) {
                assert_eq!(val(&t.special.base_9_acc_next), base9_of_bits(bits.rotate_left(r)));
                checked += 1;
            }
        }
    }
    assert_eq!(checked, 12);
    assert!(final_check.assign_region(&pairs));
}

#[test]
fn rotated_lane_for_every_aligned_rotation() {
    let table = parity_table(0);
    let bits = 0x8000_0000_0000_0001u64 ^ 0x5a5a_1234_0f0f_7e7eu64;
    let lane = lane_from_bits(bits, 4);
    for r in 0..64u32 {
        let expected_aligned = (r % 2 == 0 && r <= 32) || (r % 4 == 3 && (35..=59).contains(&r));
        assert_eq!(aligned(r), expected_aligned);
        let t = run_lane(r, &lane, &table);
        let rotated = val(&t.special.base_9_acc_next);
        if expected_aligned {
            assert_eq!(rotated, base9_of_bits(bits.rotate_left(r)));
        }
    }
    let t = run_lane(1, &lane, &table);
    assert_ne!(val(&t.special.base_9_acc_next), base9_of_bits(bits.rotate_left(1)));
}
