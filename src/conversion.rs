//! One row per digit group: the base-13 digits of a lane are consumed, looked up,
//! and produced again as base-9 digits at their rotated weights.
use crate::bignum::{big_add, big_div_u32, big_from_u64, big_mul, big_rem_u32, big_sub, Big};
use crate::block_count::{route, BlockCountAccConfig};
use vstd::arithmetic::power::pow;
use vstd::prelude::*;

verus! {

/// Radix of the input digits.
pub const B13: u32 = 13;

/// Radix of the output digits.
pub const B9: u32 = 9;

/// Number of entries of the base-13 to base-9 table: every group of four
/// base-13 digits.
pub const CHUNK_TABLE_SIZE: usize = 28561;

/// `b^e` is `b` times `b^(e - 1)`.
pub proof fn lemma_pow_unfold(b: int, e: nat)
    requires
        e > 0,
    ensures
        pow(b, e) == b * pow(b, (e - 1) as nat),
{
    reveal(pow);
}

/// `base` raised to `exp`, for the small powers of a group.
pub fn small_pow(base: u32, exp: u32) -> (r: u32)
    requires
        1 <= base <= 13,
        exp <= 4,
    ensures
        r == pow(base as int, exp as nat),
        0 < r <= 28561,
{
    let mut r: u32 = 1;
    let mut i: u32 = 0;
    proof {
        reveal(pow);
    }
    while i < exp
        invariant
            i <= exp <= 4,
            1 <= base <= 13,
            r == pow(base as int, i as nat),
            0 < r,
            i == 0 ==> r <= 1,
            i == 1 ==> r <= 13,
            i == 2 ==> r <= 169,
            i == 3 ==> r <= 2197,
            i == 4 ==> r <= 28561,
        decreases exp - i,
    {
        proof {
            lemma_pow_unfold(base as int, (i + 1) as nat);
            assert(r * base == base * r) by (nonlinear_arith);
            assert(0 < r * base <= 13 * r) by (nonlinear_arith)
                requires
                    1 <= base <= 13,
                    0 < r,
            ;
        }
        r = r * base;
        i += 1;
    }
    r
}

/// The base-13 to base-9 digit table: for each group value, its block count and
/// its base-9 coefficient.
pub struct ChunkTable {
    pub entries: Vec<(u32, u32)>,
}

impl ChunkTable {
    pub open spec fn wf(&self) -> bool {
        self.entries@.len() == CHUNK_TABLE_SIZE
    }

    /// The block count and the base-9 coefficient of a group value.
    pub fn get_block_count_and_output_coef(&self, input_coef: u32) -> (r: (u32, u32))
        requires
            input_coef < self.entries@.len(),
        ensures
            r == self.entries@[input_coef as int],
    {
        self.entries[input_coef as usize]
    }
}

/// The three cells of a running-sum gate on one row.
pub struct RunningSumRow {
    pub coef: u32,
    pub power_of_base: Big,
    pub acc: Big,
}

/// The running-sum gate between a row and the next: the accumulator runs down
/// (input) or up (output) by `coef * power_of_base`, and the weight grows by
/// `base^step`.
pub open spec fn running_sum_holds(
    is_input: bool,
    base: nat,
    step: nat,
    coef: int,
    power_of_base: int,
    acc: int,
    next_power_of_base: int,
    next_acc: int,
) -> bool {
    &&& is_input ==> acc - next_acc == power_of_base * coef
    &&& !is_input ==> next_acc - acc == power_of_base * coef
    &&& next_power_of_base == power_of_base * pow(base as int, step)
}

/// One row of a lane's conversion.
pub struct ChunkRow {
    pub input: RunningSumRow,
    pub output: RunningSumRow,
    pub block_count: u32,
    /// The two block-count totals before this row's group.
    pub block_count_acc: (u64, u64),
}

/// The per-lane state carried from row to row.
pub struct RotatingVariables {
    pub input_raw: Big,
    pub input_power_of_base: Big,
    pub input_acc: Big,
    pub output_power_of_base: Big,
    pub output_acc: Big,
    pub block_count_acc: (u64, u64),
}

impl RotatingVariables {
    /// The input digits still to come, at their weight, fit in the input accumulator.
    pub open spec fn wf(&self) -> bool {
        self.input_power_of_base@ * self.input_raw@ <= self.input_acc@
    }
}

/// The conversion of one digit group of width `step`.
pub struct ChunkRotateConversionConfig {
    pub step: u32,
    pub is_at_rotation_offset: bool,
}

impl ChunkRotateConversionConfig {
    pub fn configure(step: u32, is_at_rotation_offset: bool) -> (r: Self)
        requires
            1 <= step <= 4,
        ensures
            r.step == step,
            r.is_at_rotation_offset == is_at_rotation_offset,
    {
        ChunkRotateConversionConfig { step, is_at_rotation_offset }
    }

    /// Consume the low `step` base-13 digits of the remaining input, look them up,
    /// and produce the row and the state that follows it.
    pub fn assign_region(&self, rv: RotatingVariables, table: &ChunkTable) -> (r: (
        RotatingVariables,
        ChunkRow,
    ))
        requires
            1 <= self.step <= 4,
            table.wf(),
            rv.wf(),
            rv.block_count_acc.0 <= u64::MAX - u32::MAX,
            rv.block_count_acc.1 <= u64::MAX - u32::MAX,
        ensures
            ({
                let (next, row) = r;
                let in_step = pow(13, self.step as nat);
                let out_step = pow(9, self.step as nat);
                &&& row.input.coef == (rv.input_raw@ as int) % in_step
                &&& row.input.power_of_base@ == rv.input_power_of_base@
                &&& row.input.acc@ == rv.input_acc@
                &&& next.input_raw@ == (rv.input_raw@ as int) / in_step
                &&& next.input_power_of_base@ == rv.input_power_of_base@ * in_step
                &&& next.input_acc@ == rv.input_acc@ - rv.input_power_of_base@ * row.input.coef
                &&& (row.block_count, row.output.coef) == table.entries@[row.input.coef as int]
                &&& row.output.power_of_base@ == rv.output_power_of_base@
                &&& row.output.acc@ == rv.output_acc@
                &&& next.output_acc@ == rv.output_acc@ + rv.output_power_of_base@
                    * row.output.coef
                &&& next.output_power_of_base@ == if self.is_at_rotation_offset {
                    1
                } else {
                    rv.output_power_of_base@ * out_step
                }
                &&& row.block_count_acc == rv.block_count_acc
                &&& (next.block_count_acc.0 as nat, next.block_count_acc.1 as nat) == route(
                    self.step as nat,
                    row.block_count as nat,
                    (rv.block_count_acc.0 as nat, rv.block_count_acc.1 as nat),
                )
                &&& next.wf()
            }),
    {
        let input_base_to_step = small_pow(B13, self.step);
        let input_coef = big_rem_u32(&rv.input_raw, input_base_to_step);
        let coef_big = big_from_u64(input_coef as u64);
        let consumed = big_mul(&rv.input_power_of_base, &coef_big);
        proof {
            let p = rv.input_power_of_base@;
            let x = rv.input_raw@;
            let d = input_base_to_step as nat;
            vstd::arithmetic::div_mod::lemma_fundamental_div_mod(x as int, d as int);
            let q = x / d;
            let m = x % d;
            assert(p * x == (p * d) * q + p * m && (p * d) * q >= 0) by (nonlinear_arith)
                requires
                    x == d * q + m,
                    d > 0,
                    q >= 0,
                    p >= 0,
            ;
        }
        let input_acc = big_sub(&rv.input_acc, &consumed);
        let input_raw = big_div_u32(&rv.input_raw, input_base_to_step);
        let step_big = big_from_u64(input_base_to_step as u64);
        let input_power_of_base = big_mul(&rv.input_power_of_base, &step_big);

        let (block_count, output_coef) = table.get_block_count_and_output_coef(input_coef);

        let output_base_to_step = small_pow(B9, self.step);
        let output_coef_big = big_from_u64(output_coef as u64);
        let produced = big_mul(&rv.output_power_of_base, &output_coef_big);
        let output_acc = big_add(&rv.output_acc, &produced);
        let output_power_of_base = if self.is_at_rotation_offset {
            big_from_u64(1)
        } else {
            let out_step_big = big_from_u64(output_base_to_step as u64);
            big_mul(&rv.output_power_of_base, &out_step_big)
        };

        let block_count_acc = BlockCountAccConfig::configure(self.step).accumulate(
            block_count,
            rv.block_count_acc,
        );
        let row = ChunkRow {
            input: RunningSumRow {
                coef: input_coef,
                power_of_base: rv.input_power_of_base,
                acc: rv.input_acc,
            },
            output: RunningSumRow {
                coef: output_coef,
                power_of_base: rv.output_power_of_base,
                acc: rv.output_acc,
            },
            block_count,
            block_count_acc: rv.block_count_acc,
        };
        let next = RotatingVariables {
            input_raw,
            input_power_of_base,
            input_acc,
            output_power_of_base,
            output_acc,
            block_count_acc,
        };
        (next, row)
    }
}

} // verus!
