//! A whole lane: the digit-group rows in slicer order, then the special chunk
//! that joins the lane's two extreme digits.
use crate::bignum::{big_add, big_div_u32, big_from_u64, big_mul, big_pow, big_rem_u32, Big};
use crate::block_count::route;
use crate::conversion::{
    ChunkRotateConversionConfig,
    ChunkRow,
    ChunkTable,
    RotatingVariables,
    running_sum_holds,
    B13,
    B9,
};
use crate::slicer::{
    group_start,
    is_at_rotation_offset,
    lemma_slices_partition,
    rotation_offset,
    slice_lane,
    slices,
    LANE_SIZE,
};
use vstd::arithmetic::div_mod::{lemma_breakdown, lemma_div_denominator, lemma_fundamental_div_mod};
use vstd::arithmetic::power::{lemma_pow1, lemma_pow_adds, lemma_pow_positive, pow};
use vstd::prelude::*;

verus! {

/// The Keccak rotation amounts, row `x` after row `x - 1`.
pub open spec fn rotation_constants() -> Seq<u32> {
    seq![
        0u32, 36, 3, 41, 18,
        1, 44, 10, 45, 2,
        62, 6, 43, 15, 61,
        28, 55, 25, 21, 56,
        27, 20, 39, 8, 14,
    ]
}

/// The rotation amount of the lane at `(x, y)`.
pub fn rotation_constant(x: usize, y: usize) -> (r: u32)
    requires
        x < 5,
        y < 5,
    ensures
        r == rotation_constants()[5 * x + y],
        r < LANE_SIZE,
{
    let table: Vec<u32> = vec![
        0, 36, 3, 41, 18,
        1, 44, 10, 45, 2,
        62, 6, 43, 15, 61,
        28, 55, 25, 21, 56,
        27, 20, 39, 8, 14,
    ];
    proof {
        assert(table@ =~= rotation_constants());
    }
    table[5 * x + y]
}

/// Exponent of the output weight of the first group (position 1).
pub open spec fn initial_output_exp(rotation: nat) -> nat {
    if 1 == rotation_offset(rotation) {
        0
    } else {
        rotation + 1
    }
}

/// The base-13 value of the group `k` of a lane.
pub open spec fn input_coef(lane: nat, rotation: nat, k: int) -> int {
    let g = slices(rotation)[k];
    (lane as int / pow(13, group_start(g) as nat)) % pow(13, g.1 as nat)
}

/// Splitting `x` at digit `a` and then at `b` more digits.
pub proof fn lemma_digit_split(x: nat, base: nat, a: nat, b: nat)
    requires
        base > 0,
    ensures
        pow(base as int, a + b) == pow(base as int, a) * pow(base as int, b),
        pow(base as int, a) > 0,
        pow(base as int, b) > 0,
        x as int / pow(base as int, a + b) == (x as int / pow(base as int, a)) / pow(
            base as int,
            b,
        ),
        x as int % pow(base as int, a + b) == pow(base as int, a) * ((x as int / pow(
            base as int,
            a,
        )) % pow(base as int, b)) + x as int % pow(base as int, a),
{
    lemma_pow_adds(base as int, a, b);
    lemma_pow_positive(base as int, a);
    lemma_pow_positive(base as int, b);
    lemma_div_denominator(x as int, pow(base as int, a), pow(base as int, b));
    lemma_breakdown(x as int, pow(base as int, a), pow(base as int, b));
}

/// The input side of the state before the group that starts at digit `idx`:
/// the digits from `idx` on remain, at weight `13^idx`, and the accumulator
/// holds the lane without digits `1..idx`.
pub open spec fn input_state(lane: nat, idx: nat, raw: nat, power: nat, acc: nat) -> bool {
    &&& raw == lane as int / pow(13, idx)
    &&& power == pow(13, idx)
    &&& acc == lane - lane as int % pow(13, idx) + lane % 13
}

/// The digits still to come, at their weight, fit in the input accumulator.
pub proof fn lemma_input_state_wf(lane: nat, idx: nat, raw: nat, power: nat, acc: nat)
    requires
        input_state(lane, idx, raw, power, acc),
    ensures
        power * raw <= acc,
{
    lemma_pow_positive(13, idx);
    lemma_fundamental_div_mod(lane as int, pow(13, idx));
    vstd::arithmetic::mul::lemma_mul_is_commutative(power as int, raw as int);
}

/// Consuming the next `step` digits moves the input state from `idx` to
/// `idx + step`.
pub proof fn lemma_input_state_step(
    lane: nat,
    idx: nat,
    step: nat,
    raw: nat,
    power: nat,
    acc: nat,
    coef: nat,
)
    requires
        input_state(lane, idx, raw, power, acc),
        coef == raw as int % pow(13, step),
    ensures
        coef == (lane as int / pow(13, idx)) % pow(13, step),
        power * coef <= acc,
        input_state(
            lane,
            idx + step,
            (raw as int / pow(13, step)) as nat,
            power * pow(13, step) as nat,
            (acc - power * coef) as nat,
        ),
{
    lemma_digit_split(lane, 13, idx, step);
    lemma_fundamental_div_mod(lane as int, pow(13, idx));
    lemma_fundamental_div_mod(raw as int, pow(13, step));
    let q = raw as int / pow(13, step);
    let p = pow(13, step);
    assert(power * raw == (power * p) * q + power * coef && (power * p) * q >= 0)
        by (nonlinear_arith)
        requires
            raw == p * q + coef,
            p > 0,
            q >= 0,
            power >= 0,
    ;
}

/// One row and the values on the row after it, as the gates of the row require:
/// the input runs down, the output runs up with its weight starting again from
/// 1 after the rotation offset, and the block count goes to its total.
pub open spec fn chunk_link(
    g: (u32, u32),
    rotation: nat,
    cur: ChunkRow,
    next_input_power: nat,
    next_input_acc: nat,
    next_output_power: nat,
    next_output_acc: nat,
    next_block_count_acc: (u64, u64),
) -> bool {
    &&& running_sum_holds(
        true,
        13,
        g.1 as nat,
        cur.input.coef as int,
        cur.input.power_of_base@ as int,
        cur.input.acc@ as int,
        next_input_power as int,
        next_input_acc as int,
    )
    &&& next_output_acc == cur.output.acc@ + cur.output.power_of_base@ * cur.output.coef
    &&& next_output_power == if g.0 == rotation_offset(rotation) {
        1
    } else {
        cur.output.power_of_base@ * pow(9, g.1 as nat)
    }
    &&& (next_block_count_acc.0 as nat, next_block_count_acc.1 as nat) == route(
        g.1 as nat,
        cur.block_count as nat,
        (cur.block_count_acc.0 as nat, cur.block_count_acc.1 as nat),
    )
}

/// Row `k` and row `k + 1` of a lane obey the gates of row `k`.
pub open spec fn rows_linked(rotation: nat, rows: Seq<ChunkRow>, k: int) -> bool {
    chunk_link(
        slices(rotation)[k],
        rotation,
        rows[k],
        rows[k + 1].input.power_of_base@,
        rows[k + 1].input.acc@,
        rows[k + 1].output.power_of_base@,
        rows[k + 1].output.acc@,
        rows[k + 1].block_count_acc,
    )
}

/// Row `k` of a lane holds the `k`-th group of the lane at its weight, and the
/// table's entry for it.
pub open spec fn row_looked_up(
    lane: nat,
    rotation: nat,
    table: Seq<(u32, u32)>,
    row: ChunkRow,
    k: int,
) -> bool {
    &&& row.input.coef == input_coef(lane, rotation, k)
    &&& row.input.power_of_base@ == pow(13, group_start(slices(rotation)[k]) as nat)
    &&& (row.block_count, row.output.coef) == table[row.input.coef as int]
}

/// The first row of a lane.
pub open spec fn first_row(lane: nat, rotation: nat, row: ChunkRow) -> bool {
    &&& row.input.acc@ == lane
    &&& row.output.acc@ == 0
    &&& row.output.power_of_base@ == pow(9, initial_output_exp(rotation))
    &&& row.block_count_acc == (0u64, 0u64)
}

/// The rows of the special chunk.
pub struct SpecialChunkRow {
    pub base_13_acc: Big,
    pub base_13_acc_next: Big,
    pub base_9_acc: Big,
    pub last_b9_coef: u32,
    pub base_9_acc_next: Big,
}

/// The handler of the lane's last irregular digit.
pub struct SpecialChunkConfig {
    pub rotation: u32,
}

impl SpecialChunkConfig {
    pub fn configure(rotation: u32) -> (r: Self)
        requires
            rotation < LANE_SIZE,
        ensures
            r.rotation == rotation,
    {
        SpecialChunkConfig { rotation }
    }

    /// Close the lane: the base-13 accumulator goes to zero, and the parity of
    /// the two extreme digits is added at weight `9^rotation`.
    pub fn assign_region(
        &self,
        low_value: u32,
        high_value: u32,
        base_13_acc: Big,
        base_9_acc: Big,
    ) -> (r: SpecialChunkRow)
        requires
            low_value < 13,
            high_value < 13,
        ensures
            r.base_13_acc@ == base_13_acc@,
            r.base_13_acc_next@ == 0,
            r.base_9_acc@ == base_9_acc@,
            r.last_b9_coef == (low_value + high_value) % 2,
            r.base_9_acc_next@ - r.base_9_acc@ == r.last_b9_coef * pow(9, self.rotation as nat),
    {
        let last_pow_of_9 = big_pow(B9, self.rotation);
        let last_b9_coef = (high_value + low_value) % 2;
        let coef_big = big_from_u64(last_b9_coef as u64);
        let added = big_mul(&coef_big, &last_pow_of_9);
        let base_9_acc_next = big_add(&base_9_acc, &added);
        SpecialChunkRow {
            base_13_acc,
            base_13_acc_next: big_from_u64(0),
            base_9_acc,
            last_b9_coef,
            base_9_acc_next,
        }
    }
}

impl RotatingVariables {
    /// The state before the first group: the whole lane still to consume, at
    /// weight 13, and the output weight of position 1.
    pub fn from(lane_base_13: &Big, rotation: u32) -> (r: Self)
        requires
            rotation < LANE_SIZE,
        ensures
            r.input_raw@ == lane_base_13@,
            r.input_power_of_base@ == 13,
            r.input_acc@ == lane_base_13@,
            r.output_power_of_base@ == pow(9, initial_output_exp(rotation as nat)),
            r.output_acc@ == 0,
            r.block_count_acc == (0u64, 0u64),
    {
        let chunk_idx: u32 = 1;
        let output_power_of_base = if is_at_rotation_offset(chunk_idx, rotation) {
            proof {
                vstd::arithmetic::power::lemma_pow0(9);
            }
            big_from_u64(1)
        } else {
            big_pow(B9, rotation + chunk_idx)
        };
        RotatingVariables {
            input_raw: lane_base_13.duplicate(),
            input_power_of_base: big_from_u64(B13 as u64),
            input_acc: lane_base_13.duplicate(),
            output_power_of_base,
            output_acc: big_from_u64(0),
            block_count_acc: (0, 0),
        }
    }
}

/// The witness of one lane: a row per digit group, the special chunk, and the
/// final block-count totals.
pub struct LaneTrace {
    pub rows: Vec<ChunkRow>,
    /// The input and output weights after the last group.
    pub final_input_power_of_base: Big,
    pub final_output_power_of_base: Big,
    pub special: SpecialChunkRow,
    pub block_counts: (u64, u64),
}

/// A lane's witness as the gates and lookups ask for it: the first row holds
/// the lane, each row holds its group and the table's entry for it, each row
/// and the next obey the row's gates, and the special chunk closes the lane.
pub open spec fn lane_trace_valid(
    lane: nat,
    rotation: nat,
    table: Seq<(u32, u32)>,
    t: LaneTrace,
) -> bool {
    let r = rotation;
    let s = slices(r);
    let n = s.len() as int;
    let rows = t.rows@;
    &&& rows.len() == n
    &&& first_row(lane, r, rows[0])
    &&& forall|k: int| 0 <= k < n ==> row_looked_up(lane, r, table, #[trigger] rows[k], k)
    &&& forall|k: int| 0 <= k < n - 1 ==> #[trigger] rows_linked(r, rows, k)
    &&& chunk_link(
        s[n - 1],
        r,
        rows[n - 1],
        t.final_input_power_of_base@,
        t.special.base_13_acc@,
        t.final_output_power_of_base@,
        t.special.base_9_acc@,
        t.block_counts,
    )
    &&& t.special.base_13_acc@ == lane % 13 + pow(13, 64) * (lane as int / pow(13, 64))
    &&& t.special.base_13_acc_next@ == 0
    &&& t.special.last_b9_coef == (lane % 13 + (lane as int / pow(13, 64)) % 13) % 2
    &&& t.special.base_9_acc_next@ - t.special.base_9_acc@ == t.special.last_b9_coef * pow(9, r)
}

/// The conversion of one lane.
pub struct LaneRotateConversionConfig {
    pub chunk_rotate_convert_configs: Vec<ChunkRotateConversionConfig>,
    pub special_chunk_config: SpecialChunkConfig,
    pub lane_xy: (usize, usize),
    pub rotation: u32,
}

impl LaneRotateConversionConfig {
    pub open spec fn wf(&self) -> bool {
        let s = slices(self.rotation as nat);
        &&& self.rotation < 64
        &&& self.special_chunk_config.rotation == self.rotation
        &&& self.chunk_rotate_convert_configs@.len() == s.len()
        &&& forall|k: int|
            0 <= k < s.len() ==> (#[trigger] self.chunk_rotate_convert_configs@[k]).step == s[k].1
                && self.chunk_rotate_convert_configs@[k].is_at_rotation_offset == (s[k].0
                == rotation_offset(self.rotation as nat))
    }

    /// The conversion of the lane at `lane_xy`, with that lane's rotation amount.
    pub fn configure(lane_xy: (usize, usize)) -> (r: Self)
        requires
            lane_xy.0 < 5,
            lane_xy.1 < 5,
        ensures
            r.wf(),
            r.lane_xy == lane_xy,
            r.rotation == rotation_constants()[5 * lane_xy.0 + lane_xy.1],
    {
        let rotation = rotation_constant(lane_xy.0, lane_xy.1);
        Self::with_rotation(lane_xy, rotation)
    }

    /// The conversion of a lane rotated by `rotation`: one group configuration per
    /// slice, in slicer order.
    pub fn with_rotation(lane_xy: (usize, usize), rotation: u32) -> (r: Self)
        requires
            rotation < LANE_SIZE,
        ensures
            r.wf(),
            r.lane_xy == lane_xy,
            r.rotation == rotation,
    {
        let slices_v = slice_lane(rotation);
        proof {
            lemma_slices_partition(rotation as nat);
        }
        let mut configs: Vec<ChunkRotateConversionConfig> = Vec::new();
        let mut i: usize = 0;
        while i < slices_v.len()
            invariant
                slices_v@ == slices(rotation as nat),
                rotation < 64,
                i <= slices_v@.len(),
                configs@.len() == i,
                forall|k: int| 0 <= k < slices_v@.len() ==> 1 <= #[trigger] slices_v@[k].1 <= 4,
                forall|k: int|
                    0 <= k < i ==> (#[trigger] configs@[k]).step == slices_v@[k].1
                        && configs@[k].is_at_rotation_offset == (slices_v@[k].0
                        == rotation_offset(rotation as nat)),
            decreases slices_v@.len() - i,
        {
            let (chunk_idx, step) = slices_v[i];
            let at_offset = is_at_rotation_offset(chunk_idx, rotation);
            configs.push(ChunkRotateConversionConfig::configure(step, at_offset));
            i += 1;
        }
        LaneRotateConversionConfig {
            chunk_rotate_convert_configs: configs,
            special_chunk_config: SpecialChunkConfig::configure(rotation),
            lane_xy,
            rotation,
        }
    }

    /// The witness of one lane: the lane value is consumed group by group in
    /// slicer order, then closed by the special chunk.
    #[verifier::rlimit(100)]
    pub fn assign_region(&self, lane_base_13: &Big, table: &ChunkTable) -> (t: LaneTrace)
        requires
            self.wf(),
            table.wf(),
        ensures
            lane_trace_valid(lane_base_13@, self.rotation as nat, table.entries@, t),
    {
        let ghost lane = lane_base_13@;
        let ghost r = self.rotation as nat;
        let ghost s = slices(r);
        let ghost n = s.len() as int;
        proof {
            lemma_slices_partition(r);
            lemma_pow1(13);
            lemma_fundamental_div_mod(lane as int, 13);
        }
        let mut rv = RotatingVariables::from(lane_base_13, self.rotation);
        let low_value = big_rem_u32(&rv.input_raw, B13);
        rv.input_raw = big_div_u32(&rv.input_raw, B13);
        proof {
            assert(input_state(lane, 1, rv.input_raw@, rv.input_power_of_base@, rv.input_acc@));
        }
        let mut rows: Vec<ChunkRow> = Vec::new();
        let mut k: usize = 0;
        while k < self.chunk_rotate_convert_configs.len()
            invariant
                self.wf(),
                table.wf(),
                lane == lane_base_13@,
                r == self.rotation,
                s == slices(r),
                n == s.len(),
                0 < n <= 63,
                group_start(s[0]) == 1,
                forall|j: int| 0 <= j < n ==> 1 <= #[trigger] s[j].1 <= 4,
                forall|j: int| 0 < j < n ==> group_start(#[trigger] s[j]) == s[j - 1].0,
                low_value == lane % 13,
                k <= n,
                rows@.len() == k,
                input_state(
                    lane,
                    if k == 0 {
                        1
                    } else {
                        s[k - 1].0 as nat
                    },
                    rv.input_raw@,
                    rv.input_power_of_base@,
                    rv.input_acc@,
                ),
                rv.block_count_acc.0 <= k * 0xffff_ffffu64,
                rv.block_count_acc.1 <= k * 0xffff_ffffu64,
                k == 0 ==> rv.output_acc@ == 0 && rv.output_power_of_base@ == pow(
                    9,
                    initial_output_exp(r),
                ) && rv.block_count_acc == (0u64, 0u64),
                k > 0 ==> first_row(lane, r, rows@[0]),
                k > 0 ==> chunk_link(
                    s[k - 1],
                    r,
                    rows@[k - 1],
                    rv.input_power_of_base@,
                    rv.input_acc@,
                    rv.output_power_of_base@,
                    rv.output_acc@,
                    rv.block_count_acc,
                ),
                forall|j: int|
                    0 <= j < k ==> row_looked_up(lane, r, table.entries@, #[trigger] rows@[j], j),
                forall|j: int| 0 <= j < k - 1 ==> #[trigger] rows_linked(r, rows@, j),
            decreases n - k,
        {
            let ghost idx: nat = if k == 0 {
                1
            } else {
                s[k - 1].0 as nat
            };
            let ghost old_rows = rows@;
            let ghost old_rv = rv;
            let ghost st = s[k as int].1 as nat;
            proof {
                assert(group_start(s[k as int]) == idx);
                lemma_pow_positive(13, st);
                lemma_input_state_wf(
                    lane,
                    idx,
                    rv.input_raw@,
                    rv.input_power_of_base@,
                    rv.input_acc@,
                );
            }
            let config = &self.chunk_rotate_convert_configs[k];
            let (next, row) = config.assign_region(rv, table);
            proof {
                lemma_input_state_step(
                    lane,
                    idx,
                    st,
                    old_rv.input_raw@,
                    old_rv.input_power_of_base@,
                    old_rv.input_acc@,
                    row.input.coef as nat,
                );
            }
            rv = next;
            rows.push(row);
            proof {
                assert(rows@[k as int] == row);
                if k == 0 {
                    lemma_pow1(13);
                    assert(rows@[0] == row);
                }
                assert forall|j: int| 0 <= j < k implies rows@[j] == old_rows[j] by {}
                assert forall|j: int| 0 <= j < k as int implies #[trigger] rows_linked(r, rows@, j) by {
                    if j < k - 1 {
                        assert(rows_linked(r, old_rows, j));
                    }
                }
            }
            k += 1;
        }
        proof {
            lemma_pow_positive(13, 64);
            lemma_fundamental_div_mod(lane as int, pow(13, 64));
        }
        let high_value = big_rem_u32(&rv.input_raw, B13);
        let special = self.special_chunk_config.assign_region(
            low_value,
            high_value,
            rv.input_acc,
            rv.output_acc,
        );
        LaneTrace {
            rows,
            final_input_power_of_base: rv.input_power_of_base,
            final_output_power_of_base: rv.output_power_of_base,
            special,
            block_counts: rv.block_count_acc,
        }
    }
}

} // verus!
