//! The output side of a lane: with the parity table, the base-9 value that a
//! lane's rows build is the lane's bits rotated by the rotation amount.
use crate::conversion::{ChunkRow, CHUNK_TABLE_SIZE};
use crate::lane::{
    first_row,
    lane_trace_valid,
    row_looked_up,
    rows_linked,
    LaneTrace,
};
use crate::laws::{lemma_ends_increase, lemma_rotation_offset_exactly_once};
use crate::slicer::{group_start, lemma_slices_from, lemma_slices_partition, rotation_offset, slices};
use vstd::arithmetic::div_mod::{
    lemma_basic_div,
    lemma_breakdown,
    lemma_div_denominator,
    lemma_div_pos_is_pos,
    lemma_fundamental_div_mod_converse,
    lemma_mod_bound,
    lemma_mod_mod,
};
use vstd::arithmetic::power::{
    lemma_pow0,
    lemma_pow1,
    lemma_pow_adds,
    lemma_pow_increases,
    lemma_pow_positive,
    pow,
};
use vstd::prelude::*;

verus! {

/// Base-13 digit `p` of `x`.
pub open spec fn digit(x: nat, p: nat) -> int {
    (x as int / pow(13, p)) % 13
}

/// Bit `p` of the boolean lane that a base-13 lane stands for: the parity of
/// digit `p`, where position 0 joins digits 0 and 64.
pub open spec fn lane_bit(lane: nat, p: nat) -> int {
    if p == 0 {
        (digit(lane, 0) + digit(lane, 64)) % 2
    } else {
        digit(lane, p) % 2
    }
}

/// Where bit `p` lands once rotated by `rotation`.
pub open spec fn rotated_pos(p: nat, rotation: nat) -> nat {
    (p + rotation) % 64
}

/// The bits `lo..hi` of a lane, each as a base-9 digit at its rotated place.
pub open spec fn rotated_sum(lane: nat, rotation: nat, lo: nat, hi: nat) -> int
    decreases hi - lo,
{
    if lo >= hi {
        0
    } else {
        lane_bit(lane, lo) * pow(9, rotated_pos(lo, rotation)) + rotated_sum(
            lane,
            rotation,
            lo + 1,
            hi,
        )
    }
}

/// The parity of each of the four base-13 digits of `v`, as base-9 digits.
pub open spec fn parity_coef(v: int) -> int {
    v % 13 % 2 + 9 * ((v / 13) % 13 % 2) + 81 * ((v / 169) % 13 % 2) + 729 * ((v / 2197) % 13
        % 2)
}

/// The table maps every group to the parity of its digits.
#[verifier::opaque]
pub open spec fn is_parity_table(table: Seq<(u32, u32)>) -> bool {
    &&& table.len() == CHUNK_TABLE_SIZE
    &&& forall|v: int| 0 <= v < CHUNK_TABLE_SIZE ==> #[trigger] table[v].1 == parity_coef(v)
}

/// No group of the schedule runs across the rotation offset.
#[verifier::opaque]
pub open spec fn offset_aligned(rotation: nat) -> bool {
    forall|k: int|
        0 <= k < slices(rotation).len() ==> !(group_start(#[trigger] slices(rotation)[k])
            < rotation_offset(rotation) < slices(rotation)[k].0)
}

proof fn lemma_pow_values()
    ensures
        pow(13, 0) == 1,
        pow(13, 1) == 13,
        pow(13, 2) == 169,
        pow(13, 3) == 2197,
        pow(13, 4) == 28561,
        pow(9, 0) == 1,
        pow(9, 1) == 9,
        pow(9, 2) == 81,
        pow(9, 3) == 729,
{
    reveal_with_fuel(pow, 5);
}

/// Digit `i` of the group value that starts at digit `s` and holds `st` digits.
proof fn lemma_chunk_digit(x: nat, s: nat, st: nat, i: nat)
    requires
        st <= 4,
    ensures
        i < st ==> ((x as int / pow(13, s)) % pow(13, st) / pow(13, i)) % 13 == digit(x, s + i),
        i >= st ==> ((x as int / pow(13, s)) % pow(13, st) / pow(13, i)) == 0,
{
    lemma_pow_positive(13, s);
    lemma_pow_positive(13, st);
    lemma_pow_positive(13, i);
    lemma_div_pos_is_pos(x as int, pow(13, s));
    let y = x as int / pow(13, s);
    let a = pow(13, i);
    if i < st {
        let b = pow(13, (st - i) as nat);
        lemma_pow_positive(13, (st - i) as nat);
        lemma_pow_adds(13, i, (st - i) as nat);
        assert(pow(13, st) == a * b);
        lemma_breakdown(y, a, b);
        lemma_div_pos_is_pos(y, a);
        lemma_mod_bound(y, a);
        lemma_mod_bound(y / a, b);
        assert((y % (a * b)) == ((y / a) % b) * a + y % a) by (nonlinear_arith)
            requires
                (y % (a * b)) == a * ((y / a) % b) + y % a,
        ;
        lemma_fundamental_div_mod_converse(y % (a * b), a, (y / a) % b, y % a);
        let c = pow(13, (st - i - 1) as nat);
        lemma_pow_positive(13, (st - i - 1) as nat);
        lemma_pow_adds(13, 1, (st - i - 1) as nat);
        lemma_pow1(13);
        assert(b == 13 * c);
        lemma_mod_mod(y / a, 13, c);
        lemma_div_denominator(x as int, pow(13, s), a);
        lemma_pow_adds(13, s, i);
    } else {
        lemma_pow_increases(13, st, i);
        lemma_mod_bound(y, pow(13, st));
        lemma_basic_div(y % pow(13, st), a);
    }
}

/// Bit `s + i` of a group that stays on one side of the rotation offset lands
/// `i` places after bit `s`.
proof fn lemma_bit_place(lane: nat, rotation: nat, s: nat, st: nat, i: nat)
    requires
        rotation < 64,
        1 <= s,
        i < st,
        s + st <= 64,
        s + st <= rotation_offset(rotation) || s >= rotation_offset(rotation),
    ensures
        rotated_pos(s + i, rotation) == rotated_pos(s, rotation) + i,
        pow(9, rotated_pos(s + i, rotation)) == pow(9, rotated_pos(s, rotation)) * pow(9, i),
        lane_bit(lane, s + i) == digit(lane, s + i) % 2,
{
    lemma_pow_adds(9, rotated_pos(s, rotation), i);
}

/// The table's value of a group, at the weight of the group's first digit,
/// places each of its bits at its rotated position.
proof fn lemma_group_output(lane: nat, rotation: nat, s: nat, st: nat)
    requires
        rotation < 64,
        1 <= s,
        1 <= st <= 4,
        s + st <= 64,
        s + st <= rotation_offset(rotation) || s >= rotation_offset(rotation),
    ensures
        pow(9, rotated_pos(s, rotation)) * parity_coef(
            (lane as int / pow(13, s)) % pow(13, st),
        ) == rotated_sum(lane, rotation, s, s + st),
{
    lemma_pow_values();
    let v = (lane as int / pow(13, s)) % pow(13, st);
    let q = rotated_pos(s, rotation);
    let pq = pow(9, q);
    lemma_pow_positive(9, q);
    lemma_chunk_digit(lane, s, st, 0);
    lemma_chunk_digit(lane, s, st, 1);
    lemma_chunk_digit(lane, s, st, 2);
    lemma_chunk_digit(lane, s, st, 3);
    let b0 = v % 13 % 2;
    let b1 = (v / 13) % 13 % 2;
    let b2 = (v / 169) % 13 % 2;
    let b3 = (v / 2197) % 13 % 2;
    assert(parity_coef(v) == b0 + 9 * b1 + 81 * b2 + 729 * b3);
    lemma_bit_place(lane, rotation, s, st, 0);
    if st > 1 {
        lemma_bit_place(lane, rotation, s, st, 1);
    }
    if st > 2 {
        lemma_bit_place(lane, rotation, s, st, 2);
    }
    if st > 3 {
        lemma_bit_place(lane, rotation, s, st, 3);
    }
    let t0 = lane_bit(lane, s) * pow(9, rotated_pos(s, rotation));
    assert(rotated_sum(lane, rotation, s, s + st) == t0 + rotated_sum(lane, rotation, s + 1, s + st));
    assert(b0 == digit(lane, s) % 2);
    if st == 1 {
        assert(b1 == 0 && b2 == 0 && b3 == 0);
        assert(pq * (b0 + 9 * b1 + 81 * b2 + 729 * b3) == b0 * pq) by (nonlinear_arith)
            requires
                b1 == 0 && b2 == 0 && b3 == 0,
        ;
    } else {
        let t1 = lane_bit(lane, s + 1) * pow(9, rotated_pos(s + 1, rotation));
        assert(rotated_sum(lane, rotation, s + 1, s + st) == t1 + rotated_sum(
            lane,
            rotation,
            s + 2,
            s + st,
        ));
        assert(b1 == digit(lane, s + 1) % 2);
        if st == 2 {
            assert(b2 == 0 && b3 == 0);
            assert(pq * (b0 + 9 * b1 + 81 * b2 + 729 * b3) == b0 * pq + b1 * (pq * 9))
                by (nonlinear_arith)
                requires
                    b2 == 0 && b3 == 0,
            ;
        } else {
            let t2 = lane_bit(lane, s + 2) * pow(9, rotated_pos(s + 2, rotation));
            assert(rotated_sum(lane, rotation, s + 2, s + st) == t2 + rotated_sum(
                lane,
                rotation,
                s + 3,
                s + st,
            ));
            assert(b2 == digit(lane, s + 2) % 2);
            if st == 3 {
                assert(b3 == 0);
                assert(pq * (b0 + 9 * b1 + 81 * b2 + 729 * b3) == b0 * pq + b1 * (pq * 9) + b2 * (
                pq * 81)) by (nonlinear_arith)
                    requires
                        b3 == 0,
                ;
            } else {
                let t3 = lane_bit(lane, s + 3) * pow(9, rotated_pos(s + 3, rotation));
                assert(rotated_sum(lane, rotation, s + 3, s + st) == t3 + rotated_sum(
                    lane,
                    rotation,
                    s + 4,
                    s + st,
                ));
                assert(b3 == digit(lane, s + 3) % 2);
                assert(pq * (b0 + 9 * b1 + 81 * b2 + 729 * b3) == b0 * pq + b1 * (pq * 9) + b2 * (
                pq * 81) + b3 * (pq * 729)) by (nonlinear_arith);
            }
        }
    }
}


/// Bits `a..c` are bits `a..b` and then bits `b..c`.
proof fn lemma_rotated_sum_split(lane: nat, rotation: nat, a: nat, b: nat, c: nat)
    requires
        a <= b <= c,
    ensures
        rotated_sum(lane, rotation, a, c) == rotated_sum(lane, rotation, a, b) + rotated_sum(
            lane,
            rotation,
            b,
            c,
        ),
    decreases b - a,
{
    if a < b {
        lemma_rotated_sum_split(lane, rotation, a + 1, b, c);
    }
}

/// What the schedule says of group `k`.
proof fn lemma_slice_facts(rotation: nat, k: int)
    requires
        rotation < 64,
        0 <= k < slices(rotation).len(),
    ensures
        1 <= slices(rotation)[k].1 <= 4,
        1 <= group_start(slices(rotation)[k]),
        slices(rotation)[k].0 <= 64,
        k == 0 ==> group_start(slices(rotation)[k]) == 1,
        k > 0 ==> group_start(slices(rotation)[k]) == slices(rotation)[k - 1].0,
        k == slices(rotation).len() - 1 ==> slices(rotation)[k].0 == 64,
{
    lemma_slices_partition(rotation);
    lemma_slices_from(1, rotation);
    if k > 0 {
        assert(group_start(slices(rotation)[k]) == slices(rotation)[k - 1].0);
        assert(1 < slices(rotation)[k - 1].0);
    }
}

/// Before row `k`, the output accumulator holds the bits of the groups before
/// it at their rotated places, and the output weight is that of the first
/// digit of group `k`.
proof fn lemma_output_rows(
    lane: nat,
    rotation: nat,
    table: Seq<(u32, u32)>,
    rows: Seq<ChunkRow>,
    k: int,
)
    requires
        rotation < 64,
        offset_aligned(rotation),
        is_parity_table(table),
        rows.len() == slices(rotation).len(),
        first_row(lane, rotation, rows[0]),
        forall|j: int|
            0 <= j < rows.len() ==> row_looked_up(lane, rotation, table, #[trigger] rows[j], j),
        forall|j: int| 0 <= j < rows.len() - 1 ==> #[trigger] rows_linked(rotation, rows, j),
        0 <= k < rows.len(),
    ensures
        rows[k].output.acc@ == rotated_sum(
            lane,
            rotation,
            1,
            group_start(slices(rotation)[k]) as nat,
        ),
        rows[k].output.power_of_base@ == pow(
            9,
            rotated_pos(group_start(slices(rotation)[k]) as nat, rotation),
        ),
    decreases k,
{
    let s = slices(rotation);
    if k == 0 {
        lemma_slice_facts(rotation, 0);
    } else {
        lemma_output_rows(lane, rotation, table, rows, k - 1);
        let g = s[k - 1];
        lemma_slice_facts(rotation, k);
        lemma_slice_facts(rotation, k - 1);
        assert(rows_linked(rotation, rows, k - 1));
        assert(row_looked_up(lane, rotation, table, rows[k - 1], k - 1));
        assert(!(group_start(g) < rotation_offset(rotation) < g.0)) by {
            reveal(offset_aligned);
        }
        lemma_output_step(lane, rotation, table, g, rows[k - 1], rows[k]);
    }
}

/// From one row to the next on the output side.
#[verifier::rlimit(50)]
proof fn lemma_output_step(
    lane: nat,
    rotation: nat,
    table: Seq<(u32, u32)>,
    g: (u32, u32),
    cur: ChunkRow,
    next: ChunkRow,
)
    requires
        rotation < 64,
        is_parity_table(table),
        1 <= g.1 <= 4,
        1 <= group_start(g),
        g.0 <= 64,
        !(group_start(g) < rotation_offset(rotation) < g.0),
        cur.input.coef == (lane as int / pow(13, group_start(g) as nat)) % pow(13, g.1 as nat),
        (cur.block_count, cur.output.coef) == table[cur.input.coef as int],
        cur.output.acc@ == rotated_sum(lane, rotation, 1, group_start(g) as nat),
        cur.output.power_of_base@ == pow(9, rotated_pos(group_start(g) as nat, rotation)),
        next.output.acc@ == cur.output.acc@ + cur.output.power_of_base@ * cur.output.coef,
        next.output.power_of_base@ == if g.0 == rotation_offset(rotation) {
            1
        } else {
            cur.output.power_of_base@ * pow(9, g.1 as nat)
        },
    ensures
        next.output.acc@ == rotated_sum(lane, rotation, 1, g.0 as nat),
        next.output.power_of_base@ == pow(9, rotated_pos(g.0 as nat, rotation)),
{
    let start = group_start(g) as nat;
    let st = g.1 as nat;
    let end = g.0 as nat;
    lemma_output_group(lane, rotation, table, cur, start, st);
    lemma_rotated_sum_split(lane, rotation, 1, start, end);
    if end != rotation_offset(rotation) {
        lemma_pow_adds(9, rotated_pos(start, rotation), st);
    } else {
        lemma_pow0(9);
    }
}

/// One row adds its group's bits at their rotated places.
proof fn lemma_output_group(
    lane: nat,
    rotation: nat,
    table: Seq<(u32, u32)>,
    row: ChunkRow,
    start: nat,
    st: nat,
)
    requires
        rotation < 64,
        is_parity_table(table),
        1 <= start,
        1 <= st <= 4,
        start + st <= 64,
        start + st <= rotation_offset(rotation) || start >= rotation_offset(rotation),
        row.input.coef == (lane as int / pow(13, start)) % pow(13, st),
        (row.block_count, row.output.coef) == table[row.input.coef as int],
        row.output.power_of_base@ == pow(9, rotated_pos(start, rotation)),
    ensures
        row.output.power_of_base@ * row.output.coef == rotated_sum(
            lane,
            rotation,
            start,
            start + st,
        ),
{
    lemma_pow_values();
    lemma_pow_increases(13, st, 4);
    lemma_pow_positive(13, st);
    lemma_mod_bound(lane as int / pow(13, start), pow(13, st));
    reveal(is_parity_table);
    assert(table[row.input.coef as int].1 == parity_coef(row.input.coef as int));
    lemma_group_output(lane, rotation, start, st);
}

/// With the parity table, and a schedule whose groups stay on one side of the
/// rotation offset, the value that a lane's witness closes with is the lane's
/// bits rotated by the rotation amount, one base-9 digit per bit.
pub proof fn lemma_output_is_rotated_lane(
    lane: nat,
    rotation: nat,
    table: Seq<(u32, u32)>,
    t: LaneTrace,
)
    requires
        rotation < 64,
        offset_aligned(rotation),
        is_parity_table(table),
        lane_trace_valid(lane, rotation, table, t),
    ensures
        t.special.base_9_acc_next@ == rotated_sum(lane, rotation, 0, 64),
{
    let s = slices(rotation);
    let rows = t.rows@;
    let n = s.len() as int;
    lemma_slices_partition(rotation);
    lemma_output_rows(lane, rotation, table, rows, n - 1);
    let g = s[n - 1];
    assert(!(group_start(g) < rotation_offset(rotation) < g.0)) by {
        reveal(offset_aligned);
    }
    lemma_output_group(lane, rotation, table, rows[n - 1], group_start(g) as nat, g.1 as nat);
    lemma_rotated_sum_split(lane, rotation, 1, group_start(g) as nat, 64);
    lemma_pow0(13);
    assert(digit(lane, 0) == lane % 13);
    assert(rotated_pos(0, rotation) == rotation);
}


/// For an even rotation up to 32, and for 35, 39, ..., 59, a group ends at the
/// rotation offset, so no group runs across it.
pub proof fn lemma_offset_aligned(rotation: nat)
    requires
        (rotation % 2 == 0 && rotation <= 32) || (rotation % 4 == 3 && 35 <= rotation <= 59),
    ensures
        offset_aligned(rotation),
{
    let s = slices(rotation);
    lemma_rotation_offset_exactly_once(rotation);
    let k = choose|k: int| 0 <= k < s.len() && (#[trigger] s[k]).0 == rotation_offset(rotation);
    reveal(offset_aligned);
    assert forall|j: int| 0 <= j < s.len() implies !(group_start(#[trigger] s[j])
        < rotation_offset(rotation) < s[j].0) by {
        lemma_slice_facts(rotation, j);
        lemma_slice_facts(rotation, k);
        if j < k {
            if j < k - 1 {
                lemma_ends_increase(rotation, j, k - 1);
            }
        } else if j > k {
            if j - 1 > k {
                lemma_ends_increase(rotation, k, j - 1);
            }
        }
    }
}

} // verus!
