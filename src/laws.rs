//! Properties that tie the slicer, the rows of a lane and the running sums
//! together.
use crate::block_count::{block_totals, count_steps, lemma_uniform_block_count};
use crate::conversion::ChunkRow;
use crate::lane::{input_coef, lane_trace_valid, lemma_digit_split, rows_linked, LaneTrace};
use crate::slicer::{
    group_start,
    lemma_slices_partition,
    rotation_offset,
    slices,
    slices_from,
    step_size,
};
use vstd::arithmetic::div_mod::lemma_fundamental_div_mod;
use vstd::arithmetic::power::{lemma_pow1, lemma_pow_positive, pow};
use vstd::prelude::*;

verus! {

/// Sum of the first `m` group values of a lane, each at its weight `13^start`.
pub open spec fn input_digit_sum(lane: nat, rotation: nat, m: int) -> int
    decreases m,
{
    if m <= 0 {
        0
    } else {
        input_digit_sum(lane, rotation, m - 1) + pow(13, group_start(slices(rotation)[m - 1]) as nat)
            * input_coef(lane, rotation, m - 1)
    }
}

/// The first `m` groups hold digits `1..end`, where `end` is where group `m - 1`
/// ends.
proof fn lemma_input_digit_sum_prefix(lane: nat, rotation: nat, m: int)
    requires
        rotation < 64,
        0 <= m <= slices(rotation).len(),
    ensures
        input_digit_sum(lane, rotation, m) == lane as int % pow(
            13,
            if m == 0 {
                1
            } else {
                slices(rotation)[m - 1].0 as nat
            },
        ) - lane % 13,
    decreases m,
{
    let s = slices(rotation);
    lemma_slices_partition(rotation);
    if m == 0 {
        lemma_pow1(13);
    } else {
        lemma_input_digit_sum_prefix(lane, rotation, m - 1);
        let idx: nat = if m == 1 {
            1
        } else {
            s[m - 2].0 as nat
        };
        assert(group_start(s[m - 1]) == idx);
        lemma_digit_split(lane, 13, idx, s[m - 1].1 as nat);
    }
}

/// Replaying the input running sum gives the lane back: the low digit, the
/// group values at their weights, and what lies from digit 64 on add up to
/// the lane value.
pub proof fn lemma_input_reconstruction(lane: nat, rotation: nat)
    requires
        rotation < 64,
    ensures
        lane == lane % 13 + input_digit_sum(lane, rotation, slices(rotation).len() as int) + pow(
            13,
            64,
        ) * (lane as int / pow(13, 64)),
{
    lemma_slices_partition(rotation);
    lemma_input_digit_sum_prefix(lane, rotation, slices(rotation).len() as int);
    lemma_pow_positive(13, 64);
    lemma_fundamental_div_mod(lane as int, pow(13, 64));
}

/// Group ends grow along the schedule.
pub proof fn lemma_ends_increase(rotation: nat, i: int, j: int)
    requires
        rotation < 64,
        0 <= i < j < slices(rotation).len(),
    ensures
        slices(rotation)[i].0 < slices(rotation)[j].0,
    decreases j - i,
{
    let s = slices(rotation);
    lemma_slices_partition(rotation);
    assert(group_start(s[j]) == s[j - 1].0);
    if i < j - 1 {
        lemma_ends_increase(rotation, i, j - 1);
    }
}

/// At most one group of a lane ends at the rotation offset.
pub proof fn lemma_rotation_offset_unique(rotation: nat, i: int, j: int)
    requires
        rotation < 64,
        0 <= i < slices(rotation).len(),
        0 <= j < slices(rotation).len(),
        slices(rotation)[i].0 == rotation_offset(rotation),
        slices(rotation)[j].0 == rotation_offset(rotation),
    ensures
        i == j,
{
    if i < j {
        lemma_ends_increase(rotation, i, j);
    } else if j < i {
        lemma_ends_increase(rotation, j, i);
    }
}


/// Where the schedule from `idx` has a group end: the lane end, the rotation
/// amount, every fourth position before the rotation amount is reached, and
/// every fourth position after it.
proof fn lemma_end_reached(idx: nat, t: nat, rotation: nat)
    requires
        1 <= idx < t <= 64,
        rotation < 64,
        t == 64 || (idx < rotation && t == rotation) || ((t - idx) % 4 == 0 && (rotation <= idx
            || t <= rotation)) || (idx < rotation && rotation < t && (t - rotation) % 4 == 0),
    ensures
        exists|k: int|
            0 <= k < slices_from(idx, rotation).len() && (#[trigger] slices_from(
                idx,
                rotation,
            )[k]).0 == t,
    decreases 64 - idx,
{
    let st = step_size(idx, rotation);
    let next = idx + st;
    let s = slices_from(idx, rotation);
    let rest = slices_from(next, rotation);
    assert(s == seq![(next as u32, st as u32)] + rest);
    if t == next {
        assert(s[0].0 == t);
    } else {
        lemma_end_reached(next, t, rotation);
        let k = choose|k: int| 0 <= k < rest.len() && (#[trigger] rest[k]).0 == t;
        assert(s[k + 1] == rest[k]);
    }
}

/// For an even rotation up to 32, and for 35, 39, ..., 59, exactly one group of
/// the lane ends at the rotation offset.
pub proof fn lemma_rotation_offset_exactly_once(rotation: nat)
    requires
        (rotation % 2 == 0 && rotation <= 32) || (rotation % 4 == 3 && 35 <= rotation <= 59),
    ensures
        exists|k: int|
            0 <= k < slices(rotation).len() && (#[trigger] slices(rotation)[k]).0
                == rotation_offset(rotation),
        forall|i: int, j: int|
            0 <= i < slices(rotation).len() && 0 <= j < slices(rotation).len() && (
            #[trigger] slices(rotation)[i]).0 == rotation_offset(rotation) && (#[trigger] slices(
                rotation,
            )[j]).0 == rotation_offset(rotation) ==> i == j,
{
    let t = (64 - rotation) as nat;
    lemma_end_reached(1, t, rotation);
    let k = choose|k: int|
        0 <= k < slices_from(1, rotation).len() && (#[trigger] slices_from(1, rotation)[k]).0 == t;
    assert(slices(rotation)[k].0 == rotation_offset(rotation));
    assert forall|i: int, j: int|
        0 <= i < slices(rotation).len() && 0 <= j < slices(rotation).len() && (
        #[trigger] slices(rotation)[i]).0 == rotation_offset(rotation) && (#[trigger] slices(
            rotation,
        )[j]).0 == rotation_offset(rotation) implies i == j by {
        lemma_rotation_offset_unique(rotation, i, j);
    }
}


/// The steps of a lane's schedule, in order.
pub open spec fn schedule_steps(rotation: nat) -> Seq<u32> {
    slices(rotation).map_values(|g: (u32, u32)| g.1)
}

/// The block counts that a lane's rows report, in order.
pub open spec fn reported_counts(rows: Seq<ChunkRow>) -> Seq<u32> {
    rows.map_values(|row: ChunkRow| row.block_count)
}

/// Before row `k`, the block-count totals are those of the first `k` groups.
proof fn lemma_block_count_rows(lane: nat, rotation: nat, table: Seq<(u32, u32)>, t: LaneTrace, k: int)
    requires
        rotation < 64,
        lane_trace_valid(lane, rotation, table, t),
        0 <= k < t.rows@.len(),
    ensures
        (t.rows@[k].block_count_acc.0 as nat, t.rows@[k].block_count_acc.1 as nat)
            == block_totals(schedule_steps(rotation).take(k), reported_counts(t.rows@)),
    decreases k,
{
    let steps = schedule_steps(rotation);
    let counts = reported_counts(t.rows@);
    if k == 0 {
        assert(steps.take(0) =~= Seq::<u32>::empty());
    } else {
        lemma_block_count_rows(lane, rotation, table, t, k - 1);
        assert(rows_linked(rotation, t.rows@, k - 1));
        assert(steps.take(k).drop_last() =~= steps.take(k - 1));
    }
}

/// A lane's final block-count totals are those of all its groups: each
/// group's count goes to the first total for a group of step 2, to the
/// second for step 3, and nowhere otherwise.
pub proof fn lemma_lane_block_totals(lane: nat, rotation: nat, table: Seq<(u32, u32)>, t: LaneTrace)
    requires
        rotation < 64,
        lane_trace_valid(lane, rotation, table, t),
    ensures
        (t.block_counts.0 as nat, t.block_counts.1 as nat) == block_totals(
            schedule_steps(rotation),
            reported_counts(t.rows@),
        ),
{
    let steps = schedule_steps(rotation);
    let n = t.rows@.len() as int;
    lemma_slices_partition(rotation);
    lemma_block_count_rows(lane, rotation, table, t, n - 1);
    assert(steps.take(n) =~= steps);
    assert(steps.take(n).drop_last() =~= steps.take(n - 1));
}

/// When every group of a lane reports the same count `k`, the lane's first
/// total is `k` times its number of groups of step 2, and the second `k` times
/// its number of groups of step 3.
pub proof fn lemma_lane_uniform_block_count(
    lane: nat,
    rotation: nat,
    table: Seq<(u32, u32)>,
    t: LaneTrace,
    k: u32,
)
    requires
        rotation < 64,
        lane_trace_valid(lane, rotation, table, t),
        forall|j: int| 0 <= j < t.rows@.len() ==> (#[trigger] t.rows@[j]).block_count == k,
    ensures
        t.block_counts.0 == k * count_steps(schedule_steps(rotation), 2),
        t.block_counts.1 == k * count_steps(schedule_steps(rotation), 3),
{
    lemma_lane_block_totals(lane, rotation, table, t);
    let counts = reported_counts(t.rows@);
    assert forall|i: int| 0 <= i < counts.len() implies #[trigger] counts[i] == k by {
        assert(t.rows@[i].block_count == k);
    }
    lemma_uniform_block_count(schedule_steps(rotation), counts, k);
}

} // verus!
