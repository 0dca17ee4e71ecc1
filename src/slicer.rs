//! The chunk slicer: how the 64 digit positions of a lane are cut into groups.
use vstd::prelude::*;

verus! {

/// Number of digit positions in a lane.
pub const LANE_SIZE: u32 = 64;

/// Default number of digits in a group.
pub const BASE_NUM_OF_CHUNKS: u32 = 4;

/// Width of the group that starts at `chunk_idx`: four digits, shortened so that
/// it stops at the rotation amount and at the lane end.
pub open spec fn step_size(chunk_idx: nat, rotation: nat) -> nat {
    if chunk_idx < rotation && rotation < chunk_idx + 4 {
        (rotation - chunk_idx) as nat
    } else if chunk_idx < 64 && 64 < chunk_idx + 4 {
        (64 - chunk_idx) as nat
    } else {
        4
    }
}

/// The groups from position `chunk_idx` to the lane end, each as
/// `(end_index, step)`.
pub open spec fn slices_from(chunk_idx: nat, rotation: nat) -> Seq<(u32, u32)>
    decreases 64 - chunk_idx,
{
    if chunk_idx >= 64 || step_size(chunk_idx, rotation) == 0 || chunk_idx + step_size(
        chunk_idx,
        rotation,
    ) > 64 {
        Seq::empty()
    } else {
        let step = step_size(chunk_idx, rotation);
        seq![((chunk_idx + step) as u32, step as u32)] + slices_from(chunk_idx + step, rotation)
    }
}

/// The group schedule of a lane: position 0 is left to the special chunk.
pub open spec fn slices(rotation: nat) -> Seq<(u32, u32)> {
    slices_from(1, rotation)
}

/// First position of a group given as `(end_index, step)`.
pub open spec fn group_start(g: (u32, u32)) -> int {
    g.0 - g.1
}

/// Sum of the steps of a schedule.
pub open spec fn steps_total(s: Seq<(u32, u32)>) -> nat
    decreases s.len(),
{
    if s.len() == 0 {
        0
    } else {
        s[0].1 as nat + steps_total(s.drop_first())
    }
}

/// The position at which the output weight starts again from `9^0`.
pub open spec fn rotation_offset(rotation: nat) -> int {
    64 - rotation
}

/// Determine how many chunks in a step.
/// Usually it's a step of 4 chunks, but the number of chunks could be less near
/// the rotation position and the end of the lane.
pub fn get_step_size(chunk_idx: u32, rotation: u32) -> (r: u32)
    requires
        chunk_idx < LANE_SIZE,
        rotation < LANE_SIZE,
    ensures
        1 <= r <= 4,
        chunk_idx + r <= LANE_SIZE,
        r == step_size(chunk_idx as nat, rotation as nat),
{
    // near the rotation position of the lane
    if chunk_idx < rotation && rotation - chunk_idx < BASE_NUM_OF_CHUNKS {
        return rotation - chunk_idx;
    }
    // near the end of the lane
    if LANE_SIZE < chunk_idx + BASE_NUM_OF_CHUNKS {
        return LANE_SIZE - chunk_idx;
    }
    BASE_NUM_OF_CHUNKS
}

/// Whether the group that ends at `chunk_idx` is the last one before the output
/// weight starts again from 1.
pub fn is_at_rotation_offset(chunk_idx: u32, rotation: u32) -> (r: bool)
    requires
        rotation <= LANE_SIZE,
    ensures
        r == (chunk_idx == rotation_offset(rotation as nat)),
{
    chunk_idx == LANE_SIZE - rotation
}

/// Shape of the schedule that starts at `chunk_idx`.
pub proof fn lemma_slices_from(chunk_idx: nat, rotation: nat)
    requires
        1 <= chunk_idx <= 64,
        rotation < 64,
    ensures
        ({
            let s = slices_from(chunk_idx, rotation);
            &&& s.len() <= 64 - chunk_idx
            &&& chunk_idx < 64 ==> s.len() > 0 && group_start(s[0]) == chunk_idx
            &&& chunk_idx < 64 ==> s[s.len() - 1].0 == 64
            &&& forall|k: int| 0 <= k < s.len() ==> 1 <= #[trigger] s[k].1 <= 4 && chunk_idx
                < s[k].0 <= 64
            &&& forall|k: int|
                0 < k < s.len() ==> group_start(#[trigger] s[k]) == s[k - 1].0
            &&& steps_total(s) == 64 - chunk_idx
        }),
    decreases 64 - chunk_idx,
{
    let s = slices_from(chunk_idx, rotation);
    if chunk_idx < 64 {
        let step = step_size(chunk_idx, rotation);
        let next = chunk_idx + step;
        lemma_slices_from(next, rotation);
        let rest = slices_from(next, rotation);
        let head = seq![(next as u32, step as u32)];
        assert(s == head + rest);
        assert(s.drop_first() =~= rest);
        assert forall|k: int| 0 < k < s.len() implies group_start(#[trigger] s[k]) == s[k
            - 1].0 by {
            if k > 1 {
                assert(s[k] == rest[k - 1]);
                assert(s[k - 1] == rest[k - 2]);
            } else {
                assert(s[1] == rest[0]);
            }
        }
        assert forall|k: int| 0 <= k < s.len() implies 1 <= #[trigger] s[k].1 <= 4
            && chunk_idx < s[k].0 <= 64 by {
            if k > 0 {
                assert(s[k] == rest[k - 1]);
            }
        }
    }
}

/// The schedule cuts the positions `[1, 64)` into consecutive groups of one to
/// four digits: the first starts at 1, each starts where the previous ended,
/// the last ends at 64, and the steps add up to 63.
pub proof fn lemma_slices_partition(rotation: nat)
    requires
        rotation < 64,
    ensures
        ({
            let s = slices(rotation);
            &&& 0 < s.len() <= 63
            &&& group_start(s[0]) == 1
            &&& s[s.len() - 1].0 == 64
            &&& forall|k: int| 0 <= k < s.len() ==> 1 <= #[trigger] s[k].1 <= 4
            &&& forall|k: int|
                0 < k < s.len() ==> group_start(#[trigger] s[k]) == s[k - 1].0
            &&& steps_total(s) == 63
        }),
{
    lemma_slices_from(1, rotation);
}

/// Cut a lane's positions `[1, 64)` into groups, each given as
/// `(end_index, step)`.
pub fn slice_lane(rotation: u32) -> (output: Vec<(u32, u32)>)
    requires
        rotation < LANE_SIZE,
    ensures
        output@ == slices(rotation as nat),
{
    // we start chunk_idx from 1
    // because the 0th chunk is for the low value from the theta step
    let mut chunk_idx: u32 = 1;
    let mut output: Vec<(u32, u32)> = Vec::new();
    while chunk_idx < LANE_SIZE
        invariant
            1 <= chunk_idx <= 64,
            rotation < LANE_SIZE,
            output@ + slices_from(chunk_idx as nat, rotation as nat) == slices(rotation as nat),
        decreases 64 - chunk_idx,
    {
        let step = get_step_size(chunk_idx, rotation);
        let ghost before = output@;
        chunk_idx += step;
        output.push((chunk_idx, step));
        proof {
            let head = seq![(chunk_idx, step)];
            assert(slices_from((chunk_idx - step) as nat, rotation as nat) == head
                + slices_from(chunk_idx as nat, rotation as nat));
            assert(output@ == before + head);
            assert(before + (head + slices_from(chunk_idx as nat, rotation as nat)) =~= output@
                + slices_from(chunk_idx as nat, rotation as nat));
        }
    }
    proof {
        assert(output@ + Seq::<(u32, u32)>::empty() =~= output@);
    }
    output
}

} // verus!
