//! Block-count accumulation and the final range check on the two totals.
use vstd::prelude::*;

verus! {

/// Largest total allowed for the groups of step 2.
pub const STEP2_BOUND: u64 = 12;

/// Largest total allowed for the groups of step 3.
pub const STEP3_BOUND: u64 = 169;

/// The two running totals after a group of width `step` reports `block_count`.
pub open spec fn route(step: nat, block_count: nat, acc: (nat, nat)) -> (nat, nat) {
    if step == 2 {
        (acc.0 + block_count, acc.1)
    } else if step == 3 {
        (acc.0, acc.1 + block_count)
    } else {
        acc
    }
}

/// The accumulation gate on one row: `cur` and `next` are the totals on this
/// row and the following one.
pub open spec fn block_count_gate_holds(step: nat, block_count: int, cur: (int, int), next: (
    int,
    int,
)) -> bool {
    if step == 2 {
        next.0 - cur.0 == block_count && next.1 == cur.1
    } else if step == 3 {
        next.0 == cur.0 && next.1 - cur.1 == block_count
    } else {
        block_count == 0 && next.0 == cur.0 && next.1 == cur.1
    }
}

/// Totals after the groups of `steps` reported `counts`, in order.
pub open spec fn block_totals(steps: Seq<u32>, counts: Seq<u32>) -> (nat, nat)
    decreases steps.len(),
{
    if steps.len() == 0 {
        (0, 0)
    } else {
        route(
            steps.last() as nat,
            counts[steps.len() - 1] as nat,
            block_totals(steps.drop_last(), counts),
        )
    }
}

/// Number of entries of `steps` equal to `step`.
pub open spec fn count_steps(steps: Seq<u32>, step: u32) -> nat
    decreases steps.len(),
{
    if steps.len() == 0 {
        0
    } else {
        count_steps(steps.drop_last(), step) + if steps.last() == step {
            1nat
        } else {
            0nat
        }
    }
}

/// The vanishing polynomial `(x - 0)(x - 1)...(x - n)`.
pub open spec fn vanishing(x: int, n: nat) -> int
    decreases n,
{
    if n == 0 {
        x
    } else {
        (x - n) * vanishing(x, (n - 1) as nat)
    }
}

/// The final gate on one lane's totals.
pub open spec fn final_gate_holds(step2_total: int, step3_total: int) -> bool {
    vanishing(step2_total, STEP2_BOUND as nat) == 0 && vanishing(step3_total, STEP3_BOUND as nat)
        == 0
}

/// The vanishing polynomial of degree `n + 1` is zero exactly on `0..=n`.
pub proof fn lemma_vanishing_zero(x: int, n: nat)
    ensures
        (vanishing(x, n) == 0) == (0 <= x <= n),
    decreases n,
{
    if n > 0 {
        lemma_vanishing_zero(x, (n - 1) as nat);
        let a = x - n;
        let b = vanishing(x, (n - 1) as nat);
        assert((a * b == 0) == (a == 0 || b == 0)) by (nonlinear_arith);
    }
}

/// The final gate accepts a pair of totals exactly when the first lies in
/// `[0, 12]` and the second in `[0, 169]`.
pub proof fn lemma_final_gate_bounds(step2_total: int, step3_total: int)
    ensures
        final_gate_holds(step2_total, step3_total) == (0 <= step2_total <= 12 && 0 <= step3_total
            <= 169),
{
    lemma_vanishing_zero(step2_total, 12);
    lemma_vanishing_zero(step3_total, 169);
}

/// When every group reports the same count `k`, the first total is `k` times
/// the number of groups of step 2 and the second `k` times the number of
/// groups of step 3.
pub proof fn lemma_uniform_block_count(steps: Seq<u32>, counts: Seq<u32>, k: u32)
    requires
        counts.len() == steps.len(),
        forall|i: int| 0 <= i < counts.len() ==> #[trigger] counts[i] == k,
    ensures
        block_totals(steps, counts).0 == k * count_steps(steps, 2),
        block_totals(steps, counts).1 == k * count_steps(steps, 3),
{
    lemma_uniform_block_count_prefix(steps, counts, k);
}

/// The same as `lemma_uniform_block_count`, for a prefix of the counts.
proof fn lemma_uniform_block_count_prefix(steps: Seq<u32>, counts: Seq<u32>, k: u32)
    requires
        counts.len() >= steps.len(),
        forall|i: int| 0 <= i < counts.len() ==> #[trigger] counts[i] == k,
    ensures
        block_totals(steps, counts).0 == k * count_steps(steps, 2),
        block_totals(steps, counts).1 == k * count_steps(steps, 3),
    decreases steps.len(),
{
    if steps.len() > 0 {
        let rest = steps.drop_last();
        lemma_uniform_block_count_prefix(rest, counts, k);
        let c2 = count_steps(rest, 2);
        let c3 = count_steps(rest, 3);
        assert(k * (c2 + 1) == k * c2 + k) by (nonlinear_arith);
        assert(k * (c3 + 1) == k * c3 + k) by (nonlinear_arith);
        assert(counts[steps.len() - 1] == k);
        let t = block_totals(rest, counts);
        assert(block_totals(steps, counts) == route(steps.last() as nat, k as nat, t));
        if steps.last() == 2 {
            assert(count_steps(steps, 2) == c2 + 1);
            assert(count_steps(steps, 3) == c3);
        } else if steps.last() == 3 {
            assert(count_steps(steps, 2) == c2);
            assert(count_steps(steps, 3) == c3 + 1);
        } else {
            assert(count_steps(steps, 2) == c2);
            assert(count_steps(steps, 3) == c3);
        }
    } else {
        assert(k * 0 == 0) by (nonlinear_arith);
    }
}

/// The accumulation of block counts for groups of one width.
pub struct BlockCountAccConfig {
    pub step: u32,
}

impl BlockCountAccConfig {
    /// The accumulation for groups of width `step`.
    pub fn configure(step: u32) -> (r: Self)
        requires
            1 <= step <= 4,
        ensures
            r.step == step,
    {
        BlockCountAccConfig { step }
    }

    /// The totals after this row: `block_count` goes to the first total for a
    /// group of step 2, to the second for step 3, and nowhere otherwise.
    pub fn accumulate(&self, block_count: u32, block_count_acc: (u64, u64)) -> (r: (u64, u64))
        requires
            1 <= self.step <= 4,
            block_count_acc.0 + block_count <= u64::MAX,
            block_count_acc.1 + block_count <= u64::MAX,
        ensures
            (r.0 as nat, r.1 as nat) == route(
                self.step as nat,
                block_count as nat,
                (block_count_acc.0 as nat, block_count_acc.1 as nat),
            ),
            self.step == 2 || self.step == 3 || block_count == 0 ==> block_count_gate_holds(
                self.step as nat,
                block_count as int,
                (block_count_acc.0 as int, block_count_acc.1 as int),
                (r.0 as int, r.1 as int),
            ),
    {
        if self.step == 2 {
            (block_count_acc.0 + block_count as u64, block_count_acc.1)
        } else if self.step == 3 {
            (block_count_acc.0, block_count_acc.1 + block_count as u64)
        } else {
            block_count_acc
        }
    }
}

/// The final range check over the totals of every lane.
pub struct BlockCountFinalConfig {}

impl BlockCountFinalConfig {
    pub fn configure() -> (r: Self) {
        BlockCountFinalConfig {  }
    }

    /// Whether the final gate holds on one lane's totals.
    pub fn lane_accepted(&self, step2_total: u64, step3_total: u64) -> (r: bool)
        ensures
            r == final_gate_holds(step2_total as int, step3_total as int),
            r == (step2_total <= STEP2_BOUND && step3_total <= STEP3_BOUND),
    {
        proof {
            lemma_final_gate_bounds(step2_total as int, step3_total as int);
        }
        step2_total <= STEP2_BOUND && step3_total <= STEP3_BOUND
    }

    /// Whether the final gate holds on the totals of every lane, each pair
    /// checked on its own.
    pub fn assign_region(&self, block_count_cells: &Vec<(u64, u64)>) -> (r: bool)
        ensures
            r == (forall|i: int|
                0 <= i < block_count_cells@.len() ==> final_gate_holds(
                    #[trigger] block_count_cells@[i].0 as int,
                    block_count_cells@[i].1 as int,
                )),
            r == (forall|i: int|
                0 <= i < block_count_cells@.len() ==> #[trigger] block_count_cells@[i].0
                    <= STEP2_BOUND && block_count_cells@[i].1 <= STEP3_BOUND),
    {
        let mut i: usize = 0;
        while i < block_count_cells.len()
            invariant
                i <= block_count_cells@.len(),
                forall|j: int|
                    0 <= j < i ==> #[trigger] block_count_cells@[j].0 <= STEP2_BOUND
                        && block_count_cells@[j].1 <= STEP3_BOUND,
            decreases block_count_cells@.len() - i,
        {
            let (s2, s3) = block_count_cells[i];
            if !self.lane_accepted(s2, s3) {
                proof {
                    lemma_final_gate_bounds(s2 as int, s3 as int);
                }
                return false;
            }
            i += 1;
        }
        proof {
            assert forall|j: int| 0 <= j < block_count_cells@.len() implies final_gate_holds(
                #[trigger] block_count_cells@[j].0 as int,
                block_count_cells@[j].1 as int,
            ) by {
                lemma_final_gate_bounds(
                    block_count_cells@[j].0 as int,
                    block_count_cells@[j].1 as int,
                );
            }
        }
        true
    }
}

} // verus!
