//! Day / node-range partitioning of the finished matrix into output grids.

use vstd::prelude::*;

use crate::matrix::NodeTimeMatrix;
use vstd::arithmetic::div_mod::{
    lemma_fundamental_div_mod, lemma_fundamental_div_mod_converse, lemma_div_is_ordered,
    lemma_div_is_strictly_smaller, lemma_div_pos_is_pos, lemma_mod_division_less_than_divisor,
};
use vstd::arithmetic::mul::lemma_mul_inequality;

verus! {

/// Number of slots in one day shard.
pub const SLOTS_PER_DAY: usize = 1440;

/// Number of node indices in one node-range shard.
pub const NODES_PER_SHARD: usize = 1000;

/// Number of day shards for a matrix whose largest written slot is
/// `time_count` (slot `time_count` inclusive).
pub open spec fn spec_day_count(time_count: int) -> int {
    time_count / (SLOTS_PER_DAY as int) + 1
}

/// Number of node-range shards for `node_count` nodes.
pub open spec fn spec_node_shard_count(node_count: int) -> int {
    node_count / (NODES_PER_SHARD as int) + 1
}

/// First slot of day shard `day_id`.
pub open spec fn spec_day_start(day_id: int) -> int {
    day_id * (SLOTS_PER_DAY as int)
}

/// First slot past day shard `day_id`, clamped to the written horizon.
pub open spec fn spec_day_end(time_count: int, day_id: int) -> int {
    if spec_day_start(day_id) + (SLOTS_PER_DAY as int) > time_count + 1 {
        time_count + 1
    } else {
        spec_day_start(day_id) + (SLOTS_PER_DAY as int)
    }
}

/// First node of node-range shard `range_id`.
pub open spec fn spec_node_start(range_id: int) -> int {
    range_id * (NODES_PER_SHARD as int)
}

/// First node past node-range shard `range_id`, clamped to the node count.
pub open spec fn spec_node_end(node_count: int, range_id: int) -> int {
    if spec_node_start(range_id) + (NODES_PER_SHARD as int) > node_count {
        node_count
    } else {
        spec_node_start(range_id) + (NODES_PER_SHARD as int)
    }
}

/// The day shard that holds slot `t`.
pub open spec fn day_shard_of(t: int) -> int {
    t / (SLOTS_PER_DAY as int)
}

/// The node-range shard that holds node `n`.
pub open spec fn node_shard_of(n: int) -> int {
    n / (NODES_PER_SHARD as int)
}

/// Slot `t` lies inside day shard `d` of a matrix with largest written slot
/// `time_count`.
pub open spec fn in_day_shard(time_count: int, t: int, d: int) -> bool {
    &&& 0 <= d < spec_day_count(time_count)
    &&& spec_day_start(d) <= t < spec_day_end(time_count, d)
}

/// Node `n` lies inside node-range shard `r` of a matrix with `node_count`
/// nodes.
pub open spec fn in_node_shard(node_count: int, n: int, r: int) -> bool {
    &&& 0 <= r < spec_node_shard_count(node_count)
    &&& spec_node_start(r) <= n < spec_node_end(node_count, r)
}

/// Division places `x` between consecutive multiples of `w`.
proof fn lemma_div_window(x: int, w: int)
    requires
        x >= 0,
        w > 0,
    ensures
        x / w >= 0,
        (x / w) * w <= x < (x / w) * w + w,
{
    lemma_fundamental_div_mod(x, w);
    lemma_mod_division_less_than_divisor(x, w);
    lemma_div_pos_is_pos(x, w);
    assert((x / w) * w == w * (x / w)) by (nonlinear_arith);
}

/// Law: every node index in `[0, node_count)` appears in exactly one
/// node-range shard, and every slot in `[0, time_count]` appears in exactly
/// one day shard; shard boundaries never overlap and never skip a node or
/// slot.
pub proof fn lemma_shard_partition(node_count: int, time_count: int)
    requires
        node_count >= 0,
        time_count >= 0,
    ensures
        forall|n: int| 0 <= n < node_count ==> #[trigger] in_node_shard(
            node_count,
            n,
            node_shard_of(n),
        ),
        forall|n: int, r: int| in_node_shard(node_count, n, r) ==> r == node_shard_of(n),
        forall|t: int| 0 <= t <= time_count ==> #[trigger] in_day_shard(
            time_count,
            t,
            day_shard_of(t),
        ),
        forall|t: int, d: int| in_day_shard(time_count, t, d) ==> d == day_shard_of(t),
{
    let w_n = NODES_PER_SHARD as int;
    let w_d = SLOTS_PER_DAY as int;
    assert forall|n: int| 0 <= n < node_count implies #[trigger] in_node_shard(
        node_count,
        n,
        node_shard_of(n),
    ) by {
        lemma_div_window(n, w_n);
        lemma_div_is_ordered(n, node_count, w_n);
        assert(n / w_n <= node_count / w_n);
    }
    assert forall|n: int, r: int| in_node_shard(node_count, n, r) implies r == node_shard_of(
        n,
    ) by {
        lemma_fundamental_div_mod_converse(n, w_n, r, n - r * w_n);
    }
    assert forall|t: int| 0 <= t <= time_count implies #[trigger] in_day_shard(
        time_count,
        t,
        day_shard_of(t),
    ) by {
        lemma_div_window(t, w_d);
        lemma_div_is_ordered(t, time_count, w_d);
        assert(t / w_d <= time_count / w_d);
    }
    assert forall|t: int, d: int| in_day_shard(time_count, t, d) implies d == day_shard_of(t) by {
        lemma_fundamental_div_mod_converse(t, w_d, d, t - d * w_d);
    }
}

/// Number of day shards: day windows of 1440 slots covering slots
/// `0 ..= time_count`.
pub fn day_shard_count(time_count: usize) -> (r: usize)
    ensures
        r == spec_day_count(time_count as int),
{
    proof {
        if time_count > 0 {
            lemma_div_is_strictly_smaller(time_count as int, SLOTS_PER_DAY as int);
        }
    }
    time_count / SLOTS_PER_DAY + 1
}

/// Number of node-range shards: windows of 1000 node indices covering
/// nodes `0 .. node_count`.
pub fn node_shard_count(node_count: usize) -> (r: usize)
    ensures
        r == spec_node_shard_count(node_count as int),
{
    proof {
        if node_count > 0 {
            lemma_div_is_strictly_smaller(node_count as int, NODES_PER_SHARD as int);
        }
    }
    node_count / NODES_PER_SHARD + 1
}

/// The half-open slot window `[start, end)` of day shard `day_id`.
pub fn day_slot_bounds(time_count: usize, day_id: usize) -> (r: (usize, usize))
    requires
        day_id < spec_day_count(time_count as int),
        time_count <= usize::MAX - SLOTS_PER_DAY,
    ensures
        r.0 == spec_day_start(day_id as int),
        r.1 == spec_day_end(time_count as int, day_id as int),
        r.0 < r.1,
{
    proof {
        lemma_div_window(time_count as int, SLOTS_PER_DAY as int);
        lemma_mul_inequality(
            day_id as int,
            (time_count as int) / (SLOTS_PER_DAY as int),
            SLOTS_PER_DAY as int,
        );
    }
    let start = day_id * SLOTS_PER_DAY;
    let limit = time_count + 1;
    let end = if start + SLOTS_PER_DAY > limit {
        limit
    } else {
        start + SLOTS_PER_DAY
    };
    (start, end)
}

/// The half-open node window `[start, end)` of node-range shard `range_id`.
/// The window of a final, exactly-full boundary shard may be empty.
pub fn node_range_bounds(node_count: usize, range_id: usize) -> (r: (usize, usize))
    requires
        range_id < spec_node_shard_count(node_count as int),
        node_count <= usize::MAX - NODES_PER_SHARD,
    ensures
        r.0 == spec_node_start(range_id as int),
        r.1 == spec_node_end(node_count as int, range_id as int),
        r.0 <= r.1,
{
    proof {
        lemma_div_window(node_count as int, NODES_PER_SHARD as int);
        lemma_mul_inequality(
            range_id as int,
            (node_count as int) / (NODES_PER_SHARD as int),
            NODES_PER_SHARD as int,
        );
    }
    let start = range_id * NODES_PER_SHARD;
    let end = if start + NODES_PER_SHARD > node_count {
        node_count
    } else {
        start + NODES_PER_SHARD
    };
    (start, end)
}

/// The output grid of one (day, node-range) shard: one row per node in the
/// range, one column per slot in the day window, each cell the accumulated
/// value (0 for a never-written cell).
pub fn shard_grid(matrix: &NodeTimeMatrix, day_id: usize, range_id: usize) -> (r: Vec<Vec<u64>>)
    requires
        day_id < spec_day_count(matrix.spec_time_count()),
        range_id < spec_node_shard_count(matrix.spec_node_count()),
        matrix.spec_time_count() <= usize::MAX - SLOTS_PER_DAY,
        matrix.spec_node_count() <= usize::MAX - NODES_PER_SHARD,
    ensures
        r@.len() == spec_node_end(matrix.spec_node_count(), range_id as int) - spec_node_start(
            range_id as int,
        ),
        forall|i: int|
            0 <= i < r@.len() ==> (#[trigger] r@[i])@.len() == spec_day_end(
                matrix.spec_time_count(),
                day_id as int,
            ) - spec_day_start(day_id as int),
        forall|i: int, j: int|
            0 <= i < r@.len() && 0 <= j < r@[i]@.len() ==> r@[i]@[j] == matrix.cell(
                spec_node_start(range_id as int) + i,
                spec_day_start(day_id as int) + j,
            ),
{
    let (start_time, end_time) = day_slot_bounds(matrix.time_count(), day_id);
    let (start_node, end_node) = node_range_bounds(matrix.node_count(), range_id);
    let mut grid: Vec<Vec<u64>> = Vec::new();
    let mut node = start_node;
    while node < end_node
        invariant
            start_node <= node <= end_node,
            end_node <= matrix.spec_node_count(),
            start_time < end_time,
            start_time == spec_day_start(day_id as int),
            end_time == spec_day_end(matrix.spec_time_count(), day_id as int),
            start_node == spec_node_start(range_id as int),
            end_node == spec_node_end(matrix.spec_node_count(), range_id as int),
            grid@.len() == node - start_node,
            forall|i: int|
                0 <= i < grid@.len() ==> (#[trigger] grid@[i])@.len() == end_time - start_time,
            forall|i: int, j: int|
                0 <= i < grid@.len() && 0 <= j < grid@[i]@.len() ==> grid@[i]@[j] == matrix.cell(
                    start_node + i,
                    start_time + j,
                ),
        decreases end_node - node,
    {
        let mut row: Vec<u64> = Vec::new();
        let mut slot = start_time;
        while slot < end_time
            invariant
                start_time <= slot <= end_time,
                node < end_node <= matrix.spec_node_count(),
                row@.len() == slot - start_time,
                forall|j: int|
                    0 <= j < row@.len() ==> row@[j] == matrix.cell(node as int, start_time + j),
            decreases end_time - slot,
        {
            row.push(matrix.get(node, slot));
            slot = slot + 1;
        }
        grid.push(row);
        node = node + 1;
    }
    grid
}

} // verus!
