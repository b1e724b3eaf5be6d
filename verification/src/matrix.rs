//! Growable, jagged per-(node, slot) accumulation matrix with sparse-safe
//! reads.

use vstd::prelude::*;

verus! {

/// Saturating addition on `u64`: the accumulated value of a cell after one
/// more contribution.
pub open spec fn sat_add(a: u64, b: u64) -> u64 {
    if a + b > u64::MAX {
        u64::MAX
    } else {
        (a + b) as u64
    }
}

/// A growable matrix of accumulated usage values, indexed by dense node
/// index and time-slot index. Rows may have different stored lengths; a read
/// beyond a row's stored length yields the default value 0.
pub struct NodeTimeMatrix {
    matrix: Vec<Vec<u64>>,
    time_count: usize,
}

impl NodeTimeMatrix {
    /// The stored rows, one per node, in node-index order.
    pub closed spec fn rows(&self) -> Seq<Seq<u64>> {
        Seq::new(self.matrix@.len() as nat, |i: int| self.matrix@[i]@)
    }

    /// Number of nodes with a stored row.
    pub open spec fn spec_node_count(&self) -> int {
        self.rows().len() as int
    }

    /// The largest slot index ever written, 0 if none was.
    pub closed spec fn spec_time_count(&self) -> int {
        self.time_count as int
    }

    /// The stored length of node `n`'s row, 0 for an absent row.
    pub open spec fn row_len(&self, n: int) -> int {
        if 0 <= n < self.rows().len() {
            self.rows()[n].len() as int
        } else {
            0
        }
    }

    /// The accumulated value at `(n, t)`: the stored value inside the row,
    /// the default 0 anywhere else.
    pub open spec fn cell(&self, n: int, t: int) -> u64 {
        if 0 <= n < self.rows().len() && 0 <= t < self.rows()[n].len() {
            self.rows()[n][t]
        } else {
            0
        }
    }

    /// An empty matrix: no nodes, largest written slot 0.
    pub fn new() -> (r: NodeTimeMatrix)
        ensures
            r.spec_node_count() == 0,
            r.spec_time_count() == 0,
            forall|n: int, t: int| r.cell(n, t) == 0,
    {
        NodeTimeMatrix { matrix: Vec::new(), time_count: 0 }
    }

    /// Number of nodes with a stored row.
    pub fn node_count(&self) -> (r: usize)
        ensures
            r == self.spec_node_count(),
    {
        self.matrix.len()
    }

    /// The largest slot index ever written, 0 if none was.
    pub fn time_count(&self) -> (r: usize)
        ensures
            r == self.spec_time_count(),
    {
        self.time_count
    }

    /// Accumulates `val` into cell `(node_id, time_id)`, growing the node
    /// dimension and the addressed row as needed, and keeps `time_count` at
    /// the largest slot index written so far.
    pub fn add(&mut self, node_id: usize, time_id: usize, val: u64)
        requires
            node_id < usize::MAX,
            time_id < usize::MAX,
        ensures
            final(self).spec_node_count() == if old(self).spec_node_count() >= node_id + 1 {
                old(self).spec_node_count()
            } else {
                node_id + 1
            },
            final(self).spec_time_count() == if old(self).spec_time_count() >= time_id {
                old(self).spec_time_count()
            } else {
                time_id as int
            },
            final(self).row_len(node_id as int) == if old(self).row_len(node_id as int) >= time_id
                + 1 {
                old(self).row_len(node_id as int)
            } else {
                time_id + 1
            },
            forall|n: int| n != node_id ==> final(self).row_len(n) == old(self).row_len(n),
            final(self).cell(node_id as int, time_id as int) == sat_add(
                old(self).cell(node_id as int, time_id as int),
                val,
            ),
            forall|n: int, t: int|
                !(n == node_id && t == time_id) ==> final(self).cell(n, t) == old(self).cell(n, t),
    {
        // Ensure there are enough node rows.
        if self.matrix.len() <= node_id {
            while self.matrix.len() <= node_id
                invariant
                    node_id < usize::MAX,
                    self.matrix@.len() <= node_id + 1,
                    old(self).matrix@.len() <= self.matrix@.len(),
                    forall|i: int|
                        0 <= i < old(self).matrix@.len() ==> self.matrix@[i]@ == old(
                            self,
                        ).matrix@[i]@,
                    forall|i: int|
                        old(self).matrix@.len() <= i < self.matrix@.len() ==> self.matrix@[i]@
                            =~= Seq::<u64>::empty(),
                    self.time_count == old(self).time_count,
                decreases node_id + 1 - self.matrix@.len(),
            {
                self.matrix.push(Vec::new());
            }
        }
        let ghost mid = *self;
        proof {
            assert(node_id < mid.matrix@.len());
            assert(mid.matrix@.len() == if old(self).matrix@.len() >= node_id + 1 {
                old(self).matrix@.len() as int
            } else {
                node_id + 1
            });
        }

        // Ensure the addressed row has enough slots.
        if (&self.matrix[node_id]).len() <= time_id {
            while (&self.matrix[node_id]).len() <= time_id
                invariant
                    node_id < self.matrix@.len(),
                    time_id < usize::MAX,
                    self.matrix@.len() == mid.matrix@.len(),
                    self.matrix@[node_id as int]@.len() <= time_id + 1,
                    mid.matrix@[node_id as int]@.len() <= self.matrix@[node_id as int]@.len(),
                    forall|i: int|
                        0 <= i < mid.matrix@[node_id as int]@.len() ==> self.matrix@[node_id
                            as int]@[i] == mid.matrix@[node_id as int]@[i],
                    forall|i: int|
                        mid.matrix@[node_id as int]@.len() <= i < self.matrix@[node_id
                            as int]@.len() ==> self.matrix@[node_id as int]@[i] == 0u64,
                    forall|i: int|
                        0 <= i < mid.matrix@.len() && i != node_id ==> self.matrix@[i]@
                            == mid.matrix@[i]@,
                    self.time_count == mid.time_count,
                decreases time_id + 1 - self.matrix@[node_id as int]@.len(),
            {
                let row = &mut self.matrix[node_id];
                row.push(0u64);
            }
        }
        proof {
            assert(time_id < self.matrix@[node_id as int]@.len());
            assert(self.matrix@[node_id as int]@.len() == if mid.matrix@[node_id as int]@.len()
                >= time_id + 1 {
                mid.matrix@[node_id as int]@.len() as int
            } else {
                time_id + 1
            });
        }

        // Update time_count to the largest slot written.
        if self.time_count < time_id {
            self.time_count = time_id;
        }

        // Accumulate by (saturating) addition.
        let row = &mut self.matrix[node_id];
        let cur = row[time_id];
        let newval = if val > u64::MAX - cur {
            u64::MAX
        } else {
            cur + val
        };
        row[time_id] = newval;

        proof {
            let o = *old(self);
            let ni = node_id as int;
            let ti = time_id as int;
            let orl = o.row_len(ni);
            assert(self.rows().len() == if o.rows().len() >= node_id + 1 {
                o.rows().len() as int
            } else {
                node_id + 1
            });
            assert(self.rows()[ni].len() == if orl >= time_id + 1 {
                orl
            } else {
                time_id + 1
            });
            assert forall|n: int| 0 <= n < self.rows().len() && n != ni implies self.rows()[n]
                == if n < o.rows().len() {
                o.rows()[n]
            } else {
                Seq::<u64>::empty()
            } by {
                assert(self.rows()[n] == self.matrix@[n]@);
                assert(self.matrix@[n]@ == mid.matrix@[n]@);
                if n < o.rows().len() {
                    assert(mid.matrix@[n]@ == o.matrix@[n]@);
                } else {
                    assert(mid.matrix@[n]@ =~= Seq::<u64>::empty());
                }
            }
            assert(cur == o.cell(ni, ti));
            assert forall|t: int|
                0 <= t < self.rows()[ni].len() && t != ti implies self.rows()[ni][t] == if t < orl {
                o.rows()[ni][t]
            } else {
                0u64
            } by {
                assert(self.rows()[ni][t] == self.matrix@[ni]@[t]);
            }
            assert(self.rows()[ni][ti] == sat_add(o.cell(ni, ti), val));
            assert forall|n: int, t: int| !(n == ni && t == ti) implies self.cell(n, t) == o.cell(
                n,
                t,
            ) by {
                if n == ni {
                    if 0 <= t < self.rows()[n].len() && t != ti {
                        assert(self.cell(n, t) == self.rows()[ni][t]);
                    }
                } else {
                    if 0 <= n < self.rows().len() {
                        assert(self.rows()[n] == if n < o.rows().len() {
                            o.rows()[n]
                        } else {
                            Seq::<u64>::empty()
                        });
                    }
                }
            }
        }
    }

    /// Law: a read beyond a row's stored length yields the default value 0,
    /// never an error.
    pub proof fn lemma_read_beyond_row_is_zero(&self, n: int, t: int)
        requires
            t >= self.row_len(n),
        ensures
            self.cell(n, t) == 0,
    {
    }

    /// The accumulated value at `(node_id, time_id)`; 0 for a slot beyond
    /// the row's stored length. The node index must be in range.
    pub fn get(&self, node_id: usize, time_id: usize) -> (r: u64)
        requires
            node_id < self.spec_node_count(),
        ensures
            r == self.cell(node_id as int, time_id as int),
    {
        let row = &self.matrix[node_id];
        if row.len() <= time_id {
            0
        } else {
            row[time_id]
        }
    }
}

} // verus!
