//! The ingestion pass: resolving node indices, binning intervals into
//! slots, and accumulating usage values into the matrix.

use vstd::prelude::*;

use crate::error::TraceError;
use crate::mapper::{map_step, resolve_spec, IdentityMapper};
use crate::matrix::{sat_add, NodeTimeMatrix};
use crate::slots::{slot_addressable, spec_slot_of, to_time_slot_index};

verus! {

broadcast use vstd::set::group_set_axioms, vstd::map::group_map_axioms;

/// One cleaned usage interval for one raw machine identifier. The usage
/// value is a fixed-point integer (millionths of a unit).
#[derive(Clone, Copy, Debug, PartialEq, Eq, Structural)]
pub struct UsageRecord {
    pub start_time_us: u64,
    pub end_time_us: u64,
    pub machine_id: u64,
    pub cpu_usage: u64,
}

/// Both timestamps of the record are at or past the trace epoch and map to
/// addressable slots.
pub open spec fn rec_valid(rec: UsageRecord) -> bool {
    &&& slot_addressable(rec.start_time_us)
    &&& slot_addressable(rec.end_time_us)
}

/// First slot the record's interval touches.
pub open spec fn rec_start_slot(rec: UsageRecord) -> int {
    spec_slot_of(rec.start_time_us)
}

/// First slot past the record's interval.
pub open spec fn rec_end_slot(rec: UsageRecord) -> int {
    spec_slot_of(rec.end_time_us)
}

/// Whether the record's half-open slot range `[start_slot, end_slot)`
/// includes slot `t`.
pub open spec fn touches(rec: UsageRecord, t: int) -> bool {
    &&& rec_valid(rec)
    &&& rec_start_slot(rec) <= t < rec_end_slot(rec)
}

/// What the record adds to cell `(n, t)` under mapping `m`: its usage value
/// if its resolved node is `n` and its slot range includes `t`, otherwise 0.
pub open spec fn contribution(m: Map<u64, usize>, rec: UsageRecord, n: int, t: int) -> int {
    if resolve_spec(m, rec.machine_id) == n && touches(rec, t) {
        rec.cpu_usage as int
    } else {
        0
    }
}

/// The identity mapping after resolving the records of `recs` in order.
pub open spec fn map_after(m: Map<u64, usize>, recs: Seq<UsageRecord>) -> Map<u64, usize>
    decreases recs.len(),
{
    if recs.len() == 0 {
        m
    } else {
        map_after(map_step(m, recs[0].machine_id), recs.drop_first())
    }
}

/// The value of cell `(n, t)` after ingesting the records of `recs` in
/// order, starting from value `c` under mapping `m`. Each touching record
/// accumulates by saturating addition.
pub open spec fn cell_after(c: u64, m: Map<u64, usize>, recs: Seq<UsageRecord>, n: int, t: int) -> u64
    decreases recs.len(),
{
    if recs.len() == 0 {
        c
    } else {
        let c2 = if resolve_spec(m, recs[0].machine_id) == n && touches(recs[0], t) {
            sat_add(c, recs[0].cpu_usage)
        } else {
            c
        };
        cell_after(c2, map_step(m, recs[0].machine_id), recs.drop_first(), n, t)
    }
}

/// The sum of the contributions of the records of `recs` to cell `(n, t)`,
/// resolved in order under the evolving mapping.
pub open spec fn total_contribution(
    m: Map<u64, usize>,
    recs: Seq<UsageRecord>,
    n: int,
    t: int,
) -> int
    decreases recs.len(),
{
    if recs.len() == 0 {
        0
    } else {
        contribution(m, recs[0], n, t) + total_contribution(
            map_step(m, recs[0].machine_id),
            recs.drop_first(),
            n,
            t,
        )
    }
}

/// The matrix's node count after ingesting the records of `recs`: a record
/// with a non-empty slot range grows it to cover its resolved node.
pub open spec fn node_count_after(nc: int, m: Map<u64, usize>, recs: Seq<UsageRecord>) -> int
    decreases recs.len(),
{
    if recs.len() == 0 {
        nc
    } else {
        let r = recs[0];
        let nc2 = if rec_valid(r) && rec_start_slot(r) < rec_end_slot(r) {
            let node = resolve_spec(m, r.machine_id) as int;
            if nc >= node + 1 {
                nc
            } else {
                node + 1
            }
        } else {
            nc
        };
        node_count_after(nc2, map_step(m, r.machine_id), recs.drop_first())
    }
}

/// The matrix's largest written slot after ingesting the records of `recs`.
pub open spec fn time_count_after(tc: int, recs: Seq<UsageRecord>) -> int
    decreases recs.len(),
{
    if recs.len() == 0 {
        tc
    } else {
        let r = recs[0];
        let tc2 = if rec_valid(r) && rec_start_slot(r) < rec_end_slot(r) && tc < rec_end_slot(r)
            - 1 {
            rec_end_slot(r) - 1
        } else {
            tc
        };
        time_count_after(tc2, recs.drop_first())
    }
}

/// Index of the first record whose timestamps are invalid; the sequence
/// length if every record is valid.
pub open spec fn first_invalid(recs: Seq<UsageRecord>) -> int
    decreases recs.len(),
{
    if recs.len() == 0 {
        0
    } else if !rec_valid(recs[0]) {
        0
    } else {
        1 + first_invalid(recs.drop_first())
    }
}

/// `first_invalid` is the unique index with only valid records before it.
pub proof fn lemma_first_invalid_is(recs: Seq<UsageRecord>, i: int)
    requires
        0 <= i <= recs.len(),
        forall|j: int| 0 <= j < i ==> rec_valid(#[trigger] recs[j]),
        i < recs.len() ==> !rec_valid(recs[i]),
    ensures
        first_invalid(recs) == i,
    decreases recs.len(),
{
    if recs.len() == 0 {
    } else if i == 0 {
    } else {
        assert(rec_valid(recs[0]));
        assert forall|j: int| 0 <= j < i - 1 implies rec_valid(#[trigger] recs.drop_first()[j]) by {
            assert(recs.drop_first()[j] == recs[j + 1]);
        }
        assert(i - 1 < recs.drop_first().len() ==> !rec_valid(recs.drop_first()[i - 1]));
        lemma_first_invalid_is(recs.drop_first(), i - 1);
    }
}

/// Appending one record to the ingestion order steps the final mapping once.
pub proof fn lemma_map_after_snoc(m: Map<u64, usize>, recs: Seq<UsageRecord>, rec: UsageRecord)
    ensures
        map_after(m, recs.push(rec)) == map_step(map_after(m, recs), rec.machine_id),
    decreases recs.len(),
{
    if recs.len() == 0 {
        assert(recs.push(rec)[0] == rec);
        assert(recs.push(rec).drop_first() =~= Seq::<UsageRecord>::empty());
        assert(map_after(m, recs) == m);
        assert(map_after(m, recs.push(rec)) == map_after(
            map_step(m, rec.machine_id),
            recs.push(rec).drop_first(),
        ));
        assert(map_after(map_step(m, rec.machine_id), recs.push(rec).drop_first()) == map_step(
            m,
            rec.machine_id,
        ));
    } else {
        assert(recs.push(rec)[0] == recs[0]);
        assert(recs.push(rec).drop_first() =~= recs.drop_first().push(rec));
        assert(map_after(m, recs.push(rec)) == map_after(
            map_step(m, recs[0].machine_id),
            recs.drop_first().push(rec),
        ));
        assert(map_after(m, recs) == map_after(map_step(m, recs[0].machine_id), recs.drop_first()));
        lemma_map_after_snoc(map_step(m, recs[0].machine_id), recs.drop_first(), rec);
    }
}

/// Appending one record to the ingestion order applies its contribution to
/// the final cell value.
pub proof fn lemma_cell_after_snoc(
    c: u64,
    m: Map<u64, usize>,
    recs: Seq<UsageRecord>,
    rec: UsageRecord,
    n: int,
    t: int,
)
    ensures
        cell_after(c, m, recs.push(rec), n, t) == ({
            let before = cell_after(c, m, recs, n, t);
            if resolve_spec(map_after(m, recs), rec.machine_id) == n && touches(rec, t) {
                sat_add(before, rec.cpu_usage)
            } else {
                before
            }
        }),
    decreases recs.len(),
{
    if recs.len() == 0 {
        assert(recs.push(rec)[0] == rec);
        assert(recs.push(rec).drop_first() =~= Seq::<UsageRecord>::empty());
        assert(cell_after(c, m, recs, n, t) == c);
        let c1 = if resolve_spec(m, rec.machine_id) == n && touches(rec, t) {
            sat_add(c, rec.cpu_usage)
        } else {
            c
        };
        assert(cell_after(c, m, recs.push(rec), n, t) == cell_after(
            c1,
            map_step(m, rec.machine_id),
            recs.push(rec).drop_first(),
            n,
            t,
        ));
        assert(cell_after(c1, map_step(m, rec.machine_id), recs.push(rec).drop_first(), n, t)
            == c1);
        assert(map_after(m, recs) == m);
    } else {
        assert(recs.push(rec)[0] == recs[0]);
        assert(recs.push(rec).drop_first() =~= recs.drop_first().push(rec));
        let c2 = if resolve_spec(m, recs[0].machine_id) == n && touches(recs[0], t) {
            sat_add(c, recs[0].cpu_usage)
        } else {
            c
        };
        assert(cell_after(c, m, recs.push(rec), n, t) == cell_after(
            c2,
            map_step(m, recs[0].machine_id),
            recs.drop_first().push(rec),
            n,
            t,
        ));
        assert(cell_after(c, m, recs, n, t) == cell_after(
            c2,
            map_step(m, recs[0].machine_id),
            recs.drop_first(),
            n,
            t,
        ));
        assert(map_after(m, recs) == map_after(map_step(m, recs[0].machine_id), recs.drop_first()));
        lemma_cell_after_snoc(c2, map_step(m, recs[0].machine_id), recs.drop_first(), rec, n, t);
    }
}

/// Appending one record to the ingestion order grows the final node count
/// by that record alone.
pub proof fn lemma_node_count_after_snoc(
    nc: int,
    m: Map<u64, usize>,
    recs: Seq<UsageRecord>,
    rec: UsageRecord,
)
    ensures
        node_count_after(nc, m, recs.push(rec)) == ({
            let before = node_count_after(nc, m, recs);
            if rec_valid(rec) && rec_start_slot(rec) < rec_end_slot(rec) {
                let node = resolve_spec(map_after(m, recs), rec.machine_id) as int;
                if before >= node + 1 {
                    before
                } else {
                    node + 1
                }
            } else {
                before
            }
        }),
    decreases recs.len(),
{
    if recs.len() == 0 {
        assert(recs.push(rec)[0] == rec);
        assert(recs.push(rec).drop_first() =~= Seq::<UsageRecord>::empty());
        assert(node_count_after(nc, m, recs) == nc);
        assert(map_after(m, recs) == m);
        let nc1 = if rec_valid(rec) && rec_start_slot(rec) < rec_end_slot(rec) {
            let node = resolve_spec(m, rec.machine_id) as int;
            if nc >= node + 1 {
                nc
            } else {
                node + 1
            }
        } else {
            nc
        };
        assert(node_count_after(nc, m, recs.push(rec)) == node_count_after(
            nc1,
            map_step(m, rec.machine_id),
            recs.push(rec).drop_first(),
        ));
        assert(node_count_after(nc1, map_step(m, rec.machine_id), recs.push(rec).drop_first())
            == nc1);
    } else {
        assert(recs.push(rec)[0] == recs[0]);
        assert(recs.push(rec).drop_first() =~= recs.drop_first().push(rec));
        let r = recs[0];
        let nc2 = if rec_valid(r) && rec_start_slot(r) < rec_end_slot(r) {
            let node = resolve_spec(m, r.machine_id) as int;
            if nc >= node + 1 {
                nc
            } else {
                node + 1
            }
        } else {
            nc
        };
        assert(node_count_after(nc, m, recs.push(rec)) == node_count_after(
            nc2,
            map_step(m, r.machine_id),
            recs.drop_first().push(rec),
        ));
        assert(node_count_after(nc, m, recs) == node_count_after(
            nc2,
            map_step(m, r.machine_id),
            recs.drop_first(),
        ));
        assert(map_after(m, recs) == map_after(map_step(m, recs[0].machine_id), recs.drop_first()));
        lemma_node_count_after_snoc(nc2, map_step(m, r.machine_id), recs.drop_first(), rec);
    }
}

/// Appending one record to the ingestion order raises the final largest
/// written slot by that record alone.
pub proof fn lemma_time_count_after_snoc(tc: int, recs: Seq<UsageRecord>, rec: UsageRecord)
    ensures
        time_count_after(tc, recs.push(rec)) == ({
            let before = time_count_after(tc, recs);
            if rec_valid(rec) && rec_start_slot(rec) < rec_end_slot(rec) && before < rec_end_slot(
                rec,
            ) - 1 {
                rec_end_slot(rec) - 1
            } else {
                before
            }
        }),
    decreases recs.len(),
{
    if recs.len() == 0 {
        assert(recs.push(rec)[0] == rec);
        assert(recs.push(rec).drop_first() =~= Seq::<UsageRecord>::empty());
        assert(time_count_after(tc, recs) == tc);
        let tc1 = if rec_valid(rec) && rec_start_slot(rec) < rec_end_slot(rec) && tc < rec_end_slot(
            rec,
        ) - 1 {
            rec_end_slot(rec) - 1
        } else {
            tc
        };
        assert(time_count_after(tc, recs.push(rec)) == time_count_after(
            tc1,
            recs.push(rec).drop_first(),
        ));
        assert(time_count_after(tc1, recs.push(rec).drop_first()) == tc1);
    } else {
        assert(recs.push(rec)[0] == recs[0]);
        assert(recs.push(rec).drop_first() =~= recs.drop_first().push(rec));
        let r = recs[0];
        let tc2 = if rec_valid(r) && rec_start_slot(r) < rec_end_slot(r) && tc < rec_end_slot(r)
            - 1 {
            rec_end_slot(r) - 1
        } else {
            tc
        };
        assert(time_count_after(tc, recs.push(rec)) == time_count_after(
            tc2,
            recs.drop_first().push(rec),
        ));
        assert(time_count_after(tc, recs) == time_count_after(tc2, recs.drop_first()));
        lemma_time_count_after_snoc(tc2, recs.drop_first(), rec);
    }
}

/// No record takes anything away from a cell.
pub proof fn lemma_total_contribution_nonneg(
    m: Map<u64, usize>,
    recs: Seq<UsageRecord>,
    n: int,
    t: int,
)
    ensures
        total_contribution(m, recs, n, t) >= 0,
    decreases recs.len(),
{
    if recs.len() == 0 {
    } else {
        lemma_total_contribution_nonneg(map_step(m, recs[0].machine_id), recs.drop_first(), n, t);
    }
}

/// Law: a cell holds its starting value plus the sum of `cpu_usage` over
/// every ingested record whose resolved node is `n` and whose slot range
/// includes `t`, whenever that sum stays within `u64`.
pub proof fn lemma_cell_is_sum(c: u64, m: Map<u64, usize>, recs: Seq<UsageRecord>, n: int, t: int)
    requires
        c + total_contribution(m, recs, n, t) <= u64::MAX,
    ensures
        cell_after(c, m, recs, n, t) == c + total_contribution(m, recs, n, t),
    decreases recs.len(),
{
    if recs.len() == 0 {
    } else {
        let m2 = map_step(m, recs[0].machine_id);
        lemma_total_contribution_nonneg(m2, recs.drop_first(), n, t);
        let c2 = if resolve_spec(m, recs[0].machine_id) == n && touches(recs[0], t) {
            sat_add(c, recs[0].cpu_usage)
        } else {
            c
        };
        lemma_cell_is_sum(c2, m2, recs.drop_first(), n, t);
    }
}

/// Law: a record with a zero-width or inverted interval contributes
/// nothing to any cell of the matrix.
pub proof fn lemma_empty_interval_no_contribution(
    c: u64,
    m: Map<u64, usize>,
    rec: UsageRecord,
    n: int,
    t: int,
)
    requires
        rec_end_slot(rec) <= rec_start_slot(rec),
    ensures
        contribution(m, rec, n, t) == 0,
        cell_after(c, m, seq![rec], n, t) == c,
{
    assert(seq![rec][0] == rec);
    assert(seq![rec].drop_first() =~= Seq::<UsageRecord>::empty());
    assert(cell_after(c, map_step(m, rec.machine_id), seq![rec].drop_first(), n, t) == c);
}

/// The mutable context of one ingestion pass: the identity mapping and the
/// accumulation matrix, built together over all input records of a run.
pub struct TransferState {
    pub mapper: IdentityMapper,
    pub matrix: NodeTimeMatrix,
}

impl TransferState {
    /// The mapping invariant holds.
    pub open spec fn wf(&self) -> bool {
        self.mapper.wf()
    }

    /// A fresh context: nothing seen, nothing accumulated.
    pub fn new() -> (r: TransferState)
        ensures
            r.wf(),
            r.mapper@ == Map::<u64, usize>::empty(),
            r.mapper.spec_next() == 0,
            r.matrix.spec_node_count() == 0,
            r.matrix.spec_time_count() == 0,
            forall|n: int, t: int| r.matrix.cell(n, t) == 0,
    {
        TransferState { mapper: IdentityMapper::new(), matrix: NodeTimeMatrix::new() }
    }

    /// Ingests one record: resolves its node index, computes its slot
    /// range, and accumulates its usage value into every slot the interval
    /// touches. A record with an invalid timestamp is rejected after its
    /// machine identifier was resolved, leaving the matrix untouched; a
    /// record with an empty or inverted slot range contributes nothing.
    pub fn ingest_record(&mut self, rec: &UsageRecord) -> (r: Result<(), TraceError>)
        requires
            old(self).wf(),
            old(self).mapper@.dom().len() < usize::MAX,
        ensures
            final(self).wf(),
            final(self).mapper@ == map_step(old(self).mapper@, rec.machine_id),
            r == if rec_valid(*rec) {
                Ok::<(), TraceError>(())
            } else {
                Err::<(), TraceError>(TraceError::InvalidTimestamp)
            },
            forall|n: int, t: int|
                final(self).matrix.cell(n, t) == ({
                    if resolve_spec(old(self).mapper@, rec.machine_id) == n && touches(*rec, t) {
                        sat_add(old(self).matrix.cell(n, t), rec.cpu_usage)
                    } else {
                        old(self).matrix.cell(n, t)
                    }
                }),
            final(self).matrix.spec_node_count() == ({
                if rec_valid(*rec) && rec_start_slot(*rec) < rec_end_slot(*rec) {
                    let node = resolve_spec(old(self).mapper@, rec.machine_id) as int;
                    if old(self).matrix.spec_node_count() >= node + 1 {
                        old(self).matrix.spec_node_count()
                    } else {
                        node + 1
                    }
                } else {
                    old(self).matrix.spec_node_count()
                }
            }),
            final(self).matrix.spec_time_count() == ({
                if rec_valid(*rec) && rec_start_slot(*rec) < rec_end_slot(*rec) && old(
                    self,
                ).matrix.spec_time_count() < rec_end_slot(*rec) - 1 {
                    rec_end_slot(*rec) - 1
                } else {
                    old(self).matrix.spec_time_count()
                }
            }),
    {
        // Translate the machine id first, as the ingestion pass does even
        // when the record is then rejected.
        let node = self.mapper.resolve(rec.machine_id);
        let start = match to_time_slot_index(rec.start_time_us) {
            Ok(s) => s,
            Err(e) => {
                return Err(e);
            },
        };
        let end = match to_time_slot_index(rec.end_time_us) {
            Ok(s) => s,
            Err(e) => {
                return Err(e);
            },
        };

        if start < end {
            let mut t = start;
            while t < end
                invariant
                    start <= t <= end,
                    start < end,
                    node < usize::MAX,
                    end <= usize::MAX,
                    self.wf(),
                    self.mapper@ == map_step(old(self).mapper@, rec.machine_id),
                    node == resolve_spec(old(self).mapper@, rec.machine_id),
                    start == rec_start_slot(*rec),
                    end == rec_end_slot(*rec),
                    rec_valid(*rec),
                    forall|n: int, tt: int|
                        self.matrix.cell(n, tt) == ({
                            if n == node && start <= tt < t {
                                sat_add(old(self).matrix.cell(n, tt), rec.cpu_usage)
                            } else {
                                old(self).matrix.cell(n, tt)
                            }
                        }),
                    self.matrix.spec_node_count() == ({
                        if t > start {
                            if old(self).matrix.spec_node_count() >= node + 1 {
                                old(self).matrix.spec_node_count()
                            } else {
                                node as int + 1
                            }
                        } else {
                            old(self).matrix.spec_node_count()
                        }
                    }),
                    self.matrix.spec_time_count() == ({
                        if t > start && old(self).matrix.spec_time_count() < t - 1 {
                            t - 1
                        } else {
                            old(self).matrix.spec_time_count()
                        }
                    }),
                decreases end - t,
            {
                self.matrix.add(node, t, rec.cpu_usage);
                t = t + 1;
            }
        }
        Ok(())
    }

    /// Ingests a batch of records in order, aborting at the first record
    /// with an invalid timestamp. Records before the first invalid one are
    /// fully applied; the invalid one only resolves its machine identifier.
    pub fn ingest_all(&mut self, records: &Vec<UsageRecord>) -> (r: Result<(), TraceError>)
        requires
            old(self).wf(),
            old(self).mapper@.dom().len() + records@.len() < usize::MAX,
        ensures
            final(self).wf(),
            ({
                let k = first_invalid(records@);
                let done = records@.take(k);
                &&& (k == records@.len() ==> r == Ok::<(), TraceError>(()) && final(self).mapper@
                    == map_after(old(self).mapper@, records@))
                &&& (k < records@.len() ==> r == Err::<(), TraceError>(TraceError::InvalidTimestamp)
                    && final(self).mapper@ == map_step(
                    map_after(old(self).mapper@, done),
                    records@[k].machine_id,
                ))
                &&& forall|n: int, t: int|
                    final(self).matrix.cell(n, t) == cell_after(
                        old(self).matrix.cell(n, t),
                        old(self).mapper@,
                        done,
                        n,
                        t,
                    )
                &&& final(self).matrix.spec_node_count() == node_count_after(
                    old(self).matrix.spec_node_count(),
                    old(self).mapper@,
                    done,
                )
                &&& final(self).matrix.spec_time_count() == time_count_after(
                    old(self).matrix.spec_time_count(),
                    done,
                )
            }),
    {
        let ghost m0 = old(self).mapper@;
        let mut i: usize = 0;
        while i < records.len()
            invariant
                i <= records@.len(),
                old(self).mapper@.dom().len() + records@.len() < usize::MAX,
                self.wf(),
                self.mapper@.dom().len() <= old(self).mapper@.dom().len() + i,
                m0 == old(self).mapper@,
                forall|j: int| 0 <= j < i ==> rec_valid(#[trigger] records@[j]),
                self.mapper@ == map_after(m0, records@.take(i as int)),
                forall|n: int, t: int|
                    self.matrix.cell(n, t) == cell_after(
                        old(self).matrix.cell(n, t),
                        m0,
                        records@.take(i as int),
                        n,
                        t,
                    ),
                self.matrix.spec_node_count() == node_count_after(
                    old(self).matrix.spec_node_count(),
                    m0,
                    records@.take(i as int),
                ),
                self.matrix.spec_time_count() == time_count_after(
                    old(self).matrix.spec_time_count(),
                    records@.take(i as int),
                ),
            decreases records@.len() - i,
        {
            let rec = records[i];
            let ghost prev = *self;
            let ghost done_i = records@.take(i as int);
            let res = self.ingest_record(&rec);
            proof {
                assert(done_i.push(records@[i as int]) =~= records@.take(i as int + 1));
                lemma_map_after_snoc(m0, done_i, records@[i as int]);
                if !prev.mapper@.contains_key(rec.machine_id) {
                    assert(self.mapper@.dom() =~= prev.mapper@.dom().insert(rec.machine_id));
                }
                assert(self.mapper@.dom().len() <= prev.mapper@.dom().len() + 1);
                assert forall|n: int, t: int|
                    self.matrix.cell(n, t) == cell_after(
                        old(self).matrix.cell(n, t),
                        m0,
                        records@.take(i as int + 1),
                        n,
                        t,
                    ) by {
                    lemma_cell_after_snoc(
                        old(self).matrix.cell(n, t),
                        m0,
                        done_i,
                        records@[i as int],
                        n,
                        t,
                    );
                }
                lemma_node_count_after_snoc(
                    old(self).matrix.spec_node_count(),
                    m0,
                    done_i,
                    records@[i as int],
                );
                lemma_time_count_after_snoc(
                    old(self).matrix.spec_time_count(),
                    done_i,
                    records@[i as int],
                );
            }
            match res {
                Ok(()) => {},
                Err(e) => {
                    proof {
                        lemma_first_invalid_is(records@, i as int);
                        assert(!rec_valid(records@[i as int]));
                        assert forall|n: int, t: int|
                            self.matrix.cell(n, t) == cell_after(
                                old(self).matrix.cell(n, t),
                                m0,
                                done_i,
                                n,
                                t,
                            ) by {
                            lemma_cell_after_snoc(
                                old(self).matrix.cell(n, t),
                                m0,
                                done_i,
                                records@[i as int],
                                n,
                                t,
                            );
                        }
                        lemma_node_count_after_snoc(
                            old(self).matrix.spec_node_count(),
                            m0,
                            done_i,
                            records@[i as int],
                        );
                        lemma_time_count_after_snoc(
                            old(self).matrix.spec_time_count(),
                            done_i,
                            records@[i as int],
                        );
                    }
                    return Err(e);
                },
            }
            i = i + 1;
        }
        proof {
            lemma_first_invalid_is(records@, records@.len() as int);
            assert(records@.take(records@.len() as int) =~= records@);
        }
        Ok(())
    }
}

} // verus!
