//! The local ledger: registered mint nodes, stored proofs with their spent
//! flags, and recorded wad transactions.
//!
//! A node's identifier is its position in the registration order. A proof
//! row's identifier is its position in the row list; rows are never removed,
//! only marked spent. Every per-node, per-unit unspent total stays within
//! `u64` range: a credit that would overflow it is refused.
use vstd::prelude::*;

use crate::balances::{Balance, MintBalances, Unit, UnitV};
use crate::wad::{proofs_view, Proof, ProofV};

verus! {

/// A stored proof: the node it is redeemable at, its unit, amount, opaque
/// secret, and whether it has been spent.
pub struct ProofRow {
    pub node_id: u32,
    pub unit: Unit,
    pub amount: u64,
    pub secret: String,
    pub spent: bool,
}

/// Mathematical value of a proof row.
#[verifier::ext_equal]
pub struct RowV {
    pub node_id: u32,
    pub unit: UnitV,
    pub amount: u64,
    pub secret: Seq<char>,
    pub spent: bool,
}

impl View for ProofRow {
    type V = RowV;

    open spec fn view(&self) -> RowV {
        RowV {
            node_id: self.node_id,
            unit: self.unit@,
            amount: self.amount,
            secret: self.secret@,
            spent: self.spent,
        }
    }
}

/// The deep value of a row list.
pub open spec fn rows_view(rs: Seq<ProofRow>) -> Seq<RowV> {
    rs.map_values(|r: ProofRow| r@)
}

/// Whether a row counts towards the unspent total of `(node, unit)`.
pub open spec fn row_counts(r: RowV, node: u32, unit: UnitV) -> bool {
    r.node_id == node && r.unit == unit && !r.spent
}

/// Unspent total held at `node` in `unit`.
pub open spec fn sum_for(rows: Seq<RowV>, node: u32, unit: UnitV) -> nat
    decreases rows.len(),
{
    if rows.len() == 0 {
        0
    } else {
        sum_for(rows.drop_last(), node, unit) + if row_counts(rows.last(), node, unit) {
            rows.last().amount as nat
        } else {
            0
        }
    }
}

/// Unspent total held in `unit` across all nodes.
pub open spec fn total_unspent(rows: Seq<RowV>, unit: UnitV) -> nat
    decreases rows.len(),
{
    if rows.len() == 0 {
        0
    } else {
        total_unspent(rows.drop_last(), unit) + if rows.last().unit == unit && !rows.last().spent {
            rows.last().amount as nat
        } else {
            0
        }
    }
}

/// An inbound or outbound wad transaction.
pub enum WadType {
    In,
    Out,
}

/// A recorded wad transaction: its direction, the node involved, the memo,
/// and the identifiers of the proofs it carried.
pub struct WadRecord {
    pub wad_type: WadType,
    pub node_url: String,
    pub memo: Option<String>,
    pub proof_ids: Vec<u64>,
}

/// The local persistent ledger.
pub struct Ledger {
    pub nodes: Vec<String>,
    pub rows: Vec<ProofRow>,
    pub records: Vec<WadRecord>,
}

impl Ledger {
    /// Well-formedness: node URLs are distinct, every row points at a
    /// registered node, identifiers fit, and no unspent total overflows.
    pub open spec fn wf(&self) -> bool {
        &&& self.nodes@.len() <= u32::MAX
        &&& forall|i: int, j: int|
            0 <= i < j < self.nodes@.len() ==> (#[trigger] self.nodes@[i])@ != (
            #[trigger] self.nodes@[j])@
        &&& forall|t: int|
            0 <= t < self.rows@.len() ==> (#[trigger] rows_view(self.rows@)[t]).node_id
                < self.nodes@.len()
        &&& forall|n: u32, u: UnitV| #[trigger] sum_for(rows_view(self.rows@), n, u) <= u64::MAX
    }
}

/// Appending one row adds its amount to the totals it counts towards.
pub proof fn lemma_sum_push(rows: Seq<RowV>, r: RowV, node: u32, unit: UnitV)
    ensures
        sum_for(rows.push(r), node, unit) == sum_for(rows, node, unit) + if row_counts(
            r,
            node,
            unit,
        ) {
            r.amount as nat
        } else {
            0
        },
        total_unspent(rows.push(r), unit) == total_unspent(rows, unit) + if r.unit == unit
            && !r.spent {
            r.amount as nat
        } else {
            0
        },
{
    assert(rows.push(r).drop_last() =~= rows);
    assert(rows.push(r).last() == r);
}

/// Replacing one row shifts the totals by the difference of the two rows'
/// contributions.
pub proof fn lemma_sum_update(rows: Seq<RowV>, t: int, r2: RowV, node: u32, unit: UnitV)
    requires
        0 <= t < rows.len(),
    ensures
        sum_for(rows.update(t, r2), node, unit) + if row_counts(rows[t], node, unit) {
            rows[t].amount as nat
        } else {
            0
        } == sum_for(rows, node, unit) + if row_counts(r2, node, unit) {
            r2.amount as nat
        } else {
            0
        },
        total_unspent(rows.update(t, r2), unit) + if rows[t].unit == unit && !rows[t].spent {
            rows[t].amount as nat
        } else {
            0
        } == total_unspent(rows, unit) + if r2.unit == unit && !r2.spent {
            r2.amount as nat
        } else {
            0
        },
    decreases rows.len(),
{
    if t == rows.len() - 1 {
        assert(rows.update(t, r2).drop_last() =~= rows.drop_last());
        assert(rows.update(t, r2).last() == r2);
    } else {
        lemma_sum_update(rows.drop_last(), t, r2, node, unit);
        assert(rows.update(t, r2).drop_last() =~= rows.drop_last().update(t, r2));
        assert(rows.update(t, r2).last() == rows.last());
        assert(rows.drop_last()[t] == rows[t]);
    }
}

/// Totals split over concatenation.
pub proof fn lemma_sum_concat(a: Seq<RowV>, b: Seq<RowV>, node: u32, unit: UnitV)
    ensures
        sum_for(a + b, node, unit) == sum_for(a, node, unit) + sum_for(b, node, unit),
        total_unspent(a + b, unit) == total_unspent(a, unit) + total_unspent(b, unit),
    decreases b.len(),
{
    if b.len() == 0 {
        assert(a + b =~= a);
    } else {
        lemma_sum_concat(a, b.drop_last(), node, unit);
        assert((a + b).drop_last() =~= a + b.drop_last());
        assert((a + b).last() == b.last());
    }
}

/// A prefix never holds more than the whole list.
pub proof fn lemma_sum_take_le(rows: Seq<RowV>, j: int, node: u32, unit: UnitV)
    requires
        0 <= j <= rows.len(),
    ensures
        sum_for(rows.take(j), node, unit) <= sum_for(rows, node, unit),
        total_unspent(rows.take(j), unit) <= total_unspent(rows, unit),
{
    assert(rows =~= rows.take(j) + rows.skip(j));
    lemma_sum_concat(rows.take(j), rows.skip(j), node, unit);
}

/// One node never holds more of a unit than all nodes together.
pub proof fn lemma_sum_le_total(rows: Seq<RowV>, node: u32, unit: UnitV)
    ensures
        sum_for(rows, node, unit) <= total_unspent(rows, unit),
    decreases rows.len(),
{
    if rows.len() > 0 {
        lemma_sum_le_total(rows.drop_last(), node, unit);
    }
}

/// Unspent total of `unit` over the nodes below `m`.
pub open spec fn avail_prefix(rows: Seq<RowV>, unit: UnitV, m: int) -> nat
    decreases m,
{
    if m <= 0 {
        0
    } else {
        avail_prefix(rows, unit, m - 1) + sum_for(rows, (m - 1) as u32, unit)
    }
}

proof fn lemma_avail_prefix_push(rows: Seq<RowV>, r: RowV, unit: UnitV, m: int)
    requires
        m <= u32::MAX + 1,
    ensures
        avail_prefix(rows.push(r), unit, m) == avail_prefix(rows, unit, m) + if r.unit == unit
            && !r.spent && (r.node_id as int) < m {
            r.amount as nat
        } else {
            0
        },
    decreases m,
{
    if m > 0 {
        lemma_avail_prefix_push(rows, r, unit, m - 1);
        lemma_sum_push(rows, r, (m - 1) as u32, unit);
    }
}

proof fn lemma_avail_prefix_empty(unit: UnitV, m: int)
    ensures
        avail_prefix(Seq::<RowV>::empty(), unit, m) == 0,
    decreases m,
{
    if m > 0 {
        lemma_avail_prefix_empty(unit, m - 1);
    }
}

/// When every row's node is below `m`, the per-node totals partition the
/// grand total.
pub proof fn lemma_avail_partition(rows: Seq<RowV>, unit: UnitV, m: int)
    requires
        0 <= m <= u32::MAX,
        forall|t: int| 0 <= t < rows.len() ==> (#[trigger] rows[t]).node_id < m,
    ensures
        avail_prefix(rows, unit, m) == total_unspent(rows, unit),
    decreases rows.len(),
{
    if rows.len() == 0 {
        assert(rows =~= Seq::<RowV>::empty());
        lemma_avail_prefix_empty(unit, m);
    } else {
        let r0 = rows.drop_last();
        let r = rows.last();
        assert forall|t: int| 0 <= t < r0.len() implies (#[trigger] r0[t]).node_id < m by {
            assert(r0[t] == rows[t]);
        }
        assert(rows[rows.len() - 1].node_id < m);
        lemma_avail_partition(r0, unit, m);
        lemma_avail_prefix_push(r0, r, unit, m);
        assert(r0.push(r) =~= rows);
        assert(avail_prefix(rows, unit, m) == avail_prefix(r0, unit, m) + if r.unit == unit
            && !r.spent {
            r.amount as nat
        } else {
            0
        });
        assert(total_unspent(rows, unit) == total_unspent(r0, unit) + if r.unit == unit
            && !r.spent {
            r.amount as nat
        } else {
            0
        });
    }
}

/// Amounts of the rows at the given positions.
pub open spec fn sel_total(rows: Seq<RowV>, idxs: Seq<usize>) -> nat
    decreases idxs.len(),
{
    if idxs.len() == 0 {
        0
    } else {
        sel_total(rows, idxs.drop_last()) + if 0 <= idxs.last() < rows.len() {
            rows[idxs.last() as int].amount as nat
        } else {
            0
        }
    }
}

/// `t` is one of the positions in `idxs`.
pub open spec fn idx_contains(idxs: Seq<usize>, t: int) -> bool {
    exists|q: int| 0 <= q < idxs.len() && idxs[q] == t
}

/// The row `r` with its spent flag raised.
pub open spec fn spend_row(r: RowV) -> RowV {
    RowV { spent: true, ..r }
}

impl Ledger {
    /// An empty ledger: no nodes, no proofs, no records.
    pub fn new() -> (l: Ledger)
        ensures
            l.wf(),
            l.nodes@.len() == 0,
            l.rows@.len() == 0,
            l.records@.len() == 0,
    {
        let l = Ledger { nodes: Vec::new(), rows: Vec::new(), records: Vec::new() };
        proof {
            assert forall|n: u32, u: UnitV| #[trigger] sum_for(rows_view(l.rows@), n, u)
                <= u64::MAX by {
                assert(rows_view(l.rows@) =~= Seq::<RowV>::empty());
            }
        }
        l
    }

    /// Resolves or creates the registration of a node URL. Registering an
    /// already-known URL returns the existing identifier and changes
    /// nothing; a new URL is appended. Fails only when the identifier space
    /// is exhausted.
    pub fn register_node(&mut self, url: &str) -> (r: Result<u32, ()>)
        requires
            old(self).wf(),
        ensures
            final(self).wf(),
            final(self).rows == old(self).rows,
            final(self).records == old(self).records,
            match r {
                Ok(id) => {
                    &&& (id as int) < final(self).nodes@.len()
                    &&& final(self).nodes@[id as int]@ == url@
                    &&& (forall|j: int|
                        0 <= j < old(self).nodes@.len() ==> final(self).nodes@[j] == old(
                            self,
                        ).nodes@[j])
                    &&& if exists|j: int|
                        0 <= j < old(self).nodes@.len() && (#[trigger] old(self).nodes@[j])@
                            == url@ {
                        final(self).nodes == old(self).nodes
                    } else {
                        final(self).nodes@.len() == old(self).nodes@.len() + 1 && id as int == old(
                            self,
                        ).nodes@.len()
                    }
                },
                Err(_) => *final(self) == *old(self) && old(self).nodes@.len() == u32::MAX
                    && !(exists|j: int|
                        0 <= j < old(self).nodes@.len() && (#[trigger] old(self).nodes@[j])@
                            == url@),
            },
    {
        let n = self.nodes.len();
        let mut j: usize = 0;
        while j < n
            invariant
                *self == *old(self),
                old(self).wf(),
                n == self.nodes@.len(),
                j <= n,
                forall|t: int| 0 <= t < j ==> (#[trigger] self.nodes@[t])@ != url@,
            decreases n - j,
        {
            if crate::strutil::str_eq(self.nodes[j].as_str(), url) {
                return Ok(j as u32);
            }
            j += 1;
        }
        if n >= u32::MAX as usize {
            return Err(());
        }
        let owned = url.to_owned();
        self.nodes.push(owned);
        proof {
            assert(rows_view(self.rows@) == rows_view(old(self).rows@));
        }
        Ok(n as u32)
    }

    /// The URL a node identifier was registered under.
    pub fn node_url(&self, id: u32) -> (r: String)
        requires
            (id as int) < self.nodes@.len(),
        ensures
            r@ == self.nodes@[id as int]@,
    {
        self.nodes[id as usize].clone()
    }

    /// How many nodes are registered.
    pub fn node_count(&self) -> (r: usize)
        ensures
            r == self.nodes@.len(),
    {
        self.nodes.len()
    }

    /// The unspent total held at `node_id` in `unit`.
    pub fn available(&self, node_id: u32, unit: &Unit) -> (a: u64)
        requires
            self.wf(),
        ensures
            a as nat == sum_for(rows_view(self.rows@), node_id, unit@),
    {
        let ghost all = rows_view(self.rows@);
        let n = self.rows.len();
        let mut acc: u64 = 0;
        let mut j: usize = 0;
        while j < n
            invariant
                self.wf(),
                all == rows_view(self.rows@),
                n == self.rows@.len(),
                j <= n,
                acc as nat == sum_for(all.take(j as int), node_id, unit@),
            decreases n - j,
        {
            let row = &self.rows[j];
            proof {
                assert(all.take(j + 1).drop_last() =~= all.take(j as int));
                assert(all.take(j + 1).last() == row@);
                lemma_sum_take_le(all, j + 1, node_id, unit@);
            }
            if row.node_id == node_id && !row.spent && row.unit.eq(unit) {
                acc = acc + row.amount;
            }
            j += 1;
        }
        proof {
            assert(all.take(n as int) =~= all);
        }
        acc
    }

    /// The rows a credit of `ps` at `(node, unit)` appends.
    pub open spec fn credit_rows(ps: Seq<ProofV>, node: u32, unit: UnitV) -> Seq<RowV> {
        ps.map_values(
            |p: ProofV|
                RowV {
                    node_id: node,
                    unit: unit,
                    amount: p.amount,
                    secret: p.secret,
                    spent: false,
                },
        )
    }

    /// Credits freshly received proofs to `(node_id, unit)`, returning the
    /// total amount credited. The ledger refuses the credit exactly when
    /// that total would push the node's unspent total in this unit past
    /// `u64` range, and is then unchanged.
    pub fn credit(&mut self, node_id: u32, unit: &Unit, proofs: &Vec<Proof>) -> (r: Result<
        u64,
        (),
    >)
        requires
            old(self).wf(),
            (node_id as int) < old(self).nodes@.len(),
        ensures
            final(self).wf(),
            final(self).nodes == old(self).nodes,
            final(self).records == old(self).records,
            match r {
                Ok(amt) => {
                    &&& amt as nat == crate::wad::proofs_total(proofs_view(proofs@))
                    &&& rows_view(final(self).rows@) == rows_view(old(self).rows@)
                        + Self::credit_rows(proofs_view(proofs@), node_id, unit@)
                    &&& forall|n: u32, u: UnitV|
                        #[trigger] sum_for(rows_view(final(self).rows@), n, u) == sum_for(
                            rows_view(old(self).rows@),
                            n,
                            u,
                        ) + if n == node_id && u == unit@ {
                            amt as nat
                        } else {
                            0
                        }
                    &&& forall|u: UnitV|
                        #[trigger] total_unspent(rows_view(final(self).rows@), u) == total_unspent(
                            rows_view(old(self).rows@),
                            u,
                        ) + if u == unit@ {
                            amt as nat
                        } else {
                            0
                        }
                },
                Err(_) => *final(self) == *old(self) && crate::wad::proofs_total(
                    proofs_view(proofs@),
                ) + sum_for(rows_view(old(self).rows@), node_id, unit@) > u64::MAX,
            },
    {
        let ghost pv = proofs_view(proofs@);
        // Total of the incoming proofs, refusing overflow early.
        let n = proofs.len();
        let mut amt: u64 = 0;
        let mut j: usize = 0;
        while j < n
            invariant
                *self == *old(self),
                old(self).wf(),
                (node_id as int) < old(self).nodes@.len(),
                pv == proofs_view(proofs@),
                n == proofs@.len(),
                j <= n,
                amt as nat == crate::wad::proofs_total(pv.take(j as int)),
            decreases n - j,
        {
            proof {
                assert(pv.take(j + 1).drop_last() =~= pv.take(j as int));
                assert(pv.take(j + 1).last() == proofs@[j as int]@);
            }
            let a = proofs[j].amount;
            if a > u64::MAX - amt {
                proof {
                    lemma_proofs_total_take_le(pv, j + 1);
                }
                return Err(());
            }
            amt = amt + a;
            j += 1;
        }
        proof {
            assert(pv.take(n as int) =~= pv);
        }
        let cur = self.available(node_id, unit);
        if amt > u64::MAX - cur {
            return Err(());
        }
        // Append one unspent row per proof.
        let ghost oldrows = rows_view(self.rows@);
        let mut j: usize = 0;
        while j < n
            invariant
                self.wf(),
                old(self).wf(),
                pv == proofs_view(proofs@),
                n == proofs@.len(),
                j <= n,
                self.nodes == old(self).nodes,
                self.records == old(self).records,
                oldrows == rows_view(old(self).rows@),
                (node_id as int) < self.nodes@.len(),
                rows_view(self.rows@) == oldrows + Self::credit_rows(pv.take(j as int), node_id, unit@),
                forall|n2: u32, u2: UnitV|
                    #[trigger] sum_for(rows_view(self.rows@), n2, u2) == sum_for(oldrows, n2, u2)
                        + if n2 == node_id && u2 == unit@ {
                        crate::wad::proofs_total(pv.take(j as int))
                    } else {
                        0
                    },
                forall|u2: UnitV|
                    #[trigger] total_unspent(rows_view(self.rows@), u2) == total_unspent(
                        oldrows,
                        u2,
                    ) + if u2 == unit@ {
                        crate::wad::proofs_total(pv.take(j as int))
                    } else {
                        0
                    },
                crate::wad::proofs_total(pv.take(j as int)) <= amt,
                amt as nat == crate::wad::proofs_total(pv),
                amt as nat + sum_for(oldrows, node_id, unit@) <= u64::MAX,
            decreases n - j,
        {
            let p = &proofs[j];
            let row = ProofRow {
                node_id,
                unit: unit.clone(),
                amount: p.amount,
                secret: p.secret.clone(),
                spent: false,
            };
            let ghost prev = rows_view(self.rows@);
            self.rows.push(row);
            proof {
                assert(rows_view(self.rows@) =~= prev.push(row@));
                assert(pv.take(j + 1).drop_last() =~= pv.take(j as int));
                assert(pv.take(j + 1).last() == pv[j as int]);
                lemma_proofs_total_take_le(pv, j + 1);
                assert(Self::credit_rows(pv.take(j + 1), node_id, unit@) =~= Self::credit_rows(
                    pv.take(j as int),
                    node_id,
                    unit@,
                ).push(row@));
                assert(rows_view(self.rows@) =~= oldrows + Self::credit_rows(
                    pv.take(j + 1),
                    node_id,
                    unit@,
                ));
                assert forall|n2: u32, u2: UnitV|
                    #[trigger] sum_for(rows_view(self.rows@), n2, u2) == sum_for(oldrows, n2, u2)
                        + if n2 == node_id && u2 == unit@ {
                        crate::wad::proofs_total(pv.take(j + 1))
                    } else {
                        0
                    } by {
                    lemma_sum_push(prev, row@, n2, u2);
                }
                assert forall|u2: UnitV|
                    #[trigger] total_unspent(rows_view(self.rows@), u2) == total_unspent(
                        oldrows,
                        u2,
                    ) + if u2 == unit@ {
                        crate::wad::proofs_total(pv.take(j + 1))
                    } else {
                        0
                    } by {
                    lemma_sum_push(prev, row@, node_id, u2);
                }
                assert forall|t2: int|
                    0 <= t2 < self.rows@.len() implies (#[trigger] rows_view(
                    self.rows@,
                )[t2]).node_id < self.nodes@.len() by {
                    if t2 < oldrows.len() {
                        assert(rows_view(self.rows@)[t2] == oldrows[t2]);
                        assert((rows_view(old(self).rows@)[t2]).node_id < old(
                            self,
                        ).nodes@.len());
                    } else {
                        assert(rows_view(self.rows@)[t2] == Self::credit_rows(
                            pv.take(j + 1),
                            node_id,
                            unit@,
                        )[t2 - oldrows.len()]);
                    }
                }
                assert forall|n2: u32, u2: UnitV|
                    #[trigger] sum_for(rows_view(self.rows@), n2, u2) <= u64::MAX by {
                    assert(sum_for(rows_view(old(self).rows@), n2, u2) <= u64::MAX);
                }
            }
            j += 1;
        }
        proof {
            assert(pv.take(n as int) =~= pv);
        }
        Ok(amt)
    }

    /// Marks the rows at strictly increasing positions `idxs` spent; each
    /// must be an unspent row of `(node_id, unit)`. Exactly those rows
    /// change, and the totals of `(node_id, unit)` drop by their sum.
    pub fn mark_spent(&mut self, node_id: u32, unit: &Unit, idxs: &Vec<usize>)
        requires
            old(self).wf(),
            forall|q: int, q2: int| 0 <= q < q2 < idxs@.len() ==> idxs@[q] < idxs@[q2],
            forall|q: int|
                0 <= q < idxs@.len() ==> (#[trigger] idxs@[q]) < old(self).rows@.len()
                    && row_counts(rows_view(old(self).rows@)[idxs@[q] as int], node_id, unit@),
        ensures
            final(self).wf(),
            final(self).nodes == old(self).nodes,
            final(self).records == old(self).records,
            final(self).rows@.len() == old(self).rows@.len(),
            forall|t: int|
                0 <= t < old(self).rows@.len() ==> #[trigger] rows_view(final(self).rows@)[t]
                    == if idx_contains(idxs@, t) {
                    spend_row(rows_view(old(self).rows@)[t])
                } else {
                    rows_view(old(self).rows@)[t]
                },
            sum_for(rows_view(final(self).rows@), node_id, unit@) + sel_total(
                rows_view(old(self).rows@),
                idxs@,
            ) == sum_for(rows_view(old(self).rows@), node_id, unit@),
            total_unspent(rows_view(final(self).rows@), unit@) + sel_total(
                rows_view(old(self).rows@),
                idxs@,
            ) == total_unspent(rows_view(old(self).rows@), unit@),
            forall|n2: u32, u2: UnitV|
                !(n2 == node_id && u2 == unit@) ==> #[trigger] sum_for(
                    rows_view(final(self).rows@),
                    n2,
                    u2,
                ) == sum_for(rows_view(old(self).rows@), n2, u2),
            forall|u2: UnitV|
                u2 != unit@ ==> #[trigger] total_unspent(rows_view(final(self).rows@), u2)
                    == total_unspent(rows_view(old(self).rows@), u2),
    {
        let ghost oldrows = rows_view(old(self).rows@);
        let m = idxs.len();
        let mut q: usize = 0;
        while q < m
            invariant
                m == idxs@.len(),
                q <= m,
                oldrows == rows_view(old(self).rows@),
                self.nodes == old(self).nodes,
                self.records == old(self).records,
                old(self).wf(),
                self.nodes@.len() == old(self).nodes@.len(),
                forall|q1: int, q2: int| 0 <= q1 < q2 < idxs@.len() ==> idxs@[q1] < idxs@[q2],
                forall|q1: int|
                    0 <= q1 < idxs@.len() ==> (#[trigger] idxs@[q1]) < oldrows.len() && row_counts(
                        oldrows[idxs@[q1] as int],
                        node_id,
                        unit@,
                    ),
                self.rows@.len() == oldrows.len(),
                forall|t: int|
                    0 <= t < oldrows.len() ==> #[trigger] rows_view(self.rows@)[t]
                        == if idx_contains(idxs@.take(q as int), t) {
                        spend_row(oldrows[t])
                    } else {
                        oldrows[t]
                    },
                sum_for(rows_view(self.rows@), node_id, unit@) + sel_total(
                    oldrows,
                    idxs@.take(q as int),
                ) == sum_for(oldrows, node_id, unit@),
                total_unspent(rows_view(self.rows@), unit@) + sel_total(
                    oldrows,
                    idxs@.take(q as int),
                ) == total_unspent(oldrows, unit@),
                forall|n2: u32, u2: UnitV|
                    !(n2 == node_id && u2 == unit@) ==> #[trigger] sum_for(
                        rows_view(self.rows@),
                        n2,
                        u2,
                    ) == sum_for(oldrows, n2, u2),
                forall|u2: UnitV|
                    u2 != unit@ ==> #[trigger] total_unspent(rows_view(self.rows@), u2)
                        == total_unspent(oldrows, u2),
            decreases m - q,
        {
            let idx = idxs[q];
            proof {
                // Not yet touched: no earlier index equals this one.
                assert(!idx_contains(idxs@.take(q as int), idx as int)) by {
                    assert forall|q1: int| 0 <= q1 < q implies idxs@.take(q as int)[q1] != idx by {
                        assert(idxs@[q1] < idxs@[q as int]);
                    }
                }
                assert(rows_view(self.rows@)[idx as int] == oldrows[idx as int]);
            }
            let node_id2 = self.rows[idx].node_id;
            let amount2 = self.rows[idx].amount;
            let unit2 = self.rows[idx].unit.clone();
            let secret2 = self.rows[idx].secret.clone();
            let newrow = ProofRow {
                node_id: node_id2,
                unit: unit2,
                amount: amount2,
                secret: secret2,
                spent: true,
            };
            let ghost prev = rows_view(self.rows@);
            self.rows[idx] = newrow;
            proof {
                assert(newrow@ =~= spend_row(oldrows[idx as int]));
                assert(rows_view(self.rows@) =~= prev.update(idx as int, newrow@));
                assert(idxs@.take(q + 1).drop_last() =~= idxs@.take(q as int));
                assert(idxs@.take(q + 1).last() == idx);
                assert forall|t: int|
                    0 <= t < oldrows.len() implies #[trigger] rows_view(self.rows@)[t]
                    == if idx_contains(idxs@.take(q + 1), t) {
                    spend_row(oldrows[t])
                } else {
                    oldrows[t]
                } by {
                    if t == idx as int {
                        assert(idxs@.take(q + 1)[q as int] == idx);
                    } else {
                        if idx_contains(idxs@.take(q + 1), t) {
                            let w = choose|w: int|
                                0 <= w < idxs@.take(q + 1).len() && #[trigger] idxs@.take(
                                    q + 1,
                                )[w] == t;
                            assert(idxs@.take(q as int)[w] == t);
                        }
                        if idx_contains(idxs@.take(q as int), t) {
                            let w = choose|w: int|
                                0 <= w < idxs@.take(q as int).len() && #[trigger] idxs@.take(
                                    q as int,
                                )[w] == t;
                            assert(idxs@.take(q + 1)[w] == t);
                        }
                    }
                }
                assert forall|n2: u32, u2: UnitV|
                    !(n2 == node_id && u2 == unit@) implies #[trigger] sum_for(
                        rows_view(self.rows@),
                        n2,
                        u2,
                    ) == sum_for(oldrows, n2, u2) by {
                    lemma_sum_update(prev, idx as int, newrow@, n2, u2);
                }
                assert forall|u2: UnitV|
                    u2 != unit@ implies #[trigger] total_unspent(rows_view(self.rows@), u2)
                    == total_unspent(oldrows, u2) by {
                    lemma_sum_update(prev, idx as int, newrow@, node_id, u2);
                }
                lemma_sum_update(prev, idx as int, newrow@, node_id, unit@);
            }
            q += 1;
        }
        proof {
            assert(idxs@.take(m as int) =~= idxs@);
            assert forall|n2: u32, u2: UnitV| #[trigger] sum_for(rows_view(self.rows@), n2, u2)
                <= u64::MAX by {
                if n2 == node_id && u2 == unit@ {
                } else {
                }
            }
        }
    }

    /// Appends a wad transaction record; nothing else changes.
    pub fn add_record(&mut self, rec: WadRecord)
        requires
            old(self).wf(),
        ensures
            final(self).wf(),
            final(self).nodes == old(self).nodes,
            final(self).rows == old(self).rows,
            final(self).records@ == old(self).records@.push(rec),
    {
        self.records.push(rec);
        proof {
            assert(rows_view(self.rows@) == rows_view(old(self).rows@));
        }
    }
}

/// A prefix of a proof list never totals more than the whole list.
pub proof fn lemma_proofs_total_take_le(ps: Seq<ProofV>, j: int)
    requires
        0 <= j <= ps.len(),
    ensures
        crate::wad::proofs_total(ps.take(j)) <= crate::wad::proofs_total(ps),
    decreases ps.len(),
{
    if j < ps.len() {
        lemma_proofs_total_take_le(ps.drop_last(), j);
        assert(ps.take(j) =~= ps.drop_last().take(j));
    } else {
        assert(ps.take(j) =~= ps);
    }
}


/// The units of one node's unspent rows, in first-appearance order, each
/// exactly once.
pub open spec fn units_seen(rows: Seq<RowV>, node: u32) -> Seq<UnitV>
    decreases rows.len(),
{
    if rows.len() == 0 {
        Seq::empty()
    } else {
        let prev = units_seen(rows.drop_last(), node);
        let r = rows.last();
        if r.node_id == node && !r.spent && !prev.contains(r.unit) {
            prev.push(r.unit)
        } else {
            prev
        }
    }
}

/// The units of `us` whose unspent total at `node` is positive, in order.
pub open spec fn keep_positive(us: Seq<UnitV>, rows: Seq<RowV>, node: u32) -> Seq<UnitV>
    decreases us.len(),
{
    if us.len() == 0 {
        Seq::empty()
    } else {
        let prev = keep_positive(us.drop_last(), rows, node);
        if sum_for(rows, node, us.last()) > 0 {
            prev.push(us.last())
        } else {
            prev
        }
    }
}

/// The units a balance list reports, in order.
pub open spec fn balance_units(bs: Seq<Balance>) -> Seq<UnitV> {
    bs.map_values(|b: Balance| b.unit@)
}

/// The values of a unit list.
pub open spec fn units_view(us: Seq<Unit>) -> Seq<UnitV> {
    us.map_values(|u: Unit| u@)
}

/// A unit of the list with a positive total survives the filter.
proof fn lemma_keep_positive_contains(us: Seq<UnitV>, rows: Seq<RowV>, node: u32, k: int)
    requires
        0 <= k < us.len(),
        sum_for(rows, node, us[k]) > 0,
    ensures
        keep_positive(us, rows, node).contains(us[k]),
    decreases us.len(),
{
    if k == us.len() - 1 {
        let kp = keep_positive(us, rows, node);
        assert(kp.last() == us[k]);
        assert(kp[kp.len() - 1] == us[k]);
    } else {
        lemma_keep_positive_contains(us.drop_last(), rows, node, k);
        let prev = keep_positive(us.drop_last(), rows, node);
        let w = choose|w: int| 0 <= w < prev.len() && prev[w] == us.drop_last()[k];
        assert(us.drop_last()[k] == us[k]);
        assert(keep_positive(us, rows, node)[w] == us[k]);
    }
}

impl Ledger {
    /// The balances of one node: every unit it holds a positive unspent
    /// amount in, each exactly once, with that amount; zero totals are
    /// omitted, never emitted.
    fn node_balances(&self, node_id: u32) -> (bs: Vec<Balance>)
        requires
            self.wf(),
        ensures
            balance_units(bs@) == keep_positive(
                units_seen(rows_view(self.rows@), node_id),
                rows_view(self.rows@),
                node_id,
            ),
            forall|t: int|
                0 <= t < bs@.len() ==> (#[trigger] bs@[t]).amount > 0 && bs@[t].amount as nat
                    == sum_for(rows_view(self.rows@), node_id, bs@[t].unit@),
            forall|t1: int, t2: int|
                0 <= t1 < t2 < bs@.len() ==> (#[trigger] bs@[t1]).unit@ != (
                #[trigger] bs@[t2]).unit@,
            forall|u: UnitV|
                #[trigger] sum_for(rows_view(self.rows@), node_id, u) > 0 ==> exists|t: int|
                    0 <= t < bs@.len() && (#[trigger] bs@[t]).unit@ == u,
    {
        let ghost all = rows_view(self.rows@);
        // First pass: this node's units, in first-appearance order.
        let n = self.rows.len();
        let mut units: Vec<Unit> = Vec::new();
        let mut j: usize = 0;
        while j < n
            invariant
                self.wf(),
                all == rows_view(self.rows@),
                n == self.rows@.len(),
                j <= n,
                units_view(units@) == units_seen(all.take(j as int), node_id),
                forall|t1: int, t2: int|
                    0 <= t1 < t2 < units@.len() ==> (#[trigger] units@[t1])@ != (
                    #[trigger] units@[t2])@,
                forall|u: UnitV|
                    #[trigger] sum_for(all.take(j as int), node_id, u) > 0 ==> units_view(
                        units@,
                    ).contains(u),
            decreases n - j,
        {
            let row = &self.rows[j];
            let ghost prevu = units_view(units@);
            proof {
                assert(all.take(j + 1).drop_last() =~= all.take(j as int));
                assert(all.take(j + 1).last() == row@);
            }
            if row.node_id == node_id && !row.spent {
                let m = units.len();
                let mut found = false;
                let mut t: usize = 0;
                while t < m
                    invariant
                        m == units@.len(),
                        t <= m,
                        j < n == self.rows@.len(),
                        all == rows_view(self.rows@),
                        !found ==> forall|t2: int|
                            0 <= t2 < t ==> (#[trigger] units@[t2])@ != all[j as int].unit,
                        found ==> exists|t2: int|
                            0 <= t2 < m && (#[trigger] units@[t2])@ == all[j as int].unit,
                    decreases m - t,
                {
                    if units[t].eq(&self.rows[j].unit) {
                        found = true;
                    }
                    t += 1;
                }
                proof {
                    if found {
                        let w = choose|t2: int|
                            0 <= t2 < m && (#[trigger] units@[t2])@ == all[j as int].unit;
                        assert(prevu[w] == all[j as int].unit);
                        assert(prevu.contains(all[j as int].unit));
                    } else {
                        assert(!prevu.contains(all[j as int].unit)) by {
                            if prevu.contains(all[j as int].unit) {
                                let w = choose|w: int|
                                    0 <= w < prevu.len() && prevu[w] == all[j as int].unit;
                                assert(units@[w]@ == all[j as int].unit);
                            }
                        }
                    }
                }
                if !found {
                    units.push(self.rows[j].unit.clone());
                    proof {
                        assert(units_view(units@) =~= prevu.push(all[j as int].unit));
                    }
                }
                proof {
                    assert(units_view(units@) == units_seen(all.take(j + 1), node_id));
                    assert forall|u: UnitV|
                        #[trigger] sum_for(all.take(j + 1), node_id, u) > 0 implies units_view(
                        units@,
                    ).contains(u) by {
                        if u == all[j as int].unit {
                            if found {
                                let w = choose|t2: int|
                                    0 <= t2 < m && (#[trigger] units@[t2])@ == u;
                                assert(units_view(units@)[w] == u);
                            } else {
                                assert(units_view(units@)[m as int] == u);
                            }
                        } else {
                            assert(sum_for(all.take(j as int), node_id, u) > 0);
                            let w = choose|w: int|
                                0 <= w < prevu.len() && #[trigger] prevu[w] == u;
                            assert(units_view(units@)[w] == u);
                        }
                    }
                }
            } else {
                proof {
                    assert forall|u: UnitV|
                        #[trigger] sum_for(all.take(j + 1), node_id, u) > 0 implies units_view(
                        units@,
                    ).contains(u) by {
                        assert(sum_for(all.take(j as int), node_id, u) > 0);
                    }
                }
            }
            j += 1;
        }
        proof {
            assert(all.take(n as int) =~= all);
        }
        // Second pass: keep the units with a positive total, in that order.
        let m = units.len();
        let mut out: Vec<Balance> = Vec::new();
        let mut t: usize = 0;
        while t < m
            invariant
                self.wf(),
                all == rows_view(self.rows@),
                m == units@.len(),
                t <= m,
                units_view(units@) == units_seen(all, node_id),
                forall|t1: int, t2: int|
                    0 <= t1 < t2 < units@.len() ==> (#[trigger] units@[t1])@ != (
                    #[trigger] units@[t2])@,
                balance_units(out@) == keep_positive(
                    units_view(units@).take(t as int),
                    all,
                    node_id,
                ),
                forall|q: int|
                    0 <= q < out@.len() ==> (#[trigger] out@[q]).amount > 0 && out@[q].amount
                        as nat == sum_for(all, node_id, out@[q].unit@),
                forall|q: int|
                    0 <= q < out@.len() ==> exists|t2: int|
                        0 <= t2 < t && (#[trigger] units@[t2])@ == (#[trigger] out@[q]).unit@,
                forall|q1: int, q2: int|
                    0 <= q1 < q2 < out@.len() ==> (#[trigger] out@[q1]).unit@ != (
                    #[trigger] out@[q2]).unit@,
            decreases m - t,
        {
            let amount = self.available(node_id, &units[t]);
            let ghost oldout = out@;
            proof {
                assert(units_view(units@).take(t + 1).drop_last() =~= units_view(units@).take(
                    t as int,
                ));
                assert(units_view(units@).take(t + 1).last() == units@[t as int]@);
            }
            if amount > 0 {
                let bal = Balance { unit: units[t].clone(), amount };
                out.push(bal);
                proof {
                    assert(balance_units(out@) =~= balance_units(oldout).push(units@[t as int]@));
                    assert forall|q1: int, q2: int|
                        0 <= q1 < q2 < out@.len() implies (#[trigger] out@[q1]).unit@ != (
                    #[trigger] out@[q2]).unit@ by {
                        if q2 == out@.len() - 1 {
                            let t2 = choose|t2: int|
                                0 <= t2 < t && (#[trigger] units@[t2])@ == oldout[q1].unit@;
                            assert(units@[t2]@ != units@[t as int]@);
                        }
                    }
                }
            }
            t += 1;
        }
        proof {
            assert(units_view(units@).take(m as int) =~= units_view(units@));
            assert forall|u: UnitV| #[trigger] sum_for(all, node_id, u) > 0 implies exists|q: int|
                0 <= q < out@.len() && (#[trigger] out@[q]).unit@ == u by {
                let us = units_view(units@);
                let w = choose|w: int| 0 <= w < us.len() && #[trigger] us[w] == u;
                lemma_keep_positive_contains(us, all, node_id, w);
                let q = choose|q: int|
                    0 <= q < balance_units(out@).len() && #[trigger] balance_units(out@)[q] == u;
                assert(out@[q].unit@ == u);
            }
        }
        out
    }

    /// Balance query: one entry per registered node, in registration order,
    /// listing exactly the units the node holds a positive unspent amount
    /// in. A pair absent from the result has zero unspent amount; no zero
    /// amount is ever emitted. Read-only.
    pub fn balances(&self) -> (r: Vec<MintBalances>)
        requires
            self.wf(),
        ensures
            r@.len() == self.nodes@.len(),
            forall|i: int| 0 <= i < r@.len() ==> (#[trigger] r@[i]).url@ == self.nodes@[i]@,
            forall|i: int, t: int|
                0 <= i < r@.len() && 0 <= t < (#[trigger] r@[i]).balances@.len() ==> (
                #[trigger] r@[i].balances@[t]).amount > 0 && r@[i].balances@[t].amount as nat
                    == sum_for(rows_view(self.rows@), i as u32, r@[i].balances@[t].unit@),
            forall|i: int, t1: int, t2: int|
                0 <= i < r@.len() && 0 <= t1 < t2 < (#[trigger] r@[i]).balances@.len() ==> (
                #[trigger] r@[i].balances@[t1]).unit@ != (#[trigger] r@[i].balances@[t2]).unit@,
            forall|i: int, u: UnitV|
                0 <= i < r@.len() && #[trigger] sum_for(rows_view(self.rows@), i as u32, u) > 0
                    ==> exists|t: int|
                    0 <= t < r@[i].balances@.len() && (#[trigger] r@[i].balances@[t]).unit@ == u,
            forall|i: int|
                0 <= i < r@.len() ==> balance_units((#[trigger] r@[i]).balances@) == keep_positive(
                    units_seen(rows_view(self.rows@), i as u32),
                    rows_view(self.rows@),
                    i as u32,
                ),
    {
        let n = self.nodes.len();
        let mut r: Vec<MintBalances> = Vec::new();
        let mut i: usize = 0;
        while i < n
            invariant
                self.wf(),
                n == self.nodes@.len(),
                i <= n,
                r@.len() == i,
                forall|i2: int| 0 <= i2 < i ==> (#[trigger] r@[i2]).url@ == self.nodes@[i2]@,
                forall|i2: int, t: int|
                    0 <= i2 < i && 0 <= t < (#[trigger] r@[i2]).balances@.len() ==> (
                    #[trigger] r@[i2].balances@[t]).amount > 0 && r@[i2].balances@[t].amount as nat
                        == sum_for(rows_view(self.rows@), i2 as u32, r@[i2].balances@[t].unit@),
                forall|i2: int, t1: int, t2: int|
                    0 <= i2 < i && 0 <= t1 < t2 < (#[trigger] r@[i2]).balances@.len() ==> (
                    #[trigger] r@[i2].balances@[t1]).unit@ != (
                    #[trigger] r@[i2].balances@[t2]).unit@,
                forall|i2: int, u: UnitV|
                    0 <= i2 < i && #[trigger] sum_for(rows_view(self.rows@), i2 as u32, u) > 0
                        ==> exists|t: int|
                        0 <= t < r@[i2].balances@.len() && (#[trigger] r@[i2].balances@[t]).unit@
                            == u,
                forall|i2: int|
                    0 <= i2 < i ==> balance_units((#[trigger] r@[i2]).balances@) == keep_positive(
                        units_seen(rows_view(self.rows@), i2 as u32),
                        rows_view(self.rows@),
                        i2 as u32,
                    ),
            decreases n - i,
        {
            let bs = self.node_balances(i as u32);
            let ghost bsv = bs@;
            let ghost oldr = r@;
            let mb = MintBalances { url: self.nodes[i].clone(), balances: bs };
            r.push(mb);
            proof {
                assert forall|i2: int, u: UnitV|
                    0 <= i2 < i + 1 && #[trigger] sum_for(rows_view(self.rows@), i2 as u32, u) > 0
                        implies exists|t: int|
                        0 <= t < r@[i2].balances@.len() && (#[trigger] r@[i2].balances@[t]).unit@
                            == u by {
                    if i2 == i {
                        let tt = choose|tt: int|
                            0 <= tt < bsv.len() && (#[trigger] bsv[tt]).unit@ == u;
                        assert(r@[i2].balances@[tt].unit@ == u);
                    } else {
                        assert(r@[i2] == oldr[i2]);
                        let tt = choose|tt: int|
                            0 <= tt < oldr[i2].balances@.len() && (
                            #[trigger] oldr[i2].balances@[tt]).unit@ == u;
                        assert(r@[i2].balances@[tt].unit@ == u);
                    }
                }
            }
            i += 1;
        }
        r
    }
}

} // verus!
