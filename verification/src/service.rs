//! The wallet orchestrator: balance query, wad reception, and wad creation.
//!
//! Network round trips to mint nodes are suspension points, so the two
//! mutating workflows are explicit step machines: the orchestrator decides,
//! an unverified driver performs the node call and hands back the outcome as
//! an event, and every decision in between is verified. Within one run the
//! steps are strictly sequential, one wad or one plan entry at a time, and a
//! failure at any step aborts the remaining sequence at once; effects already
//! committed for earlier wads stay committed.
use vstd::prelude::*;

use crate::balances::{unit_canonical, MintBalances, Unit, UnitV};
use crate::errors::CashuWalletServiceError;
use crate::ledger::{
    avail_prefix, lemma_avail_partition, lemma_sum_le_total, lemma_sum_take_le, row_counts,
    rows_view, sel_total, sum_for, total_unspent, Ledger, RowV,
};
use crate::wad::{
    opt_str_view, proofs_total, proofs_view, wads_view, Proof, ReceiveWadsRequest,
    ReceiveWadsResponse, Wad, WadReceptionInfo,
};

verus! {

/// The core service: every operation works against this shared ledger.
pub struct WalletOrchestrator {
    pub ledger: Ledger,
}

/// One spend-plan entry: how much to draw from one node.
pub struct PlanEntry {
    pub node_id: u32,
    pub amount: u64,
}

/// Total amount a plan draws.
pub open spec fn plan_total(plan: Seq<PlanEntry>) -> nat
    decreases plan.len(),
{
    if plan.len() == 0 {
        0
    } else {
        plan_total(plan.drop_last()) + plan.last().amount as nat
    }
}

/// Selects which nodes to draw from, and how much from each, to cover
/// `amount` in `unit`: nodes are taken in registration order, each up to its
/// available balance, until the amount is covered. The entries sum exactly
/// to the requested amount and no entry exceeds its node's unspent balance.
/// Fails exactly when the total balance across all nodes cannot cover the
/// amount: with no registered node that is a planning failure, otherwise an
/// insufficient-funds failure naming the last node considered.
pub fn plan_spend(l: &Ledger, amount: u64, unit: &Unit) -> (r: Result<
    Vec<PlanEntry>,
    CashuWalletServiceError,
>)
    requires
        l.wf(),
    ensures
        match r {
            Ok(plan) => {
                &&& plan_total(plan@) == amount
                &&& forall|q: int|
                    0 <= q < plan@.len() ==> (#[trigger] plan@[q]).amount > 0 && plan@[q].amount
                        as nat <= sum_for(rows_view(l.rows@), plan@[q].node_id, unit@) && (
                    plan@[q].node_id as int) < l.nodes@.len()
                &&& forall|q1: int, q2: int|
                    0 <= q1 < q2 < plan@.len() ==> (#[trigger] plan@[q1]).node_id < (
                    #[trigger] plan@[q2]).node_id
                &&& total_unspent(rows_view(l.rows@), unit@) >= amount
            },
            Err(e) => {
                &&& total_unspent(rows_view(l.rows@), unit@) < amount
                &&& if l.nodes@.len() == 0 {
                    e matches CashuWalletServiceError::PlanSpending(_)
                } else {
                    e matches CashuWalletServiceError::NotEnoughFunds(n) && n as int
                        == l.nodes@.len() - 1
                }
            },
        },
{
    let ghost all = rows_view(l.rows@);
    let n = l.node_count();
    let mut plan: Vec<PlanEntry> = Vec::new();
    let mut remaining: u64 = amount;
    let mut i: usize = 0;
    while i < n
        invariant
            l.wf(),
            all == rows_view(l.rows@),
            n == l.nodes@.len(),
            i <= n,
            plan_total(plan@) + remaining as nat == amount as nat,
            plan_total(plan@) <= avail_prefix(all, unit@, i as int),
            remaining > 0 ==> plan_total(plan@) == avail_prefix(all, unit@, i as int),
            forall|q: int|
                0 <= q < plan@.len() ==> (#[trigger] plan@[q]).amount > 0 && plan@[q].amount
                    as nat <= sum_for(all, plan@[q].node_id, unit@) && (plan@[q].node_id as int)
                    < i,
            forall|q1: int, q2: int|
                0 <= q1 < q2 < plan@.len() ==> (#[trigger] plan@[q1]).node_id < (
                #[trigger] plan@[q2]).node_id,
        decreases n - i,
    {
        let avail = l.available(i as u32, unit);
        let take = if avail < remaining {
            avail
        } else {
            remaining
        };
        let ghost oldplan = plan@;
        if take > 0 {
            plan.push(PlanEntry { node_id: i as u32, amount: take });
            proof {
                assert(plan@.drop_last() =~= oldplan);
            }
        }
        proof {
            assert(avail_prefix(all, unit@, i + 1) == avail_prefix(all, unit@, i as int) + sum_for(
                all,
                i as u32,
                unit@,
            ));
        }
        remaining = remaining - take;
        i += 1;
    }
    proof {
        lemma_avail_partition(all, unit@, n as int);
    }
    if remaining == 0 {
        proof {
            lemma_avail_partition(all, unit@, n as int);
        }
        Ok(plan)
    } else if n == 0 {
        Err(
            CashuWalletServiceError::PlanSpending(
                "no registered node to draw from".to_owned(),
            ),
        )
    } else {
        Err(CashuWalletServiceError::NotEnoughFunds((n - 1) as u32))
    }
}

/// The outcome of one wad's node round trip during reception: the node
/// swapped the wad's proofs for fresh ones, or it could not be reached, or
/// it refused the exchange.
pub enum ReceiveEvent {
    Swapped(Vec<Proof>),
    ConnectFailed(String),
    ExchangeFailed(String),
}

/// An in-progress reception: the parsed wads, how many have been exchanged,
/// and the receipts produced so far, in input order.
pub struct ReceiveRun {
    pub wads: Vec<Wad>,
    pub next: usize,
    pub receipts: Vec<WadReceptionInfo>,
}

/// A reception run is consistent: one receipt per exchanged wad, and every
/// wad's unit canonical, as parsing guarantees.
pub open spec fn receive_run_wf(run: ReceiveRun) -> bool {
    &&& run.next <= run.wads@.len()
    &&& run.receipts@.len() == run.next
    &&& forall|k: int|
        0 <= k < run.wads@.len() ==> unit_canonical((#[trigger] run.wads@[k])@.unit)
}

impl WalletOrchestrator {
    /// A service over an empty ledger.
    pub fn new() -> (s: WalletOrchestrator)
        ensures
            s.ledger.wf(),
            s.ledger.nodes@.len() == 0,
            s.ledger.rows@.len() == 0,
            s.ledger.records@.len() == 0,
    {
        WalletOrchestrator { ledger: Ledger::new() }
    }

    /// Balance query: see `Ledger::balances`. Read-only.
    pub fn get_all_nodes_balances(&self) -> (r: Vec<MintBalances>)
        requires
            self.ledger.wf(),
        ensures
            r@.len() == self.ledger.nodes@.len(),
            forall|i: int| 0 <= i < r@.len() ==> (#[trigger] r@[i]).url@ == self.ledger.nodes@[i]@,
            forall|i: int, t: int|
                0 <= i < r@.len() && 0 <= t < (#[trigger] r@[i]).balances@.len() ==> (
                #[trigger] r@[i].balances@[t]).amount > 0 && r@[i].balances@[t].amount as nat
                    == sum_for(
                    rows_view(self.ledger.rows@),
                    i as u32,
                    r@[i].balances@[t].unit@,
                ),
            forall|i: int, u: UnitV|
                0 <= i < r@.len() && #[trigger] sum_for(rows_view(self.ledger.rows@), i as u32, u)
                    > 0 ==> exists|t: int|
                    0 <= t < r@[i].balances@.len() && (#[trigger] r@[i].balances@[t]).unit@ == u,
            forall|i: int|
                0 <= i < r@.len() ==> crate::ledger::balance_units((#[trigger] r@[i]).balances@)
                    == crate::ledger::keep_positive(
                    crate::ledger::units_seen(rows_view(self.ledger.rows@), i as u32),
                    rows_view(self.ledger.rows@),
                    i as u32,
                ),
    {
        self.ledger.balances()
    }

    /// First validation gate of reception: parses the caller's bundle
    /// string. A run starts exactly when the string is the wire form of a
    /// list of wads, and then holds exactly that list with no wad exchanged
    /// yet; anything else is rejected as caller input.
    pub fn receive_start(req: &ReceiveWadsRequest) -> (r: Result<
        ReceiveRun,
        CashuWalletServiceError,
    >)
        ensures
            match r {
                Ok(run) => receive_run_wf(run) && run.next == 0 && run.receipts@.len() == 0
                    && crate::codec::bundle_encodes(req.wads@, wads_view(run.wads@)),
                Err(e) => e matches CashuWalletServiceError::CompactWadFromStr(_),
            },
            forall|wl: Seq<crate::wad::WadV>|
                crate::codec::bundle_encodes(req.wads@, wl) ==> (r matches Ok(run) && wads_view(
                    run.wads@,
                ) == wl),
    {
        match crate::codec::parse_wads(req.wads.as_str()) {
            None => Err(
                CashuWalletServiceError::CompactWadFromStr(
                    "the wads parameter does not parse as a wad bundle".to_owned(),
                ),
            ),
            Some(ws) => Ok(ReceiveRun { wads: ws, next: 0, receipts: Vec::new() }),
        }
    }

    /// Processes the outcome of the next wad's node round trip, in input
    /// order. A connection failure changes nothing; an exchange failure
    /// leaves the node registered but nothing credited; a successful swap
    /// registers the node, credits the fresh proofs, and appends the
    /// receipt. Any failure aborts the run: receipts already produced stay,
    /// as do their ledger credits, but they are not returned to the caller.
    #[verifier::spinoff_prover]
    #[verifier::rlimit(60)]
    pub fn receive_step(&mut self, run: &mut ReceiveRun, event: ReceiveEvent) -> (r: Result<
        (),
        CashuWalletServiceError,
    >)
        requires
            old(self).ledger.wf(),
            receive_run_wf(*old(run)),
            old(run).next < old(run).wads@.len(),
        ensures
            final(self).ledger.wf(),
            final(run).wads == old(run).wads,
            event matches ReceiveEvent::ConnectFailed(d) ==> {
                &&& r matches Err(e) && e matches CashuWalletServiceError::ConnectToNode(x) && x@
                    == d@
                &&& *final(self) == *old(self)
                &&& *final(run) == *old(run)
            },
            event matches ReceiveEvent::ExchangeFailed(d) ==> {
                &&& r matches Err(e) && ((e matches CashuWalletServiceError::ReceiveWad(x) && x@
                    == d@) || ((e matches CashuWalletServiceError::Register(_)) && old(
                    self,
                ).ledger.nodes@.len() == u32::MAX))
                &&& rows_view(final(self).ledger.rows@) == rows_view(old(self).ledger.rows@)
                &&& final(self).ledger.records == old(self).ledger.records
                &&& *final(run) == *old(run)
            },
            event matches ReceiveEvent::Swapped(fresh) ==> match r {
                    Ok(_) => {
                        &&& receive_run_wf(*final(run))
                        &&& final(run).next == old(run).next + 1
                        &&& final(run).receipts@.len() == old(run).receipts@.len() + 1
                        &&& final(run).receipts@.drop_last() == old(run).receipts@
                        &&& {
                            let rcpt = final(run).receipts@.last();
                            let wad = old(run).wads@[old(run).next as int];
                            &&& rcpt.mint_url@ == wad@.node_url
                            &&& rcpt.unit@ == wad@.unit
                            &&& opt_str_view(rcpt.memo) == wad@.memo
                            &&& rcpt.amount as nat == proofs_total(proofs_view(fresh@))
                        }
                        &&& forall|u2: UnitV|
                            #[trigger] total_unspent(rows_view(final(self).ledger.rows@), u2)
                                == total_unspent(rows_view(old(self).ledger.rows@), u2) + if u2
                                == old(run).wads@[old(run).next as int]@.unit {
                                proofs_total(proofs_view(fresh@))
                            } else {
                                0
                            }
                        &&& exists|j: int|
                            0 <= j < final(self).ledger.nodes@.len()
                                && (#[trigger] final(self).ledger.nodes@[j])@ == old(
                                run,
                            ).wads@[old(run).next as int]@.node_url
                        &&& final(self).ledger.records == old(self).ledger.records
                    },
                    Err(e) => {
                        &&& (e matches CashuWalletServiceError::Db(_) || e matches
                            CashuWalletServiceError::Register(_))
                        &&& e matches CashuWalletServiceError::Register(_) ==> old(
                            self,
                        ).ledger.nodes@.len() == u32::MAX
                        &&& e matches CashuWalletServiceError::Db(_) ==> exists|id: u32|
                            proofs_total(proofs_view(fresh@)) + sum_for(
                                rows_view(old(self).ledger.rows@),
                                id,
                                old(run).wads@[old(run).next as int]@.unit,
                            ) > u64::MAX
                        &&& rows_view(final(self).ledger.rows@) == rows_view(
                            old(self).ledger.rows@,
                        )
                        &&& final(self).ledger.records == old(self).ledger.records
                        &&& *final(run) == *old(run)
                    },
            },
    {
        match event {
            ReceiveEvent::ConnectFailed(d) => Err(CashuWalletServiceError::ConnectToNode(d)),
            ReceiveEvent::ExchangeFailed(d) => {
                let url = run.wads[run.next].node_url.clone();
                match self.ledger.register_node(url.as_str()) {
                    Err(_) => Err(
                        CashuWalletServiceError::Register(
                            "no node identifier left to register the node under".to_owned(),
                        ),
                    ),
                    Ok(_) => Err(CashuWalletServiceError::ReceiveWad(d)),
                }
            },
            ReceiveEvent::Swapped(fresh) => self.receive_swapped(run, fresh),
        }
    }


    /// The successful-swap step of reception: registers the wad's node,
    /// credits the fresh proofs, and appends the receipt.
    #[verifier::spinoff_prover]
    #[verifier::rlimit(60)]
    fn receive_swapped(&mut self, run: &mut ReceiveRun, fresh: Vec<Proof>) -> (r: Result<
        (),
        CashuWalletServiceError,
    >)
        requires
            old(self).ledger.wf(),
            receive_run_wf(*old(run)),
            old(run).next < old(run).wads@.len(),
        ensures
            final(self).ledger.wf(),
            final(run).wads == old(run).wads,
            match r {
                    Ok(_) => {
                        &&& receive_run_wf(*final(run))
                        &&& final(run).next == old(run).next + 1
                        &&& final(run).receipts@.len() == old(run).receipts@.len() + 1
                        &&& final(run).receipts@.drop_last() == old(run).receipts@
                        &&& {
                            let rcpt = final(run).receipts@.last();
                            let wad = old(run).wads@[old(run).next as int];
                            &&& rcpt.mint_url@ == wad@.node_url
                            &&& rcpt.unit@ == wad@.unit
                            &&& opt_str_view(rcpt.memo) == wad@.memo
                            &&& rcpt.amount as nat == proofs_total(proofs_view(fresh@))
                        }
                        &&& forall|u2: UnitV|
                            #[trigger] total_unspent(rows_view(final(self).ledger.rows@), u2)
                                == total_unspent(rows_view(old(self).ledger.rows@), u2) + if u2
                                == old(run).wads@[old(run).next as int]@.unit {
                                proofs_total(proofs_view(fresh@))
                            } else {
                                0
                            }
                        &&& exists|j: int|
                            0 <= j < final(self).ledger.nodes@.len()
                                && (#[trigger] final(self).ledger.nodes@[j])@ == old(
                                run,
                            ).wads@[old(run).next as int]@.node_url
                        &&& final(self).ledger.records == old(self).ledger.records
                    },
                    Err(e) => {
                        &&& (e matches CashuWalletServiceError::Db(_) || e matches
                            CashuWalletServiceError::Register(_))
                        &&& e matches CashuWalletServiceError::Register(_) ==> old(
                            self,
                        ).ledger.nodes@.len() == u32::MAX
                        &&& e matches CashuWalletServiceError::Db(_) ==> exists|id: u32|
                            proofs_total(proofs_view(fresh@)) + sum_for(
                                rows_view(old(self).ledger.rows@),
                                id,
                                old(run).wads@[old(run).next as int]@.unit,
                            ) > u64::MAX
                        &&& rows_view(final(self).ledger.rows@) == rows_view(
                            old(self).ledger.rows@,
                        )
                        &&& final(self).ledger.records == old(self).ledger.records
                        &&& *final(run) == *old(run)
                    },
            },
    {
        let url = run.wads[run.next].node_url.clone();
        let node_id = match self.ledger.register_node(url.as_str()) {
            Err(_) => {
                return Err(
                    CashuWalletServiceError::Register(
                        "no node identifier left to register the node under".to_owned(),
                    ),
                );
            },
            Ok(id) => id,
        };
        let unit = run.wads[run.next].unit.clone();
        match self.ledger.credit(node_id, &unit, &fresh) {
            Err(_) => Err(
                CashuWalletServiceError::Db(
                    "crediting the received amount would overflow the node's balance".to_owned(),
                ),
            ),
            Ok(amt) => {
                let memo = match &run.wads[run.next].memo {
                    Some(m) => Some(m.clone()),
                    None => None,
                };
                let rcpt = WadReceptionInfo {
                    mint_url: url,
                    amount: amt,
                    unit: run.wads[run.next].unit.clone(),
                    memo,
                };
                run.receipts.push(rcpt);
                proof {
                    assert(run.receipts@.drop_last() =~= old(run).receipts@);
                }
                let wl = run.wads.len();
                proof {
                    assert(run.next < wl);
                }
                run.next = run.next + 1;
                proof {
                    let rc = run.receipts@.last();
                    let wad = old(run).wads@[old(run).next as int];
                    assert(receive_run_wf(*run));
                    assert(run.next == old(run).next + 1);
                    assert(run.receipts@.len() == old(run).receipts@.len() + 1);
                    assert(rc.mint_url@ == wad@.node_url);
                    assert(rc.unit@ == wad@.unit);
                    assert(opt_str_view(rc.memo) == wad@.memo);
                    assert(rc.amount as nat == proofs_total(proofs_view(fresh@)));
                    assert(exists|j: int|
                        0 <= j < self.ledger.nodes@.len()
                            && (#[trigger] self.ledger.nodes@[j])@ == wad@.node_url) by {
                        assert(self.ledger.nodes@[node_id as int]@ == wad@.node_url);
                    }
                    assert(self.ledger.records == old(self).ledger.records);
                    assert forall|u2: UnitV|
                        #[trigger] total_unspent(rows_view(self.ledger.rows@), u2)
                            == total_unspent(rows_view(old(self).ledger.rows@), u2) + if u2
                            == wad@.unit {
                            proofs_total(proofs_view(fresh@))
                        } else {
                            0
                        } by {}
                }
                Ok(())
            },
        }
    }

    /// Ends a fully processed reception: the complete receipt list, one per
    /// wad, in input order.
    pub fn receive_finish(run: ReceiveRun) -> (r: ReceiveWadsResponse)
        requires
            run.next == run.wads@.len(),
        ensures
            r.wads_received == run.receipts,
    {
        ReceiveWadsResponse { wads_received: run.receipts }
    }
}


/// Total amount carried by a list of wads.
pub open spec fn wads_proofs_total(wl: Seq<crate::wad::WadV>) -> nat
    decreases wl.len(),
{
    if wl.len() == 0 {
        0
    } else {
        wads_proofs_total(wl.drop_last()) + proofs_total(wl.last().proofs)
    }
}

/// Amount the first `k` plan entries draw from node `n`.
pub open spec fn plan_drawn(plan: Seq<PlanEntry>, k: int, n: u32) -> nat
    decreases k,
{
    if k <= 0 || k > plan.len() {
        0
    } else {
        plan_drawn(plan, k - 1, n) + if plan[k - 1].node_id == n {
            plan[k - 1].amount as nat
        } else {
            0
        }
    }
}

/// A wad list that carries exactly its plan's draws carries the plan total.
pub proof fn lemma_wads_carry_plan(wl: Seq<crate::wad::WadV>, plan: Seq<PlanEntry>)
    requires
        wl.len() == plan.len(),
        forall|k: int|
            0 <= k < wl.len() ==> proofs_total((#[trigger] wl[k]).proofs) == (
            #[trigger] plan[k]).amount as nat,
    ensures
        wads_proofs_total(wl) == plan_total(plan),
    decreases wl.len(),
{
    if wl.len() > 0 {
        lemma_wads_carry_plan(wl.drop_last(), plan.drop_last());
        assert(wl.last() == wl[wl.len() - 1]);
        assert(plan.last() == plan[plan.len() - 1]);
        assert forall|k: int|
            0 <= k < wl.drop_last().len() implies proofs_total(
            (#[trigger] wl.drop_last()[k]).proofs,
        ) == (#[trigger] plan.drop_last()[k]).amount as nat by {
            assert(wl.drop_last()[k] == wl[k]);
            assert(plan.drop_last()[k] == plan[k]);
        }
    }
}

/// Two row lists that agree at the selected positions select the same total.
pub proof fn lemma_sel_total_agree(rows1: Seq<RowV>, rows2: Seq<RowV>, idxs: Seq<usize>)
    requires
        forall|q: int|
            0 <= q < idxs.len() ==> (#[trigger] idxs[q]) < rows1.len() && idxs[q] < rows2.len()
                && rows2[idxs[q] as int] == rows1[idxs[q] as int],
    ensures
        sel_total(rows2, idxs) == sel_total(rows1, idxs),
    decreases idxs.len(),
{
    if idxs.len() > 0 {
        lemma_sel_total_agree(rows1, rows2, idxs.drop_last());
        assert(idxs.last() == idxs[idxs.len() - 1]);
        assert forall|q: int|
            0 <= q < idxs.drop_last().len() implies (#[trigger] idxs.drop_last()[q]) < rows1.len()
                && idxs.drop_last()[q] < rows2.len() && rows2[idxs.drop_last()[q] as int]
                == rows1[idxs.drop_last()[q] as int] by {
            assert(idxs.drop_last()[q] == idxs[q]);
        }
    }
}

/// What the driver must ask a node during creation: reissue `amount` for the
/// wad and `excess` as change, consuming the proofs the orchestrator
/// selected at that node.
pub struct SwapRequest {
    pub node_id: u32,
    pub node_url: String,
    pub amount: u64,
    pub excess: u64,
}

/// The outcome of a change-making swap: the node provided the wad's proofs
/// and the change, or it could not cover the request, or it could not be
/// reached.
pub enum SwapEvent {
    Provided(Vec<Proof>, Vec<Proof>),
    Unavailable,
    ConnectFailed(String),
}

/// An in-progress creation: the resolved unit and amount, the spend plan,
/// and per processed entry the assembled wad, the row positions it consumes,
/// and the change to credit back. Nothing is persisted until the run
/// finishes: a failure before then leaves the ledger untouched.
pub struct CreateRun {
    pub unit: Unit,
    pub amount: u64,
    pub plan: Vec<PlanEntry>,
    pub next: usize,
    pub wads: Vec<Wad>,
    pub sels: Vec<Vec<usize>>,
    pub changes: Vec<Vec<Proof>>,
    pub pending_sel: Vec<usize>,
    pub pending_total: u64,
    pub pending: bool,
}

/// A selection is strictly increasing positions of unspent `(node, unit)`
/// rows.
pub open spec fn sel_ok(l: Ledger, sel: Seq<usize>, node: u32, unit: UnitV) -> bool {
    &&& forall|q1: int, q2: int| 0 <= q1 < q2 < sel.len() ==> sel[q1] < sel[q2]
    &&& forall|q: int|
        0 <= q < sel.len() ==> (#[trigger] sel[q]) < l.rows@.len() && row_counts(
            rows_view(l.rows@)[sel[q] as int],
            node,
            unit,
        )
}

/// Entry `k` of the run is fully assembled: its wad carries exactly the
/// planned draw for its node in the run's unit, with no memo, and the rows
/// it consumes cover the wad plus the change.
pub open spec fn entry_settled(run: CreateRun, l: Ledger, k: int) -> bool {
    let node = run.plan@[k].node_id;
    let sel = run.sels@[k]@;
    let wad = run.wads@[k]@;
    &&& sel_ok(l, sel, node, run.unit@)
    &&& sel_total(rows_view(l.rows@), sel) == proofs_total(wad.proofs) + proofs_total(
        proofs_view(run.changes@[k]@),
    )
    &&& proofs_total(wad.proofs) == run.plan@[k].amount as nat
    &&& wad.proofs.len() > 0
    &&& wad.node_url == l.nodes@[node as int]@
    &&& wad.unit == run.unit@
    &&& wad.memo is None
}

/// A creation run is consistent with the ledger it was planned against.
pub open spec fn create_run_wf(run: CreateRun, l: Ledger) -> bool {
    &&& unit_canonical(run.unit@)
    &&& run.next <= run.plan@.len()
    &&& run.wads@.len() == run.next
    &&& run.sels@.len() == run.next
    &&& run.changes@.len() == run.next
    &&& plan_total(run.plan@) == run.amount as nat
    &&& forall|q: int|
        0 <= q < run.plan@.len() ==> (#[trigger] run.plan@[q]).amount > 0 && (
        run.plan@[q].node_id as int) < l.nodes@.len()
    &&& forall|q1: int, q2: int|
        0 <= q1 < q2 < run.plan@.len() ==> (#[trigger] run.plan@[q1]).node_id < (
        #[trigger] run.plan@[q2]).node_id
    &&& forall|k: int| 0 <= k < run.next ==> #[trigger] entry_settled(run, l, k)
    &&& run.pending ==> run.next < run.plan@.len() && sel_ok(
        l,
        run.pending_sel@,
        run.plan@[run.next as int].node_id,
        run.unit@,
    ) && run.pending_total as nat == sel_total(rows_view(l.rows@), run.pending_sel@)
        && run.plan@[run.next as int].amount <= run.pending_total
}

impl WalletOrchestrator {
    /// First gates of creation: resolve the asset to its best-fit unit,
    /// parse the decimal amount into a count of that unit (a caller-input
    /// failure when malformed or out of range), and plan the spend across
    /// nodes (failing exactly when the total balance cannot cover it).
    /// Nothing is persisted.
    pub fn create_start(l: &Ledger, req: &crate::wad::CreateWadsRequest) -> (r: Result<
        CreateRun,
        CashuWalletServiceError,
    >)
        requires
            l.wf(),
            crate::balances::spec_asset_of_symbol(req.asset@) is Some,
        ensures
            match r {
                Ok(run) => {
                    &&& create_run_wf(run, *l)
                    &&& run.next == 0
                    &&& !run.pending
                    &&& run.unit@ == crate::balances::spec_best_unit(
                        crate::balances::spec_asset_of_symbol(req.asset@)->Some_0,
                    )
                    &&& crate::amount::spec_parse_amount(
                        req.amount@,
                        crate::balances::spec_asset_decimals(
                            crate::balances::spec_asset_of_symbol(req.asset@)->Some_0,
                        ),
                    ) == Some(run.amount as nat)
                    &&& total_unspent(rows_view(l.rows@), run.unit@) >= run.amount
                    &&& forall|q: int|
                        0 <= q < run.plan@.len() ==> (#[trigger] run.plan@[q]).amount as nat
                            <= sum_for(rows_view(l.rows@), run.plan@[q].node_id, run.unit@)
                },
                Err(e) => {
                    &&& (e matches CashuWalletServiceError::ParseAssetAmount(_) || e matches
                        CashuWalletServiceError::PlanSpending(_) || e matches
                        CashuWalletServiceError::NotEnoughFunds(_))
                    &&& e matches CashuWalletServiceError::ParseAssetAmount(_) ==> forall|v: u64|
                        crate::amount::spec_parse_amount(
                            req.amount@,
                            crate::balances::spec_asset_decimals(
                                crate::balances::spec_asset_of_symbol(req.asset@)->Some_0,
                            ),
                        ) != Some(v as nat)
                    &&& !(e matches CashuWalletServiceError::ParseAssetAmount(_)) ==> exists|
                        v: u64,
                    |
                        crate::amount::spec_parse_amount(
                            req.amount@,
                            crate::balances::spec_asset_decimals(
                                crate::balances::spec_asset_of_symbol(req.asset@)->Some_0,
                            ),
                        ) == Some(v as nat) && total_unspent(
                            rows_view(l.rows@),
                            crate::balances::spec_best_unit(
                                crate::balances::spec_asset_of_symbol(req.asset@)->Some_0,
                            ),
                        ) < v
                    &&& e matches CashuWalletServiceError::NotEnoughFunds(n) ==> n as int
                        == l.nodes@.len() - 1
                },
            },
    {
        let asset = match crate::balances::Asset::from_symbol(req.asset.as_str()) {
            Some(a) => a,
            None => {
                // Unreachable: the caller resolves the asset first.
                proof {
                    assert(false);
                }
                return Err(CashuWalletServiceError::PlanSpending(String::new()));
            },
        };
        let unit = asset.best_unit();
        let d = asset.decimals();
        let amount = match crate::amount::parse_amount(req.amount.as_str(), d) {
            None => {
                return Err(
                    CashuWalletServiceError::ParseAssetAmount(
                        "the amount is not a valid decimal quantity of the asset".to_owned(),
                    ),
                );
            },
            Some(v) => v,
        };
        let plan = match plan_spend(l, amount, &unit) {
            Err(e) => {
                return Err(e);
            },
            Ok(p) => p,
        };
        Ok(
            CreateRun {
                unit,
                amount,
                plan,
                next: 0,
                wads: Vec::new(),
                sels: Vec::new(),
                changes: Vec::new(),
                pending_sel: Vec::new(),
                pending_total: 0,
                pending: false,
            },
        )
    }
}


impl WalletOrchestrator {
    /// Processes the next plan entry: selects unspent rows of that node in
    /// the run's unit, taking rows in storage order until the draw is
    /// covered. When local holdings cover the draw exactly, the wad is
    /// assembled from them and the entry completes with no outside work;
    /// otherwise nothing advances and the returned request asks the node to
    /// reissue the draw plus change for the selected rows. The ledger is
    /// read, never written.
    pub fn create_next(l: &Ledger, run: &mut CreateRun) -> (r: Option<SwapRequest>)
        requires
            l.wf(),
            create_run_wf(*old(run), *l),
            old(run).next < old(run).plan@.len(),
            !old(run).pending,
            old(run).plan@[old(run).next as int].amount as nat <= sum_for(
                rows_view(l.rows@),
                old(run).plan@[old(run).next as int].node_id,
                old(run).unit@,
            ),
        ensures
            create_run_wf(*final(run), *l),
            final(run).unit == old(run).unit,
            final(run).amount == old(run).amount,
            final(run).plan == old(run).plan,
            match r {
                None => {
                    &&& final(run).next == old(run).next + 1
                    &&& !final(run).pending
                    &&& final(run).wads@.drop_last() == old(run).wads@
                    &&& proofs_view(final(run).changes@.last()@) =~= Seq::<
                        crate::wad::ProofV,
                    >::empty()
                },
                Some(req) => {
                    &&& *final(run) == CreateRun {
                        pending_sel: final(run).pending_sel,
                        pending_total: final(run).pending_total,
                        pending: true,
                        ..*old(run)
                    }
                    &&& req.node_id == old(run).plan@[old(run).next as int].node_id
                    &&& req.node_url@ == l.nodes@[req.node_id as int]@
                    &&& req.amount == old(run).plan@[old(run).next as int].amount
                    &&& req.amount + req.excess == final(run).pending_total
                    &&& req.excess > 0
                },
            },
    {
        let ghost all = rows_view(l.rows@);
        let node = run.plan[run.next].node_id;
        let draw = run.plan[run.next].amount;
        let n = l.rows.len();
        let mut sel: Vec<usize> = Vec::new();
        let mut acc: u64 = 0;
        let mut j: usize = 0;
        while j < n && acc < draw
            invariant
                l.wf(),
                all == rows_view(l.rows@),
                n == l.rows@.len(),
                j <= n,
                node == run.plan@[old(run).next as int].node_id,
                draw == run.plan@[old(run).next as int].amount,
                run == old(run),
                sel_ok(*l, sel@, node, run.unit@),
                forall|q: int| 0 <= q < sel@.len() ==> (#[trigger] sel@[q]) < j,
                acc as nat == sel_total(all, sel@),
                acc < draw ==> acc as nat == sum_for(all.take(j as int), node, run.unit@),
                acc as nat <= sum_for(all.take(j as int), node, run.unit@),
                acc <= draw || (sel@.len() > 0 && acc as nat == sel_total(all, sel@)),
            decreases n - j,
        {
            let row = &l.rows[j];
            proof {
                assert(all.take(j + 1).drop_last() =~= all.take(j as int));
                assert(all.take(j + 1).last() == row@);
                lemma_sum_take_le(all, j + 1, node, run.unit@);
            }
            if row.node_id == node && !row.spent && row.unit.eq(&run.unit) {
                let ghost oldsel = sel@;
                sel.push(j);
                acc = acc + row.amount;
                proof {
                    assert(sel@.drop_last() =~= oldsel);
                    assert(sel@.last() == j);
                }
            }
            j += 1;
        }
        proof {
            if acc < draw {
                assert(all.take(n as int) =~= all);
            }
        }
        if acc == draw {
            // Local holdings cover the draw exactly: assemble the wad.
            let m = sel.len();
            let mut proofs: Vec<Proof> = Vec::new();
            let mut q: usize = 0;
            while q < m
                invariant
                    l.wf(),
                    all == rows_view(l.rows@),
                    m == sel@.len(),
                    q <= m,
                    sel_ok(*l, sel@, node, run.unit@),
                    proofs_total(proofs_view(proofs@)) == sel_total(all, sel@.take(q as int)),
                    proofs@.len() == q,
                decreases m - q,
            {
                let idx = sel[q];
                let p = Proof {
                    amount: l.rows[idx].amount,
                    secret: l.rows[idx].secret.clone(),
                };
                let ghost oldp = proofs_view(proofs@);
                proofs.push(p);
                proof {
                    assert(proofs_view(proofs@) =~= oldp.push(p@));
                    assert(proofs_view(proofs@).drop_last() =~= oldp);
                    assert(sel@.take(q + 1).drop_last() =~= sel@.take(q as int));
                    assert(sel@.take(q + 1).last() == sel@[q as int]);
                }
                q += 1;
            }
            proof {
                assert(sel@.take(m as int) =~= sel@);
                assert(sel@.len() > 0) by {
                    if sel@.len() == 0 {
                        assert(sel_total(all, sel@) == 0);
                    }
                }
            }
            let url = l.node_url(node);
            let wad = Wad { node_url: url, unit: run.unit.clone(), memo: None, proofs };
            let ghost oldwads = run.wads@;
            run.wads.push(wad);
            run.sels.push(sel);
            run.changes.push(Vec::new());
            let wl = run.wads.len();
            run.next = run.next + 1;
            proof {
                assert(run.wads@.drop_last() =~= oldwads);
                assert(proofs_view(Seq::<Proof>::empty()) =~= Seq::<crate::wad::ProofV>::empty());
                assert forall|k: int| 0 <= k < run.next implies #[trigger] entry_settled(
                    *run,
                    *l,
                    k,
                ) by {
                    if k < run.next - 1 {
                        assert(entry_settled(*old(run), *l, k));
                        assert(run.wads@[k] == old(run).wads@[k]);
                        assert(run.sels@[k] == old(run).sels@[k]);
                        assert(run.changes@[k] == old(run).changes@[k]);
                    } else {
                        assert(run.wads@[k]@.proofs =~= proofs_view(
                            run.wads@[k].proofs@,
                        ));
                    }
                }
            }
            None
        } else {
            // The node must reissue: the selection overshoots the draw.
            let url = l.node_url(node);
            run.pending_sel = sel;
            run.pending_total = acc;
            run.pending = true;
            proof {
                assert forall|k: int| 0 <= k < run.next implies #[trigger] entry_settled(
                    *run,
                    *l,
                    k,
                ) by {
                    assert(entry_settled(*old(run), *l, k));
                }
            }
            Some(SwapRequest { node_id: node, node_url: url, amount: draw, excess: acc - draw })
        }
    }

    /// Processes the outcome of a change-making swap for the pending entry.
    /// The node's proofs are accepted exactly when they carry the draw and
    /// the change the request named; mismatched amounts are a proof-exchange
    /// failure, an uncovered request is an insufficient-funds failure at
    /// that node, and an unreachable node a connection failure. The ledger
    /// is never touched.
    pub fn create_swap(l: &Ledger, run: &mut CreateRun, ev: SwapEvent) -> (r: Result<
        (),
        CashuWalletServiceError,
    >)
        requires
            l.wf(),
            create_run_wf(*old(run), *l),
            old(run).pending,
        ensures
            create_run_wf(*final(run), *l),
            final(run).unit == old(run).unit,
            final(run).amount == old(run).amount,
            final(run).plan == old(run).plan,
            match ev {
                SwapEvent::ConnectFailed(d) => r matches Err(e) && e matches
                    CashuWalletServiceError::ConnectToNode(x) && x@ == d@ && *final(run) == *old(
                    run,
                ),
                SwapEvent::Unavailable => r matches Err(e) && e matches
                    CashuWalletServiceError::NotEnoughFunds(nd) && nd == old(run).plan@[old(
                    run,
                ).next as int].node_id && *final(run) == *old(run),
                SwapEvent::Provided(wp, change) => match r {
                    Ok(_) => {
                        &&& proofs_total(proofs_view(wp@)) == old(run).plan@[old(
                            run,
                        ).next as int].amount as nat
                        &&& proofs_total(proofs_view(change@)) + old(run).plan@[old(
                            run,
                        ).next as int].amount as nat == old(run).pending_total as nat
                        &&& final(run).next == old(run).next + 1
                        &&& !final(run).pending
                        &&& final(run).wads@.drop_last() == old(run).wads@
                        &&& proofs_view(final(run).changes@.last()@) == proofs_view(change@)
                    },
                    Err(e) => {
                        &&& e matches CashuWalletServiceError::ReceiveWad(_)
                        &&& *final(run) == *old(run)
                        &&& !(proofs_total(proofs_view(wp@)) == old(run).plan@[old(
                            run,
                        ).next as int].amount as nat && proofs_total(proofs_view(change@)) + old(
                            run,
                        ).plan@[old(run).next as int].amount as nat == old(
                            run,
                        ).pending_total as nat)
                    },
                },
            },
    {
        match ev {
            SwapEvent::ConnectFailed(d) => Err(CashuWalletServiceError::ConnectToNode(d)),
            SwapEvent::Unavailable => Err(
                CashuWalletServiceError::NotEnoughFunds(run.plan[run.next].node_id),
            ),
            SwapEvent::Provided(wp, change) => {
                let draw = run.plan[run.next].amount;
                let wsum = match sum_proofs(&wp) {
                    None => {
                        return Err(
                            CashuWalletServiceError::ReceiveWad(
                                "the node returned mismatched exchange amounts".to_owned(),
                            ),
                        );
                    },
                    Some(x) => x,
                };
                let csum = match sum_proofs(&change) {
                    None => {
                        return Err(
                            CashuWalletServiceError::ReceiveWad(
                                "the node returned mismatched exchange amounts".to_owned(),
                            ),
                        );
                    },
                    Some(x) => x,
                };
                if !(wsum == draw && csum <= run.pending_total && run.pending_total - csum
                    == draw) {
                    return Err(
                        CashuWalletServiceError::ReceiveWad(
                            "the node returned mismatched exchange amounts".to_owned(),
                        ),
                    );
                }
                let node = run.plan[run.next].node_id;
                let url = l.node_url(node);
                let wad = Wad { node_url: url, unit: run.unit.clone(), memo: None, proofs: wp };
                let ghost oldwads = run.wads@;
                let mut sel: Vec<usize> = Vec::new();
                core::mem::swap(&mut sel, &mut run.pending_sel);
                run.wads.push(wad);
                run.sels.push(sel);
                run.changes.push(change);
                run.pending = false;
                let wl = run.wads.len();
                run.next = run.next + 1;
                proof {
                    assert(run.wads@.drop_last() =~= oldwads);
                    assert(proofs_total(proofs_view(run.wads@.last().proofs@)) == draw as nat);
                    assert(run.wads@.last()@.proofs =~= proofs_view(run.wads@.last().proofs@));
                    assert forall|k: int| 0 <= k < run.next implies #[trigger] entry_settled(
                        *run,
                        *l,
                        k,
                    ) by {
                        if k < run.next - 1 {
                            assert(entry_settled(*old(run), *l, k));
                            assert(run.wads@[k] == old(run).wads@[k]);
                            assert(run.sels@[k] == old(run).sels@[k]);
                            assert(run.changes@[k] == old(run).changes@[k]);
                        } else {
                            assert(proofs_total(run.wads@[k]@.proofs) > 0);
                            assert(run.wads@[k]@.proofs.len() > 0) by {
                                if run.wads@[k]@.proofs.len() == 0 {
                                    assert(proofs_total(run.wads@[k]@.proofs) == 0);
                                }
                            }
                        }
                    }
                }
                Ok(())
            },
        }
    }
}

/// Total amount of a proof list; nothing once it leaves `u64` range.
fn sum_proofs(ps: &Vec<Proof>) -> (r: Option<u64>)
    ensures
        match r {
            Some(v) => v as nat == proofs_total(proofs_view(ps@)),
            None => proofs_total(proofs_view(ps@)) > u64::MAX,
        },
{
    let ghost pv = proofs_view(ps@);
    let n = ps.len();
    let mut acc: u64 = 0;
    let mut j: usize = 0;
    while j < n
        invariant
            pv == proofs_view(ps@),
            n == ps@.len(),
            j <= n,
            acc as nat == proofs_total(pv.take(j as int)),
        decreases n - j,
    {
        proof {
            assert(pv.take(j + 1).drop_last() =~= pv.take(j as int));
            assert(pv.take(j + 1).last() == ps@[j as int]@);
        }
        let a = ps[j].amount;
        if a > u64::MAX - acc {
            proof {
                crate::ledger::lemma_proofs_total_take_le(pv, j + 1);
            }
            return None;
        }
        acc = acc + a;
        j += 1;
    }
    proof {
        assert(pv.take(n as int) =~= pv);
    }
    Some(acc)
}


/// Positions converted to proof identifiers.
fn ids_of(sel: &Vec<usize>) -> (r: Vec<u64>)
    ensures
        r@.len() == sel@.len(),
        forall|q: int| 0 <= q < r@.len() ==> r@[q] == (#[trigger] sel@[q]) as u64,
{
    let n = sel.len();
    let mut r: Vec<u64> = Vec::new();
    let mut q: usize = 0;
    while q < n
        invariant
            n == sel@.len(),
            q <= n,
            r@.len() == q,
            forall|t: int| 0 <= t < q ==> r@[t] == (#[trigger] sel@[t]) as u64,
        decreases n - q,
    {
        r.push(sel[q] as u64);
        q += 1;
    }
    r
}

impl WalletOrchestrator {
    /// The persistence pass of creation, run only after every plan entry has
    /// produced a wad: in plan order, each wad's consumed rows are marked
    /// spent, its change is credited back, and an outbound transaction is
    /// recorded — the wads are never handed out before their proofs are
    /// durably marked spent. The unit's total drops by exactly the requested
    /// amount, each drawn-from node by exactly its draw; every other total is
    /// untouched. The result is the bundle string encoding exactly the
    /// assembled wads, which together carry the requested amount.
    pub fn create_finish(&mut self, run: CreateRun) -> (r: crate::wad::CreateWadsResponse)
        requires
            old(self).ledger.wf(),
            create_run_wf(run, old(self).ledger),
            run.next == run.plan@.len(),
            !run.pending,
        ensures
            final(self).ledger.wf(),
            final(self).ledger.nodes == old(self).ledger.nodes,
            crate::codec::bundle_encodes(r.wads@, wads_view(run.wads@)),
            wads_proofs_total(wads_view(run.wads@)) == run.amount as nat,
            total_unspent(rows_view(final(self).ledger.rows@), run.unit@) + run.amount as nat
                == total_unspent(rows_view(old(self).ledger.rows@), run.unit@),
            forall|u2: UnitV|
                u2 != run.unit@ ==> #[trigger] total_unspent(
                    rows_view(final(self).ledger.rows@),
                    u2,
                ) == total_unspent(rows_view(old(self).ledger.rows@), u2),
            forall|n2: u32|
                #[trigger] sum_for(rows_view(final(self).ledger.rows@), n2, run.unit@)
                    + plan_drawn(run.plan@, run.plan@.len() as int, n2) == sum_for(
                    rows_view(old(self).ledger.rows@),
                    n2,
                    run.unit@,
                ),
            final(self).ledger.records@.len() == old(self).ledger.records@.len()
                + run.plan@.len(),
            forall|k: int|
                0 <= k < run.plan@.len() ==> {
                    let rec = #[trigger] final(self).ledger.records@[old(
                        self,
                    ).ledger.records@.len() + k];
                    &&& rec.wad_type is Out
                    &&& rec.node_url@ == old(self).ledger.nodes@[run.plan@[k].node_id as int]@
                    &&& rec.memo is None
                },
    {
        let ghost l0 = old(self).ledger;
        let ghost oldrows = rows_view(old(self).ledger.rows@);
        let ghost oldrecs = old(self).ledger.records@;
        let n = run.plan.len();
        let mut k: usize = 0;
        while k < n
            invariant
                self.ledger.wf(),
                n == run.plan@.len(),
                k <= n,
                create_run_wf(run, l0),
                run.next == n,
                !run.pending,
                oldrows == rows_view(l0.rows@),
                oldrecs == l0.records@,
                self.ledger.nodes == l0.nodes,
                self.ledger.rows@.len() >= oldrows.len(),
                forall|t: int|
                    0 <= t < oldrows.len() ==> ((#[trigger] rows_view(self.ledger.rows@)[t])
                        == oldrows[t] || rows_view(self.ledger.rows@)[t] == crate::ledger::spend_row(
                        oldrows[t],
                    )),
                forall|k2: int, q: int|
                    k <= k2 < n && 0 <= q < run.sels@[k2]@.len() ==> rows_view(
                        self.ledger.rows@,
                    )[(#[trigger] run.sels@[k2]@[q]) as int] == oldrows[run.sels@[k2]@[q] as int],
                total_unspent(rows_view(self.ledger.rows@), run.unit@) + plan_total(
                    run.plan@.take(k as int),
                ) == total_unspent(oldrows, run.unit@),
                forall|u2: UnitV|
                    u2 != run.unit@ ==> #[trigger] total_unspent(rows_view(self.ledger.rows@), u2)
                        == total_unspent(oldrows, u2),
                forall|n2: u32|
                    #[trigger] sum_for(rows_view(self.ledger.rows@), n2, run.unit@) + plan_drawn(
                        run.plan@,
                        k as int,
                        n2,
                    ) == sum_for(oldrows, n2, run.unit@),
                self.ledger.records@.len() == oldrecs.len() + k,
                forall|t: int| 0 <= t < oldrecs.len() ==> self.ledger.records@[t] == oldrecs[t],
                forall|k2: int|
                    0 <= k2 < k ==> {
                        let rec = #[trigger] self.ledger.records@[oldrecs.len() + k2];
                        &&& rec.wad_type is Out
                        &&& rec.node_url@ == l0.nodes@[run.plan@[k2].node_id as int]@
                        &&& rec.memo is None
                    },
            decreases n - k,
        {
            let node = run.plan[k].node_id;
            let ghost draw = run.plan@[k as int].amount as nat;
            proof {
                assert(entry_settled(run, l0, k as int));
                assert(run.plan@.take(k + 1).drop_last() =~= run.plan@.take(k as int));
                assert(run.plan@.take(k + 1).last() == run.plan@[k as int]);
            }
            let ghost rowsbefore = rows_view(self.ledger.rows@);
            // The selected rows are still unspent rows of this node and unit.
            proof {
                assert forall|q: int|
                    0 <= q < run.sels@[k as int]@.len() implies (#[trigger] run.sels@[k as int]@[q])
                    < self.ledger.rows@.len() && row_counts(
                    rows_view(self.ledger.rows@)[run.sels@[k as int]@[q] as int],
                    node,
                    run.unit@,
                ) by {
                    let t = run.sels@[k as int]@[q] as int;
                    assert(rows_view(self.ledger.rows@)[t] == oldrows[t]);
                }
                lemma_sel_total_agree(oldrows, rowsbefore, run.sels@[k as int]@);
            }
            self.ledger.mark_spent(node, &run.unit, &run.sels[k]);
            let ghost rowsmarked = rows_view(self.ledger.rows@);
            // The change only restores part of what was just marked spent.
            proof {
                lemma_sum_le_total(oldrows, node, run.unit@);
            }
            let cr = self.ledger.credit(node, &run.unit, &run.changes[k]);
            match cr {
                Err(_) => {
                    proof {
                        assert(false);
                    }
                    // The credit cannot be refused: it restores part of what
                    // the marking just removed.
                    return crate::wad::CreateWadsResponse { wads: String::new() };
                },
                Ok(_) => {},
            }
            let ids = ids_of(&run.sels[k]);
            let url = self.ledger.node_url(node);
            let rec = crate::ledger::WadRecord {
                wad_type: crate::ledger::WadType::Out,
                node_url: url,
                memo: None,
                proof_ids: ids,
            };
            self.ledger.add_record(rec);
            proof {
                let ghost rowsnow = rows_view(self.ledger.rows@);
                assert(rowsnow.len() == self.ledger.rows@.len());
                assert(rowsnow.len() >= rowsmarked.len());
                assert(rowsmarked.len() == rowsbefore.len());
                // Rows already present keep their values except for the marks.
                assert forall|t: int|
                    0 <= t < oldrows.len() implies ((#[trigger] rowsnow[t]) == oldrows[t] || rowsnow[t]
                    == crate::ledger::spend_row(oldrows[t])) by {
                    assert(rowsmarked[t] == if crate::ledger::idx_contains(
                        run.sels@[k as int]@,
                        t,
                    ) {
                        crate::ledger::spend_row(rowsbefore[t])
                    } else {
                        rowsbefore[t]
                    });
                    assert(rowsnow[t] == rowsmarked[t]);
                }
                // Later entries' selections are untouched: their rows belong
                // to later nodes.
                assert forall|k2: int, q: int|
                    k + 1 <= k2 < n && 0 <= q < run.sels@[k2]@.len() implies rowsnow[(
                #[trigger] run.sels@[k2]@[q]) as int] == oldrows[run.sels@[k2]@[q] as int] by {
                    let t = run.sels@[k2]@[q] as int;
                    assert(entry_settled(run, l0, k2));
                    assert(row_counts(oldrows[t], run.plan@[k2].node_id, run.unit@));
                    assert(run.plan@[k as int].node_id < run.plan@[k2].node_id);
                    assert(!crate::ledger::idx_contains(run.sels@[k as int]@, t)) by {
                        if crate::ledger::idx_contains(run.sels@[k as int]@, t) {
                            let ghost sk = run.sels@[k as int]@;
                            let w = choose|w: int| 0 <= w < sk.len() && #[trigger] sk[w] == t;
                            assert(row_counts(oldrows[t], node, run.unit@));
                        }
                    }
                    assert(rowsmarked[t] == rowsbefore[t]);
                    assert(rowsnow[t] == rowsmarked[t]);
                }
            }
            k += 1;
        }
        proof {
            assert(run.plan@.take(n as int) =~= run.plan@);
            assert forall|q: int|
                0 <= q < run.wads@.len() implies unit_canonical(
                (#[trigger] run.wads@[q])@.unit,
            ) by {
                assert(entry_settled(run, l0, q));
            }
        }
        let bundle = crate::codec::serialize_wads(&run.wads);
        proof {
            assert forall|q: int|
                0 <= q < wads_view(run.wads@).len() implies proofs_total(
                (#[trigger] wads_view(run.wads@)[q]).proofs,
            ) == (#[trigger] run.plan@[q]).amount as nat by {
                assert(entry_settled(run, l0, q));
                assert(wads_view(run.wads@)[q] == run.wads@[q]@);
            }
            lemma_wads_carry_plan(wads_view(run.wads@), run.plan@);
        }
        crate::wad::CreateWadsResponse { wads: bundle }
    }
}

/// Law: spend-then-reclaim is balance-neutral. A creation that removes
/// exactly `amount` of a unit from the ledger's total and hands out a bundle
/// carrying that amount, followed by a reception of the same bundle in which
/// every node credits exactly what the bundle carries, restores the unit's
/// original total.
pub proof fn lemma_spend_then_reclaim(
    rows0: Seq<RowV>,
    rows1: Seq<RowV>,
    rows2: Seq<RowV>,
    u: UnitV,
    wl: Seq<crate::wad::WadV>,
    amount: nat,
)
    requires
        total_unspent(rows1, u) + amount == total_unspent(rows0, u),
        wads_proofs_total(wl) == amount,
        total_unspent(rows2, u) == total_unspent(rows1, u) + wads_proofs_total(wl),
    ensures
        total_unspent(rows2, u) == total_unspent(rows0, u),
{
}


} // verus!
