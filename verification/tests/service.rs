use cashu_wallet_core::balances::Unit;
use cashu_wallet_core::codec::parse_wads;
use cashu_wallet_core::errors::{CashuWalletServiceError, ErrorClass, ErrorReport};
use cashu_wallet_core::service::{ReceiveEvent, SwapEvent, WalletOrchestrator};
use cashu_wallet_core::wad::{CreateWadsRequest, Proof, ReceiveWadsRequest};

fn mk_proof(amount: u64, secret: &str) -> Proof {
    Proof { amount, secret: secret.to_owned() }
}

fn expect_err<T>(r: Result<T, CashuWalletServiceError>) -> CashuWalletServiceError {
    match r {
        Err(e) => e,
        Ok(_) => panic!("expected an error"),
    }
}

/// A wallet holding 50000 sat at one node.
fn wallet_with_50000_sat() -> WalletOrchestrator {
    let mut orch = WalletOrchestrator::new();
    let id = orch.ledger.register_node("http://nodea").unwrap();
    assert_eq!(id, 0);
    let credited = orch
        .ledger
        .credit(id, &Unit::from_symbol("sat"), &vec![mk_proof(50000, "seed-proof")])
        .unwrap();
    assert_eq!(credited, 50000);
    orch
}

fn sat_balance_of(orch: &WalletOrchestrator, url: &str) -> u64 {
    for mb in orch.get_all_nodes_balances() {
        if mb.url == url {
            for b in mb.balances {
                if matches!(b.unit, Unit::Satoshi) {
                    return b.amount;
                }
            }
            return 0;
        }
    }
    0
}

#[test]
fn balances_omit_zero_and_spent_amounts() {
    let mut orch = WalletOrchestrator::new();
    let a = orch.ledger.register_node("http://nodea").unwrap();
    let b = orch.ledger.register_node("http://nodeb").unwrap();
    orch.ledger.credit(a, &Unit::from_symbol("sat"), &vec![mk_proof(10, "p1")]).unwrap();
    orch.ledger.credit(a, &Unit::from_symbol("gwei"), &vec![mk_proof(0, "p2")]).unwrap();
    let report = orch.get_all_nodes_balances();
    assert_eq!(report.len(), 2);
    // Node A: only the positive sat total; the zero gwei total is omitted.
    assert_eq!(report[0].url, "http://nodea");
    assert_eq!(report[0].balances.len(), 1);
    assert!(matches!(report[0].balances[0].unit, Unit::Satoshi));
    assert_eq!(report[0].balances[0].amount, 10);
    // Node B holds nothing: present, with an empty balance list.
    assert_eq!(report[1].url, "http://nodeb");
    assert_eq!(report[1].balances.len(), 0);
    let _ = b;
}

#[test]
fn balance_queries_repeat_identically() {
    // Two queries on an unchanged ledger return the same report, entry for
    // entry: the unit order within a node's list is pinned.
    let mut orch = WalletOrchestrator::new();
    let a = orch.ledger.register_node("http://nodea").unwrap();
    orch.ledger.credit(a, &Unit::from_symbol("sat"), &vec![mk_proof(10, "p1")]).unwrap();
    orch.ledger.credit(a, &Unit::from_symbol("gwei"), &vec![mk_proof(3, "p2")]).unwrap();
    orch.ledger
        .credit(a, &Unit::from_symbol("banana"), &vec![mk_proof(4, "p3")])
        .unwrap();
    let r1 = orch.get_all_nodes_balances();
    let r2 = orch.get_all_nodes_balances();
    assert_eq!(r1.len(), r2.len());
    for (m1, m2) in r1.iter().zip(r2.iter()) {
        assert_eq!(m1.url, m2.url);
        assert_eq!(m1.balances.len(), m2.balances.len());
        for (b1, b2) in m1.balances.iter().zip(m2.balances.iter()) {
            assert!(b1.unit == b2.unit);
            assert_eq!(b1.amount, b2.amount);
        }
    }
    // First-appearance order of the node's unspent rows.
    assert_eq!(r1[0].balances[0].unit.symbol(), "sat");
    assert_eq!(r1[0].balances[1].unit.symbol(), "gwei");
    assert_eq!(r1[0].balances[2].unit.symbol(), "banana");
}

#[test]
fn registering_a_known_url_is_idempotent() {
    let mut orch = WalletOrchestrator::new();
    let a = orch.ledger.register_node("http://nodea").unwrap();
    let again = orch.ledger.register_node("http://nodea").unwrap();
    assert_eq!(a, again);
    assert_eq!(orch.get_all_nodes_balances().len(), 1);
}

#[test]
fn receive_of_empty_bundle_returns_no_receipts_and_changes_nothing() {
    let orch = wallet_with_50000_sat();
    let req = ReceiveWadsRequest { wads: String::new() };
    let run = WalletOrchestrator::receive_start(&req).unwrap();
    assert_eq!(run.wads.len(), 0);
    let resp = WalletOrchestrator::receive_finish(run);
    assert_eq!(resp.wads_received.len(), 0);
    assert_eq!(sat_balance_of(&orch, "http://nodea"), 50000);
}

#[test]
fn receive_of_malformed_bundle_is_a_caller_input_error() {
    let req = ReceiveWadsRequest { wads: "not a bundle".to_owned() };
    let err = expect_err(WalletOrchestrator::receive_start(&req));
    assert!(matches!(err, CashuWalletServiceError::CompactWadFromStr(_)));
    let report = ErrorReport::from_error(&err);
    assert!(matches!(report.class, ErrorClass::InvalidParams));
    assert_eq!(report.message, "invalid value for wads parameter");
}

#[test]
fn create_spends_exactly_and_empties_the_node() {
    // Ledger has 50000 sat at node A; 0.0005 BTC resolves to 50000 sat.
    let mut orch = wallet_with_50000_sat();
    let req = CreateWadsRequest { amount: "0.0005".to_owned(), asset: "BTC".to_owned() };
    let mut run = WalletOrchestrator::create_start(&orch.ledger, &req).unwrap();
    assert_eq!(run.amount, 50000);
    assert_eq!(run.plan.len(), 1);
    assert_eq!(run.plan[0].node_id, 0);
    assert_eq!(run.plan[0].amount, 50000);
    // The single 50000 proof covers the draw exactly: no node round trip.
    let action = WalletOrchestrator::create_next(&orch.ledger, &mut run);
    assert!(action.is_none());
    let resp = orch.create_finish(run);
    // One wad for node A, in sat.
    let wads = parse_wads(resp.wads.as_str()).unwrap();
    assert_eq!(wads.len(), 1);
    assert_eq!(wads[0].node_url, "http://nodea");
    assert!(matches!(wads[0].unit, Unit::Satoshi));
    let total: u64 = wads[0].proofs.iter().map(|p| p.amount).sum();
    assert_eq!(total, 50000);
    // Node A's stored unspent sat total is now zero.
    assert_eq!(sat_balance_of(&orch, "http://nodea"), 0);
}

#[test]
fn create_beyond_total_balance_names_a_node_and_changes_nothing() {
    let orch = wallet_with_50000_sat();
    let req = CreateWadsRequest { amount: "0.0006".to_owned(), asset: "BTC".to_owned() };
    let err = expect_err(WalletOrchestrator::create_start(&orch.ledger, &req));
    assert!(matches!(err, CashuWalletServiceError::NotEnoughFunds(0)));
    let report = ErrorReport::from_error(&err);
    assert!(matches!(report.class, ErrorClass::InternalError));
    assert_eq!(report.message, "not enough funds");
    // The failing node is named in the machine-decodable detail.
    assert_eq!(report.detail.as_deref(), Some("0"));
    // No proof was marked spent.
    assert_eq!(sat_balance_of(&orch, "http://nodea"), 50000);
}

#[test]
fn create_with_malformed_amount_is_a_caller_input_error() {
    let orch = wallet_with_50000_sat();
    let req = CreateWadsRequest { amount: "half a coin".to_owned(), asset: "BTC".to_owned() };
    let err = expect_err(WalletOrchestrator::create_start(&orch.ledger, &req));
    assert!(matches!(err, CashuWalletServiceError::ParseAssetAmount(_)));
    let report = ErrorReport::from_error(&err);
    assert!(matches!(report.class, ErrorClass::InvalidParams));
    assert_eq!(report.message, "invalid argument amount");
}

#[test]
fn receive_failure_keeps_the_prefix_credited_but_returns_no_receipts() {
    // A two-wad bundle whose second node is unreachable: the first wad's
    // amount is credited and visible in the balances, the call as a whole
    // fails, and no receipt list is produced.
    let mut orch = WalletOrchestrator::new();
    let wads = vec![
        cashu_wallet_core::wad::Wad {
            node_url: "http://nodea".to_owned(),
            unit: Unit::from_symbol("sat"),
            memo: None,
            proofs: vec![mk_proof(100, "w1p1")],
        },
        cashu_wallet_core::wad::Wad {
            node_url: "http://nodeb".to_owned(),
            unit: Unit::from_symbol("sat"),
            memo: None,
            proofs: vec![mk_proof(25, "w2p1")],
        },
    ];
    let bundle = cashu_wallet_core::codec::serialize_wads(&wads);
    let req = ReceiveWadsRequest { wads: bundle };
    let mut run = WalletOrchestrator::receive_start(&req).unwrap();
    assert_eq!(run.wads.len(), 2);
    // First wad: the node swaps the proofs for fresh ones of equal amount.
    orch.receive_step(&mut run, ReceiveEvent::Swapped(vec![mk_proof(100, "fresh1")])).unwrap();
    // Second wad: its node is unreachable; the whole operation fails.
    let err = expect_err(
        orch.receive_step(&mut run, ReceiveEvent::ConnectFailed("timed out".to_owned())),
    );
    assert!(matches!(err, CashuWalletServiceError::ConnectToNode(_)));
    let report = ErrorReport::from_error(&err);
    assert!(matches!(report.class, ErrorClass::InternalError));
    assert_eq!(report.message, "failed to connect to the mint node");
    // The first credit is durable and visible; the run never finishes, so
    // the receipts are not handed to the caller.
    assert_eq!(sat_balance_of(&orch, "http://nodea"), 100);
    assert_eq!(run.next, 1);
}

#[test]
fn spend_then_reclaim_is_balance_neutral() {
    // Create 50000 sat of wads, then receive the very output against the
    // same ledger with a faithful node: the sat total is restored.
    let mut orch = wallet_with_50000_sat();
    let req = CreateWadsRequest { amount: "0.0005".to_owned(), asset: "BTC".to_owned() };
    let mut run = WalletOrchestrator::create_start(&orch.ledger, &req).unwrap();
    assert!(WalletOrchestrator::create_next(&orch.ledger, &mut run).is_none());
    let resp = orch.create_finish(run);
    assert_eq!(sat_balance_of(&orch, "http://nodea"), 0);

    let rreq = ReceiveWadsRequest { wads: resp.wads };
    let mut rrun = WalletOrchestrator::receive_start(&rreq).unwrap();
    assert_eq!(rrun.wads.len(), 1);
    let carried: u64 = rrun.wads[0].proofs.iter().map(|p| p.amount).sum();
    assert_eq!(carried, 50000);
    // The node credits exactly what the wad carried.
    orch.receive_step(&mut rrun, ReceiveEvent::Swapped(vec![mk_proof(carried, "fresh")]))
        .unwrap();
    let resp = WalletOrchestrator::receive_finish(rrun);
    assert_eq!(resp.wads_received.len(), 1);
    assert_eq!(resp.wads_received[0].amount, 50000);
    assert_eq!(resp.wads_received[0].mint_url, "http://nodea");
    assert!(matches!(resp.wads_received[0].unit, Unit::Satoshi));
    assert_eq!(sat_balance_of(&orch, "http://nodea"), 50000);
}

#[test]
fn exchange_failure_aborts_after_registering_the_node() {
    let mut orch = WalletOrchestrator::new();
    let wads = vec![cashu_wallet_core::wad::Wad {
        node_url: "http://nodea".to_owned(),
        unit: Unit::from_symbol("sat"),
        memo: None,
        proofs: vec![mk_proof(5, "p")],
    }];
    let bundle = cashu_wallet_core::codec::serialize_wads(&wads);
    let mut run =
        WalletOrchestrator::receive_start(&ReceiveWadsRequest { wads: bundle }).unwrap();
    let err = expect_err(
        orch.receive_step(&mut run, ReceiveEvent::ExchangeFailed("proofs rejected".to_owned())),
    );
    assert!(matches!(err, CashuWalletServiceError::ReceiveWad(_)));
    // The node is registered, but nothing was credited.
    let report = orch.get_all_nodes_balances();
    assert_eq!(report.len(), 1);
    assert_eq!(report[0].url, "http://nodea");
    assert_eq!(report[0].balances.len(), 0);
}

#[test]
fn every_failure_kind_is_classified() {
    let cases = [
        (CashuWalletServiceError::Pool("x".to_owned()), ErrorClass::InternalError,
            "failed to get a database connection from the pool"),
        (CashuWalletServiceError::Db("x".to_owned()), ErrorClass::InternalError,
            "failed to interact with the database"),
        (CashuWalletServiceError::CompactWadFromStr("x".to_owned()), ErrorClass::InvalidParams,
            "invalid value for wads parameter"),
        (CashuWalletServiceError::SeedPhrase("x".to_owned()), ErrorClass::InternalError,
            "failed to retreive the wallet seed phrase"),
        (CashuWalletServiceError::ConnectToNode("x".to_owned()), ErrorClass::InternalError,
            "failed to connect to the mint node"),
        (CashuWalletServiceError::Register("x".to_owned()), ErrorClass::InternalError,
            "failed to register the mint node"),
        (CashuWalletServiceError::ReceiveWad("x".to_owned()), ErrorClass::InternalError,
            "failed to receive a wad"),
        (CashuWalletServiceError::ParseAssetAmount("x".to_owned()), ErrorClass::InvalidParams,
            "invalid argument amount"),
        (CashuWalletServiceError::PlanSpending("x".to_owned()), ErrorClass::InternalError,
            "could not plan spending"),
        (CashuWalletServiceError::NotEnoughFunds(3), ErrorClass::InternalError,
            "not enough funds"),
    ];
    for (err, class, message) in cases {
        let report = ErrorReport::from_error(&err);
        assert!(report.class == class);
        assert_eq!(report.message, message);
        if matches!(err, CashuWalletServiceError::NotEnoughFunds(_)) {
            // The insufficient-funds report names the node in its detail.
            assert_eq!(report.detail.as_deref(), Some("3"));
        } else {
            assert_eq!(report.detail.as_deref(), Some("x"));
        }
    }
}

#[test]
fn create_of_zero_yields_an_empty_bundle() {
    let mut orch = wallet_with_50000_sat();
    let req = CreateWadsRequest { amount: "0".to_owned(), asset: "BTC".to_owned() };
    let run = WalletOrchestrator::create_start(&orch.ledger, &req).unwrap();
    assert_eq!(run.plan.len(), 0);
    let resp = orch.create_finish(run);
    assert_eq!(resp.wads, "");
    assert_eq!(sat_balance_of(&orch, "http://nodea"), 50000);
}

#[test]
fn multi_node_create_draws_in_plan_order() {
    let mut orch = WalletOrchestrator::new();
    let a = orch.ledger.register_node("http://nodea").unwrap();
    let b = orch.ledger.register_node("http://nodeb").unwrap();
    let sat = Unit::from_symbol("sat");
    orch.ledger.credit(a, &sat, &vec![mk_proof(30, "a1")]).unwrap();
    orch.ledger.credit(b, &sat, &vec![mk_proof(40, "b1"), mk_proof(10, "b2")]).unwrap();
    // 0.0000007 BTC = 70 sat: 30 from node A, then 40 from node B.
    let req = CreateWadsRequest { amount: "0.0000007".to_owned(), asset: "BTC".to_owned() };
    let mut run = WalletOrchestrator::create_start(&orch.ledger, &req).unwrap();
    assert_eq!(run.plan.len(), 2);
    assert_eq!((run.plan[0].node_id, run.plan[0].amount), (0, 30));
    assert_eq!((run.plan[1].node_id, run.plan[1].amount), (1, 40));
    assert!(WalletOrchestrator::create_next(&orch.ledger, &mut run).is_none());
    assert!(WalletOrchestrator::create_next(&orch.ledger, &mut run).is_none());
    let resp = orch.create_finish(run);
    let wads = parse_wads(resp.wads.as_str()).unwrap();
    assert_eq!(wads.len(), 2);
    assert_eq!(wads[0].node_url, "http://nodea");
    assert_eq!(wads[1].node_url, "http://nodeb");
    assert_eq!(sat_balance_of(&orch, "http://nodea"), 0);
    assert_eq!(sat_balance_of(&orch, "http://nodeb"), 10);
}

#[test]
fn create_falls_back_to_node_change_making() {
    // 40 + 10 sat cannot cover a 45 sat draw exactly: the node must reissue
    // 45 for the wad and 5 as change, consuming the selected proofs.
    let mut orch = WalletOrchestrator::new();
    let a = orch.ledger.register_node("http://nodea").unwrap();
    let sat = Unit::from_symbol("sat");
    orch.ledger.credit(a, &sat, &vec![mk_proof(40, "a1"), mk_proof(10, "a2")]).unwrap();
    let req = CreateWadsRequest { amount: "0.00000045".to_owned(), asset: "BTC".to_owned() };
    let mut run = WalletOrchestrator::create_start(&orch.ledger, &req).unwrap();
    let swap = WalletOrchestrator::create_next(&orch.ledger, &mut run)
        .expect("an inexact cover needs the node");
    assert_eq!(swap.node_id, 0);
    assert_eq!(swap.node_url, "http://nodea");
    assert_eq!(swap.amount, 45);
    assert_eq!(swap.excess, 5);
    WalletOrchestrator::create_swap(
        &orch.ledger,
        &mut run,
        SwapEvent::Provided(vec![mk_proof(45, "fresh45")], vec![mk_proof(5, "change5")]),
    )
    .unwrap();
    let resp = orch.create_finish(run);
    let wads = parse_wads(resp.wads.as_str()).unwrap();
    assert_eq!(wads.len(), 1);
    let total: u64 = wads[0].proofs.iter().map(|p| p.amount).sum();
    assert_eq!(total, 45);
    // The change stays; the consumed proofs are spent.
    assert_eq!(sat_balance_of(&orch, "http://nodea"), 5);
}

#[test]
fn mismatched_swap_amounts_are_a_proof_exchange_failure() {
    let mut orch = WalletOrchestrator::new();
    let a = orch.ledger.register_node("http://nodea").unwrap();
    let sat = Unit::from_symbol("sat");
    orch.ledger.credit(a, &sat, &vec![mk_proof(40, "a1"), mk_proof(10, "a2")]).unwrap();
    let req = CreateWadsRequest { amount: "0.00000045".to_owned(), asset: "BTC".to_owned() };
    let mut run = WalletOrchestrator::create_start(&orch.ledger, &req).unwrap();
    assert!(WalletOrchestrator::create_next(&orch.ledger, &mut run).is_some());
    let err = expect_err(WalletOrchestrator::create_swap(
        &orch.ledger,
        &mut run,
        SwapEvent::Provided(vec![mk_proof(44, "short")], vec![mk_proof(5, "c")]),
    ));
    assert!(matches!(err, CashuWalletServiceError::ReceiveWad(_)));
    // Nothing was persisted: the run was abandoned before the pass.
    assert_eq!(sat_balance_of(&orch, "http://nodea"), 50);
}

#[test]
fn uncovered_swap_is_insufficient_funds_at_that_node() {
    let mut orch = WalletOrchestrator::new();
    let a = orch.ledger.register_node("http://nodea").unwrap();
    let sat = Unit::from_symbol("sat");
    orch.ledger.credit(a, &sat, &vec![mk_proof(40, "a1"), mk_proof(10, "a2")]).unwrap();
    let req = CreateWadsRequest { amount: "0.00000045".to_owned(), asset: "BTC".to_owned() };
    let mut run = WalletOrchestrator::create_start(&orch.ledger, &req).unwrap();
    assert!(WalletOrchestrator::create_next(&orch.ledger, &mut run).is_some());
    let err = expect_err(WalletOrchestrator::create_swap(
        &orch.ledger,
        &mut run,
        SwapEvent::Unavailable,
    ));
    assert!(matches!(err, CashuWalletServiceError::NotEnoughFunds(0)));
    assert_eq!(sat_balance_of(&orch, "http://nodea"), 50);
}
