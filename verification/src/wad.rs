//! Wads: self-contained, single-mint bundles of bearer-token proofs, and the
//! request/response types of the three caller-facing operations.
use vstd::prelude::*;

use crate::balances::{Unit, UnitV, unit_canonical};

verus! {

/// An opaque, mint-issued unit of value, redeemable exactly once.
pub struct Proof {
    pub amount: u64,
    pub secret: String,
}

/// Mathematical value of a `Proof`.
#[verifier::ext_equal]
pub struct ProofV {
    pub amount: u64,
    pub secret: Seq<char>,
}

impl View for Proof {
    type V = ProofV;

    open spec fn view(&self) -> ProofV {
        ProofV { amount: self.amount, secret: self.secret@ }
    }
}

impl Clone for Proof {
    fn clone(&self) -> (r: Self)
        ensures
            r@ == self@,
    {
        Proof { amount: self.amount, secret: self.secret.clone() }
    }
}

/// A single-mint bearer-token bundle: the issuing node, the unit its proofs
/// are counted in, an optional memo, and the proofs themselves.
pub struct Wad {
    pub node_url: String,
    pub unit: Unit,
    pub memo: Option<String>,
    pub proofs: Vec<Proof>,
}

/// Mathematical value of a `Wad`.
#[verifier::ext_equal]
pub struct WadV {
    pub node_url: Seq<char>,
    pub unit: UnitV,
    pub memo: Option<Seq<char>>,
    pub proofs: Seq<ProofV>,
}

/// The value of an optional string.
pub open spec fn opt_str_view(m: Option<String>) -> Option<Seq<char>> {
    match m {
        Some(s) => Some(s@),
        None => None,
    }
}

impl View for Wad {
    type V = WadV;

    open spec fn view(&self) -> WadV {
        WadV {
            node_url: self.node_url@,
            unit: self.unit@,
            memo: opt_str_view(self.memo),
            proofs: proofs_view(self.proofs@),
        }
    }
}

/// The deep value of a list of wads.
pub open spec fn wads_view(ws: Seq<Wad>) -> Seq<WadV> {
    ws.map_values(|w: Wad| w@)
}

/// The deep value of a list of proofs.
pub open spec fn proofs_view(ps: Seq<Proof>) -> Seq<ProofV> {
    ps.map_values(|p: Proof| p@)
}

/// Total amount carried by a sequence of proofs.
pub open spec fn proofs_total(ps: Seq<ProofV>) -> nat
    decreases ps.len(),
{
    if ps.len() == 0 {
        0
    } else {
        proofs_total(ps.drop_last()) + ps.last().amount as nat
    }
}

/// A well-formed wad: its unit is canonical, so that the identifier the wad
/// carries on the wire denotes the unit itself.
pub open spec fn wad_wf(w: WadV) -> bool {
    unit_canonical(w.unit)
}

/// The wads a caller asks to receive: a colon-separated sequence of
/// tag-prefixed, base64-encoded single-mint bundles.
pub struct ReceiveWadsRequest {
    pub wads: String,
}

/// The receipts of a fully successful reception, one per wad, in input order.
pub struct ReceiveWadsResponse {
    pub wads_received: Vec<WadReceptionInfo>,
}

/// A wad receipt: the amount has been credited to the wallet's balance for
/// this mint.
pub struct WadReceptionInfo {
    pub mint_url: String,
    pub amount: u64,
    pub unit: Unit,
    pub memo: Option<String>,
}

/// Mathematical value of a receipt.
pub struct WadReceptionInfoV {
    pub mint_url: Seq<char>,
    pub amount: u64,
    pub unit: UnitV,
    pub memo: Option<Seq<char>>,
}

impl View for WadReceptionInfo {
    type V = WadReceptionInfoV;

    open spec fn view(&self) -> WadReceptionInfoV {
        WadReceptionInfoV {
            mint_url: self.mint_url@,
            amount: self.amount,
            unit: self.unit@,
            memo: match self.memo {
                Some(m) => Some(m@),
                None => None,
            },
        }
    }
}

/// What a caller asks to spend: a decimal quantity of a real-world asset.
pub struct CreateWadsRequest {
    pub amount: String,
    pub asset: String,
}

/// The newly created wads, ready to be sent, in the same colon-separated,
/// tag-prefixed, base64-encoded format `ReceiveWadsRequest` accepts.
pub struct CreateWadsResponse {
    pub wads: String,
}

} // verus!
