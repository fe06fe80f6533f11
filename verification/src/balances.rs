//! Unit catalog and the balance types reported to callers.
//!
//! A `Unit` is derived purely from a string: the five known denominations are
//! matched exactly, and every other string becomes an opaque passthrough
//! value that keeps the original text for round-tripping.
use vstd::prelude::*;

use crate::strutil::str_eq;

verus! {

/// Supported token units. Each known denomination counts a fixed fraction of
/// its backing asset; anything else is carried through unchanged.
pub enum Unit {
    /// 10^-6 STRK.
    MilliStrk,
    /// 10^-9 ETH.
    Gwei,
    /// 10^-8 BTC.
    Satoshi,
    /// 10^-6 USDT.
    MicroUsdT,
    /// 10^-6 USDC.
    MicroUsdC,
    /// An asset that was not preconfigured; the identifier is kept verbatim.
    Other(String),
}

/// Mathematical value of a `Unit`: the passthrough variant carries the
/// character sequence of its identifier.
pub enum UnitV {
    MilliStrk,
    Gwei,
    Satoshi,
    MicroUsdT,
    MicroUsdC,
    Other(Seq<char>),
}

impl View for Unit {
    type V = UnitV;

    open spec fn view(&self) -> UnitV {
        match self {
            Unit::MilliStrk => UnitV::MilliStrk,
            Unit::Gwei => UnitV::Gwei,
            Unit::Satoshi => UnitV::Satoshi,
            Unit::MicroUsdT => UnitV::MicroUsdT,
            Unit::MicroUsdC => UnitV::MicroUsdC,
            Unit::Other(s) => UnitV::Other(s@),
        }
    }
}

/// The canonical identifier of a unit.
pub open spec fn spec_unit_symbol(u: UnitV) -> Seq<char> {
    match u {
        UnitV::MilliStrk => "millistrk"@,
        UnitV::Gwei => "gwei"@,
        UnitV::Satoshi => "sat"@,
        UnitV::MicroUsdT => "musdt"@,
        UnitV::MicroUsdC => "musdc"@,
        UnitV::Other(s) => s,
    }
}

/// The unit a given identifier denotes: an exact match against the known
/// set, otherwise the passthrough variant holding the identifier itself.
pub open spec fn spec_unit_of_symbol(s: Seq<char>) -> UnitV {
    if s == "millistrk"@ {
        UnitV::MilliStrk
    } else if s == "gwei"@ {
        UnitV::Gwei
    } else if s == "sat"@ {
        UnitV::Satoshi
    } else if s == "musdt"@ {
        UnitV::MicroUsdT
    } else if s == "musdc"@ {
        UnitV::MicroUsdC
    } else {
        UnitV::Other(s)
    }
}

/// A unit is canonical when its passthrough text is not one of the known
/// identifiers; units built by `Unit::from_symbol` always are.
pub open spec fn unit_canonical(u: UnitV) -> bool {
    u matches UnitV::Other(s) ==> spec_unit_of_symbol(s) == u
}

impl Unit {
    /// Derives the unit a string denotes; unmatched strings never fail.
    pub fn from_symbol(s: &str) -> (u: Unit)
        ensures
            u@ == spec_unit_of_symbol(s@),
            unit_canonical(u@),
    {
        if str_eq(s, "millistrk") {
            Unit::MilliStrk
        } else if str_eq(s, "gwei") {
            Unit::Gwei
        } else if str_eq(s, "sat") {
            Unit::Satoshi
        } else if str_eq(s, "musdt") {
            Unit::MicroUsdT
        } else if str_eq(s, "musdc") {
            Unit::MicroUsdC
        } else {
            Unit::Other(s.to_owned())
        }
    }

    /// The canonical identifier of this unit.
    pub fn symbol(&self) -> (r: String)
        ensures
            r@ == spec_unit_symbol(self@),
    {
        match self {
            Unit::MilliStrk => "millistrk".to_owned(),
            Unit::Gwei => "gwei".to_owned(),
            Unit::Satoshi => "sat".to_owned(),
            Unit::MicroUsdT => "musdt".to_owned(),
            Unit::MicroUsdC => "musdc".to_owned(),
            Unit::Other(s) => s.clone(),
        }
    }
}

impl Clone for Unit {
    fn clone(&self) -> (r: Self)
        ensures
            r@ == self@,
    {
        match self {
            Unit::MilliStrk => Unit::MilliStrk,
            Unit::Gwei => Unit::Gwei,
            Unit::Satoshi => Unit::Satoshi,
            Unit::MicroUsdT => Unit::MicroUsdT,
            Unit::MicroUsdC => Unit::MicroUsdC,
            Unit::Other(s) => Unit::Other(s.clone()),
        }
    }
}

impl PartialEq for Unit {
    fn eq(&self, other: &Self) -> (r: bool) {
        match (self, other) {
            (Unit::MilliStrk, Unit::MilliStrk) => true,
            (Unit::Gwei, Unit::Gwei) => true,
            (Unit::Satoshi, Unit::Satoshi) => true,
            (Unit::MicroUsdT, Unit::MicroUsdT) => true,
            (Unit::MicroUsdC, Unit::MicroUsdC) => true,
            (Unit::Other(a), Unit::Other(b)) => str_eq(a.as_str(), b.as_str()),
            _ => false,
        }
    }
}

impl Eq for Unit {

}

impl vstd::std_specs::cmp::PartialEqSpecImpl for Unit {
    open spec fn obeys_eq_spec() -> bool {
        true
    }

    open spec fn eq_spec(&self, other: &Self) -> bool {
        self@ == other@
    }
}

/// Real-world assets the wallet can spend; each has one best-fit unit.
#[derive(Clone, Copy, PartialEq, Eq, Structural)]
pub enum Asset {
    Strk,
    Eth,
    Btc,
    UsdT,
    UsdC,
}

/// The asset an identifier denotes, if any.
pub open spec fn spec_asset_of_symbol(s: Seq<char>) -> Option<Asset> {
    if s == "STRK"@ {
        Some(Asset::Strk)
    } else if s == "ETH"@ {
        Some(Asset::Eth)
    } else if s == "BTC"@ {
        Some(Asset::Btc)
    } else if s == "USDT"@ {
        Some(Asset::UsdT)
    } else if s == "USDC"@ {
        Some(Asset::UsdC)
    } else {
        None
    }
}

/// The asset-intrinsic best-fit unit of an asset.
pub open spec fn spec_best_unit(a: Asset) -> UnitV {
    match a {
        Asset::Strk => UnitV::MilliStrk,
        Asset::Eth => UnitV::Gwei,
        Asset::Btc => UnitV::Satoshi,
        Asset::UsdT => UnitV::MicroUsdT,
        Asset::UsdC => UnitV::MicroUsdC,
    }
}

/// How many decimal digits of the asset the best-fit unit counts: one unit
/// is 10^-d of the asset.
pub open spec fn spec_asset_decimals(a: Asset) -> nat {
    match a {
        Asset::Strk => 6,
        Asset::Eth => 9,
        Asset::Btc => 8,
        Asset::UsdT => 6,
        Asset::UsdC => 6,
    }
}

impl Asset {
    /// Resolves an asset identifier; identifiers outside the known set
    /// resolve to nothing.
    pub fn from_symbol(s: &str) -> (r: Option<Asset>)
        ensures
            r == spec_asset_of_symbol(s@),
    {
        if str_eq(s, "STRK") {
            Some(Asset::Strk)
        } else if str_eq(s, "ETH") {
            Some(Asset::Eth)
        } else if str_eq(s, "BTC") {
            Some(Asset::Btc)
        } else if str_eq(s, "USDT") {
            Some(Asset::UsdT)
        } else if str_eq(s, "USDC") {
            Some(Asset::UsdC)
        } else {
            None
        }
    }

    /// The unit amounts of this asset are counted in.
    pub fn best_unit(&self) -> (u: Unit)
        ensures
            u@ == spec_best_unit(*self),
            unit_canonical(u@),
    {
        match self {
            Asset::Strk => Unit::MilliStrk,
            Asset::Eth => Unit::Gwei,
            Asset::Btc => Unit::Satoshi,
            Asset::UsdT => Unit::MicroUsdT,
            Asset::UsdC => Unit::MicroUsdC,
        }
    }

    /// One unit is 10^-d of the asset; this returns d.
    pub fn decimals(&self) -> (d: u32)
        ensures
            d as nat == spec_asset_decimals(*self),
    {
        match self {
            Asset::Strk => 6,
            Asset::Eth => 9,
            Asset::Btc => 8,
            Asset::UsdT => 6,
            Asset::UsdC => 6,
        }
    }
}

/// A canonical unit is recovered exactly from its own identifier.
pub proof fn lemma_unit_symbol_round_trip(u: UnitV)
    requires
        unit_canonical(u),
    ensures
        spec_unit_of_symbol(spec_unit_symbol(u)) == u,
{
    reveal_strlit("millistrk");
    reveal_strlit("gwei");
    reveal_strlit("sat");
    reveal_strlit("musdt");
    reveal_strlit("musdc");
    assert("millistrk"@.len() == 9);
    assert("gwei"@.len() == 4);
    assert("sat"@.len() == 3);
    assert("musdt"@.len() == 5);
    assert("musdc"@.len() == 5);
    assert("musdt"@[4] == 't');
    assert("musdc"@[4] == 'c');
}

/// Every identifier is recovered exactly from the unit it denotes.
pub proof fn lemma_unit_of_symbol_round_trip(s: Seq<char>)
    ensures
        spec_unit_symbol(spec_unit_of_symbol(s)) == s,
{
}

/// Amount of tokens held in one unit at one mint. A zero amount is never
/// reported: an absent entry means zero.
pub struct Balance {
    pub unit: Unit,
    pub amount: u64,
}

/// Balance information for one mint node: every unit in which the node
/// holds a positive unspent amount, and nothing else.
pub struct MintBalances {
    pub url: String,
    pub balances: Vec<Balance>,
}

} // verus!
