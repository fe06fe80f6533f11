use cashu_wallet_core::amount::parse_amount;
use cashu_wallet_core::balances::{Asset, Unit};

#[test]
fn known_units_resolve_exactly() {
    assert!(matches!(Unit::from_symbol("sat"), Unit::Satoshi));
    assert!(matches!(Unit::from_symbol("gwei"), Unit::Gwei));
    assert!(matches!(Unit::from_symbol("millistrk"), Unit::MilliStrk));
    assert!(matches!(Unit::from_symbol("musdt"), Unit::MicroUsdT));
    assert!(matches!(Unit::from_symbol("musdc"), Unit::MicroUsdC));
}

#[test]
fn unknown_unit_passes_through_and_keeps_its_text() {
    let u = Unit::from_symbol("banana");
    assert!(matches!(&u, Unit::Other(s) if s == "banana"));
    assert_eq!(u.symbol(), "banana");
    let again = Unit::from_symbol(u.symbol().as_str());
    assert!(u == again);
}

#[test]
fn unit_symbols_round_trip() {
    for sym in ["sat", "gwei", "millistrk", "musdt", "musdc", "weird unit"] {
        let u = Unit::from_symbol(sym);
        assert_eq!(u.symbol(), sym);
    }
}

#[test]
fn assets_resolve_to_their_best_unit() {
    assert!(matches!(Asset::from_symbol("BTC"), Some(Asset::Btc)));
    assert!(matches!(Asset::from_symbol("ETH"), Some(Asset::Eth)));
    assert!(matches!(Asset::from_symbol("STRK"), Some(Asset::Strk)));
    assert!(matches!(Asset::from_symbol("USDT"), Some(Asset::UsdT)));
    assert!(matches!(Asset::from_symbol("USDC"), Some(Asset::UsdC)));
    assert!(Asset::from_symbol("DOGE").is_none());
    assert!(matches!(Asset::Btc.best_unit(), Unit::Satoshi));
    assert!(matches!(Asset::Eth.best_unit(), Unit::Gwei));
    assert_eq!(Asset::Btc.decimals(), 8);
    assert_eq!(Asset::Eth.decimals(), 9);
    assert_eq!(Asset::Strk.decimals(), 6);
}

#[test]
fn amounts_parse_to_unit_counts() {
    // 0.0005 BTC at 10^8 sat per BTC is 50000 sat.
    assert_eq!(parse_amount("0.0005", 8), Some(50000));
    // 42.35 USDC at 10^6 micro-USDC per USDC.
    assert_eq!(parse_amount("42.35", 6), Some(42350000));
    assert_eq!(parse_amount("7", 0), Some(7));
    assert_eq!(parse_amount("0", 8), Some(0));
    assert_eq!(parse_amount("1.5", 9), Some(1500000000));
}

#[test]
fn malformed_amounts_are_rejected() {
    assert_eq!(parse_amount("", 8), None);
    assert_eq!(parse_amount("abc", 8), None);
    assert_eq!(parse_amount("1.2.3", 8), None);
    assert_eq!(parse_amount(".5", 8), None);
    assert_eq!(parse_amount("5.", 8), None);
    assert_eq!(parse_amount("-1", 8), None);
    assert_eq!(parse_amount("1,5", 8), None);
}

#[test]
fn too_fine_or_too_large_amounts_are_rejected() {
    // Ten fractional digits cannot be represented at eight decimals.
    assert_eq!(parse_amount("0.0123456789", 8), None);
    // Exactly at the limit is fine.
    assert_eq!(parse_amount("0.12345678", 8), Some(12345678));
    // Out of u64 range.
    assert_eq!(parse_amount("999999999999999999999", 0), None);
    assert_eq!(parse_amount("18446744073709551615", 0), Some(u64::MAX));
    assert_eq!(parse_amount("18446744073709551616", 0), None);
}
