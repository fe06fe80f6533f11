use cashu_wallet_core::balances::Unit;
use cashu_wallet_core::codec::{parse_wads, serialize_wads};
use cashu_wallet_core::wad::{Proof, Wad};

fn mk_proof(amount: u64, secret: &str) -> Proof {
    Proof { amount, secret: secret.to_owned() }
}

fn assert_same_wad(a: &Wad, b: &Wad) {
    assert_eq!(a.node_url, b.node_url);
    assert_eq!(a.unit.symbol(), b.unit.symbol());
    assert_eq!(a.memo, b.memo);
    assert_eq!(a.proofs.len(), b.proofs.len());
    for (pa, pb) in a.proofs.iter().zip(b.proofs.iter()) {
        assert_eq!(pa.amount, pb.amount);
        assert_eq!(pa.secret, pb.secret);
    }
}

#[test]
fn round_trip_two_wads() {
    let wads = vec![
        Wad {
            node_url: "http://localhost:10003".to_owned(),
            unit: Unit::from_symbol("millistrk"),
            memo: None,
            proofs: vec![mk_proof(256, "578caef710eec31a"), mk_proof(32, "48750df3579e27dd")],
        },
        Wad {
            node_url: "http://localhost:3338".to_owned(),
            unit: Unit::from_symbol("sat"),
            memo: Some("thanks".to_owned()),
            proofs: vec![mk_proof(1, "acc12435e7b8484c")],
        },
    ];
    let s = serialize_wads(&wads);
    let back = parse_wads(s.as_str()).expect("a serialized bundle parses");
    assert_eq!(back.len(), 2);
    assert_same_wad(&back[0], &wads[0]);
    assert_same_wad(&back[1], &wads[1]);
}

#[test]
fn round_trip_awkward_contents() {
    // A memo holding the separator, a passthrough unit, and a non-ASCII
    // secret all survive: the segment encoding keeps them out of the frame.
    let wads = vec![Wad {
        node_url: "http://mint.example.com".to_owned(),
        unit: Unit::from_symbol("banana"),
        memo: Some("pay: me, twice:".to_owned()),
        proofs: vec![mk_proof(7, "s\u{00e9}cr\u{00e8}t: one")],
    }];
    let s = serialize_wads(&wads);
    let back = parse_wads(s.as_str()).expect("a serialized bundle parses");
    assert_eq!(back.len(), 1);
    assert_same_wad(&back[0], &wads[0]);
}

#[test]
fn bundle_frame_is_tagged_base64_segments() {
    let w = |url: &str| Wad {
        node_url: url.to_owned(),
        unit: Unit::from_symbol("sat"),
        memo: Some("a:b".to_owned()),
        proofs: vec![mk_proof(3, "x")],
    };
    let s = serialize_wads(&vec![w("http://a"), w("http://b")]);
    // Exactly one separator joins the two segments; each starts with the tag
    // and carries no colon of its own, whatever the payload held.
    assert_eq!(s.matches(':').count(), 1);
    for seg in s.split(':') {
        assert!(seg.starts_with("cashuB"));
    }
}

#[test]
fn empty_bundle_round_trips_as_empty_string() {
    let none: Vec<Wad> = Vec::new();
    let s = serialize_wads(&none);
    assert_eq!(s, "");
    let back = parse_wads("").expect("the empty bundle is well-formed");
    assert_eq!(back.len(), 0);
}

#[test]
fn garbage_bundles_are_rejected() {
    assert!(parse_wads("nonsense").is_none());
    assert!(parse_wads("cashuB!!!not-base64!!!").is_none());
    assert!(parse_wads("cashuB").is_none());
    assert!(parse_wads(":").is_none());
}

#[test]
fn framing_noise_around_a_valid_segment_is_rejected() {
    // A parse succeeds only when the input is exactly the wire form of the
    // returned list: stray separators or trailing text are not.
    let wads = vec![Wad {
        node_url: "http://nodea".to_owned(),
        unit: Unit::from_symbol("sat"),
        memo: None,
        proofs: vec![mk_proof(5, "p")],
    }];
    let good = serialize_wads(&wads);
    assert!(parse_wads(good.as_str()).is_some());
    assert!(parse_wads(format!("{}:", good).as_str()).is_none());
    assert!(parse_wads(format!(":{}", good).as_str()).is_none());
    assert!(parse_wads(format!("{}x", good).as_str()).is_none());
}
