use cidr_calc::eval::eval_stmt;
use cidr_calc::parser::parse_single;
use cidr_calc::{Scope, SetNode, Value, V4, V6};
use std::rc::Rc;

fn run_line(line: &str) -> Vec<String> {
    let stmt = parse_single(line).unwrap();
    let (v, _s) = eval_stmt(&stmt, Scope::default()).unwrap();
    cidr_calc::eval::format(&v)
}

#[test]
fn v4_text_forms() {
    assert_eq!(V4(0, 0).to_string(), "0.0.0.0/0");
    assert_eq!(V4(0x0A000001, 24).to_string(), "10.0.0.0/24");
    assert_eq!(V4(0xFFFFFFFF, 32).to_string(), "255.255.255.255/32");
    assert_eq!(V4(1694893574, 32).to_string(), "101.6.6.6/32");
}

#[test]
fn v6_text_forms() {
    assert_eq!(V6(0, 0).to_string(), "::/0");
    assert_eq!(V6(1, 128).to_string(), "::1/128");
    assert_eq!(V6(0, 128).to_string(), "::/128");
    assert_eq!(
        V6(0xFFFFFFFFFFFFFFFFFFFFFFFFFFFFFFFF, 128).to_string(),
        "ffff:ffff:ffff:ffff:ffff:ffff:ffff:ffff/128"
    );
}

#[test]
fn v6_zero_run_compression_picks_longest() {
    // Groups 1:0:0:1:0:0:0:1 - the later run of three zero groups wins.
    let addr: u128 = (1u128 << 112) | (1u128 << 64) | 1u128;
    assert_eq!(V6(addr, 128).to_string(), "1:0:0:1::1/128");
}

#[test]
fn v6_zero_run_tie_picks_first() {
    // Groups 1:0:0:1:1:0:0:1 - two runs of two; the first is elided.
    let addr: u128 = (1u128 << 112) | (1u128 << 64) | (1u128 << 48) | 1u128;
    assert_eq!(V6(addr, 128).to_string(), "1::1:1:0:0:1/128");
}

#[test]
fn v6_single_zero_group_is_compressed() {
    // Groups 1:0:1:1:1:1:1:1 - a lone zero group still becomes `::`.
    let mut addr: u128 = 0;
    for g in 0..8u32 {
        if g != 1 {
            addr |= 1u128 << (16 * (7 - g));
        }
    }
    assert_eq!(V6(addr, 128).to_string(), "1::1:1:1:1:1:1/128");
}

#[test]
fn v6_run_at_the_edges() {
    // Zero run at the start.
    assert_eq!(V6(0x1234, 128).to_string(), "::1234/128");
    // Zero run at the end.
    let addr: u128 = 0x1234u128 << 112;
    assert_eq!(V6(addr, 128).to_string(), "1234::/128");
}

#[test]
fn formatter_masks_low_bits() {
    assert_eq!(V4(0xC0A80101, 16).to_string(), "192.168.0.0/16");
    let addr: u128 = 0x20010DA8000000000000000000000666;
    assert_eq!(V6(addr, 24).to_string(), "2001:d00::/24");
    assert_eq!(V6(addr, 32).to_string(), "2001:da8::/32");
}

#[test]
fn formatter_round_trip_through_parser() {
    // Re-parsing an emitted line and re-formatting gives the same text.
    for line in [
        "0.0.0.0/0",
        "10.0.0.0/24",
        "101.6.6.6/32",
        "::/0",
        "::1/128",
        "2001:d00::/24",
        "1:0:0:1::1/128",
        "ffff:ffff:ffff:ffff:ffff:ffff:ffff:ffff/128",
    ] {
        assert_eq!(run_line(line), vec![line.to_string()]);
    }
}

#[test]
fn canonical_check_accepts_operation_results() {
    let stmt = parse_single("0.0.0.0/0 - 101.6.6.6/32").unwrap();
    let (v, _s) = eval_stmt(&stmt, Scope::default()).unwrap();
    match v {
        Value::V4Set(n) => {
            assert!(n.is_canonical());
            assert!(!n.is_empty());
        },
        _ => panic!("expected a v4 set"),
    }
}

#[test]
fn canonical_check_rejects_bad_nodes() {
    // A covered node with a child breaks compression (I1).
    let child: SetNode<32> = SetNode { depth: 1, covered: true, left: None, right: None };
    let bad: SetNode<32> =
        SetNode { depth: 0, covered: true, left: Some(Rc::new(child)), right: None };
    assert!(!bad.is_canonical());
    // Two covered siblings break compression (I3).
    let l: SetNode<32> = SetNode { depth: 1, covered: true, left: None, right: None };
    let r: SetNode<32> = SetNode { depth: 1, covered: true, left: None, right: None };
    let bad: SetNode<32> =
        SetNode { depth: 0, covered: false, left: Some(Rc::new(l)), right: Some(Rc::new(r)) };
    assert!(!bad.is_canonical());
    // A child at the wrong depth breaks the depth law (I5).
    let c: SetNode<32> = SetNode { depth: 2, covered: true, left: None, right: None };
    let bad: SetNode<32> =
        SetNode { depth: 0, covered: false, left: Some(Rc::new(c)), right: None };
    assert!(!bad.is_canonical());
    // The empty root is canonical.
    let e: SetNode<32> = SetNode { depth: 0, covered: false, left: None, right: None };
    assert!(e.is_canonical());
    assert!(e.is_empty());
}
