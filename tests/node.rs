use d3main::evaluator::{choose_identity, identity_with, parse_node_id, ClockError, IdentityError, Placement, D3};

#[test]
fn parses_decimal_identities() {
    assert_eq!(parse_node_id(b"42"), Some(42));
    assert_eq!(parse_node_id(b"+7"), Some(7));
    assert_eq!(parse_node_id(b"0"), Some(0));
    assert_eq!(parse_node_id(b"340282366920938463463374607431768211455"), Some(u128::MAX));
    assert_eq!(parse_node_id(b"340282366920938463463374607431768211456"), None);
    assert_eq!(parse_node_id(b""), None);
    assert_eq!(parse_node_id(b"+"), None);
    assert_eq!(parse_node_id(b"-1"), None);
    assert_eq!(parse_node_id(b"12a"), None);
}

#[test]
fn override_decides_identity() {
    assert_eq!(identity_with(Some(&b"12"[..]), 5), Ok(12));
    assert_eq!(identity_with(Some(&b"12"[..]), 6), Ok(12));
    assert_eq!(identity_with(None, 5), Ok(5));
    assert_eq!(identity_with(Some(&b"node"[..]), 5), Err(IdentityError::Unparsable));
    assert_eq!(choose_identity(Some(&b"77"[..])), Ok(77));
}

#[test]
fn drawn_identities_differ() {
    let a = choose_identity(None).unwrap();
    let b = choose_identity(None).unwrap();
    assert_ne!(a, b);
}

#[test]
fn myself_is_the_given_identity() {
    assert_eq!(D3::new(1234).myself(), 1234);
}

#[test]
fn clock_never_moves_backwards() {
    let mut d = D3::new(1);
    assert_eq!(d.observe_time(Some(10)), Ok(10));
    assert_eq!(d.observe_time(Some(10)), Ok(10));
    assert_eq!(d.observe_time(Some(5)), Err(ClockError::Regression));
    assert_eq!(d.observe_time(None), Err(ClockError::Regression));
    assert_eq!(d.observe_time(Some(u64::MAX as u128 + 1)), Err(ClockError::OutOfRange));
    assert_eq!(d.observe_time(Some(11)), Ok(11));
}

#[test]
fn wall_clock_is_monotonic() {
    let mut d = D3::new(1);
    let a = d.now().unwrap();
    let b = d.now().unwrap();
    assert!(a > 1_500_000_000_000);
    assert!(b >= a);
}

#[test]
fn localize_addressed_fact() {
    let d = D3::new(1);
    assert_eq!(d.localize(Ok((Some(7), 3, b"v".to_vec()))), Some((7, 3, b"v".to_vec())));
}

#[test]
fn localize_unaddressed_or_failed_is_none() {
    let d = D3::new(1);
    assert_eq!(d.localize(Ok((None, 3, b"v".to_vec()))), None);
    assert_eq!(d.localize(Err(())), None);
    assert!(matches!(d.placement(Ok((None, 3, vec![]))), Placement::Unaddressed));
    assert!(matches!(d.placement(Err(())), Placement::Failed));
}

#[test]
fn error_fact_carries_identity() {
    let d = D3::new(99);
    let e = d.error("boom".to_string(), "12".to_string(), "f.rs".to_string(), "g".to_string());
    assert_eq!(e.instance, 99);
    assert_eq!(e.text, "boom");
    assert_eq!(e.line, "12");
    assert_eq!(e.filename, "f.rs");
    assert_eq!(e.functionname, "g");
}
