use d3main::broadcast::{PubSub, ALL_NODES};

#[test]
fn recipients_follow_filters_in_order() {
    let mut ps = PubSub::new();
    ps.subscribe(10, 5);
    ps.subscribe(11, ALL_NODES);
    ps.subscribe(12, 6);
    ps.subscribe(13, 5);
    assert_eq!(ps.recipients(5), vec![10, 11, 13]);
    assert_eq!(ps.recipients(6), vec![11, 12]);
    assert_eq!(ps.recipients(7), vec![11]);
}

#[test]
fn no_subscribers_no_recipients() {
    let ps = PubSub::new();
    assert!(ps.recipients(1).is_empty());
}
