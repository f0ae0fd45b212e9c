use flow_rs::topics::Topics;

#[test]
fn subscribing_numbers_topics_and_subscribers_in_order() {
    let mut t = Topics::new();
    assert_eq!(t.subscribe("a"), Some((0, 0)));
    assert_eq!(t.subscribe("b"), Some((1, 0)));
    assert_eq!(t.subscribe("a"), Some((0, 1)));
    assert_eq!(t.recipients(0), vec![0, 1]);
    assert_eq!(t.recipients(1), vec![0]);
}

#[test]
fn a_subscription_after_start_lands_in_a_fresh_table() {
    let mut t = Topics::new();
    t.subscribe("a");
    t.subscribe("a");
    let started = t.take();
    assert_eq!(t.subscribe("a"), Some((0, 0)));
    assert_eq!(started.recipients(0), vec![0, 1]);
    assert_eq!(t.recipients(0), vec![0]);
}
