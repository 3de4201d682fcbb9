use mqtt_broker::broker::{Broker, Delivery, SubscriptionsT};

fn collect(msgs: &mut Vec<Vec<u8>>, subscriber: u64, ds: Vec<Delivery>) {
    for d in ds {
        if d.to == subscriber {
            msgs.push(d.msg);
        }
    }
}

#[test]
fn test_subt() {
    let mut broker = SubscriptionsT::new();
    let subscriber: u64 = 1;
    let mut msgs: Vec<Vec<u8>> = vec![];

    let ds = broker.publish("topics/foo", &[0, 1, 2]);
    collect(&mut msgs, subscriber, ds);
    assert_eq!(msgs.len(), 0);

    broker.subscribe(subscriber, &["topics/foo"]);
    let ds = broker.publish("topics/foo", &[0, 1, 9]); //should get this
    collect(&mut msgs, subscriber, ds);
    let ds = broker.publish("topics/bar", &[2, 4, 6]); //shouldn't get this
    collect(&mut msgs, subscriber, ds);
    assert_eq!(msgs.len(), 1);
    assert_eq!(msgs[0], &[0, 1, 9]);

    broker.subscribe(subscriber, &["topics/bar"]);
    let ds = broker.publish("topics/foo", &[1, 3, 5, 7]);
    collect(&mut msgs, subscriber, ds);
    let ds = broker.publish("topics/bar", &[2, 4]);
    collect(&mut msgs, subscriber, ds);
    assert_eq!(msgs.len(), 3);
    assert_eq!(msgs[0], &[0, 1, 9]);
    assert_eq!(msgs[1], &[1, 3, 5, 7]);
    assert_eq!(msgs[2], &[2, 4]);
}

#[test]
fn broker_test_subscribe() {
    let mut broker = Broker::new();
    let subscriber: u64 = 1;
    let mut msgs: Vec<Vec<u8>> = vec![];

    let ds = broker.publish("topics/foo", &[0, 1, 2]);
    collect(&mut msgs, subscriber, ds);
    assert_eq!(msgs.len(), 0);

    broker.subscribe(subscriber, &["topics/foo"]);
    let ds = broker.publish("topics/foo", &[0, 1, 9]);
    collect(&mut msgs, subscriber, ds);
    let ds = broker.publish("topics/bar", &[2, 4, 6]);
    collect(&mut msgs, subscriber, ds);
    assert_eq!(msgs.len(), 1);
    assert_eq!(msgs[0], &[0, 1, 9]);

    broker.subscribe(subscriber, &["topics/bar"]);
    let ds = broker.publish("topics/foo", &[1, 3, 5, 7]);
    collect(&mut msgs, subscriber, ds);
    let ds = broker.publish("topics/bar", &[2, 4]);
    collect(&mut msgs, subscriber, ds);
    assert_eq!(msgs.len(), 3);
    assert_eq!(msgs[0], &[0, 1, 9]);
    assert_eq!(msgs[1], &[1, 3, 5, 7]);
    assert_eq!(msgs[2], &[2, 4]);
}

#[test]
fn subscribe_is_idempotent() {
    let mut broker = Broker::new();
    let subscriber: u64 = 7;
    broker.subscribe(subscriber, &["a/b"]);
    broker.subscribe(subscriber, &["a/b"]);
    broker.subscribe(subscriber, &["a/b"]);
    let ds = broker.publish("a/b", &[5, 6]);
    assert_eq!(ds.len(), 1);
    assert_eq!(ds[0].to, subscriber);
    assert_eq!(ds[0].msg, vec![5, 6]);
}

#[test]
fn unsubscribe_all_removes_every_filter() {
    let mut broker = Broker::new();
    let subscriber: u64 = 3;
    broker.subscribe(subscriber, &["a/b", "c", "a/b/c"]);
    broker.unsubscribe_all(subscriber);
    assert_eq!(broker.publish("a/b", &[1]).len(), 0);
    assert_eq!(broker.publish("c", &[2]).len(), 0);
    assert_eq!(broker.publish("a/b/c", &[3]).len(), 0);
}

#[test]
fn publish_matches_exact_path_only() {
    let mut broker = Broker::new();
    let subscriber: u64 = 9;
    broker.subscribe(subscriber, &["x/y"]);
    assert_eq!(broker.publish("x", &[1]).len(), 0);
    assert_eq!(broker.publish("x/y/z", &[2]).len(), 0);
    assert_eq!(broker.publish("x/z", &[3]).len(), 0);
    let ds = broker.publish("x/y", &[4]);
    assert_eq!(ds.len(), 1);
    assert_eq!(ds[0].to, subscriber);
}

#[test]
fn deliveries_keep_subscription_order() {
    let mut broker = Broker::new();
    broker.subscribe(1, &["t"]);
    broker.subscribe(2, &["t"]);
    broker.subscribe(3, &["t"]);
    let ds = broker.publish("t", &[0xaa]);
    let order: Vec<u64> = ds.iter().map(|d| d.to).collect();
    assert_eq!(order, vec![1, 2, 3]);
}

#[test]
fn empty_filter_is_rejected() {
    let mut broker = Broker::new();
    broker.subscribe(4, &[""]);
    assert_eq!(broker.publish("", &[1]).len(), 0);
}
