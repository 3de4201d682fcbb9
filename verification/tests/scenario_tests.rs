//! End-to-end scenarios driven through the framer and dispatcher, checking
//! the byte-exact responses on each subscriber's wire.

use mqtt_broker::broker::Delivery;
use mqtt_broker::server::{Server, Stream};

fn msgs_for(server: &mut Server, id: u64) -> Vec<Vec<u8>> {
    let ds: Vec<Delivery> = std::mem::take(&mut server.outbox);
    ds.into_iter().filter(|d| d.to == id).map(|d| d.msg).collect()
}

#[test]
fn connect_then_ping() {
    let connect = vec![
        0x10, 0x0e, 0x00, 0x06, 0x4d, 0x51, 0x49, 0x73, 0x64, 0x70, 0x03, 0x02, 0x00, 0x3c, 0x00,
        0x00,
    ];
    let ping = vec![0xc0, 0x00];

    let mut server = Server::new();
    let mut stream = Stream::new();
    let client: u64 = 1;

    let n = stream.feed(&connect);
    assert_eq!(stream.handle_messages(n, &mut server, client), true);
    let n = stream.feed(&ping);
    assert_eq!(stream.handle_messages(n, &mut server, client), true);

    let msgs = msgs_for(&mut server, client);
    assert_eq!(msgs, vec![vec![0x20, 0x02, 0x00, 0x00], vec![0xd0, 0x00]]);
}

#[test]
fn subscribe_publish_self_loop() {
    let connect = vec![
        0x10, 0x0e, 0x00, 0x06, 0x4d, 0x51, 0x49, 0x73, 0x64, 0x70, 0x03, 0x02, 0x00, 0x3c, 0x00,
        0x00,
    ];
    // SUBSCRIBE, msg id 42, one filter "topics/foo" with QoS byte 0.
    let mut subscribe = vec![0x82, 0x0f, 0x00, 0x2a, 0x00, 0x0a];
    subscribe.extend_from_slice(b"topics/foo");
    subscribe.push(0x00);
    // PUBLISH on "topics/foo" with payload 01 02 03.
    let mut publish = vec![0x30, 0x0f, 0x00, 0x0a];
    publish.extend_from_slice(b"topics/foo");
    publish.extend_from_slice(&[0x01, 0x02, 0x03]);

    let mut server = Server::new();
    let mut stream = Stream::new();
    let client: u64 = 5;

    let n = stream.feed(&connect);
    assert_eq!(stream.handle_messages(n, &mut server, client), true);
    let n = stream.feed(&subscribe);
    assert_eq!(stream.handle_messages(n, &mut server, client), true);
    let n = stream.feed(&publish);
    assert_eq!(stream.handle_messages(n, &mut server, client), true);

    let msgs = msgs_for(&mut server, client);
    assert_eq!(msgs.len(), 3);
    assert_eq!(msgs[0], vec![0x20, 0x02, 0x00, 0x00]);
    assert_eq!(msgs[1], vec![0x90, 0x03, 0x00, 0x2a, 0x00]);
    assert_eq!(msgs[2], publish);
}

#[test]
fn publish_to_non_subscriber() {
    // Subscriber A subscribes to a/b; subscriber B publishes to a/c.
    let mut sub_a = vec![0x82, 0x08, 0x00, 0x01, 0x00, 0x03];
    sub_a.extend_from_slice(b"a/b");
    sub_a.push(0x00);
    let mut pub_b = vec![0x30, 0x07, 0x00, 0x03];
    pub_b.extend_from_slice(b"a/c");
    pub_b.extend_from_slice(&[0x09, 0x08]);

    let mut server = Server::new();
    let a: u64 = 1;
    let b: u64 = 2;

    server.new_message(a, &sub_a);
    let _ = msgs_for(&mut server, a); // the SUBACK
    server.new_message(b, &pub_b);

    let to_a = msgs_for(&mut server, a);
    assert_eq!(to_a.len(), 0);
    let to_b = msgs_for(&mut server, b);
    assert_eq!(to_b.len(), 0);
}

#[test]
fn fragmented_publish() {
    let mut subscribe = vec![0x82, 0x0a, 0x00, 0x07, 0x00, 0x05];
    subscribe.extend_from_slice(b"first");
    subscribe.push(0x00);

    let mut publish = vec![0x30, 0x0b, 0x00, 0x05];
    publish.extend_from_slice(b"first");
    publish.extend_from_slice(&[0x0a, 0x0b, 0x0c, 0x0d]);
    // Fixed header and part of the topic in the first read, the rest in the
    // second.
    let first_half = &publish[0..7];
    let second_half = &publish[7..];

    let mut server = Server::new();
    let mut stream = Stream::new();
    let client: u64 = 4;

    let n = stream.feed(&subscribe);
    assert_eq!(stream.handle_messages(n, &mut server, client), true);
    let _ = msgs_for(&mut server, client); // the SUBACK

    let n = stream.feed(first_half);
    assert_eq!(stream.handle_messages(n, &mut server, client), true);
    assert_eq!(msgs_for(&mut server, client).len(), 0);

    let n = stream.feed(second_half);
    assert_eq!(stream.handle_messages(n, &mut server, client), true);
    let msgs = msgs_for(&mut server, client);
    assert_eq!(msgs.len(), 1);
    assert_eq!(msgs[0], publish);
}

#[test]
fn four_pings_in_one_read() {
    let pings = vec![0xc0, 0x00, 0xc0, 0x00, 0xc0, 0x00, 0xc0, 0x00];

    let mut server = Server::new();
    let mut stream = Stream::new();
    let client: u64 = 1;

    let n = stream.feed(&pings);
    assert_eq!(stream.handle_messages(n, &mut server, client), true);

    let msgs = msgs_for(&mut server, client);
    assert_eq!(
        msgs,
        vec![vec![0xd0, 0x00], vec![0xd0, 0x00], vec![0xd0, 0x00], vec![0xd0, 0x00]]
    );
}

#[test]
fn disconnect_teardown() {
    let mut subscribe = vec![0x82, 0x06, 0x00, 0x02, 0x00, 0x01];
    subscribe.extend_from_slice(b"t");
    subscribe.push(0x00);
    let disconnect = vec![0xe0, 0x00];
    let mut publish = vec![0x30, 0x04, 0x00, 0x01];
    publish.extend_from_slice(b"t");
    publish.push(0x07);

    let mut server = Server::new();
    let mut stream = Stream::new();
    let gone: u64 = 1;
    let other: u64 = 2;

    let n = stream.feed(&subscribe);
    assert_eq!(stream.handle_messages(n, &mut server, gone), true);
    let _ = msgs_for(&mut server, gone); // the SUBACK

    let n = stream.feed(&disconnect);
    assert_eq!(stream.handle_messages(n, &mut server, gone), false);
    // The transport reacts to `false` by tearing the connection down.
    server.unsubscribe_all(gone);

    server.new_message(other, &publish);
    assert_eq!(msgs_for(&mut server, gone).len(), 0);
}

#[test]
fn two_publishes_arrive_in_order() {
    let mut subscribe = vec![0x82, 0x06, 0x00, 0x03, 0x00, 0x01];
    subscribe.extend_from_slice(b"q");
    subscribe.push(0x00);
    let mut pub1 = vec![0x30, 0x04, 0x00, 0x01];
    pub1.extend_from_slice(b"q");
    pub1.push(0x11);
    let mut pub2 = vec![0x30, 0x04, 0x00, 0x01];
    pub2.extend_from_slice(b"q");
    pub2.push(0x22);

    let mut server = Server::new();
    let listener: u64 = 1;
    let sender: u64 = 2;

    server.new_message(listener, &subscribe);
    let _ = msgs_for(&mut server, listener); // the SUBACK
    server.new_message(sender, &pub1);
    server.new_message(sender, &pub2);

    let msgs = msgs_for(&mut server, listener);
    assert_eq!(msgs, vec![pub1, pub2]);
}

#[test]
fn malformed_subscribe_is_fatal() {
    // The filter length field runs past the end of the packet.
    let bad = vec![0x82, 0x04, 0x00, 0x01, 0x00, 0x7f];

    let mut server = Server::new();
    let client: u64 = 1;
    assert_eq!(server.new_message(client, &bad), false);
    assert_eq!(msgs_for(&mut server, client).len(), 0);
}

#[test]
fn unknown_packet_type_is_ignored() {
    // Type nibble 5 is not an MQTT 3.1 packet this broker knows.
    let odd = vec![0x50, 0x00];

    let mut server = Server::new();
    let client: u64 = 1;
    assert_eq!(server.new_message(client, &odd), true);
    assert_eq!(msgs_for(&mut server, client).len(), 0);
}
