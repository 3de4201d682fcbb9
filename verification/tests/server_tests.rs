use mqtt_broker::broker::Delivery;
use mqtt_broker::message::{message_type, publish_payload, MqttType};
use mqtt_broker::server::{Server, Stream};

static CONNACK_OK: [u8; 4] = [32, 2, 0, 0];
static PING_RESP: [u8; 2] = [0xd0, 0];

struct TestClient {
    id: u64,
    msgs: Vec<Vec<u8>>,
    payloads: Vec<Vec<u8>>,
}

impl TestClient {
    fn new(id: u64) -> Self {
        TestClient { id, msgs: vec![], payloads: vec![] }
    }

    /// Take everything the dispatcher queued and keep what is addressed to
    /// this client, the way the transport would write it to the wire.
    fn drain(&mut self, server: &mut Server) {
        let ds: Vec<Delivery> = std::mem::take(&mut server.outbox);
        for d in ds {
            if d.to == self.id {
                if message_type(&d.msg) == MqttType::Publish {
                    self.payloads.push(publish_payload(&d.msg).to_vec());
                }
                self.msgs.push(d.msg);
            }
        }
    }

    fn last_msg(&self) -> &[u8] {
        self.msgs.last().expect("TestClient has no last message")
    }
}

#[test]
fn test_connect() {
    let connect_bytes = &[
        0x10u8, 0x2a, // fixed header
        0x00, 0x06, 'M' as u8, 'Q' as u8, 'I' as u8, 's' as u8, 'd' as u8, 'p' as u8,
        0x03, // protocol version
        0xcc, // connection flags 1100111x user, pw, !wr, w(01), w, !c, x
        0x00, 0x0a, // keepalive of 100
        0x00, 0x03, 'c' as u8, 'i' as u8, 'd' as u8, // client ID
        0x00, 0x04, 'w' as u8, 'i' as u8, 'l' as u8, 'l' as u8, // will topic
        0x00, 0x04, 'w' as u8, 'm' as u8, 's' as u8, 'g' as u8, // will msg
        0x00, 0x07, 'g' as u8, 'l' as u8, 'i' as u8, 'f' as u8, 't' as u8, 'e' as u8,
        'l' as u8, // username
        0x00, 0x02, 'p' as u8, 'w' as u8, // password
    ][0..];

    let mut server = Server::new();
    let mut client = TestClient::new(1);

    server.new_message(client.id, connect_bytes);
    client.drain(&mut server);
    assert_eq!(client.msgs.len(), 1);
    assert_eq!(client.last_msg(), &CONNACK_OK);
}

#[test]
fn test_ping() {
    let ping_bytes = &[0xc0u8, 0][0..];

    let mut server = Server::new();
    let mut client = TestClient::new(1);

    server.new_message(client.id, ping_bytes);
    client.drain(&mut server);

    assert_eq!(client.last_msg(), &PING_RESP);
}

#[test]
fn test_pings_all_at_once() {
    let ping_bytes = &[0xc0u8, 0, 0xc0, 0, 0xc0, 0, 0xc0, 0][0..];

    let mut server = Server::new();
    let mut stream = Stream::new();
    let mut client = TestClient::new(1);

    let bytes_read = stream.feed(ping_bytes);
    stream.handle_messages(bytes_read, &mut server, client.id);
    client.drain(&mut server);

    assert_eq!(client.msgs.len(), 4);
    for msg in &client.msgs {
        assert_eq!(msg, &PING_RESP);
    }
}

#[test]
fn test_pings_multiple_time_unbroken() {
    let ping_bytes = &[0xc0u8, 0, 0xc0, 0][0..];

    let mut server = Server::new();
    let mut stream = Stream::new();
    let mut client = TestClient::new(1);

    let bytes_read = stream.feed(ping_bytes);
    stream.handle_messages(bytes_read, &mut server, client.id);
    client.drain(&mut server);
    assert_eq!(client.msgs.len(), 2);

    let bytes_read = stream.feed(ping_bytes);
    stream.handle_messages(bytes_read, &mut server, client.id);
    client.drain(&mut server);
    assert_eq!(client.msgs.len(), 4);

    for msg in &client.msgs {
        assert_eq!(msg, &PING_RESP);
    }
}

#[test]
fn test_pings_broken() {
    let ping_fst = &[0xc0u8][0..];
    let ping_snd = &[0u8][0..];

    let mut server = Server::new();
    let mut stream = Stream::new();
    let mut client = TestClient::new(1);

    let bytes_read = stream.feed(ping_fst);
    stream.handle_messages(bytes_read, &mut server, client.id);
    client.drain(&mut server);
    assert_eq!(client.msgs.len(), 0);

    let bytes_read = stream.feed(ping_snd);
    stream.handle_messages(bytes_read, &mut server, client.id);
    client.drain(&mut server);
    assert_eq!(client.msgs.len(), 1);

    let bytes_read = stream.feed(ping_fst);
    stream.handle_messages(bytes_read, &mut server, client.id);
    client.drain(&mut server);
    assert_eq!(client.msgs.len(), 1);

    let bytes_read = stream.feed(ping_snd);
    stream.handle_messages(bytes_read, &mut server, client.id);
    client.drain(&mut server);
    assert_eq!(client.msgs.len(), 2);

    for msg in &client.msgs {
        assert_eq!(msg, &PING_RESP);
    }
}

fn string_to_bytes(s: &str) -> Vec<u8> {
    let mut vec: Vec<u8> = vec![];
    for c in s.chars() {
        vec.push(c as u8);
    }
    vec
}

fn subscribe_bytes(topic: &str, msg_id: u16) -> Vec<u8> {
    let mut fixed_header = [0x8cu8, 5 + topic.len() as u8].to_vec();
    let mut msg_part = vec![0, msg_id as u8];
    let mut topic_header = vec![0, topic.len() as u8];
    let mut string_bytes = string_to_bytes(topic);
    let mut bytes = vec![];
    bytes.append(&mut fixed_header);
    bytes.append(&mut msg_part);
    bytes.append(&mut topic_header);
    bytes.append(&mut string_bytes);
    bytes.push(0u8); //qos
    bytes
}

#[test]
fn test_suback_bytes() {
    let subscribe_bytes = &subscribe_bytes("topic", 42)[..];
    let qos: u8 = 0;
    let suback_bytes = &[0x90u8, 3, 0, 42, qos][..];

    let mut server = Server::new();
    let mut stream = Stream::new();
    let mut client = TestClient::new(1);

    let bytes_read = stream.feed(&subscribe_bytes);
    stream.handle_messages(bytes_read, &mut server, client.id);
    client.drain(&mut server);
    assert_eq!(client.last_msg(), suback_bytes);
}

#[test]
fn server_test_subscribe() {
    let mut server = Server::new();
    let mut stream = Stream::new();
    let mut client = TestClient::new(1);

    let pub_bytes = vec![
        0x3c, 0x0d, //fixed header
        0x00, 0x05, 'f' as u8, 'i' as u8, 'r' as u8, 's' as u8, 't' as u8, //topic name
        0x00, 0x21, //message ID
        'b' as u8, 'o' as u8, 'r' as u8, 'g' as u8, //payload
    ];
    let bytes_read = stream.feed(&pub_bytes);
    assert_eq!(stream.handle_messages(bytes_read, &mut server, client.id), true);
    client.drain(&mut server);
    assert_eq!(client.payloads.len(), 0);

    let sub_bytes = vec![
        0x8b, 0x13, //fixed header
        0x00, 0x21, //message ID
        0x00, 0x05, 'f' as u8, 'i' as u8, 'r' as u8, 's' as u8, 't' as u8, 0x01, //qos
        0x00, 0x06, 's' as u8, 'e' as u8, 'c' as u8, 'o' as u8, 'n' as u8, 'd' as u8,
        0x02, //qos
    ];
    let bytes_read = stream.feed(&sub_bytes);
    assert_eq!(stream.handle_messages(bytes_read, &mut server, client.id), true);
    client.drain(&mut server);

    let pub_bytes = vec![
        0x3c, 0x0d, //fixed header
        0x00, 0x05, 'f' as u8, 'i' as u8, 'r' as u8, 's' as u8, 't' as u8, //topic name
        0x00, 0x21, //message ID
        'b' as u8, 'o' as u8, 'r' as u8, 'g' as u8, //payload
    ];
    let bytes_read = stream.feed(&pub_bytes);
    assert_eq!(stream.handle_messages(bytes_read, &mut server, client.id), true);
    client.drain(&mut server);

    let pub_bytes = vec![
        0x3c, 0x0d, //fixed header
        0x00, 0x06, 's' as u8, 'e' as u8, 'c' as u8, 'o' as u8, 'n' as u8, 'd' as u8, //topic name
        0x00, 0x21, //message ID
        'f' as u8, 'o' as u8, 'o' as u8, //payload
    ];
    let bytes_read = stream.feed(&pub_bytes);
    assert_eq!(stream.handle_messages(bytes_read, &mut server, client.id), true);
    client.drain(&mut server);

    let pub_bytes = vec![
        0x3c, 0x0c, //fixed header
        0x00, 0x05, 't' as u8, 'h' as u8, 'i' as u8, 'r' as u8, 'd' as u8, //topic name
        0x00, 0x21, //message ID
        'f' as u8, 'o' as u8, 'o' as u8, //payload
        //--
        0xe0, 0, //disconnect
    ];
    let bytes_read = stream.feed(&pub_bytes);
    //false since last msg is disconnect
    assert_eq!(stream.handle_messages(bytes_read, &mut server, client.id), false);
    client.drain(&mut server);

    assert_eq!(client.payloads, vec![b"borg".to_vec(), b"foo".to_vec()]);
}

#[test]
fn test_bug1() {
    let mut server = Server::new();
    let mut stream = Stream::new();
    let mut client = TestClient::new(1);

    //printed from when the bug occurred
    let first = vec![48, 30, 0, 12, 108, 111, 97, 100, 116, 101, 115, 116, 47, 49, 54, 54];
    let bytes_read = stream.feed(&first);
    stream.handle_messages(bytes_read, &mut server, client.id);
    client.drain(&mut server);
    assert_eq!(client.payloads.len(), 0);
}

#[test]
fn test_publish_in_two_msgs() {
    let mut server = Server::new();
    let mut stream = Stream::new();
    let mut client = TestClient::new(1);

    let sub_bytes = vec![
        0x8b, 0x13, //fixed header
        0x00, 0x21, //message ID
        0x00, 0x05, 'f' as u8, 'i' as u8, 'r' as u8, 's' as u8, 't' as u8, 0x01, //qos
        0x00, 0x06, 's' as u8, 'e' as u8, 'c' as u8, 'o' as u8, 'n' as u8, 'd' as u8,
        0x02, //qos
    ];
    let bytes_read = stream.feed(&sub_bytes);
    assert_eq!(stream.handle_messages(bytes_read, &mut server, client.id), true);
    client.drain(&mut server);

    //1st part of message
    let pub_bytes = vec![
        0x3c, 0x0d, //fixed header
        0x00, 0x05, 'f' as u8, 'i' as u8, 'r' as u8, 's' as u8, 't' as u8, //topic name
    ];
    let bytes_read = stream.feed(&pub_bytes);
    assert_eq!(stream.handle_messages(bytes_read, &mut server, client.id), true);
    client.drain(&mut server);
    assert_eq!(client.payloads.len(), 0);

    //2nd part of message
    let pub_bytes = vec![
        0x00, 0x21, //message ID
        'b' as u8, 'o' as u8, 'r' as u8, 'g' as u8, //payload
    ];
    let bytes_read = stream.feed(&pub_bytes);
    assert_eq!(stream.handle_messages(bytes_read, &mut server, client.id), true);
    client.drain(&mut server);
    assert_eq!(client.payloads.len(), 1);
}
