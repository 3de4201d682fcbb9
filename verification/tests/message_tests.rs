use mqtt_broker::message::{
    message_type, publish_payload, publish_topic, remaining_length, subscribe_msg_id,
    subscribe_topics, MqttType,
};

fn connect_bytes() -> Vec<u8> {
    vec![
        0x10u8, 0x2a, // fixed header
        0x00, 0x06, 'M' as u8, 'Q' as u8, 'I' as u8, 's' as u8, 'd' as u8, 'p' as u8,
        0x03, // protocol version
        0xcc, // connection flags 1100111x user, pw, !wr, w(01), w, !c, x
        0x00, 0x0a, // keepalive of 100
        0x00, 0x03, 'c' as u8, 'i' as u8, 'd' as u8, // client ID
        0x00, 0x04, 'w' as u8, 'i' as u8, 'l' as u8, 'l' as u8, // will topic
        0x00, 0x04, 'w' as u8, 'm' as u8, 's' as u8, 'g' as u8, // will msg
        0x00, 0x07, 'g' as u8, 'l' as u8, 'i' as u8, 'f' as u8, 't' as u8, 'e' as u8,
        'l' as u8, // username
        0x00, 0x02, 'p' as u8, 'w' as u8, // password
    ]
}

#[test]
fn connect_type() {
    let connect_bytes = connect_bytes();
    assert_eq!(message_type(&connect_bytes), MqttType::Connect);
}

#[test]
fn ping_type() {
    let ping_bytes = &[0xc0u8, 0][0..];
    assert_eq!(message_type(ping_bytes), MqttType::PingReq);
}

#[test]
fn subscribe_type() {
    let subscribe_header = &[0x80u8, 0][0..];
    assert_eq!(message_type(subscribe_header), MqttType::Subscribe);
}

#[test]
fn connect_len() {
    assert_eq!(remaining_length(&connect_bytes()), 42);
}

#[test]
fn ping_len() {
    let ping_bytes = &[0xc0u8, 0][0..];
    assert_eq!(remaining_length(&ping_bytes), 0);
}

#[test]
fn msg_lens() {
    assert_eq!(remaining_length(&[]), 0);
    assert_eq!(remaining_length(&[0x15, 5]), 5);
    assert_eq!(remaining_length(&[0x27, 7]), 7);
    assert_eq!(remaining_length(&[0x12, 0xc1, 0x02]), 321);
    assert_eq!(remaining_length(&[0x12, 0x83, 0x02]), 259);
}

#[test]
fn four_byte_len() {
    // Four remaining-length digits, little-endian base 128.
    assert_eq!(remaining_length(&[0x12, 0x85, 0x80, 0x80, 0x01]), 2097157);
}

#[test]
fn subscribe_msg_id_happy() {
    assert_eq!(subscribe_msg_id(&[0x8cu8, 3, 0, 33]), 33);
    assert_eq!(subscribe_msg_id(&[0x8cu8, 3, 0, 21]), 21);
}

#[test]
fn subscribe_msg_id_high_byte() {
    assert_eq!(subscribe_msg_id(&[0x8cu8, 4, 0x01, 0x02]), 258);
}

#[test]
fn test_get_topic_with_msg_id() {
    let pub_bytes = vec![
        0x3c, 0x0d, //fixed header
        0x00, 0x05, 'f' as u8, 'i' as u8, 'r' as u8, 's' as u8, 't' as u8, //topic name
        0x00, 0x21, //message ID
        'b' as u8, 'o' as u8, 'r' as u8, 'g' as u8, //payload
    ];
    assert_eq!(publish_topic(&pub_bytes[..]), "first");
}

#[test]
fn test_get_payload_with_msg_id() {
    let pub_bytes = vec![
        0x3c, 0x0d, //fixed header
        0x00, 0x05, 'f' as u8, 'i' as u8, 'r' as u8, 's' as u8, 't' as u8, //topic name
        0x00, 0x21, //message ID
        1, 2, 3, 4, //payload
    ];
    assert_eq!(publish_payload(&pub_bytes[..]).to_vec(), vec![1, 2, 3, 4]);
}

#[test]
fn test_get_payload_no_msg_id() {
    let pub_bytes = vec![
        0x30, 0x0a, //fixed header
        0x00, 0x05, 'f' as u8, 'i' as u8, 'r' as u8, 's' as u8, 't' as u8, //topic name
        9, 8, 7, //payload
    ];
    assert_eq!(publish_payload(&pub_bytes[..]).to_vec(), vec![9, 8, 7]);
}

#[test]
fn test_subscribe_topics1() {
    let sub_bytes = vec![
        0x8b, 0x13, //fixed header
        0x00, 0x21, //message ID
        0x00, 0x05, 'f' as u8, 'i' as u8, 'r' as u8, 's' as u8, 't' as u8, 0x01, //qos
        0x00, 0x06, 's' as u8, 'e' as u8, 'c' as u8, 'o' as u8, 'n' as u8, 'd' as u8,
        0x02, //qos
    ];
    assert_eq!(
        subscribe_topics(&sub_bytes[..]),
        vec!["first".to_string(), "second".to_string()]
    );
}

#[test]
fn test_subscribe_topics2() {
    let sub_bytes = vec![
        0x8b, 0x12, //fixed header
        0x00, 0x21, //message ID
        0x00, 0x04, 'f' as u8, 'i' as u8, 'r' as u8, 's' as u8, 0x01, //qos
        0x00, 0x06, 's' as u8, 'e' as u8, 'c' as u8, 'o' as u8, 'n' as u8, 'd' as u8,
        0x02, //qos
    ];
    assert_eq!(
        subscribe_topics(&sub_bytes[..]),
        vec!["firs".to_string(), "second".to_string()]
    );
}
