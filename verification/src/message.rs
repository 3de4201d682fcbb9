//! MQTT 3.1 packet codec: pure functions over byte slices that classify a
//! control packet, decode the variable-length remaining-length field, and
//! extract topics, payloads and message identifiers.

use vstd::prelude::*;
use vstd::slice::{slice_subrange, slice_to_vec};
use vstd::utf8::{decode_utf8, valid_utf8};

verus! {

/// The control-packet kinds this broker understands; every other type
/// nibble maps to `Other`.
#[derive(Clone, Copy, PartialEq, Eq, Structural, Debug)]
pub enum MqttType {
    Connect,
    Publish,
    Subscribe,
    PingReq,
    Disconnect,
    Other,
}

pub open spec fn spec_message_type(pkt: Seq<u8>) -> MqttType {
    if pkt.len() == 0 {
        MqttType::Other
    } else {
        let nibble = pkt[0] / 16;
        if nibble == 1 {
            MqttType::Connect
        } else if nibble == 3 {
            MqttType::Publish
        } else if nibble == 8 {
            MqttType::Subscribe
        } else if nibble == 12 {
            MqttType::PingReq
        } else if nibble == 14 {
            MqttType::Disconnect
        } else {
            MqttType::Other
        }
    }
}

/// Classify a packet from the type nibble of its first byte.
pub fn message_type(bytes: &[u8]) -> (t: MqttType)
    requires
        bytes@.len() >= 1,
    ensures
        t == spec_message_type(bytes@),
{
    let nibble = bytes[0] / 16;
    if nibble == 1 {
        MqttType::Connect
    } else if nibble == 3 {
        MqttType::Publish
    } else if nibble == 8 {
        MqttType::Subscribe
    } else if nibble == 12 {
        MqttType::PingReq
    } else if nibble == 14 {
        MqttType::Disconnect
    } else {
        MqttType::Other
    }
}

/// The low seven bits of a remaining-length byte.
pub open spec fn septet(b: u8) -> nat {
    (b % 128) as nat
}

/// How many bytes of the remaining-length field (starting right after the
/// type byte) the decoder examines: it stops at the first byte without the
/// continuation bit, at the end of the available bytes, or after four bytes.
pub open spec fn scan_len(s: Seq<u8>) -> int {
    if s.len() < 1 {
        0
    } else if s[0] < 128 {
        1
    } else if s.len() < 2 {
        1
    } else if s[1] < 128 {
        2
    } else if s.len() < 3 {
        2
    } else if s[2] < 128 {
        3
    } else if s.len() < 4 {
        3
    } else {
        4
    }
}

/// The value accumulated from the examined remaining-length bytes,
/// little-endian in base 128.
pub open spec fn len_value(s: Seq<u8>) -> nat {
    let n = scan_len(s);
    if n <= 0 {
        0
    } else if n == 1 {
        septet(s[0])
    } else if n == 2 {
        septet(s[0]) + septet(s[1]) * 128
    } else if n == 3 {
        septet(s[0]) + septet(s[1]) * 128 + septet(s[2]) * 16384
    } else {
        septet(s[0]) + septet(s[1]) * 128 + septet(s[2]) * 16384 + septet(s[3]) * 2097152
    }
}

/// Whether the remaining-length field terminates within the available bytes:
/// the last examined byte has its continuation bit clear.
pub open spec fn len_complete(s: Seq<u8>) -> bool {
    let n = scan_len(s);
    n >= 1 && s[n - 1] < 128
}

pub open spec fn spec_remaining_length(pkt: Seq<u8>) -> nat {
    if pkt.len() < 2 {
        0
    } else {
        len_value(pkt.skip(1))
    }
}

/// Fixed-header length: the type byte plus the examined remaining-length
/// bytes; at least 2.
pub open spec fn spec_header_length(pkt: Seq<u8>) -> int {
    if pkt.len() < 2 {
        2
    } else {
        1 + scan_len(pkt.skip(1))
    }
}

pub open spec fn spec_total_length(pkt: Seq<u8>) -> int {
    spec_remaining_length(pkt) + spec_header_length(pkt)
}

/// A packet boundary can be computed from these bytes: there are at least
/// two of them and the remaining-length field terminates within them.
pub open spec fn spec_length_known(pkt: Seq<u8>) -> bool {
    pkt.len() >= 2 && len_complete(pkt.skip(1))
}

/// Decode the MQTT variable-length remaining-length field starting at byte 1:
/// up to four base-128 digits, each carrying seven value bits, terminated by
/// the first byte whose continuation bit is clear. Returns 0 when fewer than
/// two bytes are available.
pub fn remaining_length(bytes: &[u8]) -> (r: usize)
    ensures
        r == spec_remaining_length(bytes@),
{
    if bytes.len() < 2 {
        return 0;
    }
    let d0 = bytes[1];
    if d0 < 128 {
        return d0 as usize;
    }
    if bytes.len() < 3 {
        return (d0 % 128) as usize;
    }
    let d1 = bytes[2];
    if d1 < 128 {
        return (d0 % 128) as usize + (d1 as usize) * 128;
    }
    if bytes.len() < 4 {
        return (d0 % 128) as usize + ((d1 % 128) as usize) * 128;
    }
    let d2 = bytes[3];
    if d2 < 128 {
        return (d0 % 128) as usize + ((d1 % 128) as usize) * 128 + (d2 as usize) * 16384;
    }
    if bytes.len() < 5 {
        return (d0 % 128) as usize + ((d1 % 128) as usize) * 128 + ((d2 % 128) as usize) * 16384;
    }
    let d3 = bytes[4];
    (d0 % 128) as usize + ((d1 % 128) as usize) * 128 + ((d2 % 128) as usize) * 16384 + ((d3
        % 128) as usize) * 2097152
}

/// Length of the fixed header (type byte plus remaining-length bytes).
pub fn header_length(bytes: &[u8]) -> (r: usize)
    ensures
        r == spec_header_length(bytes@),
{
    if bytes.len() < 2 {
        return 2;
    }
    if bytes[1] < 128 {
        return 2;
    }
    if bytes.len() < 3 {
        return 2;
    }
    if bytes[2] < 128 {
        return 3;
    }
    if bytes.len() < 4 {
        return 3;
    }
    if bytes[3] < 128 {
        return 4;
    }
    if bytes.len() < 5 {
        return 4;
    }
    5
}

/// Total packet length: remaining length plus fixed-header length.
pub fn total_length(bytes: &[u8]) -> (r: usize)
    ensures
        r == spec_total_length(bytes@),
{
    remaining_length(bytes) + header_length(bytes)
}

/// Whether a packet boundary can be computed from these bytes.
pub fn length_known(bytes: &[u8]) -> (r: bool)
    ensures
        r == spec_length_known(bytes@),
{
    if bytes.len() < 2 {
        return false;
    }
    if bytes[1] < 128 {
        return true;
    }
    if bytes.len() < 3 {
        return false;
    }
    if bytes[2] < 128 {
        return true;
    }
    if bytes.len() < 4 {
        return false;
    }
    if bytes[3] < 128 {
        return true;
    }
    if bytes.len() < 5 {
        return false;
    }
    bytes[4] < 128
}

/// A big-endian 16-bit field.
pub open spec fn be16(hi: u8, lo: u8) -> int {
    hi * 256 + lo
}

pub open spec fn spec_topic_len(pkt: Seq<u8>) -> int {
    be16(pkt[2], pkt[3])
}

/// A PUBLISH packet is well formed enough to carry a topic: the topic-length
/// field is present and the topic fits in the packet.
pub open spec fn publish_wf(pkt: Seq<u8>) -> bool {
    pkt.len() >= 4 && 4 + spec_topic_len(pkt) <= pkt.len()
}

pub open spec fn spec_publish_topic(pkt: Seq<u8>) -> Seq<u8> {
    pkt.subrange(4, 4 + spec_topic_len(pkt))
}

/// Where the payload starts: after the topic, skipping the two packet-id
/// bytes when the QoS bits in the first byte are nonzero.
pub open spec fn spec_payload_start(pkt: Seq<u8>) -> int {
    4 + spec_topic_len(pkt) + if (pkt[0] & 6) != 0 {
        2int
    } else {
        0int
    }
}

pub open spec fn payload_wf(pkt: Seq<u8>) -> bool {
    publish_wf(pkt) && spec_payload_start(pkt) <= pkt.len()
}

pub open spec fn spec_publish_payload(pkt: Seq<u8>) -> Seq<u8> {
    pkt.subrange(spec_payload_start(pkt), pkt.len() as int)
}

/// The topic name of a PUBLISH packet, as raw bytes.
pub fn publish_topic_bytes(bytes: &[u8]) -> (t: &[u8])
    requires
        publish_wf(bytes@),
    ensures
        t@ == spec_publish_topic(bytes@),
{
    let l: usize = (bytes[2] as usize) * 256 + (bytes[3] as usize);
    slice_subrange(bytes, 4, 4 + l)
}

/// The topic name of a PUBLISH packet, decoded as UTF-8.
pub fn publish_topic(bytes: &[u8]) -> (t: String)
    requires
        publish_wf(bytes@),
        valid_utf8(spec_publish_topic(bytes@)),
    ensures
        t@ == decode_utf8(spec_publish_topic(bytes@)),
{
    let tb = publish_topic_bytes(bytes);
    string_from_utf8(slice_to_vec(tb))
}

/// The payload of a PUBLISH packet.
pub fn publish_payload(bytes: &[u8]) -> (p: &[u8])
    requires
        payload_wf(bytes@),
    ensures
        p@ == spec_publish_payload(bytes@),
{
    let l: usize = (bytes[2] as usize) * 256 + (bytes[3] as usize);
    let start: usize = if (bytes[0] & 6) != 0 {
        4 + l + 2
    } else {
        4 + l
    };
    slice_subrange(bytes, start, bytes.len())
}

pub open spec fn spec_subscribe_msg_id(pkt: Seq<u8>) -> int {
    be16(pkt[2], pkt[3])
}

/// The 16-bit message identifier of a SUBSCRIBE packet, big-endian at
/// offsets 2 and 3.
pub fn subscribe_msg_id(bytes: &[u8]) -> (id: u16)
    requires
        bytes@.len() >= 4,
    ensures
        id == spec_subscribe_msg_id(bytes@),
{
    (bytes[2] as u16) * 256 + (bytes[3] as u16)
}

/// The filter list of a SUBSCRIBE packet parses to the end: a run of
/// 16-bit-length-prefixed strings, each followed by one QoS byte, that
/// consumes the bytes exactly.
pub open spec fn filters_wf(rest: Seq<u8>) -> bool
    decreases rest.len(),
{
    if rest.len() == 0 {
        true
    } else if rest.len() < 2 {
        false
    } else {
        let l = be16(rest[0], rest[1]);
        3 + l <= rest.len() && filters_wf(rest.skip(3 + l))
    }
}

/// The filters carried by a SUBSCRIBE packet body, in packet order.
pub open spec fn spec_filters(rest: Seq<u8>) -> Seq<Seq<u8>>
    decreases rest.len(),
{
    if rest.len() < 2 {
        Seq::empty()
    } else {
        let l = be16(rest[0], rest[1]);
        if 3 + l <= rest.len() {
            seq![rest.subrange(2, 2 + l)] + spec_filters(rest.skip(3 + l))
        } else {
            Seq::empty()
        }
    }
}

/// A SUBSCRIBE packet is well formed: it has a message identifier and its
/// filter list parses to the end.
pub open spec fn subscribe_wf(pkt: Seq<u8>) -> bool {
    pkt.len() >= 4 && filters_wf(pkt.skip(4))
}

pub open spec fn spec_subscribe_filters(pkt: Seq<u8>) -> Seq<Seq<u8>> {
    spec_filters(pkt.skip(4))
}

/// The filters of a SUBSCRIBE packet, as raw bytes, in packet order.
pub fn subscribe_filters(bytes: &[u8]) -> (fs: Vec<Vec<u8>>)
    requires
        subscribe_wf(bytes@),
    ensures
        fs.deep_view() == spec_subscribe_filters(bytes@),
{
    let mut fs: Vec<Vec<u8>> = Vec::new();
    let mut pos: usize = 4;
    while pos < bytes.len()
        invariant
            4 <= pos <= bytes@.len(),
            filters_wf(bytes@.skip(pos as int)),
            spec_filters(bytes@.skip(4)) == fs.deep_view() + spec_filters(bytes@.skip(pos as int)),
        decreases bytes@.len() - pos,
    {
        proof {
            assert(bytes@.skip(pos as int).len() >= 1);
        }
        let l: usize = (bytes[pos] as usize) * 256 + (bytes[pos + 1] as usize);
        proof {
            assert(bytes@.skip(pos as int)[0] == bytes@[pos as int]);
            assert(bytes@.skip(pos as int)[1] == bytes@[pos as int + 1]);
            assert(3 + l <= bytes@.skip(pos as int).len());
        }
        let filter = slice_to_vec(slice_subrange(bytes, pos + 2, pos + 2 + l));
        let ghost old_fs = fs.deep_view();
        fs.push(filter);
        proof {
            let rest = bytes@.skip(pos as int);
            assert(rest.subrange(2, 2 + l) =~= bytes@.subrange(pos + 2, pos + 2 + l));
            assert(rest.skip(3 + l) =~= bytes@.skip(pos + 3 + l));
            assert(fs.deep_view() =~~= old_fs + seq![filter@]);
            assert(fs.deep_view() + spec_filters(bytes@.skip(pos + 3 + l)) =~= (old_fs + seq![
                filter@,
            ]) + spec_filters(bytes@.skip(pos + 3 + l)));
            assert(seq![rest.subrange(2, 2 + l)] + spec_filters(rest.skip(3 + l)) =~= seq![filter@]
                + spec_filters(bytes@.skip(pos + 3 + l)));
            assert((old_fs + seq![filter@]) + spec_filters(bytes@.skip(pos + 3 + l)) =~= old_fs + (
            seq![filter@] + spec_filters(bytes@.skip(pos + 3 + l))));
        }
        pos = pos + 2 + l + 1;
    }
    proof {
        assert(bytes@.skip(pos as int).len() == 0);
        assert(spec_filters(bytes@.skip(pos as int)) =~= Seq::<Seq<u8>>::empty());
        assert(fs.deep_view() + Seq::<Seq<u8>>::empty() =~= fs.deep_view());
    }
    fs
}

/// The filters of a SUBSCRIBE packet decoded as UTF-8 strings, in packet
/// order.
pub fn subscribe_topics(bytes: &[u8]) -> (ts: Vec<String>)
    requires
        subscribe_wf(bytes@),
        forall|i: int|
            0 <= i < spec_subscribe_filters(bytes@).len() ==> valid_utf8(
                #[trigger] spec_subscribe_filters(bytes@)[i],
            ),
    ensures
        ts@.len() == spec_subscribe_filters(bytes@).len(),
        forall|i: int|
            0 <= i < ts@.len() ==> (#[trigger] ts@[i])@ == decode_utf8(
                spec_subscribe_filters(bytes@)[i],
            ),
{
    let fs = subscribe_filters(bytes);
    let mut ts: Vec<String> = Vec::new();
    let mut i: usize = 0;
    while i < fs.len()
        invariant
            0 <= i <= fs.len(),
            fs.deep_view() == spec_subscribe_filters(bytes@),
            forall|k: int|
                0 <= k < spec_subscribe_filters(bytes@).len() ==> valid_utf8(
                    #[trigger] spec_subscribe_filters(bytes@)[k],
                ),
            ts@.len() == i,
            forall|k: int|
                0 <= k < i ==> (#[trigger] ts@[k])@ == decode_utf8(spec_subscribe_filters(bytes@)[k]),
        decreases fs.len() - i,
    {
        proof {
            assert(fs.deep_view()[i as int] == fs@[i as int]@);
        }
        let filter = slice_to_vec(fs[i].as_slice());
        let s = string_from_utf8(filter);
        ts.push(s);
        i = i + 1;
    }
    ts
}

/// Relies on `String::from_utf8`: on valid UTF-8 input it returns `Ok` of
/// the string whose characters are the UTF-8 decoding of those bytes.
#[verifier::external_body]
fn string_from_utf8(bytes: Vec<u8>) -> (s: String)
    requires
        valid_utf8(bytes@),
    ensures
        s@ == decode_utf8(bytes@),
{
    String::from_utf8(bytes).unwrap()
}

} // verus!
