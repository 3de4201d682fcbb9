//! The stream framer and the session dispatcher. The framer reassembles
//! MQTT control packets from arbitrarily fragmented reads and keeps the
//! unparsed tail across reads; the dispatcher maps each complete packet to
//! subscription changes and response deliveries.

use crate::broker::{
    deliveries_view, publish_deliveries, subscribe_filters_model, Broker, Delivery,
    empty_model, lemma_subscribe_filters_snoc, unsubscribe_model,
};
use crate::message::{
    length_known, message_type, publish_topic_bytes, publish_wf, spec_length_known,
    spec_message_type, spec_publish_topic, spec_subscribe_filters, spec_total_length,
    subscribe_filters, subscribe_wf, total_length, MqttType,
};
use crate::topic::split_seq;
use vstd::prelude::*;
use vstd::slice::{slice_subrange, slice_to_vec};

verus! {

/// The packets framed from a byte run, and the unconsumed tail. A packet is
/// cut as soon as its remaining-length field is complete and its total
/// length fits in the bytes at hand; everything else is tail.
pub open spec fn frame_spec(input: Seq<u8>) -> (Seq<Seq<u8>>, Seq<u8>)
    decreases input.len(),
{
    let n = spec_total_length(input);
    if input.len() >= 2 && spec_length_known(input) && 2 <= n && n <= input.len() {
        let rest = frame_spec(input.skip(n));
        (seq![input.take(n)] + rest.0, rest.1)
    } else {
        (Seq::empty(), input)
    }
}

pub open spec fn frame_packets(input: Seq<u8>) -> Seq<Seq<u8>> {
    frame_spec(input).0
}

pub open spec fn frame_rem(input: Seq<u8>) -> Seq<u8> {
    frame_spec(input).1
}

/// The remaining-length field is read from the packet head alone: once it
/// is complete, appending bytes changes neither its value nor the header
/// length.
proof fn lemma_length_prefix_stable(x: Seq<u8>, y: Seq<u8>)
    requires
        x.len() >= 2,
        spec_length_known(x),
    ensures
        spec_length_known(x + y),
        spec_total_length(x + y) == spec_total_length(x),
{
    let s = x.skip(1);
    let s2 = (x + y).skip(1);
    assert(s2 =~= s + y);
    assert(forall|i: int| 0 <= i < s.len() ==> s2[i] == s[i]);
    assert(s2.len() == s.len() + y.len());
    let n = crate::message::scan_len(s);
    assert(crate::message::scan_len(s2) == n);
    assert(crate::message::len_value(s2) == crate::message::len_value(s));
}

/// Framing a byte stream commutes with cutting it anywhere: the packets of
/// the whole stream are the packets framed from the first part followed by
/// the packets framed from its tail together with the second part, and the
/// final unconsumed tails agree.
pub proof fn lemma_framing_split(s1: Seq<u8>, s2: Seq<u8>)
    ensures
        frame_packets(s1 + s2) == frame_packets(s1) + frame_packets(frame_rem(s1) + s2),
        frame_rem(s1 + s2) == frame_rem(frame_rem(s1) + s2),
    decreases s1.len(),
{
    let n = spec_total_length(s1);
    if s1.len() >= 2 && spec_length_known(s1) && 2 <= n && n <= s1.len() {
        lemma_length_prefix_stable(s1, s2);
        let whole = s1 + s2;
        assert(whole.len() >= 2);
        assert(spec_total_length(whole) == n);
        assert(whole.take(n as int) =~= s1.take(n as int));
        assert(whole.skip(n as int) =~= s1.skip(n as int) + s2);
        lemma_framing_split(s1.skip(n as int), s2);
        assert(frame_rem(s1) == frame_rem(s1.skip(n as int)));
        assert(frame_packets(s1) =~= seq![s1.take(n as int)] + frame_packets(s1.skip(n as int)));
        assert(frame_packets(whole) =~= seq![s1.take(n as int)] + frame_packets(
            s1.skip(n as int) + s2,
        ));
        assert(seq![s1.take(n as int)] + (frame_packets(s1.skip(n as int)) + frame_packets(
            frame_rem(s1) + s2,
        )) =~= (seq![s1.take(n as int)] + frame_packets(s1.skip(n as int))) + frame_packets(
            frame_rem(s1) + s2,
        ));
    } else {
        assert(frame_packets(s1) =~= Seq::<Seq<u8>>::empty());
        assert(frame_rem(s1) == s1);
        assert(Seq::<Seq<u8>>::empty() + frame_packets(s1 + s2) =~= frame_packets(s1 + s2));
    }
}

/// The CONNACK success response.
pub open spec fn connack() -> Seq<u8> {
    seq![0x20u8, 0x02u8, 0x00u8, 0x00u8]
}

/// The PINGRESP response.
pub open spec fn pingresp() -> Seq<u8> {
    seq![0xd0u8, 0x00u8]
}

/// The SUBACK response echoing a message identifier, granting QoS 0.
pub open spec fn suback(hi: u8, lo: u8) -> Seq<u8> {
    seq![0x90u8, 0x03u8, hi, lo, 0x00u8]
}

/// Whether the connection stays open after this packet: DISCONNECT ends it,
/// and so does a SUBSCRIBE or PUBLISH too malformed to parse.
pub open spec fn dispatch_keep(pkt: Seq<u8>) -> bool {
    match spec_message_type(pkt) {
        MqttType::Disconnect => false,
        MqttType::Subscribe => subscribe_wf(pkt),
        MqttType::Publish => publish_wf(pkt),
        _ => true,
    }
}

/// How one packet changes the subscription map: a well-formed SUBSCRIBE
/// registers its sender for each filter it carries; nothing else changes it.
pub open spec fn dispatch_model(
    m: Map<Seq<Seq<u8>>, Seq<u64>>,
    client: u64,
    pkt: Seq<u8>,
) -> Map<Seq<Seq<u8>>, Seq<u64>> {
    if spec_message_type(pkt) == MqttType::Subscribe && subscribe_wf(pkt) {
        subscribe_filters_model(m, spec_subscribe_filters(pkt), client)
    } else {
        m
    }
}

/// The deliveries one packet produces: the response to its sender, or, for
/// a PUBLISH, the full packet fanned out to the topic's subscribers.
pub open spec fn dispatch_deliveries(
    m: Map<Seq<Seq<u8>>, Seq<u64>>,
    client: u64,
    pkt: Seq<u8>,
) -> Seq<(u64, Seq<u8>)> {
    match spec_message_type(pkt) {
        MqttType::Connect => seq![(client, connack())],
        MqttType::PingReq => seq![(client, pingresp())],
        MqttType::Subscribe => if subscribe_wf(pkt) {
            seq![(client, suback(pkt[2], pkt[3]))]
        } else {
            Seq::empty()
        },
        MqttType::Publish => if publish_wf(pkt) {
            publish_deliveries(m[split_seq(spec_publish_topic(pkt))], pkt)
        } else {
            Seq::empty()
        },
        _ => Seq::empty(),
    }
}

/// The subscription map after a run of packets, first to last.
pub open spec fn run_model(
    m: Map<Seq<Seq<u8>>, Seq<u64>>,
    client: u64,
    pkts: Seq<Seq<u8>>,
) -> Map<Seq<Seq<u8>>, Seq<u64>>
    decreases pkts.len(),
{
    if pkts.len() == 0 {
        m
    } else {
        run_model(dispatch_model(m, client, pkts[0]), client, pkts.drop_first())
    }
}

/// The deliveries of a run of packets, in packet order.
pub open spec fn run_deliveries(
    m: Map<Seq<Seq<u8>>, Seq<u64>>,
    client: u64,
    pkts: Seq<Seq<u8>>,
) -> Seq<(u64, Seq<u8>)>
    decreases pkts.len(),
{
    if pkts.len() == 0 {
        Seq::empty()
    } else {
        dispatch_deliveries(m, client, pkts[0]) + run_deliveries(
            dispatch_model(m, client, pkts[0]),
            client,
            pkts.drop_first(),
        )
    }
}

/// Whether the connection survives a run of packets: the conjunction over
/// all of them, as every packet is dispatched even after a terminal one.
pub open spec fn run_keep(pkts: Seq<Seq<u8>>) -> bool
    decreases pkts.len(),
{
    if pkts.len() == 0 {
        true
    } else {
        dispatch_keep(pkts[0]) && run_keep(pkts.drop_first())
    }
}

/// A run of packets can be peeled off at the back.
pub proof fn lemma_run_snoc(
    m: Map<Seq<Seq<u8>>, Seq<u64>>,
    client: u64,
    pkts: Seq<Seq<u8>>,
    p: Seq<u8>,
)
    ensures
        run_model(m, client, pkts.push(p)) == dispatch_model(run_model(m, client, pkts), client, p),
        run_deliveries(m, client, pkts.push(p)) == run_deliveries(m, client, pkts)
            + dispatch_deliveries(run_model(m, client, pkts), client, p),
        run_keep(pkts.push(p)) == (run_keep(pkts) && dispatch_keep(p)),
    decreases pkts.len(),
{
    let ext = pkts.push(p);
    if pkts.len() == 0 {
        assert(ext[0] == p);
        assert(ext.drop_first() =~= Seq::<Seq<u8>>::empty());
        let m1 = dispatch_model(m, client, p);
        assert(run_model(m, client, ext) == run_model(m1, client, ext.drop_first()));
        assert(run_model(m1, client, ext.drop_first()) == m1);
        assert(run_model(m, client, pkts) == m);
        assert(run_deliveries(m, client, ext) == dispatch_deliveries(m, client, p)
            + run_deliveries(m1, client, ext.drop_first()));
        assert(run_deliveries(m1, client, ext.drop_first()) =~= Seq::<(u64, Seq<u8>)>::empty());
        assert(run_deliveries(m, client, pkts) =~= Seq::<(u64, Seq<u8>)>::empty());
        assert(dispatch_deliveries(m, client, p) + Seq::<(u64, Seq<u8>)>::empty()
            =~= dispatch_deliveries(m, client, p));
        assert(Seq::<(u64, Seq<u8>)>::empty() + dispatch_deliveries(m, client, p)
            =~= dispatch_deliveries(m, client, p));
        assert(run_keep(ext) == (dispatch_keep(ext[0]) && run_keep(ext.drop_first())));
        assert(run_keep(ext.drop_first()) == true);
        assert(run_keep(pkts) == true);
    } else {
        assert(ext[0] == pkts[0]);
        assert(ext.drop_first() =~= pkts.drop_first().push(p));
        let m1 = dispatch_model(m, client, pkts[0]);
        lemma_run_snoc(m1, client, pkts.drop_first(), p);
        assert(run_model(m, client, ext) == run_model(m1, client, ext.drop_first()));
        assert(run_model(m, client, pkts) == run_model(m1, client, pkts.drop_first()));
        assert(run_deliveries(m, client, ext) == dispatch_deliveries(m, client, pkts[0])
            + run_deliveries(m1, client, ext.drop_first()));
        assert(run_deliveries(m, client, pkts) == dispatch_deliveries(m, client, pkts[0])
            + run_deliveries(m1, client, pkts.drop_first()));
        assert(dispatch_deliveries(m, client, pkts[0]) + (run_deliveries(
            m1,
            client,
            pkts.drop_first(),
        ) + dispatch_deliveries(run_model(m1, client, pkts.drop_first()), client, p)) =~= (
        dispatch_deliveries(m, client, pkts[0]) + run_deliveries(m1, client, pkts.drop_first()))
            + dispatch_deliveries(run_model(m1, client, pkts.drop_first()), client, p));
        assert(run_keep(ext) == (dispatch_keep(ext[0]) && run_keep(ext.drop_first())));
        assert(run_keep(pkts) == (dispatch_keep(pkts[0]) && run_keep(pkts.drop_first())));
    }
}

/// A run of packets can be cut anywhere: the second half starts from the
/// subscription map the first half left behind.
pub proof fn lemma_run_append(
    m: Map<Seq<Seq<u8>>, Seq<u64>>,
    client: u64,
    a: Seq<Seq<u8>>,
    b: Seq<Seq<u8>>,
)
    ensures
        run_model(m, client, a + b) == run_model(run_model(m, client, a), client, b),
        run_deliveries(m, client, a + b) == run_deliveries(m, client, a) + run_deliveries(
            run_model(m, client, a),
            client,
            b,
        ),
        run_keep(a + b) == (run_keep(a) && run_keep(b)),
    decreases a.len(),
{
    if a.len() == 0 {
        assert(a + b =~= b);
        assert(run_model(m, client, a) == m);
        assert(run_deliveries(m, client, a) =~= Seq::<(u64, Seq<u8>)>::empty());
        assert(Seq::<(u64, Seq<u8>)>::empty() + run_deliveries(m, client, b) =~= run_deliveries(
            m,
            client,
            b,
        ));
        assert(run_keep(a) == true);
    } else {
        let whole = a + b;
        assert(whole.len() != 0);
        assert(whole[0] == a[0]);
        assert(whole.drop_first() =~= a.drop_first() + b);
        let m1 = dispatch_model(m, client, a[0]);
        lemma_run_append(m1, client, a.drop_first(), b);
        assert(run_model(m, client, whole) == run_model(m1, client, whole.drop_first()));
        assert(run_model(m, client, a) == run_model(m1, client, a.drop_first()));
        assert(run_deliveries(m, client, whole) == dispatch_deliveries(m, client, a[0])
            + run_deliveries(m1, client, whole.drop_first()));
        assert(run_deliveries(m, client, a) == dispatch_deliveries(m, client, a[0])
            + run_deliveries(m1, client, a.drop_first()));
        assert(dispatch_deliveries(m, client, a[0]) + (run_deliveries(m1, client, a.drop_first())
            + run_deliveries(run_model(m, client, a), client, b)) =~= (dispatch_deliveries(
            m,
            client,
            a[0],
        ) + run_deliveries(m1, client, a.drop_first())) + run_deliveries(
            run_model(m, client, a),
            client,
            b,
        ));
        assert(run_keep(whole) == (dispatch_keep(whole[0]) && run_keep(whole.drop_first())));
        assert(run_keep(a) == (dispatch_keep(a[0]) && run_keep(a.drop_first())));
    }
}

/// Law: how a byte stream is cut into reads does not matter. Handling the
/// first chunk and then the rest dispatches, delivers and decides exactly
/// as handling the concatenated stream in one read: the packets agree by
/// `lemma_framing_split`, and here the dispatcher's fold over them agrees
/// too.
pub proof fn lemma_chunking_irrelevant(
    m: Map<Seq<Seq<u8>>, Seq<u64>>,
    client: u64,
    s1: Seq<u8>,
    s2: Seq<u8>,
)
    ensures
        ({
            let whole = frame_packets(s1 + s2);
            let first = frame_packets(s1);
            let second = frame_packets(frame_rem(s1) + s2);
            &&& frame_rem(s1 + s2) == frame_rem(frame_rem(s1) + s2)
            &&& run_model(m, client, whole) == run_model(
                run_model(m, client, first),
                client,
                second,
            )
            &&& run_deliveries(m, client, whole) == run_deliveries(m, client, first)
                + run_deliveries(run_model(m, client, first), client, second)
            &&& run_keep(whole) == (run_keep(first) && run_keep(second))
        }),
{
    lemma_framing_split(s1, s2);
    lemma_run_append(m, client, frame_packets(s1), frame_packets(frame_rem(s1) + s2));
}

/// The session dispatcher: per-packet handling against the broker, with the
/// produced deliveries accumulated in `outbox` in delivery order. The
/// transport drains the outbox and writes each delivery to its subscriber's
/// wire.
pub struct Server {
    broker: Broker,
    pub outbox: Vec<Delivery>,
}

impl Server {
    pub closed spec fn inv(&self) -> bool {
        self.broker.inv()
    }

    /// The subscription map the dispatcher currently routes by.
    pub closed spec fn subs(&self) -> Map<Seq<Seq<u8>>, Seq<u64>> {
        self.broker@
    }

    /// The deliveries accumulated so far, in delivery order.
    pub closed spec fn out(&self) -> Seq<Delivery> {
        self.outbox@
    }

    /// A dispatcher over an empty subscription trie.
    pub fn new() -> (r: Server)
        ensures
            r.inv(),
            r.subs() == empty_model(),
            r.out().len() == 0,
    {
        Server { broker: Broker::new(), outbox: Vec::new() }
    }

    /// Every subscriber list the dispatcher routes by is duplicate-free.
    pub proof fn lemma_lists_dup_free(&self)
        requires
            self.inv(),
        ensures
            forall|p: Seq<Seq<u8>>| crate::broker::dup_free(#[trigger] self.subs()[p]),
    {
        self.broker.lemma_lists_dup_free();
    }

    /// Handle one complete packet from a client: update subscriptions,
    /// append the produced deliveries to the outbox, and say whether the
    /// connection stays open.
    pub fn new_message(&mut self, client: u64, bytes: &[u8]) -> (keep: bool)
        requires
            old(self).inv(),
        ensures
            final(self).inv(),
            final(self).subs() == dispatch_model(old(self).subs(), client, bytes@),
            deliveries_view(final(self).out()) == deliveries_view(old(self).out())
                + dispatch_deliveries(old(self).subs(), client, bytes@),
            keep == dispatch_keep(bytes@),
    {
        let ghost m0 = self.subs();
        let ghost out0 = self.outbox@;
        if bytes.len() == 0 {
            proof {
                assert(spec_message_type(bytes@) == MqttType::Other);
                lemma_deliveries_unchanged(out0, Seq::empty());
            }
            return true;
        }
        let t = message_type(bytes);
        match t {
            MqttType::Connect => {
                let mut resp: Vec<u8> = Vec::new();
                resp.push(0x20);
                resp.push(0x02);
                resp.push(0x00);
                resp.push(0x00);
                proof {
                    assert(resp@ =~= connack());
                }
                self.outbox.push(Delivery { to: client, msg: resp });
                proof {
                    lemma_deliveries_push(out0, client, connack());
                }
                true
            },
            MqttType::PingReq => {
                let mut resp: Vec<u8> = Vec::new();
                resp.push(0xd0);
                resp.push(0x00);
                proof {
                    assert(resp@ =~= pingresp());
                }
                self.outbox.push(Delivery { to: client, msg: resp });
                proof {
                    lemma_deliveries_push(out0, client, pingresp());
                }
                true
            },
            MqttType::Subscribe => {
                if bytes.len() < 4 {
                    proof {
                        lemma_deliveries_unchanged(out0, Seq::empty());
                    }
                    return false;
                }
                if !filters_ok(bytes) {
                    proof {
                        lemma_deliveries_unchanged(out0, Seq::empty());
                    }
                    return false;
                }
                let fs = subscribe_filters(bytes);
                let ghost fsv = spec_subscribe_filters(bytes@);
                let mut i: usize = 0;
                proof {
                    assert(fsv.take(0) =~= Seq::<Seq<u8>>::empty());
                    assert(subscribe_filters_model(m0, fsv.take(0), client) == m0);
                }
                while i < fs.len()
                    invariant
                        self.inv(),
                        0 <= i <= fs@.len(),
                        fs.deep_view() == fsv,
                        fsv.len() == fs@.len(),
                        self.outbox@ == out0,
                        self.subs() == subscribe_filters_model(m0, fsv.take(i as int), client),
                    decreases fs@.len() - i,
                {
                    proof {
                        assert(fs.deep_view()[i as int] == fs@[i as int]@);
                    }
                    self.broker.subscribe_bytes(client, fs[i].as_slice());
                    proof {
                        lemma_subscribe_filters_snoc(m0, fsv.take(i as int), fsv[i as int], client);
                        assert(fsv.take(i + 1) =~= fsv.take(i as int).push(fsv[i as int]));
                    }
                    i = i + 1;
                }
                proof {
                    assert(fsv.take(fsv.len() as int) =~= fsv);
                }
                let hi = bytes[2];
                let lo = bytes[3];
                let mut resp: Vec<u8> = Vec::new();
                resp.push(0x90);
                resp.push(0x03);
                resp.push(hi);
                resp.push(lo);
                resp.push(0x00);
                proof {
                    assert(resp@ =~= suback(bytes@[2], bytes@[3]));
                }
                self.outbox.push(Delivery { to: client, msg: resp });
                proof {
                    lemma_deliveries_push(out0, client, suback(bytes@[2], bytes@[3]));
                }
                true
            },
            MqttType::Publish => {
                if bytes.len() < 4 {
                    proof {
                        lemma_deliveries_unchanged(out0, Seq::empty());
                    }
                    return false;
                }
                let l: usize = (bytes[2] as usize) * 256 + (bytes[3] as usize);
                if bytes.len() < 4 + l {
                    proof {
                        lemma_deliveries_unchanged(out0, Seq::empty());
                    }
                    return false;
                }
                let topic = publish_topic_bytes(bytes);
                let mut ds = self.broker.publish_bytes(topic, bytes);
                let ghost dsv = ds@;
                self.outbox.append(&mut ds);
                proof {
                    assert(self.outbox@ =~= out0 + dsv);
                    lemma_deliveries_add(out0, dsv);
                }
                true
            },
            MqttType::Disconnect => {
                proof {
                    lemma_deliveries_unchanged(out0, Seq::empty());
                }
                false
            },
            MqttType::Other => {
                proof {
                    lemma_deliveries_unchanged(out0, Seq::empty());
                }
                true
            },
        }
    }

    /// Remove a client from every subscription path; the outbox is
    /// untouched.
    pub fn unsubscribe_all(&mut self, client: u64)
        requires
            old(self).inv(),
        ensures
            final(self).inv(),
            final(self).subs() == unsubscribe_model(old(self).subs(), client),
            final(self).out() == old(self).out(),
    {
        self.broker.unsubscribe_all(client);
    }
}

/// Appending nothing changes the delivery view by nothing.
proof fn lemma_deliveries_unchanged(out0: Seq<Delivery>, extra: Seq<(u64, Seq<u8>)>)
    requires
        extra.len() == 0,
    ensures
        deliveries_view(out0) == deliveries_view(out0) + extra,
{
    assert(deliveries_view(out0) + extra =~= deliveries_view(out0));
}

/// Pushing one delivery appends one pair to the delivery view.
proof fn lemma_deliveries_push(out0: Seq<Delivery>, to: u64, msg: Seq<u8>)
    ensures
        forall|d: Delivery|
            d.to == to && d.msg@ == msg ==> deliveries_view(out0.push(d)) == deliveries_view(out0)
                + seq![(to, msg)],
{
    assert forall|d: Delivery| d.to == to && d.msg@ == msg implies deliveries_view(out0.push(d))
        == deliveries_view(out0) + seq![(to, msg)] by {
        assert(deliveries_view(out0.push(d)) =~= deliveries_view(out0) + seq![(to, msg)]);
    }
}

/// Appending a delivery list appends its view.
proof fn lemma_deliveries_add(out0: Seq<Delivery>, ds: Seq<Delivery>)
    ensures
        deliveries_view(out0 + ds) == deliveries_view(out0) + deliveries_view(ds),
{
    assert(deliveries_view(out0 + ds) =~= deliveries_view(out0) + deliveries_view(ds));
}

/// Capacity of a connection's reassembly buffer.
pub const STREAM_BUFFER_LEN: usize = 1048576;

/// A per-connection stream framer: a fixed-capacity buffer whose first
/// `bytes_start` bytes are the unparsed tail carried over from earlier
/// reads.
pub struct Stream {
    buffer: Vec<u8>,
    bytes_start: usize,
}

impl Stream {
    pub closed spec fn inv(&self) -> bool {
        self.buffer@.len() == STREAM_BUFFER_LEN && self.bytes_start <= STREAM_BUFFER_LEN
    }

    /// The unparsed bytes carried over from earlier reads.
    pub closed spec fn pending(&self) -> Seq<u8> {
        self.buffer@.take(self.bytes_start as int)
    }

    /// The pending bytes together with the next `n` freshly fed bytes.
    pub closed spec fn window(&self, n: int) -> Seq<u8> {
        self.buffer@.take(self.bytes_start + n)
    }

    /// A framer with an empty buffer.
    pub fn new() -> (r: Stream)
        ensures
            r.inv(),
            r.pending() == Seq::<u8>::empty(),
    {
        let mut buffer: Vec<u8> = Vec::new();
        grow_zeroed(&mut buffer, STREAM_BUFFER_LEN);
        let r = Stream { buffer, bytes_start: 0 };
        proof {
            assert(r.pending() =~= Seq::<u8>::empty());
        }
        r
    }

    /// How many fresh bytes can still be fed behind the pending tail.
    pub fn writable_len(&self) -> (r: usize)
        requires
            self.inv(),
        ensures
            r == STREAM_BUFFER_LEN - self.pending().len(),
    {
        self.buffer.len() - self.bytes_start
    }

    /// The buffer's total capacity.
    pub fn total_buffer_len(&self) -> (r: usize)
        requires
            self.inv(),
        ensures
            r == STREAM_BUFFER_LEN,
    {
        self.buffer.len()
    }

    /// Copy freshly read bytes in behind the pending tail, and return how
    /// many were written. A read that would fill or overflow the buffer is
    /// the caller's fatal condition; it must not be fed.
    pub fn feed(&mut self, data: &[u8]) -> (n: usize)
        requires
            old(self).inv(),
            old(self).pending().len() + data@.len() < STREAM_BUFFER_LEN,
        ensures
            final(self).inv(),
            n == data@.len(),
            final(self).pending() == old(self).pending(),
            final(self).window(data@.len() as int) == old(self).pending() + data@,
    {
        let mut nb = slice_to_vec(slice_subrange(self.buffer.as_slice(), 0, self.bytes_start));
        let mut i: usize = 0;
        while i < data.len()
            invariant
                0 <= i <= data@.len(),
                nb@ == old(self).pending() + data@.take(i as int),
            decreases data@.len() - i,
        {
            nb.push(data[i]);
            proof {
                assert(data@.take(i + 1) =~= data@.take(i as int).push(data@[i as int]));
                assert(nb@ =~= old(self).pending() + data@.take(i + 1));
            }
            i = i + 1;
        }
        proof {
            assert(data@.take(data@.len() as int) =~= data@);
        }
        let ghost filled = nb@;
        grow_zeroed(&mut nb, STREAM_BUFFER_LEN);
        self.buffer = nb;
        proof {
            assert(final(self).pending() =~= old(self).pending());
            assert(final(self).window(data@.len() as int) =~= old(self).pending() + data@);
        }
        data.len()
    }

    /// Frame every complete packet out of the pending tail plus the
    /// `bytes_read` freshly fed bytes, dispatch each in arrival order, and
    /// keep the unconsumed remainder as the new pending tail. Returns false
    /// when any dispatched packet ended the connection.
    pub fn handle_messages(&mut self, bytes_read: usize, server: &mut Server, client: u64) -> (keep:
        bool)
        requires
            old(self).inv(),
            old(server).inv(),
            old(self).pending().len() + bytes_read <= STREAM_BUFFER_LEN,
        ensures
            final(self).inv(),
            final(server).inv(),
            ({
                let input = old(self).window(bytes_read as int);
                &&& final(self).pending() == frame_rem(input)
                &&& final(server).subs() == run_model(
                    old(server).subs(),
                    client,
                    frame_packets(input),
                )
                &&& deliveries_view(final(server).out()) == deliveries_view(old(server).out())
                    + run_deliveries(old(server).subs(), client, frame_packets(input))
                &&& keep == run_keep(frame_packets(input))
            }),
    {
        let end = self.bytes_start + bytes_read;
        let ghost input = self.buffer@.take(end as int);
        let ghost m0 = server.subs();
        let ghost out0 = server.out();
        let mut pos: usize = 0;
        let mut keep = true;
        let mut stuck = false;
        let ghost mut done: Seq<Seq<u8>> = Seq::empty();
        proof {
            assert(input.skip(0) =~= input);
            assert(Seq::<Seq<u8>>::empty() + frame_packets(input) =~= frame_packets(input));
            assert(run_keep(done) == true);
            assert(run_model(m0, client, done) == m0);
            assert(run_deliveries(m0, client, done) =~= Seq::<(u64, Seq<u8>)>::empty());
            assert(deliveries_view(out0) + Seq::<(u64, Seq<u8>)>::empty() =~= deliveries_view(
                out0,
            ));
        }
        while !stuck
            invariant
                self.inv(),
                server.inv(),
                self.buffer@ == old(self).buffer@,
                self.bytes_start == old(self).bytes_start,
                end == self.bytes_start + bytes_read,
                end <= self.buffer@.len(),
                input == self.buffer@.take(end as int),
                m0 == old(server).subs(),
                out0 == old(server).out(),
                0 <= pos <= end,
                frame_packets(input) == done + frame_packets(input.skip(pos as int)),
                frame_rem(input) == frame_rem(input.skip(pos as int)),
                server.subs() == run_model(m0, client, done),
                deliveries_view(server.out()) == deliveries_view(out0) + run_deliveries(
                    m0,
                    client,
                    done,
                ),
                keep == run_keep(done),
                stuck ==> frame_packets(input.skip(pos as int)) == Seq::<Seq<u8>>::empty()
                    && frame_rem(input.skip(pos as int)) == input.skip(pos as int),
            decreases end - pos + (if stuck {
                0int
            } else {
                1int
            }),
        {
            let ghost rest = input.skip(pos as int);
            if end - pos < 2 {
                proof {
                    assert(rest.len() < 2);
                }
                stuck = true;
            } else {
                let win = slice_subrange(self.buffer.as_slice(), pos, end);
                proof {
                    assert(win@ =~= rest);
                }
                if !length_known(win) {
                    stuck = true;
                } else {
                    let n = total_length(win);
                    if n > end - pos {
                        stuck = true;
                    } else {
                        proof {
                            assert(crate::message::spec_header_length(rest) >= 2);
                            assert(n >= 2);
                        }
                        let pkt = slice_subrange(self.buffer.as_slice(), pos, pos + n);
                        proof {
                            assert(pkt@ =~= rest.take(n as int));
                        }
                        let k = server.new_message(client, pkt);
                        keep = keep && k;
                        proof {
                            assert(rest.skip(n as int) =~= input.skip(pos + n));
                            assert(frame_packets(rest) =~= seq![rest.take(n as int)]
                                + frame_packets(input.skip(pos + n)));
                            assert(frame_rem(rest) == frame_rem(input.skip(pos + n)));
                            lemma_run_snoc(m0, client, done, pkt@);
                            assert(done.push(pkt@) + frame_packets(input.skip(pos + n))
                                =~= done + (seq![rest.take(n as int)] + frame_packets(
                                input.skip(pos + n),
                            )));
                            done = done.push(pkt@);
                        }
                        pos = pos + n;
                    }
                }
            }
        }
        let tail = slice_to_vec(slice_subrange(self.buffer.as_slice(), pos, end));
        let tail_len = tail.len();
        let mut nb = tail;
        grow_zeroed(&mut nb, STREAM_BUFFER_LEN);
        self.buffer = nb;
        self.bytes_start = tail_len;
        proof {
            assert(final(self).pending() =~= input.skip(pos as int));
        }
        keep
    }
}

/// Pad a byte vector with zeroes up to the given capacity.
fn grow_zeroed(v: &mut Vec<u8>, cap: usize)
    requires
        old(v)@.len() <= cap,
    ensures
        final(v)@.len() == cap,
        final(v)@.take(old(v)@.len() as int) == old(v)@,
{
    let start = v.len();
    let mut i: usize = start;
    while i < cap
        invariant
            start <= i <= cap,
            v@.len() == i,
            v@.take(start as int) == old(v)@,
        decreases cap - i,
    {
        v.push(0);
        proof {
            assert(v@.take(start as int) =~= old(v)@);
        }
        i = i + 1;
    }
    proof {
        assert(v@.take(start as int) =~= old(v)@);
    }
}

/// Whether the filter list of a SUBSCRIBE packet parses to the end.
fn filters_ok(bytes: &[u8]) -> (r: bool)
    requires
        bytes@.len() >= 4,
    ensures
        r == crate::message::filters_wf(bytes@.skip(4)),
{
    let mut pos: usize = 4;
    while pos < bytes.len()
        invariant
            4 <= pos <= bytes@.len(),
            crate::message::filters_wf(bytes@.skip(4)) == crate::message::filters_wf(
                bytes@.skip(pos as int),
            ),
        decreases bytes@.len() - pos,
    {
        let rest_len = bytes.len() - pos;
        proof {
            assert(bytes@.skip(pos as int).len() == rest_len);
        }
        if rest_len < 2 {
            return false;
        }
        let l: usize = (bytes[pos] as usize) * 256 + (bytes[pos + 1] as usize);
        proof {
            assert(bytes@.skip(pos as int)[0] == bytes@[pos as int]);
            assert(bytes@.skip(pos as int)[1] == bytes@[pos as int + 1]);
        }
        if rest_len < 3 + l {
            return false;
        }
        proof {
            assert(bytes@.skip(pos as int).skip(3 + l) =~= bytes@.skip(pos + 3 + l));
        }
        pos = pos + 3 + l;
    }
    proof {
        assert(bytes@.skip(pos as int).len() == 0);
    }
    true
}

} // verus!
