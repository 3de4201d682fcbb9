//! The subscription engine: a trie keyed on `/`-separated topic segments.
//! Each node carries the subscribers registered for exactly the path that
//! reaches it; a publish walks the topic's segments and fans the payload out
//! to the subscribers at the terminal node, in subscription order.
//!
//! Subscribers are stable integer handles; the transport keeps the actual
//! connection records and applies the returned deliveries to them.
//!
//! The trie is stored as an arena: node 0 is the root, and every edge names
//! a child by its arena index. Edges always point from lower to strictly
//! higher indices and no two edges share a target, so the arena is a tree.

use crate::topic::{eq_bytes, split_bytes, split_seq, str_path};
use vstd::prelude::*;
use vstd::seq_lib::*;
use vstd::slice::slice_to_vec;
use vstd::string::StringSliceAdditionalSpecFns;

verus! {

/// One payload addressed to one subscriber.
pub struct Delivery {
    pub to: u64,
    pub msg: Vec<u8>,
}

/// The (recipient, payload) pairs named by a delivery list.
pub open spec fn deliveries_view(ds: Seq<Delivery>) -> Seq<(u64, Seq<u8>)> {
    ds.map_values(|d: Delivery| (d.to, d.msg@))
}

/// The deliveries produced by fanning one payload out to a subscriber list,
/// in list order.
pub open spec fn publish_deliveries(subs: Seq<u64>, payload: Seq<u8>) -> Seq<(u64, Seq<u8>)> {
    subs.map_values(|x: u64| (x, payload))
}

/// No subscriber occurs twice.
pub open spec fn dup_free(s: Seq<u64>) -> bool {
    forall|i: int, j: int| 0 <= i < j < s.len() ==> s[i] != s[j]
}

/// The predicate that picks one subscriber out of a list.
pub open spec fn is_sub(x: u64) -> spec_fn(u64) -> bool {
    |y: u64| y == x
}

/// How often a subscriber occurs in a subscriber list.
pub open spec fn count_in(s: Seq<u64>, x: u64) -> nat {
    s.filter(is_sub(x)).len()
}

/// The predicate that picks the deliveries addressed to one subscriber.
pub open spec fn addressed_to(s: u64) -> spec_fn((u64, Seq<u8>)) -> bool {
    |d: (u64, Seq<u8>)| d.0 == s
}

/// The payloads delivered to one subscriber, in delivery order.
pub open spec fn msgs_to(ds: Seq<(u64, Seq<u8>)>, s: u64) -> Seq<Seq<u8>> {
    ds.filter(addressed_to(s)).map_values(|d: (u64, Seq<u8>)| d.1)
}

/// The subscription map after one subscribe: the subscriber is appended at
/// the filter's path unless already present there.
pub open spec fn subscribe_model(
    m: Map<Seq<Seq<u8>>, Seq<u64>>,
    path: Seq<Seq<u8>>,
    s: u64,
) -> Map<Seq<Seq<u8>>, Seq<u64>> {
    m.insert(
        path,
        if m[path].contains(s) {
            m[path]
        } else {
            m[path].push(s)
        },
    )
}

/// One subscribe to a raw filter: an empty filter is rejected and changes
/// nothing; any other filter subscribes at its segment path.
pub open spec fn subscribe_filter_model(
    m: Map<Seq<Seq<u8>>, Seq<u64>>,
    filter: Seq<u8>,
    s: u64,
) -> Map<Seq<Seq<u8>>, Seq<u64>> {
    if filter.len() == 0 {
        m
    } else {
        subscribe_model(m, split_seq(filter), s)
    }
}

/// The predicate that keeps every subscriber but `s`.
pub open spec fn keeps(s: u64) -> spec_fn(u64) -> bool {
    |x: u64| x != s
}

/// The subscription map after removing a subscriber from every path.
pub open spec fn unsubscribe_model(m: Map<Seq<Seq<u8>>, Seq<u64>>, s: u64) -> Map<
    Seq<Seq<u8>>,
    Seq<u64>,
> {
    m.map_values(|subs: Seq<u64>| subs.filter(keeps(s)))
}

/// The map with no subscriptions at all.
pub open spec fn empty_model() -> Map<Seq<Seq<u8>>, Seq<u64>> {
    Map::new(|p: Seq<Seq<u8>>| true, |p: Seq<Seq<u8>>| Seq::<u64>::empty())
}

struct TrieNode {
    children: Vec<(Vec<u8>, usize)>,
    subs: Vec<u64>,
}

/// Index of the first child whose key equals the segment, or -1.
spec fn key_index(cs: Seq<(Vec<u8>, usize)>, seg: Seq<u8>) -> int
    decreases cs.len(),
{
    if cs.len() == 0 {
        -1
    } else if cs[0].0@ == seg {
        0
    } else {
        let r = key_index(cs.drop_first(), seg);
        if r == -1 {
            -1
        } else {
            1 + r
        }
    }
}

/// The arena index reached by walking a segment path from node `n`, or -1
/// when the walk leaves the trie.
spec fn node_at(nodes: Seq<TrieNode>, n: int, path: Seq<Seq<u8>>) -> int
    decreases path.len(),
{
    if !(0 <= n < nodes.len()) {
        -1
    } else if path.len() == 0 {
        n
    } else {
        let k = key_index(nodes[n].children@, path[0]);
        if k == -1 {
            -1
        } else {
            node_at(nodes, nodes[n].children@[k].1 as int, path.drop_first())
        }
    }
}

/// The subscribers registered at a segment path below node `n`.
spec fn subs_from(nodes: Seq<TrieNode>, n: int, path: Seq<Seq<u8>>) -> Seq<u64> {
    let t = node_at(nodes, n, path);
    if t == -1 {
        Seq::empty()
    } else {
        nodes[t].subs@
    }
}

spec fn keys_unique(cs: Seq<(Vec<u8>, usize)>) -> bool {
    forall|i: int, j: int|
        0 <= i < j < cs.len() ==> (#[trigger] cs[i]).0@ != (#[trigger] cs[j]).0@
}

/// The arena invariant: edges stay inside the arena and point strictly
/// upward, no two edges share a target, keys are unique per node, and no
/// subscriber is registered twice at one node.
spec fn nodes_wf(nodes: Seq<TrieNode>) -> bool {
    &&& nodes.len() >= 1
    &&& forall|n: int, i: int|
        0 <= n < nodes.len() && 0 <= i < nodes[n].children@.len() ==> n < (
        #[trigger] nodes[n].children@[i]).1 < nodes.len()
    &&& forall|n: int| 0 <= n < nodes.len() ==> keys_unique(#[trigger] nodes[n].children@)
    &&& forall|n1: int, i1: int, n2: int, i2: int|
        0 <= n1 < nodes.len() && 0 <= i1 < nodes[n1].children@.len() && 0 <= n2 < nodes.len() && 0
            <= i2 < nodes[n2].children@.len() && (n1 != n2 || i1 != i2) ==> (
        #[trigger] nodes[n1].children@[i1]).1 != (#[trigger] nodes[n2].children@[i2]).1
    &&& forall|n: int| 0 <= n < nodes.len() ==> dup_free(#[trigger] nodes[n].subs@)
}

proof fn lemma_key_index(cs: Seq<(Vec<u8>, usize)>, seg: Seq<u8>)
    ensures
        ({
            let r = key_index(cs, seg);
            &&& -1 <= r < cs.len()
            &&& r >= 0 ==> cs[r].0@ == seg && (forall|j: int|
                0 <= j < r ==> (#[trigger] cs[j]).0@ != seg)
            &&& r == -1 ==> forall|j: int| 0 <= j < cs.len() ==> (#[trigger] cs[j]).0@ != seg
        }),
    decreases cs.len(),
{
    if cs.len() != 0 && cs[0].0@ != seg {
        let rest = cs.drop_first();
        lemma_key_index(rest, seg);
        assert(forall|k: int| 0 <= k < rest.len() ==> rest[k] == cs[k + 1]);
        let rr = key_index(rest, seg);
        if rr >= 0 {
            assert(cs[rr + 1] == rest[rr]);
            assert forall|j: int| 0 <= j < rr + 1 implies (#[trigger] cs[j]).0@ != seg by {
                if j > 0 {
                    assert(cs[j] == rest[j - 1]);
                }
            }
        } else {
            assert forall|j: int| 0 <= j < cs.len() implies (#[trigger] cs[j]).0@ != seg by {
                if j > 0 {
                    assert(cs[j] == rest[j - 1]);
                }
            }
        }
    }
}

/// A child lookup sees only the keys: pushing a new pair moves a missing
/// lookup to the new slot and leaves every other lookup unchanged.
proof fn lemma_key_index_push(cs: Seq<(Vec<u8>, usize)>, p: (Vec<u8>, usize), seg: Seq<u8>)
    ensures
        ({
            let r = key_index(cs, seg);
            let re = key_index(cs.push(p), seg);
            &&& r != -1 ==> re == r
            &&& r == -1 && p.0@ == seg ==> re == cs.len()
            &&& r == -1 && p.0@ != seg ==> re == -1
        }),
    decreases cs.len(),
{
    let ext = cs.push(p);
    if cs.len() == 0 {
        assert(ext.len() == 1);
        assert(ext[0] == p);
        if p.0@ == seg {
            assert(key_index(ext, seg) == 0);
        } else {
            assert(ext.drop_first() =~= Seq::<(Vec<u8>, usize)>::empty());
            assert(key_index(ext.drop_first(), seg) == -1);
            assert(key_index(ext, seg) == -1);
        }
    } else {
        assert(ext[0] == cs[0]);
        if cs[0].0@ != seg {
            assert(ext.drop_first() =~= cs.drop_first().push(p));
            lemma_key_index_push(cs.drop_first(), p, seg);
            lemma_key_index(cs.drop_first(), seg);
            let rr = key_index(cs.drop_first(), seg);
            let re = key_index(ext.drop_first(), seg);
            if rr != -1 {
                assert(re == rr);
                assert(key_index(cs, seg) == 1 + rr);
                assert(key_index(ext, seg) == 1 + re);
            } else {
                assert(key_index(cs, seg) == -1);
                if p.0@ == seg {
                    assert(re == cs.drop_first().len());
                    assert(key_index(ext, seg) == 1 + re);
                } else {
                    assert(re == -1);
                    assert(key_index(ext, seg) == -1);
                }
            }
        }
    }
}

/// Walks are determined by node count and children alone: two arenas of the
/// same length whose nodes have equal children produce equal walks.
proof fn lemma_node_at_same_children(nodes1: Seq<TrieNode>, nodes2: Seq<TrieNode>, n: int, path: Seq<Seq<u8>>)
    requires
        nodes1.len() == nodes2.len(),
        forall|m: int| 0 <= m < nodes1.len() ==> (#[trigger] nodes1[m]).children@ == nodes2[m].children@,
    ensures
        node_at(nodes1, n, path) == node_at(nodes2, n, path),
    decreases path.len(),
{
    if 0 <= n < nodes1.len() && path.len() != 0 {
        let k = key_index(nodes1[n].children@, path[0]);
        if k != -1 {
            lemma_key_index(nodes1[n].children@, path[0]);
            lemma_node_at_same_children(
                nodes1,
                nodes2,
                nodes1[n].children@[k].1 as int,
                path.drop_first(),
            );
        }
    }
}

/// A walk result is -1 or a valid arena index.
proof fn lemma_node_at_range(nodes: Seq<TrieNode>, n: int, path: Seq<Seq<u8>>)
    ensures
        node_at(nodes, n, path) == -1 || 0 <= node_at(nodes, n, path) < nodes.len(),
    decreases path.len(),
{
    if 0 <= n < nodes.len() && path.len() != 0 {
        let k = key_index(nodes[n].children@, path[0]);
        if k != -1 {
            lemma_node_at_range(nodes, nodes[n].children@[k].1 as int, path.drop_first());
        }
    }
}

/// In a well-formed arena every walk moves strictly upward.
proof fn lemma_node_at_monotonic(nodes: Seq<TrieNode>, n: int, path: Seq<Seq<u8>>)
    requires
        nodes_wf(nodes),
    ensures
        node_at(nodes, n, path) >= 0 ==> node_at(nodes, n, path) >= n,
    decreases path.len(),
{
    if 0 <= n < nodes.len() && path.len() != 0 {
        let k = key_index(nodes[n].children@, path[0]);
        if k != -1 {
            lemma_key_index(nodes[n].children@, path[0]);
            lemma_node_at_monotonic(nodes, nodes[n].children@[k].1 as int, path.drop_first());
        }
    }
}

/// Walking a concatenated path is walking its halves in turn.
proof fn lemma_node_at_concat(nodes: Seq<TrieNode>, n: int, p1: Seq<Seq<u8>>, p2: Seq<Seq<u8>>)
    ensures
        node_at(nodes, n, p1 + p2) == node_at(nodes, node_at(nodes, n, p1), p2),
    decreases p1.len(),
{
    if !(0 <= n < nodes.len()) {
        assert(node_at(nodes, n, p1) == -1);
        if (p1 + p2).len() == 0 {
            assert(node_at(nodes, n, p1 + p2) == -1);
        }
    } else if p1.len() == 0 {
        assert(p1 + p2 =~= p2);
    } else {
        let whole = p1 + p2;
        assert(whole.len() != 0);
        assert(whole[0] == p1[0]);
        let k = key_index(nodes[n].children@, p1[0]);
        if k == -1 {
            assert(node_at(nodes, n, p1) == -1);
            assert(node_at(nodes, n, whole) == -1);
        } else {
            assert(whole.drop_first() =~= p1.drop_first() + p2);
            lemma_node_at_concat(nodes, nodes[n].children@[k].1 as int, p1.drop_first(), p2);
        }
    }
}

/// In a well-formed arena, distinct paths from the root reach distinct
/// nodes: the trie is a tree.
proof fn lemma_node_at_injective(nodes: Seq<TrieNode>, p1: Seq<Seq<u8>>, p2: Seq<Seq<u8>>)
    requires
        nodes_wf(nodes),
        node_at(nodes, 0, p1) >= 0,
        node_at(nodes, 0, p1) == node_at(nodes, 0, p2),
    ensures
        p1 == p2,
    decreases p1.len(),
{
    let t = node_at(nodes, 0, p1);
    if p1.len() == 0 {
        assert(t == 0);
        if p2.len() != 0 {
            let k = key_index(nodes[0].children@, p2[0]);
            assert(k != -1);
            lemma_key_index(nodes[0].children@, p2[0]);
            let c = nodes[0].children@[k].1 as int;
            assert(c > 0);
            lemma_node_at_monotonic(nodes, c, p2.drop_first());
            assert(false);
        }
        assert(p1 =~= p2);
    } else {
        if p2.len() == 0 {
            assert(t == 0);
            let k = key_index(nodes[0].children@, p1[0]);
            assert(k != -1);
            lemma_key_index(nodes[0].children@, p1[0]);
            let c = nodes[0].children@[k].1 as int;
            assert(c > 0);
            lemma_node_at_monotonic(nodes, c, p1.drop_first());
            assert(false);
        }
        // Both paths are nonempty; compare their last edges.
        let q1 = p1.drop_last();
        let q2 = p2.drop_last();
        assert(p1 =~= q1 + seq![p1.last()]);
        assert(p2 =~= q2 + seq![p2.last()]);
        lemma_node_at_concat(nodes, 0, q1, seq![p1.last()]);
        lemma_node_at_concat(nodes, 0, q2, seq![p2.last()]);
        let m1 = node_at(nodes, 0, q1);
        let m2 = node_at(nodes, 0, q2);
        lemma_node_at_range(nodes, 0, q1);
        lemma_node_at_range(nodes, 0, q2);
        assert(node_at(nodes, m1, seq![p1.last()]) == t);
        assert(node_at(nodes, m2, seq![p2.last()]) == t);
        assert(0 <= m1 < nodes.len());
        assert(0 <= m2 < nodes.len());
        let k1 = key_index(nodes[m1].children@, p1.last());
        let k2 = key_index(nodes[m2].children@, p2.last());
        assert(k1 != -1);
        assert(k2 != -1);
        lemma_key_index(nodes[m1].children@, p1.last());
        lemma_key_index(nodes[m2].children@, p2.last());
        assert(seq![p1.last()].drop_first() =~= Seq::<Seq<u8>>::empty());
        assert(seq![p2.last()].drop_first() =~= Seq::<Seq<u8>>::empty());
        let c1 = nodes[m1].children@[k1].1 as int;
        let c2 = nodes[m2].children@[k2].1 as int;
        assert(m1 < c1 < nodes.len());
        assert(m2 < c2 < nodes.len());
        assert(node_at(nodes, c1, Seq::<Seq<u8>>::empty()) == c1);
        assert(node_at(nodes, c2, Seq::<Seq<u8>>::empty()) == c2);
        assert(nodes[m1].children@[k1].1 == t);
        assert(nodes[m2].children@[k2].1 == t);
        // Two edges with the same target are the same edge.
        assert(m1 == m2 && k1 == k2);
        assert(p1.last() == p2.last());
        lemma_node_at_injective(nodes, q1, q2);
        assert(p1 =~= p2);
    }
}

/// The subscription map after subscribing one subscriber to a list of
/// string filters, first to last.
pub open spec fn subscribe_strs_model(
    m: Map<Seq<Seq<u8>>, Seq<u64>>,
    ts: Seq<Seq<char>>,
    s: u64,
) -> Map<Seq<Seq<u8>>, Seq<u64>>
    decreases ts.len(),
{
    if ts.len() == 0 {
        m
    } else {
        subscribe_strs_model(
            subscribe_filter_model(m, vstd::utf8::encode_utf8(ts[0]), s),
            ts.drop_first(),
            s,
        )
    }
}

/// A left fold over the filter list can be peeled off at the back.
pub proof fn lemma_subscribe_strs_snoc(
    m: Map<Seq<Seq<u8>>, Seq<u64>>,
    ts: Seq<Seq<char>>,
    t: Seq<char>,
    s: u64,
)
    ensures
        subscribe_strs_model(m, ts.push(t), s) == subscribe_filter_model(
            subscribe_strs_model(m, ts, s),
            vstd::utf8::encode_utf8(t),
            s,
        ),
    decreases ts.len(),
{
    let ext = ts.push(t);
    if ts.len() == 0 {
        assert(ext[0] == t);
        assert(ext.drop_first() =~= Seq::<Seq<char>>::empty());
        let m1 = subscribe_filter_model(m, vstd::utf8::encode_utf8(t), s);
        assert(subscribe_strs_model(m, ext, s) == subscribe_strs_model(m1, ext.drop_first(), s));
        assert(subscribe_strs_model(m1, ext.drop_first(), s) == m1);
        assert(subscribe_strs_model(m, ts, s) == m);
    } else {
        assert(ext[0] == ts[0]);
        assert(ext.drop_first() =~= ts.drop_first().push(t));
        let m1 = subscribe_filter_model(m, vstd::utf8::encode_utf8(ts[0]), s);
        lemma_subscribe_strs_snoc(m1, ts.drop_first(), t, s);
        assert(subscribe_strs_model(m, ext, s) == subscribe_strs_model(m1, ext.drop_first(), s));
        assert(subscribe_strs_model(m, ts, s) == subscribe_strs_model(m1, ts.drop_first(), s));
    }
}

/// The subscription map after subscribing one subscriber to a list of raw
/// filters, first to last.
pub open spec fn subscribe_filters_model(
    m: Map<Seq<Seq<u8>>, Seq<u64>>,
    fs: Seq<Seq<u8>>,
    s: u64,
) -> Map<Seq<Seq<u8>>, Seq<u64>>
    decreases fs.len(),
{
    if fs.len() == 0 {
        m
    } else {
        subscribe_filters_model(subscribe_filter_model(m, fs[0], s), fs.drop_first(), s)
    }
}

/// A left fold over the raw filter list can be peeled off at the back.
pub proof fn lemma_subscribe_filters_snoc(
    m: Map<Seq<Seq<u8>>, Seq<u64>>,
    fs: Seq<Seq<u8>>,
    f: Seq<u8>,
    s: u64,
)
    ensures
        subscribe_filters_model(m, fs.push(f), s) == subscribe_filter_model(
            subscribe_filters_model(m, fs, s),
            f,
            s,
        ),
    decreases fs.len(),
{
    let ext = fs.push(f);
    if fs.len() == 0 {
        assert(ext[0] == f);
        assert(ext.drop_first() =~= Seq::<Seq<u8>>::empty());
        let m1 = subscribe_filter_model(m, f, s);
        assert(subscribe_filters_model(m, ext, s) == subscribe_filters_model(
            m1,
            ext.drop_first(),
            s,
        ));
        assert(subscribe_filters_model(m1, ext.drop_first(), s) == m1);
        assert(subscribe_filters_model(m, fs, s) == m);
    } else {
        assert(ext[0] == fs[0]);
        assert(ext.drop_first() =~= fs.drop_first().push(f));
        let m1 = subscribe_filter_model(m, fs[0], s);
        lemma_subscribe_filters_snoc(m1, fs.drop_first(), f, s);
        assert(subscribe_filters_model(m, ext, s) == subscribe_filters_model(
            m1,
            ext.drop_first(),
            s,
        ));
        assert(subscribe_filters_model(m, fs, s) == subscribe_filters_model(
            m1,
            fs.drop_first(),
            s,
        ));
    }
}

/// Filtering keeps a duplicate-free list duplicate-free.
proof fn lemma_filter_dup_free(s: Seq<u64>, pred: spec_fn(u64) -> bool)
    requires
        dup_free(s),
    ensures
        dup_free(s.filter(pred)),
    decreases s.len(),
{
    reveal(Seq::filter);
    if s.len() != 0 {
        let s0 = s.drop_last();
        assert(dup_free(s0));
        lemma_filter_dup_free(s0, pred);
        let f0 = s0.filter(pred);
        if pred(s.last()) {
            assert(s.filter(pred) == f0.push(s.last()));
            assert forall|i: int, j: int|
                0 <= i < j < f0.push(s.last()).len() implies f0.push(s.last())[i] != f0.push(
                s.last(),
            )[j] by {
                if j == f0.len() {
                    assert(f0.push(s.last())[i] == f0[i]);
                    assert(f0.contains(f0[i]));
                    s0.lemma_filter_contains_rev(pred, f0[i]);
                    let w = choose|w: int| 0 <= w < s0.len() && s0[w] == f0[i];
                    assert(s[w] == s0[w]);
                    assert(s[w] != s.last());
                }
            }
        }
    }
}

/// Whether a subscriber list holds a given subscriber.
fn contains_u64(v: &Vec<u64>, x: u64) -> (r: bool)
    ensures
        r == v@.contains(x),
{
    let mut i: usize = 0;
    while i < v.len()
        invariant
            0 <= i <= v@.len(),
            forall|k: int| 0 <= k < i ==> v@[k] != x,
        decreases v@.len() - i,
    {
        if v[i] == x {
            return true;
        }
        i = i + 1;
    }
    false
}

/// Removing an element and reinserting at the same position is an update.
proof fn lemma_remove_insert<A>(s: Seq<A>, i: int, x: A)
    requires
        0 <= i < s.len(),
    ensures
        s.remove(i).insert(i, x) =~= s.update(i, x),
{
}

/// The shape of the arena after one child creation: a fresh empty node is
/// appended at index `l` and an edge to it, keyed `key`, is pushed onto the
/// children of `cur`.
spec fn create_step(
    nodes: Seq<TrieNode>,
    cur: int,
    key: Vec<u8>,
    l: usize,
    fresh: TrieNode,
    nd2: TrieNode,
) -> bool {
    &&& nodes_wf(nodes)
    &&& 0 <= cur < nodes.len()
    &&& l == nodes.len()
    &&& key_index(nodes[cur].children@, key@) == -1
    &&& fresh.children@.len() == 0
    &&& fresh.subs@.len() == 0
    &&& nd2.children@ == nodes[cur].children@.push((key, l))
    &&& nd2.subs@ == nodes[cur].subs@
}

proof fn lemma_create_wf(
    nodes: Seq<TrieNode>,
    cur: int,
    key: Vec<u8>,
    l: usize,
    fresh: TrieNode,
    nd2: TrieNode,
)
    requires
        create_step(nodes, cur, key, l, fresh, nd2),
    ensures
        nodes_wf(nodes.push(fresh).update(cur, nd2)),
        node_at(nodes.push(fresh).update(cur, nd2), cur, seq![key@]) == l,
{
    let nodes2 = nodes.push(fresh).update(cur, nd2);
    let cs = nodes[cur].children@;
    let cs2 = nd2.children@;
    assert(nodes2.len() == nodes.len() + 1);
    assert(nodes2[cur] == nd2);
    assert(nodes2[l as int] == fresh);
    assert(forall|m: int| 0 <= m < nodes.len() && m != cur ==> nodes2[m] == nodes[m]);
    assert(forall|i: int| 0 <= i < cs.len() ==> cs2[i] == cs[i]);
    assert(cs2[cs.len() as int] == (key, l));
    lemma_key_index(cs, key@);
    // Edges stay in range and point strictly upward.
    assert forall|n: int, i: int|
        0 <= n < nodes2.len() && 0 <= i < nodes2[n].children@.len() implies n < (
    #[trigger] nodes2[n].children@[i]).1 < nodes2.len() by {
        if n == cur {
            if i < cs.len() {
                assert(nodes2[n].children@[i] == cs[i]);
            } else {
                assert(nodes2[n].children@[i] == (key, l));
            }
        } else if n == l as int {
        } else {
            assert(nodes2[n] == nodes[n]);
        }
    }
    // Keys stay unique at every node.
    assert forall|n: int| 0 <= n < nodes2.len() implies keys_unique(
        #[trigger] nodes2[n].children@,
    ) by {
        if n == cur {
            assert forall|i: int, j: int| 0 <= i < j < cs2.len() implies (#[trigger] cs2[i]).0@
                != (#[trigger] cs2[j]).0@ by {
                if j < cs.len() {
                    assert(cs2[i] == cs[i] && cs2[j] == cs[j]);
                    assert(keys_unique(cs));
                } else {
                    assert(cs2[j] == (key, l));
                    assert(cs2[i] == cs[i]);
                }
            }
        } else if n == l as int {
        } else {
            assert(nodes2[n] == nodes[n]);
            assert(keys_unique(nodes[n].children@));
        }
    }
    // No two edges share a target.
    assert forall|n1: int, i1: int, n2: int, i2: int|
        0 <= n1 < nodes2.len() && 0 <= i1 < nodes2[n1].children@.len() && 0 <= n2 < nodes2.len()
            && 0 <= i2 < nodes2[n2].children@.len() && (n1 != n2 || i1 != i2) implies (
    #[trigger] nodes2[n1].children@[i1]).1 != (#[trigger] nodes2[n2].children@[i2]).1 by {
        let e1 = nodes2[n1].children@[i1];
        let e2 = nodes2[n2].children@[i2];
        let new1 = n1 == cur && i1 == cs.len();
        let new2 = n2 == cur && i2 == cs.len();
        if new1 && new2 {
        } else if new1 {
            assert(e1.1 == l);
            if n2 == cur {
                assert(e2 == cs[i2]);
            } else if n2 == l as int {
            } else {
                assert(nodes2[n2] == nodes[n2]);
            }
            assert(e2.1 < nodes.len());
        } else if new2 {
            assert(e2.1 == l);
            if n1 == cur {
                assert(e1 == cs[i1]);
            } else if n1 == l as int {
            } else {
                assert(nodes2[n1] == nodes[n1]);
            }
            assert(e1.1 < nodes.len());
        } else {
            if n1 == cur {
                assert(e1 == cs[i1]);
            } else if n1 == l as int {
            } else {
                assert(nodes2[n1] == nodes[n1]);
            }
            if n2 == cur {
                assert(e2 == cs[i2]);
            } else if n2 == l as int {
            } else {
                assert(nodes2[n2] == nodes[n2]);
            }
        }
    }
    // Subscriber lists stay duplicate-free.
    assert forall|n: int| 0 <= n < nodes2.len() implies dup_free(#[trigger] nodes2[n].subs@) by {
        if n == cur {
            assert(nodes2[n].subs@ == nodes[cur].subs@);
            assert(dup_free(nodes[cur].subs@));
        } else if n == l as int {
        } else {
            assert(nodes2[n] == nodes[n]);
            assert(dup_free(nodes[n].subs@));
        }
    }
    // The new edge is found and leads to the fresh node.
    lemma_key_index_push(cs, (key, l), key@);
    assert(key_index(cs2, key@) == cs.len());
    assert(seq![key@].drop_first() =~= Seq::<Seq<u8>>::empty());
    assert(node_at(nodes2, l as int, Seq::<Seq<u8>>::empty()) == l);
}

/// A child creation leaves every walk that already succeeded unchanged.
proof fn lemma_create_walk_preserved(
    nodes: Seq<TrieNode>,
    cur: int,
    key: Vec<u8>,
    l: usize,
    fresh: TrieNode,
    nd2: TrieNode,
    n: int,
    path: Seq<Seq<u8>>,
)
    requires
        create_step(nodes, cur, key, l, fresh, nd2),
        0 <= n < nodes.len(),
        node_at(nodes, n, path) >= 0,
    ensures
        node_at(nodes.push(fresh).update(cur, nd2), n, path) == node_at(nodes, n, path),
    decreases path.len(),
{
    let nodes2 = nodes.push(fresh).update(cur, nd2);
    if path.len() != 0 {
        let cs = nodes[n].children@;
        let k = key_index(cs, path[0]);
        assert(k != -1);
        lemma_key_index(cs, path[0]);
        let c = cs[k].1 as int;
        assert(n < c < nodes.len());
        if n == cur {
            lemma_key_index_push(cs, (key, l), path[0]);
            assert(key_index(nodes2[n].children@, path[0]) == k);
            assert(nodes2[n].children@[k] == cs[k]);
        } else {
            assert(nodes2[n] == nodes[n]);
        }
        lemma_create_walk_preserved(nodes, cur, key, l, fresh, nd2, c, path.drop_first());
    }
}

/// A child creation changes no subscriber list at any path: the only new
/// node is empty.
proof fn lemma_create_subs_preserved(
    nodes: Seq<TrieNode>,
    cur: int,
    key: Vec<u8>,
    l: usize,
    fresh: TrieNode,
    nd2: TrieNode,
    n: int,
    path: Seq<Seq<u8>>,
)
    requires
        create_step(nodes, cur, key, l, fresh, nd2),
        0 <= n < nodes.len(),
    ensures
        subs_from(nodes.push(fresh).update(cur, nd2), n, path) == subs_from(nodes, n, path),
    decreases path.len(),
{
    let nodes2 = nodes.push(fresh).update(cur, nd2);
    if path.len() == 0 {
        if n == cur {
            assert(nodes2[n].subs@ == nodes[n].subs@);
        } else {
            assert(nodes2[n] == nodes[n]);
        }
    } else {
        let cs = nodes[n].children@;
        let k = key_index(cs, path[0]);
        lemma_key_index(cs, path[0]);
        if n == cur {
            lemma_key_index_push(cs, (key, l), path[0]);
            let k2 = key_index(nodes2[n].children@, path[0]);
            if k != -1 {
                assert(k2 == k);
                assert(nodes2[n].children@[k] == cs[k]);
                let c = cs[k].1 as int;
                assert(n < c < nodes.len());
                lemma_create_subs_preserved(nodes, cur, key, l, fresh, nd2, c, path.drop_first());
            } else if path[0] == key@ {
                assert(k2 == cs.len());
                assert(nodes2[n].children@[k2] == (key, l));
                assert(node_at(nodes, n, path) == -1);
                // The walk in the new arena enters the fresh empty node.
                let rest = path.drop_first();
                if rest.len() == 0 {
                    assert(node_at(nodes2, l as int, rest) == l);
                    assert(nodes2[l as int].subs@ =~= Seq::<u64>::empty());
                } else {
                    assert(nodes2[l as int].children@.len() == 0);
                    assert(key_index(nodes2[l as int].children@, rest[0]) == -1);
                    assert(node_at(nodes2, l as int, rest) == -1);
                }
            } else {
                assert(k2 == -1);
            }
        } else {
            assert(nodes2[n] == nodes[n]);
            if k != -1 {
                let c = cs[k].1 as int;
                assert(n < c < nodes.len());
                lemma_create_subs_preserved(nodes, cur, key, l, fresh, nd2, c, path.drop_first());
            }
        }
    }
}

/// The topic-subscription trie. Its view is the total map from segment
/// paths to the subscriber list registered at that path, in subscription
/// order.
pub struct SubscriptionsT {
    nodes: Vec<TrieNode>,
}

impl View for SubscriptionsT {
    type V = Map<Seq<Seq<u8>>, Seq<u64>>;

    closed spec fn view(&self) -> Map<Seq<Seq<u8>>, Seq<u64>> {
        Map::new(|p: Seq<Seq<u8>>| true, |p: Seq<Seq<u8>>| subs_from(self.nodes@, 0, p))
    }
}

impl SubscriptionsT {
    pub closed spec fn inv(&self) -> bool {
        nodes_wf(self.nodes@)
    }

    /// A fresh trie with no subscriptions.
    pub fn new() -> (r: SubscriptionsT)
        ensures
            r.inv(),
            r@ == empty_model(),
    {
        let root = TrieNode { children: Vec::new(), subs: Vec::new() };
        let mut nodes: Vec<TrieNode> = Vec::new();
        nodes.push(root);
        let r = SubscriptionsT { nodes };
        proof {
            assert forall|p: Seq<Seq<u8>>| #[trigger] subs_from(r.nodes@, 0, p)
                == Seq::<u64>::empty() by {
                if p.len() == 0 {
                } else {
                    assert(r.nodes@[0].children@.len() == 0);
                    assert(key_index(r.nodes@[0].children@, p[0]) == -1);
                }
            }
            assert(r@ =~= empty_model());
        }
        r
    }

    /// Every subscriber list the trie hands out is duplicate-free.
    pub proof fn lemma_lists_dup_free(&self)
        requires
            self.inv(),
        ensures
            forall|p: Seq<Seq<u8>>| dup_free(#[trigger] self@[p]),
    {
        assert forall|p: Seq<Seq<u8>>| dup_free(#[trigger] self@[p]) by {
            lemma_node_at_range(self.nodes@, 0, p);
        }
    }

    /// The arena index for a segment path, if the path exists in the trie.
    fn locate(&self, segs: &Vec<Vec<u8>>) -> (r: Option<usize>)
        requires
            self.inv(),
        ensures
            match r {
                Some(t) => 0 <= t < self.nodes@.len() && node_at(self.nodes@, 0, segs.deep_view())
                    == t,
                None => node_at(self.nodes@, 0, segs.deep_view()) == -1,
            },
    {
        let ghost dv = segs.deep_view();
        let mut cur: usize = 0;
        let mut d: usize = 0;
        proof {
            assert(dv.take(0) =~= Seq::<Seq<u8>>::empty());
        }
        while d < segs.len()
            invariant
                self.inv(),
                0 <= d <= segs@.len(),
                dv == segs.deep_view(),
                dv.len() == segs@.len(),
                0 <= cur < self.nodes@.len(),
                node_at(self.nodes@, 0, dv.take(d as int)) == cur,
            decreases segs@.len() - d,
        {
            let nd = &self.nodes[cur];
            let r = find_child(&nd.children, segs[d].as_slice());
            proof {
                assert(dv[d as int] == segs@[d as int]@);
                assert(dv.take(d + 1) =~= dv.take(d as int) + seq![dv[d as int]]);
                lemma_node_at_concat(self.nodes@, 0, dv.take(d as int), seq![dv[d as int]]);
                assert(seq![dv[d as int]].drop_first() =~= Seq::<Seq<u8>>::empty());
            }
            match r {
                Some(i) => {
                    let next = nd.children[i].1;
                    proof {
                        lemma_key_index(self.nodes@[cur as int].children@, dv[d as int]);
                        assert(cur < self.nodes@[cur as int].children@[i as int].1
                            < self.nodes@.len());
                        assert(node_at(self.nodes@, next as int, Seq::<Seq<u8>>::empty())
                            == next);
                        assert(node_at(self.nodes@, 0, dv.take(d + 1)) == next);
                    }
                    cur = next;
                },
                None => {
                    proof {
                        assert(node_at(self.nodes@, 0, dv.take(d + 1)) == -1);
                        assert(dv =~= dv.take(d + 1) + dv.skip(d + 1));
                        lemma_node_at_concat(self.nodes@, 0, dv.take(d + 1), dv.skip(d + 1));
                    }
                    return None;
                },
            }
            d = d + 1;
        }
        proof {
            assert(dv.take(dv.len() as int) =~= dv);
        }
        Some(cur)
    }

    /// Walk a segment path from the root, creating the missing part. This
    /// changes no subscriber list at any path: created nodes are empty.
    fn ensure_path(&mut self, segs: &Vec<Vec<u8>>) -> (t: usize)
        requires
            old(self).inv(),
        ensures
            final(self).inv(),
            final(self)@ == old(self)@,
            0 <= t < final(self).nodes@.len(),
            node_at(final(self).nodes@, 0, segs.deep_view()) == t,
    {
        let ghost dv = segs.deep_view();
        let mut cur: usize = 0;
        let mut d: usize = 0;
        proof {
            assert(dv.take(0) =~= Seq::<Seq<u8>>::empty());
        }
        while d < segs.len()
            invariant
                self.inv(),
                0 <= d <= segs@.len(),
                dv == segs.deep_view(),
                dv.len() == segs@.len(),
                0 <= cur < self.nodes@.len(),
                node_at(self.nodes@, 0, dv.take(d as int)) == cur,
                forall|p: Seq<Seq<u8>>| #[trigger] subs_from(self.nodes@, 0, p) == subs_from(
                    old(self).nodes@,
                    0,
                    p,
                ),
            decreases segs@.len() - d,
        {
            let nd_ref = &self.nodes[cur];
            let r = find_child(&nd_ref.children, segs[d].as_slice());
            proof {
                assert(dv[d as int] == segs@[d as int]@);
                assert(dv.take(d + 1) =~= dv.take(d as int) + seq![dv[d as int]]);
            }
            match r {
                Some(i) => {
                    let next = self.nodes[cur].children[i].1;
                    proof {
                        lemma_node_at_concat(self.nodes@, 0, dv.take(d as int), seq![dv[d as int]]);
                        lemma_key_index(self.nodes@[cur as int].children@, dv[d as int]);
                        assert(cur < self.nodes@[cur as int].children@[i as int].1
                            < self.nodes@.len());
                        assert(seq![dv[d as int]].drop_first() =~= Seq::<Seq<u8>>::empty());
                        assert(node_at(self.nodes@, next as int, Seq::<Seq<u8>>::empty()) == next);
                        assert(node_at(self.nodes@, 0, dv.take(d + 1)) == next);
                    }
                    cur = next;
                },
                None => {
                    let ghost nodes0 = self.nodes@;
                    let l = self.nodes.len();
                    let key = slice_to_vec(segs[d].as_slice());
                    let ghost gkey = key;
                    let fresh = TrieNode { children: Vec::new(), subs: Vec::new() };
                    let ghost gfresh = fresh;
                    self.nodes.push(fresh);
                    let mut nd = self.nodes.remove(cur);
                    proof {
                        assert(nd == nodes0[cur as int]);
                    }
                    nd.children.push((key, l));
                    let ghost gnd = nd;
                    self.nodes.insert(cur, nd);
                    proof {
                        assert(self.nodes@ =~= nodes0.push(gfresh).remove(cur as int).insert(
                            cur as int,
                            gnd,
                        ));
                        lemma_remove_insert(nodes0.push(gfresh), cur as int, gnd);
                        let nodes2 = nodes0.push(gfresh).update(cur as int, gnd);
                        assert(self.nodes@ == nodes2);
                        assert(create_step(nodes0, cur as int, gkey, l, gfresh, gnd));
                        lemma_create_wf(nodes0, cur as int, gkey, l, gfresh, gnd);
                        // The old prefix walk is preserved and now extends to
                        // the fresh node.
                        lemma_create_walk_preserved(
                            nodes0,
                            cur as int,
                            gkey,
                            l,
                            gfresh,
                            gnd,
                            0,
                            dv.take(d as int),
                        );
                        lemma_node_at_concat(nodes2, 0, dv.take(d as int), seq![dv[d as int]]);
                        assert(gkey@ == dv[d as int]);
                        assert(node_at(nodes2, 0, dv.take(d + 1)) == l);
                        // No subscriber list changes.
                        assert forall|p: Seq<Seq<u8>>| #[trigger] subs_from(self.nodes@, 0, p)
                            == subs_from(old(self).nodes@, 0, p) by {
                            lemma_create_subs_preserved(
                                nodes0,
                                cur as int,
                                gkey,
                                l,
                                gfresh,
                                gnd,
                                0,
                                p,
                            );
                        }
                    }
                    cur = l;
                },
            }
            d = d + 1;
        }
        proof {
            assert(dv.take(dv.len() as int) =~= dv);
            assert forall|p: Seq<Seq<u8>>| true implies #[trigger] self@[p] == old(self)@[p] by {
                assert(subs_from(self.nodes@, 0, p) == subs_from(old(self).nodes@, 0, p));
            }
            assert(self@ =~= old(self)@);
        }
        cur
    }

    /// Register a subscriber for one raw filter. An empty filter is
    /// rejected; subscribing again to the same filter changes nothing.
    pub fn subscribe_bytes(&mut self, subscriber: u64, filter: &[u8])
        requires
            old(self).inv(),
        ensures
            final(self).inv(),
            final(self)@ == subscribe_filter_model(old(self)@, filter@, subscriber),
    {
        if filter.len() == 0 {
            return ;
        }
        let segs = split_bytes(filter);
        let ghost path = split_seq(filter@);
        let t = self.ensure_path(&segs);
        let ghost mid = self.nodes@;
        let has = contains_u64(&self.nodes[t].subs, subscriber);
        if has {
            proof {
                assert(self@[path] == self.nodes@[t as int].subs@);
                assert(self@[path].contains(subscriber));
                assert(subscribe_model(self@, path, subscriber) =~= self@);
            }
            return ;
        }
        let mut nd = self.nodes.remove(t);
        nd.subs.push(subscriber);
        let ghost gnd = nd;
        self.nodes.insert(t, nd);
        proof {
            assert(self.nodes@ =~= mid.remove(t as int).insert(t as int, gnd));
            lemma_remove_insert(mid, t as int, gnd);
            let nodes2 = mid.update(t as int, gnd);
            assert(self.nodes@ == nodes2);
            assert(gnd.children@ == mid[t as int].children@);
            assert(gnd.subs@ == mid[t as int].subs@.push(subscriber));
            // Well-formedness: children are untouched, and the one extended
            // subscriber list stays duplicate-free.
            assert(forall|m: int|
                0 <= m < nodes2.len() ==> (#[trigger] nodes2[m]).children@ == mid[m].children@);
            assert forall|m: int| 0 <= m < nodes2.len() implies dup_free(
                #[trigger] nodes2[m].subs@,
            ) by {
                if m == t as int {
                    assert(dup_free(mid[m].subs@));
                    assert(!mid[m].subs@.contains(subscriber));
                    assert(forall|i: int|
                        0 <= i < mid[m].subs@.len() ==> nodes2[m].subs@[i] == mid[m].subs@[i]);
                } else {
                    assert(nodes2[m] == mid[m]);
                    assert(dup_free(mid[m].subs@));
                }
            }
            assert forall|n1: int, i1: int, n2: int, i2: int|
                0 <= n1 < nodes2.len() && 0 <= i1 < nodes2[n1].children@.len() && 0 <= n2
                    < nodes2.len() && 0 <= i2 < nodes2[n2].children@.len() && (n1 != n2 || i1
                    != i2) implies (#[trigger] nodes2[n1].children@[i1]).1 != (
            #[trigger] nodes2[n2].children@[i2]).1 by {
                assert(nodes2[n1].children@ == mid[n1].children@);
                assert(nodes2[n2].children@ == mid[n2].children@);
            }
            assert forall|n: int, i: int|
                0 <= n < nodes2.len() && 0 <= i < nodes2[n].children@.len() implies n < (
            #[trigger] nodes2[n].children@[i]).1 < nodes2.len() by {
                assert(nodes2[n].children@ == mid[n].children@);
            }
            assert forall|n: int| 0 <= n < nodes2.len() implies keys_unique(
                #[trigger] nodes2[n].children@,
            ) by {
                assert(nodes2[n].children@ == mid[n].children@);
                assert(keys_unique(mid[n].children@));
            }
            assert(nodes_wf(nodes2));
            // The view gains the subscriber at exactly this path.
            let m0 = Map::new(
                |p: Seq<Seq<u8>>| true,
                |p: Seq<Seq<u8>>| subs_from(mid, 0, p),
            );
            assert(m0 =~= old(self)@);
            assert forall|p: Seq<Seq<u8>>| true implies #[trigger] self@[p] == subscribe_model(
                m0,
                path,
                subscriber,
            )[p] by {
                lemma_node_at_same_children(mid, nodes2, 0, p);
                if p == path {
                    assert(node_at(nodes2, 0, p) == t);
                    assert(self@[p] == gnd.subs@);
                    assert(m0[p] == mid[t as int].subs@);
                    assert(!m0[p].contains(subscriber));
                } else {
                    let w = node_at(mid, 0, p);
                    if w == t {
                        lemma_node_at_injective(mid, p, path);
                        assert(false);
                    }
                    lemma_node_at_range(mid, 0, p);
                    if w != -1 {
                        assert(nodes2[w] == mid[w]);
                    }
                }
            }
            assert(self@ =~= subscribe_model(m0, path, subscriber));
        }
    }

    /// Register a subscriber for each filter in the list, in order; the
    /// segments of a filter are its UTF-8 bytes split at `/`.
    pub fn subscribe(&mut self, subscriber: u64, topics: &[&str])
        requires
            old(self).inv(),
        ensures
            final(self).inv(),
            final(self)@ == subscribe_strs_model(
                old(self)@,
                topics@.map_values(|t: &str| t@),
                subscriber,
            ),
    {
        let ghost ts = topics@.map_values(|t: &str| t@);
        let mut i: usize = 0;
        proof {
            assert(ts.take(0) =~= Seq::<Seq<char>>::empty());
            assert(subscribe_strs_model(old(self)@, ts.take(0), subscriber) == old(self)@);
        }
        while i < topics.len()
            invariant
                self.inv(),
                0 <= i <= topics@.len(),
                ts == topics@.map_values(|t: &str| t@),
                ts.len() == topics@.len(),
                self@ == subscribe_strs_model(old(self)@, ts.take(i as int), subscriber),
            decreases topics@.len() - i,
        {
            let topic: &str = topics[i];
            self.subscribe_bytes(subscriber, topic.as_bytes());
            proof {
                assert(topic.spec_bytes() == vstd::utf8::encode_utf8(topic@));
                assert(ts[i as int] == topic@);
                lemma_subscribe_strs_snoc(old(self)@, ts.take(i as int), ts[i as int], subscriber);
                assert(ts.take(i + 1) =~= ts.take(i as int).push(ts[i as int]));
            }
            i = i + 1;
        }
        proof {
            assert(ts.take(ts.len() as int) =~= ts);
        }
    }

    /// Remove a subscriber from every node of the trie: afterwards no path
    /// lists it.
    pub fn unsubscribe_all(&mut self, subscriber: u64)
        requires
            old(self).inv(),
        ensures
            final(self).inv(),
            final(self)@ == unsubscribe_model(old(self)@, subscriber),
    {
        let ghost pred = keeps(subscriber);
        let mut n: usize = 0;
        while n < self.nodes.len()
            invariant
                pred == keeps(subscriber),
                self.nodes@.len() == old(self).nodes@.len(),
                0 <= n <= self.nodes@.len(),
                forall|m: int|
                    0 <= m < self.nodes@.len() ==> (#[trigger] self.nodes@[m]).children@ == old(
                        self,
                    ).nodes@[m].children@,
                forall|m: int|
                    0 <= m < n ==> (#[trigger] self.nodes@[m]).subs@ == old(
                        self,
                    ).nodes@[m].subs@.filter(pred),
                forall|m: int|
                    n <= m < self.nodes@.len() ==> (#[trigger] self.nodes@[m]).subs@ == old(
                        self,
                    ).nodes@[m].subs@,
            decreases self.nodes@.len() - n,
        {
            let ghost mid = self.nodes@;
            let mut nd = self.nodes.remove(n);
            let ghost osubs = nd.subs@;
            let mut kept: Vec<u64> = Vec::new();
            let mut j: usize = 0;
            proof {
                assert(osubs.take(0) =~= Seq::<u64>::empty());
                vstd::seq::Seq::<u64>::empty().lemma_filter_len(pred);
                assert(osubs.take(0).filter(pred) =~= Seq::<u64>::empty());
            }
            while j < nd.subs.len()
                invariant
                    pred == keeps(subscriber),
                    0 <= j <= nd.subs@.len(),
                    nd.subs@ == osubs,
                    kept@ == osubs.take(j as int).filter(pred),
                decreases nd.subs@.len() - j,
            {
                let x = nd.subs[j];
                proof {
                    osubs.take(j as int).lemma_filter_push(osubs[j as int], pred);
                    osubs.lemma_take_succ_push(j as int);
                    assert(pred(x) == (x != subscriber));
                    assert(osubs.take(j + 1) == osubs.take(j as int).push(osubs[j as int]));
                }
                if x != subscriber {
                    kept.push(x);
                }
                j = j + 1;
            }
            proof {
                assert(osubs.take(osubs.len() as int) =~= osubs);
            }
            nd.subs = kept;
            let ghost gnd = nd;
            self.nodes.insert(n, nd);
            proof {
                assert(self.nodes@ =~= mid.remove(n as int).insert(n as int, gnd));
                lemma_remove_insert(mid, n as int, gnd);
                assert(self.nodes@ == mid.update(n as int, gnd));
            }
            n = n + 1;
        }
        proof {
            let nodes0 = old(self).nodes@;
            let nodes2 = self.nodes@;
            // Well-formedness: children untouched; filtering preserves
            // duplicate-freedom.
            assert forall|m: int| 0 <= m < nodes2.len() implies dup_free(
                #[trigger] nodes2[m].subs@,
            ) by {
                assert(dup_free(nodes0[m].subs@));
                lemma_filter_dup_free(nodes0[m].subs@, pred);
            }
            assert forall|n1: int, i1: int, n2: int, i2: int|
                0 <= n1 < nodes2.len() && 0 <= i1 < nodes2[n1].children@.len() && 0 <= n2
                    < nodes2.len() && 0 <= i2 < nodes2[n2].children@.len() && (n1 != n2 || i1
                    != i2) implies (#[trigger] nodes2[n1].children@[i1]).1 != (
            #[trigger] nodes2[n2].children@[i2]).1 by {
                assert(nodes2[n1].children@ == nodes0[n1].children@);
                assert(nodes2[n2].children@ == nodes0[n2].children@);
            }
            assert forall|n1: int, i1: int|
                0 <= n1 < nodes2.len() && 0 <= i1 < nodes2[n1].children@.len() implies n1 < (
            #[trigger] nodes2[n1].children@[i1]).1 < nodes2.len() by {
                assert(nodes2[n1].children@ == nodes0[n1].children@);
            }
            assert forall|m: int| 0 <= m < nodes2.len() implies keys_unique(
                #[trigger] nodes2[m].children@,
            ) by {
                assert(nodes2[m].children@ == nodes0[m].children@);
                assert(keys_unique(nodes0[m].children@));
            }
            assert(nodes_wf(nodes2));
            // Every path's list is the old list with the subscriber removed.
            assert forall|p: Seq<Seq<u8>>| true implies #[trigger] self@[p] == unsubscribe_model(
                old(self)@,
                subscriber,
            )[p] by {
                lemma_node_at_same_children(nodes0, nodes2, 0, p);
                lemma_node_at_range(nodes0, 0, p);
                let w = node_at(nodes0, 0, p);
                if w == -1 {
                    Seq::<u64>::empty().lemma_filter_len(pred);
                    assert(old(self)@[p].filter(pred) =~= Seq::<u64>::empty());
                } else {
                    assert(nodes2[w].subs@ == nodes0[w].subs@.filter(pred));
                }
            }
            assert(self@ =~= unsubscribe_model(old(self)@, subscriber));
        }
    }

    /// Fan a payload out to the subscribers whose filter equals the topic
    /// segment for segment, in subscription order. The returned deliveries
    /// all carry the payload unchanged.
    pub fn publish_bytes(&self, topic: &[u8], payload: &[u8]) -> (ds: Vec<Delivery>)
        requires
            self.inv(),
        ensures
            deliveries_view(ds@) == publish_deliveries(self@[split_seq(topic@)], payload@),
    {
        let segs = split_bytes(topic);
        let ghost path = split_seq(topic@);
        let ghost expected = self@[path];
        let mut ds: Vec<Delivery> = Vec::new();
        let t = match self.locate(&segs) {
            Some(t) => t,
            None => {
                proof {
                    assert(expected =~= Seq::<u64>::empty());
                    assert(deliveries_view(ds@) =~= publish_deliveries(expected, payload@));
                }
                return ds;
            },
        };
        let nd = &self.nodes[t];
        proof {
            assert(expected == nd.subs@);
        }
        let mut j: usize = 0;
        while j < nd.subs.len()
            invariant
                0 <= j <= nd.subs@.len(),
                nd.subs@ == expected,
                deliveries_view(ds@) == publish_deliveries(expected.take(j as int), payload@),
            decreases nd.subs@.len() - j,
        {
            let ghost prev = ds@;
            ds.push(Delivery { to: nd.subs[j], msg: slice_to_vec(payload) });
            proof {
                assert(expected.take(j + 1) =~= expected.take(j as int).push(expected[j as int]));
                assert(deliveries_view(ds@) =~= deliveries_view(prev).push(
                    (expected[j as int], payload@),
                ));
                assert(publish_deliveries(expected.take(j + 1), payload@) =~= publish_deliveries(
                    expected.take(j as int),
                    payload@,
                ).push((expected[j as int], payload@)));
            }
            j = j + 1;
        }
        proof {
            assert(expected.take(expected.len() as int) =~= expected);
        }
        ds
    }

    /// Fan a payload out by topic name; segments are the topic's UTF-8
    /// bytes split at `/`.
    pub fn publish(&self, topic: &str, payload: &[u8]) -> (ds: Vec<Delivery>)
        requires
            self.inv(),
        ensures
            deliveries_view(ds@) == publish_deliveries(self@[str_path(topic@)], payload@),
    {
        self.publish_bytes(topic.as_bytes(), payload)
    }
}

/// The broker: the subscription trie behind the operations the dispatcher
/// needs. Its view is the trie's subscription map.
pub struct Broker {
    subscriptions: SubscriptionsT,
}

impl View for Broker {
    type V = Map<Seq<Seq<u8>>, Seq<u64>>;

    closed spec fn view(&self) -> Map<Seq<Seq<u8>>, Seq<u64>> {
        self.subscriptions@
    }
}

impl Broker {
    pub closed spec fn inv(&self) -> bool {
        self.subscriptions.inv()
    }

    /// A broker with no subscriptions.
    pub fn new() -> (r: Broker)
        ensures
            r.inv(),
            r@ == empty_model(),
    {
        Broker { subscriptions: SubscriptionsT::new() }
    }

    /// Every subscriber list the broker hands out is duplicate-free.
    pub proof fn lemma_lists_dup_free(&self)
        requires
            self.inv(),
        ensures
            forall|p: Seq<Seq<u8>>| dup_free(#[trigger] self@[p]),
    {
        self.subscriptions.lemma_lists_dup_free();
    }

    /// Register a subscriber for each filter in the list, in order.
    pub fn subscribe(&mut self, subscriber: u64, topics: &[&str])
        requires
            old(self).inv(),
        ensures
            final(self).inv(),
            final(self)@ == subscribe_strs_model(
                old(self)@,
                topics@.map_values(|t: &str| t@),
                subscriber,
            ),
    {
        self.subscriptions.subscribe(subscriber, topics);
    }

    /// Register a subscriber for one raw filter.
    pub fn subscribe_bytes(&mut self, subscriber: u64, filter: &[u8])
        requires
            old(self).inv(),
        ensures
            final(self).inv(),
            final(self)@ == subscribe_filter_model(old(self)@, filter@, subscriber),
    {
        self.subscriptions.subscribe_bytes(subscriber, filter);
    }

    /// Fan a payload out to the subscribers of the topic's path.
    pub fn publish(&mut self, topic: &str, payload: &[u8]) -> (ds: Vec<Delivery>)
        requires
            old(self).inv(),
        ensures
            final(self).inv(),
            final(self)@ == old(self)@,
            *final(self) == *old(self),
            deliveries_view(ds@) == publish_deliveries(old(self)@[str_path(topic@)], payload@),
    {
        self.subscriptions.publish(topic, payload)
    }

    /// Fan a payload out by raw topic bytes.
    pub fn publish_bytes(&mut self, topic: &[u8], payload: &[u8]) -> (ds: Vec<Delivery>)
        requires
            old(self).inv(),
        ensures
            final(self).inv(),
            final(self)@ == old(self)@,
            *final(self) == *old(self),
            deliveries_view(ds@) == publish_deliveries(old(self)@[split_seq(topic@)], payload@),
    {
        self.subscriptions.publish_bytes(topic, payload)
    }

    /// Remove a subscriber from every path.
    pub fn unsubscribe_all(&mut self, subscriber: u64)
        requires
            old(self).inv(),
        ensures
            final(self).inv(),
            final(self)@ == unsubscribe_model(old(self)@, subscriber),
    {
        self.subscriptions.unsubscribe_all(subscriber);
    }
}

/// In a duplicate-free list every subscriber occurs once or not at all.
proof fn lemma_count_in_dup_free(s: Seq<u64>, x: u64)
    requires
        dup_free(s),
    ensures
        count_in(s, x) == if s.contains(x) {
            1nat
        } else {
            0nat
        },
    decreases s.len(),
{
    reveal(Seq::filter);
    if s.len() == 0 {
        assert(!s.contains(x));
    } else {
        let s0 = s.drop_last();
        assert(dup_free(s0));
        lemma_count_in_dup_free(s0, x);
        assert(s =~= s0.push(s.last()));
        if s.last() == x {
            assert(!s0.contains(x));
            assert(s.contains(x));
        } else {
            assert(s0.contains(x) == s.contains(x)) by {
                if s.contains(x) {
                    let w = choose|w: int| 0 <= w < s.len() && s[w] == x;
                    assert(w < s.len() - 1);
                    assert(s0[w] == x);
                }
                if s0.contains(x) {
                    let w = choose|w: int| 0 <= w < s0.len() && s0[w] == x;
                    assert(s[w] == x);
                }
            }
        }
    }
}

/// Law: subscribing the same subscriber to the same filter path again
/// changes nothing, and after a subscribe the subscriber stands exactly
/// once in the delivery list of that path, so each matching publish
/// delivers to it exactly once.
pub proof fn lemma_subscribe_idempotent(m: Map<Seq<Seq<u8>>, Seq<u64>>, path: Seq<Seq<u8>>, s: u64)
    requires
        dup_free(m[path]),
    ensures
        subscribe_model(subscribe_model(m, path, s), path, s) == subscribe_model(m, path, s),
        count_in(subscribe_model(m, path, s)[path], s) == 1,
{
    let m1 = subscribe_model(m, path, s);
    assert(m1[path].contains(s)) by {
        if !m[path].contains(s) {
            assert(m1[path] == m[path].push(s));
            assert(m1[path][m[path].len() as int] == s);
        }
    }
    assert(subscribe_model(m1, path, s) =~= m1);
    assert(dup_free(m1[path])) by {
        if !m[path].contains(s) {
            let q = m[path].push(s);
            assert forall|i: int, j: int| 0 <= i < j < q.len() implies q[i] != q[j] by {
                if j == q.len() - 1 {
                    assert(q[i] == m[path][i]);
                    assert(m[path].contains(m[path][i]));
                }
            }
        }
    }
    lemma_count_in_dup_free(m1[path], s);
}

/// Law: after a subscriber is removed from every path, no publish to any
/// path delivers to it.
pub proof fn lemma_unsubscribe_complete(m: Map<Seq<Seq<u8>>, Seq<u64>>, s: u64, path: Seq<Seq<u8>>)
    requires
        m.dom().contains(path),
    ensures
        !unsubscribe_model(m, s)[path].contains(s),
{
    let f = m[path].filter(keeps(s));
    assert(unsubscribe_model(m, s)[path] == f);
    if f.contains(s) {
        let i = choose|i: int| 0 <= i < f.len() && f[i] == s;
        m[path].lemma_filter_pred(keeps(s), i);
        assert(keeps(s)(s));
        assert(false);
    }
}

/// Law: a publish reaches exactly the subscribers of the topic's own path.
/// A subscribe at one filter path puts the subscriber there and changes
/// the delivery list of every other path not at all.
pub proof fn lemma_delivery_scope(
    m: Map<Seq<Seq<u8>>, Seq<u64>>,
    filter_path: Seq<Seq<u8>>,
    topic_path: Seq<Seq<u8>>,
    s: u64,
)
    requires
        m.dom().contains(topic_path),
    ensures
        subscribe_model(m, filter_path, s)[filter_path].contains(s),
        filter_path != topic_path ==> subscribe_model(m, filter_path, s)[topic_path]
            == m[topic_path],
{
    let m1 = subscribe_model(m, filter_path, s);
    if !m[filter_path].contains(s) {
        assert(m1[filter_path] == m[filter_path].push(s));
        assert(m1[filter_path][m[filter_path].len() as int] == s);
    }
}

/// Splitting a delivery list splits the payloads each subscriber sees.
proof fn lemma_msgs_to_add(a: Seq<(u64, Seq<u8>)>, b: Seq<(u64, Seq<u8>)>, s: u64)
    ensures
        msgs_to(a + b, s) == msgs_to(a, s) + msgs_to(b, s),
{
    Seq::filter_distributes_over_add(a, b, addressed_to(s));
    let fa = a.filter(addressed_to(s));
    let fb = b.filter(addressed_to(s));
    assert((fa + fb).map_values(|d: (u64, Seq<u8>)| d.1) =~= fa.map_values(
        |d: (u64, Seq<u8>)| d.1,
    ) + fb.map_values(|d: (u64, Seq<u8>)| d.1));
}

/// One publish hands a subscriber of the path exactly one copy of the
/// payload, and hands anyone else nothing.
proof fn lemma_msgs_to_publish(subs: Seq<u64>, pay: Seq<u8>, s: u64)
    requires
        dup_free(subs),
    ensures
        msgs_to(publish_deliveries(subs, pay), s) == if subs.contains(s) {
            seq![pay]
        } else {
            Seq::<Seq<u8>>::empty()
        },
    decreases subs.len(),
{
    reveal(Seq::filter);
    let ds = publish_deliveries(subs, pay);
    if subs.len() == 0 {
        assert(ds.len() == 0);
        assert(ds.filter(addressed_to(s)) =~= Seq::<(u64, Seq<u8>)>::empty());
        assert(msgs_to(ds, s) =~= Seq::<Seq<u8>>::empty());
        assert(!subs.contains(s));
    } else {
        let s0 = subs.drop_last();
        assert(dup_free(s0));
        lemma_msgs_to_publish(s0, pay, s);
        let ds0 = publish_deliveries(s0, pay);
        assert(ds =~= ds0.push((subs.last(), pay)));
        ds0.lemma_filter_push((subs.last(), pay), addressed_to(s));
        let f0 = ds0.filter(addressed_to(s));
        if subs.last() == s {
            assert(!s0.contains(s)) by {
                if s0.contains(s) {
                    let w = choose|w: int| 0 <= w < s0.len() && s0[w] == s;
                    assert(subs[w] == s && subs.last() == s);
                }
            }
            assert(subs.contains(s));
            assert(addressed_to(s)((subs.last(), pay)));
            assert(ds.filter(addressed_to(s)) == f0.push((s, pay)));
            assert(msgs_to(ds, s) =~= msgs_to(ds0, s).push(pay));
            assert(msgs_to(ds0, s) =~= Seq::<Seq<u8>>::empty());
            assert(msgs_to(ds, s) =~= seq![pay]);
        } else {
            assert(!addressed_to(s)((subs.last(), pay)));
            assert(ds.filter(addressed_to(s)) == f0);
            assert(msgs_to(ds, s) == msgs_to(ds0, s));
            assert(s0.contains(s) == subs.contains(s)) by {
                if subs.contains(s) {
                    let w = choose|w: int| 0 <= w < subs.len() && subs[w] == s;
                    assert(w < subs.len() - 1);
                    assert(s0[w] == s);
                }
                if s0.contains(s) {
                    let w = choose|w: int| 0 <= w < s0.len() && s0[w] == s;
                    assert(subs[w] == s);
                }
            }
        }
    }
}

/// Law: deliveries keep publish order. Two publishes to the same path hand
/// a subscriber of that path exactly the two payloads, in publish order,
/// after whatever it had already received; a subscriber not at that path
/// receives nothing new.
pub proof fn lemma_delivery_order(
    m: Map<Seq<Seq<u8>>, Seq<u64>>,
    path: Seq<Seq<u8>>,
    s: u64,
    out0: Seq<(u64, Seq<u8>)>,
    pay1: Seq<u8>,
    pay2: Seq<u8>,
)
    requires
        dup_free(m[path]),
    ensures
        ({
            let d1 = publish_deliveries(m[path], pay1);
            let d2 = publish_deliveries(m[path], pay2);
            msgs_to(out0 + d1 + d2, s) == msgs_to(out0, s) + (if m[path].contains(s) {
                seq![pay1, pay2]
            } else {
                Seq::<Seq<u8>>::empty()
            })
        }),
{
    let d1 = publish_deliveries(m[path], pay1);
    let d2 = publish_deliveries(m[path], pay2);
    lemma_msgs_to_add(out0 + d1, d2, s);
    lemma_msgs_to_add(out0, d1, s);
    lemma_msgs_to_publish(m[path], pay1, s);
    lemma_msgs_to_publish(m[path], pay2, s);
    if m[path].contains(s) {
        assert(msgs_to(out0, s) + seq![pay1] + seq![pay2] =~= msgs_to(out0, s) + seq![pay1, pay2]);
    } else {
        assert(msgs_to(out0, s) + Seq::<Seq<u8>>::empty() + Seq::<Seq<u8>>::empty() =~= msgs_to(
            out0,
            s,
        ) + Seq::<Seq<u8>>::empty());
    }
}

/// Index of the first child whose key equals the segment.
fn find_child(cs: &Vec<(Vec<u8>, usize)>, seg: &[u8]) -> (r: Option<usize>)
    ensures
        match r {
            Some(i) => 0 <= i < cs@.len() && key_index(cs@, seg@) == i,
            None => key_index(cs@, seg@) == -1,
        },
{
    let mut i: usize = 0;
    while i < cs.len()
        invariant
            0 <= i <= cs@.len(),
            forall|j: int| 0 <= j < i ==> (#[trigger] cs@[j]).0@ != seg@,
        decreases cs@.len() - i,
    {
        let pair = &cs[i];
        if eq_bytes(pair.0.as_slice(), seg) {
            proof {
                lemma_key_index(cs@, seg@);
            }
            return Some(i);
        }
        i = i + 1;
    }
    proof {
        lemma_key_index(cs@, seg@);
    }
    None
}

} // verus!
