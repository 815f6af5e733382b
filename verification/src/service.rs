//! The decisions of the cache service: where a request goes, what a read
//! answers once the database has spoken, and how the cluster changes when a
//! node joins or leaves. The transport and the database stay outside.
use vstd::prelude::*;
use crate::hash_ring::{
    HashRing, RingNodeInfo, RingView, inserted, node_label, removal_run, removed, replica_points,
    ring_resolves, ring_successor, ring_wf, sorted, strictly_sorted, xxhash64_text,
};
use crate::ring_laws::{
    law_insert_moves_only_to_new, law_insert_then_remove_restores, law_reinsert_restores,
    law_remove_moves_only_removed,
};
use vstd::pervasive::cloned;
use crate::lru::{LRUCache, after_lookup, after_store, lookup, opt_view};
use crate::text::{decimal, push_decimal};

verus! {

/// A member of the cluster, as the service's messages carry it.
#[derive(Clone, Debug, PartialEq, Eq)]
pub struct ClusterNode {
    pub host: String,
    pub port: i32,
}

/// Where a request for a key goes.
pub enum Route {
    /// The ring has no node.
    Unplaced,
    /// This node owns the key.
    Local,
    /// Another node owns the key; this is its address.
    Remote(String),
}

/// What a read answers.
pub struct CacheReply {
    pub found: bool,
    pub value: String,
}

/// `http://host:port`.
pub open spec fn address_of(host: Seq<char>, port: nat) -> Seq<char> {
    "http://"@ + host + ":"@ + decimal(port)
}

/// The same node: same host, same port.
pub open spec fn is_current(node: RingNodeInfo, curr: RingNodeInfo) -> bool {
    node.host@ == curr.host@ && node.port == curr.port
}

/// The route to `node` from the node `curr`.
pub open spec fn route_to(node: RingNodeInfo, curr: RingNodeInfo, r: Route) -> bool {
    if is_current(node, curr) {
        r is Local
    } else {
        r matches Route::Remote(a) && a@ == address_of(node.host@, node.port as nat)
    }
}

/// The same member of the cluster: same host, same port.
pub open spec fn same_member(a: ClusterNode, b: ClusterNode) -> bool {
    a.host@ == b.host@ && a.port == b.port
}

/// The ring's node for a cluster member; the port is cut to 16 bits.
pub open spec fn ring_node_of(n: ClusterNode) -> RingNodeInfo {
    RingNodeInfo { host: n.host, port: n.port as u16 }
}

/// The points of a cluster member on a ring with `replicas` points a node.
pub open spec fn member_points(n: ClusterNode, replicas: int) -> Seq<u64> {
    replica_points(node_label(ring_node_of(n)), replicas)
}

/// The point where `key` lands on the ring `v`.
pub open spec fn key_point(v: RingView<RingNodeInfo>, key: Seq<char>) -> u64 {
    ring_successor(v.points, xxhash64_text(key))
}

/// The address of a node: `http://host:port`.
pub fn node_address(node: &RingNodeInfo) -> (addr: String)
    ensures
        addr@ == address_of(node.host@, node.port as nat),
{
    let mut addr = String::from_str("http://");
    addr.append(node.host.as_str());
    addr.append(":");
    push_decimal(&mut addr, node.port as u64);
    proof {
        assert(addr@ =~= address_of(node.host@, node.port as nat));
    }
    addr
}

/// Where a request for `key` goes: nowhere when the ring is empty, here
/// when the key's node is `curr`, else to the key's node.
pub fn route(ring: &HashRing<RingNodeInfo>, curr: &RingNodeInfo, key: &String) -> (r: Route)
    requires
        sorted(ring@.points),
        ring_resolves(ring@),
    ensures
        ring@.points.len() == 0 <==> r is Unplaced,
        ring@.points.len() > 0 ==> route_to(ring@.nodes[key_point(ring@, key@)], *curr, r),
{
    match ring.owner_of(key) {
        None => Route::Unplaced,
        Some(node) => {
            if node.host == curr.host && node.port == curr.port {
                Route::Local
            } else {
                Route::Remote(node_address(node))
            }
        },
    }
}

/// The address of the node that owns `key`, when the ring has one.
pub fn next_node_address(ring: &HashRing<RingNodeInfo>, key: &String) -> (addr: Option<String>)
    requires
        sorted(ring@.points),
        ring_resolves(ring@),
    ensures
        ring@.points.len() == 0 <==> addr is None,
        addr matches Some(a) ==> ({
            let node = ring@.nodes[key_point(ring@, key@)];
            a@ == address_of(node.host@, node.port as nat)
        }),
{
    match ring.owner_of(key) {
        None => None,
        Some(node) => Some(node_address(node)),
    }
}

/// Answers a read from the cache alone: a live entry gives a found reply; a
/// miss (no entry, or an expired one, which is dropped) gives none, and the
/// read goes on to the database.
pub fn read_cached(cache: &mut LRUCache, key: &String) -> (reply: Option<CacheReply>)
    requires
        old(cache).wf(),
    ensures
        final(cache).wf(),
        exists|now: u128|
            {
                &&& old(cache).clock_floor() <= now
                &&& final(cache).clock_floor() == now
                &&& final(cache)@ == #[trigger] after_lookup(old(cache)@, key@, now)
                &&& match lookup(old(cache)@, key@, now) {
                    Some(v) => reply matches Some(r) && r.found && r.value@ == v,
                    None => reply is None,
                }
            },
{
    let found = cache.get(key);
    proof {
        let now = choose|now: u128|
            {
                &&& old(cache).clock_floor() <= now <= crate::lru::MAX_DURATION_NANOS
                &&& cache.clock_floor() == now
                &&& opt_view(found) == #[trigger] lookup(old(cache)@, key@, now)
                &&& cache@ == after_lookup(old(cache)@, key@, now)
            };
        assert(cache@ == after_lookup(old(cache)@, key@, now));
        assert(cache.clock_floor() == now);
    }
    match found {
        Some(value) => Some(CacheReply { found: true, value }),
        None => None,
    }
}

/// Settles a read that missed the cache, once the database has answered:
/// a stored value goes into the cache and is found; otherwise nothing is
/// found and the answer's value is empty.
pub fn settle_db_read(cache: &mut LRUCache, key: String, stored: Option<String>) -> (reply: CacheReply)
    requires
        old(cache).wf(),
    ensures
        final(cache).wf(),
        stored is None ==> !reply.found && reply.value@ == Seq::<char>::empty() && final(cache)@ == old(cache)@,
        stored is None ==> final(cache).clock_floor() == old(cache).clock_floor(),
        stored matches Some(v) ==> reply.found && reply.value@ == v@ && exists|now: u128|
            old(cache).clock_floor() <= now && final(cache).clock_floor() == now && final(cache)@ == #[trigger] after_store(old(cache)@, key@, v@, now),
{
    match stored {
        Some(value) => {
            cache.put(key, value.clone());
            CacheReply { found: true, value }
        },
        None => CacheReply { found: false, value: String::new() },
    }
}

/// A node joins the cluster: it is listed, and its points go on the ring.
pub fn join_cluster(nodes: &mut Vec<ClusterNode>, ring: &mut HashRing<RingNodeInfo>, joining: Option<ClusterNode>)
    ensures
        ring_wf(old(ring)@) ==> ring_wf(final(ring)@),
        ring_resolves(old(ring)@) ==> ring_resolves(final(ring)@),
        joining is None ==> final(nodes)@ == old(nodes)@ && final(ring)@ == old(ring)@,
        joining matches Some(n) ==> final(nodes)@ == old(nodes)@.push(n),
        joining matches Some(n) ==> inserted(old(ring)@, final(ring)@, ring_node_of(n), member_points(n, old(ring)@.replicas)),
{
    if let Some(node) = joining {
        let ring_node = RingNodeInfo { host: node.host.clone(), port: #[verifier::truncate] (node.port as u16) };
        proof {
            assert(ring_node == ring_node_of(node));
        }
        let label = ring_node.label();
        nodes.push(node);
        ring.add_labeled(&ring_node, &label);
    }
}

/// A node leaves the cluster: every listing of it goes, and its points come
/// off the ring (see `remove_node`).
pub fn leave_cluster(nodes: &mut Vec<ClusterNode>, ring: &mut HashRing<RingNodeInfo>, leaving: Option<ClusterNode>)
    requires
        ring_wf(old(ring)@),
    ensures
        ring_wf(final(ring)@),
        leaving is None ==> final(nodes)@ == old(nodes)@ && final(ring)@ == old(ring)@,
        leaving matches Some(n) ==> final(nodes)@ == old(nodes)@.filter(|m: ClusterNode| !same_member(m, n)),
        leaving matches Some(n) ==> removed(old(ring)@, final(ring)@, member_points(n, old(ring)@.replicas)),
        ring_resolves(old(ring)@) && strictly_sorted(old(ring)@.points) ==> ring_resolves(final(ring)@) && strictly_sorted(final(ring)@.points),
{
    if let Some(node) = leaving {
        let ghost all = nodes@;
        let ghost keep = |m: ClusterNode| !same_member(m, node);
        let mut i: usize = 0;
        let ghost mut j: int = 0;
        proof {
            reveal(Seq::filter);
            assert(all.take(0) =~= Seq::<ClusterNode>::empty());
            assert(all.take(0).filter(keep) =~= Seq::<ClusterNode>::empty());
            assert(all.skip(0) =~= all);
            assert(nodes@ =~= all.take(0).filter(keep) + all.skip(0));
        }
        while i < nodes.len()
            invariant
                0 <= j <= all.len(),
                i == all.take(j).filter(keep).len(),
                nodes@ == all.take(j).filter(keep) + all.skip(j),
                keep == (|m: ClusterNode| !same_member(m, node)),
            decreases all.len() - j,
        {
            let ghost x = all[j];
            proof {
                assert(nodes@[i as int] == x);
                let t = all.take(j + 1);
                assert(t.drop_last() =~= all.take(j));
                assert(t.last() == x);
                reveal(Seq::filter);
                assert(all.skip(j).drop_first() =~= all.skip(j + 1));
            }
            if nodes[i].host == node.host && nodes[i].port == node.port {
                nodes.remove(i);
                proof {
                    assert(!keep(x));
                    assert(nodes@ =~= all.take(j + 1).filter(keep) + all.skip(j + 1));
                }
            } else {
                proof {
                    assert(keep(x));
                    assert(all.take(j + 1).filter(keep) == all.take(j).filter(keep).push(x));
                    assert(nodes@ =~= all.take(j + 1).filter(keep) + all.skip(j + 1));
                }
                i = i + 1;
            }
            proof {
                j = j + 1;
            }
        }
        proof {
            assert(all.take(j).filter(keep).len() + all.skip(j).len() == i + all.skip(j).len());
            assert(j == all.len()) by {
                if j < all.len() {
                    assert(all.skip(j).len() > 0);
                }
            }
            assert(all.take(j) =~= all);
            assert(all.skip(j) =~= Seq::<ClusterNode>::empty());
            assert(nodes@ =~= all.filter(keep));
        }
        let ring_node = RingNodeInfo { host: node.host, port: #[verifier::truncate] (node.port as u16) };
        proof {
            assert(ring_node == ring_node_of(node));
        }
        ring.remove_labeled(&ring_node.label());
    }
}


/// A list without any listing of `n` is left as it is by a leave of `n`.
proof fn lemma_filter_unlisted(nodes: Seq<ClusterNode>, n: ClusterNode)
    requires
        forall|i: int| 0 <= i < nodes.len() ==> !same_member(#[trigger] nodes[i], n),
    ensures
        nodes.filter(|m: ClusterNode| !same_member(m, n)) == nodes,
    decreases nodes.len(),
{
    reveal(Seq::filter);
    if nodes.len() > 0 {
        let rest = nodes.drop_last();
        assert forall|i: int| 0 <= i < rest.len() implies !same_member(#[trigger] rest[i], n) by {
            assert(rest[i] == nodes[i]);
        }
        lemma_filter_unlisted(rest, n);
        assert(!same_member(nodes.last(), n));
        assert(rest.push(nodes.last()) =~= nodes);
    } else {
        assert(nodes.filter(|m: ClusterNode| !same_member(m, n)) =~= nodes);
    }
}

/// A node that joins and then leaves is no longer listed, and every other
/// listing keeps its place; when it was not listed before it joined, the
/// list is back as it was.
pub proof fn law_join_then_leave(nodes: Seq<ClusterNode>, n: ClusterNode)
    ensures
        nodes.push(n).filter(|m: ClusterNode| !same_member(m, n)) == nodes.filter(|m: ClusterNode| !same_member(m, n)),
        (forall|i: int| 0 <= i < nodes.len() ==> !same_member(#[trigger] nodes[i], n)) ==> nodes.push(n).filter(
            |m: ClusterNode| !same_member(m, n),
        ) == nodes,
{
    reveal(Seq::filter);
    assert(nodes.push(n).drop_last() =~= nodes);
    assert(same_member(n, n));
    if forall|i: int| 0 <= i < nodes.len() ==> !same_member(#[trigger] nodes[i], n) {
        lemma_filter_unlisted(nodes, n);
    }
}

/// A member that joins moves keys only onto itself: afterwards a key lands
/// either on one of the member's points, whose node is a clone of the
/// member's ring node, or on the point where it landed before, with the node
/// it had before.
pub proof fn law_join_moves_keys_only_to_joiner(
    before: RingView<RingNodeInfo>,
    after: RingView<RingNodeInfo>,
    n: ClusterNode,
    key: Seq<char>,
)
    requires
        sorted(before.points),
        ring_resolves(before),
        before.points.len() > 0,
        inserted(before, after, ring_node_of(n), member_points(n, before.replicas)),
    ensures
        ({
            let a = key_point(before, key);
            let b = key_point(after, key);
            ||| member_points(n, before.replicas).contains(b) && cloned(ring_node_of(n), after.nodes[b])
            ||| b == a && after.nodes[b] == before.nodes[a]
        }),
{
    law_insert_moves_only_to_new(before, after, ring_node_of(n), member_points(n, before.replicas), xxhash64_text(key));
}

/// A member that leaves moves only the keys that landed on its points: a key
/// that landed on another point lands on it again, with the same node.
pub proof fn law_leave_moves_only_leavers_keys(
    before: RingView<RingNodeInfo>,
    after: RingView<RingNodeInfo>,
    n: ClusterNode,
    key: Seq<char>,
)
    requires
        sorted(before.points),
        ring_resolves(before),
        before.points.len() > 0,
        removed(before, after, member_points(n, before.replicas)),
        !member_points(n, before.replicas).contains(key_point(before, key)),
    ensures
        key_point(after, key) == key_point(before, key),
        after.nodes.contains_key(key_point(after, key)),
        after.nodes[key_point(after, key)] == before.nodes[key_point(before, key)],
{
    let pts = member_points(n, before.replicas);
    let c = removal_run(before.nodes.dom(), pts) as int;
    crate::hash_ring::lemma_removal_run_bound(before.nodes.dom(), pts);
    let a = key_point(before, key);
    if pts.take(c).contains(a) {
        let j = choose|j: int| 0 <= j < pts.take(c).len() && pts.take(c)[j] == a;
        assert(pts[j] == a);
    }
    law_remove_moves_only_removed(before, after, pts, xxhash64_text(key));
}

/// A member that joins and then leaves leaves the ring as it was, when its
/// points were new and distinct.
pub proof fn law_join_then_leave_restores_ring(
    before: RingView<RingNodeInfo>,
    mid: RingView<RingNodeInfo>,
    after: RingView<RingNodeInfo>,
    n: ClusterNode,
)
    requires
        ring_wf(before),
        member_points(n, before.replicas).no_duplicates(),
        forall|i: int| 0 <= i < member_points(n, before.replicas).len() ==> !before.nodes.contains_key(
            #[trigger] member_points(n, before.replicas)[i],
        ),
        inserted(before, mid, ring_node_of(n), member_points(n, before.replicas)),
        removed(mid, after, member_points(n, mid.replicas)),
    ensures
        after.points == before.points,
        after.nodes == before.nodes,
{
    law_insert_then_remove_restores(before, mid, after, ring_node_of(n), member_points(n, before.replicas));
}

/// A member that leaves and joins again restores the ring's points and the
/// points of its map, so every key lands where it landed before, when all its
/// points were on the ring and distinct.
pub proof fn law_leave_then_join_restores_ring(
    before: RingView<RingNodeInfo>,
    mid: RingView<RingNodeInfo>,
    after: RingView<RingNodeInfo>,
    n: ClusterNode,
)
    requires
        ring_wf(before),
        member_points(n, before.replicas).no_duplicates(),
        forall|i: int| 0 <= i < member_points(n, before.replicas).len() ==> before.nodes.contains_key(
            #[trigger] member_points(n, before.replicas)[i],
        ),
        removed(before, mid, member_points(n, before.replicas)),
        inserted(mid, after, ring_node_of(n), member_points(n, mid.replicas)),
    ensures
        after.points == before.points,
        after.nodes.dom() == before.nodes.dom(),
        forall|key: Seq<char>| #[trigger] key_point(after, key) == key_point(before, key),
{
    law_reinsert_restores(before, mid, after, ring_node_of(n), member_points(n, before.replicas));
}

} // verus!
