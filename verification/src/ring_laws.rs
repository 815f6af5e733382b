//! What holds of the hash ring across its operations, stated over its model.
use vstd::prelude::*;
use crate::hash_ring::{
    RingView, inserted, lemma_successor_at, lemma_successor_wraps, removal_run, removed,
    replica_points, ring_resolves, ring_successor, ring_wf, sorted,
};
use vstd::pervasive::cloned;

verus! {

/// Two ordered lists with the same points, counted with repetition, are the same list.
pub proof fn lemma_sorted_unique(a: Seq<u64>, b: Seq<u64>)
    requires
        sorted(a),
        sorted(b),
        a.to_multiset() == b.to_multiset(),
    ensures
        a == b,
    decreases a.len(),
{
    broadcast use vstd::seq_lib::group_to_multiset_ensures;
    broadcast use vstd::multiset::group_multiset_axioms;
    vstd::seq_lib::to_multiset_len(a);
    vstd::seq_lib::to_multiset_len(b);
    if a.len() == 0 {
        assert(a =~= b);
    } else {
        let n = a.len() as int;
        let x = a[n - 1];
        let y = b[n - 1];
        vstd::seq_lib::to_multiset_contains(a, x);
        vstd::seq_lib::to_multiset_contains(b, y);
        assert(b.to_multiset().count(x) > 0);
        assert(a.to_multiset().count(y) > 0);
        assert(b.contains(x)) by {
            vstd::seq_lib::to_multiset_contains(b, x);
        }
        assert(a.contains(y)) by {
            vstd::seq_lib::to_multiset_contains(a, y);
        }
        let i = choose|i: int| 0 <= i < b.len() && b[i] == x;
        let j = choose|j: int| 0 <= j < a.len() && a[j] == y;
        assert(x <= y);
        assert(y <= x);
        vstd::seq_lib::to_multiset_remove(a, n - 1);
        vstd::seq_lib::to_multiset_remove(b, n - 1);
        assert(a.remove(n - 1) =~= a.drop_last());
        assert(b.remove(n - 1) =~= b.drop_last());
        lemma_sorted_unique(a.drop_last(), b.drop_last());
        assert(a =~= a.drop_last().push(x));
        assert(b =~= b.drop_last().push(y));
    }
}

/// A removal of distinct points that are all on the ring takes out all of them.
pub proof fn lemma_removal_run_full(dom: Set<u64>, ks: Seq<u64>)
    requires
        ks.no_duplicates(),
        forall|i: int| 0 <= i < ks.len() ==> dom.contains(#[trigger] ks[i]),
    ensures
        removal_run(dom, ks) == ks.len(),
    decreases ks.len(),
{
    if ks.len() > 0 {
        let rest = ks.drop_first();
        assert forall|i: int| 0 <= i < rest.len() implies dom.remove(ks[0]).contains(#[trigger] rest[i]) by {
            assert(rest[i] == ks[i + 1]);
            assert(ks[i + 1] != ks[0]);
        }
        assert(rest.no_duplicates()) by {
            assert forall|i: int, j: int| 0 <= i < rest.len() && 0 <= j < rest.len() && i != j implies rest[i] != rest[j] by {
                assert(rest[i] == ks[i + 1]);
                assert(rest[j] == ks[j + 1]);
            }
        }
        lemma_removal_run_full(dom.remove(ks[0]), rest);
    }
}

/// Taking a node's points out and putting the same points back for it
/// restores the ring: the same points in the same order, the same points in
/// the map, so every key lands on the same point as before. (This needs the
/// points to be distinct and all on the ring beforehand, which holds for a
/// node added once, unless two of its hashes collide with other points.)
pub proof fn law_reinsert_restores<T: Clone>(before: RingView<T>, mid: RingView<T>, after: RingView<T>, node: T, keys: Seq<u64>)
    requires
        ring_wf(before),
        keys.no_duplicates(),
        forall|i: int| 0 <= i < keys.len() ==> before.nodes.contains_key(#[trigger] keys[i]),
        removed(before, mid, keys),
        inserted(mid, after, node, keys),
    ensures
        after.points == before.points,
        after.nodes.dom() == before.nodes.dom(),
        forall|h: u64| ring_successor(after.points, h) == ring_successor(before.points, h),
{
    broadcast use vstd::multiset::group_multiset_axioms;
    assert forall|i: int| 0 <= i < keys.len() implies before.nodes.dom().contains(#[trigger] keys[i]) by {
        assert(before.nodes.contains_key(keys[i]));
    }
    lemma_removal_run_full(before.nodes.dom(), keys);
    assert(keys.take(keys.len() as int) =~= keys);
    assert(after.points.to_multiset() =~= before.points.to_multiset());
    lemma_sorted_unique(after.points, before.points);
    assert forall|k: u64| after.nodes.dom().contains(k) <==> before.nodes.dom().contains(k) by {
        if keys.contains(k) {
            let i = choose|i: int| 0 <= i < keys.len() && keys[i] == k;
            assert(before.nodes.contains_key(keys[i]));
        }
        if after.nodes.contains_key(k) {
        }
        if before.nodes.contains_key(k) && !keys.contains(k) {
            assert(mid.nodes.contains_key(k));
        }
    }
    assert(after.nodes.dom() =~= before.nodes.dom());
}

/// Removing a node whose first point is not on the ring changes nothing.
pub proof fn law_absent_node_untouched<T>(before: RingView<T>, after: RingView<T>, keys: Seq<u64>)
    requires
        ring_wf(before),
        keys.len() > 0,
        !before.nodes.contains_key(keys[0]),
        removed(before, after, keys),
    ensures
        after.nodes == before.nodes,
        after.points == before.points,
{
    broadcast use vstd::multiset::group_multiset_axioms;
    broadcast use vstd::seq_lib::group_to_multiset_ensures;
    assert(removal_run(before.nodes.dom(), keys) == 0);
    assert(keys.take(0) =~= Seq::<u64>::empty());
    assert(after.points.to_multiset() =~= before.points.to_multiset());
    lemma_sorted_unique(after.points, before.points);
    assert(after.nodes =~= before.nodes);
}

/// Adding a node puts exactly `keys.len()` more points in the list; a removal
/// takes out exactly the points of its run.
pub proof fn law_point_counts<T: Clone>(before: RingView<T>, after: RingView<T>, node: T, keys: Seq<u64>)
    ensures
        inserted(before, after, node, keys) ==> after.points.len() == before.points.len() + keys.len(),
        removed(before, after, keys) ==> after.points.len() + removal_run(before.nodes.dom(), keys) == before.points.len(),
{
    broadcast use vstd::multiset::group_multiset_axioms;
    vstd::seq_lib::to_multiset_len(before.points);
    vstd::seq_lib::to_multiset_len(after.points);
    vstd::seq_lib::to_multiset_len(keys);
    let c = removal_run(before.nodes.dom(), keys) as int;
    crate::hash_ring::lemma_removal_run_bound(before.nodes.dom(), keys);
    vstd::seq_lib::to_multiset_len(keys.take(c));
}

/// A key always lands on a point of the ring that has a node: the smallest
/// point at or after its hash, or the smallest point when the hash is past
/// them all.
pub proof fn law_lookup_lands_on_point<T>(v: RingView<T>, h: u64)
    requires
        ring_wf(v),
        ring_resolves(v),
        v.points.len() > 0,
    ensures
        v.points.contains(ring_successor(v.points, h)),
        v.nodes.contains_key(ring_successor(v.points, h)),
        h <= ring_successor(v.points, h) || (ring_successor(v.points, h) == v.points[0] && forall|i: int|
            0 <= i < v.points.len() ==> #[trigger] v.points[i] < h),
{
    lemma_scan(v.points, h, 0);
    let x = ring_successor(v.points, h);
    let i = choose|i: int| 0 <= i < v.points.len() && v.points[i] == x;
    assert(v.nodes.contains_key(v.points[i]));
}

proof fn lemma_scan(s: Seq<u64>, h: u64, i: int)
    requires
        sorted(s),
        s.len() > 0,
        0 <= i <= s.len(),
        forall|j: int| 0 <= j < i ==> s[j] < h,
    ensures
        s.contains(ring_successor(s, h)),
        h <= ring_successor(s, h) || (ring_successor(s, h) == s[0] && forall|j: int| 0 <= j < s.len() ==> #[trigger] s[j] < h),
    decreases s.len() - i,
{
    if i == s.len() {
        lemma_successor_wraps(s, h);
        assert(s.contains(s[0]));
    } else if h <= s[i] {
        lemma_successor_at(s, h, i);
        assert(s.contains(s[i]));
    } else {
        lemma_scan(s, h, i + 1);
    }
}

/// Putting a node's points on the ring and then taking them out again
/// leaves the ring as it was, when the points were new and distinct.
pub proof fn law_insert_then_remove_restores<T: Clone>(before: RingView<T>, mid: RingView<T>, after: RingView<T>, node: T, keys: Seq<u64>)
    requires
        ring_wf(before),
        keys.no_duplicates(),
        forall|i: int| 0 <= i < keys.len() ==> !before.nodes.contains_key(#[trigger] keys[i]),
        inserted(before, mid, node, keys),
        removed(mid, after, keys),
    ensures
        after.points == before.points,
        after.nodes == before.nodes,
{
    broadcast use vstd::multiset::group_multiset_axioms;
    assert forall|i: int| 0 <= i < keys.len() implies mid.nodes.dom().contains(#[trigger] keys[i]) by {
        assert(keys.contains(keys[i]));
        assert(mid.nodes.contains_key(keys[i]));
    }
    lemma_removal_run_full(mid.nodes.dom(), keys);
    assert(keys.take(keys.len() as int) =~= keys);
    let ka = keys.to_multiset();
    assert forall|x: u64| after.points.to_multiset().count(x) == before.points.to_multiset().count(x) by {
        assert(after.points.to_multiset().add(ka).count(x) == mid.points.to_multiset().count(x));
        assert(before.points.to_multiset().add(ka).count(x) == mid.points.to_multiset().count(x));
    }
    assert(after.points.to_multiset() =~= before.points.to_multiset());
    lemma_sorted_unique(after.points, before.points);
    assert forall|k: u64| #[trigger] after.nodes.contains_key(k) <==> before.nodes.contains_key(k) by {
        if before.nodes.contains_key(k) && keys.contains(k) {
            let i = choose|i: int| 0 <= i < keys.len() && keys[i] == k;
            assert(!before.nodes.contains_key(keys[i]));
        }
    }
    assert forall|k: u64| #[trigger] after.nodes.contains_key(k) implies after.nodes[k] == before.nodes[k] by {
        assert(!keys.contains(k));
        assert(mid.nodes[k] == before.nodes[k]);
    }
    assert(after.nodes =~= before.nodes);
}

/// The first point at or after `h` from position `i` on, or the length of
/// the list when there is none.
proof fn lemma_first_point(s: Seq<u64>, h: u64, i: int) -> (r: int)
    requires
        sorted(s),
        0 <= i <= s.len(),
        forall|j: int| 0 <= j < i ==> s[j] < h,
    ensures
        0 <= r <= s.len(),
        forall|j: int| 0 <= j < r ==> s[j] < h,
        r < s.len() ==> h <= s[r],
    decreases s.len() - i,
{
    if i == s.len() || h <= s[i] {
        i
    } else {
        lemma_first_point(s, h, i + 1)
    }
}

/// Where `h` lands, told by the points alone: the smallest point at or after
/// `h` when there is one, else the smallest point.
proof fn lemma_successor_props(s: Seq<u64>, h: u64)
    requires
        sorted(s),
        s.len() > 0,
    ensures
        s.contains(ring_successor(s, h)),
        (exists|y: u64| s.contains(y) && h <= y) ==> h <= ring_successor(s, h) && forall|y: u64|
            s.contains(y) && h <= y ==> ring_successor(s, h) <= y,
        !(exists|y: u64| s.contains(y) && h <= y) ==> forall|y: u64| s.contains(y) ==> ring_successor(s, h) <= y,
{
    let r = lemma_first_point(s, h, 0);
    if r < s.len() {
        lemma_successor_at(s, h, r);
        assert(s.contains(s[r]));
        assert forall|y: u64| s.contains(y) && h <= y implies s[r] <= y by {
            let j = choose|j: int| 0 <= j < s.len() && s[j] == y;
            if j < r {
                assert(s[j] < h);
            }
        }
    } else {
        lemma_successor_wraps(s, h);
        assert(s.contains(s[0]));
        assert forall|y: u64| s.contains(y) implies s[0] <= y by {
            let j = choose|j: int| 0 <= j < s.len() && s[j] == y;
        }
        assert forall|y: u64| s.contains(y) implies y < h by {
            let j = choose|j: int| 0 <= j < s.len() && s[j] == y;
        }
    }
}

/// When the point where `h` lands on a ring is also a point of a smaller
/// ring inside it, `h` lands on that same point of the smaller ring.
pub proof fn lemma_successor_within(small: Seq<u64>, big: Seq<u64>, h: u64)
    requires
        sorted(small),
        sorted(big),
        small.len() > 0,
        forall|x: u64| small.contains(x) ==> big.contains(x),
        small.contains(ring_successor(big, h)),
    ensures
        ring_successor(small, h) == ring_successor(big, h),
{
    lemma_successor_props(small, h);
    lemma_successor_props(big, h);
    let a = ring_successor(small, h);
    let b = ring_successor(big, h);
    assert(big.contains(a));
    if exists|y: u64| big.contains(y) && h <= y {
        assert(h <= b);
        assert(exists|y: u64| small.contains(y) && h <= y) by {
            assert(small.contains(b) && h <= b);
        }
        assert(a <= b);
        assert(b <= a);
    } else {
        assert(!exists|y: u64| small.contains(y) && h <= y) by {
            if exists|y: u64| small.contains(y) && h <= y {
                let y = choose|y: u64| small.contains(y) && h <= y;
                assert(big.contains(y));
            }
        }
        assert(a <= b);
        assert(b <= a);
    }
}

/// Adding a node moves keys only onto the new node: a hash lands either on
/// one of the new points, whose node is a clone of the new node, or on the
/// point where it landed before, with the node it had before.
pub proof fn law_insert_moves_only_to_new<T: Clone>(before: RingView<T>, after: RingView<T>, node: T, keys: Seq<u64>, h: u64)
    requires
        sorted(before.points),
        ring_resolves(before),
        before.points.len() > 0,
        inserted(before, after, node, keys),
    ensures
        ({
            let a = ring_successor(before.points, h);
            let b = ring_successor(after.points, h);
            ||| keys.contains(b) && cloned(node, after.nodes[b])
            ||| b == a && !keys.contains(b) && after.nodes[b] == before.nodes[a]
        }),
{
    broadcast use vstd::multiset::group_multiset_axioms;
    broadcast use vstd::seq_lib::to_multiset_contains;
    let pb = before.points;
    let pa = after.points;
    assert forall|x: u64| pb.contains(x) implies pa.contains(x) by {
        assert(pb.to_multiset().count(x) > 0);
        assert(pa.to_multiset().count(x) > 0);
    }
    vstd::seq_lib::to_multiset_len(pb);
    vstd::seq_lib::to_multiset_len(pa);
    vstd::seq_lib::to_multiset_len(keys);
    assert(pa.len() > 0);
    lemma_successor_props(pa, h);
    let b = ring_successor(pa, h);
    if !keys.contains(b) {
        assert(pa.to_multiset().count(b) > 0);
        assert(keys.to_multiset().count(b) == 0);
        assert(pb.contains(b));
        lemma_successor_within(pb, pa, h);
        let i = choose|i: int| 0 <= i < pb.len() && pb[i] == b;
        assert(before.nodes.contains_key(pb[i]));
        assert(after.nodes[b] == before.nodes[b]);
    }
}

/// Removing a node moves only the keys that landed on its points: a hash
/// that landed on a point that stays lands on it again, with the same node.
pub proof fn law_remove_moves_only_removed<T>(before: RingView<T>, after: RingView<T>, keys: Seq<u64>, h: u64)
    requires
        sorted(before.points),
        ring_resolves(before),
        before.points.len() > 0,
        removed(before, after, keys),
        !keys.take(removal_run(before.nodes.dom(), keys) as int).contains(ring_successor(before.points, h)),
    ensures
        ring_successor(after.points, h) == ring_successor(before.points, h),
        after.nodes.contains_key(ring_successor(after.points, h)),
        after.nodes[ring_successor(after.points, h)] == before.nodes[ring_successor(before.points, h)],
{
    broadcast use vstd::multiset::group_multiset_axioms;
    broadcast use vstd::seq_lib::to_multiset_contains;
    let pb = before.points;
    let pa = after.points;
    let taken = keys.take(removal_run(before.nodes.dom(), keys) as int);
    lemma_successor_props(pb, h);
    let a = ring_successor(pb, h);
    assert forall|x: u64| pa.contains(x) implies pb.contains(x) by {
        assert(pa.to_multiset().count(x) > 0);
        assert(pb.to_multiset().count(x) > 0);
    }
    assert(pb.to_multiset().count(a) > 0);
    assert(taken.to_multiset().count(a) == 0);
    assert(pa.contains(a));
    assert(pa.len() > 0);
    lemma_successor_within(pa, pb, h);
    let i = choose|i: int| 0 <= i < pb.len() && pb[i] == a;
    assert(before.nodes.contains_key(pb[i]));
    assert(after.nodes.contains_key(a));
}

/// Where a node's points go depends only on its label: two rings with the
/// same points, whatever their nodes' types, get the same points when nodes
/// with the same label are added to both, and keep the same points when nodes
/// with the same label are taken out of both (given the same points in their
/// maps), so every key lands on the same point in both.
pub proof fn law_placement_by_label<T: Clone, U: Clone>(
    b1: RingView<T>,
    a1: RingView<T>,
    b2: RingView<U>,
    a2: RingView<U>,
    n1: T,
    n2: U,
    label: Seq<char>,
)
    requires
        b1.points == b2.points,
        b1.replicas == b2.replicas,
    ensures
        inserted(b1, a1, n1, replica_points(label, b1.replicas)) && inserted(b2, a2, n2, replica_points(label, b2.replicas))
            ==> a1.points == a2.points && forall|h: u64| ring_successor(a1.points, h) == ring_successor(a2.points, h),
        b1.nodes.dom() == b2.nodes.dom() && removed(b1, a1, replica_points(label, b1.replicas)) && removed(b2, a2, replica_points(label, b2.replicas))
            ==> a1.points == a2.points && forall|h: u64| ring_successor(a1.points, h) == ring_successor(a2.points, h),
{
    broadcast use vstd::multiset::group_multiset_axioms;
    let keys = replica_points(label, b1.replicas);
    if inserted(b1, a1, n1, keys) && inserted(b2, a2, n2, keys) {
        lemma_sorted_unique(a1.points, a2.points);
    }
    if b1.nodes.dom() == b2.nodes.dom() && removed(b1, a1, keys) && removed(b2, a2, keys) {
        let taken = keys.take(removal_run(b1.nodes.dom(), keys) as int).to_multiset();
        assert forall|x: u64| a1.points.to_multiset().count(x) == a2.points.to_multiset().count(x) by {
            assert(a1.points.to_multiset().add(taken).count(x) == b1.points.to_multiset().count(x));
            assert(a2.points.to_multiset().add(taken).count(x) == b2.points.to_multiset().count(x));
        }
        assert(a1.points.to_multiset() =~= a2.points.to_multiset());
        lemma_sorted_unique(a1.points, a2.points);
    }
}

} // verus!
