//! Consistent hashing: each node stands on the ring at several hashed
//! points (its replicas), and a key belongs to the node at the first point at
//! or after the key's hash, going round to the first point when there is none.
use vstd::prelude::*;
use std::collections::HashMap;
use std::hash::BuildHasher;
use std::hash::BuildHasherDefault;
use std::hash::Hasher;
use twox_hash::XxHash64;
use crate::text::{decimal, push_decimal};

verus! {

// ---------------------------------------------------------------------------
// Outside items
// ---------------------------------------------------------------------------

#[verifier::external_type_specification]
#[verifier::external_body]
#[verifier::reject_recursive_types(H)]
pub struct ExBuildHasherDefault<H>(BuildHasherDefault<H>);

#[verifier::external_type_specification]
#[verifier::external_body]
pub struct ExXxHash64(XxHash64);

/// Builds xxHash64 hashers with seed 0.
pub type XxHash64Hasher = BuildHasherDefault<XxHash64>;

/// `BuildHasherDefault::<XxHash64>::default`. Nothing is promised of the value.
#[verifier::external_body]
fn xxhash64_builder() -> XxHash64Hasher {
    BuildHasherDefault::default()
}

/// `ToString::to_string` of a node: its label on the ring. The node's type
/// decides the text, so nothing is promised of it.
#[verifier::external_body]
fn label_of<T: ToString>(node: &T) -> String {
    node.to_string()
}

/// What xxHash64 with seed 0 gives for the UTF-8 bytes of a text: the hash
/// that a ring with the default builder (`BuildHasherDefault<XxHash64>`,
/// whose hashers start as `XxHash64::with_seed(0)`) gives a key.
pub uninterp spec fn xxhash64_text(text: Seq<char>) -> u64;

/// xxHash64 with seed 0 of the bytes of `text`: `XxHash64::with_seed(0)`,
/// one `write` of the bytes, then `finish`. The result is a function of the
/// text alone.
#[verifier::external_body]
fn xxhash64_of(text: &String) -> (h: u64)
    ensures
        h == xxhash64_text(text@),
{
    let mut hasher = XxHash64::with_seed(0);
    hasher.write(text.as_bytes());
    hasher.finish()
}

// ---------------------------------------------------------------------------
// Nodes
// ---------------------------------------------------------------------------

/// A cache node, by its address.
#[derive(Clone, Debug, PartialEq, Eq, Hash)]
pub struct RingNodeInfo {
    pub host: String,
    pub port: u16,
}

/// The label of a node: `host:port`.
pub open spec fn node_label(n: RingNodeInfo) -> Seq<char> {
    n.host@ + seq![':'] + decimal(n.port as nat)
}

impl RingNodeInfo {
    /// The node's label, `host:port`.
    pub fn label(&self) -> (s: String)
        ensures
            s@ == node_label(*self),
    {
        let mut s = self.host.clone();
        proof {
            reveal_strlit(":");
        }
        s.append(":");
        push_decimal(&mut s, self.port as u64);
        s
    }
}

impl ToString for RingNodeInfo {
    fn to_string(&self) -> (s: String)
        ensures
            s@ == node_label(*self),
    {
        self.label()
    }
}

// ---------------------------------------------------------------------------
// The model
// ---------------------------------------------------------------------------

pub open spec fn sorted(s: Seq<u64>) -> bool {
    forall|i: int, j: int| 0 <= i <= j < s.len() ==> s[i] <= s[j]
}

pub open spec fn strictly_sorted(s: Seq<u64>) -> bool {
    forall|i: int, j: int| 0 <= i < j < s.len() ==> s[i] < s[j]
}

/// How many points a node gets for a replica setting (none when it is not positive).
pub open spec fn replica_count(replicas: int) -> nat {
    if replicas > 0 {
        replicas as nat
    } else {
        0
    }
}

/// The point that a hash `h` lands on: the smallest point at or after `h`,
/// or, when there is none, the smallest point of all.
pub open spec fn ring_successor(s: Seq<u64>, h: u64) -> u64 {
    if exists|i: int| 0 <= i < s.len() && h <= #[trigger] s[i] {
        choose|x: u64| s.contains(x) && h <= x && forall|y: u64| s.contains(y) && h <= y ==> x <= y
    } else {
        choose|x: u64| s.contains(x) && forall|y: u64| s.contains(y) ==> x <= y
    }
}

/// How many of the points `ks` a removal takes out of a ring whose points
/// are `dom`: it goes through `ks` in order and stops at the first point
/// that is not (or no longer) on the ring.
pub open spec fn removal_run(dom: Set<u64>, ks: Seq<u64>) -> nat
    decreases ks.len(),
{
    if ks.len() == 0 || !dom.contains(ks[0]) {
        0
    } else {
        1 + removal_run(dom.remove(ks[0]), ks.drop_first())
    }
}

/// The name of the `i`-th replica of the node labelled `label`: the label,
/// `:`, and `i` in decimal.
pub open spec fn replica_text(label: Seq<char>, i: nat) -> Seq<char> {
    label + seq![':'] + decimal(i)
}

/// The points of the node labelled `label` on a ring hashed by xxHash64:
/// the hashes of its replica names, in replica order.
pub open spec fn replica_points(label: Seq<char>, replicas: int) -> Seq<u64> {
    Seq::new(replica_count(replicas), |i: int| xxhash64_text(replica_text(label, i as nat)))
}

/// The name of the `i`-th replica of the node labelled `label`.
pub fn replica_name(label: &String, i: u64) -> (name: String)
    ensures
        name@ == replica_text(label@, i as nat),
{
    let mut name = label.clone();
    proof {
        reveal_strlit(":");
    }
    name.append(":");
    push_decimal(&mut name, i);
    name
}

// ---------------------------------------------------------------------------
// The ring
// ---------------------------------------------------------------------------

/// A ring of nodes of type `T`, placed by the hashers that `S` builds:
/// `ring` maps each point to its node, `sorted_keys` lists the points in
/// order, and each node gets `replicas` points.
pub struct HashRing<T, S = XxHash64Hasher> {
    pub replicas: isize,
    pub ring: HashMap<u64, T>,
    pub sorted_keys: Vec<u64>,
    pub hash_builder: S,
}

/// The ring as the contracts see it: the node of each point, and the points
/// in the order the ring keeps them.
pub struct RingView<T> {
    pub nodes: Map<u64, T>,
    pub points: Seq<u64>,
    pub replicas: int,
}

impl<T, S> View for HashRing<T, S> {
    type V = RingView<T>;

    open spec fn view(&self) -> RingView<T> {
        RingView { nodes: self.ring@, points: self.sorted_keys@, replicas: self.replicas as int }
    }
}

/// The points are in order and every point of the map is among them.
pub open spec fn ring_wf<T>(v: RingView<T>) -> bool {
    &&& sorted(v.points)
    &&& keys_listed(v)
}

/// Every point of the map is in the list.
pub open spec fn keys_listed<T>(v: RingView<T>) -> bool {
    forall|k: u64| #[trigger] v.nodes.contains_key(k) ==> v.points.contains(k)
}

/// Every point in the list has a node in the map.
pub open spec fn ring_resolves<T>(v: RingView<T>) -> bool {
    forall|i: int| 0 <= i < v.points.len() ==> v.nodes.contains_key(#[trigger] v.points[i])
}

/// `after` is `before` with the points `keys` added for `node`: each of them
/// maps to a clone of `node`, the other points keep their nodes, and the list
/// holds the old points and the new ones, in order.
pub open spec fn inserted<T: Clone>(before: RingView<T>, after: RingView<T>, node: T, keys: Seq<u64>) -> bool {
    &&& forall|k: u64| #[trigger] after.nodes.contains_key(k) <==> (before.nodes.contains_key(k) || keys.contains(k))
    &&& forall|k: u64| #[trigger] keys.contains(k) ==> cloned(node, after.nodes[k])
    &&& forall|k: u64| before.nodes.contains_key(k) && !keys.contains(k) ==> after.nodes[k] == #[trigger] before.nodes[k]
    &&& sorted(after.points)
    &&& after.points.to_multiset() == before.points.to_multiset().add(keys.to_multiset())
    &&& after.replicas == before.replicas
}

/// `after` is `before` with the points `keys` taken out, in order, up to the
/// first one that is not on the ring (see `removal_run`).
pub open spec fn removed<T>(before: RingView<T>, after: RingView<T>, keys: Seq<u64>) -> bool {
    let c = removal_run(before.nodes.dom(), keys) as int;
    &&& forall|k: u64| #[trigger] after.nodes.contains_key(k) <==> (before.nodes.contains_key(k) && !keys.take(c).contains(k))
    &&& forall|k: u64| #[trigger] after.nodes.contains_key(k) ==> after.nodes[k] == before.nodes[k]
    &&& sorted(after.points)
    &&& after.points.to_multiset().add(keys.take(c).to_multiset()) == before.points.to_multiset()
    &&& after.replicas == before.replicas
}

/// Puts `key` into the ordered list `v`, after the points that are not larger.
fn insert_sorted(v: &mut Vec<u64>, key: u64)
    requires
        sorted(old(v)@),
    ensures
        sorted(final(v)@),
        final(v)@.to_multiset() == old(v)@.to_multiset().insert(key),
        forall|x: u64| #[trigger] final(v)@.contains(x) <==> (old(v)@.contains(x) || x == key),
        final(v)@.len() == old(v)@.len() + 1,
{
    let mut p: usize = 0;
    while p < v.len() && v[p] <= key
        invariant
            p <= v.len(),
            forall|j: int| 0 <= j < p ==> v@[j] <= key,
        decreases v.len() - p,
    {
        p = p + 1;
    }
    let ghost old_v = v@;
    v.insert(p, key);
    proof {
        broadcast use vstd::seq_lib::group_to_multiset_ensures;
        let w = v@;
        assert forall|j: int| 0 <= j < w.len() implies #[trigger] w[j] == (if j < p { old_v[j] } else if j == p { key } else { old_v[j - 1] }) by {
        }
        assert forall|i: int, j: int| 0 <= i <= j < w.len() implies w[i] <= w[j] by {
            if p < old_v.len() {
                assert(old_v[p as int] > key);
            }
            if i < p && j > p {
                assert(old_v[i] <= key);
            }
            if i == p && j > p {
                assert(old_v[p as int] <= old_v[j - 1]);
            }
            if i < p && j == p {
                assert(old_v[i] <= key);
            }
        }
        assert forall|x: u64| #[trigger] w.contains(x) <==> (old_v.contains(x) || x == key) by {
            if w.contains(x) {
                let j = choose|j: int| 0 <= j < w.len() && w[j] == x;
                if j < p {
                    assert(old_v[j] == x);
                } else if j > p {
                    assert(old_v[j - 1] == x);
                }
            }
            if old_v.contains(x) {
                let j = choose|j: int| 0 <= j < old_v.len() && old_v[j] == x;
                if j < p {
                    assert(w[j] == x);
                } else {
                    assert(w[j + 1] == x);
                }
            }
            if x == key {
                assert(w[p as int] == x);
            }
        }
    }
}

/// `steps` builds a ring from an empty one with `replicas` points a node by
/// adding `nodes` in order: step `n` adds `replica_count(replicas)` points
/// for `nodes[n]`, each mapped to a clone of it (see `inserted`).
pub open spec fn built_from<T: Clone>(steps: Seq<RingView<T>>, nodes: Seq<T>, replicas: int) -> bool {
    &&& steps.len() == nodes.len() + 1
    &&& steps[0].points.len() == 0
    &&& steps[0].nodes.dom() == Set::<u64>::empty()
    &&& steps[0].replicas == replicas
    &&& forall|n: int| 0 <= n < nodes.len() ==> #[trigger] adds_node_at(steps, nodes, replicas, n)
}

/// Step `n` of `steps` adds `replica_count(replicas)` points for `nodes[n]`.
pub open spec fn adds_node_at<T: Clone>(steps: Seq<RingView<T>>, nodes: Seq<T>, replicas: int, n: int) -> bool {
    exists|keys: Seq<u64>| keys.len() == replica_count(replicas) && #[trigger] inserted(steps[n], steps[n + 1], nodes[n], keys)
}

/// One more node added to a built ring extends the steps that built it.
proof fn lemma_built_step<T: Clone>(steps: Seq<RingView<T>>, nodes: Seq<T>, replicas: int, after: RingView<T>, node: T, keys: Seq<u64>)
    requires
        built_from(steps, nodes, replicas),
        keys.len() == replica_count(replicas),
        inserted(steps.last(), after, node, keys),
    ensures
        built_from(steps.push(after), nodes.push(node), replicas),
{
    let s2 = steps.push(after);
    let n2 = nodes.push(node);
    let k = nodes.len() as int;
    assert(s2[0] == steps[0]);
    assert forall|m: int| 0 <= m < n2.len() implies #[trigger] adds_node_at(s2, n2, replicas, m) by {
        if m < k {
            assert(s2[m] == steps[m]);
            assert(s2[m + 1] == steps[m + 1]);
            assert(n2[m] == nodes[m]);
            assert(adds_node_at(steps, nodes, replicas, m));
            let ks = choose|ks: Seq<u64>| ks.len() == replica_count(replicas) && #[trigger] inserted(steps[m], steps[m + 1], nodes[m], ks);
            assert(inserted(s2[m], s2[m + 1], n2[m], ks));
        } else {
            assert(s2[m] == steps.last());
            assert(s2[m + 1] == after);
            assert(n2[m] == node);
            assert(inserted(s2[m], s2[m + 1], n2[m], keys));
        }
    }
    assert(s2[0].replicas == replicas);
    assert(built_from(s2, n2, replicas));
}

/// Puts the points of `v` in order, each as many times as it occurs.
fn sort_points(v: &mut Vec<u64>)
    ensures
        sorted(final(v)@),
        final(v)@.to_multiset() == old(v)@.to_multiset(),
        final(v)@.len() == old(v)@.len(),
{
    broadcast use vstd::seq_lib::group_to_multiset_ensures;
    let ghost src = v@;
    let mut out: Vec<u64> = Vec::new();
    let mut i: usize = 0;
    proof {
        assert(src.take(0) =~= Seq::<u64>::empty());
    }
    while i < v.len()
        invariant
            i <= v@.len(),
            v@ == src,
            sorted(out@),
            out@.to_multiset() == src.take(i as int).to_multiset(),
            out@.len() == i,
        decreases v@.len() - i,
    {
        let x = v[i];
        insert_sorted(&mut out, x);
        proof {
            assert(src.take(i + 1) =~= src.take(i as int).push(x));
            vstd::seq_lib::to_multiset_build(src.take(i as int), x);
        }
        i = i + 1;
    }
    proof {
        assert(src.take(src.len() as int) =~= src);
    }
    *v = out;
}

impl<T: Clone, S> HashRing<T, S> {
    /// Adds the points `keys` for `node`: each maps to a clone of `node`, and
    /// then the whole list of points is put in order.
    pub fn insert_keys(&mut self, node: &T, keys: &Vec<u64>)
        ensures
            inserted(old(self)@, final(self)@, *node, keys@),
            keys_listed(old(self)@) ==> ring_wf(final(self)@),
            ring_resolves(old(self)@) ==> ring_resolves(final(self)@),
            final(self)@.points.len() == old(self)@.points.len() + keys@.len(),
    {
        broadcast use vstd::seq_lib::group_to_multiset_ensures;
        broadcast use vstd::multiset::group_multiset_axioms;
        let ghost v0 = self@;
        let mut i: usize = 0;
        proof {
            assert(keys@.take(0) =~= Seq::<u64>::empty());
            assert(self@.points =~= v0.points + keys@.take(0));
        }
        while i < keys.len()
            invariant
                0 <= i <= keys@.len(),
                self@.replicas == v0.replicas,
                self@.points == v0.points + keys@.take(i as int),
                forall|k: u64| #[trigger] self@.nodes.contains_key(k) <==> (v0.nodes.contains_key(k) || keys@.take(i as int).contains(k)),
                forall|k: u64| #[trigger] keys@.take(i as int).contains(k) ==> cloned(*node, self@.nodes[k]),
                forall|k: u64| v0.nodes.contains_key(k) && !keys@.take(i as int).contains(k) ==> self@.nodes[k] == #[trigger] v0.nodes[k],
            decreases keys@.len() - i,
        {
            let key = keys[i];
            let ghost before = self@;
            let value = node.clone();
            self.ring.insert(key, value);
            self.sorted_keys.push(key);
            proof {
                let t0 = keys@.take(i as int);
                let t1 = keys@.take(i + 1);
                assert(t1 =~= t0.push(key));
                assert forall|k: u64| #[trigger] t1.contains(k) <==> (t0.contains(k) || k == key) by {
                    if t1.contains(k) {
                        let j = choose|j: int| 0 <= j < t1.len() && t1[j] == k;
                        if j < t0.len() {
                            assert(t0[j] == k);
                        }
                    }
                    if t0.contains(k) {
                        let j = choose|j: int| 0 <= j < t0.len() && t0[j] == k;
                        assert(t1[j] == k);
                    }
                    if k == key {
                        assert(t1[i as int] == k);
                    }
                }
                assert(self@.nodes == before.nodes.insert(key, value));
                assert(self@.points =~= v0.points + t1);
                assert forall|k: u64| #[trigger] t1.contains(k) implies cloned(*node, self@.nodes[k]) by {
                    if k != key {
                        assert(t0.contains(k));
                    }
                }
            }
            i = i + 1;
        }
        let ghost mid = self@;
        sort_points(&mut self.sorted_keys);
        proof {
            let after = self@;
            assert(keys@.take(i as int) =~= keys@);
            assert(after.nodes == mid.nodes);
            assert(forall|k: u64| #[trigger] after.nodes.contains_key(k) <==> (v0.nodes.contains_key(k) || keys@.contains(k)));
            vstd::seq_lib::lemma_multiset_commutative(v0.points, keys@);
            assert(after.points.to_multiset() == v0.points.to_multiset().add(keys@.to_multiset()));
            vstd::seq_lib::to_multiset_len(after.points);
            vstd::seq_lib::to_multiset_len(v0.points);
            vstd::seq_lib::to_multiset_len(keys@);
            assert forall|x: u64| #[trigger] after.points.contains(x) <==> (v0.points.contains(x) || keys@.contains(x)) by {
                vstd::seq_lib::to_multiset_contains(after.points, x);
                vstd::seq_lib::to_multiset_contains(v0.points, x);
                vstd::seq_lib::to_multiset_contains(keys@, x);
            }
            if keys_listed(v0) {
                assert forall|k: u64| #[trigger] after.nodes.contains_key(k) implies after.points.contains(k) by {
                    if !keys@.contains(k) {
                        assert(v0.nodes.contains_key(k));
                        assert(v0.points.contains(k));
                    }
                }
            }
            if ring_resolves(v0) {
                assert forall|j: int| 0 <= j < after.points.len() implies after.nodes.contains_key(#[trigger] after.points[j]) by {
                    let x = after.points[j];
                    assert(after.points.contains(x));
                    if !keys@.contains(x) {
                        assert(v0.points.contains(x));
                        let jj = choose|jj: int| 0 <= jj < v0.points.len() && v0.points[jj] == x;
                        assert(v0.nodes.contains_key(v0.points[jj]));
                    }
                }
            }
        }
    }
}

/// A removal takes out at most the points it is given.
pub proof fn lemma_removal_run_bound(dom: Set<u64>, ks: Seq<u64>)
    ensures
        removal_run(dom, ks) <= ks.len(),
    decreases ks.len(),
{
    if ks.len() > 0 && dom.contains(ks[0]) {
        lemma_removal_run_bound(dom.remove(ks[0]), ks.drop_first());
    }
}

impl<T, S> HashRing<T, S> {
    /// Takes the points `keys` out, in order, and stops at the first one that
    /// is not on the ring. Each point leaves the map and, once, the list.
    pub fn remove_keys(&mut self, keys: &Vec<u64>)
        requires
            ring_wf(old(self)@),
        ensures
            ring_wf(final(self)@),
            removed(old(self)@, final(self)@, keys@),
            final(self)@.points.len() + removal_run(old(self)@.nodes.dom(), keys@) == old(self)@.points.len(),
            ring_resolves(old(self)@) && strictly_sorted(old(self)@.points) ==> ring_resolves(final(self)@) && strictly_sorted(final(self)@.points),
    {
        broadcast use vstd::multiset::group_multiset_axioms;
        broadcast use vstd::seq_lib::group_to_multiset_ensures;
        let ghost v0 = self@;
        let ghost ks = keys@;
        proof {
            lemma_removal_run_bound(v0.nodes.dom(), ks);
            assert(ks.take(0) =~= Seq::<u64>::empty());
            assert(ks.skip(0) =~= ks);
            assert(self@.points.to_multiset().add(Seq::<u64>::empty().to_multiset()) =~= v0.points.to_multiset());
        }
        let mut i: usize = 0;
        while i < keys.len()
            invariant
                0 <= i <= ks.len(),
                ks == keys@,
                v0 == old(self)@,
                ring_wf(self@),
                self@.replicas == v0.replicas,
                removal_run(v0.nodes.dom(), ks) == i + removal_run(self@.nodes.dom(), ks.skip(i as int)),
                forall|k: u64| #[trigger] self@.nodes.contains_key(k) <==> (v0.nodes.contains_key(k) && !ks.take(i as int).contains(k)),
                forall|k: u64| #[trigger] self@.nodes.contains_key(k) ==> self@.nodes[k] == v0.nodes[k],
                self@.points.to_multiset().add(ks.take(i as int).to_multiset()) == v0.points.to_multiset(),
                self@.points.len() + i == v0.points.len(),
                ring_resolves(v0) && strictly_sorted(v0.points) ==> ring_resolves(self@) && strictly_sorted(self@.points),
            decreases ks.len() - i,
        {
            let key = keys[i];
            proof {
                assert(ks.skip(i as int)[0] == key);
            }
            if !self.ring.contains_key(&key) {
                proof {
                    assert(!self@.nodes.contains_key(key));
                    assert(removal_run(self@.nodes.dom(), ks.skip(i as int)) == 0);
                    assert(removal_run(v0.nodes.dom(), ks) == i);
                }
                return;
            }
            let ghost before = self@;
            self.ring.remove(&key);
            proof {
                assert(before.points.contains(key));
            }
            let mut j: usize = 0;
            while j < self.sorted_keys.len() && self.sorted_keys[j] != key
                invariant
                    j <= self.sorted_keys@.len(),
                    self.sorted_keys@ == before.points,
                    before.points.contains(key),
                    forall|x: int| 0 <= x < j ==> self.sorted_keys@[x] != key,
                decreases self.sorted_keys@.len() - j,
            {
                j = j + 1;
            }
            let index = j;
            proof {
                if index == self.sorted_keys@.len() {
                    let x = choose|x: int| 0 <= x < before.points.len() && before.points[x] == key;
                    assert(self.sorted_keys@[x] != key);
                }
            }
            self.sorted_keys.remove(index);
            proof {
                let after = self@;
                let p0 = before.points;
                let p1 = after.points;
                assert(p1 == p0.remove(index as int));
                vstd::seq_lib::to_multiset_remove(p0, index as int);
                let t0 = ks.take(i as int);
                let t1 = ks.take(i + 1);
                assert(t1 =~= t0.push(key));
                vstd::seq_lib::to_multiset_build(t0, key);
                vstd::seq_lib::to_multiset_len(p0);
                assert(p0.to_multiset().count(key) > 0) by {
                    vstd::seq_lib::to_multiset_contains(p0, key);
                }
                assert(p1.to_multiset().add(t1.to_multiset()) =~= v0.points.to_multiset());
                assert forall|k: u64| #[trigger] t1.contains(k) <==> (t0.contains(k) || k == key) by {
                    if t1.contains(k) {
                        let a = choose|a: int| 0 <= a < t1.len() && t1[a] == k;
                        if a < t0.len() {
                            assert(t0[a] == k);
                        }
                    }
                    if t0.contains(k) {
                        let a = choose|a: int| 0 <= a < t0.len() && t0[a] == k;
                        assert(t1[a] == k);
                    }
                    if k == key {
                        assert(t1[i as int] == k);
                    }
                }
                assert(after.nodes == before.nodes.remove(key));
                assert(after.nodes.dom() =~= before.nodes.dom().remove(key));
                assert(ks.skip(i as int).drop_first() =~= ks.skip(i + 1));
                // the list stays in order
                assert forall|a: int, b: int| 0 <= a <= b < p1.len() implies p1[a] <= p1[b] by {
                    let a1 = if a < index { a } else { a + 1 };
                    let b1 = if b < index { b } else { b + 1 };
                    assert(p1[a] == p0[a1]);
                    assert(p1[b] == p0[b1]);
                }
                assert forall|k: u64| #[trigger] after.nodes.contains_key(k) implies p1.contains(k) by {
                    assert(before.nodes.contains_key(k));
                    assert(p0.contains(k));
                    let a = choose|a: int| 0 <= a < p0.len() && p0[a] == k;
                    assert(a != index);
                    let a1 = if a < index { a } else { a - 1 };
                    assert(p1[a1] == k);
                }
                if ring_resolves(v0) && strictly_sorted(v0.points) {
                    assert forall|a: int, b: int| 0 <= a < b < p1.len() implies p1[a] < p1[b] by {
                        let a1 = if a < index { a } else { a + 1 };
                        let b1 = if b < index { b } else { b + 1 };
                        assert(p1[a] == p0[a1]);
                        assert(p1[b] == p0[b1]);
                    }
                    assert forall|a: int| 0 <= a < p1.len() implies after.nodes.contains_key(#[trigger] p1[a]) by {
                        let a1 = if a < index { a } else { a + 1 };
                        assert(p1[a] == p0[a1]);
                        assert(before.nodes.contains_key(p0[a1]));
                        assert(p0[a1] != p0[index as int]);
                    }
                }
            }
            i = i + 1;
        }
        proof {
            assert(ks.take(ks.len() as int) =~= ks);
            assert(ks.skip(ks.len() as int) =~= Seq::<u64>::empty());
        }
    }
}

impl<T, S> HashRing<T, S> {
    /// Finds the node that a hash lands on (see `ring_successor`); none when
    /// the ring has no points.
    pub fn locate(&self, h: u64) -> (found: Option<&T>)
        requires
            sorted(self@.points),
            ring_resolves(self@),
        ensures
            self@.points.len() == 0 ==> found is None,
            self@.points.len() > 0 ==> found == Some(&self@.nodes[ring_successor(self@.points, h)]),
    {
        if self.sorted_keys.len() == 0 {
            return None;
        }
        let ghost s = self.sorted_keys@;
        let mut i: usize = 0;
        while i < self.sorted_keys.len()
            invariant
                i <= s.len(),
                s == self.sorted_keys@,
                s == self@.points,
                s.len() > 0,
                sorted(self@.points),
                ring_resolves(self@),
                forall|j: int| 0 <= j < i ==> s[j] < h,
            decreases s.len() - i,
        {
            let node = self.sorted_keys[i];
            if h <= node {
                proof {
                    assert(self@.nodes.contains_key(s[i as int]));
                    lemma_successor_at(s, h, i as int);
                }
                return Some(self.ring.get(&node).unwrap());
            }
            i = i + 1;
        }
        let node = self.sorted_keys[0];
        proof {
            assert(self@.nodes.contains_key(s[0]));
            lemma_successor_wraps(s, h);
        }
        Some(self.ring.get(&node).unwrap())
    }
}

/// In an ordered list, the first point at or after `h` is where `h` lands.
pub proof fn lemma_successor_at(s: Seq<u64>, h: u64, i: int)
    requires
        sorted(s),
        0 <= i < s.len(),
        h <= s[i],
        forall|j: int| 0 <= j < i ==> s[j] < h,
    ensures
        ring_successor(s, h) == s[i],
{
    assert(exists|j: int| 0 <= j < s.len() && h <= #[trigger] s[j]) by {
        assert(h <= s[i]);
    }
    let x = s[i];
    assert(s.contains(x));
    assert forall|y: u64| s.contains(y) && h <= y implies x <= y by {
        let j = choose|j: int| 0 <= j < s.len() && s[j] == y;
        if j < i {
            assert(s[j] < h);
        }
    }
    let r = ring_successor(s, h);
    assert(s.contains(r) && h <= r && forall|y: u64| s.contains(y) && h <= y ==> r <= y);
    assert(r <= x);
}

/// When every point is before `h`, `h` lands on the first point.
pub proof fn lemma_successor_wraps(s: Seq<u64>, h: u64)
    requires
        sorted(s),
        s.len() > 0,
        forall|j: int| 0 <= j < s.len() ==> s[j] < h,
    ensures
        ring_successor(s, h) == s[0],
{
    assert(!exists|j: int| 0 <= j < s.len() && h <= #[trigger] s[j]);
    let x = s[0];
    assert(s.contains(x));
    assert forall|y: u64| s.contains(y) implies x <= y by {
        let j = choose|j: int| 0 <= j < s.len() && s[j] == y;
    }
    let r = ring_successor(s, h);
    assert(s.contains(r) && forall|y: u64| s.contains(y) ==> r <= y);
    assert(r <= x);
}

/// `BuildHasher::build_hasher`: a fresh hasher from `builder`. The
/// builder's type decides its state, so nothing is promised of it.
#[verifier::external_body]
fn start_hasher<S: BuildHasher>(builder: &S) -> S::Hasher {
    builder.build_hasher()
}

/// `Hasher::write`: feeds `bytes` to the hasher. The hasher's type decides
/// what that does, so nothing is promised of it.
#[verifier::external_body]
fn hasher_write<H: Hasher>(hasher: &mut H, bytes: &[u8]) {
    hasher.write(bytes)
}

/// `Hasher::finish`: the hash of what the hasher was fed. The hasher's type
/// decides the value, so nothing is promised of it.
#[verifier::external_body]
fn hasher_finish<H: Hasher>(hasher: &H) -> u64 {
    hasher.finish()
}

impl<T: ToString + Clone, S: BuildHasher> HashRing<T, S> {
    /// Hashes the text of `key` with the ring's hash builder: a new hasher,
    /// one `write` of the text's bytes, then `finish`.
    fn gen_key(&self, key: String) -> u64 {
        let mut hasher = start_hasher(&self.hash_builder);
        hasher_write(&mut hasher, key.as_str().as_bytes());
        hasher_finish(&hasher)
    }

    /// The points of `node`: the hashes of `label:0`, `label:1`, ... for each
    /// replica, where `label` is the node's text.
    fn replica_keys(&self, node: &T) -> (keys: Vec<u64>)
        ensures
            keys@.len() == replica_count(self@.replicas),
    {
        let label = label_of(node);
        let mut keys: Vec<u64> = Vec::new();
        let mut i: isize = 0;
        while i < self.replicas
            invariant
                0 <= i,
                self.replicas > 0 ==> i <= self.replicas,
                self.replicas <= 0 ==> i == 0,
                keys@.len() == i,
            decreases self.replicas - i,
        {
            let name = replica_name(&label, i as u64);
            keys.push(self.gen_key(name));
            i = i + 1;
        }
        proof {
            assert(self@.replicas == self.replicas as int);
        }
        keys
    }

    /// Makes a ring with `replicas` points for each of `nodes`, placed by
    /// `hash_builder`: the nodes are added in order, each with points of its
    /// own (see `built_from`).
    pub fn with_hasher(nodes: Vec<T>, replicas: isize, hash_builder: S) -> (hash_ring: HashRing<T, S>)
        ensures
            ring_wf(hash_ring@),
            ring_resolves(hash_ring@),
            hash_ring@.replicas == replicas,
            hash_ring@.points.len() == nodes.len() * replica_count(replicas as int),
            forall|k: u64| #[trigger] hash_ring@.nodes.contains_key(k) ==> exists|i: int| 0 <= i < nodes.len() && cloned(nodes@[i], hash_ring@.nodes[k]),
            exists|steps: Seq<RingView<T>>| #[trigger] built_from(steps, nodes@, replicas as int) && steps.last() == hash_ring@,
    {
        let mut new_hash_ring: HashRing<T, S> = HashRing {
            replicas,
            ring: HashMap::new(),
            sorted_keys: Vec::new(),
            hash_builder,
        };
        let ghost rc = replica_count(replicas as int);
        let ghost mut steps: Seq<RingView<T>> = seq![new_hash_ring@];
        let mut n: usize = 0;
        proof {
            assert(new_hash_ring@.nodes.dom() =~= Set::<u64>::empty());
            assert(nodes@.take(0) =~= Seq::<T>::empty());
        }
        while n < nodes.len()
            invariant
                n <= nodes.len(),
                built_from(steps, nodes@.take(n as int), replicas as int),
                steps.last() == new_hash_ring@,
                ring_wf(new_hash_ring@),
                ring_resolves(new_hash_ring@),
                new_hash_ring@.replicas == replicas,
                new_hash_ring@.points.len() == n * rc,
                rc == replica_count(replicas as int),
                forall|k: u64| #[trigger] new_hash_ring@.nodes.contains_key(k) ==> exists|i: int| 0 <= i < n && cloned(nodes@[i], new_hash_ring@.nodes[k]),
            decreases nodes.len() - n,
        {
            let ghost before = new_hash_ring@;
            new_hash_ring.add_node(&nodes[n]);
            proof {
                let after = new_hash_ring@;
                let keys = choose|keys: Seq<u64>| keys.len() == rc && #[trigger] inserted(before, after, nodes@[n as int], keys);
                assert forall|k: u64| #[trigger] after.nodes.contains_key(k) implies exists|i: int| 0 <= i < n + 1 && cloned(nodes@[i], after.nodes[k]) by {
                    if keys.contains(k) {
                        assert(cloned(nodes@[n as int], after.nodes[k]));
                    } else {
                        assert(before.nodes.contains_key(k));
                        assert(after.nodes[k] == before.nodes[k]);
                        let i = choose|i: int| 0 <= i < n && cloned(nodes@[i], before.nodes[k]);
                        assert(cloned(nodes@[i], after.nodes[k]));
                    }
                }
                assert((n + 1) * rc == n * rc + rc) by (nonlinear_arith);
                assert(nodes@.take(n + 1) =~= nodes@.take(n as int).push(nodes@[n as int]));
                lemma_built_step(steps, nodes@.take(n as int), replicas as int, after, nodes@[n as int], keys);
                steps = steps.push(after);
            }
            n = n + 1;
        }
        proof {
            assert(nodes@.take(n as int) =~= nodes@);
        }
        new_hash_ring
    }

    /// Adds `replicas` points for `node`.
    pub fn add_node(&mut self, node: &T)
        ensures
            keys_listed(old(self)@) ==> ring_wf(final(self)@),
            ring_resolves(old(self)@) ==> ring_resolves(final(self)@),
            final(self)@.points.len() == old(self)@.points.len() + replica_count(old(self)@.replicas),
            exists|keys: Seq<u64>| keys.len() == replica_count(old(self)@.replicas) && #[trigger] inserted(old(self)@, final(self)@, *node, keys),
    {
        let keys = self.replica_keys(node);
        self.insert_keys(node, &keys);
    }

    /// Takes out the points of `node`, in replica order, stopping at the first
    /// point that is not on the ring.
    pub fn remove_node(&mut self, node: &T)
        requires
            ring_wf(old(self)@),
        ensures
            ring_wf(final(self)@),
            exists|keys: Seq<u64>| keys.len() == replica_count(old(self)@.replicas) && #[trigger] removed(old(self)@, final(self)@, keys),
            ring_resolves(old(self)@) && strictly_sorted(old(self)@.points) ==> ring_resolves(final(self)@) && strictly_sorted(final(self)@.points),
    {
        let keys = self.replica_keys(node);
        self.remove_keys(&keys);
    }

    /// The node that `key` belongs to: none when the ring has no points,
    /// else the node where the key's hash lands (see `ring_successor`).
    pub fn get_node(&self, key: String) -> (found: Option<&T>)
        requires
            sorted(self@.points),
            ring_resolves(self@),
        ensures
            self@.points.len() == 0 ==> found is None,
            self@.points.len() > 0 ==> exists|h: u64| found == Some(&self@.nodes[#[trigger] ring_successor(self@.points, h)]),
    {
        if self.sorted_keys.len() == 0 {
            return None;
        }
        let generated_key = self.gen_key(key);
        self.locate(generated_key)
    }
}

impl<T: ToString + Clone> HashRing<T, XxHash64Hasher> {
    /// Makes a ring with `replicas` points for each of `nodes`, placed by xxHash64.
    pub fn new(nodes: Vec<T>, replicas: isize) -> (hash_ring: HashRing<T, XxHash64Hasher>)
        ensures
            ring_wf(hash_ring@),
            ring_resolves(hash_ring@),
            hash_ring@.replicas == replicas,
            hash_ring@.points.len() == nodes.len() * replica_count(replicas as int),
            forall|k: u64| #[trigger] hash_ring@.nodes.contains_key(k) ==> exists|i: int| 0 <= i < nodes.len() && cloned(nodes@[i], hash_ring@.nodes[k]),
            exists|steps: Seq<RingView<T>>| #[trigger] built_from(steps, nodes@, replicas as int) && steps.last() == hash_ring@,
    {
        HashRing::with_hasher(nodes, replicas, xxhash64_builder())
    }
}

impl<T: Clone> HashRing<T, XxHash64Hasher> {
    /// The points of the node labelled `label` on this ring: the xxHash64
    /// hashes of its replica names, as `add_node` and `remove_node` place them
    /// for a node whose text is `label`.
    pub fn label_points(&self, label: &String) -> (keys: Vec<u64>)
        ensures
            keys@ == replica_points(label@, self@.replicas),
    {
        let ghost target = replica_points(label@, self@.replicas);
        let mut keys: Vec<u64> = Vec::new();
        let mut i: isize = 0;
        while i < self.replicas
            invariant
                0 <= i,
                self.replicas > 0 ==> i <= self.replicas,
                self.replicas <= 0 ==> i == 0,
                target == replica_points(label@, self.replicas as int),
                keys@ == target.take(i as int),
            decreases self.replicas - i,
        {
            let name = replica_name(label, i as u64);
            let h = xxhash64_of(&name);
            proof {
                assert(target[i as int] == xxhash64_text(replica_text(label@, i as nat)));
            }
            keys.push(h);
            proof {
                assert(keys@ =~= target.take(i + 1));
            }
            i = i + 1;
        }
        proof {
            assert(target.take(target.len() as int) =~= target);
        }
        keys
    }

    /// Adds the node labelled `label`: its points (see `label_points`) each
    /// map to a clone of `node`, as `add_node` does for a node whose text is
    /// `label`.
    pub fn add_labeled(&mut self, node: &T, label: &String)
        ensures
            keys_listed(old(self)@) ==> ring_wf(final(self)@),
            ring_resolves(old(self)@) ==> ring_resolves(final(self)@),
            inserted(old(self)@, final(self)@, *node, replica_points(label@, old(self)@.replicas)),
    {
        let keys = self.label_points(label);
        self.insert_keys(node, &keys);
    }

    /// Takes out the points of the node labelled `label`, in replica order,
    /// stopping at the first one that is not on the ring, as `remove_node`
    /// does for a node whose text is `label`.
    pub fn remove_labeled(&mut self, label: &String)
        requires
            ring_wf(old(self)@),
        ensures
            ring_wf(final(self)@),
            removed(old(self)@, final(self)@, replica_points(label@, old(self)@.replicas)),
            ring_resolves(old(self)@) && strictly_sorted(old(self)@.points) ==> ring_resolves(final(self)@) && strictly_sorted(final(self)@.points),
    {
        let keys = self.label_points(label);
        self.remove_keys(&keys);
    }

    /// The node that `key` belongs to, as `get_node` finds it: none when the
    /// ring has no points, else the node where the key's xxHash64 hash lands.
    pub fn owner_of(&self, key: &String) -> (found: Option<&T>)
        requires
            sorted(self@.points),
            ring_resolves(self@),
        ensures
            self@.points.len() == 0 ==> found is None,
            self@.points.len() > 0 ==> found == Some(&self@.nodes[ring_successor(self@.points, xxhash64_text(key@))]),
    {
        if self.sorted_keys.len() == 0 {
            return None;
        }
        let h = xxhash64_of(key);
        self.locate(h)
    }
}

impl<T, S> HashRing<T, S> {
    /// Whether the list of points holds `key`.
    fn has_point(&self, key: u64) -> (found: bool)
        ensures
            found == self@.points.contains(key),
    {
        let mut i: usize = 0;
        while i < self.sorted_keys.len()
            invariant
                i <= self.sorted_keys@.len(),
                self.sorted_keys@ == self@.points,
                forall|j: int| 0 <= j < i ==> self.sorted_keys@[j] != key,
            decreases self.sorted_keys@.len() - i,
        {
            if self.sorted_keys[i] == key {
                proof {
                    assert(self@.points[i as int] == key);
                }
                return true;
            }
            i = i + 1;
        }
        false
    }

    /// Whether every listed point has a node, as `get_node` needs.
    pub fn points_resolve(&self) -> (ok: bool)
        ensures
            ok == ring_resolves(self@),
    {
        let n = self.sorted_keys.len();
        let mut i: usize = 0;
        while i < n
            invariant
                n == self@.points.len(),
                self.sorted_keys@ == self@.points,
                i <= n,
                forall|j: int| 0 <= j < i ==> self@.nodes.contains_key(#[trigger] self@.points[j]),
            decreases n - i,
        {
            let key = self.sorted_keys[i];
            if !self.ring.contains_key(&key) {
                return false;
            }
            i = i + 1;
        }
        true
    }

    /// Whether the ring is well formed and every listed point has a node.
    pub fn is_consistent(&self) -> (ok: bool)
        ensures
            ok == (ring_wf(self@) && ring_resolves(self@)),
    {
        self.is_well_formed() && self.points_resolve()
    }

    /// Whether the points are in order and every point has a node, as
    /// `get_node` needs.
    pub fn can_look_up(&self) -> (ok: bool)
        ensures
            ok == (sorted(self@.points) && ring_resolves(self@)),
    {
        self.points_sorted() && self.points_resolve()
    }

    /// Whether the points are in order.
    fn points_sorted(&self) -> (ok: bool)
        ensures
            ok == sorted(self@.points),
    {
        let n = self.sorted_keys.len();
        let mut i: usize = 1;
        while i < n
            invariant
                n == self@.points.len(),
                self.sorted_keys@ == self@.points,
                1 <= i,
                n > 0 ==> i <= n,
                forall|a: int, b: int| 0 <= a <= b < i && b < n ==> self@.points[a] <= self@.points[b],
            decreases n - i,
        {
            if self.sorted_keys[i - 1] > self.sorted_keys[i] {
                return false;
            }
            proof {
                assert forall|a: int, b: int| 0 <= a <= b < i + 1 && b < n implies self@.points[a] <= self@.points[b] by {
                    if b == i && a < i {
                        assert(self@.points[a] <= self@.points[i - 1]);
                    }
                }
            }
            i = i + 1;
        }
        true
    }

    /// Whether the points are in order and every point of the map is listed.
    pub fn is_well_formed(&self) -> (ok: bool)
        ensures
            ok == ring_wf(self@),
    {
        if !self.points_sorted() {
            return false;
        }
        let ghost kseq = vstd::std_specs::iter::IteratorSpec::remaining(&vstd::std_specs::hash::spec_keys_iter(&self.ring));
        for k in it: self.ring.keys()
            invariant
                it.seq() == kseq,
                kseq.unref().to_set() == self@.nodes.dom(),
                forall|j: int| 0 <= j < it.index() ==> self@.points.contains(*it.seq()[j]),
                sorted(self@.points),
        {
            if !self.has_point(*k) {
                proof {
                    let j = it.index();
                    assert(kseq[j] == k);
                    assert(kseq.unref()[j] == *k);
                    assert(kseq.unref().to_set().contains(*k));
                    assert(self@.nodes.contains_key(*k));
                }
                return false;
            }
        }
        proof {
            assert forall|k: u64| #[trigger] self@.nodes.contains_key(k) implies self@.points.contains(k) by {
                assert(kseq.unref().to_set().contains(k));
                let j = choose|j: int| 0 <= j < kseq.unref().len() && kseq.unref()[j] == k;
                assert(self@.points.contains(*kseq[j]));
            }
        }
        true
    }
}

} // verus!
