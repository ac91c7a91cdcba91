//! Sharding: key ranges, a consistent-hash ring with virtual nodes, shard
//! configurations, the shard manager and the rebalancing coordinator.

use vstd::prelude::*;
use vstd::wrapping::u32_specs;
use vstd::utf8::encode_utf8;
use crate::util::{chars_lt, str_lt, str_eq, decimal, owned, digit_char};
use crate::collections::StrMap;
use crate::storage::caching::str_views;

verus! {

/// A range of shard keys `[start_key, end_key)`; a missing bound is open.
#[derive(Debug, Clone)]
pub struct ShardRange {
    pub shard_id: u32,
    pub start_key: Option<String>,
    pub end_key: Option<String>,
}

/// Whether a key lies in the range given by two optional bounds.
pub open spec fn in_range(key: Seq<char>, start: Option<Seq<char>>, end: Option<Seq<char>>) -> bool {
    &&& (start matches Some(s) ==> !chars_lt(key, s))
    &&& (end matches Some(e) ==> chars_lt(key, e))
}

/// The view of an optional string.
pub open spec fn opt_view(o: Option<String>) -> Option<Seq<char>> {
    match o {
        Some(s) => Some(s@),
        None => None,
    }
}

impl ShardRange {
    /// A range for a shard.
    pub fn new(shard_id: u32, start_key: Option<String>, end_key: Option<String>) -> (r: Self)
        ensures
            r.shard_id == shard_id,
            r.start_key == start_key,
            r.end_key == end_key,
    {
        ShardRange { shard_id, start_key, end_key }
    }

    /// Whether the key lies in the range (start included, end excluded).
    pub fn contains_key(&self, key: &str) -> (b: bool)
        ensures
            b == in_range(key@, opt_view(self.start_key), opt_view(self.end_key)),
    {
        if let Some(start) = &self.start_key {
            if str_lt(key, start.as_str()) {
                return false;
            }
        }
        if let Some(end) = &self.end_key {
            if !str_lt(key, end.as_str()) {
                return false;
            }
        }
        true
    }
}

/// How data is partitioned among shards.
#[derive(Debug, Clone, Copy, PartialEq, Eq, Structural)]
pub enum ShardingStrategy {
    Range,
    Hash,
    List,
    Composite,
}

impl ShardingStrategy {
    /// The strategy's name.
    pub fn as_str(&self) -> (s: &'static str)
        ensures
            s@ == match *self {
                ShardingStrategy::Range => "Range"@,
                ShardingStrategy::Hash => "Hash"@,
                ShardingStrategy::List => "List"@,
                ShardingStrategy::Composite => "Composite"@,
            },
    {
        match self {
            ShardingStrategy::Range => "Range",
            ShardingStrategy::Hash => "Hash",
            ShardingStrategy::List => "List",
            ShardingStrategy::Composite => "Composite",
        }
    }
}

/// One step of the djb2 hash: `hash * 33 + byte`, wrapping.
pub open spec fn djb2_step(h: u32, b: u8) -> u32 {
    u32_specs::wrapping_add(u32_specs::wrapping_add((h << 5u32) as u32, h), b as u32)
}

/// The djb2 hash of a byte string (seed 5381).
pub open spec fn djb2(bytes: Seq<u8>) -> u32
    decreases bytes.len(),
{
    if bytes.len() == 0 {
        5381
    } else {
        djb2_step(djb2(bytes.drop_last()), bytes.last())
    }
}

/// The hash of a key: djb2 over its UTF-8 bytes.
pub open spec fn key_hash(key: Seq<char>) -> u32 {
    djb2(encode_utf8(key))
}

/// The bytes of the decimal representation of a number.
pub open spec fn decimal_bytes(n: nat) -> Seq<u8> {
    decimal(n).map_values(|c: char| c as u8)
}

/// The key of the `i`-th virtual node of a node: `"{node}:{i}"`.
pub open spec fn virtual_key(node: Seq<char>, i: nat) -> Seq<u8> {
    encode_utf8(node) + seq![58u8] + decimal_bytes(i)
}

/// The ring position of the `i`-th virtual node of a node.
pub open spec fn virtual_hash(node: Seq<char>, i: nat) -> u32 {
    djb2(virtual_key(node, i))
}

/// The ring after the first `n` virtual nodes of a node were placed, each
/// overwriting whatever stood at its position.
pub open spec fn place_virtual(m: Map<u32, Seq<char>>, node: Seq<char>, n: nat) -> Map<u32, Seq<char>>
    decreases n,
{
    if n == 0 {
        m
    } else {
        place_virtual(m, node, (n - 1) as nat).insert(virtual_hash(node, (n - 1) as nat), node)
    }
}

/// The ring after removing the virtual nodes of a node that still belong to it.
pub open spec fn unplace_virtual(m: Map<u32, Seq<char>>, node: Seq<char>, n: nat) -> Map<u32, Seq<char>> {
    Map::new(
        |h: u32| m.contains_key(h) && !((exists|i: nat| i < n && virtual_hash(node, i) == h) && m[h] == node),
        |h: u32| m[h],
    )
}

/// Whether every position of a ring is one of the virtual-node hashes of its
/// owner, among the first `n`.
pub open spec fn ring_placed(m: Map<u32, Seq<char>>, n: nat) -> bool {
    forall|k: u32| #[trigger] m.contains_key(k) ==> exists|i: nat| i < n && virtual_hash(m[k], i) == k
}

/// Placing a node's virtual nodes keeps every position at a hash of its owner.
proof fn lemma_place_keeps_placed(m: Map<u32, Seq<char>>, node: Seq<char>, j: nat, n: nat)
    requires
        ring_placed(m, n),
        j <= n,
    ensures
        ring_placed(place_virtual(m, node, j), n),
    decreases j,
{
    if j > 0 {
        lemma_place_keeps_placed(m, node, (j - 1) as nat, n);
        let p = place_virtual(m, node, (j - 1) as nat);
        let q = place_virtual(m, node, j);
        assert forall|k: u32| #[trigger] q.contains_key(k) implies exists|i: nat| i < n && virtual_hash(q[k], i) == k by {
            if k == virtual_hash(node, (j - 1) as nat) {
                assert(q[k] == node);
                assert(virtual_hash(q[k], (j - 1) as nat) == k);
            } else {
                assert(p.contains_key(k));
                assert(q[k] == p[k]);
            }
        }
    }
}

/// Taking a node's virtual nodes off a ring whose positions are all placed
/// leaves the node without any position, and the rest still placed.
proof fn lemma_unplace_removes_node(m: Map<u32, Seq<char>>, node: Seq<char>, n: nat)
    requires
        ring_placed(m, n),
    ensures
        ring_placed(unplace_virtual(m, node, n), n),
        forall|k: u32| #[trigger] unplace_virtual(m, node, n).contains_key(k) ==> unplace_virtual(m, node, n)[k] != node,
{
    let u = unplace_virtual(m, node, n);
    assert forall|k: u32| #[trigger] u.contains_key(k) implies u[k] != node by {
        assert(m.contains_key(k));
        if m[k] == node {
            let i = choose|i: nat| i < n && virtual_hash(m[k], i) == k;
            assert(virtual_hash(node, i) == k);
        }
    }
    assert forall|k: u32| #[trigger] u.contains_key(k) implies exists|i: nat| i < n && virtual_hash(u[k], i) == k by {
        assert(m.contains_key(k));
        assert(u[k] == m[k]);
    }
}

/// Whether `k` is the ring position that serves hash `h`: the first position
/// at or after `h`, or, when there is none, the first position of the ring.
pub open spec fn serves(m: Map<u32, Seq<char>>, h: u32, k: u32) -> bool {
    &&& m.contains_key(k)
    &&& if exists|k2: u32| m.contains_key(k2) && k2 >= h {
        k >= h && forall|k2: u32| m.contains_key(k2) && k2 >= h ==> k <= k2
    } else {
        forall|k2: u32| m.contains_key(k2) ==> k <= k2
    }
}


/// The ring after placing a node's virtual positions holds the old
/// positions and the new ones; the new ones belong to the node, the others
/// keep their owners.
proof fn lemma_place_virtual(m: Map<u32, Seq<char>>, node: Seq<char>, n: nat)
    ensures
        forall|k: u32|
            #[trigger] place_virtual(m, node, n).contains_key(k) <==> (m.contains_key(k) || exists|i: nat|
                i < n && virtual_hash(node, i) == k),
        forall|k: u32|
            #[trigger] place_virtual(m, node, n).contains_key(k) ==> place_virtual(m, node, n)[k] == node || (
            m.contains_key(k) && place_virtual(m, node, n)[k] == m[k]),
    decreases n,
{
    if n > 0 {
        lemma_place_virtual(m, node, (n - 1) as nat);
        let p = place_virtual(m, node, (n - 1) as nat);
        let h = virtual_hash(node, (n - 1) as nat);
        assert forall|k: u32|
            #[trigger] place_virtual(m, node, n).contains_key(k) <==> (m.contains_key(k) || exists|i: nat|
                i < n && virtual_hash(node, i) == k) by {
            if place_virtual(m, node, n).contains_key(k) && !m.contains_key(k) && k != h {
                assert(p.contains_key(k));
                let i = choose|i: nat| i < n - 1 && virtual_hash(node, i) == k;
                assert(i < n);
            }
            if exists|i: nat| i < n && virtual_hash(node, i) == k {
                let i = choose|i: nat| i < n && virtual_hash(node, i) == k;
                if i < n - 1 {
                    assert(p.contains_key(k));
                }
            }
        }
    }
}

/// Adding a node to the ring moves keys only to it: a key's new serving
/// position belongs to the added node, or else it served the key before
/// and keeps its owner.
pub proof fn lemma_adding_node_moves_keys_only_to_it(m: Map<u32, Seq<char>>, node: Seq<char>, n: nat, h: u32, k: u32)
    requires
        serves(place_virtual(m, node, n), h, k),
    ensures
        place_virtual(m, node, n)[k] == node || (serves(m, h, k) && place_virtual(m, node, n)[k] == m[k]),
{
    lemma_place_virtual(m, node, n);
    let p = place_virtual(m, node, n);
    if p[k] != node {
        assert(m.contains_key(k));
        assert forall|k2: u32| m.contains_key(k2) implies #[trigger] p.contains_key(k2) by {}
        if exists|k2: u32| m.contains_key(k2) && k2 >= h {
            let w = choose|w: u32| m.contains_key(w) && w >= h;
            assert(p.contains_key(w) && w >= h);
            assert(k >= h);
            assert forall|k2: u32| m.contains_key(k2) && k2 >= h implies k <= k2 by {
                assert(p.contains_key(k2));
            }
        } else {
            assert(!(k >= h));
            if exists|k2: u32| p.contains_key(k2) && k2 >= h {
                assert(k >= h);
            }
            assert forall|k2: u32| m.contains_key(k2) implies k <= k2 by {
                assert(p.contains_key(k2));
            }
        }
        assert(serves(m, h, k));
    }
}

/// Removing a node from the ring moves only its keys: a key served by a
/// position of another node is served by the same position afterwards.
pub proof fn lemma_removing_node_moves_only_its_keys(m: Map<u32, Seq<char>>, node: Seq<char>, n: nat, h: u32, k: u32)
    requires
        serves(m, h, k),
        m[k] != node,
    ensures
        serves(unplace_virtual(m, node, n), h, k),
        unplace_virtual(m, node, n)[k] == m[k],
{
    let u = unplace_virtual(m, node, n);
    assert(u.contains_key(k));
    assert forall|k2: u32| u.contains_key(k2) implies #[trigger] m.contains_key(k2) by {}
    if exists|k2: u32| m.contains_key(k2) && k2 >= h {
        assert(k >= h);
        assert(u.contains_key(k) && k >= h);
    } else {
        if exists|k2: u32| u.contains_key(k2) && k2 >= h {
            let k2 = choose|k2: u32| u.contains_key(k2) && k2 >= h;
            assert(m.contains_key(k2));
        }
    }
}

/// A hash is served by one position at most.
/// After a node is removed from a ring whose positions are all placed
/// virtual nodes, no key is served by that node.
pub proof fn lemma_removed_node_serves_no_key(m: Map<u32, Seq<char>>, node: Seq<char>, n: nat, h: u32, k: u32)
    requires
        ring_placed(m, n),
        serves(unplace_virtual(m, node, n), h, k),
    ensures
        unplace_virtual(m, node, n)[k] != node,
{
    lemma_unplace_removes_node(m, node, n);
}

pub proof fn lemma_serving_position_unique(m: Map<u32, Seq<char>>, h: u32, k1: u32, k2: u32)
    requires
        serves(m, h, k1),
        serves(m, h, k2),
    ensures
        k1 == k2,
{
}

/// The distinct nodes on a ring.
pub open spec fn ring_nodes(m: Map<u32, Seq<char>>) -> Set<Seq<char>> {
    Set::new(|n: Seq<char>| exists|k: u32| m.contains_key(k) && m[k] == n)
}

/// Appends the decimal bytes of `n`.
fn push_decimal_bytes(v: &mut Vec<u8>, n: u64)
    ensures
        final(v)@ == old(v)@ + decimal_bytes(n as nat),
    decreases n,
{
    if n >= 10 {
        push_decimal_bytes(v, n / 10);
    }
    let d: u8 = (n % 10) as u8;
    let byte: u8 = 48u8 + d;
    v.push(byte);
    proof {
        let c = digit_char((n % 10) as nat);
        assert(c as u8 == byte);
        if n < 10 {
            assert(decimal_bytes(n as nat) =~= seq![c as u8]);
            assert(old(v)@ + decimal_bytes(n as nat) =~= old(v)@.push(byte));
        } else {
            assert(decimal(n as nat) == decimal((n / 10) as nat).push(c));
            assert(decimal_bytes(n as nat) =~= decimal_bytes((n / 10) as nat).push(c as u8));
            assert(old(v)@ + decimal_bytes(n as nat) =~= (old(v)@ + decimal_bytes((n / 10) as nat)).push(byte));
        }
    }
}

/// The djb2 hash of a byte string.
pub fn hash_bytes(bytes: &[u8]) -> (h: u32)
    ensures
        h == djb2(bytes@),
{
    let mut hash: u32 = 5381;
    let mut i: usize = 0;
    while i < bytes.len()
        invariant
            i <= bytes@.len(),
            hash == djb2(bytes@.subrange(0, i as int)),
        decreases bytes@.len() - i,
    {
        proof {
            assert(bytes@.subrange(0, i + 1).drop_last() =~= bytes@.subrange(0, i as int));
        }
        hash = (hash << 5).wrapping_add(hash).wrapping_add(bytes[i] as u32);
        i += 1;
    }
    proof {
        assert(bytes@.subrange(0, i as int) =~= bytes@);
    }
    hash
}

/// The bytes of a virtual node's key.
fn virtual_key_bytes(node_id: &str, i: u32) -> (v: Vec<u8>)
    ensures
        v@ == virtual_key(node_id@, i as nat),
{
    let b = node_id.as_bytes();
    let mut v: Vec<u8> = Vec::new();
    let mut j: usize = 0;
    while j < b.len()
        invariant
            j <= b@.len(),
            v@ == b@.subrange(0, j as int),
        decreases b@.len() - j,
    {
        v.push(b[j]);
        j += 1;
        proof {
            assert(v@ =~= b@.subrange(0, j as int));
        }
    }
    proof {
        assert(v@ =~= encode_utf8(node_id@));
    }
    v.push(58u8);
    push_decimal_bytes(&mut v, i as u64);
    proof {
        assert(v@ =~= virtual_key(node_id@, i as nat));
    }
    v
}

/// A consistent-hash ring: positions in increasing order, each with the node
/// that owns it; every node is placed at `virtual_nodes` positions.
#[derive(Debug)]
pub struct ConsistentHashRing {
    nodes: Vec<(u32, String)>,
    virtual_nodes: u32,
}

impl ConsistentHashRing {
    /// The occupied positions, in increasing order.
    pub closed spec fn positions(&self) -> Seq<u32> {
        self.nodes@.map_values(|e: (u32, String)| e.0)
    }

    /// The owners of the positions, position by position.
    pub closed spec fn owners(&self) -> Seq<Seq<char>> {
        self.nodes@.map_values(|e: (u32, String)| e.1@)
    }

    /// The ring as a map from positions to owners.
    pub closed spec fn ring(&self) -> Map<u32, Seq<char>> {
        Map::new(
            |h: u32| self.positions().contains(h),
            |h: u32| self.owners()[self.positions().index_of(h)],
        )
    }

    /// The number of virtual nodes per node.
    pub closed spec fn replicas(&self) -> nat {
        self.virtual_nodes as nat
    }

    /// The positions are strictly increasing.
    pub closed spec fn wf(&self) -> bool {
        forall|i: int, j: int| 0 <= i < j < self.nodes@.len() ==> self.nodes@[i].0 < self.nodes@[j].0
    }

    proof fn lemma_index(&self, i: int)
        requires
            self.wf(),
            0 <= i < self.nodes@.len(),
        ensures
            self.positions().index_of(self.nodes@[i].0) == i,
            self.ring().contains_key(self.nodes@[i].0),
            self.ring()[self.nodes@[i].0] == self.nodes@[i].1@,
    {
        assert(self.positions()[i] == self.nodes@[i].0);
        assert(self.positions().contains(self.nodes@[i].0));
        let j = self.positions().index_of(self.nodes@[i].0);
        if j != i {
            if j < i {
                assert(self.nodes@[j].0 < self.nodes@[i].0);
            } else {
                assert(self.nodes@[i].0 < self.nodes@[j].0);
            }
        }
    }

    proof fn lemma_contains(&self, h: u32)
        requires
            self.wf(),
            self.ring().contains_key(h),
        ensures
            exists|i: int| 0 <= i < self.nodes@.len() && self.nodes@[i].0 == h,
    {
        let i = self.positions().index_of(h);
        assert(self.positions()[i] == h);
    }

    /// An empty ring.
    pub fn new(virtual_nodes: u32) -> (r: Self)
        ensures
            r.wf(),
            r.replicas() == virtual_nodes,
            r.ring() == Map::<u32, Seq<char>>::empty(),
            ring_placed(r.ring(), r.replicas()),
    {
        let r = ConsistentHashRing { nodes: Vec::new(), virtual_nodes };
        assert(r.ring() =~= Map::<u32, Seq<char>>::empty());
        r
    }

    /// The hash of a key (djb2 over its UTF-8 bytes).
    pub fn hash_key(key: &str) -> (h: u32)
        ensures
            h == key_hash(key@),
    {
        hash_bytes(key.as_bytes())
    }

    /// The first index whose position is at least `h`.
    fn lower_bound(&self, h: u32) -> (i: usize)
        requires
            self.wf(),
        ensures
            i <= self.nodes@.len(),
            forall|j: int| 0 <= j < i ==> self.nodes@[j].0 < h,
            forall|j: int| i <= j < self.nodes@.len() ==> self.nodes@[j].0 >= h,
    {
        let mut i: usize = 0;
        while i < self.nodes.len() && self.nodes[i].0 < h
            invariant
                i <= self.nodes@.len(),
                forall|j: int| 0 <= j < i ==> self.nodes@[j].0 < h,
            decreases self.nodes@.len() - i,
        {
            i += 1;
        }
        proof {
            assert forall|j: int| i <= j < self.nodes@.len() implies self.nodes@[j].0 >= h by {
                if j > i {
                    assert(self.nodes@[i as int].0 < self.nodes@[j].0);
                }
            }
        }
        i
    }

    /// Places a node at a position, replacing the owner already there.
    fn place(&mut self, h: u32, node: String)
        requires
            old(self).wf(),
        ensures
            final(self).wf(),
            final(self).virtual_nodes == old(self).virtual_nodes,
            final(self).ring() == old(self).ring().insert(h, node@),
    {
        let i = self.lower_bound(h);
        let ghost old_nodes = self.nodes@;
        if i < self.nodes.len() && self.nodes[i].0 == h {
            let _ = self.nodes.remove(i);
            self.nodes.insert(i, (h, node));
            proof {
                assert(self.nodes@ =~= old_nodes.update(i as int, (h, node)));
                assert forall|a: u32| #[trigger] self.ring().contains_key(a) <==> old(self).ring().insert(h, node@).contains_key(a) by {
                    if self.ring().contains_key(a) {
                        self.lemma_contains(a);
                        let j = choose|j: int| 0 <= j < self.nodes@.len() && self.nodes@[j].0 == a;
                        old(self).lemma_index(j);
                    }
                    if old(self).ring().contains_key(a) {
                        old(self).lemma_contains(a);
                        let j = choose|j: int| 0 <= j < old_nodes.len() && old_nodes[j].0 == a;
                        self.lemma_index(j);
                    }
                    if a == h {
                        self.lemma_index(i as int);
                    }
                }
                assert forall|a: u32| #[trigger] self.ring().contains_key(a) implies self.ring()[a] == old(self).ring().insert(h, node@)[a] by {
                    self.lemma_contains(a);
                    let j = choose|j: int| 0 <= j < self.nodes@.len() && self.nodes@[j].0 == a;
                    self.lemma_index(j);
                    old(self).lemma_index(j);
                }
                assert(self.ring() =~= old(self).ring().insert(h, node@));
            }
        } else {
            self.nodes.insert(i, (h, node));
            proof {
                assert(self.nodes@ =~= old_nodes.insert(i as int, (h, node)));
                assert forall|a: int, b: int| 0 <= a < b < self.nodes@.len() implies self.nodes@[a].0 < self.nodes@[b].0 by {
                    if a < i && b > i {
                        assert(old_nodes[a].0 < h);
                    }
                }
                assert forall|a: u32| #[trigger] self.ring().contains_key(a) <==> old(self).ring().insert(h, node@).contains_key(a) by {
                    if self.ring().contains_key(a) {
                        self.lemma_contains(a);
                        let j = choose|j: int| 0 <= j < self.nodes@.len() && self.nodes@[j].0 == a;
                        if j < i {
                            old(self).lemma_index(j);
                        } else if j > i {
                            old(self).lemma_index(j - 1);
                        }
                    }
                    if old(self).ring().contains_key(a) {
                        old(self).lemma_contains(a);
                        let j = choose|j: int| 0 <= j < old_nodes.len() && old_nodes[j].0 == a;
                        if j < i {
                            self.lemma_index(j);
                        } else {
                            self.lemma_index(j + 1);
                        }
                    }
                    if a == h {
                        self.lemma_index(i as int);
                    }
                }
                assert forall|a: u32| #[trigger] self.ring().contains_key(a) implies self.ring()[a] == old(self).ring().insert(h, node@)[a] by {
                    self.lemma_contains(a);
                    let j = choose|j: int| 0 <= j < self.nodes@.len() && self.nodes@[j].0 == a;
                    self.lemma_index(j);
                    if j < i {
                        old(self).lemma_index(j);
                    } else if j > i {
                        old(self).lemma_index(j - 1);
                    }
                }
                assert(self.ring() =~= old(self).ring().insert(h, node@));
            }
        }
    }

    /// Removes a position from the ring.
    fn unplace(&mut self, h: u32)
        requires
            old(self).wf(),
        ensures
            final(self).wf(),
            final(self).virtual_nodes == old(self).virtual_nodes,
            final(self).ring() == old(self).ring().remove(h),
    {
        let i = self.lower_bound(h);
        let ghost old_nodes = self.nodes@;
        if i < self.nodes.len() && self.nodes[i].0 == h {
            let _ = self.nodes.remove(i);
            proof {
                assert(self.nodes@ =~= old_nodes.remove(i as int));
                assert forall|a: int, b: int| 0 <= a < b < self.nodes@.len() implies self.nodes@[a].0 < self.nodes@[b].0 by {
                    let a2 = if a < i { a } else { a + 1 };
                    let b2 = if b < i { b } else { b + 1 };
                    assert(old_nodes[a2].0 < old_nodes[b2].0);
                }
                assert forall|a: u32| #[trigger] self.ring().contains_key(a) <==> old(self).ring().remove(h).contains_key(a) by {
                    if self.ring().contains_key(a) {
                        self.lemma_contains(a);
                        let j = choose|j: int| 0 <= j < self.nodes@.len() && self.nodes@[j].0 == a;
                        let j2 = if j < i { j } else { j + 1 };
                        old(self).lemma_index(j2);
                        old(self).lemma_index(i as int);
                    }
                    if old(self).ring().contains_key(a) && a != h {
                        old(self).lemma_contains(a);
                        let j = choose|j: int| 0 <= j < old_nodes.len() && old_nodes[j].0 == a;
                        if j < i {
                            self.lemma_index(j);
                        } else {
                            assert(j != i);
                            self.lemma_index(j - 1);
                        }
                    }
                }
                assert forall|a: u32| #[trigger] self.ring().contains_key(a) implies self.ring()[a] == old(self).ring().remove(h)[a] by {
                    self.lemma_contains(a);
                    let j = choose|j: int| 0 <= j < self.nodes@.len() && self.nodes@[j].0 == a;
                    self.lemma_index(j);
                    let j2 = if j < i { j } else { j + 1 };
                    old(self).lemma_index(j2);
                }
                assert(self.ring() =~= old(self).ring().remove(h));
            }
        } else {
            proof {
                assert(!old(self).ring().contains_key(h)) by {
                    if old(self).ring().contains_key(h) {
                        old(self).lemma_contains(h);
                        let j = choose|j: int| 0 <= j < old_nodes.len() && old_nodes[j].0 == h;
                        if j < i {
                        } else if j > i {
                            assert(old_nodes[i as int].0 < old_nodes[j].0);
                        }
                    }
                }
                assert(self.ring() =~= old(self).ring().remove(h));
            }
        }
    }

    /// The owner at a position, if the position is occupied.
    fn owner_at(&self, h: u32) -> (r: Option<&String>)
        requires
            self.wf(),
        ensures
            match r {
                Some(n) => self.ring().contains_key(h) && n@ == self.ring()[h],
                None => !self.ring().contains_key(h),
            },
    {
        let i = self.lower_bound(h);
        if i < self.nodes.len() && self.nodes[i].0 == h {
            proof {
                self.lemma_index(i as int);
            }
            Some(&self.nodes[i].1)
        } else {
            proof {
                if self.ring().contains_key(h) {
                    self.lemma_contains(h);
                    let j = choose|j: int| 0 <= j < self.nodes@.len() && self.nodes@[j].0 == h;
                    if j > i {
                        assert(self.nodes@[i as int].0 < self.nodes@[j].0);
                    }
                }
            }
            None
        }
    }

    /// Places the node's virtual nodes on the ring, each at the hash of
    /// `"{node_id}:{i}"`; a position already taken changes owner.
    pub fn add_node(&mut self, node_id: String) -> (r: Result<(), ShardError>)
        requires
            old(self).wf(),
        ensures
            final(self).wf(),
            r is Ok,
            final(self).replicas() == old(self).replicas(),
            final(self).ring() == place_virtual(old(self).ring(), node_id@, old(self).replicas()),
            ring_placed(old(self).ring(), old(self).replicas()) ==> ring_placed(final(self).ring(), final(self).replicas()),
    {
        proof {
            if ring_placed(old(self).ring(), old(self).replicas()) {
                lemma_place_keeps_placed(old(self).ring(), node_id@, old(self).replicas(), old(self).replicas());
            }
        }
        let mut i: u32 = 0;
        while i < self.virtual_nodes
            invariant
                self.wf(),
                self.virtual_nodes == old(self).virtual_nodes,
                i <= self.virtual_nodes,
                self.ring() == place_virtual(old(self).ring(), node_id@, i as nat),
            decreases self.virtual_nodes - i,
        {
            let key = virtual_key_bytes(node_id.as_str(), i);
            let hash = hash_bytes(key.as_slice());
            self.place(hash, node_id.clone());
            i += 1;
        }
        Ok(())
    }

    /// Removes the node's virtual nodes (the positions among its own hashes
    /// that it still owns).
    pub fn remove_node(&mut self, node_id: &str) -> (r: Result<(), ShardError>)
        requires
            old(self).wf(),
        ensures
            final(self).wf(),
            r is Ok,
            final(self).replicas() == old(self).replicas(),
            final(self).ring() == unplace_virtual(old(self).ring(), node_id@, old(self).replicas()),
            ring_placed(old(self).ring(), old(self).replicas()) ==> ring_placed(final(self).ring(), final(self).replicas())
                && forall|k: u32| #[trigger] final(self).ring().contains_key(k) ==> final(self).ring()[k] != node_id@,
    {
        proof {
            if ring_placed(old(self).ring(), old(self).replicas()) {
                lemma_unplace_removes_node(old(self).ring(), node_id@, old(self).replicas());
            }
        }
        let mut to_remove: Vec<u32> = Vec::new();
        let mut i: u32 = 0;
        while i < self.virtual_nodes
            invariant
                self.wf(),
                self.ring() == old(self).ring(),
                self.virtual_nodes == old(self).virtual_nodes,
                i <= self.virtual_nodes,
                forall|k: int| 0 <= k < to_remove@.len() ==> {
                    &&& old(self).ring().contains_key(#[trigger] to_remove@[k])
                    &&& old(self).ring()[to_remove@[k]] == node_id@
                    &&& exists|j: nat| j < self.virtual_nodes && virtual_hash(node_id@, j) == to_remove@[k]
                },
                forall|j: nat| j < i ==> (old(self).ring().contains_key(virtual_hash(node_id@, j)) && old(
                    self,
                ).ring()[virtual_hash(node_id@, j)] == node_id@) ==> to_remove@.contains(#[trigger] virtual_hash(node_id@, j)),
            decreases self.virtual_nodes - i,
        {
            let ghost tr0 = to_remove@;
            let key = virtual_key_bytes(node_id, i);
            let hash = hash_bytes(key.as_slice());
            let owned_here = match self.owner_at(hash) {
                Some(n) => str_eq(n.as_str(), node_id),
                None => false,
            };
            if owned_here {
                to_remove.push(hash);
                proof {
                    assert(to_remove@[to_remove@.len() - 1] == hash);
                    assert(virtual_hash(node_id@, i as nat) == hash);
                    assert forall|k: int| 0 <= k < to_remove@.len() implies {
                        &&& old(self).ring().contains_key(#[trigger] to_remove@[k])
                        &&& old(self).ring()[to_remove@[k]] == node_id@
                        &&& exists|j: nat| j < self.virtual_nodes && virtual_hash(node_id@, j) == to_remove@[k]
                    } by {
                        if k < tr0.len() {
                            assert(to_remove@[k] == tr0[k]);
                        } else {
                            assert(virtual_hash(node_id@, i as nat) == to_remove@[k]);
                        }
                    }
                }
            }
            proof {
                assert forall|j: nat| j < i + 1 implies (old(self).ring().contains_key(virtual_hash(node_id@, j)) && old(
                    self,
                ).ring()[virtual_hash(node_id@, j)] == node_id@) ==> to_remove@.contains(#[trigger] virtual_hash(node_id@, j)) by {
                    if j < i && old(self).ring().contains_key(virtual_hash(node_id@, j)) && old(self).ring()[virtual_hash(node_id@, j)] == node_id@ {
                        assert(tr0.contains(virtual_hash(node_id@, j)));
                        let w = choose|w: int| 0 <= w < tr0.len() && tr0[w] == virtual_hash(node_id@, j);
                        assert(to_remove@[w] == virtual_hash(node_id@, j));
                    }
                    if j == i && owned_here {
                        assert(to_remove@[to_remove@.len() - 1] == hash);
                    }
                }
            }
            i += 1;
        }
        let ghost base = old(self).ring();
        let ghost target = unplace_virtual(base, node_id@, self.virtual_nodes as nat);
        let mut k: usize = 0;
        while k < to_remove.len()
            invariant
                self.wf(),
                self.virtual_nodes == old(self).virtual_nodes,
                k <= to_remove@.len(),
                forall|w: int| 0 <= w < to_remove@.len() ==> {
                    &&& base.contains_key(#[trigger] to_remove@[w])
                    &&& base[to_remove@[w]] == node_id@
                    &&& exists|j: nat| j < self.virtual_nodes && virtual_hash(node_id@, j) == to_remove@[w]
                },
                forall|j: nat| j < self.virtual_nodes ==> (base.contains_key(virtual_hash(node_id@, j)) && base[virtual_hash(node_id@, j)] == node_id@)
                    ==> to_remove@.contains(#[trigger] virtual_hash(node_id@, j)),
                self.ring() == Map::new(
                    |h: u32| base.contains_key(h) && !(exists|w: int| 0 <= w < k && to_remove@[w] == h),
                    |h: u32| base[h],
                ),
            decreases to_remove@.len() - k,
        {
            let ghost before = self.ring();
            let h = to_remove[k];
            self.unplace(h);
            k += 1;
            proof {
                assert(self.ring() =~= Map::new(
                    |h2: u32| base.contains_key(h2) && !(exists|w: int| 0 <= w < k && to_remove@[w] == h2),
                    |h2: u32| base[h2],
                )) by {
                    assert forall|h2: u32| #[trigger] self.ring().contains_key(h2) <==> (base.contains_key(h2) && !(exists|w: int| 0 <= w < k && to_remove@[w] == h2)) by {
                        if exists|w: int| 0 <= w < k && to_remove@[w] == h2 {
                            let w = choose|w: int| 0 <= w < k && to_remove@[w] == h2;
                            if w < k - 1 {
                                assert(!before.contains_key(h2));
                            }
                        } else {
                            assert(to_remove@[k - 1] != h2);
                        }
                    }
                }
            }
        }
        proof {
            assert(self.ring() =~= target) by {
                assert forall|h2: u32| #[trigger] self.ring().contains_key(h2) <==> target.contains_key(h2) by {
                    if exists|w: int| 0 <= w < k && to_remove@[w] == h2 {
                        let w = choose|w: int| 0 <= w < k && to_remove@[w] == h2;
                        assert(base.contains_key(to_remove@[w]));
                    }
                    if base.contains_key(h2) && (exists|j: nat| j < self.virtual_nodes && virtual_hash(node_id@, j) == h2) && base[h2] == node_id@ {
                        let j = choose|j: nat| j < self.virtual_nodes && virtual_hash(node_id@, j) == h2;
                        assert(to_remove@.contains(virtual_hash(node_id@, j)));
                        let w = choose|w: int| 0 <= w < to_remove@.len() && to_remove@[w] == h2;
                        assert(0 <= w < k);
                    }
                }
            }
        }
        Ok(())
    }

    /// The node that serves a key: the owner of the first position at or after
    /// the key's hash, wrapping around to the first position; none on an empty
    /// ring.
    pub fn get_node(&self, key: &str) -> (r: Option<String>)
        requires
            self.wf(),
        ensures
            match r {
                None => self.ring().dom().is_empty(),
                Some(n) => exists|k: u32| #[trigger] serves(self.ring(), key_hash(key@), k) && self.ring()[k] == n@,
            },
    {
        if self.nodes.len() == 0 {
            proof {
                assert(self.ring().dom() =~= Set::<u32>::empty());
            }
            return None;
        }
        let hash = Self::hash_key(key);
        let i = self.lower_bound(hash);
        let idx: usize = if i < self.nodes.len() { i } else { 0 };
        proof {
            self.lemma_index(idx as int);
            let k = self.nodes@[idx as int].0;
            if i < self.nodes@.len() {
                assert forall|k2: u32| self.ring().contains_key(k2) && k2 >= hash implies k <= k2 by {
                    self.lemma_contains(k2);
                    let j = choose|j: int| 0 <= j < self.nodes@.len() && self.nodes@[j].0 == k2;
                    if j < i {
                    } else if j > i {
                        assert(self.nodes@[i as int].0 < self.nodes@[j].0);
                    }
                }
                assert(serves(self.ring(), hash, k));
            } else {
                assert(!exists|k2: u32| self.ring().contains_key(k2) && k2 >= hash) by {
                    if exists|k2: u32| self.ring().contains_key(k2) && k2 >= hash {
                        let k2 = choose|k2: u32| self.ring().contains_key(k2) && k2 >= hash;
                        self.lemma_contains(k2);
                    }
                }
                assert forall|k2: u32| self.ring().contains_key(k2) implies k <= k2 by {
                    self.lemma_contains(k2);
                    let j = choose|j: int| 0 <= j < self.nodes@.len() && self.nodes@[j].0 == k2;
                    if j > 0 {
                        assert(self.nodes@[0].0 < self.nodes@[j].0);
                    }
                }
                assert(serves(self.ring(), hash, k));
            }
        }
        Some(self.nodes[idx].1.clone())
    }

    /// The number of distinct nodes on the ring.
    pub fn get_node_count(&self) -> (n: usize)
        requires
            self.wf(),
        ensures
            n == ring_nodes(self.ring()).len(),
    {
        let mut seen: StrMap<bool> = StrMap::new();
        let mut i: usize = 0;
        while i < self.nodes.len()
            invariant
                i <= self.nodes@.len(),
                seen@.dom() == Set::new(|nm: Seq<char>| exists|j: int| 0 <= j < i && self.nodes@[j].1@ == nm),
            decreases self.nodes@.len() - i,
        {
            let ghost before = seen@;
            let _ = seen.insert(self.nodes[i].1.clone(), true);
            i += 1;
            proof {
                assert(seen@.dom() =~= Set::new(|nm: Seq<char>| exists|j: int| 0 <= j < i && self.nodes@[j].1@ == nm)) by {
                    assert forall|nm: Seq<char>| seen@.dom().contains(nm) <==> exists|j: int| 0 <= j < i && self.nodes@[j].1@ == nm by {
                        if exists|j: int| 0 <= j < i && self.nodes@[j].1@ == nm {
                            let j = choose|j: int| 0 <= j < i && self.nodes@[j].1@ == nm;
                            if j < i - 1 {
                                assert(before.dom().contains(nm));
                            }
                        }
                        if seen@.dom().contains(nm) && nm != self.nodes@[i - 1].1@ {
                            assert(before.dom().contains(nm));
                            let j = choose|j: int| 0 <= j < i - 1 && self.nodes@[j].1@ == nm;
                            assert(0 <= j < i);
                        }
                    }
                }
            }
        }
        proof {
            assert(seen@.dom() =~= ring_nodes(self.ring())) by {
                assert forall|nm: Seq<char>| seen@.dom().contains(nm) <==> ring_nodes(self.ring()).contains(nm) by {
                    if seen@.dom().contains(nm) {
                        let j = choose|j: int| 0 <= j < i && self.nodes@[j].1@ == nm;
                        self.lemma_index(j);
                        assert(self.ring().contains_key(self.nodes@[j].0));
                    }
                    if ring_nodes(self.ring()).contains(nm) {
                        let k = choose|k: u32| self.ring().contains_key(k) && self.ring()[k] == nm;
                        self.lemma_contains(k);
                        let j = choose|j: int| 0 <= j < self.nodes@.len() && self.nodes@[j].0 == k;
                        self.lemma_index(j);
                    }
                }
            }
        }
        seen.len()
    }
}

/// Errors of sharding operations.
#[derive(Debug, Clone, PartialEq, Eq)]
pub enum ShardError {
    /// A shard with this id already exists.
    ShardExists(u32),
    /// No shard has this id.
    ShardNotFound(u32),
    /// The hash ring has no node.
    NoNodeAvailable,
    /// No shard is placed on the node that the ring chose.
    NoShardForNode(String),
    /// A rebalance is already running.
    RebalanceInProgress,
    /// No rebalance is running.
    NoRebalanceInProgress,
}

/// The configuration of a shard: its primary node and its replicas.
#[derive(Debug, Clone)]
pub struct ShardConfig {
    pub shard_id: u32,
    pub node_id: String,
    pub primary: bool,
    pub replicas: Vec<String>,
}

impl ShardConfig {
    /// A primary shard on a node, without replicas.
    pub fn new(shard_id: u32, node_id: String) -> (c: Self)
        ensures
            c.shard_id == shard_id,
            c.node_id == node_id,
            c.primary,
            c.replicas@.len() == 0,
    {
        ShardConfig { shard_id, node_id, primary: true, replicas: Vec::new() }
    }

    /// Appends a replica node.
    pub fn add_replica(&mut self, node_id: String)
        ensures
            final(self).replicas@ == old(self).replicas@.push(node_id),
            final(self).shard_id == old(self).shard_id,
            final(self).node_id == old(self).node_id,
            final(self).primary == old(self).primary,
    {
        self.replicas.push(node_id);
    }

    /// The primary node followed by the replicas.
    pub fn get_all_nodes(&self) -> (r: Vec<String>)
        ensures
            str_views(r@) == seq![self.node_id@] + str_views(self.replicas@),
    {
        let mut nodes: Vec<String> = Vec::new();
        nodes.push(self.node_id.clone());
        let mut i: usize = 0;
        while i < self.replicas.len()
            invariant
                i <= self.replicas@.len(),
                nodes@.len() == i + 1,
                nodes@[0]@ == self.node_id@,
                forall|j: int| 0 <= j < i ==> #[trigger] nodes@[j + 1]@ == self.replicas@[j]@,
            decreases self.replicas@.len() - i,
        {
            nodes.push(self.replicas[i].clone());
            i += 1;
        }
        proof {
            assert(str_views(nodes@) =~= seq![self.node_id@] + str_views(self.replicas@)) by {
                assert forall|j: int| 0 <= j < nodes@.len() implies str_views(nodes@)[j] == (seq![self.node_id@] + str_views(self.replicas@))[j] by {
                    if j > 0 {
                        assert(nodes@[(j - 1) + 1]@ == self.replicas@[j - 1]@);
                    }
                }
            }
        }
        nodes
    }
}

/// A copy of a list of strings.
fn copy_string_vec(v: &Vec<String>) -> (r: Vec<String>)
    ensures
        str_views(r@) == str_views(v@),
{
    crate::storage::caching::copy_strings(v)
}

/// The shard ids of a sequence of shard configurations.
pub open spec fn shard_ids(s: Seq<ShardConfig>) -> Seq<u32> {
    s.map_values(|c: ShardConfig| c.shard_id)
}

/// The coordinator of the shards: their configurations by id, the strategy and
/// the hash ring that places keys on nodes.
#[derive(Debug)]
pub struct ShardManager {
    shards: Vec<ShardConfig>,
    strategy: ShardingStrategy,
    consistent_hash: ConsistentHashRing,
}

impl ShardManager {
    /// The shard configurations by id.
    pub closed spec fn shard_map(&self) -> Map<u32, ShardConfig> {
        Map::new(
            |id: u32| shard_ids(self.shards@).contains(id),
            |id: u32| self.shards@[shard_ids(self.shards@).index_of(id)],
        )
    }

    /// The sharding strategy.
    pub closed spec fn strat(&self) -> ShardingStrategy {
        self.strategy
    }

    /// The sharding strategy.
    pub fn strategy(&self) -> (s: ShardingStrategy)
        ensures
            s == self.strat(),
    {
        self.strategy
    }

    /// The hash ring.
    pub closed spec fn ring(&self) -> Map<u32, Seq<char>> {
        self.consistent_hash.ring()
    }

    /// The number of virtual nodes per node on the ring.
    pub closed spec fn replicas(&self) -> nat {
        self.consistent_hash.replicas()
    }

    /// Well formed: distinct shard ids and a well-formed ring whose positions
    /// are all virtual nodes of their owners.
    pub closed spec fn wf(&self) -> bool {
        &&& shard_ids(self.shards@).no_duplicates()
        &&& self.consistent_hash.wf()
        &&& ring_placed(self.ring(), self.replicas())
    }

    proof fn lemma_index(&self, i: int)
        requires
            self.wf(),
            0 <= i < self.shards@.len(),
        ensures
            shard_ids(self.shards@).index_of(self.shards@[i].shard_id) == i,
            self.shard_map().contains_key(self.shards@[i].shard_id),
            self.shard_map()[self.shards@[i].shard_id] == self.shards@[i],
    {
        assert(shard_ids(self.shards@)[i] == self.shards@[i].shard_id);
        assert(shard_ids(self.shards@).contains(self.shards@[i].shard_id));
    }

    proof fn lemma_len(&self)
        requires
            self.wf(),
        ensures
            self.shard_map().len() == self.shards@.len(),
            self.shard_map().dom().finite(),
    {
        assert(self.shard_map().dom() =~= shard_ids(self.shards@).to_set());
        shard_ids(self.shards@).unique_seq_to_set();
        vstd::seq_lib::seq_to_set_is_finite(shard_ids(self.shards@));
    }

    /// An empty manager.
    pub fn new(strategy: ShardingStrategy, virtual_nodes: u32) -> (m: Self)
        ensures
            m.wf(),
            m.strat() == strategy,
            m.replicas() == virtual_nodes,
            m.shard_map() == Map::<u32, ShardConfig>::empty(),
            m.ring() == Map::<u32, Seq<char>>::empty(),
            ring_placed(m.ring(), m.replicas()),
    {
        let m = ShardManager { shards: Vec::new(), strategy, consistent_hash: ConsistentHashRing::new(virtual_nodes) };
        proof {
            assert(m.shard_map() =~= Map::<u32, ShardConfig>::empty());
        }
        m
    }

    fn find(&self, shard_id: u32) -> (r: Option<usize>)
        requires
            self.wf(),
        ensures
            match r {
                Some(i) => i < self.shards@.len() && self.shards@[i as int].shard_id == shard_id,
                None => !self.shard_map().contains_key(shard_id),
            },
    {
        let mut i: usize = 0;
        while i < self.shards.len()
            invariant
                i <= self.shards@.len(),
                forall|j: int| 0 <= j < i ==> self.shards@[j].shard_id != shard_id,
            decreases self.shards@.len() - i,
        {
            if self.shards[i].shard_id == shard_id {
                return Some(i);
            }
            i += 1;
        }
        proof {
            if shard_ids(self.shards@).contains(shard_id) {
                let j = choose|j: int| 0 <= j < self.shards@.len() && shard_ids(self.shards@)[j] == shard_id;
                assert(self.shards@[j].shard_id == shard_id);
            }
        }
        None
    }

    /// Adds a shard and places its node on the ring; refused when the id is
    /// taken.
    pub fn add_shard(&mut self, shard_config: ShardConfig) -> (r: Result<(), ShardError>)
        requires
            old(self).wf(),
        ensures
            final(self).wf(),
            final(self).strat() == old(self).strat(),
            final(self).replicas() == old(self).replicas(),
            r is Err <==> old(self).shard_map().contains_key(shard_config.shard_id),
            r is Err ==> r == Err::<(), ShardError>(ShardError::ShardExists(shard_config.shard_id))
                && final(self).shard_map() == old(self).shard_map() && final(self).ring() == old(self).ring(),
            r is Ok ==> final(self).shard_map() == old(self).shard_map().insert(shard_config.shard_id, shard_config)
                && final(self).ring() == place_virtual(old(self).ring(), shard_config.node_id@, old(self).replicas()),
            r is Ok ==> final(self).shard_map().len() == old(self).shard_map().len() + 1,
            final(self).shard_map().dom().finite(),
            ring_placed(final(self).ring(), final(self).replicas()),
    {
        proof {
            self.lemma_len();
        }
        let id = shard_config.shard_id;
        match self.find(id) {
            Some(i) => {
                proof {
                    self.lemma_index(i as int);
                }
                return Err(ShardError::ShardExists(id));
            },
            None => {},
        }
        let _ = self.consistent_hash.add_node(shard_config.node_id.clone());
        proof {
            lemma_place_keeps_placed(old(self).ring(), shard_config.node_id@, old(self).replicas(), old(self).replicas());
        }
        let ghost old_shards = self.shards@;
        let ghost cfg = shard_config;
        self.shards.push(shard_config);
        proof {
            assert(shard_ids(self.shards@) =~= shard_ids(old_shards).push(id));
            assert(!shard_ids(old_shards).contains(id));
            assert forall|x: u32| #[trigger] self.shard_map().contains_key(x) <==> old(self).shard_map().insert(id, cfg).contains_key(x) by {
                if x != id && old(self).shard_map().contains_key(x) {
                    let j = shard_ids(old_shards).index_of(x);
                    assert(shard_ids(old_shards).contains(x));
                    assert(shard_ids(self.shards@)[j] == x);
                }
                if x == id {
                    assert(shard_ids(self.shards@)[old_shards.len() as int] == x);
                }
            }
            assert forall|x: u32| #[trigger] self.shard_map().contains_key(x) implies self.shard_map()[x] == old(self).shard_map().insert(id, cfg)[x] by {
                let j = shard_ids(self.shards@).index_of(x);
                assert(shard_ids(self.shards@).contains(x));
                self.lemma_index(j);
                if j < old_shards.len() {
                    old(self).lemma_index(j);
                }
            }
            assert(self.shard_map() =~= old(self).shard_map().insert(id, cfg));
            self.lemma_len();
        }
        Ok(())
    }

    /// Removes a shard and takes its node's virtual nodes off the ring.
    pub fn remove_shard(&mut self, shard_id: u32) -> (r: Result<(), ShardError>)
        requires
            old(self).wf(),
        ensures
            final(self).wf(),
            final(self).strat() == old(self).strat(),
            final(self).replicas() == old(self).replicas(),
            r is Err <==> !old(self).shard_map().contains_key(shard_id),
            r is Err ==> r == Err::<(), ShardError>(ShardError::ShardNotFound(shard_id))
                && final(self).shard_map() == old(self).shard_map() && final(self).ring() == old(self).ring(),
            r is Ok ==> final(self).shard_map() == old(self).shard_map().remove(shard_id)
                && final(self).ring() == unplace_virtual(old(self).ring(), old(self).shard_map()[shard_id].node_id@, old(self).replicas()),
            r is Ok ==> final(self).shard_map().len() == old(self).shard_map().len() - 1,
            r is Ok ==> forall|k: u32| #[trigger] final(self).ring().contains_key(k) ==> final(self).ring()[k]
                != old(self).shard_map()[shard_id].node_id@,
            final(self).shard_map().dom().finite(),
            ring_placed(final(self).ring(), final(self).replicas()),
    {
        proof {
            self.lemma_len();
        }
        match self.find(shard_id) {
            None => Err(ShardError::ShardNotFound(shard_id)),
            Some(i) => {
                proof {
                    self.lemma_index(i as int);
                }
                let ghost old_shards = self.shards@;
                let shard = self.shards.remove(i);
                proof {
                    let ids = shard_ids(self.shards@);
                    assert(ids =~= shard_ids(old_shards).remove(i as int));
                    assert(ids.no_duplicates()) by {
                        assert forall|a: int, b: int| 0 <= a < ids.len() && 0 <= b < ids.len() && a != b implies ids[a] != ids[b] by {
                            let a2 = if a < i { a } else { a + 1 };
                            let b2 = if b < i { b } else { b + 1 };
                            assert(ids[a] == shard_ids(old_shards)[a2]);
                            assert(ids[b] == shard_ids(old_shards)[b2]);
                        }
                    }
                    assert forall|x: u32| #[trigger] self.shard_map().contains_key(x) <==> old(self).shard_map().remove(shard_id).contains_key(x) by {
                        if self.shard_map().contains_key(x) {
                            let j = ids.index_of(x);
                            assert(ids.contains(x));
                            let j2 = if j < i { j } else { j + 1 };
                            assert(shard_ids(old_shards)[j2] == x);
                            assert(shard_ids(old_shards).contains(x));
                            assert(x != shard_id);
                        }
                        if old(self).shard_map().contains_key(x) && x != shard_id {
                            let j = shard_ids(old_shards).index_of(x);
                            assert(shard_ids(old_shards).contains(x));
                            if j < i {
                                assert(ids[j] == x);
                            } else {
                                assert(j != i);
                                assert(ids[j - 1] == x);
                            }
                        }
                    }
                    assert forall|x: u32| #[trigger] self.shard_map().contains_key(x) implies self.shard_map()[x] == old(self).shard_map().remove(shard_id)[x] by {
                        let j = ids.index_of(x);
                        assert(ids.contains(x));
                        self.lemma_index(j);
                        let j2 = if j < i { j } else { j + 1 };
                        old(self).lemma_index(j2);
                    }
                    assert(self.shard_map() =~= old(self).shard_map().remove(shard_id));
                }
                let _ = self.consistent_hash.remove_node(shard.node_id.as_str());
                proof {
                    lemma_unplace_removes_node(old(self).ring(), shard.node_id@, old(self).replicas());
                    self.lemma_len();
                }
                Ok(())
            },
        }
    }

    /// The shard whose node the ring chooses for a key. Any shard on that node
    /// may be returned when several share it.
    pub fn get_shard_for_key(&self, key: &str) -> (r: Result<u32, ShardError>)
        requires
            self.wf(),
        ensures
            self.ring().dom().is_empty() <==> r == Err::<u32, ShardError>(ShardError::NoNodeAvailable),
            r matches Ok(id) ==> self.shard_map().contains_key(id) && exists|k: u32| #[trigger] serves(self.ring(), key_hash(key@), k)
                && self.ring()[k] == self.shard_map()[id].node_id@,
            r matches Err(ShardError::NoShardForNode(n)) ==> (exists|k: u32| #[trigger] serves(self.ring(), key_hash(key@), k)
                && self.ring()[k] == n@) && forall|id: u32| #[trigger] self.shard_map().contains_key(id) ==> self.shard_map()[id].node_id@ != n@,
            r is Ok || r == Err::<u32, ShardError>(ShardError::NoNodeAvailable) || r is Err && r->Err_0 is NoShardForNode,
    {
        let node_id = match self.consistent_hash.get_node(key) {
            Some(n) => n,
            None => {
                return Err(ShardError::NoNodeAvailable);
            },
        };
        let mut i: usize = 0;
        proof {
            let k = choose|k: u32| #[trigger] serves(self.ring(), key_hash(key@), k) && self.ring()[k] == node_id@;
            assert(self.ring().dom().contains(k));
        }
        while i < self.shards.len()
            invariant
                self.wf(),
                !self.ring().dom().is_empty(),
                exists|k: u32| #[trigger] serves(self.ring(), key_hash(key@), k) && self.ring()[k] == node_id@,
                i <= self.shards@.len(),
                forall|j: int| 0 <= j < i ==> self.shards@[j].node_id@ != node_id@,
            decreases self.shards@.len() - i,
        {
            if str_eq(self.shards[i].node_id.as_str(), node_id.as_str()) {
                proof {
                    self.lemma_index(i as int);
                }
                return Ok(self.shards[i].shard_id);
            }
            i += 1;
        }
        proof {
            assert forall|id: u32| #[trigger] self.shard_map().contains_key(id) implies self.shard_map()[id].node_id@ != node_id@ by {
                let j = shard_ids(self.shards@).index_of(id);
                assert(shard_ids(self.shards@).contains(id));
                self.lemma_index(j);
            }
            if self.ring().dom().is_empty() {
                let k = choose|k: u32| #[trigger] serves(self.ring(), key_hash(key@), k) && self.ring()[k] == node_id@;
                assert(self.ring().dom().contains(k));
            }
        }
        Err(ShardError::NoShardForNode(node_id))
    }

    /// The configuration of a shard.
    pub fn get_shard_config(&self, shard_id: u32) -> (r: Option<&ShardConfig>)
        requires
            self.wf(),
        ensures
            match r {
                Some(c) => self.shard_map().contains_key(shard_id) && *c == self.shard_map()[shard_id],
                None => !self.shard_map().contains_key(shard_id),
            },
    {
        match self.find(shard_id) {
            Some(i) => {
                proof {
                    self.lemma_index(i as int);
                }
                Some(&self.shards[i])
            },
            None => None,
        }
    }

    /// The number of shards.
    pub fn get_shard_count(&self) -> (n: usize)
        requires
            self.wf(),
        ensures
            n == self.shard_map().len(),
    {
        proof {
            self.lemma_len();
        }
        self.shards.len()
    }

    /// The replicas of a shard.
    pub fn get_replicas_for_shard(&self, shard_id: u32) -> (r: Result<Vec<String>, ShardError>)
        requires
            self.wf(),
        ensures
            r is Err <==> !self.shard_map().contains_key(shard_id),
            r is Err ==> r == Err::<Vec<String>, ShardError>(ShardError::ShardNotFound(shard_id)),
            r matches Ok(v) ==> str_views(v@) == str_views(self.shard_map()[shard_id].replicas@),
    {
        match self.get_shard_config(shard_id) {
            Some(c) => Ok(copy_string_vec(&c.replicas)),
            None => Err(ShardError::ShardNotFound(shard_id)),
        }
    }
}

/// The state of a rebalancing: whether one runs, and how many of its chunks
/// have moved.
#[derive(Debug, Clone)]
pub struct RebalanceCoordinator {
    pub rebalance_in_progress: bool,
    pub moved_chunks: u64,
    pub total_chunks: u64,
}

impl RebalanceCoordinator {
    /// No rebalance running.
    pub fn new() -> (c: Self)
        ensures
            !c.rebalance_in_progress,
            c.moved_chunks == 0,
            c.total_chunks == 0,
    {
        RebalanceCoordinator { rebalance_in_progress: false, moved_chunks: 0, total_chunks: 0 }
    }

    /// Starts a rebalance of `total_chunks` chunks; refused while one runs.
    pub fn start_rebalance(&mut self, total_chunks: u64) -> (r: Result<(), ShardError>)
        ensures
            r is Err <==> old(self).rebalance_in_progress,
            r is Err ==> r == Err::<(), ShardError>(ShardError::RebalanceInProgress) && *final(self) == *old(self),
            r is Ok ==> final(self).rebalance_in_progress && final(self).total_chunks == total_chunks
                && final(self).moved_chunks == 0,
    {
        if self.rebalance_in_progress {
            return Err(ShardError::RebalanceInProgress);
        }
        self.rebalance_in_progress = true;
        self.total_chunks = total_chunks;
        self.moved_chunks = 0;
        Ok(())
    }

    /// Counts one more moved chunk.
    pub fn mark_chunk_moved(&mut self)
        requires
            old(self).moved_chunks < u64::MAX,
        ensures
            final(self).moved_chunks == old(self).moved_chunks + 1,
            final(self).total_chunks == old(self).total_chunks,
            final(self).rebalance_in_progress == old(self).rebalance_in_progress,
    {
        self.moved_chunks += 1;
    }

    /// Ends the running rebalance; refused when none runs.
    pub fn complete_rebalance(&mut self) -> (r: Result<(), ShardError>)
        ensures
            r is Err <==> !old(self).rebalance_in_progress,
            r is Err ==> r == Err::<(), ShardError>(ShardError::NoRebalanceInProgress) && *final(self) == *old(self),
            r is Ok ==> !final(self).rebalance_in_progress && final(self).total_chunks == old(self).total_chunks
                && final(self).moved_chunks == old(self).moved_chunks,
    {
        if !self.rebalance_in_progress {
            return Err(ShardError::NoRebalanceInProgress);
        }
        self.rebalance_in_progress = false;
        Ok(())
    }
}

} // verus!
