//! Shard bookkeeping: which node owns which shard, and how shards are
//! handed out across nodes.
use vstd::prelude::*;
use std::hash::{Hash, Hasher};
use crate::assoc::{
    assoc_get, assoc_keys, assoc_values, keys_sorted, lemma_get_absent, lemma_get_at,
    lemma_sorted_insert_at, sorted_insert, assoc_remove, lemma_remove_step,
};
use crate::text::{
    decimal, decimal_padded, lex_lt, pad_zeros, str_eq, str_lt, string_of, views,
    lemma_lex_asymmetric,
};

verus! {

/// Identifier for a shard.
pub type ShardId = String;

/// A map from strings to strings kept in ascending key order, the order in
/// which a `BTreeMap<String, String>` lists its entries.
#[derive(Debug, PartialEq)]
pub struct StringMap {
    entries: Vec<(String, String)>,
}

impl StringMap {
    /// The entries as characters, in key order.
    pub closed spec fn spec_entries(&self) -> Seq<(Seq<char>, Seq<char>)> {
        self.entries@.map_values(|e: (String, String)| (e.0@, e.1@))
    }
}

impl View for StringMap {
    type V = Seq<(Seq<char>, Seq<char>)>;

    open spec fn view(&self) -> Seq<(Seq<char>, Seq<char>)> {
        self.spec_entries()
    }
}

impl Clone for StringMap {
    fn clone(&self) -> (r: Self)
        ensures
            r@ == self@,
    {
        let mut out: Vec<(String, String)> = Vec::new();
        let mut i: usize = 0;
        while i < self.entries.len()
            invariant
                i <= self.entries.len(),
                out@ == self.entries@.subrange(0, i as int),
            decreases self.entries.len() - i,
        {
            let k = self.entries[i].0.clone();
            let v = self.entries[i].1.clone();
            out.push((k, v));
            i = i + 1;
            assert(out@ =~= self.entries@.subrange(0, i as int));
        }
        assert(self.entries@.subrange(0, self.entries@.len() as int) =~= self.entries@);
        StringMap { entries: out }
    }
}

impl StringMap {
    /// An empty map.
    pub fn new() -> (r: Self)
        ensures
            r@ == Seq::<(Seq<char>, Seq<char>)>::empty(),
    {
        let r = StringMap { entries: Vec::new() };
        assert(r@ =~= Seq::<(Seq<char>, Seq<char>)>::empty());
        r
    }

    /// Number of entries.
    pub fn len(&self) -> (r: usize)
        ensures
            r == self@.len(),
    {
        self.entries.len()
    }

    /// Whether the map is empty.
    pub fn is_empty(&self) -> (r: bool)
        ensures
            r == (self@.len() == 0),
    {
        self.entries.len() == 0
    }

    /// Position of the first entry whose key is not below `key`.
    fn lower_bound(&self, key: &str) -> (i: usize)
        ensures
            i <= self@.len(),
            forall|j: int| 0 <= j < i ==> lex_lt(#[trigger] self@[j].0, key@),
            i < self@.len() ==> !lex_lt(self@[i as int].0, key@),
    {
        let mut i: usize = 0;
        while i < self.entries.len() && str_lt(self.entries[i].0.as_str(), key)
            invariant
                i <= self.entries.len(),
                self@.len() == self.entries@.len(),
                forall|j: int| 0 <= j < i ==> lex_lt(#[trigger] self@[j].0, key@),
            decreases self.entries.len() - i,
        {
            assert(self@[i as int].0 == self.entries@[i as int].0@);
            i = i + 1;
        }
        if i < self.entries.len() {
            assert(self@[i as int].0 == self.entries@[i as int].0@);
        }
        i
    }

    /// Position of the entry with key `key`, if there is one.
    fn find(&self, key: &str) -> (r: Option<usize>)
        ensures
            match r {
                Some(i) => i < self@.len() && self@[i as int].0 == key@ && forall|j: int|
                    0 <= j < i ==> #[trigger] self@[j].0 != key@,
                None => forall|j: int| 0 <= j < self@.len() ==> #[trigger] self@[j].0 != key@,
            },
    {
        let mut i: usize = 0;
        while i < self.entries.len()
            invariant
                i <= self.entries.len(),
                self@.len() == self.entries@.len(),
                forall|j: int| 0 <= j < i ==> #[trigger] self@[j].0 != key@,
            decreases self.entries.len() - i,
        {
            assert(self@[i as int].0 == self.entries@[i as int].0@);
            if str_eq(self.entries[i].0.as_str(), key) {
                return Some(i);
            }
            i = i + 1;
        }
        None
    }

    /// The value stored under `key`.
    pub fn get(&self, key: &str) -> (r: Option<&String>)
        ensures
            match r {
                Some(v) => assoc_get(self@, key@) == Some(v@),
                None => assoc_get(self@, key@) is None,
            },
    {
        match self.find(key) {
            Some(i) => {
                proof {
                    lemma_get_at(self@, key@, i as int);
                }
                Some(&self.entries[i].1)
            },
            None => {
                proof {
                    lemma_get_absent(self@, key@);
                }
                None
            },
        }
    }

    /// Whether `key` has an entry.
    pub fn contains_key(&self, key: &str) -> (r: bool)
        ensures
            r == (assoc_get(self@, key@) is Some),
    {
        self.get(key).is_some()
    }

    /// Sets the value of `key`, keeping the keys in ascending order.
    pub fn insert(&mut self, key: String, value: String)
        ensures
            final(self)@ == sorted_insert(old(self)@, key@, value@),
    {
        let i = self.lower_bound(key.as_str());
        proof {
            lemma_sorted_insert_at(old(self)@, key@, value@, i as int);
        }
        if i < self.entries.len() && str_eq(self.entries[i].0.as_str(), key.as_str()) {
            assert(self@[i as int].0 == self.entries@[i as int].0@);
            self.entries.set(i, (key, value));
            assert(self@ =~= old(self)@.update(i as int, (key@, value@)));
        } else {
            if i < self.entries.len() {
                assert(self@[i as int].0 == self.entries@[i as int].0@);
            }
            self.entries.insert(i, (key, value));
            assert(self@ =~= old(self)@.insert(i as int, (key@, value@)));
        }
    }

    /// Removes the entry of `key`, if any.
    pub fn remove(&mut self, key: &str)
        ensures
            final(self)@ == assoc_remove(old(self)@, key@),
    {
        let mut out: Vec<(String, String)> = Vec::new();
        let ghost s = self@;
        let n = self.entries.len();
        let mut i: usize = 0;
        while i < n
            invariant
                n == self.entries.len(),
                s == self@,
                s.len() == n,
                i <= n,
                out@.map_values(|e: (String, String)| (e.0@, e.1@)) == assoc_remove(
                    s.subrange(0, i as int),
                    key@,
                ),
            decreases n - i,
        {
            proof {
                lemma_remove_step(s, key@, i as int);
            }
            assert(s[i as int] == (self.entries@[i as int].0@, self.entries@[i as int].1@));
            if !str_eq(self.entries[i].0.as_str(), key) {
                let k = self.entries[i].0.clone();
                let v = self.entries[i].1.clone();
                let ghost before = out@;
                out.push((k, v));
                assert(out@.map_values(|e: (String, String)| (e.0@, e.1@)) =~= before.map_values(
                    |e: (String, String)| (e.0@, e.1@),
                ).push(s[i as int]));
            }
            i = i + 1;
        }
        assert(s.subrange(0, n as int) =~= s);
        self.entries = out;
    }

    /// The keys in ascending order.
    pub fn keys(&self) -> (r: Vec<String>)
        ensures
            views(r@) == assoc_keys(self@),
    {
        let mut out: Vec<String> = Vec::new();
        let mut i: usize = 0;
        while i < self.entries.len()
            invariant
                i <= self.entries.len(),
                views(out@) == assoc_keys(self@).subrange(0, i as int),
            decreases self.entries.len() - i,
        {
            assert(self@[i as int] == (self.entries@[i as int].0@, self.entries@[i as int].1@));
            let ghost before = out@;
            let item = self.entries[i].0.clone();
            out.push(item);
            assert(out@ == before.push(item));
            assert(views(out@) =~= views(before).push(item@));
            assert(assoc_keys(self@).subrange(0, i + 1) =~= assoc_keys(self@).subrange(0, i as int).push(
                assoc_keys(self@)[i as int],
            ));
            i = i + 1;
        }
        assert(assoc_keys(self@).subrange(0, i as int) =~= assoc_keys(self@));
        out
    }

    /// The values, in the order of their keys.
    pub fn values(&self) -> (r: Vec<String>)
        ensures
            views(r@) == assoc_values(self@),
    {
        let mut out: Vec<String> = Vec::new();
        let mut i: usize = 0;
        while i < self.entries.len()
            invariant
                i <= self.entries.len(),
                views(out@) == assoc_values(self@).subrange(0, i as int),
            decreases self.entries.len() - i,
        {
            assert(self@[i as int] == (self.entries@[i as int].0@, self.entries@[i as int].1@));
            let ghost before = out@;
            let item = self.entries[i].1.clone();
            out.push(item);
            assert(out@ == before.push(item));
            assert(views(out@) =~= views(before).push(item@));
            assert(assoc_values(self@).subrange(0, i + 1) =~= assoc_values(self@).subrange(0, i as int).push(
                assoc_values(self@)[i as int],
            ));
            i = i + 1;
        }
        assert(assoc_values(self@).subrange(0, i as int) =~= assoc_values(self@));
        out
    }

    /// Replaces the value of the `i`-th entry in key order.
    fn set_value_at(&mut self, i: usize, value: String)
        requires
            i < old(self)@.len(),
        ensures
            final(self)@ == old(self)@.update(i as int, (old(self)@[i as int].0, value@)),
    {
        let k = self.entries[i].0.clone();
        self.entries.set(i, (k, value));
        assert(self@ =~= old(self)@.update(i as int, (old(self)@[i as int].0, value@)));
    }
}

/// Mapping from shards to the nodes that own them.
#[derive(Debug, PartialEq)]
pub struct ShardMap {
    /// Number of virtual nodes per physical shard for consistent hashing.
    pub virtual_nodes: u32,
    /// Shard ID -> owning node ID (empty when the shard is not assigned).
    pub shard_to_node: StringMap,
}

/// The plain value of a shard map.
pub struct ShardMapView {
    pub virtual_nodes: u32,
    pub shard_to_node: Seq<(Seq<char>, Seq<char>)>,
}

impl View for ShardMap {
    type V = ShardMapView;

    open spec fn view(&self) -> ShardMapView {
        ShardMapView { virtual_nodes: self.virtual_nodes, shard_to_node: self.shard_to_node@ }
    }
}

impl Clone for ShardMap {
    fn clone(&self) -> (r: Self)
        ensures
            r@ == self@,
    {
        ShardMap { virtual_nodes: self.virtual_nodes, shard_to_node: self.shard_to_node.clone() }
    }
}

impl Default for ShardMap {
    fn default() -> (r: Self)
        ensures
            r@.virtual_nodes == 150,
            r@.shard_to_node.len() == 0,
    {
        ShardMap::new(150)
    }
}

impl ShardMap {
    /// A shard map with the given number of virtual nodes and no shards.
    pub fn new(virtual_nodes: u32) -> (r: Self)
        ensures
            r@.virtual_nodes == virtual_nodes,
            r@.shard_to_node.len() == 0,
    {
        ShardMap { virtual_nodes, shard_to_node: StringMap::new() }
    }

    /// Adds a shard, assigned to `node_id` or to no node (the empty name).
    pub fn add_shard(&mut self, shard_id: ShardId, node_id: Option<String>)
        ensures
            final(self)@.virtual_nodes == old(self)@.virtual_nodes,
            final(self)@.shard_to_node == sorted_insert(
                old(self)@.shard_to_node,
                shard_id@,
                match node_id {
                    Some(n) => n@,
                    None => Seq::<char>::empty(),
                },
            ),
    {
        let node = match node_id {
            Some(n) => n,
            None => String::new(),
        };
        self.shard_to_node.insert(shard_id, node);
    }

    /// Removes a shard.
    pub fn remove_shard(&mut self, shard_id: &ShardId)
        ensures
            final(self)@.virtual_nodes == old(self)@.virtual_nodes,
            final(self)@.shard_to_node == assoc_remove(old(self)@.shard_to_node, shard_id@),
    {
        self.shard_to_node.remove(shard_id.as_str());
    }

    /// The node assigned to a shard, if the shard exists and is assigned.
    pub fn node_for_shard(&self, shard_id: &ShardId) -> (r: Option<&String>)
        ensures
            match r {
                Some(n) => assoc_get(self@.shard_to_node, shard_id@) == Some(n@) && n@.len() > 0,
                None => match assoc_get(self@.shard_to_node, shard_id@) {
                    Some(n) => n.len() == 0,
                    None => true,
                },
            },
            match r {
                Some(n) => node_of(self@, shard_id@) == Some(n@),
                None => node_of(self@, shard_id@) is None,
            },
    {
        match self.shard_to_node.get(shard_id.as_str()) {
            Some(n) => {
                if n.as_str().is_empty() {
                    None
                } else {
                    Some(n)
                }
            },
            None => None,
        }
    }
}

/// The node a shard map assigns to `shard`: none for a missing shard or
/// one assigned to the empty name (see `ShardMap::node_for_shard`).
pub open spec fn node_of(m: ShardMapView, shard: Seq<char>) -> Option<Seq<char>> {
    match assoc_get(m.shard_to_node, shard) {
        Some(n) => if n.len() > 0 { Some(n) } else { None },
        None => None,
    }
}

/// A read after `add_shard`: the shard added reads as its node (none for
/// no node or the empty name), and every other shard reads as before.
pub proof fn lemma_node_after_add_shard(m: ShardMapView, shard: Seq<char>, node: Option<Seq<char>>, t: Seq<char>)
    ensures
        ({
            let name = match node {
                Some(n) => n,
                None => Seq::<char>::empty(),
            };
            let after = ShardMapView { shard_to_node: sorted_insert(m.shard_to_node, shard, name), ..m };
            node_of(after, t) == if t == shard {
                if name.len() > 0 { Some(name) } else { None }
            } else {
                node_of(m, t)
            }
        }),
{
    let name = match node {
        Some(n) => n,
        None => Seq::<char>::empty(),
    };
    crate::assoc::lemma_get_sorted_insert(m.shard_to_node, shard, name, t);
}

/// A read after `remove_shard`: the shard removed has no node, and every
/// other shard reads as before.
pub proof fn lemma_node_after_remove_shard(m: ShardMapView, shard: Seq<char>, t: Seq<char>)
    ensures
        node_of(ShardMapView { shard_to_node: assoc_remove(m.shard_to_node, shard), ..m }, t) == if t == shard {
            None
        } else {
            node_of(m, t)
        },
{
    crate::assoc::lemma_get_remove(m.shard_to_node, shard, t);
}

/// The name of the `i`-th shard: `shard-` and `i` zero-padded to four digits.
pub open spec fn shard_name(i: nat) -> Seq<char> {
    seq!['s', 'h', 'a', 'r', 'd', '-'] + pad_zeros(decimal(i), 4)
}

/// The node that round-robin allocation gives the `i`-th shard.
pub open spec fn round_robin(nodes: Seq<Seq<char>>, i: nat) -> Seq<char> {
    if nodes.len() == 0 {
        Seq::<char>::empty()
    } else {
        nodes[(i % nodes.len()) as int]
    }
}

/// The shard table after allocating shards `0..n` round robin over `nodes`.
pub open spec fn allocation(n: nat, nodes: Seq<Seq<char>>) -> Seq<(Seq<char>, Seq<char>)>
    decreases n,
{
    if n == 0 {
        Seq::empty()
    } else {
        sorted_insert(allocation((n - 1) as nat, nodes), shard_name((n - 1) as nat), round_robin(nodes, (n - 1) as nat))
    }
}

/// How many of `vals` equal `x`.
pub open spec fn count_eq(vals: Seq<Seq<char>>, x: Seq<char>) -> nat
    decreases vals.len(),
{
    if vals.len() == 0 {
        0
    } else {
        count_eq(vals.drop_last(), x) + if vals.last() == x { 1nat } else { 0nat }
    }
}

/// The values after reassignment: the `j`-th occurrence of `failed` (from 0)
/// becomes `healthy[j % healthy.len()]`; other values stay.
pub open spec fn reassigned(
    vals: Seq<Seq<char>>,
    failed: Seq<char>,
    healthy: Seq<Seq<char>>,
) -> Seq<Seq<char>> {
    Seq::new(
        vals.len(),
        |j: int|
            if vals[j] == failed {
                healthy[(count_eq(vals.subrange(0, j), failed) % healthy.len()) as int]
            } else {
                vals[j]
            },
    )
}

/// Hands shards to nodes.
pub struct ShardAllocator;

impl ShardAllocator {
    /// The name of shard `i`.
    fn shard_id(i: usize) -> (r: String)
        ensures
            r@ == shard_name(i as nat),
    {
        let mut v: Vec<char> = Vec::new();
        v.push('s');
        v.push('h');
        v.push('a');
        v.push('r');
        v.push('d');
        v.push('-');
        let digits = decimal_padded(i as u64, 4);
        let mut k: usize = 0;
        while k < digits.len()
            invariant
                k <= digits.len(),
                v@ == seq!['s', 'h', 'a', 'r', 'd', '-'] + digits@.subrange(0, k as int),
            decreases digits.len() - k,
        {
            v.push(digits[k]);
            k = k + 1;
            assert(v@ =~= seq!['s', 'h', 'a', 'r', 'd', '-'] + digits@.subrange(0, k as int));
        }
        assert(digits@.subrange(0, k as int) =~= digits@);
        string_of(v.as_slice())
    }

    /// Allocates `num_shards` shards across `node_ids` round robin; with no
    /// nodes every shard is left unassigned.
    pub fn allocate(num_shards: usize, node_ids: &[String]) -> (r: ShardMap)
        ensures
            r@.virtual_nodes == 150,
            r@.shard_to_node == allocation(num_shards as nat, views(node_ids@)),
    {
        let mut shard_map = ShardMap::new(150);
        let mut i: usize = 0;
        while i < num_shards
            invariant
                i <= num_shards,
                shard_map@.virtual_nodes == 150,
                shard_map@.shard_to_node == allocation(i as nat, views(node_ids@)),
            decreases num_shards - i,
        {
            let shard_id = Self::shard_id(i);
            let node = if node_ids.len() == 0 {
                String::new()
            } else {
                node_ids[i % node_ids.len()].clone()
            };
            assert(node@ == round_robin(views(node_ids@), i as nat));
            shard_map.add_shard(shard_id, Some(node));
            i = i + 1;
        }
        shard_map
    }

    /// Reassigns the shards of `failed_node` to `healthy_nodes` round robin,
    /// in shard order; nothing changes when there are no healthy nodes.
    pub fn reassign_failed_node(shard_map: &mut ShardMap, failed_node: &str, healthy_nodes: &[String])
        ensures
            final(shard_map)@.virtual_nodes == old(shard_map)@.virtual_nodes,
            assoc_keys(final(shard_map)@.shard_to_node) == assoc_keys(old(shard_map)@.shard_to_node),
            healthy_nodes@.len() == 0 ==> final(shard_map)@ == old(shard_map)@,
            healthy_nodes@.len() > 0 ==> assoc_values(final(shard_map)@.shard_to_node) == reassigned(
                assoc_values(old(shard_map)@.shard_to_node),
                failed_node@,
                views(healthy_nodes@),
            ),
    {
        if healthy_nodes.len() == 0 {
            return;
        }
        let ghost vals = assoc_values(old(shard_map)@.shard_to_node);
        let ghost target = reassigned(vals, failed_node@, views(healthy_nodes@));
        let n = shard_map.shard_to_node.len();
        assert(target.len() == n);
        let mut idx: usize = 0;
        let mut i: usize = 0;
        while i < n
            invariant
                n == shard_map@.shard_to_node.len(),
                n == vals.len(),
                target.len() == n,
                target == reassigned(vals, failed_node@, views(healthy_nodes@)),
                i <= n,
                healthy_nodes@.len() > 0,
                shard_map@.virtual_nodes == old(shard_map)@.virtual_nodes,
                assoc_keys(shard_map@.shard_to_node) == assoc_keys(old(shard_map)@.shard_to_node),
                idx == count_eq(vals.subrange(0, i as int), failed_node@),
                idx <= i,
                forall|j: int| 0 <= j < i ==> #[trigger] shard_map@.shard_to_node[j].1 == target[j],
                forall|j: int| i <= j < n ==> #[trigger] shard_map@.shard_to_node[j].1 == vals[j],
            decreases n - i,
        {
            let ghost before = shard_map@.shard_to_node;
            assert(vals.subrange(0, i + 1).drop_last() =~= vals.subrange(0, i as int));
            let cur = shard_map.shard_to_node.entries[i].1.clone();
            assert(cur@ == before[i as int].1);
            assert(vals[i as int] == before[i as int].1);
            if str_eq(cur.as_str(), failed_node) {
                let replacement = healthy_nodes[idx % healthy_nodes.len()].clone();
                assert(target[i as int] == replacement@);
                shard_map.shard_to_node.set_value_at(i, replacement);
                idx = idx + 1;
            } else {
                assert(target[i as int] == vals[i as int]);
            }
            proof {
                assert(assoc_keys(shard_map@.shard_to_node) =~= assoc_keys(before));
            }
            i = i + 1;
        }
        proof {
            assert(assoc_values(shard_map@.shard_to_node) =~= target);
        }
    }
}

/// After reassignment no shard is left with the failed node, provided the
/// failed node is not itself among the healthy ones.
pub proof fn lemma_reassign_clears_failed(
    vals: Seq<Seq<char>>,
    failed: Seq<char>,
    healthy: Seq<Seq<char>>,
)
    requires
        healthy.len() > 0,
        !healthy.contains(failed),
    ensures
        !reassigned(vals, failed, healthy).contains(failed),
{
    let r = reassigned(vals, failed, healthy);
    if r.contains(failed) {
        let j = choose|j: int| 0 <= j < r.len() && r[j] == failed;
        if vals[j] == failed {
            let h = (count_eq(vals.subrange(0, j), failed) % healthy.len()) as int;
            assert(healthy[h] == failed);
        }
    }
}

} // verus!

verus! {

/// The 64-bit hash that std's `DefaultHasher::new()` gives a string.
pub uninterp spec fn default_hash(key: Seq<char>) -> u64;

/// std `DefaultHasher::new()`, `str::hash` and `finish`: the string's
/// 64-bit hash.  The result is named (`default_hash`), not stated.
#[verifier::external_body]
fn sip_hash(key: &str) -> (r: u64)
    ensures
        r == default_hash(key@),
{
    let mut hasher = std::collections::hash_map::DefaultHasher::new();
    key.hash(&mut hasher);
    hasher.finish()
}

/// A 64-bit hash folded to 32 bits: its high half xor its low half.
pub open spec fn fold_hash(full: u64) -> u32 {
    ((full >> 32u64) ^ full) as u32
}

/// The position of a virtual node on the ring: `shard#v`.
pub open spec fn vnode_label(shard: Seq<char>, v: nat) -> Seq<char> {
    shard + seq!['#'] + decimal(v)
}

/// The first position of a ring (ascending hashes) whose hash is at least `h`.
pub open spec fn ring_seek(ring: Seq<(u32, Seq<char>)>, h: u32) -> int
    decreases ring.len(),
{
    if ring.len() == 0 {
        0
    } else if ring[0].0 >= h {
        0
    } else {
        1 + ring_seek(ring.drop_first(), h)
    }
}

/// A ring with the point `h` given to `shard`, replacing an equal point.
pub open spec fn ring_insert(ring: Seq<(u32, Seq<char>)>, h: u32, shard: Seq<char>) -> Seq<(u32, Seq<char>)> {
    let p = ring_seek(ring, h);
    if p < ring.len() && ring[p].0 == h {
        ring.update(p, (h, shard))
    } else {
        ring.insert(p, (h, shard))
    }
}

/// A ring with the first `n` virtual nodes of `shard` added.
pub open spec fn ring_add_shard(ring: Seq<(u32, Seq<char>)>, shard: Seq<char>, n: nat) -> Seq<(u32, Seq<char>)>
    decreases n,
{
    if n == 0 {
        ring
    } else {
        let r = ring_add_shard(ring, shard, (n - 1) as nat);
        ring_insert(r, fold_hash(default_hash(vnode_label(shard, (n - 1) as nat))), shard)
    }
}

/// The ring of the shards `keys`, each with `vn` virtual nodes, shards
/// added in order.
pub open spec fn ring_of(keys: Seq<Seq<char>>, vn: nat) -> Seq<(u32, Seq<char>)>
    decreases keys.len(),
{
    if keys.len() == 0 {
        Seq::empty()
    } else {
        ring_add_shard(ring_of(keys.drop_last(), vn), keys.last(), vn)
    }
}

/// The shard that the ring gives a hash: the first point at or after it,
/// wrapping round to the first point.
pub open spec fn ring_lookup(ring: Seq<(u32, Seq<char>)>, h: u32) -> Option<Seq<char>> {
    if ring.len() == 0 {
        None
    } else {
        let p = ring_seek(ring, h);
        if p < ring.len() {
            Some(ring[p].1)
        } else {
            Some(ring[0].1)
        }
    }
}

proof fn lemma_ring_seek(ring: Seq<(u32, Seq<char>)>, h: u32, i: int)
    requires
        0 <= i <= ring.len(),
        forall|j: int| 0 <= j < i ==> (#[trigger] ring[j]).0 < h,
        i == ring.len() || ring[i].0 >= h,
    ensures
        ring_seek(ring, h) == i,
    decreases i,
{
    if i > 0 {
        assert forall|j: int| 0 <= j < i - 1 implies (#[trigger] ring.drop_first()[j]).0 < h by {
            assert(ring.drop_first()[j] == ring[j + 1]);
        }
        lemma_ring_seek(ring.drop_first(), h, i - 1);
    }
}

/// The ring's view.
pub open spec fn ring_view(ring: Seq<(u32, String)>) -> Seq<(u32, Seq<char>)> {
    ring.map_values(|e: (u32, String)| (e.0, e.1@))
}

/// The position where the hash `h` is, or belongs (see `ring_seek`).
fn ring_pos(ring: &Vec<(u32, String)>, h: u32) -> (r: usize)
    ensures
        r == ring_seek(ring_view(ring@), h),
        r <= ring@.len(),
{
    let ghost rv = ring_view(ring@);
    let mut i: usize = 0;
    while i < ring.len() && ring[i].0 < h
        invariant
            i <= ring@.len(),
            rv == ring_view(ring@),
            forall|j: int| 0 <= j < i ==> (#[trigger] rv[j]).0 < h,
        decreases ring.len() - i,
    {
        assert(rv[i as int].0 == ring@[i as int].0);
        i = i + 1;
    }
    proof {
        if i < ring.len() {
            assert(rv[i as int].0 == ring@[i as int].0);
        }
        lemma_ring_seek(rv, h, i as int);
    }
    i
}

/// Gives the point `h` to `shard` (see `ring_insert`).
fn ring_put(ring: &mut Vec<(u32, String)>, h: u32, shard: String)
    ensures
        ring_view(final(ring)@) == ring_insert(ring_view(old(ring)@), h, shard@),
{
    let ghost rv = ring_view(ring@);
    let p = ring_pos(ring, h);
    let ghost sv = shard@;
    if p < ring.len() && ring[p].0 == h {
        assert(rv[p as int].0 == ring@[p as int].0);
        let _ = ring.remove(p);
        ring.insert(p, (h, shard));
        assert(ring_view(ring@) =~= rv.update(p as int, (h, sv)));
    } else {
        proof {
            if p < ring.len() {
                assert(rv[p as int].0 == ring@[p as int].0);
            }
        }
        ring.insert(p, (h, shard));
        assert(ring_view(ring@) =~= rv.insert(p as int, (h, sv)));
    }
}

/// Hashes a key to 32 bits: std's `DefaultHasher` hash of it, folded (see
/// `fold_hash`).
pub fn hash_key(key: &str) -> (r: u32)
    ensures
        r == fold_hash(default_hash(key@)),
{
    let full = sip_hash(key);
    ((full >> 32u64) ^ full) as u32
}

} // verus!

verus! {

/// A consistent-hashing router over one engine per shard.  Each shard has
/// `virtual_nodes` points on a ring of 32-bit hashes; a document goes to
/// the shard of the first point at or after the hash of its ID.
#[derive(Debug)]
pub struct ShardRouter {
    shard_map: ShardMap,
    ring: Vec<(u32, ShardId)>,
    base_dir: String,
    engines: Vec<(ShardId, crate::engine::Engine)>,
}

/// The plain value of a router: the shard map, the ring, the storage
/// directory, each shard's documents, and each shard's full-text index (in
/// the order of `engines`).
pub struct RouterView {
    pub shard_map: ShardMapView,
    pub ring: Seq<(u32, Seq<char>)>,
    pub base_dir: Seq<char>,
    pub engines: Seq<(Seq<char>, Seq<(Seq<char>, crate::document::Document)>)>,
    pub indexes: Seq<Seq<(Seq<char>, Seq<Seq<char>>)>>,
}

/// The full-text index of each shard's engine.
pub open spec fn indexes_view(e: Seq<(ShardId, crate::engine::Engine)>) -> Seq<Seq<(Seq<char>, Seq<Seq<char>>)>> {
    e.map_values(|x: (ShardId, crate::engine::Engine)| x.1.spec_index())
}

/// The documents of each shard's engine.
pub open spec fn engines_view(e: Seq<(ShardId, crate::engine::Engine)>) -> Seq<(Seq<char>, Seq<(Seq<char>, crate::document::Document)>)> {
    e.map_values(|x: (ShardId, crate::engine::Engine)| (x.0@, x.1.spec_docs()))
}

impl View for ShardRouter {
    type V = RouterView;

    closed spec fn view(&self) -> RouterView {
        RouterView {
            shard_map: self.shard_map@,
            ring: ring_view(self.ring@),
            base_dir: self.base_dir@,
            engines: engines_view(self.engines@),
            indexes: indexes_view(self.engines@),
        }
    }
}

/// The shard a document ID goes to.
pub open spec fn shard_of(rv: RouterView, id: Seq<char>) -> Option<Seq<char>> {
    ring_lookup(rv.ring, fold_hash(default_hash(id)))
}

/// Whether an engine entry belongs to `shard`.
pub open spec fn engine_of(shard: Seq<char>) -> spec_fn((Seq<char>, Seq<(Seq<char>, crate::document::Document)>)) -> bool {
    |e: (Seq<char>, Seq<(Seq<char>, crate::document::Document)>)| e.0 == shard
}

/// The total number of documents of the engines.
pub open spec fn total_count(e: Seq<(Seq<char>, Seq<(Seq<char>, crate::document::Document)>)>) -> int
    decreases e.len(),
{
    if e.len() == 0 {
        0
    } else {
        total_count(e.drop_last()) + e.last().1.len()
    }
}

impl ShardRouter {
    /// A router over the shards of `shard_map`, each with an empty engine;
    /// the ring holds `virtual_nodes` points per shard, shards in key order.
    pub fn new(shard_map: ShardMap, base_dir: &str) -> (r: Result<Self, crate::error::CassetteError>)
        ensures
            r is Ok,
            r->Ok_0@.shard_map == shard_map@,
            r->Ok_0@.base_dir == base_dir@,
            r->Ok_0@.ring == ring_of(assoc_keys(shard_map@.shard_to_node), shard_map@.virtual_nodes as nat),
            r->Ok_0@.engines.len() == shard_map@.shard_to_node.len(),
            forall|i: int|
                0 <= i < shard_map@.shard_to_node.len() ==> (#[trigger] r->Ok_0@.engines[i]).0
                    == shard_map@.shard_to_node[i].0 && r->Ok_0@.engines[i].1.len() == 0,
    {
        let keys = shard_map.shard_to_node.keys();
        let ghost kv = views(keys@);
        let vn = shard_map.virtual_nodes;
        let mut ring: Vec<(u32, ShardId)> = Vec::new();
        let mut engines: Vec<(ShardId, crate::engine::Engine)> = Vec::new();
        let mut i: usize = 0;
        assert(kv.subrange(0, 0) =~= Seq::<Seq<char>>::empty());
        assert(ring_view(ring@) =~= Seq::<(u32, Seq<char>)>::empty());
        while i < keys.len()
            invariant
                i <= keys@.len(),
                kv == views(keys@),
                kv == assoc_keys(shard_map@.shard_to_node),
                ring_view(ring@) == ring_of(kv.subrange(0, i as int), vn as nat),
                engines@.len() == i,
                forall|j: int| 0 <= j < i ==> (#[trigger] engines_view(engines@)[j]).0 == kv[j] && engines_view(engines@)[j].1.len() == 0,
            decreases keys.len() - i,
        {
            let ghost sub = kv.subrange(0, i + 1);
            assert(sub.drop_last() =~= kv.subrange(0, i as int));
            assert(sub.last() == keys@[i as int]@);
            let ghost base = ring_view(ring@);
            let mut v: u32 = 0;
            while v < vn
                invariant
                    v <= vn,
                    i < keys@.len(),
                    ring_view(ring@) == ring_add_shard(base, keys@[i as int]@, v as nat),
                decreases vn - v,
            {
                let mut label = crate::text::chars_of(keys[i].as_str());
                label.push('#');
                crate::text::push_decimal(&mut label, v as u64);
                let ls = string_of(label.as_slice());
                assert(ls@ =~= vnode_label(keys@[i as int]@, v as nat));
                let h = hash_key(ls.as_str());
                ring_put(&mut ring, h, keys[i].clone());
                v = v + 1;
            }
            let ghost ev = engines_view(engines@);
            engines.push((keys[i].clone(), crate::engine::Engine::new()));
            assert(forall|j: int| 0 <= j < i ==> #[trigger] engines_view(engines@)[j] == ev[j]);
            i = i + 1;
        }
        assert(kv.subrange(0, kv.len() as int) =~= kv);
        let r = ShardRouter { shard_map, ring, base_dir: base_dir.to_owned(), engines };
        assert(r@.engines == engines_view(r.engines@));
        Ok(r)
    }

    /// A router over the given shards, unassigned, with 150 virtual nodes
    /// each.
    pub fn with_shards(shards: Vec<ShardId>, base_dir: &str) -> (r: Result<Self, crate::error::CassetteError>)
        ensures
            r is Ok,
            r->Ok_0@.base_dir == base_dir@,
            r->Ok_0@.shard_map.virtual_nodes == 150,
    {
        let mut shard_map = ShardMap::default();
        let mut rest = shards;
        while rest.len() > 0
            invariant
                shard_map@.virtual_nodes == 150,
            decreases rest.len(),
        {
            let s = rest.remove(0);
            shard_map.add_shard(s, None);
        }
        Self::new(shard_map, base_dir)
    }

    /// The shard a document ID goes to (see `shard_of`).
    pub fn shard_for(&self, doc_id: &str) -> (r: Option<ShardId>)
        ensures
            crate::text::opt_view(r) == shard_of(self@, doc_id@),
    {
        if self.ring.len() == 0 {
            return None;
        }
        let h = hash_key(doc_id);
        let p = ring_pos(&self.ring, h);
        if p < self.ring.len() {
            Some(self.ring[p].1.clone())
        } else {
            Some(self.ring[0].1.clone())
        }
    }

    /// The engines, one per open shard.
    pub fn engines(&self) -> (r: &Vec<(ShardId, crate::engine::Engine)>)
        ensures
            engines_view(r@) == self@.engines,
    {
        &self.engines
    }

    /// The shard IDs, in key order.
    pub fn shard_ids(&self) -> (r: Vec<ShardId>)
        ensures
            views(r@) == assoc_keys(self@.shard_map.shard_to_node),
    {
        self.shard_map.shard_to_node.keys()
    }

    /// The position of the engine of `shard`.
    fn engine_pos(&self, shard: &str) -> (r: usize)
        ensures
            r == crate::seqs::position(self@.engines, engine_of(shard@)),
            r <= self.engines@.len(),
    {
        let ghost ev = self@.engines;
        let mut i: usize = 0;
        while i < self.engines.len()
            invariant
                i <= self.engines@.len(),
                ev == self@.engines,
                ev == engines_view(self.engines@),
                forall|j: int| 0 <= j < i ==> !engine_of(shard@)(#[trigger] ev[j]),
            decreases self.engines.len() - i,
        {
            assert(ev[i as int].0 == self.engines@[i as int].0@);
            if str_eq(self.engines[i].0.as_str(), shard) {
                proof {
                    crate::seqs::lemma_position(ev, engine_of(shard@), i as int);
                }
                return i;
            }
            i = i + 1;
        }
        proof {
            crate::seqs::lemma_position(ev, engine_of(shard@), i as int);
        }
        i
    }

    /// The total number of documents over the shards.
    pub fn doc_count(&self) -> (r: usize)
        requires
            total_count(self@.engines) <= usize::MAX,
        ensures
            r == total_count(self@.engines),
    {
        let ghost ev = self@.engines;
        let mut total: usize = 0;
        let mut i: usize = 0;
        while i < self.engines.len()
            invariant
                i <= self.engines@.len(),
                ev == self@.engines,
                ev == engines_view(self.engines@),
                total_count(ev) <= usize::MAX,
                total == total_count(ev.subrange(0, i as int)),
            decreases self.engines.len() - i,
        {
            assert(ev.subrange(0, i + 1).drop_last() =~= ev.subrange(0, i as int));
            proof {
                lemma_total_count_prefix(ev, i + 1);
            }
            total = total + self.engines[i].1.doc_count();
            i = i + 1;
        }
        assert(ev.subrange(0, ev.len() as int) =~= ev);
        total
    }
}

proof fn lemma_total_count_prefix(e: Seq<(Seq<char>, Seq<(Seq<char>, crate::document::Document)>)>, n: int)
    requires
        0 <= n <= e.len(),
    ensures
        total_count(e.subrange(0, n)) <= total_count(e),
    decreases e.len(),
{
    if n < e.len() {
        assert(e.drop_last().subrange(0, n) =~= e.subrange(0, n));
        lemma_total_count_prefix(e.drop_last(), n);
    } else {
        assert(e.subrange(0, n) =~= e);
    }
}

} // verus!

verus! {

/// The router with the documents of the engine at `i` replaced.
pub open spec fn with_engine(
    rv: RouterView,
    i: int,
    docs: Seq<(Seq<char>, crate::document::Document)>,
    index: Seq<(Seq<char>, Seq<Seq<char>>)>,
) -> RouterView {
    RouterView { engines: rv.engines.update(i, (rv.engines[i].0, docs)), indexes: rv.indexes.update(i, index), ..rv }
}

/// The error for a shard without an engine.
pub open spec fn not_open(shard: Seq<char>) -> Seq<char> {
    "shard "@ + shard + " not open"@
}

impl ShardRouter {
    /// Inserts into the engine of `shard` (see `Engine::insert`); an error
    /// when the shard has no engine.
    pub fn insert_into(&mut self, shard: &str, doc: crate::document::Document) -> (r: Result<String, crate::error::CassetteError>)
        ensures
            ({
                let i = crate::seqs::position(old(self)@.engines, engine_of(shard@));
                if i == old(self)@.engines.len() {
                    (r matches Err(crate::error::CassetteError::Shard(m)) && m@ == not_open(shard@)) && final(self)@ == old(self)@
                } else {
                    &&& r is Ok
                    &&& final(self)@ == with_engine(old(self)@, i, final(self)@.engines[i].1, final(self)@.indexes[i])
                    &&& crate::engine::docs_inserted(old(self)@.engines[i].1, final(self)@.engines[i].1, doc, r->Ok_0@)
                        &&& crate::engine::index_added(old(self)@.indexes[i], final(self)@.indexes[i], r->Ok_0@, doc.data)
                }
            }),
    {
        let ghost ev = self@.engines;
        let ghost xv = self@.indexes;
        let i = self.engine_pos(shard);
        if i == self.engines.len() {
            let mut m = crate::text::chars_of("shard ");
            crate::text::push_str(&mut m, shard);
            crate::text::push_str(&mut m, " not open");
            return Err(crate::error::CassetteError::Shard(string_of(m.as_slice())));
        }
        let (s, mut engine) = self.engines.remove(i);
        assert((s@, engine.spec_docs()) == ev[i as int]);
        assert(engine.spec_index() == xv[i as int]);
        let id = engine.insert(doc);
        let ghost nd = engine.spec_docs();
        let ghost ni = engine.spec_index();
        self.engines.insert(i, (s, engine));
        assert(engines_view(self.engines@) =~= ev.update(i as int, (ev[i as int].0, nd)));
        assert(indexes_view(self.engines@) =~= xv.update(i as int, ni));
        Ok(id)
    }

    /// Updates in the engine of `shard` (see `Engine::update`); an error
    /// when the shard has no engine.
    pub fn update_in(&mut self, shard: &str, id: &str, data: crate::json::JsonValue) -> (r: Result<(), crate::error::CassetteError>)
        ensures
            ({
                let i = crate::seqs::position(old(self)@.engines, engine_of(shard@));
                if i == old(self)@.engines.len() {
                    (r matches Err(crate::error::CassetteError::Shard(m)) && m@ == not_open(shard@)) && final(self)@ == old(self)@
                } else {
                    &&& final(self)@ == with_engine(old(self)@, i, final(self)@.engines[i].1, final(self)@.indexes[i])
                    &&& crate::engine::docs_updated(old(self)@.engines[i].1, final(self)@.engines[i].1, id@, data, r)
                        &&& crate::engine::index_after_update(
                            old(self)@.engines[i].1,
                            old(self)@.indexes[i],
                            final(self)@.indexes[i],
                            id@,
                            data,
                        )
                }
            }),
    {
        let ghost ev = self@.engines;
        let ghost xv = self@.indexes;
        let i = self.engine_pos(shard);
        if i == self.engines.len() {
            let mut m = crate::text::chars_of("shard ");
            crate::text::push_str(&mut m, shard);
            crate::text::push_str(&mut m, " not open");
            return Err(crate::error::CassetteError::Shard(string_of(m.as_slice())));
        }
        let (s, mut engine) = self.engines.remove(i);
        assert((s@, engine.spec_docs()) == ev[i as int]);
        assert(engine.spec_index() == xv[i as int]);
        let r = engine.update(id, data);
        let ghost nd = engine.spec_docs();
        let ghost ni = engine.spec_index();
        self.engines.insert(i, (s, engine));
        assert(engines_view(self.engines@) =~= ev.update(i as int, (ev[i as int].0, nd)));
        assert(indexes_view(self.engines@) =~= xv.update(i as int, ni));
        r
    }

    /// Deletes in the engine of `shard` (see `Engine::delete`); an error
    /// when the shard has no engine.
    pub fn delete_in(&mut self, shard: &str, id: &str) -> (r: Result<(), crate::error::CassetteError>)
        ensures
            ({
                let i = crate::seqs::position(old(self)@.engines, engine_of(shard@));
                if i == old(self)@.engines.len() {
                    (r matches Err(crate::error::CassetteError::Shard(m)) && m@ == not_open(shard@)) && final(self)@ == old(self)@
                } else {
                    &&& final(self)@ == with_engine(old(self)@, i, final(self)@.engines[i].1, final(self)@.indexes[i])
                    &&& crate::engine::docs_deleted(old(self)@.engines[i].1, final(self)@.engines[i].1, id@, r)
                        &&& crate::engine::index_after_delete(
                            old(self)@.engines[i].1,
                            old(self)@.indexes[i],
                            final(self)@.indexes[i],
                            id@,
                        )
                }
            }),
    {
        let ghost ev = self@.engines;
        let ghost xv = self@.indexes;
        let i = self.engine_pos(shard);
        if i == self.engines.len() {
            let mut m = crate::text::chars_of("shard ");
            crate::text::push_str(&mut m, shard);
            crate::text::push_str(&mut m, " not open");
            return Err(crate::error::CassetteError::Shard(string_of(m.as_slice())));
        }
        let (s, mut engine) = self.engines.remove(i);
        assert((s@, engine.spec_docs()) == ev[i as int]);
        assert(engine.spec_index() == xv[i as int]);
        let r = engine.delete(id);
        let ghost nd = engine.spec_docs();
        let ghost ni = engine.spec_index();
        self.engines.insert(i, (s, engine));
        assert(engines_view(self.engines@) =~= ev.update(i as int, (ev[i as int].0, nd)));
        assert(indexes_view(self.engines@) =~= xv.update(i as int, ni));
        r
    }

    /// Inserts a document into the shard of its ID (see `insert_into`); an
    /// error when there are no shards.
    pub fn insert(&mut self, doc: crate::document::Document) -> (r: Result<String, crate::error::CassetteError>)
        ensures
            match shard_of(old(self)@, doc.id@) {
                None => (r matches Err(crate::error::CassetteError::Shard(m)) && m@ == "no shards available"@) && final(self)@ == old(self)@,
                Some(s) => {
                    let i = crate::seqs::position(old(self)@.engines, engine_of(s));
                    if i == old(self)@.engines.len() {
                        (r matches Err(crate::error::CassetteError::Shard(m)) && m@ == not_open(s)) && final(self)@ == old(self)@
                    } else {
                        &&& r is Ok
                        &&& final(self)@ == with_engine(old(self)@, i, final(self)@.engines[i].1, final(self)@.indexes[i])
                        &&& crate::engine::docs_inserted(old(self)@.engines[i].1, final(self)@.engines[i].1, doc, r->Ok_0@)
                        &&& crate::engine::index_added(old(self)@.indexes[i], final(self)@.indexes[i], r->Ok_0@, doc.data)
                    }
                },
            },
    {
        match self.shard_for(doc.id.as_str()) {
            None => Err(crate::error::CassetteError::Shard("no shards available".to_owned())),
            Some(s) => self.insert_into(s.as_str(), doc),
        }
    }

    /// Updates a document in the shard of its ID.
    pub fn update(&mut self, id: &str, data: crate::json::JsonValue) -> (r: Result<(), crate::error::CassetteError>)
        ensures
            match shard_of(old(self)@, id@) {
                None => (r matches Err(crate::error::CassetteError::Shard(m)) && m@ == "no shards available"@) && final(self)@ == old(self)@,
                Some(s) => {
                    let i = crate::seqs::position(old(self)@.engines, engine_of(s));
                    if i == old(self)@.engines.len() {
                        (r matches Err(crate::error::CassetteError::Shard(m)) && m@ == not_open(s)) && final(self)@ == old(self)@
                    } else {
                        &&& final(self)@ == with_engine(old(self)@, i, final(self)@.engines[i].1, final(self)@.indexes[i])
                        &&& crate::engine::docs_updated(old(self)@.engines[i].1, final(self)@.engines[i].1, id@, data, r)
                        &&& crate::engine::index_after_update(
                            old(self)@.engines[i].1,
                            old(self)@.indexes[i],
                            final(self)@.indexes[i],
                            id@,
                            data,
                        )
                    }
                },
            },
    {
        match self.shard_for(id) {
            None => Err(crate::error::CassetteError::Shard("no shards available".to_owned())),
            Some(s) => self.update_in(s.as_str(), id, data),
        }
    }

    /// Deletes a document in the shard of its ID.
    pub fn delete(&mut self, id: &str) -> (r: Result<(), crate::error::CassetteError>)
        ensures
            match shard_of(old(self)@, id@) {
                None => (r matches Err(crate::error::CassetteError::Shard(m)) && m@ == "no shards available"@) && final(self)@ == old(self)@,
                Some(s) => {
                    let i = crate::seqs::position(old(self)@.engines, engine_of(s));
                    if i == old(self)@.engines.len() {
                        (r matches Err(crate::error::CassetteError::Shard(m)) && m@ == not_open(s)) && final(self)@ == old(self)@
                    } else {
                        &&& final(self)@ == with_engine(old(self)@, i, final(self)@.engines[i].1, final(self)@.indexes[i])
                        &&& crate::engine::docs_deleted(old(self)@.engines[i].1, final(self)@.engines[i].1, id@, r)
                        &&& crate::engine::index_after_delete(
                            old(self)@.engines[i].1,
                            old(self)@.indexes[i],
                            final(self)@.indexes[i],
                            id@,
                        )
                    }
                },
            },
    {
        match self.shard_for(id) {
            None => Err(crate::error::CassetteError::Shard("no shards available".to_owned())),
            Some(s) => self.delete_in(s.as_str(), id),
        }
    }

    /// A copy of the document `id` from the shard of its ID.
    pub fn get(&self, id: &str) -> (r: Option<crate::document::Document>)
        ensures
            match shard_of(self@, id@) {
                None => r is None,
                Some(s) => {
                    let i = crate::seqs::position(self@.engines, engine_of(s));
                    if i == self@.engines.len() {
                        r is None
                    } else {
                        match assoc_get(self@.engines[i].1, id@) {
                            Some(d) => r is Some && r->0@ == d@,
                            None => r is None,
                        }
                    }
                },
            },
    {
        let s = match self.shard_for(id) {
            None => return None,
            Some(s) => s,
        };
        let i = self.engine_pos(s.as_str());
        if i == self.engines.len() {
            return None;
        }
        assert(self@.engines[i as int].1 == self.engines@[i as int].1.spec_docs());
        match self.engines[i].1.get(id) {
            Some(d) => Some(d.copy()),
            None => None,
        }
    }
}

} // verus!

verus! {

/// Whether a document entry goes to the shard `target`.
pub open spec fn routed_to(rv: RouterView, target: Seq<char>) -> spec_fn((Seq<char>, crate::document::Document)) -> bool {
    |e: (Seq<char>, crate::document::Document)| shard_of(rv, e.0) == Some(target)
}

/// Whether a document entry stays out of the shard `target`.
pub open spec fn not_routed_to(rv: RouterView, target: Seq<char>) -> spec_fn((Seq<char>, crate::document::Document)) -> bool {
    |e: (Seq<char>, crate::document::Document)| shard_of(rv, e.0) != Some(target)
}

/// The documents of entries, in order.
pub open spec fn entry_docs(s: Seq<(Seq<char>, crate::document::Document)>) -> Seq<crate::document::Document> {
    s.map_values(|e: (Seq<char>, crate::document::Document)| e.1)
}

/// Whether every document has an ID.
pub open spec fn all_named(ds: Seq<crate::document::Document>) -> bool {
    forall|i: int| 0 <= i < ds.len() ==> (#[trigger] ds[i]).id@.len() > 0
}

/// The error for a source shard without an engine.
pub open spec fn no_source(shard: Seq<char>) -> Seq<char> {
    "source shard "@ + shard + " does not exist"@
}

/// Inserts documents one after another (see `insert_all`).
fn insert_docs(engine: &mut crate::engine::Engine, docs: Vec<crate::document::Document>)
    ensures
        all_named(docs@) ==> final(engine).spec_docs() == crate::engine::insert_all(old(engine).spec_docs(), docs@),
{
    let ghost all = docs@;
    let ghost start = engine.spec_docs();
    let mut rest = docs;
    let n = rest.len();
    let mut k: usize = 0;
    assert(rest@ =~= all.subrange(0, n as int));
    assert(all.subrange(0, 0) =~= Seq::<crate::document::Document>::empty());
    while k < n
        invariant
            k <= n,
            n == all.len(),
            rest@ == all.subrange(k as int, n as int),
            all_named(all) ==> engine.spec_docs() == crate::engine::insert_all(start, all.subrange(0, k as int)),
            start == old(engine).spec_docs(),
        decreases n - k,
    {
        let d = rest.remove(0);
        assert(d == all[k as int]);
        assert(rest@ =~= all.subrange(k + 1, n as int));
        let ghost before = engine.spec_docs();
        let ghost dd = d;
        let _ = engine.insert(d);
        proof {
            let sub = all.subrange(0, k + 1);
            assert(sub.drop_last() =~= all.subrange(0, k as int));
            assert(sub.last() == dd);
            if all_named(all) {
                assert(all[k as int].id@.len() > 0);
            }
        }
        k = k + 1;
    }
    assert(all.subrange(0, n as int) =~= all);
}

impl ShardRouter {
    /// The IDs of the documents of the engine at `si` that go to `target`.
    fn routed_ids(&self, si: usize, target: &str) -> (ids: Vec<String>)
        requires
            si < self@.engines.len(),
        ensures
            forall|x: Seq<char>| views(ids@).contains(x) ==> shard_of(self@, x) == Some(target@),
            forall|j: int|
                0 <= j < self@.engines[si as int].1.len() && routed_to(self@, target@)(#[trigger] self@.engines[si as int].1[j])
                    ==> views(ids@).contains(self@.engines[si as int].1[j].0),
    {
        let ghost docs = self@.engines[si as int].1;
        assert(docs == self.engines@[si as int].1.spec_docs());
        let all = self.engines[si].1.documents();
        let mut ids: Vec<String> = Vec::new();
        let mut k: usize = 0;
        while k < all.len()
            invariant
                k <= all@.len(),
                all@.len() == docs.len(),
                docs == self@.engines[si as int].1,
                forall|j: int| 0 <= j < all@.len() ==> (#[trigger] all@[j]).id@ == docs[j].0,
                forall|x: Seq<char>| views(ids@).contains(x) ==> shard_of(self@, x) == Some(target@),
                forall|j: int| 0 <= j < k && routed_to(self@, target@)(#[trigger] docs[j]) ==> views(ids@).contains(docs[j].0),
            decreases all.len() - k,
        {
            let ghost before = views(ids@);
            let routed = match self.shard_for(all[k].id.as_str()) {
                Some(s) => str_eq(s.as_str(), target),
                None => false,
            };
            if routed {
                ids.push(all[k].id.clone());
                assert(views(ids@) =~= before.push(docs[k as int].0));
                assert forall|x: Seq<char>| views(ids@).contains(x) implies shard_of(self@, x) == Some(target@) by {
                    if x != docs[k as int].0 {
                        assert(before.contains(x));
                    }
                }
                assert forall|j: int| 0 <= j < k + 1 && routed_to(self@, target@)(#[trigger] docs[j]) implies views(ids@).contains(docs[j].0) by {
                    if j < k {
                        assert(before.contains(docs[j].0));
                        let i = choose|i: int| 0 <= i < before.len() && before[i] == docs[j].0;
                        assert(views(ids@)[i] == before[i]);
                    } else {
                        assert(views(ids@)[before.len() as int] == docs[k as int].0);
                    }
                }
            }
            k = k + 1;
        }
        ids
    }

    /// Moves the documents of shard `source` whose IDs now go to shard
    /// `target` into the engine of `target`, opening an empty one for it
    /// when there is none; returns how many moved.  An error when `source`
    /// has no engine.
    pub fn rebalance(&mut self, source: &str, target: &str) -> (r: Result<usize, crate::error::CassetteError>)
        ensures
            ({
                let n = old(self)@.engines.len();
                let si = crate::seqs::position(old(self)@.engines, engine_of(source@));
                let ti = crate::seqs::position(old(self)@.engines, engine_of(target@));
                let docs = old(self)@.engines[si].1;
                let moving = crate::seqs::keep(docs, routed_to(old(self)@, target@));
                let staying = crate::seqs::keep(docs, not_routed_to(old(self)@, target@));
                if si == n {
                    (r matches Err(crate::error::CassetteError::Shard(m)) && m@ == no_source(source@)) && final(self)@ == old(self)@
                } else {
                    &&& r == Ok::<usize, crate::error::CassetteError>(moving.len() as usize)
                    &&& final(self)@.shard_map == old(self)@.shard_map
                    &&& final(self)@.ring == old(self)@.ring
                    &&& final(self)@.base_dir == old(self)@.base_dir
                    &&& source@ == target@ ==> {
                        &&& final(self)@.engines.len() == n
                        &&& forall|j: int| 0 <= j < n && j != si ==> #[trigger] final(self)@.engines[j] == old(self)@.engines[j]
                        &&& forall|j: int| 0 <= j < n && j != si ==> #[trigger] final(self)@.indexes[j] == old(self)@.indexes[j]
                        &&& final(self)@.engines[si].0 == old(self)@.engines[si].0
                        &&& all_named(entry_docs(moving)) ==> final(self)@.engines[si].1
                            == crate::engine::insert_all(staying, entry_docs(moving))
                    }
                    &&& source@ != target@ ==> {
                        &&& final(self)@.engines.len() == if ti == n { n + 1 } else { n }
                        &&& forall|j: int| 0 <= j < n && j != si && j != ti ==> #[trigger] final(self)@.engines[j] == old(self)@.engines[j]
                        &&& forall|j: int| 0 <= j < n && j != si && j != ti ==> #[trigger] final(self)@.indexes[j] == old(self)@.indexes[j]
                        &&& final(self)@.engines[si] == (old(self)@.engines[si].0, staying)
                        &&& final(self)@.engines[ti].0 == target@
                        &&& all_named(entry_docs(moving)) ==> final(self)@.engines[ti].1 == crate::engine::insert_all(
                            if ti == n { Seq::empty() } else { old(self)@.engines[ti].1 },
                            entry_docs(moving),
                        )
                    }
                }
            }),
    {
        let ghost rv = self@;
        let ghost ev = self@.engines;
        let ghost xv = self@.indexes;
        let si = self.engine_pos(source);
        proof {
            crate::seqs::lemma_position_bounds(ev, engine_of(source@));
        }
        if si == self.engines.len() {
            let mut m = crate::text::chars_of("source shard ");
            crate::text::push_str(&mut m, source);
            crate::text::push_str(&mut m, " does not exist");
            return Err(crate::error::CassetteError::Shard(string_of(m.as_slice())));
        }
        let ids = self.routed_ids(si, target);
        let ghost iv = views(ids@);
        let ghost docs = ev[si as int].1;
        proof {
            crate::seqs::lemma_keep_same(docs, crate::engine::id_in(iv), routed_to(rv, target@));
            crate::seqs::lemma_keep_same(docs, crate::engine::id_not_in(iv), not_routed_to(rv, target@));
        }
        let (sname, mut src) = self.engines.remove(si);
        assert((sname@, src.spec_docs()) == ev[si as int]);
        let taken = src.take_docs(&ids);
        let moved = taken.len();
        let ghost staying = src.spec_docs();
        proof {
            let mv = crate::seqs::keep(docs, routed_to(rv, target@));
            assert(crate::engine::doc_entries(taken@) == mv);
            assert(taken@ =~= entry_docs(mv));
        }
        if str_eq(source, target) {
            insert_docs(&mut src, taken);
            let ghost nd = src.spec_docs();
            let ghost ni = src.spec_index();
            self.engines.insert(si, (sname, src));
            assert(engines_view(self.engines@) =~= ev.update(si as int, (ev[si as int].0, nd)));
            assert(indexes_view(self.engines@) =~= xv.update(si as int, ni));
            return Ok(moved);
        }
        let ghost si_index = src.spec_index();
        self.engines.insert(si, (sname, src));
        assert(engines_view(self.engines@) =~= ev.update(si as int, (ev[si as int].0, staying)));
        assert(indexes_view(self.engines@) =~= xv.update(si as int, si_index));
        let ghost ev1 = engines_view(self.engines@);
        let ghost xv1 = indexes_view(self.engines@);
        proof {
            crate::seqs::lemma_position_bounds(ev, engine_of(target@));
            crate::seqs::lemma_position_bounds(ev1, engine_of(target@));
            let ti0 = crate::seqs::position(ev, engine_of(target@));
            let ti1 = crate::seqs::position(ev1, engine_of(target@));
            assert forall|j: int| 0 <= j < ev.len() implies engine_of(target@)(#[trigger] ev1[j]) == engine_of(target@)(ev[j]) by {
                if j == si {
                    assert(ev[si as int].0 == source@);
                }
            }
            if ti0 < ti1 {
                assert(engine_of(target@)(ev1[ti0]));
            } else if ti1 < ti0 {
                assert(engine_of(target@)(ev[ti1]));
            }
        }
        let mut ti = self.engine_pos(target);
        if ti == self.engines.len() {
            let fresh = crate::engine::Engine::new();
            assert(fresh.spec_docs() =~= Seq::<(Seq<char>, crate::document::Document)>::empty());
            let ghost fi = fresh.spec_index();
            self.engines.push((target.to_owned(), fresh));
            assert(engines_view(self.engines@) =~= ev1.push((target@, Seq::empty())));
            assert(indexes_view(self.engines@) =~= xv1.push(fi));
            ti = self.engines.len() - 1;
        }
        let ghost ev2 = engines_view(self.engines@);
        let ghost xv2 = indexes_view(self.engines@);
        let (tname, mut tgt) = self.engines.remove(ti);
        assert((tname@, tgt.spec_docs()) == ev2[ti as int]);
        insert_docs(&mut tgt, taken);
        let ghost td = tgt.spec_docs();
        let ghost tx = tgt.spec_index();
        self.engines.insert(ti, (tname, tgt));
        assert(engines_view(self.engines@) =~= ev2.update(ti as int, (ev2[ti as int].0, td)));
        assert(indexes_view(self.engines@) =~= xv2.update(ti as int, tx));
        Ok(moved)
    }
}

} // verus!

verus! {

/// Whether every point of a ring belongs to one of `names`.
pub open spec fn points_in(ring: Seq<(u32, Seq<char>)>, names: Seq<Seq<char>>) -> bool {
    forall|i: int| 0 <= i < ring.len() ==> names.contains(#[trigger] ring[i].1)
}

proof fn lemma_seek_bound(ring: Seq<(u32, Seq<char>)>, h: u32)
    ensures
        0 <= ring_seek(ring, h) <= ring.len(),
    decreases ring.len(),
{
    if ring.len() > 0 {
        lemma_seek_bound(ring.drop_first(), h);
    }
}

proof fn lemma_insert_points(ring: Seq<(u32, Seq<char>)>, h: u32, shard: Seq<char>, names: Seq<Seq<char>>)
    requires
        points_in(ring, names),
        names.contains(shard),
    ensures
        points_in(ring_insert(ring, h, shard), names),
        ring_insert(ring, h, shard).len() > 0,
{
    lemma_seek_bound(ring, h);
    let p = ring_seek(ring, h);
    let r = ring_insert(ring, h, shard);
    if p < ring.len() && ring[p].0 == h {
        assert forall|i: int| 0 <= i < r.len() implies names.contains(#[trigger] r[i].1) by {
            if i != p {
                assert(r[i] == ring[i]);
            }
        }
    } else {
        assert forall|i: int| 0 <= i < r.len() implies names.contains(#[trigger] r[i].1) by {
            if i < p {
                assert(r[i] == ring[i]);
            } else if i > p {
                assert(r[i] == ring[i - 1]);
            }
        }
    }
}

proof fn lemma_add_shard_points(ring: Seq<(u32, Seq<char>)>, shard: Seq<char>, n: nat, names: Seq<Seq<char>>)
    requires
        points_in(ring, names),
        names.contains(shard),
    ensures
        points_in(ring_add_shard(ring, shard, n), names),
        n > 0 ==> ring_add_shard(ring, shard, n).len() > 0,
    decreases n,
{
    if n > 0 {
        lemma_add_shard_points(ring, shard, (n - 1) as nat, names);
        let r = ring_add_shard(ring, shard, (n - 1) as nat);
        lemma_insert_points(r, fold_hash(default_hash(vnode_label(shard, (n - 1) as nat))), shard, names);
    }
}

proof fn lemma_ring_of_points(keys: Seq<Seq<char>>, vn: nat)
    ensures
        points_in(ring_of(keys, vn), keys),
        keys.len() > 0 && vn > 0 ==> ring_of(keys, vn).len() > 0,
    decreases keys.len(),
{
    if keys.len() > 0 {
        let pre = keys.drop_last();
        lemma_ring_of_points(pre, vn);
        let r = ring_of(pre, vn);
        assert forall|i: int| 0 <= i < r.len() implies keys.contains(#[trigger] r[i].1) by {
            let j = choose|j: int| 0 <= j < pre.len() && pre[j] == r[i].1;
            assert(keys[j] == pre[j]);
        }
        assert(keys[keys.len() - 1] == keys.last());
        lemma_add_shard_points(r, keys.last(), vn, keys);
    }
}

/// A ring built from some shards, with at least one virtual node each,
/// sends every hash to one of those shards.
pub proof fn lemma_routes_to_known_shard(keys: Seq<Seq<char>>, vn: nat, h: u32)
    requires
        keys.len() > 0,
        vn > 0,
    ensures
        ring_lookup(ring_of(keys, vn), h) matches Some(s) && keys.contains(s),
{
    lemma_ring_of_points(keys, vn);
    let ring = ring_of(keys, vn);
    lemma_seek_bound(ring, h);
    let p = ring_seek(ring, h);
    if p < ring.len() {
        assert(keys.contains(ring[p].1));
    } else {
        assert(keys.contains(ring[0].1));
    }
}

} // verus!
