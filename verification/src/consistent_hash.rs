//! Consistent hash ring with virtual nodes.
//!
//! Each physical node `name` owns `count` virtual nodes `name#vnode0`,
//! `name#vnode1`, ...; the ring is the list of `(hash, virtual node)` pairs in
//! ascending hash order. A key is served by the first virtual node clockwise
//! from its hash.
use vstd::prelude::*;

use crate::hashing::{xxh3_64, xxh3_64_spec};
use crate::text::{
    chars_of, contains_char, decimal, distinct_strings, lemma_decimal_has_no, push_decimal,
    push_str, string_from_chars, string_set,
};

verus! {

/// Why a node could not be added.
#[derive(Debug, Clone, PartialEq, Eq)]
pub enum AddNodeError {
    /// The name is not usable (it holds the separator `#`).
    InvalidNodeName(String),
    /// A node of that name is already on the ring.
    NodeAlreadyExists(String),
}

impl AddNodeError {
    /// Human-readable description of the error.
    pub fn to_string(&self) -> (s: String)
        ensures
            s@ == match self {
                AddNodeError::InvalidNodeName(m) => "无效的节点名称: "@ + m@,
                AddNodeError::NodeAlreadyExists(n) => "节点已存在: "@ + n@,
            },
    {
        match self {
            AddNodeError::InvalidNodeName(msg) => {
                let mut s = String::from_str("无效的节点名称: ");
                s.append(msg.as_str());
                s
            },
            AddNodeError::NodeAlreadyExists(node) => {
                let mut s = String::from_str("节点已存在: ");
                s.append(node.as_str());
                s
            },
        }
    }
}

/// A ring entry: the hash of a virtual node and the virtual node's name.
pub type RingEntry = (u64, Seq<char>);

/// Hash of a text: XXH3-64 of its UTF-8 bytes.
pub open spec fn text_hash(k: Seq<char>) -> u64 {
    xxh3_64_spec(vstd::utf8::encode_utf8(k))
}

/// `#vnode`, the separator and tag between a node's name and a replica number.
pub open spec fn vnode_tag() -> Seq<char> {
    seq!['#', 'v', 'n', 'o', 'd', 'e']
}

/// Name of the `i`-th virtual node of `name`.
pub open spec fn vnode_key(name: Seq<char>, i: nat) -> Seq<char> {
    name + vnode_tag() + decimal(i)
}

pub open spec fn vnode_entry(name: Seq<char>, i: nat) -> RingEntry {
    (text_hash(vnode_key(name, i)), vnode_key(name, i))
}

/// The virtual nodes of `name`, in replica order.
pub open spec fn vnodes_of(name: Seq<char>, count: nat) -> Seq<RingEntry> {
    Seq::new(count, |i: int| vnode_entry(name, i as nat))
}

pub open spec fn sorted_by_hash(s: Seq<RingEntry>) -> bool {
    forall|i: int, j: int| 0 <= i <= j < s.len() ==> s[i].0 <= s[j].0
}

/// Number of leading entries whose hash is at most `x`.
pub open spec fn upper_bound(s: Seq<RingEntry>, x: u64) -> int
    decreases s.len(),
{
    if s.len() == 0 {
        0
    } else if s[0].0 > x {
        0
    } else {
        1 + upper_bound(s.drop_first(), x)
    }
}

/// Number of leading entries whose hash is below `h`.
pub open spec fn lower_bound(s: Seq<RingEntry>, h: u64) -> int
    decreases s.len(),
{
    if s.len() == 0 {
        0
    } else if s[0].0 >= h {
        0
    } else {
        1 + lower_bound(s.drop_first(), h)
    }
}

/// `e` inserted after every entry whose hash is at most its own.
pub open spec fn insert_by_hash(s: Seq<RingEntry>, e: RingEntry) -> Seq<RingEntry> {
    s.insert(upper_bound(s, e.0), e)
}

/// The entries of `new` inserted one after the other, in order.
pub open spec fn insert_all_by_hash(s: Seq<RingEntry>, new: Seq<RingEntry>) -> Seq<RingEntry>
    decreases new.len(),
{
    if new.len() == 0 {
        s
    } else {
        insert_by_hash(insert_all_by_hash(s, new.drop_last()), new.last())
    }
}

/// Position of the last `#` in `k`, or -1.
pub open spec fn last_separator(k: Seq<char>) -> int
    decreases k.len(),
{
    if k.len() == 0 {
        -1
    } else if k.last() == '#' {
        k.len() - 1
    } else {
        last_separator(k.drop_last())
    }
}

/// The physical node of a virtual node: the text before its last `#`.
pub open spec fn owner_of(k: Seq<char>) -> Option<Seq<char>> {
    let i = last_separator(k);
    if i >= 0 {
        Some(k.take(i))
    } else {
        None
    }
}

/// Index of the first entry clockwise from `h`: the first with hash at least
/// `h`, or the first entry of the ring when there is none.
pub open spec fn clockwise_index(s: Seq<RingEntry>, h: u64) -> int {
    let lb = lower_bound(s, h);
    if lb < s.len() {
        lb
    } else {
        0
    }
}

/// The node that serves hash `h` on ring `s`.
pub open spec fn ring_route(s: Seq<RingEntry>, h: u64) -> Option<Seq<char>> {
    if s.len() == 0 {
        None
    } else {
        owner_of(s[clockwise_index(s, h)].1)
    }
}

/// The node that serves `key` on ring `s`.
pub open spec fn route_key(s: Seq<RingEntry>, key: Seq<char>) -> Option<Seq<char>> {
    ring_route(s, text_hash(key))
}

/// Table of nodes and their virtual node counts, from a list of distinct names.
pub open spec fn node_table(nodes: Seq<(Seq<char>, nat)>) -> Map<Seq<char>, nat> {
    Map::new(
        |k: Seq<char>| exists|m: int| 0 <= m < nodes.len() && nodes[m].0 == k,
        |k: Seq<char>| nodes[choose|m: int| 0 <= m < nodes.len() && nodes[m].0 == k].1,
    )
}

pub open spec fn names_distinct(nodes: Seq<(Seq<char>, nat)>) -> bool {
    forall|a: int, b: int| 0 <= a < nodes.len() && 0 <= b < nodes.len() && a != b ==> nodes[a].0 != nodes[b].0
}

/// `e` is a virtual node of some node of `nodes`.
pub open spec fn registered(nodes: Seq<(Seq<char>, nat)>, e: RingEntry) -> bool {
    exists|m: int, i: nat| 0 <= m < nodes.len() && i < nodes[m].1 && e == vnode_entry(nodes[m].0, i)
}

// ---------------------------------------------------------------------------
// Lemmas on the ordered ring.
// ---------------------------------------------------------------------------

pub proof fn lemma_upper_bound(s: Seq<RingEntry>, x: u64)
    requires
        sorted_by_hash(s),
    ensures
        0 <= upper_bound(s, x) <= s.len(),
        forall|i: int| 0 <= i < upper_bound(s, x) ==> s[i].0 <= x,
        forall|i: int| upper_bound(s, x) <= i < s.len() ==> s[i].0 > x,
    decreases s.len(),
{
    if s.len() > 0 && s[0].0 <= x {
        lemma_upper_bound(s.drop_first(), x);
        assert forall|i: int| 0 <= i < upper_bound(s, x) implies s[i].0 <= x by {
            if i > 0 {
                assert(s[i] == s.drop_first()[i - 1]);
            }
        }
        assert forall|i: int| upper_bound(s, x) <= i < s.len() implies s[i].0 > x by {
            assert(s[i] == s.drop_first()[i - 1]);
        }
    }
}

pub proof fn lemma_lower_bound(s: Seq<RingEntry>, h: u64)
    requires
        sorted_by_hash(s),
    ensures
        0 <= lower_bound(s, h) <= s.len(),
        forall|i: int| 0 <= i < lower_bound(s, h) ==> s[i].0 < h,
        forall|i: int| lower_bound(s, h) <= i < s.len() ==> s[i].0 >= h,
    decreases s.len(),
{
    if s.len() > 0 && s[0].0 < h {
        lemma_lower_bound(s.drop_first(), h);
        assert forall|i: int| 0 <= i < lower_bound(s, h) implies s[i].0 < h by {
            if i > 0 {
                assert(s[i] == s.drop_first()[i - 1]);
            }
        }
        assert forall|i: int| lower_bound(s, h) <= i < s.len() implies s[i].0 >= h by {
            assert(s[i] == s.drop_first()[i - 1]);
        }
    }
}

/// A position that splits a sorted ring into hashes below `h` and the rest
/// is the lower bound.
pub proof fn lemma_lower_bound_unique(s: Seq<RingEntry>, h: u64, k: int)
    requires
        sorted_by_hash(s),
        0 <= k <= s.len(),
        forall|i: int| 0 <= i < k ==> s[i].0 < h,
        forall|i: int| k <= i < s.len() ==> s[i].0 >= h,
    ensures
        lower_bound(s, h) == k,
{
    lemma_lower_bound(s, h);
    let lb = lower_bound(s, h);
    if lb < k {
        assert(s[lb].0 >= h);
    } else if lb > k {
        assert(s[k].0 < h);
    }
}

pub proof fn lemma_upper_bound_unique(s: Seq<RingEntry>, x: u64, k: int)
    requires
        sorted_by_hash(s),
        0 <= k <= s.len(),
        forall|i: int| 0 <= i < k ==> s[i].0 <= x,
        forall|i: int| k <= i < s.len() ==> s[i].0 > x,
    ensures
        upper_bound(s, x) == k,
{
    lemma_upper_bound(s, x);
    let ub = upper_bound(s, x);
    if ub < k {
        assert(s[ub].0 > x);
    } else if ub > k {
        assert(s[k].0 <= x);
    }
}

pub proof fn lemma_insert_by_hash_sorted(s: Seq<RingEntry>, e: RingEntry)
    requires
        sorted_by_hash(s),
    ensures
        sorted_by_hash(insert_by_hash(s, e)),
        insert_by_hash(s, e).len() == s.len() + 1,
{
    lemma_upper_bound(s, e.0);
    let u = upper_bound(s, e.0);
    let t = insert_by_hash(s, e);
    s.insert_ensures(u, e);
    assert forall|i: int, j: int| 0 <= i <= j < t.len() implies t[i].0 <= t[j].0 by {
        if j < u {
        } else if j == u {
            if i < u {
                assert(t[i] == s[i]);
            }
        } else {
            assert(t[j] == s[j - 1]);
            if i < u {
                assert(t[i] == s[i]);
            } else if i == u {
            } else {
                assert(t[i] == s[i - 1]);
            }
        }
    }
}

pub proof fn lemma_insert_all_sorted(s: Seq<RingEntry>, new: Seq<RingEntry>)
    requires
        sorted_by_hash(s),
    ensures
        sorted_by_hash(insert_all_by_hash(s, new)),
        insert_all_by_hash(s, new).len() == s.len() + new.len(),
    decreases new.len(),
{
    if new.len() > 0 {
        lemma_insert_all_sorted(s, new.drop_last());
        lemma_insert_by_hash_sorted(insert_all_by_hash(s, new.drop_last()), new.last());
    }
}

proof fn lemma_last_separator_append(a: Seq<char>, b: Seq<char>)
    requires
        !b.contains('#'),
    ensures
        last_separator(a + b) == last_separator(a),
    decreases b.len(),
{
    if b.len() > 0 {
        assert((a + b).last() == b.last());
        assert(b.contains(b.last()));
        assert((a + b).drop_last() =~= a + b.drop_last());
        assert(!b.drop_last().contains('#')) by {
            if b.drop_last().contains('#') {
                let i = choose|i: int| 0 <= i < b.drop_last().len() && b.drop_last()[i] == '#';
                assert(b[i] == '#');
            }
        }
        lemma_last_separator_append(a, b.drop_last());
    } else {
        assert(a + b =~= a);
    }
}

/// A virtual node belongs to the node it was made for.
pub proof fn lemma_owner_of_vnode(name: Seq<char>, i: nat)
    requires
        !name.contains('#'),
    ensures
        owner_of(vnode_key(name, i)) == Some(name),
{
    let rest = seq!['v', 'n', 'o', 'd', 'e'] + decimal(i);
    lemma_decimal_has_no(i, '#');
    assert(!rest.contains('#')) by {
        if rest.contains('#') {
            let j = choose|j: int| 0 <= j < rest.len() && rest[j] == '#';
            if j >= 5 {
                assert(decimal(i)[j - 5] == '#');
            }
        }
    }
    let head = name.push('#');
    assert(vnode_key(name, i) =~= head + rest);
    lemma_last_separator_append(head, rest);
    assert(head.drop_last() =~= name);
    assert(last_separator(head) == name.len());
    assert(head.take(name.len() as int) =~= name);
    assert((head + rest).take(name.len() as int) =~= name);
}

/// Whether `prefix` starts `k`.
pub open spec fn starts_with(k: Seq<char>, prefix: Seq<char>) -> bool {
    prefix.len() <= k.len() && k.take(prefix.len() as int) == prefix
}

/// The virtual nodes of `other` start with `name#` exactly when `other` is `name`.
pub proof fn lemma_vnode_prefix(name: Seq<char>, other: Seq<char>, i: nat)
    requires
        !name.contains('#'),
        !other.contains('#'),
    ensures
        starts_with(vnode_key(other, i), name.push('#')) <==> other == name,
{
    let k = vnode_key(other, i);
    assert(k[other.len() as int] == '#');
    if other == name {
        assert(k.take(name.len() as int + 1) =~= name.push('#'));
    } else if starts_with(k, name.push('#')) {
        if name.len() < other.len() {
            assert(k[name.len() as int] == other[name.len() as int]);
            assert(k.take(name.len() as int + 1)[name.len() as int] == '#');
            assert(other.contains('#'));
        } else if name.len() > other.len() {
            assert(k.take(name.len() as int + 1)[other.len() as int] == name[other.len() as int]);
            assert(name.contains('#'));
        } else {
            assert forall|j: int| 0 <= j < name.len() implies name[j] == other[j] by {
                assert(k.take(name.len() as int + 1)[j] == name.push('#')[j]);
            }
            assert(name =~= other);
        }
    }
}

} // verus!

verus! {

pub open spec fn msg_invalid_node_name() -> Seq<char> {
    "节点名称不能包含 '#' 字符，避免虚拟节点名称冲突"@
}

/// Model of a ring held as `(hash, name)` pairs.
pub open spec fn ring_model(s: Seq<(u64, String)>) -> Seq<RingEntry> {
    s.map_values(|e: (u64, String)| (e.0, e.1@))
}

/// Model of a node list held as `(name, count)` pairs.
pub open spec fn nodes_model(s: Seq<(String, usize)>) -> Seq<(Seq<char>, nat)> {
    s.map_values(|e: (String, usize)| (e.0@, e.1 as nat))
}

proof fn lemma_ring_model_insert(s: Seq<(u64, String)>, u: int, e: (u64, String))
    requires
        0 <= u <= s.len(),
    ensures
        ring_model(s.insert(u, e)) == ring_model(s).insert(u, (e.0, e.1@)),
{
    s.insert_ensures(u, e);
    ring_model(s).insert_ensures(u, (e.0, e.1@));
    assert(ring_model(s.insert(u, e)) =~= ring_model(s).insert(u, (e.0, e.1@)));
}

pub proof fn lemma_node_table_get(nodes: Seq<(Seq<char>, nat)>, m: int)
    requires
        names_distinct(nodes),
        0 <= m < nodes.len(),
    ensures
        node_table(nodes).dom().contains(nodes[m].0),
        node_table(nodes)[nodes[m].0] == nodes[m].1,
{
    let k = nodes[m].0;
    assert(exists|x: int| 0 <= x < nodes.len() && nodes[x].0 == k);
    let c = choose|x: int| 0 <= x < nodes.len() && nodes[x].0 == k;
    assert(c == m);
}

proof fn lemma_node_table_push(nodes: Seq<(Seq<char>, nat)>, name: Seq<char>, v: nat)
    requires
        names_distinct(nodes),
        !node_table(nodes).dom().contains(name),
    ensures
        names_distinct(nodes.push((name, v))),
        node_table(nodes.push((name, v))) == node_table(nodes).insert(name, v),
{
    let t = nodes.push((name, v));
    assert forall|a: int, b: int| 0 <= a < t.len() && 0 <= b < t.len() && a != b implies t[a].0
        != t[b].0 by {
        if a == nodes.len() && b < nodes.len() {
            assert(nodes[b].0 == t[b].0);
        } else if b == nodes.len() && a < nodes.len() {
            assert(nodes[a].0 == t[a].0);
        }
    }
    assert forall|k: Seq<char>| #[trigger] node_table(t).dom().contains(k) <==> node_table(
        nodes,
    ).insert(name, v).dom().contains(k) by {
        if node_table(t).dom().contains(k) {
            let c = choose|x: int| 0 <= x < t.len() && t[x].0 == k;
            if c < nodes.len() {
                assert(nodes[c].0 == k);
            }
        }
        if node_table(nodes).dom().contains(k) {
            let c = choose|x: int| 0 <= x < nodes.len() && nodes[x].0 == k;
            assert(t[c].0 == k);
        }
        if k == name {
            assert(t[nodes.len() as int].0 == k);
        }
    }
    assert forall|k: Seq<char>| #[trigger] node_table(t).dom().contains(k) implies node_table(t)[k]
        == node_table(nodes).insert(name, v)[k] by {
        let c = choose|x: int| 0 <= x < t.len() && t[x].0 == k;
        lemma_node_table_get(t, c);
        if c < nodes.len() {
            assert(nodes[c] == t[c]);
            lemma_node_table_get(nodes, c);
        }
    }
    assert(node_table(t) =~= node_table(nodes).insert(name, v));
}

proof fn lemma_registered_grow(nodes: Seq<(Seq<char>, nat)>, x: (Seq<char>, nat), e: RingEntry)
    requires
        registered(nodes, e),
    ensures
        registered(nodes.push(x), e),
{
    let (m, i) = choose|m: int, i: nat| 0 <= m < nodes.len() && i < nodes[m].1 && e == vnode_entry(nodes[m].0, i);
    assert(nodes.push(x)[m] == nodes[m]);
}

/// The name at `k` can be added after those before it: it holds no `#`
/// and no earlier name is the same.
pub open spec fn name_ok_at(names: Seq<&str>, k: int) -> bool {
    !names[k]@.contains('#') && forall|a: int| 0 <= a < k ==> names[a]@ != names[k]@
}

/// Consistent hash ring with virtual nodes.
#[derive(Debug)]
pub struct ConsistentHashRing {
    /// `(hash, virtual node)` pairs in ascending hash order.
    ring: Vec<(u64, String)>,
    /// Physical nodes and their virtual node counts, names distinct.
    nodes: Vec<(String, usize)>,
}

impl ConsistentHashRing {
    /// The ring: `(hash, virtual node)` pairs in ascending hash order.
    pub closed spec fn ring_view(&self) -> Seq<RingEntry> {
        ring_model(self.ring@)
    }

    /// The nodes, each with its number of virtual nodes.
    pub closed spec fn node_map(&self) -> Map<Seq<char>, nat> {
        node_table(nodes_model(self.nodes@))
    }

    /// The ring is sorted; node names are distinct and free of `#`; every
    /// ring entry is a virtual node of a registered node.
    pub closed spec fn wf(&self) -> bool {
        let nodes = nodes_model(self.nodes@);
        &&& sorted_by_hash(self.ring_view())
        &&& names_distinct(nodes)
        &&& forall|m: int| 0 <= m < nodes.len() ==> !(#[trigger] nodes[m]).0.contains('#')
        &&& forall|j: int| 0 <= j < self.ring@.len() ==> registered(nodes, #[trigger] self.ring_view()[j])
        &&& self.ring_view().to_multiset() == all_vnodes(nodes).to_multiset()
    }

    /// The nodes with their virtual node counts, each node once.
    pub closed spec fn node_list(&self) -> Seq<(Seq<char>, nat)> {
        nodes_model(self.nodes@)
    }

    /// An empty ring.
    pub fn new() -> (ring: Self)
        ensures
            ring.wf(),
            ring.ring_view() == Seq::<RingEntry>::empty(),
            ring.node_map() == Map::<Seq<char>, nat>::empty(),
    {
        let ring = ConsistentHashRing { ring: Vec::new(), nodes: Vec::new() };
        assert(ring.ring_view() =~= Seq::<RingEntry>::empty());
        assert(nodes_model(ring.nodes@) =~= Seq::<(Seq<char>, nat)>::empty());
        assert(all_vnodes(nodes_model(ring.nodes@)) =~= Seq::<RingEntry>::empty());
        assert(ring.node_map() =~= Map::<Seq<char>, nat>::empty());
        ring
    }

    /// Hash of a key: XXH3-64 of its UTF-8 bytes.
    fn hash_key(key: &str) -> (h: u64)
        ensures
            h == text_hash(key@),
    {
        xxh3_64(key.as_bytes())
    }

    /// Whether a node of that name is on the ring.
    fn has_node(&self, node_name: &str) -> (b: bool)
        requires
            self.wf(),
        ensures
            b == self.node_map().dom().contains(node_name@),
    {
        let ghost nodes = nodes_model(self.nodes@);
        match position_of_name(&self.nodes, node_name) {
            Some(m) => {
                assert(nodes[m as int].0 == node_name@);
                true
            },
            None => {
                proof {
                    if self.node_map().dom().contains(node_name@) {
                        let c = choose|x: int| 0 <= x < nodes.len() && nodes[x].0 == node_name@;
                        assert(nodes[c].0 == self.nodes@[c].0@);
                    }
                }
                false
            },
        }
    }

    /// Adds a node with `virtual_nodes` virtual nodes.
    ///
    /// Fails with `InvalidNodeName` when the name holds `#`, and with
    /// `NodeAlreadyExists` when the name is taken; the ring is then unchanged.
    pub fn add_node(&mut self, node_name: &str, virtual_nodes: usize) -> (r: Result<(), AddNodeError>)
        requires
            old(self).wf(),
        ensures
            final(self).wf(),
            (r matches Err(AddNodeError::InvalidNodeName(_))) <==> node_name@.contains('#'),
            (r matches Err(AddNodeError::NodeAlreadyExists(_))) <==> (!node_name@.contains('#')
                && old(self).node_map().dom().contains(node_name@)),
            r matches Err(AddNodeError::InvalidNodeName(m)) ==> m@ == msg_invalid_node_name(),
            r matches Err(AddNodeError::NodeAlreadyExists(n)) ==> n@ == node_name@,
            r is Err ==> final(self).ring_view() == old(self).ring_view() && final(self).node_map()
                == old(self).node_map(),
            r is Ok ==> final(self).ring_view() == insert_all_by_hash(
                old(self).ring_view(),
                vnodes_of(node_name@, virtual_nodes as nat),
            ) && final(self).node_map() == old(self).node_map().insert(
                node_name@,
                virtual_nodes as nat,
            ),
            r is Ok ==> final(self).ring_view().len() == old(self).ring_view().len() + virtual_nodes,
    {
        let name_chars = chars_of(node_name);
        if contains_char(&name_chars, '#') {
            return Err(
                AddNodeError::InvalidNodeName(
                    String::from_str("节点名称不能包含 '#' 字符，避免虚拟节点名称冲突"),
                ),
            );
        }
        if self.has_node(node_name) {
            return Err(AddNodeError::NodeAlreadyExists(String::from_str(node_name)));
        }
        let ghost old_ring = self.ring_view();
        let ghost old_nodes = nodes_model(self.nodes@);
        let ghost name = node_name@;
        let ghost vnodes = vnodes_of(name, virtual_nodes as nat);
        self.nodes.push((String::from_str(node_name), virtual_nodes));
        let ghost nodes = nodes_model(self.nodes@);
        proof {
            assert(nodes =~= old_nodes.push((name, virtual_nodes as nat)));
            lemma_node_table_push(old_nodes, name, virtual_nodes as nat);
            assert forall|j: int| 0 <= j < self.ring@.len() implies registered(
                nodes,
                #[trigger] self.ring_view()[j],
            ) by {
                lemma_registered_grow(old_nodes, (name, virtual_nodes as nat), self.ring_view()[j]);
            }
            assert(vnodes.take(0) =~= Seq::<RingEntry>::empty());
        }
        let mut i: usize = 0;
        while i < virtual_nodes
            invariant
                i <= virtual_nodes,
                name_chars@ == name,
                !name.contains('#'),
                vnodes == vnodes_of(name, virtual_nodes as nat),
                nodes == nodes_model(self.nodes@),
                nodes.len() > 0,
                nodes.last() == (name, virtual_nodes as nat),
                self.ring_view() == insert_all_by_hash(old_ring, vnodes.take(i as int)),
                sorted_by_hash(self.ring_view()),
                forall|j: int| 0 <= j < self.ring@.len() ==> registered(nodes, #[trigger] self.ring_view()[j]),
            decreases virtual_nodes - i,
        {
            let mut key_chars = name_chars.clone();
            key_chars.push('#');
            key_chars.push('v');
            key_chars.push('n');
            key_chars.push('o');
            key_chars.push('d');
            key_chars.push('e');
            push_decimal(&mut key_chars, i);
            let key = string_from_chars(key_chars.as_slice());
            let hash = xxh3_64(key.as_str().as_bytes());
            let ghost entry = vnode_entry(name, i as nat);
            assert(key@ =~= vnode_key(name, i as nat));
            assert(hash == entry.0);
            // position after every entry whose hash is at most `hash`
            let mut u: usize = 0;
            while u < self.ring.len() && self.ring[u].0 <= hash
                invariant
                    u <= self.ring.len(),
                    forall|k: int| 0 <= k < u ==> self.ring_view()[k].0 <= hash,
                decreases self.ring.len() - u,
            {
                u = u + 1;
            }
            proof {
                lemma_upper_bound(self.ring_view(), hash);
                if u < self.ring.len() {
                    assert(self.ring_view()[u as int].0 > hash);
                    assert forall|k: int| u <= k < self.ring@.len() implies self.ring_view()[k].0
                        > hash by {
                        assert(self.ring_view()[u as int].0 <= self.ring_view()[k].0);
                    }
                }
                lemma_upper_bound_unique(self.ring_view(), hash, u as int);
            }
            let ghost before = self.ring@;
            self.ring.insert(u, (hash, key));
            proof {
                lemma_ring_model_insert(before, u as int, (hash, key));
                let prev = ring_model(before);
                assert(self.ring_view() == insert_by_hash(prev, entry));
                assert(vnodes.take(i + 1).drop_last() =~= vnodes.take(i as int));
                assert(vnodes.take(i + 1).last() == entry);
                lemma_insert_by_hash_sorted(prev, entry);
                prev.insert_ensures(u as int, entry);
                assert(registered(nodes, entry)) by {
                    let m = nodes.len() - 1;
                    assert(nodes[m] == (name, virtual_nodes as nat));
                    assert(0 <= m < nodes.len() && (i as nat) < nodes[m].1 && entry == vnode_entry(
                        nodes[m].0,
                        i as nat,
                    ));
                }
                assert forall|j: int| 0 <= j < self.ring@.len() implies registered(
                    nodes,
                    #[trigger] self.ring_view()[j],
                ) by {
                    if j < u {
                        assert(self.ring_view()[j] == prev[j]);
                    } else if j > u {
                        assert(self.ring_view()[j] == prev[j - 1]);
                    }
                }
            }
            i = i + 1;
        }
        proof {
            assert(vnodes.take(virtual_nodes as int) =~= vnodes);
            lemma_insert_all_sorted(old(self).ring_view(), vnodes);
            lemma_insert_all_multiset(old_ring, vnodes);
            assert(nodes.drop_last() =~= old_nodes);
            assert(all_vnodes(nodes) == all_vnodes(old_nodes) + vnodes);
            vstd::seq_lib::lemma_multiset_commutative(all_vnodes(old_nodes), vnodes);
            assert forall|m: int| 0 <= m < nodes.len() implies !(#[trigger] nodes[m]).0.contains('#') by {
                if m < old_nodes.len() {
                    assert(nodes[m] == old_nodes[m]);
                }
            }
        }
        Ok(())
    }

    /// A ring holding the given nodes, each with `virtual_nodes_per_node`
    /// virtual nodes; fails as the first failing `add_node` fails.
    pub fn with_nodes(node_names: &[&str], virtual_nodes_per_node: usize) -> (r: Result<Self, AddNodeError>)
        ensures
            r matches Ok(ring) ==> ring.wf() && ring.node_map().dom() == node_names@.map_values(
                |s: &str| s@,
            ).to_set() && forall|n: Seq<char>| #[trigger] ring.node_map().dom().contains(n)
                ==> ring.node_map()[n] == virtual_nodes_per_node as nat,
            r is Ok <==> (forall|i: int|
                0 <= i < node_names@.len() ==> !(#[trigger] node_names@[i])@.contains('#')) && (
            forall|i: int, j: int|
                0 <= i < j < node_names@.len() ==> (#[trigger] node_names@[i])@ != (#[trigger] node_names@[j])@),
            r matches Ok(ring) ==> ring.ring_view().len() == node_names@.len() * virtual_nodes_per_node,
            r matches Err(e) ==> exists|k: int|
                #![trigger node_names@[k]]
                0 <= k < node_names@.len() && (forall|a: int| 0 <= a < k ==> name_ok_at(node_names@, a)) && !name_ok_at(
                    node_names@,
                    k,
                ) && if node_names@[k]@.contains('#') {
                    e matches AddNodeError::InvalidNodeName(m) && m@ == msg_invalid_node_name()
                } else {
                    e matches AddNodeError::NodeAlreadyExists(n) && n@ == node_names@[k]@
                },
    {
        let mut ring = Self::new();
        let mut i: usize = 0;
        while i < node_names.len()
            invariant
                i <= node_names.len(),
                ring.wf(),
                ring.node_map().dom() == node_names@.take(i as int).map_values(|s: &str| s@).to_set(),
                forall|n: Seq<char>| #[trigger] ring.node_map().dom().contains(n) ==> ring.node_map()[n]
                    == virtual_nodes_per_node as nat,
                forall|a: int| 0 <= a < i ==> !(#[trigger] node_names@[a])@.contains('#'),
                forall|a: int, b: int|
                    0 <= a < b < i ==> (#[trigger] node_names@[a])@ != (#[trigger] node_names@[b])@,
                ring.ring_view().len() == i * virtual_nodes_per_node,
            decreases node_names.len() - i,
        {
            let ghost names_before = node_names@.take(i as int).map_values(|s: &str| s@);
            let ghost names_after = node_names@.take(i + 1).map_values(|s: &str| s@);
            assert(names_after =~= names_before.push(node_names@[i as int]@));
            match ring.add_node(node_names[i], virtual_nodes_per_node) {
                Ok(()) => {},
                Err(e) => {
                    proof {
                        if node_names@[i as int]@.contains('#') {
                        } else {
                            assert(names_before.to_set().contains(node_names@[i as int]@));
                            let a = choose|a: int| 0 <= a < names_before.len() && names_before[a] == node_names@[i as int]@;
                            assert(names_before[a] == node_names@[a]@);
                            assert((node_names@[a])@ == (node_names@[i as int])@);
                        }
                        assert forall|a: int| 0 <= a < i implies name_ok_at(node_names@, a) by {
                            assert forall|b: int| 0 <= b < a implies node_names@[b]@ != node_names@[a]@ by {
                                assert((node_names@[b])@ != (node_names@[a])@);
                            }
                        }
                        assert(!name_ok_at(node_names@, i as int));
                    }
                    return Err(e);
                },
            }
            assert((i + 1) * virtual_nodes_per_node == i * virtual_nodes_per_node + virtual_nodes_per_node)
                by (nonlinear_arith);
            proof {
                let x = node_names@[i as int]@;
                assert forall|k: Seq<char>| names_after.to_set().contains(k) <==> names_before.to_set().insert(x).contains(k) by {
                    if names_after.contains(k) {
                        let a = choose|a: int| 0 <= a < names_after.len() && names_after[a] == k;
                        if a < i {
                            assert(names_before[a] == k);
                        }
                    }
                    if names_before.contains(k) {
                        let a = choose|a: int| 0 <= a < names_before.len() && names_before[a] == k;
                        assert(names_after[a] == k);
                    }
                    if k == x {
                        assert(names_after[i as int] == k);
                    }
                }
                assert(ring.node_map().dom() =~= names_after.to_set());
                assert forall|a: int, b: int|
                    0 <= a < b < i + 1 implies (#[trigger] node_names@[a])@ != (#[trigger] node_names@[b])@ by {
                    if b == i {
                        assert(names_before[a] == node_names@[a]@);
                        assert(names_before.to_set().contains(node_names@[a]@));
                    }
                }
            }
            i = i + 1;
        }
        assert(node_names@.take(node_names.len() as int) =~= node_names@);
        Ok(ring)
    }
}

} // verus!

verus! {

/// Keeps, in order, the first `count` distinct names of `names`.
pub open spec fn first_distinct(names: Seq<Option<Seq<char>>>, count: nat) -> Seq<Seq<char>>
    decreases names.len(),
{
    if names.len() == 0 {
        Seq::empty()
    } else {
        let acc = first_distinct(names.drop_last(), count);
        match names.last() {
            Some(n) => if acc.len() < count && !acc.contains(n) {
                acc.push(n)
            } else {
                acc
            },
            None => acc,
        }
    }
}

/// Owners of the ring entries, walking clockwise from position `start`.
pub open spec fn owners_from(s: Seq<RingEntry>, start: int) -> Seq<Option<Seq<char>>> {
    Seq::new(s.len(), |i: int| owner_of(s[(start + i) % (s.len() as int)].1))
}

/// Up to `count` distinct nodes for `key`, walking clockwise from its position.
pub open spec fn replicas_for(s: Seq<RingEntry>, key: Seq<char>, count: nat) -> Seq<Seq<char>> {
    if s.len() == 0 || count == 0 {
        Seq::empty()
    } else {
        first_distinct(owners_from(s, clockwise_index(s, text_hash(key))), count)
    }
}

/// The character sequences of `keys`.
pub open spec fn key_texts(keys: Seq<String>) -> Seq<Seq<char>> {
    keys.map_values(|k: String| k@)
}

/// How many of `keys` the ring sends to `node`.
pub open spec fn keys_served(s: Seq<RingEntry>, keys: Seq<Seq<char>>, node: Seq<char>) -> nat
    decreases keys.len(),
{
    if keys.len() == 0 {
        0
    } else {
        keys_served(s, keys.drop_last(), node) + if route_key(s, keys.last()) == Some(node) {
            1nat
        } else {
            0nat
        }
    }
}

proof fn lemma_first_distinct_saturated(names: Seq<Option<Seq<char>>>, count: nat, i: int)
    requires
        0 <= i <= names.len(),
        first_distinct(names.take(i), count).len() >= count,
    ensures
        first_distinct(names, count) == first_distinct(names.take(i), count),
    decreases names.len() - i,
{
    if i < names.len() {
        assert(names.take(i + 1).drop_last() =~= names.take(i));
        lemma_first_distinct_saturated(names, count, i + 1);
    } else {
        assert(names.take(i) =~= names);
    }
}

proof fn lemma_ring_model_filter_step(s: Seq<(u64, String)>, i: int, pred: spec_fn(RingEntry) -> bool)
    requires
        0 <= i < s.len(),
    ensures
        ring_model(s).take(i + 1).filter(pred) == if pred(ring_model(s)[i]) {
            ring_model(s).take(i).filter(pred).push(ring_model(s)[i])
        } else {
            ring_model(s).take(i).filter(pred)
        },
{
    reveal(Seq::filter);
    let t = ring_model(s).take(i + 1);
    assert(t.drop_last() =~= ring_model(s).take(i));
    assert(t.last() == ring_model(s)[i]);
}

proof fn lemma_node_table_remove(nodes: Seq<(Seq<char>, nat)>, m: int)
    requires
        names_distinct(nodes),
        0 <= m < nodes.len(),
    ensures
        names_distinct(nodes.remove(m)),
        node_table(nodes.remove(m)) == node_table(nodes).remove(nodes[m].0),
{
    let t = nodes.remove(m);
    nodes.remove_ensures(m);
    assert forall|a: int, b: int| 0 <= a < t.len() && 0 <= b < t.len() && a != b implies t[a].0
        != t[b].0 by {
        let a2 = if a < m {
            a
        } else {
            a + 1
        };
        let b2 = if b < m {
            b
        } else {
            b + 1
        };
        assert(t[a] == nodes[a2]);
        assert(t[b] == nodes[b2]);
    }
    let name = nodes[m].0;
    assert forall|k: Seq<char>| #[trigger] node_table(t).dom().contains(k) <==> node_table(
        nodes,
    ).remove(name).dom().contains(k) by {
        if node_table(t).dom().contains(k) {
            let c = choose|x: int| 0 <= x < t.len() && t[x].0 == k;
            let c2 = if c < m {
                c
            } else {
                c + 1
            };
            assert(t[c] == nodes[c2]);
        }
        if node_table(nodes).remove(name).dom().contains(k) {
            let c = choose|x: int| 0 <= x < nodes.len() && nodes[x].0 == k;
            assert(c != m);
            let c2 = if c < m {
                c
            } else {
                c - 1
            };
            assert(t[c2] == nodes[c]);
        }
    }
    assert forall|k: Seq<char>| #[trigger] node_table(t).dom().contains(k) implies node_table(t)[k]
        == node_table(nodes).remove(name)[k] by {
        let c = choose|x: int| 0 <= x < t.len() && t[x].0 == k;
        lemma_node_table_get(t, c);
        let c2 = if c < m {
            c
        } else {
            c + 1
        };
        assert(t[c] == nodes[c2]);
        lemma_node_table_get(nodes, c2);
    }
    assert(node_table(t) =~= node_table(nodes).remove(name));
}

/// Position of the pair named `name`, if there is one.
fn position_of_name(v: &Vec<(String, usize)>, name: &str) -> (r: Option<usize>)
    ensures
        r matches Some(j) ==> j < v@.len() && v@[j as int].0@ == name@,
        r is None ==> forall|a: int| 0 <= a < v@.len() ==> (#[trigger] v@[a]).0@ != name@,
{
    let mut j: usize = 0;
    while j < v.len()
        invariant
            j <= v.len(),
            forall|a: int| 0 <= a < j ==> (#[trigger] v@[a]).0@ != name@,
        decreases v.len() - j,
    {
        if crate::text::str_eq(v[j].0.as_str(), name) {
            return Some(j);
        }
        j = j + 1;
    }
    None
}

/// Whether `s` starts with the characters of `prefix`.
fn has_prefix(s: &str, prefix: &Vec<char>) -> (b: bool)
    ensures
        b == starts_with(s@, prefix@),
{
    let cs = chars_of(s);
    if prefix.len() > cs.len() {
        return false;
    }
    let mut i: usize = 0;
    while i < prefix.len()
        invariant
            i <= prefix.len() <= cs.len(),
            cs@ == s@,
            forall|j: int| 0 <= j < i ==> cs@[j] == prefix@[j],
        decreases prefix.len() - i,
    {
        if cs[i] != prefix[i] {
            assert(s@.take(prefix@.len() as int)[i as int] != prefix@[i as int]);
            return false;
        }
        i = i + 1;
    }
    assert(s@.take(prefix@.len() as int) =~= prefix@);
    true
}

/// The physical node of a virtual node name, if the name holds `#`.
fn owner_text(k: &String) -> (r: Option<String>)
    ensures
        r matches Some(s) ==> owner_of(k@) == Some(s@),
        r is None ==> owner_of(k@) is None,
{
    let cs = chars_of(k.as_str());
    let mut j = cs.len();
    assert(k@.take(j as int) =~= k@);
    while j > 0 && cs[j - 1] != '#'
        invariant
            j <= cs.len(),
            cs@ == k@,
            last_separator(k@) == last_separator(k@.take(j as int)),
        decreases j,
    {
        assert(k@.take(j as int).drop_last() =~= k@.take(j - 1));
        j = j - 1;
    }
    if j == 0 {
        assert(k@.take(0) =~= Seq::<char>::empty());
        None
    } else {
        let mut name: Vec<char> = Vec::new();
        let mut i: usize = 0;
        while i < j - 1
            invariant
                i <= j - 1,
                j <= cs.len(),
                cs@ == k@,
                name@ == k@.take(i as int),
            decreases j - 1 - i,
        {
            name.push(cs[i]);
            assert(k@.take(i + 1) =~= k@.take(i as int).push(k@[i as int]));
            i = i + 1;
        }
        Some(string_from_chars(name.as_slice()))
    }
}

impl ConsistentHashRing {
    /// Removes a node and all its virtual nodes; `false` when there is no such node.
    pub fn remove_node(&mut self, node_name: &str) -> (r: bool)
        requires
            old(self).wf(),
        ensures
            final(self).wf(),
            r == old(self).node_map().dom().contains(node_name@),
            r ==> final(self).node_map() == old(self).node_map().remove(node_name@)
                && final(self).ring_view() == old(self).ring_view().filter(
                |e: RingEntry| !starts_with(e.1, node_name@.push('#')),
            ),
            !r ==> final(self).node_map() == old(self).node_map() && final(self).ring_view()
                == old(self).ring_view(),
    {
        let ghost nodes = nodes_model(self.nodes@);
        let ghost name = node_name@;
        let m = match position_of_name(&self.nodes, node_name) {
            Some(m) => m,
            None => {
                proof {
                    if self.node_map().dom().contains(name) {
                        let c = choose|x: int| 0 <= x < nodes.len() && nodes[x].0 == name;
                        assert(nodes[c].0 == self.nodes@[c].0@);
                    }
                }
                return false;
            },
        };
        assert(nodes[m as int].0 == name);
        proof {
            lemma_node_table_get(nodes, m as int);
            lemma_node_table_remove(nodes, m as int);
        }
        self.nodes.remove(m);
        let ghost rest = nodes_model(self.nodes@);
        assert(rest =~= nodes.remove(m as int));
        let mut prefix: Vec<char> = Vec::new();
        push_str(&mut prefix, node_name);
        prefix.push('#');
        let ghost pred = |e: RingEntry| !starts_with(e.1, name.push('#'));
        let ghost old_ring = self.ring_view();
        let mut kept: Vec<(u64, String)> = Vec::new();
        let mut i: usize = 0;
        proof {
            reveal(Seq::filter);
            assert(old_ring.take(0) =~= Seq::<RingEntry>::empty());
        }
        while i < self.ring.len()
            invariant
                i <= self.ring.len(),
                old_ring == self.ring_view(),
                prefix@ == name.push('#'),
                pred == (|e: RingEntry| !starts_with(e.1, name.push('#'))),
                sorted_by_hash(old_ring),
                ring_model(kept@) == old_ring.take(i as int).filter(pred),
                forall|a: int, b: int|
                    0 <= a < kept@.len() && i <= b < old_ring.len() ==> ring_model(kept@)[a].0
                        <= old_ring[b].0,
                sorted_by_hash(ring_model(kept@)),
                forall|a: int| 0 <= a < kept@.len() ==> pred(#[trigger] ring_model(kept@)[a]),
                forall|a: int| 0 <= a < kept@.len() ==> registered(nodes, #[trigger] ring_model(kept@)[a]),
                forall|j: int| 0 <= j < old_ring.len() ==> registered(nodes, #[trigger] old_ring[j]),
            decreases self.ring.len() - i,
        {
            proof {
                lemma_ring_model_filter_step(self.ring@, i as int, pred);
                assert(old_ring[i as int] == (self.ring@[i as int].0, self.ring@[i as int].1@));
            }
            assert(pred(old_ring[i as int]) == !starts_with(old_ring[i as int].1, name.push('#')));
            if !has_prefix(self.ring[i].1.as_str(), &prefix) {
                let ghost before = kept@;
                kept.push((self.ring[i].0, self.ring[i].1.clone()));
                proof {
                    assert(ring_model(kept@) =~= ring_model(before).push(old_ring[i as int]));
                }
            }
            i = i + 1;
        }
        proof {
            assert(old_ring.take(old_ring.len() as int) =~= old_ring);
            let kv = ring_model(kept@);
            assert forall|a: int| 0 <= a < kv.len() implies registered(rest, #[trigger] kv[a]) by {
                let e = kv[a];
                let (mm, ii) = choose|mm: int, ii: nat| 0 <= mm < nodes.len() && ii < nodes[mm].1 && e == vnode_entry(nodes[mm].0, ii);
                lemma_vnode_prefix(name, nodes[mm].0, ii);
                assert(mm != m);
                let m2 = if mm < m {
                    mm
                } else {
                    mm - 1
                };
                nodes.remove_ensures(m as int);
                assert(rest[m2] == nodes[mm]);
            }
            assert forall|x: int| 0 <= x < rest.len() implies !(#[trigger] rest[x]).0.contains('#') by {
                nodes.remove_ensures(m as int);
                if x < m {
                    assert(rest[x] == nodes[x]);
                } else {
                    assert(rest[x] == nodes[x + 1]);
                }
            }
        }
        proof {
            let kv = ring_model(kept@);
            assert(kv == old_ring.filter(pred));
            lemma_all_vnodes_remove(nodes, m as int, name, pred);
            assert forall|x: RingEntry| #[trigger] kv.to_multiset().count(x) == all_vnodes(rest).to_multiset().count(x) by {
                lemma_filter_count(old_ring, pred, x);
                lemma_filter_count(all_vnodes(nodes), pred, x);
            }
            assert(kv.to_multiset() =~= all_vnodes(rest).to_multiset());
        }
        self.ring = kept;
        true
    }

    /// The node that serves `key`: the owner of the first virtual node
    /// clockwise from the key's hash; `None` on an empty ring.
    pub fn get_node(&self, key: &str) -> (r: Option<&str>)
        requires
            self.wf(),
        ensures
            r matches Some(s) ==> route_key(self.ring_view(), key@) == Some(s@),
            r is None ==> route_key(self.ring_view(), key@) is None,
            r is None <==> self.ring_view().len() == 0,
            r matches Some(s) ==> self.node_map().dom().contains(s@) && self.node_map()[s@] > 0,
    {
        if self.ring.len() == 0 {
            return None;
        }
        proof {
            keys_are_served_by_ring_nodes(*self, key@);
        }
        let hash = Self::hash_key(key);
        let idx = self.clockwise_index(hash);
        let cs = chars_of(self.ring[idx].1.as_str());
        let mut j = cs.len();
        let ghost k = self.ring_view()[idx as int].1;
        assert(k.take(j as int) =~= k);
        while j > 0 && cs[j - 1] != '#'
            invariant
                j <= cs.len(),
                cs@ == k,
                last_separator(k) == last_separator(k.take(j as int)),
            decreases j,
        {
            assert(k.take(j as int).drop_last() =~= k.take(j - 1));
            j = j - 1;
        }
        if j == 0 {
            assert(k.take(0) =~= Seq::<char>::empty());
            None
        } else {
            let name = self.ring[idx].1.as_str().substring_char(0, j - 1);
            assert(name@ =~= k.take(j - 1));
            Some(name)
        }
    }

    /// Position of the first virtual node clockwise from hash `h`.
    fn clockwise_index(&self, hash: u64) -> (idx: usize)
        requires
            self.wf(),
            self.ring@.len() > 0,
        ensures
            idx == clockwise_index(self.ring_view(), hash),
            idx < self.ring@.len(),
    {
        let mut lo: usize = 0;
        let mut hi: usize = self.ring.len();
        while lo < hi
            invariant
                lo <= hi <= self.ring.len(),
                sorted_by_hash(self.ring_view()),
                forall|i: int| 0 <= i < lo ==> self.ring_view()[i].0 < hash,
                forall|i: int| hi <= i < self.ring@.len() ==> self.ring_view()[i].0 >= hash,
            decreases hi - lo,
        {
            let mid = lo + (hi - lo) / 2;
            if self.ring[mid].0 < hash {
                proof {
                    assert forall|i: int| 0 <= i <= mid implies self.ring_view()[i].0 < hash by {
                        assert(self.ring_view()[i].0 <= self.ring_view()[mid as int].0);
                    }
                }
                lo = mid + 1;
            } else {
                proof {
                    assert forall|i: int| mid <= i < self.ring@.len() implies self.ring_view()[i].0
                        >= hash by {
                        assert(self.ring_view()[mid as int].0 <= self.ring_view()[i].0);
                    }
                }
                hi = mid;
            }
        }
        proof {
            lemma_lower_bound_unique(self.ring_view(), hash, lo as int);
        }
        if lo < self.ring.len() {
            lo
        } else {
            0
        }
    }

    /// Up to `count` distinct nodes for `key`: the owners met walking the ring
    /// clockwise from the key's position, each taken once.
    pub fn get_nodes(&self, key: &str, count: usize) -> (r: Vec<String>)
        requires
            self.wf(),
        ensures
            r@.map_values(|s: String| s@) == replicas_for(self.ring_view(), key@, count as nat),
    {
        if self.ring.len() == 0 || count == 0 {
            let v: Vec<String> = Vec::new();
            assert(v@.map_values(|s: String| s@) =~= Seq::<Seq<char>>::empty());
            return v;
        }
        let hash = Self::hash_key(key);
        let start = self.clockwise_index(hash);
        let len = self.ring.len();
        let ghost names = owners_from(self.ring_view(), start as int);
        let mut result: Vec<String> = Vec::new();
        let mut i: usize = 0;
        assert(names.take(0) =~= Seq::<Option<Seq<char>>>::empty());
        while i < len
            invariant
                len == self.ring@.len(),
                start < len,
                i <= len,
                count > 0,
                result@.len() < count,
                start == clockwise_index(self.ring_view(), text_hash(key@)),
                names == owners_from(self.ring_view(), start as int),
                result@.map_values(|s: String| s@) == first_distinct(names.take(i as int), count as nat),
            decreases len - i,
        {
            let idx = if i < len - start {
                start + i
            } else {
                i - (len - start)
            };
            assert(idx as int == (start + i) % (len as int)) by (nonlinear_arith)
                requires
                    start < len,
                    i < len,
                    idx == if i < len - start {
                        start + i
                    } else {
                        i - (len - start)
                    },
            {
                if i < len - start {
                    assert((start + i) % (len as int) == start + i);
                } else {
                    assert(start + i == (len as int) + idx);
                }
            }
            let owner = owner_text(&self.ring[idx].1);
            let ghost acc = result@.map_values(|s: String| s@);
            proof {
                assert(names[i as int] == owner_of(self.ring_view()[idx as int].1));
                assert(self.ring_view()[idx as int].1 == self.ring@[idx as int].1@);
                assert(names.take(i + 1).drop_last() =~= names.take(i as int));
                assert(names.take(i + 1).last() == names[i as int]);
            }
            match owner {
                Some(node_name) => {
                    if !crate::text::contains_string(&result, &node_name) {
                        proof {
                            assert(!acc.contains(node_name@)) by {
                                if acc.contains(node_name@) {
                                    let a = choose|a: int| 0 <= a < acc.len() && acc[a] == node_name@;
                                    assert(result@[a]@ == node_name@);
                                }
                            }
                        }
                        result.push(node_name);
                        assert(result@.map_values(|s: String| s@) =~= acc.push(names[i as int]->0));
                        assert(first_distinct(names.take(i + 1), count as nat) == acc.push(names[i as int]->0));
                        if result.len() >= count {
                            proof {
                                lemma_first_distinct_saturated(names, count as nat, i + 1);
                                assert(first_distinct(names, count as nat) == result@.map_values(|s: String| s@));
                                assert(start == clockwise_index(self.ring_view(), text_hash(key@)));
                                assert(replicas_for(self.ring_view(), key@, count as nat) == first_distinct(names, count as nat));
                            }
                            return result;
                        }
                    } else {
                        proof {
                            let a = choose|a: int| 0 <= a < result@.len() && result@[a]@ == node_name@;
                            assert(acc[a] == node_name@);
                        }
                    }
                },
                None => {},
            }
            i = i + 1;
        }
        assert(names.take(len as int) =~= names);
        result
    }

    /// Names of all nodes, each once.
    pub fn get_all_nodes(&self) -> (r: Vec<String>)
        requires
            self.wf(),
        ensures
            distinct_strings(r@),
            string_set(r@) == self.node_map().dom(),
            r@.len() == self.node_list().len(),
            forall|a: int| 0 <= a < r@.len() ==> (#[trigger] r@[a])@ == self.node_list()[a].0,
    {
        let ghost nodes = nodes_model(self.nodes@);
        let mut r: Vec<String> = Vec::new();
        let mut i: usize = 0;
        while i < self.nodes.len()
            invariant
                i <= self.nodes.len(),
                nodes == nodes_model(self.nodes@),
                names_distinct(nodes),
                r@.len() == i,
                forall|a: int| 0 <= a < i ==> (#[trigger] r@[a])@ == nodes[a].0,
            decreases self.nodes.len() - i,
        {
            r.push(self.nodes[i].0.clone());
            i = i + 1;
        }
        proof {
            assert forall|k: Seq<char>| string_set(r@).contains(k) <==> self.node_map().dom().contains(k) by {
                if string_set(r@).contains(k) {
                    let a = choose|a: int| 0 <= a < r@.len() && r@[a]@ == k;
                    assert(nodes[a].0 == k);
                }
                if self.node_map().dom().contains(k) {
                    let a = choose|a: int| 0 <= a < nodes.len() && nodes[a].0 == k;
                    assert(r@[a]@ == k);
                }
            }
            assert(string_set(r@) =~= self.node_map().dom());
        }
        r
    }

    /// Number of nodes.
    pub fn node_count(&self) -> (n: usize)
        requires
            self.wf(),
        ensures
            n == self.node_map().dom().len(),
            n == self.node_list().len(),
    {
        proof {
            let nodes = nodes_model(self.nodes@);
            let names = nodes.map_values(|e: (Seq<char>, nat)| e.0);
            assert(names.no_duplicates()) by {
                assert forall|a: int, b: int| 0 <= a < names.len() && 0 <= b < names.len() && a != b implies names[a] != names[b] by {
                    assert(names[a] == nodes[a].0);
                    assert(names[b] == nodes[b].0);
                }
            }
            names.unique_seq_to_set();
            assert forall|k: Seq<char>| names.to_set().contains(k) <==> self.node_map().dom().contains(k) by {
                if names.contains(k) {
                    let a = choose|a: int| 0 <= a < names.len() && names[a] == k;
                    assert(nodes[a].0 == k);
                }
                if self.node_map().dom().contains(k) {
                    let a = choose|a: int| 0 <= a < nodes.len() && nodes[a].0 == k;
                    assert(names[a] == k);
                }
            }
            assert(names.to_set() =~= self.node_map().dom());
        }
        self.nodes.len()
    }

    /// Number of virtual nodes on the ring.
    pub fn virtual_node_count(&self) -> (n: usize)
        ensures
            n == self.ring_view().len(),
    {
        self.ring.len()
    }

    /// Number of virtual nodes of `node_name`, if it is on the ring.
    pub fn get_virtual_node_count(&self, node_name: &str) -> (r: Option<usize>)
        requires
            self.wf(),
        ensures
            r matches Some(c) ==> self.node_map().dom().contains(node_name@) && self.node_map()[node_name@] == c,
            r is None ==> !self.node_map().dom().contains(node_name@),
    {
        let ghost nodes = nodes_model(self.nodes@);
        match position_of_name(&self.nodes, node_name) {
            Some(m) => {
                proof {
                    lemma_node_table_get(nodes, m as int);
                }
                Some(self.nodes[m].1)
            },
            None => {
                proof {
                    if self.node_map().dom().contains(node_name@) {
                        let c = choose|x: int| 0 <= x < nodes.len() && nodes[x].0 == node_name@;
                        assert(nodes[c].0 == self.nodes@[c].0@);
                    }
                }
                None
            },
        }
    }

    /// Whether the ring has no node.
    pub fn is_empty(&self) -> (b: bool)
        requires
            self.wf(),
        ensures
            b == (self.node_map().dom().len() == 0),
    {
        self.node_count() == 0
    }

    /// For each node that serves at least one of `keys`, how many it serves.
    pub fn get_distribution(&self, keys: &[String]) -> (r: Vec<(String, usize)>)
        requires
            self.wf(),
        ensures
            forall|a: int, b: int| 0 <= a < b < r@.len() ==> (#[trigger] r@[a]).0@ != (#[trigger] r@[b]).0@,
            forall|a: int|
                0 <= a < r@.len() ==> (#[trigger] r@[a]).1 == keys_served(
                    self.ring_view(),
                    key_texts(keys@),
                    r@[a].0@,
                ) && r@[a].1 > 0,
            forall|n: Seq<char>|
                #![trigger keys_served(self.ring_view(), key_texts(keys@), n)]
                keys_served(self.ring_view(), key_texts(keys@), n) > 0 ==> exists|a: int|
                    0 <= a < r@.len() && r@[a].0@ == n,
    {
        let ghost ks = key_texts(keys@);
        let ghost ring = self.ring_view();
        let mut dist: Vec<(String, usize)> = Vec::new();
        let mut i: usize = 0;
        while i < keys.len()
            invariant
                i <= keys.len(),
                self.wf(),
                ks == key_texts(keys@),
                ring == self.ring_view(),
                forall|a: int, b: int| 0 <= a < b < dist@.len() ==> (#[trigger] dist@[a]).0@ != (#[trigger] dist@[b]).0@,
                forall|a: int|
                    0 <= a < dist@.len() ==> (#[trigger] dist@[a]).1 == keys_served(
                        ring,
                        ks.take(i as int),
                        dist@[a].0@,
                    ) && dist@[a].1 > 0,
                forall|n: Seq<char>|
                    #![trigger keys_served(ring, ks.take(i as int), n)]
                    keys_served(ring, ks.take(i as int), n) > 0 ==> exists|a: int|
                        0 <= a < dist@.len() && dist@[a].0@ == n,
            decreases keys.len() - i,
        {
            let ghost pre = ks.take(i as int);
            let ghost post = ks.take(i + 1);
            assert(post.drop_last() =~= pre);
            assert(post.last() == keys@[i as int]@);
            let node = self.get_node(keys[i].as_str());
            match node {
                Some(name) => {
                    let ghost n = name@;
                    let found = position_of_name(&dist, name);
                    let j = match found {
                        Some(j) => j,
                        None => dist.len(),
                    };
                    let ghost before = dist@;
                    if j < dist.len() {
                        assert(dist@[j as int].0@ == n);
                        assert(keys_served(ring, pre, n) == dist@[j as int].1);
                        assert(keys_served(ring, post, n) == keys_served(ring, pre, n) + 1);
                        assert(dist@[j as int].1 <= i) by {
                            lemma_keys_served_bound(ring, pre, n);
                        }
                        let (entry_name, entry_count) = dist.remove(j);
                        dist.insert(j, (entry_name, entry_count + 1));
                        proof {
                            assert forall|a: int| 0 <= a < dist@.len() implies (#[trigger] dist@[a]).1
                                == keys_served(ring, post, dist@[a].0@) && dist@[a].1 > 0 by {
                                if a != j {
                                    assert(dist@[a] == before[a]);
                                    assert(before[a].0@ != n);
                                }
                            }
                            assert forall|a: int, b: int| 0 <= a < b < dist@.len() implies (
                            #[trigger] dist@[a]).0@ != (#[trigger] dist@[b]).0@ by {
                                assert(dist@[a].0 == before[a].0);
                                assert(dist@[b].0 == before[b].0);
                            }
                            assert forall|x: Seq<char>| #![trigger keys_served(ring, post, x)]
                                keys_served(ring, post, x) > 0 implies exists|a: int|
                                0 <= a < dist@.len() && dist@[a].0@ == x by {
                                if x == n {
                                    assert(dist@[j as int].0@ == x);
                                } else {
                                    assert(keys_served(ring, pre, x) > 0);
                                    let a = choose|a: int| 0 <= a < before.len() && before[a].0@ == x;
                                    assert(dist@[a].0 == before[a].0);
                                }
                            }
                        }
                    } else {
                        assert(keys_served(ring, pre, n) == 0);
                        dist.push((String::from_str(name), 1));
                        proof {
                            assert forall|a: int| 0 <= a < dist@.len() implies (#[trigger] dist@[a]).1
                                == keys_served(ring, post, dist@[a].0@) && dist@[a].1 > 0 by {
                                if a < before.len() {
                                    assert(dist@[a] == before[a]);
                                    assert(before[a].0@ != n);
                                }
                            }
                            assert forall|x: Seq<char>| #![trigger keys_served(ring, post, x)]
                                keys_served(ring, post, x) > 0 implies exists|a: int|
                                0 <= a < dist@.len() && dist@[a].0@ == x by {
                                if x == n {
                                    assert(dist@[before.len() as int].0@ == x);
                                } else {
                                    assert(keys_served(ring, pre, x) > 0);
                                    let a = choose|a: int| 0 <= a < before.len() && before[a].0@ == x;
                                    assert(dist@[a] == before[a]);
                                }
                            }
                        }
                    }
                },
                None => {
                    proof {
                        assert forall|x: Seq<char>| #![trigger keys_served(ring, post, x)]
                            keys_served(ring, post, x) == keys_served(ring, pre, x) by {}
                    }
                },
            }
            i = i + 1;
        }
        assert(ks.take(keys.len() as int) =~= ks);
        dist
    }
}

proof fn lemma_keys_served_bound(s: Seq<RingEntry>, keys: Seq<Seq<char>>, n: Seq<char>)
    ensures
        keys_served(s, keys, n) <= keys.len(),
    decreases keys.len(),
{
    if keys.len() > 0 {
        lemma_keys_served_bound(s, keys.drop_last(), n);
    }
}

impl Default for ConsistentHashRing {
    fn default() -> (r: Self)
        ensures
            r.wf(),
            r.ring_view() == Seq::<RingEntry>::empty(),
            r.node_map() == Map::<Seq<char>, nat>::empty(),
    {
        Self::new()
    }
}

} // verus!

verus! {

proof fn lemma_insert_route(s: Seq<RingEntry>, e: RingEntry, h: u64)
    requires
        sorted_by_hash(s),
    ensures
        ring_route(insert_by_hash(s, e), h) == ring_route(s, h) || ring_route(insert_by_hash(s, e), h)
            == owner_of(e.1),
{
    let t = insert_by_hash(s, e);
    let u = upper_bound(s, e.0);
    let lb = lower_bound(s, h);
    lemma_upper_bound(s, e.0);
    lemma_lower_bound(s, h);
    lemma_insert_by_hash_sorted(s, e);
    s.insert_ensures(u, e);
    if e.0 < h {
        if lb < u {
            assert(s[lb].0 <= e.0);
        }
        assert forall|i: int| 0 <= i < lb + 1 implies t[i].0 < h by {
            if i < u {
                assert(t[i] == s[i]);
            } else if i > u {
                assert(t[i] == s[i - 1]);
            }
        }
        assert forall|i: int| lb + 1 <= i < t.len() implies t[i].0 >= h by {
            assert(t[i] == s[i - 1]);
        }
        lemma_lower_bound_unique(t, h, lb + 1);
        if lb < s.len() {
            assert(t[lb + 1] == s[lb]);
        } else if u > 0 {
            assert(t[0] == s[0]);
        }
    } else {
        if u < lb {
            assert(s[u].0 > e.0);
        }
        assert forall|i: int| 0 <= i < lb implies t[i].0 < h by {
            assert(t[i] == s[i]);
        }
        assert forall|i: int| lb <= i < t.len() implies t[i].0 >= h by {
            if i < u {
                assert(t[i] == s[i]);
            } else if i > u {
                assert(t[i] == s[i - 1]);
            }
        }
        lemma_lower_bound_unique(t, h, lb);
        if lb < u {
            assert(t[lb] == s[lb]);
        }
    }
}

proof fn lemma_insert_all_route(s: Seq<RingEntry>, new: Seq<RingEntry>, name: Seq<char>, h: u64)
    requires
        sorted_by_hash(s),
        forall|i: int| 0 <= i < new.len() ==> owner_of(#[trigger] new[i].1) == Some(name),
    ensures
        ring_route(insert_all_by_hash(s, new), h) == ring_route(s, h) || ring_route(
            insert_all_by_hash(s, new),
            h,
        ) == Some(name),
    decreases new.len(),
{
    if new.len() > 0 {
        let pre = new.drop_last();
        assert forall|i: int| 0 <= i < pre.len() implies owner_of(#[trigger] pre[i].1) == Some(name) by {
            assert(pre[i] == new[i]);
        }
        lemma_insert_all_route(s, pre, name, h);
        lemma_insert_all_sorted(s, pre);
        lemma_insert_route(insert_all_by_hash(s, pre), new.last(), h);
        assert(owner_of(new[new.len() - 1].1) == Some(name));
    }
}

/// Adding a node moves keys only onto the new node: after `add_node(name, count)`
/// every key is served by the node that served it before, or by `name`.
pub proof fn adding_a_node_moves_keys_only_to_it(
    before: ConsistentHashRing,
    after: ConsistentHashRing,
    name: Seq<char>,
    count: nat,
    key: Seq<char>,
)
    requires
        before.wf(),
        !name.contains('#'),
        after.ring_view() == insert_all_by_hash(before.ring_view(), vnodes_of(name, count)),
    ensures
        route_key(after.ring_view(), key) == route_key(before.ring_view(), key) || route_key(
            after.ring_view(),
            key,
        ) == Some(name),
{
    let new = vnodes_of(name, count);
    assert forall|i: int| 0 <= i < new.len() implies owner_of(#[trigger] new[i].1) == Some(name) by {
        lemma_owner_of_vnode(name, i as nat);
    }
    lemma_insert_all_route(before.ring_view(), new, name, text_hash(key));
}

proof fn lemma_owner_of_registered(nodes: Seq<(Seq<char>, nat)>, e: RingEntry)
    requires
        registered(nodes, e),
        forall|m: int| 0 <= m < nodes.len() ==> !(#[trigger] nodes[m]).0.contains('#'),
    ensures
        exists|m: int| 0 <= m < nodes.len() && owner_of(e.1) == Some(#[trigger] nodes[m].0),
{
    let (m, i) = choose|m: int, i: nat| 0 <= m < nodes.len() && i < nodes[m].1 && e == vnode_entry(nodes[m].0, i);
    lemma_owner_of_vnode(nodes[m].0, i);
}

/// Every key of a non-empty ring is served by a node of the ring.
pub proof fn keys_are_served_by_ring_nodes(ring: ConsistentHashRing, key: Seq<char>)
    requires
        ring.wf(),
        ring.ring_view().len() > 0,
    ensures
        route_key(ring.ring_view(), key) matches Some(n) && ring.node_map().dom().contains(n)
            && ring.node_map()[n] > 0,
{
    let s = ring.ring_view();
    let nodes = nodes_model(ring.nodes@);
    let c = clockwise_index(s, text_hash(key));
    lemma_lower_bound(s, text_hash(key));
    assert(registered(nodes, s[c]));
    let (m, i) = choose|m: int, i: nat| 0 <= m < nodes.len() && i < nodes[m].1 && s[c] == vnode_entry(nodes[m].0, i);
    lemma_owner_of_vnode(nodes[m].0, i);
    lemma_node_table_get(nodes, m);
}

proof fn lemma_filter_single(x: RingEntry, pred: spec_fn(RingEntry) -> bool)
    ensures
        seq![x].filter(pred) == (if pred(x) {
            seq![x]
        } else {
            Seq::<RingEntry>::empty()
        }),
{
    reveal(Seq::filter);
    assert(seq![x].drop_last() =~= Seq::<RingEntry>::empty());
    assert(Seq::<RingEntry>::empty().filter(pred) =~= Seq::<RingEntry>::empty());
    assert(Seq::<RingEntry>::empty().push(x) =~= seq![x]);
}

proof fn lemma_filter_elements(s: Seq<RingEntry>, pred: spec_fn(RingEntry) -> bool)
    ensures
        forall|i: int| 0 <= i < s.filter(pred).len() ==> s.contains(#[trigger] s.filter(pred)[i]),
    decreases s.len(),
{
    reveal(Seq::filter);
    if s.len() > 0 {
        let pre = s.drop_last();
        lemma_filter_elements(pre, pred);
        assert forall|i: int| 0 <= i < s.filter(pred).len() implies s.contains(
            #[trigger] s.filter(pred)[i],
        ) by {
            if i < pre.filter(pred).len() {
                assert(s.filter(pred)[i] == pre.filter(pred)[i]);
                let x = choose|x: int| 0 <= x < pre.len() && pre[x] == pre.filter(pred)[i];
                assert(s[x] == pre[x]);
            } else {
                assert(s.filter(pred)[i] == s.last());
                assert(s[s.len() - 1] == s.last());
            }
        }
    }
}

proof fn lemma_upper_bound_range(s: Seq<RingEntry>, x: u64)
    ensures
        0 <= upper_bound(s, x) <= s.len(),
    decreases s.len(),
{
    if s.len() > 0 && s[0].0 <= x {
        lemma_upper_bound_range(s.drop_first(), x);
    }
}

proof fn lemma_filter_insert_dropped(s: Seq<RingEntry>, i: int, e: RingEntry, pred: spec_fn(RingEntry) -> bool)
    requires
        0 <= i <= s.len(),
        !pred(e),
    ensures
        s.insert(i, e).filter(pred) == s.filter(pred),
{
    let a = s.take(i);
    let b = s.skip(i);
    assert(s.insert(i, e) =~= a + (seq![e] + b));
    assert(s =~= a + b);
    Seq::filter_distributes_over_add(a, seq![e] + b, pred);
    Seq::filter_distributes_over_add(seq![e], b, pred);
    Seq::filter_distributes_over_add(a, b, pred);
    lemma_filter_single(e, pred);
    assert(Seq::<RingEntry>::empty() + b.filter(pred) =~= b.filter(pred));
}

proof fn lemma_filter_insert_all_dropped(s: Seq<RingEntry>, new: Seq<RingEntry>, pred: spec_fn(RingEntry) -> bool)
    requires
        forall|i: int| 0 <= i < new.len() ==> !pred(#[trigger] new[i]),
    ensures
        insert_all_by_hash(s, new).filter(pred) == s.filter(pred),
    decreases new.len(),
{
    if new.len() > 0 {
        let init = new.drop_last();
        assert forall|i: int| 0 <= i < init.len() implies !pred(#[trigger] init[i]) by {
            assert(init[i] == new[i]);
        }
        lemma_filter_insert_all_dropped(s, init, pred);
        let t = insert_all_by_hash(s, init);
        lemma_upper_bound_range(t, new.last().0);
        assert(!pred(new[new.len() - 1]));
        lemma_filter_insert_dropped(t, upper_bound(t, new.last().0), new.last(), pred);
    }
}

proof fn lemma_filter_keeps_all(s: Seq<RingEntry>, pred: spec_fn(RingEntry) -> bool)
    requires
        forall|i: int| 0 <= i < s.len() ==> pred(#[trigger] s[i]),
    ensures
        s.filter(pred) == s,
    decreases s.len(),
{
    reveal(Seq::filter);
    if s.len() > 0 {
        let init = s.drop_last();
        assert forall|i: int| 0 <= i < init.len() implies pred(#[trigger] init[i]) by {
            assert(init[i] == s[i]);
        }
        lemma_filter_keeps_all(init, pred);
        assert(pred(s[s.len() - 1]));
        assert(init.push(s.last()) =~= s);
    }
}

/// Every virtual node of every node, node after node.
pub open spec fn all_vnodes(nodes: Seq<(Seq<char>, nat)>) -> Seq<RingEntry>
    decreases nodes.len(),
{
    if nodes.len() == 0 {
        Seq::empty()
    } else {
        all_vnodes(nodes.drop_last()) + vnodes_of(nodes.last().0, nodes.last().1)
    }
}

/// The sum of the nodes' virtual node counts.
pub open spec fn count_sum(nodes: Seq<(Seq<char>, nat)>) -> nat
    decreases nodes.len(),
{
    if nodes.len() == 0 {
        0
    } else {
        count_sum(nodes.drop_last()) + nodes.last().1
    }
}

proof fn lemma_all_vnodes_len(nodes: Seq<(Seq<char>, nat)>)
    ensures
        all_vnodes(nodes).len() == count_sum(nodes),
    decreases nodes.len(),
{
    if nodes.len() > 0 {
        lemma_all_vnodes_len(nodes.drop_last());
    }
}

proof fn lemma_all_vnodes_registered(nodes: Seq<(Seq<char>, nat)>)
    ensures
        forall|j: int| 0 <= j < all_vnodes(nodes).len() ==> registered(nodes, #[trigger] all_vnodes(nodes)[j]),
    decreases nodes.len(),
{
    if nodes.len() > 0 {
        let init = nodes.drop_last();
        lemma_all_vnodes_registered(init);
        let a = all_vnodes(init);
        let v = vnodes_of(nodes.last().0, nodes.last().1);
        assert forall|j: int| 0 <= j < all_vnodes(nodes).len() implies registered(
            nodes,
            #[trigger] all_vnodes(nodes)[j],
        ) by {
            if j < a.len() {
                assert(all_vnodes(nodes)[j] == a[j]);
                assert(registered(init, a[j]));
                let (m, i) = choose|m: int, i: nat| 0 <= m < init.len() && i < init[m].1 && a[j] == vnode_entry(init[m].0, i);
                assert(nodes[m] == init[m]);
            } else {
                let i = (j - a.len()) as nat;
                assert(all_vnodes(nodes)[j] == v[j - a.len()]);
                assert(nodes[nodes.len() - 1] == nodes.last());
                assert(v[j - a.len()] == vnode_entry(nodes[nodes.len() - 1].0, i));
            }
        }
    }
}

proof fn lemma_insert_all_multiset(s: Seq<RingEntry>, new: Seq<RingEntry>)
    ensures
        insert_all_by_hash(s, new).to_multiset() == s.to_multiset().add(new.to_multiset()),
    decreases new.len(),
{
    broadcast use vstd::multiset::group_multiset_axioms;
    broadcast use vstd::seq_lib::group_to_multiset_ensures;

    if new.len() == 0 {
        assert(new.to_multiset() =~= vstd::multiset::Multiset::empty());
        assert(s.to_multiset().add(new.to_multiset()) =~= s.to_multiset());
    } else {
        let init = new.drop_last();
        let e = new.last();
        lemma_insert_all_multiset(s, init);
        let x = insert_all_by_hash(s, init);
        lemma_upper_bound_range(x, e.0);
        vstd::seq_lib::to_multiset_insert(x, upper_bound(x, e.0), e);
        assert(init.push(e) =~= new);
        vstd::seq_lib::to_multiset_build(init, e);
        assert(insert_all_by_hash(s, new).to_multiset() =~= s.to_multiset().add(new.to_multiset()));
    }
}

proof fn lemma_filter_count(s: Seq<RingEntry>, pred: spec_fn(RingEntry) -> bool, x: RingEntry)
    ensures
        s.filter(pred).to_multiset().count(x) == if pred(x) {
            s.to_multiset().count(x)
        } else {
            0
        },
    decreases s.len(),
{
    broadcast use vstd::multiset::group_multiset_axioms;
    broadcast use vstd::seq_lib::group_to_multiset_ensures;

    reveal(Seq::filter);
    if s.len() == 0 {
        assert(s.to_multiset() =~= vstd::multiset::Multiset::empty());
        assert(s.filter(pred) =~= Seq::<RingEntry>::empty());
        assert(s.filter(pred).to_multiset() =~= vstd::multiset::Multiset::empty());
    } else {
        let init = s.drop_last();
        lemma_filter_count(init, pred, x);
        assert(init.push(s.last()) =~= s);
        vstd::seq_lib::to_multiset_build(init, s.last());
        if pred(s.last()) {
            vstd::seq_lib::to_multiset_build(init.filter(pred), s.last());
        }
    }
}

proof fn lemma_filter_drops_all(s: Seq<RingEntry>, pred: spec_fn(RingEntry) -> bool)
    requires
        forall|i: int| 0 <= i < s.len() ==> !pred(#[trigger] s[i]),
    ensures
        s.filter(pred) == Seq::<RingEntry>::empty(),
    decreases s.len(),
{
    reveal(Seq::filter);
    if s.len() > 0 {
        let init = s.drop_last();
        assert forall|i: int| 0 <= i < init.len() implies !pred(#[trigger] init[i]) by {
            assert(init[i] == s[i]);
        }
        lemma_filter_drops_all(init, pred);
        assert(!pred(s[s.len() - 1]));
    } else {
        assert(s.filter(pred) =~= Seq::<RingEntry>::empty());
    }
}

proof fn lemma_vnodes_filter(other: Seq<char>, c: nat, name: Seq<char>, pred: spec_fn(RingEntry) -> bool)
    requires
        !name.contains('#'),
        !other.contains('#'),
        pred == (|e: RingEntry| !starts_with(e.1, name.push('#'))),
    ensures
        other != name ==> vnodes_of(other, c).filter(pred) == vnodes_of(other, c),
        other == name ==> vnodes_of(other, c).filter(pred) == Seq::<RingEntry>::empty(),
{
    let v = vnodes_of(other, c);
    if other != name {
        assert forall|i: int| 0 <= i < v.len() implies pred(#[trigger] v[i]) by {
            lemma_vnode_prefix(name, other, i as nat);
        }
        lemma_filter_keeps_all(v, pred);
    } else {
        assert forall|i: int| 0 <= i < v.len() implies !pred(#[trigger] v[i]) by {
            lemma_vnode_prefix(name, other, i as nat);
        }
        lemma_filter_drops_all(v, pred);
    }
}

proof fn lemma_all_vnodes_keep(nodes: Seq<(Seq<char>, nat)>, name: Seq<char>, pred: spec_fn(RingEntry) -> bool)
    requires
        !name.contains('#'),
        forall|k: int| 0 <= k < nodes.len() ==> !(#[trigger] nodes[k]).0.contains('#') && nodes[k].0 != name,
        pred == (|e: RingEntry| !starts_with(e.1, name.push('#'))),
    ensures
        all_vnodes(nodes).filter(pred) == all_vnodes(nodes),
    decreases nodes.len(),
{
    if nodes.len() > 0 {
        let init = nodes.drop_last();
        assert forall|k: int| 0 <= k < init.len() implies !(#[trigger] init[k]).0.contains('#') && init[k].0 != name by {
            assert(init[k] == nodes[k]);
        }
        lemma_all_vnodes_keep(init, name, pred);
        assert(nodes[nodes.len() - 1] == nodes.last());
        lemma_vnodes_filter(nodes.last().0, nodes.last().1, name, pred);
        Seq::filter_distributes_over_add(all_vnodes(init), vnodes_of(nodes.last().0, nodes.last().1), pred);
    } else {
        reveal(Seq::filter);
    }
}

proof fn lemma_init_nodes_ok(nodes: Seq<(Seq<char>, nat)>)
    requires
        nodes.len() > 0,
        names_distinct(nodes),
        forall|k: int| 0 <= k < nodes.len() ==> !(#[trigger] nodes[k]).0.contains('#'),
    ensures
        names_distinct(nodes.drop_last()),
        forall|k: int| 0 <= k < nodes.drop_last().len() ==> !(#[trigger] nodes.drop_last()[k]).0.contains('#'),
        forall|k: int| 0 <= k < nodes.drop_last().len() ==> (#[trigger] nodes.drop_last()[k]).0 != nodes.last().0,
{
    let init = nodes.drop_last();
    assert forall|a: int, b: int| 0 <= a < init.len() && 0 <= b < init.len() && a != b implies init[a].0 != init[b].0 by {
        assert(init[a] == nodes[a]);
        assert(init[b] == nodes[b]);
    }
    assert forall|k: int| 0 <= k < init.len() implies !(#[trigger] init[k]).0.contains('#') by {
        assert(init[k] == nodes[k]);
    }
    assert forall|k: int| 0 <= k < init.len() implies (#[trigger] init[k]).0 != nodes.last().0 by {
        assert(init[k] == nodes[k]);
        assert(nodes[nodes.len() - 1] == nodes.last());
    }
}

#[verifier::rlimit(40)]
proof fn lemma_all_vnodes_remove(
    nodes: Seq<(Seq<char>, nat)>,
    m: int,
    name: Seq<char>,
    pred: spec_fn(RingEntry) -> bool,
)
    requires
        0 <= m < nodes.len(),
        nodes[m].0 == name,
        names_distinct(nodes),
        forall|k: int| 0 <= k < nodes.len() ==> !(#[trigger] nodes[k]).0.contains('#'),
        pred == (|e: RingEntry| !starts_with(e.1, name.push('#'))),
    ensures
        all_vnodes(nodes).filter(pred) == all_vnodes(nodes.remove(m)),
    decreases nodes.len(),
{
    let last = nodes.len() - 1;
    let init = nodes.drop_last();
    let lst = nodes.last();
    let v = vnodes_of(lst.0, lst.1);
    assert(nodes[last] == lst);
    assert(all_vnodes(nodes) == all_vnodes(init) + v);
    Seq::filter_distributes_over_add(all_vnodes(init), v, pred);
    lemma_init_nodes_ok(nodes);
    lemma_vnodes_filter(lst.0, lst.1, name, pred);
    if m == last {
        lemma_all_vnodes_keep(init, name, pred);
        assert(nodes.remove(m) =~= init);
        assert(all_vnodes(init) + Seq::<RingEntry>::empty() =~= all_vnodes(init));
    } else {
        assert(init[m] == nodes[m]);
        assert(lst.0 != name) by {
            assert(nodes[m].0 != nodes[last].0);
        }
        lemma_all_vnodes_remove(init, m, name, pred);
        let r = nodes.remove(m);
        assert(r.drop_last() =~= init.remove(m));
        assert(r.last() == lst);
        assert(all_vnodes(r) == all_vnodes(init.remove(m)) + v);
    }
}

proof fn lemma_first_distinct_starts_with(names: Seq<Option<Seq<char>>>, n: Seq<char>, count: nat)
    requires
        names.len() > 0,
        names[0] == Some(n),
        count > 0,
    ensures
        first_distinct(names, count).len() > 0,
        first_distinct(names, count)[0] == n,
    decreases names.len(),
{
    let init = names.drop_last();
    if names.len() == 1 {
        assert(init =~= Seq::<Option<Seq<char>>>::empty());
        assert(first_distinct(init, count) =~= Seq::<Seq<char>>::empty());
        assert(names.last() == Some(n));
    } else {
        assert(init[0] == names[0]);
        lemma_first_distinct_starts_with(init, n, count);
    }
}

/// The replicas of a key start with the node that serves it: on a ring with
/// entries, for any count above zero, the first node `get_nodes` lists for a
/// key is the node `get_node` gives for it, so replica lists follow the key's
/// position on the ring.
pub proof fn replicas_start_with_the_serving_node(ring: ConsistentHashRing, key: Seq<char>, count: nat)
    requires
        ring.wf(),
        ring.ring_view().len() > 0,
        count > 0,
    ensures
        replicas_for(ring.ring_view(), key, count).len() > 0,
        route_key(ring.ring_view(), key) == Some(replicas_for(ring.ring_view(), key, count)[0]),
{
    let s = ring.ring_view();
    let h = text_hash(key);
    keys_are_served_by_ring_nodes(ring, key);
    assert(sorted_by_hash(s));
    lemma_lower_bound(s, h);
    let st = clockwise_index(s, h);
    assert(0 <= st < s.len());
    let names = owners_from(s, st);
    assert((st + 0) % (s.len() as int) == st) by {
        vstd::arithmetic::div_mod::lemma_small_mod(st as nat, s.len() as nat);
    }
    assert(names[0] == owner_of(s[st].1));
    let n = route_key(s, key)->0;
    assert(names[0] == Some(n));
    lemma_first_distinct_starts_with(names, n, count);
}

/// The ring holds exactly the virtual nodes of its nodes, each node's count
/// of them, so its size is the sum of the nodes' virtual node counts: with
/// `get_all_nodes` listing `node_list` in order and `get_virtual_node_count`
/// reading `node_map`, `virtual_node_count` is the sum of
/// `get_virtual_node_count` over `get_all_nodes`.
pub proof fn ring_holds_every_virtual_node(ring: ConsistentHashRing)
    requires
        ring.wf(),
    ensures
        ring.node_map() == node_table(ring.node_list()),
        names_distinct(ring.node_list()),
        ring.ring_view().to_multiset() == all_vnodes(ring.node_list()).to_multiset(),
        ring.ring_view().len() == count_sum(ring.node_list()),
        forall|k: int|
            0 <= k < ring.node_list().len() ==> ring.node_map().dom().contains(
                (#[trigger] ring.node_list()[k]).0,
            ) && ring.node_map()[ring.node_list()[k].0] == ring.node_list()[k].1,
{
    assert forall|k: int| 0 <= k < ring.node_list().len() implies ring.node_map().dom().contains(
        (#[trigger] ring.node_list()[k]).0,
    ) && ring.node_map()[ring.node_list()[k].0] == ring.node_list()[k].1 by {
        lemma_node_table_get(ring.node_list(), k);
    }
    vstd::seq_lib::to_multiset_len(ring.ring_view());
    vstd::seq_lib::to_multiset_len(all_vnodes(ring.node_list()));
    lemma_all_vnodes_len(ring.node_list());
}

/// Adding a node that was not on the ring and then removing it gives the
/// ring back as it was: the same virtual nodes and the same node table, so
/// every key is served as before.
pub proof fn adding_then_removing_a_node_restores_the_ring(
    before: ConsistentHashRing,
    added: ConsistentHashRing,
    removed: ConsistentHashRing,
    name: Seq<char>,
    count: nat,
)
    requires
        before.wf(),
        !name.contains('#'),
        !before.node_map().dom().contains(name),
        added.ring_view() == insert_all_by_hash(before.ring_view(), vnodes_of(name, count)),
        added.node_map() == before.node_map().insert(name, count),
        removed.ring_view() == added.ring_view().filter(|e: RingEntry| !starts_with(e.1, name.push('#'))),
        removed.node_map() == added.node_map().remove(name),
    ensures
        removed.ring_view() == before.ring_view(),
        removed.node_map() == before.node_map(),
        forall|key: Seq<char>| route_key(removed.ring_view(), key) == route_key(before.ring_view(), key),
{
    let pred = |e: RingEntry| !starts_with(e.1, name.push('#'));
    let new = vnodes_of(name, count);
    assert forall|i: int| 0 <= i < new.len() implies !pred(#[trigger] new[i]) by {
        lemma_vnode_prefix(name, name, i as nat);
    }
    lemma_filter_insert_all_dropped(before.ring_view(), new, pred);
    let s = before.ring_view();
    let nodes = nodes_model(before.nodes@);
    assert forall|j: int| 0 <= j < s.len() implies pred(#[trigger] s[j]) by {
        assert(registered(nodes, s[j]));
        let (m, i) = choose|m: int, i: nat| 0 <= m < nodes.len() && i < nodes[m].1 && s[j] == vnode_entry(nodes[m].0, i);
        lemma_node_table_get(nodes, m);
        assert(nodes[m].0 != name);
        lemma_vnode_prefix(name, nodes[m].0, i);
    }
    lemma_filter_keeps_all(s, pred);
    assert(removed.node_map() =~= before.node_map());
}

/// Removing a node keeps every other node's keys where they were.
pub proof fn removing_a_node_keeps_other_keys(
    before: ConsistentHashRing,
    after: ConsistentHashRing,
    name: Seq<char>,
    key: Seq<char>,
)
    requires
        before.wf(),
        after.wf(),
        after.ring_view() == before.ring_view().filter(
            |e: RingEntry| !starts_with(e.1, name.push('#')),
        ),
        route_key(before.ring_view(), key) != Some(name),
        !name.contains('#'),
    ensures
        route_key(after.ring_view(), key) == route_key(before.ring_view(), key),
{
    let s = before.ring_view();
    let pred = |e: RingEntry| !starts_with(e.1, name.push('#'));
    let f = s.filter(pred);
    let h = text_hash(key);
    let nodes = nodes_model(before.nodes@);
    if s.len() == 0 {
        reveal(Seq::filter);
        return;
    }
    lemma_lower_bound(s, h);
    let lb = lower_bound(s, h);
    let c = clockwise_index(s, h);
    // the serving entry survives the removal
    assert(registered(nodes, s[c]));
    let (m, i) = choose|m: int, i: nat| 0 <= m < nodes.len() && i < nodes[m].1 && s[c] == vnode_entry(nodes[m].0, i);
    assert(!nodes[m].0.contains('#'));
    lemma_owner_of_vnode(nodes[m].0, i);
    lemma_vnode_prefix(name, nodes[m].0, i);
    assert(pred(s[c]));
    let a = s.take(lb);
    let b = s.skip(lb);
    assert(s =~= a + b);
    Seq::filter_distributes_over_add(a, b, pred);
    let fa = a.filter(pred);
    let fb = b.filter(pred);
    lemma_filter_elements(a, pred);
    lemma_filter_elements(b, pred);
    assert forall|j: int| 0 <= j < fa.len() implies fa[j].0 < h by {
        let x = choose|x: int| 0 <= x < a.len() && a[x] == fa[j];
        assert(a[x] == s[x]);
    }
    assert forall|j: int| 0 <= j < fb.len() implies fb[j].0 >= h by {
        let x = choose|x: int| 0 <= x < b.len() && b[x] == fb[j];
        assert(b[x] == s[lb + x]);
    }
    assert(f == fa + fb);
    if lb < s.len() {
        assert(b =~= seq![s[lb]] + b.drop_first());
        Seq::filter_distributes_over_add(seq![s[lb]], b.drop_first(), pred);
        lemma_filter_single(s[lb], pred);
        assert(fb[0] == s[lb]);
        assert forall|j: int| 0 <= j < fa.len() implies f[j].0 < h by {
            assert(f[j] == fa[j]);
        }
        assert forall|j: int| fa.len() <= j < f.len() implies f[j].0 >= h by {
            assert(f[j] == fb[j - fa.len()]);
        }
        lemma_lower_bound_unique(f, h, fa.len() as int);
        assert(f[fa.len() as int] == s[lb]);
    } else {
        assert(b.len() == 0);
        reveal(Seq::filter);
        assert(fb =~= Seq::<RingEntry>::empty());
        assert(f =~= fa);
        assert forall|j: int| 0 <= j < f.len() implies f[j].0 < h by {
            assert(f[j] == fa[j]);
        }
        lemma_lower_bound_unique(f, h, f.len() as int);
        assert(a =~= seq![s[0]] + a.drop_first());
        Seq::filter_distributes_over_add(seq![s[0]], a.drop_first(), pred);
        lemma_filter_single(s[0], pred);
        assert(f[0] == s[0]);
    }
}

} // verus!
