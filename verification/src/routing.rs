//! The router: maps keywords to storage nodes, either through the extended
//! prefix ring (with per-keyword overrides recorded on insert) or through a
//! consistent hash ring.
use vstd::prelude::*;
use vstd::string::StringSliceAdditionalSpecFns;
use crate::assoc::{keys_distinct, table, StrMap};
use crate::consistent_hash::{
    insert_all_by_hash, keys_are_served_by_ring_nodes, route_key, vnodes_of, AddNodeError,
    ConsistentHashRing, RingEntry,
};
use crate::epring::{header_line, entry_line, 
    digest_nibbles, keyword_hex_spec, entries_view, event_view, find_in, fresh_entries, insert_outcome, nibbles_of,
    prefix_matches_spec, presplit_outcome, ring_fits, with_count, drop_one, EPRing, EPRingRoute,
    EPRingSplitEvent, EntryView, SplitEventView,
};
use crate::text::{
    chars_of, decimal, distinct_strings, lemma_decimal_has_no, lowercase_spec, push_decimal, push_str,
    str_eq, string_from_chars, string_set, to_lowercase,
};

verus! {

/// Virtual nodes per storage node on the consistent hash ring.
pub const DEFAULT_CHRING_VIRTUAL_NODES_PER_NODE: usize = 150;

/// Which ring routes keywords.
#[derive(Debug, Clone, Copy, PartialEq, Eq, Structural)]
pub enum RouteMode {
    Epring,
    Chring,
}

/// The name of a route mode.
pub open spec fn mode_name(m: RouteMode) -> Seq<char> {
    match m {
        RouteMode::Epring => "epring"@,
        RouteMode::Chring => "chring"@,
    }
}

/// The message for a route mode name that is neither `epring` nor `chring`.
pub open spec fn msg_invalid_route_mode(lower: Seq<char>) -> Seq<char> {
    "invalid route mode: "@ + lower + ". expected epring|chring"@
}

/// The route mode an already lower-cased name stands for.
pub open spec fn route_mode_of(lower: Seq<char>) -> Result<RouteMode, Seq<char>> {
    if lower == "epring"@ {
        Ok(RouteMode::Epring)
    } else if lower == "chring"@ {
        Ok(RouteMode::Chring)
    } else {
        Err(msg_invalid_route_mode(lower))
    }
}

pub open spec fn mode_result_view(r: Result<RouteMode, String>) -> Result<RouteMode, Seq<char>> {
    match r {
        Ok(m) => Ok(m),
        Err(e) => Err(e@),
    }
}

impl RouteMode {
    pub fn as_str(self) -> (s: &'static str)
        ensures
            s@ == mode_name(self),
    {
        match self {
            RouteMode::Epring => "epring",
            RouteMode::Chring => "chring",
        }
    }
}

/// The route mode named by a lower-case string.
pub fn route_mode_from_lowercase(lower: &str) -> (r: Result<RouteMode, String>)
    ensures
        mode_result_view(r) == route_mode_of(lower@),
{
    if str_eq(lower, "epring") {
        Ok(RouteMode::Epring)
    } else if str_eq(lower, "chring") {
        Ok(RouteMode::Chring)
    } else {
        let mut cs: Vec<char> = Vec::new();
        push_str(&mut cs, "invalid route mode: ");
        push_str(&mut cs, lower);
        push_str(&mut cs, ". expected epring|chring");
        Err(string_from_chars(cs.as_slice()))
    }
}

/// The route mode a name stands for, in any case.
pub fn parse_route_mode(value: &str) -> (r: Result<RouteMode, String>)
    ensures
        mode_result_view(r) == route_mode_of(lowercase_spec(value@)),
        vstd::utf8::is_ascii_chars(value@) ==> mode_result_view(r) == route_mode_of(
            value@.map_values(|c: char| crate::text::ascii_lower(c)),
        ),
{
    let lower = to_lowercase(value);
    route_mode_from_lowercase(lower.as_str())
}

impl std::str::FromStr for RouteMode {
    type Err = String;

    fn from_str(value: &str) -> (r: Result<RouteMode, String>)
        ensures
            mode_result_view(r) == route_mode_of(lowercase_spec(value@)),
    {
        parse_route_mode(value)
    }
}

/// Where a keyword is stored: the prefix of its ring entry (empty on the
/// consistent hash ring), the node's name and its address.
#[derive(Debug, Clone, PartialEq, Eq)]
pub struct RouteTarget {
    pub prefix: String,
    pub node_name: String,
    pub addr: String,
}

pub struct TargetView {
    pub prefix: Seq<char>,
    pub node_name: Seq<char>,
    pub addr: Seq<char>,
}

impl View for RouteTarget {
    type V = TargetView;

    open spec fn view(&self) -> TargetView {
        TargetView { prefix: self.prefix@, node_name: self.node_name@, addr: self.addr@ }
    }
}

pub open spec fn target_view(r: Option<RouteTarget>) -> Option<TargetView> {
    match r {
        Some(t) => Some(t@),
        None => None,
    }
}

fn clone_target(t: &RouteTarget) -> (r: RouteTarget)
    ensures
        r@ == t@,
{
    RouteTarget { prefix: t.prefix.clone(), node_name: t.node_name.clone(), addr: t.addr.clone() }
}

/// What a split asks of the storage nodes: the parent prefix, the node that
/// held it, and the sixteen children with their nodes.
#[derive(Debug, Clone, PartialEq, Eq)]
pub struct PrefixSplitPlan {
    pub parent_prefix: String,
    pub source: RouteTarget,
    pub children: Vec<RouteTarget>,
}

pub struct PlanView {
    pub parent_prefix: Seq<char>,
    pub source: TargetView,
    pub children: Seq<TargetView>,
}

impl View for PrefixSplitPlan {
    type V = PlanView;

    open spec fn view(&self) -> PlanView {
        PlanView {
            parent_prefix: self.parent_prefix@,
            source: self.source@,
            children: self.children@.map_values(|t: RouteTarget| t@),
        }
    }
}

pub open spec fn plan_view(r: Option<PrefixSplitPlan>) -> Option<PlanView> {
    match r {
        Some(p) => Some(p@),
        None => None,
    }
}

/// The name of storage node `idx`.
pub open spec fn storager_name(idx: nat) -> Seq<char> {
    "storager-"@ + decimal(idx)
}

fn make_storager_name(idx: usize) -> (s: String)
    ensures
        s@ == storager_name(idx as nat),
{
    let mut cs: Vec<char> = Vec::new();
    push_str(&mut cs, "storager-");
    push_decimal(&mut cs, idx);
    string_from_chars(cs.as_slice())
}

pub proof fn lemma_decimal_nonempty(n: nat)
    ensures
        decimal(n).len() >= 1,
        n >= 10 ==> decimal(n).len() >= 2,
    decreases n,
{
    if n >= 10 {
        lemma_decimal_nonempty(n / 10);
    }
}

/// Different numbers have different decimal notations.
pub proof fn lemma_decimal_injective(a: nat, b: nat)
    requires
        decimal(a) == decimal(b),
    ensures
        a == b,
    decreases a,
{
    lemma_decimal_nonempty(a);
    lemma_decimal_nonempty(b);
    if a >= 10 && b >= 10 {
        let da = decimal(a / 10);
        let db = decimal(b / 10);
        assert(decimal(a) == da.push(crate::text::digit_char(a % 10)));
        assert(decimal(b) == db.push(crate::text::digit_char(b % 10)));
        assert(da == decimal(a).drop_last());
        assert(db == decimal(b).drop_last());
        assert(da.push(crate::text::digit_char(a % 10)).last() == crate::text::digit_char(a % 10));
        assert(db.push(crate::text::digit_char(b % 10)).last() == crate::text::digit_char(b % 10));
        assert(crate::text::digit_char(a % 10) == crate::text::digit_char(b % 10));
        assert(a % 10 == b % 10);
        lemma_decimal_injective(a / 10, b / 10);
        assert(a == (a / 10) * 10 + a % 10);
        assert(b == (b / 10) * 10 + b % 10);
    } else if a < 10 && b < 10 {
        assert(decimal(a)[0] == decimal(b)[0]);
        assert(decimal(a)[0] == crate::text::digit_char(a));
        assert(decimal(b)[0] == crate::text::digit_char(b));
    } else if a >= 10 {
        assert(decimal(b).len() == 1);
    } else {
        assert(decimal(a).len() == 1);
    }
}

pub proof fn lemma_storager_names_distinct(a: nat, b: nat)
    requires
        a != b,
    ensures
        storager_name(a) != storager_name(b),
        !storager_name(a).contains('#'),
{
    reveal_strlit("storager-");
    if storager_name(a) == storager_name(b) {
        assert(decimal(a) =~= storager_name(a).skip(9));
        assert(decimal(b) =~= storager_name(b).skip(9));
        lemma_decimal_injective(a, b);
    }
    lemma_decimal_has_no(a, '#');
    if storager_name(a).contains('#') {
        let i = choose|i: int| 0 <= i < storager_name(a).len() && storager_name(a)[i] == '#';
        if i >= 9 {
            assert(decimal(a)[i - 9] == '#');
        }
    }
}


/// The names of `n` storage nodes are `n` different names.
pub proof fn lemma_storager_names_len(n: nat)
    ensures
        Seq::new(n, |i: int| storager_name(i as nat)).to_set().len() == n,
{
    let names = Seq::new(n, |i: int| storager_name(i as nat));
    assert(names.no_duplicates()) by {
        assert forall|a: int, b: int| 0 <= a < names.len() && 0 <= b < names.len() && a != b implies names[a]
            != names[b] by {
            lemma_storager_names_distinct(a as nat, b as nat);
        }
    }
    names.unique_seq_to_set();
}

/// The consistent hash ring of the given nodes, added in order with
/// `DEFAULT_CHRING_VIRTUAL_NODES_PER_NODE` virtual nodes each.
pub open spec fn chring_view_of(names: Seq<Seq<char>>) -> Seq<RingEntry>
    decreases names.len(),
{
    if names.len() == 0 {
        Seq::empty()
    } else {
        insert_all_by_hash(
            chring_view_of(names.drop_last()),
            vnodes_of(names.last(), DEFAULT_CHRING_VIRTUAL_NODES_PER_NODE as nat),
        )
    }
}

/// Names fit for the consistent hash ring: distinct and free of `#`.
pub open spec fn chring_names_ok(names: Seq<Seq<char>>) -> bool {
    &&& names.no_duplicates()
    &&& forall|i: int| 0 <= i < names.len() ==> !(#[trigger] names[i]).contains('#')
}

fn build_consistent_hash_ring(node_names: &Vec<String>) -> (ring: ConsistentHashRing)
    requires
        chring_names_ok(node_names@.map_values(|s: String| s@)),
    ensures
        ring.wf(),
        ring.ring_view() == chring_view_of(node_names@.map_values(|s: String| s@)),
        ring.ring_view().len() == DEFAULT_CHRING_VIRTUAL_NODES_PER_NODE * node_names@.len(),
        ring.node_map().dom() == node_names@.map_values(|s: String| s@).to_set(),
        forall|n: Seq<char>| #[trigger] ring.node_map().dom().contains(n) ==> ring.node_map()[n]
            == DEFAULT_CHRING_VIRTUAL_NODES_PER_NODE as nat,
{
    let ghost names = node_names@.map_values(|s: String| s@);
    let mut ring = ConsistentHashRing::new();
    let mut i: usize = 0;
    assert(names.take(0) =~= Seq::<Seq<char>>::empty());
    assert(names.take(0).to_set() =~= Set::<Seq<char>>::empty());
    while i < node_names.len()
        invariant
            i <= node_names@.len(),
            names == node_names@.map_values(|s: String| s@),
            chring_names_ok(names),
            ring.wf(),
            ring.ring_view() == chring_view_of(names.take(i as int)),
            ring.ring_view().len() == DEFAULT_CHRING_VIRTUAL_NODES_PER_NODE * i,
            ring.node_map().dom() == names.take(i as int).to_set(),
            forall|n: Seq<char>| #[trigger] ring.node_map().dom().contains(n) ==> ring.node_map()[n]
                == DEFAULT_CHRING_VIRTUAL_NODES_PER_NODE as nat,
        decreases node_names@.len() - i,
    {
        let ghost before = names.take(i as int);
        let ghost after = names.take(i + 1);
        assert(after.drop_last() =~= before);
        assert(after.last() == names[i as int]);
        assert(names[i as int] == node_names@[i as int]@);
        let res = ring.add_node(node_names[i].as_str(), DEFAULT_CHRING_VIRTUAL_NODES_PER_NODE);
        proof {
            if res is Err {
                if !names[i as int].contains('#') {
                    assert(before.to_set().contains(names[i as int]));
                    let j = choose|j: int| 0 <= j < before.len() && before[j] == names[i as int];
                    assert(before[j] == names[j]);
                    assert(names.no_duplicates());
                }
                assert(false);
            }
            assert(after =~= before.push(names[i as int]));
            assert(after.to_set() =~= before.to_set().insert(names[i as int]));
        }
        i = i + 1;
    }
    assert(names.take(node_names@.len() as int) =~= names);
    ring
}

/// Routes keywords to storage nodes.
pub struct Router {
    storager_addrs: StrMap<String>,
    node_names: Vec<String>,
    node_addrs: Vec<String>,
    route_mode: RouteMode,
    epring: EPRing,
    chring: ConsistentHashRing,
    keyword_overrides: StrMap<RouteTarget>,
}

impl Router {
    /// Node names, in order.
    pub closed spec fn names(&self) -> Seq<Seq<char>> {
        self.node_names@.map_values(|s: String| s@)
    }

    /// Node addresses, in order.
    pub closed spec fn addrs(&self) -> Seq<Seq<char>> {
        self.node_addrs@.map_values(|s: String| s@)
    }

    /// Node name to address.
    pub closed spec fn addr_map(&self) -> Map<Seq<char>, Seq<char>> {
        self.storager_addrs.map()
    }

    pub closed spec fn mode(&self) -> RouteMode {
        self.route_mode
    }

    /// The prefix ring (empty on the consistent hash ring's side).
    pub closed spec fn ring(&self) -> EPRing {
        self.epring
    }

    /// The consistent hash ring (empty on the prefix ring's side).
    pub closed spec fn hash_ring(&self) -> ConsistentHashRing {
        self.chring
    }

    /// Keywords whose route was recorded on insert.
    pub closed spec fn overrides(&self) -> Map<Seq<char>, TargetView> {
        self.keyword_overrides.map()
    }

    pub closed spec fn wf(&self) -> bool {
        &&& self.storager_addrs.wf()
        &&& self.keyword_overrides.wf()
        &&& self.addr_map().dom() == self.names().to_set()
        &&& self.node_names@.len() <= self.node_addrs@.len()
        &&& self.epring.wf()
        &&& self.chring.wf()
        &&& self.route_mode == RouteMode::Epring ==> self.epring.names() == self.names()
        &&& self.route_mode == RouteMode::Chring ==> {
            &&& chring_names_ok(self.names())
            &&& self.chring.ring_view() == chring_view_of(self.names())
            &&& self.chring.ring_view().len() == DEFAULT_CHRING_VIRTUAL_NODES_PER_NODE
                * self.names().len()
            &&& self.chring.node_map().dom() == self.names().to_set()
        }
    }

    /// The rings as building the router leaves them: an address for each
    /// node; on the prefix ring's side the fresh entries for its nodes and
    /// an empty hash ring; on the hash ring's side each node with
    /// `DEFAULT_CHRING_VIRTUAL_NODES_PER_NODE` virtual nodes, added in order,
    /// and a prefix ring without entries; the split threshold given.
    pub open spec fn fresh_backend(&self, threshold: u64) -> bool {
        &&& self.addr_map().dom() == self.names().to_set()
        &&& self.ring().threshold() == threshold
        &&& self.mode() == RouteMode::Epring ==> {
            &&& self.ring().entry_list() == fresh_entries(self.names().len())
            &&& self.hash_ring().ring_view() == Seq::<RingEntry>::empty()
            &&& self.hash_ring().node_map() == Map::<Seq<char>, nat>::empty()
        }
        &&& self.mode() == RouteMode::Chring ==> {
            &&& self.ring().entry_list() == fresh_entries(0)
            &&& self.hash_ring().ring_view() == chring_view_of(self.names())
            &&& self.hash_ring().ring_view().len() == DEFAULT_CHRING_VIRTUAL_NODES_PER_NODE * self.names().len()
            &&& self.hash_ring().node_map().dom() == self.names().to_set()
            &&& forall|n: Seq<char>| #[trigger] self.hash_ring().node_map().dom().contains(n)
                ==> self.hash_ring().node_map()[n] == DEFAULT_CHRING_VIRTUAL_NODES_PER_NODE as nat
        }
    }

    /// Where `route_key_hex` sends the hexadecimal key `key`: nowhere on the
    /// consistent hash ring; on the prefix ring, the target of the leaf its
    /// digits lead to.
    pub open spec fn hex_route_spec(&self, key: Seq<u8>) -> Option<TargetView> {
        if self.mode() == RouteMode::Chring {
            None
        } else {
            match self.ring().route_digits(nibbles_of(key)) {
                Some(rt) => self.epring_target(rt),
                None => None,
            }
        }
    }

    /// The target of a prefix-ring route.
    pub open spec fn epring_target(&self, rt: EPRingRoute) -> Option<TargetView> {
        let es = self.ring().entry_list();
        let names = self.ring().names();
        if rt.entry_index < es.len() && rt.node_index < names.len() && self.addr_map().contains_key(
            names[rt.node_index as int],
        ) {
            Some(
                TargetView {
                    prefix: es[rt.entry_index as int].prefix,
                    node_name: names[rt.node_index as int],
                    addr: self.addr_map()[names[rt.node_index as int]],
                },
            )
        } else {
            None
        }
    }

    /// Where a keyword goes: on the prefix ring, its recorded route if any,
    /// else the entry its digest leads to; on the consistent hash ring, the
    /// node that serves it (with an empty prefix). `None` when the node has no
    /// address.
    pub open spec fn route_spec(&self, keyword: Seq<char>) -> Option<TargetView> {
        match self.mode() {
            RouteMode::Epring => if self.overrides().contains_key(keyword) {
                Some(self.overrides()[keyword])
            } else {
                match self.ring().route_digits(digest_nibbles(vstd::utf8::encode_utf8(keyword))) {
                    Some(rt) => self.epring_target(rt),
                    None => None,
                }
            },
            RouteMode::Chring => match route_key(self.hash_ring().ring_view(), keyword) {
                Some(name) => if self.addr_map().contains_key(name) {
                    Some(
                        TargetView {
                            prefix: Seq::empty(),
                            node_name: name,
                            addr: self.addr_map()[name],
                        },
                    )
                } else {
                    None
                },
                None => None,
            },
        }
    }

    /// `r` names one of the router's nodes.
    pub open spec fn serves(&self, r: Option<RouteTarget>) -> bool {
        match r {
            Some(t) => self.names().contains(t.node_name@),
            None => false,
        }
    }

    /// A router over the given addresses, named `storager-0`, `storager-1`,
    /// ... in order, routing with the prefix ring.
    pub fn new(storager_addrs: Vec<String>, split_threshold: usize) -> (router: Self)
        requires
            ring_fits(storager_addrs@.len() as nat),
        ensures
            router.wf(),
            router.mode() == RouteMode::Epring,
            router.names() == Seq::new(storager_addrs@.len(), |i: int| storager_name(i as nat)),
            router.addrs() == storager_addrs@.map_values(|s: String| s@),
            forall|i: int|
                0 <= i < storager_addrs@.len() ==> #[trigger] router.addr_map()[storager_name(
                    i as nat,
                )] == storager_addrs@[i]@,
            router.overrides() == Map::<Seq<char>, TargetView>::empty(),
            router.ring().entry_list() == fresh_entries(storager_addrs@.len() as nat),
            router.ring().threshold() == split_threshold as u64,
            router.fresh_backend(split_threshold as u64),
            router.addr_map().dom().len() == storager_addrs@.len(),
    {
        Self::new_with_mode(storager_addrs, split_threshold, RouteMode::Epring)
    }

    /// A router over the given addresses, named `storager-0`, `storager-1`,
    /// ... in order, routing in the given mode.
    pub fn new_with_mode(storager_addrs: Vec<String>, split_threshold: usize, route_mode: RouteMode) -> (router: Self)
        requires
            route_mode == RouteMode::Epring ==> ring_fits(storager_addrs@.len() as nat),
        ensures
            router.wf(),
            router.mode() == route_mode,
            router.names() == Seq::new(storager_addrs@.len(), |i: int| storager_name(i as nat)),
            router.addrs() == storager_addrs@.map_values(|s: String| s@),
            forall|i: int|
                0 <= i < storager_addrs@.len() ==> #[trigger] router.addr_map()[storager_name(
                    i as nat,
                )] == storager_addrs@[i]@,
            router.overrides() == Map::<Seq<char>, TargetView>::empty(),
            route_mode == RouteMode::Epring ==> router.ring().entry_list() == fresh_entries(
                storager_addrs@.len() as nat,
            ) && router.ring().threshold() == split_threshold as u64,
            route_mode == RouteMode::Chring ==> router.hash_ring().ring_view() == chring_view_of(
                router.names(),
            ),
            router.fresh_backend(split_threshold as u64),
            router.addr_map().dom().len() == storager_addrs@.len(),
    {
        let mut node_names: Vec<String> = Vec::new();
        let mut node_addrs: Vec<String> = Vec::new();
        let mut addr_map: StrMap<String> = StrMap::new();
        let ghost names_spec = Seq::new(storager_addrs@.len(), |i: int| storager_name(i as nat));
        let mut idx: usize = 0;
        while idx < storager_addrs.len()
            invariant
                idx <= storager_addrs@.len(),
                names_spec == Seq::new(storager_addrs@.len(), |i: int| storager_name(i as nat)),
                node_names@.map_values(|s: String| s@) == names_spec.take(idx as int),
                node_addrs@.len() == idx,
                forall|j: int| 0 <= j < idx ==> #[trigger] node_addrs@[j]@ == storager_addrs@[j]@,
                addr_map.wf(),
                addr_map.map().dom() == names_spec.take(idx as int).to_set(),
                forall|i: int|
                    0 <= i < idx ==> #[trigger] addr_map.map()[storager_name(i as nat)]
                        == storager_addrs@[i]@,
            decreases storager_addrs@.len() - idx,
        {
            let name = make_storager_name(idx);
            let ghost before = names_spec.take(idx as int);
            proof {
                assert forall|i: int| 0 <= i < idx implies #[trigger] addr_map.map()[storager_name(i as nat)]
                    == storager_addrs@[i]@ && storager_name(i as nat) != name@ by {
                    lemma_storager_names_distinct(i as nat, idx as nat);
                }
            }
            node_names.push(name.clone());
            let addr = storager_addrs[idx].clone();
            node_addrs.push(addr);
            let ghost old_map = addr_map.map();
            let addr2 = storager_addrs[idx].clone();
            addr_map.insert(name, addr2);
            proof {
                assert forall|i: int| 0 <= i < idx + 1 implies #[trigger] addr_map.map()[storager_name(i as nat)]
                    == storager_addrs@[i]@ by {
                    if i < idx {
                        lemma_storager_names_distinct(i as nat, idx as nat);
                        assert(old_map[storager_name(i as nat)] == storager_addrs@[i]@);
                    }
                }
                assert(names_spec.take(idx + 1) =~= before.push(storager_name(idx as nat)));
                assert(node_names@.map_values(|s: String| s@) =~= names_spec.take(idx + 1));
                before.lemma_push_to_set_commute(storager_name(idx as nat));
            }
            idx = idx + 1;
        }
        assert(names_spec.take(storager_addrs@.len() as int) =~= names_spec);
        assert(node_addrs@.map_values(|s: String| s@) =~= storager_addrs@.map_values(|s: String| s@));
        proof {
            assert(chring_names_ok(names_spec)) by {
                assert forall|a: int, b: int| 0 <= a < names_spec.len() && 0 <= b < names_spec.len() && a != b implies names_spec[a]
                    != names_spec[b] by {
                    lemma_storager_names_distinct(a as nat, b as nat);
                }
                assert forall|i: int| 0 <= i < names_spec.len() implies !(#[trigger] names_spec[i]).contains('#') by {
                    lemma_storager_names_distinct(i as nat, (i + 1) as nat);
                }
            }
        }
        let no_names: Vec<String> = Vec::new();
        let (epring, chring) = match route_mode {
            RouteMode::Epring => (
                EPRing::new(node_names.as_slice(), split_threshold as u64),
                ConsistentHashRing::new(),
            ),
            RouteMode::Chring => (
                EPRing::new(no_names.as_slice(), split_threshold as u64),
                build_consistent_hash_ring(&node_names),
            ),
        };
        proof {
            assert(no_names@.map_values(|s: String| s@) =~= Seq::<Seq<char>>::empty());
        }
        let router = Router {
            storager_addrs: addr_map,
            node_names,
            node_addrs,
            route_mode,
            epring,
            chring,
            keyword_overrides: StrMap::new(),
        };
        proof {
            if route_mode == RouteMode::Chring {
                assert(router.epring.names() =~= Seq::<Seq<char>>::empty());
            }
            lemma_storager_names_len(storager_addrs@.len() as nat);
        }
        router
    }

    pub fn route_mode(&self) -> (m: RouteMode)
        ensures
            m == self.mode(),
    {
        self.route_mode
    }

    /// Where a keyword is stored. On a router with nodes, every keyword that
    /// has no recorded route reaches one of the nodes.
    pub fn route_keyword(&self, keyword: &str) -> (r: Option<RouteTarget>)
        requires
            self.wf(),
        ensures
            target_view(r) == self.route_spec(keyword@),
            self.names().len() > 0 && (self.mode() == RouteMode::Chring
                || !self.overrides().contains_key(keyword@)) ==> self.serves(r),
    {
        match self.route_mode {
            RouteMode::Epring => {
                if let Some(t) = self.keyword_overrides.get(keyword) {
                    return Some(clone_target(t));
                }
                let route = match self.epring.route_keyword(keyword) {
                    Some(route) => route,
                    None => {
                        return None;
                    },
                };
                self.epring_route_target(&route)
            },
            RouteMode::Chring => {
                let node_name = match self.chring.get_node(keyword) {
                    Some(name) => name.to_owned(),
                    None => {
                        proof {
                            if self.names().len() > 0 {
                                keys_are_served_by_ring_nodes(self.chring, keyword@);
                            }
                        }
                        return None;
                    },
                };
                proof {
                    if self.names().len() > 0 {
                        keys_are_served_by_ring_nodes(self.chring, keyword@);
                    }
                }
                match self.storager_addrs.get(node_name.as_str()) {
                    Some(addr) => Some(RouteTarget { prefix: String::new(), node_name, addr: addr.clone() }),
                    None => None,
                }
            },
        }
    }

    /// The target of a prefix-ring route: its entry's prefix, its node's name
    /// and that node's address.
    fn epring_route_target(&self, route: &EPRingRoute) -> (r: Option<RouteTarget>)
        requires
            self.wf(),
            self.mode() == RouteMode::Epring,
        ensures
            target_view(r) == self.epring_target(*route),
            route.entry_index < self.ring().entry_list().len() && route.node_index < self.names().len()
                ==> self.serves(r),
    {
        let prefix = match self.epring.entry_prefix(route.entry_index) {
            Some(p) => p.to_owned(),
            None => {
                return None;
            },
        };
        let node_name = match self.epring.node_name(route.node_index) {
            Some(n) => n.to_owned(),
            None => {
                return None;
            },
        };
        match self.storager_addrs.get(node_name.as_str()) {
            Some(addr) => Some(RouteTarget { prefix, node_name, addr: addr.clone() }),
            None => None,
        }
    }
}

/// The address of the node that held a prefix before its split: the
/// `owner`-th address, else the address registered under its name.
pub open spec fn source_addr(addrs: Seq<Seq<char>>, amap: Map<Seq<char>, Seq<char>>, owner: usize) -> Option<Seq<char>> {
    if owner < addrs.len() {
        Some(addrs[owner as int])
    } else if amap.contains_key(storager_name(owner as nat)) {
        Some(amap[storager_name(owner as nat)])
    } else {
        None
    }
}

/// A child route can be reported: its entry exists and its node has an
/// address.
pub open spec fn child_ok(es: Seq<EntryView>, amap: Map<Seq<char>, Seq<char>>, rt: EPRingRoute) -> bool {
    rt.entry_index < es.len() && amap.contains_key(storager_name(rt.node_index as nat))
}

pub open spec fn child_target(es: Seq<EntryView>, amap: Map<Seq<char>, Seq<char>>, rt: EPRingRoute) -> TargetView {
    TargetView {
        prefix: es[rt.entry_index as int].prefix,
        node_name: storager_name(rt.node_index as nat),
        addr: amap[storager_name(rt.node_index as nat)],
    }
}

/// The plan for a split event over entries `es`: the parent's prefix, the
/// node that held it, and each child's prefix, node and address; `None` when
/// any of them is missing.
pub open spec fn plan_of(
    es: Seq<EntryView>,
    addrs: Seq<Seq<char>>,
    amap: Map<Seq<char>, Seq<char>>,
    ev: SplitEventView,
) -> Option<PlanView> {
    if ev.parent_entry_index < es.len() && source_addr(addrs, amap, ev.original_owner_index) is Some
        && forall|d: int| 0 <= d < ev.child_routes.len() ==> #[trigger] child_ok(es, amap, ev.child_routes[d]) {
        let parent = es[ev.parent_entry_index as int].prefix;
        Some(
            PlanView {
                parent_prefix: parent,
                source: TargetView {
                    prefix: parent,
                    node_name: storager_name(ev.original_owner_index as nat),
                    addr: source_addr(addrs, amap, ev.original_owner_index).unwrap(),
                },
                children: Seq::new(
                    ev.child_routes.len(),
                    |d: int| child_target(es, amap, ev.child_routes[d]),
                ),
            },
        )
    } else {
        None
    }
}

/// The plan for an optional event.
pub open spec fn plan_of_event(
    es: Seq<EntryView>,
    addrs: Seq<Seq<char>>,
    amap: Map<Seq<char>, Seq<char>>,
    ev: Option<SplitEventView>,
) -> Option<PlanView> {
    match ev {
        Some(e) => plan_of(es, addrs, amap, e),
        None => None,
    }
}

/// The route recorded for a keyword on insert: the given prefix and node, and
/// the node's address (empty when it has none).
pub open spec fn recorded_target(prefix: Seq<char>, node_name: Seq<char>, amap: Map<Seq<char>, Seq<char>>) -> TargetView {
    TargetView {
        prefix,
        node_name,
        addr: if amap.contains_key(node_name) {
            amap[node_name]
        } else {
            Seq::empty()
        },
    }
}

impl Router {
    /// The plan for a split event, on the current entries.
    pub open spec fn plan_spec(&self, ev: SplitEventView) -> Option<PlanView> {
        plan_of(self.ring().entry_list(), self.addrs(), self.addr_map(), ev)
    }

    fn build_split_plan(&self, event: &EPRingSplitEvent) -> (r: Option<PrefixSplitPlan>)
        requires
            self.wf(),
        ensures
            plan_view(r) == self.plan_spec(event@),
    {
        let ghost es = self.ring().entry_list();
        let ghost amap = self.addr_map();
        let parent_prefix = match self.epring.entry_prefix(event.parent_entry_index) {
            Some(p) => p.to_owned(),
            None => {
                return None;
            },
        };
        let source_node_name = make_storager_name(event.original_owner_index);
        let source_addr = if event.original_owner_index < self.node_addrs.len() {
            self.node_addrs[event.original_owner_index].clone()
        } else {
            match self.storager_addrs.get(source_node_name.as_str()) {
                Some(a) => a.clone(),
                None => {
                    return None;
                },
            }
        };
        let mut children: Vec<RouteTarget> = Vec::new();
        let mut i: usize = 0;
        while i < event.child_routes.len()
            invariant
                self.wf(),
                es == self.ring().entry_list(),
                amap == self.addr_map(),
                i <= event.child_routes@.len(),
                children@.len() == i,
                forall|d: int| 0 <= d < i ==> #[trigger] child_ok(es, amap, event.child_routes@[d]),
                forall|d: int|
                    0 <= d < i ==> #[trigger] children@[d]@ == child_target(
                        es,
                        amap,
                        event.child_routes@[d],
                    ),
            decreases event.child_routes@.len() - i,
        {
            let route = &event.child_routes[i];
            let prefix = match self.epring.entry_prefix(route.entry_index) {
                Some(p) => p.to_owned(),
                None => {
                    assert(!child_ok(es, amap, event.child_routes@[i as int]));
                    return None;
                },
            };
            let node_name = make_storager_name(route.node_index);
            let addr = match self.storager_addrs.get(node_name.as_str()) {
                Some(a) => a.clone(),
                None => {
                    assert(!child_ok(es, amap, event.child_routes@[i as int]));
                    return None;
                },
            };
            children.push(RouteTarget { prefix, node_name, addr });
            i = i + 1;
        }
        let plan = PrefixSplitPlan {
            parent_prefix: parent_prefix.clone(),
            source: RouteTarget { prefix: parent_prefix, node_name: source_node_name, addr: source_addr },
            children,
        };
        proof {
            let ev = event@;
            assert(plan@.children =~= Seq::new(
                ev.child_routes.len(),
                |d: int| child_target(es, amap, ev.child_routes[d]),
            ));
        }
        Some(plan)
    }

    /// Whether `route_key_hex` can route the key: always on the consistent
    /// hash ring; on the prefix ring when routing reads no digit past the
    /// key's end (see `EPRing::route_key_hex_defined`).
    pub fn route_key_hex_defined(&self, key_hex: &str) -> (b: bool)
        requires
            self.wf(),
        ensures
            b == (self.mode() == RouteMode::Epring ==> self.ring().digits_suffice(
                nibbles_of(key_hex.spec_bytes()),
            )),
    {
        match self.route_mode {
            RouteMode::Epring => self.epring.route_key_hex_defined(key_hex),
            RouteMode::Chring => true,
        }
    }

    /// Routes a hexadecimal key on the prefix ring; `None` on the consistent
    /// hash ring.
    pub fn route_key_hex(&self, key_hex: &str) -> (r: Option<RouteTarget>)
        requires
            self.wf(),
            self.mode() == RouteMode::Epring ==> self.ring().digits_suffice(
                nibbles_of(key_hex.spec_bytes()),
            ),
        ensures
            self.mode() == RouteMode::Chring ==> r is None,
            self.mode() == RouteMode::Epring ==> target_view(r) == match self.ring().route_digits(
                nibbles_of(key_hex.spec_bytes()),
            ) {
                Some(rt) => self.epring_target(rt),
                None => None,
            },
            target_view(r) == self.hex_route_spec(key_hex.spec_bytes()),
    {
        match self.route_mode {
            RouteMode::Epring => match self.epring.route_key_hex(key_hex) {
                Some(route) => self.epring_route_target(&route),
                None => None,
            },
            RouteMode::Chring => None,
        }
    }

    /// The node name and address a keyword routes to.
    pub fn get_storager_for_keyword(&self, keyword: &str) -> (r: Option<(String, String)>)
        requires
            self.wf(),
        ensures
            r is Some <==> self.route_spec(keyword@) is Some,
            r matches Some(p) ==> p.0@ == self.route_spec(keyword@).unwrap().node_name && p.1@
                == self.route_spec(keyword@).unwrap().addr,
    {
        match self.route_keyword(keyword) {
            Some(route) => Some((route.node_name, route.addr)),
            None => None,
        }
    }

    /// Records where a keyword was stored (its route from now on) and counts
    /// it under its prefix on the prefix ring; when that splits the prefix,
    /// returns the plan for moving its keywords. Nothing happens on the
    /// consistent hash ring.
    pub fn record_insert(&mut self, keyword: &str, prefix: &str, node_name: &str, root_summary: Vec<u8>) -> (r: Option<PrefixSplitPlan>)
        requires
            old(self).wf(),
            old(self).mode() == RouteMode::Epring ==> old(self).ring().has_room(),
        ensures
            final(self).wf(),
            final(self).mode() == old(self).mode(),
            final(self).names() == old(self).names(),
            final(self).addrs() == old(self).addrs(),
            final(self).addr_map() == old(self).addr_map(),
            old(self).mode() == RouteMode::Chring ==> *final(self) == *old(self) && r is None,
            old(self).mode() == RouteMode::Epring ==> {
                let outcome = insert_outcome(
                    old(self).ring().entry_list(),
                    old(self).ring().names().len(),
                    old(self).ring().threshold(),
                    old(self).ring().find_spec(prefix.spec_bytes()),
                    root_summary@,
                );
                &&& final(self).overrides() == old(self).overrides().insert(
                    keyword@,
                    recorded_target(prefix@, node_name@, old(self).addr_map()),
                )
                &&& final(self).ring().entry_list() == outcome.0
                &&& final(self).ring().names() == old(self).ring().names()
                &&& final(self).ring().threshold() == old(self).ring().threshold()
                &&& final(self).ring().root_len() == old(self).ring().root_len()
                &&& plan_view(r) == plan_of_event(
                    final(self).ring().entry_list(),
                    final(self).addrs(),
                    final(self).addr_map(),
                    outcome.1,
                )
                &&& final(self).route_spec(keyword@) == Some(
                    recorded_target(prefix@, node_name@, old(self).addr_map()),
                )
            },
    {
        match self.route_mode {
            RouteMode::Chring => None,
            RouteMode::Epring => {
                let addr = match self.storager_addrs.get(node_name) {
                    Some(a) => a.clone(),
                    None => String::new(),
                };
                let target = RouteTarget {
                    prefix: prefix.to_owned(),
                    node_name: node_name.to_owned(),
                    addr,
                };
                self.keyword_overrides.insert(keyword.to_owned(), target);
                let split = self.epring.record_insert(prefix, root_summary);
                match split {
                    Some(event) => self.build_split_plan(&event),
                    None => None,
                }
            },
        }
    }

    /// Forgets a keyword's recorded route and counts one keyword less under
    /// its prefix on the prefix ring. Nothing happens on the consistent hash
    /// ring.
    pub fn record_delete(&mut self, keyword: &str, prefix: &str, root_summary: Vec<u8>)
        requires
            old(self).wf(),
        ensures
            final(self).wf(),
            final(self).mode() == old(self).mode(),
            final(self).names() == old(self).names(),
            final(self).addrs() == old(self).addrs(),
            final(self).addr_map() == old(self).addr_map(),
            old(self).mode() == RouteMode::Chring ==> *final(self) == *old(self),
            old(self).mode() == RouteMode::Epring ==> {
                &&& final(self).overrides() == old(self).overrides().remove(keyword@)
                &&& final(self).ring().names() == old(self).ring().names()
                &&& final(self).ring().threshold() == old(self).ring().threshold()
                &&& final(self).ring().root_len() == old(self).ring().root_len()
                &&& final(self).ring().entry_list() == match old(self).ring().find_spec(
                    prefix.spec_bytes(),
                ) {
                    None => old(self).ring().entry_list(),
                    Some(i) => old(self).ring().entry_list().update(
                        i as int,
                        with_count(
                            old(self).ring().entry_list()[i as int],
                            drop_one(old(self).ring().entry_list()[i as int].counter),
                            root_summary@,
                        ),
                    ),
                }
            },
    {
        match self.route_mode {
            RouteMode::Chring => {},
            RouteMode::Epring => {
                self.keyword_overrides.remove(keyword);
                self.epring.record_delete(prefix, root_summary);
            },
        }
    }

    /// Replaces the summary of a prefix on the prefix ring.
    pub fn update_prefix_summary(&mut self, prefix: &str, root_summary: Vec<u8>)
        requires
            old(self).wf(),
        ensures
            final(self).wf(),
            final(self).mode() == old(self).mode(),
            final(self).names() == old(self).names(),
            final(self).addrs() == old(self).addrs(),
            final(self).addr_map() == old(self).addr_map(),
            final(self).overrides() == old(self).overrides(),
            final(self).hash_ring() == old(self).hash_ring(),
            final(self).ring().names() == old(self).ring().names(),
            final(self).ring().threshold() == old(self).ring().threshold(),
            final(self).ring().root_len() == old(self).ring().root_len(),
            final(self).ring().entry_list() == match old(self).ring().find_spec(prefix.spec_bytes()) {
                None => old(self).ring().entry_list(),
                Some(i) => old(self).ring().entry_list().update(
                    i as int,
                    with_count(
                        old(self).ring().entry_list()[i as int],
                        old(self).ring().entry_list()[i as int].counter,
                        root_summary@,
                    ),
                ),
            },
    {
        self.epring.update_root_summary(prefix, root_summary);
    }

    /// The number of storage nodes.
    pub fn storager_count(&self) -> (n: usize)
        requires
            self.wf(),
        ensures
            n == self.addr_map().dom().len(),
    {
        self.storager_addrs.len()
    }

    /// Every storage node with its address.
    pub fn get_all_storagers(&self) -> (r: Vec<(String, String)>)
        requires
            self.wf(),
        ensures
            keys_distinct(r@.map_values(|p: (String, String)| (p.0@, p.1@))),
            table(r@.map_values(|p: (String, String)| (p.0@, p.1@))) == self.addr_map(),
    {
        let mut r: Vec<(String, String)> = Vec::new();
        let mut i: usize = 0;
        let n = self.storager_addrs.len();
        while i < n
            invariant
                self.wf(),
                n == self.storager_addrs.pairs().len(),
                i <= n,
                r@.len() == i,
                forall|j: int|
                    0 <= j < i ==> (#[trigger] r@[j]).0@ == self.storager_addrs.pairs()[j].0 && r@[j].1@
                        == self.storager_addrs.pairs()[j].1,
            decreases n - i,
        {
            let (k, v) = self.storager_addrs.entry_at(i);
            let kc = k.clone();
            let vc = v.clone();
            r.push((kc, vc));
            i = i + 1;
        }
        assert(r@.map_values(|p: (String, String)| (p.0@, p.1@)) =~= self.storager_addrs.pairs());
        r
    }
}

pub proof fn lemma_filter_no_duplicates(s: Seq<Seq<char>>, pred: spec_fn(Seq<char>) -> bool)
    requires
        s.no_duplicates(),
    ensures
        s.filter(pred).no_duplicates(),
    decreases s.len(),
{
    reveal(Seq::filter);
    if s.len() > 0 {
        let init = s.drop_last();
        assert(init.no_duplicates()) by {
            assert forall|a: int, b: int| 0 <= a < init.len() && 0 <= b < init.len() && a != b implies init[a] != init[b] by {
                assert(init[a] == s[a] && init[b] == s[b]);
            }
        }
        lemma_filter_no_duplicates(init, pred);
        let fi = init.filter(pred);
        if pred(s.last()) {
            init.filter_lemma(pred);
            assert forall|a: int, b: int| 0 <= a < fi.len() + 1 && 0 <= b < fi.len() + 1 && a != b implies fi.push(s.last())[a]
                != fi.push(s.last())[b] by {
                if a == fi.len() {
                    assert(fi.contains(fi[b]));
                    init.lemma_filter_contains_rev(pred, fi[b]);
                    let j = choose|j: int| 0 <= j < init.len() && init[j] == fi[b];
                    assert(s[j] == init[j]);
                } else if b == fi.len() {
                    assert(fi.contains(fi[a]));
                    init.lemma_filter_contains_rev(pred, fi[a]);
                    let j = choose|j: int| 0 <= j < init.len() && init[j] == fi[a];
                    assert(s[j] == init[j]);
                }
            }
        }
    }
}

/// Filtering out an element that fails the predicate shortens the sequence.
pub proof fn lemma_filter_len_drop(s: Seq<Seq<char>>, pred: spec_fn(Seq<char>) -> bool, p: int)
    requires
        0 <= p < s.len(),
        !pred(s[p]),
    ensures
        s.filter(pred).len() < s.len(),
    decreases s.len(),
{
    reveal(Seq::filter);
    let init = s.drop_last();
    if p == s.len() - 1 {
        init.lemma_filter_len(pred);
    } else {
        assert(init[p] == s[p]);
        lemma_filter_len_drop(init, pred, p);
    }
}

/// `p` is the first position of `x` in `s`.
pub open spec fn first_position(s: Seq<Seq<char>>, x: Seq<char>, p: int) -> bool {
    &&& 0 <= p < s.len()
    &&& s[p] == x
    &&& forall|j: int| 0 <= j < p ==> s[j] != x
}

/// The keyword is kept: its digest does not agree with the prefix.
pub open spec fn keyword_kept(prefix: Seq<u8>) -> spec_fn(Seq<char>) -> bool {
    |k: Seq<char>| !prefix_matches_spec(vstd::utf8::encode_utf8(k), prefix)
}

impl Router {
    /// Builds fresh rings for the current nodes; recorded routes are dropped.
    fn rebuild_backend(&mut self, split_threshold: usize)
        requires
            old(self).storager_addrs.wf(),
            old(self).addr_map().dom() == old(self).names().to_set(),
            old(self).node_names@.len() <= old(self).node_addrs@.len(),
            old(self).mode() == RouteMode::Epring ==> ring_fits(old(self).names().len()),
            old(self).mode() == RouteMode::Chring ==> chring_names_ok(old(self).names()),
        ensures
            final(self).wf(),
            final(self).mode() == old(self).mode(),
            final(self).names() == old(self).names(),
            final(self).addrs() == old(self).addrs(),
            final(self).addr_map() == old(self).addr_map(),
            final(self).overrides() == Map::<Seq<char>, TargetView>::empty(),
            old(self).mode() == RouteMode::Epring ==> final(self).ring().entry_list()
                == fresh_entries(old(self).names().len()) && final(self).ring().threshold()
                == split_threshold as u64,
            old(self).mode() == RouteMode::Chring ==> final(self).hash_ring().ring_view()
                == chring_view_of(old(self).names()),
            final(self).fresh_backend(split_threshold as u64),
    {
        match self.route_mode {
            RouteMode::Epring => {
                self.epring = EPRing::new(self.node_names.as_slice(), split_threshold as u64);
                self.chring = ConsistentHashRing::new();
            },
            RouteMode::Chring => {
                let no_names: Vec<String> = Vec::new();
                assert(no_names@.map_values(|s: String| s@) =~= Seq::<Seq<char>>::empty());
                self.epring = EPRing::new(no_names.as_slice(), split_threshold as u64);
                self.chring = build_consistent_hash_ring(&self.node_names);
            },
        }
        self.keyword_overrides.clear();
    }

    /// Adds a node named after the current number of nodes, with the given
    /// address, and rebuilds the rings.
    pub fn add_storager(&mut self, addr: String, split_threshold: usize)
        requires
            old(self).wf(),
            old(self).mode() == RouteMode::Epring ==> ring_fits(old(self).names().len() + 1),
            old(self).mode() == RouteMode::Chring ==> !old(self).names().contains(
                storager_name(old(self).addr_map().dom().len()),
            ),
        ensures
            final(self).wf(),
            final(self).mode() == old(self).mode(),
            final(self).names() == old(self).names().push(
                storager_name(old(self).addr_map().dom().len()),
            ),
            final(self).addrs() == old(self).addrs().push(addr@),
            final(self).addr_map() == old(self).addr_map().insert(
                storager_name(old(self).addr_map().dom().len()),
                addr@,
            ),
            final(self).overrides() == Map::<Seq<char>, TargetView>::empty(),
            old(self).mode() == RouteMode::Epring ==> final(self).ring().entry_list()
                == fresh_entries(final(self).names().len()) && final(self).ring().threshold()
                == split_threshold as u64,
            old(self).mode() == RouteMode::Chring ==> final(self).hash_ring().ring_view()
                == chring_view_of(final(self).names()),
    {
        let idx = self.storager_addrs.len();
        let node_name = make_storager_name(idx);
        let ghost old_names = self.names();
        self.node_addrs.push(addr.clone());
        self.node_names.push(node_name.clone());
        self.storager_addrs.insert(node_name, addr);
        proof {
            assert(self.names() =~= old_names.push(storager_name(idx as nat)));
            old_names.lemma_push_to_set_commute(storager_name(idx as nat));
            assert(self.addrs() =~= old(self).addrs().push(addr@));
            if self.route_mode == RouteMode::Chring {
                assert forall|i: int| 0 <= i < self.names().len() implies !(#[trigger] self.names()[i]).contains('#') by {
                    if i == old_names.len() {
                        lemma_storager_names_distinct(idx as nat, (idx + 1) as nat);
                    } else {
                        assert(self.names()[i] == old_names[i]);
                    }
                }
                assert(self.names().no_duplicates()) by {
                    assert forall|a: int, b: int| 0 <= a < self.names().len() && 0 <= b < self.names().len() && a != b implies self.names()[a]
                        != self.names()[b] by {
                        if a == old_names.len() {
                            assert(old_names.contains(old_names[b]));
                        } else if b == old_names.len() {
                            assert(old_names.contains(old_names[a]));
                        }
                    }
                }
            }
        }
        self.rebuild_backend(split_threshold);
    }

    /// Removes a node (its first address, its name everywhere) and rebuilds
    /// the rings.
    pub fn remove_storager(&mut self, node_name: &str, split_threshold: usize)
        requires
            old(self).wf(),
        ensures
            final(self).wf(),
            final(self).mode() == old(self).mode(),
            final(self).names() == old(self).names().filter(|n: Seq<char>| n != node_name@),
            !old(self).names().contains(node_name@) ==> final(self).addrs() == old(self).addrs(),
            old(self).names().contains(node_name@) ==> exists|p: int|
                first_position(old(self).names(), node_name@, p) && final(self).addrs() == old(
                    self,
                ).addrs().remove(p),
            final(self).addr_map() == old(self).addr_map().remove(node_name@),
            final(self).overrides() == Map::<Seq<char>, TargetView>::empty(),
            old(self).mode() == RouteMode::Epring ==> final(self).ring().entry_list()
                == fresh_entries(final(self).names().len()) && final(self).ring().threshold()
                == split_threshold as u64,
            old(self).mode() == RouteMode::Chring ==> final(self).hash_ring().ring_view()
                == chring_view_of(final(self).names()),
    {
        let ghost names = self.names();
        let ghost keep = |n: Seq<char>| n != node_name@;
        let pos = self.first_name_position(node_name);
        let p: usize = match pos {
            Some(j) => j,
            None => self.node_names.len(),
        };
        if p < self.node_names.len() {
            self.node_addrs.remove(p);
            proof {
                assert(first_position(names, node_name@, p as int));
                lemma_filter_len_drop(names, keep, p as int);
                assert(self.addrs() =~= old(self).addrs().remove(p as int));
            }
        } else {
            proof {
                assert(!names.contains(node_name@));
            }
        }
        self.storager_addrs.remove(node_name);
        let mut kept: Vec<String> = Vec::new();
        let mut i: usize = 0;
        while i < self.node_names.len()
            invariant
                i <= self.node_names@.len(),
                names == self.names(),
                keep == (|n: Seq<char>| n != node_name@),
                kept@.map_values(|s: String| s@) == names.take(i as int).filter(keep),
            decreases self.node_names@.len() - i,
        {
            proof {
                reveal(Seq::filter);
                assert(names.take(i + 1).drop_last() =~= names.take(i as int));
            }
            if !str_eq(self.node_names[i].as_str(), node_name) {
                let ghost before = kept@;
                kept.push(self.node_names[i].clone());
                assert(kept@.map_values(|s: String| s@) =~= before.map_values(|s: String| s@).push(
                    names[i as int],
                ));
            }
            i = i + 1;
        }
        assert(names.take(names.len() as int) =~= names);
        self.node_names = kept;
        proof {
            let fl = names.filter(keep);
            assert(self.names() == fl);
            assert forall|x: Seq<char>| #[trigger] fl.contains(x) <==> names.contains(x) && x != node_name@ by {
                names.filter_lemma(keep);
                if fl.contains(x) {
                    names.lemma_filter_contains_rev(keep, x);
                    let j = choose|j: int| 0 <= j < fl.len() && fl[j] == x;
                    assert(keep(fl[j]));
                }
                if names.contains(x) && x != node_name@ {
                    let j = choose|j: int| 0 <= j < names.len() && names[j] == x;
                    names.lemma_filter_contains(keep, j);
                }
            }
            assert(fl.to_set() =~= names.to_set().remove(node_name@));
            names.lemma_filter_len(keep);
            if self.route_mode == RouteMode::Epring {
                old(self).epring.lemma_ring_fits();
                crate::epring::lemma_ring_fits_fewer(fl.len(), names.len());
            }
            if self.route_mode == RouteMode::Chring {
                names.filter_lemma(keep);
                assert forall|a: int| 0 <= a < fl.len() implies !(#[trigger] fl[a]).contains('#') by {
                    assert(fl.contains(fl[a]));
                    names.lemma_filter_contains_rev(keep, fl[a]);
                    let j = choose|j: int| 0 <= j < names.len() && names[j] == fl[a];
                }
                lemma_filter_no_duplicates(names, keep);
            }
        }
        self.rebuild_backend(split_threshold);
    }

    fn first_name_position(&self, node_name: &str) -> (r: Option<usize>)
        ensures
            r matches Some(p) ==> first_position(self.names(), node_name@, p as int),
            r is None ==> !self.names().contains(node_name@),
    {
        let mut p: usize = 0;
        while p < self.node_names.len()
            invariant
                p <= self.node_names@.len(),
                forall|j: int| 0 <= j < p ==> self.names()[j] != node_name@,
            decreases self.node_names@.len() - p,
        {
            if str_eq(self.node_names[p].as_str(), node_name) {
                return Some(p);
            }
            p = p + 1;
        }
        None
    }

    /// Fresh rings for the current nodes; recorded routes are dropped.
    pub fn reset(&mut self, split_threshold: usize)
        requires
            old(self).wf(),
        ensures
            final(self).wf(),
            final(self).mode() == old(self).mode(),
            final(self).names() == old(self).names(),
            final(self).addrs() == old(self).addrs(),
            final(self).addr_map() == old(self).addr_map(),
            final(self).overrides() == Map::<Seq<char>, TargetView>::empty(),
            old(self).mode() == RouteMode::Epring ==> final(self).ring().entry_list()
                == fresh_entries(old(self).names().len()) && final(self).ring().threshold()
                == split_threshold as u64,
            old(self).mode() == RouteMode::Chring ==> final(self).hash_ring().ring_view()
                == chring_view_of(old(self).names()),
            final(self).fresh_backend(split_threshold as u64),
    {
        proof {
            if self.route_mode == RouteMode::Epring {
                self.epring.lemma_ring_fits();
            }
        }
        self.rebuild_backend(split_threshold);
    }

    /// Drops the recorded route of every keyword whose digest agrees with the
    /// prefix (prefix ring only).
    pub fn clear_keyword_overrides_for_prefix(&mut self, prefix: &str)
        requires
            old(self).wf(),
        ensures
            final(self).wf(),
            final(self).mode() == old(self).mode(),
            final(self).names() == old(self).names(),
            final(self).addrs() == old(self).addrs(),
            final(self).addr_map() == old(self).addr_map(),
            final(self).ring() == old(self).ring(),
            final(self).hash_ring() == old(self).hash_ring(),
            old(self).mode() == RouteMode::Chring ==> final(self).overrides() == old(self).overrides(),
            old(self).mode() == RouteMode::Epring ==> final(self).overrides() == old(
                self,
            ).overrides().filter_keys(keyword_kept(prefix.spec_bytes())),
    {
        if self.route_mode == RouteMode::Chring {
            return;
        }
        let ghost pairs = self.keyword_overrides.pairs();
        let ghost keep = keyword_kept(prefix.spec_bytes());
        let mut kept: StrMap<RouteTarget> = StrMap::new();
        let n = self.keyword_overrides.len();
        let mut i: usize = 0;
        while i < n
            invariant
                self.wf(),
                pairs == self.keyword_overrides.pairs(),
                n == pairs.len(),
                i <= n,
                kept.wf(),
                keep == keyword_kept(prefix.spec_bytes()),
                kept.map() == table(pairs.take(i as int)).filter_keys(keep),
            decreases n - i,
        {
            let (k, t) = self.keyword_overrides.entry_at(i);
            proof {
                let before = pairs.take(i as int);
                assert(pairs.take(i + 1) =~= before.push(pairs[i as int]));
                assert(keys_distinct(before)) by {
                    assert forall|a: int, b: int| 0 <= a < before.len() && 0 <= b < before.len() && a != b implies (#[trigger] before[a]).0
                        != (#[trigger] before[b]).0 by {
                        assert(before[a] == pairs[a] && before[b] == pairs[b]);
                    }
                }
                assert forall|m: int| 0 <= m < before.len() implies (#[trigger] before[m]).0 != pairs[i as int].0 by {
                    assert(before[m] == pairs[m]);
                }
                crate::assoc::lemma_table_absent(before, pairs[i as int].0);
                crate::assoc::lemma_table_push(before, pairs[i as int].0, pairs[i as int].1);
            }
            if !EPRing::keyword_matches_prefix(k.as_str(), prefix) {
                kept.insert(k.clone(), clone_target(t));
            }
            proof {
                let before = pairs.take(i as int);
                let after = pairs.take(i + 1);
                assert(kept.map() =~= table(after).filter_keys(keep));
            }
            i = i + 1;
        }
        assert(pairs.take(n as int) =~= pairs);
        self.keyword_overrides = kept;
    }
}

/// How many leading positions of `order` have a length of at most `l`.
pub open spec fn leading_le(order: Seq<int>, lens: Seq<nat>, l: nat) -> nat
    decreases order.len(),
{
    if order.len() == 0 {
        0
    } else if lens[order[0]] <= l {
        1 + leading_le(order.drop_first(), lens, l)
    } else {
        0
    }
}

/// The positions `0..k`, stably sorted by length: each position goes after
/// every earlier one whose length is at most its own.
pub open spec fn order_by_len(lens: Seq<nat>, k: nat) -> Seq<int>
    decreases k,
{
    if k == 0 {
        Seq::empty()
    } else {
        let o = order_by_len(lens, (k - 1) as nat);
        o.insert(leading_le(o, lens, lens[k - 1]) as int, k - 1)
    }
}

proof fn lemma_order_by_len_len(lens: Seq<nat>, k: nat)
    ensures
        order_by_len(lens, k).len() == k,
        forall|i: int| 0 <= i < k ==> 0 <= #[trigger] order_by_len(lens, k)[i] < k,
    decreases k,
{
    if k > 0 {
        let o = order_by_len(lens, (k - 1) as nat);
        lemma_order_by_len_len(lens, (k - 1) as nat);
        lemma_leading_le_bound(o, lens, lens[k - 1]);
        let pos = leading_le(o, lens, lens[k - 1]) as int;
        assert forall|i: int| 0 <= i < k implies 0 <= #[trigger] order_by_len(lens, k)[i] < k by {
            if i < pos {
                assert(order_by_len(lens, k)[i] == o[i]);
            } else if i > pos {
                assert(order_by_len(lens, k)[i] == o[i - 1]);
            }
        }
    }
}

proof fn lemma_leading_le_bound(order: Seq<int>, lens: Seq<nat>, l: nat)
    ensures
        leading_le(order, lens, l) <= order.len(),
    decreases order.len(),
{
    if order.len() > 0 {
        lemma_leading_le_bound(order.drop_first(), lens, l);
    }
}

/// Pre-split requests processed in order over entries `es`: each may split
/// its prefix, and each split that can be reported adds its plan.
pub open spec fn presplit_fold(
    es: Seq<EntryView>,
    n: nat,
    r: nat,
    thr: u64,
    addrs: Seq<Seq<char>>,
    amap: Map<Seq<char>, Seq<char>>,
    items: Seq<(Seq<u8>, u64)>,
) -> (Seq<EntryView>, Seq<PlanView>)
    decreases items.len(),
{
    if items.len() == 0 {
        (es, Seq::empty())
    } else {
        let prev = presplit_fold(es, n, r, thr, addrs, amap, items.drop_last());
        let step = presplit_outcome(
            prev.0,
            n,
            thr,
            find_in(prev.0, r, items.last().0),
            items.last().1,
        );
        match plan_of_event(step.0, addrs, amap, step.1) {
            Some(p) => (step.0, prev.1.push(p)),
            None => (step.0, prev.1),
        }
    }
}

/// The byte lengths of the prefixes.
pub open spec fn prefix_lens(prefix_counts: Seq<(String, usize)>) -> Seq<nat> {
    prefix_counts.map_values(|p: (String, usize)| vstd::utf8::encode_utf8(p.0@).len())
}

/// The requests in the order they are handled: shorter prefixes first.
pub open spec fn presplit_items(prefix_counts: Seq<(String, usize)>) -> Seq<(Seq<u8>, u64)> {
    order_by_len(prefix_lens(prefix_counts), prefix_counts.len()).map_values(
        |j: int| (vstd::utf8::encode_utf8(prefix_counts[j].0@), prefix_counts[j].1 as u64),
    )
}

/// The positions of the prefixes, stably sorted by byte length.
fn sorted_positions(prefix_counts: &Vec<(String, usize)>) -> (order: Vec<usize>)
    ensures
        order@.map_values(|j: usize| j as int) == order_by_len(
            prefix_lens(prefix_counts@),
            prefix_counts@.len(),
        ),
{
    let ghost lens = prefix_lens(prefix_counts@);
    let mut order: Vec<usize> = Vec::new();
    let mut k: usize = 0;
    while k < prefix_counts.len()
        invariant
            k <= prefix_counts@.len(),
            lens == prefix_lens(prefix_counts@),
            order@.map_values(|j: usize| j as int) == order_by_len(lens, k as nat),
        decreases prefix_counts@.len() - k,
    {
        proof {
            lemma_order_by_len_len(lens, k as nat);
        }
        let ghost o = order_by_len(lens, k as nat);
        let sk = prefix_counts[k].0.as_str();
        let lk = sk.as_bytes().len();
        assert(sk@ == prefix_counts@[k as int].0@);
        assert(lens[k as int] == vstd::utf8::encode_utf8(prefix_counts@[k as int].0@).len());
        assert(lk == lens[k as int]);
        let mut pos: usize = 0;
        assert(o.skip(0) =~= o);
        loop
            invariant
                0 <= pos <= order@.len(),
                o == order@.map_values(|j: usize| j as int),
                o.len() == k,
                forall|i: int| 0 <= i < k ==> 0 <= #[trigger] o[i] < k,
                k < prefix_counts@.len(),
                lens == prefix_lens(prefix_counts@),
                lk == lens[k as int],
                leading_le(o, lens, lk as nat) == pos + leading_le(o.skip(pos as int), lens, lk as nat),
            ensures
                leading_le(o.skip(pos as int), lens, lk as nat) == 0,
            decreases order@.len() - pos,
        {
            if pos >= order.len() {
                proof {
                    assert(o.skip(pos as int).len() == 0);
                }
                break;
            }
            let j = order[pos];
            assert(o[pos as int] == j);
            let sj = prefix_counts[j].0.as_str();
            let lj = sj.as_bytes().len();
            assert(sj@ == prefix_counts@[j as int].0@);
            assert(lens[j as int] == vstd::utf8::encode_utf8(prefix_counts@[j as int].0@).len());
            assert(lj == lens[j as int]);
            if lj > lk {
                proof {
                    assert(o.skip(pos as int)[0] == o[pos as int]);
                }
                break;
            }
            proof {
                assert(o.skip(pos as int).drop_first() =~= o.skip(pos + 1));
            }
            pos = pos + 1;
        }
        proof {
            lemma_leading_le_bound(o.skip(pos as int), lens, lk as nat);
            if pos < o.len() {
                assert(o.skip(pos as int)[0] == o[pos as int]);
            }
        }
        let ghost before = order@;
        order.insert(pos, k);
        proof {
            assert(leading_le(o, lens, lens[k as int]) == pos);
            assert(order@.map_values(|j: usize| j as int) =~= o.insert(pos as int, k as int));
        }
        k = k + 1;
    }
    order
}

impl Router {
    /// Splits ahead of time every prefix that holds no keyword yet and is
    /// about to receive more keywords than the split threshold; prefixes are
    /// handled shortest first (in their given order among equal lengths).
    /// Returns the plans of the splits. Nothing happens on the consistent hash
    /// ring.
    pub fn presplit_empty_prefixes(&mut self, prefix_counts: &Vec<(String, usize)>) -> (plans: Vec<
        PrefixSplitPlan,
    >)
        requires
            old(self).wf(),
            old(self).mode() == RouteMode::Epring ==> old(self).ring().entry_list().len() + 16
                * prefix_counts@.len() <= usize::MAX,
        ensures
            final(self).wf(),
            final(self).mode() == old(self).mode(),
            final(self).names() == old(self).names(),
            final(self).addrs() == old(self).addrs(),
            final(self).addr_map() == old(self).addr_map(),
            final(self).overrides() == old(self).overrides(),
            old(self).mode() == RouteMode::Chring ==> *final(self) == *old(self) && plans@.len() == 0,
            old(self).mode() == RouteMode::Epring ==> {
                &&& final(self).ring().names() == old(self).ring().names()
                &&& final(self).ring().threshold() == old(self).ring().threshold()
                &&& final(self).ring().root_len() == old(self).ring().root_len()
                &&& (final(self).ring().entry_list(), plans@.map_values(|p: PrefixSplitPlan| p@))
                    == presplit_fold(
                    old(self).ring().entry_list(),
                    old(self).ring().names().len(),
                    old(self).ring().root_len(),
                    old(self).ring().threshold(),
                    old(self).addrs(),
                    old(self).addr_map(),
                    presplit_items(prefix_counts@),
                )
            },
    {
        let mut plans: Vec<PrefixSplitPlan> = Vec::new();
        if self.route_mode == RouteMode::Chring {
            return plans;
        }
        let order = sorted_positions(prefix_counts);
        let ghost items = presplit_items(prefix_counts@);
        let ghost es0 = self.ring().entry_list();
        let ghost n = self.ring().names().len();
        let ghost r = self.ring().root_len();
        let ghost thr = self.ring().threshold();
        let ghost addrs = self.addrs();
        let ghost amap = self.addr_map();
        proof {
            let ob = order_by_len(prefix_lens(prefix_counts@), prefix_counts@.len());
            lemma_order_by_len_len(prefix_lens(prefix_counts@), prefix_counts@.len());
            assert(order@.len() == prefix_counts@.len());
            assert forall|t: int| 0 <= t < order@.len() implies #[trigger] order@[t] < prefix_counts@.len() by {
                assert(order@.map_values(|j: usize| j as int)[t] == order@[t] as int);
            }
            assert forall|t: int| 0 <= t < order@.len() implies #[trigger] items[t] == (
                vstd::utf8::encode_utf8(prefix_counts@[order@[t] as int].0@),
                prefix_counts@[order@[t] as int].1 as u64,
            ) by {
                assert(order@.map_values(|j: usize| j as int)[t] == order@[t] as int);
                assert(ob[t] == order@[t] as int);
            }
            assert(items.take(0) =~= Seq::<(Seq<u8>, u64)>::empty());
            assert(plans@.map_values(|p: PrefixSplitPlan| p@) =~= Seq::<PlanView>::empty());
        }
        let mut i: usize = 0;
        while i < order.len()
            invariant
                self.wf(),
                self.mode() == RouteMode::Epring,
                i <= order@.len(),
                order@.len() == prefix_counts@.len(),
                items == presplit_items(prefix_counts@),
                items.len() == order@.len(),
                forall|t: int| 0 <= t < order@.len() ==> #[trigger] order@[t] < prefix_counts@.len(),
                forall|t: int|
                    0 <= t < order@.len() ==> #[trigger] items[t] == (
                        vstd::utf8::encode_utf8(prefix_counts@[order@[t] as int].0@),
                        prefix_counts@[order@[t] as int].1 as u64,
                    ),
                self.names() == old(self).names(),
                self.addrs() == addrs,
                self.addr_map() == amap,
                self.overrides() == old(self).overrides(),
                self.ring().names().len() == n,
                self.ring().names() == old(self).ring().names(),
                self.ring().root_len() == r,
                self.ring().threshold() == thr,
                self.ring().entry_list().len() <= es0.len() + 16 * i,
                es0.len() + 16 * prefix_counts@.len() <= usize::MAX,
                (self.ring().entry_list(), plans@.map_values(|p: PrefixSplitPlan| p@)) == presplit_fold(
                    es0,
                    n,
                    r,
                    thr,
                    addrs,
                    amap,
                    items.take(i as int),
                ),
            decreases order@.len() - i,
        {
            let j = order[i];
            let prefix = prefix_counts[j].0.as_str();
            let count = prefix_counts[j].1 as u64;
            let ghost es_before = self.ring().entry_list();
            let ghost plans_before = plans@.map_values(|p: PrefixSplitPlan| p@);
            proof {
                assert(items.take(i + 1).drop_last() =~= items.take(i as int));
                assert(items.take(i + 1).last() == items[i as int]);
                assert(prefix.spec_bytes() == vstd::utf8::encode_utf8(prefix_counts@[j as int].0@));
            }
            let event = self.epring.maybe_presplit_empty_prefix(prefix, count);
            proof {
                lemma_presplit_outcome_len(es_before, n, thr, self.ring().find_spec(prefix.spec_bytes()), count);
            }
            match event {
                Some(ev) => {
                    match self.build_split_plan(&ev) {
                        Some(plan) => {
                            plans.push(plan);
                            assert(plans@.map_values(|p: PrefixSplitPlan| p@) =~= plans_before.push(plan@));
                        },
                        None => {},
                    }
                },
                None => {},
            }
            i = i + 1;
        }
        proof {
            assert(items.take(order@.len() as int) =~= items);
        }
        plans
    }
}

proof fn lemma_presplit_outcome_len(es: Seq<EntryView>, n: nat, thr: u64, found: Option<usize>, incoming: u64)
    ensures
        presplit_outcome(es, n, thr, found, incoming).0.len() <= es.len() + 16,
{
}

/// `a` comes before `b` in lexicographic order of characters.
pub open spec fn lex_lt(a: Seq<char>, b: Seq<char>) -> bool
    decreases a.len(),
{
    if a.len() == 0 {
        b.len() > 0
    } else if b.len() == 0 {
        false
    } else if a[0] != b[0] {
        (a[0] as int) < (b[0] as int)
    } else {
        lex_lt(a.drop_first(), b.drop_first())
    }
}

pub proof fn lemma_lex_asym(a: Seq<char>, b: Seq<char>)
    ensures
        lex_lt(a, b) ==> !lex_lt(b, a),
    decreases a.len(),
{
    if a.len() > 0 && b.len() > 0 && a[0] == b[0] {
        lemma_lex_asym(a.drop_first(), b.drop_first());
    }
}

pub proof fn lemma_lex_trans(a: Seq<char>, b: Seq<char>, c: Seq<char>)
    requires
        lex_lt(a, b),
        lex_lt(b, c),
    ensures
        lex_lt(a, c),
    decreases a.len(),
{
    if a.len() > 0 && b.len() > 0 && c.len() > 0 && a[0] == b[0] && b[0] == c[0] {
        lemma_lex_trans(a.drop_first(), b.drop_first(), c.drop_first());
    }
}

pub proof fn lemma_lex_total(a: Seq<char>, b: Seq<char>)
    requires
        a != b,
    ensures
        lex_lt(a, b) || lex_lt(b, a),
    decreases a.len(),
{
    if a.len() == 0 {
        if b.len() == 0 {
            assert(a =~= b);
        }
    } else if b.len() > 0 && a[0] == b[0] {
        if a.drop_first() == b.drop_first() {
            assert(a =~= seq![a[0]] + a.drop_first());
            assert(b =~= seq![b[0]] + b.drop_first());
        }
        lemma_lex_total(a.drop_first(), b.drop_first());
    } else if b.len() == 0 {
    }
}

/// Names in strictly increasing lexicographic order.
pub open spec fn sorted_names(ns: Seq<Seq<char>>) -> bool {
    forall|i: int, j: int| 0 <= i < j < ns.len() ==> lex_lt(#[trigger] ns[i], #[trigger] ns[j])
}

pub(crate) fn str_lt(a: &str, b: &str) -> (r: bool)
    ensures
        r == lex_lt(a@, b@),
{
    let x = chars_of(a);
    let y = chars_of(b);
    let mut i: usize = 0;
    assert(a@.skip(0) =~= a@);
    assert(b@.skip(0) =~= b@);
    while i < x.len() && i < y.len()
        invariant
            i <= x@.len(),
            i <= y@.len(),
            x@ == a@,
            y@ == b@,
            lex_lt(a@, b@) == lex_lt(a@.skip(i as int), b@.skip(i as int)),
        decreases x@.len() - i,
    {
        if x[i] != y[i] {
            proof {
                assert(a@.skip(i as int)[0] == x@[i as int]);
                assert(b@.skip(i as int)[0] == y@[i as int]);
            }
            return x[i] < y[i];
        }
        proof {
            assert(a@.skip(i as int).drop_first() =~= a@.skip(i + 1));
            assert(b@.skip(i as int).drop_first() =~= b@.skip(i + 1));
        }
        i = i + 1;
    }
    i == x.len() && i < y.len()
}

/// The strings, sorted in increasing lexicographic order.
pub(crate) fn sort_strings(v: &Vec<String>) -> (r: Vec<String>)
    requires
        distinct_strings(v@),
    ensures
        sorted_names(r@.map_values(|s: String| s@)),
        distinct_strings(r@),
        string_set(r@) == string_set(v@),
        r@.len() == v@.len(),
{
    let mut r: Vec<String> = Vec::new();
    let mut k: usize = 0;
    while k < v.len()
        invariant
            k <= v@.len(),
            distinct_strings(v@),
            r@.len() == k,
            sorted_names(r@.map_values(|s: String| s@)),
            string_set(r@) == string_set(v@.take(k as int)),
        decreases v@.len() - k,
    {
        let ghost rs = r@.map_values(|s: String| s@);
        let x = &v[k];
        let mut pos: usize = 0;
        while pos < r.len() && !str_lt(x.as_str(), r[pos].as_str())
            invariant
                pos <= r@.len(),
                rs == r@.map_values(|s: String| s@),
                forall|i: int| 0 <= i < pos ==> !lex_lt(x@, #[trigger] rs[i]),
            decreases r@.len() - pos,
        {
            pos = pos + 1;
        }
        proof {
            assert(!string_set(v@.take(k as int)).contains(x@)) by {
                if string_set(v@.take(k as int)).contains(x@) {
                    let j = choose|j: int| 0 <= j < k && v@.take(k as int)[j]@ == x@;
                    assert(v@[j]@ == v@[k as int]@);
                }
            }
            assert forall|i: int| 0 <= i < pos implies lex_lt(#[trigger] rs[i], x@) by {
                assert(string_set(r@).contains(rs[i]));
                assert(rs[i] != x@);
                lemma_lex_total(rs[i], x@);
            }
            if pos < r@.len() {
                assert forall|j: int| pos <= j < rs.len() implies lex_lt(x@, #[trigger] rs[j]) by {
                    if j > pos {
                        lemma_lex_trans(x@, rs[pos as int], rs[j]);
                    }
                }
            }
        }
        let ghost before = r@;
        r.insert(pos, v[k].clone());
        proof {
            let nrs = r@.map_values(|s: String| s@);
            assert(nrs =~= rs.insert(pos as int, x@));
            assert forall|i: int, j: int| 0 <= i < j < nrs.len() implies lex_lt(#[trigger] nrs[i], #[trigger] nrs[j]) by {
                if j < pos {
                } else if j == pos {
                } else if i < pos {
                    lemma_lex_trans(rs[i], x@, rs[j - 1]);
                } else if i == pos {
                } else {
                }
            }
            assert(v@.take(k + 1) =~= v@.take(k as int).push(v@[k as int]));
            assert(string_set(r@) =~= string_set(v@.take(k + 1))) by {
                assert forall|s: Seq<char>| string_set(r@).contains(s) implies string_set(v@.take(k + 1)).contains(s) by {
                    let m = choose|m: int| 0 <= m < r@.len() && r@[m]@ == s;
                    if m < pos {
                        assert(r@[m] == before[m]);
                        assert(string_set(before).contains(s));
                        let t = choose|t: int| 0 <= t < k && v@.take(k as int)[t]@ == s;
                        assert(v@.take(k + 1)[t] == v@.take(k as int)[t]);
                    } else if m == pos {
                        assert(v@.take(k + 1)[k as int] == v@[k as int]);
                    } else {
                        assert(r@[m] == before[m - 1]);
                        assert(string_set(before).contains(s));
                        let t = choose|t: int| 0 <= t < k && v@.take(k as int)[t]@ == s;
                        assert(v@.take(k + 1)[t] == v@.take(k as int)[t]);
                    }
                }
                assert forall|s: Seq<char>| string_set(v@.take(k + 1)).contains(s) implies string_set(r@).contains(s) by {
                    let vt = v@.take(k + 1);
                    let t = choose|t: int| 0 <= t < vt.len() && (#[trigger] vt[t])@ == s;
                    if t < k {
                        assert(v@.take(k as int)[t] == v@.take(k + 1)[t]);
                        assert(string_set(before).contains(s));
                        let m = choose|m: int| 0 <= m < before.len() && before[m]@ == s;
                        if m < pos {
                            assert(r@[m] == before[m]);
                        } else {
                            assert(r@[m + 1] == before[m]);
                        }
                    } else {
                        assert(r@[pos as int]@ == s);
                    }
                }
            }
        }
        k = k + 1;
    }
    proof {
        assert(v@.take(v@.len() as int) =~= v@);
        let rs = r@.map_values(|s: String| s@);
        assert forall|i: int, j: int| 0 <= i < r@.len() && 0 <= j < r@.len() && i != j implies r@[i]@ != r@[j]@ by {
            if i < j {
                assert(lex_lt(rs[i], rs[j]));
                lemma_lex_asym(rs[i], rs[i]);
            } else {
                assert(lex_lt(rs[j], rs[i]));
                lemma_lex_asym(rs[j], rs[j]);
            }
        }
    }
    r
}

/// The header line of the consistent hash ring's description.
pub open spec fn chring_header(nodes: nat, vnodes: nat) -> Seq<char> {
    "mode=chring, nodes="@ + decimal(nodes) + ", virtual_nodes="@ + decimal(vnodes) + ", per_node="@
        + decimal(DEFAULT_CHRING_VIRTUAL_NODES_PER_NODE as nat)
}

/// The line of one node in the consistent hash ring's description.
pub open spec fn chring_node_line(name: Seq<char>, count: nat) -> Seq<char> {
    "["@ + name + "] virtual_nodes="@ + decimal(count)
}

impl Router {
    /// A description of the routing state: the prefix ring's own description,
    /// or for the consistent hash ring a header line and one line per node in
    /// increasing name order.
    pub fn routing_structure_lines(&self) -> (lines: Vec<String>)
        requires
            self.wf(),
        ensures
            self.mode() == RouteMode::Epring ==> {
                let ring = self.ring();
                &&& lines@.len() == ring.entry_list().len() + 1
                &&& lines@[0]@ == header_line(ring.root_len(), ring.threshold() as nat, ring.entry_list().len())
                &&& forall|i: int|
                    0 <= i < ring.entry_list().len() ==> #[trigger] lines@[i + 1]@ == entry_line(
                        i as nat,
                        ring.entry_list()[i],
                        ring.names(),
                    )
            },
            self.mode() == RouteMode::Chring ==> {
                let ring = self.hash_ring();
                &&& lines@.len() == ring.node_map().dom().len() + 1
                &&& lines@[0]@ == chring_header(ring.node_map().dom().len(), ring.ring_view().len())
                &&& exists|ns: Seq<Seq<char>>|
                    {
                        &&& #[trigger] sorted_names(ns)
                        &&& ns.to_set() == ring.node_map().dom()
                        &&& ns.len() + 1 == lines@.len()
                        &&& forall|i: int|
                            0 <= i < ns.len() ==> #[trigger] lines@[i + 1]@ == chring_node_line(
                                ns[i],
                                ring.node_map()[ns[i]],
                            )
                    }
            },
    {
        match self.route_mode {
            RouteMode::Epring => self.epring.structure_lines(),
            RouteMode::Chring => {
                let nodes = self.chring.get_all_nodes();
                let sorted = sort_strings(&nodes);
                let ghost ns = sorted@.map_values(|s: String| s@);
                let mut lines: Vec<String> = Vec::new();
                let mut head: Vec<char> = Vec::new();
                push_str(&mut head, "mode=chring, nodes=");
                push_decimal(&mut head, self.chring.node_count());
                push_str(&mut head, ", virtual_nodes=");
                push_decimal(&mut head, self.chring.virtual_node_count());
                push_str(&mut head, ", per_node=");
                push_decimal(&mut head, DEFAULT_CHRING_VIRTUAL_NODES_PER_NODE);
                lines.push(string_from_chars(head.as_slice()));
                proof {
                    assert forall|x: Seq<char>| #[trigger] ns.to_set().contains(x) <==> string_set(sorted@).contains(x) by {
                        if ns.to_set().contains(x) {
                            let i = choose|i: int| 0 <= i < ns.len() && ns[i] == x;
                            assert(sorted@[i]@ == x);
                        }
                        if string_set(sorted@).contains(x) {
                            let i = choose|i: int| 0 <= i < sorted@.len() && sorted@[i]@ == x;
                            assert(ns[i] == x);
                        }
                    }
                    assert(ns.to_set() =~= self.chring.node_map().dom());
                    assert(ns.no_duplicates());
                    ns.unique_seq_to_set();
                }
                let mut i: usize = 0;
                while i < sorted.len()
                    invariant
                        self.wf(),
                        self.mode() == RouteMode::Chring,
                        ns == sorted@.map_values(|s: String| s@),
                        ns.to_set() == self.chring.node_map().dom(),
                        i <= sorted@.len(),
                        lines@.len() == i + 1,
                        lines@[0]@ == chring_header(
                            self.chring.node_map().dom().len(),
                            self.chring.ring_view().len(),
                        ),
                        forall|t: int|
                            0 <= t < i ==> #[trigger] lines@[t + 1]@ == chring_node_line(
                                ns[t],
                                self.chring.node_map()[ns[t]],
                            ),
                    decreases sorted@.len() - i,
                {
                    let name = sorted[i].as_str();
                    assert(ns.to_set().contains(ns[i as int]));
                    let count = match self.chring.get_virtual_node_count(name) {
                        Some(c) => c,
                        None => 0,
                    };
                    let mut line: Vec<char> = Vec::new();
                    push_str(&mut line, "[");
                    push_str(&mut line, name);
                    push_str(&mut line, "] virtual_nodes=");
                    push_decimal(&mut line, count);
                    assert(line@ =~= chring_node_line(ns[i as int], self.chring.node_map()[ns[i as int]]));
                    lines.push(string_from_chars(line.as_slice()));
                    i = i + 1;
                }
                proof {
                    assert(sorted_names(ns));
                }
                lines
            },
        }
    }

    /// The same description as `routing_structure_lines`.
    pub fn epring_structure_lines(&self) -> (lines: Vec<String>)
        requires
            self.wf(),
        ensures
            self.mode() == RouteMode::Epring ==> {
                let ring = self.ring();
                &&& lines@.len() == ring.entry_list().len() + 1
                &&& lines@[0]@ == header_line(ring.root_len(), ring.threshold() as nat, ring.entry_list().len())
                &&& forall|i: int|
                    0 <= i < ring.entry_list().len() ==> #[trigger] lines@[i + 1]@ == entry_line(
                        i as nat,
                        ring.entry_list()[i],
                        ring.names(),
                    )
            },
            self.mode() == RouteMode::Chring ==> {
                let ring = self.hash_ring();
                &&& lines@.len() == ring.node_map().dom().len() + 1
                &&& lines@[0]@ == chring_header(ring.node_map().dom().len(), ring.ring_view().len())
                &&& exists|ns: Seq<Seq<char>>|
                    {
                        &&& #[trigger] sorted_names(ns)
                        &&& ns.to_set() == ring.node_map().dom()
                        &&& ns.len() + 1 == lines@.len()
                        &&& forall|i: int|
                            0 <= i < ns.len() ==> #[trigger] lines@[i + 1]@ == chring_node_line(
                                ns[i],
                                ring.node_map()[ns[i]],
                            )
                    }
            },
    {
        self.routing_structure_lines()
    }
}
/// A router rebuilt for its nodes is a new router over the same nodes: two
/// routers in the same mode, over the same nodes and addresses, with no
/// recorded routes and rings as building leaves them, hold the same
/// prefix-ring entries and threshold and the same hash ring, and send every
/// keyword to the same place. `reset` leaves a router so, as `new_with_mode`
/// builds one.
pub proof fn rebuilt_routers_route_alike(a: &Router, b: &Router, threshold: u64, keyword: Seq<char>)
    requires
        a.wf(),
        b.wf(),
        a.mode() == b.mode(),
        a.names() == b.names(),
        a.addr_map() == b.addr_map(),
        a.overrides() == Map::<Seq<char>, TargetView>::empty(),
        b.overrides() == Map::<Seq<char>, TargetView>::empty(),
        a.fresh_backend(threshold),
        b.fresh_backend(threshold),
    ensures
        a.route_spec(keyword) == b.route_spec(keyword),
        a.overrides() == b.overrides(),
        a.ring().entry_list() == b.ring().entry_list(),
        a.ring().threshold() == b.ring().threshold(),
        a.hash_ring().ring_view() == b.hash_ring().ring_view(),
        a.hash_ring().node_map() == b.hash_ring().node_map(),
{
    if a.mode() == RouteMode::Chring {
        assert(a.hash_ring().node_map() =~= b.hash_ring().node_map());
    }
    if a.mode() == RouteMode::Epring {
        crate::epring::same_entries_route_alike(
            &a.ring(),
            &b.ring(),
            digest_nibbles(vstd::utf8::encode_utf8(keyword)),
        );
    }
}

/// Without a recorded route, a keyword goes where its hexadecimal digest
/// goes: on every router this library builds (all are well-formed),
/// `route_keyword(k)` equals `route_key_hex(keyword_to_hex(k))`, and the
/// digest is always long enough for `route_key_hex`.
pub proof fn keyword_routes_as_its_hex_key(router: &Router, keyword: Seq<char>)
    requires
        router.wf(),
        router.mode() == RouteMode::Epring,
        !router.overrides().contains_key(keyword),
    ensures
        router.ring().digits_suffice(nibbles_of(vstd::utf8::encode_utf8(keyword_hex_spec(vstd::utf8::encode_utf8(keyword))))),
        router.route_spec(keyword) == match router.ring().route_digits(
            nibbles_of(vstd::utf8::encode_utf8(keyword_hex_spec(vstd::utf8::encode_utf8(keyword)))),
        ) {
            Some(rt) => router.epring_target(rt),
            None => None,
        },
        router.route_spec(keyword) == router.hex_route_spec(
            vstd::utf8::encode_utf8(keyword_hex_spec(vstd::utf8::encode_utf8(keyword))),
        ),
{
    crate::epring::keyword_routes_by_its_hex(&router.ring(), vstd::utf8::encode_utf8(keyword));
}

/// Recording a keyword's deletion after its insertion drops the route the
/// insertion recorded: the recorded routes are those from before the
/// insertion, less that keyword, and the keyword goes where its digest goes.
pub proof fn delete_undoes_insert_override(
    before: &Router,
    inserted: &Router,
    deleted: &Router,
    keyword: Seq<char>,
    target: TargetView,
)
    requires
        deleted.wf(),
        deleted.mode() == RouteMode::Epring,
        inserted.overrides() == before.overrides().insert(keyword, target),
        deleted.overrides() == inserted.overrides().remove(keyword),
    ensures
        deleted.overrides() == before.overrides().remove(keyword),
        !before.overrides().contains_key(keyword) ==> deleted.overrides() == before.overrides(),
        deleted.route_spec(keyword) == deleted.hex_route_spec(
            vstd::utf8::encode_utf8(keyword_hex_spec(vstd::utf8::encode_utf8(keyword))),
        ),
{
    assert(deleted.overrides() =~= before.overrides().remove(keyword));
    if !before.overrides().contains_key(keyword) {
        assert(before.overrides().remove(keyword) =~= before.overrides());
    }
    keyword_routes_as_its_hex_key(deleted, keyword);
}

/// Clearing the recorded routes of a prefix touches no other keyword: a
/// keyword the prefix does not match keeps its recorded route, and one it
/// matches has none left.
pub proof fn clearing_a_prefix_touches_only_its_keywords(
    before: &Router,
    after: &Router,
    prefix: Seq<u8>,
    keyword: Seq<char>,
)
    requires
        after.overrides() == before.overrides().filter_keys(keyword_kept(prefix)),
    ensures
        !prefix_matches_spec(vstd::utf8::encode_utf8(keyword), prefix) ==> (after.overrides().contains_key(
            keyword,
        ) == before.overrides().contains_key(keyword) && (before.overrides().contains_key(keyword)
            ==> after.overrides()[keyword] == before.overrides()[keyword])),
        prefix_matches_spec(vstd::utf8::encode_utf8(keyword), prefix) ==> !after.overrides().contains_key(
            keyword,
        ),
{
    assert(keyword_kept(prefix)(keyword) == !prefix_matches_spec(vstd::utf8::encode_utf8(keyword), prefix));
}

/// A route mode's name is ASCII and reads back as that mode: parsing
/// `as_str` of a mode gives the mode.
pub proof fn route_mode_name_parses_back(m: RouteMode)
    ensures
        vstd::utf8::is_ascii_chars(mode_name(m)),
        route_mode_of(mode_name(m).map_values(|c: char| crate::text::ascii_lower(c)))
            == Ok::<RouteMode, Seq<char>>(m),
{
    reveal_strlit("epring");
    reveal_strlit("chring");
    let n = mode_name(m);
    assert(n.map_values(|c: char| crate::text::ascii_lower(c)) =~= n);
    assert("chring"@ != "epring"@) by {
        assert("chring"@[0] != "epring"@[0]);
    }
}

} // verus!

