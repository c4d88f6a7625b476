//! Moving the children of a split prefix to their storage nodes, one after
//! the other: the source cuts out a child's segment, the child's node
//! imports it, the source confirms the move. The manager performs each step
//! and hands the reply back; this state machine says which step comes next
//! and keeps the root state each reply leaves, from which the children's
//! prefix summaries follow.
use vstd::prelude::*;
use crate::assoc::{keys_distinct, table, StrMap};
use crate::reply_roots::ReplyRoots;
use crate::routing::{PrefixSplitPlan, TargetView};

verus! {

/// The next step of a split migration.
#[derive(Debug, Clone, Copy, PartialEq, Eq, Structural)]
pub enum SplitStep {
    /// Ask the source node to cut out this child's prefix segment.
    Prepare { child: usize },
    /// Hand the segment to this child's node.
    Import { child: usize },
    /// Tell the source node this child's prefix has moved.
    Confirm { child: usize },
    /// Every child is in place.
    Done,
}

/// The first child at or after `from` that lives on another node than the
/// source, if any.
pub open spec fn first_move_from(children: Seq<TargetView>, source: Seq<char>, from: int) -> Option<int>
    decreases children.len() - from,
{
    if from < 0 || from >= children.len() {
        None
    } else if children[from].node_name != source {
        Some(from)
    } else {
        first_move_from(children, source, from + 1)
    }
}

/// The step that prepares the first moving child at or after `from`, or
/// the end.
pub open spec fn prepare_from(children: Seq<TargetView>, source: Seq<char>, from: int) -> SplitStep {
    match first_move_from(children, source, from) {
        Some(c) => SplitStep::Prepare { child: c as usize },
        None => SplitStep::Done,
    }
}

proof fn lemma_prepare_from_valid(children: Seq<TargetView>, source: Seq<char>, from: int)
    requires
        children.len() <= usize::MAX,
    ensures
        prepare_from(children, source, from) matches SplitStep::Prepare { child } ==> child < children.len()
            && children[child as int].node_name != source,
{
    lemma_first_move_bounds(children, source, from);
}

proof fn lemma_first_move_bounds(children: Seq<TargetView>, source: Seq<char>, from: int)
    ensures
        first_move_from(children, source, from) matches Some(c) ==> from <= c < children.len()
            && children[c].node_name != source,
    decreases children.len() - from,
{
    if 0 <= from < children.len() && children[from].node_name == source {
        lemma_first_move_bounds(children, source, from + 1);
    }
}

/// A split migration under way: the plan, the next step, the root state
/// (root hash and accumulator) of each node a reply has touched, and the
/// bytes of segments moved so far.
pub struct SplitMigration {
    plan: PrefixSplitPlan,
    step: SplitStep,
    roots: ReplyRoots,
    payload_bytes: u64,
}

impl SplitMigration {
    pub closed spec fn plan_view(&self) -> crate::routing::PlanView {
        self.plan@
    }

    pub closed spec fn current(&self) -> SplitStep {
        self.step
    }

    pub closed spec fn roots_map(&self) -> Map<Seq<char>, (Seq<u8>, Seq<u8>)> {
        self.roots.roots_map()
    }

    pub closed spec fn payload(&self) -> u64 {
        self.payload_bytes
    }

    /// The step refers to a child that lives on another node than the
    /// source, and the root state holds one entry per node.
    pub closed spec fn wf(&self) -> bool {
        &&& self.roots.wf()
        &&& match self.step {
            SplitStep::Prepare { child } => child < self.plan@.children.len()
                && self.plan@.children[child as int].node_name != self.plan@.source.node_name,
            SplitStep::Import { child } => child < self.plan@.children.len()
                && self.plan@.children[child as int].node_name != self.plan@.source.node_name,
            SplitStep::Confirm { child } => child < self.plan@.children.len()
                && self.plan@.children[child as int].node_name != self.plan@.source.node_name,
            SplitStep::Done => true,
        }
    }

    fn first_move(plan: &PrefixSplitPlan, from: usize) -> (s: SplitStep)
        requires
            from <= plan@.children.len(),
        ensures
            s == prepare_from(plan@.children, plan@.source.node_name, from as int),
    {
        let mut j: usize = from;
        while j < plan.children.len()
            invariant
                from <= j <= plan@.children.len(),
                first_move_from(plan@.children, plan@.source.node_name, from as int) == first_move_from(
                    plan@.children,
                    plan@.source.node_name,
                    j as int,
                ),
            decreases plan@.children.len() - j,
        {
            if !crate::text::str_eq(plan.children[j].node_name.as_str(), plan.source.node_name.as_str()) {
                return SplitStep::Prepare { child: j };
            }
            j = j + 1;
        }
        SplitStep::Done
    }

    /// Starts moving the children of a split: the root state begins with
    /// the source node's, as the manager holds it; the first step prepares
    /// the first child that lives on another node.
    pub fn new(plan: PrefixSplitPlan, source_root_hash: Vec<u8>, source_root_accumulator: Vec<u8>) -> (m: Self)
        ensures
            m.wf(),
            m.plan_view() == plan@,
            m.current() == prepare_from(plan@.children, plan@.source.node_name, 0),
            m.roots_map() == Map::<Seq<char>, (Seq<u8>, Seq<u8>)>::empty().insert(
                plan@.source.node_name,
                (source_root_hash@, source_root_accumulator@),
            ),
            m.payload() == 0,
    {
        let step = Self::first_move(&plan, 0);
        let len = plan.children.len();
        assert(plan@.children.len() == len);
        proof {
            lemma_prepare_from_valid(plan@.children, plan@.source.node_name, 0);
        }
        let mut roots = ReplyRoots::new();
        roots.record(plan.source.node_name.clone(), source_root_hash, source_root_accumulator);
        SplitMigration { plan, step, roots, payload_bytes: 0 }
    }

    /// The next step.
    pub fn step(&self) -> (s: SplitStep)
        ensures
            s == self.current(),
    {
        self.step
    }

    /// The plan being carried out.
    pub fn plan(&self) -> (p: &PrefixSplitPlan)
        ensures
            p@ == self.plan_view(),
    {
        &self.plan
    }

    /// The bytes of the segments moved so far.
    pub fn payload_bytes(&self) -> (n: u64)
        ensures
            n == self.payload(),
    {
        self.payload_bytes
    }

    /// The source cut out the child's segment (`segment_len` bytes) and
    /// replied with its new root state: the segment's size adds to the
    /// payload (saturating), the source's root state is the reply's, and the
    /// segment goes to the child's node next.
    pub fn on_prepared(&mut self, segment_len: usize, root_hash: Vec<u8>, root_accumulator: Vec<u8>)
        requires
            old(self).wf(),
            old(self).current() is Prepare,
        ensures
            final(self).wf(),
            final(self).plan_view() == old(self).plan_view(),
            final(self).current() == (SplitStep::Import { child: old(self).current()->Prepare_child }),
            final(self).roots_map() == old(self).roots_map().insert(
                old(self).plan_view().source.node_name,
                (root_hash@, root_accumulator@),
            ),
            final(self).payload() == if old(self).payload() + segment_len > u64::MAX {
                u64::MAX as int
            } else {
                old(self).payload() + segment_len
            },
    {
        let child = match self.step {
            SplitStep::Prepare { child } => child,
            _ => 0,
        };
        let n: u64 = if segment_len as u128 > u64::MAX as u128 {
            u64::MAX
        } else {
            segment_len as u64
        };
        self.payload_bytes = self.payload_bytes.saturating_add(n);
        self.roots.record(self.plan.source.node_name.clone(), root_hash, root_accumulator);
        self.step = SplitStep::Import { child };
    }

    /// The child's node imported the segment and replied with its root
    /// state, which becomes the child node's; the source confirms next.
    pub fn on_imported(&mut self, root_hash: Vec<u8>, root_accumulator: Vec<u8>)
        requires
            old(self).wf(),
            old(self).current() is Import,
        ensures
            final(self).wf(),
            final(self).plan_view() == old(self).plan_view(),
            final(self).current() == (SplitStep::Confirm { child: old(self).current()->Import_child }),
            final(self).roots_map() == old(self).roots_map().insert(
                old(self).plan_view().children[old(self).current()->Import_child as int].node_name,
                (root_hash@, root_accumulator@),
            ),
            final(self).payload() == old(self).payload(),
    {
        let child = match self.step {
            SplitStep::Import { child } => child,
            _ => 0,
        };
        self.roots.record(self.plan.children[child].node_name.clone(), root_hash, root_accumulator);
        self.step = SplitStep::Confirm { child };
    }

    /// The source confirmed the child's move and replied with its root
    /// state, which becomes the source's; the next child that lives on
    /// another node is prepared next, or the migration is done.
    pub fn on_confirmed(&mut self, root_hash: Vec<u8>, root_accumulator: Vec<u8>)
        requires
            old(self).wf(),
            old(self).current() is Confirm,
        ensures
            final(self).wf(),
            final(self).plan_view() == old(self).plan_view(),
            final(self).current() == prepare_from(
                old(self).plan_view().children,
                old(self).plan_view().source.node_name,
                old(self).current()->Confirm_child + 1,
            ),
            final(self).roots_map() == old(self).roots_map().insert(
                old(self).plan_view().source.node_name,
                (root_hash@, root_accumulator@),
            ),
            final(self).payload() == old(self).payload(),
    {
        let child = match self.step {
            SplitStep::Confirm { child } => child,
            _ => 0,
        };
        self.roots.record(self.plan.source.node_name.clone(), root_hash, root_accumulator);
        let len = self.plan.children.len();
        assert(self.plan@.children.len() == len);
        let next = Self::first_move(&self.plan, child + 1);
        proof {
            lemma_prepare_from_valid(self.plan@.children, self.plan@.source.node_name, child + 1);
        }
        self.step = next;
    }

    /// The root state to store: each node a reply touched, once, with its
    /// latest root hash and accumulator.
    pub fn root_updates(&self) -> (r: Vec<(String, Vec<u8>, Vec<u8>)>)
        requires
            self.wf(),
        ensures
            keys_distinct(updates_view(r@)),
            table(updates_view(r@)) == self.roots_map(),
    {
        self.roots.root_updates()
    }

    /// The summary of each child's prefix, in the plan's order: from the
    /// root state a reply left for its node, else from the root hash and
    /// accumulator the manager holds for it (empty when it holds none).
    pub fn prefix_summaries(&self, stored_hashes: &StrMap<Vec<u8>>, stored_accumulators: &StrMap<Vec<u8>>) -> (r: Vec<(String, Vec<u8>)>)
        requires
            self.wf(),
            stored_hashes.wf(),
            stored_accumulators.wf(),
        ensures
            r@.len() == self.plan_view().children.len(),
            forall|i: int|
                0 <= i < r@.len() ==> (#[trigger] r@[i]).0@ == self.plan_view().children[i].prefix && r@[i].1@
                    == summary_for(
                    self.roots_map(),
                    stored_hashes.map(),
                    stored_accumulators.map(),
                    self.plan_view().children[i].node_name,
                ),
    {
        let mut r: Vec<(String, Vec<u8>)> = Vec::new();
        let mut i: usize = 0;
        while i < self.plan.children.len()
            invariant
                self.wf(),
                stored_hashes.wf(),
                stored_accumulators.wf(),
                i <= self.plan@.children.len(),
                r@.len() == i,
                forall|k: int|
                    0 <= k < i ==> (#[trigger] r@[k]).0@ == self.plan@.children[k].prefix && r@[k].1@ == summary_for(
                        self.roots_map(),
                        stored_hashes.map(),
                        stored_accumulators.map(),
                        self.plan@.children[k].node_name,
                    ),
            decreases self.plan@.children.len() - i,
        {
            let child = &self.plan.children[i];
            let summary = self.roots.summary_for_node(child.node_name.as_str(), stored_hashes, stored_accumulators);
            r.push((child.prefix.clone(), summary));
            i = i + 1;
        }
        r
    }
}

/// Root state updates as name and state pairs.
pub open spec fn updates_view(r: Seq<(String, Vec<u8>, Vec<u8>)>) -> Seq<(Seq<char>, (Seq<u8>, Seq<u8>))> {
    r.map_values(|e: (String, Vec<u8>, Vec<u8>)| (e.0@, (e.1@, e.2@)))
}

/// The summary of a node: its root state from a reply if one came, else
/// what the manager holds (empty where it holds nothing); the accumulator
/// when there is one, else the root hash.
pub open spec fn summary_for(
    roots: Map<Seq<char>, (Seq<u8>, Seq<u8>)>,
    hashes: Map<Seq<char>, Seq<u8>>,
    accumulators: Map<Seq<char>, Seq<u8>>,
    name: Seq<char>,
) -> Seq<u8> {
    let (h, a) = if roots.dom().contains(name) {
        roots[name]
    } else {
        (
            if hashes.dom().contains(name) { hashes[name] } else { Seq::empty() },
            if accumulators.dom().contains(name) { accumulators[name] } else { Seq::empty() },
        )
    };
    if a.len() > 0 { a } else { h }
}

/// The addresses of the nodes the children move to, for measuring them
/// before the move: children on the source node left out, each address
/// once, in the plan's order.
pub open spec fn target_addrs_spec(children: Seq<TargetView>, source: Seq<char>) -> Seq<Seq<char>>
    decreases children.len(),
{
    if children.len() == 0 {
        Seq::empty()
    } else {
        let prev = target_addrs_spec(children.drop_last(), source);
        let c = children.last();
        if c.node_name == source || prev.contains(c.addr) {
            prev
        } else {
            prev.push(c.addr)
        }
    }
}

/// The addresses of the nodes a split's children move to.
pub fn migration_target_addrs(plan: &PrefixSplitPlan) -> (r: Vec<String>)
    ensures
        r@.map_values(|s: String| s@) == target_addrs_spec(plan@.children, plan@.source.node_name),
{
    let ghost ch = plan@.children;
    let mut r: Vec<String> = Vec::new();
    let mut i: usize = 0;
    assert(ch.take(0) =~= Seq::<TargetView>::empty());
    while i < plan.children.len()
        invariant
            ch == plan@.children,
            i <= ch.len(),
            r@.map_values(|s: String| s@) == target_addrs_spec(ch.take(i as int), plan@.source.node_name),
        decreases ch.len() - i,
    {
        let c = &plan.children[i];
        assert(ch.take(i + 1).drop_last() =~= ch.take(i as int));
        assert(ch.take(i + 1).last() == c@);
        let ghost prev = r@.map_values(|s: String| s@);
        if !crate::text::str_eq(c.node_name.as_str(), plan.source.node_name.as_str()) {
            let mut seen = false;
            let mut k: usize = 0;
            while k < r.len()
                invariant
                    k <= r@.len(),
                    prev == r@.map_values(|s: String| s@),
                    seen == (exists|t: int| 0 <= t < k && prev[t] == c.addr@),
                decreases r@.len() - k,
            {
                assert(prev[k as int] == r@[k as int]@);
                if crate::text::str_eq(r[k].as_str(), c.addr.as_str()) {
                    seen = true;
                }
                k = k + 1;
            }
            assert(seen == prev.contains(c.addr@));
            if !seen {
                r.push(c.addr.clone());
                assert(r@.map_values(|s: String| s@) =~= prev.push(c.addr@));
            }
        }
        i = i + 1;
    }
    assert(ch.take(ch.len() as int) =~= ch);
    r
}

} // verus!
