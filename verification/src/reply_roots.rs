//! The root state that storage replies leave while the manager moves a
//! split prefix, replays buffered writes or rolls back an update: the latest root hash and accumulator of each node a
//! reply came from, and the latest summary of each prefix, both stored once
//! the work is done.
use vstd::prelude::*;
use crate::assoc::{keys_distinct, table, StrMap};
use crate::migration::root_summary_for_values;
use crate::split_migration::{summary_for, updates_view};
use crate::verification::copy_bytes;

verus! {

/// Root states and prefix summaries gathered from storage replies.
pub struct ReplyRoots {
    roots: StrMap<(Vec<u8>, Vec<u8>)>,
    prefixes: StrMap<Vec<u8>>,
}

/// Prefix summaries as prefix and summary pairs.
pub open spec fn prefix_updates_view(r: Seq<(String, Vec<u8>)>) -> Seq<(Seq<char>, Seq<u8>)> {
    r.map_values(|e: (String, Vec<u8>)| (e.0@, e.1@))
}

impl ReplyRoots {
    pub closed spec fn roots_map(&self) -> Map<Seq<char>, (Seq<u8>, Seq<u8>)> {
        self.roots.map()
    }

    pub closed spec fn prefix_map(&self) -> Map<Seq<char>, Seq<u8>> {
        self.prefixes.map()
    }

    pub closed spec fn wf(&self) -> bool {
        self.roots.wf() && self.prefixes.wf()
    }

    /// Nothing gathered yet.
    pub fn new() -> (r: Self)
        ensures
            r.wf(),
            r.roots_map() == Map::<Seq<char>, (Seq<u8>, Seq<u8>)>::empty(),
            r.prefix_map() == Map::<Seq<char>, Seq<u8>>::empty(),
    {
        ReplyRoots { roots: StrMap::new(), prefixes: StrMap::new() }
    }

    /// A node replied with its root state, which replaces any it sent
    /// before.
    pub fn record(&mut self, node_name: String, root_hash: Vec<u8>, root_accumulator: Vec<u8>)
        requires
            old(self).wf(),
        ensures
            final(self).wf(),
            final(self).roots_map() == old(self).roots_map().insert(node_name@, (root_hash@, root_accumulator@)),
            final(self).prefix_map() == old(self).prefix_map(),
    {
        self.roots.insert(node_name, (root_hash, root_accumulator));
    }

    /// A prefix's summary, in place of any set before.
    pub fn set_prefix_summary(&mut self, prefix: String, summary: Vec<u8>)
        requires
            old(self).wf(),
        ensures
            final(self).wf(),
            final(self).prefix_map() == old(self).prefix_map().insert(prefix@, summary@),
            final(self).roots_map() == old(self).roots_map(),
    {
        self.prefixes.insert(prefix, summary);
    }

    /// The summary of a node: from its latest reply if one came, else from
    /// the root hash and accumulator the manager holds for it (empty where
    /// it holds none); the accumulator when there is one, else the root
    /// hash.
    pub fn summary_for_node(
        &self,
        node_name: &str,
        stored_hashes: &StrMap<Vec<u8>>,
        stored_accumulators: &StrMap<Vec<u8>>,
    ) -> (r: Vec<u8>)
        requires
            self.wf(),
            stored_hashes.wf(),
            stored_accumulators.wf(),
        ensures
            r@ == summary_for(self.roots_map(), stored_hashes.map(), stored_accumulators.map(), node_name@),
    {
        match self.roots.get(node_name) {
            Some(state) => root_summary_for_values(state.0.as_slice(), state.1.as_slice()),
            None => {
                let empty: Vec<u8> = Vec::new();
                let h = match stored_hashes.get(node_name) {
                    Some(h) => h,
                    None => &empty,
                };
                let a = match stored_accumulators.get(node_name) {
                    Some(a) => a,
                    None => &empty,
                };
                root_summary_for_values(h.as_slice(), a.as_slice())
            },
        }
    }

    /// The root states to store: each node that replied, once, with its
    /// latest root hash and accumulator.
    pub fn root_updates(&self) -> (r: Vec<(String, Vec<u8>, Vec<u8>)>)
        requires
            self.wf(),
        ensures
            keys_distinct(updates_view(r@)),
            table(updates_view(r@)) == self.roots_map(),
    {
        let mut r: Vec<(String, Vec<u8>, Vec<u8>)> = Vec::new();
        let n = self.roots.len();
        let mut i: usize = 0;
        while i < n
            invariant
                self.roots.wf(),
                n == self.roots.pairs().len(),
                i <= n,
                updates_view(r@) == self.roots.pairs().take(i as int),
            decreases n - i,
        {
            let (name, state) = self.roots.entry_at(i);
            let ghost before = updates_view(r@);
            r.push((name.clone(), copy_bytes(state.0.as_slice()), copy_bytes(state.1.as_slice())));
            assert(updates_view(r@) =~= before.push((name@, (state.0@, state.1@))));
            assert(self.roots.pairs().take(i + 1) =~= self.roots.pairs().take(i as int).push(self.roots.pairs()[i as int]));
            i = i + 1;
        }
        assert(self.roots.pairs().take(n as int) =~= self.roots.pairs());
        r
    }

    /// The prefix summaries to store: each prefix once, with its latest
    /// summary.
    pub fn prefix_updates(&self) -> (r: Vec<(String, Vec<u8>)>)
        requires
            self.wf(),
        ensures
            keys_distinct(prefix_updates_view(r@)),
            table(prefix_updates_view(r@)) == self.prefix_map(),
    {
        let mut r: Vec<(String, Vec<u8>)> = Vec::new();
        let n = self.prefixes.len();
        let mut i: usize = 0;
        while i < n
            invariant
                self.prefixes.wf(),
                n == self.prefixes.pairs().len(),
                i <= n,
                prefix_updates_view(r@) == self.prefixes.pairs().take(i as int),
            decreases n - i,
        {
            let (prefix, summary) = self.prefixes.entry_at(i);
            let ghost before = prefix_updates_view(r@);
            r.push((prefix.clone(), copy_bytes(summary.as_slice())));
            assert(prefix_updates_view(r@) =~= before.push((prefix@, summary@)));
            assert(self.prefixes.pairs().take(i + 1) =~= self.prefixes.pairs().take(i as int).push(
                self.prefixes.pairs()[i as int],
            ));
            i = i + 1;
        }
        assert(self.prefixes.pairs().take(n as int) =~= self.prefixes.pairs());
        r
    }
}

} // verus!
