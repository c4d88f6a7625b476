//! The manager's book of prefix migrations: which moves are under way,
//! which writes wait for them, and where a query goes meanwhile; plus the
//! small rules the manager applies to storage replies.
use vstd::prelude::*;
use vstd::string::StringSliceAdditionalSpecFns;
use crate::epring::{prefix_matches_spec, EPRing};
use crate::routing::{
    sort_strings, sorted_names, target_view, PrefixSplitPlan, RouteTarget, Router, TargetView,
};
use crate::stats::{PendingOperation, PrefixMigrationState};
use crate::verification::copy_bytes;
use crate::text::{
    dedup_strings, distinct_strings, lowercase_spec, push_str, str_eq, string_from_chars, string_set,
    to_lowercase, trim, trimmed_range, chars_of,
};

verus! {

/// The keyword a buffered write is about.
pub open spec fn op_keyword(op: PendingOperation) -> Seq<char> {
    match op {
        PendingOperation::Add { keyword, .. } => keyword@,
        PendingOperation::Delete { keyword, .. } => keyword@,
        PendingOperation::Update { keyword, .. } => keyword@,
    }
}

/// One of the prefixes agrees with the keyword's digest.
pub open spec fn any_prefix_matches(prefixes: Seq<String>, keyword: Seq<char>) -> bool {
    exists|j: int|
        0 <= j < prefixes.len() && prefix_matches_spec(
            vstd::utf8::encode_utf8(keyword),
            vstd::utf8::encode_utf8(#[trigger] prefixes[j]@),
        )
}

/// A migration under way whose children cover the keyword.
pub open spec fn covers(s: PrefixMigrationState, keyword: Seq<char>) -> bool {
    !s.confirmed && any_prefix_matches(s.child_prefixes@, keyword)
}

/// The first migration of `states` that covers the keyword.
pub open spec fn first_cover(states: Seq<PrefixMigrationState>, keyword: Seq<char>, i: int) -> bool {
    &&& 0 <= i < states.len()
    &&& covers(states[i], keyword)
    &&& forall|j: int| 0 <= j < i ==> !covers(#[trigger] states[j], keyword)
}

/// The position of the migration of a parent prefix.
pub open spec fn position_of(states: Seq<PrefixMigrationState>, prefix: Seq<char>, i: int) -> bool {
    0 <= i < states.len() && states[i].parent_prefix@ == prefix
}

pub open spec fn has_prefix(states: Seq<PrefixMigrationState>, prefix: Seq<char>) -> bool {
    exists|i: int| position_of(states, prefix, i)
}

/// The first child prefix that agrees with the keyword's digest.
pub open spec fn first_match(prefixes: Seq<String>, keyword: Seq<char>, j: int) -> bool {
    &&& 0 <= j < prefixes.len()
    &&& prefix_matches_spec(vstd::utf8::encode_utf8(keyword), vstd::utf8::encode_utf8(prefixes[j]@))
    &&& forall|k: int|
        0 <= k < j ==> !prefix_matches_spec(
            vstd::utf8::encode_utf8(keyword),
            vstd::utf8::encode_utf8(#[trigger] prefixes[k]@),
        )
}

fn keyword_of(op: &PendingOperation) -> (k: &String)
    ensures
        k@ == op_keyword(*op),
{
    match op {
        PendingOperation::Add { keyword, .. } => keyword,
        PendingOperation::Delete { keyword, .. } => keyword,
        PendingOperation::Update { keyword, .. } => keyword,
    }
}

/// The position of the first prefix that agrees with the keyword's digest.
fn first_matching_prefix(prefixes: &Vec<String>, keyword: &str) -> (r: Option<usize>)
    ensures
        r matches Some(j) ==> first_match(prefixes@, keyword@, j as int),
        r is None ==> !any_prefix_matches(prefixes@, keyword@),
{
    let mut j: usize = 0;
    while j < prefixes.len()
        invariant
            j <= prefixes@.len(),
            forall|k: int|
                0 <= k < j ==> !prefix_matches_spec(
                    vstd::utf8::encode_utf8(keyword@),
                    vstd::utf8::encode_utf8(#[trigger] prefixes@[k]@),
                ),
        decreases prefixes@.len() - j,
    {
        let p = prefixes[j].as_str();
        if EPRing::keyword_matches_prefix(keyword, p) {
            return Some(j);
        }
        j = j + 1;
    }
    None
}

/// The migrations under way or done, at most one per parent prefix.
pub struct MigrationBook {
    states: Vec<PrefixMigrationState>,
}

impl MigrationBook {
    pub closed spec fn states(&self) -> Seq<PrefixMigrationState> {
        self.states@
    }

    /// At most one migration per parent prefix.
    pub open spec fn wf(&self) -> bool {
        forall|a: int, b: int|
            0 <= a < self.states().len() && 0 <= b < self.states().len() && a != b
                ==> (#[trigger] self.states()[a]).parent_prefix@ != (#[trigger] self.states()[b]).parent_prefix@
    }

    pub fn new() -> (b: Self)
        ensures
            b.wf(),
            b.states().len() == 0,
    {
        MigrationBook { states: Vec::new() }
    }

    fn position(&self, prefix: &str) -> (r: Option<usize>)
        ensures
            r matches Some(i) ==> position_of(self.states(), prefix@, i as int),
            r is None ==> !has_prefix(self.states(), prefix@),
    {
        let mut i: usize = 0;
        while i < self.states.len()
            invariant
                i <= self.states@.len(),
                forall|j: int| 0 <= j < i ==> self.states@[j].parent_prefix@ != prefix@,
            decreases self.states@.len() - i,
        {
            if str_eq(self.states[i].parent_prefix.as_str(), prefix) {
                return Some(i);
            }
            i = i + 1;
        }
        None
    }

    /// Starts bookkeeping for the move a split plan asks for, unless a move
    /// of the same parent prefix is still under way (then `false` and no
    /// change). A finished move of the same prefix is replaced.
    pub fn schedule(&mut self, plan: &PrefixSplitPlan) -> (started: bool)
        requires
            old(self).wf(),
        ensures
            final(self).wf(),
            started == !(exists|i: int|
                position_of(old(self).states(), plan.parent_prefix@, i) && !old(
                    self,
                ).states()[i].confirmed),
            !started ==> final(self).states() == old(self).states(),
            started ==> {
                &&& has_prefix(final(self).states(), plan.parent_prefix@)
                &&& forall|i: int|
                    position_of(final(self).states(), plan.parent_prefix@, i) ==> {
                        let s = #[trigger] final(self).states()[i];
                        &&& s.source_node@ == plan.source.node_name@
                        &&& s.source_addr@ == plan.source.addr@
                        &&& s.child_prefixes@.map_values(|p: String| p@) == plan@.children.map_values(
                            |t: TargetView| t.prefix,
                        )
                        &&& !s.confirmed
                        &&& s.pending_operations@.len() == 0
                    }
                &&& forall|j: int|
                    0 <= j < old(self).states().len() && old(self).states()[j].parent_prefix@
                        != plan.parent_prefix@ ==> final(self).states().contains(
                        #[trigger] old(self).states()[j],
                    )
            },
    {
        let fresh = PrefixMigrationState::from_split_plan(plan);
        match self.position(plan.parent_prefix.as_str()) {
            Some(i) => {
                if !self.states[i].confirmed {
                    return false;
                }
                let ghost before = self.states@;
                self.states.set(i, fresh);
                proof {
                    assert forall|a: int| position_of(self.states@, plan.parent_prefix@, a) implies a == i by {
                        if a != i {
                            assert(before[a].parent_prefix@ == self.states@[a].parent_prefix@);
                        }
                    }
                    assert(position_of(self.states@, plan.parent_prefix@, i as int));
                    assert forall|j: int|
                        0 <= j < before.len() && before[j].parent_prefix@ != plan.parent_prefix@ implies self.states@.contains(
                        #[trigger] before[j],
                    ) by {
                        assert(self.states@[j] == before[j]);
                    }
                    assert forall|a: int, b: int|
                        0 <= a < self.states@.len() && 0 <= b < self.states@.len() && a != b implies (#[trigger] self.states@[a]).parent_prefix@
                        != (#[trigger] self.states@[b]).parent_prefix@ by {
                        if a != i && b != i {
                            assert(self.states@[a] == before[a] && self.states@[b] == before[b]);
                        } else if a == i {
                            assert(self.states@[b] == before[b]);
                            assert(before[i as int].parent_prefix@ == plan.parent_prefix@);
                        } else {
                            assert(self.states@[a] == before[a]);
                            assert(before[i as int].parent_prefix@ == plan.parent_prefix@);
                        }
                    }
                }
                true
            },
            None => {
                let ghost before = self.states@;
                self.states.push(fresh);
                proof {
                    let n = before.len() as int;
                    assert forall|a: int| position_of(self.states@, plan.parent_prefix@, a) implies a == n by {
                        if a < n {
                            assert(position_of(before, plan.parent_prefix@, a));
                        }
                    }
                    assert(position_of(self.states@, plan.parent_prefix@, n));
                    assert forall|j: int|
                        0 <= j < before.len() && before[j].parent_prefix@ != plan.parent_prefix@ implies self.states@.contains(
                        #[trigger] before[j],
                    ) by {
                        assert(self.states@[j] == before[j]);
                    }
                    assert forall|a: int, b: int|
                        0 <= a < self.states@.len() && 0 <= b < self.states@.len() && a != b implies (#[trigger] self.states@[a]).parent_prefix@
                        != (#[trigger] self.states@[b]).parent_prefix@ by {
                        if a < n && b < n {
                            assert(self.states@[a] == before[a] && self.states@[b] == before[b]);
                        } else if a == n {
                            assert(self.states@[b] == before[b]);
                            assert(!position_of(before, plan.parent_prefix@, b));
                        } else {
                            assert(self.states@[a] == before[a]);
                            assert(!position_of(before, plan.parent_prefix@, a));
                        }
                    }
                }
                true
            },
        }
    }

    /// The first migration under way whose children cover the keyword.
    pub fn active_for_keyword(&self, keyword: &str) -> (r: Option<usize>)
        ensures
            r matches Some(i) ==> first_cover(self.states(), keyword@, i as int),
            r is None ==> forall|i: int| 0 <= i < self.states().len() ==> !covers(#[trigger] self.states()[i], keyword@),
    {
        let mut i: usize = 0;
        while i < self.states.len()
            invariant
                i <= self.states@.len(),
                forall|j: int| 0 <= j < i ==> !covers(#[trigger] self.states@[j], keyword@),
            decreases self.states@.len() - i,
        {
            if !self.states[i].confirmed {
                if first_matching_prefix(&self.states[i].child_prefixes, keyword).is_some() {
                    return Some(i);
                }
            }
            i = i + 1;
        }
        None
    }

    /// Keeps a write for later under the first migration under way that
    /// covers its keyword; fails when none does.
    pub fn buffer(&mut self, op: PendingOperation) -> (r: Result<(), String>)
        requires
            old(self).wf(),
        ensures
            final(self).wf(),
            r is Err <==> forall|i: int| 0 <= i < old(self).states().len() ==> !covers(#[trigger] old(self).states()[i], op_keyword(op)),
            r matches Err(e) ==> e@ == "no active migration found for keyword"@ && final(self).states() == old(self).states(),
            r is Ok ==> exists|i: int| {
                &&& first_cover(old(self).states(), op_keyword(op), i)
                &&& final(self).states() == old(self).states().update(
                    i,
                    PrefixMigrationState {
                        pending_operations: final(self).states()[i].pending_operations,
                        ..old(self).states()[i]
                    },
                )
                &&& final(self).states()[i].pending_operations@ == old(self).states()[i].pending_operations@.push(op)
            },
    {
        let idx = {
            let keyword = keyword_of(&op);
            self.active_for_keyword(keyword.as_str())
        };
        match idx {
            Some(i) => {
                let ghost before = self.states@;
                self.states[i].pending_operations.push(op);
                proof {
                    assert(self.states@ =~= before.update(
                        i as int,
                        PrefixMigrationState {
                            pending_operations: self.states@[i as int].pending_operations,
                            ..before[i as int]
                        },
                    ));
                    assert forall|a: int, b: int|
                        0 <= a < self.states@.len() && 0 <= b < self.states@.len() && a != b implies (#[trigger] self.states@[a]).parent_prefix@
                        != (#[trigger] self.states@[b]).parent_prefix@ by {
                        assert(self.states@[a].parent_prefix == before[a].parent_prefix);
                        assert(self.states@[b].parent_prefix == before[b].parent_prefix);
                    }
                }
                Ok(())
            },
            None => {
                let mut cs: Vec<char> = Vec::new();
                push_str(&mut cs, "no active migration found for keyword");
                Err(string_from_chars(cs.as_slice()))
            },
        }
    }

    /// Takes the writes waiting for the migration of `prefix`, leaving none.
    pub fn take_pending(&mut self, prefix: &str) -> (r: Result<Vec<PendingOperation>, String>)
        requires
            old(self).wf(),
        ensures
            final(self).wf(),
            r is Err <==> !has_prefix(old(self).states(), prefix@),
            r matches Err(e) ==> e@ == "prefix migration not found: "@ + prefix@ && final(self).states() == old(self).states(),
            r matches Ok(ops) ==> exists|i: int| {
                &&& position_of(old(self).states(), prefix@, i)
                &&& ops@ == old(self).states()[i].pending_operations@
                &&& final(self).states() == old(self).states().update(
                    i,
                    PrefixMigrationState {
                        pending_operations: final(self).states()[i].pending_operations,
                        ..old(self).states()[i]
                    },
                )
                &&& final(self).states()[i].pending_operations@.len() == 0
            },
    {
        match self.position(prefix) {
            Some(i) => {
                let ghost before = self.states@;
                let mut ops: Vec<PendingOperation> = Vec::new();
                std::mem::swap(&mut ops, &mut self.states[i].pending_operations);
                proof {
                    assert(self.states@ =~= before.update(
                        i as int,
                        PrefixMigrationState {
                            pending_operations: self.states@[i as int].pending_operations,
                            ..before[i as int]
                        },
                    ));
                    assert forall|a: int, b: int|
                        0 <= a < self.states@.len() && 0 <= b < self.states@.len() && a != b implies (#[trigger] self.states@[a]).parent_prefix@
                        != (#[trigger] self.states@[b]).parent_prefix@ by {
                        assert(self.states@[a].parent_prefix == before[a].parent_prefix);
                        assert(self.states@[b].parent_prefix == before[b].parent_prefix);
                    }
                }
                Ok(ops)
            },
            None => {
                let mut cs: Vec<char> = Vec::new();
                push_str(&mut cs, "prefix migration not found: ");
                push_str(&mut cs, prefix);
                Err(string_from_chars(cs.as_slice()))
            },
        }
    }

    /// Marks the migration of `prefix` finished, when there is one.
    pub fn confirm(&mut self, prefix: &str)
        requires
            old(self).wf(),
        ensures
            final(self).wf(),
            !has_prefix(old(self).states(), prefix@) ==> final(self).states() == old(self).states(),
            has_prefix(old(self).states(), prefix@) ==> exists|i: int| {
                &&& position_of(old(self).states(), prefix@, i)
                &&& final(self).states() == old(self).states().update(
                    i,
                    PrefixMigrationState { confirmed: true, ..old(self).states()[i] },
                )
            },
    {
        if let Some(i) = self.position(prefix) {
            let ghost before = self.states@;
            self.states[i].confirmed = true;
            proof {
                assert(self.states@ =~= before.update(
                    i as int,
                    PrefixMigrationState { confirmed: true, ..before[i as int] },
                ));
                assert forall|a: int, b: int|
                    0 <= a < self.states@.len() && 0 <= b < self.states@.len() && a != b implies (#[trigger] self.states@[a]).parent_prefix@
                    != (#[trigger] self.states@[b]).parent_prefix@ by {
                    assert(self.states@[a].parent_prefix == before[a].parent_prefix);
                    assert(self.states@[b].parent_prefix == before[b].parent_prefix);
                }
            }
        }
    }

    /// Forgets every migration.
    pub fn clear(&mut self)
        ensures
            final(self).wf(),
            final(self).states().len() == 0,
    {
        self.states.clear();
    }

    /// Where a query for the keyword goes: while a migration covers it, to
    /// the migration's source node under the first child prefix that agrees
    /// with it; otherwise where the router sends it.
    pub fn query_route(&self, router: &Router, keyword: &str) -> (r: Option<RouteTarget>)
        requires
            router.wf(),
        ensures
            (forall|i: int| 0 <= i < self.states().len() ==> !covers(#[trigger] self.states()[i], keyword@))
                ==> target_view(r) == router.route_spec(keyword@),
            (exists|i: int| first_cover(self.states(), keyword@, i)) ==> exists|i: int, j: int| {
                &&& first_cover(self.states(), keyword@, i)
                &&& first_match(self.states()[i].child_prefixes@, keyword@, j)
                &&& target_view(r) == Some(
                    TargetView {
                        prefix: self.states()[i].child_prefixes@[j]@,
                        node_name: self.states()[i].source_node@,
                        addr: self.states()[i].source_addr@,
                    },
                )
            },
    {
        match self.active_for_keyword(keyword) {
            Some(i) => {
                let state = &self.states[i];
                let j = match first_matching_prefix(&state.child_prefixes, keyword) {
                    Some(j) => j,
                    None => {
                        assert(false);
                        0
                    },
                };
                let r = Some(
                    RouteTarget {
                        prefix: state.child_prefixes[j].clone(),
                        node_name: state.source_node.clone(),
                        addr: state.source_addr.clone(),
                    },
                );
                proof {
                    assert(first_match(self.states@[i as int].child_prefixes@, keyword@, j as int));
                }
                r
            },
            None => {
                proof {
                    assert forall|i: int| !first_cover(self.states(), keyword@, i) by {}
                }
                router.route_keyword(keyword)
            },
        }
    }
}

/// The keywords of a request without repeats, in increasing order.
pub fn ordered_unique_keywords(keywords: &Vec<String>) -> (r: Vec<String>)
    ensures
        sorted_names(r@.map_values(|s: String| s@)),
        distinct_strings(r@),
        string_set(r@) == string_set(keywords@),
{
    let unique = dedup_strings(keywords);
    sort_strings(&unique)
}

/// The summary a storage node's reply stands for: its accumulator when it
/// sent one, else its root hash.
pub fn root_summary_for_values(root_hash: &[u8], root_accumulator: &[u8]) -> (r: Vec<u8>)
    ensures
        r@ == if root_accumulator@.len() > 0 {
            root_accumulator@
        } else {
            root_hash@
        },
{
    let mut r: Vec<u8> = Vec::new();
    let src = if root_accumulator.len() > 0 {
        root_accumulator
    } else {
        root_hash
    };
    let mut i: usize = 0;
    while i < src.len()
        invariant
            i <= src@.len(),
            r@ == src@.take(i as int),
        decreases src@.len() - i,
    {
        r.push(src[i]);
        assert(src@.take(i + 1) =~= src@.take(i as int).push(src@[i as int]));
        i = i + 1;
    }
    assert(src@.take(src@.len() as int) =~= src@);
    r
}

/// `s` starts with `p`.
pub open spec fn chars_start_with(s: Seq<char>, p: Seq<char>) -> bool {
    p.len() <= s.len() && s.take(p.len() as int) == p
}

fn starts_with_text(s: &str, p: &str) -> (r: bool)
    ensures
        r == chars_start_with(s@, p@),
{
    let a = chars_of(s);
    let b = chars_of(p);
    if b.len() > a.len() {
        return false;
    }
    let mut i: usize = 0;
    while i < b.len()
        invariant
            i <= b@.len() <= a@.len(),
            a@ == s@,
            b@ == p@,
            forall|j: int| 0 <= j < i ==> a@[j] == b@[j],
        decreases b@.len() - i,
    {
        if a[i] != b[i] {
            assert(s@.take(p@.len() as int)[i as int] != p@[i as int]);
            return false;
        }
        i = i + 1;
    }
    assert(s@.take(p@.len() as int) =~= p@);
    true
}

/// A storage node address with a scheme: `http://` is added unless it
/// starts with `http://` or `https://`.
pub fn normalize_addr(storager_addr: &str) -> (r: String)
    ensures
        r@ == if chars_start_with(storager_addr@, "http://"@) || chars_start_with(
            storager_addr@,
            "https://"@,
        ) {
            storager_addr@
        } else {
            "http://"@ + storager_addr@
        },
{
    let mut cs: Vec<char> = Vec::new();
    if starts_with_text(storager_addr, "http://") || starts_with_text(storager_addr, "https://") {
        push_str(&mut cs, storager_addr);
    } else {
        push_str(&mut cs, "http://");
        push_str(&mut cs, storager_addr);
    }
    string_from_chars(cs.as_slice())
}

/// The persistence mode after a storage node reported `reported`: only
/// `page` and `kvdb` (trimmed, any case) count; the first one replaces
/// `unknown`, a different one makes it `mixed`.
pub open spec fn merged_persistence_mode(current: Seq<char>, reported: Seq<char>) -> Seq<char> {
    let n = lowercase_spec(trim(reported));
    if n.len() == 0 || (n != "page"@ && n != "kvdb"@) {
        current
    } else if current == "unknown"@ {
        n
    } else if current != n {
        "mixed"@
    } else {
        current
    }
}

/// Folds a storage node's reported persistence mode into the current one.
pub fn record_persistence_mode(current: &mut String, mode: &str)
    ensures
        final(current)@ == merged_persistence_mode(old(current)@, mode@),
{
    let cs = chars_of(mode);
    let t = trimmed_range(&cs, 0, cs.len());
    assert(cs@.subrange(0, cs@.len() as int) =~= mode@);
    let trimmed = string_from_chars(t.as_slice());
    let normalized = to_lowercase(trimmed.as_str());
    let n = normalized.as_str();
    if chars_of(n).len() == 0 {
        return;
    }
    if !str_eq(n, "page") && !str_eq(n, "kvdb") {
        return;
    }
    if str_eq(current.as_str(), "unknown") {
        *current = normalized;
        return;
    }
    if !str_eq(current.as_str(), n) {
        let mut m: Vec<char> = Vec::new();
        push_str(&mut m, "mixed");
        *current = string_from_chars(m.as_slice());
    }
}

/// What replaying a buffered write sends to the storage node, in order:
/// `(is_add, fid)` pairs. An update replays as a delete then an add, and
/// only when its two file ids agree.
pub open spec fn replay_calls(op: PendingOperation) -> Result<Seq<(bool, Seq<char>)>, Seq<char>> {
    match op {
        PendingOperation::Add { fid, .. } => Ok(seq![(true, fid@)]),
        PendingOperation::Delete { fid, .. } => Ok(seq![(false, fid@)]),
        PendingOperation::Update { keyword, old_fid, new_fid } => if old_fid@ == new_fid@ {
            Ok(seq![(false, old_fid@), (true, new_fid@)])
        } else {
            Err("replay for update with differing fid values is unsupported: "@ + keyword@)
        },
    }
}

/// The label under which a replayed write is reported.
pub open spec fn replay_label(op: PendingOperation) -> Seq<char> {
    match op {
        PendingOperation::Add { keyword, .. } => "add:"@ + keyword@,
        PendingOperation::Delete { keyword, .. } => "delete:"@ + keyword@,
        PendingOperation::Update { keyword, .. } => "update:"@ + keyword@,
    }
}

pub open spec fn calls_view(r: Result<Vec<(bool, String)>, String>) -> Result<Seq<(bool, Seq<char>)>, Seq<char>> {
    match r {
        Ok(v) => Ok(v@.map_values(|c: (bool, String)| (c.0, c.1@))),
        Err(e) => Err(e@),
    }
}

/// The storage calls that replay a buffered write.
pub fn plan_replay(op: &PendingOperation) -> (r: Result<Vec<(bool, String)>, String>)
    ensures
        calls_view(r) == replay_calls(*op),
{
    match op {
        PendingOperation::Add { fid, .. } => {
            let v = vec![(true, fid.clone())];
            assert(v@.map_values(|c: (bool, String)| (c.0, c.1@)) =~= seq![(true, fid@)]);
            Ok(v)
        },
        PendingOperation::Delete { fid, .. } => {
            let v = vec![(false, fid.clone())];
            assert(v@.map_values(|c: (bool, String)| (c.0, c.1@)) =~= seq![(false, fid@)]);
            Ok(v)
        },
        PendingOperation::Update { keyword, old_fid, new_fid } => {
            if str_eq(old_fid.as_str(), new_fid.as_str()) {
                let v = vec![(false, old_fid.clone()), (true, new_fid.clone())];
                assert(v@.map_values(|c: (bool, String)| (c.0, c.1@)) =~= seq![
                    (false, old_fid@),
                    (true, new_fid@),
                ]);
                Ok(v)
            } else {
                let mut cs: Vec<char> = Vec::new();
                push_str(&mut cs, "replay for update with differing fid values is unsupported: ");
                push_str(&mut cs, keyword.as_str());
                Err(string_from_chars(cs.as_slice()))
            }
        },
    }
}

/// The report label of a replayed write.
pub fn replay_label_of(op: &PendingOperation) -> (s: String)
    ensures
        s@ == replay_label(*op),
{
    let mut cs: Vec<char> = Vec::new();
    match op {
        PendingOperation::Add { keyword, .. } => {
            push_str(&mut cs, "add:");
            push_str(&mut cs, keyword.as_str());
        },
        PendingOperation::Delete { keyword, .. } => {
            push_str(&mut cs, "delete:");
            push_str(&mut cs, keyword.as_str());
        },
        PendingOperation::Update { keyword, .. } => {
            push_str(&mut cs, "update:");
            push_str(&mut cs, keyword.as_str());
        },
    }
    string_from_chars(cs.as_slice())
}

/// A write buffered under a migration is not lost: taking the writes that
/// wait for that migration's parent prefix hands it back, after those that
/// were buffered before it.
pub proof fn buffered_write_is_handed_back(
    book: MigrationBook,
    buffered: MigrationBook,
    op: PendingOperation,
    i: int,
    j: int,
)
    requires
        buffered.wf(),
        first_cover(book.states(), op_keyword(op), i),
        buffered.states() == book.states().update(
            i,
            PrefixMigrationState {
                pending_operations: buffered.states()[i].pending_operations,
                ..book.states()[i]
            },
        ),
        buffered.states()[i].pending_operations@ == book.states()[i].pending_operations@.push(op),
        position_of(buffered.states(), book.states()[i].parent_prefix@, j),
    ensures
        j == i,
        buffered.states()[j].pending_operations@ == book.states()[i].pending_operations@.push(op),
{
    assert(buffered.states()[i].parent_prefix@ == book.states()[i].parent_prefix@);
    if j != i {
        assert(buffered.states()[i].parent_prefix@ != buffered.states()[j].parent_prefix@);
    }
}

/// The persistence mode after the storage nodes reported `modes`, in order.
pub open spec fn merged_persistence_modes(current: Seq<char>, modes: Seq<Seq<char>>) -> Seq<char>
    decreases modes.len(),
{
    if modes.len() == 0 {
        current
    } else {
        merged_persistence_mode(merged_persistence_modes(current, modes.drop_last()), modes.last())
    }
}

/// Folds the persistence modes the storage nodes reported into the current
/// one, in order.
pub fn record_persistence_modes(current: &mut String, modes: &Vec<String>)
    ensures
        final(current)@ == merged_persistence_modes(old(current)@, modes@.map_values(|m: String| m@)),
{
    let ghost start = current@;
    let ghost ms = modes@.map_values(|m: String| m@);
    let mut i: usize = 0;
    while i < modes.len()
        invariant
            i <= modes@.len(),
            ms == modes@.map_values(|m: String| m@),
            current@ == merged_persistence_modes(start, ms.take(i as int)),
        decreases modes@.len() - i,
    {
        record_persistence_mode(current, modes[i].as_str());
        i = i + 1;
        assert(ms.take(i as int).drop_last() =~= ms.take(i - 1));
    }
    assert(ms.take(modes@.len() as int) =~= ms);
}

/// The position of the reply that stands for a batch of writes: the last
/// one with a non-empty root hash, else the first.
pub open spec fn representative_spec(root_hashes: Seq<Seq<u8>>) -> int
    decreases root_hashes.len(),
{
    if root_hashes.len() == 0 {
        0
    } else if root_hashes.last().len() > 0 {
        root_hashes.len() - 1
    } else {
        representative_spec(root_hashes.drop_last())
    }
}

/// The reply that answers a batch of writes carries the last non-empty
/// root hash of the batch, whenever one of the replies has one.
pub proof fn representative_is_last_nonempty(root_hashes: Seq<Seq<u8>>)
    ensures
        (exists|i: int| 0 <= i < root_hashes.len() && #[trigger] root_hashes[i].len() > 0) ==> {
            let r = representative_spec(root_hashes);
            &&& 0 <= r < root_hashes.len()
            &&& root_hashes[r].len() > 0
            &&& forall|j: int| r < j < root_hashes.len() ==> #[trigger] root_hashes[j].len() == 0
        },
    decreases root_hashes.len(),
{
    if root_hashes.len() > 0 && root_hashes.last().len() == 0 {
        let init = root_hashes.drop_last();
        representative_is_last_nonempty(init);
        if exists|i: int| 0 <= i < root_hashes.len() && #[trigger] root_hashes[i].len() > 0 {
            let i = choose|i: int| 0 <= i < root_hashes.len() && #[trigger] root_hashes[i].len() > 0;
            assert(i < root_hashes.len() - 1);
            assert(init[i].len() > 0);
            let r = representative_spec(init);
            assert(representative_spec(root_hashes) == r);
            assert(root_hashes[r] == init[r]);
            assert forall|j: int| r < j < root_hashes.len() implies #[trigger] root_hashes[j].len() == 0 by {
                if j < root_hashes.len() - 1 {
                    assert(root_hashes[j] == init[j]);
                }
            }
        }
    }
}

/// The item at `i`, or nothing where there is none.
pub open spec fn at_or_empty(v: Seq<Seq<u8>>, i: int) -> Seq<u8> {
    if 0 <= i < v.len() {
        v[i]
    } else {
        Seq::empty()
    }
}

pub open spec fn byte_lists(v: Seq<Vec<u8>>) -> Seq<Seq<u8>> {
    v.map_values(|b: Vec<u8>| b@)
}

fn at_or_empty_bytes(v: &Vec<Vec<u8>>, i: usize) -> (r: Vec<u8>)
    ensures
        r@ == at_or_empty(byte_lists(v@), i as int),
{
    if i < v.len() {
        copy_bytes(v[i].as_slice())
    } else {
        Vec::new()
    }
}

/// The proof, root hash and root accumulator that answer a batch of writes:
/// those of the representative reply (see `representative_spec`), each
/// empty where its list holds nothing at that position.
pub fn select_representative(
    proofs: &Vec<Vec<u8>>,
    root_hashes: &Vec<Vec<u8>>,
    root_accumulators: &Vec<Vec<u8>>,
) -> (r: (Vec<u8>, Vec<u8>, Vec<u8>))
    ensures
        r.0@ == at_or_empty(byte_lists(proofs@), representative_spec(byte_lists(root_hashes@))),
        r.1@ == at_or_empty(byte_lists(root_hashes@), representative_spec(byte_lists(root_hashes@))),
        r.2@ == at_or_empty(byte_lists(root_accumulators@), representative_spec(byte_lists(root_hashes@))),
{
    let ghost hs = byte_lists(root_hashes@);
    let mut i: usize = root_hashes.len();
    let mut rep: usize = 0;
    let mut found = false;
    assert(hs.take(root_hashes@.len() as int) =~= hs);
    while i > 0 && !found
        invariant
            i <= root_hashes@.len(),
            hs == byte_lists(root_hashes@),
            found ==> rep as int == representative_spec(hs),
            !found ==> rep == 0 && representative_spec(hs) == representative_spec(hs.take(i as int)),
        decreases i + if found { 0int } else { 1int },
    {
        assert(hs.take(i as int).drop_last() =~= hs.take(i - 1));
        assert(hs.take(i as int).last() == root_hashes@[i - 1]@);
        if root_hashes[i - 1].len() > 0 {
            rep = i - 1;
            found = true;
        } else {
            i = i - 1;
        }
    }
    proof {
        if !found {
            assert(hs.take(0) =~= Seq::<Seq<u8>>::empty());
        }
    }
    (at_or_empty_bytes(proofs, rep), at_or_empty_bytes(root_hashes, rep), at_or_empty_bytes(root_accumulators, rep))
}

/// What answers a keyword update: the representative reply of the deletions
/// and additions together, its proof left out when an addition started a
/// prefix split (the proof no longer matches the nodes' state).
pub fn update_representative(
    proofs: &Vec<Vec<u8>>,
    root_hashes: &Vec<Vec<u8>>,
    root_accumulators: &Vec<Vec<u8>>,
    migration_happened: bool,
) -> (r: (Vec<u8>, Vec<u8>, Vec<u8>))
    ensures
        r.0@ == if migration_happened {
            Seq::<u8>::empty()
        } else {
            at_or_empty(byte_lists(proofs@), representative_spec(byte_lists(root_hashes@)))
        },
        r.1@ == at_or_empty(byte_lists(root_hashes@), representative_spec(byte_lists(root_hashes@))),
        r.2@ == at_or_empty(byte_lists(root_accumulators@), representative_spec(byte_lists(root_hashes@))),
{
    let (proof, root_hash, root_accumulator) = select_representative(proofs, root_hashes, root_accumulators);
    if migration_happened {
        (Vec::new(), root_hash, root_accumulator)
    } else {
        (proof, root_hash, root_accumulator)
    }
}

} // verus!
