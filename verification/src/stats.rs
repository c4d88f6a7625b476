//! Bookkeeping of prefix migrations: the operations that wait while a prefix
//! moves, the state of each move, the I/O and time the moves took, and how
//! many records each upload brought under each prefix.
use vstd::prelude::*;
use crate::assoc::StrMap;
use crate::routing::{lemma_lex_asym, lemma_lex_total, lemma_lex_trans, lex_lt, str_lt, PrefixSplitPlan, TargetView};
use crate::text::{decimal, push_decimal_u64, push_str, str_eq, string_from_chars};

verus! {

/// I/O counters of one process.
#[derive(Clone, Copy, Debug)]
pub struct ProcessIoStats {
    pub read_bytes: u64,
    pub write_bytes: u64,
    pub read_ops: u64,
    pub write_ops: u64,
}

/// `a + b`, or the largest `u64` when that overflows.
pub open spec fn sat_add(a: u64, b: u64) -> u64 {
    if a + b > u64::MAX {
        u64::MAX
    } else {
        (a + b) as u64
    }
}

pub open spec fn max_u64(a: u64, b: u64) -> u64 {
    if a >= b {
        a
    } else {
        b
    }
}

impl Default for ProcessIoStats {
    fn default() -> (s: Self)
        ensures
            s.read_bytes == 0 && s.write_bytes == 0 && s.read_ops == 0 && s.write_ops == 0,
    {
        ProcessIoStats { read_bytes: 0, write_bytes: 0, read_ops: 0, write_ops: 0 }
    }
}

impl ProcessIoStats {
    /// Bytes read and written, saturating.
    pub fn total_bytes(&self) -> (n: u64)
        ensures
            n == sat_add(self.read_bytes, self.write_bytes),
    {
        self.read_bytes.saturating_add(self.write_bytes)
    }
}

/// Totals over all prefix migrations.
#[derive(Clone, Debug)]
pub struct SplitMigrationStats {
    pub migration_count: u64,
    pub total_duration_ms: u64,
    pub last_duration_ms: u64,
    pub max_duration_ms: u64,
    pub total_io_read_bytes: u64,
    pub total_io_write_bytes: u64,
    pub last_io_src: ProcessIoStats,
    pub last_io_tgt: ProcessIoStats,
    pub last_io_payload_bytes: u64,
    pub max_io_total_bytes: u64,
}

impl Default for SplitMigrationStats {
    fn default() -> (s: Self)
        ensures
            s.migration_count == 0 && s.total_duration_ms == 0 && s.last_duration_ms == 0
                && s.max_duration_ms == 0 && s.total_io_read_bytes == 0 && s.total_io_write_bytes
                == 0 && s.last_io_payload_bytes == 0 && s.max_io_total_bytes == 0
                && s.last_io_src.read_bytes == 0 && s.last_io_src.write_bytes == 0
                && s.last_io_src.read_ops == 0 && s.last_io_src.write_ops == 0
                && s.last_io_tgt.read_bytes == 0 && s.last_io_tgt.write_bytes == 0
                && s.last_io_tgt.read_ops == 0 && s.last_io_tgt.write_ops == 0,
    {
        SplitMigrationStats {
            migration_count: 0,
            total_duration_ms: 0,
            last_duration_ms: 0,
            max_duration_ms: 0,
            total_io_read_bytes: 0,
            total_io_write_bytes: 0,
            last_io_src: ProcessIoStats::default(),
            last_io_tgt: ProcessIoStats::default(),
            last_io_payload_bytes: 0,
            max_io_total_bytes: 0,
        }
    }
}

impl SplitMigrationStats {
    /// Counts one more migration that took `duration_ms` milliseconds (capped
    /// at the largest `u64`); totals saturate.
    pub fn record_duration(&mut self, duration_ms: u128)
        ensures
            ({
                let ms: u64 = if duration_ms > u64::MAX as u128 {
                    u64::MAX
                } else {
                    duration_ms as u64
                };
                &&& final(self).migration_count == sat_add(old(self).migration_count, 1)
                &&& final(self).total_duration_ms == sat_add(old(self).total_duration_ms, ms)
                &&& final(self).last_duration_ms == ms
                &&& final(self).max_duration_ms == max_u64(old(self).max_duration_ms, ms)
                &&& final(self).total_io_read_bytes == old(self).total_io_read_bytes
                &&& final(self).total_io_write_bytes == old(self).total_io_write_bytes
                &&& final(self).last_io_src == old(self).last_io_src
                &&& final(self).last_io_tgt == old(self).last_io_tgt
                &&& final(self).last_io_payload_bytes == old(self).last_io_payload_bytes
                &&& final(self).max_io_total_bytes == old(self).max_io_total_bytes
            }),
    {
        let ms: u64 = if duration_ms > u64::MAX as u128 {
            u64::MAX
        } else {
            duration_ms as u64
        };
        self.migration_count = self.migration_count.saturating_add(1);
        self.total_duration_ms = self.total_duration_ms.saturating_add(ms);
        self.last_duration_ms = ms;
        if ms > self.max_duration_ms {
            self.max_duration_ms = ms;
        }
    }

    /// Adds the I/O of a migration's source and target processes; totals
    /// saturate, and the largest combined total is kept.
    pub fn record_io(&mut self, src: ProcessIoStats, tgt: ProcessIoStats, payload_bytes: u64)
        ensures
            final(self).total_io_read_bytes == sat_add(
                old(self).total_io_read_bytes,
                sat_add(src.read_bytes, tgt.read_bytes),
            ),
            final(self).total_io_write_bytes == sat_add(
                old(self).total_io_write_bytes,
                sat_add(src.write_bytes, tgt.write_bytes),
            ),
            final(self).last_io_src == src,
            final(self).last_io_tgt == tgt,
            final(self).last_io_payload_bytes == payload_bytes,
            final(self).max_io_total_bytes == max_u64(
                old(self).max_io_total_bytes,
                sat_add(
                    sat_add(src.read_bytes, src.write_bytes),
                    sat_add(tgt.read_bytes, tgt.write_bytes),
                ),
            ),
            final(self).migration_count == old(self).migration_count,
            final(self).total_duration_ms == old(self).total_duration_ms,
            final(self).last_duration_ms == old(self).last_duration_ms,
            final(self).max_duration_ms == old(self).max_duration_ms,
    {
        self.total_io_read_bytes = self.total_io_read_bytes.saturating_add(
            src.read_bytes.saturating_add(tgt.read_bytes),
        );
        self.total_io_write_bytes = self.total_io_write_bytes.saturating_add(
            src.write_bytes.saturating_add(tgt.write_bytes),
        );
        self.last_io_src = src;
        self.last_io_tgt = tgt;
        self.last_io_payload_bytes = payload_bytes;
        let total = src.total_bytes().saturating_add(tgt.total_bytes());
        if total > self.max_io_total_bytes {
            self.max_io_total_bytes = total;
        }
    }
}

/// A write that arrived while its prefix was moving, to be replayed after.
#[derive(Clone, Debug, PartialEq, Eq)]
pub enum PendingOperation {
    Add { keyword: String, fid: String },
    Delete { keyword: String, fid: String },
    Update { keyword: String, old_fid: String, new_fid: String },
}

/// The move of a split prefix's keywords to its children's nodes.
#[derive(Clone, Debug)]
pub struct PrefixMigrationState {
    pub parent_prefix: String,
    pub source_node: String,
    pub source_addr: String,
    pub child_prefixes: Vec<String>,
    pub target_nodes: StrMap<String>,
    pub confirmed: bool,
    pub pending_operations: Vec<PendingOperation>,
}

/// Child prefix to node, later children winning over earlier ones with the
/// same prefix.
pub open spec fn targets_of(children: Seq<TargetView>) -> Map<Seq<char>, Seq<char>>
    decreases children.len(),
{
    if children.len() == 0 {
        Map::empty()
    } else {
        targets_of(children.drop_last()).insert(children.last().prefix, children.last().node_name)
    }
}

impl PrefixMigrationState {
    /// The state of a migration that a split plan starts: not confirmed, no
    /// operation waiting.
    pub fn from_split_plan(plan: &PrefixSplitPlan) -> (s: Self)
        ensures
            s.parent_prefix@ == plan.parent_prefix@,
            s.source_node@ == plan.source.node_name@,
            s.source_addr@ == plan.source.addr@,
            s.child_prefixes@.map_values(|p: String| p@) == plan@.children.map_values(
                |t: TargetView| t.prefix,
            ),
            s.target_nodes.wf(),
            s.target_nodes.map() == targets_of(plan@.children),
            !s.confirmed,
            s.pending_operations@.len() == 0,
    {
        let mut child_prefixes: Vec<String> = Vec::new();
        let mut target_nodes: StrMap<String> = StrMap::new();
        let ghost children = plan@.children;
        let mut i: usize = 0;
        assert(children.take(0) =~= Seq::<TargetView>::empty());
        while i < plan.children.len()
            invariant
                i <= plan.children@.len(),
                children == plan@.children,
                children.len() == plan.children@.len(),
                child_prefixes@.len() == i,
                forall|j: int| 0 <= j < i ==> #[trigger] child_prefixes@[j]@ == children[j].prefix,
                target_nodes.wf(),
                target_nodes.map() == targets_of(children.take(i as int)),
            decreases plan.children@.len() - i,
        {
            let child = &plan.children[i];
            assert(child@ == children[i as int]);
            child_prefixes.push(child.prefix.clone());
            target_nodes.insert(child.prefix.clone(), child.node_name.clone());
            assert(children.take(i + 1).drop_last() =~= children.take(i as int));
            i = i + 1;
        }
        assert(children.take(plan.children@.len() as int) =~= children);
        assert(child_prefixes@.map_values(|p: String| p@) =~= children.map_values(
            |t: TargetView| t.prefix,
        ));
        PrefixMigrationState {
            parent_prefix: plan.parent_prefix.clone(),
            source_node: plan.source.node_name.clone(),
            source_addr: plan.source.addr.clone(),
            child_prefixes,
            target_nodes,
            confirmed: false,
            pending_operations: Vec::new(),
        }
    }
}

/// Keys ordered by storage node name, then by prefix.
pub open spec fn key_lt(a: (Seq<char>, Seq<char>), b: (Seq<char>, Seq<char>)) -> bool {
    lex_lt(a.0, b.0) || (a.0 == b.0 && lex_lt(a.1, b.1))
}

proof fn lemma_key_lt_asym(a: (Seq<char>, Seq<char>), b: (Seq<char>, Seq<char>))
    ensures
        key_lt(a, b) ==> !key_lt(b, a),
{
    lemma_lex_asym(a.0, b.0);
    lemma_lex_asym(b.0, a.0);
    lemma_lex_asym(a.1, b.1);
}

proof fn lemma_key_lt_trans(a: (Seq<char>, Seq<char>), b: (Seq<char>, Seq<char>), c: (Seq<char>, Seq<char>))
    requires
        key_lt(a, b),
        key_lt(b, c),
    ensures
        key_lt(a, c),
{
    if lex_lt(a.0, b.0) && lex_lt(b.0, c.0) {
        lemma_lex_trans(a.0, b.0, c.0);
    } else if a.0 == b.0 && b.0 == c.0 {
        lemma_lex_trans(a.1, b.1, c.1);
    }
}

proof fn lemma_key_lt_total(a: (Seq<char>, Seq<char>), b: (Seq<char>, Seq<char>))
    requires
        a != b,
    ensures
        key_lt(a, b) || key_lt(b, a),
{
    if a.0 != b.0 {
        lemma_lex_total(a.0, b.0);
    } else {
        assert(a.1 != b.1);
        lemma_lex_total(a.1, b.1);
    }
}

pub open spec fn import_key(e: (String, String, u64)) -> (Seq<char>, Seq<char>) {
    (e.0@, e.1@)
}

/// The counts as a map from (storage node, prefix).
pub open spec fn import_map(s: Seq<(String, String, u64)>) -> Map<(Seq<char>, Seq<char>), u64> {
    Map::new(
        |k: (Seq<char>, Seq<char>)| exists|i: int| 0 <= i < s.len() && import_key(#[trigger] s[i]) == k,
        |k: (Seq<char>, Seq<char>)| s[choose|i: int| 0 <= i < s.len() && import_key(#[trigger] s[i]) == k].2,
    )
}

/// One report line per count, `node,prefix,count`, each ended by a line
/// feed.
pub open spec fn import_report(s: Seq<(String, String, u64)>) -> Seq<char>
    decreases s.len(),
{
    if s.len() == 0 {
        Seq::empty()
    } else {
        import_report(s.drop_last()) + s.last().0@ + ","@ + s.last().1@ + ","@ + decimal(s.last().2 as nat) + "\n"@
    }
}

fn owned(s: &str) -> (r: String)
    ensures
        r@ == s@,
{
    let mut cs: Vec<char> = Vec::new();
    push_str(&mut cs, s);
    string_from_chars(cs.as_slice())
}

pub open spec fn distinct_keys(s: Seq<(String, String, u64)>) -> bool {
    forall|i: int, j: int| 0 <= i < s.len() && 0 <= j < s.len() && i != j ==> import_key(#[trigger] s[i]) != import_key(#[trigger] s[j])
}

proof fn lemma_import_map_at(s: Seq<(String, String, u64)>, i: int)
    requires
        distinct_keys(s),
        0 <= i < s.len(),
    ensures
        import_map(s).dom().contains(import_key(s[i])),
        import_map(s)[import_key(s[i])] == s[i].2,
{
    let k = import_key(s[i]);
    assert(exists|x: int| 0 <= x < s.len() && import_key(#[trigger] s[x]) == k);
    let c = choose|x: int| 0 <= x < s.len() && import_key(#[trigger] s[x]) == k;
    assert(c == i);
}

proof fn lemma_import_map_set(s: Seq<(String, String, u64)>, p: int, e: (String, String, u64))
    requires
        distinct_keys(s),
        0 <= p < s.len(),
        import_key(e) == import_key(s[p]),
    ensures
        distinct_keys(s.update(p, e)),
        import_map(s.update(p, e)) == import_map(s).insert(import_key(e), e.2),
{
    let ns = s.update(p, e);
    assert(distinct_keys(ns)) by {
        assert forall|i: int, j: int| 0 <= i < ns.len() && 0 <= j < ns.len() && i != j implies import_key(#[trigger] ns[i])
            != import_key(#[trigger] ns[j]) by {
            assert(import_key(ns[i]) == import_key(s[i]));
            assert(import_key(ns[j]) == import_key(s[j]));
        }
    }
    assert forall|key: (Seq<char>, Seq<char>)| #[trigger] import_map(ns).dom().contains(key) <==> import_map(s).insert(
        import_key(e),
        e.2,
    ).dom().contains(key) by {
        if import_map(ns).dom().contains(key) {
            let i = choose|i: int| 0 <= i < ns.len() && import_key(#[trigger] ns[i]) == key;
            if i != p {
                assert(import_key(s[i]) == key);
            }
        }
        if import_map(s).dom().contains(key) {
            let i = choose|i: int| 0 <= i < s.len() && import_key(#[trigger] s[i]) == key;
            assert(import_key(ns[i]) == key);
        }
        if key == import_key(e) {
            assert(import_key(ns[p]) == key);
        }
    }
    assert forall|key: (Seq<char>, Seq<char>)| #[trigger] import_map(ns).dom().contains(key) implies import_map(ns)[key]
        == import_map(s).insert(import_key(e), e.2)[key] by {
        let i = choose|i: int| 0 <= i < ns.len() && import_key(#[trigger] ns[i]) == key;
        lemma_import_map_at(ns, i);
        if i != p {
            lemma_import_map_at(s, i);
        }
    }
    assert(import_map(ns) =~= import_map(s).insert(import_key(e), e.2));
}

proof fn lemma_import_map_insert(s: Seq<(String, String, u64)>, p: int, e: (String, String, u64))
    requires
        distinct_keys(s),
        0 <= p <= s.len(),
        !import_map(s).dom().contains(import_key(e)),
    ensures
        distinct_keys(s.insert(p, e)),
        import_map(s.insert(p, e)) == import_map(s).insert(import_key(e), e.2),
{
    let ns = s.insert(p, e);
    assert forall|i: int| 0 <= i < s.len() implies import_key(#[trigger] s[i]) != import_key(e) by {
        if import_key(s[i]) == import_key(e) {
            assert(import_map(s).dom().contains(import_key(e)));
        }
    }
    assert(distinct_keys(ns)) by {
        assert forall|i: int, j: int| 0 <= i < ns.len() && 0 <= j < ns.len() && i != j implies import_key(#[trigger] ns[i])
            != import_key(#[trigger] ns[j]) by {
            if i < p && j < p {
            } else if i < p && j > p {
                assert(ns[j] == s[j - 1]);
            } else if i > p && j < p {
                assert(ns[i] == s[i - 1]);
            } else if i > p && j > p {
                assert(ns[i] == s[i - 1]);
                assert(ns[j] == s[j - 1]);
            } else if i == p {
                if j < p {
                    assert(ns[j] == s[j]);
                } else {
                    assert(ns[j] == s[j - 1]);
                }
            } else {
                if i < p {
                    assert(ns[i] == s[i]);
                } else {
                    assert(ns[i] == s[i - 1]);
                }
            }
        }
    }
    assert forall|key: (Seq<char>, Seq<char>)| #[trigger] import_map(ns).dom().contains(key) <==> import_map(s).insert(
        import_key(e),
        e.2,
    ).dom().contains(key) by {
        if import_map(ns).dom().contains(key) {
            let i = choose|i: int| 0 <= i < ns.len() && import_key(#[trigger] ns[i]) == key;
            if i < p {
                assert(ns[i] == s[i]);
            } else if i > p {
                assert(ns[i] == s[i - 1]);
            }
        }
        if import_map(s).dom().contains(key) {
            let i = choose|i: int| 0 <= i < s.len() && import_key(#[trigger] s[i]) == key;
            if i < p {
                assert(ns[i] == s[i]);
            } else {
                assert(ns[i + 1] == s[i]);
            }
        }
        if key == import_key(e) {
            assert(ns[p] == e);
        }
    }
    assert forall|key: (Seq<char>, Seq<char>)| #[trigger] import_map(ns).dom().contains(key) implies import_map(ns)[key]
        == import_map(s).insert(import_key(e), e.2)[key] by {
        let i = choose|i: int| 0 <= i < ns.len() && import_key(#[trigger] ns[i]) == key;
        lemma_import_map_at(ns, i);
        if i < p {
            assert(ns[i] == s[i]);
            lemma_import_map_at(s, i);
        } else if i > p {
            assert(ns[i] == s[i - 1]);
            lemma_import_map_at(s, i - 1);
        }
    }
    assert(import_map(ns) =~= import_map(s).insert(import_key(e), e.2));
}

proof fn lemma_sorted_distinct(s: Seq<(String, String, u64)>)
    requires
        forall|i: int, j: int| 0 <= i < j < s.len() ==> key_lt(import_key(#[trigger] s[i]), import_key(#[trigger] s[j])),
    ensures
        distinct_keys(s),
{
    assert forall|i: int, j: int| 0 <= i < s.len() && 0 <= j < s.len() && i != j implies import_key(#[trigger] s[i])
        != import_key(#[trigger] s[j]) by {
        if i < j {
            lemma_key_lt_asym(import_key(s[i]), import_key(s[j]));
        } else {
            lemma_key_lt_asym(import_key(s[j]), import_key(s[i]));
        }
    }
}

/// How many records each upload brought under each prefix of each storage
/// node.
pub struct PrefixImportCounts {
    entries: Vec<(String, String, u64)>,
}

impl PrefixImportCounts {
    pub closed spec fn entries_view(&self) -> Seq<(String, String, u64)> {
        self.entries@
    }

    /// The counts, ordered by storage node then prefix, each key once.
    pub open spec fn wf(&self) -> bool {
        forall|i: int, j: int|
            0 <= i < j < self.entries_view().len() ==> key_lt(
                import_key(#[trigger] self.entries_view()[i]),
                import_key(#[trigger] self.entries_view()[j]),
            )
    }

    pub open spec fn counts(&self) -> Map<(Seq<char>, Seq<char>), u64> {
        import_map(self.entries_view())
    }

    pub fn new() -> (c: Self)
        ensures
            c.wf(),
            c.counts() == Map::<(Seq<char>, Seq<char>), u64>::empty(),
    {
        let c = PrefixImportCounts { entries: Vec::new() };
        assert(c.counts() =~= Map::<(Seq<char>, Seq<char>), u64>::empty());
        c
    }

    /// Adds `count` records under a storage node's prefix (saturating);
    /// nothing for zero records.
    pub fn record(&mut self, node_name: &str, prefix: &str, count: u64)
        requires
            old(self).wf(),
        ensures
            final(self).wf(),
            final(self).counts() == if count == 0 {
                old(self).counts()
            } else {
                old(self).counts().insert(
                    (node_name@, prefix@),
                    (if old(self).counts().dom().contains((node_name@, prefix@)) {
                        let t = old(self).counts()[(node_name@, prefix@)] + count;
                        if t > u64::MAX { u64::MAX as int } else { t }
                    } else {
                        count as int
                    }) as u64,
                )
            },
    {
        if count == 0 {
            return;
        }
        let ghost k = (node_name@, prefix@);
        let ghost s = self.entries@;
        proof {
            assert(s == old(self).entries_view());
            assert forall|i: int, j: int| 0 <= i < j < s.len() implies key_lt(import_key(#[trigger] s[i]), import_key(#[trigger] s[j])) by {
                assert(old(self).entries_view()[i] == s[i]);
                assert(old(self).entries_view()[j] == s[j]);
            }
            lemma_sorted_distinct(s);
        }
        let mut p: usize = 0;
        while p < self.entries.len() && self.key_before(p, node_name, prefix)
            invariant
                p <= s.len(),
                self.entries@ == s,
                k == (node_name@, prefix@),
                forall|i: int| 0 <= i < p ==> key_lt(import_key(#[trigger] s[i]), k),
            decreases s.len() - p,
        {
            p = p + 1;
        }
        proof {
            assert forall|i: int| 0 <= i < p implies import_key(#[trigger] s[i]) != k by {
                lemma_key_lt_asym(import_key(s[i]), k);
            }
        }
        if p < self.entries.len() && str_eq(self.entries[p].0.as_str(), node_name)
            && str_eq(self.entries[p].1.as_str(), prefix) {
            let old_count = self.entries[p].2;
            let new_count = match old_count.checked_add(count) {
                Some(t) => t,
                None => u64::MAX,
            };
            let entry = (owned(node_name), owned(prefix), new_count);
            proof {
                assert forall|i: int| 0 <= i < s.len() && i != p implies import_key(#[trigger] s[i]) != k by {
                    if i > p {
                        lemma_key_lt_asym(import_key(s[p as int]), import_key(s[i]));
                    }
                }
                assert(import_map(s).dom().contains(k));
                assert(import_map(s)[k] == old_count);
            }
            self.entries.set(p, entry);
            proof {
                lemma_import_map_set(s, p as int, entry);
            }
        } else {
            proof {
                if p < s.len() {
                    assert(import_key(s[p as int]) != k);
                    lemma_key_lt_total(import_key(s[p as int]), k);
                    assert forall|i: int| p <= i < s.len() implies key_lt(k, import_key(#[trigger] s[i])) by {
                        if i > p {
                            lemma_key_lt_trans(k, import_key(s[p as int]), import_key(s[i]));
                        }
                    }
                }
                assert forall|i: int| p <= i < s.len() implies import_key(#[trigger] s[i]) != k by {
                    lemma_key_lt_asym(k, import_key(s[i]));
                }
                assert(!import_map(s).dom().contains(k));
            }
            let entry = (owned(node_name), owned(prefix), count);
            self.entries.insert(p, entry);
            proof {
                let ns = self.entries@;
                assert(ns =~= s.insert(p as int, entry));
                assert forall|i: int, j: int| 0 <= i < j < ns.len() implies key_lt(
                    import_key(#[trigger] ns[i]),
                    import_key(#[trigger] ns[j]),
                ) by {
                    if j < p {
                    } else if j == p {
                    } else if i < p {
                        lemma_key_lt_trans(import_key(s[i]), k, import_key(s[j - 1]));
                    } else if i == p {
                    } else {
                    }
                }
                lemma_import_map_insert(s, p as int, entry);
            }
        }
    }

    /// Whether the count at `p` comes before the key `(node_name, prefix)`.
    fn key_before(&self, p: usize, node_name: &str, prefix: &str) -> (r: bool)
        requires
            p < self.entries_view().len(),
        ensures
            r == key_lt(import_key(self.entries_view()[p as int]), (node_name@, prefix@)),
    {
        let e = &self.entries[p];
        str_lt(e.0.as_str(), node_name) || (str_eq(e.0.as_str(), node_name) && str_lt(e.1.as_str(), prefix))
    }

    /// The report: `node,prefix,count` per line, ordered by storage node
    /// then prefix.
    pub fn report(&self) -> (r: String)
        ensures
            r@ == import_report(self.entries_view()),
    {
        let mut cs: Vec<char> = Vec::new();
        let mut i: usize = 0;
        while i < self.entries.len()
            invariant
                i <= self.entries@.len(),
                cs@ == import_report(self.entries@.take(i as int)),
            decreases self.entries@.len() - i,
        {
            let e = &self.entries[i];
            push_str(&mut cs, e.0.as_str());
            push_str(&mut cs, ",");
            push_str(&mut cs, e.1.as_str());
            push_str(&mut cs, ",");
            push_decimal_u64(&mut cs, e.2);
            push_str(&mut cs, "\n");
            i = i + 1;
            assert(self.entries@.take(i as int).drop_last() =~= self.entries@.take(i - 1));
        }
        assert(self.entries@.take(self.entries@.len() as int) =~= self.entries@);
        string_from_chars(cs.as_slice())
    }
}

} // verus!
