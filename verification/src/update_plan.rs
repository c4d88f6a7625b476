//! The decisions of a keyword update: which keywords each phase touches and
//! where they go, what the replies of a phase settle, and what a failed
//! update undoes. The storager calls between them are the caller's.
use vstd::prelude::*;
use crate::routing::{mode_name, target_view, Router, RouteMode, RouteTarget};
use crate::text::{dedup_strings, distinct_strings, string_set};

verus! {

/// A keyword written on a storager, and where it went.
#[derive(Debug, Clone, PartialEq, Eq)]
pub struct KeywordWrite {
    pub keyword: String,
    pub prefix: String,
    pub node_name: String,
    pub addr: String,
}

pub struct KeywordWriteView {
    pub keyword: Seq<char>,
    pub prefix: Seq<char>,
    pub node_name: Seq<char>,
    pub addr: Seq<char>,
}

impl View for KeywordWrite {
    type V = KeywordWriteView;

    open spec fn view(&self) -> KeywordWriteView {
        KeywordWriteView {
            keyword: self.keyword@,
            prefix: self.prefix@,
            node_name: self.node_name@,
            addr: self.addr@,
        }
    }
}

fn copy_write(w: &KeywordWrite) -> (r: KeywordWrite)
    ensures
        r@ == w@,
{
    KeywordWrite {
        keyword: w.keyword.clone(),
        prefix: w.prefix.clone(),
        node_name: w.node_name.clone(),
        addr: w.addr.clone(),
    }
}

/// How an update begins.
#[derive(Debug, Clone, PartialEq, Eq)]
pub enum UpdateStart {
    /// Neither list names a keyword: the update succeeds and does nothing.
    NothingToDo,
    /// Delete each of these keywords once, then add each of those once.
    Phases { deletes: Vec<String>, adds: Vec<String> },
}

/// `r` holds each keyword of `v` exactly once.
pub open spec fn each_once(r: Seq<String>, v: Seq<String>) -> bool {
    distinct_strings(r) && string_set(r) == string_set(v)
}

/// The keywords of an update, each once: nothing to do when both lists are
/// empty.
pub fn start_update(old_keywords: &Vec<String>, new_keywords: &Vec<String>) -> (r: UpdateStart)
    ensures
        (r is NothingToDo) <==> (old_keywords@.len() == 0 && new_keywords@.len() == 0),
        r matches UpdateStart::Phases { deletes, adds } ==> each_once(deletes@, old_keywords@)
            && each_once(adds@, new_keywords@),
{
    if old_keywords.len() == 0 && new_keywords.len() == 0 {
        return UpdateStart::NothingToDo;
    }
    UpdateStart::Phases { deletes: dedup_strings(old_keywords), adds: dedup_strings(new_keywords) }
}

/// Where each keyword of a phase is written: the route of each, in order.
pub fn plan_routes(router: &Router, keywords: &Vec<String>) -> (r: Vec<Option<RouteTarget>>)
    requires
        router.wf(),
    ensures
        r@.len() == keywords@.len(),
        forall|i: int|
            0 <= i < keywords@.len() ==> target_view(#[trigger] r@[i]) == router.route_spec(
                keywords@[i]@,
            ),
{
    let mut r: Vec<Option<RouteTarget>> = Vec::new();
    let mut i: usize = 0;
    while i < keywords.len()
        invariant
            router.wf(),
            i <= keywords@.len(),
            r@.len() == i,
            forall|j: int|
                0 <= j < i ==> target_view(#[trigger] r@[j]) == router.route_spec(keywords@[j]@),
        decreases keywords@.len() - i,
    {
        let t = router.route_keyword(keywords[i].as_str());
        r.push(t);
        i = i + 1;
    }
    r
}

/// Reply `r` reports the write `w`.
pub open spec fn reports(r: Result<KeywordWrite, String>, w: KeywordWriteView) -> bool {
    match r {
        Ok(x) => x@ == w,
        Err(_) => false,
    }
}

/// Reply `r` reports a failure with message `m`.
pub open spec fn fails_with(r: Result<KeywordWrite, String>, m: Seq<char>) -> bool {
    match r {
        Ok(_) => false,
        Err(e) => e@ == m,
    }
}

/// What the replies of a phase settle: the writes in reply order up to the
/// first failure, and that failure's message.
#[derive(Debug, Clone, PartialEq, Eq)]
pub struct PhaseOutcome {
    pub done: Vec<KeywordWrite>,
    pub failure: Option<String>,
}

/// The replies of a phase, in the order they came: the writes before the
/// first failure, and the first failure's message (`None` when every write
/// succeeded).
pub fn settle_phase(replies: &Vec<Result<KeywordWrite, String>>) -> (o: PhaseOutcome)
    ensures
        o.done@.len() <= replies@.len(),
        forall|j: int|
            0 <= j < o.done@.len() ==> reports(replies@[j], (#[trigger] o.done@[j])@),
        o.failure is None <==> o.done@.len() == replies@.len(),
        o.failure matches Some(m) ==> fails_with(replies@[o.done@.len() as int], m@),
{
    let mut done: Vec<KeywordWrite> = Vec::new();
    let mut i: usize = 0;
    while i < replies.len()
        invariant
            i <= replies@.len(),
            done@.len() == i,
            forall|j: int|
                0 <= j < i ==> reports(replies@[j], (#[trigger] done@[j])@),
        decreases replies@.len() - i,
    {
        let reply = &replies[i];
        match reply {
            Ok(w) => {
                let c = copy_write(w);
                done.push(c);
                assert(reports(replies@[i as int], done@[i as int]@));
            },
            Err(e) => {
                let m = e.clone();
                assert(fails_with(replies@[i as int], m@));
                return PhaseOutcome { done, failure: Some(m) };
            },
        }
        i = i + 1;
    }
    PhaseOutcome { done, failure: None }
}

/// The step adds back the write `w`.
pub open spec fn step_re_adds(step: RollbackStep, w: KeywordWriteView) -> bool {
    match step {
        RollbackStep::ReAdd(x) => x@ == w,
        RollbackStep::Remove(_) => false,
    }
}

/// The step deletes the keyword `k`.
pub open spec fn step_removes(step: RollbackStep, k: Seq<char>) -> bool {
    match step {
        RollbackStep::Remove(x) => x@ == k,
        RollbackStep::ReAdd(_) => false,
    }
}

/// One step of undoing a failed update.
#[derive(Debug, Clone, PartialEq, Eq)]
pub enum RollbackStep {
    /// Add a deleted keyword back on the storager it was deleted from.
    ReAdd(KeywordWrite),
    /// Delete an added keyword where it now routes.
    Remove(String),
}

/// Undoing a failed update: first every deleted keyword is added back where
/// it was, in order, then every added keyword is deleted, in order.
pub fn rollback_plan(deleted: &Vec<KeywordWrite>, added: &Vec<String>) -> (steps: Vec<RollbackStep>)
    ensures
        steps@.len() == deleted@.len() + added@.len(),
        forall|i: int|
            0 <= i < deleted@.len() ==> step_re_adds(#[trigger] steps@[i], deleted@[i]@),
        forall|j: int|
            0 <= j < added@.len() ==> step_removes(
                #[trigger] steps@[deleted@.len() + j],
                added@[j]@,
            ),
{
    let mut steps: Vec<RollbackStep> = Vec::new();
    let mut i: usize = 0;
    while i < deleted.len()
        invariant
            i <= deleted@.len(),
            steps@.len() == i,
            forall|k: int|
                0 <= k < i ==> step_re_adds(#[trigger] steps@[k], deleted@[k]@),
        decreases deleted@.len() - i,
    {
        steps.push(RollbackStep::ReAdd(copy_write(&deleted[i])));
        i = i + 1;
    }
    let mut j: usize = 0;
    while j < added.len()
        invariant
            j <= added@.len(),
            steps@.len() == deleted@.len() + j,
            forall|k: int|
                0 <= k < deleted@.len() ==> step_re_adds(#[trigger] steps@[k], deleted@[k]@),
            forall|k: int|
                0 <= k < j ==> step_removes(#[trigger] steps@[deleted@.len() + k], added@[k]@),
        decreases added@.len() - j,
    {
        steps.push(RollbackStep::Remove(added[j].clone()));
        j = j + 1;
    }
    steps
}

/// Every reply reports a write.
pub open spec fn all_ok(rs: Seq<Result<KeywordWrite, String>>) -> bool {
    forall|j: int| 0 <= j < rs.len() ==> (#[trigger] rs[j]) is Ok
}

/// Reply `k` is the first failure.
pub open spec fn first_failure_at(rs: Seq<Result<KeywordWrite, String>>, k: int) -> bool {
    &&& 0 <= k < rs.len()
    &&& rs[k] is Err
    &&& forall|i: int| 0 <= i < k ==> (#[trigger] rs[i]) is Ok
}

/// The first failed reply carries message `m`.
pub open spec fn first_failure_is(rs: Seq<Result<KeywordWrite, String>>, m: Seq<char>) -> bool {
    exists|k: int| first_failure_at(rs, k) && #[trigger] fails_with(rs[k], m)
}

/// The keywords of the writes that succeeded, in reply order.
pub open spec fn written_keywords(rs: Seq<Result<KeywordWrite, String>>) -> Seq<Seq<char>>
    decreases rs.len(),
{
    if rs.len() == 0 {
        Seq::empty()
    } else {
        match rs.last() {
            Ok(w) => written_keywords(rs.drop_last()).push(w@.keyword),
            Err(_) => written_keywords(rs.drop_last()),
        }
    }
}

/// The reply to an update.
#[derive(Debug, Clone, PartialEq, Eq)]
pub struct UpdateReply {
    pub success: bool,
    pub message: String,
    pub combined_proof: Vec<u8>,
    pub combined_root_hash: Vec<u8>,
    pub combined_root_accumulator: Vec<u8>,
    pub route_mode: String,
    pub persistence_mode: String,
}

/// The reply to an update that names no keyword: success, "No keywords to
/// update", no proof, root hash or accumulator, and the current route and
/// persistence modes.
pub fn nothing_to_update_reply(route_mode: RouteMode, persistence_mode: String) -> (r: UpdateReply)
    ensures
        r.success,
        r.message@ == "No keywords to update"@,
        r.combined_proof@.len() == 0,
        r.combined_root_hash@.len() == 0,
        r.combined_root_accumulator@.len() == 0,
        r.route_mode@ == mode_name(route_mode),
        r.persistence_mode@ == persistence_mode@,
{
    UpdateReply {
        success: true,
        message: String::from_str("No keywords to update"),
        combined_proof: Vec::new(),
        combined_root_hash: Vec::new(),
        combined_root_accumulator: Vec::new(),
        route_mode: String::from_str(route_mode.as_str()),
        persistence_mode,
    }
}

/// What follows the delete phase.
#[derive(Debug, Clone, PartialEq, Eq)]
pub enum DeletePhaseEnd {
    /// A delete failed: the update fails with its message; no add is sent and
    /// nothing is undone.
    Fail(String),
    /// Every delete succeeded: these are the deletions, and these keywords are
    /// added next.
    SendAdds { deleted: Vec<KeywordWrite>, adds: Vec<String> },
}

/// The step after the delete phase, from its replies in the order they came:
/// the first failed delete fails the update; otherwise the add phase sends
/// the new keywords.
pub fn after_deletes(delete_replies: &Vec<Result<KeywordWrite, String>>, adds: &Vec<String>) -> (e:
    DeletePhaseEnd)
    ensures
        (e is Fail) <==> !all_ok(delete_replies@),
        e matches DeletePhaseEnd::Fail(m) ==> exists|k: int|
            first_failure_at(delete_replies@, k) && fails_with(#[trigger] delete_replies@[k], m@),
        e matches DeletePhaseEnd::SendAdds { deleted, adds: sent } ==> {
            &&& deleted@.len() == delete_replies@.len()
            &&& forall|i: int|
                0 <= i < deleted@.len() ==> reports(delete_replies@[i], (#[trigger] deleted@[i])@)
            &&& sent@.map_values(|s: String| s@) == adds@.map_values(|s: String| s@)
        },
{
    let deletes = settle_phase(delete_replies);
    match deletes.failure {
        Some(m) => {
            proof {
                let k = deletes.done@.len() as int;
                assert forall|i: int| 0 <= i < k implies (#[trigger] delete_replies@[i]) is Ok by {
                    assert(reports(delete_replies@[i], deletes.done@[i]@));
                }
                assert(first_failure_at(delete_replies@, k));
            }
            DeletePhaseEnd::Fail(m)
        },
        None => {
            proof {
                assert forall|j: int| 0 <= j < delete_replies@.len() implies (
                #[trigger] delete_replies@[j]) is Ok by {
                    assert(reports(delete_replies@[j], deletes.done@[j]@));
                }
            }
            DeletePhaseEnd::SendAdds { deleted: deletes.done, adds: crate::proofs::copy_strings(adds) }
        },
    }
}

/// The message an update fails with when an add fails.
pub open spec fn add_phase_failure(m: Seq<char>) -> Seq<char> {
    "Update failed during add phase: "@ + m
}

/// How an update ends once its adds have replied.
#[derive(Debug, Clone, PartialEq, Eq)]
pub enum UpdateVerdict {
    /// An add failed: these steps undo the update, which fails with the
    /// message.
    RollBack { steps: Vec<RollbackStep>, message: String },
    /// Every write succeeded: record the deletions and the additions.
    Commit { deleted: Vec<KeywordWrite>, added: Vec<KeywordWrite> },
}

/// The keywords of the successful writes, in reply order.
fn written_keyword_list(rs: &Vec<Result<KeywordWrite, String>>) -> (r: Vec<String>)
    ensures
        r@.map_values(|s: String| s@) == written_keywords(rs@),
{
    let mut r: Vec<String> = Vec::new();
    let mut i: usize = 0;
    while i < rs.len()
        invariant
            i <= rs@.len(),
            r@.map_values(|s: String| s@) == written_keywords(rs@.take(i as int)),
        decreases rs@.len() - i,
    {
        let ghost before = r@;
        proof {
            assert(rs@.take(i + 1).drop_last() =~= rs@.take(i as int));
            assert(rs@.take(i + 1).last() == rs@[i as int]);
        }
        match &rs[i] {
            Ok(w) => {
                r.push(w.keyword.clone());
                assert(r@.map_values(|s: String| s@) =~= before.map_values(|s: String| s@).push(
                    w.keyword@,
                ));
            },
            Err(_) => {},
        }
        i = i + 1;
    }
    assert(rs@.take(rs@.len() as int) =~= rs@);
    r
}

/// The end of an update from the deletions it made and the replies of its
/// adds, in the order they came. When an add failed, the update fails with
/// "Update failed during add phase: " and the first failure's message, and
/// is undone: every deleted keyword is added back where it was, then every
/// keyword whose add succeeded is deleted. Otherwise it commits.
pub fn after_adds(deleted: &Vec<KeywordWrite>, add_replies: &Vec<Result<KeywordWrite, String>>) -> (v:
    UpdateVerdict)
    ensures
        (v is RollBack) <==> !all_ok(add_replies@),
        v matches UpdateVerdict::RollBack { steps, message } ==> {
            &&& message@ == add_phase_failure(message@.skip(32))
            &&& first_failure_is(add_replies@, message@.skip(32))
            &&& steps@.len() == deleted@.len() + written_keywords(add_replies@).len()
            &&& forall|i: int|
                0 <= i < deleted@.len() ==> step_re_adds(#[trigger] steps@[i], deleted@[i]@)
            &&& forall|j: int|
                0 <= j < written_keywords(add_replies@).len() ==> step_removes(
                    #[trigger] steps@[deleted@.len() + j],
                    written_keywords(add_replies@)[j],
                )
        },
        v matches UpdateVerdict::Commit { deleted: d, added } ==> {
            &&& d@.len() == deleted@.len()
            &&& forall|i: int| 0 <= i < d@.len() ==> (#[trigger] d@[i])@ == deleted@[i]@
            &&& added@.len() == add_replies@.len()
            &&& forall|i: int|
                0 <= i < added@.len() ==> reports(add_replies@[i], (#[trigger] added@[i])@)
        },
{
    let adds = settle_phase(add_replies);
    match adds.failure {
        Some(m) => {
            let written = written_keyword_list(add_replies);
            let steps = rollback_plan(deleted, &written);
            let mut cs: Vec<char> = Vec::new();
            crate::text::push_str(&mut cs, "Update failed during add phase: ");
            crate::text::push_str(&mut cs, m.as_str());
            let message = crate::text::string_from_chars(cs.as_slice());
            proof {
                reveal_strlit("Update failed during add phase: ");
                let k = adds.done@.len() as int;
                assert forall|i: int| 0 <= i < k implies (#[trigger] add_replies@[i]) is Ok by {
                    assert(reports(add_replies@[i], adds.done@[i]@));
                }
                assert(first_failure_at(add_replies@, k));
                assert(message@.skip(32) =~= m@);
                assert(message@ =~= add_phase_failure(m@));
                assert(fails_with(add_replies@[k], message@.skip(32)));
                assert(first_failure_is(add_replies@, message@.skip(32)));
                let wk = written_keywords(add_replies@);
                assert(written@.map_values(|s: String| s@).len() == written@.len());
                assert(wk.len() == written@.len());
                assert forall|j: int| 0 <= j < wk.len() implies step_removes(
                    #[trigger] steps@[deleted@.len() + j],
                    wk[j],
                ) by {
                    assert(written@.map_values(|s: String| s@)[j] == written@[j]@);
                }
            }
            UpdateVerdict::RollBack { steps, message }
        },
        None => {
            let mut d: Vec<KeywordWrite> = Vec::new();
            let mut i: usize = 0;
            while i < deleted.len()
                invariant
                    i <= deleted@.len(),
                    d@.len() == i,
                    forall|k: int| 0 <= k < i ==> (#[trigger] d@[k])@ == deleted@[k]@,
                decreases deleted@.len() - i,
            {
                d.push(copy_write(&deleted[i]));
                i = i + 1;
            }
            proof {
                assert forall|j: int| 0 <= j < add_replies@.len() implies (
                #[trigger] add_replies@[j]) is Ok by {
                    assert(reports(add_replies@[j], adds.done@[j]@));
                }
            }
            UpdateVerdict::Commit { deleted: d, added: adds.done }
        },
    }
}

} // verus!
