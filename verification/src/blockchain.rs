//! Root-summary commitments to the chain: their hexadecimal encoding and the
//! decisions of the submission worker (when to submit, what, and how long to
//! wait after a failure), and how its settings read. The worker's I/O stands
//! outside the library.
use vstd::prelude::*;
use crate::text::{
    chars_of, hex_of_bytes, lowercase_spec, push_hex, push_str, str_eq, string_from_chars,
    to_lowercase, trim, trimmed_range,
};
use crate::config::{parse_u64, parse_u64_spec, parse_usize, parse_usize_spec};

verus! {

/// `0x` followed by the lower-case hexadecimal digits of the bytes.
pub fn hex_encode(bytes: &[u8]) -> (s: String)
    ensures
        s@ == "0x"@ + hex_of_bytes(bytes@),
{
    let mut cs: Vec<char> = Vec::new();
    push_str(&mut cs, "0x");
    push_hex(&mut cs, bytes);
    string_from_chars(cs.as_slice())
}

/// One prefix's new root summary, waiting to be committed.
#[derive(Clone, Debug, PartialEq, Eq)]
pub struct PendingCommit {
    pub prefix: String,
    pub summary_hex: String,
}

pub struct CommitView {
    pub prefix: Seq<char>,
    pub summary_hex: Seq<char>,
}

impl View for PendingCommit {
    type V = CommitView;

    open spec fn view(&self) -> CommitView {
        CommitView { prefix: self.prefix@, summary_hex: self.summary_hex@ }
    }
}

pub open spec fn commits_view(v: Seq<PendingCommit>) -> Seq<CommitView> {
    v.map_values(|c: PendingCommit| c@)
}

/// The commitment of a prefix's new summary.
pub fn pending_commit(prefix: &str, new_summary: &[u8]) -> (c: PendingCommit)
    ensures
        c.prefix@ == prefix@,
        c.summary_hex@ == "0x"@ + hex_of_bytes(new_summary@),
{
    let mut p: Vec<char> = Vec::new();
    push_str(&mut p, prefix);
    PendingCommit { prefix: string_from_chars(p.as_slice()), summary_hex: hex_encode(new_summary) }
}

/// The longest wait between attempts, in milliseconds.
pub const MAX_RETRY_DELAY_MS: u64 = 30000;

/// Twice the delay, at most thirty seconds.
pub open spec fn doubled_delay_spec(delay_ms: u64) -> u64 {
    if 2 * delay_ms >= MAX_RETRY_DELAY_MS {
        MAX_RETRY_DELAY_MS
    } else {
        (2 * delay_ms) as u64
    }
}

/// The next wait after a failed attempt: twice the delay, at most thirty
/// seconds.
pub fn doubled_delay_ms(delay_ms: u64) -> (r: u64)
    ensures
        r == doubled_delay_spec(delay_ms),
{
    if delay_ms >= MAX_RETRY_DELAY_MS / 2 {
        MAX_RETRY_DELAY_MS
    } else {
        delay_ms * 2
    }
}

fn clone_commit(c: &PendingCommit) -> (r: PendingCommit)
    ensures
        r@ == c@,
{
    PendingCommit { prefix: c.prefix.clone(), summary_hex: c.summary_hex.clone() }
}

/// The submission worker's state: commitments not yet confirmed (oldest
/// first), whether the outbox file lags behind them, and when the next
/// attempt may start.
pub struct ChainWorkerState {
    pending: Vec<PendingCommit>,
    outbox_dirty: bool,
    retry_delay_ms: u64,
    next_retry_at_ms: u64,
    batch_size: usize,
    retry_base_ms: u64,
}

impl ChainWorkerState {
    pub closed spec fn pending_view(&self) -> Seq<CommitView> {
        commits_view(self.pending@)
    }

    pub closed spec fn dirty(&self) -> bool {
        self.outbox_dirty
    }

    pub closed spec fn delay(&self) -> u64 {
        self.retry_delay_ms
    }

    pub closed spec fn next_retry(&self) -> u64 {
        self.next_retry_at_ms
    }

    pub closed spec fn batch(&self) -> usize {
        self.batch_size
    }

    pub closed spec fn base(&self) -> u64 {
        self.retry_base_ms
    }

    /// A worker that starts with the commitments recovered from the outbox.
    pub fn new(batch_size: usize, retry_base_ms: u64, recovered: Vec<PendingCommit>, now_ms: u64) -> (s: Self)
        ensures
            s.pending_view() == commits_view(recovered@),
            !s.dirty(),
            s.delay() == retry_base_ms,
            s.next_retry() == now_ms,
            s.batch() == batch_size,
            s.base() == retry_base_ms,
    {
        ChainWorkerState {
            pending: recovered,
            outbox_dirty: false,
            retry_delay_ms: retry_base_ms,
            next_retry_at_ms: now_ms,
            batch_size,
            retry_base_ms,
        }
    }

    /// The commitments not yet confirmed.
    pub fn pending(&self) -> (r: &Vec<PendingCommit>)
        ensures
            commits_view(r@) == self.pending_view(),
    {
        &self.pending
    }

    /// The wait after the next failed attempt, in milliseconds.
    pub fn retry_delay(&self) -> (r: u64)
        ensures
            r == self.delay(),
    {
        self.retry_delay_ms
    }

    /// Whether the outbox file must be rewritten before the next attempt.
    pub fn is_dirty(&self) -> (r: bool)
        ensures
            r == self.dirty(),
    {
        self.outbox_dirty
    }

    /// New commitments arrived (`appended` tells whether the outbox took
    /// them); answers whether to attempt a submission now: when the outbox
    /// is up to date, a full batch waits and the retry time has come.
    pub fn on_commit(&mut self, commits: Vec<PendingCommit>, appended: bool, now_ms: u64) -> (flush: bool)
        ensures
            final(self).pending_view() == old(self).pending_view() + commits_view(commits@),
            final(self).dirty() == (old(self).dirty() || !appended),
            final(self).delay() == old(self).delay(),
            final(self).next_retry() == old(self).next_retry(),
            final(self).batch() == old(self).batch(),
            final(self).base() == old(self).base(),
            flush == (!final(self).dirty() && final(self).pending_view().len() >= old(self).batch()
                && now_ms >= old(self).next_retry()),
    {
        let ghost before = self.pending@;
        let mut i: usize = 0;
        while i < commits.len()
            invariant
                i <= commits@.len(),
                commits_view(self.pending@) == commits_view(before) + commits_view(commits@).take(
                    i as int,
                ),
                self.outbox_dirty == old(self).outbox_dirty,
                self.retry_delay_ms == old(self).retry_delay_ms,
                self.next_retry_at_ms == old(self).next_retry_at_ms,
                self.batch_size == old(self).batch_size,
                self.retry_base_ms == old(self).retry_base_ms,
            decreases commits@.len() - i,
        {
            let ghost prev = self.pending@;
            self.pending.push(clone_commit(&commits[i]));
            assert(commits_view(self.pending@) =~= commits_view(prev).push(commits@[i as int]@));
            assert(commits_view(commits@).take(i + 1) =~= commits_view(commits@).take(i as int).push(
                commits@[i as int]@,
            ));
            i = i + 1;
        }
        assert(commits_view(commits@).take(commits@.len() as int) =~= commits_view(commits@));
        if !appended {
            self.outbox_dirty = true;
        }
        !self.outbox_dirty && self.pending.len() >= self.batch_size && now_ms >= self.next_retry_at_ms
    }

    /// A timer tick after the outbox was (or was not) rewritten when it
    /// lagged behind; answers whether to attempt a submission now: when the
    /// outbox is up to date, anything waits and the retry time has come.
    pub fn on_tick(&mut self, rewrote: bool, now_ms: u64) -> (flush: bool)
        ensures
            final(self).pending_view() == old(self).pending_view(),
            final(self).dirty() == (old(self).dirty() && !rewrote),
            final(self).delay() == old(self).delay(),
            final(self).next_retry() == old(self).next_retry(),
            final(self).batch() == old(self).batch(),
            final(self).base() == old(self).base(),
            flush == (!final(self).dirty() && final(self).pending_view().len() > 0 && now_ms
                >= old(self).next_retry()),
    {
        if self.outbox_dirty && rewrote {
            self.outbox_dirty = false;
        }
        !self.outbox_dirty && self.pending.len() > 0 && now_ms >= self.next_retry_at_ms
    }

    /// The next batch to submit: the oldest waiting commitments, at most a
    /// batch of them; `None` when nothing waits (the attempt then succeeds
    /// without a submission).
    pub fn flush_batch(&self) -> (r: Option<Vec<PendingCommit>>)
        ensures
            self.pending_view().len() == 0 <==> r is None,
            r matches Some(b) ==> commits_view(b@) == self.pending_view().take(
                if self.pending_view().len() < self.batch() {
                    self.pending_view().len() as int
                } else {
                    self.batch() as int
                },
            ),
    {
        if self.pending.len() == 0 {
            return None;
        }
        let n = if self.pending.len() < self.batch_size {
            self.pending.len()
        } else {
            self.batch_size
        };
        let mut batch: Vec<PendingCommit> = Vec::new();
        let mut i: usize = 0;
        while i < n
            invariant
                i <= n <= self.pending@.len(),
                commits_view(batch@) == commits_view(self.pending@).take(i as int),
            decreases n - i,
        {
            let ghost prev = batch@;
            batch.push(clone_commit(&self.pending[i]));
            assert(commits_view(batch@) =~= commits_view(prev).push(self.pending@[i as int]@));
            assert(commits_view(self.pending@).take(i + 1) =~= commits_view(self.pending@).take(
                i as int,
            ).push(self.pending@[i as int]@));
            i = i + 1;
        }
        Some(batch)
    }

    /// The batch of `batch_len` commitments was confirmed: they leave the
    /// queue (`rewrote` tells whether the outbox then took the rest).
    pub fn on_confirmed(&mut self, batch_len: usize, rewrote: bool)
        requires
            batch_len <= old(self).pending_view().len(),
        ensures
            final(self).pending_view() == old(self).pending_view().skip(batch_len as int),
            final(self).dirty() == !rewrote,
            final(self).delay() == old(self).delay(),
            final(self).next_retry() == old(self).next_retry(),
            final(self).batch() == old(self).batch(),
            final(self).base() == old(self).base(),
    {
        let mut rest: Vec<PendingCommit> = Vec::new();
        let mut i: usize = batch_len;
        while i < self.pending.len()
            invariant
                batch_len <= i <= self.pending@.len(),
                commits_view(rest@) == commits_view(self.pending@).subrange(batch_len as int, i as int),
            decreases self.pending@.len() - i,
        {
            let ghost prev = rest@;
            rest.push(clone_commit(&self.pending[i]));
            assert(commits_view(rest@) =~= commits_view(prev).push(self.pending@[i as int]@));
            assert(commits_view(self.pending@).subrange(batch_len as int, i + 1) =~= commits_view(
                self.pending@,
            ).subrange(batch_len as int, i as int).push(self.pending@[i as int]@));
            i = i + 1;
        }
        assert(commits_view(self.pending@).subrange(batch_len as int, self.pending@.len() as int)
            =~= commits_view(self.pending@).skip(batch_len as int));
        self.pending = rest;
        self.outbox_dirty = !rewrote;
    }

    /// An attempt ended: after a success the delay starts over and the next
    /// attempt may come at once; after a failure it waits the current delay,
    /// which then doubles (up to thirty seconds).
    pub fn on_attempt_done(&mut self, succeeded: bool, now_ms: u64)
        requires
            now_ms + old(self).delay() <= u64::MAX,
        ensures
            final(self).pending_view() == old(self).pending_view(),
            final(self).dirty() == old(self).dirty(),
            final(self).batch() == old(self).batch(),
            final(self).base() == old(self).base(),
            succeeded ==> final(self).delay() == old(self).base() && final(self).next_retry()
                == now_ms,
            !succeeded ==> final(self).next_retry() == now_ms + old(self).delay()
                && final(self).delay() == doubled_delay_spec(old(self).delay()),
    {
        if succeeded {
            self.retry_delay_ms = self.retry_base_ms;
            self.next_retry_at_ms = now_ms;
        } else {
            self.next_retry_at_ms = now_ms + self.retry_delay_ms;
            self.retry_delay_ms = doubled_delay_ms(self.retry_delay_ms);
        }
    }

    /// A reset: every waiting commitment is dropped and the outbox counts as
    /// up to date.
    pub fn on_reset(&mut self)
        ensures
            final(self).pending_view() == Seq::<CommitView>::empty(),
            !final(self).dirty(),
            final(self).delay() == old(self).delay(),
            final(self).next_retry() == old(self).next_retry(),
            final(self).batch() == old(self).batch(),
            final(self).base() == old(self).base(),
    {
        self.pending.clear();
        self.outbox_dirty = false;
        assert(commits_view(self.pending@) =~= Seq::<CommitView>::empty());
    }
}


/// A confirmed batch is the oldest waiting commitments, and what stays
/// waiting is the rest in order: no commitment is lost, repeated or
/// reordered by a submission.
pub proof fn confirmed_batch_keeps_the_rest(pending: Seq<CommitView>, batch_size: nat)
    ensures
        ({
            let n = if pending.len() < batch_size {
                pending.len() as int
            } else {
                batch_size as int
            };
            pending.take(n) + pending.skip(n) == pending
        }),
{
    let n = if pending.len() < batch_size {
        pending.len() as int
    } else {
        batch_size as int
    };
    assert(pending.take(n) + pending.skip(n) =~= pending);
}

/// Whether the chain setting turns submission on: it is set and, trimmed and
/// in lower case, is none of `0`, `false` and `off`.
pub open spec fn chain_enabled_spec(value: Option<Seq<char>>) -> bool {
    match value {
        None => false,
        Some(v) => {
            let n = lowercase_spec(trim(v));
            n != "0"@ && n != "false"@ && n != "off"@
        },
    }
}

/// Reads the setting that turns chain submission on.
pub fn chain_enabled(value: Option<&str>) -> (r: bool)
    ensures
        r == chain_enabled_spec(
            match value {
                Some(v) => Some(v@),
                None => None,
            },
        ),
{
    match value {
        None => false,
        Some(v) => {
            let cs = chars_of(v);
            let t = trimmed_range(&cs, 0, cs.len());
            assert(cs@.subrange(0, cs@.len() as int) =~= v@);
            let trimmed = string_from_chars(t.as_slice());
            let lower = to_lowercase(trimmed.as_str());
            let n = lower.as_str();
            !str_eq(n, "0") && !str_eq(n, "false") && !str_eq(n, "off")
        },
    }
}

/// A positive number setting: the value when it parses as a number above
/// zero, else the default.
pub fn positive_u64_setting(value: Option<&str>, default: u64) -> (r: u64)
    ensures
        r == match value {
            Some(v) => match parse_u64_spec(v@) {
                Some(n) => if n > 0 {
                    n
                } else {
                    default
                },
                None => default,
            },
            None => default,
        },
{
    match value {
        Some(v) => match parse_u64(v) {
            Some(n) => if n > 0 {
                n
            } else {
                default
            },
            None => default,
        },
        None => default,
    }
}

/// A positive count setting: the value when it parses as a number above
/// zero, else the default.
pub fn positive_usize_setting(value: Option<&str>, default: usize) -> (r: usize)
    ensures
        r == match value {
            Some(v) => match parse_usize_spec(v@) {
                Some(n) => if n > 0 {
                    n
                } else {
                    default
                },
                None => default,
            },
            None => default,
        },
{
    match value {
        Some(v) => match parse_usize(v) {
            Some(n) => if n > 0 {
                n
            } else {
                default
            },
            None => default,
        },
        None => default,
    }
}

/// A path setting counts when it is set and not blank.
pub fn path_setting_given(value: Option<&str>) -> (r: bool)
    ensures
        r == match value {
            Some(v) => trim(v@).len() > 0,
            None => false,
        },
{
    match value {
        Some(v) => {
            let cs = chars_of(v);
            let t = trimmed_range(&cs, 0, cs.len());
            assert(cs@.subrange(0, cs@.len() as int) =~= v@);
            t.len() > 0
        },
        None => false,
    }
}

} // verus!
