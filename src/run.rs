//! Replay of a reference trace against one replacement policy.
use vstd::prelude::*;
use crate::frames::{Frames, first_slot, first_min, first_max, lemma_first_min_exists, lemma_first_max_exists, find_slot, oldest, farthest, copy_frames};
use crate::stats::RunStats;

verus! {

/// The three eviction rules.
#[derive(Clone, Copy, Debug, PartialEq, Eq, Structural)]
pub enum Policy {
    /// Evict the page that was loaded earliest.
    Fifo,
    /// Evict the page whose last reference lies furthest in the past.
    Lru,
    /// Evict the page whose next reference lies furthest in the future.
    Optimal,
}

/// Why a run cannot be built.
#[derive(Clone, Copy, Debug, PartialEq, Eq, Structural)]
pub enum ConfigError {
    /// No frame to load a page into, while the trace references pages.
    NoFrames,
    /// No page to reference, while a trace is asked for.
    NoPages,
}

/// `s` is the next position after `t` that references the page at `t`.
pub open spec fn is_next_use(trace: Seq<u32>, t: int, s: int) -> bool {
    &&& t < s < trace.len()
    &&& trace[s] == trace[t]
    &&& forall|r: int| t < r < s ==> trace[r] != trace[t]
}

/// The next position after `t` that references the page at `t`, or the
/// trace's length where the page is never referenced again.
pub open spec fn next_use(trace: Seq<u32>, t: int) -> int {
    if exists|s: int| is_next_use(trace, t, s) {
        choose|s: int| is_next_use(trace, t, s)
    } else {
        trace.len() as int
    }
}

/// What a policy records of a frame when the reference at `t` touches it:
/// the time of that reference for FIFO and LRU, the time of the page's next
/// reference for Optimal.
pub open spec fn stamp(policy: Policy, trace: Seq<u32>, t: int) -> usize {
    match policy {
        Policy::Optimal => next_use(trace, t) as usize,
        _ => t as usize,
    }
}

/// The frame a full table gives up: the smallest stamp (earliest load for
/// FIFO, least recent reference for LRU) or the largest (latest next
/// reference for Optimal), the lowest frame on a tie.
pub open spec fn victim(policy: Policy, stamps: Seq<usize>) -> int {
    match policy {
        Policy::Optimal => first_max(stamps),
        _ => first_min(stamps),
    }
}

/// The frame that a faulting page is loaded into: the first empty one,
/// else the policy's victim.
pub open spec fn target(policy: Policy, frames: Frames, stamps: Seq<usize>) -> int {
    let e = first_slot(frames, None);
    if e < frames.len() {
        e
    } else {
        victim(policy, stamps)
    }
}

/// The state of a replay after some references.
pub struct Replay {
    /// Resident pages.
    pub frames: Frames,
    /// One stamp per frame, as `stamp` gives it.
    pub stamps: Seq<usize>,
    /// One entry per reference so far, true for a hit.
    pub hits: Seq<bool>,
    /// The all-empty table, then the table after each reference.
    pub history: Seq<Frames>,
}

/// A table of `n` empty frames.
pub open spec fn empty_frames(n: nat) -> Frames {
    Seq::new(n, |i: int| None)
}

/// The replay of the first `t` references of `trace` over `n` frames.
pub open spec fn replay_upto(policy: Policy, trace: Seq<u32>, n: nat, t: nat) -> Replay
    decreases t,
{
    if t == 0 {
        Replay {
            frames: empty_frames(n),
            stamps: Seq::new(n, |i: int| 0usize),
            hits: seq![],
            history: seq![empty_frames(n)],
        }
    } else {
        let r = replay_upto(policy, trace, n, (t - 1) as nat);
        let now = t - 1;
        let page = trace[now];
        let h = first_slot(r.frames, Some(page));
        if h < r.frames.len() {
            let stamps = match policy {
                Policy::Fifo => r.stamps,
                _ => r.stamps.update(h, stamp(policy, trace, now)),
            };
            Replay {
                frames: r.frames,
                stamps,
                hits: r.hits.push(true),
                history: r.history.push(r.frames),
            }
        } else {
            let s = target(policy, r.frames, r.stamps);
            let frames = r.frames.update(s, Some(page));
            Replay {
                frames,
                stamps: r.stamps.update(s, stamp(policy, trace, now)),
                hits: r.hits.push(false),
                history: r.history.push(frames),
            }
        }
    }
}

/// The number of hits in an outcome sequence.
pub open spec fn count_hits(s: Seq<bool>) -> nat
    decreases s.len(),
{
    if s.len() == 0 {
        0
    } else {
        count_hits(s.drop_last()) + if s.last() { 1nat } else { 0nat }
    }
}

/// On a non-empty table the frame to load into is one of its frames.
pub proof fn lemma_target_in_range(policy: Policy, frames: Frames, stamps: Seq<usize>)
    requires
        frames.len() > 0,
        stamps.len() == frames.len(),
    ensures
        0 <= target(policy, frames, stamps) < frames.len(),
{
    if first_slot(frames, None) >= frames.len() {
        match policy {
            Policy::Optimal => {
                lemma_first_max_exists(stamps);
            },
            _ => {
                lemma_first_min_exists(stamps);
            },
        }
    }
}

/// A replay keeps `n` frames and stamps, one outcome per reference, and one
/// snapshot more than references, the last being the current table.
pub proof fn lemma_replay_shape(policy: Policy, trace: Seq<u32>, n: nat, t: nat)
    requires
        t <= trace.len(),
        n == 0 ==> trace.len() == 0,
    ensures
        replay_upto(policy, trace, n, t).frames.len() == n,
        replay_upto(policy, trace, n, t).stamps.len() == n,
        replay_upto(policy, trace, n, t).hits.len() == t,
        replay_upto(policy, trace, n, t).history.len() == t + 1,
        replay_upto(policy, trace, n, t).history[t as int] == replay_upto(policy, trace, n, t).frames,
        replay_upto(policy, trace, n, t).history[0] == empty_frames(n),
    decreases t,
{
    if t > 0 {
        lemma_replay_shape(policy, trace, n, (t - 1) as nat);
        let r = replay_upto(policy, trace, n, (t - 1) as nat);
        let h = first_slot(r.frames, Some(trace[t - 1]));
        if h >= r.frames.len() {
            lemma_target_in_range(policy, r.frames, r.stamps);
        }
    }
}

/// A next use is unique, so `next_use` names it.
pub proof fn lemma_next_use_unique(trace: Seq<u32>, t: int, s: int)
    requires
        is_next_use(trace, t, s),
    ensures
        next_use(trace, t) == s,
{
    let c = choose|c: int| is_next_use(trace, t, c);
    assert(is_next_use(trace, t, c));
    if c < s {
        assert(trace[c] != trace[t]);
    } else if s < c {
        assert(trace[s] != trace[t]);
    }
}

/// The next position after `t` that references the page at `t`, or the
/// trace's length.
fn next_use_at(trace: &Vec<u32>, t: usize) -> (r: usize)
    requires
        t < trace.len(),
    ensures
        r as int == next_use(trace@, t as int),
        t < r <= trace.len(),
{
    let mut s: usize = t + 1;
    while s < trace.len()
        invariant
            t < s <= trace.len(),
            forall|r: int| t < r < s ==> trace@[r] != trace@[t as int],
        decreases trace.len() - s,
    {
        if trace[s] == trace[t] {
            proof {
                lemma_next_use_unique(trace@, t as int, s as int);
            }
            return s;
        }
        s = s + 1;
    }
    assert(!exists|c: int| is_next_use(trace@, t as int, c));
    s
}

/// The stamp that `policy` records for the reference at `t`.
fn stamp_at(policy: Policy, trace: &Vec<u32>, t: usize) -> (r: usize)
    requires
        t < trace.len(),
    ensures
        r == stamp(policy, trace@, t as int),
{
    match policy {
        Policy::Optimal => next_use_at(trace, t),
        _ => t,
    }
}

/// A table of `n` empty frames.
fn new_frames(n: usize) -> (r: Vec<Option<u32>>)
    ensures
        r@ == empty_frames(n as nat),
{
    let mut r: Vec<Option<u32>> = Vec::new();
    let mut i: usize = 0;
    while i < n
        invariant
            i <= n,
            r@ == Seq::new(i as nat, |j: int| None::<u32>),
        decreases n - i,
    {
        r.push(None);
        i = i + 1;
        assert(r@ =~= Seq::new(i as nat, |j: int| None::<u32>));
    }
    assert(r@ =~= empty_frames(n as nat));
    r
}

/// `n` zero stamps.
fn new_stamps(n: usize) -> (r: Vec<usize>)
    ensures
        r@ == Seq::new(n as nat, |i: int| 0usize),
{
    let mut r: Vec<usize> = Vec::new();
    let mut i: usize = 0;
    while i < n
        invariant
            i <= n,
            r@ == Seq::new(i as nat, |j: int| 0usize),
        decreases n - i,
    {
        r.push(0);
        i = i + 1;
        assert(r@ =~= Seq::new(i as nat, |j: int| 0usize));
    }
    r
}

/// One replay of a trace over a fixed number of frames: the tables after
/// each reference, whether each reference hit, and the counts.
pub struct TestRun {
    pageref_sequence: Vec<u32>,
    n_frames: usize,
    stats: RunStats,
    hit_fault_sequence: Vec<bool>,
    frame_sequence: Vec<Vec<Option<u32>>>,
}

impl TestRun {
    /// The trace replayed.
    pub closed spec fn trace(&self) -> Seq<u32> {
        self.pageref_sequence@
    }

    /// The number of frames.
    pub closed spec fn frame_count(&self) -> nat {
        self.n_frames as nat
    }

    /// The tables: the all-empty one, then one after each reference replayed.
    pub closed spec fn history(&self) -> Seq<Frames> {
        self.frame_sequence@.map_values(|f: Vec<Option<u32>>| f@)
    }

    /// One entry per reference replayed, true for a hit.
    pub closed spec fn outcomes(&self) -> Seq<bool> {
        self.hit_fault_sequence@
    }

    /// The counts.
    pub closed spec fn counts(&self) -> RunStats {
        self.stats
    }

    /// The run holds the full replay of its trace under `policy`.
    pub open spec fn is_replayed(&self, policy: Policy) -> bool {
        let m = replay_upto(policy, self.trace(), self.frame_count(), self.trace().len());
        &&& self.history() == m.history
        &&& self.outcomes() == m.hits
    }

    /// A run without frames has nothing to replay.
    pub closed spec fn wf(&self) -> bool {
        self.n_frames == 0 ==> self.pageref_sequence@.len() == 0
    }

    /// A well-formed run has a trace that fits in memory, and frames where
    /// the trace is not empty.
    pub proof fn lemma_wf_bounds(&self)
        requires
            self.wf(),
        ensures
            self.trace().len() <= usize::MAX,
            self.frame_count() == 0 ==> self.trace().len() == 0,
    {
        assert(self.pageref_sequence@.len() == self.pageref_sequence.len());
    }

    /// A run of `pageref_sequence` over `n_frames` frames, before any
    /// replay. A run without frames over a non-empty trace is refused.
    pub fn new(pageref_sequence: &[u32], n_frames: usize) -> (r: Result<TestRun, ConfigError>)
        ensures
            r is Err <==> (n_frames == 0 && pageref_sequence@.len() > 0),
            r matches Err(e) ==> e == ConfigError::NoFrames,
            r matches Ok(run) ==> {
                &&& run.wf()
                &&& run.trace() == pageref_sequence@
                &&& run.frame_count() == n_frames
                &&& run.history() == seq![empty_frames(n_frames as nat)]
                &&& run.outcomes() == Seq::<bool>::empty()
                &&& run.counts().hits == 0
                &&& run.counts().faults == 0
            },
    {
        if n_frames == 0 && pageref_sequence.len() > 0 {
            return Err(ConfigError::NoFrames);
        }
        let mut trace: Vec<u32> = Vec::new();
        let mut i: usize = 0;
        while i < pageref_sequence.len()
            invariant
                i <= pageref_sequence@.len(),
                trace@ == pageref_sequence@.subrange(0, i as int),
            decreases pageref_sequence.len() - i,
        {
            trace.push(pageref_sequence[i]);
            i = i + 1;
        }
        assert(trace@ =~= pageref_sequence@);
        let mut frame_sequence: Vec<Vec<Option<u32>>> = Vec::new();
        frame_sequence.push(new_frames(n_frames));
        let run = TestRun {
            pageref_sequence: trace,
            n_frames,
            stats: RunStats::zero(),
            hit_fault_sequence: Vec::new(),
            frame_sequence,
        };
        assert(run.history() =~= seq![empty_frames(n_frames as nat)]);
        Ok(run)
    }

    /// Replays the whole trace under `policy`, from an all-empty table,
    /// replacing whatever an earlier replay left.
    pub fn replay(&mut self, policy: Policy)
        requires
            old(self).wf(),
        ensures
            final(self).wf(),
            final(self).trace() == old(self).trace(),
            final(self).frame_count() == old(self).frame_count(),
            final(self).history() == replay_upto(
                policy,
                old(self).trace(),
                old(self).frame_count(),
                old(self).trace().len(),
            ).history,
            final(self).outcomes() == replay_upto(
                policy,
                old(self).trace(),
                old(self).frame_count(),
                old(self).trace().len(),
            ).hits,
            final(self).counts().hits == count_hits(final(self).outcomes()),
            final(self).counts().hits + final(self).counts().faults == old(self).trace().len(),
            final(self).is_replayed(policy),
            final(self).history().len() == old(self).trace().len() + 1,
            final(self).history()[0] == empty_frames(old(self).frame_count()),
            final(self).outcomes().len() == old(self).trace().len(),
    {
        let n = self.n_frames;
        let ghost tr = self.pageref_sequence@;
        let mut frames = new_frames(n);
        let mut stamps = new_stamps(n);
        let mut outcomes: Vec<bool> = Vec::new();
        let mut history: Vec<Vec<Option<u32>>> = Vec::new();
        history.push(copy_frames(&frames));
        let mut hits: usize = 0;
        let mut faults: usize = 0;
        let mut t: usize = 0;
        proof {
            lemma_replay_shape(policy, tr, n as nat, 0);
        }
        while t < self.pageref_sequence.len()
            invariant
                tr == self.pageref_sequence@,
                n == self.n_frames,
                n == 0 ==> tr.len() == 0,
                t <= tr.len(),
                frames@ == replay_upto(policy, tr, n as nat, t as nat).frames,
                stamps@ == replay_upto(policy, tr, n as nat, t as nat).stamps,
                outcomes@ == replay_upto(policy, tr, n as nat, t as nat).hits,
                history@.len() == t + 1,
                forall|i: int| 0 <= i <= t ==> #[trigger] history@[i]@ == replay_upto(policy, tr, n as nat, t as nat).history[i],
                frames@.len() == n,
                stamps@.len() == n,
                hits == count_hits(outcomes@),
                hits + faults == t,
            decreases tr.len() - t,
        {
            proof {
                lemma_replay_shape(policy, tr, n as nat, t as nat);
                lemma_replay_shape(policy, tr, n as nat, (t + 1) as nat);
            }
            let ghost prev = outcomes@;
            let page = self.pageref_sequence[t];
            let h = find_slot(&frames, Some(page));
            if h < n {
                outcomes.push(true);
                hits = hits + 1;
                match policy {
                    Policy::Fifo => {},
                    _ => {
                        let k = stamp_at(policy, &self.pageref_sequence, t);
                        stamps.set(h, k);
                    },
                }
            } else {
                outcomes.push(false);
                faults = faults + 1;
                let e = find_slot(&frames, None);
                let s = if e < n {
                    e
                } else {
                    match policy {
                        Policy::Optimal => farthest(&stamps),
                        _ => oldest(&stamps),
                    }
                };
                let k = stamp_at(policy, &self.pageref_sequence, t);
                frames.set(s, Some(page));
                stamps.set(s, k);
            }
            assert(outcomes@.drop_last() =~= prev);
            history.push(copy_frames(&frames));
            t = t + 1;
            assert(stamps@ =~= replay_upto(policy, tr, n as nat, t as nat).stamps);
            assert(frames@ =~= replay_upto(policy, tr, n as nat, t as nat).frames);
        }
        proof {
            lemma_replay_shape(policy, tr, n as nat, t as nat);
        }
        self.stats = RunStats { hits, faults };
        self.hit_fault_sequence = outcomes;
        self.frame_sequence = history;
        assert(self.history() =~= replay_upto(policy, tr, n as nat, t as nat).history);
    }

    /// Replays the trace under FIFO.
    pub fn fifo(&mut self)
        requires
            old(self).wf(),
        ensures
            final(self).wf(),
            final(self).trace() == old(self).trace(),
            final(self).frame_count() == old(self).frame_count(),
            final(self).is_replayed(Policy::Fifo),
            final(self).counts().hits == count_hits(final(self).outcomes()),
            final(self).counts().hits + final(self).counts().faults == old(self).trace().len(),
    {
        self.replay(Policy::Fifo)
    }

    /// Replays the trace under LRU.
    pub fn lru(&mut self)
        requires
            old(self).wf(),
        ensures
            final(self).wf(),
            final(self).trace() == old(self).trace(),
            final(self).frame_count() == old(self).frame_count(),
            final(self).is_replayed(Policy::Lru),
            final(self).counts().hits == count_hits(final(self).outcomes()),
            final(self).counts().hits + final(self).counts().faults == old(self).trace().len(),
    {
        self.replay(Policy::Lru)
    }

    /// Replays the trace under Optimal.
    pub fn optimal(&mut self)
        requires
            old(self).wf(),
        ensures
            final(self).wf(),
            final(self).trace() == old(self).trace(),
            final(self).frame_count() == old(self).frame_count(),
            final(self).is_replayed(Policy::Optimal),
            final(self).counts().hits == count_hits(final(self).outcomes()),
            final(self).counts().hits + final(self).counts().faults == old(self).trace().len(),
    {
        self.replay(Policy::Optimal)
    }

    /// The counts.
    pub fn stats(&self) -> (r: RunStats)
        ensures
            r == self.counts(),
    {
        self.stats
    }

    /// The number of frames.
    pub fn n_frames(&self) -> (r: usize)
        ensures
            r == self.frame_count(),
    {
        self.n_frames
    }

    /// The number of tables recorded.
    pub fn snapshot_count(&self) -> (r: usize)
        ensures
            r == self.history().len(),
    {
        self.frame_sequence.len()
    }

    /// The table recorded at position `i`.
    pub fn snapshot(&self, i: usize) -> (r: Vec<Option<u32>>)
        requires
            i < self.history().len(),
        ensures
            r@ == self.history()[i as int],
    {
        copy_frames(&self.frame_sequence[i])
    }

    /// Whether reference `i` hit; one entry per reference replayed.
    pub fn outcome_sequence(&self) -> (r: Vec<bool>)
        ensures
            r@ == self.outcomes(),
    {
        let mut r: Vec<bool> = Vec::new();
        let mut i: usize = 0;
        while i < self.hit_fault_sequence.len()
            invariant
                i <= self.hit_fault_sequence.len(),
                r@ == self.hit_fault_sequence@.subrange(0, i as int),
            decreases self.hit_fault_sequence.len() - i,
        {
            r.push(self.hit_fault_sequence[i]);
            i = i + 1;
        }
        assert(r@ =~= self.hit_fault_sequence@);
        r
    }
}

} // verus!
