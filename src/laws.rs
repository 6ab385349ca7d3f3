//! Properties of replays that relate several steps or several runs.
use vstd::prelude::*;
use crate::frames::{
    Frames, first_slot, is_first_slot, first_min, is_first_min, first_max, is_first_max,
    lemma_first_min_exists, lemma_first_max_exists,
};
use crate::run::{
    Policy, Replay, TestRun, replay_upto, target, victim, stamp, next_use, is_next_use,
    lemma_replay_shape, lemma_target_in_range,
};

verus! {

/// No page is resident in two frames.
pub open spec fn no_duplicates(f: Frames) -> bool {
    forall|i: int, j: int| 0 <= i < f.len() && 0 <= j < f.len() && i != j && f[i] is Some ==> f[i] != f[j]
}

/// `s` is the last position before `t` that references `p`.
pub open spec fn is_last_ref(trace: Seq<u32>, t: int, p: u32, s: int) -> bool {
    &&& 0 <= s < t
    &&& trace[s] == p
    &&& forall|r: int| s < r < t ==> trace[r] != p
}

/// The last position before `t` that references `p` (meaningful where `p`
/// is referenced before `t`).
pub open spec fn last_ref(trace: Seq<u32>, t: int, p: u32) -> int {
    choose|s: int| is_last_ref(trace, t, p, s)
}

/// The reference at `t` faults on a full table, so that a page is evicted.
pub open spec fn evicts(policy: Policy, trace: Seq<u32>, n: nat, t: nat) -> bool {
    let m = replay_upto(policy, trace, n, t);
    &&& first_slot(m.frames, Some(trace[t as int])) == m.frames.len()
    &&& first_slot(m.frames, None) == m.frames.len()
}

/// Every frame of an LRU replay holds its page's last reference as stamp.
pub open spec fn stamps_are_last_refs(trace: Seq<u32>, t: nat, m: Replay) -> bool {
    forall|j: int|
        0 <= j < m.frames.len() && #[trigger] m.frames[j] is Some ==> is_last_ref(
            trace,
            t as int,
            m.frames[j]->Some_0,
            m.stamps[j] as int,
        )
}

/// Where some slot holds `x`, a first one does.
proof fn lemma_first_slot_exists(f: Frames, x: Option<u32>, j: int)
    requires
        0 <= j < f.len(),
        f[j] == x,
    ensures
        exists|i: int| is_first_slot(f, x, i),
    decreases j,
{
    if exists|k: int| 0 <= k < j && f[k] == x {
        let k = choose|k: int| 0 <= k < j && f[k] == x;
        lemma_first_slot_exists(f, x, k);
    } else {
        assert(is_first_slot(f, x, j));
    }
}

/// `first_slot` is either the first slot holding `x`, or the length where no
/// slot holds it.
pub proof fn lemma_first_slot_facts(f: Frames, x: Option<u32>)
    ensures
        0 <= first_slot(f, x) <= f.len(),
        first_slot(f, x) < f.len() ==> is_first_slot(f, x, first_slot(f, x)),
        first_slot(f, x) == f.len() ==> forall|j: int| 0 <= j < f.len() ==> f[j] != x,
{
    if exists|i: int| is_first_slot(f, x, i) {
    } else {
        assert forall|j: int| 0 <= j < f.len() implies f[j] != x by {
            if f[j] == x {
                lemma_first_slot_exists(f, x, j);
            }
        }
    }
}

/// A last reference is unique, so `last_ref` names it.
pub proof fn lemma_last_ref_unique(trace: Seq<u32>, t: int, p: u32, s: int)
    requires
        is_last_ref(trace, t, p, s),
    ensures
        last_ref(trace, t, p) == s,
{
    let c = choose|c: int| is_last_ref(trace, t, p, c);
    assert(is_last_ref(trace, t, p, c));
    if c < s {
        assert(trace[s] == p);
    } else if s < c {
        assert(trace[c] == p);
    }
}

/// Under every policy, at every step, no page is resident in two frames.
pub proof fn lemma_no_duplicate_residency(policy: Policy, trace: Seq<u32>, n: nat, t: nat)
    requires
        t <= trace.len(),
        n == 0 ==> trace.len() == 0,
    ensures
        no_duplicates(replay_upto(policy, trace, n, t).frames),
    decreases t,
{
    lemma_replay_shape(policy, trace, n, t);
    if t > 0 {
        let u = (t - 1) as nat;
        lemma_no_duplicate_residency(policy, trace, n, u);
        lemma_replay_shape(policy, trace, n, u);
        let m = replay_upto(policy, trace, n, u);
        let page = trace[u as int];
        lemma_first_slot_facts(m.frames, Some(page));
        if first_slot(m.frames, Some(page)) == m.frames.len() {
            lemma_target_in_range(policy, m.frames, m.stamps);
        }
    }
}

/// Under LRU each frame's stamp is the last reference of its page, and no
/// page is resident twice.
proof fn lemma_lru_stamps(trace: Seq<u32>, n: nat, t: nat)
    requires
        t <= trace.len(),
        trace.len() <= usize::MAX,
        n == 0 ==> trace.len() == 0,
    ensures
        stamps_are_last_refs(trace, t, replay_upto(Policy::Lru, trace, n, t)),
    decreases t,
{
    lemma_replay_shape(Policy::Lru, trace, n, t);
    if t > 0 {
        let u = (t - 1) as nat;
        lemma_lru_stamps(trace, n, u);
        lemma_replay_shape(Policy::Lru, trace, n, u);
        lemma_no_duplicate_residency(Policy::Lru, trace, n, u);
        let m = replay_upto(Policy::Lru, trace, n, u);
        let m2 = replay_upto(Policy::Lru, trace, n, t);
        let page = trace[u as int];
        let h = first_slot(m.frames, Some(page));
        lemma_first_slot_facts(m.frames, Some(page));
        assert(stamp(Policy::Lru, trace, u as int) as int == u);
        if h < m.frames.len() {
            assert forall|j: int| 0 <= j < m2.frames.len() && #[trigger] m2.frames[j] is Some implies is_last_ref(
                trace,
                t as int,
                m2.frames[j]->Some_0,
                m2.stamps[j] as int,
            ) by {
                if j != h {
                    assert(m.frames[j] != m.frames[h]);
                    assert(is_last_ref(trace, u as int, m.frames[j]->Some_0, m.stamps[j] as int));
                }
            }
        } else {
            lemma_target_in_range(Policy::Lru, m.frames, m.stamps);
            let s = target(Policy::Lru, m.frames, m.stamps);
            assert forall|j: int| 0 <= j < m2.frames.len() && #[trigger] m2.frames[j] is Some implies is_last_ref(
                trace,
                t as int,
                m2.frames[j]->Some_0,
                m2.stamps[j] as int,
            ) by {
                if j != s {
                    assert(m.frames[j] != Some(page));
                    assert(is_last_ref(trace, u as int, m.frames[j]->Some_0, m.stamps[j] as int));
                }
            }
        }
    }
}

/// Under LRU, when a reference faults on a full table, the page evicted was
/// last referenced strictly before every other resident page.
pub proof fn lemma_lru_evicts_least_recent(trace: Seq<u32>, n: nat, t: nat, j: int)
    requires
        t < trace.len(),
        trace.len() <= usize::MAX,
        n > 0,
        evicts(Policy::Lru, trace, n, t),
        0 <= j < n,
        j != victim(Policy::Lru, replay_upto(Policy::Lru, trace, n, t).stamps),
    ensures
        ({
            let m = replay_upto(Policy::Lru, trace, n, t);
            let v = victim(Policy::Lru, m.stamps);
            &&& 0 <= v < n
            &&& m.frames[v] is Some
            &&& m.frames[j] is Some
            &&& last_ref(trace, t as int, m.frames[v]->Some_0) < last_ref(trace, t as int, m.frames[j]->Some_0)
        }),
{
    let m = replay_upto(Policy::Lru, trace, n, t);
    lemma_replay_shape(Policy::Lru, trace, n, t);
    lemma_lru_stamps(trace, n, t);
    lemma_no_duplicate_residency(Policy::Lru, trace, n, t);
    lemma_first_slot_facts(m.frames, None);
    lemma_first_min_exists(m.stamps);
    let v = first_min(m.stamps);
    assert(is_first_min(m.stamps, v));
    assert(m.frames[v] is Some);
    assert(m.frames[j] is Some);
    assert(is_last_ref(trace, t as int, m.frames[v]->Some_0, m.stamps[v] as int));
    assert(is_last_ref(trace, t as int, m.frames[j]->Some_0, m.stamps[j] as int));
    lemma_last_ref_unique(trace, t as int, m.frames[v]->Some_0, m.stamps[v] as int);
    lemma_last_ref_unique(trace, t as int, m.frames[j]->Some_0, m.stamps[j] as int);
    assert(m.frames[v] != m.frames[j]);
}

/// `s` is the first position from `t` on that references `p`, or the
/// trace's length where none does.
pub open spec fn is_next_ref(trace: Seq<u32>, t: int, p: u32, s: int) -> bool {
    &&& t <= s <= trace.len()
    &&& s < trace.len() ==> trace[s] == p
    &&& forall|r: int| t <= r < s ==> trace[r] != p
}

/// Every frame of an Optimal replay holds its page's next reference as stamp.
pub open spec fn stamps_are_next_refs(trace: Seq<u32>, t: nat, m: Replay) -> bool {
    forall|j: int|
        0 <= j < m.frames.len() && #[trigger] m.frames[j] is Some ==> is_next_ref(
            trace,
            t as int,
            m.frames[j]->Some_0,
            m.stamps[j] as int,
        )
}

/// Where the page at `t` recurs, a first recurrence exists.
proof fn lemma_next_use_exists(trace: Seq<u32>, t: int, j: int)
    requires
        0 <= t < j < trace.len(),
        trace[j] == trace[t],
    ensures
        exists|s: int| is_next_use(trace, t, s),
    decreases j,
{
    if exists|k: int| t < k < j && trace[k] == trace[t] {
        let k = choose|k: int| t < k < j && trace[k] == trace[t];
        lemma_next_use_exists(trace, t, k);
    } else {
        assert(is_next_use(trace, t, j));
    }
}

/// `next_use` is the page's next reference after `t`, or the length.
pub proof fn lemma_next_use_facts(trace: Seq<u32>, t: int)
    requires
        0 <= t < trace.len(),
    ensures
        is_next_ref(trace, t + 1, trace[t], next_use(trace, t)),
{
    if exists|s: int| is_next_use(trace, t, s) {
    } else {
        assert forall|r: int| t + 1 <= r < trace.len() implies trace[r] != trace[t] by {
            if trace[r] == trace[t] {
                lemma_next_use_exists(trace, t, r);
            }
        }
    }
}

/// A next reference is unique.
proof fn lemma_next_ref_unique(trace: Seq<u32>, t: int, p: u32, a: int, b: int)
    requires
        is_next_ref(trace, t, p, a),
        is_next_ref(trace, t, p, b),
    ensures
        a == b,
{
    if a < b {
        assert(trace[a] != p);
    } else if b < a {
        assert(trace[b] != p);
    }
}

/// Under Optimal each frame's stamp is the next reference of its page.
proof fn lemma_optimal_stamps(trace: Seq<u32>, n: nat, t: nat)
    requires
        t <= trace.len(),
        trace.len() <= usize::MAX,
        n == 0 ==> trace.len() == 0,
    ensures
        stamps_are_next_refs(trace, t, replay_upto(Policy::Optimal, trace, n, t)),
    decreases t,
{
    lemma_replay_shape(Policy::Optimal, trace, n, t);
    if t > 0 {
        let u = (t - 1) as nat;
        lemma_optimal_stamps(trace, n, u);
        lemma_replay_shape(Policy::Optimal, trace, n, u);
        lemma_no_duplicate_residency(Policy::Optimal, trace, n, u);
        let m = replay_upto(Policy::Optimal, trace, n, u);
        let m2 = replay_upto(Policy::Optimal, trace, n, t);
        let page = trace[u as int];
        let h = first_slot(m.frames, Some(page));
        lemma_first_slot_facts(m.frames, Some(page));
        lemma_next_use_facts(trace, u as int);
        assert(stamp(Policy::Optimal, trace, u as int) as int == next_use(trace, u as int));
        if h < m.frames.len() {
            assert forall|j: int| 0 <= j < m2.frames.len() && #[trigger] m2.frames[j] is Some implies is_next_ref(
                trace,
                t as int,
                m2.frames[j]->Some_0,
                m2.stamps[j] as int,
            ) by {
                if j != h {
                    assert(m.frames[j] != m.frames[h]);
                    assert(is_next_ref(trace, u as int, m.frames[j]->Some_0, m.stamps[j] as int));
                }
            }
        } else {
            lemma_target_in_range(Policy::Optimal, m.frames, m.stamps);
            let s = target(Policy::Optimal, m.frames, m.stamps);
            assert forall|j: int| 0 <= j < m2.frames.len() && #[trigger] m2.frames[j] is Some implies is_next_ref(
                trace,
                t as int,
                m2.frames[j]->Some_0,
                m2.stamps[j] as int,
            ) by {
                if j != s {
                    assert(m.frames[j] != Some(page));
                    assert(is_next_ref(trace, u as int, m.frames[j]->Some_0, m.stamps[j] as int));
                }
            }
        }
    }
}

/// Under Optimal, when a reference faults on a full table, no other
/// resident page is next referenced later than the page evicted, and one
/// next referenced as late is never referenced again and sits in a higher
/// frame.
pub proof fn lemma_optimal_evicts_farthest(trace: Seq<u32>, n: nat, t: nat, j: int, a: int, b: int)
    requires
        t < trace.len(),
        trace.len() <= usize::MAX,
        n > 0,
        evicts(Policy::Optimal, trace, n, t),
        0 <= j < n,
        j != victim(Policy::Optimal, replay_upto(Policy::Optimal, trace, n, t).stamps),
        replay_upto(Policy::Optimal, trace, n, t).frames[j] is Some,
        is_next_ref(
            trace,
            t as int,
            replay_upto(Policy::Optimal, trace, n, t).frames[victim(
                Policy::Optimal,
                replay_upto(Policy::Optimal, trace, n, t).stamps,
            )]->Some_0,
            a,
        ),
        is_next_ref(trace, t as int, replay_upto(Policy::Optimal, trace, n, t).frames[j]->Some_0, b),
    ensures
        ({
            let v = victim(Policy::Optimal, replay_upto(Policy::Optimal, trace, n, t).stamps);
            &&& 0 <= v < n
            &&& b <= a
            &&& b == a ==> a == trace.len() && v < j
        }),
{
    let m = replay_upto(Policy::Optimal, trace, n, t);
    lemma_replay_shape(Policy::Optimal, trace, n, t);
    lemma_optimal_stamps(trace, n, t);
    lemma_no_duplicate_residency(Policy::Optimal, trace, n, t);
    lemma_first_slot_facts(m.frames, None);
    lemma_first_max_exists(m.stamps);
    let v = first_max(m.stamps);
    assert(is_first_max(m.stamps, v));
    assert(m.frames[v] is Some);
    assert(is_next_ref(trace, t as int, m.frames[v]->Some_0, m.stamps[v] as int));
    assert(is_next_ref(trace, t as int, m.frames[j]->Some_0, m.stamps[j] as int));
    lemma_next_ref_unique(trace, t as int, m.frames[v]->Some_0, a, m.stamps[v] as int);
    lemma_next_ref_unique(trace, t as int, m.frames[j]->Some_0, b, m.stamps[j] as int);
    assert(m.frames[v] != m.frames[j]);
    if a == b && a < trace.len() {
        assert(trace[a] == m.frames[v]->Some_0);
        assert(trace[b] == m.frames[j]->Some_0);
    }
}

/// Replaying one trace over one number of frames under FIFO twice gives the
/// same hits and faults, in the same order, and the same tables: what FIFO
/// evicts follows from the order of loading alone.
pub proof fn lemma_fifo_deterministic(a: TestRun, b: TestRun)
    requires
        a.trace() == b.trace(),
        a.frame_count() == b.frame_count(),
        a.is_replayed(Policy::Fifo),
        b.is_replayed(Policy::Fifo),
    ensures
        a.outcomes() == b.outcomes(),
        a.history() == b.history(),
{
}

} // verus!
