//! Optimal replacement faults no more often than any other way of keeping
//! pages resident, FIFO and LRU among them.
use vstd::prelude::*;
use crate::frames::{Frames, first_slot};
use crate::run::{Policy, TestRun, replay_upto, target, victim, count_hits, lemma_replay_shape, lemma_target_in_range};
use crate::laws::{
    is_next_ref, evicts, no_duplicates, lemma_first_slot_facts, lemma_no_duplicate_residency,
    lemma_optimal_evicts_farthest,
};

verus! {

broadcast use vstd::seq_lib::seq_to_set_is_finite;

/// A set of resident pages at each point in time.
pub type Schedule = Seq<Set<Option<u32>>>;

/// The pages that a frame table holds.
pub open spec fn resident(f: Frames) -> Set<Option<u32>> {
    f.to_set().remove(None)
}

/// At time `s` the schedule holds at most `n` pages.
pub open spec fn fits(n: nat, a: Schedule, s: int) -> bool {
    a[s].finite() && a[s].len() <= n
}

/// After the reference at `s` the page referenced is resident, and no
/// other page has come in.
pub open spec fn serves(trace: Seq<u32>, a: Schedule, s: int) -> bool {
    &&& a[s + 1].contains(Some(trace[s]))
    &&& a[s + 1].subset_of(a[s].insert(Some(trace[s])))
}

/// `a` keeps at most `n` pages resident from time `t` on, and brings a page
/// in only when it is referenced. It may drop pages at any time.
pub open spec fn is_schedule(trace: Seq<u32>, n: nat, a: Schedule, t: nat) -> bool {
    &&& a.len() == trace.len() + 1
    &&& t <= trace.len()
    &&& forall|s: int| t <= s <= trace.len() ==> #[trigger] fits(n, a, s)
    &&& forall|s: int| t <= s < trace.len() ==> #[trigger] serves(trace, a, s)
}

/// The faults of `a` from time `t` on: the references whose page is not
/// resident when they come.
pub open spec fn cost_from(trace: Seq<u32>, a: Schedule, t: nat) -> nat
    decreases trace.len() - t,
{
    if t >= trace.len() {
        0
    } else {
        (if a[t as int].contains(Some(trace[t as int])) { 0nat } else { 1nat }) + cost_from(trace, a, (t + 1) as nat)
    }
}

/// The resident pages of a replay at each point in time.
pub open spec fn replay_schedule(policy: Policy, trace: Seq<u32>, n: nat) -> Schedule {
    Seq::new((trace.len() + 1) as nat, |s: int| resident(replay_upto(policy, trace, n, s as nat).frames))
}

/// The faults of a full replay.
pub open spec fn replay_faults(policy: Policy, trace: Seq<u32>, n: nat) -> int {
    trace.len() - count_hits(replay_upto(policy, trace, n, trace.len()).hits)
}

proof fn lemma_resident_fits(f: Frames)
    ensures
        resident(f).finite(),
        resident(f).len() <= f.len(),
{
    f.lemma_cardinality_of_set();
    vstd::set_lib::lemma_len_subset(resident(f), f.to_set());
}

proof fn lemma_resident_full(f: Frames)
    requires
        no_duplicates(f),
        forall|j: int| 0 <= j < f.len() ==> f[j] is Some,
    ensures
        resident(f).len() == f.len(),
{
    assert(f.no_duplicates());
    f.unique_seq_to_set();
    assert(resident(f) =~= f.to_set());
}

/// Two schedules that agree from `t` on fault alike from `t` on.
proof fn lemma_cost_agree(trace: Seq<u32>, a: Schedule, b: Schedule, t: nat)
    requires
        forall|s: int| t <= s <= trace.len() ==> a[s] == b[s],
    ensures
        cost_from(trace, a, t) == cost_from(trace, b, t),
    decreases trace.len() - t,
{
    if t < trace.len() {
        lemma_cost_agree(trace, a, b, (t + 1) as nat);
    }
}

/// Changing a schedule at `s` alone keeps it a schedule from `s + 1` on,
/// with the same faults there.
proof fn lemma_update_tail(trace: Seq<u32>, n: nat, c: Schedule, s: nat, x: Set<Option<u32>>)
    requires
        s < trace.len(),
        is_schedule(trace, n, c, (s + 1) as nat),
    ensures
        is_schedule(trace, n, c.update(s as int, x), (s + 1) as nat),
        cost_from(trace, c.update(s as int, x), (s + 1) as nat) == cost_from(trace, c, (s + 1) as nat),
{
    let b = c.update(s as int, x);
    assert forall|i: int| s + 1 <= i <= trace.len() implies #[trigger] fits(n, b, i) by {
        assert(fits(n, c, i));
    }
    assert forall|i: int| s + 1 <= i < trace.len() implies #[trigger] serves(trace, b, i) by {
        assert(serves(trace, c, i));
    }
    lemma_cost_agree(trace, b, c, (s + 1) as nat);
}

/// Dropping a resident page costs at most one fault more.
proof fn lemma_drop_page(trace: Seq<u32>, n: nat, a: Schedule, s: nat, f: Option<u32>) -> (b: Schedule)
    requires
        is_schedule(trace, n, a, s),
        a[s as int].contains(f),
    ensures
        is_schedule(trace, n, b, s),
        b[s as int] == a[s as int].remove(f),
        cost_from(trace, b, s) <= cost_from(trace, a, s) + 1,
    decreases trace.len() - s,
{
    let x = a[s as int].remove(f);
    assert(fits(n, a, s as int));
    vstd::set_lib::lemma_len_subset(x, a[s as int]);
    if s == trace.len() {
        let b = a.update(s as int, x);
        assert(fits(n, b, s as int));
        b
    } else {
        let r = Some(trace[s as int]);
        assert(serves(trace, a, s as int));
        let c = if r != f && a[s as int + 1].contains(f) {
            lemma_drop_page(trace, n, a, (s + 1) as nat, f)
        } else {
            a
        };
        let b = c.update(s as int, x);
        lemma_update_tail(trace, n, c, s, x);
        assert(fits(n, b, s as int));
        assert(serves(trace, b, s as int));
        assert(fits(n, b, s as int + 1));
        b
    }
}

/// Holding a page that is referenced no later than the one held in its
/// place never costs a fault more.
proof fn lemma_exchange(
    trace: Seq<u32>,
    n: nat,
    a: Schedule,
    s: nat,
    xp: u32,
    fp: u32,
    na: int,
    nb: int,
) -> (b: Schedule)
    requires
        is_schedule(trace, n, a, s),
        !a[s as int].contains(Some(xp)),
        a[s as int].contains(Some(fp)),
        xp != fp,
        is_next_ref(trace, s as int, xp, na),
        is_next_ref(trace, s as int, fp, nb),
        na <= nb,
    ensures
        is_schedule(trace, n, b, s),
        b[s as int] == a[s as int].remove(Some(fp)).insert(Some(xp)),
        cost_from(trace, b, s) <= cost_from(trace, a, s),
    decreases trace.len() - s,
{
    let x = a[s as int].remove(Some(fp)).insert(Some(xp));
    assert(fits(n, a, s as int));
    assert(x.len() == a[s as int].len());
    if s == trace.len() {
        let b = a.update(s as int, x);
        assert(fits(n, b, s as int));
        b
    } else {
        let p = trace[s as int];
        let r = Some(p);
        assert(serves(trace, a, s as int));
        assert(p != fp) by {
            if p == fp {
                assert(nb == s);
                assert(na == s);
            }
        }
        let c = if p == xp {
            if a[s as int + 1].contains(Some(fp)) {
                lemma_drop_page(trace, n, a, (s + 1) as nat, Some(fp))
            } else {
                a
            }
        } else if a[s as int + 1].contains(Some(fp)) {
            assert(na != s);
            assert(nb != s);
            lemma_exchange(trace, n, a, (s + 1) as nat, xp, fp, na, nb)
        } else {
            a
        };
        let b = c.update(s as int, x);
        lemma_update_tail(trace, n, c, s, x);
        assert(fits(n, b, s as int));
        assert(serves(trace, b, s as int));
        assert(fits(n, b, s as int + 1));
        b
    }
}

/// The first reference of `p` from `t` on exists, or there is none.
proof fn lemma_next_ref_exists(trace: Seq<u32>, t: int, p: u32) -> (s: int)
    requires
        0 <= t <= trace.len(),
    ensures
        is_next_ref(trace, t, p, s),
    decreases trace.len() - t,
{
    if t == trace.len() {
        t
    } else if trace[t] == p {
        t
    } else {
        lemma_next_ref_exists(trace, t + 1, p)
    }
}

/// Every replay keeps a schedule.
proof fn lemma_replay_is_schedule(policy: Policy, trace: Seq<u32>, n: nat)
    requires
        n == 0 ==> trace.len() == 0,
    ensures
        is_schedule(trace, n, replay_schedule(policy, trace, n), 0),
{
    let a = replay_schedule(policy, trace, n);
    assert forall|s: int| 0 <= s <= trace.len() implies #[trigger] fits(n, a, s) by {
        lemma_replay_shape(policy, trace, n, s as nat);
        lemma_resident_fits(replay_upto(policy, trace, n, s as nat).frames);
    }
    assert forall|s: int| 0 <= s < trace.len() implies #[trigger] serves(trace, a, s) by {
        lemma_replay_shape(policy, trace, n, s as nat);
        lemma_replay_shape(policy, trace, n, (s + 1) as nat);
        let m = replay_upto(policy, trace, n, s as nat);
        let m2 = replay_upto(policy, trace, n, (s + 1) as nat);
        let p = Some(trace[s]);
        let h = first_slot(m.frames, p);
        lemma_first_slot_facts(m.frames, p);
        if h < m.frames.len() {
            assert(m.frames.contains(p));
            assert(m2.frames == m.frames);
        } else {
            lemma_target_in_range(policy, m.frames, m.stamps);
            let v = target(policy, m.frames, m.stamps);
            assert(m2.frames[v] == p);
            assert(m2.frames.contains(p));
            assert forall|q: Option<u32>| a[s + 1].contains(q) implies a[s].insert(p).contains(q) by {
                let j = choose|j: int| 0 <= j < m2.frames.len() && m2.frames[j] == q;
                if j != v {
                    assert(m.frames[j] == q);
                }
            }
        }
    }
}

/// The faults of a replay's schedule are those of the replay.
proof fn lemma_replay_cost(policy: Policy, trace: Seq<u32>, n: nat, t: nat)
    requires
        t <= trace.len(),
        n == 0 ==> trace.len() == 0,
    ensures
        cost_from(trace, replay_schedule(policy, trace, n), t) + t - count_hits(
            replay_upto(policy, trace, n, t).hits,
        ) == replay_faults(policy, trace, n),
    decreases trace.len() - t,
{
    if t < trace.len() {
        lemma_replay_cost(policy, trace, n, (t + 1) as nat);
        lemma_replay_shape(policy, trace, n, t);
        let m = replay_upto(policy, trace, n, t);
        let m2 = replay_upto(policy, trace, n, (t + 1) as nat);
        let p = Some(trace[t as int]);
        lemma_first_slot_facts(m.frames, p);
        assert(m2.hits.drop_last() =~= m.hits);
        if first_slot(m.frames, p) < m.frames.len() {
            assert(m.frames.contains(p));
        } else {
            assert(!m.frames.contains(p));
        }
    }
}

/// From any time on, Optimal faults no more often than any schedule that
/// starts with no page that Optimal does not hold then.
proof fn lemma_optimal_beats(trace: Seq<u32>, n: nat, t: nat, a: Schedule)
    requires
        n == 0 ==> trace.len() == 0,
        trace.len() <= usize::MAX,
        is_schedule(trace, n, a, t),
        a[t as int].subset_of(resident(replay_upto(Policy::Optimal, trace, n, t).frames)),
    ensures
        cost_from(trace, replay_schedule(Policy::Optimal, trace, n), t) <= cost_from(trace, a, t),
    decreases trace.len() - t,
{
    let o = replay_schedule(Policy::Optimal, trace, n);
    if t < trace.len() {
        let u = (t + 1) as nat;
        lemma_replay_shape(Policy::Optimal, trace, n, t);
        lemma_replay_shape(Policy::Optimal, trace, n, u);
        lemma_no_duplicate_residency(Policy::Optimal, trace, n, t);
        let m = replay_upto(Policy::Optimal, trace, n, t);
        let m2 = replay_upto(Policy::Optimal, trace, n, u);
        let p = Some(trace[t as int]);
        assert(serves(trace, a, t as int));
        assert(o[t as int] == resident(m.frames));
        assert(o[u as int] == resident(m2.frames));
        let h = first_slot(m.frames, p);
        lemma_first_slot_facts(m.frames, p);
        lemma_first_slot_facts(m.frames, None);
        if a[u as int].subset_of(resident(m2.frames)) {
            lemma_optimal_beats(trace, n, u, a);
        } else {
            // Only a full table, evicting, can leave out a page that `a` keeps.
            if h < m.frames.len() {
                assert(m.frames.contains(p));
                assert(a[u as int].subset_of(resident(m2.frames)));
            }
            lemma_target_in_range(Policy::Optimal, m.frames, m.stamps);
            let v = target(Policy::Optimal, m.frames, m.stamps);
            if first_slot(m.frames, None) < m.frames.len() {
                assert forall|q: Option<u32>| a[u as int].contains(q) implies resident(m2.frames).contains(q) by {
                    if q != p {
                        let j = choose|j: int| 0 <= j < m.frames.len() && m.frames[j] == q;
                        assert(m2.frames[j] == q);
                    } else {
                        assert(m2.frames[v] == p);
                    }
                }
                assert(false);
            }
            assert(evicts(Policy::Optimal, trace, n, t));
            assert(v == victim(Policy::Optimal, m.stamps));
            let f = m.frames[v];
            assert(f is Some);
            let fp = f->Some_0;
            // `a` keeps the evicted page; some page that Optimal keeps, `a` lacks.
            assert(a[u as int].contains(f)) by {
                if !a[u as int].contains(f) {
                    assert forall|q: Option<u32>| a[u as int].contains(q) implies resident(m2.frames).contains(q) by {
                        if q != p {
                            let j = choose|j: int| 0 <= j < m.frames.len() && m.frames[j] == q;
                            assert(j != v);
                            assert(m2.frames[j] == q);
                        } else {
                            assert(m2.frames[v] == p);
                        }
                    }
                }
            }
            lemma_resident_full(m.frames);
            let whole = resident(m.frames).insert(p);
            assert(!resident(m.frames).contains(p));
            assert(whole.len() == n + 1);
            assert(fits(n, a, u as int));
            if whole.subset_of(a[u as int]) {
                vstd::set_lib::lemma_len_subset(whole, a[u as int]);
                assert(false);
            }
            let x = choose|x: Option<u32>| whole.contains(x) && !a[u as int].contains(x);
            assert(x != p);
            let j = choose|j: int| 0 <= j < m.frames.len() && m.frames[j] == x;
            assert(j != v);
            let xp = x->Some_0;
            let na = lemma_next_ref_exists(trace, t as int, xp);
            let nb = lemma_next_ref_exists(trace, t as int, fp);
            lemma_optimal_evicts_farthest(trace, n, t, j, nb, na);
            assert(na != t && nb != t);
            let b = lemma_exchange(trace, n, a, u, xp, fp, na, nb);
            assert(m2.frames[j] == x);
            assert forall|q: Option<u32>| b[u as int].contains(q) implies resident(m2.frames).contains(q) by {
                if q != p && q != x {
                    let i = choose|i: int| 0 <= i < m.frames.len() && m.frames[i] == q;
                    assert(i != v);
                    assert(m2.frames[i] == q);
                } else if q == p {
                    assert(m2.frames[v] == p);
                }
            }
            lemma_optimal_beats(trace, n, u, b);
        }
    }
}

/// Optimal replacement faults no more often than any policy on the same
/// trace and number of frames.
pub proof fn lemma_optimal_fewest_faults(policy: Policy, trace: Seq<u32>, n: nat)
    requires
        n == 0 ==> trace.len() == 0,
        trace.len() <= usize::MAX,
    ensures
        replay_faults(Policy::Optimal, trace, n) <= replay_faults(policy, trace, n),
{
    lemma_replay_is_schedule(policy, trace, n);
    let a = replay_schedule(policy, trace, n);
    assert(a[0] == resident(replay_upto(policy, trace, n, 0).frames));
    assert(replay_upto(policy, trace, n, 0).frames == replay_upto(Policy::Optimal, trace, n, 0).frames);
    lemma_optimal_beats(trace, n, 0, a);
    lemma_replay_cost(policy, trace, n, 0);
    lemma_replay_cost(Policy::Optimal, trace, n, 0);
}

/// Of two runs over one trace and one number of frames, one replayed under
/// Optimal and one under FIFO or LRU, the Optimal one has no more faults.
pub proof fn lemma_optimal_run_fewest_faults(opt: TestRun, other: TestRun, policy: Policy)
    requires
        opt.trace() == other.trace(),
        opt.frame_count() == other.frame_count(),
        opt.wf(),
        opt.is_replayed(Policy::Optimal),
        other.is_replayed(policy),
        opt.counts().hits == count_hits(opt.outcomes()),
        opt.counts().hits + opt.counts().faults == opt.trace().len(),
        other.counts().hits == count_hits(other.outcomes()),
        other.counts().hits + other.counts().faults == other.trace().len(),
    ensures
        opt.counts().faults <= other.counts().faults,
{
    opt.lemma_wf_bounds();
    lemma_optimal_fewest_faults(policy, opt.trace(), opt.frame_count());
}

} // verus!
