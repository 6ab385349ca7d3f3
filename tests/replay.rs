use page_replacement::{ConfigError, Policy, Ratio, RunStats, TestRun};

const TEXTBOOK: [u32; 12] = [1, 2, 3, 4, 1, 2, 5, 1, 2, 3, 4, 5];

fn replayed(trace: &[u32], n_frames: usize, policy: Policy) -> TestRun {
    let mut run = TestRun::new(trace, n_frames).unwrap();
    run.replay(policy);
    run
}

#[test]
fn textbook_trace_fifo_has_nine_faults() {
    let run = replayed(&TEXTBOOK, 3, Policy::Fifo);
    assert_eq!(run.stats(), RunStats { hits: 3, faults: 9 });
}

#[test]
fn textbook_trace_lru_has_ten_faults() {
    let run = replayed(&TEXTBOOK, 3, Policy::Lru);
    assert_eq!(run.stats(), RunStats { hits: 2, faults: 10 });
}

#[test]
fn textbook_trace_optimal_has_seven_faults() {
    let run = replayed(&TEXTBOOK, 3, Policy::Optimal);
    assert_eq!(run.stats(), RunStats { hits: 5, faults: 7 });
}

#[test]
fn textbook_trace_relative_order() {
    let fifo = replayed(&TEXTBOOK, 3, Policy::Fifo).stats().faults;
    let lru = replayed(&TEXTBOOK, 3, Policy::Lru).stats().faults;
    let opt = replayed(&TEXTBOOK, 3, Policy::Optimal).stats().faults;
    assert!(opt <= lru);
    assert!(lru <= TEXTBOOK.len());
    assert!(opt <= fifo);
    assert!(opt < fifo);
}

#[test]
fn textbook_trace_fifo_four_frames() {
    // Belady's anomaly: more frames, more faults.
    let run = replayed(&TEXTBOOK, 4, Policy::Fifo);
    assert_eq!(run.stats().faults, 10);
}

#[test]
fn hits_and_faults_cover_the_trace() {
    let trace = [7, 3, 7, 1, 9, 3, 3, 0, 7, 2, 1, 9];
    for policy in [Policy::Fifo, Policy::Lru, Policy::Optimal] {
        for n in 1..6 {
            let run = replayed(&trace, n, policy);
            let s = run.stats();
            assert_eq!(s.hits + s.faults, trace.len());
            let hits = run.outcome_sequence().iter().filter(|h| **h).count();
            assert_eq!(hits, s.hits);
        }
    }
}

#[test]
fn history_has_one_more_entry_than_the_trace() {
    let trace = [4, 4, 2, 8];
    for policy in [Policy::Fifo, Policy::Lru, Policy::Optimal] {
        let run = replayed(&trace, 2, policy);
        assert_eq!(run.snapshot_count(), trace.len() + 1);
        assert_eq!(run.snapshot(0), vec![None, None]);
        assert_eq!(run.outcome_sequence().len(), trace.len());
    }
}

#[test]
fn fifo_snapshots_follow_load_order() {
    let run = replayed(&[1, 2, 1, 3, 4], 2, Policy::Fifo);
    assert_eq!(run.snapshot(1), vec![Some(1), None]);
    assert_eq!(run.snapshot(2), vec![Some(1), Some(2)]);
    assert_eq!(run.snapshot(3), vec![Some(1), Some(2)]);
    assert_eq!(run.snapshot(4), vec![Some(3), Some(2)]);
    assert_eq!(run.snapshot(5), vec![Some(3), Some(4)]);
    assert_eq!(run.outcome_sequence(), vec![false, false, true, false, false]);
}

#[test]
fn lru_evicts_least_recently_used() {
    let run = replayed(&[1, 2, 1, 3], 2, Policy::Lru);
    assert_eq!(run.snapshot(4), vec![Some(1), Some(3)]);
}

#[test]
fn optimal_evicts_page_used_furthest_ahead() {
    let run = replayed(&[1, 2, 3, 4, 2, 1, 3], 3, Policy::Optimal);
    // At the reference to 4, page 3 is next used last.
    assert_eq!(run.snapshot(4), vec![Some(1), Some(2), Some(4)]);
}

#[test]
fn optimal_evicts_lowest_frame_among_pages_never_used_again() {
    let run = replayed(&[1, 2, 3, 4, 3], 3, Policy::Optimal);
    assert_eq!(run.snapshot(4), vec![Some(4), Some(2), Some(3)]);
}

#[test]
fn replaying_twice_gives_same_outcomes() {
    let trace = [5, 1, 5, 2, 6, 1, 7, 5, 2];
    let a = replayed(&trace, 3, Policy::Fifo);
    let mut b = TestRun::new(&trace, 3).unwrap();
    b.fifo();
    b.fifo();
    assert_eq!(a.outcome_sequence(), b.outcome_sequence());
    assert_eq!(a.stats(), b.stats());
}

#[test]
fn policy_methods_match_replay() {
    let trace = [3, 1, 4, 1, 5, 9, 2, 6, 5, 3, 5];
    let mut f = TestRun::new(&trace, 3).unwrap();
    f.fifo();
    let mut l = TestRun::new(&trace, 3).unwrap();
    l.lru();
    let mut o = TestRun::new(&trace, 3).unwrap();
    o.optimal();
    assert_eq!(f.stats(), replayed(&trace, 3, Policy::Fifo).stats());
    assert_eq!(l.stats(), replayed(&trace, 3, Policy::Lru).stats());
    assert_eq!(o.stats(), replayed(&trace, 3, Policy::Optimal).stats());
    assert!(o.stats().faults <= f.stats().faults);
    assert!(o.stats().faults <= l.stats().faults);
}

#[test]
fn short_trace_never_evicts() {
    let run = replayed(&[9, 8], 4, Policy::Lru);
    assert_eq!(run.snapshot(2), vec![Some(9), Some(8), None, None]);
    assert_eq!(run.stats().faults, 2);
}

#[test]
fn empty_trace_reports_undefined_ratios() {
    for policy in [Policy::Fifo, Policy::Lru, Policy::Optimal] {
        let run = replayed(&[], 3, policy);
        let s = run.stats();
        assert_eq!(s.hits, 0);
        assert_eq!(s.faults, 0);
        assert_eq!(s.hit_ratio(), None);
        assert_eq!(s.fault_ratio(), None);
        assert_eq!(run.snapshot_count(), 1);
    }
}

#[test]
fn empty_trace_accepts_zero_frames() {
    let mut run = TestRun::new(&[], 0).unwrap();
    run.replay(Policy::Optimal);
    assert_eq!(run.stats(), RunStats { hits: 0, faults: 0 });
    assert_eq!(run.n_frames(), 0);
}

#[test]
fn zero_frames_with_references_is_refused() {
    assert!(matches!(TestRun::new(&[1], 0), Err(ConfigError::NoFrames)));
}

#[test]
fn ratios_of_textbook_fifo() {
    let s = replayed(&TEXTBOOK, 3, Policy::Fifo).stats();
    assert_eq!(s.hit_ratio(), Some(Ratio { num: 3, den: 12 }));
    assert_eq!(s.fault_ratio(), Some(Ratio { num: 9, den: 12 }));
}

#[test]
fn no_page_is_resident_twice() {
    let trace = [2, 2, 5, 2, 7, 5, 1, 1, 7, 3, 2];
    for policy in [Policy::Fifo, Policy::Lru, Policy::Optimal] {
        let run = replayed(&trace, 3, policy);
        for i in 0..run.snapshot_count() {
            let f = run.snapshot(i);
            for a in 0..f.len() {
                for b in 0..f.len() {
                    if a != b && f[a].is_some() {
                        assert_ne!(f[a], f[b]);
                    }
                }
            }
        }
    }
}
