use page_replacement::{ConfigError, PageSource, Program, RefSeq};
use rand::rngs::StdRng;
use rand::SeedableRng;
use rand_distr::{Distribution, Normal};

struct Fixed {
    values: Vec<u32>,
    next: usize,
    seen: Vec<(u32, u64)>,
}

impl PageSource for Fixed {
    fn draw(&mut self, center: u32, spread: u64) -> u32 {
        self.seen.push((center, spread));
        let v = self.values[self.next % self.values.len()];
        self.next += 1;
        v
    }
}

struct Seeded(StdRng);

impl PageSource for Seeded {
    fn draw(&mut self, center: u32, spread: u64) -> u32 {
        Normal::new(center as f32, spread as f32).unwrap().sample(&mut self.0) as u32
    }
}

#[test]
fn seeded_trace_has_exact_length_and_bound() {
    let mut program = Program::new(50, 5000).unwrap();
    let mut src = Seeded(StdRng::seed_from_u64(7));
    let trace = program.pageref_sequence.take_all(&mut src);
    assert_eq!(trace.len(), 5000);
    assert!(trace.iter().all(|p| *p <= 50));
    assert_eq!(program.pageref_sequence.next(&mut src), None);
}

#[test]
fn empty_stream_emits_nothing() {
    let mut seq = RefSeq::new(0, 10);
    let mut src = Fixed { values: vec![3], next: 0, seen: vec![] };
    assert_eq!(seq.next(&mut src), None);
    assert!(seq.take_all(&mut src).is_empty());
    assert!(src.seen.is_empty());
}

#[test]
fn candidates_are_clamped() {
    let mut seq = RefSeq::new(3, 10);
    let mut src = Fixed { values: vec![11, 4, 1000], next: 0, seen: vec![] };
    assert_eq!(seq.take_all(&mut src), vec![10, 4, 10]);
}

#[test]
fn spread_grows_until_a_jump() {
    let mut seq = RefSeq::new(6, 100);
    let mut src = Fixed { values: vec![1, 2, 3, 9, 10, 11], next: 0, seen: vec![] };
    let trace = seq.take_all(&mut src);
    assert_eq!(trace, vec![1, 2, 3, 9, 10, 11]);
    // Steps since the last jump: 1, 2, 3, 4, then the jump to 9 resets.
    assert_eq!(
        src.seen,
        vec![(0, 1), (1, 4), (2, 9), (3, 16), (9, 1), (10, 4)]
    );
}

#[test]
fn advance_moves_by_the_candidate() {
    let mut seq = RefSeq::new(2, 5);
    assert_eq!(seq.spread(), 1);
    assert_eq!(seq.advance(2), Some(2));
    assert_eq!(seq.current_page(), 2);
    assert_eq!(seq.remaining_len(), 1);
    assert_eq!(seq.spread(), 4);
    assert_eq!(seq.advance(5), Some(5));
    assert_eq!(seq.advance(5), None);
    assert_eq!(seq.remaining_len(), 0);
}

#[test]
fn jump_of_three_resets_spread() {
    let mut seq = RefSeq::new(3, 20);
    assert_eq!(seq.advance(3), Some(3));
    assert_eq!(seq.spread(), 1);
}

#[test]
fn program_without_pages_is_refused() {
    assert!(matches!(Program::new(0, 5), Err(ConfigError::NoPages)));
    let p = Program::new(0, 0).unwrap();
    assert_eq!(p.pageref_sequence.remaining_len(), 0);
}

#[test]
fn program_starts_at_page_zero() {
    let p = Program::new(50, 5000).unwrap();
    assert_eq!(p.last_page, 49);
    assert_eq!(p.pageref_sequence.current_page(), 0);
    assert_eq!(p.pageref_sequence.remaining_len(), 5000);
}
