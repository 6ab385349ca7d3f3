//! The locality-biased reference generator.
//!
//! Each reference is drawn around the previous one with a spread that grows
//! with the number of steps since the last jump, and is clamped into
//! `[0, num_pages]` (both bounds included). The drawing itself is left to a
//! `PageSource`, so that a caller can supply any distribution or a fixed
//! sequence; everything else is decided here.
use vstd::prelude::*;
use crate::run::ConfigError;

verus! {

/// Where candidate pages come from.
pub trait PageSource {
    /// A candidate page drawn around `center` with standard deviation `spread`.
    fn draw(&mut self, center: u32, spread: u64) -> u32;
}

/// The page that a candidate is clamped to.
pub open spec fn clamp_page(candidate: u32, num_pages: u32) -> u32 {
    if candidate <= num_pages {
        candidate
    } else {
        num_pages
    }
}

/// Two pages further apart than 2 mark a change of locality.
pub open spec fn is_jump(a: u32, b: u32) -> bool {
    a > b + 2 || b > a + 2
}

/// A finite stream of page references.
pub struct RefSeq {
    num_pages: u32,
    cur_page: u32,
    length: u32,
    last_locality_change: u32,
}

impl RefSeq {
    /// The largest page the stream emits.
    pub closed spec fn page_bound(&self) -> u32 {
        self.num_pages
    }

    /// The last page emitted, 0 before the first.
    pub closed spec fn current(&self) -> u32 {
        self.cur_page
    }

    /// How many references are still to come.
    pub closed spec fn remaining(&self) -> u32 {
        self.length
    }

    /// The value of `remaining` just after the last jump (its initial value
    /// before any jump).
    pub closed spec fn marker(&self) -> u32 {
        self.last_locality_change
    }

    /// The marker never lies below what remains.
    pub open spec fn wf(&self) -> bool {
        self.remaining() <= self.marker()
    }

    /// The spread of the next draw: the square of the number of steps since
    /// the last jump, counting the step about to be taken.
    pub open spec fn spread_of(&self) -> int {
        (self.marker() - self.remaining() + 1) * (self.marker() - self.remaining() + 1)
    }

    /// A stream of `length` references to pages in `[0, num_pages]`,
    /// starting at page 0.
    pub fn new(length: u32, num_pages: u32) -> (r: RefSeq)
        ensures
            r.wf(),
            r.page_bound() == num_pages,
            r.current() == 0,
            r.remaining() == length,
            r.marker() == length,
    {
        RefSeq { num_pages, cur_page: 0, length, last_locality_change: length }
    }

    /// How many references are still to come.
    pub fn remaining_len(&self) -> (r: u32)
        ensures
            r == self.remaining(),
    {
        self.length
    }

    /// The last page emitted, 0 before the first.
    pub fn current_page(&self) -> (r: u32)
        ensures
            r == self.current(),
    {
        self.cur_page
    }

    /// The standard deviation to draw the next candidate with.
    pub fn spread(&self) -> (r: u64)
        requires
            self.wf(),
            self.remaining() > 0,
        ensures
            r == self.spread_of(),
    {
        let d: u64 = (self.last_locality_change - self.length) as u64 + 1;
        assert(d <= 0xffff_ffff);
        assert(d * d <= u64::MAX) by (nonlinear_arith)
            requires
                d <= 0xffff_ffff,
        ;
        d * d
    }

    /// Takes one step with `candidate` as the drawn page: emits it clamped
    /// into `[0, num_pages]` and, where it lies more than 2 pages from the
    /// last one, records a change of locality. `None` once the stream is
    /// exhausted, leaving it as it is.
    pub fn advance(&mut self, candidate: u32) -> (r: Option<u32>)
        requires
            old(self).wf(),
        ensures
            final(self).wf(),
            final(self).page_bound() == old(self).page_bound(),
            old(self).remaining() == 0 ==> r is None && *final(self) == *old(self),
            old(self).remaining() > 0 ==> {
                &&& r == Some(clamp_page(candidate, old(self).page_bound()))
                &&& final(self).current() == clamp_page(candidate, old(self).page_bound())
                &&& final(self).remaining() == old(self).remaining() - 1
                &&& final(self).marker() == if is_jump(old(self).current(), final(self).current()) {
                    final(self).remaining()
                } else {
                    old(self).marker()
                }
            },
    {
        if self.length == 0 {
            return None;
        }
        self.length = self.length - 1;
        let next_page = if candidate <= self.num_pages {
            candidate
        } else {
            self.num_pages
        };
        let far = if next_page > self.cur_page {
            next_page - self.cur_page > 2
        } else {
            self.cur_page - next_page > 2
        };
        if far {
            self.last_locality_change = self.length;
        }
        self.cur_page = next_page;
        Some(next_page)
    }

    /// The next reference, drawn from `src` around the current page with
    /// the current spread; `None` once the stream is exhausted.
    pub fn next<S: PageSource>(&mut self, src: &mut S) -> (r: Option<u32>)
        requires
            old(self).wf(),
        ensures
            final(self).wf(),
            final(self).page_bound() == old(self).page_bound(),
            old(self).remaining() == 0 ==> r is None && *final(self) == *old(self),
            old(self).remaining() > 0 ==> {
                &&& r == Some(final(self).current())
                &&& final(self).current() <= old(self).page_bound()
                &&& final(self).remaining() == old(self).remaining() - 1
            },
    {
        if self.length == 0 {
            return None;
        }
        let candidate = src.draw(self.cur_page, self.spread());
        self.advance(candidate)
    }

    /// All the references still to come, drawn from `src`.
    pub fn take_all<S: PageSource>(&mut self, src: &mut S) -> (r: Vec<u32>)
        requires
            old(self).wf(),
        ensures
            final(self).wf(),
            final(self).remaining() == 0,
            r.len() == old(self).remaining(),
            forall|i: int| 0 <= i < r.len() ==> r[i] <= old(self).page_bound(),
    {
        let mut r: Vec<u32> = Vec::new();
        let ghost total = self.remaining();
        let ghost bound = self.page_bound();
        while self.length > 0
            invariant
                self.wf(),
                self.page_bound() == bound,
                r.len() + self.remaining() == total,
                forall|i: int| 0 <= i < r.len() ==> r[i] <= bound,
            decreases self.remaining(),
        {
            match self.next(src) {
                Some(p) => r.push(p),
                None => {},
            }
        }
        r
    }
}

/// A program: a page space and the reference stream it runs.
pub struct Program {
    pub last_page: u32,
    pub pageref_sequence: RefSeq,
}

impl Program {
    /// A program over pages `[0, num_pages]` that makes `runtime`
    /// references. Asking for references with no page is refused.
    pub fn new(num_pages: u32, runtime: u32) -> (r: Result<Program, ConfigError>)
        ensures
            r is Err <==> (num_pages == 0 && runtime > 0),
            r matches Err(e) ==> e == ConfigError::NoPages,
            r matches Ok(p) ==> {
                &&& p.last_page == if num_pages == 0 { 0 } else { num_pages - 1 }
                &&& p.pageref_sequence.wf()
                &&& p.pageref_sequence.page_bound() == num_pages
                &&& p.pageref_sequence.current() == 0
                &&& p.pageref_sequence.remaining() == runtime
                &&& p.pageref_sequence.marker() == runtime
            },
    {
        if num_pages == 0 && runtime > 0 {
            return Err(ConfigError::NoPages);
        }
        let last_page = if num_pages == 0 {
            0
        } else {
            num_pages - 1
        };
        Ok(Program { last_page, pageref_sequence: RefSeq::new(runtime, num_pages) })
    }

}

} // verus!
