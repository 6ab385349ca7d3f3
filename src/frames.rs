//! Frame tables and the slot searches that every policy shares.
use vstd::prelude::*;

verus! {

/// A frame table: one slot per physical frame, empty or holding one page.
pub type Frames = Seq<Option<u32>>;

/// `i` is the first slot of `f` that holds `x`.
pub open spec fn is_first_slot(f: Frames, x: Option<u32>, i: int) -> bool {
    &&& 0 <= i < f.len()
    &&& f[i] == x
    &&& forall|j: int| 0 <= j < i ==> f[j] != x
}

/// The first slot of `f` that holds `x`, or `f.len()` where no slot does.
pub open spec fn first_slot(f: Frames, x: Option<u32>) -> int {
    if exists|i: int| is_first_slot(f, x, i) {
        choose|i: int| is_first_slot(f, x, i)
    } else {
        f.len() as int
    }
}

/// `i` is the first position of a smallest key.
pub open spec fn is_first_min(k: Seq<usize>, i: int) -> bool {
    &&& 0 <= i < k.len()
    &&& forall|j: int| 0 <= j < k.len() ==> k[i] <= k[j]
    &&& forall|j: int| 0 <= j < i ==> k[i] < k[j]
}

/// `i` is the first position of a largest key.
pub open spec fn is_first_max(k: Seq<usize>, i: int) -> bool {
    &&& 0 <= i < k.len()
    &&& forall|j: int| 0 <= j < k.len() ==> k[j] <= k[i]
    &&& forall|j: int| 0 <= j < i ==> k[j] < k[i]
}

/// The first position of a smallest key (meaningful for a non-empty `k`).
pub open spec fn first_min(k: Seq<usize>) -> int {
    choose|i: int| is_first_min(k, i)
}

/// The first position of a largest key (meaningful for a non-empty `k`).
pub open spec fn first_max(k: Seq<usize>) -> int {
    choose|i: int| is_first_max(k, i)
}

/// A non-empty key sequence has a first smallest position.
pub proof fn lemma_first_min_exists(k: Seq<usize>)
    requires
        k.len() > 0,
    ensures
        is_first_min(k, first_min(k)),
    decreases k.len(),
{
    if k.len() == 1 {
        assert(is_first_min(k, 0));
    } else {
        let p = k.drop_last();
        lemma_first_min_exists(p);
        let m = first_min(p);
        assert(forall|j: int| 0 <= j < p.len() ==> p[j] == k[j]);
        if k.last() < k[m] {
            assert(is_first_min(k, k.len() - 1));
        } else {
            assert(is_first_min(k, m));
        }
    }
}

/// A non-empty key sequence has a first largest position.
pub proof fn lemma_first_max_exists(k: Seq<usize>)
    requires
        k.len() > 0,
    ensures
        is_first_max(k, first_max(k)),
    decreases k.len(),
{
    if k.len() == 1 {
        assert(is_first_max(k, 0));
    } else {
        let p = k.drop_last();
        lemma_first_max_exists(p);
        let m = first_max(p);
        assert(forall|j: int| 0 <= j < p.len() ==> p[j] == k[j]);
        if k.last() > k[m] {
            assert(is_first_max(k, k.len() - 1));
        } else {
            assert(is_first_max(k, m));
        }
    }
}

/// A first slot is unique, so `first_slot` names it.
pub proof fn lemma_first_slot_unique(f: Frames, x: Option<u32>, i: int)
    requires
        is_first_slot(f, x, i),
    ensures
        first_slot(f, x) == i,
{
    let c = choose|c: int| is_first_slot(f, x, c);
    assert(is_first_slot(f, x, c));
    if c < i {
        assert(f[c] != x);
    } else if i < c {
        assert(f[i] != x);
    }
}

/// Where no slot holds `x`, `first_slot` is the table's length.
pub proof fn lemma_first_slot_absent(f: Frames, x: Option<u32>)
    requires
        forall|j: int| 0 <= j < f.len() ==> f[j] != x,
    ensures
        first_slot(f, x) == f.len(),
{
    assert(!exists|i: int| is_first_slot(f, x, i));
}

/// A first smallest position is unique, so `first_min` names it.
pub proof fn lemma_first_min_unique(k: Seq<usize>, i: int)
    requires
        is_first_min(k, i),
    ensures
        first_min(k) == i,
{
    let c = choose|c: int| is_first_min(k, c);
    assert(is_first_min(k, c));
    if c < i {
        assert(k[i] < k[c]);
        assert(k[c] <= k[i]);
    } else if i < c {
        assert(k[c] < k[i]);
        assert(k[i] <= k[c]);
    }
}

/// A first largest position is unique, so `first_max` names it.
pub proof fn lemma_first_max_unique(k: Seq<usize>, i: int)
    requires
        is_first_max(k, i),
    ensures
        first_max(k) == i,
{
    let c = choose|c: int| is_first_max(k, c);
    assert(is_first_max(k, c));
    if c < i {
        assert(k[c] < k[i]);
        assert(k[i] <= k[c]);
    } else if i < c {
        assert(k[i] < k[c]);
        assert(k[c] <= k[i]);
    }
}

fn same_slot(a: Option<u32>, b: Option<u32>) -> (r: bool)
    ensures
        r == (a == b),
{
    match (a, b) {
        (Some(x), Some(y)) => x == y,
        (None, None) => true,
        _ => false,
    }
}

/// The first slot of `f` that holds `x`, or `f.len()` where none does.
pub fn find_slot(f: &Vec<Option<u32>>, x: Option<u32>) -> (r: usize)
    ensures
        r as int == first_slot(f@, x),
        r <= f.len(),
{
    let mut i: usize = 0;
    while i < f.len()
        invariant
            i <= f.len(),
            forall|j: int| 0 <= j < i ==> f@[j] != x,
        decreases f.len() - i,
    {
        if same_slot(f[i], x) {
            proof {
                lemma_first_slot_unique(f@, x, i as int);
            }
            return i;
        }
        i = i + 1;
    }
    proof {
        lemma_first_slot_absent(f@, x);
    }
    i
}

/// The first position of a smallest key.
pub fn oldest(k: &Vec<usize>) -> (r: usize)
    requires
        k.len() > 0,
    ensures
        r as int == first_min(k@),
        r < k.len(),
{
    let mut best: usize = 0;
    let mut i: usize = 1;
    while i < k.len()
        invariant
            1 <= i <= k.len(),
            best < i,
            forall|j: int| 0 <= j < i ==> k@[best as int] <= k@[j],
            forall|j: int| 0 <= j < best ==> k@[best as int] < k@[j],
        decreases k.len() - i,
    {
        if k[i] < k[best] {
            best = i;
        }
        i = i + 1;
    }
    proof {
        lemma_first_min_unique(k@, best as int);
    }
    best
}

/// The first position of a largest key.
pub fn farthest(k: &Vec<usize>) -> (r: usize)
    requires
        k.len() > 0,
    ensures
        r as int == first_max(k@),
        r < k.len(),
{
    let mut best: usize = 0;
    let mut i: usize = 1;
    while i < k.len()
        invariant
            1 <= i <= k.len(),
            best < i,
            forall|j: int| 0 <= j < i ==> k@[j] <= k@[best as int],
            forall|j: int| 0 <= j < best ==> k@[j] < k@[best as int],
        decreases k.len() - i,
    {
        if k[i] > k[best] {
            best = i;
        }
        i = i + 1;
    }
    proof {
        lemma_first_max_unique(k@, best as int);
    }
    best
}

/// A copy of a frame table.
pub fn copy_frames(f: &Vec<Option<u32>>) -> (r: Vec<Option<u32>>)
    ensures
        r@ == f@,
{
    let mut r: Vec<Option<u32>> = Vec::new();
    let mut i: usize = 0;
    while i < f.len()
        invariant
            i <= f.len(),
            r@ == f@.subrange(0, i as int),
        decreases f.len() - i,
    {
        r.push(f[i]);
        i = i + 1;
    }
    assert(r@ =~= f@);
    r
}

} // verus!
