use vstd::prelude::*;
use crate::escape::EscapeResult;
use crate::cache::{pixel, lemma_pixel_in_grid};

verus! {

/// Size of the worker pool for a machine with `available` hardware threads:
/// one is kept for the coordinating thread, and there is always at least one
/// worker.
pub fn worker_count(available: usize) -> (r: usize)
    ensures
        r == if available <= 1 { 1 } else { available - 1 },
{
    if available <= 1 {
        1
    } else {
        available - 1
    }
}

/// Unit `j` of worker `w` under round-robin assignment to `workers` workers.
pub open spec fn slot(w: int, j: int, workers: int) -> int {
    w + j * workers
}

/// `groups` is the round-robin assignment of the units `0 .. n` to `workers`
/// workers: group `w` holds `w, w + workers, w + 2 * workers, ...` below `n`.
pub open spec fn round_robin(groups: Seq<Seq<usize>>, n: nat, workers: nat) -> bool {
    &&& groups.len() == workers
    &&& forall|w: int, j: int| 0 <= w < workers && 0 <= j ==>
        (j < groups[w].len() <==> slot(w, j, workers as int) < n)
    &&& forall|w: int, j: int| 0 <= w < workers && 0 <= j < groups[w].len() ==>
        #[trigger] groups[w][j] == slot(w, j, workers as int)
}

/// Splits the units `0 .. n` round-robin over `workers` workers: worker `w`
/// gets `w, w + workers, w + 2 * workers, ...`, in increasing order.
pub fn partition(n: usize, workers: usize) -> (r: Vec<Vec<usize>>)
    requires
        workers >= 1,
    ensures
        round_robin(r@.map_values(|g: Vec<usize>| g@), n as nat, workers as nat),
{
    let mut r: Vec<Vec<usize>> = Vec::new();
    let mut w: usize = 0;
    while w < workers
        invariant
            w <= workers,
            r@.len() == w,
            forall|v: int, j: int| 0 <= v < w && 0 <= j ==>
                (j < r@[v]@.len() <==> slot(v, j, workers as int) < n),
            forall|v: int, j: int| 0 <= v < w && 0 <= j < r@[v]@.len() ==>
                #[trigger] r@[v]@[j] == slot(v, j, workers as int),
        decreases workers - w,
    {
        let group = round_robin_share(n, workers, w);
        r.push(group);
        w = w + 1;
    }
    assert(r@.map_values(|g: Vec<usize>| g@).len() == workers);
    r
}

fn round_robin_share(n: usize, workers: usize, w: usize) -> (g: Vec<usize>)
    requires
        workers >= 1,
    ensures
        forall|j: int| 0 <= j ==> (j < g@.len() <==> slot(w as int, j, workers as int) < n),
        forall|j: int| 0 <= j < g@.len() ==> #[trigger] g@[j] == slot(w as int, j, workers as int),
{
    let mut g: Vec<usize> = Vec::new();
    if w >= n {
        assert forall|j: int| 0 <= j implies slot(w as int, j, workers as int) >= n by {
            assert(j * workers >= 0) by (nonlinear_arith)
                requires 0 <= j, workers >= 1;
        }
        return g;
    }
    let mut idx: usize = w;
    assert(slot(w as int, 0, workers as int) == w) by (nonlinear_arith);
    loop
        invariant_except_break
            idx < n,
            idx == slot(w as int, g@.len() as int, workers as int),
        invariant
            workers >= 1,
            forall|j: int| 0 <= j < g@.len() ==> #[trigger] g@[j] == slot(w as int, j, workers as int),
            forall|j: int| 0 <= j < g@.len() ==> #[trigger] g@[j] < n,
        ensures
            slot(w as int, g@.len() as int, workers as int) >= n,
        decreases n - idx,
    {
        g.push(idx);
        assert(slot(w as int, g@.len() as int, workers as int) == idx + workers) by (nonlinear_arith)
            requires idx == slot(w as int, g@.len() - 1, workers as int);
        if n - idx <= workers {
            break;
        }
        idx = idx + workers;
    }
    assert forall|j: int| 0 <= j implies (j < g@.len() <==> slot(w as int, j, workers as int) < n) by {
        let len = g@.len() as int;
        if j < len {
            assert(g@[j] < n);
        } else {
            assert(slot(w as int, j, workers as int) >= slot(w as int, len, workers as int)) by (nonlinear_arith)
                requires j >= len, workers >= 1;
        }
    }
    g
}

/// Some worker holds the unit `i`.
pub open spec fn held(groups: Seq<Seq<usize>>, i: int) -> bool {
    exists|w: int, j: int| 0 <= w < groups.len() && 0 <= j < groups[w].len() && #[trigger] groups[w][j] == i
}

/// Round-robin assignment covers the work set exactly once: every unit of
/// `0 .. n` is held by some worker, no unit is held twice (by two workers or
/// twice by one), and no worker holds a unit outside `0 .. n`.
pub proof fn lemma_partition_exact(groups: Seq<Seq<usize>>, n: nat, workers: nat)
    requires
        workers >= 1,
        round_robin(groups, n, workers),
    ensures
        forall|i: int| 0 <= i < n ==> #[trigger] held(groups, i),
        forall|w1: int, j1: int, w2: int, j2: int|
            0 <= w1 < groups.len() && 0 <= j1 < groups[w1].len() && 0 <= w2 < groups.len() && 0 <= j2
                < groups[w2].len() && #[trigger] groups[w1][j1] == #[trigger] groups[w2][j2]
                ==> w1 == w2 && j1 == j2,
        forall|w: int, j: int| 0 <= w < groups.len() && 0 <= j < groups[w].len() ==> #[trigger] groups[w][j] < n,
{
    let t = workers as int;
    assert forall|i: int| 0 <= i < n implies #[trigger] held(groups, i) by {
        vstd::arithmetic::div_mod::lemma_fundamental_div_mod(i, t);
        let w = i % t;
        let j = i / t;
        assert(0 <= j) by (nonlinear_arith)
            requires 0 <= i, t >= 1, j == i / t;
        assert(slot(w, j, t) == i) by (nonlinear_arith)
            requires i == t * j + w;
        assert(j < groups[w].len());
        assert(groups[w][j] == i);
    }
    assert forall|w1: int, j1: int, w2: int, j2: int|
        0 <= w1 < groups.len() && 0 <= j1 < groups[w1].len() && 0 <= w2 < groups.len() && 0 <= j2
            < groups[w2].len() && #[trigger] groups[w1][j1] == #[trigger] groups[w2][j2]
        implies w1 == w2 && j1 == j2 by {
        assert(groups[w1][j1] == slot(w1, j1, t));
        assert(groups[w2][j2] == slot(w2, j2, t));
        assert(j1 == j2) by (nonlinear_arith)
            requires 0 <= w1 < t, 0 <= w2 < t, 0 <= j1, 0 <= j2, w1 + j1 * t == w2 + j2 * t;
    }
    assert forall|w: int, j: int| 0 <= w < groups.len() && 0 <= j < groups[w].len() implies #[trigger] groups[w][j] < n by {
        assert(groups[w][j] == slot(w, j, t));
    }
}

/// Time spent on one completed frame.
#[derive(PartialEq, Eq, Structural, Clone, Copy, Debug)]
pub struct TimingRecord {
    /// The frame's iteration cap.
    pub frame: u32,
    /// Wall-clock time the frame took, in microseconds.
    pub micros: u64,
}

/// The records of all workers, one after the other.
pub open spec fn merged(parts: Seq<Vec<TimingRecord>>) -> Seq<TimingRecord> {
    parts.map_values(|v: Vec<TimingRecord>| v@).flatten()
}

/// Gathers the timing records that each worker handed back at its end, worker
/// by worker, each worker's records in the order it produced them.
pub fn merge_timings(parts: Vec<Vec<TimingRecord>>) -> (r: Vec<TimingRecord>)
    ensures
        r@ == merged(parts@),
{
    let mut r: Vec<TimingRecord> = Vec::new();
    let mut i: usize = 0;
    while i < parts.len()
        invariant
            i <= parts@.len(),
            r@ == merged(parts@.take(i as int)),
        decreases parts@.len() - i,
    {
        let part = &parts[i];
        let ghost before = r@;
        let mut k: usize = 0;
        while k < part.len()
            invariant
                k <= part@.len(),
                part == parts@[i as int],
                r@ == before + part@.take(k as int),
            decreases part@.len() - k,
        {
            r.push(part[k]);
            k = k + 1;
            assert(r@ =~= before + part@.take(k as int));
        }
        proof {
            let views = parts@.take(i as int + 1).map_values(|v: Vec<TimingRecord>| v@);
            views.lemma_flatten_and_flatten_alt_are_equivalent();
            views.drop_last().lemma_flatten_and_flatten_alt_are_equivalent();
            assert(views.drop_last() =~= parts@.take(i as int).map_values(|v: Vec<TimingRecord>| v@));
            assert(part@.take(part@.len() as int) =~= part@);
        }
        i = i + 1;
    }
    assert(parts@.take(parts@.len() as int) =~= parts@);
    r
}

/// A grid of `width * height` results after placing `records` on a grid that
/// started as `base`, in order, a later record for a sample replacing an
/// earlier one. Records outside the grid are passed over.
pub open spec fn placed(
    base: Seq<EscapeResult>,
    records: Seq<(u32, u32, EscapeResult)>,
    width: nat,
    height: nat,
) -> Seq<EscapeResult>
    decreases records.len(),
{
    if records.len() == 0 {
        base
    } else {
        let g = placed(base, records.drop_last(), width, height);
        let (x, y, v) = records.last();
        if x < width && y < height {
            g.update(pixel(x as int, y as int, width as int), v)
        } else {
            g
        }
    }
}

/// Builds the `width * height` result grid of one frame from the per-sample
/// results that the workers handed back; a sample no worker reported stays
/// `Bounded`.
pub fn assemble_grid(width: u32, height: u32, records: &Vec<(u32, u32, EscapeResult)>) -> (r: Vec<EscapeResult>)
    requires
        width * height <= usize::MAX,
    ensures
        r@ == placed(
            Seq::new((width * height) as nat, |p: int| EscapeResult::Bounded),
            records@,
            width as nat,
            height as nat,
        ),
{
    let n: usize = width as usize * height as usize;
    let mut grid: Vec<EscapeResult> = Vec::new();
    let mut p: usize = 0;
    while p < n
        invariant
            p <= n,
            grid@ == Seq::new(p as nat, |q: int| EscapeResult::Bounded),
        decreases n - p,
    {
        grid.push(EscapeResult::Bounded);
        p = p + 1;
        assert(grid@ =~= Seq::new(p as nat, |q: int| EscapeResult::Bounded));
    }
    let ghost base = grid@;
    let mut i: usize = 0;
    while i < records.len()
        invariant
            i <= records@.len(),
            n == width * height,
            base.len() == n,
            grid@ == placed(base, records@.take(i as int), width as nat, height as nat),
            grid@.len() == n,
        decreases records@.len() - i,
    {
        let (x, y, v) = records[i];
        assert(records@.take(i as int + 1).drop_last() =~= records@.take(i as int));
        if x < width && y < height {
            proof {
                lemma_pixel_in_grid(x as int, y as int, width as int, height as int);
            }
            let at: usize = x as usize + y as usize * width as usize;
            grid.set(at, v);
        }
        i = i + 1;
    }
    assert(records@.take(records@.len() as int) =~= records@);
    grid
}

}
