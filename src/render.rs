use vstd::prelude::*;
use vstd::arithmetic::div_mod::lemma_fundamental_div_mod;
use crate::cache::{pixel, lemma_pixel_in_grid, valid_hit, recorded, FrameCache};
use crate::escape::{capped, reported, restrict, EscapeResult};

verus! {

/// Why a frame could not be rendered.
#[derive(PartialEq, Eq, Structural, Clone, Copy, Debug)]
pub enum RenderError {
    /// The evaluations do not hold one entry per sample of the grid.
    SizeMismatch,
    /// The sample at this grid position has no usable cache entry and no
    /// evaluation was supplied for it.
    MissingEvaluation(usize),
}

/// The result a frame shows for one sample: a usable cache entry wins;
/// otherwise the supplied evaluation, narrowed to the cap.
pub open spec fn rendered_cell(entry: Option<nat>, fresh: Option<EscapeResult>, cap: nat) -> EscapeResult {
    match valid_hit(entry, cap) {
        Some(v) => EscapeResult::Escaped(v),
        None => match fresh {
            Some(r) => capped(reported(r), cap),
            None => EscapeResult::Bounded,
        },
    }
}

/// The cache entry of a sample after a frame showed `shown` for it: escapes
/// are recorded, entries are never overwritten.
pub open spec fn stored_cell(entry: Option<nat>, shown: EscapeResult) -> Option<nat> {
    match shown {
        EscapeResult::Escaped(n) => recorded(entry, n as nat),
        EscapeResult::Bounded => entry,
    }
}

/// Every sample without a usable cache entry has an evaluation.
pub open spec fn evaluations_complete(entries: Seq<Option<nat>>, fresh: Seq<Option<EscapeResult>>, cap: nat) -> bool {
    &&& fresh.len() == entries.len()
    &&& forall|p: int| 0 <= p < entries.len() && valid_hit(#[trigger] entries[p], cap) is None ==> fresh[p] is Some
}

proof fn lemma_split_pixel(p: int, width: int, height: int)
    requires
        0 <= p < width * height,
        width >= 0,
        height >= 0,
    ensures
        width > 0,
        0 <= p % width < width,
        0 <= p / width < height,
        pixel(p % width, p / width, width) == p,
{
    assert(width > 0) by (nonlinear_arith)
        requires 0 <= p < width * height, width >= 0, height >= 0;
    lemma_fundamental_div_mod(p, width);
    let x = p % width;
    let y = p / width;
    assert(0 <= x < width);
    assert(y >= 0) by (nonlinear_arith)
        requires p >= 0, width > 0, y == p / width;
    assert(y < height) by (nonlinear_arith)
        requires p == width * y + x, 0 <= x, p < width * height, width > 0;
    assert(pixel(x, y, width) == p) by (nonlinear_arith)
        requires p == width * y + x;
}

/// The samples that `cache` cannot answer for a frame with cap `cap`, as
/// `(x, y)` coordinates in grid order: these need an evaluation.
pub fn misses(cache: &FrameCache, cap: u32) -> (r: Vec<(u32, u32)>)
    requires
        cache.wf(),
    ensures
        forall|k: int| 0 <= k < r.len() ==> {
            &&& (#[trigger] r[k]).0 < cache.width_spec()
            &&& r[k].1 < cache.height_spec()
            &&& valid_hit(cache@[pixel(r[k].0 as int, r[k].1 as int, cache.width_spec() as int)], cap as nat) is None
        },
        forall|k: int, j: int| 0 <= k < j < r.len() ==>
            pixel(r[k].0 as int, r[k].1 as int, cache.width_spec() as int)
                < pixel(r[j].0 as int, r[j].1 as int, cache.width_spec() as int),
        forall|p: int| 0 <= p < cache@.len() && valid_hit(#[trigger] cache@[p], cap as nat) is None ==>
            exists|k: int| 0 <= k < r.len() && pixel(r[k].0 as int, r[k].1 as int, cache.width_spec() as int) == p,
{
    let w = cache.width();
    let h = cache.height();
    proof {
        cache.lemma_len();
    }
    let n: usize = w as usize * h as usize;
    let mut r: Vec<(u32, u32)> = Vec::new();
    let mut p: usize = 0;
    while p < n
        invariant
            cache.wf(),
            w == cache.width_spec(),
            h == cache.height_spec(),
            n == cache@.len(),
            n == w * h,
            p <= n,
            forall|k: int| 0 <= k < r.len() ==> {
                &&& (#[trigger] r[k]).0 < w
                &&& r[k].1 < h
                &&& 0 <= pixel(r[k].0 as int, r[k].1 as int, w as int) < p
                &&& valid_hit(cache@[pixel(r[k].0 as int, r[k].1 as int, w as int)], cap as nat) is None
            },
            forall|k: int, j: int| 0 <= k < j < r.len() ==>
                pixel(r[k].0 as int, r[k].1 as int, w as int) < pixel(r[j].0 as int, r[j].1 as int, w as int),
            forall|q: int| 0 <= q < p && valid_hit(#[trigger] cache@[q], cap as nat) is None ==>
                exists|k: int| 0 <= k < r.len() && pixel(r[k].0 as int, r[k].1 as int, w as int) == q,
        decreases n - p,
    {
        proof {
            lemma_split_pixel(p as int, w as int, h as int);
        }
        let x: u32 = (p % (w as usize)) as u32;
        let y: u32 = (p / (w as usize)) as u32;
        let ghost before = r@;
        if cache.hit(x, y, cap).is_none() {
            r.push((x, y));
        }
        proof {
            assert forall|q: int| 0 <= q < p + 1 && valid_hit(#[trigger] cache@[q], cap as nat) is None implies
                exists|k: int| 0 <= k < r.len() && pixel(r[k].0 as int, r[k].1 as int, w as int) == q by {
                if q < p {
                    let k = choose|k: int| 0 <= k < before.len() && pixel(before[k].0 as int, before[k].1 as int, w as int) == q;
                    assert(r[k] == before[k]);
                } else {
                    let k = r.len() - 1;
                    assert(pixel(r[k].0 as int, r[k].1 as int, w as int) == q);
                }
            }
        }
        p = p + 1;
    }
    r
}

/// Renders the frame with cap `cap`. Each sample takes its usable cache entry
/// if it has one, otherwise its evaluation from `fresh` (indexed by grid
/// position; entries for answered samples are not read). Escapes shown by the
/// frame are recorded in the cache. On an error the cache is left untouched.
pub fn render_frame(cache: &mut FrameCache, cap: u32, fresh: &Vec<Option<EscapeResult>>) -> (r: Result<Vec<EscapeResult>, RenderError>)
    requires
        old(cache).wf(),
    ensures
        final(cache).wf(),
        final(cache).width_spec() == old(cache).width_spec(),
        final(cache).height_spec() == old(cache).height_spec(),
        r is Ok <==> evaluations_complete(old(cache)@, fresh@, cap as nat),
        r == Err::<Vec<EscapeResult>, RenderError>(RenderError::SizeMismatch) <==> fresh@.len() != old(cache)@.len(),
        r matches Err(RenderError::MissingEvaluation(p)) ==> {
            &&& p < old(cache)@.len()
            &&& valid_hit(old(cache)@[p as int], cap as nat) is None
            &&& fresh@[p as int] is None
        },
        r is Err ==> final(cache)@ == old(cache)@,
        r matches Ok(grid) ==> {
            &&& grid@.len() == old(cache)@.len()
            &&& forall|p: int| 0 <= p < grid@.len() ==>
                #[trigger] grid@[p] == rendered_cell(old(cache)@[p], fresh@[p], cap as nat)
            &&& final(cache)@ == Seq::new(old(cache)@.len(), |p: int| stored_cell(old(cache)@[p], grid@[p]))
        },
{
    let w = cache.width();
    let h = cache.height();
    proof {
        cache.lemma_len();
    }
    let n: usize = w as usize * h as usize;
    if fresh.len() != n {
        return Err(RenderError::SizeMismatch);
    }
    let mut p: usize = 0;
    while p < n
        invariant
            cache.wf(),
            w == cache.width_spec(),
            h == cache.height_spec(),
            n == cache@.len(),
            n == w * h,
            fresh@.len() == n,
            p <= n,
            forall|q: int| 0 <= q < p && valid_hit(#[trigger] cache@[q], cap as nat) is None ==> fresh@[q] is Some,
        decreases n - p,
    {
        proof {
            lemma_split_pixel(p as int, w as int, h as int);
        }
        let x: u32 = (p % (w as usize)) as u32;
        let y: u32 = (p / (w as usize)) as u32;
        if cache.hit(x, y, cap).is_none() && fresh[p].is_none() {
            return Err(RenderError::MissingEvaluation(p));
        }
        p = p + 1;
    }
    let ghost start = cache@;
    let mut grid: Vec<EscapeResult> = Vec::new();
    let mut p: usize = 0;
    while p < n
        invariant
            cache.wf(),
            w == cache.width_spec(),
            h == cache.height_spec(),
            n == cache@.len(),
            n == w * h,
            start.len() == n,
            fresh@.len() == n,
            p <= n,
            grid@.len() == p,
            forall|q: int| 0 <= q < p ==>
                #[trigger] grid@[q] == rendered_cell(start[q], fresh@[q], cap as nat),
            forall|q: int| 0 <= q < p ==> #[trigger] cache@[q] == stored_cell(start[q], grid@[q]),
            forall|q: int| p <= q < n ==> #[trigger] cache@[q] == start[q],
        decreases n - p,
    {
        proof {
            lemma_split_pixel(p as int, w as int, h as int);
        }
        let x: u32 = (p % (w as usize)) as u32;
        let y: u32 = (p / (w as usize)) as u32;
        let shown = match cache.hit(x, y, cap) {
            Some(v) => EscapeResult::Escaped(v),
            None => match fresh[p] {
                Some(e) => restrict(e, cap),
                None => EscapeResult::Bounded,
            },
        };
        if let EscapeResult::Escaped(i) = shown {
            cache.record(x, y, i);
        }
        grid.push(shown);
        p = p + 1;
    }
    assert(cache@ =~= Seq::new(start.len(), |q: int| stored_cell(start[q], grid@[q])));
    Ok(grid)
}

/// The frame with cap `cap` derived from a full evaluation of every sample
/// under a cap at least as large, with no cache involved.
pub fn frame_at(full: &Vec<EscapeResult>, cap: u32) -> (r: Vec<EscapeResult>)
    ensures
        r@.len() == full@.len(),
        forall|p: int| 0 <= p < r@.len() ==> #[trigger] r@[p] == capped(reported(full@[p]), cap as nat),
{
    let mut r: Vec<EscapeResult> = Vec::new();
    let mut p: usize = 0;
    while p < full.len()
        invariant
            p <= full@.len(),
            r@.len() == p,
            forall|q: int| 0 <= q < p ==> #[trigger] r@[q] == capped(reported(full@[q]), cap as nat),
        decreases full@.len() - p,
    {
        r.push(restrict(full[p], cap));
        p = p + 1;
    }
    r
}

/// Every cache entry is the true escape iteration of its sample.
pub open spec fn truthful_entries(entries: Seq<Option<nat>>, truth: Seq<Option<nat>>) -> bool {
    &&& entries.len() == truth.len()
    &&& forall|p: int| 0 <= p < entries.len() && (#[trigger] entries[p]) is Some ==> entries[p] == truth[p]
}

/// Every supplied evaluation is what evaluating the sample under `cap` gives.
pub open spec fn truthful_evaluations(fresh: Seq<Option<EscapeResult>>, truth: Seq<Option<nat>>, cap: nat) -> bool {
    &&& fresh.len() == truth.len()
    &&& forall|p: int| 0 <= p < fresh.len() && (#[trigger] fresh[p]) is Some ==> fresh[p] == Some(capped(truth[p], cap))
}

/// A frame rendered with a truthful cache and correct evaluations shows, for
/// every sample, exactly the result of evaluating it under the frame's cap
/// without any cache; and the cache it leaves holds only true escape
/// iterations.
pub proof fn lemma_cache_transparent(
    entries: Seq<Option<nat>>,
    truth: Seq<Option<nat>>,
    fresh: Seq<Option<EscapeResult>>,
    cap: nat,
)
    requires
        truthful_entries(entries, truth),
        truthful_evaluations(fresh, truth, cap),
        evaluations_complete(entries, fresh, cap),
    ensures
        forall|p: int| 0 <= p < entries.len() ==>
            #[trigger] rendered_cell(entries[p], fresh[p], cap) == capped(truth[p], cap),
        truthful_entries(
            Seq::new(entries.len(), |p: int| stored_cell(entries[p], rendered_cell(entries[p], fresh[p], cap))),
            truth,
        ),
{
    let after = Seq::new(entries.len(), |p: int| stored_cell(entries[p], rendered_cell(entries[p], fresh[p], cap)));
    assert forall|p: int| 0 <= p < entries.len() implies
        #[trigger] rendered_cell(entries[p], fresh[p], cap) == capped(truth[p], cap) by {
        if valid_hit(entries[p], cap) is None {
            assert(fresh[p] is Some);
        } else {
            assert(entries[p] is Some);
        }
    }
    assert forall|p: int| 0 <= p < after.len() && (#[trigger] after[p]) is Some implies after[p] == truth[p] by {
        assert(rendered_cell(entries[p], fresh[p], cap) == capped(truth[p], cap));
    }
}

/// The cache entry of one sample, with true escape iteration `t`, after
/// rendering frames with the caps `caps` in that order, each with correct
/// evaluations.
pub open spec fn cell_after(entry: Option<nat>, t: Option<nat>, caps: Seq<nat>) -> Option<nat>
    decreases caps.len(),
{
    if caps.len() == 0 {
        entry
    } else {
        cell_after(stored_cell(entry, capped(t, caps[0])), t, caps.drop_first())
    }
}

/// The whole cache after rendering frames with the caps `caps` in that order.
pub open spec fn cache_after(entries: Seq<Option<nat>>, truth: Seq<Option<nat>>, caps: Seq<nat>) -> Seq<Option<nat>> {
    Seq::new(entries.len(), |p: int| cell_after(entries[p], truth[p], caps))
}

/// The sample with true escape iteration `t` is shown escaping under `cap`.
pub open spec fn shown_escaping(t: Option<nat>, cap: nat) -> bool {
    capped(t, cap) is Escaped
}

proof fn lemma_cell_after(entry: Option<nat>, t: Option<nat>, caps: Seq<nat>)
    requires
        entry is None || entry == t,
    ensures
        cell_after(entry, t, caps) == if entry is Some || exists|k: int| 0 <= k < caps.len() && shown_escaping(t, #[trigger] caps[k]) {
            t
        } else {
            None
        },
    decreases caps.len(),
{
    if caps.len() > 0 {
        let next = stored_cell(entry, capped(t, caps[0]));
        lemma_cell_after(next, t, caps.drop_first());
        let rest = caps.drop_first();
        if exists|k: int| 0 <= k < caps.len() && shown_escaping(t, #[trigger] caps[k]) {
            let k = choose|k: int| 0 <= k < caps.len() && shown_escaping(t, #[trigger] caps[k]);
            if k > 0 {
                assert(rest[k - 1] == caps[k]);
            }
        }
        if exists|k: int| 0 <= k < rest.len() && shown_escaping(t, #[trigger] rest[k]) {
            let k = choose|k: int| 0 <= k < rest.len() && shown_escaping(t, #[trigger] rest[k]);
            assert(caps[k + 1] == rest[k]);
        }
    }
}

/// The cache left by a run of frames depends on which caps were rendered, not
/// on the order in which they were rendered; and it holds only true escape
/// iterations.
pub proof fn lemma_frame_order_irrelevant(
    entries: Seq<Option<nat>>,
    truth: Seq<Option<nat>>,
    caps1: Seq<nat>,
    caps2: Seq<nat>,
)
    requires
        truthful_entries(entries, truth),
        forall|c: nat| caps1.contains(c) <==> caps2.contains(c),
    ensures
        cache_after(entries, truth, caps1) == cache_after(entries, truth, caps2),
        truthful_entries(cache_after(entries, truth, caps1), truth),
{
    assert forall|p: int| 0 <= p < entries.len() implies
        #[trigger] cell_after(entries[p], truth[p], caps1) == cell_after(entries[p], truth[p], caps2) by {
        lemma_cell_after(entries[p], truth[p], caps1);
        lemma_cell_after(entries[p], truth[p], caps2);
        let t = truth[p];
        if exists|k: int| 0 <= k < caps1.len() && shown_escaping(t, #[trigger] caps1[k]) {
            let k = choose|k: int| 0 <= k < caps1.len() && shown_escaping(t, #[trigger] caps1[k]);
            assert(caps1.contains(caps1[k]));
            let j = choose|j: int| 0 <= j < caps2.len() && caps2[j] == caps1[k];
            assert(shown_escaping(t, caps2[j]));
        }
        if exists|k: int| 0 <= k < caps2.len() && shown_escaping(t, #[trigger] caps2[k]) {
            let k = choose|k: int| 0 <= k < caps2.len() && shown_escaping(t, #[trigger] caps2[k]);
            assert(caps2.contains(caps2[k]));
            let j = choose|j: int| 0 <= j < caps1.len() && caps1[j] == caps2[k];
            assert(shown_escaping(t, caps1[j]));
        }
    }
    assert(cache_after(entries, truth, caps1) =~= cache_after(entries, truth, caps2));
    let after = cache_after(entries, truth, caps1);
    assert forall|p: int| 0 <= p < after.len() && (#[trigger] after[p]) is Some implies after[p] == truth[p] by {
        lemma_cell_after(entries[p], truth[p], caps1);
    }
}

}
