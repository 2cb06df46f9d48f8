use julia_render::{evaluate, frame_at, misses, render_frame, Config, ConfigError, EscapeResult, FrameCache, RenderError};

const W: u32 = 3;
const H: u32 = 2;

/// Breach flags for the six samples of a 3 by 2 grid, in grid order
/// (`x + y * 3`): true escape iterations 0, 2, never, 1, 4, never.
fn orbits() -> Vec<Vec<bool>> {
    vec![
        vec![true; 6],
        vec![false, false, true, true, false, false],
        vec![false; 6],
        vec![false, true, false, false, false, false],
        vec![false, false, false, false, true, false],
        vec![false; 6],
    ]
}

/// Renders the frame of `cap` with the cache, evaluating only the misses.
fn cached_frame(cache: &mut FrameCache, cap: u32) -> Vec<EscapeResult> {
    let o = orbits();
    let mut fresh = vec![None; o.len()];
    for (x, y) in misses(cache, cap) {
        let p = (x + y * W) as usize;
        fresh[p] = Some(evaluate(&o[p], cap));
    }
    render_frame(cache, cap, &fresh).unwrap()
}

fn uncached_frame(cap: u32) -> Vec<EscapeResult> {
    orbits().iter().map(|o| evaluate(o, cap)).collect()
}

fn entries(cache: &FrameCache) -> Vec<Option<u32>> {
    let mut out = Vec::new();
    for y in 0..cache.height() {
        for x in 0..cache.width() {
            out.push(cache.lookup(x, y));
        }
    }
    out
}

#[test]
fn new_cache_is_empty() {
    let cache = FrameCache::new(W, H);
    assert_eq!(cache.width(), 3);
    assert_eq!(cache.height(), 2);
    assert_eq!(entries(&cache), vec![None; 6]);
}

#[test]
fn record_never_overwrites() {
    let mut cache = FrameCache::new(W, H);
    cache.record(1, 1, 7);
    assert_eq!(cache.lookup(1, 1), Some(7));
    cache.record(1, 1, 9);
    assert_eq!(cache.lookup(1, 1), Some(7));
    assert_eq!(cache.lookup(0, 1), None);
    assert_eq!(cache.lookup(1, 0), None);
}

#[test]
fn hit_ignores_entries_at_or_above_cap() {
    let mut cache = FrameCache::new(W, H);
    cache.record(2, 0, 4);
    assert_eq!(cache.hit(2, 0, 5), Some(4));
    assert_eq!(cache.hit(2, 0, 4), None);
    assert_eq!(cache.hit(2, 0, 1), None);
    assert_eq!(cache.hit(0, 0, 5), None);
}

#[test]
fn misses_lists_unanswered_samples_in_grid_order() {
    let mut cache = FrameCache::new(W, H);
    cache.record(0, 0, 0);
    cache.record(0, 1, 1);
    cache.record(1, 1, 4);
    assert_eq!(misses(&cache, 3), vec![(1, 0), (2, 0), (1, 1), (2, 1)]);
    assert_eq!(misses(&cache, 5), vec![(1, 0), (2, 0), (2, 1)]);
}

#[test]
fn render_rejects_wrong_size() {
    let mut cache = FrameCache::new(W, H);
    assert_eq!(render_frame(&mut cache, 3, &vec![None; 5]), Err(RenderError::SizeMismatch));
    assert_eq!(entries(&cache), vec![None; 6]);
}

#[test]
fn render_reports_missing_evaluation_and_keeps_cache() {
    let mut cache = FrameCache::new(W, H);
    cache.record(0, 0, 0);
    let mut fresh = vec![Some(EscapeResult::Bounded); 6];
    fresh[4] = None;
    assert_eq!(render_frame(&mut cache, 3, &fresh), Err(RenderError::MissingEvaluation(4)));
    assert_eq!(entries(&cache), vec![Some(0), None, None, None, None, None]);
}

#[test]
fn render_uses_hits_and_records_escapes() {
    let mut cache = FrameCache::new(W, H);
    cache.record(0, 0, 0);
    let fresh = vec![
        None,
        Some(EscapeResult::Escaped(2)),
        Some(EscapeResult::Bounded),
        Some(EscapeResult::Escaped(1)),
        Some(EscapeResult::Escaped(4)),
        Some(EscapeResult::Bounded),
    ];
    let grid = render_frame(&mut cache, 3, &fresh).unwrap();
    assert_eq!(
        grid,
        vec![
            EscapeResult::Escaped(0),
            EscapeResult::Escaped(2),
            EscapeResult::Bounded,
            EscapeResult::Escaped(1),
            EscapeResult::Bounded,
            EscapeResult::Bounded,
        ]
    );
    assert_eq!(entries(&cache), vec![Some(0), Some(2), None, Some(1), None, None]);
}

#[test]
fn cached_frames_equal_uncached_frames() {
    let mut cache = FrameCache::new(W, H);
    for cap in [0u32, 1, 2, 3, 4, 5, 6, 3, 1] {
        assert_eq!(cached_frame(&mut cache, cap), uncached_frame(cap));
    }
    let full = uncached_frame(6);
    for cap in 0..=6u32 {
        assert_eq!(frame_at(&full, cap), uncached_frame(cap));
    }
}

#[test]
fn cache_after_frames_does_not_depend_on_order() {
    let mut in_order = FrameCache::new(W, H);
    for cap in [1u32, 2, 3] {
        cached_frame(&mut in_order, cap);
    }
    let mut shuffled = FrameCache::new(W, H);
    for cap in [3u32, 1, 2] {
        cached_frame(&mut shuffled, cap);
    }
    assert_eq!(entries(&in_order), entries(&shuffled));
    assert_eq!(entries(&in_order), vec![Some(0), Some(2), None, Some(1), None, None]);
}

#[test]
fn rerunning_gives_identical_frames() {
    let run = || {
        let config = Config::new(W, H, 6, false).unwrap();
        let mut cache = config.new_cache();
        let frames: Vec<Vec<EscapeResult>> =
            config.frames().into_iter().map(|cap| cached_frame(&mut cache, cap)).collect();
        frames
    };
    assert_eq!(run(), run());
}

#[test]
fn config_checks() {
    assert_eq!(Config::new(0, 4, 5, true), Err(ConfigError::EmptyGrid));
    assert_eq!(Config::new(4, 0, 5, true), Err(ConfigError::EmptyGrid));
    assert_eq!(Config::new(4, 4, 0, true), Err(ConfigError::NoIterations));
    let c = Config::new(4, 4, 5, true).unwrap();
    assert_eq!(c.samples(), 16);
    assert_eq!(c.frames(), vec![5]);
    let all = Config::new(4, 4, 3, false).unwrap();
    assert_eq!(all.frames(), vec![0, 1, 2, 3]);
}
