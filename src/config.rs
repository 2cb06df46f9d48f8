use vstd::prelude::*;
use crate::cache::FrameCache;

verus! {

/// Why a configuration cannot be rendered.
#[derive(PartialEq, Eq, Structural, Clone, Copy, Debug)]
pub enum ConfigError {
    /// The image has no samples: its width or its height is zero.
    EmptyGrid,
    /// The highest iteration cap is zero.
    NoIterations,
    /// The grid has more samples than memory can index.
    GridTooLarge,
}

/// What a run renders: the sample grid, the highest iteration cap, and
/// whether only the frame of that cap is produced or every cap from 0 up.
#[derive(PartialEq, Eq, Structural, Clone, Copy, Debug)]
pub struct Config {
    pub width: u32,
    pub height: u32,
    pub max_cap: u32,
    pub final_only: bool,
}

impl Config {
    pub open spec fn wf(&self) -> bool {
        &&& self.width > 0
        &&& self.height > 0
        &&& self.max_cap > 0
        &&& self.width * self.height <= usize::MAX
    }

    /// Checks a configuration before any work starts.
    pub fn new(width: u32, height: u32, max_cap: u32, final_only: bool) -> (r: Result<Config, ConfigError>)
        ensures
            r matches Ok(c) ==> c.wf() && c == (Config { width, height, max_cap, final_only }),
            r == Err::<Config, ConfigError>(ConfigError::EmptyGrid) <==> width == 0 || height == 0,
            r == Err::<Config, ConfigError>(ConfigError::NoIterations) <==> width > 0 && height > 0
                && max_cap == 0,
            r == Err::<Config, ConfigError>(ConfigError::GridTooLarge) <==> width > 0 && height > 0
                && max_cap > 0 && width * height > usize::MAX,
    {
        if width == 0 || height == 0 {
            return Err(ConfigError::EmptyGrid);
        }
        if max_cap == 0 {
            return Err(ConfigError::NoIterations);
        }
        assert(width * height <= u32::MAX * u32::MAX) by (nonlinear_arith)
            requires width <= u32::MAX, height <= u32::MAX;
        let samples: u64 = width as u64 * height as u64;
        if samples > usize::MAX as u64 {
            return Err(ConfigError::GridTooLarge);
        }
        Ok(Config { width, height, max_cap, final_only })
    }

    /// The number of samples of the grid.
    pub fn samples(&self) -> (r: usize)
        requires
            self.wf(),
        ensures
            r == self.width * self.height,
    {
        self.width as usize * self.height as usize
    }

    /// The caps of the frames to render, in increasing order: the highest cap
    /// alone, or every cap from 0 to the highest.
    pub fn frames(&self) -> (r: Vec<u32>)
        ensures
            self.final_only ==> r@ == seq![self.max_cap],
            !self.final_only ==> r@ == Seq::new(self.max_cap as nat + 1, |k: int| k as u32),
    {
        if self.final_only {
            return vec![self.max_cap];
        }
        let mut r: Vec<u32> = Vec::new();
        let mut c: u32 = 0;
        loop
            invariant_except_break
                r@ == Seq::new(c as nat, |k: int| k as u32),
            invariant
                c <= self.max_cap,
            ensures
                r@ == Seq::new(self.max_cap as nat + 1, |k: int| k as u32),
            decreases self.max_cap - c,
        {
            r.push(c);
            assert(r@ =~= Seq::new(c as nat + 1, |k: int| k as u32));
            if c == self.max_cap {
                break;
            }
            c = c + 1;
        }
        r
    }

    /// An empty cache for the configured grid.
    pub fn new_cache(&self) -> (r: FrameCache)
        requires
            self.wf(),
        ensures
            r.wf(),
            r.width_spec() == self.width,
            r.height_spec() == self.height,
            r@ == Seq::new((self.width * self.height) as nat, |k: int| None::<nat>),
    {
        FrameCache::new(self.width, self.height)
    }
}

}
