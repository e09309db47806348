//! The options of a run: where the data comes from and goes to, and the
//! cache sizes that the curve covers.
use vstd::prelude::*;
use std::path::PathBuf;

verus! {

#[verifier::external_type_specification]
#[verifier::external_body]
pub struct ExPathBuf(PathBuf);

/// The options of either data model.
pub struct CliOpt {
    /// Where to render the curve.
    pub plot: Option<PathBuf>,
    /// The plot's width.
    pub plot_width: Option<u32>,
    /// The plot's height.
    pub plot_height: Option<u32>,
    /// The largest cache size.
    pub max_cache_size: usize,
    /// The step between cache sizes.
    pub cache_size_step: usize,
    /// The input file.
    pub input: PathBuf,
    /// Where to write the curve.
    pub output: Option<PathBuf>,
    /// Render a bitmap instead of SVG.
    pub bitmap: bool,
}

/// The options of the private data model.
pub struct UnSharedCliOpt {
    pub plot: Option<PathBuf>,
    pub plot_width: Option<u32>,
    pub plot_height: Option<u32>,
    pub max_cache_size: usize,
    pub cache_size_step: usize,
    pub input: PathBuf,
    pub output: Option<PathBuf>,
    pub bitmap: bool,
}

impl CliOpt {
    /// The cache sizes of the curve: from 2 up to `max_cache_size`, every
    /// `cache_size_step`-th one.
    pub fn cache_sizes(&self) -> (r: Vec<usize>)
        requires
            self.cache_size_step > 0,
        ensures
            r@.len() == if self.max_cache_size < 2 {
                0
            } else {
                (self.max_cache_size - 2) / (self.cache_size_step as int) + 1
            },
            forall|k: int| 0 <= k < r@.len() ==> #[trigger] r@[k] == 2 + k * self.cache_size_step,
    {
        let max = self.max_cache_size;
        let step = self.cache_size_step;
        let mut r: Vec<usize> = Vec::new();
        if max < 2 {
            return r;
        }
        let mut c: usize = 2;
        assert(0 * step == 0);
        loop
            invariant_except_break
                c == 2 + r@.len() * step,
            invariant
                2 <= c <= max,
                step > 0,
                max == self.max_cache_size,
                step == self.cache_size_step,
                forall|k: int| 0 <= k < r@.len() ==> #[trigger] r@[k] == 2 + k * step,
            ensures
                r@.len() == (max - 2) / (step as int) + 1,
                forall|k: int| 0 <= k < r@.len() ==> #[trigger] r@[k] == 2 + k * step,
            decreases max - c,
        {
            r.push(c);
            proof {
                assert(c == 2 + (r@.len() - 1) * step);
            }
            if max - c < step {
                proof {
                    let n = r@.len() as int;
                    assert((n - 1) * step <= max - 2 < n * step) by (nonlinear_arith)
                        requires
                            c == 2 + (n - 1) * step,
                            max - c < step,
                            c <= max,
                    ;
                    lemma_div_between(max - 2, step as int, n - 1);
                }
                break;
            }
            c = c + step;
            proof {
                assert(c == 2 + r@.len() * step) by (nonlinear_arith)
                    requires
                        c == 2 + (r@.len() - 1) * step + step,
                ;
            }
        }
        r
    }

    /// The plot's size: 640 by 480 unless the options set it.
    pub fn plot_size(&self) -> (r: (u32, u32))
        ensures
            r.0 == match self.plot_width {
                Some(w) => w,
                None => 640,
            },
            r.1 == match self.plot_height {
                Some(h) => h,
                None => 480,
            },
    {
        let w = match self.plot_width {
            Some(w) => w,
            None => 640,
        };
        let h = match self.plot_height {
            Some(h) => h,
            None => 480,
        };
        (w, h)
    }
}

proof fn lemma_div_between(a: int, d: int, q: int)
    requires
        d > 0,
        q * d <= a < (q + 1) * d,
    ensures
        a / d == q,
{
    vstd::arithmetic::div_mod::lemma_fundamental_div_mod(a, d);
    assert(a / d == q) by (nonlinear_arith)
        requires
            d > 0,
            q * d <= a < (q + 1) * d,
            a == d * (a / d) + a % d,
            0 <= a % d < d,
    ;
}

} // verus!
