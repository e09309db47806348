//! The thread tolerance curve as it is collected: cache size after cache
//! size, up to the first size whose bound is undefined.
use vstd::prelude::*;

verus! {

/// The points collected so far, and the cache size at which the curve
/// stopped, once it has.
pub struct Curve<T> {
    pub points: Vec<(usize, T)>,
    pub undefined_from: Option<usize>,
}

impl<T> Curve<T> {
    /// A curve with no points that has not stopped.
    pub fn new() -> (r: Curve<T>)
        ensures
            r.points@.len() == 0,
            r.undefined_from is None,
    {
        Curve { points: Vec::new(), undefined_from: None }
    }

    /// Records the bound found for `size`. A defined bound adds a point; the
    /// first undefined one stops the curve there, and nothing is recorded
    /// after it. Returns whether the next cache size is still wanted.
    pub fn record(&mut self, size: usize, outcome: Option<T>) -> (go_on: bool)
        ensures
            old(self).undefined_from is Some ==> *final(self) == *old(self) && !go_on,
            old(self).undefined_from is None ==> match outcome {
                Some(p) => final(self).points@ == old(self).points@.push((size, p))
                    && final(self).undefined_from is None && go_on,
                None => final(self).points@ == old(self).points@ && final(self).undefined_from
                    == Some(size) && !go_on,
            },
    {
        if self.undefined_from.is_some() {
            return false;
        }
        match outcome {
            Some(p) => {
                self.points.push((size, p));
                true
            },
            None => {
                self.undefined_from = Some(size);
                false
            },
        }
    }
}

} // verus!
