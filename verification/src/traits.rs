//! The primitive/diff contract as open extension points: anything whose
//! state is a primitive's fresh generation plus an ordered list of diffs
//! can implement these and gain replayed generation.

use vstd::prelude::*;

verus! {

/// A state that diffs of type `T` can be applied to.
pub trait AppliesDiff<T>: Sized {
    fn apply_diff(&mut self, t: &T);

    /// Apply a whole log in order.
    fn apply_all(&mut self, t: &Vec<T>) {
        let n = t.len();
        let mut i: usize = 0;
        while i < n
            invariant
                n == t@.len(),
                i <= n,
            decreases n - i,
        {
            self.apply_diff(&t[i]);
            i = i + 1;
        }
    }
}

/// Seed data that can generate a fresh `T`.
pub trait Primitive<T>: Sized {
    fn generate_new(self) -> T;
}

/// Seed data whose product accepts diffs: generation plus replay.
pub trait PrimitiveWithDiffs<T: AppliesDiff<D>, D>: Primitive<T> {
    /// Generate afresh, then replay the log in order.
    fn generate_diffed(self, diffs: &Vec<D>) -> T {
        let mut x = self.generate_new();
        x.apply_all(diffs);
        x
    }
}

} // verus!
