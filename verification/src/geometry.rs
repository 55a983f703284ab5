use vstd::prelude::*;

verus! {

/// Counters of the work spent tracing one ray through the acceleration structure.
#[derive(Default, Clone, Copy)]
pub struct RayDebugInfo {
    pub bounds_test_count: usize,
    pub primitive_test_count: usize,
}

impl RayDebugInfo {
    /// Adds the counters of `other` to these.
    pub fn extend(&mut self, other: RayDebugInfo)
        requires
            old(self).bounds_test_count + other.bounds_test_count <= usize::MAX,
            old(self).primitive_test_count + other.primitive_test_count <= usize::MAX,
        ensures
            final(self).bounds_test_count == old(self).bounds_test_count + other.bounds_test_count,
            final(self).primitive_test_count == old(self).primitive_test_count
                + other.primitive_test_count,
    {
        self.bounds_test_count = self.bounds_test_count + other.bounds_test_count;
        self.primitive_test_count = self.primitive_test_count + other.primitive_test_count;
    }
}

} // verus!
