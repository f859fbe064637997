use vstd::prelude::*;

verus! {

/// A cell index in `D`-dimensional index space. Components may lie outside
/// any grid; validity is decided where a grid is accessed.
#[derive(Clone, Copy, Debug)]
pub struct CoordInt<const D: usize>(pub [i32; D]);

impl<const D: usize> Default for CoordInt<D> {
    /// The index-space origin.
    fn default() -> (r: Self)
        ensures
            forall|i: int| 0 <= i < D ==> r.0@[i] == 0,
    {
        CoordInt([0i32; D])
    }
}

/// Message of the error for a count sequence whose length is not `D`.
pub const SIZE_MISMATCH: &'static str = "Size mismatch";

impl<const D: usize> CoordInt<D> {
    /// Builds a coordinate from unsigned counts, one per axis; each count is
    /// taken as `i32` the way `as` converts it.
    pub fn from_counts(counts: Vec<usize>) -> (r: Result<CoordInt<D>, &'static str>)
        ensures
            counts@.len() == D <==> r is Ok,
            r is Ok ==> forall|i: int| 0 <= i < D ==> r->Ok_0.0@[i] == counts@[i] as i32,
            r is Err ==> r->Err_0 == SIZE_MISMATCH,
    {
        if counts.len() != D {
            return Err(SIZE_MISMATCH);
        }
        let mut arr = [0i32; D];
        let mut i: usize = 0;
        while i < D
            invariant
                i <= D,
                counts@.len() == D,
                forall|j: int| 0 <= j < i ==> arr@[j] == counts@[j] as i32,
            decreases D - i,
        {
            arr[i] = counts[i] as i32;
            i += 1;
        }
        Ok(CoordInt(arr))
    }

    /// This coordinate moved by `step` along `axis`.
    pub fn shifted(&self, axis: usize, step: i32) -> (r: CoordInt<D>)
        requires
            axis < D,
            i32::MIN <= self.0@[axis as int] + step <= i32::MAX,
        ensures
            r.0@ == self.0@.update(axis as int, (self.0@[axis as int] + step) as i32),
    {
        let mut arr = self.0;
        arr[axis] = self.0[axis] + step;
        CoordInt(arr)
    }
}

} // verus!
