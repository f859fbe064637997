use vstd::prelude::*;

use crate::coord::CoordInt;
use crate::grid::Grid;
use crate::index::{cell_count, flat, flat_upto, in_bounds, lex_less, span};
use crate::index::{
    lemma_flat_upto_bounds, lemma_flat_upto_maxed, lemma_flat_upto_prefix, lemma_flat_upto_zeros,
    lemma_row_major, lemma_span_zero,
};

verus! {

/// A single pass over every cell of a grid in row-major order (last axis
/// fastest), driven by an odometer over the coordinate.
pub struct GridIter<'a, T, S, const D: usize> {
    grid: &'a Grid<T, S, D>,
    coord: CoordInt<D>,
    start: bool,
    done: bool,
}

impl<'a, T, S, const D: usize> GridIter<'a, T, S, D> {
    /// The grid being swept.
    pub closed spec fn source(&self) -> Grid<T, S, D> {
        *self.grid
    }

    /// How many cells have been handed out so far.
    pub closed spec fn consumed(&self) -> int {
        if !self.start {
            0
        } else if self.done {
            cell_count(self.grid.dims())
        } else {
            flat(self.coord.0@, self.grid.dims()) + 1
        }
    }

    pub closed spec fn wf(&self) -> bool {
        &&& self.grid.wf()
        &&& !self.start ==> !self.done && forall|i: int|
            0 <= i < D ==> #[trigger] self.coord.0@[i] == 0
        &&& self.start && !self.done ==> in_bounds(self.coord.0@, self.grid.dims())
    }

    /// The next cell and its value; after the last cell, nothing, for good.
    pub fn next(&mut self) -> (r: Option<(CoordInt<D>, &'a T)>)
        requires
            old(self).wf(),
        ensures
            final(self).wf(),
            final(self).source() == old(self).source(),
            old(self).consumed() < cell_count(old(self).source().dims()) ==> {
                &&& r is Some
                &&& in_bounds(r->Some_0.0.0@, old(self).source().dims())
                &&& flat(r->Some_0.0.0@, old(self).source().dims()) == old(self).consumed()
                &&& *r->Some_0.1 == old(self).source().cells()[old(self).consumed()]
                &&& final(self).consumed() == old(self).consumed() + 1
            },
            old(self).consumed() >= cell_count(old(self).source().dims()) ==> {
                &&& r is None
                &&& final(self).consumed() == cell_count(old(self).source().dims())
            },
    {
        let ghost dims = self.grid.dims();
        proof {
            self.grid.lemma_dims_len();
            self.lemma_consumed_bounded();
        }
        if self.done {
            return None;
        }
        if !self.start {
            self.start = true;
            match self.grid.get(&self.coord) {
                Some(v) => {
                    proof {
                        lemma_flat_upto_zeros(self.coord.0@, dims, 0, D as int);
                        lemma_flat_upto_bounds(self.coord.0@, dims, D as int);
                    }
                    return Some((self.coord, v));
                },
                None => {
                    proof {
                        let j = choose|j: int|
                            0 <= j < D && !(0 <= #[trigger] self.coord.0@[j] < dims[j]);
                        lemma_span_zero(dims, j, D as int);
                    }
                    self.done = true;
                    return None;
                },
            }
        }
        let ghost c0 = self.coord.0@;
        let size = self.grid.size();
        let mut arr = self.coord.0;
        let mut i: usize = D;
        loop
            invariant
                i <= D,
                self.grid == old(self).grid,
                self.grid.wf(),
                dims == self.grid.dims(),
                size.0@ == dims,
                dims.len() == D,
                self.start,
                !self.done,
                self.coord.0@ == c0,
                old(self).coord.0@ == c0,
                old(self).start,
                !old(self).done,
                in_bounds(c0, dims),
                arr@.len() == D,
                forall|j: int| 0 <= j < i ==> #[trigger] arr@[j] == c0[j],
                forall|j: int| i <= j < D ==> #[trigger] arr@[j] == 0,
                forall|j: int| i <= j < D ==> #[trigger] c0[j] == dims[j] - 1,
            decreases i,
        {
            if i == 0 {
                proof {
                    lemma_flat_upto_maxed(c0, dims, 0, D as int);
                    let f0 = flat_upto(c0, dims, 0);
                    let sp = span(dims, 0, D as int);
                    assert(f0 == 0);
                    assert(flat_upto(c0, dims, D as int) + 1 == (f0 + 1) * sp);
                    assert((f0 + 1) * sp == sp) by (nonlinear_arith)
                        requires
                            f0 == 0,
                    ;
                    assert(flat(c0, dims) + 1 == cell_count(dims));
                }
                self.done = true;
                return None;
            }
            i -= 1;
            assert(0 <= c0[i as int] < dims[i as int]);
            if arr[i] + 1 < size.0[i] {
                let ghost before = arr@;
                assert forall|j: int| i + 1 <= j < D implies #[trigger] before[j] == 0 by {}
                arr[i] = arr[i] + 1;
                self.coord = CoordInt(arr);
                proof {
                    let a = i as int;
                    let c = arr@;
                    assert(in_bounds(c, dims)) by {
                        assert forall|j: int| 0 <= j < D implies 0 <= #[trigger] c[j] < dims[j] by {
                            assert(0 <= c0[j] < dims[j]);
                        }
                    }
                    assert forall|j: int| a + 1 <= j < D implies #[trigger] c[j] == 0 by {
                        assert(c[j] == before[j]);
                    }
                    assert forall|j: int| 0 <= j < a implies #[trigger] c[j] == c0[j] by {}
                    lemma_flat_upto_zeros(c, dims, a + 1, D as int);
                    lemma_flat_upto_prefix(c, c0, dims, a);
                    lemma_flat_upto_maxed(c0, dims, a + 1, D as int);
                    assert(flat_upto(c, dims, a + 1) == flat_upto(c0, dims, a + 1) + 1);
                    assert(flat(c, dims) == flat(c0, dims) + 1);
                    lemma_flat_upto_bounds(c, dims, D as int);
                }
                let v = self.grid.get(&self.coord);
                return match v {
                    Some(v) => Some((self.coord, v)),
                    None => None,
                };
            }
            arr[i] = 0;
        }
    }

    proof fn lemma_consumed_bounded(&self)
        requires
            self.wf(),
        ensures
            0 <= self.consumed() <= cell_count(self.grid.dims()),
    {
        let dims = self.grid.dims();
        self.grid.lemma_dims_len();
        if self.start && !self.done {
            lemma_flat_upto_bounds(self.coord.0@, dims, D as int);
        }
        if !self.start {
            crate::index::lemma_span_nonneg(dims, 0, D as int);
        }
    }
}

/// A full sweep: when the `k`-th item handed out is the in-bounds coordinate
/// with offset `k` (as `GridIter::next` promises) for every `k` below the cell
/// count, every in-bounds coordinate is handed out exactly once, and the items
/// come in strictly increasing lexicographic (row-major) order.
pub proof fn lemma_sweep_complete(dims: Seq<i32>, items: Seq<Seq<i32>>)
    requires
        items.len() == cell_count(dims),
        forall|k: int|
            0 <= k < items.len() ==> in_bounds(#[trigger] items[k], dims) && flat(items[k], dims)
                == k,
    ensures
        forall|c: Seq<i32>|
            in_bounds(c, dims) ==> {
                &&& 0 <= #[trigger] flat(c, dims) < items.len()
                &&& items[flat(c, dims)] == c
            },
        forall|k: int, l: int|
            0 <= k < items.len() && 0 <= l < items.len() && #[trigger] items[k] == #[trigger] items[l]
                ==> k == l,
        forall|k: int, l: int|
            0 <= k < l < items.len() ==> lex_less(#[trigger] items[k], #[trigger] items[l]),
{
    assert forall|c: Seq<i32>| in_bounds(c, dims) implies {
        &&& 0 <= #[trigger] flat(c, dims) < items.len()
        &&& items[flat(c, dims)] == c
    } by {
        lemma_row_major(c, c, dims);
        let k = flat(c, dims);
        lemma_row_major(items[k], c, dims);
    }
    assert forall|k: int, l: int| 0 <= k < l < items.len() implies lex_less(
        #[trigger] items[k],
        #[trigger] items[l],
    ) by {
        lemma_row_major(items[k], items[l], dims);
    }
}

impl<T, S, const D: usize> Grid<T, S, D> {
    /// A fresh sweep over every cell, starting at the origin.
    pub fn into_iter(&self) -> (r: GridIter<'_, T, S, D>)
        requires
            self.wf(),
        ensures
            r.wf(),
            r.source() == *self,
            r.consumed() == 0,
    {
        GridIter { grid: self, coord: CoordInt::default(), start: false, done: false }
    }

    /// Runs a fresh sweep to its end and collects what it hands out: exactly
    /// one item per cell before the sweep ends, the `k`-th being the cell at
    /// offset `k` with its value, so every in-bounds coordinate comes exactly
    /// once and in strictly increasing row-major order.
    pub fn sweep(&self) -> (r: Vec<(CoordInt<D>, &T)>)
        requires
            self.wf(),
        ensures
            r@.len() == cell_count(self.dims()),
            forall|k: int|
                0 <= k < r@.len() ==> {
                    &&& in_bounds(#[trigger] r@[k].0.0@, self.dims())
                    &&& flat(r@[k].0.0@, self.dims()) == k
                    &&& *r@[k].1 == self.cells()[k]
                },
            forall|c: Seq<i32>|
                in_bounds(c, self.dims()) ==> {
                    &&& 0 <= #[trigger] flat(c, self.dims()) < r@.len()
                    &&& r@[flat(c, self.dims())].0.0@ == c
                },
            forall|k: int, l: int|
                0 <= k < r@.len() && 0 <= l < r@.len() && #[trigger] r@[k].0.0@ == #[trigger] r@[l].0.0@
                    ==> k == l,
            forall|k: int, l: int|
                0 <= k < l < r@.len() ==> lex_less(#[trigger] r@[k].0.0@, #[trigger] r@[l].0.0@),
    {
        let ghost dims = self.dims();
        let ghost n = cell_count(dims);
        let mut it = self.into_iter();
        let mut out: Vec<(CoordInt<D>, &T)> = Vec::new();
        loop
            invariant
                self.wf(),
                dims == self.dims(),
                n == cell_count(dims),
                it.wf(),
                it.source() == *self,
                it.consumed() == out@.len(),
                out@.len() <= n,
                forall|k: int|
                    0 <= k < out@.len() ==> {
                        &&& in_bounds(#[trigger] out@[k].0.0@, dims)
                        &&& flat(out@[k].0.0@, dims) == k
                        &&& *out@[k].1 == self.cells()[k]
                    },
            ensures
                out@.len() == n,
                forall|k: int|
                    0 <= k < out@.len() ==> {
                        &&& in_bounds(#[trigger] out@[k].0.0@, dims)
                        &&& flat(out@[k].0.0@, dims) == k
                        &&& *out@[k].1 == self.cells()[k]
                    },
            decreases n - it.consumed(),
        {
            match it.next() {
                Some(item) => {
                    out.push(item);
                },
                None => {
                    break ;
                },
            }
        }
        let ghost coords = out@.map_values(|p: (CoordInt<D>, &T)| p.0.0@);
        proof {
            assert forall|k: int| 0 <= k < coords.len() implies in_bounds(#[trigger] coords[k], dims)
                && flat(coords[k], dims) == k by {
                assert(coords[k] == out@[k].0.0@);
            }
            lemma_sweep_complete(dims, coords);
            assert forall|c: Seq<i32>| in_bounds(c, dims) implies {
                &&& 0 <= #[trigger] flat(c, dims) < out@.len()
                &&& out@[flat(c, dims)].0.0@ == c
            } by {
                assert(coords[flat(c, dims)] == out@[flat(c, dims)].0.0@);
            }
            assert forall|k: int, l: int|
                0 <= k < out@.len() && 0 <= l < out@.len() && #[trigger] out@[k].0.0@
                    == #[trigger] out@[l].0.0@ implies k == l by {
                assert(coords[k] == out@[k].0.0@);
                assert(coords[l] == out@[l].0.0@);
            }
            assert forall|k: int, l: int| 0 <= k < l < out@.len() implies lex_less(
                #[trigger] out@[k].0.0@,
                #[trigger] out@[l].0.0@,
            ) by {
                assert(coords[k] == out@[k].0.0@);
                assert(coords[l] == out@[l].0.0@);
            }
        }
        out
    }
}

} // verus!
