use vstd::prelude::*;

use crate::coord::CoordInt;
use crate::index::{cell_count, flat, flat_upto, in_bounds, span};
use crate::index::{lemma_flat_upto_bounds, lemma_row_major, lemma_span_grows, lemma_span_zero};

verus! {

/// Every axis size is non-negative.
pub open spec fn sizes_valid(dims: Seq<i32>) -> bool {
    forall|i: int| 0 <= i < dims.len() ==> 0 <= #[trigger] dims[i]
}

/// Number of cells of a grid with the given axis sizes.
pub fn capacity<const D: usize>(size: &CoordInt<D>) -> (r: usize)
    requires
        sizes_valid(size.0@),
        cell_count(size.0@) <= usize::MAX,
    ensures
        r == cell_count(size.0@),
{
    let ghost dims = size.0@;
    let mut k: usize = 0;
    while k < D
        invariant
            k <= D,
            dims == size.0@,
            dims.len() == D,
            forall|j: int| 0 <= j < k ==> dims[j] != 0,
        decreases D - k,
    {
        if size.0[k] == 0 {
            proof {
                lemma_span_zero(dims, k as int, D as int);
            }
            return 0;
        }
        k += 1;
    }
    let mut acc: usize = 1;
    let mut i: usize = 0;
    while i < D
        invariant
            i <= D,
            dims == size.0@,
            dims.len() == D,
            sizes_valid(dims),
            forall|j: int| 0 <= j < D ==> dims[j] != 0,
            cell_count(dims) <= usize::MAX,
            acc == span(dims, 0, i as int),
        decreases D - i,
    {
        proof {
            lemma_span_grows(dims, 0, i + 1, D as int);
        }
        acc = acc * (size.0[i] as usize);
        i += 1;
    }
    acc
}

/// Reading back after a write: once `v` is stored at the in-bounds
/// coordinate `c` (as `get_mut` does), every in-bounds coordinate `d` reads
/// `v` if it is `c` and its previous value otherwise.
pub proof fn lemma_store_then_read<T, S, const D: usize>(
    before: Grid<T, S, D>,
    after: Grid<T, S, D>,
    c: Seq<i32>,
    d: Seq<i32>,
    v: T,
)
    requires
        before.wf(),
        in_bounds(c, before.dims()),
        in_bounds(d, before.dims()),
        after.dims() == before.dims(),
        after.cells() == before.cells().update(flat(c, before.dims()), v),
    ensures
        after.value_at(d) == if d == c {
            v
        } else {
            before.value_at(d)
        },
{
    lemma_row_major(c, d, before.dims());
    lemma_row_major(d, c, before.dims());
}

/// Cells after storing each `(coordinate, value)` of `writes`, in order.
pub open spec fn after_writes<T>(cells: Seq<T>, dims: Seq<i32>, writes: Seq<(Seq<i32>, T)>) -> Seq<
    T,
>
    decreases writes.len(),
{
    if writes.len() == 0 {
        cells
    } else {
        after_writes(cells, dims, writes.drop_last()).update(
            flat(writes.last().0, dims),
            writes.last().1,
        )
    }
}

proof fn lemma_after_writes_keep<T>(
    cells: Seq<T>,
    dims: Seq<i32>,
    writes: Seq<(Seq<i32>, T)>,
    c: Seq<i32>,
)
    requires
        cells.len() == cell_count(dims),
        in_bounds(c, dims),
        forall|k: int|
            0 <= k < writes.len() ==> in_bounds(#[trigger] writes[k].0, dims) && writes[k].0 != c,
    ensures
        after_writes(cells, dims, writes).len() == cells.len(),
        after_writes(cells, dims, writes)[flat(c, dims)] == cells[flat(c, dims)],
    decreases writes.len(),
{
    if writes.len() > 0 {
        let rest = writes.drop_last();
        assert forall|k: int| 0 <= k < rest.len() implies in_bounds(#[trigger] rest[k].0, dims)
            && rest[k].0 != c by {
            assert(rest[k] == writes[k]);
        }
        lemma_after_writes_keep(cells, dims, rest, c);
        let w = writes[writes.len() - 1].0;
        lemma_row_major(w, c, dims);
        lemma_row_major(c, c, dims);
    }
}

/// Reading back after later writes: once `v` is stored at the in-bounds
/// coordinate `c`, any number of later writes to other in-bounds coordinates
/// leave `v` to be read at `c`.
pub proof fn lemma_read_back<T, S, const D: usize>(
    before: Grid<T, S, D>,
    c: Seq<i32>,
    v: T,
    writes: Seq<(Seq<i32>, T)>,
    after: Grid<T, S, D>,
)
    requires
        before.wf(),
        in_bounds(c, before.dims()),
        forall|k: int|
            0 <= k < writes.len() ==> in_bounds(#[trigger] writes[k].0, before.dims())
                && writes[k].0 != c,
        after.dims() == before.dims(),
        after.cells() == after_writes(
            before.cells().update(flat(c, before.dims()), v),
            before.dims(),
            writes,
        ),
    ensures
        after.value_at(c) == v,
{
    let dims = before.dims();
    lemma_row_major(c, c, dims);
    lemma_after_writes_keep(before.cells().update(flat(c, dims), v), dims, writes, c);
}

/// Whether bit `axis` of `corner` is set.
pub open spec fn axis_bit_set(corner: usize, axis: usize) -> bool {
    (corner >> axis) & 1usize == 1usize
}

/// The corner of the cell at `lower` picked by the bits of `corner`.
pub open spec fn corner_coord(lower: Seq<i32>, corner: usize) -> Seq<i32> {
    Seq::new(
        lower.len(),
        |j: int|
            if axis_bit_set(corner, j as usize) {
                (lower[j] + 1) as i32
            } else {
                lower[j]
            },
    )
}

/// `lower` is a valid lower corner of an interpolation cell: both cells of
/// every axis lie inside the grid.
pub open spec fn lower_corner_valid(lower: Seq<i32>, dims: Seq<i32>) -> bool {
    &&& lower.len() == dims.len()
    &&& forall|i: int| 0 <= i < lower.len() ==> 0 <= #[trigger] lower[i] && lower[i] + 2 <= dims[i]
}

/// Whether bit `axis` of `corner` is set: whether that corner of an
/// interpolation cell lies one cell up along `axis`.
pub fn corner_bit(corner: usize, axis: usize) -> (r: bool)
    requires
        axis < usize::BITS,
    ensures
        r == axis_bit_set(corner, axis),
{
    (corner >> axis) & 1usize == 1usize
}

/// A field sampled on a `D`-dimensional grid of cells, stored row-major
/// (last axis fastest), with spacing `delta` shared by every axis.
pub struct Grid<T, S, const D: usize> {
    vec: Vec<T>,
    size: CoordInt<D>,
    delta: S,
}

impl<T, S, const D: usize> Grid<T, S, D> {
    /// Cell count of each axis.
    pub closed spec fn dims(&self) -> Seq<i32> {
        self.size.0@
    }

    /// Cell values in storage order.
    pub closed spec fn cells(&self) -> Seq<T> {
        self.vec@
    }

    /// Physical spacing between adjacent cells.
    pub closed spec fn spacing(&self) -> S {
        self.delta
    }

    /// Storage holds exactly one value per cell.
    pub open spec fn wf(&self) -> bool {
        &&& sizes_valid(self.dims())
        &&& self.cells().len() == cell_count(self.dims())
    }

    /// Value stored for coordinate `c`.
    pub open spec fn value_at(&self, c: Seq<i32>) -> T {
        self.cells()[flat(c, self.dims())]
    }

    /// Value used for the stencil neighbour `step` cells from `c` along
    /// `axis`: the neighbour's own value, or the value at `c` where the
    /// neighbour lies outside the grid.
    pub open spec fn stencil_value(&self, c: Seq<i32>, axis: int, step: int) -> T {
        let n = c.update(axis, (c[axis] + step) as i32);
        if in_bounds(n, self.dims()) {
            self.value_at(n)
        } else {
            self.value_at(c)
        }
    }

    /// Value at the corner of the interpolation cell at `lower` picked by the
    /// bits of `corner`: bit `j` set means one cell up along axis `j`.
    pub open spec fn corner_value(&self, lower: Seq<i32>, corner: usize) -> T {
        self.value_at(corner_coord(lower, corner))
    }

    /// One size per axis.
    pub proof fn lemma_dims_len(&self)
        ensures
            self.dims().len() == D,
    {
    }

    /// Axis sizes the grid was made with.
    pub fn size(&self) -> (r: &CoordInt<D>)
        ensures
            r.0@ == self.dims(),
    {
        &self.size
    }

    /// Spacing the grid was made with.
    pub fn delta(&self) -> (r: &S)
        ensures
            *r == self.spacing(),
    {
        &self.delta
    }

    /// Offset of an in-bounds coordinate in storage.
    pub fn flatten_index(&self, index: &CoordInt<D>) -> (r: usize)
        requires
            self.wf(),
            in_bounds(index.0@, self.dims()),
        ensures
            r == flat(index.0@, self.dims()),
            r < self.cells().len(),
    {
        let ghost c = index.0@;
        let ghost dims = self.dims();
        proof {
            lemma_flat_upto_bounds(c, dims, D as int);
        }
        let len = self.vec.len();
        let mut acc: usize = 0;
        let mut i: usize = 0;
        while i < D
            invariant
                i <= D,
                self.wf(),
                len == self.cells().len(),
                c == index.0@,
                dims == self.dims(),
                c.len() == D,
                in_bounds(c, dims),
                acc == flat_upto(c, dims, i as int),
            decreases D - i,
        {
            proof {
                assert forall|j: int| 0 <= j < D implies 1 <= #[trigger] dims[j] by {
                    assert(0 <= c[j] < dims[j]);
                }
                lemma_flat_upto_bounds(c, dims, i + 1);
                lemma_span_grows(dims, 0, i + 1, D as int);
                assert(flat_upto(c, dims, i + 1) == acc * dims[i as int] + c[i as int]);
                assert(cell_count(dims) == span(dims, 0, D as int));
                assert(0 <= c[i as int]);
            }
            acc = acc * (self.size.0[i] as usize) + (index.0[i] as usize);
            i += 1;
        }
        acc
    }

    /// Whether every component of `index` lies inside the grid.
    pub fn contains(&self, index: &CoordInt<D>) -> (r: bool)
        ensures
            r == in_bounds(index.0@, self.dims()),
    {
        let mut i: usize = 0;
        while i < D
            invariant
                i <= D,
                index.0@.len() == D,
                self.dims().len() == D,
                forall|j: int| 0 <= j < i ==> 0 <= #[trigger] index.0@[j] < self.dims()[j],
            decreases D - i,
        {
            if index.0[i] < 0 || index.0[i] >= self.size.0[i] {
                return false;
            }
            i += 1;
        }
        true
    }

    /// The value at `index`, or nothing when `index` lies outside the grid.
    pub fn get(&self, index: &CoordInt<D>) -> (r: Option<&T>)
        requires
            self.wf(),
        ensures
            r is Some <==> in_bounds(index.0@, self.dims()),
            r is Some ==> *r->Some_0 == self.value_at(index.0@),
    {
        if self.contains(index) {
            let k = self.flatten_index(index);
            Some(&self.vec[k])
        } else {
            None
        }
    }

    /// Write access to the one cell at `index`, or nothing when `index` lies
    /// outside the grid.
    pub fn get_mut(&mut self, index: &CoordInt<D>) -> (r: Option<&mut T>)
        requires
            old(self).wf(),
        ensures
            r is Some <==> in_bounds(index.0@, old(self).dims()),
            r is None ==> *final(self) == *old(self),
            r is Some ==> *r->Some_0 == old(self).value_at(index.0@),
            r is Some ==> final(self).cells() == old(self).cells().update(
                flat(index.0@, old(self).dims()),
                *final(r->Some_0),
            ),
            final(self).dims() == old(self).dims(),
            final(self).spacing() == old(self).spacing(),
            final(self).wf(),
    {
        if self.contains(index) {
            let k = self.flatten_index(index);
            Some(&mut self.vec[k])
        } else {
            None
        }
    }
}

impl<T: Default + Clone, S, const D: usize> Grid<T, S, D> {
    /// A grid of the given axis sizes and spacing, every cell holding
    /// `T::default()`.
    pub fn new(size: CoordInt<D>, delta: S) -> (r: Self)
        requires
            sizes_valid(size.0@),
            cell_count(size.0@) <= usize::MAX,
        ensures
            r.wf(),
            r.dims() == size.0@,
            r.spacing() == delta,
            exists|d: T|
                call_ensures(T::default, (), d) && forall|i: int|
                    0 <= i < r.cells().len() ==> cloned(d, #[trigger] r.cells()[i]),
    {
        let n = capacity(&size);
        let d = T::default();
        Grid { vec: vec![d; n], size, delta }
    }
}

impl<T, S, const D: usize> Grid<T, S, D> {
    /// The stencil value next to `center` along `axis`, one cell forward or
    /// backward; where that neighbour lies outside the grid the center's own
    /// value stands in for it.
    pub fn neighbor(&self, center: &CoordInt<D>, axis: usize, forward: bool) -> (r: &T)
        requires
            self.wf(),
            in_bounds(center.0@, self.dims()),
            axis < D,
        ensures
            *r == self.stencil_value(center.0@, axis as int, if forward { 1 } else { -1 }),
    {
        let step: i32 = if forward { 1 } else { -1 };
        let n = center.shifted(axis, step);
        match self.get(&n) {
            Some(v) => v,
            None => {
                let k = self.flatten_index(center);
                &self.vec[k]
            },
        }
    }

    /// Lower-corner index along `axis` of the interpolation cell for the
    /// whole-cell position `cell`, clamped so that both cells of the axis lie
    /// inside the grid.
    pub fn lower_corner(&self, axis: usize, cell: i64) -> (r: i32)
        requires
            self.wf(),
            axis < D,
            self.dims()[axis as int] >= 2,
        ensures
            r as int == if cell < 0 {
                0
            } else if cell > self.dims()[axis as int] - 2 {
                self.dims()[axis as int] - 2
            } else {
                cell as int
            },
    {
        let top = self.size.0[axis] - 2;
        if cell < 0 {
            0
        } else if cell > top as i64 {
            top
        } else {
            cell as i32
        }
    }

    /// Value at the corner of the interpolation cell at `lower` picked by
    /// the bits of `corner` (bit `j` set: one cell up along axis `j`).
    pub fn interpolation_corner(&self, lower: &CoordInt<D>, corner: usize) -> (r: &T)
        requires
            self.wf(),
            D <= usize::BITS,
            lower_corner_valid(lower.0@, self.dims()),
        ensures
            *r == self.corner_value(lower.0@, corner),
    {
        let mut arr = lower.0;
        let mut j: usize = 0;
        while j < D
            invariant
                j <= D,
                D <= usize::BITS,
                arr@.len() == D,
                lower.0@.len() == D,
                lower_corner_valid(lower.0@, self.dims()),
                forall|i: int| 0 <= i < j ==> arr@[i] == corner_coord(lower.0@, corner)[i],
                forall|i: int| j <= i < D ==> arr@[i] == lower.0@[i],
            decreases D - j,
        {
            if corner_bit(corner, j) {
                arr[j] = lower.0[j] + 1;
            }
            j += 1;
        }
        let c = CoordInt(arr);
        proof {
            assert(c.0@ =~= corner_coord(lower.0@, corner));
        }
        let k = self.flatten_index(&c);
        &self.vec[k]
    }
}

} // verus!
