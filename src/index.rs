use vstd::prelude::*;

verus! {

/// Every component of `c` lies in `[0, dims[i])`.
pub open spec fn in_bounds(c: Seq<i32>, dims: Seq<i32>) -> bool {
    &&& c.len() == dims.len()
    &&& forall|i: int| 0 <= i < c.len() ==> 0 <= #[trigger] c[i] < dims[i]
}

/// Product of `dims[lo..hi]`.
pub open spec fn span(dims: Seq<i32>, lo: int, hi: int) -> int
    decreases hi - lo,
{
    if hi <= lo {
        1
    } else {
        span(dims, lo, hi - 1) * dims[hi - 1]
    }
}

/// Number of cells of a grid with the given axis sizes.
pub open spec fn cell_count(dims: Seq<i32>) -> int {
    span(dims, 0, dims.len() as int)
}

/// Row-major offset of the first `n` components: `acc = acc * dims[i] + c[i]`.
pub open spec fn flat_upto(c: Seq<i32>, dims: Seq<i32>, n: int) -> int
    decreases n,
{
    if n <= 0 {
        0
    } else {
        flat_upto(c, dims, n - 1) * dims[n - 1] + c[n - 1]
    }
}

/// Row-major offset of a whole coordinate; the last axis varies fastest.
pub open spec fn flat(c: Seq<i32>, dims: Seq<i32>) -> int {
    flat_upto(c, dims, c.len() as int)
}

/// `sum_{i < k} c[i] * prod_{i < j < n} dims[j]`: the strided form of the offset.
pub open spec fn strided_sum(c: Seq<i32>, dims: Seq<i32>, k: int, n: int) -> int
    decreases k,
{
    if k <= 0 {
        0
    } else {
        strided_sum(c, dims, k - 1, n) + c[k - 1] * span(dims, k, n)
    }
}

/// `a` comes strictly before `b` in lexicographic order.
pub open spec fn lex_less(a: Seq<i32>, b: Seq<i32>) -> bool {
    exists|i: int|
        0 <= i < a.len() && i < b.len() && a[i] < b[i] && (forall|j: int|
            0 <= j < i ==> #[trigger] a[j] == b[j])
}

pub proof fn lemma_span_nonneg(dims: Seq<i32>, lo: int, hi: int)
    requires
        forall|i: int| lo <= i < hi ==> 0 <= #[trigger] dims[i],
    ensures
        span(dims, lo, hi) >= 0,
    decreases hi - lo,
{
    if hi > lo {
        lemma_span_nonneg(dims, lo, hi - 1);
        vstd::arithmetic::mul::lemma_mul_nonnegative(span(dims, lo, hi - 1), dims[hi - 1] as int);
    }
}

/// With all sizes at least one, a longer range has at least as many cells.
pub proof fn lemma_span_grows(dims: Seq<i32>, lo: int, mid: int, hi: int)
    requires
        lo <= mid <= hi,
        forall|i: int| lo <= i < hi ==> 1 <= #[trigger] dims[i],
    ensures
        span(dims, lo, mid) <= span(dims, lo, hi),
    decreases hi - mid,
{
    if mid < hi {
        lemma_span_grows(dims, lo, mid, hi - 1);
        lemma_span_nonneg(dims, lo, hi - 1);
        let s = span(dims, lo, hi - 1);
        let d = dims[hi - 1] as int;
        assert(s <= s * d) by (nonlinear_arith)
            requires
                s >= 0,
                d >= 1,
        ;
    }
}

/// An axis of size zero empties every range that covers it.
pub proof fn lemma_span_zero(dims: Seq<i32>, k: int, hi: int)
    requires
        0 <= k < hi,
        dims[k] == 0,
    ensures
        span(dims, 0, hi) == 0,
    decreases hi,
{
    if hi - 1 > k {
        lemma_span_zero(dims, k, hi - 1);
    }
}

/// In-bounds prefixes have offsets in `[0, span)`.
pub proof fn lemma_flat_upto_bounds(c: Seq<i32>, dims: Seq<i32>, n: int)
    requires
        0 <= n <= c.len(),
        in_bounds(c, dims),
    ensures
        0 <= flat_upto(c, dims, n) < span(dims, 0, n),
    decreases n,
{
    if n > 0 {
        lemma_flat_upto_bounds(c, dims, n - 1);
        let f = flat_upto(c, dims, n - 1);
        let s = span(dims, 0, n - 1);
        let d = dims[n - 1] as int;
        let x = c[n - 1] as int;
        assert(0 <= f * d + x < s * d) by (nonlinear_arith)
            requires
                0 <= f < s,
                0 <= x < d,
        ;
    }
}

/// Coordinates that agree on the first `n` components share the prefix offset.
pub proof fn lemma_flat_upto_prefix(a: Seq<i32>, b: Seq<i32>, dims: Seq<i32>, n: int)
    requires
        0 <= n <= a.len(),
        n <= b.len(),
        forall|j: int| 0 <= j < n ==> #[trigger] a[j] == b[j],
    ensures
        flat_upto(a, dims, n) == flat_upto(b, dims, n),
    decreases n,
{
    if n > 0 {
        lemma_flat_upto_prefix(a, b, dims, n - 1);
    }
}

/// Trailing zero components scale the prefix offset by the trailing axis sizes.
pub proof fn lemma_flat_upto_zeros(c: Seq<i32>, dims: Seq<i32>, i: int, n: int)
    requires
        0 <= i <= n <= c.len(),
        forall|j: int| i <= j < n ==> #[trigger] c[j] == 0,
    ensures
        flat_upto(c, dims, n) == flat_upto(c, dims, i) * span(dims, i, n),
    decreases n - i,
{
    if n > i {
        lemma_flat_upto_zeros(c, dims, i, n - 1);
        let f = flat_upto(c, dims, i);
        let s = span(dims, i, n - 1);
        let d = dims[n - 1] as int;
        assert((f * s) * d == f * (s * d)) by (nonlinear_arith);
    }
}

/// Trailing components at their maximum: one past the offset is the next
/// prefix offset, scaled by the trailing axis sizes.
pub proof fn lemma_flat_upto_maxed(c: Seq<i32>, dims: Seq<i32>, i: int, n: int)
    requires
        0 <= i <= n <= c.len(),
        n <= dims.len(),
        forall|j: int| i <= j < n ==> #[trigger] c[j] == dims[j] - 1,
    ensures
        flat_upto(c, dims, n) + 1 == (flat_upto(c, dims, i) + 1) * span(dims, i, n),
    decreases n - i,
{
    if n > i {
        lemma_flat_upto_maxed(c, dims, i, n - 1);
        let f = flat_upto(c, dims, i);
        let g = flat_upto(c, dims, n - 1);
        let s = span(dims, i, n - 1);
        let d = dims[n - 1] as int;
        assert(c[n - 1] == d - 1);
        assert(g * d + (d - 1) + 1 == (f + 1) * (s * d)) by (nonlinear_arith)
            requires
                g + 1 == (f + 1) * s,
        ;
    }
}

proof fn lemma_strided_scale(c: Seq<i32>, dims: Seq<i32>, k: int, n: int)
    requires
        0 <= k <= n,
    ensures
        strided_sum(c, dims, k, n + 1) == strided_sum(c, dims, k, n) * dims[n],
    decreases k,
{
    if k > 0 {
        lemma_strided_scale(c, dims, k - 1, n);
        let a = strided_sum(c, dims, k - 1, n);
        let x = c[k - 1] as int;
        let s = span(dims, k, n);
        let d = dims[n] as int;
        assert(span(dims, k, n + 1) == s * d);
        assert(a * d + x * (s * d) == (a + x * s) * d) by (nonlinear_arith);
    }
}

/// The accumulated offset equals the strided sum
/// `sum_i c[i] * prod_{j > i} dims[j]` over the first `n` axes.
pub proof fn lemma_flat_upto_strided(c: Seq<i32>, dims: Seq<i32>, n: int)
    requires
        0 <= n,
    ensures
        flat_upto(c, dims, n) == strided_sum(c, dims, n, n),
    decreases n,
{
    if n > 0 {
        lemma_flat_upto_strided(c, dims, n - 1);
        lemma_strided_scale(c, dims, n - 1, n - 1);
        assert(span(dims, n, n) == 1);
    }
}

/// If the first `n` components of `a` come lexicographically before those of
/// `b`, so does the prefix offset.
proof fn lemma_flat_upto_lex(a: Seq<i32>, b: Seq<i32>, dims: Seq<i32>, i: int, n: int)
    requires
        in_bounds(a, dims),
        in_bounds(b, dims),
        0 <= i < n <= a.len(),
        a[i] < b[i],
        forall|j: int| 0 <= j < i ==> #[trigger] a[j] == b[j],
    ensures
        flat_upto(a, dims, n) < flat_upto(b, dims, n),
    decreases n - i,
{
    if n == i + 1 {
        lemma_flat_upto_prefix(a, b, dims, i);
    } else {
        lemma_flat_upto_lex(a, b, dims, i, n - 1);
        let fa = flat_upto(a, dims, n - 1);
        let fb = flat_upto(b, dims, n - 1);
        let d = dims[n - 1] as int;
        let x = a[n - 1] as int;
        let y = b[n - 1] as int;
        assert(fa * d + x < fb * d + y) by (nonlinear_arith)
            requires
                fa < fb,
                0 <= x < d,
                0 <= y,
        ;
    }
}

/// Row-major flattening: for in-bounds coordinates the offset is the strided
/// sum `sum_i c[i] * prod_{j > i} dims[j]`, lies in `[0, cell_count)`, and
/// lexicographic order of coordinates is exactly the order of their offsets,
/// so distinct coordinates never share an offset.
pub proof fn lemma_row_major(a: Seq<i32>, b: Seq<i32>, dims: Seq<i32>)
    requires
        in_bounds(a, dims),
        in_bounds(b, dims),
    ensures
        flat(a, dims) == strided_sum(a, dims, a.len() as int, a.len() as int),
        0 <= flat(a, dims) < cell_count(dims),
        lex_less(a, b) <==> flat(a, dims) < flat(b, dims),
        a == b <==> flat(a, dims) == flat(b, dims),
{
    let n = a.len() as int;
    lemma_flat_upto_strided(a, dims, n);
    lemma_flat_upto_bounds(a, dims, n);
    if lex_less(a, b) {
        let i = choose|i: int|
            0 <= i < a.len() && i < b.len() && a[i] < b[i] && (forall|j: int|
                0 <= j < i ==> #[trigger] a[j] == b[j]);
        lemma_flat_upto_lex(a, b, dims, i, n);
    }
    if lex_less(b, a) {
        let i = choose|i: int|
            0 <= i < b.len() && i < a.len() && b[i] < a[i] && (forall|j: int|
                0 <= j < i ==> #[trigger] b[j] == a[j]);
        lemma_flat_upto_lex(b, a, dims, i, n);
    }
    if a != b {
        assert(!(a =~= b));
        let k = choose|k: int| 0 <= k < n && a[k] != b[k];
        lemma_first_difference(a, b, k);
    }
}

/// Two different sequences of one length differ first at some component.
proof fn lemma_first_difference(a: Seq<i32>, b: Seq<i32>, k: int)
    requires
        a.len() == b.len(),
        0 <= k < a.len(),
        a[k] != b[k],
    ensures
        lex_less(a, b) || lex_less(b, a),
    decreases k,
{
    if forall|j: int| 0 <= j < k ==> #[trigger] a[j] == b[j] {
        if a[k] < b[k] {
            assert(lex_less(a, b));
        } else {
            assert(lex_less(b, a));
        }
    } else {
        let j = choose|j: int| 0 <= j < k && a[j] != b[j];
        lemma_first_difference(a, b, j);
    }
}

/// Row-major offset of the components `c[i..n]` within their own block.
pub open spec fn flat_between(c: Seq<i32>, dims: Seq<i32>, i: int, n: int) -> int
    decreases n - i,
{
    if n <= i {
        0
    } else {
        flat_between(c, dims, i, n - 1) * dims[n - 1] + c[n - 1]
    }
}

/// Splitting an offset after axis `i`: the prefix offset scaled by the
/// trailing block size, plus an offset inside that block.
proof fn lemma_flat_upto_split(c: Seq<i32>, dims: Seq<i32>, i: int, n: int)
    requires
        in_bounds(c, dims),
        0 <= i <= n <= c.len(),
    ensures
        flat_upto(c, dims, n) == flat_upto(c, dims, i) * span(dims, i, n) + flat_between(
            c,
            dims,
            i,
            n,
        ),
        0 <= flat_between(c, dims, i, n) < span(dims, i, n),
    decreases n - i,
{
    if n > i {
        lemma_flat_upto_split(c, dims, i, n - 1);
        let f = flat_upto(c, dims, i);
        let s = span(dims, i, n - 1);
        let b = flat_between(c, dims, i, n - 1);
        let d = dims[n - 1] as int;
        let x = c[n - 1] as int;
        assert(0 <= x < d);
        assert((f * s + b) * d + x == f * (s * d) + (b * d + x)) by (nonlinear_arith);
        assert(0 <= b * d + x < s * d) by (nonlinear_arith)
            requires
                0 <= b < s,
                0 <= x < d,
        ;
    }
}

/// Offsets round-trip: each component of an in-bounds coordinate is its
/// offset divided by the product of the later axis sizes, modulo its own
/// axis size.
pub proof fn lemma_offset_round_trip(c: Seq<i32>, dims: Seq<i32>)
    requires
        in_bounds(c, dims),
    ensures
        forall|k: int|
            0 <= k < c.len() ==> #[trigger] c[k] == (flat(c, dims) / span(
                dims,
                k + 1,
                c.len() as int,
            )) % (dims[k] as int),
{
    let n = c.len() as int;
    assert forall|k: int| 0 <= k < n implies #[trigger] c[k] == (flat(c, dims) / span(
        dims,
        k + 1,
        n,
    )) % (dims[k] as int) by {
        assert forall|j: int| k + 1 <= j < n implies 1 <= #[trigger] dims[j] by {
            assert(0 <= c[j] < dims[j]);
        }
        lemma_span_grows(dims, k + 1, k + 1, n);
        lemma_flat_upto_split(c, dims, k + 1, n);
        let q = flat_upto(c, dims, k + 1);
        vstd::arithmetic::div_mod::lemma_fundamental_div_mod_converse(
            flat(c, dims),
            span(dims, k + 1, n),
            q,
            flat_between(c, dims, k + 1, n),
        );
        assert(0 <= c[k] < dims[k]);
        lemma_flat_upto_bounds(c, dims, k);
        vstd::arithmetic::div_mod::lemma_fundamental_div_mod_converse(
            q,
            dims[k] as int,
            flat_upto(c, dims, k),
            c[k] as int,
        );
    }
}

} // verus!
