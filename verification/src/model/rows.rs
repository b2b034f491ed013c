//! What the parts of a layer make of a row does not depend on the rows beside it.
use crate::model::layer_norm::LayerNorm;
use crate::model::linear::{lemma_linear_result_wf, Linear};
use crate::model::mlp::Mlp;
use crate::ops::activation::gated;
use crate::ops::elementwise::{added, combined, lemma_combine_each_len, lemma_combined_rows};
use crate::ops::incremental::{stackable, stacked};
use crate::ops::normalize::normalized;
use crate::ops::product::{left_row, lemma_product_entry, product};
use crate::ops::softmax::row_of;
use crate::scalar::Scalar;
use crate::shape::{lemma_count_2, lemma_place_2, lemma_unplace_2};
use crate::tensor::{zeros, Array};
use vstd::prelude::*;

verus! {

/// Where an element of two stacked matrices stands in the one that it comes from.
pub proof fn lemma_stacked_place(m: int, k: int, n: int, p: int)
    requires
        0 <= m,
        0 <= k,
        0 <= p < (m + k) * n,
    ensures
        n > 0,
        0 <= p / n < m + k,
        0 <= p % n < n,
        p == p / n * n + p % n,
        p < m * n <==> p / n < m,
        p / n >= m ==> {
            &&& 0 <= p - m * n < k * n
            &&& (p - m * n) / n == p / n - m
            &&& (p - m * n) % n == p % n
        },
{
    assert(n > 0) by (nonlinear_arith)
        requires
            0 <= m,
            0 <= k,
            0 <= p < (m + k) * n,
    ;
    lemma_unplace_2(p, m + k, n);
    let i = p / n;
    let j = p % n;
    assert((p < m * n <==> i < m) && (i >= m ==> p - m * n == (i - m) * n + j)) by (nonlinear_arith)
        requires
            p == i * n + j,
            0 <= j < n,
    ;
    if i >= m {
        lemma_place_2(i - m, j, k, n);
    }
}

/// A row of two stacked matrices is a row of the one that it comes from.
proof fn lemma_stacked_row<S>(a: Array<S>, b: Array<S>, i: int)
    requires
        stackable(a, b),
        0 <= i < a.dims[0] + b.dims[0],
    ensures
        ({
            let n = a.dims[1] as int;
            let m = a.dims[0] as int;
            row_of(stacked(a, b).elems, n, i) == if i < m {
                row_of(a.elems, n, i)
            } else {
                row_of(b.elems, n, i - m)
            }
        }),
{
    let n = a.dims[1] as int;
    let m = a.dims[0] as int;
    lemma_count_2(a.dims);
    lemma_count_2(b.dims);
    if i < m {
        assert(0 <= i * n <= (i + 1) * n <= m * n) by (nonlinear_arith)
            requires
                0 <= i < m,
                0 <= n,
        ;
        assert(row_of(stacked(a, b).elems, n, i) =~= row_of(a.elems, n, i));
    } else {
        let k = b.dims[0] as int;
        assert(0 <= (i - m) * n <= (i - m + 1) * n <= k * n && i * n == m * n + (i - m) * n && (i
            + 1) * n == m * n + (i - m + 1) * n) by (nonlinear_arith)
            requires
                0 <= m <= i < m + k,
                0 <= n,
        ;
        assert(row_of(stacked(a, b).elems, n, i) =~= row_of(b.elems, n, i - m));
    }
}

/// Normalising works row by row.
pub proof fn lemma_normalized_by_rows<S: Scalar>(a: Array<S>, b: Array<S>, epsilon: S)
    requires
        stackable(a, b),
    ensures
        normalized(stacked(a, b), epsilon) == stacked(
            normalized(a, epsilon),
            normalized(b, epsilon),
        ),
{
    let n = a.dims[1] as int;
    let m = a.dims[0] as int;
    let k = b.dims[0] as int;
    lemma_count_2(a.dims);
    lemma_count_2(b.dims);
    let left = normalized(stacked(a, b), epsilon);
    let right = stacked(normalized(a, epsilon), normalized(b, epsilon));
    assert(m * n + k * n == (m + k) * n) by (nonlinear_arith);
    assert forall|p: int| 0 <= p < left.elems.len() implies #[trigger] left.elems[p]
        == right.elems[p] by {
        lemma_stacked_place(m, k, n, p);
        lemma_stacked_row(a, b, p / n);
    }
    assert(left.elems =~= right.elems);
}

/// The activation works element by element.
pub proof fn lemma_gated_by_rows<S: Scalar>(a: Array<S>, b: Array<S>)
    requires
        stackable(a, b),
    ensures
        gated(stacked(a, b)) == stacked(gated(a), gated(b)),
{
    assert(gated(stacked(a, b)).elems =~= stacked(gated(a), gated(b)).elems);
}

/// A bias, or a scale, is combined with each row.
pub proof fn lemma_combined_by_rows<S: Scalar>(
    times: bool,
    bias: Array<S>,
    a: Array<S>,
    b: Array<S>,
)
    requires
        stackable(a, b),
        bias.wf(),
        bias.dims == seq![a.dims[1]],
    ensures
        combined(times, bias, stacked(a, b)) == stacked(
            combined(times, bias, a),
            combined(times, bias, b),
        ),
        stackable(combined(times, bias, a), combined(times, bias, b)),
{
    let n = a.dims[1] as int;
    let m = a.dims[0] as int;
    let k = b.dims[0] as int;
    let whole = stacked(a, b);
    let left = combined(times, bias, whole);
    let right = stacked(combined(times, bias, a), combined(times, bias, b));
    lemma_count_2(a.dims);
    lemma_count_2(b.dims);
    lemma_count_2(whole.dims);
    assert(m * n + k * n == (m + k) * n) by (nonlinear_arith);
    let step = bias.dims[0] as int;
    lemma_combine_each_len(times, bias.elems, step, whole.elems, whole.dims[0] as nat);
    lemma_combine_each_len(times, bias.elems, step, a.elems, a.dims[0] as nat);
    lemma_combine_each_len(times, bias.elems, step, b.elems, b.dims[0] as nat);
    assert(bias.dims =~= whole.dims.skip(1));
    assert(bias.dims =~= a.dims.skip(1));
    assert(bias.dims =~= b.dims.skip(1));
    assert forall|p: int| 0 <= p < left.elems.len() implies #[trigger] left.elems[p]
        == right.elems[p] by {
        lemma_stacked_place(m, k, n, p);
        let i = p / n;
        let j = p % n;
        lemma_combined_rows(times, bias, whole, i, j);
        if i < m {
            lemma_combined_rows(times, bias, a, i, j);
        } else {
            lemma_combined_rows(times, bias, b, i - m, j);
            assert((i - m) * n + j == p - m * n) by (nonlinear_arith)
                requires
                    p == i * n + j,
            ;
        }
    }
    assert(left.elems =~= right.elems);
}

/// Sums of stacked matrices are stacked sums.
pub proof fn lemma_added_by_rows<S: Scalar>(
    x: Array<S>,
    y: Array<S>,
    a: Array<S>,
    b: Array<S>,
)
    requires
        stackable(a, b),
        stackable(x, y),
        x.dims == a.dims,
        y.dims == b.dims,
    ensures
        added(stacked(x, y), stacked(a, b)) == stacked(added(x, a), added(y, b)),
        stackable(added(x, a), added(y, b)),
{
    lemma_count_2(a.dims);
    lemma_count_2(b.dims);
    assert(added(stacked(x, y), stacked(a, b)).elems =~= stacked(added(x, a), added(y, b)).elems);
}

/// A product with a matrix works row by row.
pub proof fn lemma_product_by_rows<S: Scalar>(
    transpose: bool,
    w: Array<S>,
    a: Array<S>,
    b: Array<S>,
    width: usize,
)
    requires
        stackable(a, b),
        (a.dims[0] + b.dims[0]) * width <= usize::MAX,
    ensures
        ({
            let m = (a.dims[0] + b.dims[0]) as usize;
            let x = product(transpose, a, w, zeros(seq![a.dims[0], width]));
            let y = product(transpose, b, w, zeros(seq![b.dims[0], width]));
            &&& product(transpose, stacked(a, b), w, zeros(seq![m, width])) == stacked(x, y)
            &&& stackable(x, y)
        }),
{
    let inner = a.dims[1] as int;
    let n = width as int;
    let m = a.dims[0] as int;
    let k = b.dims[0] as int;
    let whole = stacked(a, b);
    let ca = zeros::<S>(seq![a.dims[0], width]);
    let cb = zeros::<S>(seq![b.dims[0], width]);
    let c = zeros::<S>(seq![(m + k) as usize, width]);
    let left = product(transpose, whole, w, c);
    let right = stacked(product(transpose, a, w, ca), product(transpose, b, w, cb));
    lemma_count_2(a.dims);
    lemma_count_2(b.dims);
    lemma_count_2(ca.dims);
    lemma_count_2(cb.dims);
    lemma_count_2(c.dims);
    assert(m * n + k * n == (m + k) * n) by (nonlinear_arith);
    assert(m * inner + k * inner == (m + k) * inner) by (nonlinear_arith);
    assert forall|p: int| 0 <= p < left.elems.len() implies #[trigger] left.elems[p]
        == right.elems[p] by {
        lemma_stacked_place(m, k, n, p);
        let i = p / n;
        let j = p % n;
        assert(0 * (m + k) + i == i && 1 * (m + k) * n == (m + k) * n);
        lemma_product_entry(transpose, 1, m + k, inner, n, whole.elems, w.elems, c.elems, 0, i, j);
        if i < m {
            assert(0 * m + i == i && 1 * m * n == m * n);
            lemma_product_entry(transpose, 1, m, inner, n, a.elems, w.elems, ca.elems, 0, i, j);
            lemma_left_row_is_row(whole.elems, m + k, inner, i);
            lemma_left_row_is_row(a.elems, m, inner, i);
        } else {
            assert(0 * k + (i - m) == i - m && 1 * k * n == k * n);
            lemma_product_entry(transpose, 1, k, inner, n, b.elems, w.elems, cb.elems, 0, i - m, j);
            lemma_left_row_is_row(whole.elems, m + k, inner, i);
            lemma_left_row_is_row(b.elems, k, inner, i - m);
            assert((i - m) * n + j == p - m * n) by (nonlinear_arith)
                requires
                    p == i * n + j,
            ;
        }
        lemma_stacked_row(a, b, i);
    }
    assert(left.elems =~= right.elems);
}

/// The rows of a single left factor.
proof fn lemma_left_row_is_row<S>(a: Seq<S>, m: int, k: int, i: int)
    requires
        0 <= i < m,
        0 <= k,
        a.len() == m * k,
    ensures
        left_row(a, m, k, 0, i) == row_of(a, k, i),
{
    assert(0 <= i * k && (i + 1) * k <= m * k && (i + 1) * k - i * k == k && 0 * (m * k) == 0)
        by (nonlinear_arith)
        requires
            0 <= i < m,
            0 <= k,
    ;
    assert(left_row(a, m, k, 0, i) =~= row_of(a, k, i));
}

/// A linear layer works row by row.
pub proof fn lemma_linear_by_rows<S: Scalar>(
    layer: Linear<S>,
    a: Array<S>,
    b: Array<S>,
    to: usize,
)
    requires
        layer.wf(),
        stackable(a, b),
        layer.shaped(a.dims[1], to),
        (a.dims[0] + b.dims[0]) * to <= usize::MAX,
    ensures
        layer.result(stacked(a, b)) == stacked(layer.result(a), layer.result(b)),
        stackable(layer.result(a), layer.result(b)),
{
    let x = product(false, a, layer.weight@, zeros(layer.result_dims(a.dims)));
    let y = product(false, b, layer.weight@, zeros(layer.result_dims(b.dims)));
    lemma_product_by_rows(false, layer.weight@, a, b, to);
    assert(layer.result_dims(stacked(a, b).dims) =~= seq![(a.dims[0] + b.dims[0]) as usize, to]);
    lemma_combined_by_rows(false, layer.bias@, x, y);
    lemma_linear_result_wf(layer, a);
    lemma_linear_result_wf(layer, b);
}

/// A normalising layer works row by row.
pub proof fn lemma_layer_norm_by_rows<S: Scalar>(layer: LayerNorm<S>, a: Array<S>, b: Array<S>)
    requires
        layer.wf(),
        stackable(a, b),
        layer.shaped(a.dims[1]),
    ensures
        layer.result(stacked(a, b)) == stacked(layer.result(a), layer.result(b)),
        stackable(layer.result(a), layer.result(b)),
{
    let x = normalized(a, layer.epsilon);
    let y = normalized(b, layer.epsilon);
    lemma_normalized_by_rows(a, b, layer.epsilon);
    lemma_combined_by_rows(true, layer.weight@, x, y);
    lemma_combined_by_rows(
        false,
        layer.bias@,
        combined(true, layer.weight@, x),
        combined(true, layer.weight@, y),
    );
}

/// The feed-forward part of a layer works row by row.
pub proof fn lemma_mlp_by_rows<S: Scalar>(mlp: Mlp<S>, a: Array<S>, b: Array<S>)
    requires
        mlp.wf(),
        stackable(a, b),
        mlp.shaped(a.dims[1]),
        (a.dims[0] + b.dims[0]) * a.dims[1] <= usize::MAX,
        (a.dims[0] + b.dims[0]) * mlp.inner() <= usize::MAX,
    ensures
        mlp.result(stacked(a, b)) == stacked(mlp.result(a), mlp.result(b)),
        stackable(mlp.result(a), mlp.result(b)),
{
    lemma_linear_by_rows(mlp.c_fc, a, b, mlp.inner());
    lemma_gated_by_rows(mlp.c_fc.result(a), mlp.c_fc.result(b));
    lemma_linear_by_rows(
        mlp.c_proj,
        gated(mlp.c_fc.result(a)),
        gated(mlp.c_fc.result(b)),
        a.dims[1],
    );
}

/// The first `m` rows of a matrix.
pub open spec fn first_rows<S>(x: Array<S>, m: usize) -> Array<S> {
    Array { dims: seq![m, x.dims[1]], elems: x.elems.take(m * x.dims[1]) }
}

/// The rows of a matrix from row `m` on.
pub open spec fn rows_from<S>(x: Array<S>, m: usize) -> Array<S> {
    Array {
        dims: seq![(x.dims[0] - m) as usize, x.dims[1]],
        elems: x.elems.skip(m * x.dims[1]),
    }
}

/// A matrix is its first rows with the others after them.
pub proof fn lemma_split_rows<S>(x: Array<S>, m: usize)
    requires
        x.dims.len() == 2,
        x.wf(),
        m <= x.dims[0],
    ensures
        stackable(first_rows(x, m), rows_from(x, m)),
        stacked(first_rows(x, m), rows_from(x, m)) == x,
{
    let rows = x.dims[0] as int;
    let n = x.dims[1] as int;
    lemma_count_2(x.dims);
    lemma_count_2(first_rows(x, m).dims);
    lemma_count_2(rows_from(x, m).dims);
    assert(0 <= m * n <= rows * n && rows * n - m * n == (rows - m) * n) by (nonlinear_arith)
        requires
            0 <= m <= rows,
            0 <= n,
    ;
    assert(stacked(first_rows(x, m), rows_from(x, m)).elems =~= x.elems);
    assert(stacked(first_rows(x, m), rows_from(x, m)).dims =~= x.dims);
}

/// The rows of stacked matrices, behind those of the first, are those of the second.
pub proof fn lemma_rows_from_stacked<S>(a: Array<S>, b: Array<S>)
    requires
        stackable(a, b),
    ensures
        rows_from(stacked(a, b), a.dims[0]) == b,
{
    lemma_count_2(a.dims);
    assert(rows_from(stacked(a, b), a.dims[0]).elems =~= b.elems);
    assert(rows_from(stacked(a, b), a.dims[0]).dims =~= b.dims);
}

} // verus!
