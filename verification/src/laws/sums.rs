//! Sums and products of tensors, element by element.
use crate::ops::activation::gated;
use crate::ops::elementwise::{
    added, combine_each, combine_fits, lemma_combine_each_len, lemma_combined_rows, multiplied,
};
use crate::ops::normalize::normalized;
use crate::ops::pick::picked;
use crate::ops::product::{
    left_row, lemma_product_entry, product, product_fits, right_column,
};
use crate::ops::softmax::softened;
use crate::scalar::{spot, Scalar};
use crate::shape::{count, lemma_count_split, lemma_place_2};
use crate::tensor::Array;
use vstd::prelude::*;

verus! {

/// A tensor is whole where it has as many elements as the product of its dimensions says.
pub proof fn lemma_whole_tensor<S>(x: Array<S>)
    ensures
        x.wf() <==> x.elems.len() == x.dims.fold_left(1int, |product: int, d: usize| product * d),
{
    lemma_count_is_product(x.dims);
}

/// A shape describes as many elements as the product of its dimensions says.
pub proof fn lemma_count_is_product(dims: Seq<usize>)
    ensures
        count(dims) == dims.fold_left(1int, |product: int, d: usize| product * d),
    decreases dims.len(),
{
    if dims.len() > 0 {
        lemma_count_is_product(dims.drop_last());
    }
}

/// Combining, multiplying, normalising, softmax and the activation keep the shape of what they are
/// applied to, and the number of its elements.
pub proof fn lemma_shape_kept<S: Scalar>(
    causal: bool,
    past: int,
    transpose: bool,
    a: Array<S>,
    b: Array<S>,
    x: Array<S>,
    epsilon: S,
)
    ensures
        added(a, x).dims == x.dims,
        added(a, x).elems.len() == x.elems.len(),
        multiplied(a, x).dims == x.dims,
        multiplied(a, x).elems.len() == x.elems.len(),
        product(transpose, a, b, x).dims == x.dims,
        product(transpose, a, b, x).elems.len() == x.elems.len(),
        normalized(x, epsilon).dims == x.dims,
        normalized(x, epsilon).elems.len() == x.elems.len(),
        softened(causal, past, x).dims == x.dims,
        softened(causal, past, x).elems.len() == x.elems.len(),
        gated(x).dims == x.dims,
        gated(x).elems.len() == x.elems.len(),
{
    lemma_combine_each_len(false, a.elems, a.dims[0] as int, x.elems, x.dims[0] as nat);
    lemma_combine_each_len(true, a.elems, a.dims[0] as int, x.elems, x.dims[0] as nat);
}

/// Tensors of one shape are added, and multiplied, element by element.
pub proof fn lemma_same_shape_sum<S: Scalar>(a: Array<S>, b: Array<S>, p: int)
    requires
        a.dims == b.dims,
        a.wf(),
        b.wf(),
        0 <= p < b.elems.len(),
    ensures
        combine_fits(a.dims, b.dims),
        added(a, b).dims == b.dims,
        added(a, b).elems.len() == b.elems.len(),
        added(a, b).elems[p] == b.elems[p].plus(a.elems[p]),
        multiplied(a, b).dims == b.dims,
        multiplied(a, b).elems.len() == b.elems.len(),
        multiplied(a, b).elems[p] == b.elems[p].times(a.elems[p]),
{
}

/// A vector is added to, and multiplied into, every row of a matrix.
pub proof fn lemma_row_sum<S: Scalar>(a: Array<S>, b: Array<S>, i: int, j: int)
    requires
        b.dims.len() == 2,
        a.dims == seq![b.dims[1]],
        a.wf(),
        b.wf(),
        0 <= i < b.dims[0],
        0 <= j < b.dims[1],
    ensures
        combine_fits(a.dims, b.dims),
        added(a, b).elems[i * b.dims[1] + j] == b.elems[i * b.dims[1] + j].plus(a.elems[j]),
        multiplied(a, b).elems[i * b.dims[1] + j] == b.elems[i * b.dims[1] + j].times(a.elems[j]),
{
    assert(a.dims =~= b.dims.skip(1));
    lemma_combined_rows(false, a, b, i, j);
    lemma_combined_rows(true, a, b, i, j);
}

/// A tensor whose shape is that of the parts of `b` is combined into `b` once for each part, each
/// time as many elements further on as its first dimension says. Element `x` meets what falls on it,
/// in that order.
pub proof fn lemma_parts_sum<S: Scalar>(a: Array<S>, b: Array<S>, x: int)
    requires
        a.dims != b.dims,
        b.dims.len() >= 2,
        b.dims.skip(1) == a.dims,
        0 <= x < b.elems.len(),
    ensures
        combine_fits(a.dims, b.dims),
        ({
            let times = Seq::new(b.dims[0] as nat, |i: int| i);
            &&& added(a, b).elems.len() == b.elems.len()
            &&& added(a, b).elems[x] == times.fold_left(
                b.elems[x],
                |sum: S, i: int|
                    if 0 <= x - i * a.dims[0] < a.elems.len() {
                        sum.plus(a.elems[x - i * a.dims[0]])
                    } else {
                        sum
                    },
            )
            &&& multiplied(a, b).elems.len() == b.elems.len()
            &&& multiplied(a, b).elems[x] == times.fold_left(
                b.elems[x],
                |sum: S, i: int|
                    if 0 <= x - i * a.dims[0] < a.elems.len() {
                        sum.times(a.elems[x - i * a.dims[0]])
                    } else {
                        sum
                    },
            )
        }),
{
    lemma_parts_fold(false, a.elems, a.dims[0] as int, b.elems, b.dims[0] as nat, x);
    lemma_parts_fold(true, a.elems, a.dims[0] as int, b.elems, b.dims[0] as nat, x);
    let plus = |sum: S, i: int|
        if 0 <= x - i * a.dims[0] < a.elems.len() {
            sum.plus(a.elems[x - i * a.dims[0]])
        } else {
            sum
        };
    let times = |sum: S, i: int|
        if 0 <= x - i * a.dims[0] < a.elems.len() {
            sum.times(a.elems[x - i * a.dims[0]])
        } else {
            sum
        };
    assert(plus =~= part_step(false, a.elems, a.dims[0] as int, x));
    assert(times =~= part_step(true, a.elems, a.dims[0] as int, x));
}

spec fn part_step<S: Scalar>(times: bool, a: Seq<S>, step: int, x: int) -> spec_fn(S, int) -> S {
    |sum: S, i: int|
        if 0 <= x - i * step < a.len() {
            if times {
                sum.times(a[x - i * step])
            } else {
                sum.plus(a[x - i * step])
            }
        } else {
            sum
        }
}

proof fn lemma_parts_fold<S: Scalar>(
    times: bool,
    a: Seq<S>,
    step: int,
    b: Seq<S>,
    n: nat,
    x: int,
)
    requires
        0 <= x < b.len(),
    ensures
        combine_each(times, a, step, b, n).len() == b.len(),
        combine_each(times, a, step, b, n)[x] == Seq::new(n, |i: int| i).fold_left(
            b[x],
            part_step(times, a, step, x),
        ),
    decreases n,
{
    if n > 0 {
        lemma_parts_fold(times, a, step, b, (n - 1) as nat, x);
        assert(Seq::new(n, |i: int| i).drop_last() =~= Seq::new((n - 1) as nat, |i: int| i));
    }
}

/// Entry `(i, j)` of matrix `t` of a product: what row `i` of the left and column `j` of the right
/// factor leave in what was there.
pub proof fn lemma_product_element<S: Scalar>(
    a: Array<S>,
    b: Array<S>,
    c: Array<S>,
    m: usize,
    k: usize,
    n: usize,
    t: int,
    i: int,
    j: int,
)
    requires
        a.dims.len() >= 2,
        a.dims == a.dims.take(a.dims.len() - 2) + seq![m, k],
        b.dims == a.dims.take(a.dims.len() - 2) + seq![k, n],
        c.dims == a.dims.take(a.dims.len() - 2) + seq![m, n],
        c.wf(),
        0 <= t < count(a.dims.take(a.dims.len() - 2)),
        0 <= i < m,
        0 <= j < n,
    ensures
        product_fits(false, a.dims, b.dims, c.dims),
        product(false, a, b, c).dims == c.dims,
        product(false, a, b, c).elems.len() == c.elems.len(),
        product(false, a, b, c).elems[(t * m + i) * n + j] == c.elems[(t * m + i) * n + j].dotted(
            Seq::new(k as nat, |p: int| a.elems[(t * m + i) * k + p]),
            Seq::new(k as nat, |p: int| b.elems[(t * k + p) * n + j]),
        ),
{
    lemma_product_lines(false, a, b, c, m, k, n, t, i, j);
    let column = right_column(false, b.elems, k as int, n as int, t, j);
    let spelled = Seq::new(k as nat, |p: int| b.elems[(t * k + p) * n + j]);
    assert forall|p: int| 0 <= p < k implies #[trigger] column[p] == spelled[p] by {
        assert(t * (n * k) + j + p * n == (t * k + p) * n + j) by (nonlinear_arith);
        assert(column[p] == b.elems[spot(t * (n * k) + j, n as int, p)]);
    }
    assert(column =~= spelled);
}

/// As `lemma_product_element`, where the right factor is stored with rows for columns.
pub proof fn lemma_product_element_transposed<S: Scalar>(
    a: Array<S>,
    b: Array<S>,
    c: Array<S>,
    m: usize,
    k: usize,
    n: usize,
    t: int,
    i: int,
    j: int,
)
    requires
        a.dims.len() >= 2,
        a.dims == a.dims.take(a.dims.len() - 2) + seq![m, k],
        b.dims == a.dims.take(a.dims.len() - 2) + seq![n, k],
        c.dims == a.dims.take(a.dims.len() - 2) + seq![m, n],
        c.wf(),
        0 <= t < count(a.dims.take(a.dims.len() - 2)),
        0 <= i < m,
        0 <= j < n,
    ensures
        product_fits(true, a.dims, b.dims, c.dims),
        product(true, a, b, c).dims == c.dims,
        product(true, a, b, c).elems.len() == c.elems.len(),
        product(true, a, b, c).elems[(t * m + i) * n + j] == c.elems[(t * m + i) * n + j].dotted(
            Seq::new(k as nat, |p: int| a.elems[(t * m + i) * k + p]),
            Seq::new(k as nat, |p: int| b.elems[(t * n + j) * k + p]),
        ),
{
    lemma_product_lines(true, a, b, c, m, k, n, t, i, j);
    let column = right_column(true, b.elems, k as int, n as int, t, j);
    let spelled = Seq::new(k as nat, |p: int| b.elems[(t * n + j) * k + p]);
    assert forall|p: int| 0 <= p < k implies #[trigger] column[p] == spelled[p] by {
        assert(t * (n * k) + j * k + p * 1 == (t * n + j) * k + p) by (nonlinear_arith);
        assert(column[p] == b.elems[spot(t * (n * k) + j * k, 1, p)]);
    }
    assert(column =~= spelled);
}

proof fn lemma_product_lines<S: Scalar>(
    transpose: bool,
    a: Array<S>,
    b: Array<S>,
    c: Array<S>,
    m: usize,
    k: usize,
    n: usize,
    t: int,
    i: int,
    j: int,
)
    requires
        a.dims.len() >= 2,
        a.dims == a.dims.take(a.dims.len() - 2) + seq![m, k],
        b.dims == a.dims.take(a.dims.len() - 2) + if transpose {
            seq![n, k]
        } else {
            seq![k, n]
        },
        c.dims == a.dims.take(a.dims.len() - 2) + seq![m, n],
        c.wf(),
        0 <= t < count(a.dims.take(a.dims.len() - 2)),
        0 <= i < m,
        0 <= j < n,
    ensures
        product_fits(transpose, a.dims, b.dims, c.dims),
        product(transpose, a, b, c).elems[(t * m + i) * n + j] == c.elems[(t * m + i) * n
            + j].dotted(
            Seq::new(k as nat, |p: int| a.elems[(t * m + i) * k + p]),
            right_column(transpose, b.elems, k as int, n as int, t, j),
        ),
{
    let d = a.dims.len() as int;
    let stack = a.dims.take(d - 2);
    let batches = count(stack) as int;
    assert(b.dims.take(d - 2) =~= stack);
    assert(c.dims.take(d - 2) =~= stack);
    lemma_count_split(c.dims);
    assert(batches * (m * n) == batches * m * n) by (nonlinear_arith);
    lemma_product_entry(
        transpose,
        batches,
        m as int,
        k as int,
        n as int,
        a.elems,
        b.elems,
        c.elems,
        t,
        i,
        j,
    );
    let row = left_row(a.elems, m as int, k as int, t, i);
    let spelled = Seq::new(k as nat, |p: int| a.elems[(t * m + i) * k + p]);
    assert forall|p: int| 0 <= p < k implies #[trigger] row[p] == spelled[p] by {
        assert(t * (m * k) + i * k + p * 1 == (t * m + i) * k + p) by (nonlinear_arith);
        assert(row[p] == a.elems[spot(t * (m * k) + i * k, 1, p)]);
    }
    assert(row =~= spelled);
}

/// A looked-up row is the row of the table with that number.
pub proof fn lemma_picked_element<S>(ids: Seq<u32>, w: Array<S>, i: int, j: int)
    requires
        w.dims.len() >= 2,
        0 <= i < ids.len(),
        0 <= j < w.dims[1],
    ensures
        picked(ids, w).dims == seq![ids.len() as usize, w.dims[1]],
        picked(ids, w).elems.len() == ids.len() * w.dims[1],
        picked(ids, w).elems[i * w.dims[1] + j] == w.elems[ids[i] * w.dims[1] + j],
{
    lemma_place_2(i, j, ids.len() as int, w.dims[1] as int);
}

} // verus!
