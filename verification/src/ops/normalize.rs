//! Normalisation of rows to mean zero and variance one.
use crate::ops::softmax::{row_of, rows_in};
use crate::scalar::{zero, Scalar};
use crate::shape::{lemma_count_2, lemma_place_2};
use crate::tensor::{Array, TensorMut};
use vstd::arithmetic::div_mod::lemma_div_by_multiple;
use vstd::prelude::*;

verus! {

/// The sum of the first `upto` elements of a row, from the left.
pub open spec fn row_sum<S: Scalar>(row: Seq<S>, upto: nat) -> S
    decreases upto,
{
    if upto == 0 {
        zero::<S>()
    } else {
        row_sum(row, (upto - 1) as nat).plus(row[upto - 1])
    }
}

/// The sum of the squared distances of the first `upto` elements of a row from `center`, from the
/// left.
pub open spec fn square_sum<S: Scalar>(row: Seq<S>, center: S, upto: nat) -> S
    decreases upto,
{
    if upto == 0 {
        zero::<S>()
    } else {
        square_sum(row, center, (upto - 1) as nat).plus(
            row[upto - 1].minus(center).power(S::counted(2)),
        )
    }
}

/// The mean of a row of `n` elements.
pub open spec fn row_mean<S: Scalar>(row: Seq<S>, n: usize) -> S {
    row_sum(row, row.len()).over(S::counted(n))
}

/// The variance of a row of `n` elements.
pub open spec fn row_variance<S: Scalar>(row: Seq<S>, n: usize) -> S {
    square_sum(row, row_mean(row, n), row.len()).over(S::counted(n))
}

/// A row of `n` elements with its mean taken off, divided by the root of its variance plus
/// `epsilon`.
pub open spec fn normal_row<S: Scalar>(row: Seq<S>, n: usize, epsilon: S) -> Seq<S> {
    let deviation = row_variance(row, n).plus(epsilon).root();
    Seq::new(row.len(), |j: int| row[j].minus(row_mean(row, n)).over(deviation))
}

/// Every row of a matrix of `n` columns, normalised.
pub open spec fn normal_elems<S: Scalar>(x: Seq<S>, n: usize, epsilon: S) -> Seq<S> {
    Seq::new(
        x.len(),
        |p: int| normal_row(row_of(x, n as int, p / n as int), n, epsilon)[p % n as int],
    )
}

/// The matrix `x` with every row normalised.
pub open spec fn normalized<S: Scalar>(x: Array<S>, epsilon: S) -> Array<S> {
    Array { dims: x.dims, elems: normal_elems(x.elems, x.dims[1], epsilon) }
}

/// What the scratch space for means holds afterwards: every row's mean, and behind them what it
/// held.
pub open spec fn means<S: Scalar>(x: Array<S>, scratch: Seq<S>) -> Seq<S> {
    let n = x.dims[1];
    Seq::new(
        scratch.len(),
        |r: int|
            if r < rows_in(x.elems.len(), n as int) {
                row_mean(row_of(x.elems, n as int, r), n)
            } else {
                scratch[r]
            },
    )
}

/// What the scratch space for variances holds afterwards: every row's variance, and behind them
/// what it held.
pub open spec fn variances<S: Scalar>(x: Array<S>, scratch: Seq<S>) -> Seq<S> {
    let n = x.dims[1];
    Seq::new(
        scratch.len(),
        |r: int|
            if r < rows_in(x.elems.len(), n as int) {
                row_variance(row_of(x.elems, n as int, r), n)
            } else {
                scratch[r]
            },
    )
}

/// Normalises a row, and gives its mean and its variance.
fn normalize_row<S: Scalar>(row: &mut [S], epsilon: S) -> (r: (S, S))
    ensures
        final(row)@ == normal_row(old(row)@, old(row)@.len() as usize, epsilon),
        r.0 == row_mean(old(row)@, old(row)@.len() as usize),
        r.1 == row_variance(old(row)@, old(row)@.len() as usize),
{
    let ghost before = row@;
    let n: usize = row.len();
    let mut sum = S::from_usize(0);
    let mut j: usize = 0;
    while j < n
        invariant
            j <= n == row@.len(),
            sum == row_sum(row@, j as nat),
        decreases n - j,
    {
        sum = sum.add(row[j]);
        j += 1;
    }
    let mean = sum.div(S::from_usize(n));
    let mut sum = S::from_usize(0);
    let mut j: usize = 0;
    while j < n
        invariant
            j <= n == row@.len(),
            sum == square_sum(row@, mean, j as nat),
        decreases n - j,
    {
        let value = row[j].sub(mean).powf(S::from_usize(2));
        sum = sum.add(value);
        j += 1;
    }
    let variance = sum.div(S::from_usize(n));
    let mut j: usize = 0;
    while j < n
        invariant
            j <= n == row@.len(),
            row@.len() == before.len(),
            forall|x: int|
                0 <= x < j ==> row@[x] == before[x].minus(mean).over(
                    variance.plus(epsilon).root(),
                ),
            forall|x: int| j <= x < n ==> row@[x] == before[x],
        decreases n - j,
    {
        row[j] = row[j].sub(mean).div(variance.add(epsilon).sqrt());
        j += 1;
    }
    assert(row@ =~= normal_row(before, n, epsilon));
    (mean, variance)
}

fn normalize_rows<S: Scalar>(
    rows: usize,
    n: usize,
    x: &mut [S],
    mean: &mut [S],
    var: &mut [S],
    epsilon: S,
)
    requires
        n > 0,
        old(x)@.len() == rows * n,
        rows <= old(mean)@.len(),
        rows <= old(var)@.len(),
    ensures
        final(x)@ == normal_elems(old(x)@, n, epsilon),
        final(mean)@.len() == old(mean)@.len(),
        final(var)@.len() == old(var)@.len(),
        forall|r: int|
            0 <= r < final(mean)@.len() ==> #[trigger] final(mean)@[r] == if r < rows {
                row_mean(row_of(old(x)@, n as int, r), n)
            } else {
                old(mean)@[r]
            },
        forall|r: int|
            0 <= r < final(var)@.len() ==> #[trigger] final(var)@[r] == if r < rows {
                row_variance(row_of(old(x)@, n as int, r), n)
            } else {
                old(var)@[r]
            },
{
    let ghost before = x@;
    let ghost whole = normal_elems(before, n, epsilon);
    let mut r: usize = 0;
    while r < rows
        invariant
            n > 0,
            r <= rows <= mean@.len(),
            rows <= var@.len(),
            before.len() == rows * n,
            x@.len() == before.len(),
            mean@.len() == old(mean)@.len(),
            var@.len() == old(var)@.len(),
            whole == normal_elems(before, n, epsilon),
            forall|p: int|
                0 <= p < x@.len() ==> #[trigger] x@[p] == if p < r * n {
                    whole[p]
                } else {
                    before[p]
                },
            forall|q: int|
                0 <= q < mean@.len() ==> #[trigger] mean@[q] == if q < r {
                    row_mean(row_of(before, n as int, q), n)
                } else {
                    old(mean)@[q]
                },
            forall|q: int|
                0 <= q < var@.len() ==> #[trigger] var@[q] == if q < r {
                    row_variance(row_of(before, n as int, q), n)
                } else {
                    old(var)@[q]
                },
        decreases rows - r,
    {
        proof {
            assert(0 <= r * n <= (r + 1) * n <= rows * n && (r + 1) * n - r * n == n)
                by (nonlinear_arith)
                requires
                    0 <= r < rows,
                    n > 0,
            ;
            assert(x.len() == x@.len());
        }
        let (_head, tail) = x.split_at_mut(r * n);
        let (row, _rest) = tail.split_at_mut(n);
        assert(row@ =~= row_of(before, n as int, r as int));
        let (m, v) = normalize_row(row, epsilon);
        mean[r] = m;
        var[r] = v;
        proof {
            assert forall|p: int| 0 <= p < x@.len() implies #[trigger] x@[p] == if p < (r + 1) * n {
                whole[p]
            } else {
                before[p]
            } by {
                if r * n <= p < (r + 1) * n {
                    lemma_place_2(r as int, p - r * n, rows as int, n as int);
                }
            }
        }
        r += 1;
    }
    assert(x@ =~= whole);
}

/// Normalises every row of the matrix `x`. `mean` and `var` receive the rows' means and variances.
pub fn normalize<S: Scalar, TM: TensorMut<S>>(
    x: &mut TM,
    mean: &mut [S],
    var: &mut [S],
    epsilon: S,
)
    requires
        old(x)@.wf(),
        old(x)@.dims.len() == 2,
        old(mean)@.len() >= old(x)@.dims[0],
        old(var)@.len() >= old(x)@.dims[0],
    ensures
        final(x)@ == normalized(old(x)@, epsilon),
        final(x)@.wf(),
        final(mean)@ == means(old(x)@, old(mean)@),
        final(var)@ == variances(old(x)@, old(var)@),
{
    let ghost before = x@;
    let ghost held = (mean@, var@);
    let m: usize = x.shape()[0];
    let size: usize = x.shape()[1];
    let total: usize = x.data().len();
    proof {
        lemma_count_2(x@.dims);
    }
    if total == 0 {
        proof {
            if size > 0 {
                assert(0int / size as int == 0);
            }
            assert(x@ =~= normalized(x@, epsilon));
            assert(mean@ =~= means(before, held.0));
            assert(var@ =~= variances(before, held.1));
        }
        return ;
    }
    proof {
        assert(size > 0) by (nonlinear_arith)
            requires
                total == m * size,
                total > 0,
                size >= 0,
        ;
        lemma_div_by_multiple(m as int, size as int);
    }
    normalize_rows(m, size, x.data_mut(), mean, var, epsilon);
    assert(mean@ =~= means(before, held.0));
    assert(var@ =~= variances(before, held.1));
}

} // verus!
