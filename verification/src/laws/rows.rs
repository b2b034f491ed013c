//! Rows: normalisation, softmax, the activation and the largest element.
use crate::laws::sums::lemma_count_is_product;
use crate::ops::activation::{gated, tanh_base};
use crate::ops::normalize::{means, normalized, row_mean, row_sum, square_sum, variances};
use crate::ops::pick::{champion, lemma_champion_is_first, lemma_champion_is_largest};
use crate::ops::softmax::{
    divisors, lemma_row_place, mass, peak, row_of, rows_in, softened, softmax_fits,
};
use crate::scalar::Scalar;
use crate::shape::{lemma_count_2, lemma_place_2};
use crate::tensor::Array;
use vstd::prelude::*;

verus! {

/// What holds in exact arithmetic, and nearly so in rounded arithmetic. The laws that ask for it say
/// what an operation would give without rounding.
pub open spec fn exact<S: Scalar>() -> bool {
    let zero = S::counted(0);
    &&& forall|a: S| #[trigger] a.plus(zero) == a
    &&& forall|a: S| #[trigger] zero.plus(a) == a
    &&& forall|a: S, b: S, c: S|
        #![trigger a.over(c).plus(b.over(c))]
        a.over(c).plus(b.over(c)) == a.plus(b).over(c)
    &&& forall|a: S, b: S, c: S, d: S|
        #![trigger a.minus(b).plus(c.minus(d))]
        a.minus(b).plus(c.minus(d)) == a.plus(c).minus(b.plus(d))
    &&& forall|a: S| #[trigger] a.minus(a) == zero
    &&& forall|a: S| #[trigger] zero.over(a) == zero
    &&& forall|a: S| #[trigger] a.times(zero) == zero
    &&& forall|a: S, n: usize|
        #![trigger a.times(S::counted(n)).plus(a)]
        n < usize::MAX ==> a.times(S::counted(n)).plus(a) == a.times(S::counted((n + 1) as usize))
    &&& forall|a: S, n: usize|
        #![trigger a.over(S::counted(n)).times(S::counted(n))]
        n > 0 ==> a.over(S::counted(n)).times(S::counted(n)) == a
    &&& forall|a: S, n: usize|
        #![trigger a.times(S::counted(n)).over(S::counted(n))]
        n > 0 ==> a.times(S::counted(n)).over(S::counted(n)) == a
    &&& forall|a: S| a != zero ==> #[trigger] a.over(a) == S::counted(1)
    &&& forall|n: usize|
        (#[trigger] S::counted(n).root()).times(S::counted(n).root()) == S::counted(n)
}

/// Row `i` of a matrix with `n` columns stands inside it.
pub proof fn lemma_row_bounds(i: int, rows: int, n: int)
    requires
        0 <= i < rows,
        0 <= n,
    ensures
        0 <= i * n,
        (i + 1) * n == i * n + n,
        (i + 1) * n <= rows * n,
{
    assert(0 <= i * n && (i + 1) * n == i * n + n && (i + 1) * n <= rows * n) by (nonlinear_arith)
        requires
            0 <= i < rows,
            0 <= n,
    ;
}

proof fn lemma_row_sum_is_fold<S: Scalar>(row: Seq<S>, upto: nat)
    requires
        upto <= row.len(),
    ensures
        row_sum(row, upto) == row.take(upto as int).fold_left(
            S::counted(0),
            |sum: S, v: S| sum.plus(v),
        ),
    decreases upto,
{
    if upto > 0 {
        lemma_row_sum_is_fold(row, (upto - 1) as nat);
        assert(row.take(upto as int).drop_last() =~= row.take(upto - 1));
    }
}

proof fn lemma_square_sum_is_fold<S: Scalar>(row: Seq<S>, mean: S, upto: nat)
    requires
        upto <= row.len(),
    ensures
        square_sum(row, mean, upto) == row.take(upto as int).fold_left(
            S::counted(0),
            |sum: S, v: S| sum.plus(v.minus(mean).power(S::counted(2))),
        ),
    decreases upto,
{
    if upto > 0 {
        lemma_square_sum_is_fold(row, mean, (upto - 1) as nat);
        assert(row.take(upto as int).drop_last() =~= row.take(upto - 1));
    }
}

/// Normalising takes the mean of its row off every number and divides by the root of the row's
/// variance plus `epsilon`. The mean is the sum of the row, the variance that of the squared
/// distances from the mean, each over the number of columns. Both are left in the scratch space.
pub proof fn lemma_normalized_element<S: Scalar>(
    x: Array<S>,
    epsilon: S,
    mean_space: Seq<S>,
    variance_space: Seq<S>,
    i: int,
    j: int,
)
    requires
        x.dims.len() == 2,
        x.wf(),
        0 <= i < x.dims[0],
        0 <= j < x.dims[1],
        i < mean_space.len(),
        i < variance_space.len(),
    ensures
        ({
            let n = x.dims[1];
            let row = x.elems.subrange(i * n, (i + 1) * n);
            let mean = row.fold_left(S::counted(0), |sum: S, v: S| sum.plus(v)).over(S::counted(n));
            let variance = row.fold_left(
                S::counted(0),
                |sum: S, v: S| sum.plus(v.minus(mean).power(S::counted(2))),
            ).over(S::counted(n));
            &&& normalized(x, epsilon).dims == x.dims
            &&& normalized(x, epsilon).elems.len() == x.elems.len()
            &&& normalized(x, epsilon).elems[i * n + j] == x.elems[i * n + j].minus(mean).over(
                variance.plus(epsilon).root(),
            )
            &&& means(x, mean_space).len() == mean_space.len()
            &&& means(x, mean_space)[i] == mean
            &&& variances(x, variance_space).len() == variance_space.len()
            &&& variances(x, variance_space)[i] == variance
        }),
{
    let rows = x.dims[0] as int;
    let n = x.dims[1] as int;
    lemma_count_2(x.dims);
    lemma_row_bounds(i, rows, n);
    lemma_place_2(i, j, rows, n);
    vstd::arithmetic::div_mod::lemma_div_by_multiple(rows, n);
    let row = x.elems.subrange(i * n, (i + 1) * n);
    assert(row_of(x.elems, n, i) =~= row);
    assert(row.take(row.len() as int) =~= row);
    lemma_row_sum_is_fold(row, row.len());
    let mean = row_mean(row, x.dims[1]);
    lemma_square_sum_is_fold(row, mean, row.len());
}

/// The mean of a row, as often as the row has numbers, is their sum.
pub proof fn lemma_mean_times_length<S: Scalar>(x: Array<S>, space: Seq<S>, i: int)
    requires
        x.dims.len() == 2,
        x.wf(),
        0 <= i < x.dims[0],
        i < space.len(),
        x.dims[1] > 0,
        forall|a: S, n: usize|
            #![trigger a.over(S::counted(n)).times(S::counted(n))]
            n > 0 ==> a.over(S::counted(n)).times(S::counted(n)) == a,
    ensures
        means(x, space)[i].times(S::counted(x.dims[1])) == x.elems.subrange(
            i * x.dims[1],
            (i + 1) * x.dims[1],
        ).fold_left(S::counted(0), |sum: S, v: S| sum.plus(v)),
{
    lemma_normalized_element(x, S::counted(0), space, space, i, 0);
}

/// The mean of equal numbers is that number.
pub proof fn lemma_mean_of_equal_numbers<S: Scalar>(x: Array<S>, space: Seq<S>, i: int, c: S)
    requires
        exact::<S>(),
        x.dims.len() == 2,
        x.wf(),
        0 <= i < x.dims[0],
        i < space.len(),
        x.dims[1] > 0,
        forall|j: int| 0 <= j < x.dims[1] ==> #[trigger] x.elems[i * x.dims[1] + j] == c,
    ensures
        means(x, space)[i] == c,
{
    let n = x.dims[1];
    let row = x.elems.subrange(i * n, (i + 1) * n);
    lemma_normalized_element(x, S::counted(0), space, space, i, 0);
    lemma_count_2(x.dims);
    lemma_row_bounds(i, x.dims[0] as int, n as int);
    assert forall|j: int| 0 <= j < row.len() implies #[trigger] row[j] == c by {
        assert(x.elems[i * n + j] == c);
    }
    lemma_sum_of_equal(row, c, row.len());
    assert(row.take(row.len() as int) =~= row);
}

proof fn lemma_sum_of_equal<S: Scalar>(row: Seq<S>, c: S, upto: nat)
    requires
        exact::<S>(),
        upto <= row.len() <= usize::MAX,
        forall|j: int| 0 <= j < row.len() ==> #[trigger] row[j] == c,
    ensures
        row.take(upto as int).fold_left(S::counted(0), |sum: S, v: S| sum.plus(v)) == c.times(
            S::counted(upto as usize),
        ),
    decreases upto,
{
    if upto == 0 {
        assert(c.times(S::counted(0)) == S::counted(0));
    } else {
        lemma_sum_of_equal(row, c, (upto - 1) as nat);
        assert(row.take(upto as int).drop_last() =~= row.take(upto - 1));
        let k = (upto - 1) as usize;
        assert(c.times(S::counted(k)).plus(c) == c.times(S::counted((k + 1) as usize)));
    }
}

/// A normalised row sums to nothing.
pub proof fn lemma_normalized_row_sums_to_zero<S: Scalar>(x: Array<S>, epsilon: S, i: int)
    requires
        exact::<S>(),
        x.dims.len() == 2,
        x.wf(),
        0 <= i < x.dims[0],
        x.dims[1] > 0,
    ensures
        normalized(x, epsilon).elems.subrange(i * x.dims[1], (i + 1) * x.dims[1]).fold_left(
            S::counted(0),
            |sum: S, v: S| sum.plus(v),
        ) == S::counted(0),
{
    let n = x.dims[1];
    let zero = S::counted(0);
    let space = Seq::new(x.dims[0] as nat, |r: int| zero);
    let row = x.elems.subrange(i * n, (i + 1) * n);
    let out = normalized(x, epsilon).elems.subrange(i * n, (i + 1) * n);
    lemma_count_2(x.dims);
    lemma_row_bounds(i, x.dims[0] as int, n as int);
    lemma_normalized_element(x, epsilon, space, space, i, 0);
    let mean = means(x, space)[i];
    let d = variances(x, space)[i].plus(epsilon).root();
    assert forall|j: int| 0 <= j < n implies #[trigger] out[j] == row[j].minus(mean).over(d) by {
        lemma_normalized_element(x, epsilon, space, space, i, j);
    }
    lemma_centred_sum(row, out, mean, d, n as nat);
    assert(row.take(n as int) =~= row);
    assert(out.take(n as int) =~= out);
    lemma_mean_times_length(x, space, i);
    let sum = row.fold_left(zero, |sum: S, v: S| sum.plus(v));
    assert(sum.minus(sum) == zero);
}

proof fn lemma_centred_sum<S: Scalar>(row: Seq<S>, out: Seq<S>, mean: S, d: S, upto: nat)
    requires
        exact::<S>(),
        upto <= row.len() == out.len(),
        row.len() <= usize::MAX,
        forall|j: int| 0 <= j < row.len() ==> #[trigger] out[j] == row[j].minus(mean).over(d),
    ensures
        out.take(upto as int).fold_left(S::counted(0), |sum: S, v: S| sum.plus(v)) == row.take(
            upto as int,
        ).fold_left(S::counted(0), |sum: S, v: S| sum.plus(v)).minus(
            mean.times(S::counted(upto as usize)),
        ).over(d),
    decreases upto,
{
    let zero = S::counted(0);
    if upto == 0 {
        assert(mean.times(zero) == zero);
        assert(zero.minus(zero) == zero);
        assert(zero.over(d) == zero);
    } else {
        lemma_centred_sum(row, out, mean, d, (upto - 1) as nat);
        assert(row.take(upto as int).drop_last() =~= row.take(upto - 1));
        assert(out.take(upto as int).drop_last() =~= out.take(upto - 1));
        let k = (upto - 1) as usize;
        let sum = row.take(upto - 1).fold_left(zero, |sum: S, v: S| sum.plus(v));
        let v = row[upto - 1];
        let off = mean.times(S::counted(k));
        assert(sum.minus(off).over(d).plus(v.minus(mean).over(d)) == sum.minus(off).plus(
            v.minus(mean),
        ).over(d));
        assert(sum.minus(off).plus(v.minus(mean)) == sum.plus(v).minus(off.plus(mean)));
        assert(off.plus(mean) == mean.times(S::counted((k + 1) as usize)));
    }
}

/// How many of `n` columns lie within reach of a row that `before` columns precede.
pub open spec fn within(causal: bool, n: int, before: int) -> int {
    if causal && before + 1 < n {
        before + 1
    } else {
        n
    }
}

proof fn lemma_peak_is_fold<S: Scalar>(causal: bool, past: int, r: int, row: Seq<S>, upto: nat)
    requires
        upto <= row.len(),
        0 <= past + r,
    ensures
        peak(causal, past, r, row, upto) == row.take(within(causal, upto as int, past + r)).fold_left(
            S::lowest(),
            |top: S, v: S|
                if v.exceeds(top) {
                    v
                } else {
                    top
                },
        ),
    decreases upto,
{
    if upto > 0 {
        lemma_peak_is_fold(causal, past, r, row, (upto - 1) as nat);
        if !causal || upto - 1 <= past + r {
            assert(row.take(upto as int).drop_last() =~= row.take(upto - 1));
        }
    }
}

proof fn lemma_mass_is_fold<S: Scalar>(
    causal: bool,
    past: int,
    i: int,
    top: S,
    row: Seq<S>,
    upto: nat,
)
    requires
        upto <= row.len(),
        0 <= past + i,
    ensures
        mass(causal, past, i, top, row, upto) == row.take(
            within(causal, upto as int, past + i),
        ).fold_left(S::counted(0), |sum: S, v: S| sum.plus(v.minus(top).exponential())),
    decreases upto,
{
    if upto > 0 {
        lemma_mass_is_fold(causal, past, i, top, row, (upto - 1) as nat);
        if !causal || upto - 1 <= past + i {
            assert(row.take(upto as int).drop_last() =~= row.take(upto - 1));
        }
    }
}

/// Every column that a row sees gets the exponential of its number, relative to the largest, over
/// the sum of these exponentials over all columns that the row sees; every other column gets zero.
/// Row `r` of a stack is row `r % m` of its matrix: it sees the `past` columns before the first row,
/// and on up to its own. The largest is sought among the columns that row `r` of a single matrix
/// would see. The sum is left in the scratch space.
pub proof fn lemma_softmax_element<S: Scalar>(
    causal: bool,
    past: int,
    x: Array<S>,
    space: Seq<S>,
    r: int,
    j: int,
)
    requires
        x.dims.len() >= 2,
        x.wf(),
        0 <= past,
        0 <= r < space.len(),
        (r + 1) * x.dims[x.dims.len() - 1] <= x.elems.len(),
        0 <= j < x.dims[x.dims.len() - 1],
    ensures
        ({
            let m = x.dims[x.dims.len() - 2] as int;
            let n = x.dims[x.dims.len() - 1] as int;
            let row = x.elems.subrange(r * n, (r + 1) * n);
            let seen: int = if causal && r % m + past + 1 < n {
                r % m + past + 1
            } else {
                n
            };
            let looked_at: int = if causal && r + past + 1 < n {
                r + past + 1
            } else {
                n
            };
            let top = row.take(looked_at).fold_left(
                S::lowest(),
                |top: S, v: S|
                    if v.exceeds(top) {
                        v
                    } else {
                        top
                    },
            );
            let total = row.take(seen).fold_left(
                S::counted(0),
                |sum: S, v: S| sum.plus(v.minus(top).exponential()),
            );
            &&& softened(causal, past, x).dims == x.dims
            &&& softened(causal, past, x).elems.len() == x.elems.len()
            &&& softened(causal, past, x).elems[r * n + j] == if j < seen {
                x.elems[r * n + j].minus(top).exponential().over(total)
            } else {
                S::counted(0)
            }
            &&& divisors(causal, past, x, space).len() == space.len()
            &&& divisors(causal, past, x, space)[r] == total
        }),
{
    let m = x.dims[x.dims.len() - 2] as int;
    let n = x.dims[x.dims.len() - 1] as int;
    lemma_row_place(x, r, j);
    lemma_row_bounds(r, r + 1, n);
    let row = x.elems.subrange(r * n, (r + 1) * n);
    assert(row_of(x.elems, n, r) =~= row);
    lemma_peak_is_fold(causal, past, r, row, row.len());
    let top = peak(causal, past, r, row, row.len());
    lemma_mass_is_fold(causal, past, r % m, top, row, row.len());
    lemma_rows_counted(x, r);
}

proof fn lemma_rows_counted<S>(x: Array<S>, r: int)
    requires
        x.dims.len() >= 2,
        x.wf(),
        0 <= r,
        x.dims[x.dims.len() - 1] > 0,
        (r + 1) * x.dims[x.dims.len() - 1] <= x.elems.len(),
    ensures
        r < rows_in(x.elems.len(), x.dims[x.dims.len() - 1] as int),
{
    let n = x.dims[x.dims.len() - 1] as int;
    let size = x.elems.len() as int;
    vstd::arithmetic::div_mod::lemma_fundamental_div_mod(size, n);
    let q = size / n;
    assert(r < q) by (nonlinear_arith)
        requires
            (r + 1) * n <= size,
            size == n * q + size % n,
            0 <= size % n < n,
    ;
}

/// A softmax can be taken of stacks of matrices, with scratch space for each of their rows.
pub proof fn lemma_softmax_takes(x: Seq<usize>, space: nat)
    ensures
        softmax_fits(x, space) <==> {
            let d = x.len() as int;
            &&& d >= 2
            &&& x.take(d - 1).fold_left(1int, |rows: int, n: usize| rows * n) <= space
        },
{
    let d = x.len() as int;
    if d >= 2 {
        let rows = x.take(d - 1);
        assert(rows.drop_last() =~= x.take(d - 2));
        lemma_count_is_product(rows);
    }
}

/// Seen columns of equal numbers get equal weights.
pub proof fn lemma_equal_numbers_equal_weights<S: Scalar>(
    causal: bool,
    past: int,
    x: Array<S>,
    r: int,
    j: int,
    k: int,
)
    requires
        x.dims.len() >= 2,
        x.wf(),
        0 <= past,
        0 <= r,
        ({
            let m = x.dims[x.dims.len() - 2] as int;
            let n = x.dims[x.dims.len() - 1] as int;
            &&& (r + 1) * n <= x.elems.len()
            &&& 0 <= j < n && 0 <= k < n
            &&& !causal || (j <= r % m + past && k <= r % m + past)
            &&& x.elems[r * n + j] == x.elems[r * n + k]
        }),
    ensures
        ({
            let n = x.dims[x.dims.len() - 1] as int;
            softened(causal, past, x).elems[r * n + j] == softened(causal, past, x).elems[r * n + k]
        }),
{
    let space = Seq::new((r + 1) as nat, |p: int| S::counted(0));
    lemma_softmax_element(causal, past, x, space, r, j);
    lemma_softmax_element(causal, past, x, space, r, k);
}

/// The weights of a row sum to one.
pub proof fn lemma_weights_sum_to_one<S: Scalar>(
    causal: bool,
    past: int,
    x: Array<S>,
    space: Seq<S>,
    r: int,
)
    requires
        exact::<S>(),
        x.dims.len() >= 2,
        x.wf(),
        0 <= past,
        0 <= r < space.len(),
        x.dims[x.dims.len() - 1] > 0,
        (r + 1) * x.dims[x.dims.len() - 1] <= x.elems.len(),
        divisors(causal, past, x, space)[r] != S::counted(0),
    ensures
        softened(causal, past, x).elems.subrange(
            r * x.dims[x.dims.len() - 1],
            (r + 1) * x.dims[x.dims.len() - 1],
        ).fold_left(S::counted(0), |sum: S, v: S| sum.plus(v)) == S::counted(1),
{
    let m = x.dims[x.dims.len() - 2] as int;
    let n = x.dims[x.dims.len() - 1] as int;
    let row = x.elems.subrange(r * n, (r + 1) * n);
    let out = softened(causal, past, x).elems.subrange(r * n, (r + 1) * n);
    lemma_row_bounds(r, r + 1, n);
    lemma_row_place(x, r, 0);
    lemma_softmax_element(causal, past, x, space, r, 0);
    let seen = within(causal, n, r % m + past);
    let looked_at = within(causal, n, r + past);
    let top = row.take(looked_at).fold_left(
        S::lowest(),
        |top: S, v: S|
            if v.exceeds(top) {
                v
            } else {
                top
            },
    );
    let total = divisors(causal, past, x, space)[r];
    assert forall|j: int| 0 <= j < n implies #[trigger] out[j] == if j < seen {
        row[j].minus(top).exponential().over(total)
    } else {
        S::counted(0)
    } by {
        lemma_softmax_element(causal, past, x, space, r, j);
    }
    lemma_weight_sum(row, out, top, total, seen as nat, n as nat);
    assert(out.take(n) =~= out);
    assert(total.over(total) == S::counted(1));
}

proof fn lemma_weight_sum<S: Scalar>(
    row: Seq<S>,
    out: Seq<S>,
    top: S,
    total: S,
    seen: nat,
    upto: nat,
)
    requires
        exact::<S>(),
        seen <= row.len() == out.len(),
        upto <= row.len(),
        forall|j: int|
            0 <= j < row.len() ==> #[trigger] out[j] == if j < seen {
                row[j].minus(top).exponential().over(total)
            } else {
                S::counted(0)
            },
    ensures
        out.take(upto as int).fold_left(S::counted(0), |sum: S, v: S| sum.plus(v)) == row.take(
            if upto < seen {
                upto as int
            } else {
                seen as int
            },
        ).fold_left(S::counted(0), |sum: S, v: S| sum.plus(v.minus(top).exponential())).over(total),
    decreases upto,
{
    let zero = S::counted(0);
    let add = |sum: S, v: S| sum.plus(v.minus(top).exponential());
    if upto == 0 {
        assert(zero.over(total) == zero);
    } else {
        lemma_weight_sum(row, out, top, total, seen, (upto - 1) as nat);
        assert(out.take(upto as int).drop_last() =~= out.take(upto - 1));
        let v = out[upto - 1];
        if upto <= seen {
            assert(row.take(upto as int).drop_last() =~= row.take(upto - 1));
            let sum = row.take(upto - 1).fold_left(zero, add);
            let e = row[upto - 1].minus(top).exponential();
            assert(sum.over(total).plus(e.over(total)) == sum.plus(e).over(total));
        } else {
            let sum = row.take(seen as int).fold_left(zero, add).over(total);
            assert(sum.plus(zero) == sum);
        }
    }
}

/// Scratch space beyond the rows keeps what it held.
pub proof fn lemma_scratch_kept<S: Scalar>(
    causal: bool,
    past: int,
    x: Array<S>,
    space: Seq<S>,
    r: int,
)
    requires
        x.dims.len() >= 2,
        0 <= r < space.len(),
        r * x.dims[x.dims.len() - 1] >= x.elems.len(),
    ensures
        x.dims.len() == 2 ==> means(x, space).len() == space.len(),
        x.dims.len() == 2 ==> means(x, space)[r] == space[r],
        x.dims.len() == 2 ==> variances(x, space).len() == space.len(),
        x.dims.len() == 2 ==> variances(x, space)[r] == space[r],
        divisors(causal, past, x, space).len() == space.len(),
        divisors(causal, past, x, space)[r] == space[r],
{
    let n = x.dims[x.dims.len() - 1] as int;
    let size = x.elems.len() as int;
    if n > 0 {
        vstd::arithmetic::div_mod::lemma_fundamental_div_mod(size, n);
        let q = size / n;
        assert(r >= q) by (nonlinear_arith)
            requires
                r * n >= size,
                size == n * q + size % n,
                0 <= size % n < n,
        ;
    }
}

/// The activation makes of every number `v` the half of `v` times one plus the hyperbolic tangent of
/// the root of two over pi times the sum of `v` and 0.044715 times the third power of `v`.
pub proof fn lemma_gelu_element<S: Scalar>(x: Array<S>, p: int)
    requires
        0 <= p < x.elems.len(),
    ensures
        gated(x).dims == x.dims,
        gated(x).elems.len() == x.elems.len(),
        ({
            let v = x.elems[p];
            let cube = v.power(S::counted(3));
            let small = S::counted(44715).over(S::counted(1000000));
            let slope = S::counted(2).over(S::half_turn()).root();
            let half = S::counted(1).over(S::counted(2));
            gated(x).elems[p] == half.times(v).times(
                S::counted(1).plus(slope.times(v.plus(small.times(cube))).hyperbolic_tangent()),
            )
        }),
{
}

/// The polynomial that `faster_tanh` squashes: `x`, plus 0.16489087 times its third, plus 0.00985468
/// times its fifth power.
pub proof fn lemma_tanh_polynomial<S: Scalar>(x: S)
    ensures
        ({
            let square = x.times(x);
            let third = square.times(x);
            let fifth = third.times(square);
            tanh_base(x) == x.plus(
                S::counted(16489087).over(S::counted(100000000)).times(third),
            ).plus(S::counted(985468).over(S::counted(100000000)).times(fifth))
        }),
{
}

/// The largest element is sought in the last row. None of that row is above the one that is chosen,
/// those before it are below it, and none is chosen exactly where none is above the lowest number.
pub proof fn lemma_argmax_of_last_row<S: Scalar>(x: Array<S>, j: int)
    requires
        x.dims.len() == 2,
        x.wf(),
        x.dims[0] > 0,
        0 <= j < x.dims[1],
    ensures
        ({
            let n = x.dims[0] as int;
            let m = x.dims[1] as int;
            let last = x.elems.subrange((n - 1) * m, n * m);
            let found = champion(row_of(x.elems, m, n - 1), m as nat).1;
            &&& found == usize::MAX || 0 <= found < m
            &&& found == usize::MAX ==> !last[j].exceeds(S::lowest())
            &&& found != usize::MAX ==> {
                &&& last[found].exceeds(S::lowest())
                &&& !last[j].exceeds(last[found])
                &&& j < found && last[j].equals(last[j]) ==> last[found].exceeds(last[j])
            }
        }),
{
    let n = x.dims[0] as int;
    let m = x.dims[1] as int;
    lemma_count_2(x.dims);
    lemma_row_bounds(n - 1, n, m);
    let last = x.elems.subrange((n - 1) * m, n * m);
    assert(row_of(x.elems, m, n - 1) =~= last);
    lemma_champion_is_first(last, m as nat);
    lemma_champion_is_largest(last, m as nat, j);
}

} // verus!
