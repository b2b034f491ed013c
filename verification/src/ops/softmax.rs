//! Softmax over the last dimension.
use crate::scalar::{zero, Scalar};
use crate::shape::{count, lemma_count_split, lemma_place_2, lemma_unplace_2};
use crate::tensor::{Array, TensorMut};
use vstd::arithmetic::div_mod::lemma_div_by_multiple;
use vstd::prelude::*;

verus! {

/// Whether row `i` sees column `j`: always, or, with `causal`, up to its own place after `past`
/// earlier ones.
pub open spec fn sees(causal: bool, past: int, i: int, j: int) -> bool {
    !causal || i + past >= j
}

/// Row `r` of a matrix of `n` columns.
pub open spec fn row_of<S>(x: Seq<S>, n: int, r: int) -> Seq<S> {
    x.subrange(r * n, (r + 1) * n)
}

/// How many rows of `n` columns `size` elements make.
pub open spec fn rows_in(size: nat, n: int) -> int {
    if n == 0 {
        0
    } else {
        size as int / n
    }
}

/// The first of the largest among the first `upto` elements of a row that row `i` sees.
pub open spec fn peak<S: Scalar>(causal: bool, past: int, i: int, row: Seq<S>, upto: nat) -> S
    decreases upto,
{
    if upto == 0 {
        S::lowest()
    } else {
        let best = peak(causal, past, i, row, (upto - 1) as nat);
        if sees(causal, past, i, upto - 1) && row[upto - 1].exceeds(best) {
            row[upto - 1]
        } else {
            best
        }
    }
}

/// The sum, from the left, of the exponentials of those of the first `upto` elements of a row that
/// row `i` sees, each taken relative to `top`.
pub open spec fn mass<S: Scalar>(
    causal: bool,
    past: int,
    i: int,
    top: S,
    row: Seq<S>,
    upto: nat,
) -> S
    decreases upto,
{
    if upto == 0 {
        zero::<S>()
    } else {
        let sum = mass(causal, past, i, top, row, (upto - 1) as nat);
        if sees(causal, past, i, upto - 1) {
            sum.plus(row[upto - 1].minus(top).exponential())
        } else {
            sum
        }
    }
}

/// The divisor of row `i` of a matrix whose rows are counted on to `r` over the stack.
pub open spec fn row_mass<S: Scalar>(
    causal: bool,
    past: int,
    r: int,
    i: int,
    row: Seq<S>,
) -> S {
    mass(causal, past, i, peak(causal, past, r, row, row.len()), row, row.len())
}

/// The softmax of a row: what it sees is exponentiated relative to the row's largest element and
/// divided by the sum, the rest is zero. The largest element is sought among the columns that row
/// `r` of the stack would see; the sum runs over those that row `i` of its matrix sees.
pub open spec fn soft_row<S: Scalar>(
    causal: bool,
    past: int,
    r: int,
    i: int,
    row: Seq<S>,
) -> Seq<S> {
    let top = peak(causal, past, r, row, row.len());
    Seq::new(
        row.len(),
        |j: int|
            if sees(causal, past, i, j) {
                row[j].minus(top).exponential().over(row_mass(causal, past, r, i, row))
            } else {
                zero::<S>()
            },
    )
}

/// The softmax of every row of a stack of matrices of `m` rows and `n` columns.
pub open spec fn soft_elems<S: Scalar>(
    causal: bool,
    past: int,
    m: int,
    n: int,
    x: Seq<S>,
) -> Seq<S> {
    Seq::new(
        x.len(),
        |p: int| soft_row(causal, past, p / n, (p / n) % m, row_of(x, n, p / n))[p % n],
    )
}

/// The softmax of `x` over its last dimension.
pub open spec fn softened<S: Scalar>(causal: bool, past: int, x: Array<S>) -> Array<S> {
    let d = x.dims.len() as int;
    Array {
        dims: x.dims,
        elems: soft_elems(causal, past, x.dims[d - 2] as int, x.dims[d - 1] as int, x.elems),
    }
}

/// What the scratch space holds after a softmax: every row's divisor, and behind them what it held.
pub open spec fn divisors<S: Scalar>(
    causal: bool,
    past: int,
    x: Array<S>,
    scratch: Seq<S>,
) -> Seq<S> {
    let d = x.dims.len() as int;
    let m = x.dims[d - 2] as int;
    let n = x.dims[d - 1] as int;
    Seq::new(
        scratch.len(),
        |r: int|
            if r < rows_in(x.elems.len(), n) {
                row_mass(causal, past, r, r % m, row_of(x.elems, n, r))
            } else {
                scratch[r]
            },
    )
}

/// When a softmax accepts its operands: `x` is a stack of matrices, and the scratch space holds one
/// element for each of their rows.
pub open spec fn softmax_fits(x: Seq<usize>, scratch: nat) -> bool {
    let d = x.len() as int;
    &&& d >= 2
    &&& count(x.take(d - 2)) * x[d - 2] <= scratch
}

fn sees_column(causal: bool, past: usize, i: usize, j: usize) -> (r: bool)
    ensures
        r == sees(causal, past as int, i as int, j as int),
{
    !causal || j <= past || j - past <= i
}

fn soften_row<S: Scalar>(causal: bool, past: usize, r: usize, i: usize, row: &mut [S]) -> (total: S)
    ensures
        final(row)@ == soft_row(causal, past as int, r as int, i as int, old(row)@),
        total == row_mass(causal, past as int, r as int, i as int, old(row)@),
{
    let ghost before = row@;
    let n: usize = row.len();
    let mut top = S::neg_infinity();
    let mut j: usize = 0;
    while j < n
        invariant
            j <= n == row@.len(),
            top == peak(causal, past as int, r as int, row@, j as nat),
        decreases n - j,
    {
        if sees_column(causal, past, r, j) && row[j].gt(top) {
            top = row[j];
        }
        j += 1;
    }
    let mut total = S::from_usize(0);
    let mut j: usize = 0;
    while j < n
        invariant
            j <= n == row@.len(),
            row@.len() == before.len(),
            total == mass(causal, past as int, i as int, top, before, j as nat),
            forall|x: int| 0 <= x < j ==> row@[x] == before[x].minus(top).exponential(),
            forall|x: int| j <= x < n ==> row@[x] == before[x],
        decreases n - j,
    {
        let weight = row[j].sub(top).exp();
        row[j] = weight;
        if sees_column(causal, past, i, j) {
            total = total.add(weight);
        }
        j += 1;
    }
    let mut j: usize = 0;
    while j < n
        invariant
            j <= n == row@.len(),
            row@.len() == before.len(),
            forall|x: int|
                0 <= x < j ==> #[trigger] row@[x] == if sees(causal, past as int, i as int, x) {
                    before[x].minus(top).exponential().over(total)
                } else {
                    zero::<S>()
                },
            forall|x: int| j <= x < n ==> row@[x] == before[x].minus(top).exponential(),
        decreases n - j,
    {
        row[j] = if sees_column(causal, past, i, j) {
            row[j].div(total)
        } else {
            S::from_usize(0)
        };
        j += 1;
    }
    assert(row@ =~= soft_row(causal, past as int, r as int, i as int, before));
    total
}

fn soften_rows<S: Scalar>(
    causal: bool,
    past: usize,
    rows: usize,
    m: usize,
    n: usize,
    x: &mut [S],
    scratch: &mut [S],
)
    requires
        m > 0,
        n > 0,
        old(x)@.len() == rows * n,
        rows <= old(scratch)@.len(),
    ensures
        final(x)@ == soft_elems(causal, past as int, m as int, n as int, old(x)@),
        final(scratch)@.len() == old(scratch)@.len(),
        forall|r: int|
            0 <= r < final(scratch)@.len() ==> #[trigger] final(scratch)@[r] == if r < rows {
                row_mass(
                    causal,
                    past as int,
                    r,
                    r % (m as int),
                    row_of(old(x)@, n as int, r),
                )
            } else {
                old(scratch)@[r]
            },
{
    let ghost before = x@;
    let ghost held = scratch@;
    let ghost whole = soft_elems(causal, past as int, m as int, n as int, before);
    let mut r: usize = 0;
    while r < rows
        invariant
            m > 0,
            n > 0,
            r <= rows <= scratch@.len(),
            before.len() == rows * n,
            x@.len() == before.len(),
            scratch@.len() == held.len(),
            whole == soft_elems(causal, past as int, m as int, n as int, before),
            forall|p: int|
                0 <= p < x@.len() ==> #[trigger] x@[p] == if p < r * n {
                    whole[p]
                } else {
                    before[p]
                },
            forall|q: int|
                0 <= q < scratch@.len() ==> #[trigger] scratch@[q] == if q < r {
                    row_mass(
                        causal,
                        past as int,
                        q,
                        q % (m as int),
                        row_of(before, n as int, q),
                    )
                } else {
                    held[q]
                },
        decreases rows - r,
    {
        proof {
            assert(0 <= r * n <= (r + 1) * n <= rows * n && (r + 1) * n - r * n == n)
                by (nonlinear_arith)
                requires
                    0 <= r < rows,
                    n > 0,
            ;
            assert(x.len() == x@.len());
        }
        let (_head, tail) = x.split_at_mut(r * n);
        let (row, _rest) = tail.split_at_mut(n);
        assert(row@ =~= row_of(before, n as int, r as int));
        let total = soften_row(causal, past, r, r % m, row);
        scratch[r] = total;
        proof {
            assert forall|p: int| 0 <= p < x@.len() implies #[trigger] x@[p] == if p < (r + 1) * n {
                whole[p]
            } else {
                before[p]
            } by {
                if r * n <= p < (r + 1) * n {
                    lemma_place_2(r as int, p - r * n, rows as int, n as int);
                }
            }
        }
        r += 1;
    }
    assert(x@ =~= whole);
}

fn g_softmax<const CAUSAL: bool, S: Scalar, TM: TensorMut<S>>(
    x: &mut TM,
    max: &mut [S],
    past_sequence_length: usize,
)
    requires
        old(x)@.wf(),
        softmax_fits(old(x)@.dims, old(max)@.len()),
    ensures
        final(x)@ == softened(CAUSAL, past_sequence_length as int, old(x)@),
        final(x)@.wf(),
        final(max)@ == divisors(CAUSAL, past_sequence_length as int, old(x)@, old(max)@),
{
    let ghost before = x@;
    let ghost held = max@;
    let size: usize = x.data().len();
    let dim: usize = x.shape().len();
    let m: usize = x.shape()[dim - 2];
    let n: usize = x.shape()[dim - 1];
    if size == 0 {
        proof {
            assert(x@ =~= softened(CAUSAL, past_sequence_length as int, x@));
            if n > 0 {
                assert(0int / n as int == 0);
            }
            assert(max@ =~= divisors(CAUSAL, past_sequence_length as int, before, held));
        }
        return ;
    }
    let ghost batches = count(x@.dims.take(dim - 2)) as int;
    proof {
        lemma_count_split(x@.dims);
        assert(size == (batches * m) * n) by (nonlinear_arith)
            requires
                size == batches * (m * n),
        ;
        assert(m > 0 && n > 0) by (nonlinear_arith)
            requires
                size == (batches * m) * n,
                size > 0,
                batches >= 0,
                m >= 0,
                n >= 0,
        ;
        lemma_div_by_multiple(batches * m, n as int);
    }
    let rows: usize = size / n;
    soften_rows(CAUSAL, past_sequence_length, rows, m, n, x.data_mut(), max);
    assert(max@ =~= divisors(CAUSAL, past_sequence_length as int, before, held));
}

/// Replaces every row of `x` by its softmax. `max` is scratch space.
pub fn softmax<S: Scalar, TM: TensorMut<S>>(x: &mut TM, max: &mut [S])
    requires
        old(x)@.wf(),
        softmax_fits(old(x)@.dims, old(max)@.len()),
    ensures
        final(x)@ == softened(false, 0, old(x)@),
        final(x)@.wf(),
        final(max)@ == divisors(false, 0, old(x)@, old(max)@),
{
    g_softmax::<false, S, TM>(x, max, 0)
}

/// Replaces every row of `x` by the softmax of what its position sees, where
/// `past_sequence_length` positions precede the first row. `max` is scratch space.
pub fn causal_softmax<S: Scalar, TM: TensorMut<S>>(
    x: &mut TM,
    max: &mut [S],
    past_sequence_length: usize,
)
    requires
        old(x)@.wf(),
        softmax_fits(old(x)@.dims, old(max)@.len()),
    ensures
        final(x)@ == softened(true, past_sequence_length as int, old(x)@),
        final(x)@.wf(),
        final(max)@ == divisors(true, past_sequence_length as int, old(x)@, old(max)@),
{
    g_softmax::<true, S, TM>(x, max, past_sequence_length)
}

/// The row of an element lies inside its tensor.
proof fn lemma_row_inside<S>(x: Array<S>, p: int)
    requires
        x.wf(),
        x.dims.len() >= 2,
        0 <= p < x.elems.len(),
    ensures
        ({
            let n = x.dims[x.dims.len() - 1] as int;
            &&& 0 <= p % n < n
            &&& 0 <= p / n * n
            &&& (p / n + 1) * n <= x.elems.len()
            &&& (p / n + 1) * n - p / n * n == n
        }),
{
    let d = x.dims.len() as int;
    let m = x.dims[d - 2] as int;
    let n = x.dims[d - 1] as int;
    lemma_count_split(x.dims);
    let b = count(x.dims.take(d - 2)) as int;
    assert(b * (m * n) == (b * m) * n && (n == 0 ==> (b * m) * n == 0)) by (nonlinear_arith);
    lemma_unplace_2(p, b * m, n);
    assert(0 <= p / n * n && (p / n + 1) * n <= (b * m) * n && (p / n + 1) * n - p / n * n == n)
        by (nonlinear_arith)
        requires
            0 <= p / n < b * m,
            n > 0,
    ;
}

/// What a row does not see is given nothing.
pub proof fn lemma_unseen_is_zero<S: Scalar>(past: int, x: Array<S>, p: int)
    requires
        x.wf(),
        x.dims.len() >= 2,
        0 <= p < x.elems.len(),
        ({
            let d = x.dims.len() as int;
            let m = x.dims[d - 2] as int;
            let n = x.dims[d - 1] as int;
            p % n > (p / n) % m + past
        }),
    ensures
        softened(true, past, x).elems[p] == zero::<S>(),
{
    let d = x.dims.len() as int;
    let m = x.dims[d - 2] as int;
    let n = x.dims[d - 1] as int;
    lemma_row_inside(x, p);
}

/// What is not looked at has no say: where two stacks agree on the columns that each row would see if
/// rows were counted on over the stack, their softmax agrees. In the first matrix these are the
/// columns that the row sees.
pub proof fn lemma_unseen_has_no_say<S: Scalar>(past: int, x: Array<S>, y: Array<S>)
    requires
        x.wf(),
        y.wf(),
        x.dims.len() >= 2,
        y.dims == x.dims,
        ({
            let n = x.dims[x.dims.len() - 1] as int;
            forall|p: int|
                0 <= p < x.elems.len() && p % n <= p / n + past ==> #[trigger] x.elems[p]
                    == y.elems[p]
        }),
    ensures
        softened(true, past, x) == softened(true, past, y),
{
    let d = x.dims.len() as int;
    let m = x.dims[d - 2] as int;
    let n = x.dims[d - 1] as int;
    assert forall|p: int| 0 <= p < x.elems.len() implies softened(true, past, x).elems[p]
        == #[trigger] softened(true, past, y).elems[p] by {
        lemma_row_inside(x, p);
        lemma_row_place(x, p / n, p % n);
        let r = p / n;
        let i = r % m;
        let a = row_of(x.elems, n, r);
        let b = row_of(y.elems, n, r);
        assert forall|j: int| 0 <= j < n && j <= past + r implies #[trigger] a[j] == b[j] by {
            lemma_place_2(r, j, r + 1, n);
            assert(x.elems[r * n + j] == y.elems[r * n + j]);
        }
        lemma_peak_agrees(past, r, a, past, r, b, n as nat);
        lemma_mass_agrees(past, i, peak(true, past, r, a, n as nat), a, past, i, b, n as nat);
        assert(p % n <= past + i ==> a[p % n] == b[p % n]);
    }
    assert(softened(true, past, x).elems =~= softened(true, past, y).elems);
}

proof fn lemma_peak_agrees<S: Scalar>(
    past1: int,
    r1: int,
    a: Seq<S>,
    past2: int,
    r2: int,
    b: Seq<S>,
    upto: nat,
)
    requires
        upto <= a.len(),
        upto <= b.len(),
        past1 + r1 == past2 + r2,
        forall|j: int| 0 <= j < upto && j <= past1 + r1 ==> #[trigger] a[j] == b[j],
    ensures
        peak(true, past1, r1, a, upto) == peak(true, past2, r2, b, upto),
    decreases upto,
{
    if upto > 0 {
        lemma_peak_agrees(past1, r1, a, past2, r2, b, (upto - 1) as nat);
        assert(upto - 1 <= past1 + r1 ==> a[upto - 1] == b[upto - 1]);
    }
}

proof fn lemma_mass_agrees<S: Scalar>(
    past1: int,
    i1: int,
    top: S,
    a: Seq<S>,
    past2: int,
    i2: int,
    b: Seq<S>,
    upto: nat,
)
    requires
        upto <= a.len(),
        upto <= b.len(),
        past1 + i1 == past2 + i2,
        forall|j: int| 0 <= j < upto && j <= past1 + i1 ==> #[trigger] a[j] == b[j],
    ensures
        mass(true, past1, i1, top, a, upto) == mass(true, past2, i2, top, b, upto),
    decreases upto,
{
    if upto > 0 {
        lemma_mass_agrees(past1, i1, top, a, past2, i2, b, (upto - 1) as nat);
        assert(upto - 1 <= past1 + i1 ==> a[upto - 1] == b[upto - 1]);
    }
}

/// Whether no element that row `i` does not see is above the largest that it sees.
pub open spec fn unrivalled<S: Scalar>(past: int, i: int, row: Seq<S>) -> bool {
    forall|j: int|
        past + i < j < row.len() ==> !(#[trigger] row[j]).exceeds(
            peak(true, past, i, row, row.len()),
        )
}

/// Columns that are not seen leave the largest element and the divisor as they are.
proof fn lemma_unseen_tail<S: Scalar>(past: int, i: int, top: S, row: Seq<S>, upto: nat)
    requires
        past + i < upto <= row.len(),
    ensures
        peak(true, past, i, row, upto) == peak(true, past, i, row, row.len()),
        mass(true, past, i, top, row, upto) == mass(true, past, i, top, row, row.len()),
    decreases row.len() - upto,
{
    if upto < row.len() {
        lemma_unseen_tail(past, i, top, row, upto + 1);
    }
}

/// A row that looks further than it sees finds nothing larger, where nothing is.
proof fn lemma_peak_unrivalled<S: Scalar>(past: int, i: int, r: int, row: Seq<S>, upto: nat)
    requires
        i <= r,
        i == r || unrivalled(past, i, row),
        upto <= row.len(),
    ensures
        peak(true, past, r, row, upto) == peak(true, past, i, row, upto),
    decreases upto,
{
    if i < r && upto > 0 {
        lemma_peak_unrivalled(past, i, r, row, (upto - 1) as nat);
        if upto - 1 > past + i {
            lemma_unseen_tail(past, i, zero::<S>(), row, (upto - 1) as nat);
            assert(!row[upto - 1].exceeds(peak(true, past, i, row, row.len())));
        }
    }
}

/// What holds of a row holds of the start of it that holds all that is seen.
pub proof fn lemma_unrivalled_start<S: Scalar>(past: int, i: int, row: Seq<S>, start: Seq<S>)
    requires
        unrivalled(past, i, row),
        0 <= past + i < start.len() <= row.len(),
        forall|j: int| 0 <= j < start.len() ==> #[trigger] row[j] == start[j],
    ensures
        unrivalled(past, i, start),
{
    let seen = (past + i + 1) as nat;
    lemma_unseen_tail(past, i, zero::<S>(), row, seen);
    lemma_unseen_tail(past, i, zero::<S>(), start, seen);
    lemma_peak_agrees(past, i, row, past, i, start, seen);
    assert forall|j: int| past + i < j < start.len() implies !(#[trigger] start[j]).exceeds(
        peak(true, past, i, start, start.len()),
    ) by {
        assert(!row[j].exceeds(peak(true, past, i, row, row.len())));
    }
}

/// What a row becomes is decided by the columns that it sees, wherever it stands, where nothing that
/// it does not see is larger.
pub proof fn lemma_soft_row_decided<S: Scalar>(
    past1: int,
    r1: int,
    i1: int,
    a: Seq<S>,
    past2: int,
    r2: int,
    i2: int,
    b: Seq<S>,
    j: int,
)
    requires
        i1 <= r1,
        i2 <= r2,
        i1 == r1 || unrivalled(past1, i1, a),
        i2 == r2 || unrivalled(past2, i2, b),
        0 <= past1 + i1 == past2 + i2,
        a.len() == b.len() || (past1 + i1 < a.len() && past1 + i1 < b.len()),
        forall|p: int|
            0 <= p < a.len() && p < b.len() && p <= past1 + i1 ==> #[trigger] a[p] == b[p],
        0 <= j < a.len(),
        j < b.len(),
    ensures
        soft_row(true, past1, r1, i1, a)[j] == soft_row(true, past2, r2, i2, b)[j],
{
    let seen: nat = if past1 + i1 < a.len() {
        (past1 + i1 + 1) as nat
    } else {
        a.len()
    };
    let top = peak(true, past1, i1, a, a.len());
    lemma_peak_unrivalled(past1, i1, r1, a, a.len());
    lemma_peak_unrivalled(past2, i2, r2, b, b.len());
    if past1 + i1 < a.len() {
        lemma_unseen_tail(past1, i1, top, a, seen);
        lemma_unseen_tail(past2, i2, top, b, seen);
    }
    lemma_peak_agrees(past1, i1, a, past2, i2, b, seen);
    lemma_mass_agrees(past1, i1, top, a, past2, i2, b, seen);
    assert(peak(true, past2, i2, b, b.len()) == top);
}

/// What row `r1` of a stack becomes is what row `r2` of another becomes, where the two see equally
/// far and see the same: neither what they do not see, nor other rows, nor the place of their
/// matrices in the stacks has a say. A row of a later matrix must not hold, unseen, an element above
/// all that it sees.
pub proof fn lemma_row_decided_by_what_it_sees<S: Scalar>(
    past1: int,
    x: Array<S>,
    r1: int,
    past2: int,
    y: Array<S>,
    r2: int,
    j: int,
)
    requires
        x.wf(),
        y.wf(),
        x.dims.len() >= 2,
        y.dims.len() >= 2,
        ({
            let m1 = x.dims[x.dims.len() - 2] as int;
            let n1 = x.dims[x.dims.len() - 1] as int;
            let m2 = y.dims[y.dims.len() - 2] as int;
            let n2 = y.dims[y.dims.len() - 1] as int;
            let a = row_of(x.elems, n1, r1);
            let b = row_of(y.elems, n2, r2);
            let i1 = r1 % m1;
            let i2 = r2 % m2;
            &&& 0 <= r1 && (r1 + 1) * n1 <= x.elems.len()
            &&& 0 <= r2 && (r2 + 1) * n2 <= y.elems.len()
            &&& 0 <= past1 + i1 == past2 + i2
            &&& r1 < m1 || unrivalled(past1, i1, a)
            &&& r2 < m2 || unrivalled(past2, i2, b)
            &&& n1 == n2 || (past1 + i1 < n1 && past1 + i1 < n2)
            &&& forall|p: int|
                0 <= p < n1 && p < n2 && p <= past1 + i1 ==> #[trigger] a[p] == b[p]
            &&& 0 <= j < n1 && j < n2
        }),
    ensures
        softened(true, past1, x).elems[r1 * x.dims[x.dims.len() - 1] + j] == softened(
            true,
            past2,
            y,
        ).elems[r2 * y.dims[y.dims.len() - 1] + j],
{
    let m1 = x.dims[x.dims.len() - 2] as int;
    let n1 = x.dims[x.dims.len() - 1] as int;
    let m2 = y.dims[y.dims.len() - 2] as int;
    let n2 = y.dims[y.dims.len() - 1] as int;
    lemma_row_place(x, r1, j);
    lemma_row_place(y, r2, j);
    lemma_soft_row_decided(
        past1,
        r1,
        r1 % m1,
        row_of(x.elems, n1, r1),
        past2,
        r2,
        r2 % m2,
        row_of(y.elems, n2, r2),
        j,
    );
}

/// Where element `j` of row `r` of a stack stands.
pub proof fn lemma_row_place<S>(x: Array<S>, r: int, j: int)
    requires
        x.wf(),
        x.dims.len() >= 2,
        0 <= r,
        0 <= j < x.dims[x.dims.len() - 1],
        (r + 1) * x.dims[x.dims.len() - 1] <= x.elems.len(),
    ensures
        ({
            let m = x.dims[x.dims.len() - 2] as int;
            let n = x.dims[x.dims.len() - 1] as int;
            let p = r * n + j;
            &&& 0 <= p < x.elems.len()
            &&& p / n == r
            &&& p % n == j
            &&& row_of(x.elems, n, r).len() == n
            &&& 0 <= r % m <= r
            &&& r < m ==> r % m == r
        }),
{
    let m = x.dims[x.dims.len() - 2] as int;
    let n = x.dims[x.dims.len() - 1] as int;
    let d = x.dims.len() as int;
    lemma_place_2(r, j, r + 1, n);
    lemma_count_split(x.dims);
    let b = count(x.dims.take(d - 2)) as int;
    assert(m > 0) by (nonlinear_arith)
        requires
            b * (m * n) > 0,
            m >= 0,
    ;
    assert((r + 1) * n == r * n + n && 0 <= r * n) by (nonlinear_arith)
        requires
            0 <= r,
            0 < n,
    ;
    if r < m {
        vstd::arithmetic::div_mod::lemma_small_mod(r as nat, m as nat);
    }
    vstd::arithmetic::div_mod::lemma_mod_decreases(r as nat, m as nat);
}

/// Two rows of the same elements that are looked at equally far have the same largest element.
pub proof fn lemma_peak_same_reach<S: Scalar>(
    past1: int,
    r1: int,
    past2: int,
    r2: int,
    row: Seq<S>,
    upto: nat,
)
    requires
        past1 + r1 == past2 + r2 || (past1 + r1 + 1 >= upto && past2 + r2 + 1 >= upto),
    ensures
        peak(true, past1, r1, row, upto) == peak(true, past2, r2, row, upto),
    decreases upto,
{
    if upto > 0 {
        lemma_peak_same_reach(past1, r1, past2, r2, row, (upto - 1) as nat);
    }
}

/// Two rows of the same elements that see equally far have the same divisor.
pub proof fn lemma_mass_same_reach<S: Scalar>(
    past1: int,
    i1: int,
    past2: int,
    i2: int,
    top: S,
    row: Seq<S>,
    upto: nat,
)
    requires
        past1 + i1 == past2 + i2,
    ensures
        mass(true, past1, i1, top, row, upto) == mass(true, past2, i2, top, row, upto),
    decreases upto,
{
    if upto > 0 {
        lemma_mass_same_reach(past1, i1, past2, i2, top, row, (upto - 1) as nat);
    }
}

} // verus!
