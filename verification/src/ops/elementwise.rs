//! Operations that treat elements one by one.
use crate::scalar::Scalar;
use crate::shape::{
    count, lemma_count_1, lemma_count_2, lemma_count_front, lemma_place_2, same_shape,
};
use crate::tensor::{Array, Tensor, TensorMut};
use vstd::prelude::*;
use vstd::slice::slice_subrange;

verus! {

/// When a tensor of shape `a` can be added to, or multiplied into, one of shape `b`: the shapes
/// agree, or `a` is the shape of each of the parts along the first dimension of `b`.
pub open spec fn combine_fits(a: Seq<usize>, b: Seq<usize>) -> bool {
    ||| a == b
    ||| b.len() >= 1 && b.skip(1) == a && (b[0] == 0 || a.len() >= 1)
}

/// Whether a tensor of shape `a` can be combined into one of shape `b`.
pub fn combinable(a: &[usize], b: &[usize]) -> (r: bool)
    ensures
        r == combine_fits(a@, b@),
{
    if same_shape(a, b) {
        return true;
    }
    if b.len() == 0 {
        return false;
    }
    let rest = slice_subrange(b, 1, b.len());
    assert(rest@ =~= b@.skip(1));
    same_shape(rest, a) && (b[0] == 0 || a.len() >= 1)
}

/// `x` with `y` added, or multiplied in.
pub open spec fn combine_two<S: Scalar>(times: bool, x: S, y: S) -> S {
    if times {
        x.times(y)
    } else {
        x.plus(y)
    }
}

/// `b` with `a` combined into the elements from `offset` on, as far as `b` goes.
pub open spec fn combine_at<S: Scalar>(times: bool, a: Seq<S>, offset: int, b: Seq<S>) -> Seq<S> {
    Seq::new(
        b.len(),
        |x: int|
            if offset <= x < offset + a.len() {
                combine_two(times, b[x], a[x - offset])
            } else {
                b[x]
            },
    )
}

/// `b` with `a` combined into it `n` times, each time `step` elements further on.
pub open spec fn combine_each<S: Scalar>(
    times: bool,
    a: Seq<S>,
    step: int,
    b: Seq<S>,
    n: nat,
) -> Seq<S>
    decreases n,
{
    if n == 0 {
        b
    } else {
        combine_at(
            times,
            a,
            (n - 1) * step,
            combine_each(times, a, step, b, (n - 1) as nat),
        )
    }
}

/// `b` with `a` combined into it. Where `a` is the shape of the parts of `b`, it is combined into
/// `b` once per part, each time as many elements further on as the first dimension of `a` says:
/// for a vector `a`, once into every row.
pub open spec fn combined<S: Scalar>(times: bool, a: Array<S>, b: Array<S>) -> Array<S> {
    Array {
        dims: b.dims,
        elems: if a.dims == b.dims {
            combine_at(times, a.elems, 0, b.elems)
        } else {
            combine_each(times, a.elems, a.dims[0] as int, b.elems, b.dims[0] as nat)
        },
    }
}

/// `b` with `a` added.
pub open spec fn added<S: Scalar>(a: Array<S>, b: Array<S>) -> Array<S> {
    combined(false, a, b)
}

/// `b` with `a` multiplied in.
pub open spec fn multiplied<S: Scalar>(a: Array<S>, b: Array<S>) -> Array<S> {
    combined(true, a, b)
}

fn combine_slice_at<S: Scalar>(times: bool, a: &[S], offset: usize, b: &mut [S])
    ensures
        final(b)@ == combine_at(times, a@, offset as int, old(b)@),
{
    let mut i: usize = 0;
    while i < a.len() && offset <= b.len() && i < b.len() - offset
        invariant
            i <= a@.len(),
            b@.len() == old(b)@.len(),
            i == 0 || offset + i <= b@.len(),
            forall|x: int|
                0 <= x < b@.len() ==> #[trigger] b@[x] == (if offset <= x < offset + i {
                    combine_two(times, old(b)@[x], a@[x - offset])
                } else {
                    old(b)@[x]
                }),
        decreases a@.len() - i,
    {
        let x = b[offset + i];
        let y = a[i];
        b[offset + i] = if times {
            x.mul(y)
        } else {
            x.add(y)
        };
        i += 1;
    }
    assert(b@ =~= combine_at(times, a@, offset as int, old(b)@));
}

proof fn lemma_combine_nothing<S: Scalar>(times: bool, a: Seq<S>, step: int, b: Seq<S>, n: nat)
    requires
        a.len() == 0,
    ensures
        combine_each(times, a, step, b, n) == b,
    decreases n,
{
    if n > 0 {
        lemma_combine_nothing(times, a, step, b, (n - 1) as nat);
        assert(combine_at(times, a, (n - 1) * step, b) =~= b);
    }
}

fn combine_slice<S: Scalar>(times: bool, a: &[S], step: usize, b: &mut [S], n: usize)
    requires
        a@.len() > 0 ==> n * step <= usize::MAX,
    ensures
        final(b)@ == combine_each(times, a@, step as int, old(b)@, n as nat),
{
    if a.len() == 0 {
        proof {
            lemma_combine_nothing(times, a@, step as int, b@, n as nat);
        }
        return ;
    }
    let mut i: usize = 0;
    while i < n
        invariant
            i <= n,
            n * step <= usize::MAX,
            b@ == combine_each(times, a@, step as int, old(b)@, i as nat),
        decreases n - i,
    {
        proof {
            assert(i * step <= n * step) by (nonlinear_arith)
                requires
                    i <= n,
                    step >= 0,
            ;
        }
        combine_slice_at(times, a, i * step, b);
        i += 1;
    }
}

fn combine<S: Scalar, T: Tensor<S>, TM: TensorMut<S>>(times: bool, a: &T, b: &mut TM)
    requires
        a@.wf(),
        old(b)@.wf(),
        combine_fits(a@.dims, old(b)@.dims),
    ensures
        final(b)@ == combined(times, a@, old(b)@),
        final(b)@.wf(),
{
    let ghost before = b@;
    if same_shape(a.shape(), b.shape()) {
        combine_slice_at(times, a.data(), 0, b.data_mut());
    } else {
        let n: usize = b.shape()[0];
        let size: usize = b.data().len();
        if n > 0 {
            let step: usize = a.shape()[0];
            proof {
                if a@.elems.len() > 0 {
                    lemma_step_fits(a@, before);
                    assert(n * step <= size);
                }
            }
            combine_slice(times, a.data(), step, b.data_mut(), n);
        }
        proof {
            lemma_combine_each_len(times, a@.elems, a@.dims[0] as int, before.elems, n as nat);
        }
    }
}

proof fn lemma_step_fits<S>(a: Array<S>, b: Array<S>)
    requires
        a.wf(),
        b.wf(),
        b.dims.len() >= 1,
        a.dims.len() >= 1,
        b.dims.skip(1) == a.dims,
        a.elems.len() > 0,
    ensures
        b.dims[0] * a.dims[0] <= b.elems.len(),
{
    lemma_count_front(b.dims);
    lemma_count_front(a.dims);
    let n = b.dims[0] as int;
    let d = a.dims[0] as int;
    let rest = count(a.dims.skip(1)) as int;
    assert(n * d <= n * (d * rest)) by (nonlinear_arith)
        requires
            n >= 0,
            d >= 0,
            rest >= 0,
            d * rest > 0,
    ;
}

/// Combining keeps the number of elements.
pub proof fn lemma_combine_each_len<S: Scalar>(
    times: bool,
    a: Seq<S>,
    step: int,
    b: Seq<S>,
    n: nat,
)
    ensures
        combine_each(times, a, step, b, n).len() == b.len(),
    decreases n,
{
    if n > 0 {
        lemma_combine_each_len(times, a, step, b, (n - 1) as nat);
    }
}

/// Adds `a` to `b`.
pub fn add<S: Scalar, T: Tensor<S>, TM: TensorMut<S>>(a: &T, b: &mut TM)
    requires
        a@.wf(),
        old(b)@.wf(),
        combine_fits(a@.dims, old(b)@.dims),
    ensures
        final(b)@ == added(a@, old(b)@),
        final(b)@.wf(),
{
    combine(false, a, b)
}

/// Multiplies `a` into `b`.
pub fn mul<S: Scalar, T: Tensor<S>, TM: TensorMut<S>>(a: &T, b: &mut TM)
    requires
        a@.wf(),
        old(b)@.wf(),
        combine_fits(a@.dims, old(b)@.dims),
    ensures
        final(b)@ == multiplied(a@, old(b)@),
        final(b)@.wf(),
{
    combine(true, a, b)
}

/// A vector is combined into a matrix once per row: every element meets the vector's element of its
/// column.
pub proof fn lemma_combined_rows<S: Scalar>(times: bool, a: Array<S>, b: Array<S>, i: int, j: int)
    requires
        a.wf(),
        b.wf(),
        b.dims.len() == 2,
        a.dims == b.dims.skip(1),
        0 <= i < b.dims[0],
        0 <= j < b.dims[1],
    ensures
        combined(times, a, b).elems[i * b.dims[1] + j] == combine_two(
            times,
            b.elems[i * b.dims[1] + j],
            a.elems[j],
        ),
{
    let rows = b.dims[0] as int;
    let columns = b.dims[1] as int;
    lemma_count_2(b.dims);
    lemma_count_1(a.dims);
    lemma_rows_upto(times, a.elems, columns, b.elems, rows, rows as nat, i, j);
}

proof fn lemma_rows_upto<S: Scalar>(
    times: bool,
    a: Seq<S>,
    columns: int,
    b: Seq<S>,
    rows: int,
    n: nat,
    i: int,
    j: int,
)
    requires
        a.len() == columns,
        b.len() == rows * columns,
        0 <= i < rows,
        0 <= j < columns,
        n <= rows,
    ensures
        combine_each(times, a, columns, b, n)[i * columns + j] == (if i < n {
            combine_two(times, b[i * columns + j], a[j])
        } else {
            b[i * columns + j]
        }),
    decreases n,
{
    lemma_place_2(i, j, rows, columns);
    lemma_combine_each_len(times, a, columns, b, n);
    if n > 0 {
        lemma_rows_upto(times, a, columns, b, rows, (n - 1) as nat, i, j);
        lemma_combine_each_len(times, a, columns, b, (n - 1) as nat);
        let x = i * columns + j;
        let start = (n - 1) * columns;
        if i < n - 1 {
            assert(x < start) by (nonlinear_arith)
                requires
                    x == i * columns + j,
                    start == (n - 1) * columns,
                    i + 1 <= n - 1,
                    j < columns,
                    columns > 0,
            ;
        } else if i > n - 1 {
            assert(x >= start + columns) by (nonlinear_arith)
                requires
                    x == i * columns + j,
                    start == (n - 1) * columns,
                    i >= n,
                    j >= 0,
                    columns > 0,
            ;
        }
    }
}

} // verus!
