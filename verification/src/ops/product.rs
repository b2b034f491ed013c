//! Matrix products.
use crate::ops::elementwise::{added, combine_fits};
use crate::scalar::{line, spot, Line, Scalar};
use crate::shape::{count, lemma_count_split, lemma_place_2, lemma_place_3, lemma_unplace_2};
use crate::tensor::{Array, Tensor, TensorMut};
use vstd::arithmetic::div_mod::lemma_div_by_multiple;
use vstd::prelude::*;
use vstd::slice::slice_subrange;

verus! {

/// When the product of tensors of shapes `a` and `b` has shape `c`: all are stacks, of one shape, of
/// matrices that fit. With `transpose` the matrices of `b` are taken with rows for columns.
pub open spec fn product_fits(
    transpose: bool,
    a: Seq<usize>,
    b: Seq<usize>,
    c: Seq<usize>,
) -> bool {
    let d = a.len() as int;
    &&& d >= 2
    &&& b.len() == d
    &&& c.len() == d
    &&& a.take(d - 2) == b.take(d - 2)
    &&& a.take(d - 2) == c.take(d - 2)
    &&& a[d - 1] == if transpose {
        b[d - 1]
    } else {
        b[d - 2]
    }
    &&& c[d - 2] == a[d - 2]
    &&& c[d - 1] == if transpose {
        b[d - 2]
    } else {
        b[d - 1]
    }
}

/// Row `i` of matrix `t` of a stack of `m` by `k` matrices.
pub open spec fn left_row<S>(a: Seq<S>, m: int, k: int, t: int, i: int) -> Line<S> {
    line(a, t * (m * k) + i * k, 1, k as nat)
}

/// Column `j` of matrix `t` of a stack of `k` by `n` matrices, each stored with rows for columns
/// where `transpose` says so.
pub open spec fn right_column<S>(
    transpose: bool,
    b: Seq<S>,
    k: int,
    n: int,
    t: int,
    j: int,
) -> Line<S> {
    if transpose {
        line(b, t * (n * k) + j * k, 1, k as nat)
    } else {
        line(b, t * (n * k) + j, n, k as nat)
    }
}

/// The stack `c` of `m` by `n` matrices with the products of two stacks added to it.
pub open spec fn product_elems<S: Scalar>(
    transpose: bool,
    m: int,
    k: int,
    n: int,
    a: Seq<S>,
    b: Seq<S>,
    c: Seq<S>,
) -> Seq<S> {
    Seq::new(
        c.len(),
        |x: int|
            {
                let t = x / (m * n);
                let y = x % (m * n);
                c[x].dotted(
                    left_row(a, m, k, t, y / n),
                    right_column(transpose, b, k, n, t, y % n),
                )
            },
    )
}

/// `c` with the product of `a` and `b` added to it.
pub open spec fn product<S: Scalar>(
    transpose: bool,
    a: Array<S>,
    b: Array<S>,
    c: Array<S>,
) -> Array<S> {
    let d = a.dims.len() as int;
    Array {
        dims: c.dims,
        elems: product_elems(
            transpose,
            a.dims[d - 2] as int,
            a.dims[d - 1] as int,
            c.dims[d - 1] as int,
            a.elems,
            b.elems,
            c.elems,
        ),
    }
}

/// Entry `(i, j)` of matrix `t` of a product: what row `i` and column `j` leave in it.
pub proof fn lemma_product_entry<S: Scalar>(
    transpose: bool,
    batches: int,
    m: int,
    k: int,
    n: int,
    a: Seq<S>,
    b: Seq<S>,
    c: Seq<S>,
    t: int,
    i: int,
    j: int,
)
    requires
        0 <= t < batches,
        0 <= i < m,
        0 <= j < n,
        c.len() == batches * m * n,
    ensures
        0 <= (t * m + i) * n + j < c.len(),
        product_elems(transpose, m, k, n, a, b, c)[(t * m + i) * n + j] == c[(t * m + i) * n
            + j].dotted(left_row(a, m, k, t, i), right_column(transpose, b, k, n, t, j)),
{
    let x = (t * m + i) * n + j;
    let y = i * n + j;
    lemma_place_3(t, i, j, batches, m, n);
    lemma_place_2(i, j, m, n);
    assert(x == t * (m * n) + y) by (nonlinear_arith)
        requires
            x == (t * m + i) * n + j,
            y == i * n + j,
    ;
    lemma_place_2(t, y, batches, m * n);
}

/// Stacks of `h` matrices of `m` by `k` and `k` by `n` elements fit.
pub proof fn lemma_fits_3(transpose: bool, h: usize, m: usize, k: usize, n: usize)
    ensures
        product_fits(
            transpose,
            seq![h, m, k],
            if transpose {
                seq![h, n, k]
            } else {
                seq![h, k, n]
            },
            seq![h, m, n],
        ),
{
    assert(seq![h, m, k].take(1) =~= seq![h]);
    assert(seq![h, n, k].take(1) =~= seq![h]);
    assert(seq![h, k, n].take(1) =~= seq![h]);
    assert(seq![h, m, n].take(1) =~= seq![h]);
}

/// Matrices of `m` by `k` and `k` by `n` elements fit.
pub proof fn lemma_fits_2(transpose: bool, m: usize, k: usize, n: usize)
    ensures
        product_fits(
            transpose,
            seq![m, k],
            if transpose {
                seq![n, k]
            } else {
                seq![k, n]
            },
            seq![m, n],
        ),
{
    assert(seq![m, k].take(0) =~= Seq::empty());
    assert(seq![n, k].take(0) =~= Seq::empty());
    assert(seq![k, n].take(0) =~= Seq::empty());
    assert(seq![m, n].take(0) =~= Seq::empty());
}

/// A line of a part of a sequence is a line of the sequence.
proof fn lemma_line_part<S>(s: Seq<S>, from: int, to: int, start: int, step: int, k: nat)
    requires
        0 <= from <= to <= s.len(),
        forall|p: int| 0 <= p < k ==> 0 <= #[trigger] spot(start, step, p) < to - from,
    ensures
        line(s.subrange(from, to), start, step, k) == line(s, from + start, step, k),
{
    let part = s.subrange(from, to);
    assert forall|p: int| 0 <= p < k implies line(part, start, step, k)[p] == line(
        s,
        from + start,
        step,
        k,
    )[p] by {
        assert(0 <= spot(start, step, p) < to - from);
    }
    assert(line(part, start, step, k) =~= line(s, from + start, step, k));
}

proof fn lemma_left_row<S>(a: Seq<S>, m: int, k: int, batches: int, t: int, i: int)
    requires
        0 <= t < batches,
        0 <= i < m,
        0 <= k,
        a.len() == batches * (m * k),
    ensures
        0 <= t * (m * k) <= (t + 1) * (m * k) <= a.len(),
        line(a.subrange(t * (m * k), (t + 1) * (m * k)), i * k, 1, k as nat) == left_row(
            a,
            m,
            k,
            t,
            i,
        ),
{
    lemma_part(t, batches, m * k, m, k);
    assert forall|p: int| 0 <= p < k as nat implies 0 <= #[trigger] spot(i * k, 1, p) < (t + 1) * (m
        * k) - t * (m * k) by {
        lemma_place_2(i, p, m, k);
    }
    lemma_line_part(a, t * (m * k), (t + 1) * (m * k), i * k, 1, k as nat);
}

proof fn lemma_right_column<S>(
    transpose: bool,
    b: Seq<S>,
    k: int,
    n: int,
    batches: int,
    t: int,
    j: int,
)
    requires
        0 <= t < batches,
        0 <= j < n,
        0 <= k,
        b.len() == batches * (n * k),
    ensures
        0 <= t * (n * k) <= (t + 1) * (n * k) <= b.len(),
        ({
            let part = b.subrange(t * (n * k), (t + 1) * (n * k));
            right_column(transpose, b, k, n, t, j) == if transpose {
                line(part, j * k, 1, k as nat)
            } else {
                line(part, j * 1, n, k as nat)
            }
        }),
{
    lemma_part(t, batches, n * k, n, k);
    if transpose {
        assert forall|p: int| 0 <= p < k as nat implies 0 <= #[trigger] spot(j * k, 1, p) < (t + 1) * (
        n * k) - t * (n * k) by {
            lemma_place_2(j, p, n, k);
        }
        lemma_line_part(b, t * (n * k), (t + 1) * (n * k), j * k, 1, k as nat);
    } else {
        assert forall|p: int| 0 <= p < k as nat implies 0 <= #[trigger] spot(j * 1, n, p) < (t + 1) * (
        n * k) - t * (n * k) by {
            lemma_place_2(p, j, k, n);
            assert(k * n == n * k) by (nonlinear_arith);
        }
        lemma_line_part(b, t * (n * k), (t + 1) * (n * k), j * 1, n, k as nat);
    }
}

/// Part `t` of a sequence of equal parts lies inside it.
proof fn lemma_part(t: int, parts: int, size: int, n0: int, n1: int)
    requires
        0 <= t < parts,
        size == n0 * n1,
        n0 >= 0,
        n1 >= 0,
    ensures
        0 <= t * size <= (t + 1) * size <= parts * size,
        (t + 1) * size - t * size == size,
        size >= 0,
{
    assert(size >= 0) by (nonlinear_arith)
        requires
            size == n0 * n1,
            n0 >= 0,
            n1 >= 0,
    ;
    assert(0 <= t * size <= (t + 1) * size <= parts * size && (t + 1) * size - t * size == size)
        by (nonlinear_arith)
        requires
            0 <= t < parts,
            size >= 0,
    ;
}

fn multiply_stacks<const TRANSPOSE: bool, S: Scalar>(
    batches: usize,
    m: usize,
    k: usize,
    n: usize,
    a: &[S],
    b: &[S],
    c: &mut [S],
)
    requires
        m > 0,
        n > 0,
        a@.len() == batches * (m * k),
        b@.len() == batches * (n * k),
        old(c)@.len() == batches * (m * n),
    ensures
        final(c)@ == product_elems(
            TRANSPOSE,
            m as int,
            k as int,
            n as int,
            a@,
            b@,
            old(c)@,
        ),
{
    if batches == 0 {
        assert(c@ =~= product_elems(TRANSPOSE, m as int, k as int, n as int, a@, b@, c@));
        return ;
    }
    let ghost before = c@;
    let ghost whole = product_elems(TRANSPOSE, m as int, k as int, n as int, a@, b@, c@);
    proof {
        lemma_part(0, batches as int, m * k, m as int, k as int);
        lemma_part(0, batches as int, n * k, n as int, k as int);
        lemma_part(0, batches as int, m * n, m as int, n as int);
        assert(a.len() == a@.len() && b.len() == b@.len() && c.len() == c@.len());
    }
    let a_skip: usize = m * k;
    let b_skip: usize = n * k;
    let c_skip: usize = m * n;
    let (rsb, csb): (usize, usize) = if TRANSPOSE {
        (1, k)
    } else {
        (n, 1)
    };
    let mut step: usize = 0;
    while step < batches
        invariant
            m > 0,
            n > 0,
            step <= batches,
            a_skip == m * k,
            b_skip == n * k,
            c_skip == m * n,
            rsb == if TRANSPOSE { 1 } else { n },
            csb == if TRANSPOSE { k } else { 1 },
            a@.len() == batches * a_skip,
            b@.len() == batches * b_skip,
            c@.len() == batches * c_skip,
            before.len() == c@.len(),
            whole == product_elems(TRANSPOSE, m as int, k as int, n as int, a@, b@, before),
            forall|x: int|
                0 <= x < c@.len() ==> #[trigger] c@[x] == if x < step * c_skip {
                    whole[x]
                } else {
                    before[x]
                },
        decreases batches - step,
    {
        let ghost now = c@;
        proof {
            lemma_part(step as int, batches as int, m * k, m as int, k as int);
            lemma_part(step as int, batches as int, n * k, n as int, k as int);
            lemma_part(step as int, batches as int, m * n, m as int, n as int);
            assert(a.len() == a@.len() && b.len() == b@.len() && c.len() == c@.len());
            if k > 0 {
                lemma_place_2(m - 1, k - 1, m as int, k as int);
                lemma_place_2(n - 1, k - 1, n as int, k as int);
                lemma_place_2(k - 1, n - 1, k as int, n as int);
                assert(k * n == n * k) by (nonlinear_arith);
                assert((m - 1) * k + (k - 1) * 1 < m * k);
            }
        }
        let a_part = slice_subrange(a, step * a_skip, (step + 1) * a_skip);
        let b_part = slice_subrange(b, step * b_skip, (step + 1) * b_skip);
        let (_head, tail) = c.split_at_mut(step * c_skip);
        let (part, _rest) = tail.split_at_mut(c_skip);
        S::gemm(m, k, n, a_part, k, 1, b_part, rsb, csb, part);
        proof {
            let from = step * c_skip;
            assert forall|x: int| 0 <= x < c@.len() implies #[trigger] c@[x] == if x < (step + 1)
                * c_skip {
                whole[x]
            } else {
                before[x]
            } by {
                if from <= x < (step + 1) * c_skip {
                    let y = x - from;
                    lemma_place_2(step as int, y, batches as int, c_skip as int);
                    lemma_unplace_2(y, m as int, n as int);
                    lemma_left_row(a@, m as int, k as int, batches as int, step as int, y / n as int);
                    lemma_right_column(
                        TRANSPOSE,
                        b@,
                        k as int,
                        n as int,
                        batches as int,
                        step as int,
                        y % n as int,
                    );
                }
            }
        }
        step += 1;
    }
    assert(c@ =~= whole);
}

/// Adds the products of the matrices of `a` and `b` to those of `c`.
pub fn g_matmul<const TRANSPOSE: bool, S: Scalar, A: Tensor<S>, B: Tensor<S>, TM: TensorMut<S>>(
    a: &A,
    b: &B,
    c: &mut TM,
)
    requires
        a@.wf(),
        b@.wf(),
        old(c)@.wf(),
        product_fits(TRANSPOSE, a@.dims, b@.dims, old(c)@.dims),
    ensures
        final(c)@ == product(TRANSPOSE, a@, b@, old(c)@),
        final(c)@.wf(),
{
    let ghost before = c@;
    let size: usize = c.data().len();
    if size == 0 {
        assert(c@ =~= product(TRANSPOSE, a@, b@, c@));
        return ;
    }
    let dim: usize = a.shape().len();
    let m: usize = a.shape()[dim - 2];
    let k: usize = a.shape()[dim - 1];
    let n: usize = c.shape()[dim - 1];
    let ghost batches = count(a@.dims.take(dim - 2)) as int;
    proof {
        lemma_count_split(a@.dims);
        lemma_count_split(b@.dims);
        lemma_count_split(c@.dims);
        assert(k * n == n * k) by (nonlinear_arith);
        assert(size == batches * (m * n));
        assert(m > 0 && n > 0 && batches > 0 && m * n <= size) by (nonlinear_arith)
            requires
                size == batches * (m * n),
                size > 0,
                batches >= 0,
                m >= 0,
                n >= 0,
        ;
        assert(m * n > 0) by (nonlinear_arith)
            requires
                m > 0,
                n > 0,
        ;
        lemma_div_by_multiple(batches, m * n);
    }
    let batching: usize = size / (m * n);
    assert(batching == batches);
    multiply_stacks::<TRANSPOSE, S>(batching, m, k, n, a.data(), b.data(), c.data_mut());
}

/// Adds the products of the matrices of `a` and `b` to those of `c`.
pub fn matmul<S: Scalar, A: Tensor<S>, B: Tensor<S>, TM: TensorMut<S>>(a: &A, b: &B, c: &mut TM)
    requires
        a@.wf(),
        b@.wf(),
        old(c)@.wf(),
        product_fits(false, a@.dims, b@.dims, old(c)@.dims),
    ensures
        final(c)@ == product(false, a@, b@, old(c)@),
        final(c)@.wf(),
{
    g_matmul::<false, S, A, B, TM>(a, b, c)
}

/// Adds the products of the matrices of `a` and the transposed matrices of `b` to those of `c`.
pub fn matmul_t<S: Scalar, A: Tensor<S>, B: Tensor<S>, TM: TensorMut<S>>(a: &A, b: &B, c: &mut TM)
    requires
        a@.wf(),
        b@.wf(),
        old(c)@.wf(),
        product_fits(true, a@.dims, b@.dims, old(c)@.dims),
    ensures
        final(c)@ == product(true, a@, b@, old(c)@),
        final(c)@.wf(),
{
    g_matmul::<true, S, A, B, TM>(a, b, c)
}

/// When `addmm` accepts its operands: matrices whose product has the shape of `out`, and a bias that
/// can be added to it and whose first dimension is the product's width.
pub open spec fn addmm_fits(
    x: Seq<usize>,
    a: Seq<usize>,
    b: Seq<usize>,
    out: Seq<usize>,
) -> bool {
    &&& out.len() == 2
    &&& product_fits(false, x, a, out)
    &&& b.len() >= 1
    &&& b[0] == out[1]
    &&& combine_fits(b, out)
}

/// Adds the product of `x` and `a`, and then `b`, to `out`.
pub fn addmm<S: Scalar, X: Tensor<S>, A: Tensor<S>, B: Tensor<S>, TM: TensorMut<S>>(
    x: &X,
    a: &A,
    b: &B,
    out: &mut TM,
)
    requires
        x@.wf(),
        a@.wf(),
        b@.wf(),
        old(out)@.wf(),
        addmm_fits(x@.dims, a@.dims, b@.dims, old(out)@.dims),
    ensures
        final(out)@ == added(b@, product(false, x@, a@, old(out)@)),
        final(out)@.wf(),
{
    matmul(x, a, out);
    crate::ops::elementwise::add(b, out);
}

/// A stack of matrices with rows for columns.
pub open spec fn flipped<S>(b: Array<S>) -> Array<S> {
    let d = b.dims.len() as int;
    let n = b.dims[d - 2] as int;
    let k = b.dims[d - 1] as int;
    Array {
        dims: b.dims.take(d - 2) + seq![b.dims[d - 1], b.dims[d - 2]],
        elems: Seq::new(
            b.elems.len(),
            |x: int|
                {
                    let t = x / (k * n);
                    let y = x % (k * n);
                    b.elems[t * (n * k) + (y % n) * k + y / n]
                },
        ),
    }
}

/// A product with transposed matrices is the product with the matrices transposed beforehand.
pub proof fn lemma_product_with_flipped<S: Scalar>(a: Array<S>, b: Array<S>, c: Array<S>)
    requires
        b.wf(),
        c.wf(),
        product_fits(true, a.dims, b.dims, c.dims),
    ensures
        product_fits(false, a.dims, flipped(b).dims, c.dims),
        product(true, a, b, c) == product(false, a, flipped(b), c),
{
    let d = a.dims.len() as int;
    let m = a.dims[d - 2] as int;
    let k = a.dims[d - 1] as int;
    let n = c.dims[d - 1] as int;
    let batches = count(b.dims.take(d - 2)) as int;
    lemma_count_split(b.dims);
    lemma_count_split(c.dims);
    assert(flipped(b).dims.take(d - 2) =~= b.dims.take(d - 2));
    assert(batches * (m * n) == batches * m * n) by (nonlinear_arith);
    let left = product(true, a, b, c);
    let right = product(false, a, flipped(b), c);
    assert forall|x: int| 0 <= x < c.elems.len() implies #[trigger] left.elems[x]
        == right.elems[x] by {
        assert(m > 0 && n > 0) by (nonlinear_arith)
            requires
                0 <= x < batches * m * n,
                m >= 0,
                n >= 0,
        ;
        lemma_unplace_2(x, batches * m, n);
        assert(m * n > 0 && batches * m * n == batches * (m * n)) by (nonlinear_arith)
            requires
                m > 0,
                n > 0,
        ;
        lemma_unplace_2(x, batches, m * n);
        let t = x / (m * n);
        let y = x % (m * n);
        lemma_unplace_2(y, m, n);
        lemma_flipped_column(b, batches, k, n, t, y % n);
    }
    assert(left.elems =~= right.elems);
}

proof fn lemma_flipped_column<S>(b: Array<S>, batches: int, k: int, n: int, t: int, j: int)
    requires
        b.dims.len() >= 2,
        n == b.dims[b.dims.len() - 2],
        k == b.dims[b.dims.len() - 1],
        b.elems.len() == batches * (n * k),
        0 <= t < batches,
        0 <= j < n,
    ensures
        right_column(true, b.elems, k, n, t, j) == right_column(
            false,
            flipped(b).elems,
            k,
            n,
            t,
            j,
        ),
{
    let left = right_column(true, b.elems, k, n, t, j);
    let right = right_column(false, flipped(b).elems, k, n, t, j);
    assert forall|p: int| 0 <= p < k implies #[trigger] left[p] == right[p] by {
        let y = p * n + j;
        let x = t * (k * n) + y;
        lemma_place_2(p, j, k, n);
        lemma_place_2(t, y, batches, k * n);
        assert(n * k == k * n && batches * (k * n) == batches * (n * k)) by (nonlinear_arith);
        assert(spot(t * (n * k) + j, n, p) == x);
        assert(spot(t * (n * k) + j * k, 1, p) == t * (n * k) + j * k + p);
    }
    assert(left =~= right);
}

} // verus!
