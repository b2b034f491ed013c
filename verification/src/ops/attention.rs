//! Attention over queries, keys and values by head.
use crate::ops::heads::{
    extended_cache, head_dim_of, lemma_width, projected, queries, split_qkv, QUERY,
};
use crate::ops::product::{lemma_fits_3, matmul, matmul_t, product};
use crate::ops::softmax::{causal_softmax, divisors, softened};
use crate::scalar::Scalar;
use crate::shape::{lemma_count_1, lemma_count_2, lemma_count_3, lemma_place_2, lemma_place_3, lemma_unplace_2};
use crate::tensor::{zeros, Array, Cache, OwnedTensor, PastKeyValue, Tensor, TensorMut};
use vstd::prelude::*;

verus! {

/// `x` with every element divided by `divisor`.
pub open spec fn scaled<S: Scalar>(x: Array<S>, divisor: S) -> Array<S> {
    Array { dims: x.dims, elems: Seq::new(x.elems.len(), |p: int| x.elems[p].over(divisor)) }
}

/// Rows by head put back side by side: row `j` of the result holds row `j` of every head.
pub open spec fn merged<S>(x: Seq<S>, heads: int, length: int, head_dim: int) -> Seq<S> {
    Seq::new(
        (length * heads * head_dim) as nat,
        |p: int|
            {
                let row = (p / head_dim) / heads;
                let head = (p / head_dim) % heads;
                x[(head * length + row) * head_dim + p % head_dim]
            },
    )
}

/// When attention accepts its operands.
pub open spec fn attention_fits<S>(
    qkv: Array<S>,
    qk: Seq<usize>,
    scratch: nat,
    past: Cache<S>,
    out: Seq<usize>,
) -> bool {
    let heads = qk[0];
    let length = qkv.dims[0];
    let width = qkv.dims[1];
    let past_length = past.key.dims[1];
    let head_dim = head_dim_of(width, heads);
    &&& qkv.dims.len() >= 2
    &&& past.key.dims.len() >= 2
    &&& width % 3 == 0
    &&& qk.len() >= 1
    &&& heads > 0
    &&& (width / 3usize) % heads == 0
    &&& past_length + length <= usize::MAX
    &&& qk == seq![heads, length, (past_length + length) as usize]
    &&& past.key.dims == seq![heads, past_length, head_dim]
    &&& past.value.dims == seq![heads, past_length, head_dim]
    &&& length * width <= qkv.elems.len()
    &&& heads * length <= scratch
    &&& out == seq![heads, length, head_dim]
}

/// The scores of the queries of `qkv` against all keys, added to `qk` and divided by the root of the
/// size of a head.
pub open spec fn scores<S: Scalar>(qkv: Array<S>, qk: Array<S>, past: Cache<S>) -> Array<S> {
    let heads = qk.dims[0];
    scaled(
        product(true, queries(qkv, heads), extended_cache(past, qkv).key, qk),
        S::counted(head_dim_of(qkv.dims[1], heads)).root(),
    )
}

/// How much each position attends to each position that it sees.
pub open spec fn weights<S: Scalar>(qkv: Array<S>, qk: Array<S>, past: Cache<S>) -> Array<S> {
    softened(true, past.key.dims[1] as int, scores(qkv, qk, past))
}

/// The values that each position attends to, weighted and added to `out`, heads side by side.
pub open spec fn attended<S: Scalar>(
    qkv: Array<S>,
    qk: Array<S>,
    past: Cache<S>,
    out: Array<S>,
) -> Array<S> {
    let heads = qk.dims[0];
    let length = qkv.dims[0];
    let head_dim = head_dim_of(qkv.dims[1], heads);
    let mixed = product(false, weights(qkv, qk, past), extended_cache(past, qkv).value, out);
    Array {
        dims: seq![length, qkv.dims[1] / 3usize],
        elems: merged(mixed.elems, heads as int, length as int, head_dim as int),
    }
}

/// Where scores are first gathered: zero throughout.
pub open spec fn fresh_qk<S: Scalar>(past: Cache<S>, qkv: Array<S>) -> Array<S> {
    zeros(seq![past.key.dims[0], qkv.dims[0], (past.key.dims[1] + qkv.dims[0]) as usize])
}

/// Where the result is first gathered: zero throughout.
pub open spec fn fresh_out<S: Scalar>(past: Cache<S>, qkv: Array<S>) -> Array<S> {
    zeros(
        seq![past.key.dims[0], qkv.dims[0], head_dim_of(qkv.dims[1], past.key.dims[0])],
    )
}

/// What attention makes of rows, given what it has seen before.
pub open spec fn attended_fresh<S: Scalar>(past: Cache<S>, qkv: Array<S>) -> Array<S> {
    attended(qkv, fresh_qk(past, qkv), past, fresh_out(past, qkv))
}

fn divide_slice<S: Scalar>(x: &mut [S], divisor: S)
    ensures
        final(x)@ == Seq::new(old(x)@.len(), |p: int| old(x)@[p].over(divisor)),
{
    let n: usize = x.len();
    let mut i: usize = 0;
    while i < n
        invariant
            i <= n == x@.len(),
            x@.len() == old(x)@.len(),
            forall|p: int| 0 <= p < i ==> x@[p] == old(x)@[p].over(divisor),
            forall|p: int| i <= p < n ==> x@[p] == old(x)@[p],
        decreases n - i,
    {
        x[i] = x[i].div(divisor);
        i += 1;
    }
}

fn merge<S: Copy>(x: &[S], heads: usize, length: usize, head_dim: usize) -> (r: Vec<S>)
    requires
        x@.len() == heads * length * head_dim,
    ensures
        r@ == merged(x@, heads as int, length as int, head_dim as int),
{
    let ghost whole = merged(x@, heads as int, length as int, head_dim as int);
    let mut out: Vec<S> = Vec::new();
    let mut j: usize = 0;
    assert(0 * heads * head_dim == 0) by (nonlinear_arith);
    assert(out@ =~= whole.take(0));
    while j < length
        invariant
            j <= length,
            x@.len() == heads * length * head_dim,
            whole == merged(x@, heads as int, length as int, head_dim as int),
            out@ == whole.take(j * heads * head_dim),
        decreases length - j,
    {
        let mut i: usize = 0;
        while i < heads
            invariant
                j < length,
                i <= heads,
                x@.len() == heads * length * head_dim,
                whole == merged(x@, heads as int, length as int, head_dim as int),
                out@ == whole.take((j * heads + i) * head_dim),
            decreases heads - i,
        {
            let mut k: usize = 0;
            while k < head_dim
                invariant
                    j < length,
                    i < heads,
                    k <= head_dim,
                    x@.len() == heads * length * head_dim,
                    whole == merged(x@, heads as int, length as int, head_dim as int),
                    out@ == whole.take((j * heads + i) * head_dim + k),
                decreases head_dim - k,
            {
                let ghost p = (j * heads + i) * head_dim + k;
                proof {
                    lemma_place_3(
                        j as int,
                        i as int,
                        k as int,
                        length as int,
                        heads as int,
                        head_dim as int,
                    );
                    lemma_place_3(
                        i as int,
                        j as int,
                        k as int,
                        heads as int,
                        length as int,
                        head_dim as int,
                    );
                    assert(0 <= i * length && i * length + j <= (i * length + j) * head_dim)
                        by (nonlinear_arith)
                        requires
                            head_dim >= 1,
                    ;
                    assert(x.len() == x@.len());
                }
                let value = x[(i * length + j) * head_dim + k];
                out.push(value);
                proof {
                    assert(value == whole[p]);
                    assert(out@ =~= whole.take(p + 1));
                }
                k += 1;
            }
            proof {
                assert((j * heads + i) * head_dim + head_dim == (j * heads + (i + 1)) * head_dim)
                    by (nonlinear_arith);
            }
            i += 1;
        }
        proof {
            assert(j * heads + heads == (j + 1) * heads) by (nonlinear_arith);
        }
        j += 1;
    }
    proof {
        assert(whole.take(length * heads * head_dim) =~= whole);
    }
    out
}

/// Lets every position of `qkv` attend to the positions of the past and to those of `qkv` up to
/// itself. `qk` receives the weights, `max` is scratch space, `past` gains the keys and values of
/// `qkv`, and `out` receives the result.
pub fn attention<S: Scalar, T: Tensor<S>, TM: TensorMut<S>>(
    qkv: &T,
    qk: &mut TM,
    max: &mut [S],
    past: &mut PastKeyValue<S>,
    out: &mut OwnedTensor<S>,
)
    requires
        old(qk)@.wf(),
        old(past)@.wf(),
        old(out)@.wf(),
        attention_fits(qkv@, old(qk)@.dims, old(max)@.len(), old(past)@, old(out)@.dims),
    ensures
        final(qk)@ == weights(qkv@, old(qk)@, old(past)@),
        final(qk)@.wf(),
        final(max)@ == divisors(
            true,
            old(past)@.key.dims[1] as int,
            scores(qkv@, old(qk)@, old(past)@),
            old(max)@,
        ),
        final(past)@ == extended_cache(old(past)@, qkv@),
        final(past)@.wf(),
        final(out)@ == attended(qkv@, old(qk)@, old(past)@, old(out)@),
        final(out)@.wf(),
{
    let sequence_length: usize = qkv.shape()[0];
    let past_sequence_length: usize = past.key.shape()[1];
    let hidden_dim: usize = qkv.shape()[1] / 3;
    let num_heads: usize = qk.shape()[0];
    let head_dim: usize = hidden_dim / num_heads;
    proof {
        lemma_width(qkv@.dims[1], num_heads);
        lemma_count_3(past@.key.dims);
        lemma_count_3(past@.value.dims);
        lemma_count_3(qk@.dims);
        lemma_count_3(out@.dims);
        lemma_count_1(qk@.dims.take(1));
        let total = (past_sequence_length + sequence_length) as usize;
        lemma_fits_3(true, num_heads, sequence_length, head_dim, total);
        lemma_fits_3(false, num_heads, sequence_length, total, head_dim);
    }
    let (query, key, value) = split_qkv(qkv, past);
    matmul_t(&query, &key, qk);
    let scale = S::from_usize(head_dim).sqrt();
    divide_slice(qk.data_mut(), scale);
    causal_softmax(qk, max, past_sequence_length);
    matmul(qk, &value, out);
    let new_out = merge(out.data(), num_heads, sequence_length, head_dim);
    proof {
        lemma_count_2(seq![sequence_length, hidden_dim]);
        assert(sequence_length * num_heads * head_dim == sequence_length * (num_heads * head_dim)
            && sequence_length * num_heads * head_dim >= 0) by (nonlinear_arith);
    }
    *out = OwnedTensor::new(new_out, vec![sequence_length, hidden_dim]);
    *past = PastKeyValue { key, value };
}

/// Putting heads side by side undoes the split into heads: row `j` of the queries put together again
/// is the query third of row `j`.
pub proof fn lemma_merge_undoes_split<S>(qkv: Array<S>, heads: usize, j: int, column: int)
    requires
        qkv.dims.len() == 2,
        qkv.dims[1] % 3 == 0,
        heads > 0,
        (qkv.dims[1] / 3usize) % heads == 0,
        0 <= j < qkv.dims[0],
        0 <= column < qkv.dims[1] / 3usize,
    ensures
        ({
            let length = qkv.dims[0] as int;
            let hidden = (qkv.dims[1] / 3usize) as int;
            let head_dim = head_dim_of(qkv.dims[1], heads) as int;
            merged(queries(qkv, heads).elems, heads as int, length, head_dim)[j * hidden + column]
                == projected(qkv.elems, hidden, j, QUERY as int, column)
        }),
{
    let length = qkv.dims[0] as int;
    let hidden = (qkv.dims[1] / 3usize) as int;
    let head_dim = head_dim_of(qkv.dims[1], heads) as int;
    let h = heads as int;
    lemma_width(qkv.dims[1], heads);
    assert(head_dim > 0) by (nonlinear_arith)
        requires
            hidden == h * head_dim,
            hidden > 0,
            h > 0,
    ;
    lemma_unplace_2(column, h, head_dim);
    let t = column / head_dim;
    let k = column % head_dim;
    let p = j * hidden + column;
    assert(p == (j * h + t) * head_dim + k) by (nonlinear_arith)
        requires
            p == j * hidden + column,
            hidden == h * head_dim,
            column == t * head_dim + k,
    ;
    lemma_place_3(j, t, k, length, h, head_dim);
    lemma_place_3(t, j, k, h, length, head_dim);
    lemma_place_2(j, t, length, h);
    lemma_place_2(t, j, h, length);
    lemma_place_2(j * h + t, k, length * h, head_dim);
    lemma_place_2(t * length + j, k, h * length, head_dim);
}

} // verus!
