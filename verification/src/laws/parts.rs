//! The parts of a layer, number by number.
use crate::laws::rows::{lemma_gelu_element, lemma_normalized_element};
use crate::laws::sums::{
    lemma_product_element, lemma_product_element_transposed, lemma_row_sum, lemma_same_shape_sum,
    lemma_shape_kept,
};
use crate::model::attention::Attention;
use crate::model::embedding::Embedding;
use crate::model::layer_norm::LayerNorm;
use crate::model::linear::{lemma_linear_result_wf, Linear, UnbiasedLinear};
use crate::model::mlp::Mlp;
use crate::ops::activation::gated;
use crate::ops::attention::{attended, fresh_out, fresh_qk};
use crate::ops::elementwise::multiplied;
use crate::ops::heads::extended_cache;
use crate::ops::normalize::normalized;
use crate::ops::product::{lemma_fits_2, product};
use crate::scalar::Scalar;
use crate::shape::{lemma_count_2, lemma_count_3, lemma_place_2};
use crate::tensor::{zeros, Array, Cache};
use vstd::prelude::*;

verus! {

/// A linear layer can be applied to matrices with a column for each row of its weight, where its
/// bias has one number for each column of the weight, or one for each element of the result, and the
/// result can be counted; and to nothing else.
pub proof fn lemma_linear_takes<S: Scalar>(layer: Linear<S>, x: Seq<usize>)
    ensures
        layer.fits(x) <==> {
            let w = layer.weight@.dims;
            let b = layer.bias@.dims;
            &&& x.len() == 2
            &&& w.len() == 2
            &&& w[0] == x[1]
            &&& x[0] * w[1] <= usize::MAX
            &&& b == seq![w[1]] || (b == seq![x[0], w[1]] && x[0] == w[1])
        },
{
    let w = layer.weight@.dims;
    let b = layer.bias@.dims;
    if x.len() == 2 && w.len() == 2 {
        let out = seq![x[0], w[1]];
        assert(out.skip(1) =~= seq![w[1]]);
        lemma_fits_2(false, x[0], x[1], w[1]);
        assert(seq![x[0], x[1]] =~= x);
        if w[0] == x[1] {
            assert(seq![x[1], w[1]] =~= w);
        }
    }
}

/// What a linear layer makes of column `j` of row `i`: the row against column `j` of the weight, plus
/// number `j` of the bias.
pub proof fn lemma_linear_element<S: Scalar>(layer: Linear<S>, x: Array<S>, i: int, j: int)
    requires
        layer.wf(),
        x.wf(),
        x.dims.len() == 2,
        layer.weight@.dims.len() == 2,
        layer.weight@.dims[0] == x.dims[1],
        layer.bias@.dims == seq![layer.weight@.dims[1]],
        0 <= i < x.dims[0],
        0 <= j < layer.weight@.dims[1],
    ensures
        ({
            let k = x.dims[1];
            let n = layer.weight@.dims[1];
            &&& layer.result(x).dims == seq![x.dims[0], n]
            &&& layer.result(x).elems.len() == x.dims[0] * n
            &&& layer.result(x).elems[i * n + j] == S::counted(0).dotted(
                Seq::new(k as nat, |p: int| x.elems[i * k + p]),
                Seq::new(k as nat, |p: int| layer.weight@.elems[p * n + j]),
            ).plus(layer.bias@.elems[j])
        }),
{
    let m = x.dims[0];
    let k = x.dims[1];
    let n = layer.weight@.dims[1];
    let c = zeros::<S>(layer.result_dims(x.dims));
    lemma_linear_result_wf(layer, x);
    lemma_count_2(c.dims);
    lemma_place_2(i, j, m as int, n as int);
    assert(x.dims.take(0) =~= Seq::empty());
    assert(x.dims =~= x.dims.take(0) + seq![m, k]);
    assert(layer.weight@.dims =~= x.dims.take(0) + seq![k, n]);
    assert(c.dims =~= x.dims.take(0) + seq![m, n]);
    lemma_product_element(x, layer.weight@, c, m, k, n, 0, i, j);
    let row = Seq::new(k as nat, |p: int| x.elems[i * k + p]);
    let column = Seq::new(k as nat, |p: int| layer.weight@.elems[p * n + j]);
    assert(0 * m + i == i);
    assert(Seq::new(k as nat, |p: int| x.elems[(0 * m + i) * k + p]) =~= row);
    assert(Seq::new(k as nat, |p: int| layer.weight@.elems[(0 * k + p) * n + j]) =~= column);
    lemma_row_sum(layer.bias@, product(false, x, layer.weight@, c), i, j);
}

/// As `lemma_linear_element`, where the bias has a number for each element of the result.
pub proof fn lemma_square_bias_element<S: Scalar>(layer: Linear<S>, x: Array<S>, i: int, j: int)
    requires
        layer.wf(),
        x.wf(),
        x.dims.len() == 2,
        layer.weight@.dims.len() == 2,
        layer.weight@.dims[0] == x.dims[1],
        layer.bias@.dims == seq![x.dims[0], layer.weight@.dims[1]],
        0 <= i < x.dims[0],
        0 <= j < layer.weight@.dims[1],
    ensures
        ({
            let k = x.dims[1];
            let n = layer.weight@.dims[1];
            &&& layer.result(x).dims == seq![x.dims[0], n]
            &&& layer.result(x).elems.len() == x.dims[0] * n
            &&& layer.result(x).elems[i * n + j] == S::counted(0).dotted(
                Seq::new(k as nat, |p: int| x.elems[i * k + p]),
                Seq::new(k as nat, |p: int| layer.weight@.elems[p * n + j]),
            ).plus(layer.bias@.elems[i * n + j])
        }),
{
    let m = x.dims[0];
    let k = x.dims[1];
    let n = layer.weight@.dims[1];
    let c = zeros::<S>(layer.result_dims(x.dims));
    lemma_linear_result_wf(layer, x);
    lemma_count_2(c.dims);
    lemma_place_2(i, j, m as int, n as int);
    assert(x.dims.take(0) =~= Seq::empty());
    assert(x.dims =~= x.dims.take(0) + seq![m, k]);
    assert(layer.weight@.dims =~= x.dims.take(0) + seq![k, n]);
    assert(c.dims =~= x.dims.take(0) + seq![m, n]);
    lemma_product_element(x, layer.weight@, c, m, k, n, 0, i, j);
    let row = Seq::new(k as nat, |p: int| x.elems[i * k + p]);
    let column = Seq::new(k as nat, |p: int| layer.weight@.elems[p * n + j]);
    assert(0 * m + i == i);
    assert(Seq::new(k as nat, |p: int| x.elems[(0 * m + i) * k + p]) =~= row);
    assert(Seq::new(k as nat, |p: int| layer.weight@.elems[(0 * k + p) * n + j]) =~= column);
    lemma_same_shape_sum(layer.bias@, product(false, x, layer.weight@, c), i * n + j);
}

/// A layer without bias can be applied to matrices with as many columns as its weight has, where the
/// result can be counted; and to nothing else.
pub proof fn lemma_unbiased_takes<S: Scalar>(layer: UnbiasedLinear<S>, x: Seq<usize>)
    ensures
        layer.fits(x) <==> {
            let w = layer.weight@.dims;
            &&& x.len() == 2
            &&& w.len() == 2
            &&& w[1] == x[1]
            &&& x[0] * w[0] <= usize::MAX
        },
{
    let w = layer.weight@.dims;
    if x.len() == 2 && w.len() == 2 {
        lemma_fits_2(true, x[0], x[1], w[0]);
        assert(seq![x[0], x[1]] =~= x);
        if w[1] == x[1] {
            assert(seq![w[0], x[1]] =~= w);
        }
    }
}

/// What a layer without bias makes of column `j` of row `i`: the row against row `j` of the weight.
pub proof fn lemma_unbiased_element<S: Scalar>(layer: UnbiasedLinear<S>, x: Array<S>, i: int, j: int)
    requires
        layer.wf(),
        x.wf(),
        x.dims.len() == 2,
        layer.weight@.dims.len() == 2,
        layer.weight@.dims[1] == x.dims[1],
        0 <= i < x.dims[0],
        0 <= j < layer.weight@.dims[0],
    ensures
        ({
            let k = x.dims[1];
            let n = layer.weight@.dims[0];
            &&& layer.result(x).dims == seq![x.dims[0], n]
            &&& layer.result(x).elems.len() == x.dims[0] * n
            &&& layer.result(x).elems[i * n + j] == S::counted(0).dotted(
                Seq::new(k as nat, |p: int| x.elems[i * k + p]),
                Seq::new(k as nat, |p: int| layer.weight@.elems[j * k + p]),
            )
        }),
{
    let m = x.dims[0];
    let k = x.dims[1];
    let n = layer.weight@.dims[0];
    let c = zeros::<S>(layer.result_dims(x.dims));
    lemma_count_2(c.dims);
    lemma_place_2(i, j, m as int, n as int);
    assert(x.dims.take(0) =~= Seq::empty());
    assert(x.dims =~= x.dims.take(0) + seq![m, k]);
    assert(layer.weight@.dims =~= x.dims.take(0) + seq![n, k]);
    assert(c.dims =~= x.dims.take(0) + seq![m, n]);
    lemma_product_element_transposed(x, layer.weight@, c, m, k, n, 0, i, j);
    let row = Seq::new(k as nat, |p: int| x.elems[i * k + p]);
    let column = Seq::new(k as nat, |p: int| layer.weight@.elems[j * k + p]);
    assert(0 * m + i == i && 0 * n + j == j);
    assert(Seq::new(k as nat, |p: int| x.elems[(0 * m + i) * k + p]) =~= row);
    assert(Seq::new(k as nat, |p: int| layer.weight@.elems[(0 * n + j) * k + p]) =~= column);
}

/// A table gives the rows that it holds for all of the numbers, where they can be counted, and
/// nothing if it lacks one.
pub proof fn lemma_table_takes<S: Scalar>(table: Embedding<S>, ids: Seq<u32>)
    requires
        ids.len() <= usize::MAX,
        table.weight@.dims.len() >= 2,
    ensures
        table.fits(ids) <==> {
            let width = table.weight@.dims[1];
            &&& ids.len() * width <= usize::MAX
            &&& forall|i: int|
                0 <= i < ids.len() ==> (#[trigger] ids[i] + 1) * width <= table.weight@.elems.len()
        },
{
    let width = table.weight@.dims[1];
}

/// A normalising layer can be applied to matrices, where its weight and its bias each have one number
/// for each column, or one for each element; and to nothing else.
pub proof fn lemma_layer_norm_takes<S: Scalar>(layer: LayerNorm<S>, x: Seq<usize>)
    ensures
        layer.fits(x) <==> {
            &&& x.len() == 2
            &&& layer.weight@.dims == seq![x[1]] || layer.weight@.dims == x
            &&& layer.bias@.dims == seq![x[1]] || layer.bias@.dims == x
        },
{
    if x.len() == 2 {
        assert(x.skip(1) =~= seq![x[1]]);
    }
}

/// What a normalising layer makes of column `j` of row `i`: the distance from the mean of the row,
/// over the root of the row's variance plus epsilon, times the number of the weight for that column,
/// plus the number of the bias for it. A weight or bias with a number for each element gives the one
/// for that element.
pub proof fn lemma_layer_norm_element<S: Scalar>(layer: LayerNorm<S>, x: Array<S>, i: int, j: int)
    requires
        layer.wf(),
        x.wf(),
        x.dims.len() == 2,
        layer.weight@.dims == seq![x.dims[1]] || layer.weight@.dims == x.dims,
        layer.bias@.dims == seq![x.dims[1]] || layer.bias@.dims == x.dims,
        0 <= i < x.dims[0],
        0 <= j < x.dims[1],
    ensures
        ({
            let n = x.dims[1];
            let row = x.elems.subrange(i * n, (i + 1) * n);
            let mean = row.fold_left(S::counted(0), |sum: S, v: S| sum.plus(v)).over(S::counted(n));
            let variance = row.fold_left(
                S::counted(0),
                |sum: S, v: S| sum.plus(v.minus(mean).power(S::counted(2))),
            ).over(S::counted(n));
            let scale = layer.weight@.elems[if layer.weight@.dims.len() == 1 {
                j
            } else {
                i * n + j
            }];
            let shift = layer.bias@.elems[if layer.bias@.dims.len() == 1 {
                j
            } else {
                i * n + j
            }];
            &&& layer.result(x).dims == x.dims
            &&& layer.result(x).elems.len() == x.elems.len()
            &&& layer.result(x).elems[i * n + j] == x.elems[i * n + j].minus(mean).over(
                variance.plus(layer.epsilon).root(),
            ).times(scale).plus(shift)
        }),
{
    let n = x.dims[1];
    let zero = S::counted(0);
    let space = Seq::new(x.dims[0] as nat, |r: int| zero);
    lemma_normalized_element(x, layer.epsilon, space, space, i, j);
    let y = normalized(x, layer.epsilon);
    lemma_count_2(x.dims);
    lemma_place_2(i, j, x.dims[0] as int, n as int);
    lemma_shape_kept(false, 0, false, layer.weight@, y, y, zero);
    let z = multiplied(layer.weight@, y);
    if layer.weight@.dims.len() == 1 {
        lemma_row_sum(layer.weight@, y, i, j);
    } else {
        lemma_same_shape_sum(layer.weight@, y, i * n + j);
    }
    lemma_shape_kept(false, 0, false, layer.bias@, z, z, zero);
    if layer.bias@.dims.len() == 1 {
        lemma_row_sum(layer.bias@, z, i, j);
    } else {
        lemma_same_shape_sum(layer.bias@, z, i * n + j);
    }
}

/// The feed-forward part is its second layer applied to `inner`, wherever every number of `inner` is
/// what the activation makes of the number in that place of the first layer's result: the half of
/// that number `v` times one plus the hyperbolic tangent of the root of two over pi times the sum of
/// `v` and 0.044715 times the third power of `v`.
pub proof fn lemma_feed_forward<S: Scalar>(mlp: Mlp<S>, x: Array<S>, inner: Array<S>)
    requires
        inner.dims == mlp.c_fc.result(x).dims,
        inner.elems.len() == mlp.c_fc.result(x).elems.len(),
        forall|p: int|
            0 <= p < inner.elems.len() ==> #[trigger] inner.elems[p] == ({
                let v = mlp.c_fc.result(x).elems[p];
                let cube = v.power(S::counted(3));
                let small = S::counted(44715).over(S::counted(1000000));
                let slope = S::counted(2).over(S::half_turn()).root();
                let half = S::counted(1).over(S::counted(2));
                half.times(v).times(
                    S::counted(1).plus(
                        slope.times(v.plus(small.times(cube))).hyperbolic_tangent(),
                    ),
                )
            }),
    ensures
        mlp.result(x) == mlp.c_proj.result(inner),
        mlp.fits(x.dims) <==> mlp.c_fc.fits(x.dims) && mlp.c_proj.fits(inner.dims),
{
    let wide = mlp.c_fc.result(x);
    lemma_linear_result_wf(mlp.c_fc, x);
    assert forall|p: int| 0 <= p < inner.elems.len() implies #[trigger] inner.elems[p] == gated(
        wide,
    ).elems[p] by {
        lemma_gelu_element(wide, p);
    }
    assert(inner.elems =~= gated(wide).elems);
    assert(inner == gated(wide));
}

/// The attention part can be applied to rows of `heads * head_dim` numbers, after a past of `seen`
/// positions in those heads, where its projections have shapes for such rows and what it computes can
/// be counted.
pub proof fn lemma_attention_takes<S: Scalar>(
    attention: Attention<S>,
    n: usize,
    hidden: usize,
    heads: usize,
    head_dim: usize,
    seen: usize,
)
    requires
        heads > 0,
        hidden == heads * head_dim,
        3 * hidden <= usize::MAX,
        attention.num_heads == heads,
        attention.c_attn.weight@.dims == seq![hidden, (3 * hidden) as usize],
        attention.c_attn.bias@.dims == seq![(3 * hidden) as usize],
        attention.c_proj.weight@.dims.len() == 2,
        attention.c_proj.weight@.dims[0] == hidden,
        attention.c_proj.bias@.dims == seq![attention.c_proj.weight@.dims[1]],
        n * (3 * hidden) <= usize::MAX,
        n * attention.c_proj.weight@.dims[1] <= usize::MAX,
        seen + n <= usize::MAX,
        heads * n * (seen + n) <= usize::MAX,
        (seen + n) * heads <= usize::MAX,
    ensures
        attention.fits(
            seq![n, hidden],
            seq![heads, seen, head_dim],
            seq![heads, seen, head_dim],
        ),
{
    let x = seq![n, hidden];
    let key = seq![heads, seen, head_dim];
    lemma_linear_takes(attention.c_attn, x);
    lemma_linear_takes(attention.c_proj, x);
    lemma_heads_divide(hidden as int, heads as int, head_dim as int);
    assert(seq![x[0], x[1]] =~= x);
    assert(key =~= seq![heads, key[1], (x[1] / heads) as usize]);
}

proof fn lemma_heads_divide(hidden: int, heads: int, head_dim: int)
    requires
        heads > 0,
        hidden == heads * head_dim,
    ensures
        hidden / heads == head_dim,
        hidden % heads == 0,
{
    assert(head_dim * heads == hidden) by (nonlinear_arith)
        requires
            hidden == heads * head_dim,
    ;
    vstd::arithmetic::div_mod::lemma_fundamental_div_mod_converse(hidden, heads, head_dim, 0);
}

/// The attention part projects its rows to queries, keys and values, lets them attend to the past and
/// to one another from nothing, and projects what they yield. The past becomes what it was, with the
/// new keys and values behind it.
pub proof fn lemma_attention_part<S: Scalar>(
    attention: Attention<S>,
    x: Array<S>,
    past: Cache<S>,
    qk: Array<S>,
    out: Array<S>,
    heads: usize,
    head_dim: usize,
    seen: usize,
)
    requires
        x.dims.len() == 2,
        heads > 0,
        attention.c_attn.weight@.dims.len() == 2,
        attention.c_attn.weight@.dims[1] == 3 * (heads * head_dim),
        past.key.dims == seq![heads, seen, head_dim],
        past.value.dims == seq![heads, seen, head_dim],
        seen + x.dims[0] <= usize::MAX,
        qk.dims == seq![heads, x.dims[0], (seen + x.dims[0]) as usize],
        qk.elems.len() == heads * x.dims[0] * (seen + x.dims[0]),
        forall|p: int| 0 <= p < qk.elems.len() ==> #[trigger] qk.elems[p] == S::counted(0),
        out.dims == seq![heads, x.dims[0], head_dim],
        out.elems.len() == heads * x.dims[0] * head_dim,
        forall|p: int| 0 <= p < out.elems.len() ==> #[trigger] out.elems[p] == S::counted(0),
    ensures
        attention.result(x, past) == attention.c_proj.result(
            attended(attention.c_attn.result(x), qk, past, out),
        ),
        attention.next(x, past) == extended_cache(past, attention.c_attn.result(x)),
{
    let qkv = attention.c_attn.result(x);
    lemma_linear_result_wf(attention.c_attn, x);
    let hidden = heads * head_dim;
    lemma_heads_divide(hidden, heads as int, head_dim as int);
    assert(0 <= hidden) by (nonlinear_arith)
        requires
            hidden == heads * head_dim,
    ;
    lemma_count_3(qk.dims);
    lemma_count_3(out.dims);
    assert(fresh_qk(past, qkv).dims =~= qk.dims);
    assert(fresh_out(past, qkv).dims =~= out.dims);
    assert(fresh_qk(past, qkv).elems =~= qk.elems);
    assert(fresh_out(past, qkv).elems =~= out.elems);
}

} // verus!
