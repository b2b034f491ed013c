//! What the past of a layer is good for: a token that comes after others need not be computed with
//! them again.
use crate::model::attention::Attention;
use crate::model::gpt2::{positions, Gpt2};
use crate::model::layer::Gpt2Layer;
use crate::model::linear::{lemma_linear_result_wf, Linear};
use crate::model::mlp::{wide, Refusal};
use crate::model::rows::{
    first_rows, lemma_added_by_rows, lemma_layer_norm_by_rows, lemma_linear_by_rows,
    lemma_mlp_by_rows, lemma_product_by_rows, lemma_rows_from_stacked, lemma_split_rows,
    lemma_stacked_place, rows_from,
};
use crate::model::shaped::{cache_dims, lemma_layer_next, lemma_layer_result};
use crate::model::stack::{advanced, caches_wf, passed};
use crate::ops::attention::attended_fresh;
use crate::ops::causal::{
    all_finite, by_place, lemma_cache_keeps_past, lemma_cache_of_earlier_rows,
    lemma_first_portion_alone, lemma_later_rows_leave_earlier_alone, score_row,
};
use crate::ops::elementwise::{added, lemma_combined_rows};
use crate::ops::heads::{extended_cache, head_dim_of, lemma_width, split_fits};
use crate::ops::incremental::{
    lemma_cache_in_portions, lemma_second_portion_from_cache, stackable, stacked, two_ways,
};
use crate::ops::pick::picked;
use crate::ops::product::{left_row, lemma_product_entry, product, right_column};
use crate::ops::softmax::unrivalled;
use crate::scalar::{agrees, spot, zero, Scalar};
use crate::shape::{lemma_count_2, lemma_count_3, lemma_unplace_2};
use crate::tensor::{zeros, Array, Cache};
use vstd::prelude::*;

verus! {

/// Rows of `hidden` elements in two portions, after a past of `seen` positions in `heads` heads.
pub open spec fn portions<S>(
    a: Array<S>,
    b: Array<S>,
    past: Cache<S>,
    hidden: usize,
    heads: usize,
    seen: usize,
) -> bool {
    &&& stackable(a, b)
    &&& a.dims[1] == hidden
    &&& past.wf()
    &&& past.key.dims == cache_dims(hidden, heads, seen)
    &&& past.value.dims == cache_dims(hidden, heads, seen)
    &&& seen + a.dims[0] + b.dims[0] <= usize::MAX
    &&& (a.dims[0] + b.dims[0]) * (3 * hidden) <= usize::MAX
}

proof fn lemma_projected_fits<S: Scalar>(
    attention: Attention<S>,
    a: Array<S>,
    b: Array<S>,
    past: Cache<S>,
    hidden: usize,
    heads: usize,
    seen: usize,
)
    requires
        attention.wf(),
        attention.shaped(hidden, heads),
        portions(a, b, past, hidden, heads, seen),
    ensures
        ({
            let qa = attention.c_attn.result(a);
            let qb = attention.c_attn.result(b);
            &&& attention.c_attn.result(stacked(a, b)) == stacked(qa, qb)
            &&& stackable(qa, qb)
            &&& qa.dims == seq![a.dims[0], (3 * hidden) as usize]
            &&& qb.dims == seq![b.dims[0], (3 * hidden) as usize]
            &&& split_fits(stacked(qa, qb), past)
            &&& head_dim_of((3 * hidden) as usize, heads) == hidden / heads
            &&& two_ways(past, qa, qb)
        }),
{
    let width = (3 * hidden) as usize;
    let qa = attention.c_attn.result(a);
    let qb = attention.c_attn.result(b);
    let q = stacked(qa, qb);
    lemma_linear_by_rows(attention.c_attn, a, b, width);
    assert(width / 3usize == hidden && width % 3 == 0);
    lemma_count_2(qa.dims);
    lemma_count_2(qb.dims);
    lemma_count_3(past.key.dims);
    lemma_count_3(past.value.dims);
    assert(a.dims[0] * width + b.dims[0] * width == (a.dims[0] + b.dims[0]) * width)
        by (nonlinear_arith);
}

/// A layer's attention that is given rows in two portions has seen what it sees when it is given
/// them at once.
pub proof fn lemma_attention_in_portions<S: Scalar>(
    attention: Attention<S>,
    a: Array<S>,
    b: Array<S>,
    past: Cache<S>,
    hidden: usize,
    heads: usize,
    seen: usize,
)
    requires
        attention.wf(),
        attention.shaped(hidden, heads),
        portions(a, b, past, hidden, heads, seen),
    ensures
        attention.next(b, attention.next(a, past)) == attention.next(stacked(a, b), past),
{
    lemma_projected_fits(attention, a, b, past, hidden, heads, seen);
    lemma_cache_in_portions(past, attention.c_attn.result(a), attention.c_attn.result(b));
}

/// What attention makes of rows after others is what it makes of them alone, with the others in its
/// past.
pub proof fn lemma_attention_second_portion<S: Scalar>(
    attention: Attention<S>,
    a: Array<S>,
    b: Array<S>,
    past: Cache<S>,
    hidden: usize,
    heads: usize,
    seen: usize,
)
    requires
        attention.wf(),
        attention.shaped(hidden, heads),
        portions(a, b, past, hidden, heads, seen),
    ensures
        rows_from(attention.result(stacked(a, b), past), a.dims[0]) == attention.result(
            b,
            attention.next(a, past),
        ),
{
    let qa = attention.c_attn.result(a);
    let qb = attention.c_attn.result(b);
    let q = stacked(qa, qb);
    lemma_projected_fits(attention, a, b, past, hidden, heads, seen);
    lemma_second_portion_from_cache(past, qa, qb);
    let whole = attended_fresh(past, q);
    let alone = attended_fresh(extended_cache(past, qa), qb);
    let width = (3 * hidden) as usize;
    assert(width / 3usize == hidden);
    assert(whole.dims =~= seq![(a.dims[0] + b.dims[0]) as usize, hidden]);
    assert(alone.dims =~= seq![b.dims[0], hidden]);
    assert(rows_from(whole, a.dims[0]) =~= alone);
    lemma_width(width, heads);
    lemma_count_2(whole.dims);
    let rows = a.dims[0] + b.dims[0];
    let head_dim = head_dim_of(width, heads) as int;
    assert(rows * heads * head_dim == rows * hidden && rows * hidden <= rows * (3 * hidden))
        by (nonlinear_arith)
        requires
            heads * head_dim == hidden,
            rows >= 0,
    ;
    let before = first_rows(whole, a.dims[0]);
    lemma_split_rows(whole, a.dims[0]);
    lemma_linear_by_rows(attention.c_proj, before, alone, hidden);
    lemma_rows_from_stacked(attention.c_proj.result(before), attention.c_proj.result(alone));
}

/// A layer that is given rows in two portions has seen what it sees when it is given them at once.
pub proof fn lemma_layer_in_portions<S: Scalar>(
    layer: Gpt2Layer<S>,
    a: Array<S>,
    b: Array<S>,
    past: Cache<S>,
    hidden: usize,
    heads: usize,
    seen: usize,
)
    requires
        layer.wf(),
        layer.shaped(hidden, heads),
        portions(a, b, past, hidden, heads, seen),
    ensures
        layer.next(b, layer.next(a, past)) == layer.next(stacked(a, b), past),
{
    lemma_layer_norm_by_rows(layer.ln_1, a, b);
    lemma_attention_in_portions(
        layer.attention,
        layer.ln_1.result(a),
        layer.ln_1.result(b),
        past,
        hidden,
        heads,
        seen,
    );
}

/// What a layer makes of rows after others is what it makes of them alone, with the others in its
/// past.
pub proof fn lemma_layer_second_portion<S: Scalar>(
    layer: Gpt2Layer<S>,
    a: Array<S>,
    b: Array<S>,
    past: Cache<S>,
    hidden: usize,
    heads: usize,
    seen: usize,
)
    requires
        layer.wf(),
        layer.shaped(hidden, heads),
        portions(a, b, past, hidden, heads, seen),
        (a.dims[0] + b.dims[0]) * layer.mlp.inner() <= usize::MAX,
    ensures
        rows_from(layer.result(stacked(a, b), past), a.dims[0]) == layer.result(
            b,
            layer.next(a, past),
        ),
{
    let na = layer.ln_1.result(a);
    let nb = layer.ln_1.result(b);
    lemma_layer_norm_by_rows(layer.ln_1, a, b);
    lemma_attention_second_portion(layer.attention, na, nb, past, hidden, heads, seen);
    let whole = layer.attention.result(stacked(na, nb), past);
    let projected = attended_fresh(past, layer.attention.c_attn.result(stacked(na, nb)));
    lemma_linear_result_wf(layer.attention.c_proj, projected);
    let rows = a.dims[0] + b.dims[0];
    assert(whole.dims =~= seq![rows as usize, hidden]);
    lemma_split_rows(whole, a.dims[0]);
    let x = first_rows(whole, a.dims[0]);
    let y = rows_from(whole, a.dims[0]);
    assert(x.dims =~= a.dims);
    assert(y.dims =~= b.dims);
    lemma_added_by_rows(a, b, x, y);
    let ma = added(a, x);
    let mb = added(b, y);
    assert(mb == layer.middle(b, layer.next(a, past)));
    lemma_layer_norm_by_rows(layer.ln_2, ma, mb);
    let la = layer.ln_2.result(ma);
    let lb = layer.ln_2.result(mb);
    assert(rows * hidden <= rows * (3 * hidden)) by (nonlinear_arith)
        requires
            rows >= 0,
    ;
    lemma_mlp_by_rows(layer.mlp, la, lb);
    let fa = layer.mlp.result(la);
    let fb = layer.mlp.result(lb);
    assert(fa.dims =~= ma.dims);
    assert(fb.dims =~= mb.dims);
    lemma_added_by_rows(ma, mb, fa, fb);
    lemma_rows_from_stacked(added(ma, fa), added(mb, fb));
}

/// What attention keeps of a position does not depend on the rows that come after it, and what it
/// kept before stays.
pub proof fn lemma_attention_keeps_earlier<S: Scalar>(
    attention: Attention<S>,
    a: Array<S>,
    b: Array<S>,
    past: Cache<S>,
    hidden: usize,
    heads: usize,
    seen: usize,
    t: int,
    i: int,
    k: int,
)
    requires
        attention.wf(),
        attention.shaped(hidden, heads),
        portions(a, b, past, hidden, heads, seen),
        0 <= t < heads,
        0 <= i < seen + a.dims[0],
        0 <= k < hidden / heads,
    ensures
        ({
            let whole = attention.next(stacked(a, b), past);
            let alone = attention.next(a, past);
            &&& by_place(whole.key, t, i, k) == by_place(alone.key, t, i, k)
            &&& by_place(whole.value, t, i, k) == by_place(alone.value, t, i, k)
            &&& i < seen ==> by_place(whole.key, t, i, k) == by_place(past.key, t, i, k)
            &&& i < seen ==> by_place(whole.value, t, i, k) == by_place(past.value, t, i, k)
        }),
{
    let qa = attention.c_attn.result(a);
    let qb = attention.c_attn.result(b);
    lemma_projected_fits(attention, a, b, past, hidden, heads, seen);
    lemma_cache_of_earlier_rows(past, qa, qb, t, i, k);
    if i < seen {
        lemma_cache_keeps_past(past, stacked(qa, qb), t, i, k);
    }
}

/// As `lemma_attention_keeps_earlier`, of a layer.
pub proof fn lemma_layer_keeps_earlier<S: Scalar>(
    layer: Gpt2Layer<S>,
    a: Array<S>,
    b: Array<S>,
    past: Cache<S>,
    hidden: usize,
    heads: usize,
    seen: usize,
    t: int,
    i: int,
    k: int,
)
    requires
        layer.wf(),
        layer.shaped(hidden, heads),
        portions(a, b, past, hidden, heads, seen),
        0 <= t < heads,
        0 <= i < seen + a.dims[0],
        0 <= k < hidden / heads,
    ensures
        ({
            let whole = layer.next(stacked(a, b), past);
            let alone = layer.next(a, past);
            &&& by_place(whole.key, t, i, k) == by_place(alone.key, t, i, k)
            &&& by_place(whole.value, t, i, k) == by_place(alone.value, t, i, k)
            &&& i < seen ==> by_place(whole.key, t, i, k) == by_place(past.key, t, i, k)
            &&& i < seen ==> by_place(whole.value, t, i, k) == by_place(past.value, t, i, k)
        }),
{
    let na = layer.ln_1.result(a);
    let nb = layer.ln_1.result(b);
    lemma_layer_norm_by_rows(layer.ln_1, a, b);
    lemma_attention_keeps_earlier(layer.attention, na, nb, past, hidden, heads, seen, t, i, k);
}

/// Whether row `i` of `x` has, in every head behind the first, no score for what it does not see
/// above all others, and whether all values that are attended to are ordinary numbers.
pub open spec fn composed<S: Scalar>(
    attention: Attention<S>,
    x: Array<S>,
    past: Cache<S>,
    i: int,
) -> bool {
    let qkv = attention.c_attn.result(x);
    &&& all_finite(extended_cache(past, qkv).value.elems)
    &&& forall|t: int|
        0 < t < past.key.dims[0] ==> unrivalled(
            past.key.dims[1] as int,
            i,
            #[trigger] score_row(past, qkv, t, i),
        )
}

/// What attention makes of an earlier row does not depend on the rows that come after it: with other
/// rows in their place each number compares equal, unless it compares unequal even to itself.
pub proof fn lemma_attention_leaves_earlier_alone<S: Scalar>(
    attention: Attention<S>,
    a: Array<S>,
    one: Array<S>,
    other: Array<S>,
    past: Cache<S>,
    hidden: usize,
    heads: usize,
    seen: usize,
    i: int,
    j: int,
)
    requires
        attention.wf(),
        attention.shaped(hidden, heads),
        portions(a, one, past, hidden, heads, seen),
        portions(a, other, past, hidden, heads, seen),
        one.dims == other.dims,
        composed(attention, stacked(a, one), past, i),
        composed(attention, stacked(a, other), past, i),
        0 <= i < a.dims[0],
        0 <= j < hidden,
    ensures
        agrees(
            attention.result(stacked(a, one), past).elems[i * hidden + j],
            attention.result(stacked(a, other), past).elems[i * hidden + j],
        ),
{
    let q = attention.c_attn.result(a);
    let q1 = attention.c_attn.result(one);
    let q2 = attention.c_attn.result(other);
    lemma_projected_fits(attention, a, one, past, hidden, heads, seen);
    lemma_projected_fits(attention, a, other, past, hidden, heads, seen);
    let width = (3 * hidden) as usize;
    let h = heads as int;
    let n = hidden as int;
    let head_dim = head_dim_of(width, heads) as int;
    assert(width / 3usize == hidden);
    lemma_width(width, heads);
    let x1 = attended_fresh(past, stacked(q, q1));
    let x2 = attended_fresh(past, stacked(q, q2));
    let rows = a.dims[0] + one.dims[0];
    assert(x1.dims =~= seq![rows as usize, hidden]);
    assert(x2.dims =~= seq![rows as usize, hidden]);
    assert(rows * h * head_dim == rows * n) by (nonlinear_arith)
        requires
            h * head_dim == n,
    ;
    lemma_count_2(x1.dims);
    lemma_count_2(x2.dims);
    assert forall|p: int| 0 <= p < n implies agrees(
        #[trigger] x1.elems[i * n + p],
        x2.elems[i * n + p],
    ) by {
        lemma_unplace_2(p, h, head_dim);
        let t = p / head_dim;
        let k = p % head_dim;
        assert(t > 0 ==> unrivalled(seen as int, i, score_row(past, stacked(q, q1), t, i)));
        assert(t > 0 ==> unrivalled(seen as int, i, score_row(past, stacked(q, q2), t, i)));
        lemma_later_rows_leave_earlier_alone(past, q, q1, q2, i, t, k);
    }
    lemma_linear_agrees(attention.c_proj, x1, x2, hidden, hidden, i, j);
}

/// What attention makes of an earlier row among later ones is what it makes of it without them: each
/// number compares equal, unless it compares unequal even to itself.
pub proof fn lemma_attention_first_portion<S: Scalar>(
    attention: Attention<S>,
    a: Array<S>,
    b: Array<S>,
    past: Cache<S>,
    hidden: usize,
    heads: usize,
    seen: usize,
    i: int,
    j: int,
)
    requires
        attention.wf(),
        attention.shaped(hidden, heads),
        portions(a, b, past, hidden, heads, seen),
        composed(attention, stacked(a, b), past, i),
        0 <= i < a.dims[0],
        0 <= j < hidden,
    ensures
        agrees(
            attention.result(stacked(a, b), past).elems[i * hidden + j],
            attention.result(a, past).elems[i * hidden + j],
        ),
{
    let qa = attention.c_attn.result(a);
    let qb = attention.c_attn.result(b);
    lemma_projected_fits(attention, a, b, past, hidden, heads, seen);
    let width = (3 * hidden) as usize;
    let h = heads as int;
    let n = hidden as int;
    let head_dim = head_dim_of(width, heads) as int;
    assert(width / 3usize == hidden);
    lemma_width(width, heads);
    let x1 = attended_fresh(past, stacked(qa, qb));
    let x2 = attended_fresh(past, qa);
    let rows = a.dims[0] + b.dims[0];
    assert(x1.dims =~= seq![rows as usize, hidden]);
    assert(x2.dims =~= seq![a.dims[0], hidden]);
    assert(rows * h * head_dim == rows * n && a.dims[0] * h * head_dim == a.dims[0] * n)
        by (nonlinear_arith)
        requires
            h * head_dim == n,
    ;
    lemma_count_2(x1.dims);
    lemma_count_2(x2.dims);
    assert forall|p: int| 0 <= p < n implies agrees(
        #[trigger] x1.elems[i * n + p],
        x2.elems[i * n + p],
    ) by {
        lemma_unplace_2(p, h, head_dim);
        let t = p / head_dim;
        let k = p % head_dim;
        assert(t > 0 ==> unrivalled(seen as int, i, score_row(past, stacked(qa, qb), t, i)));
        lemma_first_portion_alone(past, qa, qb, i, t, k);
    }
    lemma_linear_agrees(attention.c_proj, x1, x2, hidden, hidden, i, j);
}

/// Rows of numbers that compare equal leave a linear layer with numbers that compare equal, unless
/// these compare unequal even to themselves.
pub proof fn lemma_linear_agrees<S: Scalar>(
    layer: Linear<S>,
    x: Array<S>,
    y: Array<S>,
    from: usize,
    to: usize,
    i: int,
    j: int,
)
    requires
        layer.wf(),
        layer.shaped(from, to),
        x.dims.len() == 2,
        y.dims.len() == 2,
        x.dims[1] == from,
        y.dims[1] == from,
        0 <= i < x.dims[0],
        i < y.dims[0],
        0 <= j < to,
        forall|p: int|
            0 <= p < from ==> agrees(#[trigger] x.elems[i * from + p], y.elems[i * from + p]),
    ensures
        agrees(layer.result(x).elems[i * to + j], layer.result(y).elems[i * to + j]),
{
    let w = layer.weight@;
    let bias = layer.bias@;
    let k = from as int;
    let n = to as int;
    let m1 = x.dims[0] as int;
    let m2 = y.dims[0] as int;
    let c1 = zeros::<S>(layer.result_dims(x.dims));
    let c2 = zeros::<S>(layer.result_dims(y.dims));
    lemma_count_2(c1.dims);
    lemma_count_2(c2.dims);
    assert(1 * m1 * n == m1 * n && 1 * m2 * n == m2 * n && 0 * m1 + i == i && 0 * m2 + i == i)
        by (nonlinear_arith);
    lemma_product_entry(false, 1, m1, k, n, x.elems, w.elems, c1.elems, 0, i, j);
    lemma_product_entry(false, 1, m2, k, n, y.elems, w.elems, c2.elems, 0, i, j);
    let r1 = left_row(x.elems, m1, k, 0, i);
    let r2 = left_row(y.elems, m2, k, 0, i);
    let column = right_column(false, w.elems, k, n, 0, j);
    assert forall|p: int| 0 <= p < k implies agrees(#[trigger] r1[p], r2[p]) by {
        assert(0 * (m1 * k) + i * k + p * 1 == i * k + p) by (nonlinear_arith);
        assert(0 * (m2 * k) + i * k + p * 1 == i * k + p) by (nonlinear_arith);
        assert(r1[p] == x.elems[spot(0 * (m1 * k) + i * k, 1, p)]);
        assert(r2[p] == y.elems[spot(0 * (m2 * k) + i * k, 1, p)]);
    }
    S::lemma_dotted_agrees(zero::<S>(), r1, column, r2, column);
    let d1 = product(false, x, w, c1);
    let d2 = product(false, y, w, c2);
    assert(bias.dims =~= d1.dims.skip(1));
    assert(bias.dims =~= d2.dims.skip(1));
    lemma_combined_rows(false, bias, d1, i, j);
    lemma_combined_rows(false, bias, d2, i, j);
    let at = i * n + j;
    S::lemma_plus_agrees(d1.elems[at], d2.elems[at], bias.elems[j]);
}

/// Looking up rows one list after the other is looking up both lists.
pub proof fn lemma_picked_in_portions<S>(first: Seq<u32>, second: Seq<u32>, w: Array<S>)
    requires
        first.len() + second.len() <= usize::MAX,
    ensures
        picked(first + second, w) == stacked(picked(first, w), picked(second, w)),
        stackable(picked(first, w), picked(second, w)),
{
    let m = first.len() as int;
    let k = second.len() as int;
    let n = w.dims[1] as int;
    let left = picked(first + second, w);
    let right = stacked(picked(first, w), picked(second, w));
    lemma_count_2(picked(first, w).dims);
    lemma_count_2(picked(second, w).dims);
    assert(m * n + k * n == (m + k) * n && 0 <= m * n && 0 <= k * n) by (nonlinear_arith)
        requires
            0 <= m,
            0 <= k,
            0 <= n,
    ;
    assert forall|p: int| 0 <= p < left.elems.len() implies #[trigger] left.elems[p]
        == right.elems[p] by {
        lemma_stacked_place(m, k, n, p);
    }
    assert(left.elems =~= right.elems);
    assert(left.dims =~= right.dims);
}

/// Embedding tokens one list after the other is embedding both lists.
pub proof fn lemma_embedded_in_portions<S: Scalar>(
    gpt2: Gpt2<S>,
    first: Seq<u32>,
    second: Seq<u32>,
    seen: usize,
)
    requires
        gpt2.shaped(),
        seen + first.len() + second.len() <= usize::MAX,
    ensures
        gpt2.embedded(first + second, seen) == stacked(
            gpt2.embedded(first, seen),
            gpt2.embedded(second, (seen + first.len()) as usize),
        ),
        stackable(
            gpt2.embedded(first, seen),
            gpt2.embedded(second, (seen + first.len()) as usize),
        ),
{
    let here = positions(first.len(), seen);
    let there = positions(second.len(), (seen + first.len()) as usize);
    assert(positions((first + second).len(), seen) =~= here + there);
    lemma_picked_in_portions(first, second, gpt2.wte.weight@);
    lemma_picked_in_portions(here, there, gpt2.wpe.weight@);
    lemma_added_by_rows(
        picked(here, gpt2.wpe.weight@),
        picked(there, gpt2.wpe.weight@),
        picked(first, gpt2.wte.weight@),
        picked(second, gpt2.wte.weight@),
    );
}

/// The last normalisation and the projection to the vocabulary work row by row.
pub proof fn lemma_head_by_rows<S: Scalar>(gpt2: Gpt2<S>, a: Array<S>, b: Array<S>)
    requires
        gpt2.wf(),
        gpt2.shaped(),
        stackable(a, b),
        a.dims[1] == gpt2.hidden(),
        (a.dims[0] + b.dims[0]) * gpt2.vocabulary() <= usize::MAX,
    ensures
        gpt2.head(stacked(a, b)) == stacked(gpt2.head(a), gpt2.head(b)),
        stackable(gpt2.head(a), gpt2.head(b)),
{
    lemma_layer_norm_by_rows(gpt2.ln_f, a, b);
    lemma_product_by_rows(
        true,
        gpt2.lm_head.weight@,
        gpt2.ln_f.result(a),
        gpt2.ln_f.result(b),
        gpt2.vocabulary(),
    );
}

/// Going through the first layer and then through the others is going through all.
proof fn lemma_passed_from_first<S: Scalar>(
    layers: Seq<Gpt2Layer<S>>,
    past: Seq<Cache<S>>,
    then: Seq<Cache<S>>,
    x: Array<S>,
    to: int,
)
    requires
        1 <= to <= layers.len(),
        past.len() == then.len() == layers.len(),
        forall|i: int| 1 <= i < past.len() ==> #[trigger] past[i] == then[i],
    ensures
        passed(layers, then, layers[0].result(x, past[0]), 1, to) == passed(layers, past, x, 0, to),
    decreases to,
{
    assert(passed(layers, past, x, 0, 0) == x);
    if to > 1 {
        lemma_passed_from_first(layers, past, then, x, to - 1);
        assert(past[to - 1] == then[to - 1]);
    }
}

/// A pass of `ids` that asks no peer is the layers in turn.
pub proof fn lemma_pass_without_peer<S: Scalar>(
    gpt2: Gpt2<S>,
    ids: Seq<u32>,
    past: Seq<Cache<S>>,
    reply: Seq<u8>,
)
    requires
        gpt2.shaped(),
        past.len() == gpt2.h.layers@.len(),
        !wide(gpt2.embedded_dims(ids.len())),
    ensures
        ({
            let layers = gpt2.h.layers@;
            let x = gpt2.embedded(ids, past[0].key.dims[1]);
            let n = layers.len() as int;
            &&& gpt2.outcome(ids, past, reply) == Ok::<Array<S>, Refusal<S>>(
                gpt2.head(passed(layers, past, x, 0, n)),
            )
            &&& gpt2.next(ids, past, reply) == advanced(layers, past, x, 0, n)
        }),
{
    let layers = gpt2.h.layers@;
    let n = layers.len() as int;
    let x = gpt2.embedded(ids, past[0].key.dims[1]);
    let waiting = gpt2.started(ids, past);
    let first = gpt2.started_next(ids, past);
    let y = layers[0].result(x, past[0]);
    lemma_layer_result(layers[0], gpt2.hidden(), gpt2.num_heads, x, past[0]);
    assert(!wide(waiting.tensor.dims));
    assert(layers[0].special_outcome(waiting.tensor, waiting.residual->0, reply) == Ok::<
        Array<S>,
        Refusal<S>,
    >(y));
    lemma_passed_from_first(layers, past, first, x, n);
    let left = advanced(layers, first, y, 1, n);
    let right = advanced(layers, past, x, 0, n);
    assert forall|i: int| 0 <= i < n implies #[trigger] left[i] == right[i] by {
        assert(passed(layers, past, x, 0, 0) == x);
        if i > 0 {
            lemma_passed_from_first(layers, past, first, x, i);
        }
    }
    assert(left =~= right);
}

/// Whether the rows of `a` come out of the first `i` layers among those of `b` as they come out
/// alone.
pub open spec fn undisturbed_at<S: Scalar>(
    layers: Seq<Gpt2Layer<S>>,
    past: Seq<Cache<S>>,
    a: Array<S>,
    b: Array<S>,
    i: int,
) -> bool {
    first_rows(passed(layers, past, stacked(a, b), 0, i), a.dims[0]) == passed(
        layers,
        past,
        a,
        0,
        i,
    )
}

/// Whether the rows of `a` come out of every layer but the last among those of `b` as they come out
/// alone.
pub open spec fn undisturbed<S: Scalar>(
    layers: Seq<Gpt2Layer<S>>,
    past: Seq<Cache<S>>,
    a: Array<S>,
    b: Array<S>,
) -> bool {
    forall|i: int| 0 < i < layers.len() ==> #[trigger] undisturbed_at(layers, past, a, b, i)
}

/// Two portions of rows on their way through the layers.
proof fn lemma_layers_second_portion<S: Scalar>(
    gpt2: Gpt2<S>,
    past: Seq<Cache<S>>,
    a: Array<S>,
    b: Array<S>,
    seen: usize,
    i: int,
)
    requires
        gpt2.wf(),
        gpt2.shaped(),
        gpt2.ready(past, seen),
        caches_wf(past),
        stackable(a, b),
        a.dims[1] == gpt2.hidden(),
        seen + a.dims[0] + b.dims[0] <= usize::MAX,
        gpt2.roomy((a.dims[0] + b.dims[0]) as usize, seen + a.dims[0] + b.dims[0]),
        undisturbed(gpt2.h.layers@, past, a, b),
        0 <= i <= gpt2.h.layers@.len(),
    ensures
        ({
            let layers = gpt2.h.layers@;
            let others = advanced(layers, past, a, 0, layers.len() as int);
            let whole = passed(layers, past, stacked(a, b), 0, i);
            let x = passed(layers, past, a, 0, i);
            let y = passed(layers, others, b, 0, i);
            &&& whole.dims == stacked(a, b).dims
            &&& whole.wf()
            &&& rows_from(whole, a.dims[0]) == y
            &&& i < layers.len() ==> {
                &&& whole == stacked(x, y)
                &&& stackable(x, y)
                &&& x.dims == a.dims
                &&& y.dims == b.dims
            }
        }),
    decreases i,
{
    let layers = gpt2.h.layers@;
    let hidden = gpt2.hidden();
    let heads = gpt2.num_heads;
    let n = layers.len() as int;
    let m = a.dims[0];
    let others = advanced(layers, past, a, 0, n);
    assert(a.dims =~= seq![m, hidden]);
    assert(b.dims =~= seq![b.dims[0], hidden]);
    lemma_count_2(a.dims);
    lemma_count_2(b.dims);
    lemma_count_2(stacked(a, b).dims);
    if i == 0 {
        assert(m * hidden + b.dims[0] * hidden == (m + b.dims[0]) * hidden) by (nonlinear_arith);
        lemma_rows_from_stacked(a, b);
    } else {
        lemma_layers_second_portion(gpt2, past, a, b, seen, i - 1);
        let layer = layers[i - 1];
        let x = passed(layers, past, a, 0, i - 1);
        let y = passed(layers, others, b, 0, i - 1);
        let whole = passed(layers, past, stacked(a, b), 0, i);
        assert(layer.wf() && layer.shaped(hidden, heads));
        assert(layer.roomy(hidden, heads, (m + b.dims[0]) as usize, seen + m + b.dims[0]));
        assert(past[i - 1].wf());
        lemma_layer_second_portion(layer, x, y, past[i - 1], hidden, heads, seen);
        lemma_layer_result(layer, hidden, heads, stacked(x, y), past[i - 1]);
        assert(whole.dims =~= stacked(a, b).dims);
        if i < n {
            lemma_split_rows(whole, m);
            assert(undisturbed_at(layers, past, a, b, i));
        }
    }
}

/// Layers that are given rows in two portions have seen what they see when they are given them at
/// once.
proof fn lemma_layers_in_portions<S: Scalar>(
    gpt2: Gpt2<S>,
    past: Seq<Cache<S>>,
    a: Array<S>,
    b: Array<S>,
    seen: usize,
)
    requires
        gpt2.wf(),
        gpt2.shaped(),
        gpt2.ready(past, seen),
        caches_wf(past),
        stackable(a, b),
        a.dims[1] == gpt2.hidden(),
        seen + a.dims[0] + b.dims[0] <= usize::MAX,
        gpt2.roomy((a.dims[0] + b.dims[0]) as usize, seen + a.dims[0] + b.dims[0]),
        undisturbed(gpt2.h.layers@, past, a, b),
    ensures
        ({
            let layers = gpt2.h.layers@;
            let n = layers.len() as int;
            let others = advanced(layers, past, a, 0, n);
            advanced(layers, others, b, 0, n) == advanced(layers, past, stacked(a, b), 0, n)
        }),
{
    let layers = gpt2.h.layers@;
    let hidden = gpt2.hidden();
    let heads = gpt2.num_heads;
    let n = layers.len() as int;
    let others = advanced(layers, past, a, 0, n);
    let left = advanced(layers, others, b, 0, n);
    let right = advanced(layers, past, stacked(a, b), 0, n);
    assert forall|i: int| 0 <= i < n implies #[trigger] left[i] == right[i] by {
        lemma_layers_second_portion(gpt2, past, a, b, seen, i);
        let layer = layers[i];
        assert(layer.wf() && layer.shaped(hidden, heads));
        assert(layer.roomy(
            hidden,
            heads,
            (a.dims[0] + b.dims[0]) as usize,
            seen + a.dims[0] + b.dims[0],
        ));
        assert(past[i].wf());
        lemma_layer_in_portions(
            layer,
            passed(layers, past, a, 0, i),
            passed(layers, others, b, 0, i),
            past[i],
            hidden,
            heads,
            seen,
        );
    }
    assert(left =~= right);
}

/// How many positions the first layer has seen after a pass of `a`.
proof fn lemma_seen_after<S: Scalar>(gpt2: Gpt2<S>, past: Seq<Cache<S>>, a: Array<S>, seen: usize)
    requires
        gpt2.shaped(),
        gpt2.ready(past, seen),
        a.dims.len() == 2,
        seen + a.dims[0] <= usize::MAX,
    ensures
        ({
            let layers = gpt2.h.layers@;
            let after = advanced(layers, past, a, 0, layers.len() as int);
            after.len() == layers.len() && after[0].key.dims[1] == seen + a.dims[0]
        }),
{
    let layers = gpt2.h.layers@;
    let hidden = gpt2.hidden();
    let heads = gpt2.num_heads;
    assert(layers[0].shaped(hidden, heads));
    assert(past[0].key.dims == cache_dims(hidden, heads, seen));
    assert(passed(layers, past, a, 0, 0) == a);
    lemma_layer_next(layers[0], hidden, heads, a, past[0], seen);
}

/// The scores that two portions of rows lead to.
proof fn lemma_scores_second_portion<S: Scalar>(
    gpt2: Gpt2<S>,
    past: Seq<Cache<S>>,
    a: Array<S>,
    b: Array<S>,
    seen: usize,
)
    requires
        gpt2.wf(),
        gpt2.shaped(),
        gpt2.ready(past, seen),
        caches_wf(past),
        stackable(a, b),
        a.dims[1] == gpt2.hidden(),
        seen + a.dims[0] + b.dims[0] <= usize::MAX,
        gpt2.roomy((a.dims[0] + b.dims[0]) as usize, seen + a.dims[0] + b.dims[0]),
        undisturbed(gpt2.h.layers@, past, a, b),
    ensures
        ({
            let layers = gpt2.h.layers@;
            let n = layers.len() as int;
            let others = advanced(layers, past, a, 0, n);
            rows_from(gpt2.head(passed(layers, past, stacked(a, b), 0, n)), a.dims[0])
                == gpt2.head(passed(layers, others, b, 0, n))
        }),
{
    let layers = gpt2.h.layers@;
    let n = layers.len() as int;
    let m = a.dims[0];
    lemma_layers_second_portion(gpt2, past, a, b, seen, n);
    let whole = passed(layers, past, stacked(a, b), 0, n);
    lemma_split_rows(whole, m);
    let x = first_rows(whole, m);
    let y = rows_from(whole, m);
    lemma_head_by_rows(gpt2, x, y);
    lemma_rows_from_stacked(gpt2.head(x), gpt2.head(y));
}

/// What a network makes of tokens after others is what it makes of them alone, with the others in its
/// past, and the past ends the same, where the other tokens come out of every layer but the last
/// undisturbed by these. In a network of one layer that is always so. No pass asks the peer.
pub proof fn lemma_network_second_portion<S: Scalar>(
    gpt2: Gpt2<S>,
    ids: Seq<u32>,
    more: Seq<u32>,
    past: Seq<Cache<S>>,
    seen: usize,
    replies: (Seq<u8>, Seq<u8>, Seq<u8>),
)
    requires
        gpt2.wf(),
        gpt2.shaped(),
        !wide(gpt2.embedded_dims((ids + more).len())),
        !wide(gpt2.embedded_dims(ids.len())),
        !wide(gpt2.embedded_dims(more.len())),
        gpt2.ready(past, seen),
        caches_wf(past),
        seen + ids.len() + more.len() <= usize::MAX,
        gpt2.roomy((ids.len() + more.len()) as usize, seen + ids.len() + more.len()),
        undisturbed(
            gpt2.h.layers@,
            past,
            gpt2.embedded(ids, seen),
            gpt2.embedded(more, (seen + ids.len()) as usize),
        ),
    ensures
        ({
            let whole = gpt2.outcome(ids + more, past, replies.0);
            let others = gpt2.next(ids, past, replies.1);
            let alone = gpt2.outcome(more, others, replies.2);
            &&& whole is Ok && alone is Ok
            &&& rows_from(whole->Ok_0, ids.len() as usize) == alone->Ok_0
            &&& gpt2.next(ids + more, past, replies.0) == gpt2.next(more, others, replies.2)
        }),
{
    let a = gpt2.embedded(ids, seen);
    let b = gpt2.embedded(more, (seen + ids.len()) as usize);
    assert(past[0].key.dims == cache_dims(gpt2.hidden(), gpt2.num_heads, seen));
    lemma_embedded_in_portions(gpt2, ids, more, seen);
    lemma_pass_without_peer(gpt2, ids + more, past, replies.0);
    lemma_pass_without_peer(gpt2, ids, past, replies.1);
    lemma_seen_after(gpt2, past, a, seen);
    lemma_pass_without_peer(gpt2, more, gpt2.next(ids, past, replies.1), replies.2);
    lemma_layers_in_portions(gpt2, past, a, b, seen);
    lemma_scores_second_portion(gpt2, past, a, b, seen);
}

} // verus!
