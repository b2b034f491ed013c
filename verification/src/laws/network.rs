//! A layer, and the layers one after the other.
use crate::laws::sums::{lemma_picked_element, lemma_same_shape_sum, lemma_shape_kept};
use crate::model::gpt2::{positions, Gpt2};
use crate::model::layer::Gpt2Layer;
use crate::model::linear::lemma_linear_result_wf;
use crate::model::mlp::Refusal;
use crate::model::shaped::lemma_network_accepts;
use crate::model::stack::{advanced, passed, Gpt2Model, Waiting};
use crate::ops::activation::gated;
use crate::ops::attention::attended_fresh;
use crate::ops::elementwise::added;
use crate::ops::pick::picked;
use crate::scalar::Scalar;
use crate::shape::{lemma_count_2, lemma_count_3, lemma_unplace_2};
use crate::tensor::{Array, Cache};
use vstd::prelude::*;

verus! {

/// A layer keeps what it is given: `middle` is the attention part's result plus what the layer was
/// given, number by number, and the layer's result is the feed-forward part's result for the
/// normalised `middle` plus `middle`, number by number. Attention and the past get the normalised
/// input.
pub proof fn lemma_layer_element<S: Scalar>(
    layer: Gpt2Layer<S>,
    x: Array<S>,
    past: Cache<S>,
    middle: Array<S>,
    p: int,
)
    requires
        x.dims.len() == 2,
        x.wf(),
        layer.attention.c_proj.weight@.dims[1] == x.dims[1],
        layer.mlp.c_proj.weight@.dims[1] == x.dims[1],
        middle.dims == x.dims,
        middle.elems.len() == x.elems.len(),
        forall|q: int|
            0 <= q < middle.elems.len() ==> #[trigger] middle.elems[q] == layer.attention.result(
                layer.ln_1.result(x),
                past,
            ).elems[q].plus(x.elems[q]),
        0 <= p < x.elems.len(),
    ensures
        layer.result(x, past).dims == x.dims,
        layer.result(x, past).elems.len() == x.elems.len(),
        layer.result(x, past).elems[p] == layer.mlp.result(layer.ln_2.result(middle)).elems[p].plus(
            middle.elems[p],
        ),
        layer.result(x, past).elems[p] == layer.mlp.result(layer.ln_2.result(middle)).elems[p].plus(
            layer.attention.result(layer.ln_1.result(x), past).elems[p].plus(x.elems[p]),
        ),
        layer.next(x, past) == layer.attention.next(layer.ln_1.result(x), past),
        layer.middle(x, past) == middle,
        layer.mlp_input(x, past) == layer.ln_2.result(middle),
{
    lemma_middle_element(layer, x, past, p);
    assert forall|q: int| 0 <= q < middle.elems.len() implies #[trigger] middle.elems[q]
        == layer.middle(x, past).elems[q] by {
        lemma_middle_element(layer, x, past, q);
    }
    assert(middle.elems =~= layer.middle(x, past).elems);
    assert(middle == layer.middle(x, past));
    let input = layer.ln_2.result(middle);
    let y = layer.mlp.result(input);
    lemma_linear_result_wf(layer.mlp.c_fc, input);
    lemma_linear_result_wf(layer.mlp.c_proj, gated(layer.mlp.c_fc.result(input)));
    assert(y.dims =~= x.dims);
    lemma_same_shape_sum(middle, y, p);
}

proof fn lemma_middle_element<S: Scalar>(layer: Gpt2Layer<S>, x: Array<S>, past: Cache<S>, p: int)
    requires
        x.dims.len() == 2,
        x.wf(),
        layer.attention.c_proj.weight@.dims[1] == x.dims[1],
        0 <= p < x.elems.len(),
    ensures
        layer.middle(x, past).dims == x.dims,
        layer.middle(x, past).elems.len() == x.elems.len(),
        layer.middle(x, past).elems[p] == layer.attention.result(
            layer.ln_1.result(x),
            past,
        ).elems[p].plus(x.elems[p]),
{
    let input = layer.ln_1.result(x);
    let a = layer.attention.result(input, past);
    let qkv = layer.attention.c_attn.result(input);
    lemma_linear_result_wf(layer.attention.c_attn, input);
    lemma_linear_result_wf(layer.attention.c_proj, attended_fresh(past, qkv));
    assert(a.dims =~= x.dims);
    lemma_same_shape_sum(x, a, p);
}

/// A layer whose attention and feed-forward parts give nothing gives back what it was given.
pub proof fn lemma_idle_layer<S: Scalar>(layer: Gpt2Layer<S>, x: Array<S>, past: Cache<S>)
    requires
        forall|a: S| #[trigger] S::counted(0).plus(a) == a,
        x.dims.len() == 2,
        x.wf(),
        layer.attention.c_proj.weight@.dims[1] == x.dims[1],
        layer.mlp.c_proj.weight@.dims[1] == x.dims[1],
        forall|q: int|
            0 <= q < x.elems.len() ==> #[trigger] layer.attention.result(
                layer.ln_1.result(x),
                past,
            ).elems[q] == S::counted(0),
        forall|q: int|
            0 <= q < x.elems.len() ==> #[trigger] layer.mlp.result(layer.ln_2.result(x)).elems[q]
                == S::counted(0),
    ensures
        layer.result(x, past) == x,
{
    let a = layer.attention.result(layer.ln_1.result(x), past);
    let f = layer.mlp.result(layer.ln_2.result(x));
    assert forall|q: int| 0 <= q < x.elems.len() implies #[trigger] x.elems[q] == a.elems[q].plus(
        x.elems[q],
    ) by {
        assert(a.elems[q] == S::counted(0));
        assert(S::counted(0).plus(x.elems[q]) == x.elems[q]);
    }
    let y = layer.result(x, past);
    assert forall|q: int| 0 <= q < x.elems.len() implies y.dims == x.dims && y.elems.len()
        == x.elems.len() && #[trigger] y.elems[q] == x.elems[q] by {
        lemma_layer_element(layer, x, past, x, q);
        assert(f.elems[q] == S::counted(0));
        assert(S::counted(0).plus(x.elems[q]) == x.elems[q]);
    }
    let local = layer.mlp.result(layer.mlp_input(x, past));
    lemma_linear_result_wf(
        layer.mlp.c_proj,
        gated(layer.mlp.c_fc.result(layer.mlp_input(x, past))),
    );
    lemma_shape_kept(false, 0, false, layer.middle(x, past), local, local, S::counted(0));
    assert(y.dims =~= x.dims);
    assert(y.elems =~= x.elems);
}

/// Beside a remote peer a layer's result is what is taken from the peer plus `middle`, number by
/// number; what is refused is refused.
pub proof fn lemma_layer_beside_peer<S: Scalar>(
    layer: Gpt2Layer<S>,
    x: Array<S>,
    past: Cache<S>,
    reply: Seq<u8>,
    middle: Array<S>,
    p: int,
)
    requires
        x.dims.len() == 2,
        x.wf(),
        layer.attention.c_proj.weight@.dims[1] == x.dims[1],
        layer.mlp.c_proj.weight@.dims[1] == x.dims[1],
        middle.dims == x.dims,
        middle.elems.len() == x.elems.len(),
        forall|q: int|
            0 <= q < middle.elems.len() ==> #[trigger] middle.elems[q] == layer.attention.result(
                layer.ln_1.result(x),
                past,
            ).elems[q].plus(x.elems[q]),
        0 <= p < x.elems.len(),
    ensures
        match layer.mlp.special_outcome(layer.ln_2.result(middle), reply) {
            Err(e) => layer.special_result(x, past, reply) == Err::<Array<S>, Refusal<S>>(e),
            Ok(taken) => {
                &&& layer.special_result(x, past, reply) is Ok
                &&& taken.dims == x.dims && taken.elems.len() == x.elems.len() ==> {
                    let result = layer.special_result(x, past, reply)->Ok_0;
                    &&& result.dims == x.dims
                    &&& result.elems.len() == x.elems.len()
                    &&& result.elems[p] == taken.elems[p].plus(middle.elems[p])
                }
            },
        },
{
    lemma_layer_element(layer, x, past, middle, p);
    match layer.mlp.special_outcome(layer.ln_2.result(middle), reply) {
        Err(e) => {},
        Ok(taken) => {
            if taken.dims == x.dims && taken.elems.len() == x.elems.len() {
                lemma_same_shape_sum(middle, taken, p);
            }
        },
    }
}

/// What is taken from the peer is added to what the layer hands over for it; what is refused is
/// refused.
pub proof fn lemma_taken_is_added<S: Scalar>(
    layer: Gpt2Layer<S>,
    x: Array<S>,
    residual: Array<S>,
    reply: Seq<u8>,
)
    ensures
        layer.special_outcome(x, residual, reply) == match layer.mlp.special_outcome(x, reply) {
            Ok(taken) => Ok::<Array<S>, Refusal<S>>(added(residual, taken)),
            Err(e) => Err(e),
        },
{
}

/// A layer can be applied where its parts can be applied one after the other, and its rows keep their
/// size.
pub proof fn lemma_layer_takes<S: Scalar>(
    layer: Gpt2Layer<S>,
    x: Seq<usize>,
    key: Seq<usize>,
    value: Seq<usize>,
)
    ensures
        layer.fits(x, key, value) <==> {
            &&& layer.ln_1.fits(x)
            &&& layer.attention.fits(x, key, value)
            &&& layer.attention.c_proj.weight@.dims[1] == x[1]
            &&& layer.ln_2.fits(x)
            &&& layer.mlp.fits(x)
            &&& layer.mlp.c_proj.weight@.dims[1] == x[1]
        },
        layer.special_fits(x, key, value) <==> layer.fits(x, key, value) && layer.mlp.special_fits(x),
{
    let y = layer.middle_dims(x);
    let z = layer.result_dims(x);
    assert(y =~= seq![x[0], layer.attention.c_proj.weight@.dims[1]]);
    assert(z =~= seq![x[0], layer.mlp.c_proj.weight@.dims[1]]);
    if x.len() == 2 {
        assert(y.skip(1).len() == 1 && z.skip(1).len() == 1);
        if layer.attention.c_proj.weight@.dims[1] == x[1] {
            assert(y =~= x);
        }
        if layer.mlp.c_proj.weight@.dims[1] == x[1] {
            assert(z =~= x);
        }
    }
}

/// `xs` is what a tensor is before each layer and at last: layer `i` makes `xs[i + 1]` of `xs[i]`.
pub open spec fn chained<S: Scalar>(
    layers: Seq<Gpt2Layer<S>>,
    past: Seq<Cache<S>>,
    xs: Seq<Array<S>>,
    from: int,
    to: int,
) -> bool {
    forall|i: int|
        from <= i < to ==> xs[i + 1] == #[trigger] layers[i].result(xs[i], past[i])
}

proof fn lemma_chain<S: Scalar>(
    layers: Seq<Gpt2Layer<S>>,
    past: Seq<Cache<S>>,
    xs: Seq<Array<S>>,
    to: int,
)
    requires
        1 <= to,
        chained(layers, past, xs, 1, to),
    ensures
        passed(layers, past, xs[1], 1, to) == xs[to],
    decreases to,
{
    if to > 1 {
        lemma_chain(layers, past, xs, to - 1);
        assert(xs[to - 1 + 1] == layers[to - 1].result(xs[to - 1], past[to - 1]));
    }
}

/// How a pass goes on: without something to add to, it is done. Otherwise the first layer is finished
/// beside the peer, and the tensor goes through the other layers in order, each after its own past.
/// `xs[i]` is what it is before layer `i`. The first past stays, the others are followed by what their
/// layers were given. A refusal is returned and leaves the past as it is.
pub proof fn lemma_pass_goes_on<S: Scalar>(
    model: Gpt2Model<S>,
    waiting: Waiting<S>,
    past: Seq<Cache<S>>,
    xs: Seq<Array<S>>,
    reply: Seq<u8>,
    n: int,
)
    requires
        n == if model.layers@.len() <= past.len() {
            model.layers@.len() as int
        } else {
            past.len() as int
        },
        n > 0,
        xs.len() == n + 1,
        chained(model.layers@, past, xs, 1, n),
    ensures
        ({
            let after = model.resumed_next(waiting, past, reply);
            let result = model.resumed(waiting, past, reply);
            match waiting.residual {
                None => result == Ok::<Array<S>, Refusal<S>>(waiting.tensor) && after == past,
                Some(residual) => match model.layers@[0].special_outcome(
                    waiting.tensor,
                    residual,
                    reply,
                ) {
                    Err(e) => result == Err::<Array<S>, Refusal<S>>(e) && after == past,
                    Ok(first) => first == xs[1] ==> {
                        &&& result == Ok::<Array<S>, Refusal<S>>(xs[n])
                        &&& after.len() == past.len()
                        &&& after[0] == past[0]
                        &&& forall|i: int|
                            1 <= i < n ==> #[trigger] after[i] == model.layers@[i].next(
                                xs[i],
                                past[i],
                            )
                        &&& forall|i: int| n <= i < past.len() ==> #[trigger] after[i] == past[i]
                    },
                },
            }
        }),
{
    let layers = model.layers@;
    let after = model.resumed_next(waiting, past, reply);
    assert(model.steps(past.len()) == n);
    lemma_chain(layers, past, xs, n);
    assert forall|i: int| 1 <= i < n implies passed(layers, past, xs[1], 1, i) == #[trigger] xs[i] by {
        lemma_chain(layers, past, xs, i);
    }
}

/// A tensor goes through the layers in order, through as many as there are both layers and pasts.
/// `xs` holds what it is before each and at last: the first layer works beside the remote peer, the
/// others alone, each after its own past. Every past is followed by what its layer was given, and
/// those without a layer stay. While the pass waits for the peer, only the first past has grown.
pub proof fn lemma_layers_in_order<S: Scalar>(
    model: Gpt2Model<S>,
    past: Seq<Cache<S>>,
    xs: Seq<Array<S>>,
    reply: Seq<u8>,
    n: int,
)
    requires
        n == if model.layers@.len() <= past.len() {
            model.layers@.len() as int
        } else {
            past.len() as int
        },
        n > 0,
        xs.len() == n + 1,
        model.layers@[0].special_result(xs[0], past[0], reply) == Ok::<Array<S>, Refusal<S>>(xs[1]),
        chained(model.layers@, past, xs, 1, n),
    ensures
        ({
            let waiting = model.started(xs[0], past);
            let meanwhile = model.started_next(xs[0], past);
            let after = model.resumed_next(waiting, meanwhile, reply);
            &&& meanwhile == past.update(0, model.layers@[0].next(xs[0], past[0]))
            &&& model.resumed(waiting, meanwhile, reply) == Ok::<Array<S>, Refusal<S>>(xs[n])
            &&& after.len() == past.len()
            &&& forall|i: int|
                0 <= i < n ==> #[trigger] after[i] == model.layers@[i].next(xs[i], past[i])
            &&& forall|i: int| n <= i < past.len() ==> #[trigger] after[i] == past[i]
        }),
{
    let layers = model.layers@;
    let waiting = model.started(xs[0], past);
    let meanwhile = model.started_next(xs[0], past);
    let after = model.resumed_next(waiting, meanwhile, reply);
    assert(model.steps(past.len()) == n);
    assert forall|i: int| 1 <= i < n implies xs[i + 1] == #[trigger] layers[i].result(
        xs[i],
        meanwhile[i],
    ) by {
        assert(meanwhile[i] == past[i]);
        assert(xs[i + 1] == layers[i].result(xs[i], past[i]));
    }
    lemma_chain(layers, meanwhile, xs, n);
    assert(after == advanced(layers, meanwhile, xs[1], 1, n));
    assert forall|i: int| 0 <= i < n implies #[trigger] after[i] == layers[i].next(
        xs[i],
        past[i],
    ) by {
        if i > 0 {
            lemma_chain(layers, meanwhile, xs, i);
            assert(meanwhile[i] == past[i]);
        }
    }
}

/// Where the remote peer's reply is refused, the pass stops after the first layer's attention: the
/// refusal is returned, and only the first past has grown.
pub proof fn lemma_refusal_stops<S: Scalar>(
    model: Gpt2Model<S>,
    past: Seq<Cache<S>>,
    x: Array<S>,
    reply: Seq<u8>,
    e: Refusal<S>,
)
    requires
        model.layers@.len() > 0,
        past.len() > 0,
        model.layers@[0].special_result(x, past[0], reply) == Err::<Array<S>, Refusal<S>>(e),
    ensures
        ({
            let waiting = model.started(x, past);
            let meanwhile = model.started_next(x, past);
            &&& model.resumed(waiting, meanwhile, reply) == Err::<Array<S>, Refusal<S>>(e)
            &&& model.resumed_next(waiting, meanwhile, reply) == past.update(
                0,
                model.layers@[0].next(x, past[0]),
            )
        }),
{
}

/// Without layers, or without a past, a tensor stays as it is and nobody is asked.
pub proof fn lemma_no_layers<S: Scalar>(
    model: Gpt2Model<S>,
    past: Seq<Cache<S>>,
    x: Array<S>,
    reply: Seq<u8>,
)
    requires
        model.layers@.len() == 0 || past.len() == 0,
    ensures
        model.started(x, past) == (Waiting { tensor: x, residual: None, request: None }),
        model.started_next(x, past) == past,
        model.resumed(model.started(x, past), past, reply) == Ok::<Array<S>, Refusal<S>>(x),
        model.resumed_next(model.started(x, past), past, reply) == past,
{
}

/// What stands for token `i` at column `j`: the token's row of the token table plus its position's
/// row of the position table. Its position counts from what the past has seen.
pub proof fn lemma_embedded_element<S: Scalar>(
    gpt2: Gpt2<S>,
    ids: Seq<u32>,
    seen: usize,
    i: int,
    j: int,
)
    requires
        gpt2.wte.weight@.dims.len() >= 2,
        gpt2.wpe.weight@.dims.len() >= 2,
        gpt2.wpe.weight@.dims[1] == gpt2.wte.weight@.dims[1],
        ids.len() <= usize::MAX,
        0 <= i < ids.len(),
        0 <= j < gpt2.wte.weight@.dims[1],
    ensures
        ({
            let width = gpt2.wte.weight@.dims[1];
            let place = (i + seen) as usize as u32;
            &&& gpt2.embedded(ids, seen).dims == seq![ids.len() as usize, width]
            &&& gpt2.embedded(ids, seen).elems.len() == ids.len() * width
            &&& gpt2.embedded(ids, seen).elems[i * width + j] == gpt2.wte.weight@.elems[ids[i]
                * width + j].plus(gpt2.wpe.weight@.elems[place * width + j])
        }),
{
    let width = gpt2.wte.weight@.dims[1];
    let places = positions(ids.len(), seen);
    lemma_picked_element(ids, gpt2.wte.weight@, i, j);
    lemma_picked_element(places, gpt2.wpe.weight@, i, j);
    let a = picked(places, gpt2.wpe.weight@);
    let b = picked(ids, gpt2.wte.weight@);
    lemma_count_2(a.dims);
    crate::shape::lemma_place_2(i, j, ids.len() as int, width as int);
    assert(a.dims =~= b.dims);
    lemma_same_shape_sum(a, b, i * width + j);
}

/// How a pass of the network goes on: what the layers give is normalised and held against every token
/// of the vocabulary.
pub proof fn lemma_network_goes_on<S: Scalar>(
    gpt2: Gpt2<S>,
    ids: Seq<u32>,
    waiting: Waiting<S>,
    past: Seq<Cache<S>>,
    reply: Seq<u8>,
)
    ensures
        gpt2.resumed(waiting, past, reply) == match gpt2.h.resumed(waiting, past, reply) {
            Ok(x) => Ok::<Array<S>, Refusal<S>>(gpt2.lm_head.result(gpt2.ln_f.result(x))),
            Err(e) => Err(e),
        },
        ({
            let x = gpt2.embedded(ids, past[0].key.dims[1]);
            &&& gpt2.started(ids, past) == gpt2.h.started(x, past)
            &&& gpt2.started_next(ids, past) == gpt2.h.started_next(x, past)
        }),
        gpt2.outcome(ids, past, reply) == gpt2.resumed(
            gpt2.started(ids, past),
            gpt2.started_next(ids, past),
            reply,
        ),
        gpt2.next(ids, past, reply) == gpt2.h.resumed_next(
            gpt2.started(ids, past),
            gpt2.started_next(ids, past),
            reply,
        ),
{
}

/// The network embeds its tokens, passes them through its layers, normalises what comes out and holds
/// it against every token of the vocabulary. `xs` holds what the tokens are before each layer and at
/// last. Every past is followed by what its layer was given.
pub proof fn lemma_network_in_order<S: Scalar>(
    gpt2: Gpt2<S>,
    ids: Seq<u32>,
    past: Seq<Cache<S>>,
    xs: Seq<Array<S>>,
    reply: Seq<u8>,
    n: int,
)
    requires
        gpt2.wte.weight@.dims.len() >= 2,
        gpt2.wpe.weight@.dims.len() >= 2,
        gpt2.wpe.weight@.dims[1] == gpt2.wte.weight@.dims[1],
        ids.len() <= usize::MAX,
        n == if gpt2.h.layers@.len() <= past.len() {
            gpt2.h.layers@.len() as int
        } else {
            past.len() as int
        },
        xs.len() == n + 1,
        xs[0].dims == seq![ids.len() as usize, gpt2.wte.weight@.dims[1]],
        xs[0].elems.len() == ids.len() * gpt2.wte.weight@.dims[1],
        forall|i: int, j: int|
            #![trigger xs[0].elems[i * gpt2.wte.weight@.dims[1] + j]]
            0 <= i < ids.len() && 0 <= j < gpt2.wte.weight@.dims[1] ==> ({
                let width = gpt2.wte.weight@.dims[1];
                let place = (i + past[0].key.dims[1]) as usize as u32;
                xs[0].elems[i * width + j] == gpt2.wte.weight@.elems[ids[i] * width + j].plus(
                    gpt2.wpe.weight@.elems[place * width + j],
                )
            }),
        n > 0 ==> gpt2.h.layers@[0].special_result(xs[0], past[0], reply) == Ok::<
            Array<S>,
            Refusal<S>,
        >(xs[1]),
        chained(gpt2.h.layers@, past, xs, 1, n),
    ensures
        gpt2.outcome(ids, past, reply) == Ok::<Array<S>, Refusal<S>>(
            gpt2.lm_head.result(gpt2.ln_f.result(xs[n])),
        ),
        gpt2.next(ids, past, reply).len() == past.len(),
        forall|i: int|
            0 <= i < n ==> #[trigger] gpt2.next(ids, past, reply)[i] == gpt2.h.layers@[i].next(
                xs[i],
                past[i],
            ),
        forall|i: int|
            n <= i < past.len() ==> #[trigger] gpt2.next(ids, past, reply)[i] == past[i],
{
    let seen = past[0].key.dims[1];
    lemma_embedding(gpt2, ids, seen, xs[0]);
    if n > 0 {
        lemma_layers_in_order(gpt2.h, past, xs, reply, n);
    } else {
        lemma_no_layers(gpt2.h, past, xs[0], reply);
    }
}

/// The embedding is the tensor of the numbers that `lemma_embedded_element` gives.
proof fn lemma_embedding<S: Scalar>(gpt2: Gpt2<S>, ids: Seq<u32>, seen: usize, x: Array<S>)
    requires
        gpt2.wte.weight@.dims.len() >= 2,
        gpt2.wpe.weight@.dims.len() >= 2,
        gpt2.wpe.weight@.dims[1] == gpt2.wte.weight@.dims[1],
        ids.len() <= usize::MAX,
        x.dims == seq![ids.len() as usize, gpt2.wte.weight@.dims[1]],
        x.elems.len() == ids.len() * gpt2.wte.weight@.dims[1],
        forall|i: int, j: int|
            #![trigger x.elems[i * gpt2.wte.weight@.dims[1] + j]]
            0 <= i < ids.len() && 0 <= j < gpt2.wte.weight@.dims[1] ==> ({
                let width = gpt2.wte.weight@.dims[1];
                let place = (i + seen) as usize as u32;
                x.elems[i * width + j] == gpt2.wte.weight@.elems[ids[i] * width + j].plus(
                    gpt2.wpe.weight@.elems[place * width + j],
                )
            }),
    ensures
        gpt2.embedded(ids, seen) == x,
{
    let width = gpt2.wte.weight@.dims[1];
    let y = gpt2.embedded(ids, seen);
    let b = picked(ids, gpt2.wte.weight@);
    assert(y.dims =~= x.dims);
    assert(y.elems.len() == x.elems.len());
    assert forall|p: int| 0 <= p < x.elems.len() implies #[trigger] y.elems[p] == x.elems[p] by {
        lemma_unplace_2(p, ids.len() as int, width as int);
        let i = p / (width as int);
        let j = p % (width as int);
        lemma_embedded_element(gpt2, ids, seen, i, j);
        assert(x.elems[i * width + j] == x.elems[p]);
    }
    assert(y.elems =~= x.elems);
}

/// Layers that have seen nothing have a past without positions, one for each layer, in the heads of
/// the network.
pub proof fn lemma_empty_past<S: Scalar>(gpt2: Gpt2<S>, i: int)
    requires
        0 <= i < gpt2.h.layers@.len(),
    ensures
        gpt2.empty_past().len() == gpt2.h.layers@.len(),
        ({
            let dims = seq![
                gpt2.num_heads,
                0usize,
                (gpt2.wte.weight@.dims[1] / gpt2.num_heads) as usize,
            ];
            let cache = gpt2.empty_past()[i];
            &&& cache.key.dims == dims
            &&& cache.value.dims == dims
            &&& cache.key.elems.len() == 0
            &&& cache.value.elems.len() == 0
        }),
{
    let dims = gpt2.empty_past()[i].key.dims;
    lemma_count_3(dims);
    assert(dims[0] * 0 * dims[2] == 0) by (nonlinear_arith);
}

/// A network accepts tokens of its vocabulary as long as it has positions for them, after a past of
/// `seen` positions in every layer, where its tensors have the shapes of rows of `hidden` numbers
/// and what it computes can be counted.
pub proof fn lemma_network_takes<S: Scalar>(
    gpt2: Gpt2<S>,
    ids: Seq<u32>,
    past: Seq<Cache<S>>,
    hidden: usize,
    vocabulary: usize,
    context: usize,
    seen: usize,
)
    requires
        gpt2.wf(),
        gpt2.num_heads > 0,
        hidden % gpt2.num_heads == 0,
        3 * hidden <= usize::MAX,
        gpt2.wte.weight@.dims == seq![vocabulary, hidden],
        gpt2.wpe.weight@.dims == seq![context, hidden],
        gpt2.lm_head.weight@.dims == seq![vocabulary, hidden],
        gpt2.ln_f.weight@.dims == seq![hidden],
        gpt2.ln_f.bias@.dims == seq![hidden],
        gpt2.h.layers@.len() > 0,
        past.len() == gpt2.h.layers@.len(),
        forall|i: int|
            0 <= i < gpt2.h.layers@.len() ==> ({
                let layer = #[trigger] gpt2.h.layers@[i];
                let inner = layer.mlp.c_fc.weight@.dims[1];
                &&& layer.ln_1.weight@.dims == seq![hidden]
                &&& layer.ln_1.bias@.dims == seq![hidden]
                &&& layer.ln_2.weight@.dims == seq![hidden]
                &&& layer.ln_2.bias@.dims == seq![hidden]
                &&& layer.attention.num_heads == gpt2.num_heads
                &&& layer.attention.c_attn.weight@.dims == seq![hidden, (3 * hidden) as usize]
                &&& layer.attention.c_attn.bias@.dims == seq![(3 * hidden) as usize]
                &&& layer.attention.c_proj.weight@.dims == seq![hidden, hidden]
                &&& layer.attention.c_proj.bias@.dims == seq![hidden]
                &&& layer.mlp.c_fc.weight@.dims == seq![hidden, inner]
                &&& layer.mlp.c_fc.bias@.dims == seq![inner]
                &&& layer.mlp.c_proj.weight@.dims == seq![inner, hidden]
                &&& layer.mlp.c_proj.bias@.dims == seq![hidden]
                &&& ids.len() * inner <= usize::MAX
            }),
        forall|i: int|
            0 <= i < past.len() ==> ({
                let dims = seq![gpt2.num_heads, seen, (hidden / gpt2.num_heads) as usize];
                (#[trigger] past[i]).key.dims == dims && past[i].value.dims == dims
            }),
        forall|i: int| 0 <= i < ids.len() ==> #[trigger] ids[i] < vocabulary,
        seen + ids.len() <= context,
        ids.len() * vocabulary <= usize::MAX,
        ids.len() * (3 * hidden) <= usize::MAX,
        gpt2.num_heads * ids.len() * (seen + ids.len()) <= usize::MAX,
        (seen + ids.len()) * gpt2.num_heads <= usize::MAX,
    ensures
        gpt2.fits(ids, past),
{
    assert(gpt2.hidden() == hidden && gpt2.vocabulary() == vocabulary && gpt2.context() == context);
    lemma_network_accepts(gpt2, ids, past, seen);
}

} // verus!
