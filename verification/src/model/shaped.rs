//! Networks whose parts fit together.
//!
//! Such a network accepts tokens of its vocabulary as long as it has positions for them, and after
//! every pass it is ready for the next.
use crate::model::attention::Attention;
use crate::model::gpt2::{positions, Gpt2};
use crate::model::layer::Gpt2Layer;
use crate::model::layer_norm::LayerNorm;
use crate::model::linear::{lemma_linear_result_wf, Linear};
use crate::model::mlp::Mlp;
use crate::model::stack::{advanced, passable, passable_at, passed, passed_dims};
use crate::ops::activation::gated;
use crate::ops::elementwise::lemma_combine_each_len;
use crate::ops::heads::head_dim_of;
use crate::ops::pick::select_fits;
use crate::ops::product::lemma_fits_2;
use crate::scalar::Scalar;
use crate::shape::lemma_count_2;
use crate::tensor::{Array, Cache};
use vstd::prelude::*;

verus! {

impl<'a, S: Scalar> Linear<'a, S> {
    /// Whether the layer takes rows of `from` elements to rows of `to` elements.
    pub open spec fn shaped(self, from: usize, to: usize) -> bool {
        self.weight@.dims == seq![from, to] && self.bias@.dims == seq![to]
    }
}

impl<'a, S: Scalar> LayerNorm<'a, S> {
    /// Whether the layer is for rows of `hidden` elements.
    pub open spec fn shaped(self, hidden: usize) -> bool {
        self.weight@.dims == seq![hidden] && self.bias@.dims == seq![hidden]
    }
}

impl<'a, S: Scalar> Mlp<'a, S> {
    /// How many elements a row has between the two layers.
    pub open spec fn inner(self) -> usize {
        self.c_fc.weight@.dims[1]
    }

    /// Whether the layers are for rows of `hidden` elements.
    pub open spec fn shaped(self, hidden: usize) -> bool {
        self.c_fc.shaped(hidden, self.inner()) && self.c_proj.shaped(self.inner(), hidden)
    }
}

impl<'a, S: Scalar> Attention<'a, S> {
    /// Whether the projections are for rows of `hidden` elements and for `heads` heads.
    pub open spec fn shaped(self, hidden: usize, heads: usize) -> bool {
        &&& 3 * hidden <= usize::MAX
        &&& heads > 0
        &&& hidden % heads == 0
        &&& self.num_heads == heads
        &&& self.c_attn.shaped(hidden, (3 * hidden) as usize)
        &&& self.c_proj.shaped(hidden, hidden)
    }
}

impl<'a, S: Scalar> Gpt2Layer<'a, S> {
    /// Whether all parts are for rows of `hidden` elements and for `heads` heads.
    pub open spec fn shaped(self, hidden: usize, heads: usize) -> bool {
        &&& self.ln_1.shaped(hidden)
        &&& self.ln_2.shaped(hidden)
        &&& self.mlp.shaped(hidden)
        &&& self.attention.shaped(hidden, heads)
    }

    /// Whether what the layer computes for `n` rows after others, `total` in all, can be counted.
    pub open spec fn roomy(self, hidden: usize, heads: usize, n: usize, total: int) -> bool {
        &&& total <= usize::MAX
        &&& n * (3 * hidden) <= usize::MAX
        &&& n * self.mlp.inner() <= usize::MAX
        &&& heads * n * total <= usize::MAX
        &&& total * heads <= usize::MAX
    }
}

/// The dimensions of keys and values of `seen` positions.
pub open spec fn cache_dims(hidden: usize, heads: usize, seen: usize) -> Seq<usize> {
    seq![heads, seen, (hidden / heads) as usize]
}

/// Whether a past holds, for each of `layers` layers, keys and values of `seen` positions.
pub open spec fn ready<S>(
    past: Seq<Cache<S>>,
    layers: nat,
    hidden: usize,
    heads: usize,
    seen: usize,
) -> bool {
    &&& past.len() == layers
    &&& forall|i: int|
        0 <= i < layers ==> {
            &&& (#[trigger] past[i]).key.dims == cache_dims(hidden, heads, seen)
            &&& past[i].value.dims == cache_dims(hidden, heads, seen)
        }
}

proof fn lemma_linear_fits<S: Scalar>(layer: Linear<S>, n: usize, from: usize, to: usize)
    requires
        layer.shaped(from, to),
        n * to <= usize::MAX,
    ensures
        layer.fits(seq![n, from]),
        layer.result_dims(seq![n, from]) == seq![n, to],
{
    lemma_fits_2(false, n, from, to);
    assert(seq![n, to].skip(1) =~= seq![to]);
}

proof fn lemma_norm_fits<S: Scalar>(layer: LayerNorm<S>, n: usize, hidden: usize)
    requires
        layer.shaped(hidden),
    ensures
        layer.fits(seq![n, hidden]),
{
    assert(seq![n, hidden].skip(1) =~= seq![hidden]);
}

/// A layer whose parts fit accepts rows after a past of its heads, and gives rows of the same size.
proof fn lemma_layer_fits<S: Scalar>(
    layer: Gpt2Layer<S>,
    hidden: usize,
    heads: usize,
    n: usize,
    seen: usize,
)
    requires
        layer.shaped(hidden, heads),
        layer.roomy(hidden, heads, n, seen + n),
    ensures
        layer.special_fits(
            seq![n, hidden],
            cache_dims(hidden, heads, seen),
            cache_dims(hidden, heads, seen),
        ),
        layer.middle_dims(seq![n, hidden]) == seq![n, hidden],
        layer.result_dims(seq![n, hidden]) == seq![n, hidden],
{
    let x = seq![n, hidden];
    assert(n * hidden <= n * (3 * hidden)) by (nonlinear_arith);
    lemma_norm_fits(layer.ln_1, n, hidden);
    lemma_norm_fits(layer.ln_2, n, hidden);
    lemma_linear_fits(layer.attention.c_attn, n, hidden, (3 * hidden) as usize);
    lemma_linear_fits(layer.attention.c_proj, n, hidden, hidden);
    lemma_linear_fits(layer.mlp.c_fc, n, hidden, layer.mlp.inner());
    lemma_linear_fits(layer.mlp.c_proj, n, layer.mlp.inner(), hidden);
    assert(seq![x[0], x[1]] =~= x);
    let key = cache_dims(hidden, heads, seen);
    assert(key =~= seq![heads, key[1], (x[1] / heads) as usize]);
}

/// What such a layer has seen grows by the rows that it is given.
pub proof fn lemma_layer_next<S: Scalar>(
    layer: Gpt2Layer<S>,
    hidden: usize,
    heads: usize,
    x: Array<S>,
    past: Cache<S>,
    seen: usize,
)
    requires
        layer.shaped(hidden, heads),
        x.dims.len() == 2,
        seen + x.dims[0] <= usize::MAX,
        past.key.dims == cache_dims(hidden, heads, seen),
    ensures
        layer.next(x, past).key.dims == cache_dims(hidden, heads, (seen + x.dims[0]) as usize),
        layer.next(x, past).value.dims == cache_dims(hidden, heads, (seen + x.dims[0]) as usize),
{
    assert((3 * hidden) as usize / 3usize == hidden);
    assert(head_dim_of((3 * hidden) as usize, heads) == hidden / heads);
}

impl<'a, S: Scalar> Gpt2<'a, S> {
    /// How many elements a row has.
    pub open spec fn hidden(self) -> usize {
        self.wte.weight@.dims[1]
    }

    /// How many tokens there are.
    pub open spec fn vocabulary(self) -> usize {
        self.wte.weight@.dims[0]
    }

    /// How many positions there are.
    pub open spec fn context(self) -> usize {
        self.wpe.weight@.dims[0]
    }

    /// Whether all parts fit together.
    pub open spec fn shaped(self) -> bool {
        &&& self.num_heads > 0
        &&& self.hidden() % self.num_heads == 0
        &&& self.wte.weight@.dims == seq![self.vocabulary(), self.hidden()]
        &&& self.wpe.weight@.dims == seq![self.context(), self.hidden()]
        &&& self.h.layers@.len() > 0
        &&& forall|i: int|
            0 <= i < self.h.layers@.len() ==> (#[trigger] self.h.layers@[i]).shaped(
                self.hidden(),
                self.num_heads,
            )
        &&& self.ln_f.shaped(self.hidden())
        &&& self.lm_head.weight@.dims == seq![self.vocabulary(), self.hidden()]
    }

    /// Whether what the network computes for `n` tokens after others, `total` in all, can be counted.
    pub open spec fn roomy(self, n: usize, total: int) -> bool {
        &&& n * self.vocabulary() <= usize::MAX
        &&& forall|i: int|
            0 <= i < self.h.layers@.len() ==> (#[trigger] self.h.layers@[i]).roomy(
                self.hidden(),
                self.num_heads,
                n,
                total,
            )
    }

    /// Whether `past` holds keys and values of `seen` positions for every layer.
    pub open spec fn ready(self, past: Seq<Cache<S>>, seen: usize) -> bool {
        ready(past, self.h.layers@.len(), self.hidden(), self.num_heads, seen)
    }
}

/// The empty past is one in which nothing has been seen.
pub proof fn lemma_empty_past_is_ready<S: Scalar>(gpt2: Gpt2<S>)
    ensures
        gpt2.ready(gpt2.empty_past(), 0),
{
}

proof fn lemma_passed_dims<S: Scalar>(gpt2: Gpt2<S>, n: usize, total: int, from: int, to: int)
    requires
        gpt2.shaped(),
        gpt2.roomy(n, total),
        n <= total,
        0 <= from,
        to <= gpt2.h.layers@.len(),
    ensures
        passed_dims(gpt2.h.layers@, seq![n, gpt2.hidden()], from, to) == seq![n, gpt2.hidden()],
    decreases to - from,
{
    if from < to {
        lemma_passed_dims(gpt2, n, total, from, to - 1);
        lemma_layer_fits(
            gpt2.h.layers@[to - 1],
            gpt2.hidden(),
            gpt2.num_heads,
            n,
            (total - n) as usize,
        );
    }
}

proof fn lemma_table_fits<S>(ids: Seq<u32>, weights: Array<S>, rows: usize, columns: usize)
    requires
        weights.wf(),
        weights.dims == seq![rows, columns],
        ids.len() <= usize::MAX,
        forall|i: int| 0 <= i < ids.len() ==> #[trigger] ids[i] < rows,
    ensures
        select_fits(ids, weights, seq![ids.len() as usize, columns]),
{
    lemma_count_2(weights.dims);
    assert forall|i: int| 0 <= i < ids.len() implies (#[trigger] ids[i] + 1) * columns
        <= weights.elems.len() by {
        assert((ids[i] + 1) * columns <= rows * columns) by (nonlinear_arith)
            requires
                ids[i] < rows,
        ;
    }
}

/// A network whose parts fit accepts tokens of its vocabulary after any past that it left, as long
/// as it has positions for them.
pub proof fn lemma_network_accepts<S: Scalar>(
    gpt2: Gpt2<S>,
    ids: Seq<u32>,
    past: Seq<Cache<S>>,
    seen: usize,
)
    requires
        gpt2.wf(),
        gpt2.shaped(),
        gpt2.ready(past, seen),
        forall|i: int| 0 <= i < ids.len() ==> #[trigger] ids[i] < gpt2.vocabulary(),
        seen + ids.len() <= gpt2.context(),
        gpt2.roomy(ids.len() as usize, seen + ids.len()),
    ensures
        gpt2.fits(ids, past),
{
    let n = ids.len() as usize;
    let hidden = gpt2.hidden();
    let heads = gpt2.num_heads;
    let layers = gpt2.h.layers@;
    let x = seq![n, hidden];
    let dims = cache_dims(hidden, heads, seen);
    assert(past[0].key.dims == dims);
    assert(layers[0].roomy(hidden, heads, n, seen + n));
    assert(n * hidden <= n * (3 * hidden)) by (nonlinear_arith);
    lemma_table_fits(ids, gpt2.wte.weight@, gpt2.vocabulary(), hidden);
    let places = positions(ids.len(), seen);
    assert forall|i: int| 0 <= i < places.len() implies #[trigger] places[i] < gpt2.context() by {
        let p = (i + seen) as usize;
        assert(p as u32 <= p) by (bit_vector);
    }
    lemma_table_fits(places, gpt2.wpe.weight@, gpt2.context(), hidden);
    lemma_layer_fits(layers[0], hidden, heads, n, seen);
    assert forall|i: int| 1 <= i < layers.len() implies #[trigger] passable_at(
        layers,
        past,
        x,
        1,
        i,
    ) by {
        lemma_passed_dims(gpt2, n, seen + n, 1, i);
        lemma_layer_fits(layers[i], hidden, heads, n, seen);
    }
    assert(passable(layers, past, x, 1, layers.len() as int));
    lemma_passed_dims(gpt2, n, seen + n, 1, layers.len() as int);
    lemma_norm_fits(gpt2.ln_f, n, hidden);
    lemma_fits_2(true, n, hidden, gpt2.vocabulary());
}

/// What such a layer makes of `x` has as many rows, and the elements that its dimensions describe.
pub proof fn lemma_layer_result<S: Scalar>(
    layer: Gpt2Layer<S>,
    hidden: usize,
    heads: usize,
    x: Array<S>,
    past: Cache<S>,
)
    requires
        layer.shaped(hidden, heads),
        x.dims.len() == 2,
    ensures
        layer.mlp_input(x, past).dims == seq![x.dims[0], hidden],
        layer.result(x, past).dims == seq![x.dims[0], hidden],
        layer.result(x, past).wf(),
{
    let input = layer.mlp_input(x, past);
    lemma_linear_result_wf(layer.mlp.c_proj, gated(layer.mlp.c_fc.result(input)));
    let y = layer.mlp.result(input);
    let residual = layer.middle(x, past);
    lemma_combine_each_len(
        false,
        residual.elems,
        residual.dims[0] as int,
        y.elems,
        y.dims[0] as nat,
    );
}

proof fn lemma_passed_result_dims<S: Scalar>(
    gpt2: Gpt2<S>,
    past: Seq<Cache<S>>,
    x: Array<S>,
    from: int,
    to: int,
)
    requires
        gpt2.shaped(),
        x.dims.len() == 2,
        x.dims[1] == gpt2.hidden(),
        0 <= from,
        to <= gpt2.h.layers@.len(),
    ensures
        passed(gpt2.h.layers@, past, x, from, to).dims == x.dims,
    decreases to - from,
{
    if from < to {
        lemma_passed_result_dims(gpt2, past, x, from, to - 1);
        lemma_layer_result(
            gpt2.h.layers@[to - 1],
            gpt2.hidden(),
            gpt2.num_heads,
            passed(gpt2.h.layers@, past, x, from, to - 1),
            past[to - 1],
        );
        assert(x.dims =~= seq![x.dims[0], x.dims[1]]);
    }
}

/// After a pass such a network gives one score for each token of its vocabulary and each token that
/// it was given, and its past has grown by as many positions: it is ready for the next pass.
pub proof fn lemma_network_stays_ready<S: Scalar>(
    gpt2: Gpt2<S>,
    ids: Seq<u32>,
    past: Seq<Cache<S>>,
    seen: usize,
    reply: Seq<u8>,
)
    requires
        gpt2.shaped(),
        gpt2.ready(past, seen),
        seen + ids.len() <= usize::MAX,
        gpt2.outcome(ids, past, reply) is Ok,
    ensures
        gpt2.outcome(ids, past, reply)->Ok_0.dims == seq![ids.len() as usize, gpt2.vocabulary()],
        gpt2.ready(gpt2.next(ids, past, reply), (seen + ids.len()) as usize),
{
    let n = ids.len() as usize;
    let hidden = gpt2.hidden();
    let heads = gpt2.num_heads;
    let layers = gpt2.h.layers@;
    let count = layers.len() as int;
    let x = gpt2.embedded(ids, past[0].key.dims[1]);
    let waiting = gpt2.started(ids, past);
    let first = gpt2.started_next(ids, past);
    let y = layers[0].special_outcome(waiting.tensor, waiting.residual->0, reply)->Ok_0;
    assert(x.dims =~= seq![n, hidden]);
    lemma_layer_result(layers[0], hidden, heads, x, past[0]);
    assert(y.dims =~= seq![n, hidden]);
    assert(past[0].key.dims == cache_dims(hidden, heads, seen));
    lemma_layer_next(layers[0], hidden, heads, x, past[0], seen);
    lemma_passed_result_dims(gpt2, first, y, 1, count);
    let after = gpt2.next(ids, past, reply);
    assert(after == advanced(layers, first, y, 1, count));
    let total = (seen + n) as usize;
    assert forall|i: int| 0 <= i < count implies (#[trigger] after[i]).key.dims == cache_dims(
        hidden,
        heads,
        total,
    ) && after[i].value.dims == cache_dims(hidden, heads, total) by {
        if i > 0 {
            assert(first[i] == past[i]);
            lemma_passed_result_dims(gpt2, first, y, 1, i);
            lemma_layer_next(
                layers[i],
                hidden,
                heads,
                passed(layers, first, y, 1, i),
                past[i],
                seen,
            );
        }
    }
}

} // verus!
