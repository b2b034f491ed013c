//! One layer of the network.
use crate::model::attention::Attention;
use crate::model::layer_norm::LayerNorm;
use crate::model::linear::lemma_linear_result_wf;
use crate::model::mlp::{
    is_wide, lemma_taken_answer_is_equal, lemma_wide, wide, Mlp, Refusal, SpecialError,
};
use crate::ops::activation::gated;
use crate::ops::elementwise::{added, combinable, combine_fits};
use crate::scalar::{agrees, Scalar};
use crate::tensor::{Array, Cache, OwnedTensor, PastKeyValue, Tensor};
use crate::weights::{
    contents, layer_name, layer_tensor_name, pair_fault, sooner, Contents, Fault, LoadError,
};
use vstd::prelude::*;

verus! {

/// Attention and feed-forward, each after a normalisation and added to what it was given.
#[derive(Clone)]
pub struct Gpt2Layer<'a, S: Scalar> {
    pub ln_1: LayerNorm<'a, S>,
    pub ln_2: LayerNorm<'a, S>,
    pub mlp: Mlp<'a, S>,
    pub attention: Attention<'a, S>,
}

impl<'a, S: Scalar> Gpt2Layer<'a, S> {
    pub open spec fn wf(self) -> bool {
        self.ln_1.wf() && self.ln_2.wf() && self.mlp.wf() && self.attention.wf()
    }

    /// Why layer `index` cannot be loaded from a file, if it cannot.
    pub open spec fn fault(held: Contents, index: usize) -> Option<Fault> {
        sooner(
            sooner(
                pair_fault(
                    held,
                    layer_name(index, ".ln_1.weight"@),
                    layer_name(index, ".ln_1.bias"@),
                ),
                pair_fault(
                    held,
                    layer_name(index, ".ln_2.weight"@),
                    layer_name(index, ".ln_2.bias"@),
                ),
            ),
            sooner(Mlp::<S>::fault(held, index), Attention::<S>::fault(held, index)),
        )
    }

    /// Whether this is layer `index` of a file, with attention in `num_heads` heads.
    pub open spec fn held(self, held: Contents, index: usize, num_heads: usize) -> bool {
        &&& self.ln_1.held(
            held,
            layer_name(index, ".ln_1.weight"@),
            layer_name(index, ".ln_1.bias"@),
        )
        &&& self.ln_2.held(
            held,
            layer_name(index, ".ln_2.weight"@),
            layer_name(index, ".ln_2.bias"@),
        )
        &&& self.mlp.held(held, index)
        &&& self.attention.held(held, index)
        &&& self.attention.num_heads == num_heads
    }

    /// Loads layer `index` of `tensors`.
    pub fn from_tensors(
        index: usize,
        tensors: &'a safetensors::SafeTensors<'a>,
        num_heads: usize,
    ) -> (r: Result<Self, LoadError>)
        ensures
            match r {
                Ok(layer) => {
                    &&& Self::fault(contents(*tensors), index) is None
                    &&& layer.held(contents(*tensors), index, num_heads)
                    &&& layer.wf()
                },
                Err(e) => Self::fault(contents(*tensors), index) == Some(e@),
            },
    {
        let ln_1 = match LayerNorm::load(
            tensors,
            layer_tensor_name(index, ".ln_1.weight").as_str(),
            layer_tensor_name(index, ".ln_1.bias").as_str(),
        ) {
            Ok(ln_1) => ln_1,
            Err(e) => {
                return Err(e);
            },
        };
        let ln_2 = match LayerNorm::load(
            tensors,
            layer_tensor_name(index, ".ln_2.weight").as_str(),
            layer_tensor_name(index, ".ln_2.bias").as_str(),
        ) {
            Ok(ln_2) => ln_2,
            Err(e) => {
                return Err(e);
            },
        };
        let mlp = match Mlp::from_tensors(index, tensors) {
            Ok(mlp) => mlp,
            Err(e) => {
                return Err(e);
            },
        };
        let attention = match Attention::from_tensors(index, tensors, num_heads) {
            Ok(attention) => attention,
            Err(e) => {
                return Err(e);
            },
        };
        Ok(Gpt2Layer { ln_1, ln_2, mlp, attention })
    }

    /// The dimensions between attention and feed-forward.
    pub open spec fn middle_dims(self, x: Seq<usize>) -> Seq<usize> {
        self.attention.result_dims(x)
    }

    /// The dimensions of the result.
    pub open spec fn result_dims(self, x: Seq<usize>) -> Seq<usize> {
        self.mlp.result_dims(self.middle_dims(x))
    }

    /// Whether the layer can be applied to a tensor of dimensions `x` with a past whose keys and
    /// values have dimensions `key` and `value`.
    pub open spec fn fits(self, x: Seq<usize>, key: Seq<usize>, value: Seq<usize>) -> bool {
        let y = self.middle_dims(x);
        &&& self.ln_1.fits(x)
        &&& self.attention.fits(x, key, value)
        &&& combine_fits(x, y)
        &&& self.ln_2.fits(y)
        &&& self.mlp.fits(y)
        &&& combine_fits(y, self.result_dims(x))
    }

    /// As `fits`, beside a remote peer.
    pub open spec fn special_fits(self, x: Seq<usize>, key: Seq<usize>, value: Seq<usize>) -> bool {
        self.fits(x, key, value) && self.mlp.special_fits(self.middle_dims(x))
    }

    /// What `x` is between attention and feed-forward.
    pub open spec fn middle(self, x: Array<S>, past: Cache<S>) -> Array<S> {
        added(x, self.attention.result(self.ln_1.result(x), past))
    }

    /// What the feed-forward part is given.
    pub open spec fn mlp_input(self, x: Array<S>, past: Cache<S>) -> Array<S> {
        self.ln_2.result(self.middle(x, past))
    }

    /// What `x` becomes after `past`.
    pub open spec fn result(self, x: Array<S>, past: Cache<S>) -> Array<S> {
        added(self.middle(x, past), self.mlp.result(self.mlp_input(x, past)))
    }

    /// What becomes of the feed-forward part's input `x`, beside a remote peer that replied `reply`,
    /// with `residual` added.
    pub open spec fn special_outcome(
        self,
        x: Array<S>,
        residual: Array<S>,
        reply: Seq<u8>,
    ) -> Result<Array<S>, Refusal<S>> {
        match self.mlp.special_outcome(x, reply) {
            Ok(y) => Ok(added(residual, y)),
            Err(e) => Err(e),
        }
    }

    /// What `past` becomes with `x`.
    pub open spec fn next(self, x: Array<S>, past: Cache<S>) -> Cache<S> {
        self.attention.next(self.ln_1.result(x), past)
    }

    /// Whether every tensor has the elements that its shape describes.
    pub fn is_whole(&self) -> (r: bool)
        ensures
            r == self.wf(),
    {
        self.ln_1.is_whole() && self.ln_2.is_whole() && self.mlp.is_whole()
            && self.attention.is_whole()
    }

    /// Whether `forward` can be applied to a tensor of shape `x` with a past whose keys and values
    /// have shapes `key` and `value`.
    pub fn accepts(&self, x: &[usize], key: &[usize], value: &[usize]) -> (r: bool)
        ensures
            r == (self.wf() && self.fits(x@, key@, value@)),
    {
        if !self.ln_1.accepts(x) || !self.attention.accepts(x, key, value) {
            return false;
        }
        let middle = self.middle_shape(x);
        if !combinable(x, middle.as_slice()) || !self.ln_2.accepts(middle.as_slice())
            || !self.mlp.accepts(middle.as_slice()) {
            return false;
        }
        let out = self.result_shape(x);
        combinable(middle.as_slice(), out.as_slice())
    }

    /// The shape between attention and feed-forward.
    pub fn middle_shape(&self, x: &[usize]) -> (r: Vec<usize>)
        requires
            x@.len() == 2,
            self.attention.c_proj.weight@.dims.len() == 2,
        ensures
            r@ == self.middle_dims(x@),
    {
        vec![x[0], self.attention.c_proj.weight.shape()[1]]
    }

    /// The shape of the result.
    pub fn result_shape(&self, x: &[usize]) -> (r: Vec<usize>)
        requires
            x@.len() == 2,
            self.mlp.c_proj.weight@.dims.len() == 2,
        ensures
            r@ == self.result_dims(x@),
    {
        vec![x[0], self.mlp.c_proj.weight.shape()[1]]
    }

    /// Whether `special_start` and `special_finish` can be applied, as `accepts`.
    pub fn special_accepts(&self, x: &[usize], key: &[usize], value: &[usize]) -> (r: bool)
        ensures
            r == (self.wf() && self.special_fits(x@, key@, value@)),
    {
        if !self.accepts(x, key, value) {
            return false;
        }
        let middle = self.middle_shape(x);
        let out = self.result_shape(x);
        !is_wide(out.as_slice()) || is_wide(middle.as_slice())
    }

    /// Applies the layer to `tensor`, and adds its rows to the past.
    pub fn forward(&self, tensor: &mut OwnedTensor<S>, past_key_value: &mut PastKeyValue<S>)
        requires
            self.wf(),
            old(tensor)@.wf(),
            old(past_key_value)@.wf(),
            self.fits(
                old(tensor)@.dims,
                old(past_key_value)@.key.dims,
                old(past_key_value)@.value.dims,
            ),
        ensures
            final(tensor)@ == self.result(old(tensor)@, old(past_key_value)@),
            final(tensor)@.dims == self.result_dims(old(tensor)@.dims),
            final(tensor)@.wf(),
            final(past_key_value)@ == self.next(old(tensor)@, old(past_key_value)@),
            final(past_key_value)@.wf(),
    {
        let residual = self.special_start(tensor, past_key_value);
        self.mlp.forward(tensor);
        crate::ops::elementwise::add(&residual, tensor);
    }

    /// The part of `special_forward` that comes before the remote peer is asked: leaves in `tensor`
    /// what the feed-forward part is given, and returns what its result is to be added to.
    pub fn special_start(
        &self,
        tensor: &mut OwnedTensor<S>,
        past_key_value: &mut PastKeyValue<S>,
    ) -> (r: OwnedTensor<S>)
        requires
            self.wf(),
            old(tensor)@.wf(),
            old(past_key_value)@.wf(),
            self.fits(
                old(tensor)@.dims,
                old(past_key_value)@.key.dims,
                old(past_key_value)@.value.dims,
            ),
        ensures
            final(tensor)@ == self.mlp_input(old(tensor)@, old(past_key_value)@),
            final(tensor)@.dims == self.middle_dims(old(tensor)@.dims),
            final(tensor)@.wf(),
            r@ == self.middle(old(tensor)@, old(past_key_value)@),
            r@.dims == self.middle_dims(old(tensor)@.dims),
            r@.wf(),
            final(past_key_value)@ == self.next(old(tensor)@, old(past_key_value)@),
            final(past_key_value)@.wf(),
    {
        let residual = tensor.clone();
        self.ln_1.forward(tensor);
        self.attention.forward(tensor, past_key_value);
        crate::ops::elementwise::add(&residual, tensor);
        let residual = tensor.clone();
        self.ln_2.forward(tensor);
        residual
    }

    /// The part of `special_forward` that comes after the remote peer's reply to
    /// `self.mlp.special_request(tensor)`: applies the feed-forward part to `tensor` and adds
    /// `residual`.
    pub fn special_finish(
        &self,
        tensor: &mut OwnedTensor<S>,
        residual: &OwnedTensor<S>,
        reply: &[u8],
    ) -> (r: Result<(), SpecialError<S>>)
        requires
            self.wf(),
            old(tensor)@.wf(),
            residual@.wf(),
            self.mlp.special_fits(old(tensor)@.dims),
            combine_fits(residual@.dims, self.mlp.result_dims(old(tensor)@.dims)),
        ensures
            match r {
                Ok(()) => {
                    &&& self.special_outcome(old(tensor)@, residual@, reply@) == Ok::<
                        Array<S>,
                        Refusal<S>,
                    >(final(tensor)@)
                    &&& final(tensor)@.dims == self.mlp.result_dims(old(tensor)@.dims)
                },
                Err(e) => {
                    &&& self.special_outcome(old(tensor)@, residual@, reply@) == Err::<
                        Array<S>,
                        Refusal<S>,
                    >(e@)
                    &&& final(tensor)@ == match e {
                        SpecialError::Reply(_) => old(tensor)@,
                        SpecialError::Mismatch(_) => self.mlp.result(old(tensor)@),
                    }
                },
            },
            final(tensor)@.wf(),
    {
        match self.mlp.special_forward(tensor, reply) {
            Ok(()) => {},
            Err(e) => {
                return Err(e);
            },
        }
        crate::ops::elementwise::add(residual, tensor);
        Ok(())
    }

    /// What becomes of `x` after `past`, beside a remote peer that replied `reply`.
    pub open spec fn special_result(self, x: Array<S>, past: Cache<S>, reply: Seq<u8>) -> Result<
        Array<S>,
        Refusal<S>,
    > {
        self.special_outcome(self.mlp_input(x, past), self.middle(x, past), reply)
    }

    /// Applies the layer to `tensor` beside a remote peer, and adds its rows to the past. `reply` is
    /// what the peer replies to the request of this pass, and is not looked at where the peer is not
    /// asked.
    pub fn special_forward(
        &self,
        tensor: &mut OwnedTensor<S>,
        past_key_value: &mut PastKeyValue<S>,
        reply: &[u8],
    ) -> (r: Result<(), SpecialError<S>>)
        requires
            self.wf(),
            old(tensor)@.wf(),
            old(past_key_value)@.wf(),
            self.special_fits(
                old(tensor)@.dims,
                old(past_key_value)@.key.dims,
                old(past_key_value)@.value.dims,
            ),
        ensures
            match r {
                Ok(()) => self.special_result(old(tensor)@, old(past_key_value)@, reply@) == Ok::<
                    Array<S>,
                    Refusal<S>,
                >(final(tensor)@),
                Err(e) => {
                    let input = self.mlp_input(old(tensor)@, old(past_key_value)@);
                    &&& self.special_result(old(tensor)@, old(past_key_value)@, reply@) == Err::<
                        Array<S>,
                        Refusal<S>,
                    >(e@)
                    &&& final(tensor)@ == match e {
                        SpecialError::Reply(_) => input,
                        SpecialError::Mismatch(_) => self.mlp.result(input),
                    }
                },
            },
            final(tensor)@.wf(),
            final(past_key_value)@ == self.next(old(tensor)@, old(past_key_value)@),
            final(past_key_value)@.wf(),
    {
        let residual = self.special_start(tensor, past_key_value);
        self.special_finish(tensor, &residual, reply)
    }
}

/// A layer beside a remote peer whose answer is taken is the layer alone: exactly, where no answer is
/// compared, and number for number in comparisons, where one is. The past is the same in any case,
/// for both leave `layer.next(x, past)`.
pub proof fn lemma_layer_beside_agreeing_peer<S: Scalar>(
    layer: Gpt2Layer<S>,
    x: Array<S>,
    past: Cache<S>,
    reply: Seq<u8>,
)
    requires
        layer.special_fits(x.dims, past.key.dims, past.value.dims),
        layer.special_result(x, past, reply) is Ok,
    ensures
        ({
            let alone = layer.result(x, past);
            let beside = layer.special_result(x, past, reply)->Ok_0;
            &&& beside.dims == alone.dims
            &&& beside.elems.len() == alone.elems.len()
            &&& forall|i: int|
                0 <= i < alone.elems.len() ==> agrees(
                    #[trigger] alone.elems[i],
                    beside.elems[i],
                )
            &&& !wide(layer.result_dims(x.dims)) ==> beside == alone
        }),
{
    let input = layer.mlp_input(x, past);
    let residual = layer.middle(x, past);
    let local = layer.mlp.result(input);
    let taken = layer.mlp.special_outcome(input, reply)->Ok_0;
    assert(input.dims =~= layer.middle_dims(x.dims));
    assert(residual.dims =~= layer.middle_dims(x.dims));
    assert(local.dims =~= layer.result_dims(x.dims));
    if residual.dims != local.dims {
        assert(local.dims.skip(1).len() == 1);
    }
    if wide(layer.result_dims(x.dims)) {
        lemma_taken_answer_is_equal(layer.mlp, input, reply, 0);
        lemma_linear_result_wf(layer.mlp.c_proj, gated(layer.mlp.c_fc.result(input)));
        lemma_wide(local);
        let alone = layer.result(x, past);
        let beside = layer.special_result(x, past, reply)->Ok_0;
        assert forall|i: int| 0 <= i < alone.elems.len() implies agrees(
            #[trigger] alone.elems[i],
            beside.elems[i],
        ) by {
            lemma_taken_answer_is_equal(layer.mlp, input, reply, i);
            S::lemma_plus_agrees(local.elems[i], taken.elems[i], residual.elems[i]);
        }
    }
}

} // verus!
