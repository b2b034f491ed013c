//! The attention part of a layer.
use crate::model::linear::Linear;
use crate::ops::attention::attended_fresh;
use crate::ops::heads::extended_cache;
use crate::scalar::Scalar;
use crate::shape::{lemma_count_2, lemma_count_3, same_shape};
use crate::tensor::{filled, Array, Cache, OwnedTensor, PastKeyValue, Tensor};
use crate::weights::{
    contents, layer_name, layer_tensor_name, pair_fault, sooner, Contents, Fault, LoadError,
};
use vstd::arithmetic::div_mod::lemma_fundamental_div_mod;
use vstd::prelude::*;

verus! {

/// The projection to queries, keys and values, and the projection of what they yield.
#[derive(Clone)]
pub struct Attention<'a, S: Scalar> {
    pub c_attn: Linear<'a, S>,
    pub c_proj: Linear<'a, S>,
    pub num_heads: usize,
}

impl<'a, S: Scalar> Attention<'a, S> {
    pub open spec fn wf(self) -> bool {
        self.c_attn.wf() && self.c_proj.wf()
    }

    /// Why the projections of layer `index` cannot be loaded from a file, if they cannot.
    pub open spec fn fault(held: Contents, index: usize) -> Option<Fault> {
        sooner(
            pair_fault(
                held,
                layer_name(index, ".attn.c_attn.weight"@),
                layer_name(index, ".attn.c_attn.bias"@),
            ),
            pair_fault(
                held,
                layer_name(index, ".attn.c_proj.weight"@),
                layer_name(index, ".attn.c_proj.bias"@),
            ),
        )
    }

    /// Whether these are the projections that a file holds for layer `index`.
    pub open spec fn held(self, held: Contents, index: usize) -> bool {
        &&& self.c_attn.held(
            held,
            layer_name(index, ".attn.c_attn.weight"@),
            layer_name(index, ".attn.c_attn.bias"@),
        )
        &&& self.c_proj.held(
            held,
            layer_name(index, ".attn.c_proj.weight"@),
            layer_name(index, ".attn.c_proj.bias"@),
        )
    }

    /// Loads what `tensors` holds for layer `index`.
    pub fn from_tensors(
        index: usize,
        tensors: &'a safetensors::SafeTensors<'a>,
        num_heads: usize,
    ) -> (r: Result<Self, LoadError>)
        ensures
            match r {
                Ok(attention) => {
                    &&& Self::fault(contents(*tensors), index) is None
                    &&& attention.held(contents(*tensors), index)
                    &&& attention.num_heads == num_heads
                    &&& attention.wf()
                },
                Err(e) => Self::fault(contents(*tensors), index) == Some(e@),
            },
    {
        let c_attn = match Linear::load(
            tensors,
            layer_tensor_name(index, ".attn.c_attn.weight").as_str(),
            layer_tensor_name(index, ".attn.c_attn.bias").as_str(),
        ) {
            Ok(c_attn) => c_attn,
            Err(e) => {
                return Err(e);
            },
        };
        let c_proj = match Linear::load(
            tensors,
            layer_tensor_name(index, ".attn.c_proj.weight").as_str(),
            layer_tensor_name(index, ".attn.c_proj.bias").as_str(),
        ) {
            Ok(c_proj) => c_proj,
            Err(e) => {
                return Err(e);
            },
        };
        Ok(Attention { c_attn, c_proj, num_heads })
    }

    /// Whether attention can be applied to a tensor of dimensions `x` with a past whose keys and
    /// values have dimensions `key` and `value`.
    pub open spec fn fits(self, x: Seq<usize>, key: Seq<usize>, value: Seq<usize>) -> bool {
        let heads = self.num_heads;
        let width = self.c_attn.weight@.dims[1];
        let total = key[1] + x[0];
        let head_dim = x[1] / heads;
        &&& self.c_attn.fits(x)
        &&& heads > 0
        &&& x[1] % heads == 0
        &&& width == 3 * x[1]
        &&& key.len() == 3
        &&& total <= usize::MAX
        &&& key == seq![heads, key[1], head_dim]
        &&& value == key
        &&& heads * x[0] * total <= usize::MAX
        &&& total * heads <= usize::MAX
        &&& self.c_proj.fits(seq![x[0], x[1]])
    }

    /// The dimensions of the result.
    pub open spec fn result_dims(self, x: Seq<usize>) -> Seq<usize> {
        self.c_proj.result_dims(x)
    }

    /// What `x` becomes after `past`.
    pub open spec fn result(self, x: Array<S>, past: Cache<S>) -> Array<S> {
        self.c_proj.result(attended_fresh(past, self.c_attn.result(x)))
    }

    /// What `past` becomes with `x`.
    pub open spec fn next(self, x: Array<S>, past: Cache<S>) -> Cache<S> {
        extended_cache(past, self.c_attn.result(x))
    }

    /// Whether every tensor has the elements that its shape describes.
    pub fn is_whole(&self) -> (r: bool)
        ensures
            r == self.wf(),
    {
        self.c_attn.is_whole() && self.c_proj.is_whole()
    }

    /// Whether `forward` can be applied to a tensor of shape `x` with a past whose keys and values
    /// have shapes `key` and `value`.
    pub fn accepts(&self, x: &[usize], key: &[usize], value: &[usize]) -> (r: bool)
        ensures
            r == (self.wf() && self.fits(x@, key@, value@)),
    {
        let heads: usize = self.num_heads;
        if !self.c_attn.accepts(x) || heads == 0 || x[1] % heads != 0 || key.len() != 3
            || !self.c_proj.accepts(x) {
            assert(seq![x@[0], x@[1]] =~= x@ || x@.len() != 2);
            return false;
        }
        assert(seq![x@[0], x@[1]] =~= x@);
        let width: usize = self.c_attn.weight.shape()[1];
        if width % 3 != 0 || width / 3 != x[1] {
            return false;
        }
        let expected = vec![heads, key[1], x[1] / heads];
        assert(expected@ =~= seq![heads, key@[1], (x@[1] / heads) as usize]);
        if !same_shape(key, expected.as_slice()) || !same_shape(value, key) {
            return false;
        }
        let total: usize = match key[1].checked_add(x[0]) {
            Some(total) => total,
            None => {
                return false;
            },
        };
        let rows: usize = match heads.checked_mul(x[0]) {
            Some(rows) => rows,
            None => {
                assert(heads * x@[0] * total >= heads * x@[0]) by (nonlinear_arith)
                    requires
                        heads * x@[0] > usize::MAX,
                        total >= x@[0],
                        heads >= 0,
                        x@[0] >= 0,
                ;
                return false;
            },
        };
        rows.checked_mul(total).is_some() && total.checked_mul(heads).is_some()
    }

    /// Lets the rows of `hidden_states` attend to `past` and to one another, and adds them to
    /// `past`.
    pub fn forward(&self, hidden_states: &mut OwnedTensor<S>, past: &mut PastKeyValue<S>)
        requires
            self.wf(),
            old(hidden_states)@.wf(),
            old(past)@.wf(),
            self.fits(old(hidden_states)@.dims, old(past)@.key.dims, old(past)@.value.dims),
        ensures
            final(hidden_states)@ == self.result(old(hidden_states)@, old(past)@),
            final(hidden_states)@.wf(),
            final(past)@ == self.next(old(hidden_states)@, old(past)@),
            final(past)@.wf(),
    {
        let sequence_length: usize = hidden_states.shape()[0];
        let hidden_dim: usize = hidden_states.shape()[1];
        let size: usize = hidden_states.data().len();
        let ghost before = hidden_states@;
        self.c_attn.forward(hidden_states);
        let num_heads: usize = self.num_heads;
        let head_dim: usize = hidden_dim / num_heads;
        let past_sequence_length: usize = past.key.shape()[1];
        let total: usize = past_sequence_length + sequence_length;
        proof {
            lemma_count_3(seq![num_heads, sequence_length, total]);
            lemma_count_3(seq![num_heads, sequence_length, head_dim]);
            lemma_count_2(before.dims);
            lemma_count_2(hidden_states@.dims);
            lemma_fundamental_div_mod(hidden_dim as int, num_heads as int);
            assert(num_heads * sequence_length * head_dim == sequence_length * (num_heads * head_dim)
                && num_heads * sequence_length <= total * num_heads) by (nonlinear_arith)
                requires
                    sequence_length <= total,
            ;
            assert(past@.key.dims =~= seq![num_heads, past_sequence_length, head_dim]);
        }
        let mut qk = OwnedTensor::zeros(vec![num_heads, sequence_length, total]);
        let mut qv = OwnedTensor::zeros(vec![num_heads, sequence_length, head_dim]);
        let mut max = filled(S::from_usize(0), total * num_heads);
        crate::ops::attention::attention(
            &*hidden_states,
            &mut qk,
            max.as_mut_slice(),
            past,
            &mut qv,
        );
        self.c_proj.forward(&mut qv);
        *hidden_states = qv;
    }
}

} // verus!
