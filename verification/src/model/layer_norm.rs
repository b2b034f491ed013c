//! Layers that normalise rows.
use crate::ops::elementwise::{added, combinable, combine_fits, multiplied};
use crate::ops::normalize::{normalize, normalized};
use crate::scalar::{fraction, ratio, Scalar};
use crate::tensor::{filled, is_whole, Array, OwnedTensor, Tensor, ViewTensor};
use crate::weights::{
    contents, decoded_array, find, held_array, pair_fault, sized, Contents, Fault, LoadError,
    RawTensor,
};
use vstd::prelude::*;

verus! {

/// A scale and a shift for normalised rows.
#[derive(Clone)]
pub struct LayerNorm<'a, S: Scalar> {
    pub weight: ViewTensor<'a, S>,
    pub bias: ViewTensor<'a, S>,
    pub epsilon: S,
}

impl<'a, S: Scalar> LayerNorm<'a, S> {
    pub open spec fn wf(self) -> bool {
        self.weight@.wf() && self.bias@.wf()
    }

    /// The layer of the given tensors of a file. Its epsilon is one in a hundred thousand.
    pub fn from(weight: RawTensor<'a>, bias: RawTensor<'a>) -> (r: Result<Self, LoadError>)
        ensures
            match r {
                Ok(layer) => {
                    &&& sized(weight@) && sized(bias@)
                    &&& layer.weight@ == decoded_array::<S>(weight@)
                    &&& layer.bias@ == decoded_array::<S>(bias@)
                    &&& layer.epsilon == fraction::<S>(1, 100000)
                    &&& layer.wf()
                },
                Err(e) => !(sized(weight@) && sized(bias@)) && e@ == Fault::Size,
            },
    {
        let weight: ViewTensor<'a, S> = match weight.decode() {
            Ok(weight) => weight,
            Err(e) => {
                return Err(e);
            },
        };
        let bias: ViewTensor<'a, S> = match bias.decode() {
            Ok(bias) => bias,
            Err(e) => {
                return Err(e);
            },
        };
        let epsilon = ratio(1, 100000);
        Ok(LayerNorm { weight, bias, epsilon })
    }

    /// Whether this is the layer that a file holds under the given names.
    pub open spec fn held(self, held: Contents, weight: Seq<char>, bias: Seq<char>) -> bool {
        &&& self.weight@ == held_array::<S>(held, weight)
        &&& self.bias@ == held_array::<S>(held, bias)
        &&& self.epsilon == fraction::<S>(1, 100000)
    }

    /// Loads the layer that `tensors` holds under the given names.
    pub fn load(
        tensors: &'a safetensors::SafeTensors<'a>,
        weight: &str,
        bias: &str,
    ) -> (r: Result<Self, LoadError>)
        ensures
            match r {
                Ok(layer) => {
                    &&& pair_fault(contents(*tensors), weight@, bias@) is None
                    &&& layer.held(contents(*tensors), weight@, bias@)
                    &&& layer.wf()
                },
                Err(e) => pair_fault(contents(*tensors), weight@, bias@) == Some(e@),
            },
    {
        let weight = match find(tensors, weight) {
            Ok(weight) => weight,
            Err(e) => {
                return Err(e);
            },
        };
        let bias = match find(tensors, bias) {
            Ok(bias) => bias,
            Err(e) => {
                return Err(e);
            },
        };
        LayerNorm::from(weight, bias)
    }

    /// Whether the layer can be applied to a tensor of dimensions `x`.
    pub open spec fn fits(self, x: Seq<usize>) -> bool {
        &&& x.len() == 2
        &&& combine_fits(self.weight@.dims, x)
        &&& combine_fits(self.bias@.dims, x)
    }

    /// `x` with its rows normalised, scaled and shifted.
    pub open spec fn result(self, x: Array<S>) -> Array<S> {
        added(self.bias@, multiplied(self.weight@, normalized(x, self.epsilon)))
    }

    /// Whether every tensor has the elements that its shape describes.
    pub fn is_whole(&self) -> (r: bool)
        ensures
            r == self.wf(),
    {
        is_whole(&self.weight) && is_whole(&self.bias)
    }

    /// Whether `forward` can be applied to a tensor of shape `x`.
    pub fn accepts(&self, x: &[usize]) -> (r: bool)
        ensures
            r == (self.wf() && self.fits(x@)),
    {
        self.is_whole() && x.len() == 2 && combinable(
            self.weight.shape(),
            x,
        ) && combinable(self.bias.shape(), x)
    }

    /// Normalises, scales and shifts the rows of `tensor`.
    pub fn forward(&self, tensor: &mut OwnedTensor<S>)
        requires
            self.wf(),
            old(tensor)@.wf(),
            self.fits(old(tensor)@.dims),
        ensures
            final(tensor)@ == self.result(old(tensor)@),
            final(tensor)@.wf(),
    {
        let m: usize = tensor.shape()[0];
        let mut mean = filled(S::from_usize(0), m);
        let mut var = filled(S::from_usize(0), m);
        normalize(tensor, mean.as_mut_slice(), var.as_mut_slice(), self.epsilon);
        crate::ops::elementwise::mul(&self.weight, tensor);
        crate::ops::elementwise::add(&self.bias, tensor);
    }
}

} // verus!
