//! Layers that multiply by a matrix.
use crate::ops::elementwise::{added, combinable, lemma_combine_each_len};
use crate::ops::product::{addmm, addmm_fits, lemma_fits_2, matmul_t, product, product_fits};
use crate::scalar::Scalar;
use crate::shape::lemma_count_2;
use crate::tensor::{is_whole, zeros, Array, OwnedTensor, Tensor, ViewTensor};
use crate::weights::{
    contents, decoded_array, find, held_array, pair_fault, sized, Contents, Fault, LoadError,
    RawTensor,
};
use vstd::prelude::*;

verus! {

/// A matrix and a bias.
#[derive(Clone)]
pub struct Linear<'a, S: Scalar> {
    pub weight: ViewTensor<'a, S>,
    pub bias: ViewTensor<'a, S>,
}

impl<'a, S: Scalar> Linear<'a, S> {
    pub open spec fn wf(self) -> bool {
        self.weight@.wf() && self.bias@.wf()
    }

    /// Whether the layer can be applied to a tensor of dimensions `x`.
    pub open spec fn fits(self, x: Seq<usize>) -> bool {
        &&& x.len() == 2
        &&& self.weight@.dims.len() == 2
        &&& x[0] * self.weight@.dims[1] <= usize::MAX
        &&& addmm_fits(x, self.weight@.dims, self.bias@.dims, self.result_dims(x))
    }

    /// The dimensions of the result.
    pub open spec fn result_dims(self, x: Seq<usize>) -> Seq<usize> {
        seq![x[0], self.weight@.dims[1]]
    }

    /// `x` multiplied by the weight, plus the bias.
    pub open spec fn result(self, x: Array<S>) -> Array<S> {
        added(
            self.bias@,
            product(false, x, self.weight@, zeros(self.result_dims(x.dims))),
        )
    }

    pub fn new(weight: ViewTensor<'a, S>, bias: ViewTensor<'a, S>) -> (r: Self)
        ensures
            r.weight == weight,
            r.bias == bias,
    {
        Linear { weight, bias }
    }

    /// The layer of the given tensors of a file.
    pub fn from(weight: RawTensor<'a>, bias: RawTensor<'a>) -> (r: Result<Self, LoadError>)
        ensures
            match r {
                Ok(layer) => {
                    &&& sized(weight@) && sized(bias@)
                    &&& layer.weight@ == decoded_array::<S>(weight@)
                    &&& layer.bias@ == decoded_array::<S>(bias@)
                    &&& layer.wf()
                },
                Err(e) => !(sized(weight@) && sized(bias@)) && e@ == Fault::Size,
            },
    {
        let weight: ViewTensor<'a, S> = match weight.decode() {
            Ok(weight) => weight,
            Err(e) => {
                return Err(e);
            },
        };
        let bias: ViewTensor<'a, S> = match bias.decode() {
            Ok(bias) => bias,
            Err(e) => {
                return Err(e);
            },
        };
        Ok(Linear::new(weight, bias))
    }

    /// Whether this is the layer that a file holds under the given names.
    pub open spec fn held(self, held: Contents, weight: Seq<char>, bias: Seq<char>) -> bool {
        &&& self.weight@ == held_array::<S>(held, weight)
        &&& self.bias@ == held_array::<S>(held, bias)
    }

    /// Loads the layer that `tensors` holds under the given names.
    pub fn load(
        tensors: &'a safetensors::SafeTensors<'a>,
        weight: &str,
        bias: &str,
    ) -> (r: Result<Self, LoadError>)
        ensures
            match r {
                Ok(layer) => {
                    &&& pair_fault(contents(*tensors), weight@, bias@) is None
                    &&& layer.held(contents(*tensors), weight@, bias@)
                    &&& layer.wf()
                },
                Err(e) => pair_fault(contents(*tensors), weight@, bias@) == Some(e@),
            },
    {
        let weight = match find(tensors, weight) {
            Ok(weight) => weight,
            Err(e) => {
                return Err(e);
            },
        };
        let bias = match find(tensors, bias) {
            Ok(bias) => bias,
            Err(e) => {
                return Err(e);
            },
        };
        Linear::from(weight, bias)
    }

    /// Whether every tensor has the elements that its shape describes.
    pub fn is_whole(&self) -> (r: bool)
        ensures
            r == self.wf(),
    {
        is_whole(&self.weight) && is_whole(&self.bias)
    }

    /// Whether `forward` can be applied to a tensor of shape `x`.
    pub fn accepts(&self, x: &[usize]) -> (r: bool)
        ensures
            r == (self.wf() && self.fits(x@)),
    {
        if !self.is_whole() || x.len() != 2
            || self.weight.shape().len() != 2 {
            return false;
        }
        let m: usize = x[0];
        let n: usize = self.weight.shape()[1];
        proof {
            lemma_fits_2(false, m, x@[1], n);
            assert(seq![x@[0], x@[1]] =~= x@);
            if self.weight@.dims[0] == x@[1] {
                assert(seq![x@[1], n] =~= self.weight@.dims);
            }
        }
        if m.checked_mul(n).is_none() || self.weight.shape()[0] != x[1] {
            return false;
        }
        let out = vec![m, n];
        assert(out@ =~= self.result_dims(x@));
        self.bias.shape().len() >= 1 && self.bias.shape()[0] == n && combinable(
            self.bias.shape(),
            out.as_slice(),
        )
    }

    /// Replaces `tensor` by its product with the weight, plus the bias.
    pub fn forward(&self, tensor: &mut OwnedTensor<S>)
        requires
            self.wf(),
            old(tensor)@.wf(),
            self.fits(old(tensor)@.dims),
        ensures
            final(tensor)@ == self.result(old(tensor)@),
            final(tensor)@.wf(),
    {
        let m: usize = tensor.shape()[0];
        let n: usize = self.weight.shape()[1];
        proof {
            lemma_count_2(seq![m, n]);
        }
        let mut c = OwnedTensor::zeros(vec![m, n]);
        assert(c@.dims =~= self.result_dims(tensor@.dims));
        addmm(&*tensor, &self.weight, &self.bias, &mut c);
        *tensor = c;
    }
}

/// A layer's result has the elements that its dimensions describe.
pub proof fn lemma_linear_result_wf<S: Scalar>(layer: Linear<S>, x: Array<S>)
    ensures
        layer.result(x).dims == layer.result_dims(x.dims),
        layer.result(x).wf(),
{
    let out = product(false, x, layer.weight@, zeros(layer.result_dims(x.dims)));
    lemma_combine_each_len(
        false,
        layer.bias@.elems,
        layer.bias@.dims[0] as int,
        out.elems,
        out.dims[0] as nat,
    );
}

/// A matrix, stored with rows for columns.
#[derive(Clone)]
pub struct UnbiasedLinear<'a, S: Scalar> {
    pub weight: ViewTensor<'a, S>,
}

impl<'a, S: Scalar> UnbiasedLinear<'a, S> {
    pub open spec fn wf(self) -> bool {
        self.weight@.wf()
    }

    /// Whether the layer can be applied to a tensor of dimensions `x`.
    pub open spec fn fits(self, x: Seq<usize>) -> bool {
        &&& x.len() == 2
        &&& self.weight@.dims.len() == 2
        &&& x[0] * self.weight@.dims[0] <= usize::MAX
        &&& product_fits(true, x, self.weight@.dims, self.result_dims(x))
    }

    /// The dimensions of the result.
    pub open spec fn result_dims(self, x: Seq<usize>) -> Seq<usize> {
        seq![x[0], self.weight@.dims[0]]
    }

    /// The layer of the given tensor of a file.
    pub fn from(weight: RawTensor<'a>) -> (r: Result<Self, LoadError>)
        ensures
            match r {
                Ok(layer) => {
                    &&& sized(weight@)
                    &&& layer.weight@ == decoded_array::<S>(weight@)
                    &&& layer.wf()
                },
                Err(e) => !sized(weight@) && e@ == Fault::Size,
            },
    {
        match weight.decode() {
            Ok(weight) => Ok(UnbiasedLinear { weight }),
            Err(e) => Err(e),
        }
    }

    /// `x` multiplied by the transposed weight.
    pub open spec fn result(self, x: Array<S>) -> Array<S> {
        product(true, x, self.weight@, zeros(self.result_dims(x.dims)))
    }

    /// Whether `forward` can be applied to a tensor of shape `x`.
    pub fn accepts(&self, x: &[usize]) -> (r: bool)
        ensures
            r == (self.wf() && self.fits(x@)),
    {
        if !is_whole(&self.weight) || x.len() != 2 || self.weight.shape().len() != 2 {
            return false;
        }
        let m: usize = x[0];
        let n: usize = self.weight.shape()[0];
        proof {
            lemma_fits_2(true, m, x@[1], n);
            assert(seq![x@[0], x@[1]] =~= x@);
            if self.weight@.dims[1] == x@[1] {
                assert(seq![n, x@[1]] =~= self.weight@.dims);
            }
        }
        m.checked_mul(n).is_some() && self.weight.shape()[1] == x[1]
    }

    /// Replaces `tensor` by its product with the transposed weight.
    pub fn forward(&self, tensor: &mut OwnedTensor<S>)
        requires
            self.wf(),
            old(tensor)@.wf(),
            self.fits(old(tensor)@.dims),
        ensures
            final(tensor)@ == self.result(old(tensor)@),
            final(tensor)@.wf(),
    {
        let m: usize = tensor.shape()[0];
        let n: usize = self.weight.shape()[0];
        proof {
            lemma_count_2(seq![m, n]);
        }
        let mut c = OwnedTensor::zeros(vec![m, n]);
        assert(c@.dims =~= self.result_dims(tensor@.dims));
        matmul_t(&*tensor, &self.weight, &mut c);
        *tensor = c;
    }
}

} // verus!
