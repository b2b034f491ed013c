//! Dense row-major tensors.
use crate::scalar::{zero, Scalar};
use crate::shape::{count, lemma_count_3};
use vstd::prelude::*;
use vstd::slice::slice_to_vec;

verus! {

/// What a tensor is: its dimensions, and its elements with the last dimension running fastest.
#[verifier::ext_equal]
pub struct Array<S> {
    pub dims: Seq<usize>,
    pub elems: Seq<S>,
}

impl<S> Array<S> {
    /// The elements are those that the dimensions describe.
    pub open spec fn wf(self) -> bool {
        self.elems.len() == count(self.dims)
    }
}

/// The tensor of the given dimensions that is zero throughout.
pub open spec fn zeros<S: Scalar>(dims: Seq<usize>) -> Array<S> {
    Array { dims, elems: Seq::new(count(dims), |x: int| zero::<S>()) }
}

/// A tensor that can be read.
pub trait Tensor<S: Scalar>: View<V = Array<S>> {
    /// The dimensions.
    fn shape(&self) -> (r: &[usize])
        ensures
            r@ == self@.dims,
    ;

    /// The elements.
    fn data(&self) -> (r: &[S])
        ensures
            r@ == self@.elems,
    ;
}

/// A tensor whose elements can be written.
pub trait TensorMut<S: Scalar>: Tensor<S> {
    /// The elements, for writing. The dimensions stay.
    fn data_mut(&mut self) -> (r: &mut [S])
        ensures
            r@ == old(self)@.elems,
            final(self)@.elems == final(r)@,
            final(self)@.dims == old(self)@.dims,
    ;
}

/// A tensor that owns its elements.
pub struct OwnedTensor<S> {
    pub shape: Vec<usize>,
    pub data: Vec<S>,
}

impl<S: Scalar> View for OwnedTensor<S> {
    type V = Array<S>;

    open spec fn view(&self) -> Array<S> {
        Array { dims: self.shape@, elems: self.data@ }
    }
}

impl<S: Scalar> Tensor<S> for OwnedTensor<S> {
    fn shape(&self) -> (r: &[usize]) {
        self.shape.as_slice()
    }

    fn data(&self) -> (r: &[S]) {
        self.data.as_slice()
    }
}

impl<S: Scalar> TensorMut<S> for OwnedTensor<S> {
    fn data_mut(&mut self) -> (r: &mut [S]) {
        self.data.as_mut_slice()
    }
}

impl<S: Scalar> Clone for OwnedTensor<S> {
    fn clone(&self) -> (r: Self)
        ensures
            r@ == self@,
    {
        OwnedTensor {
            shape: slice_to_vec(self.shape.as_slice()),
            data: slice_to_vec(self.data.as_slice()),
        }
    }
}

impl<S: Scalar> OwnedTensor<S> {
    /// The tensor of the given elements and shape.
    pub fn new(data: Vec<S>, shape: Vec<usize>) -> (r: Self)
        requires
            data@.len() == count(shape@),
        ensures
            r@ == (Array { dims: shape@, elems: data@ }),
            r@.wf(),
    {
        OwnedTensor { shape, data }
    }

    /// The tensor of the given shape that is zero throughout.
    pub fn zeros(shape: Vec<usize>) -> (r: Self)
        requires
            count(shape@) <= usize::MAX,
        ensures
            r@ == zeros::<S>(shape@),
            r@.wf(),
    {
        let n: usize = match crate::shape::element_count(shape.as_slice()) {
            Some(n) => n,
            None => 0,
        };
        let data = filled(S::from_usize(0), n);
        OwnedTensor { shape, data }
    }
}

/// The vector of `n` copies of `value`.
pub fn filled<S: Copy>(value: S, n: usize) -> (r: Vec<S>)
    ensures
        r@ == Seq::new(n as nat, |x: int| value),
{
    let mut out: Vec<S> = Vec::with_capacity(n);
    let mut i: usize = 0;
    while i < n
        invariant
            i <= n,
            out@ == Seq::new(i as nat, |x: int| value),
        decreases n - i,
    {
        out.push(value);
        i += 1;
    }
    out
}

/// Elements that a tensor reads: another's, or its own.
pub enum Elements<'a, S> {
    Borrowed(&'a [S]),
    Owned(Vec<S>),
}

/// A tensor that is only read, such as a weight of the network.
pub struct ViewTensor<'a, S> {
    pub shape: Vec<usize>,
    pub data: Elements<'a, S>,
}

impl<'a, S: Scalar> View for ViewTensor<'a, S> {
    type V = Array<S>;

    open spec fn view(&self) -> Array<S> {
        Array {
            dims: self.shape@,
            elems: match self.data {
                Elements::Borrowed(s) => s@,
                Elements::Owned(v) => v@,
            },
        }
    }
}

impl<'a, S: Scalar> Tensor<S> for ViewTensor<'a, S> {
    fn shape(&self) -> (r: &[usize]) {
        self.shape.as_slice()
    }

    fn data(&self) -> (r: &[S]) {
        match &self.data {
            Elements::Borrowed(s) => s,
            Elements::Owned(v) => v.as_slice(),
        }
    }
}

impl<'a, S: Scalar> Clone for ViewTensor<'a, S> {
    fn clone(&self) -> (r: Self)
        ensures
            r@ == self@,
    {
        let data = match &self.data {
            Elements::Borrowed(s) => Elements::Borrowed(*s),
            Elements::Owned(v) => Elements::Owned(slice_to_vec(v.as_slice())),
        };
        ViewTensor { shape: slice_to_vec(self.shape.as_slice()), data }
    }
}

impl<'a, S: Scalar> ViewTensor<'a, S> {
    /// The tensor of the given elements and shape.
    pub fn new(data: &'a [S], shape: Vec<usize>) -> (r: Self)
        requires
            data@.len() == count(shape@),
        ensures
            r@ == (Array { dims: shape@, elems: data@ }),
            r@.wf(),
    {
        ViewTensor { shape, data: Elements::Borrowed(data) }
    }
}

/// The keys and values that one layer's attention has seen, each of shape heads by positions by
/// elements of a head.
pub struct PastKeyValue<S> {
    pub key: OwnedTensor<S>,
    pub value: OwnedTensor<S>,
}

/// The keys and values of all layers.
pub type PastKeyValues<S> = Vec<PastKeyValue<S>>;

/// What a `PastKeyValue` is.
#[verifier::ext_equal]
pub struct Cache<S> {
    pub key: Array<S>,
    pub value: Array<S>,
}

impl<S> Cache<S> {
    pub open spec fn wf(self) -> bool {
        self.key.wf() && self.value.wf()
    }
}

impl<S: Scalar> View for PastKeyValue<S> {
    type V = Cache<S>;

    open spec fn view(&self) -> Cache<S> {
        Cache { key: self.key@, value: self.value@ }
    }
}

impl<S: Scalar> Clone for PastKeyValue<S> {
    fn clone(&self) -> (r: Self)
        ensures
            r@ == self@,
    {
        PastKeyValue { key: self.key.clone(), value: self.value.clone() }
    }
}

impl<S: Scalar> PastKeyValue<S> {
    /// A cache of the given shape that is zero throughout.
    pub fn new(num_heads: usize, past_sequence_length: usize, head_dim: usize) -> (r: Self)
        requires
            num_heads * past_sequence_length * head_dim <= usize::MAX,
        ensures
            r@ == (Cache {
                key: zeros::<S>(seq![num_heads, past_sequence_length, head_dim]),
                value: zeros::<S>(seq![num_heads, past_sequence_length, head_dim]),
            }),
            r@.wf(),
    {
        proof {
            lemma_count_3(seq![num_heads, past_sequence_length, head_dim]);
        }
        let key = OwnedTensor::zeros(vec![num_heads, past_sequence_length, head_dim]);
        let value = OwnedTensor::zeros(vec![num_heads, past_sequence_length, head_dim]);
        PastKeyValue { key, value }
    }
}

/// Whether a tensor has the elements that its shape describes.
pub fn is_whole<S: Scalar, T: Tensor<S>>(tensor: &T) -> (r: bool)
    ensures
        r == tensor@.wf(),
{
    let size: usize = tensor.data().len();
    match crate::shape::element_count(tensor.shape()) {
        Some(n) => n == size,
        None => false,
    }
}

} // verus!
