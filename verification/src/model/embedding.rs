//! Tables of vectors.
use crate::ops::pick::{picked, select, select_fits};
use crate::scalar::Scalar;
use crate::shape::lemma_count_2;
use crate::tensor::{is_whole, OwnedTensor, Tensor, ViewTensor};
use crate::weights::{decoded_array, sized, Fault, LoadError, RawTensor};
use vstd::prelude::*;

verus! {

/// A table with one row for each number.
#[derive(Clone)]
pub struct Embedding<'a, S: Scalar> {
    pub weight: ViewTensor<'a, S>,
}

impl<'a, S: Scalar> Embedding<'a, S> {
    pub open spec fn wf(self) -> bool {
        self.weight@.wf()
    }

    /// The table of the given tensor of a file.
    pub fn from(weight: RawTensor<'a>) -> (r: Result<Self, LoadError>)
        ensures
            match r {
                Ok(table) => {
                    &&& sized(weight@)
                    &&& table.weight@ == decoded_array::<S>(weight@)
                    &&& table.wf()
                },
                Err(e) => !sized(weight@) && e@ == Fault::Size,
            },
    {
        match weight.decode() {
            Ok(weight) => Ok(Embedding { weight }),
            Err(e) => Err(e),
        }
    }

    /// Whether the rows numbered `ids` can be looked up.
    pub open spec fn fits(self, ids: Seq<u32>) -> bool {
        &&& self.weight@.dims.len() >= 2
        &&& ids.len() * self.weight@.dims[1] <= usize::MAX
        &&& select_fits(ids, self.weight@, seq![ids.len() as usize, self.weight@.dims[1]])
    }

    /// Whether `forward` can be applied to `ids`.
    pub fn accepts(&self, ids: &[u32]) -> (r: bool)
        ensures
            r == (self.wf() && self.fits(ids@)),
    {
        if !is_whole(&self.weight) || self.weight.shape().len() < 2 {
            return false;
        }
        let width: usize = self.weight.shape()[1];
        let size: usize = self.weight.data().len();
        if ids.len().checked_mul(width).is_none() {
            return false;
        }
        let mut i: usize = 0;
        while i < ids.len()
            invariant
                i <= ids@.len(),
                self.wf(),
                self.weight@.dims.len() >= 2,
                width == self.weight@.dims[1],
                size == self.weight@.elems.len(),
                ids@.len() * width <= usize::MAX,
                forall|j: int| 0 <= j < i ==> (#[trigger] ids@[j] + 1) * width <= size,
            decreases ids@.len() - i,
        {
            assert((ids@[i as int] + 1) * width <= 0x1_0000_0000 * 0x1_0000_0000_0000_0000)
                by (nonlinear_arith)
                requires
                    ids@[i as int] + 1 <= 0x1_0000_0000,
                    0 <= width < 0x1_0000_0000_0000_0000,
            ;
            let end: u128 = (ids[i] as u128 + 1) * (width as u128);
            if end > size as u128 {
                return false;
            }
            i += 1;
        }
        true
    }

    /// The rows numbered `ids`.
    pub fn forward(&self, ids: &[u32]) -> (r: OwnedTensor<S>)
        requires
            self.fits(ids@),
        ensures
            r@ == picked(ids@, self.weight@),
            r@.wf(),
    {
        let hidden_dim: usize = self.weight.shape()[1];
        let n: usize = ids.len();
        proof {
            lemma_count_2(seq![n, hidden_dim]);
        }
        let mut tensor = OwnedTensor::zeros(vec![n, hidden_dim]);
        assert(tensor@.dims =~= seq![n, hidden_dim]);
        select(ids, &self.weight, &mut tensor);
        tensor
    }
}

} // verus!
