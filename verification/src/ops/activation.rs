//! Activation functions.
use crate::scalar::{fraction, ratio, Scalar};
use crate::tensor::{Array, TensorMut};
use vstd::prelude::*;

verus! {

/// `v` gated by a smooth step: half of `v` times one plus a hyperbolic tangent.
pub open spec fn gelu_of<S: Scalar>(v: S) -> S {
    let slope = S::counted(2).over(S::half_turn()).root();
    let bend = v.plus(fraction::<S>(44715, 1000000).times(v.power(S::counted(3))));
    fraction::<S>(1, 2).times(v).times(
        S::counted(1).plus(slope.times(bend).hyperbolic_tangent()),
    )
}

/// `x` with every element gated.
pub open spec fn gated<S: Scalar>(x: Array<S>) -> Array<S> {
    Array { dims: x.dims, elems: Seq::new(x.elems.len(), |p: int| gelu_of(x.elems[p])) }
}

fn gelu_one<S: Scalar>(v: S) -> (r: S)
    ensures
        r == gelu_of(v),
{
    let slope = S::from_usize(2).div(S::pi()).sqrt();
    let bend = v.add(ratio::<S>(44715, 1000000).mul(v.powf(S::from_usize(3))));
    ratio::<S>(1, 2).mul(v).mul(S::from_usize(1).add(slope.mul(bend).tanh()))
}

fn gelu_slice<S: Scalar>(x: &mut [S])
    ensures
        final(x)@ == Seq::new(old(x)@.len(), |p: int| gelu_of(old(x)@[p])),
{
    let n: usize = x.len();
    let mut i: usize = 0;
    while i < n
        invariant
            i <= n == x@.len(),
            x@.len() == old(x)@.len(),
            forall|p: int| 0 <= p < i ==> x@[p] == gelu_of(old(x)@[p]),
            forall|p: int| i <= p < n ==> x@[p] == old(x)@[p],
        decreases n - i,
    {
        x[i] = gelu_one(x[i]);
        i += 1;
    }
}

/// Gates every element of `x`.
pub fn gelu<S: Scalar, T: TensorMut<S>>(x: &mut T)
    ensures
        final(x)@ == gated(old(x)@),
        old(x)@.wf() ==> final(x)@.wf(),
{
    gelu_slice(x.data_mut())
}

/// The odd polynomial of degree five that `faster_tanh` squashes.
pub open spec fn tanh_base<S: Scalar>(x: S) -> S {
    let x2 = x.times(x);
    let x3 = x2.times(x);
    let x5 = x3.times(x2);
    x.plus(fraction::<S>(16489087, 100000000).times(x3)).plus(
        fraction::<S>(985468, 100000000).times(x5),
    )
}

/// An approximation of the hyperbolic tangent.
pub fn faster_tanh<S: Scalar>(x: S) -> (r: S)
    ensures
        r == tanh_base(x).over(S::counted(1).plus(tanh_base(x).times(tanh_base(x))).root()),
{
    let x2 = x.mul(x);
    let x3 = x2.mul(x);
    let x5 = x3.mul(x2);
    let a = x.add(ratio::<S>(16489087, 100000000).mul(x3)).add(
        ratio::<S>(985468, 100000000).mul(x5),
    );
    a.div(S::from_usize(1).add(a.mul(a)).sqrt())
}

} // verus!
