//! The feed-forward part of a layer.
use crate::model::linear::{lemma_linear_result_wf, Linear};
use crate::ops::activation::{gated, gelu};
use crate::scalar::Scalar;
use crate::tensor::{Array, OwnedTensor, Tensor};
use crate::weights::{
    contents, layer_name, layer_tensor_name, pair_fault, sooner, Contents, Fault, LoadError,
};
use crate::wire::{
    hex_text, memory, parse_reply, reply_numbers, request_text, ReplyError, REMOTE_WIDTH,
};
use vstd::prelude::*;

verus! {

/// Two linear layers with an activation between them.
#[derive(Clone)]
pub struct Mlp<'a, S: Scalar> {
    pub c_fc: Linear<'a, S>,
    pub c_proj: Linear<'a, S>,
}

impl<'a, S: Scalar> Mlp<'a, S> {
    pub open spec fn wf(self) -> bool {
        self.c_fc.wf() && self.c_proj.wf()
    }

    /// Why these layers of layer `index` cannot be loaded from a file, if they cannot.
    pub open spec fn fault(held: Contents, index: usize) -> Option<Fault> {
        sooner(
            pair_fault(
                held,
                layer_name(index, ".mlp.c_fc.weight"@),
                layer_name(index, ".mlp.c_fc.bias"@),
            ),
            pair_fault(
                held,
                layer_name(index, ".mlp.c_proj.weight"@),
                layer_name(index, ".mlp.c_proj.bias"@),
            ),
        )
    }

    /// Whether these are the layers that a file holds for layer `index`.
    pub open spec fn held(self, held: Contents, index: usize) -> bool {
        &&& self.c_fc.held(
            held,
            layer_name(index, ".mlp.c_fc.weight"@),
            layer_name(index, ".mlp.c_fc.bias"@),
        )
        &&& self.c_proj.held(
            held,
            layer_name(index, ".mlp.c_proj.weight"@),
            layer_name(index, ".mlp.c_proj.bias"@),
        )
    }

    /// Loads what `tensors` holds for layer `index`.
    pub fn from_tensors(index: usize, tensors: &'a safetensors::SafeTensors<'a>) -> (r: Result<
        Self,
        LoadError,
    >)
        ensures
            match r {
                Ok(mlp) => {
                    &&& Self::fault(contents(*tensors), index) is None
                    &&& mlp.held(contents(*tensors), index)
                    &&& mlp.wf()
                },
                Err(e) => Self::fault(contents(*tensors), index) == Some(e@),
            },
    {
        let c_fc = match Linear::load(
            tensors,
            layer_tensor_name(index, ".mlp.c_fc.weight").as_str(),
            layer_tensor_name(index, ".mlp.c_fc.bias").as_str(),
        ) {
            Ok(c_fc) => c_fc,
            Err(e) => {
                return Err(e);
            },
        };
        let c_proj = match Linear::load(
            tensors,
            layer_tensor_name(index, ".mlp.c_proj.weight").as_str(),
            layer_tensor_name(index, ".mlp.c_proj.bias").as_str(),
        ) {
            Ok(c_proj) => c_proj,
            Err(e) => {
                return Err(e);
            },
        };
        Ok(Mlp { c_fc, c_proj })
    }

    /// Whether the layers can be applied to a tensor of dimensions `x`.
    pub open spec fn fits(self, x: Seq<usize>) -> bool {
        self.c_fc.fits(x) && self.c_proj.fits(self.c_fc.result_dims(x))
    }

    /// The dimensions of the result.
    pub open spec fn result_dims(self, x: Seq<usize>) -> Seq<usize> {
        self.c_proj.result_dims(self.c_fc.result_dims(x))
    }

    /// `x` passed through both layers and the activation.
    pub open spec fn result(self, x: Array<S>) -> Array<S> {
        self.c_proj.result(gated(self.c_fc.result(x)))
    }

    /// Whether every tensor has the elements that its shape describes.
    pub fn is_whole(&self) -> (r: bool)
        ensures
            r == self.wf(),
    {
        self.c_fc.is_whole() && self.c_proj.is_whole()
    }

    /// Whether `forward` can be applied to a tensor of shape `x`.
    pub fn accepts(&self, x: &[usize]) -> (r: bool)
        ensures
            r == (self.wf() && self.fits(x@)),
    {
        if !self.c_fc.accepts(x) {
            return false;
        }
        let inner = vec![x[0], self.c_fc.weight.shape()[1]];
        assert(inner@ =~= self.c_fc.result_dims(x@));
        self.c_proj.accepts(inner.as_slice())
    }

    /// Passes `tensor` through both layers and the activation.
    pub fn forward(&self, tensor: &mut OwnedTensor<S>)
        requires
            self.wf(),
            old(tensor)@.wf(),
            self.fits(old(tensor)@.dims),
        ensures
            final(tensor)@ == self.result(old(tensor)@),
            final(tensor)@.wf(),
    {
        self.c_fc.forward(tensor);
        gelu(tensor);
        self.c_proj.forward(tensor);
    }

    /// Whether the layers can be applied to a tensor of dimensions `x` beside a remote peer: the
    /// peer has been asked wherever there is something to compare with its answer.
    pub open spec fn special_fits(self, x: Seq<usize>) -> bool {
        self.fits(x) && (wide(self.result_dims(x)) ==> wide(x))
    }

    /// What becomes of `x` beside a remote peer that replied `reply`: the peer's numbers, where they
    /// compare equal to those computed here.
    pub open spec fn special_outcome(self, x: Array<S>, reply: Seq<u8>) -> Result<
        Array<S>,
        Refusal<S>,
    > {
        let local = self.result(x);
        match answered::<S>(x.dims, reply) {
            Err(e) => Err(Refusal::Reply(e)),
            Ok(remote) => {
                let differences = differing(local.elems, remote);
                if !wide(local.dims) {
                    Ok(local)
                } else if differences.len() > 0 {
                    Err(Refusal::Mismatch(differences))
                } else {
                    Ok(Array { dims: local.dims, elems: remote })
                }
            },
        }
    }

    /// The text to send to the remote peer before `special_forward`, if it is to be asked.
    pub fn special_request(&self, tensor: &OwnedTensor<S>) -> (r: Option<String>)
        requires
            tensor@.wf(),
            tensor@.dims.len() == 2,
        ensures
            r is Some <==> wide(tensor@.dims),
            r matches Some(text) ==> text@ == hex_text(memory(tensor@.elems)),
    {
        if is_wide(tensor.shape()) {
            proof {
                lemma_wide(tensor@);
            }
            Some(request_text(tensor.data()))
        } else {
            None
        }
    }

    /// Passes `tensor` through both layers and the activation, and holds the result against the
    /// remote peer's answer. `reply` is what came back for the text of `special_request`, and is
    /// not looked at where there was none. A reply that cannot be read leaves `tensor` as it was;
    /// one that differs leaves what was computed here.
    pub fn special_forward(&self, tensor: &mut OwnedTensor<S>, reply: &[u8]) -> (r: Result<
        (),
        SpecialError<S>,
    >)
        requires
            self.wf(),
            old(tensor)@.wf(),
            self.special_fits(old(tensor)@.dims),
        ensures
            match r {
                Ok(()) => self.special_outcome(old(tensor)@, reply@) == Ok::<Array<S>, Refusal<S>>(
                    final(tensor)@,
                ),
                Err(e) => {
                    &&& self.special_outcome(old(tensor)@, reply@) == Err::<Array<S>, Refusal<S>>(
                        e@,
                    )
                    &&& final(tensor)@ == match e {
                        SpecialError::Reply(_) => old(tensor)@,
                        SpecialError::Mismatch(_) => self.result(old(tensor)@),
                    }
                },
            },
            final(tensor)@.wf(),
    {
        let ghost before = tensor@;
        let remote: Vec<S> = if is_wide(tensor.shape()) {
            match parse_reply(reply) {
                Ok(remote) => remote,
                Err(e) => {
                    return Err(SpecialError::Reply(e));
                },
            }
        } else {
            Vec::new()
        };
        self.forward(tensor);
        assert(tensor@.dims =~= self.result_dims(before.dims));
        if is_wide(tensor.shape()) {
            proof {
                lemma_wide(tensor@);
            }
            let differences = differences(tensor.data(), remote.as_slice());
            if differences.len() > 0 {
                return Err(SpecialError::Mismatch(differences));
            }
            tensor.data = remote;
        }
        Ok(())
    }
}

/// Whether the remote peer is asked about a tensor of dimensions `x`: one row of the width that a
/// message holds.
pub open spec fn wide(x: Seq<usize>) -> bool {
    x[0] == 1 && x[1] == REMOTE_WIDTH
}

/// The one row that the remote peer is asked about is as wide as a message.
pub proof fn lemma_wide<S>(x: Array<S>)
    requires
        x.wf(),
        x.dims.len() == 2,
        wide(x.dims),
    ensures
        x.elems.len() == REMOTE_WIDTH,
{
    crate::shape::lemma_count_2(x.dims);
}

/// The remote peer's answer about a tensor of dimensions `x`; nothing, where it is not asked.
pub open spec fn answered<S: Scalar>(x: Seq<usize>, reply: Seq<u8>) -> Result<Seq<S>, ReplyError> {
    if wide(x) {
        reply_numbers::<S>(reply)
    } else {
        Ok(Seq::empty())
    }
}

/// The numbers of `local` with those at the same place in `remote`, where the two do not compare
/// equal.
pub open spec fn differing<S: Scalar>(local: Seq<S>, remote: Seq<S>) -> Seq<(S, S)> {
    local.zip_with(remote).filter(|p: (S, S)| !p.0.equals(p.1))
}

/// Why an answer of the remote peer was not taken.
pub enum SpecialError<S> {
    /// It could not be read.
    Reply(ReplyError),
    /// It differs: the numbers computed here, with those of the peer.
    Mismatch(Vec<(S, S)>),
}

/// What a `SpecialError` is.
pub enum Refusal<S> {
    Reply(ReplyError),
    Mismatch(Seq<(S, S)>),
}

impl<S> View for SpecialError<S> {
    type V = Refusal<S>;

    open spec fn view(&self) -> Refusal<S> {
        match self {
            SpecialError::Reply(e) => Refusal::Reply(*e),
            SpecialError::Mismatch(pairs) => Refusal::Mismatch(pairs@),
        }
    }
}

/// Whether the remote peer is asked about a tensor of shape `x`.
pub fn is_wide(x: &[usize]) -> (r: bool)
    requires
        x@.len() == 2,
    ensures
        r == wide(x@),
{
    x[0] == 1 && x[1] == REMOTE_WIDTH
}

fn differences<S: Scalar>(local: &[S], remote: &[S]) -> (r: Vec<(S, S)>)
    requires
        local@.len() == remote@.len(),
    ensures
        r@ == differing(local@, remote@),
{
    let ghost pairs = local@.zip_with(remote@);
    let ghost differs = |p: (S, S)| !p.0.equals(p.1);
    let mut out: Vec<(S, S)> = Vec::new();
    let mut i: usize = 0;
    assert(pairs.take(0).filter(differs) =~= Seq::empty()) by {
        reveal(Seq::filter);
    }
    while i < local.len()
        invariant
            i <= local@.len(),
            local@.len() == remote@.len(),
            pairs == local@.zip_with(remote@),
            differs == (|p: (S, S)| !p.0.equals(p.1)),
            out@ == pairs.take(i as int).filter(differs),
        decreases local@.len() - i,
    {
        proof {
            reveal(Seq::filter);
            assert(pairs.take(i + 1).drop_last() =~= pairs.take(i as int));
            assert(pairs.take(i + 1).last() == (local@[i as int], remote@[i as int]));
        }
        if !local[i].same(remote[i]) {
            out.push((local[i], remote[i]));
        }
        i += 1;
    }
    assert(pairs.take(i as int) =~= pairs);
    out
}

/// What is taken from the remote peer compares equal, number for number, to what was computed
/// here.
pub proof fn lemma_taken_answer_is_equal<S: Scalar>(
    mlp: Mlp<S>,
    x: Array<S>,
    reply: Seq<u8>,
    i: int,
)
    requires
        wide(x.dims),
        wide(mlp.result_dims(x.dims)),
        mlp.special_outcome(x, reply) is Ok,
        0 <= i < REMOTE_WIDTH,
    ensures
        mlp.special_outcome(x, reply)->Ok_0.dims == mlp.result(x).dims,
        mlp.special_outcome(x, reply)->Ok_0.elems.len() == REMOTE_WIDTH,
        mlp.result(x).elems[i].equals(mlp.special_outcome(x, reply)->Ok_0.elems[i]),
{
    lemma_linear_result_wf(mlp.c_fc, x);
    lemma_linear_result_wf(mlp.c_proj, gated(mlp.c_fc.result(x)));
    lemma_wide(mlp.result(x));
    let local = mlp.result(x).elems;
    let remote = mlp.special_outcome(x, reply)->Ok_0.elems;
    let pairs = local.zip_with(remote);
    let differs = |p: (S, S)| !p.0.equals(p.1);
    if !local[i].equals(remote[i]) {
        assert(differs(pairs[i]));
        pairs.lemma_filter_contains(differs, i);
    }
}

} // verus!
