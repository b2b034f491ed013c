//! The whole network.
use crate::model::embedding::Embedding;
use crate::model::layer::Gpt2Layer;
use crate::model::layer_norm::LayerNorm;
use crate::model::linear::UnbiasedLinear;
use crate::model::mlp::{Refusal, SpecialError};
use crate::model::stack::{caches, caches_wf, Gpt2Model, Pending, Waiting, LAYERS};
use crate::ops::elementwise::{added, combinable, combine_fits};
use crate::ops::pick::picked;
use crate::scalar::Scalar;
use crate::tensor::{zeros, Array, Cache, OwnedTensor, PastKeyValue, PastKeyValues, Tensor};
use crate::weights::{
    contents, fault, find, held_array, layer_name, pair_fault, sooner, Contents, Fault, LoadError,
};
use vstd::prelude::*;

verus! {

/// Token and position embeddings, the layers, a last normalisation and the projection to the
/// vocabulary.
#[derive(Clone)]
pub struct Gpt2<'a, S: Scalar> {
    pub wte: Embedding<'a, S>,
    pub wpe: Embedding<'a, S>,
    pub h: Gpt2Model<'a, S>,
    pub ln_f: LayerNorm<'a, S>,
    pub lm_head: UnbiasedLinear<'a, S>,
    pub num_heads: usize,
}

/// The positions of `n` tokens after `seen` others.
pub open spec fn positions(n: nat, seen: usize) -> Seq<u32> {
    Seq::new(n, |i: int| (i + seen) as usize as u32)
}

fn position_ids(n: usize, seen: usize) -> (r: Vec<u32>)
    requires
        n + seen <= usize::MAX + 1,
    ensures
        r@ == positions(n as nat, seen),
{
    let mut out: Vec<u32> = Vec::with_capacity(n);
    let mut i: usize = 0;
    while i < n
        invariant
            i <= n,
            n + seen <= usize::MAX + 1,
            out@ == positions(i as nat, seen),
        decreases n - i,
    {
        out.push(#[verifier::truncate] ((i + seen) as u32));
        i += 1;
        assert(out@ =~= positions(i as nat, seen));
    }
    out
}

impl<'a, S: Scalar> Gpt2<'a, S> {
    pub open spec fn wf(self) -> bool {
        self.wte.wf() && self.wpe.wf() && self.h.wf() && self.ln_f.wf() && self.lm_head.wf()
    }

    /// Why the network cannot be loaded from a file, if it cannot: the first fault met.
    pub open spec fn fault(held: Contents) -> Option<Fault> {
        sooner(
            sooner(fault(held, "wte.weight"@), fault(held, "wpe.weight"@)),
            sooner(
                Gpt2Model::<S>::fault(held, LAYERS as nat),
                pair_fault(held, "ln_f.weight"@, "ln_f.bias"@),
            ),
        )
    }

    /// Whether this is the network of a file, with attention in `num_heads` heads. The token
    /// embedding is also the projection to the vocabulary.
    pub open spec fn held(self, held: Contents, num_heads: usize) -> bool {
        &&& self.wte.weight@ == held_array::<S>(held, "wte.weight"@)
        &&& self.wpe.weight@ == held_array::<S>(held, "wpe.weight"@)
        &&& self.h.held(held, num_heads)
        &&& self.ln_f.held(held, "ln_f.weight"@, "ln_f.bias"@)
        &&& self.lm_head.weight@ == held_array::<S>(held, "wte.weight"@)
        &&& self.num_heads == num_heads
    }

    /// Loads the network of `tensors`.
    pub fn from_tensors(tensors: &'a safetensors::SafeTensors<'a>, num_heads: usize) -> (r: Result<
        Self,
        LoadError,
    >)
        ensures
            match r {
                Ok(gpt2) => {
                    &&& Self::fault(contents(*tensors)) is None
                    &&& gpt2.held(contents(*tensors), num_heads)
                    &&& gpt2.wf()
                },
                Err(e) => Self::fault(contents(*tensors)) == Some(e@),
            },
    {
        let wte = match Self::load_embedding(tensors, "wte.weight") {
            Ok(wte) => wte,
            Err(e) => {
                return Err(e);
            },
        };
        let wpe = match Self::load_embedding(tensors, "wpe.weight") {
            Ok(wpe) => wpe,
            Err(e) => {
                return Err(e);
            },
        };
        let h = match Gpt2Model::from_tensors(tensors, num_heads) {
            Ok(h) => h,
            Err(e) => {
                return Err(e);
            },
        };
        let ln_f = match LayerNorm::load(tensors, "ln_f.weight", "ln_f.bias") {
            Ok(ln_f) => ln_f,
            Err(e) => {
                return Err(e);
            },
        };
        let weight = match find(tensors, "wte.weight") {
            Ok(weight) => weight,
            Err(e) => {
                return Err(e);
            },
        };
        let lm_head = match UnbiasedLinear::from(weight) {
            Ok(lm_head) => lm_head,
            Err(e) => {
                return Err(e);
            },
        };
        Ok(Gpt2 { wte, wpe, h, ln_f, lm_head, num_heads })
    }

    fn load_embedding(tensors: &'a safetensors::SafeTensors<'a>, name: &str) -> (r: Result<
        Embedding<'a, S>,
        LoadError,
    >)
        ensures
            match r {
                Ok(table) => {
                    &&& fault(contents(*tensors), name@) is None
                    &&& table.weight@ == held_array::<S>(contents(*tensors), name@)
                    &&& table.wf()
                },
                Err(e) => fault(contents(*tensors), name@) == Some(e@),
            },
    {
        match find(tensors, name) {
            Ok(weight) => Embedding::from(weight),
            Err(e) => Err(e),
        }
    }

    /// The past of layers that have seen nothing.
    pub open spec fn empty_past(self) -> Seq<Cache<S>> {
        let dims = seq![
            self.num_heads,
            0usize,
            (self.wte.weight@.dims[1] / self.num_heads) as usize,
        ];
        Seq::new(self.h.layers@.len(), |i: int| Cache { key: zeros::<S>(dims), value: zeros::<S>(dims) })
    }

    /// One empty cache for each layer.
    pub fn empty_past_key_values(&self) -> (r: PastKeyValues<S>)
        requires
            self.wte.weight@.dims.len() >= 2,
            self.num_heads > 0,
            self.wte.weight@.dims[1] % self.num_heads == 0,
        ensures
            caches(r@) == self.empty_past(),
            caches_wf(caches(r@)),
    {
        let num_layers: usize = self.h.layers.len();
        let hidden_dim: usize = self.wte.weight.shape()[1];
        let num_heads: usize = self.num_heads;
        let head_dim: usize = hidden_dim / num_heads;
        assert(num_heads * 0 * head_dim == 0) by (nonlinear_arith);
        let mut past: PastKeyValues<S> = Vec::with_capacity(num_layers);
        let mut i: usize = 0;
        while i < num_layers
            invariant
                i <= num_layers,
                num_layers == self.h.layers@.len(),
                num_heads * 0 * head_dim == 0,
                num_heads == self.num_heads,
                head_dim == self.wte.weight@.dims[1] / num_heads,
                caches(past@) == self.empty_past().take(i as int),
                caches_wf(caches(past@)),
            decreases num_layers - i,
        {
            let cache = PastKeyValue::new(num_heads, 0, head_dim);
            let ghost before = caches(past@);
            past.push(cache);
            assert(caches(past@) =~= before.push(cache@));
            assert(cache@ == self.empty_past()[i as int]);
            assert(caches(past@) =~= self.empty_past().take(i + 1));
            i += 1;
        }
        assert(self.empty_past().take(num_layers as int) =~= self.empty_past());
        past
    }

    /// The dimensions of `n` embedded tokens.
    pub open spec fn embedded_dims(self, n: nat) -> Seq<usize> {
        seq![n as usize, self.wte.weight@.dims[1]]
    }

    /// The embedding of tokens after `seen` others.
    pub open spec fn embedded(self, ids: Seq<u32>, seen: usize) -> Array<S> {
        added(
            picked(positions(ids.len(), seen), self.wpe.weight@),
            picked(ids, self.wte.weight@),
        )
    }

    /// What the layers' result becomes.
    pub open spec fn head(self, x: Array<S>) -> Array<S> {
        self.lm_head.result(self.ln_f.result(x))
    }

    /// Whether `head` can be applied to a tensor of dimensions `x`.
    pub open spec fn head_fits(self, x: Seq<usize>) -> bool {
        self.ln_f.fits(x) && self.lm_head.fits(x)
    }

    /// Whether the network can be applied to `ids` after `past`.
    pub open spec fn fits(self, ids: Seq<u32>, past: Seq<Cache<S>>) -> bool {
        let seen = past[0].key.dims[1];
        let x = self.embedded_dims(ids.len());
        &&& past.len() > 0
        &&& past[0].key.dims.len() >= 2
        &&& ids.len() + seen <= usize::MAX + 1
        &&& self.wte.fits(ids)
        &&& self.wpe.fits(positions(ids.len(), seen))
        &&& combine_fits(seq![ids.len() as usize, self.wpe.weight@.dims[1]], x)
        &&& self.h.fits(x, past)
        &&& self.head_fits(self.h.result_dims(x, past.len()))
    }

    /// Where a pass of `ids` waits for the remote peer.
    pub open spec fn started(self, ids: Seq<u32>, past: Seq<Cache<S>>) -> Waiting<S> {
        self.h.started(self.embedded(ids, past[0].key.dims[1]), past)
    }

    /// What the past is while a pass of `ids` waits.
    pub open spec fn started_next(self, ids: Seq<u32>, past: Seq<Cache<S>>) -> Seq<Cache<S>> {
        self.h.started_next(self.embedded(ids, past[0].key.dims[1]), past)
    }

    /// Whether a pass can go on from where it waits.
    pub open spec fn resumable(self, waiting: Waiting<S>, past: Seq<Cache<S>>) -> bool {
        self.h.resumable(waiting, past) && self.head_fits(self.h.resumed_dims(waiting, past.len()))
    }

    /// What becomes of a pass that waits, when the remote peer replied `reply`.
    pub open spec fn resumed(self, waiting: Waiting<S>, past: Seq<Cache<S>>, reply: Seq<u8>) -> Result<
        Array<S>,
        Refusal<S>,
    > {
        match self.h.resumed(waiting, past, reply) {
            Ok(x) => Ok(self.head(x)),
            Err(e) => Err(e),
        }
    }

    /// What becomes of `ids` after `past`, beside a remote peer that replied `reply`.
    pub open spec fn outcome(self, ids: Seq<u32>, past: Seq<Cache<S>>, reply: Seq<u8>) -> Result<
        Array<S>,
        Refusal<S>,
    > {
        self.resumed(self.started(ids, past), self.started_next(ids, past), reply)
    }

    /// What the past becomes with `ids`.
    pub open spec fn next(self, ids: Seq<u32>, past: Seq<Cache<S>>, reply: Seq<u8>) -> Seq<Cache<S>> {
        self.h.resumed_next(self.started(ids, past), self.started_next(ids, past), reply)
    }

    /// Whether `forward_start` can be applied to `ids` with the given past.
    pub fn accepts(&self, ids: &[u32], past: &[PastKeyValue<S>]) -> (r: bool)
        ensures
            r == (self.wf() && self.fits(ids@, caches(past@))),
    {
        let ghost held = caches(past@);
        if past.len() == 0 {
            return false;
        }
        assert(held[0] == past@[0]@);
        if past[0].key.shape().len() < 2 {
            return false;
        }
        let n: usize = ids.len();
        let seen: usize = past[0].key.shape()[1];
        if n > 0 && n - 1 > usize::MAX - seen {
            return false;
        }
        if !self.wte.accepts(ids) {
            return false;
        }
        let positions = position_ids(n, seen);
        if !self.wpe.accepts(positions.as_slice()) {
            return false;
        }
        let x = vec![n, self.wte.weight.shape()[1]];
        let places = vec![n, self.wpe.weight.shape()[1]];
        assert(x@ =~= self.embedded_dims(ids@.len()));
        assert(places@ =~= seq![n, self.wpe.weight@.dims[1]]);
        if !combinable(places.as_slice(), x.as_slice()) {
            return false;
        }
        match self.h.accepts(x.as_slice(), past) {
            Some(shape) => self.ln_f.accepts(shape.as_slice()) && self.lm_head.accepts(
                shape.as_slice(),
            ),
            None => false,
        }
    }

    /// Takes a pass of `ids` to where the remote peer may have to be asked.
    pub fn forward_start(&self, ids: &[u32], past: &mut PastKeyValues<S>) -> (r: Pending<S>)
        requires
            self.wf(),
            caches_wf(caches(old(past)@)),
            self.fits(ids@, caches(old(past)@)),
        ensures
            r@ == self.started(ids@, caches(old(past)@)),
            caches(final(past)@) == self.started_next(ids@, caches(old(past)@)),
            caches_wf(caches(final(past)@)),
            self.resumable(r@, caches(final(past)@)),
    {
        let ghost before = caches(past@);
        let n: usize = ids.len();
        let mut tensor = self.wte.forward(ids);
        assert(before[0] == past@[0]@);
        let past_sequence_length: usize = past[0].key.shape()[1];
        let positions = position_ids(n, past_sequence_length);
        let position_embeddings = self.wpe.forward(positions.as_slice());
        crate::ops::elementwise::add(&position_embeddings, &mut tensor);
        assert(tensor@.dims =~= self.embedded_dims(ids@.len()));
        self.h.forward_start(tensor, past)
    }

    /// Takes a pass on from where it waited, with the remote peer's reply to what it was sent.
    pub fn forward_finish(
        &self,
        pending: Pending<S>,
        reply: &[u8],
        past: &mut PastKeyValues<S>,
    ) -> (r: Result<OwnedTensor<S>, SpecialError<S>>)
        requires
            self.wf(),
            caches_wf(caches(old(past)@)),
            self.resumable(pending@, caches(old(past)@)),
        ensures
            match r {
                Ok(tensor) => {
                    &&& self.resumed(pending@, caches(old(past)@), reply@) == Ok::<
                        Array<S>,
                        Refusal<S>,
                    >(tensor@)
                    &&& tensor@.wf()
                },
                Err(e) => self.resumed(pending@, caches(old(past)@), reply@) == Err::<
                    Array<S>,
                    Refusal<S>,
                >(e@),
            },
            caches(final(past)@) == self.h.resumed_next(pending@, caches(old(past)@), reply@),
            caches_wf(caches(final(past)@)),
    {
        let mut tensor = match self.h.forward_finish(pending, reply, past) {
            Ok(tensor) => tensor,
            Err(e) => {
                return Err(e);
            },
        };
        self.ln_f.forward(&mut tensor);
        self.lm_head.forward(&mut tensor);
        Ok(tensor)
    }

    /// The scores of every token of the vocabulary after each of `ids`, and the past with `ids`
    /// added. `reply` is what the remote peer replies to the request of this pass, and is not
    /// looked at where the peer is not asked.
    pub fn forward(&self, ids: &[u32], past: &mut PastKeyValues<S>, reply: &[u8]) -> (r: Result<
        OwnedTensor<S>,
        SpecialError<S>,
    >)
        requires
            self.wf(),
            caches_wf(caches(old(past)@)),
            self.fits(ids@, caches(old(past)@)),
        ensures
            match r {
                Ok(tensor) => {
                    &&& self.outcome(ids@, caches(old(past)@), reply@) == Ok::<Array<S>, Refusal<S>>(
                        tensor@,
                    )
                    &&& tensor@.wf()
                },
                Err(e) => self.outcome(ids@, caches(old(past)@), reply@) == Err::<
                    Array<S>,
                    Refusal<S>,
                >(e@),
            },
            caches(final(past)@) == self.next(ids@, caches(old(past)@), reply@),
            caches_wf(caches(final(past)@)),
    {
        let pending = self.forward_start(ids, past);
        self.forward_finish(pending, reply, past)
    }
}

/// The tensors of a layer.
pub open spec fn layer_parts() -> Seq<Seq<char>> {
    seq![
        ".ln_1.weight"@,
        ".ln_1.bias"@,
        ".ln_2.weight"@,
        ".ln_2.bias"@,
        ".mlp.c_fc.weight"@,
        ".mlp.c_fc.bias"@,
        ".mlp.c_proj.weight"@,
        ".mlp.c_proj.bias"@,
        ".attn.c_attn.weight"@,
        ".attn.c_attn.bias"@,
        ".attn.c_proj.weight"@,
        ".attn.c_proj.bias"@,
    ]
}

/// Whether a file holds all tensors of layer `index`, each with four bytes for each element.
pub open spec fn layer_complete(held: Contents, index: usize) -> bool {
    forall|k: int|
        0 <= k < layer_parts().len() ==> fault(
            held,
            layer_name(index, #[trigger] layer_parts()[k]),
        ) is None
}

proof fn lemma_layer_loads<S: Scalar>(held: Contents, index: usize)
    ensures
        Gpt2Layer::<S>::fault(held, index) is None <==> layer_complete(held, index),
{
    if layer_complete(held, index) {
        assert(layer_parts()[0] == ".ln_1.weight"@);
        assert(layer_parts()[1] == ".ln_1.bias"@);
        assert(layer_parts()[2] == ".ln_2.weight"@);
        assert(layer_parts()[3] == ".ln_2.bias"@);
        assert(layer_parts()[4] == ".mlp.c_fc.weight"@);
        assert(layer_parts()[5] == ".mlp.c_fc.bias"@);
        assert(layer_parts()[6] == ".mlp.c_proj.weight"@);
        assert(layer_parts()[7] == ".mlp.c_proj.bias"@);
        assert(layer_parts()[8] == ".attn.c_attn.weight"@);
        assert(layer_parts()[9] == ".attn.c_attn.bias"@);
        assert(layer_parts()[10] == ".attn.c_proj.weight"@);
        assert(layer_parts()[11] == ".attn.c_proj.bias"@);
    }
}

proof fn lemma_layers_load<S: Scalar>(held: Contents, n: nat)
    requires
        n <= LAYERS,
    ensures
        Gpt2Model::<S>::fault(held, n) is None <==> forall|i: int|
            0 <= i < n ==> #[trigger] layer_complete(held, i as usize),
    decreases n,
{
    if n > 0 {
        lemma_layers_load::<S>(held, (n - 1) as nat);
        lemma_layer_loads::<S>(held, (n - 1) as usize);
        assert forall|i: int|
            0 <= i < n && (forall|j: int| 0 <= j < n - 1 ==> #[trigger] layer_complete(held, j as usize))
                && layer_complete(held, (n - 1) as usize) implies #[trigger] layer_complete(
            held,
            i as usize,
        ) by {
            if i == n - 1 {
                assert(i as usize == (n - 1) as usize);
            }
        }
    }
}

/// A network can be loaded from the files that hold all of its tensors, each with four bytes for
/// each element, and from no others.
pub proof fn lemma_network_loads<S: Scalar>(held: Contents)
    ensures
        Gpt2::<S>::fault(held) is None <==> {
            &&& fault(held, "wte.weight"@) is None
            &&& fault(held, "wpe.weight"@) is None
            &&& fault(held, "ln_f.weight"@) is None
            &&& fault(held, "ln_f.bias"@) is None
            &&& forall|i: int| 0 <= i < LAYERS ==> #[trigger] layer_complete(held, i as usize)
        },
{
    lemma_layers_load::<S>(held, LAYERS as nat);
}

} // verus!
