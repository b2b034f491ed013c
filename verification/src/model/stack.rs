//! The layers of the network, one after the other.
use crate::model::layer::Gpt2Layer;
use crate::model::mlp::{wide, Refusal, SpecialError};
use crate::ops::elementwise::combine_fits;
use crate::scalar::Scalar;
use crate::tensor::{is_whole, Array, Cache, OwnedTensor, PastKeyValue, PastKeyValues, Tensor};
use crate::weights::{contents, sooner, Contents, Fault, LoadError};
use crate::wire::{hex_text, memory};
use vstd::prelude::*;
use vstd::slice::slice_to_vec;

verus! {

/// How many layers a file holds.
pub const LAYERS: usize = 12;

/// The layers.
#[derive(Clone)]
pub struct Gpt2Model<'a, S: Scalar> {
    pub layers: Vec<Gpt2Layer<'a, S>>,
}

/// A pass that waits for the remote peer.
pub struct Pending<S> {
    /// What the first layer's feed-forward part is given; without layers, the tensor itself.
    pub tensor: OwnedTensor<S>,
    /// What is added to that part's result.
    pub residual: Option<OwnedTensor<S>>,
    /// What the peer is to be sent, if it is to be asked.
    pub request: Option<String>,
}

/// What a `Pending` is.
#[verifier::ext_equal]
pub struct Waiting<S> {
    pub tensor: Array<S>,
    pub residual: Option<Array<S>>,
    pub request: Option<Seq<char>>,
}

impl<S: Scalar> View for Pending<S> {
    type V = Waiting<S>;

    open spec fn view(&self) -> Waiting<S> {
        Waiting {
            tensor: self.tensor@,
            residual: match self.residual {
                Some(residual) => Some(residual@),
                None => None,
            },
            request: match self.request {
                Some(text) => Some(text@),
                None => None,
            },
        }
    }
}

/// What the layers have seen.
pub open spec fn caches<S: Scalar>(past: Seq<PastKeyValue<S>>) -> Seq<Cache<S>> {
    past.map_values(|p: PastKeyValue<S>| p@)
}

/// Whether every cache has the elements that its dimensions describe.
pub open spec fn caches_wf<S>(past: Seq<Cache<S>>) -> bool {
    forall|i: int| 0 <= i < past.len() ==> (#[trigger] past[i]).wf()
}

/// Whether every cache has the elements that its shapes describe.
pub fn caches_whole<S: Scalar>(past: &[PastKeyValue<S>]) -> (r: bool)
    ensures
        r == caches_wf(caches(past@)),
{
    let ghost held = caches(past@);
    let mut i: usize = 0;
    while i < past.len()
        invariant
            i <= past@.len(),
            held == caches(past@),
            forall|j: int| 0 <= j < i ==> (#[trigger] held[j]).wf(),
        decreases past@.len() - i,
    {
        assert(held[i as int] == past@[i as int]@);
        if !is_whole(&past[i].key) || !is_whole(&past[i].value) {
            assert(!held[i as int].wf());
            return false;
        }
        i += 1;
    }
    true
}

/// What a tensor of dimensions `x` has for dimensions after layers `from` to `to`.
pub open spec fn passed_dims<S: Scalar>(
    layers: Seq<Gpt2Layer<S>>,
    x: Seq<usize>,
    from: int,
    to: int,
) -> Seq<usize>
    decreases to - from,
{
    if to <= from {
        x
    } else {
        layers[to - 1].result_dims(passed_dims(layers, x, from, to - 1))
    }
}

/// What `x` becomes in layers `from` to `to`, each after its own past.
pub open spec fn passed<S: Scalar>(
    layers: Seq<Gpt2Layer<S>>,
    past: Seq<Cache<S>>,
    x: Array<S>,
    from: int,
    to: int,
) -> Array<S>
    decreases to - from,
{
    if to <= from {
        x
    } else {
        layers[to - 1].result(passed(layers, past, x, from, to - 1), past[to - 1])
    }
}

/// What the past becomes when `x` goes through layers `from` to `to`.
pub open spec fn advanced<S: Scalar>(
    layers: Seq<Gpt2Layer<S>>,
    past: Seq<Cache<S>>,
    x: Array<S>,
    from: int,
    to: int,
) -> Seq<Cache<S>> {
    Seq::new(
        past.len(),
        |i: int|
            if from <= i < to {
                layers[i].next(passed(layers, past, x, from, i), past[i])
            } else {
                past[i]
            },
    )
}

/// Whether layer `i` can be applied to what a tensor of dimensions `x` becomes in layers `from` to
/// `i`.
pub open spec fn passable_at<S: Scalar>(
    layers: Seq<Gpt2Layer<S>>,
    past: Seq<Cache<S>>,
    x: Seq<usize>,
    from: int,
    i: int,
) -> bool {
    layers[i].fits(passed_dims(layers, x, from, i), past[i].key.dims, past[i].value.dims)
}

/// Whether layers `from` to `to` can be applied to a tensor of dimensions `x`.
pub open spec fn passable<S: Scalar>(
    layers: Seq<Gpt2Layer<S>>,
    past: Seq<Cache<S>>,
    x: Seq<usize>,
    from: int,
    to: int,
) -> bool {
    forall|i: int| from <= i < to ==> #[trigger] passable_at(layers, past, x, from, i)
}

impl<'a, S: Scalar> Gpt2Model<'a, S> {
    pub open spec fn wf(self) -> bool {
        forall|i: int| 0 <= i < self.layers@.len() ==> (#[trigger] self.layers@[i]).wf()
    }

    /// Why the first `n` layers cannot be loaded from a file, if they cannot.
    pub open spec fn fault(held: Contents, n: nat) -> Option<Fault>
        decreases n,
    {
        if n == 0 {
            None
        } else {
            sooner(
                Self::fault(held, (n - 1) as nat),
                Gpt2Layer::<S>::fault(held, (n - 1) as usize),
            )
        }
    }

    /// Whether these are the layers of a file, with attention in `num_heads` heads.
    pub open spec fn held(self, held: Contents, num_heads: usize) -> bool {
        &&& self.layers@.len() == LAYERS
        &&& forall|i: int|
            0 <= i < LAYERS ==> (#[trigger] self.layers@[i]).held(held, i as usize, num_heads)
    }

    /// Loads the layers of `tensors`.
    pub fn from_tensors(tensors: &'a safetensors::SafeTensors<'a>, num_heads: usize) -> (r: Result<
        Self,
        LoadError,
    >)
        ensures
            match r {
                Ok(model) => {
                    &&& Self::fault(contents(*tensors), LAYERS as nat) is None
                    &&& model.held(contents(*tensors), num_heads)
                    &&& model.wf()
                },
                Err(e) => Self::fault(contents(*tensors), LAYERS as nat) == Some(e@),
            },
    {
        let ghost held = contents(*tensors);
        let mut layers: Vec<Gpt2Layer<'a, S>> = Vec::new();
        let mut i: usize = 0;
        while i < LAYERS
            invariant
                i <= LAYERS,
                held == contents(*tensors),
                layers@.len() == i,
                Self::fault(held, i as nat) is None,
                forall|j: int|
                    0 <= j < i ==> (#[trigger] layers@[j]).held(held, j as usize, num_heads)
                        && layers@[j].wf(),
            decreases LAYERS - i,
        {
            let layer = match Gpt2Layer::from_tensors(i, tensors, num_heads) {
                Ok(layer) => layer,
                Err(e) => {
                    proof {
                        lemma_fault_stays::<S>(held, (i + 1) as nat, LAYERS as nat);
                    }
                    return Err(e);
                },
            };
            layers.push(layer);
            i += 1;
        }
        Ok(Gpt2Model { layers })
    }

    /// How many layers a tensor goes through: each needs a past.
    pub open spec fn steps(self, past: nat) -> int {
        if self.layers@.len() <= past {
            self.layers@.len() as int
        } else {
            past as int
        }
    }

    /// Whether the layers can be applied to a tensor of dimensions `x`.
    pub open spec fn fits(self, x: Seq<usize>, past: Seq<Cache<S>>) -> bool {
        let n = self.steps(past.len());
        n > 0 ==> {
            &&& self.layers@[0].special_fits(x, past[0].key.dims, past[0].value.dims)
            &&& passable(self.layers@, past, self.layers@[0].result_dims(x), 1, n)
        }
    }

    /// The dimensions of the result.
    pub open spec fn result_dims(self, x: Seq<usize>, past: nat) -> Seq<usize> {
        let n = self.steps(past);
        if n == 0 {
            x
        } else {
            passed_dims(self.layers@, self.layers@[0].result_dims(x), 1, n)
        }
    }

    /// Where a pass of `x` waits for the remote peer.
    pub open spec fn started(self, x: Array<S>, past: Seq<Cache<S>>) -> Waiting<S> {
        let layer = self.layers@[0];
        if self.steps(past.len()) == 0 {
            Waiting { tensor: x, residual: None, request: None }
        } else {
            Waiting {
                tensor: layer.mlp_input(x, past[0]),
                residual: Some(layer.middle(x, past[0])),
                request: if wide(layer.middle_dims(x.dims)) {
                    Some(hex_text(memory(layer.mlp_input(x, past[0]).elems)))
                } else {
                    None
                },
            }
        }
    }

    /// What the past is while a pass of `x` waits.
    pub open spec fn started_next(self, x: Array<S>, past: Seq<Cache<S>>) -> Seq<Cache<S>> {
        if self.steps(past.len()) == 0 {
            past
        } else {
            past.update(0, self.layers@[0].next(x, past[0]))
        }
    }

    /// Whether a pass can go on from where it waits.
    pub open spec fn resumable(self, waiting: Waiting<S>, past: Seq<Cache<S>>) -> bool {
        let n = self.steps(past.len());
        let mlp = self.layers@[0].mlp;
        let x = waiting.tensor.dims;
        &&& waiting.tensor.wf()
        &&& waiting.residual is Some <==> n > 0
        &&& waiting.residual matches Some(residual) ==> {
            &&& residual.wf()
            &&& mlp.special_fits(x)
            &&& combine_fits(residual.dims, mlp.result_dims(x))
            &&& passable(self.layers@, past, mlp.result_dims(x), 1, n)
        }
    }

    /// The dimensions of what becomes of a pass that waits.
    pub open spec fn resumed_dims(self, waiting: Waiting<S>, past: nat) -> Seq<usize> {
        if waiting.residual is Some {
            passed_dims(
                self.layers@,
                self.layers@[0].mlp.result_dims(waiting.tensor.dims),
                1,
                self.steps(past),
            )
        } else {
            waiting.tensor.dims
        }
    }

    /// What becomes of a pass that waits, when the remote peer replied `reply`.
    pub open spec fn resumed(self, waiting: Waiting<S>, past: Seq<Cache<S>>, reply: Seq<u8>) -> Result<
        Array<S>,
        Refusal<S>,
    > {
        match waiting.residual {
            None => Ok(waiting.tensor),
            Some(residual) => match self.layers@[0].special_outcome(
                waiting.tensor,
                residual,
                reply,
            ) {
                Ok(y) => Ok(passed(self.layers@, past, y, 1, self.steps(past.len()))),
                Err(e) => Err(e),
            },
        }
    }

    /// What the past becomes when a pass goes on. A refused reply leaves it as it is.
    pub open spec fn resumed_next(
        self,
        waiting: Waiting<S>,
        past: Seq<Cache<S>>,
        reply: Seq<u8>,
    ) -> Seq<Cache<S>> {
        match waiting.residual {
            None => past,
            Some(residual) => match self.layers@[0].special_outcome(
                waiting.tensor,
                residual,
                reply,
            ) {
                Ok(y) => advanced(self.layers@, past, y, 1, self.steps(past.len())),
                Err(e) => past,
            },
        }
    }

    /// Whether every tensor has the elements that its shape describes.
    pub fn is_whole(&self) -> (r: bool)
        ensures
            r == self.wf(),
    {
        let mut i: usize = 0;
        while i < self.layers.len()
            invariant
                i <= self.layers@.len(),
                forall|j: int| 0 <= j < i ==> (#[trigger] self.layers@[j]).wf(),
            decreases self.layers@.len() - i,
        {
            if !self.layers[i].is_whole() {
                return false;
            }
            i += 1;
        }
        true
    }

    /// Whether layer `i` can be applied to a tensor of shape `x`. Where it can, the shape of the
    /// result.
    fn accepts_layer(&self, i: usize, x: &[usize], past: &[PastKeyValue<S>]) -> (r: Option<
        Vec<usize>,
    >)
        requires
            self.wf(),
            i < self.layers@.len(),
            i < past@.len(),
        ensures
            r is Some <==> self.layers@[i as int].fits(
                x@,
                caches(past@)[i as int].key.dims,
                caches(past@)[i as int].value.dims,
            ),
            r matches Some(shape) ==> shape@ == self.layers@[i as int].result_dims(x@),
    {
        assert(caches(past@)[i as int] == past@[i as int]@);
        if self.layers[i].accepts(x, past[i].key.shape(), past[i].value.shape()) {
            Some(self.layers[i].result_shape(x))
        } else {
            None
        }
    }

    /// Whether `forward_start` can be applied to a tensor of shape `x` with the given past. Where
    /// it can, the shape of the result.
    pub fn accepts(&self, x: &[usize], past: &[PastKeyValue<S>]) -> (r: Option<Vec<usize>>)
        ensures
            r is Some <==> self.wf() && self.fits(x@, caches(past@)),
            r matches Some(shape) ==> shape@ == self.result_dims(x@, past@.len()),
    {
        if !self.is_whole() {
            return None;
        }
        let ghost held = caches(past@);
        let n: usize = if self.layers.len() <= past.len() {
            self.layers.len()
        } else {
            past.len()
        };
        if n == 0 {
            return Some(slice_to_vec(x));
        }
        assert(held[0] == past@[0]@);
        if !self.layers[0].special_accepts(x, past[0].key.shape(), past[0].value.shape()) {
            return None;
        }
        let first = self.layers[0].result_shape(x);
        self.accepts_rest(first.as_slice(), past, n)
    }

    /// Whether layers `1` to `n` can be applied to a tensor of shape `first`. Where they can, the
    /// shape of the result.
    fn accepts_rest(&self, first: &[usize], past: &[PastKeyValue<S>], n: usize) -> (r: Option<
        Vec<usize>,
    >)
        requires
            self.wf(),
            1 <= n <= self.layers@.len(),
            n <= past@.len(),
        ensures
            r is Some <==> passable(self.layers@, caches(past@), first@, 1, n as int),
            r matches Some(shape) ==> shape@ == passed_dims(self.layers@, first@, 1, n as int),
    {
        let mut shape = slice_to_vec(first);
        let mut i: usize = 1;
        while i < n
            invariant
                self.wf(),
                1 <= i <= n <= self.layers@.len(),
                n <= past@.len(),
                shape@ == passed_dims(self.layers@, first@, 1, i as int),
                passable(self.layers@, caches(past@), first@, 1, i as int),
            decreases n - i,
        {
            shape = match self.accepts_layer(i, shape.as_slice(), past) {
                Some(shape) => shape,
                None => {
                    assert(!passable_at(self.layers@, caches(past@), first@, 1, i as int));
                    return None;
                },
            };
            i += 1;
        }
        Some(shape)
    }

    /// Takes `tensor` to where the remote peer may have to be asked.
    pub fn forward_start(
        &self,
        tensor: OwnedTensor<S>,
        past_key_values: &mut PastKeyValues<S>,
    ) -> (r: Pending<S>)
        requires
            self.wf(),
            tensor@.wf(),
            caches_wf(caches(old(past_key_values)@)),
            self.fits(tensor@.dims, caches(old(past_key_values)@)),
        ensures
            r@ == self.started(tensor@, caches(old(past_key_values)@)),
            caches(final(past_key_values)@) == self.started_next(
                tensor@,
                caches(old(past_key_values)@),
            ),
            caches_wf(caches(final(past_key_values)@)),
            self.resumable(r@, caches(final(past_key_values)@)),
            self.resumed_dims(r@, final(past_key_values)@.len()) == self.result_dims(
                tensor@.dims,
                old(past_key_values)@.len(),
            ),
    {
        let ghost before = caches(past_key_values@);
        let mut tensor = tensor;
        if self.layers.len() == 0 || past_key_values.len() == 0 {
            return Pending { tensor, residual: None, request: None };
        }
        let layer = &self.layers[0];
        assert(before[0] == past_key_values@[0]@);
        assert(before[0].wf());
        let residual = layer.special_start(&mut tensor, &mut past_key_values[0]);
        assert forall|j: int| 0 <= j < past_key_values@.len() implies (#[trigger] caches(
            past_key_values@,
        )[j]).wf() by {
            if j != 0 {
                assert(before[j].wf());
            }
        }
        proof {
            let n = self.steps(before.len());
            let x = layer.mlp.result_dims(tensor@.dims);
            let now = caches(past_key_values@);
            assert forall|i: int| 1 <= i < n implies #[trigger] passable_at(
                self.layers@,
                now,
                x,
                1,
                i,
            ) by {
                assert(passable_at(self.layers@, before, x, 1, i));
                assert(now[i] == before[i]);
            }
        }
        let request = layer.mlp.special_request(&tensor);
        Pending { tensor, residual: Some(residual), request }
    }

    /// Applies layer `i`.
    fn forward_layer(
        &self,
        i: usize,
        tensor: &mut OwnedTensor<S>,
        past_key_values: &mut PastKeyValues<S>,
    )
        requires
            self.wf(),
            i < self.layers@.len(),
            i < old(past_key_values)@.len(),
            old(tensor)@.wf(),
            caches_wf(caches(old(past_key_values)@)),
            self.layers@[i as int].fits(
                old(tensor)@.dims,
                caches(old(past_key_values)@)[i as int].key.dims,
                caches(old(past_key_values)@)[i as int].value.dims,
            ),
        ensures
            final(tensor)@ == self.layers@[i as int].result(
                old(tensor)@,
                caches(old(past_key_values)@)[i as int],
            ),
            final(tensor)@.dims == self.layers@[i as int].result_dims(old(tensor)@.dims),
            final(tensor)@.wf(),
            caches(final(past_key_values)@) == caches(old(past_key_values)@).update(
                i as int,
                self.layers@[i as int].next(
                    old(tensor)@,
                    caches(old(past_key_values)@)[i as int],
                ),
            ),
            caches_wf(caches(final(past_key_values)@)),
    {
        let ghost before = caches(past_key_values@);
        assert(before[i as int].wf());
        self.layers[i].forward(tensor, &mut past_key_values[i]);
        assert forall|j: int| 0 <= j < past_key_values@.len() implies (#[trigger] caches(
            past_key_values@,
        )[j]).wf() by {
            if j != i {
                assert(before[j].wf());
            }
        }
    }

    /// Takes a pass on from where it waited, with the remote peer's reply to what it was sent.
    pub fn forward_finish(
        &self,
        pending: Pending<S>,
        reply: &[u8],
        past_key_values: &mut PastKeyValues<S>,
    ) -> (r: Result<OwnedTensor<S>, SpecialError<S>>)
        requires
            self.wf(),
            caches_wf(caches(old(past_key_values)@)),
            self.resumable(pending@, caches(old(past_key_values)@)),
        ensures
            match r {
                Ok(tensor) => {
                    &&& self.resumed(pending@, caches(old(past_key_values)@), reply@) == Ok::<
                        Array<S>,
                        Refusal<S>,
                    >(tensor@)
                    &&& tensor@.dims == self.resumed_dims(pending@, old(past_key_values)@.len())
                    &&& tensor@.wf()
                },
                Err(e) => self.resumed(pending@, caches(old(past_key_values)@), reply@) == Err::<
                    Array<S>,
                    Refusal<S>,
                >(e@),
            },
            caches(final(past_key_values)@) == self.resumed_next(
                pending@,
                caches(old(past_key_values)@),
                reply@,
            ),
            caches_wf(caches(final(past_key_values)@)),
    {
        let ghost before = caches(past_key_values@);
        let mut tensor = pending.tensor;
        let residual = match pending.residual {
            Some(residual) => residual,
            None => {
                return Ok(tensor);
            },
        };
        match self.layers[0].special_finish(&mut tensor, &residual, reply) {
            Ok(()) => {},
            Err(e) => {
                return Err(e);
            },
        }
        let n: usize = if self.layers.len() <= past_key_values.len() {
            self.layers.len()
        } else {
            past_key_values.len()
        };
        let ghost first = tensor@;
        let mut i: usize = 1;
        assert(caches(past_key_values@) =~= advanced(self.layers@, before, first, 1, 1));
        while i < n
            invariant
                self.wf(),
                1 <= i <= n,
                n == self.steps(before.len()),
                caches_wf(before),
                past_key_values@.len() == before.len(),
                passable(self.layers@, before, first.dims, 1, n as int),
                tensor@ == passed(self.layers@, before, first, 1, i as int),
                tensor@.dims == passed_dims(self.layers@, first.dims, 1, i as int),
                tensor@.wf(),
                caches(past_key_values@) == advanced(self.layers@, before, first, 1, i as int),
                caches_wf(caches(past_key_values@)),
            decreases n - i,
        {
            assert(passable_at(self.layers@, before, first.dims, 1, i as int));
            self.forward_layer(i, &mut tensor, past_key_values);
            assert(caches(past_key_values@) =~= advanced(
                self.layers@,
                before,
                first,
                1,
                i + 1,
            ));
            i += 1;
        }
        Ok(tensor)
    }
}

/// A fault among the first layers is a fault of all.
proof fn lemma_fault_stays<S: Scalar>(held: Contents, i: nat, n: nat)
    requires
        i <= n,
        Gpt2Model::<S>::fault(held, i) is Some,
    ensures
        Gpt2Model::<S>::fault(held, n) == Gpt2Model::<S>::fault(held, i),
    decreases n - i,
{
    if i < n {
        lemma_fault_stays::<S>(held, i, (n - 1) as nat);
    }
}

} // verus!
