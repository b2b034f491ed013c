//! What a network is that was loaded from a file.
use crate::model::gpt2::Gpt2;
use crate::model::layer::Gpt2Layer;
use crate::model::stack::Gpt2Model;
use crate::scalar::Scalar;
use crate::tensor::Array;
use crate::weights::{decimal, decoded_array, fault, sized, Contents, Fault};
use crate::wire::{lemma_memory_read_back, memory};
use vstd::prelude::*;

verus! {

/// Number `i` of a tensor of a file is what its four bytes hold.
pub proof fn lemma_loaded_element<S: Scalar>(dims: Seq<usize>, bytes: Seq<u8>, i: int)
    requires
        bytes.len() == 4 * crate::shape::count(dims),
        0 <= 4 * i < bytes.len(),
    ensures
        sized((dims, bytes)),
        decoded_array::<S>((dims, bytes)).dims == dims,
        4 * decoded_array::<S>((dims, bytes)).elems.len() == bytes.len(),
        decoded_array::<S>((dims, bytes)).elems[i] == S::decoded(
            [bytes[4 * i], bytes[4 * i + 1], bytes[4 * i + 2], bytes[4 * i + 3]],
        ),
{
}

/// A tensor written to a file as it stands in memory is read back.
pub proof fn lemma_written_tensor_is_read_back<S: Scalar>(x: Array<S>)
    requires
        x.wf(),
    ensures
        sized((x.dims, memory(x.elems))),
        decoded_array::<S>((x.dims, memory(x.elems))) == x,
{
    lemma_memory_read_back(x.elems);
}

/// The digits of a number are digits, none too many, and stand for the number.
pub proof fn lemma_decimal_read_back(n: nat)
    ensures
        decimal(n).len() > 0,
        forall|i: int| 0 <= i < decimal(n).len() ==> '0' <= #[trigger] decimal(n)[i] <= '9',
        decimal(n)[0] == '0' ==> n == 0,
        n < 10 ==> decimal(n).len() == 1,
        decimal(n).fold_left(0int, |value: int, c: char| 10 * value + (c as int - '0' as int)) == n,
    decreases n,
{
    let step = |value: int, c: char| 10 * value + (c as int - '0' as int);
    if n < 10 {
        let one = seq![(48 + n) as char];
        assert(decimal(n) == one);
        assert(one.drop_last() =~= Seq::empty());
        assert(one.drop_last().fold_left(0int, step) == 0);
    } else {
        lemma_decimal_read_back(n / 10);
        let rest = decimal(n / 10);
        assert(decimal(n).drop_last() =~= rest);
        assert(decimal(n)[0] == rest[0]);
        assert(decimal(n).last() == (48 + n % 10) as char);
        assert forall|i: int| 0 <= i < decimal(n).len() implies '0' <= #[trigger] decimal(n)[i]
            <= '9' by {
            if i < rest.len() {
                assert(decimal(n)[i] == rest[i]);
            }
        }
    }
}

/// The tensors of layer `i` of a loaded network are those of the file under the layer's names, and
/// its normalisations have an epsilon that is one in a hundred thousand.
pub proof fn lemma_loaded_layer<S: Scalar>(
    gpt2: Gpt2<S>,
    held: Contents,
    num_heads: usize,
    i: int,
)
    requires
        gpt2.held(held, num_heads),
        0 <= i < 12,
    ensures
        gpt2.h.layers@.len() == 12,
        ({
            let layer = gpt2.h.layers@[i];
            let file = |part: Seq<char>| decoded_array::<S>(
                held["h."@ + decimal(i as nat) + part],
            );
            let epsilon = S::counted(1).over(S::counted(100000));
            &&& layer.ln_1.weight@ == file(".ln_1.weight"@)
            &&& layer.ln_1.bias@ == file(".ln_1.bias"@)
            &&& layer.ln_1.epsilon == epsilon
            &&& layer.ln_2.weight@ == file(".ln_2.weight"@)
            &&& layer.ln_2.bias@ == file(".ln_2.bias"@)
            &&& layer.ln_2.epsilon == epsilon
            &&& layer.mlp.c_fc.weight@ == file(".mlp.c_fc.weight"@)
            &&& layer.mlp.c_fc.bias@ == file(".mlp.c_fc.bias"@)
            &&& layer.mlp.c_proj.weight@ == file(".mlp.c_proj.weight"@)
            &&& layer.mlp.c_proj.bias@ == file(".mlp.c_proj.bias"@)
            &&& layer.attention.c_attn.weight@ == file(".attn.c_attn.weight"@)
            &&& layer.attention.c_attn.bias@ == file(".attn.c_attn.bias"@)
            &&& layer.attention.c_proj.weight@ == file(".attn.c_proj.weight"@)
            &&& layer.attention.c_proj.bias@ == file(".attn.c_proj.bias"@)
            &&& layer.attention.num_heads == num_heads
        }),
{
    let layer = gpt2.h.layers@[i];
    assert(layer.held(held, i as usize, num_heads));
}

/// The other tensors of a loaded network. The projection to the vocabulary is the token embedding.
pub proof fn lemma_loaded_network<S: Scalar>(gpt2: Gpt2<S>, held: Contents, num_heads: usize)
    requires
        gpt2.held(held, num_heads),
    ensures
        gpt2.wte.weight@ == decoded_array::<S>(held["wte.weight"@]),
        gpt2.wpe.weight@ == decoded_array::<S>(held["wpe.weight"@]),
        gpt2.ln_f.weight@ == decoded_array::<S>(held["ln_f.weight"@]),
        gpt2.ln_f.bias@ == decoded_array::<S>(held["ln_f.bias"@]),
        gpt2.ln_f.epsilon == S::counted(1).over(S::counted(100000)),
        gpt2.lm_head.weight@ == gpt2.wte.weight@,
        gpt2.num_heads == num_heads,
{
}

/// Whether a file gives reason for a fault: the missing tensor is missing, or some tensor has not four
/// bytes for each element.
pub open spec fn justified(held: Contents, reason: Option<Fault>) -> bool {
    match reason {
        None => true,
        Some(Fault::Missing(name)) => !held.contains_key(name),
        Some(Fault::Size) => exists|name: Seq<char>| #[trigger]
            held.contains_key(name) && held[name].1.len() != 4 * crate::shape::count(held[name].0),
    }
}

proof fn lemma_layers_fault_is_justified<S: Scalar>(held: Contents, n: nat)
    ensures
        justified(held, Gpt2Model::<S>::fault(held, n)),
    decreases n,
{
    if n > 0 {
        lemma_layers_fault_is_justified::<S>(held, (n - 1) as nat);
        let reason = Gpt2Layer::<S>::fault(held, (n - 1) as usize);
        assert(justified(held, reason));
    }
}

/// What keeps a network from being loaded is a fault of the file.
pub proof fn lemma_fault_is_justified<S: Scalar>(held: Contents)
    ensures
        justified(held, Gpt2::<S>::fault(held)),
{
    lemma_layers_fault_is_justified::<S>(held, 12);
}

/// A tensor can be loaded where the file has one of its name, with four bytes for each element.
pub proof fn lemma_tensor_loads(held: Contents, name: Seq<char>)
    ensures
        fault(held, name) is None <==> held.contains_key(name) && held[name].1.len() == 4
            * crate::shape::count(held[name].0),
        !held.contains_key(name) ==> fault(held, name) == Some(Fault::Missing(name)),
        held.contains_key(name) && fault(held, name) is Some ==> fault(held, name) == Some(
            Fault::Size,
        ),
{
}

/// The tensors of a layer, in the order in which they are looked for.
pub open spec fn layer_tensors() -> Seq<Seq<char>> {
    seq![
        ".ln_1.weight"@,
        ".ln_1.bias"@,
        ".ln_2.weight"@,
        ".ln_2.bias"@,
        ".mlp.c_fc.weight"@,
        ".mlp.c_fc.bias"@,
        ".mlp.c_proj.weight"@,
        ".mlp.c_proj.bias"@,
        ".attn.c_attn.weight"@,
        ".attn.c_attn.bias"@,
        ".attn.c_proj.weight"@,
        ".attn.c_proj.bias"@,
    ]
}

/// The first fault met is reported: of a layer whose tensors before number `k` can be loaded, and
/// whose tensor number `k` is missing, that this one is missing.
pub proof fn lemma_first_missing_of_layer<S: Scalar>(held: Contents, index: usize, k: int)
    requires
        0 <= k < 12,
        forall|q: int|
            0 <= q < k ==> fault(
                held,
                "h."@ + decimal(index as nat) + #[trigger] layer_tensors()[q],
            ) is None,
        !held.contains_key("h."@ + decimal(index as nat) + layer_tensors()[k]),
    ensures
        Gpt2Layer::<S>::fault(held, index) == Some(
            Fault::Missing("h."@ + decimal(index as nat) + layer_tensors()[k]),
        ),
{
    let t = layer_tensors();
    assert(t[0] == ".ln_1.weight"@);
    assert(t[1] == ".ln_1.bias"@);
    assert(t[2] == ".ln_2.weight"@);
    assert(t[3] == ".ln_2.bias"@);
    assert(t[4] == ".mlp.c_fc.weight"@);
    assert(t[5] == ".mlp.c_fc.bias"@);
    assert(t[6] == ".mlp.c_proj.weight"@);
    assert(t[7] == ".mlp.c_proj.bias"@);
    assert(t[8] == ".attn.c_attn.weight"@);
    assert(t[9] == ".attn.c_attn.bias"@);
    assert(t[10] == ".attn.c_proj.weight"@);
    assert(t[11] == ".attn.c_proj.bias"@);
}

proof fn lemma_first_layer_fault<S: Scalar>(held: Contents, index: usize, n: nat)
    requires
        index < n <= 12,
        forall|i: int| 0 <= i < index ==> Gpt2Layer::<S>::fault(held, #[trigger] (i as usize)) is None,
        Gpt2Layer::<S>::fault(held, index) is Some,
    ensures
        Gpt2Model::<S>::fault(held, index as nat) is None,
        Gpt2Model::<S>::fault(held, n) == Gpt2Layer::<S>::fault(held, index),
    decreases n,
{
    if n > index + 1 {
        lemma_first_layer_fault::<S>(held, index, (n - 1) as nat);
    } else {
        lemma_no_layer_fault::<S>(held, index as nat);
    }
}

proof fn lemma_no_layer_fault<S: Scalar>(held: Contents, n: nat)
    requires
        n <= 12,
        forall|i: int| 0 <= i < n ==> Gpt2Layer::<S>::fault(held, #[trigger] (i as usize)) is None,
    ensures
        Gpt2Model::<S>::fault(held, n) is None,
    decreases n,
{
    if n > 0 {
        lemma_no_layer_fault::<S>(held, (n - 1) as nat);
        assert(Gpt2Layer::<S>::fault(held, ((n - 1) as int) as usize) is None);
    }
}

/// A network's tensors are looked for in this order: the two embeddings, the layers from the first to
/// the twelfth, and the last normalisation. The first fault met is reported.
pub proof fn lemma_first_fault_of_network<S: Scalar>(held: Contents, index: usize)
    requires
        index <= 12,
        forall|i: int| 0 <= i < index ==> Gpt2Layer::<S>::fault(held, #[trigger] (i as usize)) is None,
    ensures
        fault(held, "wte.weight"@) is Some ==> Gpt2::<S>::fault(held) == fault(held, "wte.weight"@),
        fault(held, "wte.weight"@) is None && fault(held, "wpe.weight"@) is Some ==> Gpt2::<S>::fault(
            held,
        ) == fault(held, "wpe.weight"@),
        fault(held, "wte.weight"@) is None && fault(held, "wpe.weight"@) is None ==> {
            &&& index < 12 && Gpt2Layer::<S>::fault(held, index) is Some ==> Gpt2::<S>::fault(held)
                == Gpt2Layer::<S>::fault(held, index)
            &&& index == 12 ==> {
                &&& !held.contains_key("ln_f.weight"@) ==> Gpt2::<S>::fault(held) == Some(
                    Fault::Missing("ln_f.weight"@),
                )
                &&& held.contains_key("ln_f.weight"@) && !held.contains_key("ln_f.bias"@)
                    ==> Gpt2::<S>::fault(held) == Some(Fault::Missing("ln_f.bias"@))
            }
        },
{
    if index < 12 {
        if Gpt2Layer::<S>::fault(held, index) is Some {
            lemma_first_layer_fault::<S>(held, index, 12);
        }
    } else {
        lemma_no_layer_fault::<S>(held, 12);
    }
}

} // verus!
