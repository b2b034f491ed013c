//! The remote peer: when it is asked, what it is sent, and what is taken from it.
use crate::model::linear::lemma_linear_result_wf;
use crate::model::mlp::{lemma_wide, wide, Mlp, Refusal};
use crate::model::stack::Gpt2Model;
use crate::ops::activation::gated;
use crate::scalar::Scalar;
use crate::tensor::{Array, Cache};
use crate::wire::{hex_bytes, hex_text, is_digit, memory, numbers, reply_numbers, ReplyError};
use vstd::prelude::*;

verus! {

/// The peer is asked about single rows of 768 numbers and about nothing else. Where it answers about
/// the result of the feed-forward part, it has been asked about its input.
pub proof fn lemma_peer_is_asked<S: Scalar>(mlp: Mlp<S>, x: Seq<usize>)
    requires
        x.len() == 2,
    ensures
        wide(x) <==> x == seq![1usize, 768usize],
        mlp.special_fits(x) <==> mlp.fits(x) && (x[0] == 1 && mlp.c_proj.weight@.dims[1] == 768
            ==> x[1] == 768),
{
    if wide(x) {
        assert(x =~= seq![1usize, 768usize]);
    }
}

/// What decides beside the peer. An answer that cannot be read is refused. Where the result is not a
/// single row of 768 numbers, it stands as computed here. Where it is, the peer's numbers are taken
/// if none of them compares unequal to the one computed here; otherwise the answer is refused, with
/// all pairs that do, in order.
pub proof fn lemma_peer_decides<S: Scalar>(mlp: Mlp<S>, x: Array<S>, reply: Seq<u8>)
    requires
        x.dims.len() == 2,
    ensures
        ({
            let local = mlp.result(x);
            let asked = x.dims[0] == 1 && x.dims[1] == 768;
            let compared = x.dims[0] == 1 && mlp.c_proj.weight@.dims[1] == 768;
            let outcome = mlp.special_outcome(x, reply);
            match reply_numbers::<S>(reply) {
                Err(e) => {
                    &&& asked ==> outcome == Err::<Array<S>, Refusal<S>>(Refusal::Reply(e))
                    &&& !asked && !compared ==> outcome == Ok::<Array<S>, Refusal<S>>(local)
                },
                Ok(remote) => {
                    let pairs = Seq::new(768, |i: int| (local.elems[i], remote[i])).filter(
                        |p: (S, S)| !p.0.equals(p.1),
                    );
                    &&& !compared ==> outcome == Ok::<Array<S>, Refusal<S>>(local)
                    &&& asked && compared && pairs.len() == 0 ==> outcome == Ok::<
                        Array<S>,
                        Refusal<S>,
                    >(Array { dims: local.dims, elems: remote })
                    &&& asked && compared && pairs.len() > 0 ==> outcome == Err::<
                        Array<S>,
                        Refusal<S>,
                    >(Refusal::Mismatch(pairs))
                },
            }
        }),
{
    let local = mlp.result(x);
    lemma_linear_result_wf(mlp.c_fc, x);
    lemma_linear_result_wf(mlp.c_proj, gated(mlp.c_fc.result(x)));
    if x.dims[0] == 1 && mlp.c_proj.weight@.dims[1] == 768 {
        lemma_wide(local);
        if let Ok(remote) = reply_numbers::<S>(reply) {
            assert(local.elems.zip_with(remote) =~= Seq::new(
                768,
                |i: int| (local.elems[i], remote[i]),
            ));
        }
    }
}

/// An answer is taken exactly where every number of it compares equal to the one computed here.
pub proof fn lemma_equal_answer_is_taken<S: Scalar>(
    mlp: Mlp<S>,
    x: Array<S>,
    reply: Seq<u8>,
    remote: Seq<S>,
)
    requires
        x.dims == seq![1usize, 768usize],
        mlp.c_proj.weight@.dims[1] == 768,
        reply_numbers::<S>(reply) == Ok::<Seq<S>, ReplyError>(remote),
    ensures
        mlp.special_outcome(x, reply) is Ok <==> forall|i: int|
            0 <= i < 768 ==> (#[trigger] mlp.result(x).elems[i]).equals(remote[i]),
        mlp.special_outcome(x, reply) is Ok ==> mlp.special_outcome(x, reply)->Ok_0.elems == remote,
{
    let local = mlp.result(x);
    lemma_peer_decides(mlp, x, reply);
    let all = Seq::new(768, |i: int| (local.elems[i], remote[i]));
    let differs = |p: (S, S)| !p.0.equals(p.1);
    let pairs = all.filter(differs);
    if pairs.len() == 0 {
        assert forall|i: int| 0 <= i < 768 implies (#[trigger] local.elems[i]).equals(remote[i]) by {
            if !local.elems[i].equals(remote[i]) {
                assert(differs(all[i]));
                all.lemma_filter_contains(differs, i);
            }
        }
    } else {
        all.lemma_filter_pred(differs, 0);
        all.lemma_filter_contains_rev(differs, pairs[0]);
        let i = choose|i: int| 0 <= i < all.len() && all[i] == pairs[0];
        assert(!local.elems[i].equals(remote[i]));
    }
}

/// Number `i` among bytes is what its four bytes hold; where the bytes end before it is complete, it is
/// that of four zero bytes.
pub proof fn lemma_number_read<S: Scalar>(bytes: Seq<u8>, n: nat, i: int)
    requires
        0 <= i < n,
    ensures
        numbers::<S>(bytes, n).len() == n,
        numbers::<S>(bytes, n)[i] == if 4 * i + 4 <= bytes.len() {
            S::decoded([bytes[4 * i], bytes[4 * i + 1], bytes[4 * i + 2], bytes[4 * i + 3]])
        } else {
            S::decoded([0, 0, 0, 0])
        },
{
}

/// A reply is read from its third character on. It has to be that long, and an even number of
/// hexadecimal digits from there. Four bytes hold a number; where the digits end before number `i`
/// is complete, the number is that of four zero bytes.
pub proof fn lemma_reply_read<S: Scalar>(reply: Seq<u8>, i: int)
    requires
        0 <= i < 768,
    ensures
        ({
            let digits = reply.len() - 2;
            let readable = digits % 2 == 0 && forall|p: int|
                2 <= p < reply.len() ==> {
                    ||| '0' <= #[trigger] reply[p] as char <= '9'
                    ||| 'A' <= reply[p] as char <= 'F'
                    ||| 'a' <= reply[p] as char <= 'f'
                };
            let half = |p: int|
                {
                    let c = reply[p] as int;
                    if c <= '9' as int {
                        c - '0' as int
                    } else if c <= 'F' as int {
                        c - 'A' as int + 10
                    } else {
                        c - 'a' as int + 10
                    }
                };
            let byte = |b: int| (16 * half(2 + 2 * b) + half(3 + 2 * b)) as u8;
            &&& reply_numbers::<S>(reply) == Err::<Seq<S>, ReplyError>(ReplyError::TooShort) <==> digits
                < 0
            &&& reply_numbers::<S>(reply) == Err::<Seq<S>, ReplyError>(ReplyError::NotHex) <==> digits
                >= 0 && !readable
            &&& digits >= 0 && readable ==> {
                &&& reply_numbers::<S>(reply) is Ok
                &&& reply_numbers::<S>(reply)->Ok_0.len() == 768
                &&& reply_numbers::<S>(reply)->Ok_0[i] == if 8 * i + 8 <= digits {
                    S::decoded([byte(4 * i), byte(4 * i + 1), byte(4 * i + 2), byte(4 * i + 3)])
                } else {
                    S::decoded([0, 0, 0, 0])
                }
            }
        }),
{
    if reply.len() >= 2 {
        let text = reply.skip(2);
        let readable = (reply.len() - 2) % 2 == 0 && forall|p: int|
            2 <= p < reply.len() ==> {
                ||| '0' <= #[trigger] reply[p] as char <= '9'
                ||| 'A' <= reply[p] as char <= 'F'
                ||| 'a' <= reply[p] as char <= 'f'
            };
        if readable {
            assert forall|q: int| 0 <= q < text.len() implies is_digit(#[trigger] text[q]) by {
                let c = reply[q + 2];
                assert('0' <= c as char <= '9' || 'A' <= c as char <= 'F' || 'a' <= c as char
                    <= 'f');
            }
            let bytes = hex_bytes(text)->0;
            assert(4 * i + 3 < bytes.len() <==> 8 * i + 8 <= text.len());
        } else if text.len() % 2 == 0 {
            let p = choose|p: int|
                2 <= p < reply.len() && !{
                    ||| '0' <= #[trigger] reply[p] as char <= '9'
                    ||| 'A' <= reply[p] as char <= 'F'
                    ||| 'a' <= reply[p] as char <= 'f'
                };
            assert(!is_digit(text[p - 2]));
        }
    }
}

/// What is sent for number `i`: the four bytes that hold it, each as two hexadecimal digits, the upper
/// half first.
pub proof fn lemma_request_digits<S: Scalar>(values: Seq<S>, i: int, k: int)
    requires
        0 <= i < values.len(),
        0 <= k < 4,
    ensures
        ({
            let text = hex_text(memory(values));
            let byte = values[i].encoded()[k] as int;
            let upper = text[8 * i + 2 * k] as int;
            let lower = text[8 * i + 2 * k + 1] as int;
            &&& text.len() == 8 * values.len()
            &&& upper == if byte / 16 < 10 {
                '0' as int + byte / 16
            } else {
                'a' as int + byte / 16 - 10
            }
            &&& lower == if byte % 16 < 10 {
                '0' as int + byte % 16
            } else {
                'a' as int + byte % 16 - 10
            }
            &&& memory(values).len() == 4 * values.len()
            &&& memory(values)[4 * i + k] == values[i].encoded()[k]
        }),
{
    let bytes = memory(values);
    assert(bytes[4 * i + k] == values[i].encoded()[k]) by {
        assert((4 * i + k) / 4 == i && (4 * i + k) % 4 == k);
    }
    assert((8 * i + 2 * k) / 2 == 4 * i + k && (8 * i + 2 * k) % 2 == 0);
    assert((8 * i + 2 * k + 1) / 2 == 4 * i + k && (8 * i + 2 * k + 1) % 2 == 1);
}

/// What a pass waits with: the first layer's feed-forward input, what its result will be added to, and
/// for a single row of 768 numbers that input as text.
pub proof fn lemma_waiting<S: Scalar>(model: Gpt2Model<S>, x: Array<S>, past: Seq<Cache<S>>)
    requires
        model.layers@.len() > 0,
        past.len() > 0,
        x.dims.len() == 2,
        model.layers@[0].attention.c_proj.weight@.dims[1] == x.dims[1],
    ensures
        ({
            let input = model.layers@[0].mlp_input(x, past[0]);
            let waiting = model.started(x, past);
            &&& waiting.tensor == input
            &&& waiting.residual == Some(model.layers@[0].middle(x, past[0]))
            &&& waiting.request == if x.dims[0] == 1 && x.dims[1] == 768 {
                Some(hex_text(memory(input.elems)))
            } else {
                None
            }
        }),
{
}

} // verus!
