//! Picking rows by number, and the number of the largest element.
use crate::ops::softmax::row_of;
use crate::scalar::Scalar;
use crate::shape::{lemma_count_2, lemma_place_2};
use crate::tensor::{Array, Tensor, TensorMut};
use vstd::prelude::*;

verus! {

/// When the rows numbered `ids` can be picked from `weights` into a tensor of shape `out`.
pub open spec fn select_fits<S>(ids: Seq<u32>, weights: Array<S>, out: Seq<usize>) -> bool {
    let width = weights.dims[1];
    &&& weights.dims.len() >= 2
    &&& out.len() == 2
    &&& out[0] == ids.len()
    &&& out[1] == width
    &&& forall|i: int|
        0 <= i < ids.len() ==> (#[trigger] ids[i] + 1) * width <= weights.elems.len()
}

/// The rows numbered `ids`, one after the other.
pub open spec fn picked<S>(ids: Seq<u32>, weights: Array<S>) -> Array<S> {
    let width = weights.dims[1] as int;
    Array {
        dims: seq![ids.len() as usize, weights.dims[1]],
        elems: Seq::new(
            (ids.len() * width) as nat,
            |p: int| weights.elems[ids[p / width] * width + p % width],
        ),
    }
}

fn copy_rows<S: Copy>(ids: &[u32], width: usize, weights: &[S], out: &mut [S])
    requires
        old(out)@.len() == ids@.len() * width,
        forall|i: int| 0 <= i < ids@.len() ==> (#[trigger] ids@[i] + 1) * width <= weights@.len(),
    ensures
        final(out)@ == Seq::new(
            old(out)@.len(),
            |p: int| weights@[ids@[p / width as int] * width + p % width as int],
        ),
{
    let ghost whole = Seq::new(
        out@.len(),
        |p: int| weights@[ids@[p / width as int] * width + p % width as int],
    );
    let mut i: usize = 0;
    while i < ids.len()
        invariant
            i <= ids@.len(),
            out@.len() == ids@.len() * width,
            forall|i: int|
                0 <= i < ids@.len() ==> (#[trigger] ids@[i] + 1) * width <= weights@.len(),
            whole == Seq::new(
                out@.len(),
                |p: int| weights@[ids@[p / width as int] * width + p % width as int],
            ),
            forall|p: int| 0 <= p < i * width ==> out@[p] == whole[p],
        decreases ids@.len() - i,
    {
        let id: usize = ids[i] as usize;
        let mut j: usize = 0;
        while j < width
            invariant
                i < ids@.len(),
                j <= width,
                id == ids@[i as int],
                out@.len() == ids@.len() * width,
                (id + 1) * width <= weights@.len(),
                whole == Seq::new(
                    out@.len(),
                    |p: int| weights@[ids@[p / width as int] * width + p % width as int],
                ),
                forall|p: int| 0 <= p < i * width + j ==> out@[p] == whole[p],
            decreases width - j,
        {
            proof {
                lemma_place_2(i as int, j as int, ids@.len() as int, width as int);
                lemma_place_2(id as int, j as int, id + 1, width as int);
                assert(0 <= i * width && 0 <= id * width) by (nonlinear_arith);
                assert(weights.len() == weights@.len() && out.len() == out@.len());
            }
            out[i * width + j] = weights[id * width + j];
            j += 1;
        }
        proof {
            assert(i * width + width == (i + 1) * width) by (nonlinear_arith);
        }
        i += 1;
    }
    assert(out@ =~= whole);
}

/// Copies the rows of `weights` numbered `ids` into `out`.
pub fn select<S: Scalar, T: Tensor<S>, TM: TensorMut<S>>(ids: &[u32], weights: &T, out: &mut TM)
    requires
        old(out)@.wf(),
        select_fits(ids@, weights@, old(out)@.dims),
    ensures
        final(out)@ == picked(ids@, weights@),
        final(out)@.wf(),
{
    let hidden_dim: usize = weights.shape()[1];
    proof {
        lemma_count_2(out@.dims);
        assert(out@.dims =~= picked(ids@, weights@).dims);
    }
    copy_rows(ids, hidden_dim, weights.data(), out.data_mut());
}

/// The first of the largest among the first `upto` elements of a row, and its number.
pub open spec fn champion<S: Scalar>(row: Seq<S>, upto: nat) -> (S, int)
    decreases upto,
{
    if upto == 0 {
        (S::lowest(), usize::MAX as int)
    } else {
        let best = champion(row, (upto - 1) as nat);
        if row[upto - 1].exceeds(best.0) {
            (row[upto - 1], upto - 1)
        } else {
            best
        }
    }
}

/// The number of the largest element of the last row of the matrix `x`, the first of several. Where
/// none is above the lowest number, this is `usize::MAX`.
pub fn special_argmax<S: Scalar, T: Tensor<S>>(x: &T) -> (r: usize)
    requires
        x@.wf(),
        x@.dims.len() == 2,
        x@.dims[0] > 0,
    ensures
        r == champion(
            row_of(x@.elems, x@.dims[1] as int, x@.dims[0] - 1),
            x@.dims[1] as nat,
        ).1,
        ({
            let n = x@.dims[0] as int;
            let m = x@.dims[1] as int;
            let last = x@.elems.subrange((n - 1) * m, n * m);
            if r == usize::MAX {
                forall|j: int| 0 <= j < m ==> !(#[trigger] last[j]).exceeds(S::lowest())
            } else {
                &&& r < m
                &&& last[r as int].exceeds(S::lowest())
                &&& forall|j: int| 0 <= j < m ==> !(#[trigger] last[j]).exceeds(last[r as int])
                &&& forall|j: int|
                    0 <= j < r && last[j].equals(last[j]) ==> last[r as int].exceeds(
                        #[trigger] last[j],
                    )
            }
        }),
{
    let n: usize = x.shape()[0];
    let m: usize = x.shape()[1];
    let data = x.data();
    let ghost row = row_of(x@.elems, m as int, n - 1);
    proof {
        lemma_count_2(x@.dims);
        assert(data.len() == data@.len());
        assert((n - 1) * m + m == n * m && (n - 1) * m >= 0) by (nonlinear_arith)
            requires
                n >= 1,
                m >= 0,
        ;
    }
    let start: usize = (n - 1) * m;
    let mut max = S::neg_infinity();
    let mut max_id: usize = usize::MAX;
    let mut i: usize = 0;
    while i < m
        invariant
            i <= m,
            start + m == data@.len(),
            start + m <= usize::MAX,
            row == data@.subrange(start as int, start + m),
            (max, max_id as int) == champion(row, i as nat),
        decreases m - i,
    {
        let v = data[start + i];
        if v.gt(max) {
            max = v;
            max_id = i;
        }
        i += 1;
    }
    proof {
        lemma_champion_is_first(row, m as nat);
        assert forall|j: int| 0 <= j < m && max_id != usize::MAX implies !(#[trigger] row[j]).exceeds(
            row[max_id as int],
        ) by {
            lemma_champion_is_largest(row, m as nat, j);
        }
    }
    max_id
}

/// No element of a row is above the one that is chosen as the largest.
pub proof fn lemma_champion_is_largest<S: Scalar>(row: Seq<S>, upto: nat, j: int)
    requires
        0 <= j < upto,
    ensures
        !row[j].exceeds(champion(row, upto).0),
        champion(row, upto).1 != usize::MAX ==> {
            &&& 0 <= champion(row, upto).1 < upto
            &&& champion(row, upto).0 == row[champion(row, upto).1]
        },
        champion(row, upto).1 == usize::MAX && upto <= usize::MAX ==> champion(row, upto).0
            == S::lowest(),
    decreases upto,
{
    let before = champion(row, (upto - 1) as nat);
    let last = row[upto - 1];
    if j < upto - 1 {
        lemma_champion_is_largest(row, (upto - 1) as nat, j);
        S::lemma_exceeds_is_strict_order(row[j], last, before.0);
    } else if upto > 1 {
        lemma_champion_is_largest(row, (upto - 1) as nat, 0);
    }
    S::lemma_exceeds_is_strict_order(last, last, last);
}

/// The element that is chosen as the largest is the first of the largest: what comes before it is
/// below it, unless that compares unequal even to itself. None is chosen exactly where no element is
/// above the lowest number.
pub proof fn lemma_champion_is_first<S: Scalar>(row: Seq<S>, upto: nat)
    requires
        upto <= usize::MAX,
    ensures
        champion(row, upto).1 == usize::MAX <==> forall|j: int|
            0 <= j < upto ==> !(#[trigger] row[j]).exceeds(S::lowest()),
        champion(row, upto).1 != usize::MAX ==> {
            &&& 0 <= champion(row, upto).1 < upto
            &&& champion(row, upto).0 == row[champion(row, upto).1]
            &&& champion(row, upto).0.exceeds(S::lowest())
        },
        forall|j: int|
            0 <= j < champion(row, upto).1 && champion(row, upto).1 != usize::MAX && row[j].equals(
                row[j],
            ) ==> champion(row, upto).0.exceeds(#[trigger] row[j]),
    decreases upto,
{
    if upto > 0 {
        let before = champion(row, (upto - 1) as nat);
        let last = row[upto - 1];
        lemma_champion_is_first(row, (upto - 1) as nat);
        if before.1 == usize::MAX {
            lemma_champion_lowest(row, (upto - 1) as nat);
        }
        if last.exceeds(before.0) {
            S::lemma_exceeds_is_strict_order(last, before.0, S::lowest());
            assert forall|j: int| 0 <= j < upto - 1 && row[j].equals(row[j]) implies last.exceeds(
                #[trigger] row[j],
            ) by {
                lemma_champion_is_largest(row, (upto - 1) as nat, j);
                S::lemma_order_is_total(last, before.0, before.0);
                S::lemma_order_is_total(row[j], last, before.0);
                S::lemma_exceeds_is_strict_order(row[j], last, before.0);
            }
        }
    }
}

/// Where no element is chosen, the largest so far is the lowest number.
proof fn lemma_champion_lowest<S: Scalar>(row: Seq<S>, upto: nat)
    requires
        upto <= usize::MAX,
        champion(row, upto).1 == usize::MAX,
    ensures
        champion(row, upto).0 == S::lowest(),
    decreases upto,
{
    if upto > 0 {
        lemma_champion_lowest(row, (upto - 1) as nat);
    }
}

} // verus!
