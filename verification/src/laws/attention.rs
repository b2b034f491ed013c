//! Attention, number by number.
use crate::laws::rows::lemma_softmax_element;
use crate::laws::sums::{lemma_product_element, lemma_product_element_transposed};
use crate::ops::attention::{attended, attention_fits, scores, weights};
use crate::ops::heads::{extended_cache, head_dim_of, queries};
use crate::ops::softmax::divisors;
use crate::scalar::Scalar;
use crate::shape::{lemma_count_1, lemma_count_3, lemma_place_2, lemma_place_3};
use crate::tensor::{Array, Cache};
use vstd::prelude::*;

verus! {

/// At least `qkv.dims[0]` rows of `3 * heads * head_dim` numbers, and a past of `seen` positions in
/// `heads` heads of `head_dim` numbers.
pub open spec fn projected_rows<S>(
    qkv: Array<S>,
    past: Cache<S>,
    heads: usize,
    head_dim: usize,
    seen: usize,
) -> bool {
    &&& qkv.dims.len() >= 2
    &&& qkv.dims[1] == 3 * (heads * head_dim)
    &&& qkv.dims[0] * qkv.dims[1] <= qkv.elems.len()
    &&& heads > 0
    &&& past.key.dims == seq![heads, seen, head_dim]
    &&& past.value.dims == seq![heads, seen, head_dim]
    &&& past.wf()
    &&& seen + qkv.dims[0] <= usize::MAX
}

proof fn lemma_head_size<S>(qkv: Array<S>, past: Cache<S>, heads: usize, head_dim: usize, seen: usize)
    requires
        projected_rows(qkv, past, heads, head_dim, seen),
    ensures
        head_dim_of(qkv.dims[1], heads) == head_dim,
        qkv.dims[1] % 3 == 0,
        qkv.dims[1] / 3usize == heads * head_dim,
        (qkv.dims[1] / 3usize) % heads == 0,
{
    let hidden = heads * head_dim;
    assert(0 <= hidden) by (nonlinear_arith)
        requires
            hidden == heads * head_dim,
    ;
    assert(hidden / (heads as int) == head_dim && hidden % (heads as int) == 0) by {
        assert(head_dim * heads == hidden) by (nonlinear_arith)
            requires
                hidden == heads * head_dim,
        ;
        vstd::arithmetic::div_mod::lemma_fundamental_div_mod_converse(
            hidden,
            heads as int,
            head_dim as int,
            0,
        );
    }
}

/// What the past and the rows hold for position `j`, in head `t`, at place `p`: the old key and value
/// before the rows, and behind them the second and the last third of a row.
pub proof fn lemma_cache_element<S>(
    qkv: Array<S>,
    past: Cache<S>,
    heads: usize,
    head_dim: usize,
    seen: usize,
    t: int,
    j: int,
    p: int,
)
    requires
        projected_rows(qkv, past, heads, head_dim, seen),
        0 <= t < heads,
        0 <= j < seen + qkv.dims[0],
        0 <= p < head_dim,
    ensures
        ({
            let hidden = heads * head_dim;
            let total = seen + qkv.dims[0];
            let row = (j - seen) * (3 * hidden);
            let cache = extended_cache(past, qkv);
            &&& cache.key.dims == seq![heads, total as usize, head_dim]
            &&& cache.value.dims == seq![heads, total as usize, head_dim]
            &&& cache.key.elems.len() == heads * total * head_dim
            &&& cache.value.elems.len() == heads * total * head_dim
            &&& cache.key.elems[(t * total + j) * head_dim + p] == if j < seen {
                past.key.elems[(t * seen + j) * head_dim + p]
            } else {
                qkv.elems[row + hidden + t * head_dim + p]
            }
            &&& cache.value.elems[(t * total + j) * head_dim + p] == if j < seen {
                past.value.elems[(t * seen + j) * head_dim + p]
            } else {
                qkv.elems[row + 2 * hidden + t * head_dim + p]
            }
        }),
{
    let total = seen + qkv.dims[0];
    lemma_head_size(qkv, past, heads, head_dim, seen);
    lemma_place_3(t, j, p, heads as int, total, head_dim as int);
    let hidden = heads * head_dim;
    assert(1 * hidden == hidden && 2 * hidden == hidden + hidden);
    assert(heads * total * head_dim >= 0) by (nonlinear_arith)
        requires
            total >= 0,
    ;
}

/// The score of row `i` for position `j` in head `t`: the query of the row, its first third, against
/// the key of the position, divided by the root of the size of a head.
proof fn lemma_score_element<S: Scalar>(
    qkv: Array<S>,
    qk: Array<S>,
    past: Cache<S>,
    heads: usize,
    head_dim: usize,
    seen: usize,
    t: int,
    i: int,
    j: int,
)
    requires
        projected_rows(qkv, past, heads, head_dim, seen),
        qk.dims == seq![heads, qkv.dims[0], (seen + qkv.dims[0]) as usize],
        qk.wf(),
        0 <= t < heads,
        0 <= i < qkv.dims[0],
        0 <= j < seen + qkv.dims[0],
    ensures
        ({
            let hidden = heads * head_dim;
            let n = qkv.dims[0];
            let total = seen + n;
            &&& scores(qkv, qk, past).dims == qk.dims
            &&& scores(qkv, qk, past).elems.len() == qk.elems.len()
            &&& scores(qkv, qk, past).elems[(t * n + i) * total + j] == qk.elems[(t * n + i) * total
                + j].dotted(
                Seq::new(
                    head_dim as nat,
                    |p: int| qkv.elems[i * (3 * hidden) + t * head_dim + p],
                ),
                Seq::new(
                    head_dim as nat,
                    |p: int|
                        if j < seen {
                            past.key.elems[(t * seen + j) * head_dim + p]
                        } else {
                            qkv.elems[(j - seen) * (3 * hidden) + hidden + t * head_dim + p]
                        },
                ),
            ).over(S::counted(head_dim).root())
        }),
{
    let hidden = heads * head_dim;
    let n = qkv.dims[0];
    let total = (seen + n) as usize;
    lemma_head_size(qkv, past, heads, head_dim, seen);
    let a = queries(qkv, heads);
    let b = extended_cache(past, qkv).key;
    let stack = a.dims.take(1);
    assert(stack =~= seq![heads]);
    lemma_count_1(stack);
    assert(a.dims =~= stack + seq![n, head_dim]);
    assert(b.dims =~= stack + seq![total, head_dim]);
    assert(qk.dims =~= stack + seq![n, total]);
    lemma_product_element_transposed(a, b, qk, n, head_dim, total, t, i, j);
    lemma_count_3(qk.dims);
    lemma_place_3(t, i, j, heads as int, n as int, total as int);
    let q1 = Seq::new(head_dim as nat, |p: int| a.elems[(t * n + i) * head_dim + p]);
    let q2 = Seq::new(
        head_dim as nat,
        |p: int| qkv.elems[i * (3 * hidden) + t * head_dim + p],
    );
    assert forall|p: int| 0 <= p < head_dim implies q1[p] == q2[p] by {
        lemma_place_3(t, i, p, heads as int, n as int, head_dim as int);
        assert(0 * hidden == 0);
    }
    assert(q1 =~= q2);
    let k1 = Seq::new(head_dim as nat, |p: int| b.elems[(t * total + j) * head_dim + p]);
    let k2 = Seq::new(
        head_dim as nat,
        |p: int|
            if j < seen {
                past.key.elems[(t * seen + j) * head_dim + p]
            } else {
                qkv.elems[(j - seen) * (3 * hidden) + hidden + t * head_dim + p]
            },
    );
    assert forall|p: int| 0 <= p < head_dim implies k1[p] == k2[p] by {
        lemma_cache_element(qkv, past, heads, head_dim, seen, t, j, p);
    }
    assert(k1 =~= k2);
}

/// How much row `i` attends to position `j` in head `t`.
///
/// Its score for a position is its query against the key of the position, on top of what `qk` held,
/// divided by a number whose square is the size of a head. It attends to every position up to its
/// own: with the exponential of the score, relative to the largest, over the sum of these over all
/// positions up to its own. It attends to no later one.
pub proof fn lemma_attention_weight<S: Scalar>(
    qkv: Array<S>,
    qk: Array<S>,
    past: Cache<S>,
    space: Seq<S>,
    heads: usize,
    head_dim: usize,
    seen: usize,
    t: int,
    i: int,
    j: int,
)
    requires
        projected_rows(qkv, past, heads, head_dim, seen),
        qk.dims == seq![heads, qkv.dims[0], (seen + qkv.dims[0]) as usize],
        qk.wf(),
        heads * qkv.dims[0] <= space.len(),
        0 <= t < heads,
        0 <= i < qkv.dims[0],
        0 <= j < seen + qkv.dims[0],
    ensures
        ({
            let hidden = heads * head_dim;
            let n = qkv.dims[0];
            let total = seen + n;
            let scale = S::counted(head_dim).root();
            let row = Seq::new(
                total as nat,
                |x: int|
                    qk.elems[(t * n + i) * total + x].dotted(
                        Seq::new(
                            head_dim as nat,
                            |p: int| qkv.elems[i * (3 * hidden) + t * head_dim + p],
                        ),
                        Seq::new(
                            head_dim as nat,
                            |p: int|
                                if x < seen {
                                    past.key.elems[(t * seen + x) * head_dim + p]
                                } else {
                                    qkv.elems[(x - seen) * (3 * hidden) + hidden + t * head_dim + p]
                                },
                        ),
                    ).over(scale),
            );
            let looked_at: int = if t * n + i + seen + 1 < total {
                t * n + i + seen + 1
            } else {
                total
            };
            let top = row.take(looked_at).fold_left(
                S::lowest(),
                |top: S, v: S|
                    if v.exceeds(top) {
                        v
                    } else {
                        top
                    },
            );
            let sum = row.take(i + seen + 1).fold_left(
                S::counted(0),
                |sum: S, v: S| sum.plus(v.minus(top).exponential()),
            );
            &&& (forall|k: usize|
                (#[trigger] S::counted(k).root()).times(S::counted(k).root()) == S::counted(k))
                ==> scale.times(scale) == S::counted(head_dim)
            &&& attention_fits(qkv, qk.dims, space.len(), past, seq![heads, n, head_dim])
            &&& weights(qkv, qk, past).dims == qk.dims
            &&& weights(qkv, qk, past).elems.len() == qk.elems.len()
            &&& weights(qkv, qk, past).elems[(t * n + i) * total + j] == if j <= i + seen {
                row[j].minus(top).exponential().over(sum)
            } else {
                S::counted(0)
            }
            &&& divisors(true, seen as int, scores(qkv, qk, past), space)[t * n + i] == sum
        }),
{
    let hidden = heads * head_dim;
    let n = qkv.dims[0];
    let total = seen + n;
    let h = heads as int;
    lemma_head_size(qkv, past, heads, head_dim, seen);
    let x = scores(qkv, qk, past);
    lemma_count_3(qk.dims);
    lemma_score_element(qkv, qk, past, heads, head_dim, seen, t, i, j);
    let r = t * n + i;
    lemma_place_2(t, i, h, n as int);
    lemma_place_3(t, i, 0, h, n as int, total);
    lemma_place_3(t, i, total - 1, h, n as int, total);
    assert((r + 1) * total == r * total + total) by (nonlinear_arith);
    let row = Seq::new(
        total as nat,
        |x: int|
            qk.elems[(t * n + i) * total + x].dotted(
                Seq::new(
                    head_dim as nat,
                    |p: int| qkv.elems[i * (3 * hidden) + t * head_dim + p],
                ),
                Seq::new(
                    head_dim as nat,
                    |p: int|
                        if x < seen {
                            past.key.elems[(t * seen + x) * head_dim + p]
                        } else {
                            qkv.elems[(x - seen) * (3 * hidden) + hidden + t * head_dim + p]
                        },
                ),
            ).over(S::counted(head_dim).root()),
    );
    let held = x.elems.subrange(r * total, (r + 1) * total);
    assert forall|k: int| 0 <= k < total implies held[k] == row[k] by {
        lemma_score_element(qkv, qk, past, heads, head_dim, seen, t, i, k);
    }
    assert(held =~= row);
    assert(x.wf());
    lemma_softmax_element(true, seen as int, x, space, r, j);
}

/// What attention leaves for row `i` at column `t * head_dim + k`: what head `t` of `out` held there,
/// with the row's weights against the values of all positions added. The value of a position of the
/// past is the old one, that of a row its last third.
pub proof fn lemma_attention_element<S: Scalar>(
    qkv: Array<S>,
    qk: Array<S>,
    past: Cache<S>,
    out: Array<S>,
    heads: usize,
    head_dim: usize,
    seen: usize,
    t: int,
    i: int,
    k: int,
)
    requires
        projected_rows(qkv, past, heads, head_dim, seen),
        qk.dims == seq![heads, qkv.dims[0], (seen + qkv.dims[0]) as usize],
        qk.wf(),
        out.dims == seq![heads, qkv.dims[0], head_dim],
        out.wf(),
        0 <= t < heads,
        0 <= i < qkv.dims[0],
        0 <= k < head_dim,
    ensures
        ({
            let hidden = heads * head_dim;
            let n = qkv.dims[0];
            let total = seen + n;
            let row = Seq::new(
                total as nat,
                |j: int| weights(qkv, qk, past).elems[(t * n + i) * total + j],
            );
            let column = Seq::new(
                total as nat,
                |j: int|
                    if j < seen {
                        past.value.elems[(t * seen + j) * head_dim + k]
                    } else {
                        qkv.elems[(j - seen) * (3 * hidden) + 2 * hidden + t * head_dim + k]
                    },
            );
            &&& attended(qkv, qk, past, out).dims == seq![n, hidden as usize]
            &&& attended(qkv, qk, past, out).elems.len() == n * hidden
            &&& attended(qkv, qk, past, out).elems[i * hidden + t * head_dim + k] == out.elems[(t
                * n + i) * head_dim + k].dotted(row, column)
        }),
{
    let hidden = heads * head_dim;
    let n = qkv.dims[0];
    let total = (seen + n) as usize;
    let h = heads as int;
    let hd = head_dim as int;
    lemma_head_size(qkv, past, heads, head_dim, seen);
    let a = weights(qkv, qk, past);
    let b = extended_cache(past, qkv).value;
    let stack = a.dims.take(1);
    assert(stack =~= seq![heads]);
    lemma_count_1(stack);
    assert(a.dims =~= stack + seq![n, total]);
    assert(b.dims =~= stack + seq![total, head_dim]);
    assert(out.dims =~= stack + seq![n, head_dim]);
    lemma_product_element(a, b, out, n, total, head_dim, t, i, k);
    let c1 = Seq::new(total as nat, |j: int| b.elems[(t * total + j) * head_dim + k]);
    let c2 = Seq::new(
        total as nat,
        |j: int|
            if j < seen {
                past.value.elems[(t * seen + j) * head_dim + k]
            } else {
                qkv.elems[(j - seen) * (3 * hidden) + 2 * hidden + t * head_dim + k]
            },
    );
    assert forall|j: int| 0 <= j < total implies c1[j] == c2[j] by {
        lemma_cache_element(qkv, past, heads, head_dim, seen, t, j, k);
    }
    assert(c1 =~= c2);
    lemma_place_3(i, t, k, n as int, h, hd);
    assert(i * hidden + t * head_dim + k == (i * h + t) * hd + k && n * h * hd == n * hidden)
        by (nonlinear_arith)
        requires
            hidden == h * hd,
            head_dim == hd,
    ;
}

} // verus!
