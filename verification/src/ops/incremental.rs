//! What a cache is good for: positions seen in portions count as if they were seen at once.
use crate::ops::attention::{attended_fresh, attention_fits, fresh_out, fresh_qk, scores, weights};
use crate::ops::heads::{
    extended_cache, head_dim_of, lemma_by_head_extends, lemma_row_part, lemma_width, queries,
    split_fits, KEY, QUERY, VALUE,
};
use crate::ops::product::{left_row, lemma_product_entry};
use crate::ops::softmax::{
    lemma_mass_same_reach, lemma_peak_same_reach, peak, row_of, soft_elems, soft_row,
};
use crate::scalar::Scalar;
use crate::shape::{lemma_count_2, lemma_count_3, lemma_place_2, lemma_place_3, lemma_unplace_3};
use crate::tensor::{Array, Cache};
use vstd::prelude::*;

verus! {

/// The rows of `a` followed by those of `b`.
pub open spec fn stacked<S>(a: Array<S>, b: Array<S>) -> Array<S> {
    Array { dims: seq![(a.dims[0] + b.dims[0]) as usize, a.dims[1]], elems: a.elems + b.elems }
}

/// Two matrices of one width that a machine can stack.
pub open spec fn stackable<S>(a: Array<S>, b: Array<S>) -> bool {
    &&& a.dims.len() == 2
    &&& b.dims.len() == 2
    &&& a.wf()
    &&& b.wf()
    &&& a.dims[1] == b.dims[1]
    &&& a.dims[0] + b.dims[0] <= usize::MAX
}

/// A cache that sees rows in two portions ends as one that sees them at once.
pub proof fn lemma_cache_in_portions<S>(past: Cache<S>, first: Array<S>, second: Array<S>)
    requires
        stackable(first, second),
        split_fits(stacked(first, second), past),
    ensures
        extended_cache(extended_cache(past, first), second) == extended_cache(
            past,
            stacked(first, second),
        ),
{
    let heads = past.key.dims[0];
    let width = first.dims[1];
    let head_dim = head_dim_of(width, heads);
    lemma_width(width, heads);
    lemma_count_2(first.dims);
    lemma_count_2(second.dims);
    lemma_by_head_extends(
        past.key.elems,
        past.key.dims[1] as int,
        first.elems,
        second.elems,
        KEY as int,
        heads as int,
        first.dims[0] as int,
        second.dims[0] as int,
        head_dim as int,
    );
    lemma_by_head_extends(
        past.value.elems,
        past.key.dims[1] as int,
        first.elems,
        second.elems,
        VALUE as int,
        heads as int,
        first.dims[0] as int,
        second.dims[0] as int,
        head_dim as int,
    );
    let left = extended_cache(extended_cache(past, first), second);
    let right = extended_cache(past, stacked(first, second));
    assert(left.key.dims =~= right.key.dims);
    assert(left.value.dims =~= right.value.dims);
}

/// Row `i` of head `t` of a tensor by head.
pub proof fn lemma_left_rows_equal<S>(
    a: Seq<S>,
    m: int,
    i: int,
    b: Seq<S>,
    n: int,
    j: int,
    k: int,
    t: int,
)
    requires
        k >= 0,
        forall|p: int|
            0 <= p < k ==> #[trigger] a[(t * m + i) * k + p] == b[(t * n + j) * k + p],
    ensures
        left_row(a, m, k, t, i) == left_row(b, n, k, t, j),
{
    assert forall|p: int| 0 <= p < k implies left_row(a, m, k, t, i)[p] == left_row(
        b,
        n,
        k,
        t,
        j,
    )[p] by {
        assert(t * (m * k) + i * k + p * 1 == (t * m + i) * k + p) by (nonlinear_arith);
        assert(t * (n * k) + j * k + p * 1 == (t * n + j) * k + p) by (nonlinear_arith);
        assert(a[(t * m + i) * k + p] == b[(t * n + j) * k + p]);
    }
    assert(left_row(a, m, k, t, i) =~= left_row(b, n, k, t, j));
}

/// A row of the second of two stacked matrices has the query that it has without the first.
proof fn lemma_later_query<S>(
    first: Array<S>,
    second: Array<S>,
    heads: usize,
    t: int,
    i: int,
    k: int,
)
    requires
        stackable(first, second),
        first.dims[1] % 3 == 0,
        heads > 0,
        (first.dims[1] / 3usize) % heads == 0,
        0 <= t < heads,
        0 <= i < second.dims[0],
        0 <= k < head_dim_of(first.dims[1], heads),
    ensures
        ({
            let l = first.dims[0] as int;
            let s = second.dims[0] as int;
            let head_dim = head_dim_of(first.dims[1], heads);
            queries(stacked(first, second), heads).elems[(t * (l + s) + (l + i)) * head_dim + k]
                == queries(second, heads).elems[(t * s + i) * head_dim + k]
        }),
{
    let l = first.dims[0] as int;
    let s = second.dims[0] as int;
    let width = first.dims[1];
    let head_dim = head_dim_of(width, heads) as int;
    let hidden = heads * head_dim;
    lemma_width(width, heads);
    lemma_count_2(first.dims);
    lemma_count_2(second.dims);
    lemma_place_3(t, l + i, k, heads as int, l + s, head_dim);
    lemma_place_3(t, i, k, heads as int, s, head_dim);
    lemma_place_2(t, k, heads as int, head_dim);
    let column = t * head_dim + k;
    lemma_row_part(i, QUERY as int, column, s, hidden);
    assert((l + i) * (3 * hidden) == l * (3 * hidden) + i * (3 * hidden)) by (nonlinear_arith);
}

/// What is known of two ways to attend from rows: with all rows at once, and with the second
/// portion alone after a cache that has seen the first.
pub open spec fn two_ways<S>(past: Cache<S>, first: Array<S>, second: Array<S>) -> bool {
    let heads = past.key.dims[0];
    let whole = stacked(first, second);
    let total = past.key.dims[1] + whole.dims[0];
    let head_dim = head_dim_of(whole.dims[1], heads);
    &&& stackable(first, second)
    &&& past.wf()
    &&& attention_fits(
        whole,
        seq![heads, whole.dims[0], total as usize],
        (heads * whole.dims[0]) as nat,
        past,
        seq![heads, whole.dims[0], head_dim],
    )
}

/// The scores of all rows, from nothing.
pub open spec fn fresh_scores<S: Scalar>(past: Cache<S>, qkv: Array<S>) -> Array<S> {
    scores(qkv, fresh_qk(past, qkv), past)
}

/// How much each row attends to each position, from nothing.
pub open spec fn fresh_weights<S: Scalar>(past: Cache<S>, qkv: Array<S>) -> Array<S> {
    weights(qkv, fresh_qk(past, qkv), past)
}

proof fn lemma_later_scores<S: Scalar>(
    past: Cache<S>,
    first: Array<S>,
    second: Array<S>,
    t: int,
    i: int,
    j: int,
)
    requires
        two_ways(past, first, second),
        0 <= t < past.key.dims[0],
        0 <= i < second.dims[0],
        0 <= j < past.key.dims[1] + first.dims[0] + second.dims[0],
    ensures
        ({
            let l = first.dims[0] as int;
            let s = second.dims[0] as int;
            let total = past.key.dims[1] + l + s;
            fresh_scores(past, stacked(first, second)).elems[(t * (l + s) + (l + i)) * total + j]
                == fresh_scores(extended_cache(past, first), second).elems[(t * s + i) * total + j]
        }),
{
    let heads = past.key.dims[0];
    let whole = stacked(first, second);
    let l = first.dims[0] as int;
    let s = second.dims[0] as int;
    let total = past.key.dims[1] + l + s;
    let head_dim = head_dim_of(whole.dims[1], heads) as int;
    let cache = extended_cache(past, first);
    lemma_width(whole.dims[1], heads);
    lemma_count_3(past.key.dims);
    lemma_count_3(past.value.dims);
    lemma_cache_in_portions(past, first, second);
    let c1 = fresh_qk(past, whole);
    let c2 = fresh_qk(cache, second);
    lemma_count_3(c1.dims);
    lemma_count_3(c2.dims);
    let key = extended_cache(past, whole).key.elems;
    let q1 = queries(whole, heads).elems;
    let q2 = queries(second, heads).elems;
    let h = heads as int;
    lemma_product_entry(true, h, l + s, head_dim, total, q1, key, c1.elems, t, l + i, j);
    lemma_product_entry(true, h, s, head_dim, total, q2, key, c2.elems, t, i, j);
    assert forall|p: int| 0 <= p < head_dim implies #[trigger] q1[(t * (l + s) + (l + i)) * head_dim
        + p] == q2[(t * s + i) * head_dim + p] by {
        lemma_later_query(first, second, heads, t, i, p);
    }
    lemma_left_rows_equal(q1, l + s, l + i, q2, s, i, head_dim, t);
}

/// Element `j` of row `i` of matrix `t` of a softmax.
pub proof fn lemma_soft_entry<S: Scalar>(
    past: int,
    batches: int,
    m: int,
    n: int,
    x: Seq<S>,
    t: int,
    i: int,
    j: int,
)
    requires
        0 <= t < batches,
        0 <= i < m,
        0 <= j < n,
        x.len() == batches * m * n,
    ensures
        0 <= (t * m + i) * n + j < x.len(),
        soft_elems(true, past, m, n, x)[(t * m + i) * n + j] == soft_row(
            true,
            past,
            t * m + i,
            i,
            row_of(x, n, t * m + i),
        )[j],
        row_of(x, n, t * m + i).len() == n,
        forall|p: int|
            0 <= p < n ==> #[trigger] row_of(x, n, t * m + i)[p] == x[(t * m + i) * n + p],
{
    lemma_place_3(t, i, j, batches, m, n);
    lemma_place_3(t, i, 0, batches, m, n);
    lemma_place_3(t, i, n - 1, batches, m, n);
    let r = t * m + i;
    assert((r + 1) * n == r * n + n) by (nonlinear_arith);
}

proof fn lemma_later_weights<S: Scalar>(
    past: Cache<S>,
    first: Array<S>,
    second: Array<S>,
    t: int,
    i: int,
    j: int,
)
    requires
        two_ways(past, first, second),
        0 <= t < past.key.dims[0],
        0 <= i < second.dims[0],
        0 <= j < past.key.dims[1] + first.dims[0] + second.dims[0],
    ensures
        ({
            let l = first.dims[0] as int;
            let s = second.dims[0] as int;
            let total = past.key.dims[1] + l + s;
            fresh_weights(past, stacked(first, second)).elems[(t * (l + s) + (l + i)) * total + j]
                == fresh_weights(extended_cache(past, first), second).elems[(t * s + i) * total + j]
        }),
{
    let h = past.key.dims[0] as int;
    let whole = stacked(first, second);
    let l = first.dims[0] as int;
    let s = second.dims[0] as int;
    let p1 = past.key.dims[1] as int;
    let p2 = p1 + l;
    let total = p1 + l + s;
    let cache = extended_cache(past, first);
    lemma_count_3(fresh_qk(past, whole).dims);
    lemma_count_3(fresh_qk(cache, second).dims);
    let x1 = fresh_scores(past, whole).elems;
    let x2 = fresh_scores(cache, second).elems;
    let r1 = t * (l + s) + (l + i);
    let r2 = t * s + i;
    lemma_soft_entry(p1, h, l + s, total, x1, t, l + i, j);
    lemma_soft_entry(p2, h, s, total, x2, t, i, j);
    let row1 = row_of(x1, total, r1);
    let row2 = row_of(x2, total, r2);
    assert forall|p: int| 0 <= p < total implies row1[p] == row2[p] by {
        lemma_later_scores(past, first, second, t, i, p);
    }
    assert(row1 =~= row2);
    // The first head is looked at as far as it is seen, every other to the end of the row.
    assert(if t == 0 {
        r1 == l + i && r2 == i
    } else {
        r1 >= l + s && r2 >= s
    }) by (nonlinear_arith)
        requires
            r1 == t * (l + s) + (l + i),
            r2 == t * s + i,
            t >= 0,
            l >= 0,
            s >= 0,
            i >= 0,
    ;
    lemma_peak_same_reach(p1, r1, p2, r2, row1, total as nat);
    let top = peak(true, p1, r1, row1, total as nat);
    lemma_mass_same_reach(p1, l + i, p2, i, top, row1, total as nat);
}

/// Attending from rows after a cache has seen others gives what attending from all rows at once gives
/// for them.
pub proof fn lemma_second_portion_from_cache<S: Scalar>(
    past: Cache<S>,
    first: Array<S>,
    second: Array<S>,
)
    requires
        two_ways(past, first, second),
    ensures
        ({
            let hidden = (first.dims[1] / 3usize) as int;
            attended_fresh(past, stacked(first, second)).elems.skip(first.dims[0] * hidden)
                == attended_fresh(extended_cache(past, first), second).elems
        }),
{
    let heads = past.key.dims[0] as int;
    let whole = stacked(first, second);
    let l = first.dims[0] as int;
    let s = second.dims[0] as int;
    let total = past.key.dims[1] + l + s;
    let cache = extended_cache(past, first);
    let head_dim = head_dim_of(whole.dims[1], past.key.dims[0]) as int;
    let hidden = heads * head_dim;
    lemma_width(whole.dims[1], past.key.dims[0]);
    lemma_count_3(past.key.dims);
    lemma_count_3(past.value.dims);
    lemma_cache_in_portions(past, first, second);
    lemma_count_3(fresh_qk(past, whole).dims);
    lemma_count_3(fresh_qk(cache, second).dims);
    lemma_count_3(fresh_out(past, whole).dims);
    lemma_count_3(fresh_out(cache, second).dims);
    let value = extended_cache(past, whole).value.elems;
    let w1 = fresh_weights(past, whole).elems;
    let w2 = fresh_weights(cache, second).elems;
    let o1 = fresh_out(past, whole).elems;
    let o2 = fresh_out(cache, second).elems;
    let left = attended_fresh(past, whole).elems.skip(l * hidden);
    let right = attended_fresh(cache, second).elems;
    assert((l + s) * heads * head_dim == l * hidden + s * hidden && s * heads * head_dim == s
        * hidden && l * hidden >= 0 && s * hidden >= 0) by (nonlinear_arith)
        requires
            hidden == heads * head_dim,
            heads >= 0,
            head_dim >= 0,
            l >= 0,
            s >= 0,
    ;
    assert forall|p: int| 0 <= p < s * hidden implies left[p] == right[p] by {
        assert(s * heads * head_dim == s * hidden);
        lemma_unplace_3(p, s, heads, head_dim);
        let i = (p / head_dim) / heads;
        let t = (p / head_dim) % heads;
        let k = p % head_dim;
        lemma_place_3(l + i, t, k, l + s, heads, head_dim);
        assert(l * hidden + p == ((l + i) * heads + t) * head_dim + k) by (nonlinear_arith)
            requires
                hidden == heads * head_dim,
                p == (i * heads + t) * head_dim + k,
        ;
        assert forall|j: int| 0 <= j < total implies #[trigger] w1[(t * (l + s) + (l + i)) * total
            + j] == w2[(t * s + i) * total + j] by {
            lemma_later_weights(past, first, second, t, i, j);
        }
        lemma_left_rows_equal(w1, l + s, l + i, w2, s, i, total, t);
        lemma_product_entry(false, heads, l + s, total, head_dim, w1, value, o1, t, l + i, k);
        lemma_product_entry(false, heads, s, total, head_dim, w2, value, o2, t, i, k);
    }
    assert(left =~= right);
}

} // verus!
