//! Rows that come later leave earlier ones alone.
use crate::ops::attention::{attended_fresh, fresh_out, fresh_qk};
use crate::ops::heads::{
    extended_cache, head_dim_of, lemma_row_part, lemma_width, queries, split_fits, QUERY,
};
use crate::ops::incremental::{
    fresh_scores, fresh_weights, lemma_cache_in_portions, lemma_left_rows_equal, lemma_soft_entry,
    stackable, stacked, two_ways,
};
use crate::ops::product::{left_row, lemma_product_entry, right_column};
use crate::ops::softmax::{lemma_soft_row_decided, lemma_unrivalled_start, row_of, unrivalled};
use crate::scalar::{agrees, spot, zero, Scalar};
use crate::shape::{lemma_count_2, lemma_count_3, lemma_place_2, lemma_place_3};
use crate::tensor::{Array, Cache};
use vstd::prelude::*;

verus! {

/// Element `k` of row `i` of head `t` of a tensor by head.
pub open spec fn by_place<S>(x: Array<S>, t: int, i: int, k: int) -> S {
    x.elems[(t * x.dims[1] + i) * x.dims[2] + k]
}

/// A cache keeps what it held.
pub proof fn lemma_cache_keeps_past<S>(past: Cache<S>, qkv: Array<S>, t: int, i: int, k: int)
    requires
        split_fits(qkv, past),
        past.key.dims.len() == 3,
        past.value.dims == past.key.dims,
        past.key.dims[2] == head_dim_of(qkv.dims[1], past.key.dims[0]),
        0 <= t < past.key.dims[0],
        0 <= i < past.key.dims[1],
        0 <= k < past.key.dims[2],
    ensures
        by_place(extended_cache(past, qkv).key, t, i, k) == by_place(past.key, t, i, k),
        by_place(extended_cache(past, qkv).value, t, i, k) == by_place(past.value, t, i, k),
{
    let heads = past.key.dims[0] as int;
    let seen = past.key.dims[1] as int;
    let head_dim = past.key.dims[2] as int;
    lemma_place_3(t, i, k, heads, seen + qkv.dims[0], head_dim);
}

/// What a cache holds for a position does not depend on the rows that come after it.
pub proof fn lemma_cache_of_earlier_rows<S>(
    past: Cache<S>,
    first: Array<S>,
    second: Array<S>,
    t: int,
    i: int,
    k: int,
)
    requires
        stackable(first, second),
        split_fits(stacked(first, second), past),
        0 <= t < past.key.dims[0],
        0 <= i < past.key.dims[1] + first.dims[0],
        0 <= k < head_dim_of(first.dims[1], past.key.dims[0]),
    ensures
        by_place(extended_cache(past, stacked(first, second)).key, t, i, k) == by_place(
            extended_cache(past, first).key,
            t,
            i,
            k,
        ),
        by_place(extended_cache(past, stacked(first, second)).value, t, i, k) == by_place(
            extended_cache(past, first).value,
            t,
            i,
            k,
        ),
{
    lemma_cache_in_portions(past, first, second);
    let heads = past.key.dims[0] as int;
    let seen = past.key.dims[1] + first.dims[0];
    let head_dim = head_dim_of(first.dims[1], past.key.dims[0]) as int;
    lemma_place_3(t, i, k, heads, seen + second.dims[0], head_dim);
}

/// A row of the first of two stacked matrices has the query that it has without the second.
proof fn lemma_earlier_query<S>(
    first: Array<S>,
    second: Array<S>,
    heads: usize,
    t: int,
    i: int,
    k: int,
)
    requires
        stackable(first, second),
        first.dims[1] % 3 == 0,
        heads > 0,
        (first.dims[1] / 3usize) % heads == 0,
        0 <= t < heads,
        0 <= i < first.dims[0],
        0 <= k < head_dim_of(first.dims[1], heads),
    ensures
        ({
            let l = first.dims[0] as int;
            let s = second.dims[0] as int;
            let head_dim = head_dim_of(first.dims[1], heads);
            queries(stacked(first, second), heads).elems[(t * (l + s) + i) * head_dim + k]
                == queries(first, heads).elems[(t * l + i) * head_dim + k]
        }),
{
    let l = first.dims[0] as int;
    let s = second.dims[0] as int;
    let width = first.dims[1];
    let head_dim = head_dim_of(width, heads) as int;
    lemma_width(width, heads);
    lemma_count_2(first.dims);
    lemma_place_3(t, i, k, heads as int, l + s, head_dim);
    lemma_place_3(t, i, k, heads as int, l, head_dim);
    lemma_place_2(t, k, heads as int, head_dim);
    lemma_row_part(i, QUERY as int, t * head_dim + k, l, heads * head_dim);
}

/// The score of an earlier row for an earlier position.
proof fn lemma_earlier_scores<S: Scalar>(
    past: Cache<S>,
    first: Array<S>,
    second: Array<S>,
    t: int,
    i: int,
    j: int,
)
    requires
        two_ways(past, first, second),
        0 <= t < past.key.dims[0],
        0 <= i < first.dims[0],
        0 <= j < past.key.dims[1] + first.dims[0],
    ensures
        ({
            let l = first.dims[0] as int;
            let s = second.dims[0] as int;
            let before = past.key.dims[1] + l;
            fresh_scores(past, stacked(first, second)).elems[(t * (l + s) + i) * (before + s) + j]
                == fresh_scores(past, first).elems[(t * l + i) * before + j]
        }),
{
    let heads = past.key.dims[0];
    let h = heads as int;
    let whole = stacked(first, second);
    let l = first.dims[0] as int;
    let s = second.dims[0] as int;
    let before = past.key.dims[1] + l;
    let total = before + s;
    let head_dim = head_dim_of(whole.dims[1], heads) as int;
    lemma_width(whole.dims[1], heads);
    lemma_count_3(past.key.dims);
    lemma_count_3(past.value.dims);
    let c1 = fresh_qk(past, whole);
    let c2 = fresh_qk(past, first);
    lemma_count_3(c1.dims);
    lemma_count_3(c2.dims);
    let k1 = extended_cache(past, whole).key;
    let k2 = extended_cache(past, first).key;
    let q1 = queries(whole, heads).elems;
    let q2 = queries(first, heads).elems;
    lemma_product_entry(true, h, l + s, head_dim, total, q1, k1.elems, c1.elems, t, i, j);
    lemma_product_entry(true, h, l, head_dim, before, q2, k2.elems, c2.elems, t, i, j);
    assert forall|p: int| 0 <= p < head_dim implies #[trigger] q1[(t * (l + s) + i) * head_dim + p]
        == q2[(t * l + i) * head_dim + p] by {
        lemma_earlier_query(first, second, heads, t, i, p);
    }
    lemma_left_rows_equal(q1, l + s, i, q2, l, i, head_dim, t);
    let left = right_column(true, k1.elems, head_dim, total, t, j);
    let right = right_column(true, k2.elems, head_dim, before, t, j);
    assert forall|p: int| 0 <= p < head_dim implies left[p] == right[p] by {
        lemma_cache_of_earlier_rows(past, first, second, t, j, p);
        assert(t * (total * head_dim) + j * head_dim + p * 1 == (t * total + j) * head_dim + p)
            by (nonlinear_arith);
        assert(t * (before * head_dim) + j * head_dim + p * 1 == (t * before + j) * head_dim + p)
            by (nonlinear_arith);
        assert(left[p] == k1.elems[spot(t * (total * head_dim) + j * head_dim, 1, p)]);
        assert(right[p] == k2.elems[spot(t * (before * head_dim) + j * head_dim, 1, p)]);
    }
    assert(left =~= right);
}

/// The scores of row `i` of `qkv` in head `t` for all positions.
pub open spec fn score_row<S: Scalar>(past: Cache<S>, qkv: Array<S>, t: int, i: int) -> Seq<S> {
    row_of(
        fresh_scores(past, qkv).elems,
        past.key.dims[1] + qkv.dims[0],
        t * qkv.dims[0] + i,
    )
}

/// An earlier row attends to earlier positions as it does without the rows that come after it, and
/// to later positions not at all. In a head behind the first its scores for what it does not see
/// must not be above all others.
pub proof fn lemma_weights_of_earlier_rows<S: Scalar>(
    past: Cache<S>,
    first: Array<S>,
    second: Array<S>,
    t: int,
    i: int,
    j: int,
)
    requires
        two_ways(past, first, second),
        0 <= t < past.key.dims[0],
        0 <= i < first.dims[0],
        t == 0 || unrivalled(
            past.key.dims[1] as int,
            i,
            score_row(past, stacked(first, second), t, i),
        ),
        0 <= j < past.key.dims[1] + first.dims[0] + second.dims[0],
    ensures
        by_place(fresh_weights(past, stacked(first, second)), t, i, j) == if j < past.key.dims[1]
            + first.dims[0] {
            by_place(fresh_weights(past, first), t, i, j)
        } else {
            zero::<S>()
        },
{
    let h = past.key.dims[0] as int;
    let seen = past.key.dims[1] as int;
    let whole = stacked(first, second);
    let l = first.dims[0] as int;
    let s = second.dims[0] as int;
    let before = seen + l;
    let total = before + s;
    lemma_count_3(fresh_qk(past, whole).dims);
    lemma_count_3(fresh_qk(past, first).dims);
    let x1 = fresh_scores(past, whole).elems;
    let x2 = fresh_scores(past, first).elems;
    let r1 = t * (l + s) + i;
    let r2 = t * l + i;
    let row1 = row_of(x1, total, r1);
    let row2 = row_of(x2, before, r2);
    lemma_soft_entry(seen, h, l + s, total, x1, t, i, j);
    if j < before {
        lemma_soft_entry(seen, h, l, before, x2, t, i, j);
        assert forall|p: int| 0 <= p < before implies #[trigger] row1[p] == row2[p] by {
            lemma_earlier_scores(past, first, second, t, i, p);
        }
        assert(r1 >= i && r2 >= i && (t == 0 ==> r1 == i && r2 == i)) by (nonlinear_arith)
            requires
                r1 == t * (l + s) + i,
                r2 == t * l + i,
                t >= 0,
                l >= 0,
                s >= 0,
        ;
        if t > 0 {
            lemma_unrivalled_start(seen, i, row1, row2);
        }
        lemma_soft_row_decided(seen, r1, i, row1, seen, r2, i, row2, j);
    }
}

/// What attention makes of an earlier row does not depend on the rows that come after it: with other
/// rows in their place each number compares equal, unless it compares unequal even to itself. All
/// values that are attended to are ordinary numbers, and in a head behind the first the scores of the
/// row for what it does not see are not above all others.
pub proof fn lemma_later_rows_leave_earlier_alone<S: Scalar>(
    past: Cache<S>,
    first: Array<S>,
    one: Array<S>,
    other: Array<S>,
    i: int,
    t: int,
    k: int,
)
    requires
        two_ways(past, first, one),
        two_ways(past, first, other),
        one.dims == other.dims,
        0 <= i < first.dims[0],
        0 <= t < past.key.dims[0],
        0 <= k < head_dim_of(first.dims[1], past.key.dims[0]),
        t == 0 || unrivalled(
            past.key.dims[1] as int,
            i,
            score_row(past, stacked(first, one), t, i),
        ),
        t == 0 || unrivalled(
            past.key.dims[1] as int,
            i,
            score_row(past, stacked(first, other), t, i),
        ),
        all_finite(extended_cache(past, stacked(first, one)).value.elems),
        all_finite(extended_cache(past, stacked(first, other)).value.elems),
    ensures
        ({
            let hidden = (first.dims[1] / 3usize) as int;
            let head_dim = head_dim_of(first.dims[1], past.key.dims[0]) as int;
            let p = i * hidden + t * head_dim + k;
            agrees(
                attended_fresh(past, stacked(first, one)).elems[p],
                attended_fresh(past, stacked(first, other)).elems[p],
            )
        }),
{
    let heads = past.key.dims[0];
    let h = heads as int;
    let l = first.dims[0] as int;
    let s = one.dims[0] as int;
    let before = past.key.dims[1] + l;
    let total = before + s;
    let head_dim = head_dim_of(first.dims[1], heads) as int;
    let hidden = h * head_dim;
    let w1 = stacked(first, one);
    let w2 = stacked(first, other);
    lemma_width(first.dims[1], heads);
    lemma_count_3(fresh_qk(past, w1).dims);
    lemma_count_3(fresh_qk(past, w2).dims);
    lemma_count_3(fresh_out(past, w1).dims);
    lemma_count_3(fresh_out(past, w2).dims);
    lemma_count_3(past.key.dims);
    lemma_count_3(past.value.dims);
    let a1 = fresh_weights(past, w1).elems;
    let a2 = fresh_weights(past, w2).elems;
    let v1 = extended_cache(past, w1).value;
    let v2 = extended_cache(past, w2).value;
    let o1 = fresh_out(past, w1).elems;
    let o2 = fresh_out(past, w2).elems;
    assert forall|j: int| 0 <= j < total implies #[trigger] a1[(t * (l + s) + i) * total + j] == a2[(
    t * (l + s) + i) * total + j] by {
        lemma_weights_of_earlier_rows(past, first, one, t, i, j);
        lemma_weights_of_earlier_rows(past, first, other, t, i, j);
    }
    lemma_left_rows_equal(a1, l + s, i, a2, l + s, i, total, t);
    lemma_product_entry(false, h, l + s, total, head_dim, a1, v1.elems, o1, t, i, k);
    lemma_product_entry(false, h, l + s, total, head_dim, a2, v2.elems, o2, t, i, k);
    let row = left_row(a1, l + s, total, t, i);
    let c1 = right_column(false, v1.elems, total, head_dim, t, k);
    let c2 = right_column(false, v2.elems, total, head_dim, t, k);
    assert forall|j: int| 0 <= j < total implies {
        ||| {
            &&& row[j].equals(row[j]) ==> (#[trigger] row[j]).equals(row[j])
            &&& c1[j].equals(c1[j]) ==> c1[j].equals(c2[j])
        }
        ||| {
            &&& row[j] == S::counted(0)
            &&& c1[j].finite()
            &&& c2[j].finite()
        }
    } by {
        lemma_place_3(t, j, k, h, total, head_dim);
        assert(t * (head_dim * total) + k + j * head_dim == (t * total + j) * head_dim + k)
            by (nonlinear_arith);
        assert(c1[j] == v1.elems[spot(t * (head_dim * total) + k, head_dim, j)]);
        assert(c2[j] == v2.elems[spot(t * (head_dim * total) + k, head_dim, j)]);
        if j < before {
            lemma_cache_of_earlier_rows(past, first, one, t, j, k);
            lemma_cache_of_earlier_rows(past, first, other, t, j, k);
        } else {
            lemma_weights_of_earlier_rows(past, first, one, t, i, j);
            assert(t * ((l + s) * total) + i * total + j * 1 == (t * (l + s) + i) * total + j)
                by (nonlinear_arith);
            assert(row[j] == a1[spot(t * ((l + s) * total) + i * total, 1, j)]);
        }
    }
    let at = (t * (l + s) + i) * head_dim + k;
    S::lemma_dotted_agrees(o1[at], row, c1, row, c2);
    lemma_place_3(i, t, k, l + s, h, head_dim);
    assert(i * hidden + t * head_dim + k == (i * h + t) * head_dim + k) by (nonlinear_arith)
        requires
            hidden == h * head_dim,
    ;
}

/// What attention makes of an earlier row among later ones is what it makes of it without them: each
/// number compares equal, unless it compares unequal even to itself. All values that are attended to
/// are ordinary numbers, and in a head behind the first the scores of the row for what it does not
/// see are not above all others.
pub proof fn lemma_first_portion_alone<S: Scalar>(
    past: Cache<S>,
    first: Array<S>,
    second: Array<S>,
    i: int,
    t: int,
    k: int,
)
    requires
        two_ways(past, first, second),
        0 <= i < first.dims[0],
        0 <= t < past.key.dims[0],
        0 <= k < head_dim_of(first.dims[1], past.key.dims[0]),
        t == 0 || unrivalled(
            past.key.dims[1] as int,
            i,
            score_row(past, stacked(first, second), t, i),
        ),
        all_finite(extended_cache(past, stacked(first, second)).value.elems),
    ensures
        ({
            let hidden = (first.dims[1] / 3usize) as int;
            let head_dim = head_dim_of(first.dims[1], past.key.dims[0]) as int;
            let p = i * hidden + t * head_dim + k;
            agrees(
                attended_fresh(past, stacked(first, second)).elems[p],
                attended_fresh(past, first).elems[p],
            )
        }),
{
    let heads = past.key.dims[0];
    let h = heads as int;
    let l = first.dims[0] as int;
    let s = second.dims[0] as int;
    let before = past.key.dims[1] + l;
    let total = before + s;
    let head_dim = head_dim_of(first.dims[1], heads) as int;
    let hidden = h * head_dim;
    let whole = stacked(first, second);
    lemma_width(first.dims[1], heads);
    lemma_count_3(fresh_qk(past, whole).dims);
    lemma_count_3(fresh_qk(past, first).dims);
    lemma_count_3(fresh_out(past, whole).dims);
    lemma_count_3(fresh_out(past, first).dims);
    lemma_count_3(past.key.dims);
    lemma_count_3(past.value.dims);
    let a1 = fresh_weights(past, whole).elems;
    let a2 = fresh_weights(past, first).elems;
    let v1 = extended_cache(past, whole).value;
    let v2 = extended_cache(past, first).value;
    let o1 = fresh_out(past, whole).elems;
    let o2 = fresh_out(past, first).elems;
    lemma_product_entry(false, h, l + s, total, head_dim, a1, v1.elems, o1, t, i, k);
    lemma_product_entry(false, h, l, before, head_dim, a2, v2.elems, o2, t, i, k);
    let r1 = left_row(a1, l + s, total, t, i);
    let r2 = left_row(a2, l, before, t, i);
    let c1 = right_column(false, v1.elems, total, head_dim, t, k);
    let c2 = right_column(false, v2.elems, before, head_dim, t, k);
    let zeros = Seq::new(s as nat, |p: int| S::counted(0));
    let more = c1.skip(before);
    assert forall|j: int| 0 <= j < total implies {
        &&& #[trigger] r1[j] == (r2 + zeros)[j]
        &&& c1[j] == (c2 + more)[j]
        &&& c1[j].finite()
    } by {
        lemma_weights_of_earlier_rows(past, first, second, t, i, j);
        lemma_place_3(t, j, k, h, total, head_dim);
        assert(t * ((l + s) * total) + i * total + j * 1 == (t * (l + s) + i) * total + j)
            by (nonlinear_arith);
        assert(r1[j] == a1[spot(t * ((l + s) * total) + i * total, 1, j)]);
        assert(t * (head_dim * total) + k + j * head_dim == (t * total + j) * head_dim + k)
            by (nonlinear_arith);
        assert(c1[j] == v1.elems[spot(t * (head_dim * total) + k, head_dim, j)]);
        if j < before {
            lemma_cache_of_earlier_rows(past, first, second, t, j, k);
            assert(t * (l * before) + i * before + j * 1 == (t * l + i) * before + j)
                by (nonlinear_arith);
            assert(r2[j] == a2[spot(t * (l * before) + i * before, 1, j)]);
            assert(t * (head_dim * before) + k + j * head_dim == (t * before + j) * head_dim + k)
                by (nonlinear_arith);
            assert(c2[j] == v2.elems[spot(t * (head_dim * before) + k, head_dim, j)]);
        }
    }
    assert(r1 =~= r2 + zeros);
    assert forall|j: int| 0 <= j < total implies #[trigger] c1[j] == (c2 + more)[j] by {
        assert(r1[j] == (r2 + zeros)[j]);
    }
    assert(c1 =~= c2 + more);
    assert forall|p: int| 0 <= p < more.len() implies (#[trigger] more[p]).finite() by {
        assert(r1[before + p] == (r2 + zeros)[before + p]);
    }
    S::lemma_dotted_lengthened(zero::<S>(), r2, c2, more);
    lemma_place_3(i, t, k, l + s, h, head_dim);
    lemma_place_3(i, t, k, l, h, head_dim);
    assert(i * hidden + t * head_dim + k == (i * h + t) * head_dim + k) by (nonlinear_arith)
        requires
            hidden == h * head_dim,
    ;
}

/// Whether all of `values` are ordinary numbers.
pub open spec fn all_finite<S: Scalar>(values: Seq<S>) -> bool {
    forall|p: int| 0 <= p < values.len() ==> (#[trigger] values[p]).finite()
}

} // verus!
