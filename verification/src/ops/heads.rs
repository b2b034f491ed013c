//! How the projected input of an attention layer falls into heads.
use crate::scalar::Scalar;
use crate::shape::{lemma_count_3, lemma_place_2, lemma_place_3, lemma_unplace_3};
use crate::tensor::{Array, Cache, OwnedTensor, PastKeyValue, Tensor};
use vstd::arithmetic::div_mod::lemma_fundamental_div_mod;
use vstd::prelude::*;

verus! {

/// Which third of a projected row is meant.
pub const QUERY: usize = 0;

pub const KEY: usize = 1;

pub const VALUE: usize = 2;

/// One element of a third of a projected row. A row holds its query, its key and its value, each of
/// `hidden` elements.
pub open spec fn projected<S>(
    qkv: Seq<S>,
    hidden: int,
    position: int,
    part: int,
    column: int,
) -> S {
    qkv[position * (3 * hidden) + part * hidden + column]
}

/// One third of the projected rows, head by head, after what the past holds for each head.
pub open spec fn by_head<S>(
    past: Seq<S>,
    past_length: int,
    qkv: Seq<S>,
    part: int,
    heads: int,
    length: int,
    head_dim: int,
) -> Seq<S> {
    let total = past_length + length;
    Seq::new(
        (heads * total * head_dim) as nat,
        |x: int|
            {
                let head = (x / head_dim) / total;
                let position = (x / head_dim) % total;
                let k = x % head_dim;
                if position < past_length {
                    past[(head * past_length + position) * head_dim + k]
                } else {
                    projected(
                        qkv,
                        heads * head_dim,
                        position - past_length,
                        part,
                        head * head_dim + k,
                    )
                }
            },
    )
}

/// The element size of a head, for projected rows of `width` elements.
pub open spec fn head_dim_of(width: usize, heads: usize) -> usize {
    width / 3usize / heads
}

/// When projected rows fall into heads and the past holds enough to precede them.
pub open spec fn split_fits<S>(qkv: Array<S>, past: Cache<S>) -> bool {
    let heads = past.key.dims[0];
    let past_length = past.key.dims[1];
    let length = qkv.dims[0];
    let width = qkv.dims[1];
    let head_dim = head_dim_of(width, heads);
    &&& qkv.dims.len() >= 2
    &&& past.key.dims.len() >= 2
    &&& width % 3 == 0
    &&& heads > 0
    &&& (width / 3usize) % heads == 0
    &&& length * width <= qkv.elems.len()
    &&& heads * past_length * head_dim <= past.key.elems.len()
    &&& heads * past_length * head_dim <= past.value.elems.len()
    &&& past_length + length <= usize::MAX
}

/// The queries of projected rows, by head.
pub open spec fn queries<S>(qkv: Array<S>, heads: usize) -> Array<S> {
    let length = qkv.dims[0];
    let head_dim = head_dim_of(qkv.dims[1], heads);
    Array {
        dims: seq![heads, length, head_dim],
        elems: by_head(
            Seq::empty(),
            0,
            qkv.elems,
            QUERY as int,
            heads as int,
            length as int,
            head_dim as int,
        ),
    }
}

/// The past followed, for each head, by a third of the projected rows.
pub open spec fn extended<S>(past: Array<S>, qkv: Array<S>, part: usize, heads: usize) -> Array<S> {
    let past_length = past.dims[1];
    let length = qkv.dims[0];
    let head_dim = head_dim_of(qkv.dims[1], heads);
    Array {
        dims: seq![heads, (past_length + length) as usize, head_dim],
        elems: by_head(
            past.elems,
            past_length as int,
            qkv.elems,
            part as int,
            heads as int,
            length as int,
            head_dim as int,
        ),
    }
}

/// A cache that has also seen the keys and values of projected rows.
pub open spec fn extended_cache<S>(past: Cache<S>, qkv: Array<S>) -> Cache<S> {
    let heads = past.key.dims[0];
    let value = Array { dims: past.key.dims, elems: past.value.elems };
    Cache {
        key: extended(past.key, qkv, KEY, heads),
        value: extended(value, qkv, VALUE, heads),
    }
}

/// Splits projected rows into queries, keys and values by head, keys and values after those of the
/// past.
pub fn split_qkv<S: Scalar, T: Tensor<S>>(qkv: &T, past: &PastKeyValue<S>) -> (r: (
    OwnedTensor<S>,
    OwnedTensor<S>,
    OwnedTensor<S>,
))
    requires
        split_fits(qkv@, past@),
    ensures
        r.0@ == queries(qkv@, past@.key.dims[0]),
        r.1@ == extended_cache(past@, qkv@).key,
        r.2@ == extended_cache(past@, qkv@).value,
        r.0@.wf(),
        r.1@.wf(),
        r.2@.wf(),
{
    let sequence_length: usize = qkv.shape()[0];
    let past_sequence_length: usize = past.key.shape()[1];
    let hidden_dim: usize = qkv.shape()[1] / 3;
    let num_heads: usize = past.key.shape()[0];
    let head_dim: usize = hidden_dim / num_heads;
    let total: usize = past_sequence_length + sequence_length;
    proof {
        lemma_width(qkv@.dims[1], num_heads);
        lemma_count_3(seq![num_heads, sequence_length, head_dim]);
        lemma_count_3(seq![num_heads, total, head_dim]);
        assert(0 + sequence_length == sequence_length);
        assert(num_heads * 0 * head_dim == 0) by (nonlinear_arith);
        assert(num_heads * sequence_length * head_dim >= 0) by (nonlinear_arith);
        assert(num_heads * total * head_dim >= 0) by (nonlinear_arith);
    }
    let empty: Vec<S> = Vec::new();
    let query_data = gather(
        empty.as_slice(),
        0,
        qkv.data(),
        QUERY,
        num_heads,
        sequence_length,
        head_dim,
    );
    let key_data = gather(
        past.key.data(),
        past_sequence_length,
        qkv.data(),
        KEY,
        num_heads,
        sequence_length,
        head_dim,
    );
    let value_data = gather(
        past.value.data(),
        past_sequence_length,
        qkv.data(),
        VALUE,
        num_heads,
        sequence_length,
        head_dim,
    );
    assert(empty@ =~= Seq::empty());
    let query = OwnedTensor::new(query_data, vec![num_heads, sequence_length, head_dim]);
    let key = OwnedTensor::new(key_data, vec![num_heads, total, head_dim]);
    let value = OwnedTensor::new(value_data, vec![num_heads, total, head_dim]);
    (query, key, value)
}

/// A projected row is three times the heads.
pub proof fn lemma_width(width: usize, heads: usize)
    requires
        width % 3 == 0,
        heads > 0,
        (width / 3usize) % heads == 0,
    ensures
        width == 3 * (heads * head_dim_of(width, heads)),
{
    lemma_fundamental_div_mod((width / 3usize) as int, heads as int);
}

fn gather<S: Copy>(
    past: &[S],
    past_length: usize,
    qkv: &[S],
    part: usize,
    heads: usize,
    length: usize,
    head_dim: usize,
) -> (r: Vec<S>)
    requires
        part < 3,
        past_length + length <= usize::MAX,
        heads * past_length * head_dim <= past@.len(),
        length * (3 * (heads * head_dim)) <= qkv@.len(),
        3 * (heads * head_dim) <= usize::MAX,
    ensures
        r@ == by_head(
            past@,
            past_length as int,
            qkv@,
            part as int,
            heads as int,
            length as int,
            head_dim as int,
        ),
{
    let ghost whole = by_head(
        past@,
        past_length as int,
        qkv@,
        part as int,
        heads as int,
        length as int,
        head_dim as int,
    );
    let total: usize = past_length + length;
    let mut out: Vec<S> = Vec::new();
    let mut i: usize = 0;
    assert(0 * total * head_dim == 0) by (nonlinear_arith);
    assert(out@ =~= whole.take(0));
    while i < heads
        invariant
            i <= heads,
            total == past_length + length,
            part < 3,
            heads * past_length * head_dim <= past@.len(),
            length * (3 * (heads * head_dim)) <= qkv@.len(),
            3 * (heads * head_dim) <= usize::MAX,
            whole == by_head(
                past@,
                past_length as int,
                qkv@,
                part as int,
                heads as int,
                length as int,
                head_dim as int,
            ),
            out@ == whole.take(i * total * head_dim),
        decreases heads - i,
    {
        let mut j: usize = 0;
        while j < total
            invariant
                i < heads,
                j <= total,
                total == past_length + length,
                part < 3,
                heads * past_length * head_dim <= past@.len(),
                length * (3 * (heads * head_dim)) <= qkv@.len(),
                3 * (heads * head_dim) <= usize::MAX,
                whole == by_head(
                    past@,
                    past_length as int,
                    qkv@,
                    part as int,
                    heads as int,
                    length as int,
                    head_dim as int,
                ),
                out@ == whole.take((i * total + j) * head_dim),
            decreases total - j,
        {
            let mut k: usize = 0;
            while k < head_dim
                invariant
                    i < heads,
                    j < total,
                    k <= head_dim,
                    total == past_length + length,
                    part < 3,
                    heads * past_length * head_dim <= past@.len(),
                    length * (3 * (heads * head_dim)) <= qkv@.len(),
                    3 * (heads * head_dim) <= usize::MAX,
                    whole == by_head(
                        past@,
                        past_length as int,
                        qkv@,
                        part as int,
                        heads as int,
                        length as int,
                        head_dim as int,
                    ),
                    out@ == whole.take((i * total + j) * head_dim + k),
                decreases head_dim - k,
            {
                let ghost x = (i * total + j) * head_dim + k;
                proof {
                    lemma_place_3(
                        i as int,
                        j as int,
                        k as int,
                        heads as int,
                        total as int,
                        head_dim as int,
                    );
                }
                let value = if j < past_length {
                    proof {
                        lemma_place_3(
                            i as int,
                            j as int,
                            k as int,
                            heads as int,
                            past_length as int,
                            head_dim as int,
                        );
                        assert(0 <= i * past_length && i * past_length + j <= (i * past_length + j)
                            * head_dim) by (nonlinear_arith)
                            requires
                                head_dim >= 1,
                        ;
                        assert(past.len() == past@.len());
                    }
                    past[(i * past_length + j) * head_dim + k]
                } else {
                    let hidden: usize = heads * head_dim;
                    let row: usize = j - past_length;
                    proof {
                        lemma_place_2(i as int, k as int, heads as int, head_dim as int);
                        lemma_row_part(
                            row as int,
                            part as int,
                            i * head_dim + k,
                            length as int,
                            hidden as int,
                        );
                        assert(qkv.len() == qkv@.len());
                    }
                    qkv[row * (3 * hidden) + part * hidden + (i * head_dim + k)]
                };
                out.push(value);
                proof {
                    assert(value == whole[x]);
                    assert(out@ =~= whole.take(x + 1));
                }
                k += 1;
            }
            proof {
                assert((i * total + j) * head_dim + head_dim == (i * total + (j + 1)) * head_dim)
                    by (nonlinear_arith);
            }
            j += 1;
        }
        proof {
            assert((i * total + total) == (i + 1) * total) by (nonlinear_arith);
        }
        i += 1;
    }
    proof {
        assert(whole.take(heads * total * head_dim) =~= whole);
    }
    out
}

/// An element of a row's third lies inside the rows.
pub proof fn lemma_row_part(row: int, part: int, column: int, rows: int, hidden: int)
    requires
        0 <= row < rows,
        0 <= part < 3,
        0 <= column < hidden,
    ensures
        0 <= row * (3 * hidden),
        0 <= part * hidden,
        row * (3 * hidden) + part * hidden + column < rows * (3 * hidden),
{
    assert(0 <= row * (3 * hidden) && 0 <= part * hidden && row * (3 * hidden) + part * hidden
        + column < rows * (3 * hidden)) by (nonlinear_arith)
        requires
            0 <= row < rows,
            0 <= part < 3,
            0 <= column < hidden,
    ;
}

/// Seeing rows in two portions leaves what seeing them at once leaves.
pub proof fn lemma_by_head_extends<S>(
    past: Seq<S>,
    past_length: int,
    first: Seq<S>,
    second: Seq<S>,
    part: int,
    heads: int,
    length: int,
    more: int,
    head_dim: int,
)
    requires
        0 <= past_length,
        0 <= length,
        0 <= more,
        0 <= heads,
        0 <= head_dim,
        0 <= part < 3,
        first.len() == length * (3 * (heads * head_dim)),
        second.len() == more * (3 * (heads * head_dim)),
    ensures
        by_head(
            by_head(past, past_length, first, part, heads, length, head_dim),
            past_length + length,
            second,
            part,
            heads,
            more,
            head_dim,
        ) == by_head(past, past_length, first + second, part, heads, length + more, head_dim),
{
    let middle = by_head(past, past_length, first, part, heads, length, head_dim);
    let left = by_head(middle, past_length + length, second, part, heads, more, head_dim);
    let right = by_head(past, past_length, first + second, part, heads, length + more, head_dim);
    let total = past_length + length + more;
    assert(heads * total * head_dim >= 0 && heads * (past_length + length) * head_dim >= 0)
        by (nonlinear_arith)
        requires
            heads >= 0,
            total >= 0,
            past_length + length >= 0,
            head_dim >= 0,
    ;
    assert forall|x: int| 0 <= x < left.len() implies left[x] == right[x] by {
        lemma_unplace_3(x, heads, total, head_dim);
        let head = (x / head_dim) / total;
        let position = (x / head_dim) % total;
        let k = x % head_dim;
        if position < past_length + length {
            lemma_place_3(head, position, k, heads, past_length + length, head_dim);
        }
        if position >= past_length {
            let hidden = heads * head_dim;
            let row = position - past_length;
            lemma_place_2(head, k, heads, head_dim);
            if row < length {
                lemma_row_part(row, part, head * head_dim + k, length, hidden);
            } else {
                lemma_row_part(row - length, part, head * head_dim + k, more, hidden);
                assert(row * (3 * hidden) == (row - length) * (3 * hidden) + length * (3 * hidden))
                    by (nonlinear_arith);
            }
        }
    }
    assert(left =~= right);
}

} // verus!
