//! Shapes: how many elements a shape describes.
use vstd::arithmetic::div_mod::{
    lemma_fundamental_div_mod, lemma_fundamental_div_mod_converse,
};
use vstd::arithmetic::mul::*;
use vstd::prelude::*;

verus! {

/// How many elements a tensor of shape `dims` holds.
pub open spec fn count(dims: Seq<usize>) -> nat
    decreases dims.len(),
{
    if dims.len() == 0 {
        1
    } else {
        count(dims.drop_last()) * (dims.last() as nat)
    }
}

pub proof fn lemma_count_1(dims: Seq<usize>)
    requires
        dims.len() == 1,
    ensures
        count(dims) == dims[0],
{
    assert(count(dims.drop_last()) == 1);
    assert(count(dims) == 1 * (dims.last() as nat));
}

pub proof fn lemma_count_2(dims: Seq<usize>)
    requires
        dims.len() == 2,
    ensures
        count(dims) == dims[0] * dims[1],
{
    let inner = dims.drop_last();
    assert(count(inner.drop_last()) == 1);
    assert(count(inner) == 1 * (inner.last() as nat));
    assert(count(dims) == count(inner) * (dims.last() as nat));
}

pub proof fn lemma_count_3(dims: Seq<usize>)
    requires
        dims.len() == 3,
    ensures
        count(dims) == dims[0] * dims[1] * dims[2],
{
    lemma_count_2(dims.drop_last());
}

/// A shape's last two dimensions split off.
pub proof fn lemma_count_split(dims: Seq<usize>)
    requires
        dims.len() >= 2,
    ensures
        count(dims) == count(dims.take(dims.len() - 2)) * (dims[dims.len() - 2]
            * dims[dims.len() - 1]),
{
    let inner = dims.drop_last();
    assert(inner.drop_last() =~= dims.take(dims.len() - 2));
    assert(count(inner) == count(inner.drop_last()) * (inner.last() as nat));
    assert(count(dims) == count(inner) * (dims.last() as nat));
    lemma_mul_is_associative(
        count(inner.drop_last()) as int,
        inner.last() as int,
        dims.last() as int,
    );
}

/// A shape's first dimension split off.
pub proof fn lemma_count_front(dims: Seq<usize>)
    requires
        dims.len() >= 1,
    ensures
        count(dims) == dims[0] * count(dims.skip(1)),
    decreases dims.len(),
{
    let inner = dims.drop_last();
    assert(count(dims) == count(inner) * (dims.last() as nat));
    if dims.len() == 1 {
        lemma_count_1(dims);
        assert(count(dims.skip(1)) == 1);
    } else {
        lemma_count_front(inner);
        let tail = dims.skip(1);
        assert(tail.drop_last() =~= inner.skip(1));
        assert(count(tail) == count(tail.drop_last()) * (tail.last() as nat));
        lemma_mul_is_associative(dims[0] as int, count(inner.skip(1)) as int, dims.last() as int);
    }
}

/// A shape with no empty dimension describes at least as much as each of its prefixes.
pub proof fn lemma_count_prefix(dims: Seq<usize>, i: int)
    requires
        0 <= i <= dims.len(),
        forall|x: int| 0 <= x < dims.len() ==> dims[x] > 0,
    ensures
        count(dims.take(i)) <= count(dims),
        count(dims) > 0,
    decreases dims.len(),
{
    if i == dims.len() {
        assert(dims.take(i) =~= dims);
    }
    if dims.len() > 0 {
        let inner = dims.drop_last();
        assert(forall|x: int| 0 <= x < inner.len() ==> inner[x] == dims[x]);
        let j = if i < dims.len() { i } else { 0 };
        lemma_count_prefix(inner, j);
        assert(inner.take(j) =~= dims.take(j));
        let p = count(inner) as int;
        let q = dims.last() as int;
        assert(p <= p * q && p * q > 0) by (nonlinear_arith)
            requires
                p > 0,
                q > 0,
        ;
    }
}

/// A shape with an empty dimension describes nothing.
pub proof fn lemma_count_empty(dims: Seq<usize>, i: int)
    requires
        0 <= i < dims.len(),
        dims[i] == 0,
    ensures
        count(dims) == 0,
    decreases dims.len(),
{
    let inner = dims.drop_last();
    if i < inner.len() {
        lemma_count_empty(inner, i);
    }
    lemma_mul_basics(count(inner) as int);
    lemma_mul_basics(dims.last() as int);
}

/// Where entry `(i, j)` of a matrix of `rows` rows and `columns` columns stands.
pub proof fn lemma_place_2(i: int, j: int, rows: int, columns: int)
    requires
        0 <= i < rows,
        0 <= j < columns,
    ensures
        0 <= i * columns + j < rows * columns,
        (i * columns + j) / columns == i,
        (i * columns + j) % columns == j,
{
    lemma_fundamental_div_mod_converse(i * columns + j, columns, i, j);
    assert(0 <= i * columns + j < rows * columns) by (nonlinear_arith)
        requires
            0 <= i < rows,
            0 <= j < columns,
    ;
}

/// Where entry `(i, j, k)` of a tensor of three dimensions stands.
pub proof fn lemma_place_3(i: int, j: int, k: int, n0: int, n1: int, n2: int)
    requires
        0 <= i < n0,
        0 <= j < n1,
        0 <= k < n2,
    ensures
        0 <= i * n1 + j < n0 * n1,
        (i * n1 + j) / n1 == i,
        (i * n1 + j) % n1 == j,
        0 <= (i * n1 + j) * n2 + k < n0 * n1 * n2,
        ((i * n1 + j) * n2 + k) / n2 == i * n1 + j,
        ((i * n1 + j) * n2 + k) % n2 == k,
{
    lemma_place_2(i, j, n0, n1);
    lemma_place_2(i * n1 + j, k, n0 * n1, n2);
}

/// Which entry of a tensor of three dimensions stands at `x`.
pub proof fn lemma_unplace_3(x: int, n0: int, n1: int, n2: int)
    requires
        0 <= x < n0 * n1 * n2,
        n0 >= 0,
        n1 >= 0,
        n2 >= 0,
    ensures
        n1 > 0,
        n2 > 0,
        0 <= (x / n2) / n1 < n0,
        0 <= (x / n2) % n1 < n1,
        0 <= x % n2 < n2,
        x == ((x / n2) / n1 * n1 + (x / n2) % n1) * n2 + x % n2,
{
    assert(n1 > 0 && n2 > 0) by (nonlinear_arith)
        requires
            0 <= x < n0 * n1 * n2,
            n0 >= 0,
            n1 >= 0,
            n2 >= 0,
    ;
    lemma_unplace_2(x, n0 * n1, n2);
    lemma_unplace_2(x / n2, n0, n1);
}

/// Which entry of a matrix stands at `x`.
pub proof fn lemma_unplace_2(x: int, rows: int, columns: int)
    requires
        0 <= x < rows * columns,
        columns > 0,
    ensures
        0 <= x / columns < rows,
        0 <= x % columns < columns,
        x == x / columns * columns + x % columns,
{
    lemma_fundamental_div_mod(x, columns);
    let q = x / columns;
    assert(0 <= q < rows && x == q * columns + x % columns) by (nonlinear_arith)
        requires
            x == columns * q + x % columns,
            0 <= x % columns < columns,
            0 <= x < rows * columns,
            columns > 0,
    ;
}

/// Counts the elements that a shape describes, where a machine word can hold the count.
pub fn element_count(shape: &[usize]) -> (r: Option<usize>)
    ensures
        r == (if count(shape@) <= usize::MAX {
            Some(count(shape@) as usize)
        } else {
            None
        }),
{
    let mut i: usize = 0;
    while i < shape.len()
        invariant
            i <= shape@.len(),
            forall|x: int| 0 <= x < i ==> shape@[x] > 0,
        decreases shape@.len() - i,
    {
        if shape[i] == 0 {
            proof {
                lemma_count_empty(shape@, i as int);
            }
            return Some(0);
        }
        i += 1;
    }
    let mut total: usize = 1;
    let mut i: usize = 0;
    assert(shape@.take(0) =~= Seq::empty());
    while i < shape.len()
        invariant
            i <= shape@.len(),
            forall|x: int| 0 <= x < shape@.len() ==> shape@[x] > 0,
            total == count(shape@.take(i as int)),
        decreases shape@.len() - i,
    {
        proof {
            assert(shape@.take(i + 1).drop_last() =~= shape@.take(i as int));
            lemma_count_prefix(shape@, i + 1);
        }
        match total.checked_mul(shape[i]) {
            Some(t) => {
                total = t;
            },
            None => {
                return None;
            },
        }
        i += 1;
    }
    assert(shape@.take(shape@.len() as int) =~= shape@);
    Some(total)
}

/// Whether two shapes are the same.
pub fn same_shape(a: &[usize], b: &[usize]) -> (r: bool)
    ensures
        r == (a@ == b@),
{
    if a.len() != b.len() {
        return false;
    }
    let mut i: usize = 0;
    while i < a.len()
        invariant
            i <= a@.len(),
            a@.len() == b@.len(),
            forall|x: int| 0 <= x < i ==> a@[x] == b@[x],
        decreases a@.len() - i,
    {
        if a[i] != b[i] {
            return false;
        }
        i += 1;
    }
    assert(a@ =~= b@);
    true
}

} // verus!
