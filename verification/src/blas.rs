//! How to ask a BLAS library for a product of strided matrices.
use vstd::prelude::*;

verus! {

/// Whether a matrix is stored row after row or column after column.
#[derive(Clone, Copy, Debug, PartialEq, Eq, Structural)]
pub enum Layout {
    RowMajor,
    ColMajor,
}

/// Whether a matrix is taken as stored, or with rows for columns.
#[derive(Clone, Copy, Debug, PartialEq, Eq, Structural)]
pub enum Transpose {
    No,
    Yes,
}

/// The layout, the transpositions of the two factors, and the leading dimensions of the two factors
/// and of the product.
#[derive(Clone, Copy, Debug, PartialEq, Eq, Structural)]
pub struct BlasCall {
    pub layout: Layout,
    pub a_tr: Transpose,
    pub b_tr: Transpose,
    pub lda: usize,
    pub ldb: usize,
    pub ldc: usize,
}

/// Where BLAS finds entry `(i, j)` of a matrix.
pub open spec fn blas_place(layout: Layout, tr: Transpose, ld: usize, i: int, j: int) -> int {
    if (layout == Layout::RowMajor) == (tr == Transpose::No) {
        i * ld + j
    } else {
        i + j * ld
    }
}

/// Strides of a matrix of `rows` by `columns` entries without gaps.
pub open spec fn gapless(rows: usize, columns: usize, rs: usize, cs: usize) -> bool {
    (rs == columns && cs == 1) || (rs == 1 && cs == rows)
}

/// The choice of a call: the product decides the layout, and a factor is transposed where its
/// strides run the other way than the product's.
pub open spec fn chosen(
    m: usize,
    k: usize,
    n: usize,
    ar: usize,
    ac: usize,
    br: usize,
    bc: usize,
    cr: usize,
    cc: usize,
    r: BlasCall,
) -> bool {
    &&& r.layout == if cr < cc {
        Layout::ColMajor
    } else {
        Layout::RowMajor
    }
    &&& (r.a_tr == Transpose::No) == ((ar < ac) == (cr < cc))
    &&& (r.b_tr == Transpose::No) == ((br < bc) == (cr < cc))
    &&& r.lda == if ar < ac {
        m
    } else {
        k
    }
    &&& r.ldb == if br < bc {
        k
    } else {
        n
    }
    &&& r.ldc == if cr < cc {
        m
    } else {
        n
    }
}

/// Chooses how to ask for the product of an `m` by `k` and a `k` by `n` matrix. `ar` and `ac` are the
/// row and column strides of the first factor, `br` and `bc` those of the second, `cr` and `cc`
/// those of the product.
pub fn blas_call(
    m: usize,
    k: usize,
    n: usize,
    ar: usize,
    ac: usize,
    br: usize,
    bc: usize,
    cr: usize,
    cc: usize,
) -> (r: BlasCall)
    ensures
        chosen(m, k, n, ar, ac, br, bc, cr, cc, r),
{
    if cr < cc {
        let (lda, a_tr): (usize, Transpose) = if ar < ac {
            (m, Transpose::No)
        } else {
            (k, Transpose::Yes)
        };
        let (ldb, b_tr): (usize, Transpose) = if br < bc {
            (k, Transpose::No)
        } else {
            (n, Transpose::Yes)
        };
        BlasCall { layout: Layout::ColMajor, a_tr, b_tr, lda, ldb, ldc: m }
    } else {
        let (lda, a_tr): (usize, Transpose) = if ar < ac {
            (m, Transpose::Yes)
        } else {
            (k, Transpose::No)
        };
        let (ldb, b_tr): (usize, Transpose) = if br < bc {
            (k, Transpose::Yes)
        } else {
            (n, Transpose::No)
        };
        BlasCall { layout: Layout::RowMajor, a_tr, b_tr, lda, ldb, ldc: n }
    }
}

/// Where the strides of a gapless matrix put an entry.
proof fn lemma_gapless(rows: usize, columns: usize, rs: usize, cs: usize, i: int, j: int)
    requires
        gapless(rows, columns, rs, cs),
        0 <= i < rows,
        0 <= j < columns,
    ensures
        i * rs + j * cs == if rs < cs {
            i + j * rows
        } else {
            i * columns + j
        },
{
    if rs == columns && cs == 1 {
        assert(j * cs == j) by (nonlinear_arith)
            requires
                cs == 1,
        ;
    } else {
        assert(i * rs == i) by (nonlinear_arith)
            requires
                rs == 1,
        ;
        if rows == 1 {
            assert(j * cs == j) by (nonlinear_arith)
                requires
                    cs == 1,
            ;
            assert(i * columns == 0) by (nonlinear_arith)
                requires
                    i == 0,
            ;
        }
    }
}

/// BLAS finds every entry of gapless matrices where their strides put it.
pub proof fn lemma_blas_call_finds_entries(
    m: usize,
    k: usize,
    n: usize,
    ar: usize,
    ac: usize,
    br: usize,
    bc: usize,
    cr: usize,
    cc: usize,
    r: BlasCall,
    i: int,
    p: int,
    j: int,
)
    requires
        chosen(m, k, n, ar, ac, br, bc, cr, cc, r),
        gapless(m, k, ar, ac),
        gapless(k, n, br, bc),
        gapless(m, n, cr, cc),
        0 <= i < m,
        0 <= p < k,
        0 <= j < n,
    ensures
        blas_place(r.layout, r.a_tr, r.lda, i, p) == i * ar + p * ac,
        blas_place(r.layout, r.b_tr, r.ldb, p, j) == p * br + j * bc,
        blas_place(r.layout, Transpose::No, r.ldc, i, j) == i * cr + j * cc,
{
    lemma_gapless(m, k, ar, ac, i, p);
    lemma_gapless(k, n, br, bc, p, j);
    lemma_gapless(m, n, cr, cc, i, j);
}

} // verus!
