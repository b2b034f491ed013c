use fast_gpt2::blas::{blas_call, BlasCall, Layout, Transpose};

#[test]
fn rows_after_rows() {
    let call = blas_call(2, 3, 4, 3, 1, 4, 1, 4, 1);
    let expected = BlasCall {
        layout: Layout::RowMajor,
        a_tr: Transpose::No,
        b_tr: Transpose::No,
        lda: 3,
        ldb: 4,
        ldc: 4,
    };
    assert_eq!(call, expected);
}

#[test]
fn second_factor_stored_with_rows_for_columns() {
    let call = blas_call(2, 3, 4, 3, 1, 1, 3, 4, 1);
    assert_eq!((call.a_tr, call.b_tr), (Transpose::No, Transpose::Yes));
    assert_eq!((call.lda, call.ldb, call.ldc), (3, 3, 4));
}

#[test]
fn product_stored_column_after_column() {
    let call = blas_call(2, 3, 4, 3, 1, 1, 3, 1, 2);
    assert_eq!(call.layout, Layout::ColMajor);
    assert_eq!((call.a_tr, call.b_tr), (Transpose::Yes, Transpose::No));
    assert_eq!((call.lda, call.ldb, call.ldc), (3, 3, 2));
}
