use fast_gpt2::model::{Attention, Linear};
use fast_gpt2::ops::{add, causal_softmax, matmul, matmul_t, split_qkv};
use fast_gpt2::scalar::Scalar;
use fast_gpt2::tensor::{OwnedTensor, PastKeyValue, Tensor, ViewTensor};
use fast_gpt2::trace::Trace;

fn counting(from: u32, shape: Vec<usize>) -> OwnedTensor<Trace> {
    let count: usize = shape.iter().product();
    let data = (0..count as u32).map(|i| Trace { mark: from + 13 * i }).collect();
    OwnedTensor::new(data, shape)
}

fn marks(traces: &[Trace]) -> Vec<u32> {
    traces.iter().map(|t| t.mark).collect()
}

#[test]
fn transposed_factors() {
    let a = counting(3, vec![2, 2, 3]);
    let b = counting(50, vec![2, 4, 3]);
    let mut flipped = OwnedTensor::zeros(vec![2, 3, 4]);
    for t in 0..2 {
        for j in 0..4 {
            for p in 0..3 {
                flipped.data[(t * 3 + p) * 4 + j] = b.data[(t * 4 + j) * 3 + p];
            }
        }
    }
    let mut c = counting(7, vec![2, 2, 4]);
    let mut d = c.clone();
    matmul_t(&a, &b, &mut c);
    matmul(&a, &flipped, &mut d);
    assert_eq!(marks(&c.data), marks(&d.data));
}

#[test]
fn unseen_columns_of_one_matrix() {
    let mut x = counting(100, vec![3, 4]);
    let mut y = x.clone();
    // Row `i` sees columns up to `i + 1`.
    y.data[2] = Trace { mark: 9_000_000 };
    y.data[3] = Trace { mark: 1 };
    y.data[7] = Trace { mark: 77 };
    let mut scratch = vec![Trace { mark: 0 }; 3];
    causal_softmax(&mut x, &mut scratch, 1);
    causal_softmax(&mut y, &mut scratch, 1);
    assert_eq!(marks(&x.data), marks(&y.data));
    let zero = Trace::from_usize(0).mark;
    assert_eq!((x.data[2].mark, x.data[3].mark, x.data[7].mark), (zero, zero, zero));
}

#[test]
fn unseen_columns_of_a_later_matrix() {
    // In the second matrix the largest element is sought in the whole row.
    let mut x = counting(100, vec![2, 2, 2]);
    let mut y = x.clone();
    y.data[5] = Trace { mark: 9_000_000 };
    let mut scratch = vec![Trace { mark: 0 }; 4];
    causal_softmax(&mut x, &mut scratch, 0);
    causal_softmax(&mut y, &mut scratch, 0);
    assert_eq!(marks(&x.data[..4]), marks(&y.data[..4]));
    assert_ne!(x.data[4].mark, y.data[4].mark);
    let zero = Trace::from_usize(0).mark;
    assert_eq!((x.data[5].mark, y.data[5].mark), (zero, zero));
}

#[test]
fn heads_side_by_side_are_the_queries() {
    let (length, heads, head_dim) = (3, 2, 2);
    let hidden = heads * head_dim;
    let qkv = counting(1, vec![length, 3 * hidden]);
    let past = PastKeyValue::new(heads, 0, head_dim);
    let (query, _, _) = split_qkv(&qkv, &past);
    for j in 0..length {
        for column in 0..hidden {
            let (head, k) = (column / head_dim, column % head_dim);
            assert_eq!(
                query.data[(head * length + j) * head_dim + k].mark,
                qkv.data[j * 3 * hidden + column].mark
            );
        }
    }
}

#[test]
fn bias_meets_its_column() {
    let bias = counting(40, vec![3]);
    let before = counting(2, vec![2, 3]);
    let mut after = before.clone();
    add(&bias, &mut after);
    for i in 0..2 {
        for j in 0..3 {
            let expected = before.data[i * 3 + j].add(bias.data[j]);
            assert_eq!(after.data[i * 3 + j].mark, expected.mark);
        }
    }
}

fn linear(from: u32, rows: usize, columns: usize) -> Linear<'static, Trace> {
    let weight = counting(from, vec![rows, columns]);
    let bias = counting(from + 5, vec![columns]);
    let weight = ViewTensor {
        shape: weight.shape,
        data: fast_gpt2::tensor::Elements::Owned(weight.data),
    };
    let bias = ViewTensor {
        shape: bias.shape,
        data: fast_gpt2::tensor::Elements::Owned(bias.data),
    };
    Linear::new(weight, bias)
}

#[test]
fn attention_after_a_past_in_portions() {
    let attention =
        Attention { c_attn: linear(11, 4, 12), c_proj: linear(900, 4, 4), num_heads: 2 };
    let start = PastKeyValue { key: counting(70, vec![2, 2, 2]), value: counting(30, vec![2, 2, 2]) };
    let rows = counting(6, vec![5, 4]);

    let mut whole = rows.clone();
    let mut at_once = start.clone();
    attention.forward(&mut whole, &mut at_once);

    for split in 0..6 {
        let mut portions = start.clone();
        let mut first = OwnedTensor::new(rows.data[..4 * split].to_vec(), vec![split, 4]);
        attention.forward(&mut first, &mut portions);
        let mut second = OwnedTensor::new(rows.data[4 * split..].to_vec(), vec![5 - split, 4]);
        assert!(attention.accepts(second.shape(), portions.key.shape(), portions.value.shape()));
        // What was kept so far stays, and is what is kept of these rows among others.
        for head in 0..2 {
            let (n, m) = (2 + split, 7);
            let (early, late) = (2 * head * n, 2 * head * m);
            assert_eq!(
                marks(&portions.key.data[early..early + 2 * n]),
                marks(&at_once.key.data[late..late + 2 * n])
            );
            assert_eq!(
                marks(&portions.value.data[early..early + 4]),
                marks(&start.value.data[4 * head..4 * head + 4])
            );
        }
        attention.forward(&mut second, &mut portions);

        assert_eq!(marks(&whole.data[4 * split..]), marks(&second.data));
        assert_eq!(at_once.key.shape(), &[2, 7, 2]);
        assert_eq!(marks(at_once.key.data()), marks(portions.key.data()));
        assert_eq!(marks(at_once.value.data()), marks(portions.value.data()));
    }
}

#[test]
fn later_rows_have_no_say_in_the_first_head() {
    let heads = 1;
    let attend = |rest: u32| {
        let attention =
            Attention { c_attn: linear(11, 4, 12), c_proj: linear(900, 4, 4), num_heads: heads };
        let mut rows = counting(6, vec![4, 4]);
        for p in 8..16 {
            rows.data[p] = Trace { mark: rest + p as u32 };
        }
        let mut past = PastKeyValue::new(heads, 0, 4);
        attention.forward(&mut rows, &mut past);
        (marks(&rows.data), marks(past.key.data()))
    };
    let (one, one_key) = attend(1000);
    let (other, other_key) = attend(77);
    assert_eq!(one[..8], other[..8]);
    assert_ne!(one[8..], other[8..]);
    assert_eq!(one_key[..8], other_key[..8]);
}

#[test]
fn row_is_decided_by_what_it_sees() {
    // The first row of the second matrix of a stack, and the second row of a single matrix: both see
    // two columns, the same, and what they do not see stays below the largest of these.
    let stack: Vec<u32> =
        vec![5, 6, 7, 8, 9, 10, 11, 12, 13, 14, 15, 16, 20, 90, 30, 21, 80, 79, 17, 18, 19, 22, 23, 24];
    let single: Vec<u32> = vec![1, 2, 3, 20, 90, 60];
    let mut x = OwnedTensor::new(
        stack.iter().map(|m| Trace { mark: *m }).collect(),
        vec![2, 4, 3],
    );
    let mut y = OwnedTensor::new(
        single.iter().map(|m| Trace { mark: *m }).collect(),
        vec![2, 3],
    );
    let mut scratch = vec![Trace { mark: 0 }; 8];
    causal_softmax(&mut x, &mut scratch, 1);
    causal_softmax(&mut y, &mut scratch, 0);
    assert_eq!(marks(&x.data[12..15]), marks(&y.data[3..6]));
}

#[test]
fn layers_that_do_not_fit() {
    let layer = linear(1, 4, 3);
    assert!(layer.accepts(&[2, 4]));
    assert!(layer.accepts(&[0, 4]));
    assert!(!layer.accepts(&[2, 3]));
    assert!(!layer.accepts(&[2, 4, 1]));
    assert!(!layer.accepts(&[usize::MAX, 4]));
    let other = Linear::new(linear(1, 4, 3).weight, linear(1, 4, 2).bias);
    assert!(!other.accepts(&[2, 4]));
}
