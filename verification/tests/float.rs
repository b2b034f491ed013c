use fast_gpt2::model::{Attention, LayerNorm, Linear, Mlp};
use fast_gpt2::ops::{
    add, addmm, attention as attend, causal_softmax, faster_tanh, gelu, matmul, matmul_t, mul,
    normalize, select, softmax, special_argmax, split_qkv,
};
use fast_gpt2::scalar::{ratio, Line, Scalar};
use fast_gpt2::tensor::{OwnedTensor, PastKeyValue, Tensor, ViewTensor};

#[derive(Clone, Copy, Debug, PartialEq)]
struct F(f32);

impl Scalar for F {
    fn counted(n: usize) -> Self {
        F(n as f32)
    }
    fn lowest() -> Self {
        F(f32::NEG_INFINITY)
    }
    fn half_turn() -> Self {
        F(std::f32::consts::PI)
    }
    fn plus(self, other: Self) -> Self {
        F(self.0 + other.0)
    }
    fn minus(self, other: Self) -> Self {
        F(self.0 - other.0)
    }
    fn times(self, other: Self) -> Self {
        F(self.0 * other.0)
    }
    fn over(self, other: Self) -> Self {
        F(self.0 / other.0)
    }
    fn power(self, exponent: Self) -> Self {
        F(self.0.powf(exponent.0))
    }
    fn root(self) -> Self {
        F(self.0.sqrt())
    }
    fn exponential(self) -> Self {
        F(self.0.exp())
    }
    fn hyperbolic_tangent(self) -> Self {
        F(self.0.tanh())
    }
    fn exceeds(self, other: Self) -> bool {
        self.0 > other.0
    }
    fn equals(self, other: Self) -> bool {
        self.0 == other.0
    }
    fn finite(self) -> bool {
        self.0.is_finite()
    }
    fn dotted(self, _row: Line<Self>, _column: Line<Self>) -> Self {
        unreachable!()
    }
    fn encoded(self) -> [u8; 4] {
        self.0.to_ne_bytes()
    }
    fn decoded(bytes: [u8; 4]) -> Self {
        F(f32::from_ne_bytes(bytes))
    }
    fn lemma_decode_encode(self) {}
    fn lemma_exceeds_is_strict_order(_a: Self, _b: Self, _c: Self) {}
    fn lemma_plus_agrees(_a: Self, _b: Self, _c: Self) {}
    fn lemma_dotted_agrees(
        _start: Self,
        _row: Line<Self>,
        _column: Line<Self>,
        _other_row: Line<Self>,
        _other_column: Line<Self>,
    ) {
    }
    fn lemma_dotted_lengthened(
        _start: Self,
        _row: Line<Self>,
        _column: Line<Self>,
        _more: Line<Self>,
    ) {
    }
    fn lemma_order_is_total(_a: Self, _b: Self, _c: Self) {}

    fn from_usize(n: usize) -> Self {
        F(n as f32)
    }
    fn neg_infinity() -> Self {
        F(f32::NEG_INFINITY)
    }
    fn pi() -> Self {
        F(std::f32::consts::PI)
    }
    fn add(self, other: Self) -> Self {
        F(self.0 + other.0)
    }
    fn sub(self, other: Self) -> Self {
        F(self.0 - other.0)
    }
    fn mul(self, other: Self) -> Self {
        F(self.0 * other.0)
    }
    fn div(self, other: Self) -> Self {
        F(self.0 / other.0)
    }
    fn powf(self, exponent: Self) -> Self {
        F(self.0.powf(exponent.0))
    }
    fn sqrt(self) -> Self {
        F(self.0.sqrt())
    }
    fn exp(self) -> Self {
        F(self.0.exp())
    }
    fn tanh(self) -> Self {
        F(self.0.tanh())
    }
    fn gt(self, other: Self) -> bool {
        self.0 > other.0
    }
    fn same(self, other: Self) -> bool {
        self.0 == other.0
    }
    fn to_bytes(self) -> [u8; 4] {
        self.0.to_ne_bytes()
    }
    fn from_bytes(bytes: [u8; 4]) -> Self {
        F(f32::from_ne_bytes(bytes))
    }
    fn gemm(
        m: usize,
        k: usize,
        n: usize,
        a: &[Self],
        rsa: usize,
        csa: usize,
        b: &[Self],
        rsb: usize,
        csb: usize,
        c: &mut [Self],
    ) {
        for i in 0..m {
            for j in 0..n {
                let mut sum = 0.0f32;
                for p in 0..k {
                    sum += a[i * rsa + p * csa].0 * b[p * rsb + j * csb].0;
                }
                c[i * n + j].0 += sum;
            }
        }
    }
}

fn floats(values: &[f32]) -> Vec<F> {
    values.iter().map(|v| F(*v)).collect()
}

fn counting(from: usize, to: usize) -> Vec<F> {
    (from..to).map(|i| F(i as f32)).collect()
}

fn plain(values: &[F]) -> Vec<f32> {
    values.iter().map(|v| v.0).collect()
}

/// The values rounded to four decimals.
fn simplify(values: &[F]) -> Vec<f32> {
    values.iter().map(|v| (v.0 * 10000.0).round() / 10000.0).collect()
}

#[test]
fn simple_matmul() {
    let a = OwnedTensor::new(floats(&[1.0, 2.0, 3.0, 4.0]), vec![2, 2]);
    let data = floats(&[1.0, 2.0, 3.0, 4.0]);
    let b = ViewTensor::new(&data, vec![2, 2]);
    let mut c = OwnedTensor::new(vec![F(0.0); 4], vec![2, 2]);
    matmul(&a, &b, &mut c);
    assert_eq!(plain(&c.data), &[7.0, 10.0, 15.0, 22.0]);

    let a = OwnedTensor::new(floats(&[1.0, 2.0]), vec![2, 1]);
    let data = floats(&[3.0, 4.0]);
    let b = ViewTensor::new(&data, vec![1, 2]);
    let mut c = OwnedTensor::new(vec![F(0.0); 4], vec![2, 2]);
    matmul(&a, &b, &mut c);
    assert_eq!(plain(&c.data), &[3.0, 4.0, 6.0, 8.0]);

    let a = OwnedTensor::new(counting(0, 6), vec![2, 3]);
    let b = OwnedTensor::new(counting(2, 8), vec![3, 2]);
    let mut c = OwnedTensor::zeros(vec![2, 2]);
    matmul(&a, &b, &mut c);
    assert_eq!(plain(c.data()), &[16., 19., 52., 64.]);

    let a = OwnedTensor::new(counting(0, 12), vec![2, 2, 3]);
    let b = OwnedTensor::new(counting(2, 14), vec![2, 3, 2]);
    let mut c = OwnedTensor::zeros(vec![2, 2, 2]);
    matmul(&a, &b, &mut c);
    assert_eq!(plain(c.data()), &[16., 19., 52., 64., 214., 235., 304., 334.]);
}

#[test]
fn simple_matmul_t() {
    let a = OwnedTensor::new(floats(&[1.0, 2.0, 3.0, 4.0]), vec![2, 2]);
    // A.T
    let data = floats(&[1.0, 3.0, 2.0, 4.0]);
    let b = ViewTensor::new(&data, vec![2, 2]);
    let mut c = OwnedTensor::zeros(vec![2, 2]);
    matmul_t(&a, &b, &mut c);
    assert_eq!(plain(&c.data), &[7.0, 10.0, 15.0, 22.0]);

    let a = OwnedTensor::new(floats(&[1.0, 2.0]), vec![2, 1]);
    let data = floats(&[3.0, 4.0]);
    let b = ViewTensor::new(&data, vec![2, 1]);
    let mut c = OwnedTensor::zeros(vec![2, 2]);
    matmul_t(&a, &b, &mut c);
    assert_eq!(plain(&c.data), &[3.0, 4.0, 6.0, 8.0]);

    let a = OwnedTensor::new(counting(0, 6), vec![2, 3]);
    let b = OwnedTensor::new(counting(2, 8), vec![2, 3]);
    let mut c = OwnedTensor::zeros(vec![2, 2]);
    matmul_t(&a, &b, &mut c);
    assert_eq!(plain(c.data()), &[11., 20., 38., 74.]);

    let a = OwnedTensor::new(counting(0, 12), vec![2, 2, 3]);
    let b = OwnedTensor::new(counting(2, 14), vec![2, 2, 3]);
    let mut c = OwnedTensor::zeros(vec![2, 2, 2]);
    matmul_t(&a, &b, &mut c);
    assert_eq!(plain(c.data()), &[11., 20., 38., 74., 191., 254., 272., 362.]);
}

#[test]
fn simple_softmax() {
    let mut a = OwnedTensor::new(floats(&[1.0, 2.0, 3.0, 4.0]), vec![2, 2]);
    let mut max = vec![F(0.0); 2];
    softmax(&mut a, &mut max);
    assert_eq!(simplify(&a.data[..]), [0.2689, 0.7311, 0.2689, 0.7311]);
}

#[test]
fn simple_causal_softmax() {
    let mut a = OwnedTensor::new(floats(&[1.0, 2.0, 3.0, 4.0]), vec![2, 2]);
    // Large enough for the second test
    let mut max = vec![F(0.0); 3 * 2];
    causal_softmax(&mut a, &mut max, 0);
    assert_eq!(simplify(&a.data[..]), [1.0000, 0.0000, 0.2689, 0.7311]);

    let mut a = OwnedTensor::new(floats(&[1.0, 2.0, 3.0, 4.0]), vec![2, 2]);
    causal_softmax(&mut a, &mut max, 1);
    assert_eq!(simplify(&a.data[..]), [0.2689, 0.7311, 0.2689, 0.7311]);

    let mut a = OwnedTensor::new(counting(1, 13), vec![3, 2, 2]);
    causal_softmax(&mut a, &mut max, 0);
    assert_eq!(
        simplify(&a.data[..]),
        [
            1.0000, 0.0000, 0.2689, 0.7311, 1.0000, 0.0000, 0.2689, 0.7311, 1.0000, 0.0000, 0.2689,
            0.7311
        ]
    );

    let mut a = OwnedTensor::new(counting(1, 13), vec![2, 2, 3]);
    causal_softmax(&mut a, &mut max, 1);
    assert_eq!(
        simplify(&a.data[..]),
        [
            0.2689, 0.7311, 0.0, 0.09, 0.2447, 0.6652, 0.2689, 0.7311, 0.0, 0.09, 0.2447, 0.6652
        ]
    );
}

#[test]
fn simple_select() {
    let data = floats(&[1.0, 2.0, 3.0, 4.0]);
    let a = ViewTensor::new(&data, vec![2, 2]);
    let mut tensor = OwnedTensor::new(vec![F(0.0); 6], vec![3, 2]);
    select(&[1, 0, 0], &a, &mut tensor);
    assert_eq!(simplify(&tensor.data[..]), [3.0, 4.0, 1.0, 2.0, 1.0, 2.0]);
}

#[test]
fn simple_attention_qk() {
    let hidden_dim = 8;
    let num_heads = 2;
    let head_dim = hidden_dim / num_heads;
    let data = counting(0, hidden_dim * hidden_dim * 3);
    let weight = ViewTensor::new(&data, vec![hidden_dim, hidden_dim * 3]);
    let data = counting(0, hidden_dim * 3);
    let bias = ViewTensor::new(&data, vec![hidden_dim * 3]);
    let c_attn = Linear::new(weight, bias);

    let sequence_length = 3;
    let data = counting(0, sequence_length * hidden_dim);
    let mut qkv = OwnedTensor::new(data, vec![sequence_length, hidden_dim]);
    c_attn.forward(&mut qkv);
    assert_eq!(
        plain(qkv.data()),
        [
            3360., 3389., 3418., 3447., 3476., 3505., 3534., 3563., 3592., 3621., 3650., 3679.,
            3708., 3737., 3766., 3795., 3824., 3853., 3882., 3911., 3940., 3969., 3998., 4027.,
            8736., 8829., 8922., 9015., 9108., 9201., 9294., 9387., 9480., 9573., 9666., 9759.,
            9852., 9945., 10038., 10131., 10224., 10317., 10410., 10503., 10596., 10689., 10782.,
            10875., 14112., 14269., 14426., 14583., 14740., 14897., 15054., 15211., 15368., 15525.,
            15682., 15839., 15996., 16153., 16310., 16467., 16624., 16781., 16938., 17095., 17252.,
            17409., 17566., 17723.
        ]
    );
    let mut qk = OwnedTensor::zeros(vec![num_heads, sequence_length, sequence_length]);
    let past = PastKeyValue::new(num_heads, 0, head_dim);
    let (query, key, _) = split_qkv(&qkv, &past);
    assert_eq!(
        plain(query.data()),
        [
            3360., 3389., 3418., 3447., 8736., 8829., 8922., 9015., 14112., 14269., 14426., 14583.,
            3476., 3505., 3534., 3563., 9108., 9201., 9294., 9387., 14740., 14897., 15054., 15211.
        ]
    );
    assert_eq!(
        plain(key.data()),
        [
            3592., 3621., 3650., 3679., 9480., 9573., 9666., 9759., 15368., 15525., 15682., 15839.,
            3708., 3737., 3766., 3795., 9852., 9945., 10038., 10131., 15996., 16153., 16310.,
            16467.
        ]
    );
    matmul_t(&query, &key, &mut qk);
    plain(qk.data())
        .iter()
        .zip([
            49497900.0,
            130973350.0,
            212448800.0,
            129081000.0,
            341554720.0,
            554028500.0,
            208664100.0,
            552136100.0,
            895608200.0,
            52817820.0,
            140673820.0,
            228529820.0,
            138781470.0,
            369628860.0,
            600476200.0,
            224745120.0,
            598583900.0,
            972422660.0,
        ])
        .for_each(|(&l, r)| {
            let l: f32 = l;
            assert!((l - r).abs() / l < 1e-7);
        });
}

#[test]
fn simple_attention() {
    let hidden_dim = 8;
    let num_heads = 2;
    let head_dim = hidden_dim / num_heads;
    let data = counting(0, hidden_dim * hidden_dim * 3);
    let weight = ViewTensor::new(&data, vec![hidden_dim, hidden_dim * 3]);
    let data = counting(0, hidden_dim * 3);
    let bias = ViewTensor::new(&data, vec![hidden_dim * 3]);
    let c_attn = Linear::new(weight, bias);

    let sequence_length = 3;
    let mut qkv = OwnedTensor::new(
        vec![F(1.0); hidden_dim * sequence_length],
        vec![sequence_length, hidden_dim],
    );
    let key = OwnedTensor::zeros(vec![num_heads, 0, head_dim]);
    let value = OwnedTensor::zeros(vec![num_heads, 0, head_dim]);
    let mut past = PastKeyValue { key, value };
    c_attn.forward(&mut qkv);
    let mut qk = OwnedTensor::zeros(vec![num_heads, sequence_length, sequence_length]);

    let mut qv = OwnedTensor::zeros(vec![num_heads, sequence_length, head_dim]);
    let mut max = vec![F(0.0); sequence_length * num_heads];
    attend(&qkv, &mut qk, &mut max, &mut past, &mut qv);
    assert_eq!(past.key.shape(), vec![num_heads, sequence_length, head_dim]);
    assert_eq!(
        plain(past.key.data()),
        [
            744., 753., 762., 771., 744., 753., 762., 771., 744., 753., 762., 771., 780., 789.,
            798., 807., 780., 789., 798., 807., 780., 789., 798., 807.
        ]
    );
    assert_eq!(past.value.shape(), vec![num_heads, sequence_length, head_dim]);
    assert_eq!(
        plain(past.value.data()),
        [
            816., 825., 834., 843., 816., 825., 834., 843., 816., 825., 834., 843., 852., 861.,
            870., 879., 852., 861., 870., 879., 852., 861., 870., 879.
        ]
    );
    assert_eq!(
        plain(qv.data()),
        [
            816., 825., 834., 843., 852., 861., 870., 879., 816., 825., 834., 843., 852., 861.,
            870., 879., 816., 825., 834., 843., 852., 861., 870., 879.
        ]
    );
}

#[test]
fn attention() {
    let hidden_dim = 8;
    let num_heads = 2;
    let head_dim = hidden_dim / num_heads;
    let data_w = counting(0, hidden_dim * hidden_dim * 3);
    let weight = ViewTensor::new(&data_w, vec![hidden_dim, hidden_dim * 3]);
    let data_b = counting(0, hidden_dim * 3);
    let bias = ViewTensor::new(&data_b, vec![hidden_dim * 3]);
    let c_attn = Linear::new(weight, bias);

    let data_w2 = counting(0, hidden_dim * hidden_dim);
    let weight = ViewTensor::new(&data_w2, vec![hidden_dim, hidden_dim]);
    let data_b2 = counting(0, hidden_dim);
    let bias = ViewTensor::new(&data_b2, vec![hidden_dim]);
    let c_proj = Linear::new(weight, bias);

    let attention = Attention { c_attn, c_proj, num_heads };
    let sequence_length = 3;
    let mut input = OwnedTensor::new(
        vec![F(1.0); hidden_dim * sequence_length],
        vec![sequence_length, hidden_dim],
    );

    let key = OwnedTensor::zeros(vec![num_heads, 0, head_dim]);
    let value = OwnedTensor::zeros(vec![num_heads, 0, head_dim]);
    let mut past = PastKeyValue { key, value };
    attention.forward(&mut input, &mut past);
    assert_eq!(
        plain(input.data()),
        &[
            192864., 199645., 206426., 213207., 219988., 226769., 233550., 240331., 192864.,
            199645., 206426., 213207., 219988., 226769., 233550., 240331., 192864., 199645.,
            206426., 213207., 219988., 226769., 233550., 240331.
        ]
    );

    assert_eq!(past.key.shape(), vec![2, 3, 4]);
    assert_eq!(
        plain(past.key.data()),
        [
            744., 753., 762., 771., 744., 753., 762., 771., 744., 753., 762., 771., 780., 789.,
            798., 807., 780., 789., 798., 807., 780., 789., 798., 807.
        ]
    );
    assert_eq!(past.value.shape(), vec![2, 3, 4]);
    assert_eq!(
        plain(past.value.data()),
        [
            816., 825., 834., 843., 816., 825., 834., 843., 816., 825., 834., 843., 852., 861.,
            870., 879., 852., 861., 870., 879., 852., 861., 870., 879.
        ]
    );

    // Second pass
    let sequence_length = 1;
    let mut input =
        OwnedTensor::new(vec![F(1.0); hidden_dim], vec![sequence_length, hidden_dim]);
    attention.forward(&mut input, &mut past);
    assert_eq!(
        plain(input.data()),
        &[192864., 199645., 206426., 213207., 219988., 226769., 233550., 240331.]
    );
    assert_eq!(past.key.shape(), vec![2, 4, 4]);
    assert_eq!(
        plain(past.key.data()),
        &[
            744., 753., 762., 771., 744., 753., 762., 771., 744., 753., 762., 771., 744., 753.,
            762., 771., 780., 789., 798., 807., 780., 789., 798., 807., 780., 789., 798., 807.,
            780., 789., 798., 807.
        ]
    );
    assert_eq!(past.value.shape(), vec![2, 4, 4]);
    assert_eq!(
        plain(past.value.data()),
        &[
            816., 825., 834., 843., 816., 825., 834., 843., 816., 825., 834., 843., 816., 825.,
            834., 843., 852., 861., 870., 879., 852., 861., 870., 879., 852., 861., 870., 879.,
            852., 861., 870., 879.
        ]
    );
}

#[test]
fn mlp() {
    let hidden_dim = 8;
    let data1 = counting(0, hidden_dim * hidden_dim * 4);
    let weight = ViewTensor::new(&data1, vec![hidden_dim, hidden_dim * 4]);
    let data2 = counting(0, hidden_dim * 4);
    let bias = ViewTensor::new(&data2, vec![hidden_dim * 4]);
    let c_fc = Linear::new(weight, bias);

    let data3 = counting(0, hidden_dim * hidden_dim * 4);
    let weight = ViewTensor::new(&data3, vec![hidden_dim * 4, hidden_dim]);
    let data4 = counting(0, hidden_dim);
    let bias = ViewTensor::new(&data4, vec![hidden_dim]);
    let c_proj = Linear::new(weight, bias);

    let mlp = Mlp { c_fc, c_proj };
    let mut input = OwnedTensor::new(vec![F(1.0); hidden_dim], vec![1, hidden_dim]);
    mlp.forward(&mut input);
    assert_eq!(
        plain(input.data()),
        &[4305280., 4338417., 4371554., 4404691., 4437828., 4470965., 4504102., 4537239.]
    );
}

#[test]
fn layer_norm_of_small_rows() {
    let weight = floats(&[-1.0, 4.0]);
    let bias = floats(&[1.0, 2.0]);
    let layer_norm = LayerNorm {
        weight: ViewTensor::new(&weight, vec![2]),
        bias: ViewTensor::new(&bias, vec![2]),
        epsilon: F(1e-5),
    };
    let mut input = OwnedTensor::new(floats(&[10.0, 1.0, 1.0, 1.0]), vec![2, 2]);
    layer_norm.forward(&mut input);
    assert_eq!(simplify(input.data()), [0.0, -2.0, 1.0, 2.0]);
}

#[test]
fn constants_are_the_decimal_fractions() {
    assert_eq!(ratio::<F>(44715, 1000000).0, 0.044715f32);
    assert_eq!(ratio::<F>(1, 100000).0, 1e-5f32);
    assert_eq!(ratio::<F>(16489087, 100000000).0, 0.16489087f32);
    assert_eq!(ratio::<F>(985468, 100000000).0, 0.00985468f32);
    assert_eq!(ratio::<F>(1, 2).0, 0.5f32);
}

#[test]
fn normalize_gives_means_and_variances() {
    let mut x = OwnedTensor::new(floats(&[1.0, 3.0, 2.0, 2.0]), vec![2, 2]);
    let mut mean = floats(&[0.0, 0.0, 9.0]);
    let mut var = floats(&[0.0, 0.0, 8.0]);
    normalize(&mut x, &mut mean, &mut var, F(0.0));
    assert_eq!(plain(&mean), [2.0, 2.0, 9.0]);
    assert_eq!(plain(&var), [1.0, 0.0, 8.0]);
    assert_eq!(plain(&x.data[..2]), [-1.0, 1.0]);
    assert!(x.data[2].0.is_nan());
}

#[test]
fn softmax_leaves_divisors_in_the_scratch_space() {
    let mut x = OwnedTensor::new(floats(&[0.0, 0.0, 5.0, 5.0]), vec![2, 2]);
    let mut max = floats(&[0.0, 0.0, 7.0]);
    softmax(&mut x, &mut max);
    assert_eq!(plain(&x.data), [0.5, 0.5, 0.5, 0.5]);
    assert_eq!(plain(&max), [2.0, 2.0, 7.0]);
}

#[test]
fn gelu_of_known_values() {
    let mut x = OwnedTensor::new(floats(&[0.0, 1.0, -1.0, 100.0]), vec![4]);
    gelu(&mut x);
    assert_eq!(simplify(&x.data), [0.0, 0.8412, -0.1588, 100.0]);
}

#[test]
fn faster_tanh_is_close_to_tanh() {
    assert_eq!(faster_tanh(F(0.0)), F(0.0));
    let mut i = -40;
    while i <= 40 {
        let x = i as f32 / 10.0;
        assert!((faster_tanh(F(x)).0 - x.tanh()).abs() < 1e-3);
        i += 1;
    }
}

#[test]
fn add_and_mul_into_equal_shapes_and_rows() {
    let a = OwnedTensor::new(floats(&[1.0, 2.0]), vec![2]);
    let mut b = OwnedTensor::new(floats(&[1.0, 1.0, 2.0, 2.0]), vec![2, 2]);
    add(&a, &mut b);
    assert_eq!(plain(&b.data), [2.0, 3.0, 3.0, 4.0]);
    mul(&a, &mut b);
    assert_eq!(plain(&b.data), [2.0, 6.0, 3.0, 8.0]);
    let c = OwnedTensor::new(floats(&[1.0, 2.0, 3.0, 4.0]), vec![2, 2]);
    add(&c, &mut b);
    assert_eq!(plain(&b.data), [3.0, 8.0, 6.0, 12.0]);
}

#[test]
fn add_of_a_matrix_to_a_stack_moves_on_by_its_first_dimension() {
    let a = OwnedTensor::new(floats(&[1.0, 10.0, 100.0, 1000.0, 10000.0, 100000.0]), vec![2, 3]);
    let mut b = OwnedTensor::zeros(vec![2, 2, 3]);
    add(&a, &mut b);
    assert_eq!(
        plain(&b.data),
        [
            1.0, 10.0, 101.0, 1010.0, 10100.0, 101000.0, 10000.0, 100000.0, 0.0, 0.0, 0.0, 0.0
        ]
    );
}

#[test]
fn addmm_adds_to_what_is_there() {
    let x = OwnedTensor::new(floats(&[1.0, 2.0]), vec![1, 2]);
    let a = OwnedTensor::new(floats(&[1.0, 0.0, 0.0, 1.0]), vec![2, 2]);
    let b = OwnedTensor::new(floats(&[10.0, 20.0]), vec![2]);
    let mut out = OwnedTensor::new(floats(&[100.0, 200.0]), vec![1, 2]);
    addmm(&x, &a, &b, &mut out);
    assert_eq!(plain(&out.data), [111.0, 222.0]);
}

#[test]
fn argmax_looks_at_the_last_row() {
    let x = OwnedTensor::new(floats(&[9.0, 0.0, 0.0, 1.0, 3.0, 3.0]), vec![2, 3]);
    assert_eq!(special_argmax(&x), 1);
    let x = OwnedTensor::new(floats(&[f32::NAN, f32::NEG_INFINITY]), vec![1, 2]);
    assert_eq!(special_argmax(&x), usize::MAX);
    let x = OwnedTensor::new(floats(&[f32::NAN, -5.0]), vec![1, 2]);
    assert_eq!(special_argmax(&x), 1);
}

#[test]
fn sums_and_products_of_equal_numbers_are_equal() {
    let (zero, minus) = (F(0.0), F(-0.0));
    assert!(zero.same(minus));
    for c in [F(1.5), F(-0.0), F(f32::INFINITY)] {
        assert!(zero.add(c).same(minus.add(c)));
    }
    // Beside a zero weight any ordinary number will do.
    let row = floats(&[0.5, 0.0, 0.25]);
    let mut one = vec![F(3.0)];
    let mut other = vec![F(3.0)];
    F::gemm(1, 3, 1, &row, 3, 1, &floats(&[2.0, 7.0, 8.0]), 1, 1, &mut one);
    F::gemm(1, 3, 1, &row, 3, 1, &floats(&[2.0, -900.0, 8.0]), 1, 1, &mut other);
    assert!(one[0].same(other[0]));
    assert_eq!(one[0].0, 6.0);
}

#[test]
fn later_rows_leave_earlier_rows_alone() {
    // Two heads of two elements; the rows differ from the third on.
    let first: Vec<f32> = (0..24).map(|i| ((i * 7) % 5) as f32 * 0.25).collect();
    let one: Vec<f32> = (0..12).map(|i| ((i * 3) % 4) as f32 * -0.5).collect();
    let other: Vec<f32> = (0..12).map(|i| ((i * 5) % 7) as f32 * -0.125).collect();
    let run = |rest: &[f32]| {
        let data = floats(&[&first[..], rest].concat());
        let qkv = OwnedTensor::new(data, vec![3, 12]);
        let mut qk = OwnedTensor::zeros(vec![2, 3, 3]);
        let mut out = OwnedTensor::zeros(vec![2, 3, 2]);
        let mut past = PastKeyValue::new(2, 0, 2);
        let mut max = vec![F(0.0); 6];
        attend(&qkv, &mut qk, &mut max, &mut past, &mut out);
        (plain(out.data()), plain(past.key.data()), plain(past.value.data()))
    };
    let (out1, key1, value1) = run(&one);
    let (out2, key2, value2) = run(&other);
    for p in 0..8 {
        assert!((out1[p] - out2[p]).abs() < 1e-6);
        // In the first head exactly.
        if p % 4 < 2 {
            assert_eq!(out1[p], out2[p]);
        }
    }
    assert_ne!(out1[8..], out2[8..]);
    for head in 0..2 {
        let at = head * 6;
        assert_eq!(key1[at..at + 4], key2[at..at + 4]);
        assert_eq!(value1[at..at + 4], value2[at..at + 4]);
    }
}

#[test]
fn zeros_behind_a_row_change_nothing() {
    let mut short = vec![F(3.0)];
    let mut long = vec![F(3.0)];
    F::gemm(1, 2, 1, &floats(&[0.5, 0.1]), 2, 1, &floats(&[2.0, 0.7]), 1, 1, &mut short);
    let row = floats(&[0.5, 0.1, 0.0, 0.0]);
    F::gemm(1, 4, 1, &row, 4, 1, &floats(&[2.0, 0.7, -9.0, 1e30]), 1, 1, &mut long);
    assert!(long[0].same(short[0]));
}

#[test]
fn earlier_rows_among_later_ones_are_the_rows_alone() {
    let qkv: Vec<f32> = (0..36).map(|i| ((i * 7) % 11) as f32 * 0.125).collect();
    let run = |rows: usize| {
        let tensor = OwnedTensor::new(floats(&qkv[..12 * rows]), vec![rows, 12]);
        let mut qk = OwnedTensor::zeros(vec![2, rows, rows]);
        let mut out = OwnedTensor::zeros(vec![2, rows, 2]);
        let mut past = PastKeyValue::new(2, 0, 2);
        let mut max = vec![F(0.0); 2 * rows];
        attend(&tensor, &mut qk, &mut max, &mut past, &mut out);
        plain(out.data())
    };
    let whole = run(3);
    for rows in 1..3 {
        let alone = run(rows);
        for p in 0..4 * rows {
            assert!((whole[p] - alone[p]).abs() < 1e-6);
            // In the first head exactly.
            if p % 4 < 2 {
                assert_eq!(whole[p], alone[p]);
            }
        }
    }
}

#[test]
fn argmax_is_the_first_of_the_largest() {
    let nan = f32::NAN;
    let row = |values: &[f32]| OwnedTensor::new(floats(values), vec![1, values.len()]);
    assert_eq!(special_argmax(&row(&[1.0, 3.0, nan, 3.0, 2.0])), 1);
    assert_eq!(special_argmax(&row(&[nan, -0.0, 0.0])), 1);
    assert_eq!(special_argmax(&row(&[f32::NEG_INFINITY, nan])), usize::MAX);
    assert_eq!(special_argmax(&row(&[])), usize::MAX);
}

#[test]
fn gelu_of_elements_without_a_shape() {
    let mut x = OwnedTensor { shape: vec![7], data: floats(&[0.0, 1.0]) };
    gelu(&mut x);
    assert_eq!(simplify(x.data()), vec![0.0, 0.8412]);
    assert_eq!(x.shape(), &[7]);
}
