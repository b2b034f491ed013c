use fast_gpt2::model::mlp::SpecialError;
use fast_gpt2::model::stack::caches_whole;
use fast_gpt2::model::{Gpt2, Gpt2Layer, Linear};
use fast_gpt2::ops::add;
use fast_gpt2::shape::element_count;
use fast_gpt2::tensor::{OwnedTensor, PastKeyValue, Tensor};
use fast_gpt2::trace::Trace;
use fast_gpt2::weights::{find, layer_tensor_name, LoadError};
use fast_gpt2::wire::{request_text, ReplyError};
use safetensors::tensor::{Dtype, TensorView};
use safetensors::{serialize, SafeTensors};

const VOCABULARY: usize = 5;
const CONTEXT: usize = 9;
const INNER: usize = 6;

/// The names and shapes of the tensors of a network.
fn shapes(hidden: usize) -> Vec<(String, Vec<usize>)> {
    let mut all = vec![
        ("wte.weight".to_string(), vec![VOCABULARY, hidden]),
        ("wpe.weight".to_string(), vec![CONTEXT, hidden]),
        ("ln_f.weight".to_string(), vec![hidden]),
        ("ln_f.bias".to_string(), vec![hidden]),
    ];
    for i in 0..12 {
        for (part, shape) in [
            ("ln_1.weight", vec![hidden]),
            ("ln_1.bias", vec![hidden]),
            ("ln_2.weight", vec![hidden]),
            ("ln_2.bias", vec![hidden]),
            ("mlp.c_fc.weight", vec![hidden, INNER]),
            ("mlp.c_fc.bias", vec![INNER]),
            ("mlp.c_proj.weight", vec![INNER, hidden]),
            ("mlp.c_proj.bias", vec![hidden]),
            ("attn.c_attn.weight", vec![hidden, 3 * hidden]),
            ("attn.c_attn.bias", vec![3 * hidden]),
            ("attn.c_proj.weight", vec![hidden, hidden]),
            ("attn.c_proj.bias", vec![hidden]),
        ] {
            all.push((format!("h.{i}.{part}"), shape));
        }
    }
    all
}

/// A file of tensors. The elements of tensor `t` count from `1000 * t` on.
fn file(tensors: &[(String, Vec<usize>)], dtype: Dtype, size: usize) -> Vec<u8> {
    let mut data: Vec<Vec<u8>> = Vec::new();
    for (t, (_, shape)) in tensors.iter().enumerate() {
        let count: usize = shape.iter().product();
        let mut bytes: Vec<u8> = Vec::new();
        for e in 0..count {
            let value = (1000 * t + e) as u32;
            bytes.extend_from_slice(&value.to_le_bytes()[..size]);
        }
        data.push(bytes);
    }
    let views: Vec<(String, TensorView)> = tensors
        .iter()
        .zip(data.iter())
        .map(|((name, shape), bytes)| {
            (name.clone(), TensorView::new(dtype, shape.clone(), bytes).unwrap())
        })
        .collect();
    serialize(views, None).unwrap()
}

fn marks(traces: &[Trace]) -> Vec<u32> {
    traces.iter().map(|t| t.mark).collect()
}

#[test]
fn network_is_loaded_by_name() {
    let names = shapes(4);
    let buffer = file(&names, Dtype::U32, 4);
    let tensors = SafeTensors::deserialize(&buffer).unwrap();
    let gpt2: Gpt2<Trace> = Gpt2::from_tensors(&tensors, 2).ok().unwrap();
    assert_eq!(gpt2.h.layers.len(), 12);
    assert_eq!(gpt2.num_heads, 2);
    assert_eq!(gpt2.wte.weight.shape(), &[VOCABULARY, 4]);
    assert_eq!(marks(&gpt2.wte.weight.data()[..3]), vec![0, 1, 2]);
    assert_eq!(marks(gpt2.lm_head.weight.data()), marks(gpt2.wte.weight.data()));
    assert_eq!(marks(&gpt2.wpe.weight.data()[..2]), vec![1000, 1001]);
    assert_eq!(marks(gpt2.ln_f.bias.data()), vec![3000, 3001, 3002, 3003]);
    for i in 0..12 {
        let layer = &gpt2.h.layers[i];
        let base = 4000 + 12000 * i as u32;
        assert_eq!(layer.ln_1.weight.data()[0].mark, base);
        assert_eq!(layer.ln_1.bias.data()[0].mark, base + 1000);
        assert_eq!(layer.ln_2.weight.data()[0].mark, base + 2000);
        assert_eq!(layer.ln_2.bias.data()[0].mark, base + 3000);
        assert_eq!(layer.mlp.c_fc.weight.data()[1].mark, base + 4001);
        assert_eq!(layer.mlp.c_fc.bias.data()[0].mark, base + 5000);
        assert_eq!(layer.mlp.c_proj.weight.data()[2].mark, base + 6002);
        assert_eq!(layer.mlp.c_proj.bias.data()[0].mark, base + 7000);
        assert_eq!(layer.attention.c_attn.weight.shape(), &[4, 12]);
        assert_eq!(layer.attention.c_attn.weight.data()[3].mark, base + 8003);
        assert_eq!(layer.attention.c_attn.bias.data()[0].mark, base + 9000);
        assert_eq!(layer.attention.c_proj.weight.data()[0].mark, base + 10000);
        assert_eq!(layer.attention.c_proj.bias.data()[0].mark, base + 11000);
    }
}

#[test]
fn every_tensor_is_needed() {
    let names = shapes(2);
    for skip in 0..names.len() {
        let mut rest = names.clone();
        let (name, _) = rest.remove(skip);
        let buffer = file(&rest, Dtype::U32, 4);
        let tensors = SafeTensors::deserialize(&buffer).unwrap();
        match Gpt2::<Trace>::from_tensors(&tensors, 2) {
            Err(LoadError::Missing(missing)) => assert_eq!(missing, name),
            _ => panic!("loaded without {name}"),
        }
    }
}

#[test]
fn first_missing_tensor_is_named() {
    let names: Vec<(String, Vec<usize>)> = shapes(2)
        .into_iter()
        .filter(|(name, _)| !name.starts_with("h.10.") && name != "h.3.attn.c_proj.bias")
        .collect();
    let buffer = file(&names, Dtype::U32, 4);
    let tensors = SafeTensors::deserialize(&buffer).unwrap();
    match Gpt2::<Trace>::from_tensors(&tensors, 2) {
        Err(LoadError::Missing(missing)) => assert_eq!(missing, "h.3.attn.c_proj.bias"),
        _ => panic!("loaded"),
    }
}

#[test]
fn elements_need_four_bytes() {
    let names = shapes(2);
    let buffer = file(&names, Dtype::U16, 2);
    let tensors = SafeTensors::deserialize(&buffer).unwrap();
    assert!(matches!(Gpt2::<Trace>::from_tensors(&tensors, 2), Err(LoadError::Size)));
}

#[test]
fn both_tensors_of_a_pair_are_looked_up_first() {
    let buffer = file(&[("w".to_string(), vec![2, 2])], Dtype::U16, 2);
    let tensors = SafeTensors::deserialize(&buffer).unwrap();
    match Linear::<Trace>::load(&tensors, "w", "b") {
        Err(LoadError::Missing(missing)) => assert_eq!(missing, "b"),
        _ => panic!("loaded"),
    }
}

#[test]
fn tensor_of_a_file() {
    let buffer = file(&[("a".to_string(), vec![2, 3]), ("b".to_string(), vec![1])], Dtype::U32, 4);
    let tensors = SafeTensors::deserialize(&buffer).unwrap();
    let raw = find(&tensors, "b").ok().unwrap();
    assert_eq!(raw.shape, vec![1]);
    assert_eq!(raw.data, &1000u32.to_le_bytes());
    let tensor = find(&tensors, "a").ok().unwrap().decode::<Trace>().ok().unwrap();
    assert_eq!(tensor.shape(), &[2, 3]);
    assert_eq!(marks(tensor.data()), vec![0, 1, 2, 3, 4, 5]);
    assert!(matches!(find(&tensors, "c"), Err(LoadError::Missing(name)) if name == "c"));
}

#[test]
fn names_of_layers() {
    assert_eq!(layer_tensor_name(0, ".ln_1.bias"), "h.0.ln_1.bias");
    assert_eq!(layer_tensor_name(11, ".mlp.c_fc.weight"), "h.11.mlp.c_fc.weight");
    assert_eq!(layer_tensor_name(90210, ""), "h.90210");
}

#[test]
fn empty_past() {
    let buffer = file(&shapes(6), Dtype::U32, 4);
    let tensors = SafeTensors::deserialize(&buffer).unwrap();
    let gpt2: Gpt2<Trace> = Gpt2::from_tensors(&tensors, 3).ok().unwrap();
    let past = gpt2.empty_past_key_values();
    assert_eq!(past.len(), 12);
    for cache in past.iter() {
        assert_eq!(cache.key.shape(), &[3, 0, 2]);
        assert_eq!(cache.value.shape(), &[3, 0, 2]);
        assert!(cache.key.data().is_empty());
    }
    assert!(caches_whole(&past));
}

#[test]
fn passes_follow_one_another() {
    let buffer = file(&shapes(4), Dtype::U32, 4);
    let tensors = SafeTensors::deserialize(&buffer).unwrap();
    let gpt2: Gpt2<Trace> = Gpt2::from_tensors(&tensors, 2).ok().unwrap();
    let mut past = gpt2.empty_past_key_values();
    let mut seen = 0;
    for ids in [vec![0u32, 4, 2], vec![1], vec![3, 3, 0, 1], vec![2]] {
        assert!(gpt2.accepts(&ids, &past));
        let scores = gpt2.forward(&ids, &mut past, b"").ok().unwrap();
        seen += ids.len();
        assert_eq!(scores.shape(), &[ids.len(), VOCABULARY]);
        for cache in past.iter() {
            assert_eq!(cache.key.shape(), &[2, seen, 2]);
            assert_eq!(cache.value.shape(), &[2, seen, 2]);
        }
        assert!(caches_whole(&past));
    }
    assert_eq!(seen, CONTEXT);
    assert!(!gpt2.accepts(&[0], &past));
}

#[test]
fn tokens_and_pasts_that_do_not_fit() {
    let buffer = file(&shapes(4), Dtype::U32, 4);
    let tensors = SafeTensors::deserialize(&buffer).unwrap();
    let gpt2: Gpt2<Trace> = Gpt2::from_tensors(&tensors, 2).ok().unwrap();
    let past = gpt2.empty_past_key_values();
    assert!(gpt2.accepts(&[4], &past));
    assert!(!gpt2.accepts(&[5], &past));
    assert!(!gpt2.accepts(&[4], &[]));
    assert!(gpt2.accepts(&[4], &past[..1]));
    let mut other = gpt2.empty_past_key_values();
    other[7] = PastKeyValue::new(1, 0, 4);
    assert!(!gpt2.accepts(&[4], &other));
    other[7] = PastKeyValue::new(2, 1, 2);
    assert!(gpt2.accepts(&[4], &other));
    other[7].value = OwnedTensor::zeros(vec![2, 0, 2]);
    assert!(!gpt2.accepts(&[4], &other));
    let one = Gpt2::<Trace>::from_tensors(&tensors, 1).ok().unwrap();
    assert!(!one.accepts(&[4], &past));
    let third = Gpt2::<Trace>::from_tensors(&tensors, 3).ok().unwrap();
    assert!(!third.accepts(&[4], &past));
}

#[test]
fn caches_without_their_elements() {
    let mut past: Vec<PastKeyValue<Trace>> = vec![PastKeyValue::new(1, 2, 3)];
    assert!(caches_whole(&past));
    past[0].value.data.pop();
    assert!(!caches_whole(&past));
}

fn rows(from: u32, n: usize, hidden: usize) -> OwnedTensor<Trace> {
    let data = (0..n * hidden).map(|i| Trace { mark: from + 77 * i as u32 }).collect();
    OwnedTensor::new(data, vec![n, hidden])
}

/// Passes rows through a layer at once, and in portions.
fn at_once_and_in_portions(layer: &Gpt2Layer<Trace>, split: usize) {
    let whole = rows(9, 4, 4);
    let mut all = whole.clone();
    let mut past = PastKeyValue::new(2, 0, 2);
    layer.forward(&mut all, &mut past);

    let mut first = OwnedTensor::new(whole.data[..4 * split].to_vec(), vec![split, 4]);
    let mut second = OwnedTensor::new(whole.data[4 * split..].to_vec(), vec![4 - split, 4]);
    let mut portions = PastKeyValue::new(2, 0, 2);
    layer.forward(&mut first, &mut portions);
    layer.forward(&mut second, &mut portions);

    assert_eq!(marks(&all.data[4 * split..]), marks(&second.data));
    assert_eq!(past.key.shape(), portions.key.shape());
    assert_eq!(marks(past.key.data()), marks(portions.key.data()));
    assert_eq!(marks(past.value.data()), marks(portions.value.data()));
}

#[test]
fn later_rows_need_only_the_past() {
    let buffer = file(&shapes(4), Dtype::U32, 4);
    let tensors = SafeTensors::deserialize(&buffer).unwrap();
    for index in [0, 5, 11] {
        let layer = Gpt2Layer::from_tensors(index, &tensors, 2).ok().unwrap();
        for split in 0..5 {
            at_once_and_in_portions(&layer, split);
        }
    }
}

#[test]
fn rows_do_not_look_at_each_other_outside_attention() {
    let buffer = file(&shapes(4), Dtype::U32, 4);
    let tensors = SafeTensors::deserialize(&buffer).unwrap();
    let layer: Gpt2Layer<Trace> = Gpt2Layer::from_tensors(1, &tensors, 2).ok().unwrap();
    let mut all = rows(3, 3, 4);
    let mut second = OwnedTensor::new(all.data[4..8].to_vec(), vec![1, 4]);
    layer.ln_1.forward(&mut all);
    layer.ln_1.forward(&mut second);
    assert_eq!(marks(&all.data[4..8]), marks(&second.data));
    layer.mlp.forward(&mut all);
    layer.mlp.forward(&mut second);
    assert_eq!(marks(&all.data[4..8]), marks(&second.data));
}

#[test]
fn narrow_rows_are_not_sent() {
    let buffer = file(&shapes(4), Dtype::U32, 4);
    let tensors = SafeTensors::deserialize(&buffer).unwrap();
    let gpt2: Gpt2<Trace> = Gpt2::from_tensors(&tensors, 2).ok().unwrap();
    let mut past = gpt2.empty_past_key_values();
    let pending = gpt2.forward_start(&[1], &mut past);
    assert!(pending.request.is_none());
    assert!(pending.residual.is_some());
    assert_eq!(past[0].key.shape(), &[2, 1, 2]);
    assert_eq!(past[1].key.shape(), &[2, 0, 2]);
    assert!(gpt2.forward_finish(pending, b"no reply", &mut past).is_ok());
    assert_eq!(past[1].key.shape(), &[2, 1, 2]);
}

#[test]
fn one_wide_row_is_sent_and_held_against_the_reply() {
    let hidden = 768;
    let mut names = shapes(hidden);
    names.truncate(4 + 12);
    let buffer = file(&names, Dtype::U32, 4);
    let tensors = SafeTensors::deserialize(&buffer).unwrap();
    let layer: Gpt2Layer<Trace> = Gpt2Layer::from_tensors(0, &tensors, 2).ok().unwrap();
    let mlp = &layer.mlp;

    let input = rows(5, 1, hidden);
    let request = mlp.special_request(&input).unwrap();
    assert_eq!(request, request_text(&input.data));
    assert!(mlp.special_request(&rows(5, 2, hidden)).is_none());

    let mut local = input.clone();
    mlp.forward(&mut local);
    let reply = format!("0x{}", request_text(&local.data));

    let mut tensor = input.clone();
    assert!(mlp.special_forward(&mut tensor, reply.as_bytes()).is_ok());
    assert_eq!(marks(&tensor.data), marks(&local.data));

    let mut altered = local.clone();
    altered.data[3] = Trace { mark: altered.data[3].mark ^ 1 };
    altered.data[700] = Trace { mark: altered.data[700].mark ^ 8 };
    let wrong = format!("0x{}", request_text(&altered.data));
    let mut tensor = input.clone();
    match mlp.special_forward(&mut tensor, wrong.as_bytes()) {
        Err(SpecialError::Mismatch(pairs)) => {
            let pairs: Vec<(u32, u32)> = pairs.iter().map(|p| (p.0.mark, p.1.mark)).collect();
            let expected = vec![
                (local.data[3].mark, altered.data[3].mark),
                (local.data[700].mark, altered.data[700].mark),
            ];
            assert_eq!(pairs, expected);
        }
        _ => panic!("taken"),
    }
    assert_eq!(marks(&tensor.data), marks(&local.data));

    let mut tensor = input.clone();
    let refused = mlp.special_forward(&mut tensor, b"0x1");
    assert!(matches!(refused, Err(SpecialError::Reply(ReplyError::NotHex))));
    assert_eq!(marks(&tensor.data), marks(&input.data));
    let refused = mlp.special_forward(&mut tensor, b"");
    assert!(matches!(refused, Err(SpecialError::Reply(ReplyError::TooShort))));

    let mut two = rows(5, 2, hidden);
    let mut expected = two.clone();
    mlp.forward(&mut expected);
    assert!(mlp.special_forward(&mut two, b"").is_ok());
    assert_eq!(marks(&two.data), marks(&expected.data));
}

#[test]
fn layer_beside_a_peer_that_agrees_is_the_layer_alone() {
    let hidden = 768;
    let mut names = shapes(hidden);
    names.truncate(4 + 12);
    let buffer = file(&names, Dtype::U32, 4);
    let tensors = SafeTensors::deserialize(&buffer).unwrap();
    let layer: Gpt2Layer<Trace> = Gpt2Layer::from_tensors(0, &tensors, 2).ok().unwrap();

    let mut alone = rows(1, 1, hidden);
    let mut past = PastKeyValue::new(2, 0, hidden / 2);
    layer.forward(&mut alone, &mut past);

    let mut tensor = rows(1, 1, hidden);
    let mut cache = PastKeyValue::new(2, 0, hidden / 2);
    let residual = layer.special_start(&mut tensor, &mut cache);
    assert!(layer.mlp.special_request(&tensor).is_some());
    let mut local = tensor.clone();
    layer.mlp.forward(&mut local);
    let reply = format!("0x{}", request_text(&local.data));
    assert!(layer.special_finish(&mut tensor, &residual, reply.as_bytes()).is_ok());
    assert_eq!(marks(&tensor.data), marks(&alone.data));
    assert_eq!(marks(cache.key.data()), marks(past.key.data()));

    let mut tensor = rows(1, 1, hidden);
    let mut cache = PastKeyValue::new(2, 0, hidden / 2);
    assert!(layer.special_forward(&mut tensor, &mut cache, reply.as_bytes()).is_ok());
    assert_eq!(marks(&tensor.data), marks(&alone.data));
    assert_eq!(marks(cache.value.data()), marks(past.value.data()));

    // Two rows are not sent: the reply does not matter.
    let mut alone = rows(1, 2, hidden);
    let mut past = PastKeyValue::new(2, 0, hidden / 2);
    layer.forward(&mut alone, &mut past);
    let mut tensor = rows(1, 2, hidden);
    let mut cache = PastKeyValue::new(2, 0, hidden / 2);
    assert!(layer.special_forward(&mut tensor, &mut cache, b"").is_ok());
    assert_eq!(marks(&tensor.data), marks(&alone.data));
}

#[test]
fn refused_replies_leave_the_feed_forward_part() {
    let hidden = 768;
    let mut names = shapes(hidden);
    names.truncate(4 + 12);
    let buffer = file(&names, Dtype::U32, 4);
    let tensors = SafeTensors::deserialize(&buffer).unwrap();
    let layer: Gpt2Layer<Trace> = Gpt2Layer::from_tensors(0, &tensors, 2).ok().unwrap();
    let mut input = rows(1, 1, hidden);
    let mut cache = PastKeyValue::new(2, 0, hidden / 2);
    let residual = layer.special_start(&mut input, &mut cache);
    let mut local = input.clone();
    layer.mlp.forward(&mut local);

    let mut tensor = input.clone();
    let refused = layer.special_finish(&mut tensor, &residual, b"0xzz");
    assert!(matches!(refused, Err(SpecialError::Reply(ReplyError::NotHex))));
    assert_eq!(marks(&tensor.data), marks(&input.data));

    let refused = layer.special_finish(&mut tensor, &residual, b"0x");
    assert!(matches!(refused, Err(SpecialError::Mismatch(_))));
    assert_eq!(marks(&tensor.data), marks(&local.data));

    let mut tensor = rows(1, 1, hidden);
    let mut past = PastKeyValue::new(2, 0, hidden / 2);
    assert!(layer.special_forward(&mut tensor, &mut past, b"0").is_err());
    assert_eq!(marks(&tensor.data), marks(&input.data));
    assert_eq!(marks(past.key.data()), marks(cache.key.data()));
}

#[test]
fn counts_of_elements() {
    assert_eq!(element_count(&[]), Some(1));
    assert_eq!(element_count(&[2, 3, 4]), Some(24));
    assert_eq!(element_count(&[usize::MAX, 0, usize::MAX]), Some(0));
    assert_eq!(element_count(&[usize::MAX, 2]), None);
}

#[test]
fn rows_are_looked_up() {
    let buffer = file(&shapes(3), Dtype::U32, 4);
    let tensors = SafeTensors::deserialize(&buffer).unwrap();
    let gpt2: Gpt2<Trace> = Gpt2::from_tensors(&tensors, 3).ok().unwrap();
    let out = gpt2.wte.forward(&[4, 0, 4]);
    assert_eq!(out.shape(), &[3, 3]);
    assert_eq!(marks(out.data()), vec![12, 13, 14, 0, 1, 2, 12, 13, 14]);
    assert!(gpt2.wte.accepts(&[4]));
    assert!(!gpt2.wte.accepts(&[5]));
}

#[test]
fn later_tokens_of_one_layer_need_only_the_past() {
    let buffer = file(&shapes(4), Dtype::U32, 4);
    let tensors = SafeTensors::deserialize(&buffer).unwrap();
    let mut gpt2: Gpt2<Trace> = Gpt2::from_tensors(&tensors, 2).ok().unwrap();
    gpt2.h.layers.truncate(1);
    let ids = [0u32, 4, 2, 1];

    let mut at_once = gpt2.empty_past_key_values();
    assert_eq!(at_once.len(), 1);
    let whole = gpt2.forward(&ids, &mut at_once, b"").ok().unwrap();
    assert_eq!(whole.shape(), &[4, VOCABULARY]);

    for split in 1..4 {
        let mut portions = gpt2.empty_past_key_values();
        assert!(gpt2.forward(&ids[..split], &mut portions, b"").is_ok());
        let later = gpt2.forward(&ids[split..], &mut portions, b"").ok().unwrap();
        assert_eq!(marks(&whole.data[split * VOCABULARY..]), marks(&later.data));
        assert_eq!(marks(at_once[0].key.data()), marks(portions[0].key.data()));
        assert_eq!(marks(at_once[0].value.data()), marks(portions[0].value.data()));
    }
}

#[test]
fn later_tokens_need_only_the_past_where_earlier_ones_are_undisturbed() {
    // With one head, and zeros that leave no trace, earlier rows do not notice later ones.
    let buffer = file(&shapes(4), Dtype::U32, 4);
    let tensors = SafeTensors::deserialize(&buffer).unwrap();
    let gpt2: Gpt2<Trace> = Gpt2::from_tensors(&tensors, 1).ok().unwrap();
    let ids = [3u32, 0, 4, 1, 2];
    let mut at_once = gpt2.empty_past_key_values();
    let whole = gpt2.forward(&ids, &mut at_once, b"").ok().unwrap();
    for split in 1..5 {
        let mut portions = gpt2.empty_past_key_values();
        let earlier = gpt2.forward(&ids[..split], &mut portions, b"").ok().unwrap();
        let later = gpt2.forward(&ids[split..], &mut portions, b"").ok().unwrap();
        assert_eq!(marks(&whole.data[..split * VOCABULARY]), marks(&earlier.data));
        assert_eq!(marks(&whole.data[split * VOCABULARY..]), marks(&later.data));
        for i in 0..12 {
            assert_eq!(marks(at_once[i].key.data()), marks(portions[i].key.data()));
            assert_eq!(marks(at_once[i].value.data()), marks(portions[i].value.data()));
        }
    }
}

#[test]
fn pass_without_peer_is_the_layers_in_turn() {
    let buffer = file(&shapes(4), Dtype::U32, 4);
    let tensors = SafeTensors::deserialize(&buffer).unwrap();
    let gpt2: Gpt2<Trace> = Gpt2::from_tensors(&tensors, 2).ok().unwrap();
    let ids = [2u32, 4];
    let mut past = gpt2.empty_past_key_values();
    let scores = gpt2.forward(&ids, &mut past, b"").ok().unwrap();

    let mut tensor = gpt2.wte.forward(&ids);
    add(&gpt2.wpe.forward(&[0, 1]), &mut tensor);
    let mut caches = gpt2.empty_past_key_values();
    for i in 0..12 {
        gpt2.h.layers[i].forward(&mut tensor, &mut caches[i]);
    }
    gpt2.ln_f.forward(&mut tensor);
    gpt2.lm_head.forward(&mut tensor);
    assert_eq!(marks(&scores.data), marks(&tensor.data));
    assert_eq!(marks(caches[11].key.data()), marks(past[11].key.data()));
}
