use qwen3_asr::tensor::{DType, Device, Tensor};
use qwen3_asr::text_decoder::{
    create_causal_mask, ForwardStage, KvCache, PartNames, TextDecoder, TextDecoderConfig,
};
use qwen3_asr::weights::{get_weight, LoadError, Weights};

fn tensor(shape: &[usize], data: Vec<i64>) -> Tensor {
    Tensor { shape: shape.to_vec(), data, kind: DType::Float32, device: Device::Cpu }
}

/// Keys or values of one head of size two: position `p` holds `10 p` and `10 p + 1`.
fn steps(from: i64, n: usize) -> Tensor {
    let mut data = Vec::new();
    for p in 0..n {
        data.push((from + p as i64) * 10);
        data.push((from + p as i64) * 10 + 1);
    }
    tensor(&[1, 1, n, 2], data)
}

#[test]
fn narrow_along_each_dimension() {
    let t = tensor(&[2, 3], vec![1, 2, 3, 4, 5, 6]);
    let a = t.narrow(0, 1, 1);
    assert_eq!((a.shape, a.data), (vec![1, 3], vec![4, 5, 6]));
    let b = t.narrow(1, 1, 2);
    assert_eq!((b.shape, b.data), (vec![2, 2], vec![2, 3, 5, 6]));
    let c = t.narrow(1, 3, 0);
    assert_eq!((c.shape, c.data.len()), (vec![2, 0], 0));
}

#[test]
fn join_along_each_dimension() {
    let a = tensor(&[2, 1], vec![1, 2]);
    let b = tensor(&[2, 2], vec![3, 4, 5, 6]);
    let c = a.join(&b, 1);
    assert_eq!((c.shape, c.data), (vec![2, 3], vec![1, 3, 4, 2, 5, 6]));
    let d = b.join(&b, 0);
    assert_eq!((d.shape, d.data), (vec![4, 2], vec![3, 4, 5, 6, 3, 4, 5, 6]));
}

#[test]
fn scatter_replaces_steps() {
    let t = tensor(&[2, 3], vec![1, 2, 3, 4, 5, 6]);
    let s = tensor(&[2, 1], vec![8, 9]);
    let r = t.slice_scatter(&s, 1, 1, 2);
    assert_eq!((r.shape, r.data), (vec![2, 3], vec![1, 8, 3, 4, 9, 6]));
}

#[test]
fn transpose_and_unsqueeze() {
    let t = tensor(&[2, 3], vec![1, 2, 3, 4, 5, 6]);
    let r = t.tr();
    assert_eq!((r.shape, r.data), (vec![3, 2], vec![1, 4, 2, 5, 3, 6]));
    let u = t.unsqueeze();
    assert_eq!((u.shape, u.data), (vec![1, 2, 3], vec![1, 2, 3, 4, 5, 6]));
}

#[test]
fn cache_appends_and_fetches() {
    let mut cache = KvCache::new(2);
    assert_eq!(cache.num_layers(), 2);
    assert_eq!(cache.seq_len(), 0);
    assert!(cache.get(0).is_none());
    let (k, v) = cache.update_and_fetch(0, steps(0, 3), steps(100, 3));
    assert_eq!(k.data, steps(0, 3).data);
    assert_eq!(v.data, steps(100, 3).data);
    let (k, _) = cache.update_and_fetch(0, steps(3, 2), steps(103, 2));
    assert_eq!((k.shape, k.data), (vec![1, 1, 5, 2], steps(0, 5).data));
    assert_eq!(cache.seq_len(), 5);
    assert!(cache.get(1).is_none());
    assert_eq!(cache.eval().len(), 2);
    assert_eq!(cache.layer(0).unwrap().k.shape[2], 256);
}

#[test]
fn cache_grows_by_blocks() {
    let mut cache = KvCache::new(1);
    cache.update_and_fetch(0, steps(0, 256), steps(0, 256));
    assert_eq!(cache.layer(0).unwrap().k.shape[2], 256);
    let (k, _) = cache.update_and_fetch(0, steps(256, 1), steps(256, 1));
    assert_eq!(cache.layer(0).unwrap().k.shape[2], 512);
    assert_eq!(k.data, steps(0, 257).data);
}

#[test]
fn truncated_cache_is_overwritten() {
    let mut cache = KvCache::new(1);
    cache.update_and_fetch(0, steps(0, 6), steps(0, 6));
    cache.truncate(4);
    assert_eq!(cache.seq_len(), 4);
    let (k, _) = cache.get(0).unwrap();
    assert_eq!(k.data, steps(0, 4).data);
    let (k, _) = cache.update_and_fetch(0, steps(50, 1), steps(50, 1));
    assert_eq!(k.data[..8], steps(0, 4).data[..]);
    assert_eq!(k.data[8..], [500, 501]);
    cache.truncate(100);
    assert_eq!(cache.seq_len(), 5);
}

#[test]
fn causal_mask_hides_the_future() {
    let inf = f32::NEG_INFINITY.to_bits() as i64;
    let m = create_causal_mask(3, 0, DType::Float32, Device::Cpu);
    assert_eq!(m.shape, vec![1, 1, 3, 3]);
    assert_eq!(m.data, vec![0, inf, inf, 0, 0, inf, 0, 0, 0]);
    let p = create_causal_mask(2, 2, DType::Float16, Device::Gpu(0));
    assert_eq!(p.shape, vec![1, 1, 2, 4]);
    assert_eq!(p.data, vec![0, 0, 0, 0xFC00, 0, 0, 0, 0]);
    assert_eq!(p.device, Device::Gpu(0));
    let b = create_causal_mask(2, 0, DType::BFloat16, Device::Cpu);
    assert_eq!(b.data, vec![0, 0xFF80, 0, 0]);
}

fn config(layers: usize, tied: bool) -> TextDecoderConfig {
    TextDecoderConfig {
        num_hidden_layers: layers,
        num_attention_heads: 2,
        num_key_value_heads: 1,
        head_dim: 2,
        tie_word_embeddings: tied,
    }
}

/// Layers and a norm without weights.
fn no_parts() -> PartNames {
    PartNames { layer: vec![], norm: vec![] }
}

#[test]
fn decoder_names_the_first_missing_weight() {
    let parts = PartNames {
        layer: vec!["attn.weight".to_string(), "mlp.weight".to_string()],
        norm: vec!["weight".to_string()],
    };
    let order = [
        "m.model.embed_tokens.weight",
        "m.model.layers.0.attn.weight",
        "m.model.layers.0.mlp.weight",
        "m.model.layers.1.attn.weight",
        "m.model.layers.1.mlp.weight",
        "m.model.norm.weight",
        "m.lm_head.weight",
    ];
    let mut w = Weights::new();
    for name in order {
        match TextDecoder::load(&w, "m.model", &config(2, false), &parts) {
            Err(LoadError::MissingWeight(missing)) => assert_eq!(missing, name),
            Ok(_) => panic!("{} is missing", name),
        }
        w.insert(name.to_string(), tensor(&[1, 1], vec![0]));
    }
    assert!(TextDecoder::load(&w, "m.model", &config(2, false), &parts).is_ok());
    let tied = TextDecoder::load(&w, "m.model", &config(3, true), &parts);
    assert!(matches!(tied, Err(LoadError::MissingWeight(n)) if n == "m.model.layers.2.attn.weight"));
}

#[test]
fn decoder_with_tied_embeddings() {
    let mut w = Weights::new();
    w.insert("thinker.model.embed_tokens.weight".to_string(), tensor(&[3, 2], vec![1, 2, 3, 4, 5, 6]));
    let d = TextDecoder::load(&w, "thinker.model", &config(11, true), &no_parts()).unwrap();
    assert_eq!(d.layers.len(), 11);
    assert_eq!(d.layers[0], "thinker.model.layers.0");
    assert_eq!(d.layers[10], "thinker.model.layers.10");
    assert_eq!(d.norm, "thinker.model.norm");
    assert_eq!(d.lm_head_weight_t.data, vec![1, 3, 5, 2, 4, 6]);
    assert_eq!(d.dtype(), DType::Float32);
    assert_eq!(d.config().num_hidden_layers, 11);
    let ids = Tensor::from_slice_i64(&[2, 0], Device::Cpu);
    let e = d.embed(&ids);
    assert_eq!((e.shape, e.data), (vec![2, 2], vec![5, 6, 1, 2]));
}

#[test]
fn decoder_with_its_own_head() {
    let mut w = Weights::new();
    w.insert("thinker.model.embed_tokens.weight".to_string(), tensor(&[2, 1], vec![1, 2]));
    match TextDecoder::load(&w, "thinker.model", &config(0, false), &no_parts()) {
        Err(LoadError::MissingWeight(name)) => assert_eq!(name, "thinker.lm_head.weight"),
        Ok(_) => panic!("the head is missing"),
    }
    w.insert("thinker.lm_head.weight".to_string(), tensor(&[3, 1], vec![7, 8, 9]));
    let d = TextDecoder::load(&w, "thinker.model", &config(0, false), &no_parts()).unwrap();
    assert_eq!((d.lm_head_weight_t.shape, d.lm_head_weight_t.data), (vec![1, 3], vec![7, 8, 9]));
}

#[test]
fn decoder_without_embeddings() {
    let w = Weights::new();
    match TextDecoder::load(&w, "thinker.model", &config(1, true), &no_parts()) {
        Err(LoadError::MissingWeight(name)) => assert_eq!(name, "thinker.model.embed_tokens.weight"),
        Ok(_) => panic!("the table is missing"),
    }
    assert!(get_weight(&w, "a", "weight").is_err());
}

#[test]
fn weights_are_replaced_by_name() {
    let mut w = Weights::new();
    w.insert("a.weight".to_string(), tensor(&[1], vec![1]));
    w.insert("b.weight".to_string(), tensor(&[1], vec![2]));
    w.insert("a.weight".to_string(), tensor(&[1], vec![3]));
    assert_eq!(get_weight(&w, "a", "weight").unwrap().data, vec![3]);
    assert_eq!(get_weight(&w, "b", "weight").unwrap().data, vec![2]);
    assert!(w.get(&"c.weight".to_string()).is_none());
}

#[test]
fn forward_runs_layers_norm_and_projection() {
    let mut w = Weights::new();
    w.insert("m.embed_tokens.weight".to_string(), tensor(&[1, 1], vec![0]));
    let d = TextDecoder::load(&w, "m", &config(2, true), &no_parts()).unwrap();
    let mut stage = d.forward_start();
    let mut seen = Vec::new();
    while stage != ForwardStage::Done {
        seen.push(stage);
        stage = d.forward(stage);
    }
    assert_eq!(
        seen,
        vec![ForwardStage::Layer(0), ForwardStage::Layer(1), ForwardStage::Norm, ForwardStage::Project]
    );
    assert_eq!(d.forward(ForwardStage::Done), ForwardStage::Done);
    let none = TextDecoder::load(&w, "m", &config(0, true), &no_parts()).unwrap();
    assert_eq!(none.forward_start(), ForwardStage::Norm);
}

#[test]
fn parts_make_up_the_tensor() {
    let t = tensor(&[2, 4, 3], (0..24).collect());
    for dim in 0..3 {
        let n = t.shape[dim];
        for at in 0..=n {
            let back = t.narrow(dim, 0, at).join(&t.narrow(dim, at, n - at), dim);
            assert_eq!((back.shape, back.data), (t.shape.clone(), t.data.clone()));
        }
    }
}

#[test]
fn read_gives_what_the_append_returned() {
    let mut cache = KvCache::new(1);
    cache.update_and_fetch(0, steps(0, 7), steps(70, 7));
    for t in [5i64, 5, 2, 0] {
        cache.truncate(t);
        let (k, v) = cache.update_and_fetch(0, steps(90, 3), steps(190, 3));
        let (k2, v2) = cache.get(0).unwrap();
        assert_eq!((&k.shape, &k.data), (&k2.shape, &k2.data));
        assert_eq!((&v.shape, &v.data), (&v2.shape, &v2.data));
        assert_eq!(k.shape[2], t as usize + 3);
        assert_eq!(k.data[2 * t as usize..], steps(90, 3).data[..]);
    }
}
