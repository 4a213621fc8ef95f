use qwen3_asr::align::{
    align_items, is_aligner, AlignError, AlignInference,
};
use qwen3_asr::config::{AsrConfig, EncoderSetup};
use qwen3_asr::inference::{transcription, AsrInference};
use qwen3_asr::prompt::{language_prompt, ForwardInput, SpecialTokens};
use qwen3_asr::streaming::{empty_result, stream_positions, streaming_result, StreamingState};
use qwen3_asr::tensor::{DType, Device, Tensor};
use qwen3_asr::text_decoder::{PartNames, TextDecoderConfig};
use qwen3_asr::weights::{LoadError, Weights};

const VOCAB: usize = 151700;

const PRE: [i64; 9] = [151644, 8948, 198, 151645, 198, 151644, 872, 198, 151669];
const POST: [i64; 6] = [151670, 151645, 198, 151644, 77091, 198];

fn tensor(shape: &[usize], data: Vec<i64>) -> Tensor {
    Tensor { shape: shape.to_vec(), data, kind: DType::Float32, device: Device::Cpu }
}

fn tokens() -> SpecialTokens {
    SpecialTokens {
        audio_start: 151669,
        audio_pad: 151676,
        audio_end: 151670,
        endoftext: 151643,
        im_end: 151645,
        timestamp: 151680,
    }
}

fn asr_config() -> AsrConfig {
    AsrConfig {
        text_config: TextDecoderConfig {
            num_hidden_layers: 1,
            num_attention_heads: 1,
            num_key_value_heads: 1,
            head_dim: 1,
            tie_word_embeddings: true,
        },
        decoder_weights: PartNames { layer: vec![], norm: vec!["weight".to_string()] },
        num_mel_bins: 128,
        classify_num: None,
        model_type: None,
        timestamp_token_id: 0,
    }
}

/// A table of embeddings of one number each: that of token `t` is `t`.
fn weights() -> Weights {
    let mut w = Weights::new();
    let table: Vec<i64> = (0..VOCAB as i64).collect();
    w.insert("thinker.model.embed_tokens.weight".to_string(), tensor(&[VOCAB, 1], table));
    w.insert("thinker.model.norm.weight".to_string(), tensor(&[1], vec![0]));
    w
}

fn encoder() -> EncoderSetup {
    EncoderSetup { chunk_size: 10, tokens_per_chunk: 3, chunk_local: false }
}

fn model() -> AsrInference {
    AsrInference::load(&asr_config(), &weights(), encoder(), tokens(), tensor(&[0, 0], vec![]), Device::Cpu)
        .unwrap()
}

/// Audio embeddings: minus one, minus two and so on.
fn audio(n: usize) -> Tensor {
    tensor(&[n, 1], (1..n as i64 + 1).map(|x| -x).collect())
}

fn table(n: usize) -> Tensor {
    tensor(&[n, 1], (0..n as i64).collect())
}

fn stream(m: &mut AsrInference, rollback: usize) -> StreamingState {
    assert_eq!(stream_positions().len(), 4096);
    m.init_streaming(None, vec![5], rollback, table(4096), table(4096))
}

fn rows(parts: &[&[i64]]) -> Vec<i64> {
    parts.concat()
}

#[test]
fn engine_keeps_what_was_loaded() {
    let m = model();
    assert_eq!(m.mel_extractor.n_fft, 400);
    assert_eq!(m.mel_extractor.hop_length, 160);
    assert_eq!(m.mel_extractor.num_mel_bins(), 128);
    assert_eq!(m.mel_extractor.sample_rate(), 16000);
    let none = Weights::new();
    match AsrInference::load(&asr_config(), &none, encoder(), tokens(), tensor(&[0, 0], vec![]), Device::Cpu) {
        Err(LoadError::MissingWeight(n)) => assert_eq!(n, "thinker.model.embed_tokens.weight"),
        Ok(_) => panic!("no weights"),
    }
}

#[test]
fn prompt_holds_pads_between_fixed_tokens() {
    let (ids, at) = model().build_prompt(2, &[11, 12]);
    assert_eq!(ids, rows(&[&PRE, &[151676, 151676], &POST, &[11, 12]]));
    assert_eq!(at, vec![9, 10]);
    let (ids, at) = model().build_prompt(0, &[]);
    assert_eq!(ids, rows(&[&PRE, &POST]));
    assert!(at.is_empty());
}

#[test]
fn language_is_named_in_the_prompt() {
    assert_eq!(language_prompt("english"), "language English");
    assert_eq!(language_prompt(""), "language ");
}

#[test]
fn prefill_puts_audio_in_place_of_pads() {
    let m = model();
    let (input, run) = m.prefill(&audio(3), &[7], &table(300), &table(300));
    assert_eq!(input.hidden.shape, vec![1, 19, 1]);
    assert_eq!(input.hidden.data, rows(&[&PRE, &[-1, -2, -3], &POST, &[7]]));
    assert_eq!(input.cos.data, (0..19).collect::<Vec<i64>>());
    assert_eq!(input.mask.unwrap().shape, vec![1, 1, 19, 19]);
    assert_eq!(run.position, 19);
    assert!(run.generated.is_empty());
    assert_eq!(m.transcription_positions(19), (0..283).collect::<Vec<i64>>());
}

#[test]
fn decoding_stops_at_the_end_token() {
    let m = model();
    let t = table(300);
    let (_, mut run) = m.prefill(&audio(1), &[], &t, &t);
    let input = m.decode_step(&mut run, 42, &t, &t).unwrap();
    assert_eq!(input.hidden.data, vec![42]);
    assert_eq!(input.cos.data, vec![16]);
    assert!(input.mask.is_none());
    assert_eq!(run.position, 17);
    assert!(m.decode_step(&mut run, 151645, &t, &t).is_none());
    assert!(m.decode_step(&mut run, 151643, &t, &t).is_none());
    assert_eq!(run.generated, vec![42]);
}

#[test]
fn decoding_stops_after_its_budget() {
    let m = model();
    let t = table(300);
    let (_, mut run) = m.prefill(&audio(1), &[], &t, &t);
    let mut n = 0;
    while m.decode_step(&mut run, 1, &t, &t).is_some() {
        n += 1;
    }
    assert_eq!(n, 256);
    assert_eq!(run.generated.len(), 256);
}

#[test]
fn stream_starts_empty() {
    let mut m = model();
    let s = stream(&mut m, 2);
    assert!(m.encoder.chunk_local);
    assert!(s.cache().is_none());
    assert!(s.forced_language().is_none());
    assert!(s.language_prefix_ids().is_empty());
    assert_eq!(s.pre_audio_embeds().data, PRE.to_vec());
    let f = m.init_streaming(Some("english"), vec![5], 0, table(4096), table(4096));
    assert_eq!(f.forced_language().map(|l| l.as_str()), Some("english"));
    assert_eq!(f.language_prefix_ids(), &vec![5]);
}

fn mel(n: usize) -> Tensor {
    tensor(&[1, n], (0..n as i64).collect())
}

#[test]
fn frames_to_encode() {
    let mut m = model();
    let mut s = stream(&mut m, 0);
    assert!(m.streaming_transcribe(&mel(0), &s).is_none());
    assert!(m.streaming_transcribe_partial(&mel(9), &s).is_none());
    let f = m.streaming_transcribe_partial(&mel(27), &s).unwrap();
    assert_eq!((f.from, f.to), (0, 20));
    let f = m.streaming_transcribe(&mel(27), &s).unwrap();
    assert_eq!((f.from, f.to, f.mel.data.len()), (0, 27, 27));
    let all = m.take_encoded(&mut s, audio(8), f.from, f.to);
    assert_eq!(all.data, audio(8).data);
    assert_eq!(s.cached_mel_frames(), 20);
    assert_eq!(s.cached_audio_embeds().unwrap().data, audio(6).data);
    assert!(m.streaming_transcribe_partial(&mel(29), &s).is_none());
    let f = m.streaming_transcribe(&mel(31), &s).unwrap();
    assert_eq!((f.from, f.to), (20, 31));
    assert_eq!(f.mel.data, (20..31).collect::<Vec<i64>>());
    let all = m.take_encoded(&mut s, tensor(&[4, 1], vec![70, 71, 72, 73]), f.from, f.to);
    assert_eq!(all.data, vec![-1, -2, -3, -4, -5, -6, 70, 71, 72, 73]);
    assert_eq!(s.cached_mel_frames(), 30);
    let f = m.streaming_transcribe(&mel(30), &s).unwrap();
    assert_eq!((f.from, f.to), (0, 30));
}

/// Runs a prefill on the cache of a stream: the key and the value of a position is its input.
fn run_layer(s: &mut StreamingState, hidden: &Tensor) -> Vec<i64> {
    let n = hidden.shape[1];
    let k = tensor(&[1, 1, n, 1], hidden.data.clone());
    let v = tensor(&[1, 1, n, 1], hidden.data.clone());
    s.cache_mut().update_and_fetch(0, k, v).0.data
}

/// Hands the embeddings of the frames up to `to` to a stream and prefills with all of them.
fn feed(m: &AsrInference, s: &mut StreamingState, encoded: Tensor, to: usize) -> ForwardInput {
    let from = m.streaming_transcribe(&mel(to), s).unwrap().from;
    let all = m.take_encoded(s, encoded, from, to);
    m.streaming_prefill(&all, s)
}

#[test]
fn incremental_prefill_completes_the_prompt() {
    let mut m = model();
    let mut s = stream(&mut m, 0);
    let first = feed(&m, &mut s, audio(4), 13);
    assert_eq!(first.hidden.data, rows(&[&PRE, &[-1, -2, -3, -4], &POST]));
    assert_eq!(s.audio_tokens_in_cache(), 3);
    assert_eq!(s.cache_seq_len(), 19);
    run_layer(&mut s, &first.hidden);
    run_layer(&mut s, &tensor(&[1, 2, 1], vec![21, 22]));
    let mut now = audio(3).data;
    now.extend_from_slice(&[80, 81, 82]);
    let second = feed(&m, &mut s, tensor(&[3, 1], vec![80, 81, 82]), 20);
    assert_eq!(second.hidden.data, rows(&[&[80, 81, 82], &POST]));
    assert_eq!(second.cos.data, (12..21).collect::<Vec<i64>>());
    assert_eq!(second.mask.as_ref().unwrap().shape, vec![1, 1, 9, 21]);
    assert_eq!(s.cache_seq_len(), 21);
    assert_eq!(s.audio_tokens_in_cache(), 6);
    let cached = run_layer(&mut s, &second.hidden);
    let t = table(300);
    let (offline, _) = m.prefill(&tensor(&[6, 1], now), &[], &t, &t);
    assert_eq!(cached, offline.hidden.data);
}

#[test]
fn rollback_keeps_a_prefix() {
    let mut m = model();
    let mut s = m.init_streaming(Some("english"), vec![5, 6], 2, table(4096), table(4096));
    let first = feed(&m, &mut s, audio(3), 10);
    assert_eq!(first.hidden.data, rows(&[&PRE, &[-1, -2, -3], &POST, &[5, 6]]));
    run_layer(&mut s, &first.hidden);
    let mut run = m.start_decoding(&s);
    assert!(run.generated.is_empty());
    for t in [31, 32, 33, 34] {
        m.decode_step(&mut run, t, &table(4096), &table(4096));
    }
    assert_eq!(m.finish_decoding(run, &mut s), vec![31, 32, 33, 34]);
    let more = feed(&m, &mut s, tensor(&[1, 1], vec![-4]), 13);
    assert_eq!(more.hidden.data, rows(&[&[-4], &POST, &[5, 6, 31, 32]]));
    run_layer(&mut s, &more.hidden);
    let run = m.start_decoding(&s);
    assert_eq!(run.generated, vec![31, 32]);
    assert_eq!(run.position, 12 + 11);
    let same = feed(&m, &mut s, audio(3), 10);
    assert_eq!(same.hidden.data, rows(&[&POST, &[5, 6, 31, 32]]));
    assert_eq!(same.cos.data[0], 12);
}

#[test]
fn short_cache_is_not_exceeded() {
    let mut m = model();
    let mut s = stream(&mut m, 0);
    feed(&m, &mut s, audio(6), 20);
    run_layer(&mut s, &tensor(&[1, 4, 1], vec![1, 2, 3, 4]));
    let more = feed(&m, &mut s, tensor(&[1, 1], vec![-7]), 21);
    assert_eq!(more.mask.unwrap().shape, vec![1, 1, 7, 11]);
    assert_eq!(more.cos.data[0], 15);
    assert_eq!(s.cache_seq_len(), 11);
}

/// Decodes these tokens after a first prefill and returns what the call ends with.
fn decoded(m: &AsrInference, s: &mut StreamingState, tokens: &[i64]) -> Vec<i64> {
    feed(m, s, audio(3), 10);
    let mut run = m.start_decoding(s);
    for &t in tokens {
        let input = m.streaming_step(&mut run, t, s).unwrap();
        assert_eq!(input.cos.data, vec![run.position as i64 - 1]);
    }
    m.finish_decoding(run, s)
}

#[test]
fn rollback_trims_a_repeated_tail() {
    let mut m = model();
    let mut s = stream(&mut m, 2);
    let ids = decoded(&m, &mut s, &[1, 2, 3, 4, 5, 6, 1, 2, 3, 4, 5, 6]);
    assert_eq!(ids, vec![1, 2, 3, 4, 5, 6]);
    assert_eq!(m.start_decoding(&s).generated, vec![1, 2, 3, 4]);
}

#[test]
fn no_rollback_keeps_a_repeated_tail() {
    let mut m = model();
    let mut s = stream(&mut m, 0);
    let tokens = vec![7; 20];
    assert_eq!(decoded(&m, &mut s, &tokens), tokens);
    let t = table(300);
    let (_, mut offline) = m.prefill(&audio(3), &[], &t, &t);
    for &x in &tokens {
        m.decode_step(&mut offline, x, &t, &t);
    }
    assert_eq!(offline.generated, tokens);
    assert!(m.start_decoding(&s).generated.is_empty());
    let raw = "language English<asr_text>go go go".to_string();
    let a = streaming_result(raw.clone(), &s, 1);
    let b = transcription(raw, false, 1);
    assert_eq!((a.text, a.language), (b.text, b.language));
}

#[test]
fn results_name_the_language() {
    let r = transcription("language English<asr_text>Hi.".to_string(), false, 16000);
    assert_eq!((r.language.as_str(), r.text.as_str(), r.num_samples), ("English", "Hi.", 16000));
    assert_eq!(r.raw_output, "language English<asr_text>Hi.");
    let f = transcription(" Hi. ".to_string(), true, 1);
    assert_eq!((f.language.as_str(), f.text.as_str()), ("forced", "Hi."));
    let mut m = model();
    let s = m.init_streaming(Some("english"), vec![], 0, table(4096), table(4096));
    let r = streaming_result(" Hi. ".to_string(), &s, 2);
    assert_eq!((r.language.as_str(), r.text.as_str()), ("english", "Hi."));
    let s = stream(&mut m, 0);
    let r = streaming_result("language Chinese 好".to_string(), &s, 2);
    assert_eq!((r.language.as_str(), r.text.as_str()), ("Chinese", "好"));
    let e = empty_result(9);
    assert_eq!((e.text.as_str(), e.language.as_str(), e.raw_output.as_str(), e.num_samples), ("", "", "", 9));
}

#[test]
fn diagnostics_pick_the_segments() {
    let mut m = model();
    let mut s = stream(&mut m, 0);
    let first = feed(&m, &mut s, audio(3), 10);
    run_layer(&mut s, &first.hidden);
    let mut fresh = stream(&mut m, 0);
    let input = m.fresh_prefill(&audio(5), 3, &fresh);
    assert_eq!(input.hidden.data, rows(&[&PRE, &[-1, -2, -3], &POST]));
    feed(&m, &mut fresh, audio(3), 10);
    run_layer(&mut fresh, &input.hidden);
    let other = fresh.cache().unwrap();
    let c = m.verify_incremental_vs_fresh(&s, other);
    assert_eq!(c.layers.len(), 1);
    assert_eq!(c.layers[0].left.data, c.layers[0].right.data);
    assert_eq!(c.pre_audio.unwrap().left.data, PRE.to_vec());
    assert_eq!(c.old_audio.unwrap().right.data, vec![-1, -2, -3]);
    assert_eq!(c.total.unwrap().left.data.len(), 18);
    let p = m.verify_post_decode(&s, other, 3);
    assert_eq!(p.audio.unwrap().left.data, vec![-1, -2, -3]);
    assert_eq!(p.post_audio.unwrap().left.data, POST.to_vec());
    assert_eq!(p.all.unwrap().left.data.len(), 18);
    let beyond = m.verify_post_decode(&s, other, 4);
    assert!(beyond.post_audio.is_none());
    let t = m.verify_truncated_k(s.cache().unwrap(), other, other, 12);
    assert_eq!(t.old_audio.unwrap().left.data, vec![-1, -2, -3]);
    assert_eq!(t.short_pre_audio.left.data, PRE.to_vec());
    assert_eq!(t.short_audio.right.data, vec![-1, -2, -3]);
    assert_eq!(t.state_audio.left.data, vec![-1, -2, -3]);
    assert_eq!(t.all.unwrap().right.data.len(), 18);
}

fn aligner(timestamp_token_id: i64) -> AlignInference {
    let mut config = asr_config();
    config.timestamp_token_id = timestamp_token_id;
    AlignInference::load(&config, &weights(), encoder(), tokens(), tensor(&[0, 0], vec![]), Device::Cpu).unwrap()
}

#[test]
fn aligner_is_recognized() {
    let mut c = asr_config();
    assert!(!is_aligner(&c));
    c.model_type = Some("qwen3_asr".to_string());
    assert!(!is_aligner(&c));
    c.model_type = Some("qwen3_forced_aligner".to_string());
    assert!(is_aligner(&c));
    c.model_type = None;
    c.classify_num = Some(5000);
    assert!(is_aligner(&c));
}

#[test]
fn aligner_loads_its_own_head() {
    let mut c = asr_config();
    c.classify_num = Some(3);
    let mut w = weights();
    match AlignInference::load(&c, &w, encoder(), tokens(), tensor(&[0, 0], vec![]), Device::Cpu) {
        Err(LoadError::MissingWeight(n)) => assert_eq!(n, "thinker.lm_head.weight"),
        Ok(_) => panic!("the head is missing"),
    }
    w.insert("thinker.lm_head.weight".to_string(), tensor(&[3, 1], vec![1, 2, 3]));
    let a = AlignInference::load(&c, &w, encoder(), tokens(), tensor(&[0, 0], vec![]), Device::Cpu).unwrap();
    assert_eq!(a.text_decoder.lm_head_weight_t.shape, vec![1, 3]);
    assert_eq!(a.timestamp_token_id, 151680);
    assert_eq!(aligner(77).timestamp_token_id, 77);
}

#[test]
fn align_prompt_and_input() {
    let a = aligner(0);
    let words = vec![vec![1, 2], vec![3]];
    let (ids, start, end) = a.build_align_prompt(2, &words);
    let ts = 151680;
    assert_eq!(ids, vec![151669, 151676, 151676, 151670, 1, 2, ts, ts, 3, ts, ts]);
    assert_eq!((start, end), (1, 3));
    assert_eq!(a.align_positions(&ids), (0..11).collect::<Vec<i64>>());
    let input = a.align_input(&ids, start, end, &audio(2), &table(11), &table(11));
    assert_eq!(input.hidden.data, vec![151669, -1, -2, 151670, 1, 2, ts, ts, 3, ts, ts]);
    assert_eq!(input.mask.unwrap().shape, vec![1, 1, 11, 11]);
}

#[test]
fn align_classes_at_timestamps() {
    let a = aligner(0);
    let (ids, _, _) = a.build_align_prompt(1, &vec![vec![1], vec![2]]);
    let pred: Vec<i64> = vec![90, 91, 92, 93, 4, -5, 96, 7, 8];
    assert_eq!(a.timestamp_classes(&ids, &pred).unwrap(), vec![4, 0, 7, 8]);
    assert_eq!(
        a.timestamp_classes(&ids, &pred[..3]),
        Err(AlignError::ArgmaxLength { got: 3, expected: 9 })
    );
}

#[test]
fn aligned_spans_are_in_order() {
    let words: Vec<String> = vec!["a".to_string(), "b".to_string(), "c".to_string()];
    let r = align_items(&words, &[0, 80, 1000, 240, 320, 400]).unwrap();
    let spans: Vec<(String, i64, i64)> =
        r.items.into_iter().map(|i| (i.text, i.start_ms, i.end_ms)).collect();
    assert_eq!(
        spans,
        vec![("a".to_string(), 0, 80), ("b".to_string(), 80, 240), ("c".to_string(), 320, 400)]
    );
    match align_items(&words, &[0, 80]) {
        Err(e) => assert_eq!(e, AlignError::TimestampCount { got: 2, words: 3, expected: 6 }),
        Ok(_) => panic!("too few timestamps"),
    }
}

#[test]
fn complete_chunks_are_kept_in_both_caches() {
    let mut m = model();
    for frames in 1..60usize {
        let mut s = stream(&mut m, 0);
        // A tail may have as many tokens as a chunk.
        let tail_tokens = if frames % 10 > 0 { 3 } else { 0 };
        feed(&m, &mut s, audio(frames / 10 * 3 + tail_tokens), frames);
        assert_eq!(s.audio_tokens_in_cache(), frames / 10 * 3);
        assert_eq!(s.audio_tokens_in_cache(), s.cached_tokens());
        assert_eq!(s.cached_mel_frames() % 10, 0);
        assert!(frames - s.cached_mel_frames() < 10);
    }
}

#[test]
fn prompt_with_two_timestamps_per_unit_is_paired() {
    let a = aligner(0);
    let words: Vec<String> = vec!["a".to_string(), "b".to_string()];
    let (ids, _, _) = a.build_align_prompt(3, &vec![vec![1, 2], vec![]]);
    let pred: Vec<i64> = (0..ids.len() as i64).collect();
    let classes = a.timestamp_classes(&ids, &pred).unwrap();
    assert!(align_items(&words, &classes).is_ok());
    let (ids, _, _) = a.build_align_prompt(3, &vec![vec![151680], vec![]]);
    let pred: Vec<i64> = (0..ids.len() as i64).collect();
    let classes = a.timestamp_classes(&ids, &pred).unwrap();
    assert!(align_items(&words, &classes).is_err());
}

/// An encoder whose chunks depend on themselves only: three tokens for ten frames, and one token
/// for every two frames of a tail.
fn encode_chunks(mel: &Tensor) -> Tensor {
    let mut out = Vec::new();
    for chunk in mel.data.chunks(10) {
        let sum: i64 = chunk.iter().map(|x| x * x + 1).sum();
        let tokens = if chunk.len() == 10 { 3 } else { chunk.len().div_ceil(2) };
        out.extend((0..tokens as i64).map(|i| -sum * 5 - i));
    }
    tensor(&[out.len(), 1], out)
}

#[test]
fn any_history_runs_the_offline_prompt() {
    let mut m = model();
    let t = table(4096);
    for seed in 1..40usize {
        let mut s = stream(&mut m, 0);
        let mut frames = 0;
        let mut step = seed;
        while frames < 70 {
            step = step * 7 % 23 + 1;
            frames = (frames + step).min(70);
            let partial = step % 3 == 0 && frames < 70;
            let seen = mel(frames);
            let plan = if partial {
                m.streaming_transcribe_partial(&seen, &s)
            } else {
                m.streaming_transcribe(&seen, &s)
            };
            let Some(f) = plan else { continue };
            let all = m.take_encoded(&mut s, encode_chunks(&f.mel), f.from, f.to);
            let input = m.streaming_prefill(&all, &mut s);
            let run = run_layer(&mut s, &input.hidden);
            let offline = m.prefill(&encode_chunks(&mel(f.to)), &[], &t, &t).0;
            assert_eq!(run, offline.hidden.data);
            assert_eq!(s.cache_seq_len(), run.len());
            run_layer(&mut s, &tensor(&[1, 2, 1], vec![21, 22]));
        }
    }
}
