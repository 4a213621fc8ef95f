//! Forced alignment of a transcript to audio.
//!
//! The transcript is cut into units, words or CJK characters, and each unit is followed by two
//! timestamp tokens in the prompt. One run of the decoder predicts a time class for every
//! position; the classes at the timestamp tokens, put in order, are the start and end of the
//! units.

use crate::config::{AsrConfig, EncoderSetup, HOP_LENGTH, MEL_SAMPLE_RATE, N_FFT};
use crate::mel::WhisperFeatureExtractor;
use crate::prompt::{
    audio_rows, embed_tokens, first_positions, forward_input, join_rows, push_all, push_pads,
    ForwardInput, SpecialTokens,
};
use crate::tensor::{Device, Tensor};
use crate::text::{find, to_glyphs, Glyph};
use crate::text_decoder::{TextDecoder, TextDecoderConfig};
pub use crate::timestamp::fix_timestamp;
pub use crate::tokenize::encode_timestamp;
use crate::weights::{LoadError, Weights};
use vstd::prelude::*;

verus! {

/// Why an alignment failed.
#[derive(Clone, Copy, Debug, PartialEq, Eq, Structural)]
pub enum AlignError {
    /// There is not one prediction for each position of the prompt.
    ArgmaxLength { got: usize, expected: usize },
    /// There are not two timestamps for each unit.
    TimestampCount { got: usize, words: usize, expected: usize },
}

/// One aligned span: a word or a CJK character.
#[derive(Debug)]
pub struct ForcedAlignItem {
    pub text: String,
    /// Start time in milliseconds.
    pub start_ms: i64,
    /// End time in milliseconds.
    pub end_ms: i64,
}

/// Forced alignment of one transcript.
#[derive(Debug)]
pub struct ForcedAlignResult {
    pub items: Vec<ForcedAlignItem>,
}

/// Forced alignment engine.
#[derive(Debug)]
pub struct AlignInference {
    pub encoder: EncoderSetup,
    pub text_decoder: TextDecoder,
    pub mel_extractor: WhisperFeatureExtractor,
    pub tokens: SpecialTokens,
    pub device: Device,
    pub timestamp_token_id: i64,
}

/// Whether a text contains another.
pub open spec fn contains(text: Seq<char>, pattern: Seq<char>) -> bool {
    exists|at: int| #[trigger] crate::text::stands_at(text, pattern, at)
}

/// Whether a configuration looks like that of an aligner: its model type says so, or it has
/// timestamp classes.
pub open spec fn looks_like_aligner(config: &AsrConfig) -> bool {
    ||| config.classify_num is Some
    ||| config.model_type matches Some(t) && contains(t@, "aligner"@)
}

/// The decoder configuration of an aligner: with timestamp classes, the output projection is not
/// the embedding table.
pub open spec fn aligner_text_config(config: &AsrConfig) -> TextDecoderConfig {
    TextDecoderConfig {
        tie_word_embeddings: config.text_config.tie_word_embeddings && config.classify_num is None,
        ..config.text_config
    }
}

/// The tokens of the units, each followed by two timestamp tokens.
pub open spec fn unit_tokens(words: Seq<Seq<i64>>, timestamp: i64) -> Seq<i64>
    decreases words.len(),
{
    if words.len() == 0 {
        Seq::empty()
    } else {
        unit_tokens(words.drop_last(), timestamp) + words.last() + seq![timestamp, timestamp]
    }
}

/// The tokens of an alignment prompt after the audio.
pub open spec fn after_audio(tokens: SpecialTokens, words: Seq<Seq<i64>>, timestamp: i64) -> Seq<
    i64,
> {
    seq![tokens.audio_end] + unit_tokens(words, timestamp)
}

/// The tokens of an alignment prompt.
pub open spec fn align_prompt(
    tokens: SpecialTokens,
    num_audio_tokens: nat,
    words: Seq<Seq<i64>>,
    timestamp: i64,
) -> Seq<i64> {
    seq![tokens.audio_start] + crate::prompt::pads(tokens.audio_pad, num_audio_tokens)
        + after_audio(tokens, words, timestamp)
}

/// The hidden states of an alignment prompt, with the audio in place of its placeholders.
pub open spec fn align_rows(
    d: &TextDecoder,
    tokens: SpecialTokens,
    audio: Seq<Seq<i64>>,
    words: Seq<Seq<i64>>,
    timestamp: i64,
) -> Seq<Seq<i64>> {
    crate::prompt::embeddings(d, seq![tokens.audio_start]) + audio + crate::prompt::embeddings(
        d,
        after_audio(tokens, words, timestamp),
    )
}

/// The tokens of each unit.
pub open spec fn word_ids(words: Seq<Vec<i64>>) -> Seq<Seq<i64>> {
    words.map_values(|w: Vec<i64>| w@)
}

/// The predictions at the timestamp tokens, with zero for negative ones.
pub open spec fn classes_at(input_ids: Seq<i64>, pred_ids: Seq<i64>, timestamp: i64) -> Seq<i64>
    decreases input_ids.len(),
{
    if input_ids.len() == 0 {
        Seq::empty()
    } else {
        let before = classes_at(input_ids.drop_last(), pred_ids, timestamp);
        let class = pred_ids[input_ids.len() - 1];
        if input_ids.last() != timestamp {
            before
        } else if class < 0 {
            before.push(0)
        } else {
            before.push(class)
        }
    }
}

/// The spans of the units, where `times` holds the start and the end of each.
pub open spec fn is_paired(items: Seq<ForcedAlignItem>, words: Seq<String>, times: Seq<int>) -> bool {
    &&& items.len() == words.len()
    &&& forall|i: int|
        0 <= i < items.len() ==> (#[trigger] items[i]).text@ == words[i]@ && items[i].start_ms
            == times[2 * i] && items[i].end_ms == times[2 * i + 1]
}

/// Whether a configuration looks like that of an aligner.
pub fn is_aligner(config: &AsrConfig) -> (res: bool)
    ensures
        res == looks_like_aligner(config),
{
    if config.classify_num.is_some() {
        return true;
    }
    match &config.model_type {
        None => false,
        Some(t) => {
            let g: Vec<Glyph> = to_glyphs(t.as_str());
            let p: Vec<Glyph> = to_glyphs("aligner");
            proof {
                crate::text::law_glyphs_round_trip(t@);
                crate::text::law_glyphs_round_trip("aligner"@);
                crate::text::lemma_find(t@, "aligner"@, 0);
            }
            find(&g, &p).is_some()
        },
    }
}

/// The decoder configuration of an aligner.
pub fn decoder_config(config: &AsrConfig) -> (res: TextDecoderConfig)
    ensures
        res == aligner_text_config(config),
{
    let mut text_config: TextDecoderConfig = config.text_config;
    if config.classify_num.is_some() {
        text_config.tie_word_embeddings = false;
    }
    text_config
}

/// What an alignment starts with.
#[derive(Debug)]
pub enum AlignStart {
    /// There is nothing to align.
    Done(ForcedAlignResult),
    /// The units to align.
    Units(Vec<String>),
}

/// Cuts a transcript into the units that are aligned.
pub fn start_alignment(text: &str, language: &str) -> (res: Result<AlignStart, AlignError>)
    ensures
        ({
            let units = crate::tokenize::tokens(crate::text::glyphs(text@));
            match res {
                Ok(AlignStart::Done(r)) => units.len() == 0 && r.items.len() == 0,
                Ok(AlignStart::Units(list)) => units.len() > 0 && crate::text::texts(list@)
                    == units,
                Err(_) => false,
            }
        }),
{
    let (list, _) = match encode_timestamp(text, language) {
        Ok(p) => p,
        Err(e) => {
            return Err(e);
        },
    };
    if list.len() == 0 {
        Ok(AlignStart::Done(ForcedAlignResult { items: Vec::new() }))
    } else {
        Ok(AlignStart::Units(list))
    }
}

impl AlignInference {
    pub open spec fn wf(&self) -> bool {
        &&& self.text_decoder.wf()
        &&& self.text_decoder.embed_tokens.kind != crate::tensor::DType::Int64
        &&& self.device == self.text_decoder.embed_tokens.device
    }

    /// Makes the engine of what has been loaded: the weights, the filter bank of the feature
    /// extractor and the identifiers of the tokenizer.
    pub fn load(
        config: &AsrConfig,
        weights: &Weights,
        encoder: EncoderSetup,
        tokens: SpecialTokens,
        mel_filters: Tensor,
        device: Device,
    ) -> (res: Result<AlignInference, LoadError>)
        requires
            weights.wf(),
            crate::text_decoder::has_matrices(
                weights,
                "thinker.model"@,
                aligner_text_config(config).tie_word_embeddings,
            ),
        ensures
            match res {
                Ok(m) => {
                    &&& m.text_decoder.wf()
                    &&& m.text_decoder.picked_from(
                        weights,
                        "thinker.model"@,
                        &aligner_text_config(config),
                        &config.decoder_weights,
                    )
                    &&& m.encoder == encoder
                    &&& m.tokens == tokens
                    &&& m.device == device
                    &&& m.mel_extractor.n_fft == 400
                    &&& m.mel_extractor.hop_length == 160
                    &&& m.mel_extractor.num_mel_bins == config.num_mel_bins
                    &&& m.mel_extractor.sample_rate == 16000
                    &&& m.mel_extractor.mel_filters == mel_filters
                    &&& m.timestamp_token_id == if config.timestamp_token_id != 0 {
                        config.timestamp_token_id
                    } else {
                        tokens.timestamp
                    }
                },
                Err(e) => crate::text_decoder::is_missing(
                    weights,
                    crate::text_decoder::needed(
                        "thinker.model"@,
                        &aligner_text_config(config),
                        &config.decoder_weights,
                    ),
                    e,
                ),
            },
    {
        let text_config: TextDecoderConfig = decoder_config(config);
        let text_decoder: TextDecoder = match TextDecoder::load(
            weights,
            "thinker.model",
            &text_config,
            &config.decoder_weights,
        ) {
            Ok(d) => d,
            Err(e) => {
                return Err(e);
            },
        };
        let mel_extractor = WhisperFeatureExtractor::new(
            N_FFT,
            HOP_LENGTH,
            config.num_mel_bins,
            MEL_SAMPLE_RATE,
            mel_filters,
        );
        let timestamp_token_id: i64 = if config.timestamp_token_id != 0 {
            config.timestamp_token_id
        } else {
            tokens.timestamp
        };
        Ok(
            AlignInference {
                encoder,
                text_decoder,
                mel_extractor,
                tokens,
                device,
                timestamp_token_id,
            },
        )
    }

    /// The tokens of the prompt for some units, given by their tokens, and where the audio starts
    /// and ends in it.
    pub fn build_align_prompt(&self, num_audio_tokens: usize, words: &Vec<Vec<i64>>) -> (res: (
        Vec<i64>,
        usize,
        usize,
    ))
        requires
            1 + num_audio_tokens <= usize::MAX,
        ensures
            res.0@ == align_prompt(
                self.tokens,
                num_audio_tokens as nat,
                word_ids(words@),
                self.timestamp_token_id,
            ),
            res.1 == 1,
            res.2 == 1 + num_audio_tokens,
    {
        let mut tokens: Vec<i64> = vec![self.tokens.audio_start];
        let audio_start: usize = tokens.len();
        push_pads(&mut tokens, self.tokens.audio_pad, num_audio_tokens);
        let audio_end: usize = tokens.len();
        tokens.push(self.tokens.audio_end);
        let ghost head = tokens@;
        let ghost ids = word_ids(words@);
        let mut i: usize = 0;
        assert(ids.take(0) =~= Seq::<Seq<i64>>::empty());
        assert(head + unit_tokens(ids.take(0), self.timestamp_token_id) =~= head);
        while i < words.len()
            invariant
                i <= words.len(),
                ids == word_ids(words@),
                tokens@ == head + unit_tokens(ids.take(i as int), self.timestamp_token_id),
            decreases words.len() - i,
        {
            let ghost before = tokens@;
            push_all(&mut tokens, words[i].as_slice());
            tokens.push(self.timestamp_token_id);
            tokens.push(self.timestamp_token_id);
            proof {
                assert(ids.take(i + 1).drop_last() =~= ids.take(i as int));
                assert(ids.take(i + 1).last() == words@[i as int]@);
                assert(tokens@ =~= head + unit_tokens(
                    ids.take(i + 1),
                    self.timestamp_token_id,
                ));
            }
            i = i + 1;
        }
        proof {
            assert(ids.take(words.len() as int) =~= ids);
            assert(tokens@ =~= align_prompt(
                self.tokens,
                num_audio_tokens as nat,
                ids,
                self.timestamp_token_id,
            ));
        }
        (tokens, audio_start, audio_end)
    }

    /// The positions for which the rotation tables of an alignment are computed.
    pub fn align_positions(&self, input_ids: &[i64]) -> (res: Vec<i64>)
        requires
            input_ids@.len() <= i64::MAX,
        ensures
            res@ == crate::prompt::positions(input_ids@.len()),
    {
        first_positions(input_ids.len())
    }

    /// The input of the decoder: the embeddings of the prompt, with the audio in place of the
    /// tokens from `audio_start` to `audio_end`.
    pub fn align_input(
        &self,
        input_ids: &[i64],
        audio_start: usize,
        audio_end: usize,
        audio: &Tensor,
        cos: &Tensor,
        sin: &Tensor,
    ) -> (res: ForwardInput)
        requires
            self.wf(),
            crate::prompt::known(&self.text_decoder, input_ids@.take(audio_start as int)),
            crate::prompt::known(&self.text_decoder, input_ids@.skip(audio_end as int)),
            audio_start <= audio_end <= input_ids@.len(),
            crate::prompt::is_audio(audio, &self.text_decoder),
            audio.rows().len() == audio_end - audio_start,
            crate::prompt::input_fits(&self.text_decoder, input_ids@.len() as int, 0),
            crate::prompt::covers(cos, input_ids@.len() as int),
            crate::prompt::covers(sin, input_ids@.len() as int),
        ensures
            crate::prompt::is_input(
                &res,
                &self.text_decoder,
                crate::prompt::embeddings(
                    &self.text_decoder,
                    input_ids@.take(audio_start as int),
                ) + audio.rows() + crate::prompt::embeddings(
                    &self.text_decoder,
                    input_ids@.skip(audio_end as int),
                ),
                cos,
                sin,
                0,
                0,
            ),
    {
        let d: &TextDecoder = &self.text_decoder;
        let ghost w = d.width() as int;
        let ghost n = input_ids@.len() as int;
        proof {
            assert(audio_start * w <= n * w && (n - audio_end) * w <= n * w && audio_end * w <= n * w)
                by (nonlinear_arith)
                requires
                    0 <= audio_start <= audio_end <= n,
                    w >= 0,
            ;
        }
        let pre: Vec<i64> = copy_ids(input_ids, 0, audio_start);
        let post: Vec<i64> = copy_ids(input_ids, audio_end, input_ids.len());
        assert(pre@ =~= input_ids@.take(audio_start as int));
        assert(post@ =~= input_ids@.skip(audio_end as int));
        let pre_rows: Tensor = embed_tokens(d, pre.as_slice(), self.device);
        let post_rows: Tensor = embed_tokens(d, post.as_slice(), self.device);
        let middle: Tensor = audio_rows(d, audio);
        let head: Tensor = join_rows(d, &pre_rows, &middle);
        let hidden: Tensor = join_rows(d, &head, &post_rows);
        forward_input(d, hidden, cos, sin, 0, 0)
    }

    /// The predicted classes at the timestamp tokens of a prompt.
    pub fn timestamp_classes(&self, input_ids: &[i64], pred_ids: &[i64]) -> (res: Result<
        Vec<i64>,
        AlignError,
    >)
        ensures
            match res {
                Ok(classes) => pred_ids@.len() == input_ids@.len() && classes@ == classes_at(
                    input_ids@,
                    pred_ids@,
                    self.timestamp_token_id,
                ),
                Err(e) => pred_ids@.len() != input_ids@.len() && e == (AlignError::ArgmaxLength {
                    got: pred_ids@.len() as usize,
                    expected: input_ids@.len() as usize,
                }),
            },
    {
        if pred_ids.len() != input_ids.len() {
            return Err(
                AlignError::ArgmaxLength { got: pred_ids.len(), expected: input_ids.len() },
            );
        }
        let mut classes: Vec<i64> = Vec::new();
        let mut i: usize = 0;
        while i < input_ids.len()
            invariant
                i <= input_ids.len() == pred_ids.len(),
                classes@ == classes_at(
                    input_ids@.take(i as int),
                    pred_ids@,
                    self.timestamp_token_id,
                ),
            decreases input_ids.len() - i,
        {
            assert(input_ids@.take(i + 1).drop_last() =~= input_ids@.take(i as int));
            if input_ids[i] == self.timestamp_token_id {
                let class: i64 = pred_ids[i];
                if class < 0 {
                    classes.push(0);
                } else {
                    classes.push(class);
                }
            }
            i = i + 1;
        }
        assert(input_ids@.take(input_ids@.len() as int) =~= input_ids@);
        Ok(classes)
    }
}

fn copy_ids(ids: &[i64], from: usize, to: usize) -> (res: Vec<i64>)
    requires
        from <= to <= ids@.len(),
    ensures
        res@ == ids@.subrange(from as int, to as int),
{
    let mut res: Vec<i64> = Vec::new();
    let mut i: usize = from;
    while i < to
        invariant
            from <= i <= to <= ids@.len(),
            res@ == ids@.subrange(from as int, i as int),
        decreases to - i,
    {
        res.push(ids[i]);
        assert(res@ =~= ids@.subrange(from as int, i + 1));
        i = i + 1;
    }
    res
}

/// Puts the predicted times, in milliseconds, in order and pairs them as start and end of the
/// units.
pub fn align_items(words: &Vec<String>, timestamp_ms: &[i64]) -> (res: Result<
    ForcedAlignResult,
    AlignError,
>)
    requires
        2 * words.len() <= usize::MAX,
    ensures
        match res {
            Ok(r) => timestamp_ms@.len() == 2 * words.len() && is_paired(
                r.items@,
                words@,
                crate::timestamp::repaired_all(timestamp_ms@),
            ),
            Err(e) => timestamp_ms@.len() != 2 * words.len() && e == (AlignError::TimestampCount {
                got: timestamp_ms@.len() as usize,
                words: words.len(),
                expected: (2 * words.len()) as usize,
            }),
        },
{
    let n: usize = words.len();
    if timestamp_ms.len() != 2 * n {
        return Err(
            AlignError::TimestampCount { got: timestamp_ms.len(), words: n, expected: 2 * n },
        );
    }
    let fixed: Vec<i64> = fix_timestamp(timestamp_ms);
    let ghost times = crate::timestamp::repaired_all(timestamp_ms@);
    let mut items: Vec<ForcedAlignItem> = Vec::new();
    let mut i: usize = 0;
    while i < n
        invariant
            i <= n == words.len(),
            fixed.len() == 2 * n,
            2 * n <= usize::MAX,
            forall|k: int| 0 <= k < 2 * n ==> #[trigger] fixed[k] == times[k],
            is_paired(items@, words@.take(i as int), times),
        decreases n - i,
    {
        let start_ms: i64 = fixed[2 * i];
        let end_ms: i64 = fixed[2 * i + 1];
        let text: String = words[i].clone();
        let ghost before = items@;
        items.push(ForcedAlignItem { text, start_ms, end_ms });
        proof {
            assert(text@ == words@[i as int]@);
            assert forall|k: int| 0 <= k < items@.len() implies (#[trigger] items@[k]).text@
                == words@.take(i + 1)[k]@ && items@[k].start_ms == times[2 * k] && items@[k].end_ms
                == times[2 * k + 1] by {
                if k < i {
                    assert(items@[k] == before[k]);
                    assert(words@.take(i + 1)[k] == words@.take(i as int)[k]);
                }
            }
        }
        i = i + 1;
    }
    assert(words@.take(n as int) =~= words@);
    Ok(ForcedAlignResult { items })
}

// ---------------------------------------------------------------------------
// What holds of an alignment as a whole
// ---------------------------------------------------------------------------

/// The prompt puts the audio where its placeholders are.
pub proof fn law_audio_in_prompt(
    d: &TextDecoder,
    tokens: SpecialTokens,
    audio: Seq<Seq<i64>>,
    words: Seq<Seq<i64>>,
    timestamp: i64,
)
    ensures
        ({
            let ids = align_prompt(tokens, audio.len(), words, timestamp);
            crate::prompt::embeddings(d, ids.take(1)) + audio + crate::prompt::embeddings(
                d,
                ids.skip(1 + audio.len() as int),
            ) == align_rows(d, tokens, audio, words, timestamp)
        }),
{
    let ids = align_prompt(tokens, audio.len(), words, timestamp);
    assert(ids.take(1) =~= seq![tokens.audio_start]);
    assert(ids.skip(1 + audio.len() as int) =~= after_audio(tokens, words, timestamp));
}

/// A prompt whose units and fixed tokens are free of the timestamp token has two timestamps for
/// each unit, so that pairing them succeeds.
pub proof fn law_two_timestamps_per_unit(
    tokens: SpecialTokens,
    num_audio_tokens: nat,
    words: Seq<Seq<i64>>,
    timestamp: i64,
    pred_ids: Seq<i64>,
)
    requires
        tokens.audio_start != timestamp,
        tokens.audio_pad != timestamp,
        tokens.audio_end != timestamp,
        forall|i: int, k: int|
            0 <= i < words.len() && 0 <= k < words[i].len() ==> #[trigger] words[i][k] != timestamp,
    ensures
        classes_at(
            align_prompt(tokens, num_audio_tokens, words, timestamp),
            pred_ids,
            timestamp,
        ).len() == 2 * words.len(),
{
    let head = seq![tokens.audio_start] + crate::prompt::pads(tokens.audio_pad, num_audio_tokens)
        + seq![tokens.audio_end];
    lemma_no_timestamps(Seq::empty(), head, pred_ids, timestamp);
    assert(Seq::<i64>::empty() + head =~= head);
    lemma_unit_timestamps(head, words, pred_ids, timestamp);
    assert(head + unit_tokens(words, timestamp) =~= align_prompt(
        tokens,
        num_audio_tokens,
        words,
        timestamp,
    ));
}

/// Tokens other than the timestamp token add no class.
proof fn lemma_no_timestamps(a: Seq<i64>, b: Seq<i64>, pred_ids: Seq<i64>, timestamp: i64)
    requires
        forall|k: int| 0 <= k < b.len() ==> #[trigger] b[k] != timestamp,
    ensures
        classes_at(a + b, pred_ids, timestamp) == classes_at(a, pred_ids, timestamp),
    decreases b.len(),
{
    if b.len() == 0 {
        assert(a + b =~= a);
    } else {
        assert((a + b).drop_last() =~= a + b.drop_last());
        assert((a + b).last() == b[b.len() - 1]);
        lemma_no_timestamps(a, b.drop_last(), pred_ids, timestamp);
    }
}

/// The units add two classes each.
proof fn lemma_unit_timestamps(
    head: Seq<i64>,
    words: Seq<Seq<i64>>,
    pred_ids: Seq<i64>,
    timestamp: i64,
)
    requires
        forall|i: int, k: int|
            0 <= i < words.len() && 0 <= k < words[i].len() ==> #[trigger] words[i][k] != timestamp,
    ensures
        classes_at(head + unit_tokens(words, timestamp), pred_ids, timestamp).len() == classes_at(
            head,
            pred_ids,
            timestamp,
        ).len() + 2 * words.len(),
    decreases words.len(),
{
    if words.len() == 0 {
        assert(head + unit_tokens(words, timestamp) =~= head);
    } else {
        let before = head + unit_tokens(words.drop_last(), timestamp);
        let with_word = before + words.last();
        let one = with_word.push(timestamp);
        let two = one.push(timestamp);
        assert forall|i: int, k: int|
            0 <= i < words.drop_last().len() && 0 <= k < words.drop_last()[i].len() implies (
        #[trigger] words.drop_last()[i][k]) != timestamp by {
            assert(words[i][k] != timestamp);
        }
        lemma_unit_timestamps(head, words.drop_last(), pred_ids, timestamp);
        assert forall|k: int| 0 <= k < words.last().len() implies (#[trigger] words.last()[k])
            != timestamp by {
            assert(words[words.len() - 1][k] != timestamp);
        }
        lemma_no_timestamps(before, words.last(), pred_ids, timestamp);
        assert(one.drop_last() =~= with_word);
        assert(two.drop_last() =~= one);
        assert(classes_at(one, pred_ids, timestamp).len() == 1 + classes_at(
            with_word,
            pred_ids,
            timestamp,
        ).len());
        assert(classes_at(two, pred_ids, timestamp).len() == 1 + classes_at(
            one,
            pred_ids,
            timestamp,
        ).len());
        assert(head + unit_tokens(words, timestamp) =~= two);
    }
}

/// There is one class for each timestamp token, and the class of a timestamp token is the
/// prediction at its own position: it comes after as many others as there are timestamp tokens
/// before it. A negative prediction counts as zero.
pub proof fn law_class_is_the_prediction(
    input_ids: Seq<i64>,
    pred_ids: Seq<i64>,
    timestamp: i64,
    p: int,
)
    requires
        0 <= p < input_ids.len(),
        input_ids[p] == timestamp,
    ensures
        ({
            let classes = classes_at(input_ids, pred_ids, timestamp);
            let k = input_ids.take(p).filter(|id: i64| id == timestamp).len() as int;
            &&& classes.len() == input_ids.filter(|id: i64| id == timestamp).len()
            &&& 0 <= k < classes.len()
            &&& pred_ids[p] >= 0 ==> classes[k] == pred_ids[p]
            &&& pred_ids[p] < 0 ==> classes[k] == 0
        }),
    decreases input_ids.len(),
{
    let before = input_ids.drop_last();
    lemma_class_count(input_ids, pred_ids, timestamp);
    lemma_class_count(before, pred_ids, timestamp);
    assert(input_ids.take(p) =~= before.take(p));
    if p < before.len() {
        law_class_is_the_prediction(before, pred_ids, timestamp, p);
    } else {
        assert(before.take(p) =~= before);
    }
}

/// There is one class for each timestamp token.
proof fn lemma_class_count(input_ids: Seq<i64>, pred_ids: Seq<i64>, timestamp: i64)
    ensures
        classes_at(input_ids, pred_ids, timestamp).len() == input_ids.filter(
            |id: i64| id == timestamp,
        ).len(),
    decreases input_ids.len(),
{
    reveal(Seq::filter);
    if input_ids.len() > 0 {
        lemma_class_count(input_ids.drop_last(), pred_ids, timestamp);
    }
}

/// The tokens of an alignment prompt: the audio between its two marks, and behind it each unit with
/// two timestamp tokens after it.
pub proof fn law_align_prompt_layout(
    tokens: SpecialTokens,
    num_audio_tokens: nat,
    words: Seq<Seq<i64>>,
    word: Seq<i64>,
    timestamp: i64,
)
    ensures
        align_prompt(tokens, num_audio_tokens, Seq::empty(), timestamp) == seq![tokens.audio_start]
            + Seq::new(num_audio_tokens, |i: int| tokens.audio_pad) + seq![tokens.audio_end],
        align_prompt(tokens, num_audio_tokens, words.push(word), timestamp) == align_prompt(
            tokens,
            num_audio_tokens,
            words,
            timestamp,
        ) + word + seq![timestamp, timestamp],
{
    assert(align_prompt(tokens, num_audio_tokens, Seq::empty(), timestamp) =~= seq![
        tokens.audio_start,
    ] + Seq::new(num_audio_tokens, |i: int| tokens.audio_pad) + seq![tokens.audio_end]);
    assert(words.push(word).drop_last() =~= words);
    assert(align_prompt(tokens, num_audio_tokens, words.push(word), timestamp) =~= align_prompt(
        tokens,
        num_audio_tokens,
        words,
        timestamp,
    ) + word + seq![timestamp, timestamp]);
}

proof fn lemma_unit_tokens_concat(a: Seq<Seq<i64>>, b: Seq<Seq<i64>>, timestamp: i64)
    ensures
        unit_tokens(a + b, timestamp) == unit_tokens(a, timestamp) + unit_tokens(b, timestamp),
    decreases b.len(),
{
    if b.len() == 0 {
        assert(a + b =~= a);
        assert(unit_tokens(a, timestamp) + unit_tokens(b, timestamp) =~= unit_tokens(a, timestamp));
    } else {
        assert((a + b).drop_last() =~= a + b.drop_last());
        lemma_unit_tokens_concat(a, b.drop_last(), timestamp);
        assert(unit_tokens(a + b, timestamp) =~= unit_tokens(a, timestamp) + unit_tokens(
            b,
            timestamp,
        ));
    }
}

/// In the prompt of some units the start and the end of a unit are the predictions at the two
/// tokens behind it: with `before.len()` units before it, they are the classes number
/// `2 * before.len()` and `2 * before.len() + 1`.
pub proof fn law_unit_takes_its_two_predictions(
    tokens: SpecialTokens,
    num_audio_tokens: nat,
    before: Seq<Seq<i64>>,
    word: Seq<i64>,
    after: Seq<Seq<i64>>,
    timestamp: i64,
    pred_ids: Seq<i64>,
)
    requires
        tokens.audio_start != timestamp,
        tokens.audio_pad != timestamp,
        tokens.audio_end != timestamp,
        forall|k: int| 0 <= k < word.len() ==> #[trigger] word[k] != timestamp,
        forall|i: int, k: int|
            0 <= i < before.len() && 0 <= k < before[i].len() ==> #[trigger] before[i][k]
                != timestamp,
        forall|i: int, k: int|
            0 <= i < after.len() && 0 <= k < after[i].len() ==> #[trigger] after[i][k] != timestamp,
    ensures
        ({
            let prompt = align_prompt(
                tokens,
                num_audio_tokens,
                before.push(word) + after,
                timestamp,
            );
            let classes = classes_at(prompt, pred_ids, timestamp);
            let i = before.len() as int;
            let p = align_prompt(tokens, num_audio_tokens, before, timestamp).len() + word.len() as int;
            &&& classes.len() == 2 * (before.len() + 1 + after.len())
            &&& p + 1 < prompt.len()
            &&& prompt[p] == timestamp && prompt[p + 1] == timestamp
            &&& pred_ids[p] >= 0 ==> classes[2 * i] == pred_ids[p]
            &&& pred_ids[p] < 0 ==> classes[2 * i] == 0
            &&& pred_ids[p + 1] >= 0 ==> classes[2 * i + 1] == pred_ids[p + 1]
            &&& pred_ids[p + 1] < 0 ==> classes[2 * i + 1] == 0
        }),
{
    let words = before.push(word) + after;
    let prompt = align_prompt(tokens, num_audio_tokens, words, timestamp);
    let head = align_prompt(tokens, num_audio_tokens, before, timestamp);
    let p = head.len() + word.len() as int;
    law_align_prompt_layout(tokens, num_audio_tokens, before, word, timestamp);
    lemma_unit_tokens_concat(before.push(word), after, timestamp);
    let rest = unit_tokens(after, timestamp);
    assert(prompt =~= head + word + seq![timestamp, timestamp] + rest);
    assert forall|i: int, k: int| 0 <= i < words.len() && 0 <= k < words[i].len() implies (
    #[trigger] words[i][k]) != timestamp by {
        if i < before.len() {
            assert(words[i] == before[i]);
        } else if i == before.len() {
            assert(words[i] == word);
        } else {
            assert(words[i] == after[i - before.len() - 1]);
        }
    }
    law_two_timestamps_per_unit(tokens, num_audio_tokens, words, timestamp, pred_ids);
    law_two_timestamps_per_unit(tokens, num_audio_tokens, before, timestamp, pred_ids);
    lemma_no_timestamps(head, word, pred_ids, timestamp);
    lemma_class_count(head + word, pred_ids, timestamp);
    assert(prompt.take(p) =~= head + word);
    law_class_is_the_prediction(prompt, pred_ids, timestamp, p);
    let first = prompt.take(p + 1);
    assert(first =~= (head + word).push(timestamp));
    assert(first.drop_last() =~= head + word);
    lemma_class_count(first, pred_ids, timestamp);
    law_class_is_the_prediction(prompt, pred_ids, timestamp, p + 1);
}

/// A model is taken for an aligner where it has timestamp classes, or where the name of its type
/// holds the word `aligner` anywhere, and only there.
pub proof fn law_aligner_is_told_by_its_name(config: &AsrConfig, a: Seq<char>, b: Seq<char>)
    ensures
        config.classify_num is Some ==> looks_like_aligner(config),
        config.model_type matches Some(t) && t@ == a + "aligner"@ + b ==> looks_like_aligner(config),
        looks_like_aligner(config) && config.classify_num is None ==> (config.model_type matches Some(
            t,
        ) && exists|x: Seq<char>, y: Seq<char>| t@ == #[trigger] (x + "aligner"@ + y)),
{
    let word = "aligner"@;
    if let Some(t) = config.model_type {
        if t@ == a + word + b {
            let at = a.len() as int;
            assert(t@.subrange(at, at + word.len()) =~= word);
            assert(crate::text::stands_at(t@, word, at));
        }
        if contains(t@, word) {
            let at = choose|at: int| #[trigger] crate::text::stands_at(t@, word, at);
            let x = t@.take(at);
            let y = t@.skip(at + word.len());
            assert(t@ =~= x + t@.subrange(at, at + word.len()) + y);
        }
    }
}

/// With timestamp classes the output projection is not the embedding table; nothing else of the
/// decoder's configuration changes, and without them nothing at all.
pub proof fn law_aligner_has_its_own_head(config: &AsrConfig)
    ensures
        ({
            let c = aligner_text_config(config);
            let t = config.text_config;
            &&& config.classify_num is Some ==> !c.tie_word_embeddings
            &&& config.classify_num is None ==> c == t
            &&& c.num_hidden_layers == t.num_hidden_layers
            &&& c.num_attention_heads == t.num_attention_heads
            &&& c.num_key_value_heads == t.num_key_value_heads
            &&& c.head_dim == t.head_dim
        }),
{
}

/// The spans are the units, in order, and span `i` has the repaired times number `2 i` and
/// `2 i + 1` as start and end.
pub proof fn law_spans_are_the_units(
    items: Seq<ForcedAlignItem>,
    words: Seq<String>,
    timestamp_ms: Seq<i64>,
    i: int,
)
    requires
        timestamp_ms.len() == 2 * words.len(),
        is_paired(items, words, crate::timestamp::repaired_all(timestamp_ms)),
        0 <= i < words.len(),
    ensures
        items.len() == words.len(),
        items[i].text@ == words[i]@,
        items[i].start_ms == crate::timestamp::fixed(timestamp_ms)[2 * i],
        items[i].end_ms == crate::timestamp::fixed(timestamp_ms)[2 * i + 1],
{
    let times = crate::timestamp::repaired_all(timestamp_ms);
    assert(items[i].start_ms == times[2 * i] && items[i].end_ms == times[2 * i + 1]);
}

/// Times that are in order, and of ordinary size, are not changed: they are the starts and ends of
/// the spans as they were predicted.
pub proof fn law_times_in_order_are_the_spans(
    items: Seq<ForcedAlignItem>,
    words: Seq<String>,
    timestamp_ms: Seq<i64>,
    i: int,
)
    requires
        timestamp_ms.len() == 2 * words.len(),
        is_paired(items, words, crate::timestamp::repaired_all(timestamp_ms)),
        forall|a: int, b: int|
            0 <= a <= b < timestamp_ms.len() ==> timestamp_ms[a] <= timestamp_ms[b],
        forall|k: int|
            0 <= k < timestamp_ms.len() ==> -0x20_0000_0000_0000 <= #[trigger] timestamp_ms[k]
                <= 0x20_0000_0000_0000,
        0 <= i < words.len(),
    ensures
        items[i].start_ms == timestamp_ms[2 * i],
        items[i].end_ms == timestamp_ms[2 * i + 1],
{
    let times = crate::timestamp::repaired_all(timestamp_ms);
    crate::double::law_stored_exact(timestamp_ms[2 * i] as int);
    crate::double::law_stored_exact(timestamp_ms[2 * i + 1] as int);
    crate::timestamp::law_in_order_unchanged(timestamp_ms, 2 * i);
    crate::timestamp::law_in_order_unchanged(timestamp_ms, 2 * i + 1);
    assert(items[i].start_ms == times[2 * i] && items[i].end_ms == times[2 * i + 1]);
}

/// The aligned spans are in order: none ends before it starts, and none starts before the one
/// before it ends. Where no time is negative, none starts before zero.
pub proof fn law_spans_in_order(
    items: Seq<ForcedAlignItem>,
    words: Seq<String>,
    timestamp_ms: Seq<i64>,
    i: int,
)
    requires
        timestamp_ms.len() == 2 * words.len(),
        timestamp_ms.len() <= 0x8_0000_0000_0000,
        is_paired(items, words, crate::timestamp::repaired_all(timestamp_ms)),
        0 <= i < items.len(),
    ensures
        items[i].start_ms <= items[i].end_ms,
        i + 1 < items.len() ==> items[i].end_ms <= items[i + 1].start_ms,
        (forall|k: int| 0 <= k < timestamp_ms.len() ==> #[trigger] timestamp_ms[k] >= 0)
            ==> items[i].start_ms >= 0,
{
    if forall|k: int| 0 <= k < timestamp_ms.len() ==> #[trigger] timestamp_ms[k] >= 0 {
        crate::timestamp::law_repaired_not_negative(timestamp_ms, 2 * i);
    }
    crate::timestamp::law_repaired_in_order(timestamp_ms, 2 * i, 2 * i + 1);
    if i + 1 < items.len() {
        crate::timestamp::law_repaired_in_order(timestamp_ms, 2 * i + 1, 2 * i + 2);
        assert(items[i + 1].start_ms == crate::timestamp::repaired_all(timestamp_ms)[2 * (i + 1)]);
    }
}

} // verus!
