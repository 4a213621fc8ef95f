//! Transcription: the prompt, its prefill and the decoding loop.

use crate::config::{AsrConfig, EncoderSetup, HOP_LENGTH, MEL_SAMPLE_RATE, N_FFT};
use crate::mel::WhisperFeatureExtractor;
use crate::prompt::{
    audio_rows, embed_tokens, first_positions, forward_input, post_audio_tokens, pre_audio_tokens,
    push_all, push_pads, ForwardInput, SpecialTokens, PRE_AUDIO_TOKEN_COUNT,
};
use crate::tensor::{Device, Tensor};
use crate::text_decoder::TextDecoder;
use crate::transcript::parse_asr_output;
use crate::weights::{LoadError, Weights};
use vstd::prelude::*;

verus! {

/// How many tokens are generated at most.
pub const MAX_NEW_TOKENS: usize = 256;

/// Spare positions of the rotation tables.
pub const SPARE_POSITIONS: usize = 8;

/// ASR inference engine.
#[derive(Debug)]
pub struct AsrInference {
    pub encoder: EncoderSetup,
    pub text_decoder: TextDecoder,
    pub mel_extractor: WhisperFeatureExtractor,
    pub tokens: SpecialTokens,
    pub device: Device,
}

/// Result of a transcription.
#[derive(Debug)]
pub struct TranscribeResult {
    pub text: String,
    pub language: String,
    pub raw_output: String,
    /// Length of the audio in samples.
    pub num_samples: usize,
}

/// State of the decoding loop.
#[derive(Debug)]
pub struct Decode {
    /// The tokens so far.
    pub generated: Vec<i64>,
    /// How many of them this loop has generated.
    pub steps: usize,
    /// Position of the next token.
    pub position: usize,
}

/// Whether a token ends the answer.
pub open spec fn is_eos(tokens: SpecialTokens, id: i64) -> bool {
    id == tokens.endoftext || id == tokens.im_end
}

impl AsrInference {
    pub open spec fn wf(&self) -> bool {
        &&& self.text_decoder.wf()
        &&& self.text_decoder.embed_tokens.kind != crate::tensor::DType::Int64
        &&& self.device == self.text_decoder.embed_tokens.device
        &&& crate::prompt::known(&self.text_decoder, crate::prompt::pre_audio())
        &&& crate::prompt::known(&self.text_decoder, crate::prompt::post_audio())
        &&& self.encoder.chunk_size > 0
        &&& self.encoder.tokens_per_chunk > 0
    }

    /// Makes the engine of what has been loaded: the weights, the filter bank of the feature
    /// extractor and the identifiers of the tokenizer.
    pub fn load(
        config: &AsrConfig,
        weights: &Weights,
        encoder: EncoderSetup,
        tokens: SpecialTokens,
        mel_filters: Tensor,
        device: Device,
    ) -> (res: Result<AsrInference, LoadError>)
        requires
            weights.wf(),
            crate::text_decoder::has_matrices(
                weights,
                "thinker.model"@,
                config.text_config.tie_word_embeddings,
            ),
        ensures
            match res {
                Ok(m) => {
                    &&& m.text_decoder.wf()
                    &&& m.text_decoder.picked_from(
                        weights,
                        "thinker.model"@,
                        &config.text_config,
                        &config.decoder_weights,
                    )
                    &&& m.encoder == encoder
                    &&& m.tokens == tokens
                    &&& m.device == device
                    &&& m.mel_extractor.n_fft == 400
                    &&& m.mel_extractor.hop_length == 160
                    &&& m.mel_extractor.num_mel_bins == config.num_mel_bins
                    &&& m.mel_extractor.sample_rate == 16000
                    &&& m.mel_extractor.mel_filters == mel_filters
                },
                Err(e) => crate::text_decoder::is_missing(
                    weights,
                    crate::text_decoder::needed(
                        "thinker.model"@,
                        &config.text_config,
                        &config.decoder_weights,
                    ),
                    e,
                ),
            },
    {
        let text_decoder: TextDecoder = match TextDecoder::load(
            weights,
            "thinker.model",
            &config.text_config,
            &config.decoder_weights,
        ) {
            Ok(d) => d,
            Err(e) => {
                return Err(e);
            },
        };
        let mel_extractor = WhisperFeatureExtractor::new(
            N_FFT,
            HOP_LENGTH,
            config.num_mel_bins,
            MEL_SAMPLE_RATE,
            mel_filters,
        );
        Ok(AsrInference { encoder, text_decoder, mel_extractor, tokens, device })
    }

    /// The tokens of a prompt and the positions of the audio in it.
    ///
    /// `language` holds the tokens of [`language_prompt`](crate::prompt::language_prompt), or
    /// nothing where no language is forced.
    pub fn build_prompt(&self, num_audio_tokens: usize, language: &[i64]) -> (res: (
        Vec<i64>,
        Vec<usize>,
    ))
        requires
            9 + num_audio_tokens <= usize::MAX,
        ensures
            res.0@ == crate::prompt::asr_prompt(
                self.tokens.audio_pad,
                num_audio_tokens as nat,
                language@,
            ),
            res.1@ == Seq::new(num_audio_tokens as nat, |i: int| (9 + i) as usize),
    {
        let mut tokens: Vec<i64> = pre_audio_tokens();
        let audio_start: usize = tokens.len();
        push_pads(&mut tokens, self.tokens.audio_pad, num_audio_tokens);
        let post: Vec<i64> = post_audio_tokens();
        push_all(&mut tokens, post.as_slice());
        push_all(&mut tokens, language);
        let mut positions: Vec<usize> = Vec::new();
        let mut i: usize = 0;
        while i < num_audio_tokens
            invariant
                i <= num_audio_tokens,
                audio_start == 9,
                9 + num_audio_tokens <= usize::MAX,
                positions@ == Seq::new(i as nat, |k: int| (9 + k) as usize),
            decreases num_audio_tokens - i,
        {
            positions.push(audio_start + i);
            assert(positions@ =~= Seq::new((i + 1) as nat, |k: int| (9 + k) as usize));
            i = i + 1;
        }
        (tokens, positions)
    }

    /// The positions for which the rotation tables of a transcription are computed: those of the
    /// prompt, those of all tokens that may be generated, and some to spare.
    pub fn transcription_positions(&self, prompt_len: usize) -> (res: Vec<i64>)
        requires
            prompt_len + 264 <= usize::MAX,
            prompt_len + 264 <= i64::MAX,
        ensures
            res@ == crate::prompt::positions((prompt_len + 256 + 8) as nat),
    {
        first_positions(prompt_len + MAX_NEW_TOKENS + SPARE_POSITIONS)
    }

    /// The input of the prefill, and the decoding loop that follows it.
    pub fn prefill(&self, audio: &Tensor, language: &[i64], cos: &Tensor, sin: &Tensor) -> (res: (
        ForwardInput,
        Decode,
    ))
        requires
            self.wf(),
            self.text_decoder.knows(self.tokens.audio_pad),
            crate::prompt::known(&self.text_decoder, language@),
            crate::prompt::is_audio(audio, &self.text_decoder),
            crate::prompt::input_fits(
                &self.text_decoder,
                crate::prompt::prompt_len(audio.rows().len(), language@),
                0,
            ),
            crate::prompt::covers(cos, crate::prompt::prompt_len(audio.rows().len(), language@)),
            crate::prompt::covers(sin, crate::prompt::prompt_len(audio.rows().len(), language@)),
        ensures
            crate::prompt::is_input(
                &res.0,
                &self.text_decoder,
                crate::prompt::asr_rows(&self.text_decoder, audio.rows(), language@),
                cos,
                sin,
                0,
                0,
            ),
            res.1.generated@ == Seq::<i64>::empty(),
            res.1.steps == 0,
            res.1.position == crate::prompt::prompt_len(audio.rows().len(), language@),
    {
        let d: &TextDecoder = &self.text_decoder;
        let num_audio_tokens: usize = audio.shape[0];
        let (input_ids, audio_positions) = self.build_prompt(num_audio_tokens, language);
        let ghost ids = input_ids@;
        let embedded: Tensor = embed_tokens(d, input_ids.as_slice(), self.device);
        let rows: Tensor = audio_rows(d, audio);
        let start: usize = PRE_AUDIO_TOKEN_COUNT;
        let end: usize = start + audio_positions.len();
        proof {
            assert(embedded.shape@.update(1, 0) =~= rows.shape@.update(1, 0));
        }
        let hidden: Tensor = embedded.slice_scatter(&rows, 1, start, end);
        let ghost want = crate::prompt::asr_rows(d, audio.rows(), language@);
        proof {
            let mixed = crate::prompt::embeddings(d, ids);
            assert(mixed.take(9) + audio.rows() + mixed.skip(9 + num_audio_tokens) =~= want);
            assert(hidden.rows() == want);
        }
        let input: ForwardInput = forward_input(d, hidden, cos, sin, 0, 0);
        (input, Decode { generated: Vec::new(), steps: 0, position: input_ids.len() })
    }

    /// Whether a token ends the answer, or the answer has become too long.
    pub fn stops(&self, run: &Decode, next_token: i64) -> (res: bool)
        ensures
            res == (run.steps >= 256 || is_eos(self.tokens, next_token)),
    {
        run.steps >= MAX_NEW_TOKENS || next_token == self.tokens.endoftext || next_token
            == self.tokens.im_end
    }

    /// What a step of the decoding loop does: it ends where the answer is complete, and else takes
    /// the token and hands it to the decoder at the next position.
    pub open spec fn steps_on(
        &self,
        before: &Decode,
        after: &Decode,
        next_token: i64,
        cos: &Tensor,
        sin: &Tensor,
        res: &Option<ForwardInput>,
    ) -> bool {
        match res {
            None => {
                &&& before.steps >= 256 || is_eos(self.tokens, next_token)
                &&& *after == *before
            },
            Some(input) => {
                &&& before.steps < 256 && !is_eos(self.tokens, next_token)
                &&& after.generated@ == before.generated@.push(next_token)
                &&& after.steps == before.steps + 1
                &&& after.position == before.position + 1
                &&& crate::prompt::holds_rows(
                    &input.hidden,
                    &self.text_decoder,
                    crate::prompt::embeddings(&self.text_decoder, seq![next_token]),
                )
                &&& crate::prompt::is_range(&input.cos, cos, before.position as int, 1)
                &&& crate::prompt::is_range(&input.sin, sin, before.position as int, 1)
                &&& input.mask is None
            },
        }
    }

    /// Takes the token that the decoder came up with: either the answer is complete, or the
    /// decoder has to be run on that token.
    pub fn decode_step(&self, run: &mut Decode, next_token: i64, cos: &Tensor, sin: &Tensor) -> (res:
        Option<ForwardInput>)
        requires
            self.wf(),
            old(run).steps < 256 && !is_eos(self.tokens, next_token) ==> {
                &&& self.text_decoder.knows(next_token)
                &&& crate::prompt::covers(cos, old(run).position + 1)
                &&& crate::prompt::covers(sin, old(run).position + 1)
            },
        ensures
            self.steps_on(old(run), final(run), next_token, cos, sin, &res),
    {
        if self.stops(run, next_token) {
            return None;
        }
        run.generated.push(next_token);
        let ids: Vec<i64> = vec![next_token];
        assert(ids@ =~= seq![next_token]);
        let hidden: Tensor = embed_tokens(&self.text_decoder, ids.as_slice(), self.device);
        let part_cos: Tensor = cos.narrow(0, run.position, 1);
        let part_sin: Tensor = sin.narrow(0, run.position, 1);
        run.position = run.position + 1;
        run.steps = run.steps + 1;
        Some(ForwardInput { hidden, cos: part_cos, sin: part_sin, mask: None })
    }
}

/// The result of a transcription from the text of the generated tokens.
pub fn transcription(raw_text: String, language_forced: bool, num_samples: usize) -> (res:
    TranscribeResult)
    ensures
        (res.language@, res.text@) == crate::transcript::parsed(
            crate::text::glyphs(raw_text@),
            language_forced,
        ),
        res.raw_output == raw_text,
        res.num_samples == num_samples,
{
    let (language, text) = parse_asr_output(raw_text.as_str(), language_forced);
    TranscribeResult { text, language, raw_output: raw_text, num_samples }
}

// ---------------------------------------------------------------------------
// The decoding loop as a whole
// ---------------------------------------------------------------------------

/// What the decoding loop has collected once it has taken `tokens`, one after the other, where it
/// started with `start` and has `steps` steps behind it.
pub open spec fn collected(
    special: SpecialTokens,
    start: Seq<i64>,
    steps: nat,
    tokens: Seq<i64>,
) -> Seq<i64>
    decreases tokens.len(),
{
    if tokens.len() == 0 || steps >= 256 || is_eos(special, tokens[0]) {
        start
    } else {
        collected(special, start.push(tokens[0]), steps + 1, tokens.drop_first())
    }
}

/// The number of leading tokens before the first that ends the answer.
pub open spec fn answer_len(special: SpecialTokens, tokens: Seq<i64>) -> nat
    decreases tokens.len(),
{
    if tokens.len() == 0 || is_eos(special, tokens[0]) {
        0
    } else {
        1 + answer_len(special, tokens.drop_first())
    }
}

/// Decoding collects the tokens before the first that ends the answer, and never more than there
/// are steps left.
pub proof fn law_decoding_collects_answer(
    special: SpecialTokens,
    start: Seq<i64>,
    steps: nat,
    tokens: Seq<i64>,
)
    requires
        steps <= 256,
    ensures
        ({
            let n = answer_len(special, tokens) as int;
            let room = 256 - steps;
            let taken = if n < room {
                n
            } else {
                room
            };
            &&& n <= tokens.len()
            &&& collected(special, start, steps, tokens) == start + tokens.take(taken)
        }),
    decreases tokens.len(),
{
    let n = answer_len(special, tokens) as int;
    let room = 256 - steps;
    let taken = if n < room {
        n
    } else {
        room
    };
    if tokens.len() == 0 || steps >= 256 || is_eos(special, tokens[0]) {
        lemma_answer_len(special, tokens);
        assert(start + tokens.take(0) =~= start);
    } else {
        law_decoding_collects_answer(
            special,
            start.push(tokens[0]),
            steps + 1,
            tokens.drop_first(),
        );
        assert(start.push(tokens[0]) + tokens.drop_first().take(taken - 1) =~= start + tokens.take(
            taken,
        ));
    }
}

proof fn lemma_answer_len(special: SpecialTokens, tokens: Seq<i64>)
    ensures
        answer_len(special, tokens) <= tokens.len(),
    decreases tokens.len(),
{
    if tokens.len() > 0 && !is_eos(special, tokens[0]) {
        lemma_answer_len(special, tokens.drop_first());
    }
}

/// Whether none of some tokens ends the answer.
pub open spec fn goes_on(special: SpecialTokens, tokens: Seq<i64>) -> bool {
    forall|i: int|
        0 <= i < tokens.len() ==> #[trigger] tokens[i] != special.endoftext && tokens[i]
            != special.im_end
}

proof fn lemma_answer_len_is(special: SpecialTokens, answer: Seq<i64>, rest: Seq<i64>)
    requires
        goes_on(special, answer),
        rest.len() > 0 ==> rest[0] == special.endoftext || rest[0] == special.im_end,
    ensures
        answer_len(special, answer + rest) == answer.len(),
    decreases answer.len(),
{
    let all = answer + rest;
    if answer.len() > 0 {
        let more = answer.drop_first();
        assert forall|i: int| 0 <= i < more.len() implies #[trigger] more[i] != special.endoftext
            && more[i] != special.im_end by {
            assert(more[i] == answer[i + 1]);
        }
        lemma_answer_len_is(special, more, rest);
        assert(all[0] == answer[0]);
        assert(all.drop_first() =~= more + rest);
    }
}

/// Decoding takes every token up to the first of the two that end an answer, adds them to what it
/// started with, and takes nothing after that; without such a token it takes the first 256.
pub proof fn law_answer_is_what_comes_before_the_end(
    special: SpecialTokens,
    start: Seq<i64>,
    answer: Seq<i64>,
    end: i64,
    rest: Seq<i64>,
)
    requires
        goes_on(special, answer),
        end == special.endoftext || end == special.im_end,
    ensures
        answer.len() <= 256 ==> collected(special, start, 0, answer + seq![end] + rest) == start
            + answer,
        answer.len() <= 256 ==> collected(special, start, 0, answer) == start + answer,
        answer.len() > 256 ==> collected(special, start, 0, answer) == start + answer.take(256),
        answer.len() > 256 ==> collected(special, start, 0, answer + seq![end] + rest) == start
            + answer.take(256),
{
    let none = Seq::<i64>::empty();
    let behind = seq![end] + rest;
    let all = answer + behind;
    assert(answer + seq![end] + rest =~= all);
    lemma_answer_len_is(special, answer, behind);
    lemma_answer_len_is(special, answer, none);
    assert(answer + none =~= answer);
    law_decoding_collects_answer(special, start, 0, all);
    law_decoding_collects_answer(special, start, 0, answer);
    assert(all.take(answer.len() as int) =~= answer);
    assert(answer.take(answer.len() as int) =~= answer);
    if answer.len() > 256 {
        assert(all.take(256) =~= answer.take(256));
    }
}

/// A step that goes on adds the token that the decoder came up with, uses one position and one
/// step, and hands the decoder the embedding of that token with the rotation of that position. A
/// step that ends changes nothing.
pub proof fn law_step_uses_one_position(
    m: &AsrInference,
    before: &Decode,
    after: &Decode,
    next_token: i64,
    cos: &Tensor,
    sin: &Tensor,
    res: &Option<ForwardInput>,
)
    requires
        m.steps_on(before, after, next_token, cos, sin, res),
    ensures
        res is None <==> before.steps >= 256 || next_token == m.tokens.endoftext || next_token
            == m.tokens.im_end,
        match res {
            None => after.generated@ == before.generated@ && after.steps == before.steps
                && after.position == before.position,
            Some(input) => {
                &&& after.generated@ == before.generated@ + seq![next_token]
                &&& after.steps == before.steps + 1
                &&& after.position == before.position + 1
                &&& input.hidden.rows().len() == 1
                &&& input.hidden.rows()[0] == m.text_decoder.embed_tokens.row(next_token as int)
                &&& input.cos.along(0) == cos.along(0).subrange(
                    before.position as int,
                    before.position + 1,
                )
                &&& input.sin.along(0) == sin.along(0).subrange(
                    before.position as int,
                    before.position + 1,
                )
                &&& input.mask is None
            },
        },
{
    assert(before.generated@ + seq![next_token] =~= before.generated@.push(next_token));
}

/// A step of the decoding loop takes what it collects one token on: where it goes on, the rest of
/// the tokens is collected from where it has got to, and where it ends, nothing more is collected.
pub proof fn law_step_collects_one(
    m: &AsrInference,
    before: &Decode,
    after: &Decode,
    tokens: Seq<i64>,
    cos: &Tensor,
    sin: &Tensor,
    res: &Option<ForwardInput>,
)
    requires
        tokens.len() > 0,
        m.steps_on(before, after, tokens[0], cos, sin, res),
    ensures
        collected(m.tokens, before.generated@, before.steps as nat, tokens) == match res {
            Some(_) => collected(
                m.tokens,
                after.generated@,
                after.steps as nat,
                tokens.drop_first(),
            ),
            None => after.generated@,
        },
{
}

} // verus!
