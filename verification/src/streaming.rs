//! Incremental transcription of growing audio.
//!
//! The prompt is laid out as `[before audio (9)] [audio (N)] [after audio (6)]`. With causal
//! attention, keys and values at a position depend only on the inputs up to it, so what has been
//! computed for the audio of complete chunks stays valid when more audio arrives: the cache is
//! rewound to it, and only the rest of the prompt is run again.

use crate::inference::{AsrInference, Decode, TranscribeResult};
use crate::prompt::{
    audio_rows, embed_tokens, first_positions, forward_input, join_rows, post_audio_tokens,
    pre_audio_tokens, ForwardInput, PRE_AUDIO_TOKEN_COUNT,
};
use crate::tensor::{Device, Tensor};
use crate::text_decoder::{KvCache, TextDecoder};
use crate::transcript::{parse_asr_output, trim_repeated_tail};
use vstd::prelude::*;

verus! {

/// Positions of the rotation tables of a stream.
pub const STREAM_POSITIONS: usize = 4096;

/// State for incremental streaming ASR.
#[derive(Debug)]
pub struct StreamingState {
    /// Key/value cache of the previous call; none before the first.
    kv_cache: Option<KvCache>,
    /// Number of audio tokens of complete chunks in the cache.
    audio_tokens_in_cache: usize,
    /// Total sequence length in the cache.
    cache_seq_len: usize,
    /// Rotation tables for all positions.
    cos: Tensor,
    sin: Tensor,
    /// Embeddings of the tokens before the audio.
    pre_audio_embeds: Tensor,
    /// Audio embeddings of the complete chunks of the previous call.
    cached_audio_embeds: Option<Tensor>,
    /// Number of mel frames that those embeddings stand for.
    cached_mel_frames: usize,
    /// Tokens generated in the previous call.
    last_generated_ids: Vec<i64>,
    /// Number of trailing tokens to decode again in each call; the ones before them are kept as
    /// a prefix, which is run again but not decoded again. Zero decodes all tokens again, for an
    /// exact match with an offline transcription of the same audio.
    rollback_tokens: usize,
    /// Forced language; none detects it.
    forced_language: Option<String>,
    /// Tokens of the language prefix.
    language_prefix_ids: Vec<i64>,
    device: Device,
}

/// What the state of a stream holds, for contracts; the fields are those of [`StreamingState`].
#[derive(Debug)]
pub struct StreamContents {
    pub kv_cache: Option<KvCache>,
    pub audio_tokens_in_cache: usize,
    pub cache_seq_len: usize,
    pub cos: Tensor,
    pub sin: Tensor,
    pub pre_audio_embeds: Tensor,
    pub cached_audio_embeds: Option<Tensor>,
    pub cached_mel_frames: usize,
    pub last_generated_ids: Vec<i64>,
    pub rollback_tokens: usize,
    pub forced_language: Option<String>,
    pub language_prefix_ids: Vec<i64>,
    pub device: Device,
}

impl View for StreamingState {
    type V = StreamContents;

    closed spec fn view(&self) -> StreamContents {
        StreamContents {
            kv_cache: self.kv_cache,
            audio_tokens_in_cache: self.audio_tokens_in_cache,
            cache_seq_len: self.cache_seq_len,
            cos: self.cos,
            sin: self.sin,
            pre_audio_embeds: self.pre_audio_embeds,
            cached_audio_embeds: self.cached_audio_embeds,
            cached_mel_frames: self.cached_mel_frames,
            last_generated_ids: self.last_generated_ids,
            rollback_tokens: self.rollback_tokens,
            forced_language: self.forced_language,
            language_prefix_ids: self.language_prefix_ids,
            device: self.device,
        }
    }
}

/// The mel frames that a call of the stream encodes.
#[derive(Debug)]
pub struct FramesToEncode {
    pub mel: Tensor,
    /// First frame to encode.
    pub from: usize,
    /// End of the frames to encode.
    pub to: usize,
}

/// The number of frames of complete chunks.
pub open spec fn full_frames(frames: int, chunk_size: int) -> int {
    frames / chunk_size * chunk_size
}

/// The number of audio tokens of complete chunks.
pub open spec fn full_tokens(frames: int, chunk_size: int, tokens_per_chunk: int) -> int {
    frames / chunk_size * tokens_per_chunk
}

/// The number of frames that a call works on: all, or those of complete chunks.
pub open spec fn frames_to_use(total: int, chunk_size: int, allow_tail: bool) -> int {
    if allow_tail {
        total
    } else {
        full_frames(total, chunk_size)
    }
}

/// Where encoding starts: after the cached frames, where there are new ones after them.
pub open spec fn encode_from(cached: int, to: int) -> int {
    if 0 < cached < to {
        cached
    } else {
        0
    }
}

/// The audio embeddings of all frames: the cached ones, where encoding started after them, and then
/// the new ones.
pub open spec fn all_audio(
    cached: Seq<Seq<i64>>,
    from: int,
    encoded: Seq<Seq<i64>>,
) -> Seq<Seq<i64>> {
    if from > 0 {
        cached + encoded
    } else {
        encoded
    }
}

/// Whether there is nothing to do for a call that works on `to` frames.
pub open spec fn nothing_new(cached: int, to: int, allow_tail: bool) -> bool {
    to == 0 || (to <= cached && !allow_tail)
}

/// The generated tokens that are kept as a prefix: all but the last `rollback`.
pub open spec fn kept_text(last: Seq<i64>, rollback: int) -> Seq<i64> {
    if rollback > 0 && last.len() > rollback {
        last.take(last.len() - rollback)
    } else {
        Seq::empty()
    }
}

/// The tokens that a call ends with: with rollback, those generated without a repeated tail.
pub open spec fn final_ids(rollback: int, generated: Seq<i64>) -> Seq<i64> {
    if rollback > 0 {
        crate::transcript::without_repeated_tail(generated)
    } else {
        generated
    }
}

/// Language and transcript that a call reports for a raw output: a forced language by its own
/// name.
pub open spec fn reported(forced_language: Option<String>, raw: Seq<char>) -> (
    Seq<char>,
    Seq<char>,
) {
    let p = crate::transcript::parsed(crate::text::glyphs(raw), forced_language is Some);
    match forced_language {
        Some(l) => (l@, p.1),
        None => p,
    }
}

impl StreamingState {
    /// What holds of a stream of an engine at all times. Of the audio embeddings only those of
    /// complete chunks are cached.
    pub open spec fn wf(&self, m: &AsrInference) -> bool {
        let d = &m.text_decoder;
        let chunk = m.encoder.chunk_size as int;
        let frames = self@.cached_mel_frames as int;
        &&& self@.kv_cache matches Some(c) ==> {
            &&& c.wf()
            &&& c@.len() == d.config.num_hidden_layers
        }
        &&& self@.audio_tokens_in_cache <= 4096
        &&& frames == full_frames(frames, chunk)
        &&& self.cached_rows().len() == full_tokens(
            frames,
            chunk,
            m.encoder.tokens_per_chunk as int,
        )
        &&& self@.cached_mel_frames > 0 ==> self@.cached_audio_embeds is Some
        &&& self@.cached_audio_embeds matches Some(t) ==> crate::prompt::is_audio(&t, d)
        &&& crate::prompt::covers(&self@.cos, 4096)
        &&& crate::prompt::covers(&self@.sin, 4096)
        &&& crate::prompt::holds_rows(
            &self@.pre_audio_embeds,
            d,
            crate::prompt::embeddings(d, crate::prompt::pre_audio()),
        )
        &&& crate::prompt::known(d, self@.language_prefix_ids@)
        &&& crate::prompt::known(d, self@.last_generated_ids@)
    }

    /// The audio rows of the complete chunks that have been encoded.
    pub open spec fn cached_rows(&self) -> Seq<Seq<i64>> {
        match self@.cached_audio_embeds {
            Some(t) => t.rows(),
            None => Seq::empty(),
        }
    }

    /// Whether the audio tokens that the key/value cache is rewound to are those of the cached
    /// embeddings. It holds of a new stream and after each prefill.
    pub open spec fn in_step(&self) -> bool {
        self@.audio_tokens_in_cache == match self@.kv_cache {
            Some(_) => self.cached_rows().len(),
            None => 0,
        }
    }

    /// Whether audio starts with what is cached of it.
    pub open spec fn continued_by(&self, audio: Seq<Seq<i64>>) -> bool {
        &&& self.cached_rows().len() <= audio.len()
        &&& audio.take(self.cached_rows().len() as int) == self.cached_rows()
    }

    /// The generated tokens that are kept as a prefix.
    pub open spec fn text(&self) -> Seq<i64> {
        kept_text(self@.last_generated_ids@, self@.rollback_tokens as int)
    }

    /// The number of audio tokens of complete chunks whose embeddings are cached.
    pub fn cached_tokens(&self) -> (res: usize)
        requires
            self@.cached_audio_embeds matches Some(t) ==> t.rank() == 2,
        ensures
            res == self.cached_rows().len(),
    {
        match &self.cached_audio_embeds {
            Some(t) => t.shape[0],
            None => 0,
        }
    }

    /// A copy of the generated tokens that are kept as a prefix.
    pub fn prefix_ids(&self) -> (res: Vec<i64>)
        ensures
            res@ == self.text(),
            0 < self@.rollback_tokens <= self@.last_generated_ids.len() ==> res@
                == self@.last_generated_ids@.take(
                self@.last_generated_ids.len() - self@.rollback_tokens,
            ),
            self@.rollback_tokens == 0 || self@.last_generated_ids.len() < self@.rollback_tokens
                ==> res@ == Seq::<i64>::empty(),
    {
        let mut res: Vec<i64> = Vec::new();
        let n: usize = self.last_generated_ids.len();
        if self.rollback_tokens == 0 || n <= self.rollback_tokens {
            return res;
        }
        let keep: usize = n - self.rollback_tokens;
        let mut i: usize = 0;
        while i < keep
            invariant
                i <= keep <= self.last_generated_ids.len(),
                res@ == self.last_generated_ids@.take(i as int),
            decreases keep - i,
        {
            res.push(self.last_generated_ids[i]);
            assert(res@ =~= self.last_generated_ids@.take(i + 1));
            i = i + 1;
        }
        res
    }
}

impl StreamingState {
    /// The key/value cache; none before the first call.
    pub fn cache(&self) -> (res: Option<&KvCache>)
        ensures
            match res {
                Some(c) => self@.kv_cache == Some(*c),
                None => self@.kv_cache is None,
            },
    {
        self.kv_cache.as_ref()
    }

    /// The key/value cache, for the decoder to run on.
    pub fn cache_mut(&mut self) -> (res: &mut KvCache)
        requires
            old(self)@.kv_cache is Some,
        ensures
            *res == old(self)@.kv_cache->0,
            final(self)@ == (StreamContents { kv_cache: Some(*final(res)), ..old(self)@ }),
    {
        self.kv_cache.as_mut().unwrap()
    }

    pub fn audio_tokens_in_cache(&self) -> (res: usize)
        ensures
            res == self@.audio_tokens_in_cache,
    {
        self.audio_tokens_in_cache
    }

    pub fn cache_seq_len(&self) -> (res: usize)
        ensures
            res == self@.cache_seq_len,
    {
        self.cache_seq_len
    }

    /// The rotation tables, cosine before sine.
    pub fn rotation(&self) -> (res: (&Tensor, &Tensor))
        ensures
            *res.0 == self@.cos,
            *res.1 == self@.sin,
    {
        (&self.cos, &self.sin)
    }

    pub fn pre_audio_embeds(&self) -> (res: &Tensor)
        ensures
            *res == self@.pre_audio_embeds,
    {
        &self.pre_audio_embeds
    }

    pub fn cached_audio_embeds(&self) -> (res: Option<&Tensor>)
        ensures
            match res {
                Some(t) => self@.cached_audio_embeds == Some(*t),
                None => self@.cached_audio_embeds is None,
            },
    {
        self.cached_audio_embeds.as_ref()
    }

    pub fn cached_mel_frames(&self) -> (res: usize)
        ensures
            res == self@.cached_mel_frames,
    {
        self.cached_mel_frames
    }

    pub fn language_prefix_ids(&self) -> (res: &Vec<i64>)
        ensures
            *res == self@.language_prefix_ids,
    {
        &self.language_prefix_ids
    }

    pub fn forced_language(&self) -> (res: Option<&String>)
        ensures
            match res {
                Some(l) => self@.forced_language == Some(*l),
                None => self@.forced_language is None,
            },
    {
        self.forced_language.as_ref()
    }
}

/// The positions for which the rotation tables of a stream are computed.
pub fn stream_positions() -> (res: Vec<i64>)
    ensures
        res@ == crate::prompt::positions(4096),
{
    first_positions(STREAM_POSITIONS)
}

impl AsrInference {
    /// Initializes the state of a stream; to be called once before the first transcription.
    ///
    /// The audio encoder switches to attention within chunks. `prefix_ids` are the tokens of
    /// [`language_prompt`](crate::prompt::language_prompt) for the forced language; without one
    /// they are not used. `cos` and `sin` are the rotation tables of [`stream_positions`].
    pub fn init_streaming(
        &mut self,
        language: Option<&str>,
        prefix_ids: Vec<i64>,
        rollback_tokens: usize,
        cos: Tensor,
        sin: Tensor,
    ) -> (res: StreamingState)
        requires
            old(self).wf(),
            language is Some ==> crate::prompt::known(&old(self).text_decoder, prefix_ids@),
            9 * old(self).text_decoder.width() <= usize::MAX,
            crate::prompt::covers(&cos, 4096),
            crate::prompt::covers(&sin, 4096),
        ensures
            *final(self) == (AsrInference {
                encoder: crate::config::EncoderSetup {
                    chunk_local: true,
                    ..old(self).encoder
                },
                ..*old(self)
            }),
            res.wf(final(self)),
            res.in_step(),
            res@.kv_cache is None,
            res@.audio_tokens_in_cache == 0,
            res@.cache_seq_len == 0,
            res@.cos == cos,
            res@.sin == sin,
            res@.cached_audio_embeds is None,
            res@.cached_mel_frames == 0,
            res@.last_generated_ids@ == Seq::<i64>::empty(),
            res@.rollback_tokens == rollback_tokens,
            match language {
                Some(l) => res@.forced_language matches Some(f) && f@ == l@
                    && res@.language_prefix_ids == prefix_ids,
                None => res@.forced_language is None && res@.language_prefix_ids@
                    == Seq::<i64>::empty(),
            },
            res@.device == old(self).device,
    {
        self.encoder.chunk_local = true;
        let (forced_language, language_prefix_ids): (Option<String>, Vec<i64>) = match language {
            Some(l) => (Some(l.to_owned()), prefix_ids),
            None => (None, Vec::new()),
        };
        let ids: Vec<i64> = pre_audio_tokens();
        let pre_audio_embeds: Tensor = embed_tokens(
            &self.text_decoder,
            ids.as_slice(),
            self.device,
        );
        StreamingState {
            kv_cache: None,
            audio_tokens_in_cache: 0,
            cache_seq_len: 0,
            cos,
            sin,
            pre_audio_embeds,
            cached_audio_embeds: None,
            cached_mel_frames: 0,
            last_generated_ids: Vec::new(),
            rollback_tokens,
            forced_language,
            language_prefix_ids,
            device: self.device,
        }
    }

    /// The frames that a call encodes, of the mel spectrogram (bins, frames) of all audio so far.
    pub fn streaming_transcribe(&self, mel: &Tensor, state: &StreamingState) -> (res: Option<
        FramesToEncode,
    >)
        requires
            self.encoder.chunk_size > 0,
            mel.wf(),
            mel.rank() == 2,
        ensures
            self.encodes(mel, state, true, res),
            res is Some <==> mel.shape[1] > 0,
    {
        self.streaming_transcribe_with_tail(mel, state, true)
    }

    /// The frames that a call encodes where only complete chunks are processed; the remaining
    /// ones are left to a later call.
    pub fn streaming_transcribe_partial(&self, mel: &Tensor, state: &StreamingState) -> (res: Option<
        FramesToEncode,
    >)
        requires
            self.encoder.chunk_size > 0,
            mel.wf(),
            mel.rank() == 2,
        ensures
            self.encodes(mel, state, false, res),
            res is Some <==> mel.shape[1] / self.encoder.chunk_size * self.encoder.chunk_size
                > state@.cached_mel_frames,
    {
        self.streaming_transcribe_with_tail(mel, state, false)
    }

    /// Whether `res` are the frames to encode, or nothing where there is nothing to do.
    pub open spec fn encodes(
        &self,
        mel: &Tensor,
        state: &StreamingState,
        allow_tail: bool,
        res: Option<FramesToEncode>,
    ) -> bool {
        let to = frames_to_use(mel.shape[1] as int, self.encoder.chunk_size as int, allow_tail);
        let cached = state@.cached_mel_frames as int;
        match res {
            None => nothing_new(cached, to, allow_tail),
            Some(f) => {
                &&& !nothing_new(cached, to, allow_tail)
                &&& f.to == to
                &&& f.from == encode_from(cached, to)
                &&& f.mel.wf()
                &&& f.mel.shape@ == mel.shape@.update(1, (f.to - f.from) as usize)
                &&& f.mel.along(1) == mel.along(1).subrange(f.from as int, f.to as int)
                &&& f.mel.kind == mel.kind
                &&& f.mel.device == mel.device
            },
        }
    }

    /// The frames that a call encodes: with `allow_tail` all that are new, and otherwise those of
    /// complete chunks.
    pub fn streaming_transcribe_with_tail(
        &self,
        mel: &Tensor,
        state: &StreamingState,
        allow_tail: bool,
    ) -> (res: Option<FramesToEncode>)
        requires
            self.encoder.chunk_size > 0,
            mel.wf(),
            mel.rank() == 2,
        ensures
            self.encodes(mel, state, allow_tail, res),
    {
        let chunk: usize = self.encoder.chunk_size;
        let total: usize = mel.shape[1];
        proof {
            lemma_full(total as int, chunk as int);
        }
        let full: usize = total / chunk * chunk;
        let to: usize = if allow_tail {
            total
        } else {
            full
        };
        let cached: usize = state.cached_mel_frames;
        if to == 0 || (to <= cached && !allow_tail) {
            return None;
        }
        let from: usize = if cached > 0 && cached < to {
            cached
        } else {
            0
        };
        Some(FramesToEncode { mel: mel.narrow(1, from, to - from), from, to })
    }

    /// What taking the embeddings of the frames `from..to` does: `audio` are those of all frames,
    /// and the ones of complete chunks are cached.
    pub open spec fn takes(
        &self,
        before: &StreamingState,
        after: &StreamingState,
        encoded: Seq<Seq<i64>>,
        from: int,
        to: int,
        audio: Seq<Seq<i64>>,
    ) -> bool {
        let chunk = self.encoder.chunk_size as int;
        &&& audio == all_audio(before.cached_rows(), from, encoded)
        &&& after.cached_rows() == audio.take(
            full_tokens(to, chunk, self.encoder.tokens_per_chunk as int),
        )
        &&& after.continued_by(audio)
        &&& after@.cached_audio_embeds is Some
        &&& after@.cached_mel_frames == full_frames(to, chunk)
        &&& after@ == (StreamContents {
            cached_audio_embeds: after@.cached_audio_embeds,
            cached_mel_frames: after@.cached_mel_frames,
            ..before@
        })
    }

    /// Takes the embeddings of the frames `from..to` and returns those of all frames; the ones of
    /// complete chunks are cached.
    pub fn take_encoded(
        &self,
        state: &mut StreamingState,
        encoded: Tensor,
        from: usize,
        to: usize,
    ) -> (res: Tensor)
        requires
            self.wf(),
            old(state).wf(self),
            from == encode_from(old(state)@.cached_mel_frames as int, to as int),
            crate::prompt::is_audio(&encoded, &self.text_decoder),
            ({
                let before = if from > 0 {
                    old(state).cached_rows().len()
                } else {
                    0
                };
                &&& full_tokens(
                    to as int,
                    self.encoder.chunk_size as int,
                    self.encoder.tokens_per_chunk as int,
                ) <= before + encoded.rows().len()
                &&& before + encoded.rows().len() <= usize::MAX
                &&& (before + encoded.rows().len()) * self.text_decoder.width() <= usize::MAX
            }),
        ensures
            final(state).wf(self),
            crate::prompt::is_audio(&res, &self.text_decoder),
            self.takes(old(state), final(state), encoded.rows(), from as int, to as int, res.rows()),
    {
        let chunk: usize = self.encoder.chunk_size;
        let tpc: usize = self.encoder.tokens_per_chunk;
        let ghost w = self.text_decoder.width();
        let res: Tensor = if from > 0 {
            match &state.cached_audio_embeds {
                Some(cached) => {
                    proof {
                        lemma_audio_len(cached, &self.text_decoder);
                        lemma_audio_len(&encoded, &self.text_decoder);
                        let n = cached.rows().len();
                        let m = encoded.rows().len();
                        assert((n + m) * w == n * w + m * w) by (nonlinear_arith);
                        assert(cached.shape@.update(0, 0) =~= encoded.shape@.update(0, 0));
                    }
                    cached.join(&encoded, 0)
                },
                None => encoded,
            }
        } else {
            encoded
        };
        proof {
            lemma_full(to as int, chunk as int);
            let chunks = (to / chunk) as int;
            assert(0 <= chunks * tpc) by (nonlinear_arith)
                requires
                    chunks >= 0,
            ;
        }
        let keep: usize = to / chunk * tpc;
        let cached: Tensor = res.narrow(0, 0, keep);
        assert(res.rows().subrange(0, keep as int) =~= res.rows().take(keep as int));
        state.cached_audio_embeds = Some(cached);
        state.cached_mel_frames = to / chunk * chunk;
        proof {
            let chunks = to as int / chunk as int;
            vstd::arithmetic::div_mod::lemma_div_by_multiple(chunks, chunk as int);
            assert(state.cached_mel_frames == chunks * chunk);
        }
        res
    }
}

/// What a prefill leaves in the state: the cache that it runs on, and how much of the prompt
/// that cache holds once it has been run.
pub open spec fn after_prefill(
    before: &StreamingState,
    after: &StreamingState,
    seq_len: int,
) -> bool {
    &&& after@.audio_tokens_in_cache == before.cached_rows().len()
    &&& after@.cache_seq_len == seq_len
    &&& after@ == (StreamContents {
        kv_cache: after@.kv_cache,
        audio_tokens_in_cache: after@.audio_tokens_in_cache,
        cache_seq_len: after@.cache_seq_len,
        ..before@
    })
}

/// How many positions a cache of `cache_len` is rewound to: those of the tokens before the audio and
/// of the complete chunks, as far as the cache has them.
pub open spec fn rewound_to(audio_tokens: int, cache_len: int) -> int {
    if 9 + audio_tokens < cache_len {
        9 + audio_tokens
    } else {
        cache_len
    }
}

/// The audio tokens, of those in the cache, that need not be run again.
pub open spec fn reused_of(audio_tokens: int, num_audio_tokens: int) -> int {
    if audio_tokens < num_audio_tokens {
        audio_tokens
    } else {
        num_audio_tokens
    }
}

/// How many positions the cache of a stream is rewound to.
pub open spec fn rewound_len(state: &StreamingState) -> int {
    rewound_to(state@.audio_tokens_in_cache as int, state@.kv_cache->0.len(0))
}

/// The audio tokens that a stream need not run again.
pub open spec fn reused_audio(state: &StreamingState, num_audio_tokens: int) -> int {
    reused_of(state@.audio_tokens_in_cache as int, num_audio_tokens)
}

impl AsrInference {
    /// The hidden states of the fixed tokens after the audio, the language prefix and some text.
    fn tail_rows(&self, language: &[i64], text: &[i64]) -> (res: Tensor)
        requires
            self.wf(),
            crate::prompt::known(&self.text_decoder, language@),
            crate::prompt::known(&self.text_decoder, text@),
            (6 + language@.len() + text@.len()) * self.text_decoder.width() <= usize::MAX,
            6 + language@.len() + text@.len() <= usize::MAX,
        ensures
            crate::prompt::holds_rows(
                &res,
                &self.text_decoder,
                crate::prompt::embeddings(&self.text_decoder, crate::prompt::post_audio())
                    + crate::prompt::embeddings(&self.text_decoder, language@)
                    + crate::prompt::embeddings(&self.text_decoder, text@),
            ),
    {
        let d: &TextDecoder = &self.text_decoder;
        let ghost w = d.width() as int;
        let ghost l = language@.len() as int;
        let ghost t = text@.len() as int;
        proof {
            assert(6 * w <= (6 + l + t) * w && l * w <= (6 + l + t) * w && t * w <= (6 + l + t) * w
                && (6 + l) * w <= (6 + l + t) * w) by (nonlinear_arith)
                requires
                    w >= 0,
                    l >= 0,
                    t >= 0,
            ;
        }
        let post: Vec<i64> = post_audio_tokens();
        let post_rows: Tensor = embed_tokens(d, post.as_slice(), self.device);
        let language_rows: Tensor = embed_tokens(d, language, self.device);
        let text_rows: Tensor = embed_tokens(d, text, self.device);
        let head: Tensor = join_rows(d, &post_rows, &language_rows);
        join_rows(d, &head, &text_rows)
    }

    /// The first call: the whole prompt is run on an empty cache.
    pub fn streaming_full_prefill(&self, audio: &Tensor, state: &mut StreamingState) -> (res:
        ForwardInput)
        requires
            self.wf(),
            old(state).wf(self),
            crate::prompt::is_audio(audio, &self.text_decoder),
            old(state).continued_by(audio.rows()),
            crate::prompt::prompt_len(audio.rows().len(), old(state)@.language_prefix_ids@) <= 4096,
            crate::prompt::input_fits(
                &self.text_decoder,
                crate::prompt::prompt_len(audio.rows().len(), old(state)@.language_prefix_ids@),
                0,
            ),
        ensures
            final(state).wf(self),
            final(state).in_step(),
            crate::prompt::is_input(
                &res,
                &self.text_decoder,
                crate::prompt::asr_rows(
                    &self.text_decoder,
                    audio.rows(),
                    old(state)@.language_prefix_ids@,
                ),
                &old(state)@.cos,
                &old(state)@.sin,
                0,
                0,
            ),
            final(state)@.kv_cache matches Some(c) && c.wf() && c@.len()
                == self.text_decoder.config.num_hidden_layers && forall|i: int|
                0 <= i < c@.len() ==> #[trigger] c@[i] is None,
            after_prefill(
                old(state),
                final(state),
                crate::prompt::prompt_len(audio.rows().len(), old(state)@.language_prefix_ids@),
            ),
    {
        let d: &TextDecoder = &self.text_decoder;
        let n: usize = audio.shape[0];
        let none: Vec<i64> = Vec::new();
        let ghost w = d.width() as int;
        let ghost l = state.language_prefix_ids@.len() as int;
        proof {
            assert((6 + l) * w <= (9 + n + 6 + l) * w && (9 + n) * w <= (9 + n + 6 + l) * w)
                by (nonlinear_arith)
                requires
                    w >= 0,
                    l >= 0,
                    n >= 0,
            ;
        }
        let tail: Tensor = self.tail_rows(state.language_prefix_ids.as_slice(), none.as_slice());
        let middle: Tensor = audio_rows(d, audio);
        let head: Tensor = join_rows(d, &state.pre_audio_embeds, &middle);
        let hidden: Tensor = join_rows(d, &head, &tail);
        let ghost rows = crate::prompt::asr_rows(d, audio.rows(), state.language_prefix_ids@);
        assert(hidden.rows() =~= rows);
        let seq_len: usize = hidden.shape[1];
        let res: ForwardInput = forward_input(d, hidden, &state.cos, &state.sin, 0, 0);
        let kept: usize = state.cached_tokens();
        state.kv_cache = Some(KvCache::new(d.config.num_hidden_layers));
        state.audio_tokens_in_cache = kept;
        state.cache_seq_len = seq_len;
        res
    }

    /// A later call: the cache is rewound to the audio of complete chunks, and what comes after
    /// it is run.
    ///
    /// With no new audio that is the tokens after the audio and the kept text.
    pub fn streaming_incremental_prefill(&self, audio: &Tensor, state: &mut StreamingState) -> (res:
        ForwardInput)
        requires
            self.wf(),
            old(state).wf(self),
            self.text_decoder.config.num_hidden_layers > 0,
            old(state)@.kv_cache matches Some(c) && c.len(0) >= 0,
            crate::prompt::is_audio(audio, &self.text_decoder),
            old(state).continued_by(audio.rows()),
            ({
                let reused = reused_audio(old(state), audio.rows().len() as int);
                let rows = crate::prompt::remaining_rows(
                    &self.text_decoder,
                    audio.rows(),
                    reused,
                    old(state)@.language_prefix_ids@,
                    old(state).text(),
                );
                &&& 9 + reused + rows.len() <= 4096
                &&& crate::prompt::input_fits(
                    &self.text_decoder,
                    rows.len() as int,
                    rewound_len(old(state)),
                )
            }),
        ensures
            final(state).wf(self),
            final(state).in_step(),
            ({
                let reused = reused_audio(old(state), audio.rows().len() as int);
                let rows = crate::prompt::remaining_rows(
                    &self.text_decoder,
                    audio.rows(),
                    reused,
                    old(state)@.language_prefix_ids@,
                    old(state).text(),
                );
                &&& crate::prompt::is_input(
                    &res,
                    &self.text_decoder,
                    rows,
                    &old(state)@.cos,
                    &old(state)@.sin,
                    9 + reused,
                    rewound_len(old(state)),
                )
                &&& after_prefill(
                    old(state),
                    final(state),
                    rewound_len(old(state)) + rows.len(),
                )
            }),
            final(state)@.kv_cache matches Some(c) && c@.len() == old(
                state,
            )@.kv_cache->0@.len() && forall|i: int|
                0 <= i < c@.len() ==> #[trigger] c@[i]
                    == crate::text_decoder::truncated(
                    old(state)@.kv_cache->0@[i],
                    rewound_len(old(state)) as i64,
                ),
    {
        let d: &TextDecoder = &self.text_decoder;
        let ghost before = *state;
        let n: usize = audio.shape[0];
        let old_audio: usize = state.audio_tokens_in_cache;
        let reused: usize = if old_audio < n {
            old_audio
        } else {
            n
        };
        let mut cache: KvCache = state.kv_cache.take().unwrap();
        let there: i64 = cache.seq_len();
        assert(there == before.kv_cache->0.len(0));
        let wanted: usize = PRE_AUDIO_TOKEN_COUNT + old_audio;
        let past: usize = if (wanted as i64) < there {
            wanted
        } else {
            there as usize
        };
        cache.truncate(past as i64);
        let text: Vec<i64> = state.prefix_ids();
        let new_audio: Tensor = audio.narrow(0, reused, n - reused);
        let ghost rows = crate::prompt::remaining_rows(
            d,
            audio.rows(),
            reused as int,
            state.language_prefix_ids@,
            text@,
        );
        let ghost w = d.width() as int;
        let ghost l = state.language_prefix_ids@.len() as int;
        let ghost t = text@.len() as int;
        proof {
            let m = n - reused;
            assert((6 + l + t) * w <= (m + 6 + l + t) * w) by (nonlinear_arith)
                requires
                    w >= 0,
                    m >= 0,
            ;
        }
        let tail: Tensor = self.tail_rows(state.language_prefix_ids.as_slice(), text.as_slice());
        let middle: Tensor = audio_rows(d, &new_audio);
        let hidden: Tensor = join_rows(d, &middle, &tail);
        assert(audio.rows().subrange(reused as int, n as int) =~= audio.rows().skip(reused as int));
        assert(hidden.rows() =~= rows);
        let total_new: usize = hidden.shape[1];
        let res: ForwardInput = forward_input(
            d,
            hidden,
            &state.cos,
            &state.sin,
            PRE_AUDIO_TOKEN_COUNT + reused,
            past,
        );
        let kept: usize = state.cached_tokens();
        state.kv_cache = Some(cache);
        state.cache_seq_len = past + total_new;
        state.audio_tokens_in_cache = kept;
        res
    }
}

impl AsrInference {
    /// The prefill of a call: of the whole prompt in the first, of its rest in a later one.
    pub fn streaming_prefill(&self, audio: &Tensor, state: &mut StreamingState) -> (res: ForwardInput)
        requires
            self.wf(),
            old(state).wf(self),
            crate::prompt::is_audio(audio, &self.text_decoder),
            old(state).continued_by(audio.rows()),
            self.can_prefill(audio, old(state)),
        ensures
            final(state).wf(self),
            final(state).in_step(),
            final(state)@.kv_cache is Some,
            self.prefills(audio, old(state), final(state), &res),
    {
        if state.kv_cache.is_none() {
            self.streaming_full_prefill(audio, state)
        } else {
            self.streaming_incremental_prefill(audio, state)
        }
    }

    /// Whether the prompt has room in the rotation tables and in memory.
    pub open spec fn can_prefill(&self, audio: &Tensor, state: &StreamingState) -> bool {
        let d = &self.text_decoder;
        let n = audio.rows().len();
        let language = state@.language_prefix_ids@;
        match state@.kv_cache {
            None => {
                &&& crate::prompt::prompt_len(n, language) <= 4096
                &&& crate::prompt::input_fits(d, crate::prompt::prompt_len(n, language), 0)
            },
            Some(c) => {
                let reused = reused_audio(state, n as int);
                let rows = crate::prompt::remaining_rows(
                    d,
                    audio.rows(),
                    reused,
                    language,
                    state.text(),
                );
                &&& d.config.num_hidden_layers > 0
                &&& c.len(0) >= 0
                &&& 9 + reused + rows.len() <= 4096
                &&& crate::prompt::input_fits(d, rows.len() as int, rewound_len(state))
            },
        }
    }

    /// What a prefill hands to the decoder and leaves in the state.
    pub open spec fn prefills(
        &self,
        audio: &Tensor,
        before: &StreamingState,
        after: &StreamingState,
        input: &ForwardInput,
    ) -> bool {
        let d = &self.text_decoder;
        let n = audio.rows().len();
        let language = before@.language_prefix_ids@;
        match before@.kv_cache {
            None => {
                &&& crate::prompt::is_input(
                    input,
                    d,
                    crate::prompt::asr_rows(d, audio.rows(), language),
                    &before@.cos,
                    &before@.sin,
                    0,
                    0,
                )
                &&& forall|i: int|
                    0 <= i < after@.kv_cache->0@.len()
                        ==> #[trigger] after@.kv_cache->0@[i] is None
                &&& after_prefill(
                    before,
                    after,
                    crate::prompt::prompt_len(n, language),
                )
            },
            Some(c) => {
                let reused = reused_audio(before, n as int);
                let rows = crate::prompt::remaining_rows(
                    d,
                    audio.rows(),
                    reused,
                    language,
                    before.text(),
                );
                &&& crate::prompt::is_input(
                    input,
                    d,
                    rows,
                    &before@.cos,
                    &before@.sin,
                    9 + reused,
                    rewound_len(before),
                )
                &&& forall|i: int|
                    0 <= i < after@.kv_cache->0@.len()
                        ==> #[trigger] after@.kv_cache->0@[i]
                        == crate::text_decoder::truncated(
                        c@[i],
                        rewound_len(before) as i64,
                    )
                &&& after_prefill(
                    before,
                    after,
                    rewound_len(before) + rows.len(),
                )
            },
        }
    }

    /// The decoding loop that follows a prefill: it starts with the kept text.
    pub fn start_decoding(&self, state: &StreamingState) -> (res: Decode)
        ensures
            res.generated@ == state.text(),
            res.steps == 0,
            res.position == state@.cache_seq_len,
    {
        Decode { generated: state.prefix_ids(), steps: 0, position: state.cache_seq_len }
    }

    /// One step of the decoding loop of a call: [`AsrInference::decode_step`] with the rotation
    /// tables of the stream.
    pub fn streaming_step(&self, run: &mut Decode, next_token: i64, state: &StreamingState) -> (res:
        Option<ForwardInput>)
        requires
            self.wf(),
            state.wf(self),
            old(run).steps < 256 && !crate::inference::is_eos(self.tokens, next_token) ==> {
                &&& self.text_decoder.knows(next_token)
                &&& old(run).position < 4096
            },
        ensures
            self.steps_on(old(run), final(run), next_token, &state@.cos, &state@.sin, &res),
    {
        self.decode_step(run, next_token, &state.cos, &state.sin)
    }

    /// Ends the decoding loop of a call: with rollback, where the decoder may copy parts of the
    /// kept text, a repeated tail is trimmed. The tokens are saved for the next call. Returns the
    /// tokens whose text is the raw output.
    pub fn finish_decoding(&self, run: Decode, state: &mut StreamingState) -> (res: Vec<i64>)
        requires
            old(state).wf(self),
            crate::prompt::known(&self.text_decoder, run.generated@),
        ensures
            final(state).wf(self),
            old(state).in_step() ==> final(state).in_step(),
            res@ == final_ids(old(state)@.rollback_tokens as int, run.generated@),
            final(state)@.last_generated_ids@ == res@,
            final(state)@ == (StreamContents {
                last_generated_ids: final(state)@.last_generated_ids,
                ..old(state)@
            }),
    {
        let mut ids: Vec<i64> = run.generated;
        if state.rollback_tokens > 0 {
            trim_repeated_tail(&mut ids);
            proof {
                crate::transcript::law_trim_keeps_prefix(run.generated@);
            }
        }
        state.last_generated_ids = ids.clone();
        assert(state.last_generated_ids@ =~= ids@);
        ids
    }
}

/// The result of a call that had nothing new to work on.
pub fn empty_result(num_samples: usize) -> (res: TranscribeResult)
    ensures
        res.text@ == Seq::<char>::empty(),
        res.language@ == Seq::<char>::empty(),
        res.raw_output@ == Seq::<char>::empty(),
        res.num_samples == num_samples,
{
    TranscribeResult {
        text: String::new(),
        language: String::new(),
        raw_output: String::new(),
        num_samples,
    }
}

/// The result of a call from the text of the generated tokens. A forced language is reported by
/// its own name.
pub fn streaming_result(raw_text: String, state: &StreamingState, num_samples: usize) -> (res:
    TranscribeResult)
    ensures
        (res.language@, res.text@) == reported(state@.forced_language, raw_text@),
        res.raw_output == raw_text,
        res.num_samples == num_samples,
{
    let (detected, text) = parse_asr_output(raw_text.as_str(), state.forced_language.is_some());
    let language: String = match &state.forced_language {
        Some(l) => l.clone(),
        None => detected,
    };
    TranscribeResult { text, language, raw_output: raw_text, num_samples }
}

pub proof fn lemma_full(n: int, chunk: int)
    requires
        n >= 0,
        chunk > 0,
    ensures
        0 <= full_frames(n, chunk) <= n,
        0 <= n / chunk <= n,
{
    vstd::arithmetic::div_mod::lemma_fundamental_div_mod(n, chunk);
    let q = n / chunk;
    assert(0 <= q * chunk <= n && 0 <= q <= n) by (nonlinear_arith)
        requires
            n == chunk * q + n % chunk,
            0 <= n % chunk < chunk,
            n >= 0,
            chunk > 0,
    ;
}

/// The elements of audio embeddings.
proof fn lemma_audio_len(t: &Tensor, d: &TextDecoder)
    requires
        crate::prompt::is_audio(t, d),
    ensures
        t.data.len() == t.rows().len() * d.width(),
        t.rows().len() == t.shape[0],
{
    crate::tensor::lemma_numel_split(t.shape@, 0);
    assert(t.shape@.take(0) =~= Seq::<usize>::empty());
    assert(t.shape@.skip(1) =~= seq![d.width()]);
    crate::tensor::lemma_numel_one(d.width());
    let n = t.shape[0] as int;
    let w = d.width() as int;
    assert(1 * n * w == n * w) by (nonlinear_arith);
}

// ---------------------------------------------------------------------------
// What holds of a stream as a whole
// ---------------------------------------------------------------------------

/// After an incremental prefill the decoder has been run on the same inputs, at the same
/// positions, as after a prefill of the whole prompt, followed by the kept text.
///
/// Here `audio` is the audio of the previous call and `later` what was run after its prompt. The
/// first `full` audio tokens are those of complete chunks; with them, `encoded` makes up the audio
/// of this call.
pub proof fn law_incremental_equals_full(
    d: &TextDecoder,
    audio: Seq<Seq<i64>>,
    later: Seq<Seq<i64>>,
    full: int,
    encoded: Seq<Seq<i64>>,
    language: Seq<i64>,
    text: Seq<i64>,
)
    requires
        0 <= full <= audio.len(),
    ensures
        ({
            let now = audio.take(full) + encoded;
            let before = crate::prompt::asr_rows(d, audio, language) + later;
            before.take(9 + full) + crate::prompt::remaining_rows(d, now, full, language, text)
                == crate::prompt::asr_rows(d, now, language) + crate::prompt::embeddings(d, text)
        }),
{
    let now = audio.take(full) + encoded;
    let before = crate::prompt::asr_rows(d, audio, language) + later;
    assert(now.take(full) =~= audio.take(full));
    crate::prompt::law_prefix_is_reusable(d, audio, now, language, full);
    crate::prompt::law_remaining_completes_prompt(d, now, full, language, text);
    assert(before.take(9 + full) =~= crate::prompt::asr_rows(d, audio, language).take(9 + full));
}

/// Without rollback an incremental prefill leaves the decoder where the prefill of an offline
/// transcription of the same audio does.
pub proof fn law_no_rollback_matches_offline(
    d: &TextDecoder,
    state: &StreamingState,
    audio: Seq<Seq<i64>>,
    later: Seq<Seq<i64>>,
    full: int,
    encoded: Seq<Seq<i64>>,
)
    requires
        0 <= full <= audio.len(),
        state@.rollback_tokens == 0,
    ensures
        ({
            let now = audio.take(full) + encoded;
            let language = state@.language_prefix_ids@;
            let before = crate::prompt::asr_rows(d, audio, language) + later;
            before.take(9 + full) + crate::prompt::remaining_rows(
                d,
                now,
                full,
                language,
                state.text(),
            ) == crate::prompt::asr_rows(d, now, language)
        }),
{
    let language = state@.language_prefix_ids@;
    let now = audio.take(full) + encoded;
    law_incremental_equals_full(d, audio, later, full, encoded, language, state.text());
    assert(crate::prompt::asr_rows(d, now, language) + crate::prompt::embeddings(d, state.text())
        =~= crate::prompt::asr_rows(d, now, language));
}

/// Without rollback a call starts without text, ends with the same tokens as an offline
/// transcription that takes the same ones from the decoder, and reports the same transcript for
/// them. A language that is not forced is the same too.
pub proof fn law_no_rollback_same_answer(
    special: crate::prompt::SpecialTokens,
    state: &StreamingState,
    tokens: Seq<i64>,
    raw: Seq<char>,
)
    requires
        state@.rollback_tokens == 0,
    ensures
        state.text() == Seq::<i64>::empty(),
        final_ids(
            state@.rollback_tokens as int,
            crate::inference::collected(special, state.text(), 0, tokens),
        ) == crate::inference::collected(special, Seq::empty(), 0, tokens),
        ({
            let offline = crate::transcript::parsed(
                crate::text::glyphs(raw),
                state@.forced_language is Some,
            );
            &&& reported(state@.forced_language, raw).1 == offline.1
            &&& state@.forced_language is None ==> reported(state@.forced_language, raw) == offline
        }),
{
}

/// The text of a stream without rollback is that of an offline transcription of the same audio.
///
/// The decoder and the tokenizer are any functions: `decode` gives the tokens that the decoder
/// comes up with once it has been run on some inputs, and `detokenize` the text of tokens. The
/// rest is as in [`law_incremental_equals_full`]. A language that is not forced is the same too.
pub proof fn law_no_rollback_same_text(
    d: &TextDecoder,
    special: crate::prompt::SpecialTokens,
    state: &StreamingState,
    audio: Seq<Seq<i64>>,
    later: Seq<Seq<i64>>,
    full: int,
    encoded: Seq<Seq<i64>>,
    decode: spec_fn(Seq<Seq<i64>>) -> Seq<i64>,
    detokenize: spec_fn(Seq<i64>) -> Seq<char>,
)
    requires
        0 <= full <= audio.len(),
        state@.rollback_tokens == 0,
    ensures
        ({
            let language = state@.language_prefix_ids@;
            let now = audio.take(full) + encoded;
            let before = crate::prompt::asr_rows(d, audio, language) + later;
            let run = before.take(9 + full) + crate::prompt::remaining_rows(
                d,
                now,
                full,
                language,
                state.text(),
            );
            let stream_ids = final_ids(
                state@.rollback_tokens as int,
                crate::inference::collected(special, state.text(), 0, decode(run)),
            );
            let offline_ids = crate::inference::collected(
                special,
                Seq::empty(),
                0,
                decode(crate::prompt::asr_rows(d, now, language)),
            );
            let stream = reported(state@.forced_language, detokenize(stream_ids));
            let offline = crate::transcript::parsed(
                crate::text::glyphs(detokenize(offline_ids)),
                state@.forced_language is Some,
            );
            &&& stream_ids == offline_ids
            &&& stream.1 == offline.1
            &&& state@.forced_language is None ==> stream.0 == offline.0
        }),
{
    let language = state@.language_prefix_ids@;
    let now = audio.take(full) + encoded;
    let tokens = decode(crate::prompt::asr_rows(d, now, language));
    law_no_rollback_matches_offline(d, state, audio, later, full, encoded);
    law_no_rollback_same_answer(
        special,
        state,
        tokens,
        detokenize(crate::inference::collected(special, Seq::empty(), 0, tokens)),
    );
}

/// Only complete chunks are cached, a tail never is: in every state of a stream the cached frames
/// are whole chunks, and the cached embeddings are those of these chunks.
pub proof fn law_only_complete_chunks_cached(m: &AsrInference, state: &StreamingState)
    requires
        m.wf(),
        state.wf(m),
    ensures
        ({
            let frames = state@.cached_mel_frames as int;
            let chunk = m.encoder.chunk_size as int;
            &&& frames % chunk == 0
            &&& frames > 0 ==> state@.cached_audio_embeds is Some
            &&& state.cached_rows().len() == frames / chunk * m.encoder.tokens_per_chunk
        }),
{
    let frames = state@.cached_mel_frames as int;
    let chunk = m.encoder.chunk_size as int;
    vstd::arithmetic::div_mod::lemma_mod_multiples_basic(frames / chunk, chunk);
}

/// The audio tokens of complete chunks are all audio tokens rounded down to whole chunks, where
/// the tail of the audio has fewer tokens than a complete chunk.
pub proof fn law_complete_chunks_are_rounded_down(
    num_audio_tokens: int,
    frames: int,
    chunk_size: int,
    tokens_per_chunk: int,
)
    requires
        chunk_size > 0,
        tokens_per_chunk > 0,
        full_tokens(frames, chunk_size, tokens_per_chunk) <= num_audio_tokens,
        num_audio_tokens < full_tokens(frames, chunk_size, tokens_per_chunk) + tokens_per_chunk,
    ensures
        full_frames(num_audio_tokens, tokens_per_chunk) == full_tokens(
            frames,
            chunk_size,
            tokens_per_chunk,
        ),
{
    let q = frames / chunk_size;
    vstd::arithmetic::div_mod::lemma_fundamental_div_mod_converse(
        num_audio_tokens,
        tokens_per_chunk,
        q,
        num_audio_tokens - q * tokens_per_chunk,
    );
}

/// A partial call, and only that, leaves frames to later: it works on complete chunks, and less
/// than one chunk remains.
pub proof fn law_partial_leaves_less_than_a_chunk(total: int, chunk_size: int)
    requires
        total >= 0,
        chunk_size > 0,
    ensures
        frames_to_use(total, chunk_size, true) == total,
        frames_to_use(total, chunk_size, false) % chunk_size == 0,
        0 <= total - frames_to_use(total, chunk_size, false) < chunk_size,
{
    let q = total / chunk_size;
    vstd::arithmetic::div_mod::lemma_fundamental_div_mod(total, chunk_size);
    vstd::arithmetic::div_mod::lemma_mod_multiples_basic(q, chunk_size);
    assert(q * chunk_size == chunk_size * q) by (nonlinear_arith);
}

/// With rollback the last tokens of a call, as many as the rollback says, are decoded again, and all
/// before them are kept; where there are no more than that, nothing is kept. Without rollback
/// nothing is kept either.
pub proof fn law_rollback_keeps_all_but_the_last(kept: Seq<i64>, again: Seq<i64>, rollback: int)
    ensures
        again.len() > 0 ==> kept_text(kept + again, again.len() as int) == kept,
        again.len() <= rollback ==> kept_text(again, rollback) == Seq::<i64>::empty(),
        kept_text(again, 0) == Seq::<i64>::empty(),
{
    if again.len() > 0 {
        assert(kept_text(kept + again, again.len() as int) =~= kept);
    }
}

/// The text that a stream keeps, runs again and starts decoding with is what its last call ended
/// with, but for as many tokens as the rollback says.
pub proof fn law_stream_keeps_all_but_the_last(
    state: &StreamingState,
    kept: Seq<i64>,
    again: Seq<i64>,
)
    requires
        state@.last_generated_ids@ == kept + again,
    ensures
        0 < state@.rollback_tokens == again.len() ==> state.text() == kept,
        state@.rollback_tokens == 0 ==> state.text() == Seq::<i64>::empty(),
        state@.rollback_tokens >= kept.len() + again.len() ==> state.text() == Seq::<i64>::empty(),
{
    law_rollback_keeps_all_but_the_last(kept, again, 0);
    law_rollback_keeps_all_but_the_last(
        Seq::empty(),
        kept + again,
        state@.rollback_tokens as int,
    );
}

/// With rollback a call does not end with a tail of six or more tokens that it has had before, and
/// loses nothing else; without rollback it loses nothing.
pub proof fn law_rollback_trims_repetitions(
    rollback: int,
    a: Seq<i64>,
    t: Seq<i64>,
    b: Seq<i64>,
    generated: Seq<i64>,
)
    requires
        rollback >= 0,
        t.len() >= 6,
    ensures
        rollback > 0 ==> final_ids(rollback, a + t + b + t).len() <= (a + t + b).len(),
        rollback == 0 ==> final_ids(rollback, generated) == generated,
        ({
            let kept = final_ids(rollback, generated);
            let tail = generated.skip(kept.len() as int);
            &&& kept.len() <= generated.len()
            &&& kept + tail == generated
            &&& kept.len() < generated.len() ==> tail.len() >= 6 && exists|x: Seq<i64>, y: Seq<i64>|
                kept == #[trigger] (x + tail + y)
        }),
{
    crate::transcript::law_repeated_tail_is_removed(a, t, b);
    crate::transcript::law_only_a_repetition_is_removed(generated);
    assert(generated + generated.skip(generated.len() as int) =~= generated);
}

/// The frames of complete chunks are the largest number of whole chunks that there are frames for,
/// and each chunk has its number of tokens.
pub proof fn law_complete_chunks(chunks: int, rest: int, chunk_size: int, tokens_per_chunk: int)
    requires
        chunks >= 0,
        0 <= rest < chunk_size,
    ensures
        full_frames(chunks * chunk_size + rest, chunk_size) == chunks * chunk_size,
        full_tokens(chunks * chunk_size + rest, chunk_size, tokens_per_chunk) == chunks
            * tokens_per_chunk,
{
    vstd::arithmetic::div_mod::lemma_fundamental_div_mod_converse(
        chunks * chunk_size + rest,
        chunk_size,
        chunks,
        rest,
    );
}

/// A partial call works where a complete chunk has arrived that is not cached yet, and only there.
/// It works on all complete chunks, leaves less than a chunk, and encodes what comes after the
/// cached frames.
pub proof fn law_partial_call_takes_each_new_chunk(
    m: &AsrInference,
    mel: &Tensor,
    state: &StreamingState,
    res: Option<FramesToEncode>,
)
    requires
        m.encodes(mel, state, false, res),
        m.encoder.chunk_size > 0,
        state@.cached_mel_frames % m.encoder.chunk_size == 0,
    ensures
        res is Some <==> state@.cached_mel_frames + m.encoder.chunk_size <= mel.shape[1],
        res matches Some(f) ==> {
            &&& f.from == state@.cached_mel_frames
            &&& f.from < f.to <= mel.shape[1]
            &&& f.to as int % m.encoder.chunk_size as int == 0
            &&& mel.shape[1] < f.to + m.encoder.chunk_size
            &&& f.mel.along(1) == mel.along(1).subrange(f.from as int, f.to as int)
        },
{
    let total = mel.shape[1] as int;
    let chunk = m.encoder.chunk_size as int;
    let cached = state@.cached_mel_frames as int;
    law_partial_leaves_less_than_a_chunk(total, chunk);
    let to = frames_to_use(total, chunk, false);
    lemma_multiples_apart(to, cached, chunk);
}

/// A call with the tail works wherever there is audio, on all of it, and encodes what comes after
/// the cached frames; where that is nothing, it encodes all frames again.
pub proof fn law_full_call_takes_all_audio(
    m: &AsrInference,
    mel: &Tensor,
    state: &StreamingState,
    res: Option<FramesToEncode>,
)
    requires
        m.encodes(mel, state, true, res),
    ensures
        res is Some <==> mel.shape[1] > 0,
        res matches Some(f) ==> {
            &&& f.to == mel.shape[1]
            &&& f.from == if state@.cached_mel_frames < mel.shape[1] {
                state@.cached_mel_frames as int
            } else {
                0
            }
            &&& f.mel.along(1) == mel.along(1).subrange(f.from as int, f.to as int)
        },
{
}

/// Whole chunks that are not the same number are at least a chunk apart.
proof fn lemma_multiples_apart(a: int, b: int, chunk: int)
    requires
        chunk > 0,
        a % chunk == 0,
        b % chunk == 0,
    ensures
        a > b ==> a >= b + chunk,
        b > a ==> b >= a + chunk,
{
    vstd::arithmetic::div_mod::lemma_fundamental_div_mod(a, chunk);
    vstd::arithmetic::div_mod::lemma_fundamental_div_mod(b, chunk);
    let p = a / chunk;
    let q = b / chunk;
    assert(a > b ==> a >= b + chunk) by (nonlinear_arith)
        requires
            a == chunk * p,
            b == chunk * q,
            chunk > 0,
    ;
    assert(b > a ==> b >= a + chunk) by (nonlinear_arith)
        requires
            a == chunk * p,
            b == chunk * q,
            chunk > 0,
    ;
}

/// What a call has encoded comes after the cached embeddings, and of all of them those of complete
/// chunks are cached for the next call.
pub proof fn law_taking_extends_the_cached_audio(
    m: &AsrInference,
    before: &StreamingState,
    after: &StreamingState,
    encoded: Seq<Seq<i64>>,
    from: int,
    chunks: int,
    rest: int,
    audio: Seq<Seq<i64>>,
)
    requires
        chunks >= 0,
        0 <= rest < m.encoder.chunk_size,
        m.takes(before, after, encoded, from, chunks * m.encoder.chunk_size + rest, audio),
    ensures
        from > 0 ==> audio == before.cached_rows() + encoded,
        from <= 0 ==> audio == encoded,
        after@.cached_mel_frames == chunks * m.encoder.chunk_size,
        after.cached_rows() == audio.take(chunks * m.encoder.tokens_per_chunk),
        after@.last_generated_ids == before@.last_generated_ids,
        after@.rollback_tokens == before@.rollback_tokens,
{
    law_complete_chunks(
        chunks,
        rest,
        m.encoder.chunk_size as int,
        m.encoder.tokens_per_chunk as int,
    );
}

/// A later call runs only what is new: the audio after the complete chunks of the call before, the
/// six tokens behind the audio, the language prefix and the kept text, at the positions where they
/// stand in the prompt.
pub proof fn law_later_call_runs_what_is_new(
    m: &AsrInference,
    audio: &Tensor,
    before: &StreamingState,
    after: &StreamingState,
    input: &ForwardInput,
)
    requires
        before@.kv_cache is Some,
        m.prefills(audio, before, after, input),
        before@.audio_tokens_in_cache <= audio.rows().len(),
        9 + before@.audio_tokens_in_cache <= before@.kv_cache->0.len(0),
    ensures
        ({
            let n = before@.audio_tokens_in_cache as int;
            let d = &m.text_decoder;
            let rows = input.hidden.rows();
            &&& rows.len() == (audio.rows().len() - n) + 6 + before@.language_prefix_ids@.len()
                + before.text().len()
            &&& rows == audio.rows().skip(n) + crate::prompt::embeddings(
                d,
                seq![151670i64, 151645i64, 198i64, 151644i64, 77091i64, 198i64]
                    + before@.language_prefix_ids@ + before.text(),
            )
            &&& input.cos.along(0) == before@.cos.along(0).subrange(9 + n, 9 + n + rows.len())
            &&& input.sin.along(0) == before@.sin.along(0).subrange(9 + n, 9 + n + rows.len())
            &&& after@.cache_seq_len == 9 + n + rows.len()
            &&& after@.audio_tokens_in_cache == before.cached_rows().len()
        }),
{
    let n = before@.audio_tokens_in_cache as int;
    let d = &m.text_decoder;
    let rows = input.hidden.rows();
    assert(rows =~= audio.rows().skip(n) + crate::prompt::embeddings(
        d,
        seq![151670i64, 151645i64, 198i64, 151644i64, 77091i64, 198i64]
            + before@.language_prefix_ids@ + before.text(),
    ));
}

/// A first call runs the whole prompt, from its first position on, on a cache that holds nothing.
pub proof fn law_first_call_runs_the_whole_prompt(
    m: &AsrInference,
    audio: &Tensor,
    before: &StreamingState,
    after: &StreamingState,
    input: &ForwardInput,
    layer: int,
)
    requires
        before@.kv_cache is None,
        m.prefills(audio, before, after, input),
    ensures
        ({
            let d = &m.text_decoder;
            let rows = input.hidden.rows();
            let n = audio.rows().len();
            &&& rows.len() == 15 + n + before@.language_prefix_ids@.len()
            &&& rows.subrange(9, 9 + n as int) == audio.rows()
            &&& rows.skip(9 + n as int) == crate::prompt::embeddings(
                d,
                seq![151670i64, 151645i64, 198i64, 151644i64, 77091i64, 198i64]
                    + before@.language_prefix_ids@,
            )
            &&& input.cos.along(0) == before@.cos.along(0).subrange(0, rows.len() as int)
            &&& input.sin.along(0) == before@.sin.along(0).subrange(0, rows.len() as int)
            &&& after@.cache_seq_len == rows.len()
            &&& after@.audio_tokens_in_cache == before.cached_rows().len()
            &&& 0 <= layer < after@.kv_cache->0@.len() ==> after@.kv_cache->0@[layer] is None
        }),
{
    crate::prompt::law_prompt_rows_layout(
        &m.text_decoder,
        audio.rows(),
        before@.language_prefix_ids@,
    );
}

/// A later call keeps of every layer what was run of the prompt up to the complete chunks, and
/// forgets what came behind it.
pub proof fn law_later_call_keeps_the_prompt_so_far(
    m: &AsrInference,
    audio: &Tensor,
    before: &StreamingState,
    after: &StreamingState,
    input: &ForwardInput,
    layer: int,
)
    requires
        before@.kv_cache matches Some(c) && c.wf() && 0 <= layer < c@.len() && c@[layer] is Some
            && 9 + before@.audio_tokens_in_cache <= c.len(layer) && 9
            + before@.audio_tokens_in_cache <= c.len(0),
        before@.audio_tokens_in_cache <= 4096,
        after@.kv_cache matches Some(c) && c@.len() == before@.kv_cache->0@.len(),
        m.prefills(audio, before, after, input),
    ensures
        ({
            let kept = 9 + before@.audio_tokens_in_cache;
            let old_cache = before@.kv_cache->0;
            let new_cache = after@.kv_cache->0;
            &&& new_cache.keys(layer) == old_cache.keys(layer).take(kept)
            &&& new_cache.values(layer) == old_cache.values(layer).take(kept)
            &&& new_cache.len(layer) == kept
        }),
{
    let kept = 9 + before@.audio_tokens_in_cache;
    let e = before@.kv_cache->0@[layer]->0;
    assert(e.wf());
    assert(rewound_len(before) == kept);
    assert(after@.kv_cache->0@[layer] == crate::text_decoder::truncated(Some(e), kept as i64));
    crate::text_decoder::law_truncate_keeps_prefix(e, kept as i64);
}

/// The text that is kept, run again in a prefill and decoded on from is the same, and so is the
/// language prefix: a prefill changes neither, nor what is cached of the audio.
pub proof fn law_prefill_keeps_the_text(
    m: &AsrInference,
    audio: &Tensor,
    before: &StreamingState,
    after: &StreamingState,
    input: &ForwardInput,
)
    requires
        m.prefills(audio, before, after, input),
    ensures
        after.text() == before.text(),
        after@.last_generated_ids == before@.last_generated_ids,
        after@.rollback_tokens == before@.rollback_tokens,
        after@.language_prefix_ids == before@.language_prefix_ids,
        after@.forced_language == before@.forced_language,
        after@.cached_mel_frames == before@.cached_mel_frames,
        after.cached_rows() == before.cached_rows(),
        after@.cos == before@.cos && after@.sin == before@.sin,
{
}

/// A call with rollback ends with the text that it kept and then the new tokens up to the one that
/// ends the answer, unless a repetition is trimmed from the end.
pub proof fn law_rollback_goes_on_from_the_kept_text(
    special: crate::prompt::SpecialTokens,
    state: &StreamingState,
    kept: Seq<i64>,
    again: Seq<i64>,
    answer: Seq<i64>,
    end: i64,
    rest: Seq<i64>,
)
    requires
        state@.last_generated_ids@ == kept + again,
        0 < state@.rollback_tokens == again.len(),
        crate::inference::goes_on(special, answer),
        answer.len() <= 256,
        end == special.endoftext || end == special.im_end,
    ensures
        ({
            let generated = crate::inference::collected(
                special,
                state.text(),
                0,
                answer + seq![end] + rest,
            );
            let ids = final_ids(state@.rollback_tokens as int, generated);
            &&& generated == kept + answer
            &&& ids == (kept + answer).take(ids.len() as int)
        }),
{
    law_stream_keeps_all_but_the_last(state, kept, again);
    crate::inference::law_answer_is_what_comes_before_the_end(special, kept, answer, end, rest);
    crate::transcript::law_trim_keeps_prefix(kept + answer);
}

/// A cache is rewound to the complete chunks, but never beyond what it has.
pub proof fn law_rewound_within_the_cache(audio_tokens: int, cache_len: int)
    ensures
        9 + audio_tokens <= cache_len ==> rewound_to(audio_tokens, cache_len) == 9 + audio_tokens,
        9 + audio_tokens >= cache_len ==> rewound_to(audio_tokens, cache_len) == cache_len,
{
}

/// A forced language is reported by its own name, with the whole output, but for white space around
/// it, as the transcript; a language that is not forced is the one that the output names.
pub proof fn law_forced_language_is_reported(language: String, raw: Seq<char>)
    ensures
        reported(Some(language), raw).0 == language@,
        reported(Some(language), raw).1 == crate::transcript::parsed(
            crate::text::glyphs(raw),
            true,
        ).1,
        reported(None, raw) == crate::transcript::parsed(crate::text::glyphs(raw), false),
{
}

/// Positions continue where the cache was rewound to, as long as the cache has the audio of the
/// complete chunks and there is at least that much audio.
pub proof fn law_positions_continue(state: &StreamingState, num_audio_tokens: int)
    requires
        state@.kv_cache is Some,
        9 + state@.audio_tokens_in_cache <= state@.kv_cache->0.len(0),
        state@.audio_tokens_in_cache <= num_audio_tokens,
    ensures
        rewound_len(state) == 9 + reused_audio(state, num_audio_tokens),
{
}

} // verus!
