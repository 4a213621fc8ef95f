//! What holds of a stream over all of its calls.
//!
//! The audio encoder, the decoder and the tokenizer are any functions here. Of the encoder it is
//! asked that chunks attend to themselves only, which a stream switches on.

use crate::text_decoder::TextDecoder;
use vstd::prelude::*;

verus! {

/// Mel frames or embeddings, one after the other.
pub type Rows = Seq<Seq<i64>>;

/// A stream as it is seen from outside: what it has cached, and the inputs that the decoder has
/// been run on.
pub struct StreamModel {
    /// Whether there has been a prefill.
    pub started: bool,
    pub cached_frames: int,
    pub cached_rows: Rows,
    /// Audio tokens that the key/value cache is rewound to.
    pub audio_tokens: int,
    /// The inputs in the key/value cache after the last prefill.
    pub prompt: Rows,
    /// The inputs in the key/value cache now.
    pub run: Rows,
}

/// A call of a stream.
pub struct PastCall {
    /// The number of mel frames of the audio so far.
    pub frames: int,
    /// Whether frames after the last complete chunk are processed.
    pub allow_tail: bool,
    /// The text that is kept as a prefix.
    pub text: Seq<i64>,
    /// What the decoder is run on after the prefill: the tokens that it generates.
    pub later: Rows,
}

/// What a stream works with: decoder, language prefix, audio encoder and the sizes of its chunks.
pub struct Setting {
    pub decoder: TextDecoder,
    pub language: Seq<i64>,
    pub encode: spec_fn(Rows) -> Rows,
    pub chunk: int,
    pub tokens_per_chunk: int,
}

/// Whether an encoder treats `x`, complete chunks, and what follows it apart.
pub open spec fn splits(
    encode: spec_fn(Rows) -> Rows,
    chunk: int,
    tokens: int,
    x: Rows,
    y: Rows,
) -> bool {
    x.len() as int % chunk == 0 ==> {
        &&& encode(x + y) == encode(x) + encode(y)
        &&& encode(x).len() == x.len() as int / chunk * tokens
    }
}

impl Setting {
    /// Whether complete chunks depend on themselves only, and have their number of tokens.
    pub open spec fn is_chunk_local(&self) -> bool {
        &&& self.chunk > 0
        &&& self.tokens_per_chunk > 0
        &&& forall|x: Rows, y: Rows| #[trigger]
            splits(self.encode, self.chunk, self.tokens_per_chunk, x, y)
    }

    /// The prompt for some audio.
    pub open spec fn prompt(&self, audio: Rows) -> Rows {
        crate::prompt::asr_rows(&self.decoder, audio, self.language)
    }
}

/// A stream before its first call.
pub open spec fn new_stream() -> StreamModel {
    StreamModel {
        started: false,
        cached_frames: 0,
        cached_rows: Seq::empty(),
        audio_tokens: 0,
        prompt: Seq::empty(),
        run: Seq::empty(),
    }
}

/// How many frames a call works on.
pub open spec fn used(w: &Setting, c: PastCall) -> int {
    crate::streaming::frames_to_use(c.frames, w.chunk, c.allow_tail)
}

/// Whether a call has nothing to do.
pub open spec fn idle(w: &Setting, s: StreamModel, c: PastCall) -> bool {
    crate::streaming::nothing_new(s.cached_frames, used(w, c), c.allow_tail)
}

/// The audio embeddings that a call works on, of the frames `mel`.
pub open spec fn audio_of(w: &Setting, mel: Rows, s: StreamModel, c: PastCall) -> Rows {
    let to = used(w, c);
    let from = crate::streaming::encode_from(s.cached_frames, to);
    crate::streaming::all_audio(s.cached_rows, from, (w.encode)(mel.subrange(from, to)))
}

/// The inputs in the key/value cache after the prefill of a call.
pub open spec fn prefilled(w: &Setting, s: StreamModel, audio: Rows, text: Seq<i64>) -> Rows {
    if s.started {
        let kept = crate::streaming::rewound_to(s.audio_tokens, s.run.len() as int);
        let reused = crate::streaming::reused_of(s.audio_tokens, audio.len() as int);
        s.run.take(kept) + crate::prompt::remaining_rows(
            &w.decoder,
            audio,
            reused,
            w.language,
            text,
        )
    } else {
        w.prompt(audio)
    }
}

/// A stream after a call; `mel` are the mel frames of all audio.
pub open spec fn after_call(w: &Setting, mel: Rows, s: StreamModel, c: PastCall) -> StreamModel {
    if idle(w, s, c) {
        s
    } else {
        let to = used(w, c);
        let audio = audio_of(w, mel, s, c);
        let cached = audio.take(crate::streaming::full_tokens(to, w.chunk, w.tokens_per_chunk));
        let prompt = prefilled(w, s, audio, c.text);
        StreamModel {
            started: true,
            cached_frames: crate::streaming::full_frames(to, w.chunk),
            cached_rows: cached,
            audio_tokens: cached.len() as int,
            prompt,
            run: prompt + c.later,
        }
    }
}

/// A stream after some calls.
pub open spec fn after_calls(w: &Setting, mel: Rows, calls: Seq<PastCall>) -> StreamModel
    decreases calls.len(),
{
    if calls.len() == 0 {
        new_stream()
    } else {
        after_call(w, mel, after_calls(w, mel, calls.drop_last()), calls.last())
    }
}

/// Whether the calls of a stream are on growing audio.
pub open spec fn is_growing(mel: Rows, calls: Seq<PastCall>) -> bool {
    &&& forall|i: int| 0 <= i < calls.len() ==> 0 <= (#[trigger] calls[i]).frames <= mel.len()
    &&& forall|i: int, j: int|
        0 <= i <= j < calls.len() ==> (#[trigger] calls[i]).frames <= (#[trigger] calls[j]).frames
}

/// What holds of a stream that has seen `seen` frames: its cache is what the encoder makes of the
/// complete chunks, and the decoder has been run on the prompt up to them.
pub open spec fn is_sound(w: &Setting, mel: Rows, s: StreamModel, seen: int) -> bool {
    let kept = 9 + s.audio_tokens;
    &&& 0 <= s.cached_frames <= seen
    &&& s.cached_frames % w.chunk == 0
    &&& s.cached_rows == (w.encode)(mel.take(s.cached_frames))
    &&& s.audio_tokens == if s.started {
        s.cached_rows.len() as int
    } else {
        0
    }
    &&& !s.started ==> s.cached_frames == 0
    &&& s.started ==> kept <= s.run.len() && s.run.take(kept) == w.prompt(s.cached_rows).take(kept)
}

/// Where a call is cut, the encoder splits.
proof fn lemma_split_at(w: &Setting, mel: Rows, at: int, to: int)
    requires
        w.is_chunk_local(),
        0 <= at <= to <= mel.len(),
        at % w.chunk == 0,
    ensures
        (w.encode)(mel.take(to)) == (w.encode)(mel.take(at)) + (w.encode)(mel.subrange(at, to)),
        (w.encode)(mel.take(at)).len() == at / w.chunk * w.tokens_per_chunk,
{
    let x = mel.take(at);
    let y = mel.subrange(at, to);
    assert(splits(w.encode, w.chunk, w.tokens_per_chunk, x, y));
    assert(x + y =~= mel.take(to));
}

/// A call on at least as much audio keeps a stream sound, and leaves the decoder run on the prompt
/// for all audio that the call works on, followed by the kept text.
proof fn lemma_call(w: &Setting, mel: Rows, s: StreamModel, c: PastCall, seen: int)
    requires
        w.is_chunk_local(),
        is_sound(w, mel, s, seen),
        0 <= seen <= c.frames <= mel.len(),
    ensures
        is_sound(w, mel, after_call(w, mel, s, c), c.frames),
        !idle(w, s, c) ==> ({
            let audio = (w.encode)(mel.take(used(w, c)));
            &&& 0 <= used(w, c) <= c.frames
            &&& audio_of(w, mel, s, c) == audio
            &&& after_call(w, mel, s, c).prompt == if s.started {
                w.prompt(audio) + crate::prompt::embeddings(&w.decoder, c.text)
            } else {
                w.prompt(audio)
            }
        }),
{
    if !idle(w, s, c) {
        let to = used(w, c);
        let chunk = w.chunk;
        let full = crate::streaming::full_frames(to, chunk);
        let d = &w.decoder;
        crate::streaming::lemma_full(c.frames, chunk);
        crate::streaming::lemma_full(to, chunk);
        // The cached frames are complete chunks of what the call works on.
        vstd::arithmetic::div_mod::lemma_fundamental_div_mod(s.cached_frames, chunk);
        vstd::arithmetic::div_mod::lemma_div_is_ordered(s.cached_frames, c.frames, chunk);
        let q = s.cached_frames / chunk;
        assert(s.cached_frames <= crate::streaming::full_frames(c.frames, chunk))
            by (nonlinear_arith)
            requires
                s.cached_frames == chunk * q,
                q <= c.frames / chunk,
                chunk > 0,
                crate::streaming::full_frames(c.frames, chunk) == c.frames / chunk * chunk,
        ;
        let audio = (w.encode)(mel.take(to));
        lemma_split_at(w, mel, s.cached_frames, to);
        assert(mel.subrange(0, to) =~= mel.take(to));
        assert(audio_of(w, mel, s, c) == audio);
        // What is cached now.
        let chunks = to / chunk;
        vstd::arithmetic::div_mod::lemma_mod_multiples_basic(chunks, chunk);
        vstd::arithmetic::div_mod::lemma_div_by_multiple(chunks, chunk);
        lemma_split_at(w, mel, full, to);
        let cached = (w.encode)(mel.take(full));
        let n = cached.len() as int;
        assert(audio.take(n) =~= cached);
        let after = after_call(w, mel, s, c);
        assert(after.cached_rows == cached);
        // What has been run.
        if s.started {
            let t = s.audio_tokens;
            assert(s.cached_rows.take(t) =~= s.cached_rows);
            assert(audio.take(t) =~= s.cached_rows);
            crate::prompt::law_prefix_is_reusable(d, s.cached_rows, audio, w.language, t);
            crate::prompt::law_remaining_completes_prompt(d, audio, t, w.language, c.text);
            assert(crate::streaming::reused_of(t, audio.len() as int) == t);
            assert(crate::streaming::rewound_to(t, s.run.len() as int) == 9 + t);
        }
        assert(cached.take(n) =~= cached);
        crate::prompt::law_prefix_is_reusable(d, cached, audio, w.language, n);
        assert(after.run.take(9 + n) =~= w.prompt(audio).take(9 + n));
    }
}

proof fn lemma_new_stream(w: &Setting, mel: Rows)
    requires
        w.is_chunk_local(),
    ensures
        is_sound(w, mel, new_stream(), 0),
{
    let none = Seq::<Seq<i64>>::empty();
    assert(splits(w.encode, w.chunk, w.tokens_per_chunk, none, none));
    assert(mel.take(0) =~= none);
    assert(0int % w.chunk == 0 && 0int / w.chunk == 0) by {
        vstd::arithmetic::div_mod::lemma_fundamental_div_mod_converse(0, w.chunk, 0, 0);
    }
    assert(0 * w.tokens_per_chunk == 0);
    assert((w.encode)(none).len() == 0);
    assert((w.encode)(none) =~= none);
}

/// After any calls on growing audio a stream is sound.
pub proof fn law_stream_is_sound(w: &Setting, mel: Rows, calls: Seq<PastCall>)
    requires
        w.is_chunk_local(),
        is_growing(mel, calls),
    ensures
        is_sound(
            w,
            mel,
            after_calls(w, mel, calls),
            if calls.len() > 0 {
                calls.last().frames
            } else {
                0
            },
        ),
    decreases calls.len(),
{
    if calls.len() == 0 {
        lemma_new_stream(w, mel);
    } else {
        let before = calls.drop_last();
        assert forall|i: int| 0 <= i < before.len() implies 0 <= (#[trigger] before[i]).frames
            <= mel.len() by {
            assert(before[i] == calls[i]);
        }
        assert forall|i: int, j: int| 0 <= i <= j < before.len() implies (
        #[trigger] before[i]).frames <= (#[trigger] before[j]).frames by {
            assert(before[i] == calls[i] && before[j] == calls[j]);
        }
        law_stream_is_sound(w, mel, before);
        let last = calls[calls.len() - 1];
        if before.len() > 0 {
            assert(calls[calls.len() - 2].frames <= last.frames);
            lemma_call(w, mel, after_calls(w, mel, before), last, before.last().frames);
        } else {
            lemma_call(w, mel, after_calls(w, mel, before), last, 0);
        }
    }
}

/// However growing audio is cut into calls, partial ones or not, after each of them the cached
/// frames are those of all complete chunks of the audio so far: none waits for a later call.
pub proof fn law_no_complete_chunk_waits(w: &Setting, mel: Rows, calls: Seq<PastCall>)
    requires
        w.chunk > 0,
        is_growing(mel, calls),
        calls.len() > 0,
    ensures
        ({
            let cached = after_calls(w, mel, calls).cached_frames;
            let frames = calls.last().frames;
            &&& cached % w.chunk == 0
            &&& cached <= frames < cached + w.chunk
            &&& cached == frames / w.chunk * w.chunk
        }),
    decreases calls.len(),
{
    let before = calls.drop_last();
    let last = calls[calls.len() - 1];
    let chunk = w.chunk;
    let was = after_calls(w, mel, before).cached_frames;
    if before.len() > 0 {
        assert forall|i: int| 0 <= i < before.len() implies 0 <= (#[trigger] before[i]).frames
            <= mel.len() by {
            assert(before[i] == calls[i]);
        }
        assert forall|i: int, j: int| 0 <= i <= j < before.len() implies (
        #[trigger] before[i]).frames <= (#[trigger] before[j]).frames by {
            assert(before[i] == calls[i] && before[j] == calls[j]);
        }
        law_no_complete_chunk_waits(w, mel, before);
        assert(calls[calls.len() - 2].frames <= last.frames);
    } else {
        vstd::arithmetic::div_mod::lemma_fundamental_div_mod_converse(0, chunk, 0, 0);
    }
    crate::streaming::law_partial_leaves_less_than_a_chunk(last.frames, chunk);
    let full = crate::streaming::full_frames(last.frames, chunk);
    vstd::arithmetic::div_mod::lemma_fundamental_div_mod(full, chunk);
    vstd::arithmetic::div_mod::lemma_fundamental_div_mod(was, chunk);
    let p = full / chunk;
    let q = was / chunk;
    assert(was <= full) by (nonlinear_arith)
        requires
            full == chunk * p,
            was == chunk * q,
            was < full + chunk,
            chunk > 0,
    ;
    let n = last.frames / chunk;
    vstd::arithmetic::div_mod::lemma_div_by_multiple(n, chunk);
}

/// However growing audio is cut into calls, the last call leaves the decoder run on the prompt for
/// all audio that it works on, followed by the kept text, if there is any.
pub proof fn law_any_history_runs_the_prompt(w: &Setting, mel: Rows, calls: Seq<PastCall>)
    requires
        w.is_chunk_local(),
        is_growing(mel, calls),
        calls.len() > 0,
        !idle(w, after_calls(w, mel, calls.drop_last()), calls.last()),
    ensures
        ({
            let audio = (w.encode)(mel.take(used(w, calls.last())));
            let text = calls.last().text;
            &&& after_calls(w, mel, calls).prompt == if after_calls(
                w,
                mel,
                calls.drop_last(),
            ).started {
                w.prompt(audio) + crate::prompt::embeddings(&w.decoder, text)
            } else {
                w.prompt(audio)
            }
            &&& text.len() == 0 ==> after_calls(w, mel, calls).prompt == w.prompt(audio)
        }),
{
    let before = calls.drop_last();
    let last = calls[calls.len() - 1];
    let audio = (w.encode)(mel.take(used(w, last)));
    assert forall|i: int| 0 <= i < before.len() implies 0 <= (#[trigger] before[i]).frames
        <= mel.len() by {
        assert(before[i] == calls[i]);
    }
    assert forall|i: int, j: int| 0 <= i <= j < before.len() implies (#[trigger] before[i]).frames
        <= (#[trigger] before[j]).frames by {
        assert(before[i] == calls[i] && before[j] == calls[j]);
    }
    law_stream_is_sound(w, mel, before);
    if before.len() > 0 {
        assert(calls[calls.len() - 2].frames <= last.frames);
        lemma_call(w, mel, after_calls(w, mel, before), last, before.last().frames);
    } else {
        lemma_call(w, mel, after_calls(w, mel, before), last, 0);
    }
    if last.text.len() == 0 {
        assert(w.prompt(audio) + crate::prompt::embeddings(&w.decoder, last.text) =~= w.prompt(
            audio,
        ));
    }
}

/// Without rollback the text of a stream that has been given all audio is that of an offline
/// transcription, however the audio was cut into calls.
///
/// `decode` gives the tokens that the decoder comes up with once it has been run on some inputs,
/// and `detokenize` the text of tokens. A language that is not forced is the same too.
pub proof fn law_any_history_gives_offline_text(
    w: &Setting,
    mel: Rows,
    calls: Seq<PastCall>,
    state: &crate::streaming::StreamingState,
    special: crate::prompt::SpecialTokens,
    decode: spec_fn(Rows) -> Seq<i64>,
    detokenize: spec_fn(Seq<i64>) -> Seq<char>,
)
    requires
        w.is_chunk_local(),
        is_growing(mel, calls),
        calls.len() > 0,
        mel.len() > 0,
        calls.last().frames == mel.len(),
        calls.last().allow_tail,
        state@.rollback_tokens == 0,
        calls.last().text == state.text(),
    ensures
        ({
            let stream_ids = crate::streaming::final_ids(
                state@.rollback_tokens as int,
                crate::inference::collected(
                    special,
                    state.text(),
                    0,
                    decode(after_calls(w, mel, calls).prompt),
                ),
            );
            let offline_ids = crate::inference::collected(
                special,
                Seq::empty(),
                0,
                decode(w.prompt((w.encode)(mel))),
            );
            let stream = crate::streaming::reported(
                state@.forced_language,
                detokenize(stream_ids),
            );
            let offline = crate::transcript::parsed(
                crate::text::glyphs(detokenize(offline_ids)),
                state@.forced_language is Some,
            );
            &&& after_calls(w, mel, calls).prompt == w.prompt((w.encode)(mel))
            &&& stream_ids == offline_ids
            &&& stream.1 == offline.1
            &&& state@.forced_language is None ==> stream == offline
        }),
{
    law_any_history_runs_the_prompt(w, mel, calls);
    assert(mel.take(mel.len() as int) =~= mel);
    let tokens = decode(w.prompt((w.encode)(mel)));
    crate::streaming::law_no_rollback_same_answer(
        special,
        state,
        tokens,
        detokenize(crate::inference::collected(special, Seq::empty(), 0, tokens)),
    );
}

// ---------------------------------------------------------------------------
// The calls of the library
// ---------------------------------------------------------------------------

/// Whether a model is that of a stream of an engine: the key/value cache has a position for each
/// input that the decoder has been run on.
pub open spec fn is_model(s: StreamModel, state: &crate::streaming::StreamingState) -> bool {
    &&& s.started == (state@.kv_cache is Some)
    &&& s.cached_frames == state@.cached_mel_frames
    &&& s.cached_rows == state.cached_rows()
    &&& s.audio_tokens == state@.audio_tokens_in_cache
    &&& state@.kv_cache matches Some(c) ==> s.run.len() == c.len(0)
}

/// A call of the library does what [`after_call`] says: from what its functions state of the frames
/// to encode, of taking their embeddings and of the prefill, the stream caches the same, and what
/// it keeps in the key/value cache with what it hands to the decoder is the same.
pub proof fn law_call_follows_model(
    m: &crate::inference::AsrInference,
    w: &Setting,
    s: StreamModel,
    c: PastCall,
    all: Rows,
    mel: &crate::tensor::Tensor,
    frames: crate::streaming::FramesToEncode,
    encoded: &crate::tensor::Tensor,
    audio: &crate::tensor::Tensor,
    before: &crate::streaming::StreamingState,
    taken: &crate::streaming::StreamingState,
    after: &crate::streaming::StreamingState,
    input: &crate::prompt::ForwardInput,
)
    requires
        w.decoder == m.text_decoder,
        w.language == before@.language_prefix_ids@,
        w.chunk == m.encoder.chunk_size > 0,
        w.tokens_per_chunk == m.encoder.tokens_per_chunk,
        is_model(s, before),
        c.frames == mel.shape[1],
        mel.along(1) == all.take(c.frames),
        c.frames <= all.len(),
        c.text == before.text(),
        m.encodes(mel, before, c.allow_tail, Some(frames)),
        encoded.rows() == (w.encode)(frames.mel.along(1)),
        m.takes(
            before,
            taken,
            encoded.rows(),
            frames.from as int,
            frames.to as int,
            audio.rows(),
        ),
        m.prefills(audio, taken, after, input),
    ensures
        ({
            let next = after_call(w, all, s, c);
            &&& !idle(w, s, c)
            &&& next.cached_frames == after@.cached_mel_frames
            &&& next.cached_rows == after.cached_rows()
            &&& next.audio_tokens == after@.audio_tokens_in_cache
            &&& next.prompt == if s.started {
                s.run.take(crate::streaming::rewound_len(before)) + input.hidden.rows()
            } else {
                input.hidden.rows()
            }
            &&& next.prompt.len() == after@.cache_seq_len
        }),
{
    let to = used(w, c);
    let from = crate::streaming::encode_from(s.cached_frames, to);
    crate::streaming::lemma_full(c.frames, w.chunk);
    assert(all.take(c.frames).subrange(from, to) =~= all.subrange(from, to));
    assert(audio.rows() == audio_of(w, all, s, c));
    let reused = crate::streaming::reused_audio(taken, audio.rows().len() as int);
    assert(taken.text() == before.text());
    if s.started {
        assert(0 <= crate::streaming::rewound_len(before) <= s.run.len());
    }
}

} // verus!
