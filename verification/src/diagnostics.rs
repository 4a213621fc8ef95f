//! Diagnostics for incremental prefill: which parts of two caches are to be compared.
//!
//! The caches are compared with those of fresh prefills; the comparison of the numbers is left to
//! the numeric runtime.

use crate::inference::AsrInference;
use crate::prompt::{
    audio_rows, embed_tokens, forward_input, join_rows, post_audio_tokens, ForwardInput,
    POST_AUDIO_TOKEN_COUNT, PRE_AUDIO_TOKEN_COUNT,
};
use crate::streaming::StreamingState;
use crate::tensor::Tensor;
use crate::text_decoder::{KvCache, TextDecoder};
use vstd::prelude::*;

verus! {

/// The same positions of two key buffers.
#[derive(Debug)]
pub struct SegmentPair {
    pub left: Tensor,
    pub right: Tensor,
}

/// What is compared after an incremental prefill.
#[derive(Debug)]
pub struct IncrementalCheck {
    /// The keys of each layer, as far as both caches have them.
    pub layers: Vec<SegmentPair>,
    /// Keys of the first layer: before the audio, at the audio of complete chunks, everywhere.
    pub pre_audio: Option<SegmentPair>,
    pub old_audio: Option<SegmentPair>,
    pub total: Option<SegmentPair>,
}

/// What is compared after the cache was truncated.
#[derive(Debug)]
pub struct TruncatedCheck {
    /// The cache and the prefill of all audio: before the audio, at the audio that was kept,
    /// everywhere.
    pub pre_audio: Option<SegmentPair>,
    pub old_audio: Option<SegmentPair>,
    pub all: Option<SegmentPair>,
    /// The prefill of the audio that was kept and that of all audio.
    pub short_pre_audio: SegmentPair,
    pub short_audio: SegmentPair,
    /// The cache and the prefill of the audio that was kept.
    pub state_audio: SegmentPair,
}

/// What is compared after decoding.
#[derive(Debug)]
pub struct PostDecodeCheck {
    pub pre_audio: Option<SegmentPair>,
    pub audio: Option<SegmentPair>,
    pub post_audio: Option<SegmentPair>,
    pub all: Option<SegmentPair>,
}

pub open spec fn min_of(a: int, b: int) -> int {
    if a < b {
        a
    } else {
        b
    }
}

/// Whether `part` holds the positions `start..end` of the keys of a layer.
pub open spec fn is_positions(part: &Tensor, e: crate::text_decoder::LayerKv, start: int, end: int) -> bool {
    &&& part.wf()
    &&& part.shape@ == e.k.shape@.update(2, (end - start) as usize)
    &&& part.along(2) == e.keys().subrange(start, end)
    &&& part.kind == e.k.kind
    &&& part.device == e.k.device
}

/// Whether a pair holds the positions `start..end` of the same layer of two caches.
pub open spec fn is_pair(
    p: &SegmentPair,
    left: &KvCache,
    right: &KvCache,
    layer: int,
    start: int,
    end: int,
) -> bool {
    &&& is_positions(&p.left, left@[layer]->0, start, end)
    &&& is_positions(&p.right, right@[layer]->0, start, end)
}

/// A segment of the first layer is compared where it is not empty and ends within `limit`.
pub open spec fn is_segment(
    p: &Option<SegmentPair>,
    left: &KvCache,
    right: &KvCache,
    start: int,
    end: int,
    limit: int,
) -> bool {
    match p {
        None => end <= start || end > limit,
        Some(pair) => start < end <= limit && is_pair(pair, left, right, 0, start, end),
    }
}

/// Whether a layer of a cache has been written.
pub open spec fn is_written(c: &KvCache, layer: int) -> bool {
    &&& c.wf()
    &&& 0 <= layer < c@.len()
    &&& c@[layer] is Some
    &&& c.len(layer) >= 0
}

/// Whether each layer of a cache has been written.
pub open spec fn is_filled(c: &KvCache) -> bool {
    &&& c.wf()
    &&& c@.len() > 0
    &&& forall|i: int| 0 <= i < c@.len() ==> #[trigger] c@[i] is Some && c.len(i) >= 0
}

/// The two parts of a pair hold the keys at the same positions of the same layer, one of each cache.
pub proof fn law_pair_holds_the_same_positions(
    p: &SegmentPair,
    left: &KvCache,
    right: &KvCache,
    layer: int,
    start: int,
    end: int,
    i: int,
)
    requires
        is_written(left, layer),
        is_written(right, layer),
        is_pair(p, left, right, layer, start, end),
        0 <= start <= end <= left.len(layer),
        end <= right.len(layer),
        0 <= i < end - start,
    ensures
        p.left.along(2).len() == end - start,
        p.right.along(2).len() == end - start,
        p.left.along(2)[i] == left.keys(layer)[start + i],
        p.right.along(2)[i] == right.keys(layer)[start + i],
{
    assert(left@[layer]->0.wf());
    assert(right@[layer]->0.wf());
}

/// A segment is compared where it is not empty and both caches have it, and only there.
pub proof fn law_segment_within_both(
    p: &Option<SegmentPair>,
    left: &KvCache,
    right: &KvCache,
    start: int,
    end: int,
)
    requires
        is_written(left, 0),
        is_written(right, 0),
        0 <= start,
        is_segment(p, left, right, start, end, min_of(left.len(0), right.len(0))),
    ensures
        p is Some <==> start < end && end <= left.len(0) && end <= right.len(0),
        p matches Some(pair) ==> pair.left.along(2) == left.keys(0).subrange(start, end)
            && pair.right.along(2) == right.keys(0).subrange(start, end),
{
}

fn least(a: usize, b: usize) -> (res: usize)
    ensures
        res == min_of(a as int, b as int),
{
    if a < b {
        a
    } else {
        b
    }
}

/// The number of valid positions of a layer.
fn positions_of(c: &KvCache, layer: usize) -> (res: usize)
    requires
        is_written(c, layer as int),
    ensures
        res == c.len(layer as int),
{
    c.layer(layer).unwrap().offset as usize
}

/// Some positions of the keys of a layer.
fn part_of(c: &KvCache, layer: usize, start: usize, end: usize) -> (res: Tensor)
    requires
        is_written(c, layer as int),
        start <= end <= c.len(layer as int),
    ensures
        is_positions(&res, c@[layer as int]->0, start as int, end as int),
{
    let (k, _) = c.get(layer).unwrap();
    let res: Tensor = k.narrow(2, start, end - start);
    assert(res.shape@ =~= c@[layer as int]->0.k.shape@.update(2, (end - start) as usize));
    res
}

fn pair(left: &KvCache, right: &KvCache, layer: usize, start: usize, end: usize) -> (res:
    SegmentPair)
    requires
        is_written(left, layer as int),
        is_written(right, layer as int),
        start <= end <= left.len(layer as int),
        end <= right.len(layer as int),
    ensures
        is_pair(&res, left, right, layer as int, start as int, end as int),
{
    SegmentPair {
        left: part_of(left, layer, start, end),
        right: part_of(right, layer, start, end),
    }
}

fn segment(left: &KvCache, right: &KvCache, start: usize, end: usize, limit: usize) -> (res: Option<
    SegmentPair,
>)
    requires
        is_written(left, 0),
        is_written(right, 0),
        limit <= left.len(0),
        limit <= right.len(0),
    ensures
        is_segment(&res, left, right, start as int, end as int, limit as int),
{
    if end <= start || end > limit {
        return None;
    }
    Some(pair(left, right, 0, start, end))
}

impl AsrInference {
    /// A prefill of the prompt with the first `count` audio tokens, from scratch and without a
    /// language prefix.
    pub fn fresh_prefill(&self, audio: &Tensor, count: usize, state: &StreamingState) -> (res:
        ForwardInput)
        requires
            self.wf(),
            state.wf(self),
            crate::prompt::is_audio(audio, &self.text_decoder),
            count <= audio.rows().len(),
            15 + count <= 4096,
            crate::prompt::input_fits(&self.text_decoder, 15 + count, 0),
        ensures
            crate::prompt::is_input(
                &res,
                &self.text_decoder,
                crate::prompt::asr_rows(
                    &self.text_decoder,
                    audio.rows().take(count as int),
                    Seq::empty(),
                ),
                &state@.cos,
                &state@.sin,
                0,
                0,
            ),
    {
        let d: &TextDecoder = &self.text_decoder;
        let ghost w = d.width() as int;
        proof {
            assert(6 * w <= (15 + count) * w && (9 + count) * w <= (15 + count) * w)
                by (nonlinear_arith)
                requires
                    w >= 0,
                    count >= 0,
            ;
        }
        let part: Tensor = audio.narrow(0, 0, count);
        assert(audio.rows().subrange(0, count as int) =~= audio.rows().take(count as int));
        let middle: Tensor = audio_rows(d, &part);
        let post: Vec<i64> = post_audio_tokens();
        let tail: Tensor = embed_tokens(d, post.as_slice(), self.device);
        let head: Tensor = join_rows(d, state.pre_audio_embeds(), &middle);
        let hidden: Tensor = join_rows(d, &head, &tail);
        let ghost rows = crate::prompt::asr_rows(
            d,
            audio.rows().take(count as int),
            Seq::empty(),
        );
        assert(hidden.rows() =~= rows);
        let (cos, sin) = state.rotation();
        forward_input(d, hidden, cos, sin, 0, 0)
    }

    /// The keys after an incremental prefill beside those of a fresh prefill.
    pub fn verify_incremental_vs_fresh(&self, state: &StreamingState, fresh: &KvCache) -> (res:
        IncrementalCheck)
        requires
            state@.kv_cache matches Some(c) && is_filled(&c) && c@.len() == fresh@.len()
                && 9 + state@.audio_tokens_in_cache <= c.len(0) <= fresh.len(0),
            is_filled(fresh),
        ensures
            ({
                let c = state@.kv_cache->0;
                let limit = c.len(0);
                &&& res.layers.len() == c@.len()
                &&& forall|i: int|
                    0 <= i < c@.len() ==> is_pair(
                        #[trigger] &res.layers[i],
                        &c,
                        fresh,
                        i,
                        0,
                        min_of(c.len(i), fresh.len(i)),
                    )
                &&& is_segment(&res.pre_audio, &c, fresh, 0, 9, limit)
                &&& is_segment(
                    &res.old_audio,
                    &c,
                    fresh,
                    9,
                    9 + state@.audio_tokens_in_cache,
                    limit,
                )
                &&& is_segment(&res.total, &c, fresh, 0, limit, limit)
            }),
    {
        let c: &KvCache = state.cache().unwrap();
        let mut layers: Vec<SegmentPair> = Vec::new();
        let mut i: usize = 0;
        while i < c.num_layers()
            invariant
                i <= c@.len(),
                c@.len() == fresh@.len(),
                is_filled(c),
                is_filled(fresh),
                layers.len() == i,
                forall|x: int|
                    0 <= x < i ==> is_pair(
                        #[trigger] &layers[x],
                        c,
                        fresh,
                        x,
                        0,
                        min_of(c.len(x), fresh.len(x)),
                    ),
            decreases c@.len() - i,
        {
            let end: usize = least(positions_of(c, i), positions_of(fresh, i));
            layers.push(pair(c, fresh, i, 0, end));
            i = i + 1;
        }
        let total: usize = positions_of(c, 0);
        let old_end: usize = PRE_AUDIO_TOKEN_COUNT + state.audio_tokens_in_cache();
        IncrementalCheck {
            layers,
            pre_audio: segment(c, fresh, 0, PRE_AUDIO_TOKEN_COUNT, total),
            old_audio: segment(c, fresh, PRE_AUDIO_TOKEN_COUNT, old_end, total),
            total: segment(c, fresh, 0, total, total),
        }
    }

    /// The keys of a truncated cache beside those of two fresh prefills: of all audio, and of the
    /// audio that was kept only.
    pub fn verify_truncated_k(
        &self,
        kv_cache: &KvCache,
        fresh: &KvCache,
        short: &KvCache,
        truncate_len: usize,
    ) -> (res: TruncatedCheck)
        requires
            is_written(kv_cache, 0),
            is_written(fresh, 0),
            is_written(short, 0),
            9 <= truncate_len,
            9 <= kv_cache.len(0),
            9 <= fresh.len(0),
            9 <= short.len(0),
        ensures
            ({
                let limit = min_of(kv_cache.len(0), fresh.len(0));
                let shared = min_of(truncate_len as int, short.len(0));
                let with_fresh = min_of(shared, fresh.len(0));
                let with_state = min_of(shared, kv_cache.len(0));
                &&& is_segment(&res.pre_audio, kv_cache, fresh, 0, 9, limit)
                &&& is_segment(&res.old_audio, kv_cache, fresh, 9, truncate_len as int, limit)
                &&& is_segment(&res.all, kv_cache, fresh, 0, limit, limit)
                &&& is_pair(&res.short_pre_audio, short, fresh, 0, 0, 9)
                &&& is_pair(&res.short_audio, short, fresh, 0, 9, with_fresh)
                &&& is_pair(&res.state_audio, kv_cache, short, 0, 9, with_state)
            }),
    {
        let inc_len: usize = positions_of(kv_cache, 0);
        let fresh_len: usize = positions_of(fresh, 0);
        let short_len: usize = positions_of(short, 0);
        let limit: usize = least(inc_len, fresh_len);
        let shared: usize = least(truncate_len, short_len);
        let with_fresh: usize = least(shared, fresh_len);
        let with_state: usize = least(shared, inc_len);
        TruncatedCheck {
            pre_audio: segment(kv_cache, fresh, 0, PRE_AUDIO_TOKEN_COUNT, limit),
            old_audio: segment(kv_cache, fresh, PRE_AUDIO_TOKEN_COUNT, truncate_len, limit),
            all: segment(kv_cache, fresh, 0, limit, limit),
            short_pre_audio: pair(short, fresh, 0, 0, PRE_AUDIO_TOKEN_COUNT),
            short_audio: pair(short, fresh, 0, PRE_AUDIO_TOKEN_COUNT, with_fresh),
            state_audio: pair(kv_cache, short, 0, PRE_AUDIO_TOKEN_COUNT, with_state),
        }
    }

    /// The keys after decoding beside those of a fresh prefill of the same audio.
    pub fn verify_post_decode(
        &self,
        state: &StreamingState,
        fresh: &KvCache,
        num_audio_tokens: usize,
    ) -> (res: PostDecodeCheck)
        requires
            state@.kv_cache matches Some(c) && is_written(&c, 0),
            is_written(fresh, 0),
            15 + num_audio_tokens <= usize::MAX,
        ensures
            ({
                let c = state@.kv_cache->0;
                let seq_len = 15 + num_audio_tokens;
                let limit = min_of(min_of(seq_len, c.len(0)), fresh.len(0));
                &&& is_segment(&res.pre_audio, &c, fresh, 0, 9, limit)
                &&& is_segment(&res.audio, &c, fresh, 9, 9 + num_audio_tokens, limit)
                &&& is_segment(&res.post_audio, &c, fresh, 9 + num_audio_tokens, seq_len, limit)
                &&& is_segment(&res.all, &c, fresh, 0, limit, limit)
            }),
    {
        let c: &KvCache = state.cache().unwrap();
        let audio_end: usize = PRE_AUDIO_TOKEN_COUNT + num_audio_tokens;
        let seq_len: usize = audio_end + POST_AUDIO_TOKEN_COUNT;
        let limit: usize = least(least(seq_len, positions_of(c, 0)), positions_of(fresh, 0));
        PostDecodeCheck {
            pre_audio: segment(c, fresh, 0, PRE_AUDIO_TOKEN_COUNT, limit),
            audio: segment(c, fresh, PRE_AUDIO_TOKEN_COUNT, audio_end, limit),
            post_audio: segment(c, fresh, audio_end, seq_len, limit),
            all: segment(c, fresh, 0, limit, limit),
        }
    }
}

} // verus!
