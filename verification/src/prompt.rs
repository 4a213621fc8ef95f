//! Prompts: the tokens around the audio, and the decoder inputs that are made of them.

use crate::tensor::{DType, Device, Tensor};
use crate::text::capitalize_first;
use crate::text_decoder::{create_causal_mask, TextDecoder};
use vstd::prelude::*;

verus! {

/// Identifiers that the tokenizer gives to its special tokens.
#[derive(Clone, Copy, Debug, PartialEq, Eq, Structural)]
pub struct SpecialTokens {
    pub audio_start: i64,
    pub audio_pad: i64,
    pub audio_end: i64,
    pub endoftext: i64,
    pub im_end: i64,
    pub timestamp: i64,
}

/// Number of tokens before the audio.
pub const PRE_AUDIO_TOKEN_COUNT: usize = 9;

/// Number of tokens after the audio.
pub const POST_AUDIO_TOKEN_COUNT: usize = 6;

/// Tokens before the audio: im_start, system, newline, im_end, newline, im_start, user, newline,
/// audio_start.
pub open spec fn pre_audio() -> Seq<i64> {
    seq![151644i64, 8948i64, 198i64, 151645i64, 198i64, 151644i64, 872i64, 198i64, 151669i64]
}

/// Tokens after the audio: audio_end, im_end, newline, im_start, assistant, newline.
pub open spec fn post_audio() -> Seq<i64> {
    seq![151670i64, 151645i64, 198i64, 151644i64, 77091i64, 198i64]
}

/// One placeholder for each audio token.
pub open spec fn pads(id: i64, n: nat) -> Seq<i64> {
    Seq::new(n, |i: int| id)
}

pub fn pre_audio_tokens() -> (res: Vec<i64>)
    ensures
        res@ == pre_audio(),
{
    vec![151644, 8948, 198, 151645, 198, 151644, 872, 198, 151669]
}

pub fn post_audio_tokens() -> (res: Vec<i64>)
    ensures
        res@ == post_audio(),
{
    vec![151670, 151645, 198, 151644, 77091, 198]
}

/// What makes the model answer in a language: the text whose tokens end the prompt.
pub open spec fn language_prefix(language: Seq<char>) -> Seq<char> {
    "language "@ + crate::text::capitalized(language)
}

/// The text that is put before the answer to force a language.
pub fn language_prompt(language: &str) -> (res: String)
    ensures
        res@ == language_prefix(language@),
{
    let mut res: String = "language ".to_owned();
    let name: String = capitalize_first(language);
    res.append(name.as_str());
    res
}

/// Appends `n` placeholders.
pub fn push_pads(tokens: &mut Vec<i64>, id: i64, n: usize)
    ensures
        final(tokens)@ == old(tokens)@ + pads(id, n as nat),
{
    let ghost before = tokens@;
    let mut i: usize = 0;
    assert(before + pads(id, 0) =~= before);
    while i < n
        invariant
            i <= n,
            tokens@ == before + pads(id, i as nat),
        decreases n - i,
    {
        tokens.push(id);
        assert(tokens@ =~= before + pads(id, (i + 1) as nat));
        i = i + 1;
    }
}

/// Appends a copy of some tokens.
pub fn push_all(tokens: &mut Vec<i64>, more: &[i64])
    ensures
        final(tokens)@ == old(tokens)@ + more@,
{
    let ghost before = tokens@;
    let mut i: usize = 0;
    assert(before + more@.take(0) =~= before);
    while i < more.len()
        invariant
            i <= more.len(),
            tokens@ == before + more@.take(i as int),
        decreases more.len() - i,
    {
        tokens.push(more[i]);
        assert(tokens@ =~= before + more@.take(i + 1));
        i = i + 1;
    }
    assert(more@.take(more@.len() as int) =~= more@);
}

/// The positions of a sequence: 0, 1 and so on.
pub open spec fn positions(n: nat) -> Seq<i64> {
    Seq::new(n, |i: int| i as i64)
}

/// The first `n` positions, as the rotary embedding takes them.
pub fn first_positions(n: usize) -> (res: Vec<i64>)
    requires
        n <= i64::MAX,
    ensures
        res@ == positions(n as nat),
{
    let mut res: Vec<i64> = Vec::new();
    let mut i: usize = 0;
    while i < n
        invariant
            i <= n <= i64::MAX,
            res@ == positions(i as nat),
        decreases n - i,
    {
        res.push(i as i64);
        assert(res@ =~= positions((i + 1) as nat));
        i = i + 1;
    }
    res
}

// ---------------------------------------------------------------------------
// Decoder inputs
// ---------------------------------------------------------------------------

/// Input of one run of the decoder.
#[derive(Debug)]
pub struct ForwardInput {
    /// Hidden states (1, positions, width).
    pub hidden: Tensor,
    /// Rotation tables for the positions.
    pub cos: Tensor,
    pub sin: Tensor,
    /// Attention mask; a single position needs none.
    pub mask: Option<Tensor>,
}

/// Whether a tensor holds these rows as hidden states of a decoder.
pub open spec fn holds_rows(t: &Tensor, d: &TextDecoder, rows: Seq<Seq<i64>>) -> bool {
    &&& t.wf()
    &&& rows.len() <= usize::MAX
    &&& t.shape@ == seq![1usize, rows.len() as usize, d.width()]
    &&& t.rows() == rows
    &&& t.kind == d.embed_tokens.kind
    &&& t.device == d.embed_tokens.device
}

/// Whether a tensor holds audio embeddings that can stand among the token embeddings.
pub open spec fn is_audio(t: &Tensor, d: &TextDecoder) -> bool {
    &&& t.wf()
    &&& t.rank() == 2
    &&& t.shape[1] == d.width()
    &&& t.kind == d.embed_tokens.kind
    &&& t.device == d.embed_tokens.device
}

/// Whether a decoder has an embedding for each of these tokens.
pub open spec fn known(d: &TextDecoder, ids: Seq<i64>) -> bool {
    forall|i: int| 0 <= i < ids.len() ==> d.knows(#[trigger] ids[i])
}

/// The embeddings of some tokens.
pub open spec fn embeddings(d: &TextDecoder, ids: Seq<i64>) -> Seq<Seq<i64>> {
    ids.map_values(|id: i64| d.embed_tokens.row(id as int))
}

/// Whether the rows `from..from + len` of a table of positions are those of another table.
pub open spec fn is_range(part: &Tensor, table: &Tensor, from: int, len: int) -> bool {
    &&& part.wf()
    &&& part.shape@ == table.shape@.update(0, len as usize)
    &&& part.along(0) == table.along(0).subrange(from, from + len)
    &&& part.kind == table.kind
    &&& part.device == table.device
}

/// Whether a tensor is the causal mask for `len` positions after `past` others.
pub open spec fn is_causal_mask(m: &Tensor, len: int, past: int, kind: DType, device: Device) -> bool {
    &&& m.wf()
    &&& m.shape@ == seq![1usize, 1usize, len as usize, (past + len) as usize]
    &&& forall|r: int, c: int|
        0 <= r < len && 0 <= c < past + len ==> #[trigger] m.row_major(r, c) == if c > past + r {
            crate::text_decoder::negative_infinity(kind)
        } else {
            0
        }
    &&& m.kind == kind
    &&& m.device == device
}

/// What is handed to the decoder: some rows, the rotation tables of their positions from `from`
/// on, and the mask that lets each attend to the `past` positions and to those up to itself.
pub open spec fn is_input(
    input: &ForwardInput,
    d: &TextDecoder,
    rows: Seq<Seq<i64>>,
    cos: &Tensor,
    sin: &Tensor,
    from: int,
    past: int,
) -> bool {
    &&& holds_rows(&input.hidden, d, rows)
    &&& is_range(&input.cos, cos, from, rows.len() as int)
    &&& is_range(&input.sin, sin, from, rows.len() as int)
    &&& input.mask matches Some(m) && is_causal_mask(
        &m,
        rows.len() as int,
        past,
        d.embed_tokens.kind,
        d.embed_tokens.device,
    )
}

/// Whether a run over `n` rows after `past` others can be laid out in memory.
pub open spec fn input_fits(d: &TextDecoder, n: int, past: int) -> bool {
    &&& n * d.width() <= usize::MAX
    &&& past + n < usize::MAX
    &&& past + n <= i64::MAX
    &&& n * (past + n) <= usize::MAX
}

/// Whether a table has rotations for the positions below `n`.
pub open spec fn covers(table: &Tensor, n: int) -> bool {
    &&& table.wf()
    &&& table.rank() >= 1
    &&& n <= table.shape[0]
}

/// The elements of hidden states.
proof fn lemma_hidden_len(t: &Tensor, n: usize, w: usize)
    requires
        t.wf(),
        t.shape@ == seq![1usize, n, w],
    ensures
        t.data.len() == n * w,
        crate::tensor::outer(t.shape@, 1) == 1,
{
    crate::tensor::lemma_numel_split(t.shape@, 1);
    assert(t.shape@.take(1) =~= seq![1usize]);
    assert(t.shape@.skip(2) =~= seq![w]);
    crate::tensor::lemma_numel_one(1);
    crate::tensor::lemma_numel_one(w);
    assert(1 * n * w == n * w);
}

/// The embeddings of some tokens, as hidden states.
pub fn embed_tokens(d: &TextDecoder, ids: &[i64], device: Device) -> (res: Tensor)
    requires
        d.wf(),
        known(d, ids@),
        ids@.len() * d.width() <= usize::MAX,
    ensures
        holds_rows(&res, d, embeddings(d, ids@)),
{
    let input: Tensor = Tensor::from_slice_i64(ids, device);
    assert(forall|i: int| 0 <= i < ids@.len() ==> #[trigger] input.data@[i] == ids@[i]);
    let flat: Tensor = d.embed(&input);
    let ghost rows = embeddings(d, ids@);
    proof {
        assert(flat.shape@ =~= seq![ids@.len() as usize, d.width()]);
        assert(flat.shape@.take(0) =~= Seq::<usize>::empty());
        assert forall|i: int| 0 <= i < rows.len() implies #[trigger] flat.rows()[i] == rows[i] by {
            crate::tensor::lemma_rows(&flat, i);
            assert(flat.row(i) == d.embed_tokens.row(input.data@[i] as int));
        }
        assert(flat.rows() =~= rows);
        assert(flat.along(0) == rows);
    }
    let res: Tensor = flat.unsqueeze();
    assert(res.shape@ =~= seq![1usize, ids@.len() as usize, d.width()]);
    res
}

/// Audio embeddings as hidden states.
pub fn audio_rows(d: &TextDecoder, audio: &Tensor) -> (res: Tensor)
    requires
        is_audio(audio, d),
    ensures
        holds_rows(&res, d, audio.rows()),
{
    let copy: Tensor = audio.duplicate();
    assert(copy.along(0) == audio.rows());
    let res: Tensor = copy.unsqueeze();
    assert(res.shape@ =~= seq![1usize, audio.shape[0], d.width()]);
    res
}

/// Hidden states one after the other.
pub fn join_rows(d: &TextDecoder, a: &Tensor, b: &Tensor) -> (res: Tensor)
    requires
        holds_rows(a, d, a.rows()),
        holds_rows(b, d, b.rows()),
        (a.rows().len() + b.rows().len()) * d.width() <= usize::MAX,
        a.rows().len() + b.rows().len() <= usize::MAX,
    ensures
        holds_rows(&res, d, a.rows() + b.rows()),
{
    let ghost n = a.rows().len();
    let ghost m = b.rows().len();
    proof {
        lemma_hidden_len(a, n as usize, d.width());
        lemma_hidden_len(b, m as usize, d.width());
        assert((n + m) * d.width() == n * d.width() + m * d.width()) by (nonlinear_arith);
        assert(a.shape@.update(1, 0) =~= b.shape@.update(1, 0));
    }
    let res: Tensor = a.join(b, 1);
    assert(res.shape@ =~= seq![1usize, (n + m) as usize, d.width()]);
    res
}

/// Puts the rotation tables and the mask beside some hidden states.
pub fn forward_input(
    d: &TextDecoder,
    hidden: Tensor,
    cos: &Tensor,
    sin: &Tensor,
    from: usize,
    past: usize,
) -> (res: ForwardInput)
    requires
        holds_rows(&hidden, d, hidden.rows()),
        d.embed_tokens.kind != DType::Int64,
        input_fits(d, hidden.rows().len() as int, past as int),
        covers(cos, from + hidden.rows().len()),
        covers(sin, from + hidden.rows().len()),
    ensures
        is_input(&res, d, hidden.rows(), cos, sin, from as int, past as int),
{
    let n: usize = hidden.shape[1];
    let mask: Tensor = create_causal_mask(
        n as i64,
        past as i64,
        d.dtype(),
        d.embed_tokens.device,
    );
    let part_cos: Tensor = cos.narrow(0, from, n);
    let part_sin: Tensor = sin.narrow(0, from, n);
    ForwardInput { hidden, cos: part_cos, sin: part_sin, mask: Some(mask) }
}

// ---------------------------------------------------------------------------
// Prompts
// ---------------------------------------------------------------------------

/// The tokens of a transcription prompt: the audio placeholders between the fixed tokens, and the
/// tokens of the language prefix.
pub open spec fn asr_prompt(pad: i64, num_audio_tokens: nat, language: Seq<i64>) -> Seq<i64> {
    pre_audio() + pads(pad, num_audio_tokens) + post_audio() + language
}

/// The length of a transcription prompt.
pub open spec fn prompt_len(num_audio_tokens: nat, language: Seq<i64>) -> int {
    9 + num_audio_tokens as int + 6 + language.len()
}

/// The hidden states of a transcription prompt, with the audio in place of its placeholders.
pub open spec fn asr_rows(d: &TextDecoder, audio: Seq<Seq<i64>>, language: Seq<i64>) -> Seq<
    Seq<i64>,
> {
    embeddings(d, pre_audio()) + audio + embeddings(d, post_audio()) + embeddings(d, language)
}

/// The hidden states that are still missing where the first `old_audio` audio tokens, and all
/// before them, have been run: the rest of the audio, the fixed tokens after it, the language
/// prefix and the text that is kept.
pub open spec fn remaining_rows(
    d: &TextDecoder,
    audio: Seq<Seq<i64>>,
    old_audio: int,
    language: Seq<i64>,
    text: Seq<i64>,
) -> Seq<Seq<i64>> {
    audio.skip(old_audio) + embeddings(d, post_audio()) + embeddings(d, language) + embeddings(
        d,
        text,
    )
}

/// What has been run and what is still missing make up the whole prompt, followed by the text
/// that is kept.
pub proof fn law_remaining_completes_prompt(
    d: &TextDecoder,
    audio: Seq<Seq<i64>>,
    old_audio: int,
    language: Seq<i64>,
    text: Seq<i64>,
)
    requires
        0 <= old_audio <= audio.len(),
    ensures
        asr_rows(d, audio, language).take(9 + old_audio) + remaining_rows(
            d,
            audio,
            old_audio,
            language,
            text,
        ) == asr_rows(d, audio, language) + embeddings(d, text),
{
    assert(asr_rows(d, audio, language).take(9 + old_audio) + remaining_rows(
        d,
        audio,
        old_audio,
        language,
        text,
    ) =~= asr_rows(d, audio, language) + embeddings(d, text));
}

/// What has been run of a prompt does not depend on the audio that comes later, nor on what
/// stands after the audio.
pub proof fn law_prefix_is_reusable(
    d: &TextDecoder,
    audio: Seq<Seq<i64>>,
    more: Seq<Seq<i64>>,
    language: Seq<i64>,
    kept: int,
)
    requires
        0 <= kept <= audio.len(),
        kept <= more.len(),
        audio.take(kept) == more.take(kept),
    ensures
        asr_rows(d, audio, language).take(9 + kept) == asr_rows(d, more, language).take(9 + kept),
{
    let a = asr_rows(d, audio, language).take(9 + kept);
    let b = asr_rows(d, more, language).take(9 + kept);
    assert forall|i: int| 0 <= i < 9 + kept implies a[i] == b[i] by {
        if i >= 9 {
            assert(audio.take(kept)[i - 9] == more.take(kept)[i - 9]);
        }
    }
    assert(a =~= b);
}

/// The tokens of a transcription prompt: nine fixed ones, one placeholder for each audio token, six
/// fixed ones, and the language prefix.
pub proof fn law_prompt_layout(pad: i64, num_audio_tokens: nat, language: Seq<i64>)
    ensures
        ({
            let p = asr_prompt(pad, num_audio_tokens, language);
            let n = num_audio_tokens as int;
            &&& p.len() == 9 + n + 6 + language.len()
            &&& p.take(9) == seq![
                151644i64,
                8948i64,
                198i64,
                151645i64,
                198i64,
                151644i64,
                872i64,
                198i64,
                151669i64,
            ]
            &&& forall|i: int| 9 <= i < 9 + n ==> #[trigger] p[i] == pad
            &&& p.subrange(9 + n, 15 + n) == seq![
                151670i64,
                151645i64,
                198i64,
                151644i64,
                77091i64,
                198i64,
            ]
            &&& p.skip(15 + n) == language
            &&& prompt_len(num_audio_tokens, language) == p.len()
        }),
{
    let p = asr_prompt(pad, num_audio_tokens, language);
    let n = num_audio_tokens as int;
    assert(p.take(9) =~= seq![
        151644i64,
        8948i64,
        198i64,
        151645i64,
        198i64,
        151644i64,
        872i64,
        198i64,
        151669i64,
    ]);
    assert(p.subrange(9 + n, 15 + n) =~= seq![
        151670i64,
        151645i64,
        198i64,
        151644i64,
        77091i64,
        198i64,
    ]);
    assert(p.skip(15 + n) =~= language);
}

/// The inputs of a transcription prompt: the audio stands, in order, behind nine tokens, and the six
/// tokens and the language prefix behind it.
pub proof fn law_prompt_rows_layout(d: &TextDecoder, audio: Seq<Seq<i64>>, language: Seq<i64>)
    ensures
        ({
            let rows = asr_rows(d, audio, language);
            let n = audio.len() as int;
            &&& rows.len() == 9 + n + 6 + language.len()
            &&& rows.subrange(9, 9 + n) == audio
            &&& rows.take(9) == embeddings(
                d,
                seq![
                    151644i64,
                    8948i64,
                    198i64,
                    151645i64,
                    198i64,
                    151644i64,
                    872i64,
                    198i64,
                    151669i64,
                ],
            )
            &&& rows.skip(9 + n) == embeddings(
                d,
                seq![151670i64, 151645i64, 198i64, 151644i64, 77091i64, 198i64] + language,
            )
        }),
{
    let rows = asr_rows(d, audio, language);
    let n = audio.len() as int;
    assert(rows.subrange(9, 9 + n) =~= audio);
    assert(rows.take(9) =~= embeddings(
        d,
        seq![
            151644i64,
            8948i64,
            198i64,
            151645i64,
            198i64,
            151644i64,
            872i64,
            198i64,
            151669i64,
        ],
    ));
    assert(rows.skip(9 + n) =~= embeddings(
        d,
        seq![151670i64, 151645i64, 198i64, 151644i64, 77091i64, 198i64] + language,
    ));
}

/// The embedding of a token is the row of the table that the token numbers.
pub proof fn law_embedding_is_a_row_of_the_table(d: &TextDecoder, ids: Seq<i64>, i: int, c: int)
    requires
        d.wf(),
        0 <= i < ids.len(),
        d.knows(ids[i]),
        0 <= c < d.width(),
    ensures
        embeddings(d, ids).len() == ids.len(),
        embeddings(d, ids)[i].len() == d.embed_tokens.shape[1],
        embeddings(d, ids)[i][c] == d.embed_tokens.data[ids[i] * d.embed_tokens.shape[1] + c],
{
    let t = &d.embed_tokens;
    let w = d.width() as int;
    let id = ids[i] as int;
    let n = t.shape[0] as int;
    assert(t.shape@ =~= seq![t.shape[0]] + seq![t.shape[1]]);
    crate::tensor::lemma_numel_concat(seq![t.shape[0]], seq![t.shape[1]]);
    crate::tensor::lemma_numel_one(t.shape[0]);
    crate::tensor::lemma_numel_one(t.shape[1]);
    assert(0 <= id * w && id * w + w <= n * w) by (nonlinear_arith)
        requires
            0 <= id < n,
            w >= 0,
    ;
}

/// Positions count up from zero.
pub proof fn law_positions_count_up(n: nat, i: int)
    requires
        0 <= i < n <= i64::MAX,
    ensures
        positions(n).len() == n,
        positions(n)[i] == i,
{
}

/// A language is asked for by the word `language`, a blank and its name, the first letter in upper
/// case.
pub proof fn law_language_is_asked_for_by_name(c: char, rest: Seq<char>)
    ensures
        language_prefix(seq![c] + rest) == "language "@ + crate::text::upper_case(c) + rest,
        language_prefix(Seq::empty()) == "language "@,
{
    crate::text::law_first_letter_is_capitalized(c, rest);
    assert(language_prefix(seq![c] + rest) =~= "language "@ + crate::text::upper_case(c) + rest);
    assert(language_prefix(Seq::empty()) =~= "language "@);
}

/// Of the positions that a run hands to the decoder, number `r` attends to those in the cache, to
/// those before it and to itself, and to none behind it.
pub proof fn law_input_attends_to_the_past_only(
    input: &ForwardInput,
    d: &TextDecoder,
    rows: Seq<Seq<i64>>,
    cos: &Tensor,
    sin: &Tensor,
    from: int,
    past: int,
    r: int,
    c: int,
)
    requires
        is_input(input, d, rows, cos, sin, from, past),
        0 <= past,
        past + rows.len() <= usize::MAX,
        0 <= r < rows.len(),
        0 <= c < past + rows.len(),
    ensures
        ({
            let m = input.mask->0;
            let seen = m.data[r * (past + rows.len()) + c];
            &&& input.mask is Some
            &&& c <= past + r ==> seen == 0
            &&& c > past + r ==> seen == crate::text_decoder::negative_infinity(d.embed_tokens.kind)
            &&& input.hidden.rows() == rows
            &&& input.cos.along(0) == cos.along(0).subrange(from, from + rows.len())
            &&& input.sin.along(0) == sin.along(0).subrange(from, from + rows.len())
        }),
{
    let m = input.mask->0;
    assert(m.row_major(r, c) == m.data[r * (past + rows.len()) + c]);
}

/// The positions of the audio in a prompt are those of its placeholders.
pub proof fn law_audio_stands_at_pads(
    d: &TextDecoder,
    audio: Seq<Seq<i64>>,
    pad: i64,
    language: Seq<i64>,
    i: int,
)
    requires
        0 <= i < asr_rows(d, audio, language).len(),
    ensures
        asr_rows(d, audio, language).len() == asr_prompt(pad, audio.len(), language).len(),
        asr_rows(d, audio, language)[i] == if 9 <= i < 9 + audio.len() {
            audio[i - 9]
        } else {
            d.embed_tokens.row(asr_prompt(pad, audio.len(), language)[i] as int)
        },
{
}

} // verus!
