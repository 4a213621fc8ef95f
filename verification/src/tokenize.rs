//! Splitting a transcript into the units that are aligned: words of spaced scripts, and single
//! characters of Chinese, Japanese and Korean ideographic text.

use crate::align::AlignError;
use crate::text::{copy_range, to_glyphs, Glyph};
use vstd::prelude::*;

verus! {

/// Punctuation and symbols that stay part of a unit.
pub open spec fn is_kept_mark(ch: char) -> bool {
    match ch {
        '\'' | '\u{2019}' | '\u{2018}' | '.' | ',' | '!' | '?' | ';' | ':' | '-' | '"' => true,
        '\u{201c}' | '\u{201d}' | '(' | ')' | '[' | ']' | '…' | '—' | '–' => true,
        '。' | '，' | '！' | '？' | '；' | '：' | '、' | '（' | '）' | '【' | '】' => true,
        '《' | '》' | '「' | '」' | '『' | '』' | '·' | '～' | '~' | '%' | '/' => true,
        '\\' | '&' | '+' | '=' | '*' | '#' | '@' => true,
        _ => false,
    }
}

/// Whether a character stays part of a unit.
pub open spec fn keeps(g: Glyph) -> bool {
    g.alphabetic || g.numeric || is_kept_mark(g.ch)
}

/// Whether a character is a CJK ideograph.
pub open spec fn is_ideograph(ch: char) -> bool {
    let code = ch as u32;
    ||| 0x4E00 <= code <= 0x9FFF
    ||| 0x3400 <= code <= 0x4DBF
    ||| 0x20000 <= code <= 0x2A6DF
    ||| 0x2A700 <= code <= 0x2B73F
    ||| 0x2B740 <= code <= 0x2B81F
    ||| 0x2B820 <= code <= 0x2CEAF
    ||| 0xF900 <= code <= 0xFAFF
}

/// Full-width punctuation that is a unit of its own.
pub open spec fn is_wide_mark(ch: char) -> bool {
    match ch {
        '。' | '，' | '！' | '？' | '；' | '：' | '、' | '（' | '）' | '【' | '】' => true,
        '《' | '》' | '「' | '」' | '『' | '』' | '·' | '…' | '—' | '～' => true,
        _ => false,
    }
}

/// Whether a character is a unit of its own.
pub open spec fn stands_alone(ch: char) -> bool {
    is_ideograph(ch) || is_wide_mark(ch)
}

/// Whether a character stays part of a unit: letters and numbers by `alphabetic` and `numeric`,
/// and some punctuation.
pub fn is_kept_glyph(g: Glyph) -> (res: bool)
    ensures
        res == keeps(g),
{
    if g.alphabetic || g.numeric {
        return true;
    }
    match g.ch {
        '\'' | '\u{2019}' | '\u{2018}' | '.' | ',' | '!' | '?' | ';' | ':' | '-' | '"' => true,
        '\u{201c}' | '\u{201d}' | '(' | ')' | '[' | ']' | '…' | '—' | '–' => true,
        '。' | '，' | '！' | '？' | '；' | '：' | '、' | '（' | '）' | '【' | '】' => true,
        '《' | '》' | '「' | '」' | '『' | '』' | '·' | '～' | '~' | '%' | '/' => true,
        '\\' | '&' | '+' | '=' | '*' | '#' | '@' => true,
        _ => false,
    }
}

/// Whether a character stays part of a unit.
pub fn is_kept_char(ch: char) -> (res: bool)
    ensures
        res == keeps(crate::text::glyph(ch)),
{
    is_kept_glyph(
        Glyph {
            ch,
            space: ch.is_whitespace(),
            alphabetic: ch.is_alphabetic(),
            numeric: ch.is_numeric(),
        },
    )
}

/// Whether a character is a CJK ideograph.
pub fn is_cjk_char(ch: char) -> (res: bool)
    ensures
        res == is_ideograph(ch),
{
    let code: u32 = ch as u32;
    (0x4E00 <= code && code <= 0x9FFF) || (0x3400 <= code && code <= 0x4DBF) || (0x20000 <= code
        && code <= 0x2A6DF) || (0x2A700 <= code && code <= 0x2B73F) || (0x2B740 <= code && code
        <= 0x2B81F) || (0x2B820 <= code && code <= 0x2CEAF) || (0xF900 <= code && code <= 0xFAFF)
}

/// Whether a character is a unit of its own.
pub fn is_cjk_unit_char(ch: char) -> (res: bool)
    ensures
        res == stands_alone(ch),
{
    if is_cjk_char(ch) {
        return true;
    }
    match ch {
        '。' | '，' | '！' | '？' | '；' | '：' | '、' | '（' | '）' | '【' | '】' => true,
        '《' | '》' | '「' | '」' | '『' | '』' | '·' | '…' | '—' | '～' => true,
        _ => false,
    }
}

// ---------------------------------------------------------------------------
// Units
// ---------------------------------------------------------------------------

/// The list with `ch` appended to its last item.
pub open spec fn extend_last(list: Seq<Seq<char>>, ch: char) -> Seq<Seq<char>> {
    list.drop_last().push(list.last().push(ch))
}

/// A segment split into units: each character that stands alone, and each longest stretch of
/// others.
pub open spec fn units(seg: Seq<char>) -> Seq<Seq<char>>
    decreases seg.len(),
{
    if seg.len() == 0 {
        Seq::empty()
    } else {
        let before = seg.drop_last();
        let ch = seg.last();
        if !stands_alone(ch) && before.len() > 0 && !stands_alone(before.last()) {
            extend_last(units(before), ch)
        } else {
            units(before).push(seq![ch])
        }
    }
}

/// A text split at white space: its longest stretches of other characters.
pub open spec fn words(g: Seq<Glyph>) -> Seq<Seq<Glyph>>
    decreases g.len(),
{
    if g.len() == 0 {
        Seq::empty()
    } else {
        let before = g.drop_last();
        let last = g.last();
        if last.space {
            words(before)
        } else if before.len() > 0 && !before.last().space {
            let w = words(before);
            w.drop_last().push(w.last().push(last))
        } else {
            words(before).push(seq![last])
        }
    }
}

/// The characters of a word that stay.
pub open spec fn cleaned(word: Seq<Glyph>) -> Seq<char> {
    crate::text::chars(word.filter(|g: Glyph| keeps(g)))
}

/// The units of a list of words, one word after the other.
pub open spec fn units_of_words(list: Seq<Seq<Glyph>>) -> Seq<Seq<char>>
    decreases list.len(),
{
    if list.len() == 0 {
        Seq::empty()
    } else {
        units_of_words(list.drop_last()) + units(cleaned(list.last()))
    }
}

/// The units of a text.
pub open spec fn tokens(g: Seq<Glyph>) -> Seq<Seq<char>> {
    units_of_words(words(g))
}

/// Splits CJK ideographs and full-width punctuation into single units; keeps other stretches,
/// with their punctuation, together.
pub fn split_segment_with_chinese(seg: &str) -> (res: Vec<String>)
    ensures
        crate::text::texts(res@) == units(seg@),
{
    let mut tokens: Vec<String> = Vec::new();
    let mut buf: String = String::new();
    for ch in iter: seg.chars()
        invariant
            iter.seq() == seg@,
            ({
                let done = seg@.take(iter.index());
                let open = done.len() > 0 && !stands_alone(done.last());
                &&& open <==> buf@.len() > 0
                &&& units(done) == if open {
                    crate::text::texts(tokens@).push(buf@)
                } else {
                    crate::text::texts(tokens@)
                }
            }),
    {
        let ghost done = seg@.take(iter.index());
        let ghost next = seg@.take(iter.index() + 1);
        let ghost list = crate::text::texts(tokens@);
        proof {
            assert(next =~= done.push(ch));
            assert(next.drop_last() =~= done);
            assert(next.last() == ch);
        }
        if is_cjk_unit_char(ch) {
            let pending: bool = !buf.as_str().is_empty();
            if pending {
                tokens.push(buf);
                buf = String::new();
            }
            let ghost mid = tokens@;
            let mut single: String = String::new();
            single.push(ch);
            tokens.push(single);
            proof {
                assert(single@ =~= seq![ch]);
                assert(crate::text::texts(tokens@) =~= units(done).push(seq![ch]));
            }
        } else {
            let ghost had = buf@;
            buf.push(ch);
            proof {
                if had.len() > 0 {
                    assert(units(next) == extend_last(units(done), ch));
                    assert(list.push(had).drop_last() =~= list);
                } else {
                    assert(buf@ =~= seq![ch]);
                    assert(units(next) == units(done).push(seq![ch]));
                }
            }
        }
    }
    assert(seg@.take(seg@.len() as int) =~= seg@);
    if !buf.as_str().is_empty() {
        let ghost list = crate::text::texts(tokens@);
        tokens.push(buf);
        assert(crate::text::texts(tokens@) =~= list.push(buf@));
    }
    tokens
}

/// The characters of a word that stay.
pub fn clean_word(word: &[Glyph]) -> (res: String)
    ensures
        res@ == cleaned(word@),
{
    let mut res: String = String::new();
    let mut i: usize = 0;
    let ghost p = |g: Glyph| keeps(g);
    proof {
        reveal(Seq::filter);
        assert(word@.take(0) =~= Seq::<Glyph>::empty());
        assert(res@ =~= cleaned(word@.take(0)));
    }
    while i < word.len()
        invariant
            i <= word.len(),
            res@ == cleaned(word@.take(i as int)),
        decreases word.len() - i,
    {
        let g: Glyph = word[i];
        let ghost before = word@.take(i as int);
        let ghost next = word@.take(i + 1);
        let ghost had = res@;
        if is_kept_glyph(g) {
            res.push(g.ch);
        }
        proof {
            reveal(Seq::filter);
            assert(next.drop_last() =~= before);
            assert(next.last() == g);
            assert(next =~= before.push(g));
            assert(res@ =~= cleaned(next));
        }
        i = i + 1;
    }
    assert(word@.take(word.len() as int) =~= word@);
    res
}

/// The characters of a token that stay.
pub fn clean_token(token: &str) -> (res: String)
    ensures
        res@ == cleaned(crate::text::glyphs(token@)),
{
    let g: Vec<Glyph> = to_glyphs(token);
    clean_word(&g)
}

/// Splits a text whose characters have been looked up into units.
pub fn tokenize_glyphs(g: &[Glyph]) -> (res: Vec<String>)
    ensures
        crate::text::texts(res@) == tokens(g@),
{
    let n: usize = g.len();
    let mut res: Vec<String> = Vec::new();
    let mut i: usize = 0;
    assert(crate::text::texts(res@) =~= tokens(g@.take(0)));
    while i < n
        invariant
            i <= n,
            n == g.len(),
            0 < i < n ==> g[i - 1].space || g[i as int].space,
            crate::text::texts(res@) == tokens(g@.take(i as int)),
        decreases n - i,
    {
        if g[i].space {
            proof {
                let next = g@.take(i + 1);
                assert(next.drop_last() =~= g@.take(i as int));
                assert(next.last() == g@[i as int]);
            }
            i = i + 1;
        } else {
            let ghost before = words(g@.take(i as int));
            let mut j: usize = i;
            while j < n && !g[j].space
                invariant
                    i <= j <= n,
                    n == g.len(),
                    !g[i as int].space,
                    i < n,
                    0 < i ==> g[i - 1].space,
                    before == words(g@.take(i as int)),
                    forall|x: int| i <= x < j ==> !g[x].space,
                    words(g@.take(j as int)) == if j == i {
                        before
                    } else {
                        before.push(g@.subrange(i as int, j as int))
                    },
                decreases n - j,
            {
                proof {
                    let next = g@.take(j + 1);
                    let last = g@[j as int];
                    assert(next.drop_last() =~= g@.take(j as int));
                    assert(next.last() == last);
                    if j == i {
                        assert(g@.subrange(i as int, j + 1) =~= seq![last]);
                        if i > 0 {
                            assert(g@.take(j as int).last() == g@[i - 1]);
                        }
                    } else {
                        assert(g@.take(j as int).last() == g@[j - 1]);
                        let w = before.push(g@.subrange(i as int, j as int));
                        assert(w.drop_last() =~= before);
                        assert(g@.subrange(i as int, j as int).push(last) =~= g@.subrange(
                            i as int,
                            j + 1,
                        ));
                    }
                }
                j = j + 1;
            }
            let word: Vec<Glyph> = copy_range(g, i, j);
            let kept: String = clean_word(&word);
            let mut more: Vec<String> = split_segment_with_chinese(kept.as_str());
            let ghost had = res@;
            let ghost added = more@;
            res.append(&mut more);
            proof {
                assert(j > i);
                let w = before.push(g@.subrange(i as int, j as int));
                assert(w.drop_last() =~= before);
                assert(crate::text::texts(res@) =~= crate::text::texts(had) + crate::text::texts(
                    added,
                ));
            }
            i = j;
        }
    }
    assert(g@.take(n as int) =~= g@);
    res
}

/// Splits a text into units.
pub fn tokenize_space_lang(text: &str) -> (res: Vec<String>)
    ensures
        crate::text::texts(res@) == tokens(crate::text::glyphs(text@)),
{
    let g: Vec<Glyph> = to_glyphs(text);
    tokenize_glyphs(&g)
}

/// The input text of the aligner for some units.
pub open spec fn aligner_text(list: Seq<Seq<char>>) -> Seq<char>
    decreases list.len(),
{
    if list.len() == 0 {
        "<|audio_start|><|audio_pad|><|audio_end|>"@
    } else {
        aligner_text(list.drop_last()) + list.last() + "<timestamp><timestamp>"@
    }
}

/// The input text of the aligner: the audio place, then each unit and its two timestamp places.
pub fn write_aligner_text(units: &[String]) -> (res: String)
    ensures
        res@ == aligner_text(crate::text::texts(units@)),
{
    let mut res: String = "<|audio_start|><|audio_pad|><|audio_end|>".to_owned();
    let mut i: usize = 0;
    while i < units.len()
        invariant
            i <= units.len(),
            res@ == aligner_text(crate::text::texts(units@.take(i as int))),
        decreases units.len() - i,
    {
        res.append(units[i].as_str());
        res.append("<timestamp><timestamp>");
        proof {
            let before = crate::text::texts(units@.take(i as int));
            let next = crate::text::texts(units@.take(i + 1));
            assert(next.drop_last() =~= before);
            assert(next.last() == units@[i as int]@);
        }
        i = i + 1;
    }
    assert(units@.take(units.len() as int) =~= units@);
    res
}

/// Encodes a transcript into alignment units and the input text of the aligner.
///
/// Every language, also Japanese and Korean, is split at white space and into single
/// ideographs, so no language is refused.
pub fn encode_timestamp(text: &str, language: &str) -> (res: Result<
    (Vec<String>, String),
    AlignError,
>)
    ensures
        res is Ok,
        crate::text::texts(res->Ok_0.0@) == tokens(crate::text::glyphs(text@)),
        res->Ok_0.1@ == aligner_text(tokens(crate::text::glyphs(text@))),
{
    let word_list: Vec<String> = tokenize_space_lang(text);
    let input_text: String = write_aligner_text(&word_list);
    Ok((word_list, input_text))
}

// ---------------------------------------------------------------------------
// Laws
// ---------------------------------------------------------------------------

/// All items of a list, one after the other.
pub open spec fn joined(list: Seq<Seq<char>>) -> Seq<char>
    decreases list.len(),
{
    if list.len() == 0 {
        Seq::empty()
    } else {
        joined(list.drop_last()) + list.last()
    }
}

/// Whether an item is a well-formed unit: one character that stands alone, or one or more that
/// do not.
pub open spec fn is_unit(unit: Seq<char>) -> bool {
    ||| unit.len() == 1 && stands_alone(unit[0])
    ||| unit.len() > 0 && forall|i: int| 0 <= i < unit.len() ==> !stands_alone(#[trigger] unit[i])
}

proof fn lemma_joined_push(list: Seq<Seq<char>>, item: Seq<char>)
    ensures
        joined(list.push(item)) == joined(list) + item,
{
    assert(list.push(item).drop_last() =~= list);
}

proof fn lemma_joined_concat(a: Seq<Seq<char>>, b: Seq<Seq<char>>)
    ensures
        joined(a + b) == joined(a) + joined(b),
    decreases b.len(),
{
    if b.len() == 0 {
        assert(a + b =~= a);
        assert(joined(a) + Seq::<char>::empty() =~= joined(a));
    } else {
        assert((a + b).drop_last() =~= a + b.drop_last());
        assert((a + b).last() == b.last());
        lemma_joined_concat(a, b.drop_last());
        assert(joined(a) + joined(b.drop_last()) + b.last() =~= joined(a) + (joined(
            b.drop_last(),
        ) + b.last()));
    }
}

/// Splitting a segment into units loses nothing, makes only well-formed units, and cuts no stretch
/// of characters that do not stand alone: of two neighbouring units one is a character that does.
pub proof fn law_units_cover_segment(seg: Seq<char>)
    ensures
        joined(units(seg)) == seg,
        forall|i: int| 0 <= i < units(seg).len() ==> is_unit(#[trigger] units(seg)[i]),
        forall|i: int|
            0 < i < units(seg).len() ==> stands_alone(#[trigger] units(seg)[i][0]) || stands_alone(
                units(seg)[i - 1][0],
            ),
        seg.len() > 0 ==> units(seg).len() > 0 && (stands_alone(seg.last()) <==> stands_alone(
            units(seg).last()[0],
        )),
    decreases seg.len(),
{
    if seg.len() > 0 {
        let before = seg.drop_last();
        let ch = seg.last();
        law_units_cover_segment(before);
        let u = units(before);
        assert(seg =~= before.push(ch));
        if !stands_alone(ch) && before.len() > 0 && !stands_alone(before.last()) {
            let grown = u.last().push(ch);
            lemma_joined_push(u.drop_last(), grown);
            assert(u =~= u.drop_last().push(u.last()));
            lemma_joined_push(u.drop_last(), u.last());
            assert(joined(u.drop_last()) + grown =~= (joined(u.drop_last()) + u.last()).push(ch));
            assert(is_unit(u[u.len() - 1]));
            assert forall|i: int| 0 <= i < grown.len() implies !stands_alone(#[trigger] grown[i]) by {
                if i < u.last().len() {
                    assert(grown[i] == u.last()[i]);
                }
            }
            assert(is_unit(grown));
            assert forall|i: int| 0 <= i < units(seg).len() implies is_unit(
                #[trigger] units(seg)[i],
            ) by {
                if i < u.len() - 1 {
                    assert(units(seg)[i] == u[i]);
                }
            }
            assert(grown[0] == u.last()[0]);
            assert forall|i: int| 0 < i < units(seg).len() implies stands_alone(
                #[trigger] units(seg)[i][0],
            ) || stands_alone(units(seg)[i - 1][0]) by {
                assert(units(seg)[i][0] == u[i][0]);
                assert(units(seg)[i - 1] == u[i - 1]);
            }
        } else {
            lemma_joined_push(u, seq![ch]);
            assert(joined(u) + seq![ch] =~= before.push(ch));
            assert(is_unit(seq![ch]));
            assert forall|i: int| 0 <= i < units(seg).len() implies is_unit(
                #[trigger] units(seg)[i],
            ) by {
                if i < u.len() {
                    assert(units(seg)[i] == u[i]);
                }
            }
            assert forall|i: int| 0 < i < units(seg).len() implies stands_alone(
                #[trigger] units(seg)[i][0],
            ) || stands_alone(units(seg)[i - 1][0]) by {
                assert(units(seg)[i - 1] == u[i - 1]);
                if i < u.len() {
                    assert(units(seg)[i] == u[i]);
                    assert(stands_alone(u[i][0]) || stands_alone(u[i - 1][0]));
                }
            }
        }
    }
}

/// All words of a list, one after the other.
pub open spec fn joined_words(list: Seq<Seq<Glyph>>) -> Seq<Glyph>
    decreases list.len(),
{
    if list.len() == 0 {
        Seq::empty()
    } else {
        joined_words(list.drop_last()) + list.last()
    }
}

/// The words of a text are what is left of it without its white space.
proof fn lemma_words_cover(g: Seq<Glyph>)
    ensures
        joined_words(words(g)) == g.filter(|x: Glyph| !x.space),
        g.len() > 0 && !g.last().space ==> words(g).len() > 0,
    decreases g.len(),
{
    reveal(Seq::filter);
    let p = |x: Glyph| !x.space;
    if g.len() > 0 {
        let before = g.drop_last();
        let last = g.last();
        lemma_words_cover(before);
        let w = words(before);
        if last.space {
        } else if before.len() > 0 && !before.last().space {
            let grown = w.last().push(last);
            let all = w.drop_last().push(grown);
            assert(all.drop_last() =~= w.drop_last());
            assert(joined_words(w.drop_last()) + grown =~= (joined_words(w.drop_last())
                + w.last()).push(last));
        } else {
            let all = w.push(seq![last]);
            assert(all.drop_last() =~= w);
            assert(joined_words(w) + seq![last] =~= joined_words(w).push(last));
        }
    }
}

proof fn lemma_filter_concat(a: Seq<Glyph>, b: Seq<Glyph>, p: spec_fn(Glyph) -> bool)
    ensures
        (a + b).filter(p) == a.filter(p) + b.filter(p),
    decreases b.len(),
{
    reveal(Seq::filter);
    if b.len() == 0 {
        assert(a + b =~= a);
        assert(a.filter(p) + Seq::<Glyph>::empty() =~= a.filter(p));
    } else {
        assert((a + b).drop_last() =~= a + b.drop_last());
        lemma_filter_concat(a, b.drop_last(), p);
        assert((a + b).filter(p) =~= a.filter(p) + b.filter(p));
    }
}

proof fn lemma_units_of_words(list: Seq<Seq<Glyph>>)
    ensures
        joined(units_of_words(list)) == cleaned(joined_words(list)),
        forall|i: int|
            0 <= i < units_of_words(list).len() ==> is_unit(#[trigger] units_of_words(list)[i]),
    decreases list.len(),
{
    let p = |g: Glyph| keeps(g);
    if list.len() == 0 {
        reveal(Seq::filter);
        assert(cleaned(Seq::<Glyph>::empty()) =~= Seq::<char>::empty());
    } else {
        let before = list.drop_last();
        let word = list.last();
        lemma_units_of_words(before);
        law_units_cover_segment(cleaned(word));
        lemma_joined_concat(units_of_words(before), units(cleaned(word)));
        lemma_filter_concat(joined_words(before), word, p);
        assert(crate::text::chars(joined_words(before).filter(p) + word.filter(p))
            =~= crate::text::chars(joined_words(before).filter(p)) + crate::text::chars(
            word.filter(p),
        ));
        assert forall|i: int| 0 <= i < units_of_words(list).len() implies is_unit(
            #[trigger] units_of_words(list)[i],
        ) by {
            let n = units_of_words(before).len();
            if i < n {
                assert(units_of_words(list)[i] == units_of_words(before)[i]);
            } else {
                assert(units_of_words(list)[i] == units(cleaned(word))[i - n]);
            }
        }
    }
}

/// The units of a text hold, in order, every character of it that is neither white space nor
/// dropped, and nothing else; each is well formed.
pub proof fn law_tokens_cover_text(g: Seq<Glyph>)
    ensures
        joined(tokens(g)) == cleaned(g.filter(|x: Glyph| !x.space)),
        forall|i: int| 0 <= i < tokens(g).len() ==> is_unit(#[trigger] tokens(g)[i]),
{
    lemma_words_cover(g);
    lemma_units_of_words(words(g));
}

/// White space is never kept.
pub proof fn law_white_space_is_not_kept(c: char)
    requires
        crate::text::white_space(c),
    ensures
        !keeps(crate::text::glyph(c)),
{
}

/// The units of a text, joined, are exactly its characters that are kept.
pub proof fn law_units_are_kept_characters(text: Seq<char>)
    ensures
        joined(tokens(crate::text::glyphs(text))) == text.filter(
            |c: char| keeps(crate::text::glyph(c)),
        ),
{
    let g = crate::text::glyphs(text);
    law_tokens_cover_text(g);
    lemma_kept_of_text(text);
}

proof fn lemma_kept_of_text(text: Seq<char>)
    ensures
        cleaned(crate::text::glyphs(text).filter(|x: Glyph| !x.space)) == text.filter(
            |c: char| keeps(crate::text::glyph(c)),
        ),
    decreases text.len(),
{
    reveal(Seq::filter);
    let p = |x: Glyph| !x.space;
    let q = |x: Glyph| keeps(x);
    let k = |c: char| keeps(crate::text::glyph(c));
    let g = crate::text::glyphs(text);
    if text.len() == 0 {
        assert(cleaned(g.filter(p)) =~= text.filter(k));
    } else {
        let c = text.last();
        let before = text.drop_last();
        lemma_kept_of_text(before);
        assert(g.drop_last() =~= crate::text::glyphs(before));
        assert(g.last() == crate::text::glyph(c));
        let inked = crate::text::glyphs(before).filter(p);
        if crate::text::white_space(c) {
            law_white_space_is_not_kept(c);
        } else {
            assert(inked.push(crate::text::glyph(c)).drop_last() =~= inked);
            assert(cleaned(g.filter(p)) =~= text.filter(k));
        }
    }
}

/// No unit of a text holds white space.
pub proof fn law_no_white_space_in_units(text: Seq<char>, i: int)
    requires
        0 <= i < joined(tokens(crate::text::glyphs(text))).len(),
    ensures
        !crate::text::white_space(joined(tokens(crate::text::glyphs(text)))[i]),
{
    let g = crate::text::glyphs(text);
    let p = |x: Glyph| !x.space;
    let q = |x: Glyph| keeps(x);
    law_tokens_cover_text(g);
    let inked = g.filter(p);
    let x = inked.filter(q)[i];
    assert(inked.filter(q).contains(x));
    inked.lemma_filter_contains_rev(q, x);
    let k = choose|k: int| 0 <= k < inked.len() && inked[k] == x;
    g.lemma_filter_pred(p, k);
    assert(g.filter(p).contains(x));
    g.lemma_filter_contains_rev(p, x);
}

/// Punctuation that a word keeps: ASCII, typographic quotes and the short dash.
pub open spec fn is_word_mark(c: char) -> bool {
    ||| c == '.' || c == ',' || c == '!' || c == '?' || c == ';' || c == ':' || c == '-'
    ||| c == '"' || c == '\'' || c == '(' || c == ')' || c == '[' || c == ']' || c == '~'
    ||| c == '%' || c == '/' || c == '\\' || c == '&' || c == '+' || c == '=' || c == '*'
    ||| c == '#' || c == '@'
    ||| c as u32 == 0x2018 || c as u32 == 0x2019 || c as u32 == 0x201C || c as u32 == 0x201D
    ||| c as u32 == 0x2013
}

/// Full-width and East Asian punctuation, by its code points.
pub open spec fn is_east_asian_mark(c: char) -> bool {
    let x = c as u32;
    ||| x == 0x3001 || x == 0x3002 || 0x300A <= x <= 0x3011
    ||| x == 0xFF01 || x == 0xFF08 || x == 0xFF09 || x == 0xFF0C || x == 0xFF1A || x == 0xFF1B
    ||| x == 0xFF1F || x == 0xFF5E
    ||| x == 0xB7 || x == 0x2014 || x == 0x2026
}

/// The blocks of the Unified Ideographs, their extensions A to E and the compatibility ones.
pub open spec fn in_ideograph_block(c: char) -> bool {
    let x = c as u32;
    ||| 0x4E00 <= x <= 0x9FFF || 0x3400 <= x <= 0x4DBF || 0xF900 <= x <= 0xFAFF
    ||| 0x20000 <= x <= 0x2A6DF || 0x2A700 <= x <= 0x2CEAF
}

/// Whether a character is one of those that words are made of: a letter, a number or punctuation
/// of words, but no ideograph.
pub open spec fn is_word_char(c: char) -> bool {
    &&& crate::text::alphabetic(c) || crate::text::numeric(c) || is_word_mark(c)
    &&& !in_ideograph_block(c)
    &&& !is_east_asian_mark(c)
}

/// Stretches without white space are one word.
proof fn lemma_one_word(g: Seq<Glyph>)
    requires
        g.len() > 0,
        forall|i: int| 0 <= i < g.len() ==> !(#[trigger] g[i]).space,
    ensures
        words(g) == seq![g],
    decreases g.len(),
{
    let before = g.drop_last();
    if before.len() > 0 {
        assert forall|i: int| 0 <= i < before.len() implies !(#[trigger] before[i]).space by {
            assert(before[i] == g[i]);
        }
        lemma_one_word(before);
        assert(!g[before.len() - 1].space);
        assert(!g[g.len() - 1].space);
        assert(before.push(g.last()) =~= g);
        assert(words(g) =~= seq![g]);
    } else {
        assert(!g[0].space);
        assert(words(before) =~= Seq::<Seq<Glyph>>::empty());
        assert(seq![g.last()] =~= g);
        assert(words(g) =~= seq![g]);
    }
}

/// Stretches without a character that stands alone are one unit.
proof fn lemma_one_unit(seg: Seq<char>)
    requires
        seg.len() > 0,
        forall|i: int| 0 <= i < seg.len() ==> !stands_alone(#[trigger] seg[i]),
    ensures
        units(seg) == seq![seg],
    decreases seg.len(),
{
    let before = seg.drop_last();
    assert(!stands_alone(seg[seg.len() - 1]));
    if before.len() > 0 {
        assert forall|i: int| 0 <= i < before.len() implies !stands_alone(#[trigger] before[i]) by {
            assert(before[i] == seg[i]);
        }
        lemma_one_unit(before);
        assert(!stands_alone(seg[before.len() - 1]));
        assert(before.push(seg.last()) =~= seg);
        assert(units(seg) =~= seq![seg]);
    } else {
        assert(units(before) =~= Seq::<Seq<char>>::empty());
        assert(seq![seg.last()] =~= seg);
        assert(units(seg) =~= seq![seg]);
    }
}

/// Where every character stays, cleaning changes nothing.
proof fn lemma_all_kept(g: Seq<Glyph>)
    requires
        forall|i: int| 0 <= i < g.len() ==> keeps(#[trigger] g[i]),
    ensures
        cleaned(g) == crate::text::chars(g),
    decreases g.len(),
{
    reveal(Seq::filter);
    let p = |x: Glyph| keeps(x);
    if g.len() > 0 {
        let before = g.drop_last();
        let last = g.last();
        assert forall|i: int| 0 <= i < before.len() implies keeps(#[trigger] before[i]) by {
            assert(before[i] == g[i]);
        }
        lemma_all_kept(before);
        assert(keeps(g[g.len() - 1]));
        assert(g.filter(p) == before.filter(p).push(last));
        assert(cleaned(g) =~= cleaned(before).push(last.ch));
        assert(crate::text::chars(g) =~= crate::text::chars(before).push(last.ch));
    } else {
        assert(cleaned(g) =~= crate::text::chars(g));
    }
}

/// A word of letters, digits and punctuation comes out as one unit, unchanged: nothing is dropped
/// from it and it is not cut.
pub proof fn law_word_is_one_unit(word: Seq<char>)
    requires
        word.len() > 0,
        forall|i: int| 0 <= i < word.len() ==> is_word_char(#[trigger] word[i]),
    ensures
        tokens(crate::text::glyphs(word)) == seq![word],
{
    let g = crate::text::glyphs(word);
    assert forall|i: int| 0 <= i < g.len() implies !(#[trigger] g[i]).space && keeps(g[i]) by {
        assert(is_word_char(word[i]));
    }
    lemma_one_word(g);
    lemma_all_kept(g);
    crate::text::law_glyphs_round_trip(word);
    assert forall|i: int| 0 <= i < word.len() implies !stands_alone(#[trigger] word[i]) by {
        assert(is_word_char(word[i]));
    }
    lemma_one_unit(word);
    let none = Seq::<Seq<Glyph>>::empty();
    lemma_units_of_last(none, g);
    assert(none.push(g) =~= seq![g]);
    assert(units_of_words(seq![g]) =~= seq![word]);
}

/// Words with blanks between them come out as the units, one after the other.
pub proof fn law_words_are_the_units(text: Seq<char>, word: Seq<char>)
    requires
        word.len() > 0,
        forall|i: int| 0 <= i < word.len() ==> is_word_char(#[trigger] word[i]),
    ensures
        tokens(crate::text::glyphs(text + " "@ + word)) == tokens(crate::text::glyphs(text)).push(
            word,
        ),
{
    law_blank_separates(text, word);
    law_word_is_one_unit(word);
    assert(tokens(crate::text::glyphs(text)) + seq![word] =~= tokens(
        crate::text::glyphs(text),
    ).push(word));
}

/// How the words of two texts, one after the other, come about: a stretch without white space at
/// the border is one word.
proof fn lemma_words_join(a: Seq<Glyph>, b: Seq<Glyph>)
    ensures
        ({
            let wa = words(a);
            let wb = words(b);
            &&& a.len() > 0 && !a.last().space ==> wa.len() > 0
            &&& b.len() > 0 && !b[0].space ==> wb.len() > 0
            &&& words(a + b) == if a.len() > 0 && b.len() > 0 && !a.last().space && !b[0].space {
                wa.drop_last().push(wa.last() + wb[0]) + wb.drop_first()
            } else {
                wa + wb
            }
        }),
    decreases b.len(),
{
    let wa = words(a);
    lemma_words_cover(a);
    if b.len() == 0 {
        assert(a + b =~= a);
        assert(wa + words(b) =~= wa);
    } else {
        let b1 = b.drop_last();
        let last = b.last();
        lemma_words_join(a, b1);
        lemma_words_cover(b1);
        assert((a + b).drop_last() =~= a + b1);
        assert((a + b).last() == last);
        let joined_before = words(a + b1);
        let w1 = words(b1);
        if b1.len() == 0 {
            assert(a + b1 =~= a);
            assert(b =~= seq![last]);
            if !last.space {
                assert(words(b) =~= seq![seq![last]]);
                if a.len() > 0 && !a.last().space {
                    assert(wa.last().push(last) =~= wa.last() + seq![last]);
                    assert(words(a + b) =~= wa.drop_last().push(wa.last() + words(b)[0])
                        + words(b).drop_first());
                } else {
                    assert(words(a + b) =~= wa + words(b));
                }
            } else {
                assert(words(a + b) =~= wa + words(b));
            }
        } else {
            assert(b[0] == b1[0]);
            assert((a + b1).last() == b1.last());
            if last.space {
            } else if b1.last().space {
                assert(words(b) == w1.push(seq![last]));
                assert(words(a + b) == joined_before.push(seq![last]));
                if a.len() > 0 && !a.last().space && !b[0].space {
                    assert(w1.push(seq![last]).drop_first() =~= w1.drop_first().push(seq![last]));
                    assert(words(a + b) =~= wa.drop_last().push(wa.last() + words(b)[0])
                        + words(b).drop_first());
                } else {
                    assert(words(a + b) =~= wa + words(b));
                }
            } else {
                let grown = w1.last().push(last);
                assert(words(b) == w1.drop_last().push(grown));
                if a.len() > 0 && !a.last().space && !b[0].space {
                    if w1.len() == 1 {
                        assert(joined_before.last() == wa.last() + w1[0]);
                        assert((wa.last() + w1[0]).push(last) =~= wa.last() + w1[0].push(last));
                        assert(words(a + b) =~= wa.drop_last().push(wa.last() + words(b)[0])
                            + words(b).drop_first());
                    } else {
                        assert(joined_before.last() == w1.last());
                        assert(words(b).drop_first() =~= w1.drop_first().drop_last().push(grown));
                        assert(words(b)[0] == w1[0]);
                        assert(words(a + b) =~= wa.drop_last().push(wa.last() + words(b)[0])
                            + words(b).drop_first());
                    }
                } else {
                    assert(joined_before == wa + w1);
                    assert(joined_before.last() == w1.last());
                    assert(words(a + b) =~= wa + words(b));
                }
            }
        }
    }
}

proof fn lemma_cleaned_concat(a: Seq<Glyph>, b: Seq<Glyph>)
    ensures
        cleaned(a + b) == cleaned(a) + cleaned(b),
{
    let p = |g: Glyph| keeps(g);
    lemma_filter_concat(a, b, p);
    assert(cleaned(a + b) =~= cleaned(a) + cleaned(b));
}

/// The units of a list of words whose last one is split off.
proof fn lemma_units_of_last(list: Seq<Seq<Glyph>>, word: Seq<Glyph>)
    ensures
        units_of_words(list.push(word)) == units_of_words(list) + units(cleaned(word)),
{
    assert(list.push(word).drop_last() =~= list);
}

/// The units of a list of words whose first one is split off.
proof fn lemma_units_of_first(list: Seq<Seq<Glyph>>)
    requires
        list.len() > 0,
    ensures
        units_of_words(list) == units(cleaned(list[0])) + units_of_words(list.drop_first()),
{
    let first = seq![list[0]];
    assert(list =~= first + list.drop_first());
    lemma_units_of_lists(first, list.drop_first());
    assert(first =~= Seq::<Seq<Glyph>>::empty().push(list[0]));
    lemma_units_of_last(Seq::empty(), list[0]);
    assert(units_of_words(first) =~= units(cleaned(list[0])));
}

/// The units of two texts, one after the other, where there is no white space at the border.
proof fn lemma_tokens_join(a: Seq<Glyph>, b: Seq<Glyph>)
    requires
        a.len() > 0,
        b.len() > 0,
        !a.last().space,
        !b[0].space,
    ensures
        words(a).len() > 0,
        words(b).len() > 0,
        tokens(a) == units_of_words(words(a).drop_last()) + units(cleaned(words(a).last())),
        tokens(b) == units(cleaned(words(b)[0])) + units_of_words(words(b).drop_first()),
        tokens(a + b) == units_of_words(words(a).drop_last()) + units(
            cleaned(words(a).last()) + cleaned(words(b)[0]),
        ) + units_of_words(words(b).drop_first()),
{
    lemma_words_join(a, b);
    let wa = words(a);
    let wb = words(b);
    assert(wa =~= wa.drop_last().push(wa.last()));
    lemma_units_of_first(wb);
    let middle = wa.last() + wb[0];
    lemma_units_of_lists(wa.drop_last().push(middle), wb.drop_first());
    lemma_units_of_last(wa.drop_last(), middle);
    lemma_cleaned_concat(wa.last(), wb[0]);
}

/// The units around a character that stands alone.
proof fn lemma_units_around(x: Seq<char>, c: char, y: Seq<char>)
    requires
        stands_alone(c),
    ensures
        units(x.push(c) + y) == units(x).push(seq![c]) + units(y),
    decreases y.len(),
{
    let all = x.push(c) + y;
    if y.len() == 0 {
        assert(all =~= x.push(c));
        assert(all.drop_last() =~= x);
        assert(units(x).push(seq![c]) + units(y) =~= units(x).push(seq![c]));
    } else {
        let y1 = y.drop_last();
        let ch = y.last();
        lemma_units_around(x, c, y1);
        law_units_cover_segment(y1);
        assert(all.drop_last() =~= x.push(c) + y1);
        assert(all.last() == ch);
        let head = units(x).push(seq![c]);
        if y1.len() == 0 {
            assert(all.drop_last().last() == c);
            assert(units(all) =~= head + units(y));
        } else {
            assert(all.drop_last().last() == y1.last());
            if !stands_alone(ch) && !stands_alone(y1.last()) {
                assert((head + units(y1)).last() == units(y1).last());
                assert(units(all) =~= head + units(y));
            } else {
                assert(units(all) =~= head + units(y));
            }
        }
    }
}

/// A character that is kept and stands alone is a unit between the units of what is before it and
/// those of what is behind it.
proof fn lemma_tokens_around(a: Seq<Glyph>, g: Glyph, b: Seq<Glyph>)
    requires
        !g.space,
        keeps(g),
        stands_alone(g.ch),
    ensures
        tokens(a.push(g) + b) == tokens(a).push(seq![g.ch]) + tokens(b),
{
    let none = Seq::<char>::empty();
    let one = seq![g];
    let c = g.ch;
    lemma_all_kept(one);
    assert(cleaned(one) =~= seq![c]);
    assert(a + one =~= a.push(g));
    // Up to the character itself.
    let left = a.push(g);
    let wl = words(left);
    let wa = words(a);
    lemma_words_cover(a);
    assert(left.drop_last() =~= a);
    let before = if a.len() > 0 && !a.last().space {
        wa.last()
    } else {
        Seq::<Glyph>::empty()
    };
    let others = if a.len() > 0 && !a.last().space {
        wa.drop_last()
    } else {
        wa
    };
    reveal(Seq::filter);
    assert(Seq::<Glyph>::empty().push(g) =~= one);
    assert(wl =~= others.push(before.push(g)));
    assert(before.push(g) =~= before + one);
    lemma_cleaned_concat(before, one);
    assert(cleaned(before.push(g)) =~= cleaned(before).push(c));
    lemma_units_of_last(others, before.push(g));
    assert(cleaned(Seq::<Glyph>::empty()) =~= none);
    assert(tokens(a) =~= units_of_words(others) + units(cleaned(before))) by {
        if a.len() > 0 && !a.last().space {
            assert(wa =~= others.push(before));
            lemma_units_of_last(others, before);
        }
    }
    // What is behind it.
    if b.len() > 0 && !b[0].space {
        lemma_tokens_join(left, b);
        let behind = cleaned(words(b)[0]);
        assert(wl.last() == before.push(g) && wl.drop_last() =~= others);
        lemma_units_around(cleaned(before), c, behind);
        assert(tokens(left + b) =~= tokens(a).push(seq![c]) + tokens(b));
    } else {
        lemma_words_join(left, b);
        lemma_units_of_lists(wl, words(b));
        lemma_units_around(cleaned(before), c, none);
        assert(cleaned(before).push(c) + none =~= cleaned(before).push(c));
        assert(tokens(left + b) =~= tokens(a).push(seq![c]) + tokens(b));
    }
}

/// Full-width punctuation, and an ideograph that the Unicode tables list as a letter or a number,
/// is a unit of its own wherever it stands: the units are those of the text before it, itself, and
/// those of the text behind it.
pub proof fn law_ideographs_and_wide_marks_stand_alone(a: Seq<char>, c: char, b: Seq<char>)
    requires
        is_east_asian_mark(c) || (in_ideograph_block(c) && (crate::text::alphabetic(c)
            || crate::text::numeric(c))),
    ensures
        tokens(crate::text::glyphs(a.push(c) + b)) == tokens(crate::text::glyphs(a)).push(seq![c])
            + tokens(crate::text::glyphs(b)),
{
    let g = crate::text::glyph(c);
    lemma_tokens_around(crate::text::glyphs(a), g, crate::text::glyphs(b));
    assert(crate::text::glyphs(a.push(c) + b) =~= crate::text::glyphs(a).push(g)
        + crate::text::glyphs(b));
}

/// A character that is neither white space nor kept might as well not be there.
proof fn lemma_tokens_without(a: Seq<Glyph>, g: Glyph, b: Seq<Glyph>)
    requires
        !g.space,
        !keeps(g),
    ensures
        tokens(a.push(g) + b) == tokens(a + b),
{
    reveal(Seq::filter);
    let one = seq![g];
    let p = |x: Glyph| keeps(x);
    let nothing = Seq::<Glyph>::empty();
    assert(one.drop_last() =~= nothing);
    assert(nothing.filter(p) =~= nothing);
    assert(one.filter(p) =~= nothing);
    assert(cleaned(one) =~= Seq::<char>::empty());
    let left = a.push(g);
    let wl = words(left);
    let wa = words(a);
    let wb = words(b);
    lemma_words_cover(a);
    assert(left.drop_last() =~= a);
    assert(units(Seq::<char>::empty()) =~= Seq::<Seq<char>>::empty());
    if a.len() > 0 && !a.last().space {
        let last = wa.last();
        assert(last.push(g) =~= last + one);
        lemma_cleaned_concat(last, one);
        assert(cleaned(last.push(g)) =~= cleaned(last));
        assert(wl.drop_last() =~= wa.drop_last() && wl.last() == last.push(g));
        lemma_units_of_last(wa.drop_last(), last.push(g));
        lemma_units_of_last(wa.drop_last(), last);
        assert(wa =~= wa.drop_last().push(last));
        if b.len() > 0 && !b[0].space {
            lemma_tokens_join(left, b);
            lemma_tokens_join(a, b);
        } else {
            lemma_words_join(left, b);
            lemma_words_join(a, b);
            lemma_units_of_lists(wl, wb);
            lemma_units_of_lists(wa, wb);
        }
    } else {
        assert(wl == wa.push(one));
        lemma_units_of_last(wa, one);
        assert(units_of_words(wl) =~= tokens(a));
        lemma_words_join(a, b);
        lemma_units_of_lists(wa, wb);
        if b.len() > 0 && !b[0].space {
            lemma_tokens_join(left, b);
            assert(wl.drop_last() =~= wa && wl.last() == one);
            assert(cleaned(one) + cleaned(wb[0]) =~= cleaned(wb[0]));
            assert(tokens(left + b) =~= tokens(a) + tokens(b));
        } else {
            lemma_words_join(left, b);
            lemma_units_of_lists(wl, wb);
        }
    }
}

/// Any other symbol is dropped: the units are the same as without it.
pub proof fn law_other_symbols_are_dropped(a: Seq<char>, c: char, b: Seq<char>)
    requires
        !crate::text::white_space(c),
        !crate::text::alphabetic(c),
        !crate::text::numeric(c),
        !is_word_mark(c),
        !is_east_asian_mark(c),
    ensures
        tokens(crate::text::glyphs(a.push(c) + b)) == tokens(crate::text::glyphs(a + b)),
{
    let g = crate::text::glyph(c);
    lemma_tokens_without(crate::text::glyphs(a), g, crate::text::glyphs(b));
    assert(crate::text::glyphs(a.push(c) + b) =~= crate::text::glyphs(a).push(g)
        + crate::text::glyphs(b));
    assert(crate::text::glyphs(a + b) =~= crate::text::glyphs(a) + crate::text::glyphs(b));
}

/// The input text of the aligner: the place of the audio, and then each unit with the places of its
/// two timestamps behind it.
pub proof fn law_aligner_text_layout(list: Seq<Seq<char>>, unit: Seq<char>)
    ensures
        aligner_text(Seq::empty()) == "<|audio_start|><|audio_pad|><|audio_end|>"@,
        aligner_text(list.push(unit)) == aligner_text(list) + unit + "<timestamp><timestamp>"@,
{
    assert(list.push(unit).drop_last() =~= list);
}

/// White space between two texts separates their words.
proof fn lemma_words_separated(a: Seq<Glyph>, sep: Glyph, b: Seq<Glyph>)
    requires
        sep.space,
    ensures
        words(a.push(sep) + b) == words(a) + words(b),
    decreases b.len(),
{
    let all = a.push(sep) + b;
    if b.len() == 0 {
        assert(all =~= a.push(sep));
        assert(all.drop_last() =~= a);
        assert(words(a) + words(b) =~= words(a));
    } else {
        let before = b.drop_last();
        let last = b.last();
        lemma_words_separated(a, sep, before);
        assert(all.drop_last() =~= a.push(sep) + before);
        assert(all.last() == last);
        if !last.space && before.len() > 0 && !before.last().space {
            lemma_words_cover(before);
            let w = words(before);
            assert((words(a) + w).drop_last() =~= words(a) + w.drop_last());
            assert(words(all) =~= words(a) + words(b));
        } else if !last.space {
            assert(!(all.drop_last().len() > 0 && !all.drop_last().last().space));
            assert(words(all) =~= words(a) + words(b));
        }
    }
}

proof fn lemma_units_of_lists(a: Seq<Seq<Glyph>>, b: Seq<Seq<Glyph>>)
    ensures
        units_of_words(a + b) == units_of_words(a) + units_of_words(b),
    decreases b.len(),
{
    if b.len() == 0 {
        assert(a + b =~= a);
        assert(units_of_words(a) + units_of_words(b) =~= units_of_words(a));
    } else {
        assert((a + b).drop_last() =~= a + b.drop_last());
        lemma_units_of_lists(a, b.drop_last());
        assert(units_of_words(a + b) =~= units_of_words(a) + units_of_words(b));
    }
}

/// The units of two texts with white space between them are those of the one and then those of
/// the other.
pub proof fn law_white_space_separates(a: Seq<Glyph>, sep: Glyph, b: Seq<Glyph>)
    requires
        sep.space,
    ensures
        tokens(a.push(sep) + b) == tokens(a) + tokens(b),
{
    lemma_words_separated(a, sep, b);
    lemma_units_of_lists(words(a), words(b));
}

/// The units of two texts with a blank between them are those of the one and then those of the
/// other.
pub proof fn law_blank_separates(a: Seq<char>, b: Seq<char>)
    ensures
        tokens(crate::text::glyphs(a + " "@ + b)) == tokens(crate::text::glyphs(a)) + tokens(
            crate::text::glyphs(b),
        ),
{
    reveal_strlit(" ");
    let sep = crate::text::glyph(' ');
    law_white_space_separates(crate::text::glyphs(a), sep, crate::text::glyphs(b));
    assert(crate::text::glyphs(a + " "@ + b) =~= crate::text::glyphs(a).push(sep)
        + crate::text::glyphs(b));
}

} // verus!
