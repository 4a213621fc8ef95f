//! From generated tokens to a transcript: trimming of repetitions and parsing of the output text.

use crate::text::{copy_range, find, matches_at, to_glyphs, to_text, trim, Glyph};
use vstd::prelude::*;

verus! {

// ---------------------------------------------------------------------------
// Repetitions
// ---------------------------------------------------------------------------

/// The shortest repeated tail that is trimmed.
pub const MIN_REPEAT: usize = 6;

/// Whether the last `len` items occur at `start` too.
pub open spec fn tail_at(ids: Seq<i64>, len: int, start: int) -> bool {
    ids.subrange(start, start + len) == ids.skip(ids.len() - len)
}

/// Whether the last `len` items occur earlier, without overlap.
pub open spec fn tail_repeats(ids: Seq<i64>, len: int) -> bool {
    exists|start: int|
        0 <= start && start + len + len <= ids.len() && #[trigger] tail_at(ids, len, start)
}

/// The largest of the lengths from [`MIN_REPEAT`] to `len` for which the tail repeats, or zero.
pub open spec fn longest_repeat(ids: Seq<i64>, len: int) -> int
    decreases len,
{
    if len < 6 {
        0
    } else if tail_repeats(ids, len) {
        len
    } else {
        longest_repeat(ids, len - 1)
    }
}

/// The items without the longest repeated tail.
pub open spec fn without_repeated_tail(ids: Seq<i64>) -> Seq<i64> {
    ids.take(ids.len() - longest_repeat(ids, ids.len() as int / 2))
}

fn same_tail(ids: &Vec<i64>, len: usize, start: usize) -> (res: bool)
    requires
        start + len + len <= ids.len(),
    ensures
        res == tail_at(ids@, len as int, start as int),
{
    let base: usize = ids.len() - len;
    let mut i: usize = 0;
    while i < len
        invariant
            i <= len,
            start + len + len <= ids.len(),
            base == ids.len() - len,
            forall|x: int|
                0 <= x < i ==> #[trigger] ids@.subrange(start as int, start + len)[x] == ids@.skip(
                    base as int,
                )[x],
        decreases len - i,
    {
        if ids[start + i] != ids[base + i] {
            assert(ids@.subrange(start as int, start + len)[i as int] != ids@.skip(
                base as int,
            )[i as int]);
            return false;
        }
        i = i + 1;
    }
    assert(ids@.subrange(start as int, start + len) =~= ids@.skip(base as int));
    true
}

/// Detects and trims a long repeated subsequence at the end of `ids`.
///
/// If the last items, at least [`MIN_REPEAT`] of them, appear earlier in the sequence without
/// overlap, the longest such tail is removed.
pub fn trim_repeated_tail(ids: &mut Vec<i64>)
    ensures
        final(ids)@ == without_repeated_tail(old(ids)@),
        final(ids).len() <= old(ids).len() <= 2 * final(ids).len(),
        final(ids)@ == old(ids)@.take(final(ids).len() as int),
{
    proof {
        law_trim_keeps_prefix(ids@);
    }
    let n: usize = ids.len();
    let ghost all = ids@;
    let mut len: usize = n / 2;
    while len >= MIN_REPEAT
        invariant
            n == ids.len(),
            ids@ == all,
            all == old(ids)@,
            len + len <= n,
            longest_repeat(all, all.len() as int / 2) == longest_repeat(all, len as int),
        decreases len,
    {
        let mut start: usize = 0;
        let last: usize = n - len - len;
        let mut more: bool = true;
        while more
            invariant
                n == ids.len(),
                ids@ == all,
                all == old(ids)@,
                len + len <= n,
                len >= 6,
                last == n - len - len,
                start <= last,
                longest_repeat(all, all.len() as int / 2) == longest_repeat(all, len as int),
                forall|x: int|
                    0 <= x < start ==> !#[trigger] tail_at(all, len as int, x),
                !more ==> !tail_repeats(all, len as int),
            decreases
                if more {
                    last - start + 1
                } else {
                    0
                },
        {
            if same_tail(ids, len, start) {
                ids.truncate(n - len);
                assert(tail_repeats(all, len as int));
                assert(ids@ =~= all.take(n - len));
                return;
            }
            if start == last {
                more = false;
                assert forall|x: int| 0 <= x && x + len + len <= all.len() implies !#[trigger] tail_at(
                    all,
                    len as int,
                    x,
                ) by {}
            } else {
                start = start + 1;
            }
        }
        len = len - 1;
    }
    assert(all.take(n as int) =~= all);
}

/// Trimming only ever shortens, leaves short sequences alone, and never removes more than half.
pub proof fn law_trim_keeps_prefix(ids: Seq<i64>)
    ensures
        ({
            let kept = without_repeated_tail(ids);
            &&& kept.len() <= ids.len() <= 2 * kept.len()
            &&& kept == ids.take(kept.len() as int)
            &&& ids.len() < 12 ==> kept == ids
            &&& kept.len() < ids.len() ==> ids.len() - kept.len() >= 6 && tail_repeats(
                ids,
                ids.len() - kept.len(),
            )
        }),
{
    lemma_longest_repeat(ids, ids.len() as int / 2);
    assert(ids.take(ids.len() as int) =~= ids);
}

/// What is left has no repetition of a longer tail than the one that was removed.
pub proof fn law_trim_is_longest(ids: Seq<i64>, len: int)
    requires
        6 <= len <= ids.len() as int / 2,
        tail_repeats(ids, len),
    ensures
        ids.len() - without_repeated_tail(ids).len() >= len,
{
    lemma_longest_repeat(ids, ids.len() as int / 2);
}

/// A tail of six or more items that stands before it too, without overlap, is removed, wherever it
/// stands and whatever is around it: no more is left than what comes before the tail.
pub proof fn law_repeated_tail_is_removed(a: Seq<i64>, t: Seq<i64>, b: Seq<i64>)
    requires
        t.len() >= 6,
    ensures
        ({
            let kept = without_repeated_tail(a + t + b + t);
            &&& kept.len() <= (a + t + b).len()
            &&& kept == (a + t + b).take(kept.len() as int)
        }),
{
    let ids = a + t + b + t;
    let len = t.len() as int;
    let start = a.len() as int;
    assert(ids.subrange(start, start + len) =~= t);
    assert(ids.skip(ids.len() - len) =~= t);
    assert(tail_at(ids, len, start));
    assert(tail_repeats(ids, len));
    lemma_longest_repeat(ids, ids.len() as int / 2);
    let kept = without_repeated_tail(ids);
    assert(kept =~= (a + t + b).take(kept.len() as int));
}

/// Nothing else is removed: what is left is the beginning of the items, and what was removed, if
/// anything, is six or more items that stand in what is left.
pub proof fn law_only_a_repetition_is_removed(ids: Seq<i64>)
    ensures
        ({
            let kept = without_repeated_tail(ids);
            let tail = ids.skip(kept.len() as int);
            &&& kept.len() <= ids.len()
            &&& kept + tail == ids
            &&& kept.len() < ids.len() ==> tail.len() >= 6 && exists|a: Seq<i64>, b: Seq<i64>|
                kept == #[trigger] (a + tail + b)
        }),
{
    law_trim_keeps_prefix(ids);
    let kept = without_repeated_tail(ids);
    let tail = ids.skip(kept.len() as int);
    let len = ids.len() - kept.len();
    assert(kept + tail =~= ids);
    if len > 0 {
        let start = choose|start: int|
            0 <= start && start + len + len <= ids.len() && #[trigger] tail_at(ids, len, start);
        let a = ids.take(start);
        let b = ids.subrange(start + len, kept.len() as int);
        assert(ids.subrange(start, start + len) == tail);
        assert(kept =~= a + ids.subrange(start, start + len) + b);
    }
}

proof fn lemma_longest_repeat(ids: Seq<i64>, len: int)
    ensures
        ({
            let r = longest_repeat(ids, len);
            &&& r == 0 || (6 <= r <= len && tail_repeats(ids, r))
            &&& forall|x: int| 6 <= x <= len && #[trigger] tail_repeats(ids, x) ==> x <= r
        }),
    decreases len,
{
    if len >= 6 && !tail_repeats(ids, len) {
        lemma_longest_repeat(ids, len - 1);
    }
}

// ---------------------------------------------------------------------------
// Output text
// ---------------------------------------------------------------------------

/// The number of leading letters.
pub open spec fn leading_letters(g: Seq<Glyph>) -> nat
    decreases g.len(),
{
    if g.len() == 0 || g[0].space || !g[0].alphabetic {
        0
    } else {
        1 + leading_letters(g.drop_first())
    }
}

/// Language and transcript in the output of the model.
///
/// With a forced language the output is the transcript. Otherwise it may start with the word
/// `language` and the name of the language, which `<asr_text>` ends, or the first character that
/// is no letter.
pub open spec fn parsed(raw: Seq<Glyph>, language_forced: bool) -> (Seq<char>, Seq<char>) {
    let t = crate::text::trimmed(raw);
    let tag = "<asr_text>"@;
    let lead = "language "@;
    let rest = t.skip(lead.len() as int);
    let at = crate::text::find_from(crate::text::chars(rest), tag, 0);
    let n = leading_letters(rest) as int;
    if language_forced {
        ("forced"@, crate::text::chars(t))
    } else if !crate::text::stands_at(crate::text::chars(t), lead, 0) {
        ("unknown"@, crate::text::chars(t))
    } else if at >= 0 {
        (
            crate::text::chars(crate::text::trimmed(rest.take(at))),
            crate::text::chars(crate::text::trimmed(rest.skip(at + tag.len()))),
        )
    } else if n > 0 {
        (
            crate::text::chars(rest.take(n)),
            crate::text::chars(crate::text::trimmed(rest.skip(n))),
        )
    } else {
        ("unknown"@, crate::text::chars(t))
    }
}

// ---------------------------------------------------------------------------
// What outputs are read as
// ---------------------------------------------------------------------------

/// Whether a text holds the tag that ends the name of the language.
pub open spec fn has_tag(text: Seq<char>) -> bool {
    exists|a: Seq<char>, b: Seq<char>| text == #[trigger] (a + "<asr_text>"@ + b)
}

proof fn lemma_literals()
    ensures
        "language "@.len() == 9,
        "language "@[0] == 'l',
        "language "@[8] == ' ',
        "<asr_text>"@.len() == 10,
        "<asr_text>"@[0] == '<',
        "<asr_text>"@[9] == '>',
        forall|j: int| 1 <= j < 10 ==> "<asr_text>"@[j] != '<',
{
    reveal_strlit("language ");
    reveal_strlit("<asr_text>");
}

/// White space around an output makes no difference.
proof fn lemma_parsed_trimmed(
    lead: Seq<char>,
    body: Seq<char>,
    trail: Seq<char>,
    language_forced: bool,
)
    requires
        crate::text::is_blank(lead),
        crate::text::is_blank(trail),
        crate::text::has_no_margin(body),
    ensures
        crate::text::trimmed(crate::text::glyphs(body)) == crate::text::glyphs(body),
        parsed(crate::text::glyphs(lead + body + trail), language_forced) == parsed(
            crate::text::glyphs(body),
            language_forced,
        ),
{
    let none = Seq::<char>::empty();
    crate::text::law_trimmed_text(lead, body, trail);
    crate::text::law_trimmed_text(none, body, none);
    assert(none + body + none =~= body);
}

/// A search for the tag in a text without it finds nothing.
proof fn lemma_no_tag_found(text: Seq<char>)
    requires
        !has_tag(text),
    ensures
        crate::text::find_from(text, "<asr_text>"@, 0) < 0,
{
    let tag = "<asr_text>"@;
    lemma_literals();
    crate::text::lemma_find(text, tag, 0);
    let at = crate::text::find_from(text, tag, 0);
    if at >= 0 {
        let a = text.take(at);
        let b = text.skip(at + tag.len());
        assert(text =~= a + text.subrange(at, at + tag.len()) + b);
        assert(text == a + tag + b);
    }
}

/// A search for the tag behind a text without it finds the one that follows.
proof fn lemma_tag_found(name: Seq<char>, rest: Seq<char>)
    requires
        !has_tag(name),
    ensures
        crate::text::find_from(name + "<asr_text>"@ + rest, "<asr_text>"@, 0) == name.len(),
{
    let tag = "<asr_text>"@;
    lemma_literals();
    let all = name + tag + rest;
    let at = name.len() as int;
    assert(all.subrange(at, at + tag.len()) =~= tag);
    assert forall|k: int| 0 <= k < at implies #[trigger] all.subrange(k, k + tag.len()) != tag by {
        let part = all.subrange(k, k + tag.len());
        if k + tag.len() <= name.len() {
            if part == tag {
                let a = name.take(k);
                let b = name.skip(k + tag.len());
                assert(name =~= a + part + b);
                assert(name == a + tag + b);
            }
        } else {
            let j = at - k;
            assert(part[j] == all[at] && all[at] == tag[0]);
        }
    }
    crate::text::law_find_gives_the_first_place(all, tag, at);
}

proof fn lemma_leading_letters(name: Seq<char>, rest: Seq<char>)
    requires
        forall|i: int| 0 <= i < name.len() ==> crate::text::alphabetic(#[trigger] name[i]),
        rest.len() > 0 ==> !crate::text::alphabetic(rest[0]),
    ensures
        leading_letters(crate::text::glyphs(name + rest)) == name.len(),
    decreases name.len(),
{
    let g = crate::text::glyphs(name + rest);
    if name.len() > 0 {
        let more = name.drop_first();
        assert forall|i: int| 0 <= i < more.len() implies crate::text::alphabetic(
            #[trigger] more[i],
        ) by {
            assert(more[i] == name[i + 1]);
        }
        lemma_leading_letters(more, rest);
        assert(crate::text::alphabetic(name[0]));
        assert(g[0] == crate::text::glyph(name[0]));
        assert(g.drop_first() =~= crate::text::glyphs(more + rest));
    } else if rest.len() > 0 {
        assert(g[0] == crate::text::glyph(rest[0]));
    }
}

/// With a forced language all of the output, but for white space around it, is the transcript.
pub proof fn law_forced_output(lead: Seq<char>, body: Seq<char>, trail: Seq<char>)
    requires
        crate::text::is_blank(lead),
        crate::text::is_blank(trail),
        crate::text::has_no_margin(body),
    ensures
        parsed(crate::text::glyphs(lead + body + trail), true) == ("forced"@, body),
{
    crate::text::law_trimmed_text(lead, body, trail);
}

/// An output that does not start with `language ` is the transcript, of an unknown language.
pub proof fn law_output_without_language(lead: Seq<char>, body: Seq<char>, trail: Seq<char>)
    requires
        crate::text::is_blank(lead),
        crate::text::is_blank(trail),
        crate::text::has_no_margin(body),
        body.take("language "@.len() as int) != "language "@ || body.len() < "language "@.len(),
    ensures
        parsed(crate::text::glyphs(lead + body + trail), false) == ("unknown"@, body),
{
    lemma_parsed_trimmed(lead, body, trail, false);
    crate::text::law_glyphs_round_trip(body);
    let n = "language "@.len() as int;
    if body.len() >= n {
        assert(body.take(n) =~= body.subrange(0, n));
    }
}

/// An output with the tag names the language before the tag and holds the transcript behind it,
/// each without the white space around it. The first tag counts.
pub proof fn law_tagged_output(
    lead: Seq<char>,
    gap1: Seq<char>,
    name: Seq<char>,
    gap2: Seq<char>,
    gap3: Seq<char>,
    text: Seq<char>,
    trail: Seq<char>,
)
    requires
        crate::text::is_blank(lead),
        crate::text::is_blank(gap1),
        crate::text::is_blank(gap2),
        crate::text::is_blank(gap3),
        crate::text::is_blank(trail),
        crate::text::has_no_margin(name),
        crate::text::has_no_margin(text),
        !has_tag(gap1 + name + gap2),
    ensures
        parsed(
            crate::text::glyphs(
                lead + "language "@ + gap1 + name + gap2 + "<asr_text>"@ + gap3 + text + trail,
            ),
            false,
        ) == (name, text),
{
    lemma_literals();
    let start = "language "@;
    let tag = "<asr_text>"@;
    let none = Seq::<char>::empty();
    let before = gap1 + name + gap2;
    let raw = lead + start + gap1 + name + gap2 + tag + gap3 + text + trail;
    let behind = if text.len() > 0 {
        gap3 + text
    } else {
        none
    };
    let last = if text.len() > 0 {
        trail
    } else {
        gap3 + trail
    };
    let body = start + (before + tag + behind);
    assert(raw =~= lead + body + last);
    assert forall|i: int| 0 <= i < last.len() implies crate::text::white_space(
        #[trigger] last[i],
    ) by {
        if text.len() == 0 {
            if i < gap3.len() {
                assert(last[i] == gap3[i]);
            } else {
                assert(last[i] == trail[i - gap3.len()]);
            }
        }
    }
    assert(crate::text::has_no_margin(body)) by {
        assert(body[0] == start[0]);
        if text.len() > 0 {
            assert(body.last() == text.last());
        } else {
            assert(body.last() == tag[9]);
        }
    }
    lemma_parsed_trimmed(lead, body, last, false);
    let t = crate::text::glyphs(body);
    crate::text::law_glyphs_round_trip(body);
    assert(body.subrange(0, 9) =~= start);
    let rest = t.skip(9);
    let rest_text = before + tag + behind;
    assert(rest =~= crate::text::glyphs(rest_text));
    crate::text::law_glyphs_round_trip(rest_text);
    lemma_tag_found(before, behind);
    let at = before.len() as int;
    assert(rest.take(at) =~= crate::text::glyphs(before));
    assert(rest.skip(at + tag.len()) =~= crate::text::glyphs(behind));
    crate::text::law_trimmed_text(gap1, name, gap2);
    if text.len() > 0 {
        crate::text::law_trimmed_text(gap3, text, none);
        assert(gap3 + text + none =~= behind);
    } else {
        crate::text::law_trimmed_text(none, none, none);
        assert(none + none + none =~= behind);
        assert(text =~= none);
    }
}

/// An output that starts with `language ` and a name, without the tag, names the language by its
/// letters up to the first other character; what follows, without the white space around it, is the
/// transcript.
pub proof fn law_untagged_output(
    lead: Seq<char>,
    name: Seq<char>,
    gap: Seq<char>,
    text: Seq<char>,
    trail: Seq<char>,
)
    requires
        crate::text::is_blank(lead),
        crate::text::is_blank(gap),
        crate::text::is_blank(trail),
        crate::text::has_no_margin(text),
        name.len() > 0,
        forall|i: int| 0 <= i < name.len() ==> crate::text::alphabetic(#[trigger] name[i]),
        (gap + text).len() > 0 ==> !crate::text::alphabetic((gap + text)[0]),
        !has_tag(name + gap + text),
    ensures
        parsed(
            crate::text::glyphs(lead + "language "@ + name + gap + text + trail),
            false,
        ) == (name, text),
{
    lemma_literals();
    let start = "language "@;
    let none = Seq::<char>::empty();
    let raw = lead + start + name + gap + text + trail;
    let behind = if text.len() > 0 {
        gap + text
    } else {
        none
    };
    let last = if text.len() > 0 {
        trail
    } else {
        gap + trail
    };
    let rest_text = name + behind;
    let body = start + rest_text;
    assert(raw =~= lead + body + last);
    assert forall|i: int| 0 <= i < last.len() implies crate::text::white_space(
        #[trigger] last[i],
    ) by {
        if text.len() == 0 {
            if i < gap.len() {
                assert(last[i] == gap[i]);
            } else {
                assert(last[i] == trail[i - gap.len()]);
            }
        }
    }
    assert(crate::text::has_no_margin(body)) by {
        assert(body[0] == start[0]);
        if text.len() > 0 {
            assert(body.last() == text.last());
        } else {
            assert(body.last() == name[name.len() - 1]);
            assert(crate::text::alphabetic(name[name.len() - 1]));
        }
    }
    lemma_parsed_trimmed(lead, body, last, false);
    let t = crate::text::glyphs(body);
    crate::text::law_glyphs_round_trip(body);
    assert(body.subrange(0, 9) =~= start);
    let rest = t.skip(9);
    assert(rest =~= crate::text::glyphs(rest_text));
    crate::text::law_glyphs_round_trip(rest_text);
    assert(!has_tag(rest_text)) by {
        if has_tag(rest_text) {
            let (a, b) = choose|a: Seq<char>, b: Seq<char>|
                rest_text == #[trigger] (a + "<asr_text>"@ + b);
            if text.len() > 0 {
                assert(rest_text =~= name + gap + text);
                assert(name + gap + text == a + "<asr_text>"@ + b);
            } else {
                assert(rest_text + gap + text =~= name + gap + text);
                assert(a + "<asr_text>"@ + (b + gap + text) =~= rest_text + gap + text);
                assert(name + gap + text == a + "<asr_text>"@ + (b + gap + text));
            }
        }
    }
    lemma_no_tag_found(rest_text);
    lemma_leading_letters(name, behind);
    let n = name.len() as int;
    assert(rest.take(n) =~= crate::text::glyphs(name));
    crate::text::law_glyphs_round_trip(name);
    assert(rest.skip(n) =~= crate::text::glyphs(behind));
    if text.len() > 0 {
        crate::text::law_trimmed_text(gap, text, none);
        assert(gap + text + none =~= behind);
    } else {
        crate::text::law_trimmed_text(none, none, none);
        assert(none + none + none =~= behind);
        assert(text =~= none);
    }
}

/// An output that starts with `language `, but with no letter behind it and without the tag, is the
/// transcript, of an unknown language.
pub proof fn law_language_without_name(lead: Seq<char>, rest: Seq<char>, trail: Seq<char>)
    requires
        crate::text::is_blank(lead),
        crate::text::is_blank(trail),
        crate::text::has_no_margin("language "@ + rest),
        rest.len() > 0,
        !crate::text::alphabetic(rest[0]),
        !has_tag(rest),
    ensures
        parsed(crate::text::glyphs(lead + ("language "@ + rest) + trail), false) == (
            "unknown"@,
            "language "@ + rest,
        ),
{
    lemma_literals();
    let start = "language "@;
    let none = Seq::<char>::empty();
    let body = start + rest;
    lemma_parsed_trimmed(lead, body, trail, false);
    let t = crate::text::glyphs(body);
    crate::text::law_glyphs_round_trip(body);
    assert(body.subrange(0, 9) =~= start);
    assert(t.skip(9) =~= crate::text::glyphs(rest));
    crate::text::law_glyphs_round_trip(rest);
    lemma_no_tag_found(rest);
    lemma_leading_letters(none, rest);
    assert(none + rest =~= rest);
}

fn count_letters(g: &[Glyph]) -> (res: usize)
    ensures
        res == leading_letters(g@),
        res <= g.len(),
{
    let mut i: usize = 0;
    assert(g@.skip(0) =~= g@);
    while i < g.len() && !g[i].space && g[i].alphabetic
        invariant
            i <= g.len(),
            leading_letters(g@) == i + leading_letters(g@.skip(i as int)),
        decreases g.len() - i,
    {
        assert(g@.skip(i as int).drop_first() =~= g@.skip(i + 1));
        i = i + 1;
    }
    i
}

/// Parses an output whose characters have been looked up.
pub fn parse_glyphs(raw: &[Glyph], language_forced: bool) -> (res: (String, String))
    ensures
        (res.0@, res.1@) == parsed(raw@, language_forced),
{
    let t: Vec<Glyph> = trim(raw);
    if language_forced {
        return ("forced".to_owned(), to_text(&t));
    }
    let lead: Vec<Glyph> = to_glyphs("language ");
    let tag: Vec<Glyph> = to_glyphs("<asr_text>");
    proof {
        crate::text::law_glyphs_round_trip("language "@);
        crate::text::law_glyphs_round_trip("<asr_text>"@);
    }
    if matches_at(&t, &lead, 0) {
        let rest: Vec<Glyph> = copy_range(&t, lead.len(), t.len());
        assert(rest@ =~= t@.skip(lead.len() as int));
        if let Some(at) = find(&rest, &tag) {
            let name: Vec<Glyph> = copy_range(&rest, 0, at);
            let body: Vec<Glyph> = copy_range(&rest, at + tag.len(), rest.len());
            assert(name@ =~= rest@.take(at as int));
            assert(body@ =~= rest@.skip(at + tag.len()));
            return (to_text(&trim(&name)), to_text(&trim(&body)));
        }
        let n: usize = count_letters(&rest);
        if n > 0 {
            let name: Vec<Glyph> = copy_range(&rest, 0, n);
            let body: Vec<Glyph> = copy_range(&rest, n, rest.len());
            assert(name@ =~= rest@.take(n as int));
            assert(body@ =~= rest@.skip(n as int));
            return (to_text(&name), to_text(&trim(&body)));
        }
    }
    ("unknown".to_owned(), to_text(&t))
}

/// Parses the output of the model into language and transcript.
pub fn parse_asr_output(raw: &str, language_forced: bool) -> (res: (String, String))
    ensures
        (res.0@, res.1@) == parsed(crate::text::glyphs(raw@), language_forced),
{
    let g: Vec<Glyph> = to_glyphs(raw);
    parse_glyphs(&g, language_forced)
}

} // verus!
