//! Characters with their Unicode properties, and the text operations built on them.

use vstd::prelude::*;

verus! {

// ---------------------------------------------------------------------------
// The standard library's character tables
// ---------------------------------------------------------------------------

/// Whether a character has the Unicode property `White_Space`.
pub open spec fn white_space(c: char) -> bool {
    let x = c as u32;
    ||| 0x09 <= x <= 0x0D
    ||| x == 0x20
    ||| x == 0x85
    ||| x == 0xA0
    ||| x == 0x1680
    ||| 0x2000 <= x <= 0x200A
    ||| x == 0x2028
    ||| x == 0x2029
    ||| x == 0x202F
    ||| x == 0x205F
    ||| x == 0x3000
}

pub open spec fn ascii_letter(c: char) -> bool {
    ||| 'a' <= c <= 'z'
    ||| 'A' <= c <= 'Z'
}

pub open spec fn ascii_digit(c: char) -> bool {
    '0' <= c <= '9'
}

/// What `char::is_alphabetic` tells of a character.
pub uninterp spec fn listed_alphabetic(c: char) -> bool;

/// What `char::is_numeric` tells of a character.
pub uninterp spec fn listed_numeric(c: char) -> bool;

/// Whether a character has the Unicode property `Alphabetic`.
pub open spec fn alphabetic(c: char) -> bool {
    if (c as u32) < 0x80 {
        ascii_letter(c)
    } else {
        !white_space(c) && listed_alphabetic(c)
    }
}

/// Whether a character is in one of the Unicode number categories.
pub open spec fn numeric(c: char) -> bool {
    if (c as u32) < 0x80 {
        ascii_digit(c)
    } else {
        !white_space(c) && listed_numeric(c)
    }
}

/// The upper-case mapping of a character, as `char::to_uppercase` gives it.
pub uninterp spec fn upper_case(c: char) -> Seq<char>;

/// `char::is_whitespace` tells the characters with the Unicode property `White_Space`.
pub assume_specification[ char::is_whitespace ](c: char) -> (res: bool)
    ensures
        res == white_space(c),
;

/// `char::is_alphabetic` looks its argument up in a fixed table. Of the ASCII characters it holds
/// the letters, and no white space; the rest of the table is not stated.
pub assume_specification[ char::is_alphabetic ](c: char) -> (res: bool)
    ensures
        res == listed_alphabetic(c),
        (c as u32) < 0x80 ==> res == ascii_letter(c),
        white_space(c) ==> !res,
;

/// `char::is_numeric` looks its argument up in a fixed table. Of the ASCII characters it holds the
/// digits, and no white space; the rest of the table is not stated.
pub assume_specification[ char::is_numeric ](c: char) -> (res: bool)
    ensures
        res == listed_numeric(c),
        (c as u32) < 0x80 ==> res == ascii_digit(c),
        white_space(c) ==> !res,
;

/// `char::to_uppercase` looks its argument up in a fixed table and yields one or more
/// characters, which are collected here. The table itself is not stated.
#[verifier::external_body]
fn to_uppercase(c: char) -> (res: String)
    ensures
        res@ == upper_case(c),
        res@.len() >= 1,
{
    c.to_uppercase().collect::<String>()
}

/// `String::push` appends the character to the end of the string.
pub assume_specification[ String::push ](s: &mut String, c: char)
    ensures
        final(s)@ == old(s)@.push(c),
;

// ---------------------------------------------------------------------------
// Characters
// ---------------------------------------------------------------------------

/// A character together with its Unicode properties.
#[derive(Clone, Copy, Debug, PartialEq, Eq, Structural)]
pub struct Glyph {
    pub ch: char,
    pub space: bool,
    pub alphabetic: bool,
    pub numeric: bool,
}

/// The glyph of a character.
pub open spec fn glyph(c: char) -> Glyph {
    Glyph { ch: c, space: white_space(c), alphabetic: alphabetic(c), numeric: numeric(c) }
}

/// The glyphs of a text.
pub open spec fn glyphs(s: Seq<char>) -> Seq<Glyph> {
    s.map_values(|c: char| glyph(c))
}

/// The text of some glyphs.
pub open spec fn chars(g: Seq<Glyph>) -> Seq<char> {
    g.map_values(|x: Glyph| x.ch)
}

/// The texts of a list of strings.
pub open spec fn texts(list: Seq<String>) -> Seq<Seq<char>> {
    list.map_values(|s: String| s@)
}

/// Looks up the properties of each character.
pub fn to_glyphs(s: &str) -> (res: Vec<Glyph>)
    ensures
        res@ == glyphs(s@),
{
    let mut res: Vec<Glyph> = Vec::new();
    for c in iter: s.chars()
        invariant
            iter.seq() == s@,
            res@ == glyphs(s@.take(iter.index())),
    {
        let ghost before = s@.take(iter.index());
        let g = Glyph {
            ch: c,
            space: c.is_whitespace(),
            alphabetic: c.is_alphabetic(),
            numeric: c.is_numeric(),
        };
        res.push(g);
        assert(g == glyph(c));
        assert(s@.take(iter.index() + 1) =~= before.push(c));
        assert(res@ =~= glyphs(s@.take(iter.index() + 1)));
    }
    assert(s@.take(s@.len() as int) =~= s@);
    res
}

/// Writes some glyphs out as a string.
pub fn to_text(g: &[Glyph]) -> (res: String)
    ensures
        res@ == chars(g@),
{
    let mut res: String = String::new();
    let mut i: usize = 0;
    assert(res@ =~= chars(g@.take(0)));
    while i < g.len()
        invariant
            i <= g.len(),
            res@ == chars(g@.take(i as int)),
        decreases g.len() - i,
    {
        res.push(g[i].ch);
        assert(g@.take(i + 1) =~= g@.take(i as int).push(g@[i as int]));
        assert(res@ =~= chars(g@.take(i + 1)));
        i = i + 1;
    }
    assert(g@.take(g.len() as int) =~= g@);
    res
}

/// What is known of a character: white space is what Unicode lists, and letters and numbers are what
/// the tables of the standard library list, wherever the character is.
pub proof fn law_properties_are_the_listed_ones(c: char)
    ensures
        glyph(c).ch == c,
        glyph(c).space == white_space(c),
        (c as u32) < 0x80 ==> glyph(c).alphabetic == ('a' <= c <= 'z' || 'A' <= c <= 'Z'),
        (c as u32) < 0x80 ==> glyph(c).numeric == ('0' <= c <= '9'),
        (c as u32) >= 0x80 && !white_space(c) ==> glyph(c).alphabetic == listed_alphabetic(c),
        (c as u32) >= 0x80 && !white_space(c) ==> glyph(c).numeric == listed_numeric(c),
        white_space(c) ==> !glyph(c).alphabetic && !glyph(c).numeric,
        alphabetic(c) == glyph(c).alphabetic,
        numeric(c) == glyph(c).numeric,
{
}

/// The glyphs of a text are those of its characters, one by one.
pub proof fn law_glyphs_of_each_character(s: Seq<char>, i: int)
    requires
        0 <= i < s.len(),
    ensures
        glyphs(s).len() == s.len(),
        glyphs(s)[i] == glyph(s[i]),
        chars(glyphs(s))[i] == s[i],
{
}

/// Turning a text into glyphs and back gives the text.
pub proof fn law_glyphs_round_trip(s: Seq<char>)
    ensures
        chars(glyphs(s)) == s,
{
    assert(chars(glyphs(s)) =~= s);
}

// ---------------------------------------------------------------------------
// Trimming and searching
// ---------------------------------------------------------------------------

/// Without leading white space.
pub open spec fn trim_start(g: Seq<Glyph>) -> Seq<Glyph>
    decreases g.len(),
{
    if g.len() > 0 && g[0].space {
        trim_start(g.drop_first())
    } else {
        g
    }
}

/// Without trailing white space.
pub open spec fn trim_end(g: Seq<Glyph>) -> Seq<Glyph>
    decreases g.len(),
{
    if g.len() > 0 && g.last().space {
        trim_end(g.drop_last())
    } else {
        g
    }
}

/// Without white space at either end.
pub open spec fn trimmed(g: Seq<Glyph>) -> Seq<Glyph> {
    trim_end(trim_start(g))
}

/// A copy of a range of glyphs without white space at either end.
pub fn trim(g: &[Glyph]) -> (res: Vec<Glyph>)
    ensures
        res@ == trimmed(g@),
{
    let mut from: usize = 0;
    assert(g@.skip(0) =~= g@);
    while from < g.len() && g[from].space
        invariant
            from <= g.len(),
            trim_start(g@.skip(from as int)) == trim_start(g@),
        decreases g.len() - from,
    {
        assert(g@.skip(from as int).drop_first() =~= g@.skip(from + 1));
        from = from + 1;
    }
    let mut to: usize = g.len();
    assert(g@.subrange(from as int, to as int) =~= trim_start(g@));
    while from < to && g[to - 1].space
        invariant
            from <= to <= g.len(),
            trim_end(g@.subrange(from as int, to as int)) == trimmed(g@),
        decreases to - from,
    {
        assert(g@.subrange(from as int, to as int).drop_last() =~= g@.subrange(
            from as int,
            to - 1,
        ));
        to = to - 1;
    }
    copy_range(g, from, to)
}

/// A copy of a range of glyphs.
pub fn copy_range(g: &[Glyph], from: usize, to: usize) -> (res: Vec<Glyph>)
    requires
        from <= to <= g.len(),
    ensures
        res@ == g@.subrange(from as int, to as int),
{
    let mut res: Vec<Glyph> = Vec::new();
    let mut i: usize = from;
    while i < to
        invariant
            from <= i <= to <= g.len(),
            res@ == g@.subrange(from as int, i as int),
        decreases to - i,
    {
        res.push(g[i]);
        assert(res@ =~= g@.subrange(from as int, i + 1));
        i = i + 1;
    }
    res
}

/// Whether `pattern` stands in `text` from position `at` on.
pub open spec fn stands_at(text: Seq<char>, pattern: Seq<char>, at: int) -> bool {
    &&& 0 <= at
    &&& at + pattern.len() <= text.len()
    &&& text.subrange(at, at + pattern.len()) == pattern
}

/// The first position from `from` on where `pattern` stands, or `-1`.
pub open spec fn find_from(text: Seq<char>, pattern: Seq<char>, from: int) -> int
    decreases text.len() + 1 - from,
{
    if from < 0 || from + pattern.len() > text.len() {
        -1
    } else if stands_at(text, pattern, from) {
        from
    } else {
        find_from(text, pattern, from + 1)
    }
}

/// A search finds the first place, and nothing only where there is none.
pub proof fn lemma_find(text: Seq<char>, pattern: Seq<char>, from: int)
    requires
        from >= 0,
    ensures
        find_from(text, pattern, from) >= 0 ==> stands_at(
            text,
            pattern,
            find_from(text, pattern, from),
        ),
        find_from(text, pattern, from) < 0 ==> forall|at: int|
            from <= at ==> !#[trigger] stands_at(text, pattern, at),
    decreases text.len() + 1 - from,
{
    if from + pattern.len() <= text.len() && !stands_at(text, pattern, from) {
        lemma_find(text, pattern, from + 1);
    }
}

proof fn lemma_trim_start(lead: Seq<Glyph>, rest: Seq<Glyph>)
    requires
        forall|i: int| 0 <= i < lead.len() ==> (#[trigger] lead[i]).space,
        rest.len() > 0 ==> !rest[0].space,
    ensures
        trim_start(lead + rest) == rest,
    decreases lead.len(),
{
    let all = lead + rest;
    if lead.len() == 0 {
        assert(all =~= rest);
    } else {
        let more = lead.drop_first();
        assert forall|i: int| 0 <= i < more.len() implies (#[trigger] more[i]).space by {
            assert(more[i] == lead[i + 1]);
        }
        lemma_trim_start(more, rest);
        assert(all[0] == lead[0] && lead[0].space);
        assert(all.drop_first() =~= more + rest);
    }
}

proof fn lemma_trim_end(rest: Seq<Glyph>, trail: Seq<Glyph>)
    requires
        forall|i: int| 0 <= i < trail.len() ==> (#[trigger] trail[i]).space,
        rest.len() > 0 ==> !rest.last().space,
    ensures
        trim_end(rest + trail) == rest,
    decreases trail.len(),
{
    let all = rest + trail;
    if trail.len() == 0 {
        assert(all =~= rest);
    } else {
        let more = trail.drop_last();
        assert forall|i: int| 0 <= i < more.len() implies (#[trigger] more[i]).space by {
            assert(more[i] == trail[i]);
        }
        lemma_trim_end(rest, more);
        assert(all.last() == trail[trail.len() - 1] && trail[trail.len() - 1].space);
        assert(all.drop_last() =~= rest + more);
    }
}

/// Trimming takes away the white space around a text, all of it and nothing else.
pub proof fn law_trim_takes_white_space_only(
    lead: Seq<Glyph>,
    body: Seq<Glyph>,
    trail: Seq<Glyph>,
)
    requires
        forall|i: int| 0 <= i < lead.len() ==> (#[trigger] lead[i]).space,
        forall|i: int| 0 <= i < trail.len() ==> (#[trigger] trail[i]).space,
        body.len() > 0 ==> !body[0].space && !body.last().space,
    ensures
        trimmed(lead + body + trail) == body,
{
    if body.len() > 0 {
        let rest = body + trail;
        assert(lead + body + trail =~= lead + rest);
        assert(rest[0] == body[0]);
        lemma_trim_start(lead, rest);
        lemma_trim_end(body, trail);
    } else {
        let all = lead + body + trail;
        assert forall|i: int| 0 <= i < all.len() implies (#[trigger] all[i]).space by {
            if i < lead.len() {
                assert(all[i] == lead[i]);
            } else {
                assert(all[i] == trail[i - lead.len()]);
            }
        }
        lemma_trim_start(all, body);
        assert(all + body =~= all);
    }
}

/// Whether a text is white space throughout.
pub open spec fn is_blank(text: Seq<char>) -> bool {
    forall|i: int| 0 <= i < text.len() ==> white_space(#[trigger] text[i])
}

/// Whether a text neither starts nor ends with white space.
pub open spec fn has_no_margin(text: Seq<char>) -> bool {
    text.len() > 0 ==> !white_space(text[0]) && !white_space(text.last())
}

/// What is left of a text once the white space around it is gone.
pub proof fn law_trimmed_text(lead: Seq<char>, body: Seq<char>, trail: Seq<char>)
    requires
        is_blank(lead),
        is_blank(trail),
        has_no_margin(body),
    ensures
        trimmed(glyphs(lead + body + trail)) == glyphs(body),
        chars(trimmed(glyphs(lead + body + trail))) == body,
{
    assert(glyphs(lead + body + trail) =~= glyphs(lead) + glyphs(body) + glyphs(trail));
    assert forall|i: int| 0 <= i < lead.len() implies (#[trigger] glyphs(lead)[i]).space by {
        assert(white_space(lead[i]));
    }
    assert forall|i: int| 0 <= i < trail.len() implies (#[trigger] glyphs(trail)[i]).space by {
        assert(white_space(trail[i]));
    }
    law_trim_takes_white_space_only(glyphs(lead), glyphs(body), glyphs(trail));
    law_glyphs_round_trip(body);
}

/// A search finds a place where the pattern stands, and there is none before it; it finds one
/// wherever there is one.
pub proof fn law_find_gives_the_first_place(text: Seq<char>, pattern: Seq<char>, at: int)
    requires
        0 <= at,
        at + pattern.len() <= text.len(),
        text.subrange(at, at + pattern.len()) == pattern,
        forall|k: int|
            0 <= k < at ==> #[trigger] text.subrange(k, k + pattern.len()) != pattern,
    ensures
        find_from(text, pattern, 0) == at,
{
    lemma_find_from_below(text, pattern, 0, at);
}

proof fn lemma_find_from_below(text: Seq<char>, pattern: Seq<char>, from: int, at: int)
    requires
        0 <= from <= at,
        stands_at(text, pattern, at),
        forall|k: int|
            from <= k < at ==> #[trigger] text.subrange(k, k + pattern.len()) != pattern,
    ensures
        find_from(text, pattern, from) == at,
    decreases at - from,
{
    if from < at {
        assert(text.subrange(from, from + pattern.len()) != pattern);
        lemma_find_from_below(text, pattern, from + 1, at);
    }
}

/// Whether `pattern` stands in the text of `g` from `at` on.
pub fn matches_at(g: &[Glyph], pattern: &[Glyph], at: usize) -> (res: bool)
    requires
        at <= g.len(),
    ensures
        res == stands_at(chars(g@), chars(pattern@), at as int),
{
    if pattern.len() > g.len() - at {
        return false;
    }
    let mut i: usize = 0;
    while i < pattern.len()
        invariant
            i <= pattern.len(),
            at + pattern.len() <= g.len(),
            forall|x: int| 0 <= x < i ==> g@[at + x].ch == #[trigger] pattern@[x].ch,
        decreases pattern.len() - i,
    {
        if g[at + i].ch != pattern[i].ch {
            assert(chars(g@).subrange(at as int, at + pattern.len())[i as int] != chars(
                pattern@,
            )[i as int]);
            return false;
        }
        i = i + 1;
    }
    assert(chars(g@).subrange(at as int, at + pattern.len()) =~= chars(pattern@));
    true
}

/// Finds the first place of `pattern` in the text of `g`.
pub fn find(g: &[Glyph], pattern: &[Glyph]) -> (res: Option<usize>)
    ensures
        match res {
            Some(at) => at == find_from(chars(g@), chars(pattern@), 0),
            None => find_from(chars(g@), chars(pattern@), 0) == -1,
        },
        res matches Some(at) ==> at + pattern.len() <= g.len(),
{
    if pattern.len() > g.len() {
        return None;
    }
    let last: usize = g.len() - pattern.len();
    let mut at: usize = 0;
    while at < last
        invariant
            at <= last,
            last + pattern.len() == g.len(),
            find_from(chars(g@), chars(pattern@), 0) == find_from(
                chars(g@),
                chars(pattern@),
                at as int,
            ),
        decreases last - at,
    {
        if matches_at(g, pattern, at) {
            return Some(at);
        }
        at = at + 1;
    }
    if matches_at(g, pattern, last) {
        Some(last)
    } else {
        assert(find_from(chars(g@), chars(pattern@), last + 1) == -1);
        None
    }
}

// ---------------------------------------------------------------------------
// Writing
// ---------------------------------------------------------------------------

/// The text of a string with its first character in upper case.
pub open spec fn capitalized(s: Seq<char>) -> Seq<char> {
    if s.len() == 0 {
        Seq::empty()
    } else {
        upper_case(s[0]) + s.skip(1)
    }
}

/// `upper` followed by all of `s` but its first character; nothing for an empty `s`.
pub fn with_first_replaced(s: &str, upper: &str) -> (res: String)
    ensures
        res@ == if s@.len() == 0 {
            Seq::empty()
        } else {
            upper@ + s@.skip(1)
        },
{
    let mut res: String = String::new();
    let mut first: bool = true;
    for c in iter: s.chars()
        invariant
            iter.seq() == s@,
            first == (iter.index() == 0),
            first ==> res@ == Seq::<char>::empty(),
            !first ==> res@ == upper@ + s@.subrange(1, iter.index()),
    {
        if first {
            res = upper.to_owned();
            first = false;
            assert(s@.subrange(1, 1) =~= Seq::<char>::empty());
        } else {
            res.push(c);
            assert(s@.subrange(1, iter.index() + 1) =~= s@.subrange(1, iter.index()).push(c));
        }
        assert(res@ =~= upper@ + s@.subrange(1, iter.index() + 1));
    }
    assert(s@.len() > 0 ==> s@.subrange(1, s@.len() as int) =~= s@.skip(1));
    res
}

/// Puts the first character of a string in upper case.
pub fn capitalize_first(s: &str) -> (res: String)
    ensures
        res@ == capitalized(s@),
{
    if s.is_empty() {
        return String::new();
    }
    let first: char = s.get_char(0);
    let upper: String = to_uppercase(first);
    with_first_replaced(s, upper.as_str())
}

/// The decimal digits of a number.
pub open spec fn decimal(n: nat) -> Seq<char>
    decreases n,
{
    if n < 10 {
        seq![digit(n)]
    } else {
        decimal(n / 10).push(digit(n % 10))
    }
}

/// The character of a decimal digit.
pub open spec fn digit(d: nat) -> char {
    (48 + d) as char
}

/// Appends a number in decimal.
pub fn push_decimal(s: &mut String, n: usize)
    ensures
        final(s)@ == old(s)@ + decimal(n as nat),
    decreases n,
{
    let ghost before = s@;
    if n >= 10 {
        push_decimal(s, n / 10);
    }
    let d: u8 = 48 + (n % 10) as u8;
    s.push(d as char);
    assert(s@ =~= before + decimal(n as nat));
}

/// Every place where `from` stands, left to right and without overlap, replaced by `to`.
pub open spec fn replaced(s: Seq<char>, from: Seq<char>, to: Seq<char>) -> Seq<char>
    decreases s.len(),
{
    if s.len() == 0 || from.len() == 0 {
        s
    } else if stands_at(s, from, 0) {
        to + replaced(s.skip(from.len() as int), from, to)
    } else {
        seq![s[0]] + replaced(s.skip(1), from, to)
    }
}

/// The number that some decimal digits stand for.
pub open spec fn number_of(digits: Seq<char>) -> nat
    decreases digits.len(),
{
    if digits.len() == 0 {
        0
    } else {
        number_of(digits.drop_last()) * 10 + (digits.last() as u32 - 48) as nat
    }
}

/// The decimal digits of a number are digits, stand for that number, and start with a zero only
/// where the number is zero.
pub proof fn law_decimal_reads_back(n: nat)
    ensures
        number_of(decimal(n)) == n,
        decimal(n).len() > 0,
        forall|i: int| 0 <= i < decimal(n).len() ==> ascii_digit(#[trigger] decimal(n)[i]),
        decimal(n)[0] == '0' ==> n == 0 && decimal(n).len() == 1,
    decreases n,
{
    if n < 10 {
        let d = seq![digit(n)];
        assert(d.drop_last() =~= Seq::<char>::empty());
        assert(number_of(d.drop_last()) == 0);
        assert(d.last() as u32 == 48 + n);
    } else {
        let before = decimal(n / 10);
        law_decimal_reads_back(n / 10);
        let d = before.push(digit(n % 10));
        assert(d.drop_last() =~= before);
        assert(d.last() as u32 == 48 + n % 10);
        assert(d[0] == before[0]);
        assert forall|i: int| 0 <= i < d.len() implies ascii_digit(#[trigger] d[i]) by {
            if i < before.len() {
                assert(d[i] == before[i]);
            }
        }
    }
}

/// Different numbers have different digits.
pub proof fn law_decimal_tells_numbers_apart(n: nat, m: nat)
    requires
        decimal(n) == decimal(m),
    ensures
        n == m,
{
    law_decimal_reads_back(n);
    law_decimal_reads_back(m);
}

/// Only the first character changes, and it changes to its upper-case mapping.
pub proof fn law_first_letter_is_capitalized(c: char, rest: Seq<char>)
    ensures
        capitalized(seq![c] + rest) == upper_case(c) + rest,
        capitalized(Seq::empty()) == Seq::<char>::empty(),
{
    assert((seq![c] + rest).skip(1) =~= rest);
}

/// Where a text has the pattern first after `before`, that place is replaced and the rest of the
/// text goes on behind it; where it does not have the pattern, it stays as it is.
pub proof fn law_replaced_place_by_place(
    before: Seq<char>,
    from: Seq<char>,
    after: Seq<char>,
    to: Seq<char>,
    other: Seq<char>,
)
    requires
        from.len() > 0,
        forall|k: int|
            0 <= k < before.len() ==> #[trigger] (before + from + after).subrange(
                k,
                k + from.len(),
            ) != from,
        forall|k: int|
            0 <= k && k + from.len() <= other.len() ==> #[trigger] other.subrange(
                k,
                k + from.len(),
            ) != from,
    ensures
        replaced(before + from + after, from, to) == before + to + replaced(after, from, to),
        replaced(other, from, to) == other,
{
    lemma_replaced_after(before, from, after, to);
    lemma_not_replaced(other, from, to);
}

proof fn lemma_replaced_after(before: Seq<char>, from: Seq<char>, after: Seq<char>, to: Seq<char>)
    requires
        from.len() > 0,
        forall|k: int|
            0 <= k < before.len() ==> #[trigger] (before + from + after).subrange(
                k,
                k + from.len(),
            ) != from,
    ensures
        replaced(before + from + after, from, to) == before + to + replaced(after, from, to),
    decreases before.len(),
{
    let s = before + from + after;
    if before.len() == 0 {
        assert(s.subrange(0, from.len() as int) =~= from);
        assert(s.skip(from.len() as int) =~= after);
        assert(before + to + replaced(after, from, to) =~= to + replaced(after, from, to));
    } else {
        let rest = before.drop_first();
        let t = rest + from + after;
        assert(s.skip(1) =~= t);
        assert forall|k: int| 0 <= k < rest.len() implies #[trigger] t.subrange(k, k + from.len())
            != from by {
            assert(s.subrange(k + 1, k + 1 + from.len()) != from);
            assert(t.subrange(k, k + from.len()) =~= s.subrange(k + 1, k + 1 + from.len()));
        }
        assert(s.subrange(0, 0int + from.len()) != from);
        assert(!stands_at(s, from, 0));
        lemma_replaced_after(rest, from, after, to);
        assert(seq![s[0]] + (rest + to + replaced(after, from, to)) =~= before + to + replaced(
            after,
            from,
            to,
        ));
    }
}

proof fn lemma_not_replaced(s: Seq<char>, from: Seq<char>, to: Seq<char>)
    requires
        from.len() > 0,
        forall|k: int|
            0 <= k && k + from.len() <= s.len() ==> #[trigger] s.subrange(k, k + from.len())
                != from,
    ensures
        replaced(s, from, to) == s,
    decreases s.len(),
{
    if s.len() > 0 {
        let rest = s.skip(1);
        assert forall|k: int| 0 <= k && k + from.len() <= rest.len() implies #[trigger] rest.subrange(
            k,
            k + from.len(),
        ) != from by {
            assert(s.subrange(k + 1, k + 1 + from.len()) != from);
            assert(rest.subrange(k, k + from.len()) =~= s.subrange(k + 1, k + 1 + from.len()));
        }
        if from.len() <= s.len() {
            assert(s.subrange(0, 0int + from.len()) != from);
        }
        assert(!stands_at(s, from, 0));
        lemma_not_replaced(rest, from, to);
        assert(seq![s[0]] + rest =~= s);
    }
}

/// The characters of a string.
pub fn to_chars(s: &str) -> (res: Vec<char>)
    ensures
        res@ == s@,
{
    let mut res: Vec<char> = Vec::new();
    for c in iter: s.chars()
        invariant
            iter.seq() == s@,
            res@ == s@.take(iter.index()),
    {
        res.push(c);
        assert(s@.take(iter.index() + 1) =~= s@.take(iter.index()).push(c));
    }
    assert(s@.take(s@.len() as int) =~= s@);
    res
}

/// Replaces every place where `from` stands.
pub fn replace(s: &str, from: &str, to: &str) -> (res: String)
    requires
        from@.len() > 0,
    ensures
        res@ == replaced(s@, from@, to@),
{
    let text: Vec<char> = to_chars(s);
    let pattern: Vec<char> = to_chars(from);
    let mut res: String = String::new();
    let mut at: usize = 0;
    assert(text@.skip(0) =~= text@);
    assert(res@ + replaced(text@, from@, to@) =~= replaced(text@, from@, to@));
    while at < text.len()
        invariant
            at <= text.len(),
            text@ == s@,
            pattern@ == from@,
            from@.len() > 0,
            res@ + replaced(s@.skip(at as int), from@, to@) == replaced(s@, from@, to@),
        decreases text.len() - at,
    {
        let ghost rest = s@.skip(at as int);
        let ghost before = res@;
        let mut same: bool = pattern.len() <= text.len() - at;
        let mut i: usize = 0;
        while same && i < pattern.len()
            invariant
                at < text.len(),
                i <= pattern.len(),
                text@ == s@,
                pattern@ == from@,
                rest == s@.skip(at as int),
                same ==> at + pattern.len() <= text.len(),
                same ==> forall|x: int| 0 <= x < i ==> text@[at + x] == #[trigger] pattern@[x],
                !same ==> !stands_at(rest, from@, 0),
            decreases pattern.len() - i + if same {
                1int
            } else {
                0
            },
        {
            if text[at + i] != pattern[i] {
                same = false;
                assert(rest.subrange(0, from@.len() as int)[i as int] != from@[i as int]);
            } else {
                i = i + 1;
            }
        }
        if same {
            assert(rest.subrange(0, from@.len() as int) =~= from@);
            res.append(to);
            assert(rest.skip(from@.len() as int) =~= s@.skip(at + from@.len()));
            assert(res@ + replaced(s@.skip(at + from@.len()), from@, to@) =~= before + (to@
                + replaced(s@.skip(at + from@.len()), from@, to@)));
            at = at + pattern.len();
        } else {
            let c: char = text[at];
            res.push(c);
            assert(rest.skip(1) =~= s@.skip(at + 1));
            assert(res@ + replaced(s@.skip(at + 1), from@, to@) =~= before + (seq![c] + replaced(
                s@.skip(at + 1),
                from@,
                to@,
            )));
            at = at + 1;
        }
    }
    assert(s@.skip(at as int) =~= Seq::<char>::empty());
    assert(res@ + Seq::<char>::empty() =~= res@);
    res
}

} // verus!
