use qwen3_asr::align::{encode_timestamp, start_alignment, AlignStart};
use qwen3_asr::text::{capitalize_first, replace, to_glyphs, to_text};
use qwen3_asr::tokenize::{
    clean_token, is_cjk_char, is_cjk_unit_char, is_kept_char, split_segment_with_chinese,
    tokenize_space_lang, write_aligner_text,
};

#[test]
fn tokenize_english() {
    let (words, _) = encode_timestamp("Hello world Python test", "English").unwrap();
    assert_eq!(words, vec!["Hello", "world", "Python", "test"]);
}

#[test]
fn tokenize_english_keeps_punct_and_apostrophe() {
    let (words, _) = encode_timestamp("It's day five, growing.", "English").unwrap();
    assert_eq!(words, vec!["It's", "day", "five,", "growing."]);
}

#[test]
fn tokenize_chinese() {
    let (words, _) = encode_timestamp("甚至出现交易几乎停滞的情况。", "Chinese").unwrap();
    assert_eq!(
        words,
        vec!["甚", "至", "出", "现", "交", "易", "几", "乎", "停", "滞", "的", "情", "况", "。"]
    );
}

#[test]
fn tokenize_mixed_segments() {
    assert_eq!(tokenize_space_lang("用Rust写 code。"), vec!["用", "Rust", "写", "code", "。"]);
    assert_eq!(split_segment_with_chinese("abc你def"), vec!["abc", "你", "def"]);
    assert_eq!(split_segment_with_chinese("你好"), vec!["你", "好"]);
    assert!(split_segment_with_chinese("").is_empty());
}

#[test]
fn tokenize_splits_at_all_white_space() {
    assert_eq!(tokenize_space_lang("  a\tb\n\u{3000}c  "), vec!["a", "b", "c"]);
    assert!(tokenize_space_lang(" \t\n ").is_empty());
}

#[test]
fn tokenize_drops_other_symbols() {
    assert_eq!(clean_token("a^b$c"), "abc");
    assert_eq!(clean_token("{|}"), "");
    assert_eq!(clean_token("*a#b@c"), "*a#b@c");
    assert_eq!(tokenize_space_lang("^^^ x$ <y>"), vec!["x", "y"]);
}

#[test]
fn kept_characters() {
    assert!(is_kept_char('a'));
    assert!(is_kept_char('é'));
    assert!(is_kept_char('7'));
    assert!(is_kept_char('½'));
    assert!(is_kept_char('\''));
    assert!(is_kept_char('…'));
    assert!(is_kept_char('。'));
    assert!(is_kept_char('*'));
    assert!(is_kept_char('@'));
    assert!(!is_kept_char(' '));
    assert!(!is_kept_char('$'));
    assert!(!is_kept_char('^'));
}

#[test]
fn cjk_characters() {
    assert!(is_cjk_char('一'));
    assert!(is_cjk_char('\u{9fff}'));
    assert!(!is_cjk_char('a'));
    assert!(is_cjk_unit_char('一'));
    assert!(is_cjk_unit_char('。'));
    assert!(!is_cjk_unit_char('.'));
}

#[test]
fn aligner_text_marks_each_unit() {
    let (_, text) = encode_timestamp("Hello world", "English").unwrap();
    assert_eq!(
        text,
        "<|audio_start|><|audio_pad|><|audio_end|>Hello<timestamp><timestamp>world<timestamp><timestamp>"
    );
    let none: Vec<String> = Vec::new();
    assert_eq!(
        write_aligner_text(&none),
        "<|audio_start|><|audio_pad|><|audio_end|>"
    );
}

#[test]
fn units_cover_the_kept_text() {
    let text = "It's 5 o'clock 在北京 ^now^!";
    let kept: String = text.chars().filter(|c| is_kept_char(*c)).collect();
    assert_eq!(tokenize_space_lang(text).concat(), kept);
}

#[test]
fn alignment_without_units_is_done() {
    match start_alignment(" ^^^ ", "English").unwrap() {
        AlignStart::Done(r) => assert!(r.items.is_empty()),
        AlignStart::Units(_) => panic!("nothing to align"),
    }
    match start_alignment("one two", "English").unwrap() {
        AlignStart::Done(_) => panic!("two units to align"),
        AlignStart::Units(u) => assert_eq!(u, vec!["one", "two"]),
    }
}

#[test]
fn first_letter_is_capitalized() {
    assert_eq!(capitalize_first("english"), "English");
    assert_eq!(capitalize_first("élan"), "Élan");
    assert_eq!(capitalize_first("ßa"), "SSa");
    assert_eq!(capitalize_first(""), "");
    assert_eq!(capitalize_first("中文"), "中文");
}

#[test]
fn glyphs_give_back_their_text() {
    let text = "a 7 中 .";
    let g = to_glyphs(text);
    assert_eq!(to_text(&g), text);
    assert!(g[0].alphabetic && !g[0].numeric && !g[0].space);
    assert!(g[1].space && !g[1].alphabetic);
    assert!(g[2].numeric && !g[2].alphabetic);
    assert!(g[4].alphabetic);
    assert!(!g[6].alphabetic && !g[6].numeric && !g[6].space);
}

#[test]
fn replacement_takes_every_occurrence() {
    assert_eq!(replace("thinker.model", ".model", ".lm_head"), "thinker.lm_head");
    assert_eq!(replace("a.model.model", ".model", "-"), "a--");
    assert_eq!(replace("abc", "x", "y"), "abc");
}

#[test]
fn blank_separates_units() {
    for (a, b) in [("one two", "three"), ("", "x"), ("x ", " "), ("你好", "world。")] {
        let both = format!("{} {}", a, b);
        let mut apart = tokenize_space_lang(a);
        apart.extend(tokenize_space_lang(b));
        assert_eq!(tokenize_space_lang(&both), apart);
    }
}

#[test]
fn white_space_is_what_unicode_lists() {
    let listed: Vec<u32> = (0x09..=0x0D)
        .chain([0x20, 0x85, 0xA0, 0x1680])
        .chain(0x2000..=0x200A)
        .chain([0x2028, 0x2029, 0x202F, 0x205F, 0x3000])
        .collect();
    for c in '\0'..=char::MAX {
        let g = to_glyphs(&c.to_string())[0];
        assert_eq!(g.space, listed.contains(&(c as u32)), "{:?}", c);
        assert!(!g.space || !is_kept_char(c), "{:?}", c);
        if c.is_ascii() {
            assert_eq!(g.alphabetic, c.is_ascii_alphabetic());
            assert_eq!(g.numeric, c.is_ascii_digit());
        }
    }
}

#[test]
fn neighbouring_units_are_not_both_words() {
    let units = split_segment_with_chinese("ab你cd。。ef好");
    assert_eq!(units, vec!["ab", "你", "cd", "。", "。", "ef", "好"]);
    for w in units.windows(2) {
        assert!(w.iter().any(|u| is_cjk_unit_char(u.chars().next().unwrap())));
    }
}
