use qwen3_asr::transcript::{parse_asr_output, trim_repeated_tail};

fn parsed(raw: &str, forced: bool) -> (String, String) {
    parse_asr_output(raw, forced)
}

fn pair(a: &str, b: &str) -> (String, String) {
    (a.to_string(), b.to_string())
}

#[test]
fn parse_forced_language() {
    assert_eq!(parsed("  Hello there. \n", true), pair("forced", "Hello there."));
    assert_eq!(parsed("language English<asr_text>x", true), pair("forced", "language English<asr_text>x"));
}

#[test]
fn parse_tagged_output() {
    assert_eq!(parsed("language English<asr_text>Hello there.", false), pair("English", "Hello there."));
    assert_eq!(parsed(" language  Chinese  <asr_text> 你好 ", false), pair("Chinese", "你好"));
    assert_eq!(parsed("language <asr_text>x", false), pair("", "x"));
}

#[test]
fn parse_untagged_output() {
    assert_eq!(parsed("language English Hello there.", false), pair("English", "Hello there."));
    assert_eq!(parsed("language English, yes", false), pair("English", ", yes"));
    assert_eq!(parsed("language English", false), pair("English", ""));
    assert_eq!(parsed("language 7", false), pair("unknown", "language 7"));
}

#[test]
fn parse_output_without_language() {
    assert_eq!(parsed(" Hello there. ", false), pair("unknown", "Hello there."));
    assert_eq!(parsed("", false), pair("unknown", ""));
    assert_eq!(parsed("language", false), pair("unknown", "language"));
    assert_eq!(parsed("language ", false), pair("unknown", "language"));
}

#[test]
fn repeated_tail_is_trimmed() {
    let mut ids: Vec<i64> = vec![1, 2, 3, 4, 5, 6, 9, 1, 2, 3, 4, 5, 6];
    trim_repeated_tail(&mut ids);
    assert_eq!(ids, vec![1, 2, 3, 4, 5, 6, 9]);
}

#[test]
fn longest_repeated_tail_is_trimmed() {
    let part: Vec<i64> = (0..10).collect();
    let mut ids = part.clone();
    ids.extend_from_slice(&part);
    trim_repeated_tail(&mut ids);
    assert_eq!(ids, part);
}

#[test]
fn short_repetitions_stay() {
    let mut ids: Vec<i64> = vec![1, 2, 3, 4, 5, 1, 2, 3, 4, 5];
    trim_repeated_tail(&mut ids);
    assert_eq!(ids.len(), 10);
    let mut eleven: Vec<i64> = vec![7; 11];
    trim_repeated_tail(&mut eleven);
    assert_eq!(eleven.len(), 11);
    let mut twelve: Vec<i64> = vec![7; 12];
    trim_repeated_tail(&mut twelve);
    assert_eq!(twelve.len(), 6);
    let mut none: Vec<i64> = Vec::new();
    trim_repeated_tail(&mut none);
    assert!(none.is_empty());
}

#[test]
fn trimming_keeps_at_least_half() {
    for n in 0..40usize {
        for m in 1..8i64 {
            let ids: Vec<i64> = (0..n).map(|i| (i as i64 * 7) % m).collect();
            let mut kept = ids.clone();
            trim_repeated_tail(&mut kept);
            assert!(2 * kept.len() >= ids.len());
            assert_eq!(kept[..], ids[..kept.len()]);
        }
    }
}
