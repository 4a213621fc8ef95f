use qwen3_asr::chunking::{call_for, chunk_range, num_chunks, StreamCall};
use qwen3_asr::command::{parse_command, text_source, trim_transcript, Command, TextSource};
use qwen3_asr::stream::{default_stream, init_mlx, MlxDeviceType, MlxStream, StreamSlot};

#[test]
fn chunks_tile_the_audio() {
    for total in [0usize, 1, 9, 10, 11, 30, 37] {
        let n = num_chunks(total, 10);
        let mut at = 0;
        for i in 0..n {
            let (start, end) = chunk_range(i, total, 10);
            assert_eq!(start, at);
            assert!(end > start);
            at = end;
        }
        assert_eq!(at, total);
    }
    assert_eq!(num_chunks(37, 10), 4);
    assert_eq!(chunk_range(3, 37, 10), (30, 37));
}

#[test]
fn calls_follow_the_audio() {
    assert_eq!(call_for(0, 3, 15_999, false), StreamCall::Wait);
    assert_eq!(call_for(2, 3, 15_999, true), StreamCall::Wait);
    assert_eq!(call_for(0, 3, 16_000, false), StreamCall::Full);
    assert_eq!(call_for(0, 3, 16_000, true), StreamCall::Partial);
    assert_eq!(call_for(2, 3, 16_000, true), StreamCall::Full);
}

fn args(list: &[&str]) -> Vec<String> {
    list.iter().map(|s| s.to_string()).collect()
}

#[test]
fn commands() {
    assert!(matches!(parse_command(&args(&["asr"])), Command::Usage));
    assert!(matches!(parse_command(&args(&["asr", "model"])), Command::Usage));
    assert!(matches!(parse_command(&args(&["asr", "align", "m", "a", "t"])), Command::Usage));
    match parse_command(&args(&["asr", "m", "a"])) {
        Command::Transcribe { model, audio, forced_language } => {
            assert_eq!((model.as_str(), audio.as_str(), forced_language), ("m", "a", None));
        }
        _ => panic!("a transcription"),
    }
    match parse_command(&args(&["asr", "m", "a", "english", "x"])) {
        Command::Transcribe { forced_language, .. } => assert_eq!(forced_language.as_deref(), Some("english")),
        _ => panic!("a transcription"),
    }
    match parse_command(&args(&["asr", "align", "m", "a", "t", "English"])) {
        Command::Align { model, audio, text, language } => {
            assert_eq!((model.as_str(), audio.as_str(), text.as_str(), language.as_str()), ("m", "a", "t", "English"));
        }
        _ => panic!("an alignment"),
    }
}

#[test]
fn transcripts_come_from_arguments_or_files() {
    match text_source("@dir/t.txt") {
        TextSource::File(p) => assert_eq!(p, "dir/t.txt"),
        TextSource::Given(_) => panic!("a file"),
    }
    match text_source("a@b") {
        TextSource::Given(t) => assert_eq!(t, "a@b"),
        TextSource::File(_) => panic!("no file"),
    }
    match text_source("") {
        TextSource::Given(t) => assert_eq!(t, ""),
        TextSource::File(_) => panic!("no file"),
    }
    assert_eq!(trim_transcript(" \u{3000}a b\n"), "a b");
}

#[test]
fn first_stream_stays() {
    let mut slot = StreamSlot::new();
    assert_eq!(init_mlx(&slot, true, true), Some(MlxDeviceType::Gpu));
    assert_eq!(init_mlx(&slot, true, false), Some(MlxDeviceType::Cpu));
    assert_eq!(init_mlx(&slot, false, true), Some(MlxDeviceType::Cpu));
    slot.fill(MlxStream { handle: 7 });
    assert_eq!(init_mlx(&slot, true, true), None);
    slot.fill(MlxStream { handle: 8 });
    assert_eq!(default_stream(&slot), 7);
}
