use qwen3_asr::mel::{FramePlan, MelCache, WhisperFeatureExtractor};
use qwen3_asr::tensor::{DType, Device, Tensor};

fn extractor(n_fft: usize, hop: usize) -> WhisperFeatureExtractor {
    let filters = Tensor { shape: vec![0, 0], data: vec![], kind: DType::Float32, device: Device::Cpu };
    WhisperFeatureExtractor::new(n_fft, hop, 1, 16000, filters)
}

/// A stand-in for the transformation of a window: a checksum of it.
fn frame(window: &[u32]) -> i64 {
    let mut sum: i64 = 0;
    for (i, &x) in window.iter().enumerate() {
        sum = sum.wrapping_mul(31).wrapping_add(x as i64 * (i as i64 + 1));
    }
    sum
}

fn frames(e: &WhisperFeatureExtractor, signal: &[u32]) -> Tensor {
    let n = e.kept_frames(signal.len());
    let data: Vec<i64> =
        (0..n).map(|k| frame(&signal[k * e.hop_length..k * e.hop_length + e.n_fft])).collect();
    Tensor { shape: vec![1, n], data, kind: DType::Float32, device: Device::Cpu }
}

#[test]
fn parameters_are_kept() {
    let e = extractor(400, 160);
    assert_eq!(e.sample_rate(), 16000);
    assert_eq!(e.num_mel_bins(), 1);
    let c = MelCache::default();
    assert!(c.mel_spec.is_none());
    assert_eq!(c.frames, 0);
}

#[test]
fn signal_is_filled_up_and_mirrored() {
    let e = extractor(4, 3);
    assert_eq!(e.extract(&[1, 2, 3, 4]), vec![3, 2, 1, 2, 3, 4, 0, 0, 0, 4]);
    assert_eq!(e.extract(&[1, 2, 3]), vec![3, 2, 1, 2, 3, 2, 1]);
}

#[test]
fn one_second_has_a_hundred_frames() {
    let e = extractor(400, 160);
    let samples: Vec<u32> = (0..16000).collect();
    let signal = e.extract(&samples);
    assert_eq!(signal.len(), 16400);
    assert_eq!(e.kept_frames(signal.len()), 100);
}

#[test]
fn short_signal_empties_the_cache() {
    let e = extractor(8, 6);
    let mut cache = MelCache {
        mel_spec: Some(Tensor { shape: vec![1, 1], data: vec![5], kind: DType::Float32, device: Device::Cpu }),
        frames: 1,
    };
    match e.extract_streaming(&[1, 2, 3], &mut cache) {
        FramePlan::Whole { signal } => assert_eq!(signal, e.extract(&[1, 2, 3])),
        FramePlan::Suffix { .. } => panic!("too short for a suffix"),
    }
    assert!(cache.mel_spec.is_none());
    assert_eq!(cache.frames, 0);
}

#[test]
fn streaming_frames_equal_whole_frames() {
    for (n_fft, hop) in [(8usize, 3usize), (10, 4), (16, 16), (7, 2)] {
        let e = extractor(n_fft, hop);
        let all: Vec<u32> = (0..200u32).map(|x| x.wrapping_mul(2654435761) >> 7).collect();
        let mut cache = MelCache::default();
        // However the audio is cut, the short beginnings included.
        let mut n = n_fft / 2;
        let mut step = 1;
        while n <= all.len() {
            let samples = &all[..n];
            let padded = (n + hop - 1) / hop * hop;
            if padded > n_fft / 2 {
                let full = match e.extract_streaming(samples, &mut cache) {
                    FramePlan::Suffix { signal, first_frame, num_frames } => {
                        let new = frames(&e, &signal);
                        e.splice(new, first_frame, num_frames, n, &mut cache)
                    }
                    FramePlan::Whole { signal } => {
                        assert!(n <= n_fft / 2 && cache.frames == 0);
                        frames(&e, &signal)
                    }
                };
                assert_eq!(full.data, frames(&e, &e.extract(samples)).data);
            }
            step = step * 5 % 17;
            n += step;
        }
        assert!(cache.frames > 0);
    }
}
