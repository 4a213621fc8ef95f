//! What the engines read of a model's configuration.

use crate::text_decoder::{PartNames, TextDecoderConfig};
use vstd::prelude::*;

verus! {

/// Sample rate that the feature extractor works at.
pub const MEL_SAMPLE_RATE: u32 = 16000;

/// Window length of the feature extractor, in samples.
pub const N_FFT: usize = 400;

/// Distance of two frames of the feature extractor, in samples.
pub const HOP_LENGTH: usize = 160;

/// Configuration of a model.
#[derive(Debug)]
pub struct AsrConfig {
    pub text_config: TextDecoderConfig,
    /// Names of the weights that the layers and the final norm of the text decoder have.
    pub decoder_weights: PartNames,
    /// Number of mel bins that the audio encoder takes.
    pub num_mel_bins: usize,
    /// Number of timestamp classes; only an aligner has them.
    pub classify_num: Option<usize>,
    pub model_type: Option<String>,
    /// Identifier of the timestamp token, or zero for the default.
    pub timestamp_token_id: i64,
}

/// What the engines have to know of the audio encoder.
#[derive(Clone, Copy, Debug, PartialEq, Eq, Structural)]
pub struct EncoderSetup {
    /// Mel frames of a complete chunk.
    pub chunk_size: usize,
    /// Audio tokens of a complete chunk.
    pub tokens_per_chunk: usize,
    /// Whether a chunk attends to itself only, so that its tokens never change.
    pub chunk_local: bool,
}

} // verus!
