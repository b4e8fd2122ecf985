use vstd::prelude::*;

verus! {

/// Which sixteen-bit little-endian field of the stream a value was meant for.
#[derive(Clone, Copy, Debug, PartialEq, Eq, Structural)]
pub enum Le16Field {
    Width,
    Height,
    Delay,
    LoopCount,
}

/// The single error type of the quantizer and the encoder.
///
/// Every failure is a validation failure of the input; each variant carries
/// what is needed to find the offending value.
#[allow(inconsistent_fields)]
#[derive(Clone, Copy, Debug, PartialEq, Eq, Structural)]
pub enum GifPipeError {
    /// The cube does not hold exactly 81 frames.
    InvalidFrameCount { expected: usize, actual: usize },
    /// Frame `index` does not hold the expected number of bytes.
    InvalidFrameSize { index: usize, expected: usize, actual: usize },
    /// The palette byte count is 0, above 768, or not a multiple of 3.
    InvalidPaletteSize { actual: usize },
    /// A frame refers to a palette entry that does not exist.
    InvalidIndex { frame: usize, pixel: usize, index: u8, palette_entries: usize },
    /// A sixteen-bit field would have to hold more than 65535.
    EncodingOverflow { field: Le16Field },
    /// No cluster is left with a sample in it.
    ClusteringDegenerate,
}

impl GifPipeError {
    /// The stable code of the error, for logs and monitoring.
    pub open spec fn code_text(&self) -> Seq<char> {
        match self {
            GifPipeError::InvalidFrameCount { .. } => "E_M1_INPUT"@,
            GifPipeError::InvalidFrameSize { .. } => "E_M1_INPUT"@,
            GifPipeError::InvalidPaletteSize { .. } => "E_VALIDATION"@,
            GifPipeError::InvalidIndex { .. } => "E_VALIDATION"@,
            GifPipeError::EncodingOverflow { .. } => "E_M3_ENCODE"@,
            GifPipeError::ClusteringDegenerate => "E_M2_PALETTE"@,
        }
    }

    /// The stable code of the error, for logs and monitoring.
    pub fn code(&self) -> (c: &'static str)
        ensures
            c@ == self.code_text(),
    {
        match self {
            GifPipeError::InvalidFrameCount { .. } => "E_M1_INPUT",
            GifPipeError::InvalidFrameSize { .. } => "E_M1_INPUT",
            GifPipeError::InvalidPaletteSize { .. } => "E_VALIDATION",
            GifPipeError::InvalidIndex { .. } => "E_VALIDATION",
            GifPipeError::EncodingOverflow { .. } => "E_M3_ENCODE",
            GifPipeError::ClusteringDegenerate => "E_M2_PALETTE",
        }
    }
}

/// What the retired one-call entry point answers.
#[derive(Debug)]
pub enum ProcessingError {
    SerializationFailed { message: String },
    ProcessingFailed { message: String },
}

} // verus!
