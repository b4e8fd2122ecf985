//! What a capture session is set up with and what it carries from frame to
//! frame.

use vstd::prelude::*;

verus! {

/// What the camera says of a frame.
#[derive(Debug, Clone, Copy)]
pub struct FrameInfo {
    pub width: u32,
    pub height: u32,
    pub timestamp_ms: u64,
}

/// What the previous frame leaves for the next: three maps of 81 by 81.
#[derive(Debug, Clone)]
pub struct Feedback {
    pub a_prev_81x81: Vec<u8>,
    pub err_prev_81x81: Vec<u8>,
    pub usage_prev_81x81: Vec<u8>,
}

impl Default for Feedback {
    fn default() -> (f: Self)
        ensures
            f.a_prev_81x81@.len() == 0,
            f.err_prev_81x81@.len() == 0,
            f.usage_prev_81x81@.len() == 0,
    {
        Feedback { a_prev_81x81: Vec::new(), err_prev_81x81: Vec::new(), usage_prev_81x81: Vec::new() }
    }
}

/// How a session is to run.
#[derive(Debug, Clone, Copy)]
pub struct SessionConfig {
    pub use_global_palette: bool,
    pub allow_palette_growth: bool,
    pub max_frames: u32,
    pub output_size: u32,
}

impl Default for SessionConfig {
    fn default() -> (c: Self)
        ensures
            c.use_global_palette,
            c.allow_palette_growth,
            c.max_frames == 81,
            c.output_size == 81,
            c.is_valid(),
    {
        SessionConfig {
            use_global_palette: true,
            allow_palette_growth: true,
            max_frames: 81,
            output_size: 81,
        }
    }
}

impl SessionConfig {
    /// A session can be set up for output sides of 1 to 256 pixels.
    pub open spec fn is_valid(&self) -> bool {
        0 < self.output_size <= 256
    }

    /// Whether a session can be set up with this configuration.
    pub fn check(&self) -> (ok: bool)
        ensures
            ok == self.is_valid(),
    {
        self.output_size != 0 && self.output_size <= 256
    }
}

} // verus!
