//! Command-line settings of the encoder and decoder, as plain values.

use vstd::prelude::*;

verus! {

/// Top-level command line.
pub struct Cli {
    pub command: Commands,
}

/// The two subcommands.
pub enum Commands {
    /// Encode a file into a QR code video
    Encode(EncodeArgs),
    /// Decode a QR code video back into a file
    Decode(DecodeArgs),
}

/// Settings of the `encode` subcommand.
#[derive(Clone)]
pub struct EncodeArgs {
    /// Input file to encode
    pub input: String,
    /// Output MP4 file
    pub output: String,
    /// Video resolution
    pub resolution: Resolution,
    /// Encryption key (optional)
    pub key: Option<String>,
    /// Error correction level
    pub ec_level: EcLevel,
    /// Frames per second
    pub fps: u32,
    /// Processing mode
    pub mode: ProcessingMode,
}

/// Settings of the `decode` subcommand.
#[derive(Clone)]
pub struct DecodeArgs {
    /// Input MP4 file to decode
    pub input: String,
    /// Output file
    pub output: String,
    /// Decryption key (must match encoding key)
    pub key: Option<String>,
    /// Processing mode
    pub mode: ProcessingMode,
}

/// Output video resolution.
#[derive(Clone, Copy, Debug, PartialEq, Eq, Structural)]
pub enum Resolution {
    /// 480p (854x480)
    R480p,
    /// 720p (1280x720)
    R720p,
    /// 1080p (1920x1080)
    R1080p,
    /// 1440p (2560x1440)
    R1440p,
    /// 4K (3840x2160)
    R4k,
}

/// Width and height in pixels of each resolution.
pub open spec fn spec_dimensions(r: Resolution) -> (u32, u32) {
    match r {
        Resolution::R480p => (854, 480),
        Resolution::R720p => (1280, 720),
        Resolution::R1080p => (1920, 1080),
        Resolution::R1440p => (2560, 1440),
        Resolution::R4k => (3840, 2160),
    }
}

impl Resolution {
    /// The frame size, `(width, height)`, of this resolution.
    pub fn dimensions(&self) -> (r: (u32, u32))
        ensures
            r == spec_dimensions(*self),
    {
        match self {
            Resolution::R480p => (854, 480),
            Resolution::R720p => (1280, 720),
            Resolution::R1080p => (1920, 1080),
            Resolution::R1440p => (2560, 1440),
            Resolution::R4k => (3840, 2160),
        }
    }
}

/// QR error correction level.
#[derive(Clone, Copy, Debug, PartialEq, Eq, Structural)]
pub enum EcLevel {
    /// Low (7% recovery) - maximum data per frame
    Low,
    /// Medium (15% recovery)
    Medium,
    /// Quartile (25% recovery)
    Quartile,
    /// High (30% recovery) - best compression resilience
    High,
}

/// How frames are processed.
#[derive(Clone, Copy, Debug, PartialEq, Eq, Structural)]
pub enum ProcessingMode {
    /// Sequential frame processing
    Standard,
    /// Parallel frame processing using all CPU cores
    Parallel,
}

} // verus!
