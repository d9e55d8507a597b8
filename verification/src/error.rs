use vstd::prelude::*;

verus! {

/// Why a scrambling call ended without an image.
#[derive(Clone, Copy, Debug, PartialEq, Eq, Structural)]
pub enum ScrambleError {
    /// The image has zero width or height, or its pixel data cannot be read.
    InvalidImage,
    /// The face detector could not be loaded.
    DetectorLoadFailed,
    /// The face detector failed while looking at the image.
    DetectorInferenceFailed,
    /// Reflect padding was asked for a plane that is too small to mirror.
    UnsupportedPaddingGeometry,
    /// The image needs a transform size other than the one the scrambler was built for.
    TransformSizeMismatch,
}

} // verus!
