//! The closed enumerations a caller chooses from, and the small policy
//! functions that turn a choice into a concrete parameter.

use vstd::prelude::*;

verus! {

/// Strategy for turning an intensity grid into a binary mask.
#[derive(Debug, Clone, Copy, PartialEq, Eq, Structural)]
pub enum ImageProcessingMethod {
    /// Otsu's method: one global threshold maximising between-class variance.
    Otsu,
    /// Kapur's method: one global threshold maximising class entropy.
    Kapur,
    /// Wolf's method: a contrast-weighted mean threshold from local windows.
    Wolfs,
    /// Bernsen's method: the median of local window mid-range values.
    Bernsens,
    /// Sauvola's method: the median of local mean/deviation thresholds.
    Sauvola,
}

/// Policy for fitting a mask into a target rectangle.
#[derive(Debug, Clone, Copy, PartialEq, Eq, Structural)]
pub enum ScalingMode {
    /// Resample to exactly the target size, ignoring aspect ratio.
    Stretch,
    /// Uniformly scale to fit inside the target, centred, padded.
    Fit,
    /// Uniformly scale to cover the target, centre-cropped.
    Fill,
    /// Keep the native size, centred, clipped and padded.
    Center,
    /// Repeat the source over the target.
    Tile,
}

/// How the target region is picked by the surrounding program.
#[derive(Debug, Clone, Copy, PartialEq, Eq, Structural)]
pub enum RegionPickMode {
    /// Interactively choose two coordinates to select the region.
    Interactive,
    /// Type in two coordinates to select the region.
    Manual,
}

/// Trade-off between drawing fidelity and the number of traced points.
#[derive(Debug, Clone, Copy, PartialEq, Eq, Structural)]
pub enum DrawingAccuracy {
    /// Sample every third pixel.
    Fast,
    /// Sample every second pixel.
    Balanced,
    /// Sample every pixel.
    Accurate,
}

/// Delay between pointer motions while replaying a path.
#[derive(Debug, Clone, Copy, PartialEq, Eq, Structural)]
pub enum DrawingSpeed {
    /// One picosecond per line.
    UniverseAnnihilating,
    /// One microsecond per line.
    UltraFast,
    /// Ten microseconds per line.
    Fast,
    /// Fifty microseconds per line.
    Medium,
    /// Two hundred microseconds per line.
    Slow,
}

/// Order in which finished paths are replayed.
#[derive(Debug, Clone, Copy, PartialEq, Eq, Structural)]
pub enum LineOrder {
    /// Draw each line in order.
    InOrder,
    /// Shuffle the order of the lines before starting.
    Shuffled,
}

/// Types that carry a human-readable description for user interfaces.
pub trait Description {
    /// A short description of the value.
    fn description(&self) -> &'static str;
}

impl Description for ImageProcessingMethod {
    fn description(&self) -> &'static str {
        match self {
            ImageProcessingMethod::Otsu => "Otsu's Method - Best for global thresholding and balanced histograms",
            ImageProcessingMethod::Kapur => "Kapur's Entropy - Best for textured/heterogeneous images",
            ImageProcessingMethod::Wolfs => "Wolf's Method - Best for degraded images",
            ImageProcessingMethod::Bernsens => "Bernsen's Method - Best for low-contrast images",
            ImageProcessingMethod::Sauvola => "Sauvola's Method - Best for noisy/textured backgrounds",
        }
    }
}

impl Description for ScalingMode {
    fn description(&self) -> &'static str {
        match self {
            ScalingMode::Stretch => "Stretch - Fills entire region (may distort)",
            ScalingMode::Fit => "Fit - Scales to fit within region (maintains aspect ratio)",
            ScalingMode::Fill => "Fill - Scales to fill region completely (may crop edges)",
            ScalingMode::Center => "Center - Original size, centered in region",
            ScalingMode::Tile => "Tile - Repeats image to fill region",
        }
    }
}

impl Description for RegionPickMode {
    fn description(&self) -> &'static str {
        match self {
            RegionPickMode::Interactive => "Interactive - Interactively choose 2 coordinates to select the region",
            RegionPickMode::Manual => "Manual - Input 2 coordinates to select the region",
        }
    }
}

impl Description for DrawingAccuracy {
    fn description(&self) -> &'static str {
        match self {
            DrawingAccuracy::Fast => "Fast - Makes the drawing go faster at the cost of accuracy",
            DrawingAccuracy::Balanced => "Balanced - Balances speed and accuracy",
            DrawingAccuracy::Accurate => "Accurate - Makes the drawing more accurate at the cost of speed",
        }
    }
}

impl Description for DrawingSpeed {
    fn description(&self) -> &'static str {
        match self {
            DrawingSpeed::UniverseAnnihilating => "Universe Annihilating (1ps/line) (BREAKS SOME APPS)",
            DrawingSpeed::UltraFast => "Ultra-Fast (1ms/line)",
            DrawingSpeed::Fast => "Fast (10ms/line)",
            DrawingSpeed::Medium => "Medium (50ms/line)",
            DrawingSpeed::Slow => "Slow (200ms/line)",
        }
    }
}

impl Description for LineOrder {
    fn description(&self) -> &'static str {
        match self {
            LineOrder::InOrder => "In Order - Draw each line in order",
            LineOrder::Shuffled => "Shuffled - Shuffle the order of each drawn line before drawing",
        }
    }
}

/// The pixel stride used when sampling foreground points for a given accuracy.
pub fn get_step(drawing_accuracy: DrawingAccuracy) -> (step: i32)
    ensures
        step == match drawing_accuracy {
            DrawingAccuracy::Fast => 3int,
            DrawingAccuracy::Balanced => 2int,
            DrawingAccuracy::Accurate => 1int,
        },
{
    match drawing_accuracy {
        DrawingAccuracy::Fast => 3,
        DrawingAccuracy::Balanced => 2,
        DrawingAccuracy::Accurate => 1,
    }
}

/// The per-line delay for a drawing speed, in picoseconds. The caller turns
/// this into a real duration.
pub fn get_speed(speed: DrawingSpeed) -> (picos: u64)
    ensures
        picos == match speed {
            DrawingSpeed::UniverseAnnihilating => 1u64,
            DrawingSpeed::UltraFast => 1_000_000u64,
            DrawingSpeed::Fast => 10_000_000u64,
            DrawingSpeed::Medium => 50_000_000u64,
            DrawingSpeed::Slow => 200_000_000u64,
        },
{
    match speed {
        DrawingSpeed::UniverseAnnihilating => 1,
        DrawingSpeed::UltraFast => 1_000_000,
        DrawingSpeed::Fast => 10_000_000,
        DrawingSpeed::Medium => 50_000_000,
        DrawingSpeed::Slow => 200_000_000,
    }
}

/// Splits a duration given in picoseconds into whole seconds and the
/// nanosecond remainder, truncating below one nanosecond.
pub fn picos_to_secs_nanos(picoseconds: u64) -> (parts: (u64, u32))
    ensures
        parts.0 == (picoseconds / 1_000) / 1_000_000_000,
        parts.1 == (picoseconds / 1_000) % 1_000_000_000,
{
    let nanos: u64 = picoseconds / 1_000;
    (nanos / 1_000_000_000, (nanos % 1_000_000_000) as u32)
}

} // verus!
