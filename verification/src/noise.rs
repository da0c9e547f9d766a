//! Terrain noise layers.

use vstd::prelude::*;

verus! {

/// Noise layer type for different terrain features.
#[derive(Debug, Clone, Copy, PartialEq, Eq, Structural)]
pub enum NoiseLayer {
    /// Continental scale - large landmasses vs oceans
    Continental,
    /// Erosion - smoothing and weathering
    Erosion,
    /// Peaks and valleys - fine detail variation
    PeaksValleys,
    /// Temperature for biome assignment
    Temperature,
    /// Humidity for biome assignment
    Humidity,
}

} // verus!
