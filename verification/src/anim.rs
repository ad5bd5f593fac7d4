//! The vocabulary of rigid-transform clip animation: which channel of a
//! pose a track drives, how it eases between keys, and how a clip's
//! timeline repeats. Sampling itself works on floating-point keys and
//! lives with the caller.

use vstd::prelude::*;

verus! {

/// The pose channel a track animates.
#[derive(Debug, Clone, Copy, PartialEq, Eq, Structural)]
pub enum Channel {
    PosX,
    PosY,
    PosZ,
    /// Degrees.
    RotX,
    /// Degrees.
    RotY,
    /// Degrees.
    RotZ,
    /// Uniform scale (default 1).
    Scale,
    /// Line-brightness multiplier (default 1), fed to the line renderer as
    /// the intensity scale.
    Intensity,
}

/// How a track moves between two keys.
#[derive(Debug, Clone, Copy, PartialEq, Eq, Structural)]
pub enum Easing {
    /// Hold the previous key's value until the next key.
    Step,
    Linear,
    /// Smoothstep between keys.
    Smooth,
}

impl Default for Easing {
    /// Tracks interpolate linearly unless told otherwise.
    fn default() -> (e: Self)
        ensures
            e == Easing::Linear,
    {
        Easing::Linear
    }
}

/// How a clip's timeline continues past its duration.
#[derive(Debug, Clone, Copy, PartialEq, Eq, Structural)]
pub enum LoopMode {
    /// Clamp at the last key; the player reports itself finished.
    Once,
    Loop,
    /// Forward then backward, repeating.
    PingPong,
}

impl Default for LoopMode {
    /// Clips repeat unless told otherwise.
    fn default() -> (m: Self)
        ensures
            m == LoopMode::Loop,
    {
        LoopMode::Loop
    }
}

} // verus!
