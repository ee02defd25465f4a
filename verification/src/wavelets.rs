//! The wavelets the transform can use. The Morlet wavelet takes no
//! parameter; its values are computed in floating point outside this crate.
use vstd::prelude::*;

verus! {

/// The Morlet wavelet, a Gaussian-windowed complex exponential at 1 Hz.
#[derive(Debug, Clone, Copy, PartialEq, Eq, Structural)]
pub struct Morlet {}

impl Morlet {
    pub fn new() -> (m: Morlet)
        ensures
            m == (Morlet {}),
    {
        Morlet {}
    }
}

} // verus!
