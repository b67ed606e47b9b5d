//! A table-lookup sawtooth oscillator and a single-pole lowpass / highpass
//! filter, computed in exact integer and fixed-point arithmetic.
use vstd::prelude::*;

pub mod filter;
pub mod oscillator;
pub mod synth;
pub mod wavetable;

verus! {

} // verus!
