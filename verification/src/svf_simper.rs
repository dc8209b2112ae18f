use vstd::prelude::*;

verus! {

/// The response a state-variable filter voice is set to.
#[derive(Debug, Clone, Copy, PartialEq, Eq, Structural)]
pub enum FilterType {
    Lowpass,
    Bandpass,
    Highpass,
}

} // verus!
