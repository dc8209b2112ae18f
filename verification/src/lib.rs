//! Note and voice bookkeeping for a polyphonic FM synthesizer, with the
//! integer parts of its oscillators and the filter-mode selector.

pub mod dsp;
pub mod svf_simper;
pub mod voice;
