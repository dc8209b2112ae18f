use vstd::prelude::*;

verus! {

/// Span of the fixed-point phase accumulator: 25 bits.
pub const PHASE_RANGE: u32 = 33554432;

/// Entries of the wave table that a phase selects from.
pub const TABLE_SIZE: u32 = 2048;

/// The phase after one step: the 32-bit wrapping sum, reduced to the accumulator span.
pub open spec fn next_phase(phase: u32, phase_inc: u32) -> u32 {
    (((phase + phase_inc) % 0x1_0000_0000) % (PHASE_RANGE as int)) as u32
}

/// The wave-table entry a phase selects: its top bits.
pub open spec fn table_index(phase: u32) -> u32 {
    (phase / 16384) % TABLE_SIZE
}

/// Advances a fixed-point phase by `phase_inc` and returns the new phase with the
/// wave-table entry it selects.
pub fn step_phase(phase: u32, phase_inc: u32) -> (r: (u32, u32))
    ensures
        r.0 == next_phase(phase, phase_inc),
        r.1 == table_index(r.0),
        r.0 < PHASE_RANGE,
        r.1 < TABLE_SIZE,
{
    let p = phase.wrapping_add(phase_inc) % PHASE_RANGE;
    assert(p >> 14u32 == p / 16384) by (bit_vector);
    let index = (p >> 14) % TABLE_SIZE;
    (p, index)
}

/// A sine oscillator whose phase is a 25-bit fixed-point accumulator reading a
/// 2048-entry table.
#[derive(Debug, Clone, Copy, PartialEq, Eq)]
pub struct SineOscillator4 {
    phase: u32,
}

impl View for SineOscillator4 {
    type V = u32;

    closed spec fn view(&self) -> u32 {
        self.phase
    }
}

impl Default for SineOscillator4 {
    fn default() -> (r: Self)
        ensures
            r@ == 0,
    {
        Self { phase: 0 }
    }
}

impl SineOscillator4 {
    /// Steps the phase by `phase_inc` and returns the table entry to sound.
    pub fn advance(&mut self, phase_inc: u32) -> (index: u32)
        ensures
            final(self)@ == next_phase(old(self)@, phase_inc),
            index == table_index(final(self)@),
            final(self)@ < PHASE_RANGE,
            index < TABLE_SIZE,
    {
        let (p, index) = step_phase(self.phase, phase_inc);
        self.phase = p;
        index
    }
}

} // verus!
