use foam::dsp::oscillators::{step_phase, SineOscillator4, PHASE_RANGE, TABLE_SIZE};
use foam::svf_simper::FilterType;

#[test]
fn step_phase_reads_the_top_bits() {
    assert_eq!(step_phase(0, 1 << 20), (1 << 20, 64));
    assert_eq!(step_phase(0, 16383), (16383, 0));
    assert_eq!(step_phase(0, 16384), (16384, 1));
}

#[test]
fn step_phase_wraps_at_the_accumulator_span() {
    assert_eq!(step_phase(PHASE_RANGE - 1, 2), (1, 0));
    assert_eq!(step_phase(PHASE_RANGE - 16384, 0), (PHASE_RANGE - 16384, TABLE_SIZE - 1));
}

#[test]
fn step_phase_wraps_the_32_bit_sum_first() {
    assert_eq!(step_phase(u32::MAX, 1), (0, 0));
    assert_eq!(step_phase(u32::MAX, 3), (2, 0));
}

#[test]
fn sine_oscillator4_advances_its_phase() {
    let mut osc = SineOscillator4::default();
    assert_eq!(osc.advance(1 << 23), 512);
    assert_eq!(osc.advance(1 << 23), 1024);
    assert_eq!(osc.advance(1 << 23), 1536);
    assert_eq!(osc.advance(1 << 23), 0);
    let copy = osc;
    assert_eq!(copy, osc);
}

#[test]
fn filter_types_compare() {
    assert_eq!(FilterType::Lowpass, FilterType::Lowpass);
    assert_ne!(FilterType::Lowpass, FilterType::Highpass);
    assert_ne!(FilterType::Bandpass, FilterType::Highpass);
}
