pub mod oscillators;
