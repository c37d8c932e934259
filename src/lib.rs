//! A generative music engine driven by text: a keyed nibble stream picks
//! notes (rule-based, Markov and arpeggio generators), schedules them on a
//! pool of voices, and mutates a wavetable through a small instruction set.

pub mod bytes;
pub mod envelope;
pub mod markov;
pub mod math;
pub mod melody;
pub mod notes;
pub mod performer;
pub mod sequence;
pub mod source;
pub mod structures;
pub mod voice;
pub mod wavetable;
