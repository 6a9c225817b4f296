//! Simulators of small register machines whose behaviour is specified and
//! proved: text instructions, fixed and unbounded widths, flags and memory.

pub mod bits;
pub mod brain_overflow_all;
pub mod instructions_set;
pub mod named_map;
pub mod natural;
pub mod text;
pub mod till_128;
