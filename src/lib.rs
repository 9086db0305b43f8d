//! Timed serial protocols and debounced input tracking for sensors wired
//! to raw digital lines: the decisions of each protocol, separated from the
//! line I/O that drives them.

pub mod level;
pub mod bitstream;
pub mod adc;
pub mod dht11;
pub mod keypad;
pub mod switch;
pub mod display;
