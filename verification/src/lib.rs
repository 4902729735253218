//! A CHIP-8 class virtual machine: a 4096-byte memory with a built-in glyph
//! table, sixteen 8-bit registers, a bounded call stack, two countdown timers,
//! a 64x32 monochrome display driven by XOR sprite compositing, and a 16-key
//! keypad. The processor executes one fetch-decode-execute cycle per call;
//! the caller drives cycles and timer ticks at its own cadence.

pub mod cpu;
pub mod display;
pub mod emulator;
pub mod font;
pub mod keypad;
