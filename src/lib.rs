//! A toolchain for the DCPU-16: a linker that lays out assembled items into
//! a word image, and an emulator core that runs such an image with devices
//! on its hardware bus.

pub mod alu;
pub mod cpu;
pub mod debugger;
pub mod device;
pub mod instruction;
pub mod linker;
pub mod ram;
