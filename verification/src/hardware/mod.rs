//! Data read from and sent to devices: the real-time clock, the mouse and
//! the emulator's exit port.
pub mod clock;

pub mod mouse;
pub mod power;
