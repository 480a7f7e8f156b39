//! Decoders that turn logic-analyzer sample streams into protocol events.
//!
//! A sample is a bus word whose bits are independent digital channels
//! ([`bus`]). The state machines in [`sm`] consume one sample per tick and
//! now and then emit a decoded item: a changed sample, a UART word, a
//! synchronous-serial word, a SLIP packet. [`mipmap`] summarises a captured
//! buffer for zoomed display, and [`signal`] makes signals to test with.

pub mod bits;
pub mod bus;
pub mod mipmap;
pub mod signal;
pub mod sm;
