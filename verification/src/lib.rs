//! Hardware-in-the-loop testbed engine: stream-operation decoding, serial
//! trace reconstruction from pin edges, the declarative test model, and the
//! per-test result assembly the executor performs between hardware calls.

pub mod csv;
pub mod error;
pub mod input;
pub mod io;
pub mod mem;
pub mod platform;
pub mod testbed;
pub mod testing;
pub mod trace;

pub use error::Error;
