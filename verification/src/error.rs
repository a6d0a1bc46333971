//! Errors raised while configuring and executing tests.

use vstd::prelude::*;

verus! {

/// Everything that can go wrong in a test run.
///
/// Per-test failures (a refused rebuild, a failed application load, a missing
/// meter) are recorded in the test's evaluation; the run itself continues.
#[derive(Clone, Debug)]
pub enum Error {
    /// Testbed to device I/O error.
    IO(String),
    /// GPIO-related error while arming or clearing interrupts.
    GPIO(String),
    /// Executor-worker channel communication error.
    Comm(String),
    /// Error from spawning testbed threads.
    Threading(String),
    /// Platform collaborator failure surfaced as tool output.
    Software(String),
    /// Energy meter does not exist.
    NoSuchMeter(String),
    /// A pin number outside the testbed's pin mapping.
    UnknownPin(u8),
    /// A wire frame field ran past the end of the buffer.
    Truncated,
    /// A stream-operation counter id outside the known table.
    UnknownCounter(u8),
    /// A stream-operation bit that is neither of the two defined operations.
    UnknownOp(u8),
}

} // verus!
