//! Flexible testbed and test providers: adapters the surrounding program
//! implements to produce a configured testbed and the tests to run on it.

use vstd::prelude::*;

use crate::testbed::Testbed;
use crate::testing::Test;

verus! {

/// Adapter producing a testbed from some input source.
pub trait TestbedProvider {
    /// Create a configured testbed ready to run tests.
    fn create(&self) -> Result<Testbed, String>;
}

/// Data adapter producing tests read from an input source.
pub trait TestProvider {
    /// Produce the tests to run, in run order.
    fn tests(&self) -> Vec<Test>;
}

} // verus!
