//! What a host of the simulation offers.

use vstd::prelude::*;

verus! {

/// An application around the engine: made once, then started.
pub trait AppManagerInterface {
    fn new() -> Self where Self: Sized;

    /// Runs the application until it ends.
    fn start(&mut self);
}

} // verus!
