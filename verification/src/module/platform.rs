use vstd::prelude::*;

verus! {

/// What the program knows of the machine it runs on.
#[derive(Debug, Clone, Copy, PartialEq, Eq, Structural)]
pub struct Platform {}

impl Platform {
    /// Set up the platform; there is nothing to set up.
    #[allow(non_snake_case)]
    pub fn Platform() {
    }
}

} // verus!
