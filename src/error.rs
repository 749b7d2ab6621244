//! The error of resource loading.
use vstd::prelude::*;

verus! {

/// A resource could not be loaded.
#[derive(Clone, Copy, Debug, PartialEq, Eq)]
pub struct LoaderError;

impl LoaderError {
    /// The message shown for this error.
    pub fn message(&self) -> (r: String)
        ensures
            r@ == "Failed to load resource"@,
    {
        let r = "Failed to load resource".to_string();
        proof {
            reveal_strlit("Failed to load resource");
        }
        r
    }
}

} // verus!
