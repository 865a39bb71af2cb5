//! Configuration parameters passed to the insight server via the command
//! line.

use vstd::prelude::*;

verus! {

/// The set of configuration parameters that can be passed via the
/// command line.
pub struct Cli {
    target: String,
}

impl Cli {
    /// The configured target location.
    pub closed spec fn spec_target(&self) -> Seq<char> {
        self.target@
    }

    /// Builds the configuration from the parsed target location.
    pub fn new(target: String) -> (r: Cli)
        ensures
            r.spec_target() == target@,
    {
        Cli { target }
    }

    /// The location where the compiler's event data can be found.
    pub fn target(&self) -> (r: &str)
        ensures
            r@ == self.spec_target(),
    {
        self.target.as_str()
    }
}

} // verus!
