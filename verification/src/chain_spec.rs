//! The chain specifications a node can be started with.

use vstd::prelude::*;
use crate::messages::same_text;

verus! {

/// The chain specification option.
#[derive(Clone, Copy, Debug, PartialEq, Eq, Structural)]
pub enum ChainSpec {
    /// The development chain.
    Development,
}

impl ChainSpec {
    /// The specification named on the command line, if the name is known.
    pub fn from(s: &str) -> (r: Option<ChainSpec>)
        ensures
            r == if s@ == "dev"@ { Some(ChainSpec::Development) } else { None::<ChainSpec> },
    {
        if same_text(s, "dev") {
            Some(ChainSpec::Development)
        } else {
            None
        }
    }
}

} // verus!
