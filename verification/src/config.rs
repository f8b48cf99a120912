//! The site's configuration; no options exist yet.

use vstd::prelude::*;

verus! {

/// The (currently empty) configuration of the site.
#[derive(Debug, Clone, PartialEq, Eq, Structural)]
pub struct Config {}

impl Default for Config {
    fn default() -> (r: Self)
        ensures
            r == (Config {  }),
    {
        Config {  }
    }
}

} // verus!
