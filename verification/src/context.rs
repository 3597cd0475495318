//! Context handed to the read path.
use vstd::prelude::*;

use crate::config::Config;

verus! {

/// What the read path needs to know: the configuration.
pub struct ReadContext {
    /// The store's configuration.
    pub conf: Config,
}

impl ReadContext {
    /// Wraps a configuration for the read path.
    pub fn new(conf: Config) -> (r: Self)
        ensures
            r.conf == conf,
    {
        ReadContext { conf }
    }
}

} // verus!
