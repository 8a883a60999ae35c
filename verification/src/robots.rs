//! Tunables for parsing robots policies.

use vstd::prelude::*;

verus! {

/// The most characters of a policy file that a parse will look at.
pub const MAX_CHAR_LIMIT_DEFAULT: usize = 512_000;

/// Parameters for parsing a robots policy.
#[derive(Debug, Clone, Copy, PartialEq, Eq, Structural)]
pub struct Params {
    pub char_limit: usize,
}

impl Default for Params {
    fn default() -> (r: Self)
        ensures
            r.char_limit == MAX_CHAR_LIMIT_DEFAULT,
    {
        Params { char_limit: MAX_CHAR_LIMIT_DEFAULT }
    }
}

} // verus!
