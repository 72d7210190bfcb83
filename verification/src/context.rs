//! The default workspace root of the index tools: the one `init` wrote into
//! `.mcp.json` (`serve --root <path>`), else the current directory.

use vstd::prelude::*;
use crate::text::{chars_of, string_of};

verus! {

/// The default root: the configured one, else `.`.
pub open spec fn default_root_of(configured: Option<Seq<char>>) -> Seq<char> {
    match configured {
        Some(r) => r,
        None => "."@,
    }
}

/// The default root for the index tools, given the one configured at
/// start-up, if any.
pub fn default_root(configured: Option<&str>) -> (r: String)
    ensures
        r@ == default_root_of(crate::telemetry::opt_view(configured)),
{
    match configured {
        Some(c) => string_of(&chars_of(c)),
        None => string_of(&chars_of(".")),
    }
}

} // verus!
