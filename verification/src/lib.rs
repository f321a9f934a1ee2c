//! Selects a mystical name at random from bundled star and constellation
//! lists: a loader parses each delimited text block into trimmed names, an
//! aggregator merges the lists in source order, a selector draws one name
//! uniformly, and a presenter renders it raw or decorated.

use vstd::prelude::*;

pub mod loader;
pub mod presenter;
pub mod selector;

verus! {

/// Command-line configuration: the one recognized switch.
pub struct Cli {
    /// Output only the raw name, without any styling or decorations.
    pub raw: bool,
}

} // verus!
