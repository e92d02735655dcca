//! Language grammar queries.
use vstd::prelude::*;

pub mod c;
pub mod hcl;

verus! {

/// The prefix of capture names in queries whose captures are not scoped to.
pub const IGNORE: &'static str = "_SRGN_IGNORE";

} // verus!
