//! Helpers for naming test snapshots.
use vstd::prelude::*;

use crate::instrament::sanitized;

verus! {

/// Sanitizes a string for use as a filename: characters illegal in file names become
/// `_`, and runs of `_` are collapsed into one, with none at either end.
pub fn sanitize_for_filename_use(filename: &str) -> (r: String)
    ensures
        r@ == sanitized(filename@),
{
    crate::instrament::sanitize_for_filename_use(filename)
}

} // verus!
