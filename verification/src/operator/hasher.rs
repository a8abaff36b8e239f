//! The hash operator.
use vstd::prelude::*;

use crate::context::ObliData;

verus! {

/// Runs the hash operator from `input` into `output`; the input must be
/// ready. The operator writes nothing yet.
pub fn hash_exec(input: &ObliData, output: &ObliData)
    requires
        input.prepared,
{
}

} // verus!
