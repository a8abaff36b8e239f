//! The sort operator.
use vstd::prelude::*;

use crate::context::ObliData;
use crate::manager::DataManager;

verus! {

/// Runs the sort operator from `input` into `output`. The input's bytes
/// must be registered; the operator reads them and writes nothing yet, so it
/// always succeeds and leaves the registry as it was.
pub fn sort_exec(dm: &DataManager, input: &ObliData, output: &ObliData) -> (r: Result<(), &'static str>)
    requires
        dm.wf(),
        dm@.contains_key(input.id@),
    ensures
        r is Ok,
{
    let _data = dm.get_data(input.id.as_str());
    Ok(())
}

} // verus!
