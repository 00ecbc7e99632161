use vstd::prelude::*;

pub mod engine;
pub mod model;
pub mod plan;
pub mod pool;
pub mod tiling;

verus! {

/// Every input path must exist before the pipeline starts; the caller
/// supplies one existence flag per path, in order, and aborts when any
/// is missing.
pub fn validate_input_paths(exists: &Vec<bool>) -> (ok: bool)
    ensures
        ok <==> (forall|i: int| 0 <= i < exists@.len() ==> exists@[i]),
{
    let mut k: usize = 0;
    while k < exists.len()
        invariant
            0 <= k <= exists@.len(),
            forall|i: int| 0 <= i < k ==> exists@[i],
        decreases exists@.len() - k,
    {
        if !exists[k] {
            return false;
        }
        k += 1;
    }
    true
}

} // verus!
