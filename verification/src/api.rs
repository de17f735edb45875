//! Whole-pipeline statements: encoding a target against a base and applying
//! the resulting delta reproduces the target.

use crate::diff::{bsdiff_raw, fits};
use crate::patch::bspatch_raw;
use vstd::prelude::*;

verus! {

/// The round-trip law: for every pair of buffers, applying the delta that
/// `bsdiff_raw` computes, with the target's length, reproduces the target
/// exactly.
pub fn diff_then_patch(base: &[u8], target: &[u8]) -> (out: Vec<u8>)
    requires
        fits(base@.len() as int),
        fits(target@.len() as int),
    ensures
        out@ == target@,
{
    let patch = bsdiff_raw(base, target);
    match bspatch_raw(base, target.len(), patch.as_slice()) {
        Ok(out) => out,
        Err(_) => {
            proof {
                assert(false);
            }
            vstd::pervasive::unreached()
        },
    }
}

/// The base buffer of the fixed ten-byte scenario.
pub open spec fn scenario_base() -> Seq<u8> {
    seq![0u8, 1u8, 2u8, 3u8, 4u8, 10u8, 9u8, 255u8, 0u8, 72u8]
}

/// The target buffer of the fixed ten-byte scenario.
pub open spec fn scenario_target() -> Seq<u8> {
    seq![1u8, 0u8, 2u8, 3u8, 4u8, 10u8, 90u8, 0u8, 0u8, 255u8]
}

/// The fixed ten-byte scenario: encodes the scenario target against the
/// scenario base and applies the delta; the result is proved to be exactly
/// the scenario target.
pub fn hardcoded_data_t() -> (out: Vec<u8>)
    ensures
        out@ == scenario_target(),
{
    let base: Vec<u8> = vec![0u8, 1u8, 2u8, 3u8, 4u8, 10u8, 9u8, 255u8, 0u8, 72u8];
    let target: Vec<u8> = vec![1u8, 0u8, 2u8, 3u8, 4u8, 10u8, 90u8, 0u8, 0u8, 255u8];
    proof {
        assert(base@ =~= scenario_base());
        assert(target@ =~= scenario_target());
    }
    diff_then_patch(base.as_slice(), target.as_slice())
}

} // verus!
