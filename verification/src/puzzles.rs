//! The puzzle catalogue: the cube variants that an event code can select.

pub mod cube;

use vstd::prelude::*;
use vstd::string::StringSliceAdditionalSpecFns;

verus! {

use crate::cube_puzzle::CubePuzzle;

/// Builds the puzzle that a WCA-style event code names: `"222"` through
/// `"777"` (plus the `"OH"` and `"3BLD"` aliases of `"333"`) select a cube of
/// the matching order.  An unrecognised code yields no puzzle.
pub fn new(event: &str) -> (r: Option<CubePuzzle>)
    ensures
        match r {
            Some(p) => {
                &&& p.wf()
                &&& p.size as int == crate::cube_puzzle::event_size(event.spec_bytes())
                &&& p.grid() == crate::cube_puzzle::solved_grid(p.size as int)
                &&& crate::cube_puzzle::event_size(event.spec_bytes()) != 0
            },
            None => crate::cube_puzzle::event_size(event.spec_bytes()) == 0,
        },
{
    let size = crate::cube_puzzle::get_cube_size(event);
    if size == 0 {
        None
    } else {
        Some(CubePuzzle::new(size))
    }
}

} // verus!
