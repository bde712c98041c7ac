//! The command-line options the surrounding program understands. The
//! library holds the bare value type; argument parsing lives outside.

use vstd::prelude::*;

verus! {

/// Start-up choices: the water capacity per cell, and either a saved state
/// to load or the dimensions of a fresh grid.
#[derive(Clone, Debug)]
pub struct Opts {
    pub max_fill: u8,
    pub file_path: Option<String>,
    pub height: Option<i32>,
    pub width: Option<i32>,
}

} // verus!
