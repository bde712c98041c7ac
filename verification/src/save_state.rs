//! The unit of persistence: the particle grid together with the capacity
//! constant it was created with. Reading and writing files lives outside
//! the library; the library checks that a loaded state is consistent.

use vstd::prelude::*;

use crate::grid::{particle_valid, ParticleGrid};

verus! {

pub struct SaveState {
    pub max_fill: u8,
    pub grid: ParticleGrid,
}

impl SaveState {
    /// Everything the physics engine requires of a grid it is handed.
    pub open spec fn spec_consistent(self) -> bool {
        &&& self.grid.wf()
        &&& forall|i: int| 0 <= i < self.grid.cells@.len()
            ==> particle_valid(#[trigger] self.grid.cells@[i], self.max_fill)
    }

    /// Checks a (possibly just loaded) state against the engine's grid
    /// invariant, so unverified callers can validate before handing it on.
    pub fn is_consistent(&self) -> (r: bool)
        ensures
            r == self.spec_consistent(),
    {
        if self.grid.width < 0 || self.grid.height < 0 {
            return false;
        }
        proof {
            assert(0 <= (self.grid.width as int) * (self.grid.height as int)
                < 0x4000000000000000) by (nonlinear_arith)
                requires
                    0 <= self.grid.width < 0x80000000,
                    0 <= self.grid.height < 0x80000000,
            ;
        }
        let area: i64 = self.grid.width as i64 * self.grid.height as i64;
        if area > i32::MAX as i64 {
            return false;
        }
        if self.grid.cells.len() != area as usize {
            return false;
        }
        let n = self.grid.cells.len();
        let mut k: usize = 0;
        while k < n
            invariant
                k <= n,
                n == self.grid.cells@.len(),
                self.grid.wf(),
                forall|i: int| 0 <= i < k
                    ==> particle_valid(#[trigger] self.grid.cells@[i], self.max_fill),
            decreases n - k,
        {
            let p = self.grid.cells[k];
            let ok = match p.p_type {
                crate::grid::ParticleType::Empty => p.fill_ratio == 0 && matches!(
                    p.bearing,
                    crate::grid::Bearing::Still
                ),
                crate::grid::ParticleType::Water => p.fill_ratio <= self.max_fill,
                _ => true,
            };
            if !ok {
                return false;
            }
            k = k + 1;
        }
        true
    }
}

} // verus!
