//! The storage primitives: a dense row-major 2D grid, the per-cell particle
//! model, and the per-cell validity invariant.

use vstd::prelude::*;

verus! {

/// A soft hint recording which horizontal direction a water cell most
/// recently flowed toward. It only steers tie-breaking, never correctness.
#[derive(Clone, Copy, PartialEq, Eq, Structural, Debug)]
pub enum Bearing {
    Still,
    Left,
    Right,
}

impl Bearing {
    /// The opposite horizontal direction; `Still` has no opposite.
    pub open spec fn spec_flip(self) -> Bearing {
        match self {
            Bearing::Still => Bearing::Still,
            Bearing::Left => Bearing::Right,
            Bearing::Right => Bearing::Left,
        }
    }

    pub fn flip(&self) -> (r: Bearing)
        ensures
            r == self.spec_flip(),
    {
        match self {
            Bearing::Still => Bearing::Still,
            Bearing::Left => Bearing::Right,
            Bearing::Right => Bearing::Left,
        }
    }
}

#[derive(Clone, Copy, PartialEq, Eq, Structural, Debug)]
pub enum ParticleType {
    Wood,
    Sand,
    Water,
    Empty,
}

/// One cell's state. `fill_ratio` is meaningful only for water; an empty
/// cell holds zero fill and no bearing.
#[derive(Clone, Copy, PartialEq, Eq, Structural, Debug)]
pub struct Particle {
    pub p_type: ParticleType,
    pub fill_ratio: u8,
    pub bearing: Bearing,
}

impl Particle {
    /// The blank cell content: empty, no fill, no bearing.
    pub open spec fn spec_empty() -> Particle {
        Particle { p_type: ParticleType::Empty, fill_ratio: 0, bearing: Bearing::Still }
    }

    pub fn empty() -> (r: Particle)
        ensures
            r == Particle::spec_empty(),
    {
        Particle { p_type: ParticleType::Empty, fill_ratio: 0, bearing: Bearing::Still }
    }
}

impl Default for Particle {
    fn default() -> (r: Particle)
        ensures
            r == Particle::spec_empty(),
    {
        Particle::empty()
    }
}

/// A cell value with a designated blank state, held by freshly created and
/// cleared grid cells.
pub trait Blank: Sized {
    spec fn spec_blank() -> Self;

    fn blank() -> (r: Self)
        ensures
            r == Self::spec_blank(),
    ;
}

impl Blank for Particle {
    open spec fn spec_blank() -> Particle {
        Particle::spec_empty()
    }

    fn blank() -> (r: Particle) {
        Particle::empty()
    }
}

impl Blank for bool {
    open spec fn spec_blank() -> bool {
        false
    }

    fn blank() -> (r: bool) {
        false
    }
}

/// The per-cell invariant a particle grid maintains between ticks, for the
/// capacity `max_fill` chosen at grid creation: empty cells carry no fill
/// and no bearing, and water never exceeds the capacity.
pub open spec fn particle_valid(p: Particle, max_fill: u8) -> bool {
    &&& p.p_type == ParticleType::Empty ==> p.fill_ratio == 0 && p.bearing == Bearing::Still
    &&& p.p_type == ParticleType::Water ==> p.fill_ratio <= max_fill
}

/// A dense row-major grid of width x height cells, zero-based coordinates.
#[derive(Clone, PartialEq, Debug)]
pub struct Grid<T> {
    pub width: i32,
    pub height: i32,
    pub cells: Vec<T>,
}

impl<T> Grid<T> {
    /// Shape invariant: non-negative dimensions, the cell vector covers the
    /// whole rectangle, and the area fits in an `i32`.
    pub open spec fn wf(self) -> bool {
        &&& 0 <= self.width
        &&& 0 <= self.height
        &&& self.width * self.height <= i32::MAX
        &&& self.cells@.len() == self.width * self.height
    }

    pub open spec fn area(self) -> int {
        self.width * self.height
    }

    /// Row-major index of the cell at (x, y).
    pub open spec fn pos(self, x: int, y: int) -> int {
        x + y * self.width
    }

    pub open spec fn spec_in_bounds(self, x: int, y: int) -> bool {
        0 <= x < self.width && 0 <= y < self.height
    }

    /// The cell stored at in-bounds coordinates (x, y).
    pub open spec fn at(self, x: int, y: int) -> T {
        self.cells@[self.pos(x, y)]
    }
}

/// In-bounds coordinates map to an in-range cell index.
pub proof fn lemma_pos_bounds(w: int, h: int, x: int, y: int)
    requires
        0 <= x < w,
        0 <= y < h,
    ensures
        0 <= x + y * w < w * h,
        y * w <= x + y * w,
{
    assert(x + y * w < w * h) by (nonlinear_arith)
        requires
            0 <= x < w,
            0 <= y < h,
    ;
}

impl<T: Copy + Blank> Grid<T> {
    /// Exec counterpart of `pos`, proved in range.
    fn pos_of(&self, x: i32, y: i32) -> (i: usize)
        requires
            self.wf(),
            self.spec_in_bounds(x as int, y as int),
        ensures
            i == self.pos(x as int, y as int),
            i < self.cells@.len(),
    {
        proof {
            lemma_pos_bounds(self.width as int, self.height as int, x as int, y as int);
        }
        (x + y * self.width) as usize
    }

    /// A fresh grid with every cell blank.
    pub fn new(width: i32, height: i32) -> (g: Grid<T>)
        requires
            0 <= width,
            0 <= height,
            width * height <= i32::MAX,
        ensures
            g.wf(),
            g.width == width,
            g.height == height,
            forall|i: int| 0 <= i < g.cells@.len() ==> g.cells@[i] == T::spec_blank(),
    {
        proof {
            assert(0 <= width * height) by (nonlinear_arith)
                requires
                    0 <= width,
                    0 <= height,
            ;
        }
        let n = (width * height) as usize;
        let mut cells: Vec<T> = Vec::new();
        let mut k: usize = 0;
        while k < n
            invariant
                k <= n,
                cells@.len() == k,
                forall|i: int| 0 <= i < k ==> cells@[i] == T::spec_blank(),
            decreases n - k,
        {
            cells.push(T::blank());
            k = k + 1;
        }
        Grid { width, height, cells }
    }

    pub fn get(&self, x: i32, y: i32) -> (r: &T)
        requires
            self.wf(),
            self.spec_in_bounds(x as int, y as int),
        ensures
            *r == self.at(x as int, y as int),
    {
        let i = self.pos_of(x, y);
        &self.cells[i]
    }

    pub fn get_mut(&mut self, x: i32, y: i32) -> (r: &mut T)
        requires
            old(self).wf(),
            old(self).spec_in_bounds(x as int, y as int),
        ensures
            *r == old(self).at(x as int, y as int),
            final(self).width == old(self).width,
            final(self).height == old(self).height,
            final(self).cells@ == old(self).cells@.update(
                old(self).pos(x as int, y as int),
                *final(r),
            ),
    {
        let i = self.pos_of(x, y);
        &mut self.cells[i]
    }

    pub fn set(&mut self, x: i32, y: i32, p: T)
        requires
            old(self).wf(),
            old(self).spec_in_bounds(x as int, y as int),
        ensures
            final(self).width == old(self).width,
            final(self).height == old(self).height,
            final(self).cells@ == old(self).cells@.update(old(self).pos(x as int, y as int), p),
    {
        let i = self.pos_of(x, y);
        self.cells.set(i, p);
    }

    /// Exchanges the contents of two in-bounds cells.
    pub fn swap(&mut self, x1: i32, y1: i32, x2: i32, y2: i32)
        requires
            old(self).wf(),
            old(self).spec_in_bounds(x1 as int, y1 as int),
            old(self).spec_in_bounds(x2 as int, y2 as int),
        ensures
            final(self).width == old(self).width,
            final(self).height == old(self).height,
            final(self).cells@ == old(self).cells@.update(
                old(self).pos(x1 as int, y1 as int),
                old(self).at(x2 as int, y2 as int),
            ).update(old(self).pos(x2 as int, y2 as int), old(self).at(x1 as int, y1 as int)),
    {
        let a: T = *self.get(x1, y1);
        let b: T = *self.get(x2, y2);
        self.set(x1, y1, b);
        proof {
            lemma_pos_bounds(self.width as int, self.height as int, x1 as int, y1 as int);
            assert(self.wf());
        }
        self.set(x2, y2, a);
    }

    pub fn in_bounds(&self, x: i32, y: i32) -> (r: bool)
        ensures
            r == self.spec_in_bounds(x as int, y as int),
    {
        x >= 0 && x < self.width && y >= 0 && y < self.height
    }

    /// Resets one in-bounds cell to the blank value.
    pub fn clear(&mut self, x: i32, y: i32)
        requires
            old(self).wf(),
            old(self).spec_in_bounds(x as int, y as int),
        ensures
            final(self).width == old(self).width,
            final(self).height == old(self).height,
            final(self).cells@ == old(self).cells@.update(
                old(self).pos(x as int, y as int),
                T::spec_blank(),
            ),
    {
        self.set(x, y, T::blank());
    }

    /// Resets every cell to the blank value.
    pub fn clear_all(&mut self)
        ensures
            final(self).width == old(self).width,
            final(self).height == old(self).height,
            final(self).cells@.len() == old(self).cells@.len(),
            forall|i: int| 0 <= i < final(self).cells@.len()
                ==> final(self).cells@[i] == T::spec_blank(),
    {
        let n = self.cells.len();
        let mut k: usize = 0;
        while k < n
            invariant
                k <= n,
                self.width == old(self).width,
                self.height == old(self).height,
                self.cells@.len() == n,
                forall|i: int| 0 <= i < k ==> self.cells@[i] == T::spec_blank(),
            decreases n - k,
        {
            self.cells.set(k, T::blank());
            k = k + 1;
        }
    }
}

impl Grid<Particle> {
    /// Out-of-bounds coordinates behave like a wall: never empty.
    pub open spec fn spec_is_empty(self, x: int, y: int) -> bool {
        self.spec_in_bounds(x, y) && self.at(x, y).p_type == ParticleType::Empty
    }

    pub fn is_empty(&self, x: i32, y: i32) -> (r: bool)
        requires
            self.wf(),
        ensures
            r == self.spec_is_empty(x as int, y as int),
    {
        if !self.in_bounds(x, y) {
            false
        } else {
            self.get(x, y).p_type == ParticleType::Empty
        }
    }

    /// Fill lookup; empty and out-of-bounds cells report zero fill.
    pub open spec fn spec_fill_ratio_at(self, x: int, y: int) -> u8 {
        if !self.spec_in_bounds(x, y) {
            0
        } else if self.at(x, y).p_type == ParticleType::Empty {
            0
        } else {
            self.at(x, y).fill_ratio
        }
    }

    pub fn fill_ratio_at(&self, x: i32, y: i32) -> (r: u8)
        requires
            self.wf(),
        ensures
            r == self.spec_fill_ratio_at(x as int, y as int),
    {
        if !self.in_bounds(x, y) {
            0
        } else {
            let tile = self.get(x, y);
            if tile.p_type == ParticleType::Empty {
                0
            } else {
                tile.fill_ratio
            }
        }
    }
}

pub type ParticleGrid = Grid<Particle>;

} // verus!
