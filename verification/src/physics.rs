//! The physics engine: sand displacement, bearing-biased pairwise water
//! flow, and the tick orchestrator. One call to `update` advances the grid
//! by one tick.
//!
//! Mid-tick state lives in two scratch grids the engine owns: a change mask
//! (`changed`) marking cells already resolved this tick, and a write buffer
//! (`staged`) holding their staged outcome. The *effective* state of a cell
//! is its staged value when marked, else its authoritative value; every flow
//! operation conserves the total water fill of the effective state, and the
//! row merge folds staged values into the authoritative grid without
//! changing the effective state at all.

use vstd::prelude::*;

use crate::grid::{
    lemma_pos_bounds, particle_valid, Bearing, Blank, Grid, Particle, ParticleGrid, ParticleType,
};
use crate::rng::{coin, entropy_seed, rng_from_seed};
use crate::tally::{
    fill_of, lemma_sand_above_update, lemma_sand_count_update, lemma_total_fill_update, sand_above,
    sand_count, sand_unit, total_fill,
};

verus! {

pub struct Physics {
    pub rng: rand::rngs::StdRng,
    pub grid: ParticleGrid,
    pub changed: Grid<bool>,
    pub staged: ParticleGrid,
    pub max_fill: u8,
}

/// Offset a bearing steers toward; `Still` steers nowhere.
pub open spec fn dir_dx(d: Bearing) -> int {
    match d {
        Bearing::Still => 0,
        Bearing::Left => -1,
        Bearing::Right => 1,
    }
}

/// Vertical flow from (x, y) to (x, y+1) would change the pair: the target
/// is empty or water, the source holds fill, and the target has room.
/// Gravity ignores relative fill levels, the one vertical/horizontal
/// asymmetry. Out-of-bounds targets act as walls.
pub open spec fn down_ready(cells: Seq<Particle>, w: int, h: int, m: u8, x: int, y: int) -> bool {
    let src = cells[x + y * w];
    let tgt = cells[x + (y + 1) * w];
    &&& y + 1 < h
    &&& (tgt.p_type == ParticleType::Empty || tgt.p_type == ParticleType::Water)
    &&& fill_of(src) > 0
    &&& fill_of(tgt) < m
}

/// Horizontal flow from (x, y) toward offset dx would change the pair:
/// the target is empty or strictly less filled water, and an even split
/// actually moves something (the source leads by at least two).
pub open spec fn horiz_ready(cells: Seq<Particle>, w: int, h: int, x: int, y: int, dx: int) -> bool {
    let src = cells[x + y * w];
    let tgt = cells[(x + dx) + y * w];
    &&& 0 <= x + dx < w
    &&& (tgt.p_type == ParticleType::Empty
        || (tgt.p_type == ParticleType::Water && fill_of(tgt) < fill_of(src)))
    &&& fill_of(src) >= fill_of(tgt) + 2
}

/// A sand grain could displace the cell at (tx, ty): in bounds and empty
/// or water. Sand never displaces wood or other sand.
pub open spec fn displace_ready(cells: Seq<Particle>, w: int, h: int, tx: int, ty: int) -> bool {
    let tgt = cells[tx + ty * w];
    &&& 0 <= tx < w
    &&& 0 <= ty < h
    &&& (tgt.p_type == ParticleType::Empty || tgt.p_type == ParticleType::Water)
}

/// No flow operation anywhere on the grid would change anything.
pub open spec fn cell_settled(cells: Seq<Particle>, w: int, h: int, m: u8, x: int, y: int) -> bool {
    let p = cells[x + y * w];
    match p.p_type {
        ParticleType::Water => !down_ready(cells, w, h, m, x, y) && !horiz_ready(
            cells,
            w,
            h,
            x,
            y,
            -1,
        ) && !horiz_ready(cells, w, h, x, y, 1),
        ParticleType::Sand => !displace_ready(cells, w, h, x, y + 1) && !displace_ready(
            cells,
            w,
            h,
            x - 1,
            y + 1,
        ) && !displace_ready(cells, w, h, x + 1, y + 1),
        _ => true,
    }
}

/// A configuration where no further eligible flow exists.
pub open spec fn grid_settled(cells: Seq<Particle>, w: int, h: int, m: u8) -> bool {
    forall|x: int, y: int|
        0 <= x < w && 0 <= y < h ==> #[trigger] cell_settled(cells, w, h, m, x, y)
}

impl Physics {
    pub open spec fn n(self) -> int {
        self.grid.area()
    }

    /// First cell index of row y.
    pub open spec fn row_start(self, y: int) -> int {
        y * self.grid.width
    }

    /// The three grids agree in shape.
    pub open spec fn dims_ok(self) -> bool {
        &&& self.grid.wf()
        &&& self.changed.wf()
        &&& self.staged.wf()
        &&& self.changed.width == self.grid.width
        &&& self.changed.height == self.grid.height
        &&& self.staged.width == self.grid.width
        &&& self.staged.height == self.grid.height
    }

    /// The effective mid-tick state of cell i: its staged value once marked
    /// resolved, else its authoritative value.
    pub open spec fn eff_cell(self, i: int) -> Particle {
        if self.changed.cells@[i] {
            self.staged.cells@[i]
        } else {
            self.grid.cells@[i]
        }
    }

    pub open spec fn eff(self) -> Seq<Particle> {
        Seq::new(self.n() as nat, |i: int| self.eff_cell(i))
    }

    /// The invariant that holds at every point inside a tick: shapes agree,
    /// every effective cell is valid, and unmarked cells have nothing
    /// staged.
    pub open spec fn mid_wf(self) -> bool {
        &&& self.dims_ok()
        &&& forall|i: int|
            0 <= i < self.n() ==> particle_valid(#[trigger] self.eff_cell(i), self.max_fill)
        &&& forall|i: int|
            0 <= i < self.n() && !self.changed.cells@[i] ==> #[trigger] self.staged.cells@[i]
                == Particle::spec_empty()
    }

    pub open spec fn mask_clear(self) -> bool {
        forall|i: int| 0 <= i < self.n() ==> !(#[trigger] self.changed.cells@[i])
    }

    /// The between-ticks invariant: mid-tick invariant plus an all-clear
    /// change mask (hence an all-blank write buffer).
    pub open spec fn wf(self) -> bool {
        self.mid_wf() && self.mask_clear()
    }

    /// The mask does not block a vertical flow from (x, y).
    pub open spec fn down_ok(self, x: int, y: int) -> bool {
        &&& down_ready(
            self.eff(),
            self.grid.width as int,
            self.grid.height as int,
            self.max_fill,
            x,
            y,
        )
        &&& !self.changed.cells@[self.grid.pos(x, y + 1)]
    }

    /// The mask does not block a horizontal flow from (x, y) toward dir.
    pub open spec fn horiz_ok(self, x: int, y: int, dir: Bearing) -> bool {
        &&& horiz_ready(
            self.eff(),
            self.grid.width as int,
            self.grid.height as int,
            x,
            y,
            dir_dx(dir),
        )
        &&& !self.changed.cells@[self.grid.pos(x + dir_dx(dir), y)]
    }

    /// The mask does not block a sand displacement into (tx, ty).
    pub open spec fn displace_ok(self, tx: int, ty: int) -> bool {
        &&& displace_ready(
            self.eff(),
            self.grid.width as int,
            self.grid.height as int,
            tx,
            ty,
        )
        &&& !self.changed.cells@[self.grid.pos(tx, ty)]
    }
}

/// What every staging operation preserves: the authoritative grid, the
/// capacity and all shapes are untouched; marks only accumulate, and mark
/// and buffer changes stay inside the index window [lo, hi); the total
/// water fill of the effective state is conserved; the number of sand
/// grains is conserved, and no prefix of the effective state gains grains
/// (grains only move to higher indices, that is, downward or within their
/// row); and wood takes part in nothing: no wood cell changes, and no cell
/// becomes wood.
pub open spec fn stage_step(pre: Physics, post: Physics, lo: int, hi: int) -> bool {
    &&& post.grid == pre.grid
    &&& post.max_fill == pre.max_fill
    &&& post.changed.width == pre.changed.width
    &&& post.changed.height == pre.changed.height
    &&& post.changed.cells@.len() == pre.changed.cells@.len()
    &&& post.staged.width == pre.staged.width
    &&& post.staged.height == pre.staged.height
    &&& post.staged.cells@.len() == pre.staged.cells@.len()
    &&& forall|i: int|
        0 <= i < pre.n() && !(lo <= i < hi) ==> #[trigger] post.changed.cells@[i]
            == pre.changed.cells@[i]
    &&& forall|i: int|
        0 <= i < pre.n() && !(lo <= i < hi) ==> #[trigger] post.staged.cells@[i]
            == pre.staged.cells@[i]
    &&& forall|i: int|
        0 <= i < pre.n() && pre.changed.cells@[i] ==> #[trigger] post.changed.cells@[i]
    &&& total_fill(post.eff()) == total_fill(pre.eff())
    &&& sand_count(post.eff()) == sand_count(pre.eff())
    &&& forall|k: int|
        0 <= k <= pre.n() ==> #[trigger] sand_above(post.eff(), k) <= sand_above(pre.eff(), k)
    &&& forall|i: int|
        0 <= i < pre.n() && #[trigger] post.eff_cell(i) != pre.eff_cell(i)
            ==> pre.eff_cell(i).p_type != ParticleType::Wood && post.eff_cell(i).p_type
            != ParticleType::Wood
}

/// What a flow leaves behind at a receiving cell, seen against an earlier
/// state: sand has sunk in, or water has strictly risen. Operations of the
/// remainder of the same tick can only deepen this relation at that cell,
/// never undo it, which is what makes one committed move visible in the
/// grid after the whole tick.
pub open spec fn sunk_into(a: Particle, b: Particle) -> bool {
    &&& a.p_type != ParticleType::Sand
    &&& (b.p_type == ParticleType::Sand || (b.p_type == ParticleType::Water && fill_of(b)
        > fill_of(a)))
}

/// Cell i is freshly marked resolved and received a sinking grain or rising
/// water, relative to `pre`.
pub open spec fn sunk_at(pre: Physics, post: Physics, i: int) -> bool {
    &&& 0 <= i < pre.n()
    &&& sunk_into(pre.eff_cell(i), post.eff_cell(i))
    &&& post.changed.cells@[i]
}

/// Receiving cells in the window's lower row [lo, hi) only ever sink or
/// rise: nothing there is overwritten arbitrarily.
pub open spec fn lower_row_sinks(pre: Physics, post: Physics, lo: int, hi: int) -> bool {
    forall|i: int|
        lo <= i < hi && 0 <= i < pre.n() && #[trigger] post.eff_cell(i) != pre.eff_cell(i)
            ==> sunk_into(pre.eff_cell(i), post.eff_cell(i))
}

/// Within one tick a cell's effective state changes only when that cell is
/// freshly marked resolved: no cell is the target of more than one
/// committed operation before the mask is reset.
pub open spec fn fresh_marks_only(pre: Physics, post: Physics) -> bool {
    forall|i: int|
        0 <= i < pre.n() && #[trigger] post.eff_cell(i) != pre.eff_cell(i)
            ==> !pre.changed.cells@[i] && post.changed.cells@[i]
}

/// As `fresh_marks_only`, except for the one cell `ex` (a flow source that
/// an earlier stage of the same compound operation already marked).
pub open spec fn fresh_marks_only_but(pre: Physics, post: Physics, ex: int) -> bool {
    forall|i: int|
        0 <= i < pre.n() && i != ex && #[trigger] post.eff_cell(i) != pre.eff_cell(i)
            ==> !pre.changed.cells@[i] && post.changed.cells@[i]
}

/// The exact effective state a successful horizontal flow toward dir
/// leaves: the pair's fill is split evenly, the (strictly fuller) source
/// keeping the odd remainder and taking dir as its bearing; an empty
/// target becomes water bearing dir, a water target keeps its own bearing.
pub open spec fn horiz_result(pre: Physics, x: int, y: int, dir: Bearing) -> Seq<Particle> {
    horiz_split(pre.eff(), pre.grid.width as int, x, y, dir)
}

/// The same split, over a bare run of cells (so it can also describe the
/// cascade, whose source state is the staged outcome of a vertical flow).
pub open spec fn horiz_split(cells: Seq<Particle>, w: int, x: int, y: int, dir: Bearing) -> Seq<
    Particle,
> {
    let sp = x + y * w;
    let tp = (x + dir_dx(dir)) + y * w;
    let src = cells[sp];
    let tgt = cells[tp];
    let s = fill_of(src);
    let t = fill_of(tgt);
    let half = ((s + t) / 2) as u8;
    let rest = (s + t - (s + t) / 2) as u8;
    let tb = if tgt.p_type == ParticleType::Empty {
        dir
    } else {
        tgt.bearing
    };
    cells.update(tp, Particle { p_type: ParticleType::Water, fill_ratio: half, bearing: tb }).update(
        sp,
        Particle { p_type: ParticleType::Water, fill_ratio: rest, bearing: dir },
    )
}

/// The exact effective state a successful sand displacement leaves: the
/// grain at (x, y) and the displaced content at (tx, ty) swap places.
pub open spec fn displace_result(pre: Physics, x: int, y: int, tx: int, ty: int) -> Seq<Particle> {
    let sp = pre.grid.pos(x, y);
    let tp = pre.grid.pos(tx, ty);
    pre.eff().update(tp, pre.eff_cell(sp)).update(sp, pre.eff_cell(tp))
}

/// The fill a successful vertical flow leaves in the lower cell: the pair's
/// whole fill, capped at the capacity.
pub open spec fn down_tgt_fill(pre: Physics, x: int, y: int) -> int {
    let s = fill_of(pre.eff()[pre.grid.pos(x, y)]);
    let t = fill_of(pre.eff()[pre.grid.pos(x, y + 1)]);
    if s + t <= pre.max_fill {
        s + t
    } else {
        pre.max_fill as int
    }
}

/// The exact particle a successful vertical flow leaves in the lower cell;
/// the lower cell keeps its prior bearing (a previously empty cell has
/// none).
pub open spec fn down_tgt_particle(pre: Physics, x: int, y: int) -> Particle {
    Particle {
        p_type: ParticleType::Water,
        fill_ratio: down_tgt_fill(pre, x, y) as u8,
        bearing: pre.eff()[pre.grid.pos(x, y + 1)].bearing,
    }
}

/// Two engine states that agree on everything but the tie-break
/// generator, which the grid model never reads.
pub open spec fn same_state(a: Physics, z: Physics) -> bool {
    &&& z.grid == a.grid
    &&& z.changed == a.changed
    &&& z.staged == a.staged
    &&& z.max_fill == a.max_fill
}

/// The sand mover's contract, as a relation between the states before and
/// after its call: down first, else one of the two receptive diagonals.
pub open spec fn sand_rel(a: Physics, z: Physics, x: int, y: int) -> bool {
    let moved = a.displace_ok(x, y + 1) || a.displace_ok(x - 1, y + 1) || a.displace_ok(
        x + 1,
        y + 1,
    );
    &&& stage_step(a, z, a.row_start(y), a.row_start(y + 2))
    &&& (!moved ==> z.changed == a.changed && z.staged == a.staged)
    &&& (a.displace_ok(x, y + 1) ==> z.eff() == displace_result(a, x, y, x, y + 1))
    &&& (moved && !a.displace_ok(x, y + 1) ==> (a.displace_ok(x - 1, y + 1) && z.eff()
        == displace_result(a, x, y, x - 1, y + 1)) || (a.displace_ok(x + 1, y + 1) && z.eff()
        == displace_result(a, x, y, x + 1, y + 1)))
    &&& (moved ==> z.changed.cells@[a.grid.pos(x, y)])
}

/// The water engine's contract, as a relation between the states before
/// and after its call: the mandatory vertical attempt with its cascade,
/// else the bearing-led horizontal machine.
pub open spec fn water_rel(a: Physics, z: Physics, x: int, y: int) -> bool {
    let moved = a.down_ok(x, y) || a.horiz_ok(x, y, Bearing::Left) || a.horiz_ok(
        x,
        y,
        Bearing::Right,
    );
    &&& stage_step(a, z, a.row_start(y), a.row_start(y + 2))
    &&& (!moved ==> z.changed == a.changed && z.staged == a.staged)
    &&& (a.down_ok(x, y) && down_residual(a, x, y) == 0 ==> z.eff() == a.eff().update(
        a.grid.pos(x, y + 1),
        down_tgt_particle(a, x, y),
    ).update(a.grid.pos(x, y), Particle::spec_empty()))
    &&& (a.down_ok(x, y) && down_residual(a, x, y) > 0 ==> exists|b: Bearing|
        #[trigger] cascade_outcome(a, z.eff(), x, y, b))
    &&& (moved && !a.down_ok(x, y) ==> exists|d: Bearing|
        #[trigger] horiz_machine_outcome(a, z.eff(), x, y, d))
    &&& (moved ==> z.changed.cells@[a.grid.pos(x, y)])
}

/// What the tick orchestrator does at cell (x, y): skip it where already
/// resolved or holding nothing movable, else run the matching mover.
pub open spec fn dispatch_rel(a: Physics, z: Physics, x: int, y: int) -> bool {
    if a.changed.cells@[a.grid.pos(x, y)] {
        same_state(a, z)
    } else {
        match a.grid.cells@[a.grid.pos(x, y)].p_type {
            ParticleType::Sand => sand_rel(a, z, x, y),
            ParticleType::Water => water_rel(a, z, x, y),
            _ => same_state(a, z),
        }
    }
}

/// Committing row y: marks of that row reset, the effective state and
/// everything outside the row untouched (the contract of the row merge).
pub open spec fn merge_rel(a: Physics, z: Physics, y: int) -> bool {
    &&& z.max_fill == a.max_fill
    &&& z.grid.width == a.grid.width
    &&& z.grid.height == a.grid.height
    &&& z.changed.width == a.changed.width
    &&& z.changed.height == a.changed.height
    &&& z.staged.width == a.staged.width
    &&& z.staged.height == a.staged.height
    &&& z.grid.cells@.len() == a.grid.cells@.len()
    &&& z.changed.cells@.len() == a.changed.cells@.len()
    &&& z.staged.cells@.len() == a.staged.cells@.len()
    &&& z.eff() == a.eff()
    &&& forall|i: int|
        a.row_start(y) <= i < a.row_start(y + 1) ==> !(#[trigger] z.changed.cells@[i])
    &&& forall|i: int|
        0 <= i < a.n() && !(a.row_start(y) <= i < a.row_start(y + 1))
            ==> #[trigger] z.changed.cells@[i] == a.changed.cells@[i] && z.staged.cells@[i]
            == a.staged.cells@[i] && z.grid.cells@[i] == a.grid.cells@[i]
}

/// Cells [0, x) of row y have been dispatched in order, left to right.
pub open spec fn sweep_upto(a: Physics, z: Physics, y: int, x: int) -> bool
    decreases x,
{
    if x <= 0 {
        same_state(a, z)
    } else {
        exists|m: Physics| #[trigger] dispatch_rel(m, z, x - 1, y) && sweep_upto(a, m, y, x - 1)
    }
}

/// One full row step: the whole row swept, then that row and the row
/// below it committed.
pub open spec fn row_rel(a: Physics, z: Physics, y: int) -> bool {
    exists|s1: Physics, s2: Physics|
        {
            &&& #[trigger] merge_rel(s1, s2, y)
            &&& sweep_upto(a, s1, y, a.grid.width as int)
            &&& if y + 1 < a.grid.height {
                merge_rel(s2, z, y + 1)
            } else {
                same_state(s2, z)
            }
        }
}

/// Row steps for rows h-1 down to yi, bottom to top.
pub open spec fn tick_upto(a: Physics, z: Physics, h: int, yi: int) -> bool
    decreases h - yi,
{
    if yi >= h {
        same_state(a, z)
    } else {
        exists|m: Physics| #[trigger] row_rel(m, z, yi) && tick_upto(a, m, h, yi + 1)
    }
}

/// One whole tick: every row swept bottom to top, left to right within a
/// row, each cell skipped or dispatched to its mover, and each swept row
/// committed together with the row below it — exactly as the per-cell
/// operation contracts allow.
pub open spec fn one_tick(a: Physics, z: Physics) -> bool {
    tick_upto(a, z, a.grid.height as int, 0)
}

/// Unpacks one row step of `tick_upto`: the state the remaining rows
/// started from.
pub proof fn lemma_tick_upto_elim(a: Physics, z: Physics, h: int, yi: int) -> (m: Physics)
    requires
        tick_upto(a, z, h, yi),
        yi < h,
    ensures
        row_rel(m, z, yi),
        tick_upto(a, m, h, yi + 1),
{
    choose|m: Physics| #[trigger] row_rel(m, z, yi) && tick_upto(a, m, h, yi + 1)
}

/// Unpacks one cell step of `sweep_upto`: the state the last dispatch
/// started from.
pub proof fn lemma_sweep_upto_elim(a: Physics, z: Physics, y: int, x: int) -> (m: Physics)
    requires
        sweep_upto(a, z, y, x),
        x > 0,
    ensures
        dispatch_rel(m, z, x - 1, y),
        sweep_upto(a, m, y, x - 1),
{
    choose|m: Physics| #[trigger] dispatch_rel(m, z, x - 1, y) && sweep_upto(a, m, y, x - 1)
}

/// Unpacks a row step: the swept state and the state after the first
/// commit.
pub proof fn lemma_row_rel_elim(a: Physics, z: Physics, y: int) -> (r: (Physics, Physics))
    requires
        row_rel(a, z, y),
    ensures
        merge_rel(r.0, r.1, y),
        sweep_upto(a, r.0, y, a.grid.width as int),
        y + 1 < a.grid.height ==> merge_rel(r.1, z, y + 1),
        !(y + 1 < a.grid.height) ==> same_state(r.1, z),
{
    let (s1, s2) = choose|s1: Physics, s2: Physics|
        {
            &&& #[trigger] merge_rel(s1, s2, y)
            &&& sweep_upto(a, s1, y, a.grid.width as int)
            &&& if y + 1 < a.grid.height {
                merge_rel(s2, z, y + 1)
            } else {
                same_state(s2, z)
            }
        };
    (s1, s2)
}

/// Drawing from the tie-break generator changes only the `rng` field,
/// which the grid model never reads.
proof fn lemma_rng_irrelevant(a: Physics, b: Physics)
    requires
        a.mid_wf(),
        b.grid == a.grid,
        b.changed == a.changed,
        b.staged == a.staged,
        b.max_fill == a.max_fill,
    ensures
        b.mid_wf(),
        b.eff() == a.eff(),
        forall|i: int| #[trigger] b.eff_cell(i) == a.eff_cell(i),
        forall|x: int, y: int| #[trigger] b.down_ok(x, y) == a.down_ok(x, y),
        forall|x: int, y: int, dir: Bearing|
            #[trigger] b.horiz_ok(x, y, dir) == a.horiz_ok(x, y, dir),
        forall|tx: int, ty: int| #[trigger] b.displace_ok(tx, ty) == a.displace_ok(tx, ty),
{
    assert forall|i: int| #[trigger] b.eff_cell(i) == a.eff_cell(i) by {}
    assert(b.eff() =~= a.eff());
    assert forall|i: int| 0 <= i < b.n() implies particle_valid(
        #[trigger] b.eff_cell(i),
        b.max_fill,
    ) by {
        assert(particle_valid(a.eff_cell(i), a.max_fill));
    }
    assert forall|i: int|
        0 <= i < b.n() && !b.changed.cells@[i] implies #[trigger] b.staged.cells@[i]
        == Particle::spec_empty() by {
        assert(a.staged.cells@[i] == Particle::spec_empty());
    }
}

/// The fill a vertical flow leaves in the source: what did not fit below.
pub open spec fn down_residual(pre: Physics, x: int, y: int) -> int {
    fill_of(pre.eff()[pre.grid.pos(x, y)]) + fill_of(pre.eff()[pre.grid.pos(x, y + 1)])
        - down_tgt_fill(pre, x, y)
}

/// The effective state after the vertical stage alone, when residual fill
/// keeps the source watery, carrying bearing b.
pub open spec fn down_staged(pre: Physics, x: int, y: int, b: Bearing) -> Seq<Particle> {
    pre.eff().update(pre.grid.pos(x, y + 1), down_tgt_particle(pre, x, y)).update(
        pre.grid.pos(x, y),
        Particle {
            p_type: ParticleType::Water,
            fill_ratio: down_residual(pre, x, y) as u8,
            bearing: b,
        },
    )
}

/// A cascade attempt toward d is taken when a split that way is ready in
/// the staged cells and the tick's mask so far does not block the target.
pub open spec fn cascade_ready(
    pre: Physics,
    staged_cells: Seq<Particle>,
    x: int,
    y: int,
    d: Bearing,
) -> bool {
    &&& horiz_ready(staged_cells, pre.grid.width as int, pre.grid.height as int, x, y, dir_dx(d))
    &&& !pre.changed.cells@[pre.grid.pos(x + dir_dx(d), y)]
}

/// The same-tick cascade after a partial vertical settle: with the source
/// keeping residual fill and bearing b (its own bearing, or either when it
/// had none), a horizontal split was attempted toward b and then toward
/// the opposite, and the first ready, unblocked attempt was taken.
pub open spec fn cascade_outcome(
    pre: Physics,
    post_eff: Seq<Particle>,
    x: int,
    y: int,
    b: Bearing,
) -> bool {
    let w = pre.grid.width as int;
    let src = pre.eff()[pre.grid.pos(x, y)];
    let midc = down_staged(pre, x, y, b);
    let b2 = b.spec_flip();
    &&& (b == Bearing::Left || b == Bearing::Right)
    &&& (b == src.bearing || src.bearing == Bearing::Still)
    &&& if cascade_ready(pre, midc, x, y, b) {
        post_eff == horiz_split(midc, w, x, y, b)
    } else if cascade_ready(pre, midc, x, y, b2) {
        post_eff == horiz_split(midc, w, x, y, b2)
    } else {
        post_eff == midc
    }
}

/// The horizontal half of the water state machine: led by bearing d (the
/// cell's own, or either when it had none), a split toward d was attempted
/// and then toward the opposite, and the first ready, unblocked attempt
/// was taken.
pub open spec fn horiz_machine_outcome(
    pre: Physics,
    post_eff: Seq<Particle>,
    x: int,
    y: int,
    d: Bearing,
) -> bool {
    let src = pre.eff()[pre.grid.pos(x, y)];
    let d2 = d.spec_flip();
    &&& (d == Bearing::Left || d == Bearing::Right)
    &&& (d == src.bearing || src.bearing == Bearing::Still)
    &&& if pre.horiz_ok(x, y, d) {
        post_eff == horiz_result(pre, x, y, d)
    } else if pre.horiz_ok(x, y, d2) {
        post_eff == horiz_result(pre, x, y, d2)
    } else {
        false
    }
}

/// A side cell a flow from (x, y) may legally pour into, judged against
/// the source's value when the operation began: empty, or water strictly
/// less filled than the source then held. Horizontal flow only ever moves
/// from higher fill to strictly lower fill, which prevents oscillation
/// once levels equalize.
pub open spec fn side_receptive(pre: Physics, x: int, y: int, dx: int) -> bool {
    let tgt = pre.eff_cell(pre.grid.pos(x + dx, y));
    ||| tgt.p_type == ParticleType::Empty
    ||| (tgt.p_type == ParticleType::Water && fill_of(tgt) < fill_of(
        pre.eff_cell(pre.grid.pos(x, y)),
    ))
}

/// Splitting a row index range off: the next row starts one width later.
proof fn lemma_row_start_succ(p: Physics, y: int)
    ensures
        p.row_start(y + 1) == p.row_start(y) + p.grid.width,
{
    assert((y + 1) * (p.grid.width as int) == y * (p.grid.width as int) + (
    p.grid.width as int)) by (nonlinear_arith);
}

/// Everything a vertical flow and its cascade can touch: the source, the
/// cell below, and the two side cells — a side only when it was receptive.
proof fn lemma_cascade_window(pre: Physics, post_eff: Seq<Particle>, x: int, y: int, b: Bearing)
    requires
        pre.mid_wf(),
        pre.grid.spec_in_bounds(x, y),
        y + 1 < pre.grid.height,
        pre.eff_cell(pre.grid.pos(x, y)).p_type == ParticleType::Water,
        cascade_outcome(pre, post_eff, x, y, b),
    ensures
        forall|i: int|
            0 <= i < pre.n() && #[trigger] post_eff[i] != pre.eff()[i] ==> i == pre.grid.pos(x, y)
                || i == pre.grid.pos(x, y + 1) || i == pre.grid.pos(x - 1, y) || i == pre.grid.pos(
                x + 1,
                y,
            ),
        forall|dx: int|
            (dx == -1 || dx == 1) && 0 <= x + dx < pre.grid.width && #[trigger] post_eff[pre.grid.pos(
                x + dx,
                y,
            )] != pre.eff()[pre.grid.pos(x + dx, y)] ==> side_receptive(pre, x, y, dx),
{
    let w = pre.grid.width as int;
    let h = pre.grid.height as int;
    let sp = pre.grid.pos(x, y);
    let dp = pre.grid.pos(x, y + 1);
    lemma_pos_bounds(w, h, x, y);
    lemma_pos_bounds(w, h, x, y + 1);
    lemma_row_start_succ(pre, y);
    let midc = down_staged(pre, x, y, b);
    assert(particle_valid(pre.eff_cell(sp), pre.max_fill));
    assert(particle_valid(pre.eff_cell(dp), pre.max_fill));
    assert(pre.eff()[sp] == pre.eff_cell(sp));
    assert(pre.eff()[dp] == pre.eff_cell(dp));
    // whatever did not fit below is at most what the source held
    assert(down_residual(pre, x, y) <= fill_of(pre.eff()[sp]));
    let b2 = b.spec_flip();
    let taken: Bearing = if cascade_ready(pre, midc, x, y, b) {
        b
    } else if cascade_ready(pre, midc, x, y, b2) {
        b2
    } else {
        Bearing::Still
    };
    if taken == Bearing::Still {
        assert(post_eff == midc);
        assert forall|i: int| 0 <= i < pre.n() && #[trigger] post_eff[i] != pre.eff()[i]
            implies i == sp || i == dp by {}
    } else {
        let dxt = dir_dx(taken);
        let tq = pre.grid.pos(x + dxt, y);
        assert(cascade_ready(pre, midc, x, y, taken));
        assert(0 <= x + dxt < w);
        lemma_pos_bounds(w, h, x + dxt, y);
        assert(tq != sp && tq != dp);
        assert(midc[tq] == pre.eff()[tq]);
        assert(post_eff == horiz_split(midc, w, x, y, taken));
        assert(fill_of(midc[sp]) == down_residual(pre, x, y));
        assert(side_receptive(pre, x, y, dxt));
        assert forall|i: int| 0 <= i < pre.n() && #[trigger] post_eff[i] != pre.eff()[i]
            implies i == sp || i == dp || i == tq by {}
        assert forall|dx: int|
            (dx == -1 || dx == 1) && 0 <= x + dx < pre.grid.width && #[trigger] post_eff[pre.grid.pos(
                x + dx,
                y,
            )] != pre.eff()[pre.grid.pos(x + dx, y)] implies side_receptive(pre, x, y, dx) by {
            let tqi = pre.grid.pos(x + dx, y);
            lemma_pos_bounds(w, h, x + dx, y);
            if tqi != tq {
                assert(tqi != sp && tqi != dp);
                assert(post_eff[tqi] == pre.eff()[tqi]);
            }
        }
    }
}

/// After a successful horizontal flow from a state `mid` that differs from
/// `pre` only in the generator, the receiving cell has strictly risen and
/// no cell of the row below changed.
proof fn lemma_horiz_witness(pre: Physics, mid: Physics, post: Physics, x: int, y: int, d: Bearing)
    requires
        pre.mid_wf(),
        mid.grid == pre.grid,
        mid.changed == pre.changed,
        mid.staged == pre.staged,
        mid.max_fill == pre.max_fill,
        post.grid == pre.grid,
        pre.grid.spec_in_bounds(x, y),
        d == Bearing::Left || d == Bearing::Right,
        mid.horiz_ok(x, y, d),
        post.eff() == horiz_result(mid, x, y, d),
        post.changed.cells@[pre.grid.pos(x + dir_dx(d), y)],
        forall|i: int|
            0 <= i < pre.n() && !(pre.row_start(y) <= i < pre.row_start(y + 1))
                ==> #[trigger] post.changed.cells@[i] == mid.changed.cells@[i]
                && post.staged.cells@[i] == mid.staged.cells@[i],
    ensures
        sunk_at(pre, post, pre.grid.pos(x + dir_dx(d), y)),
        lower_row_sinks(pre, post, pre.row_start(y + 1), pre.row_start(y + 2)),
{
    lemma_rng_irrelevant(pre, mid);
    let w = pre.grid.width as int;
    let h = pre.grid.height as int;
    let sp = pre.grid.pos(x, y);
    let tp = pre.grid.pos(x + dir_dx(d), y);
    lemma_pos_bounds(w, h, x, y);
    lemma_pos_bounds(w, h, x + dir_dx(d), y);
    lemma_row_start_succ(pre, y);
    lemma_row_start_succ(pre, y + 1);
    assert(particle_valid(pre.eff_cell(sp), pre.max_fill));
    assert(particle_valid(pre.eff_cell(tp), pre.max_fill));
    assert(mid.eff()[sp] == pre.eff_cell(sp));
    assert(mid.eff()[tp] == pre.eff_cell(tp));
    assert(tp != sp);
    assert(post.eff()[tp] == horiz_result(mid, x, y, d)[tp]);
    let s = fill_of(mid.eff()[sp]);
    let t = fill_of(mid.eff()[tp]);
    assert(s >= t + 2);
    assert(0 <= (s + t) / 2 <= 255);
    assert(fill_of(post.eff()[tp]) == (s + t) / 2);
    assert((s + t) / 2 > t);
    assert(post.eff()[tp] == post.eff_cell(tp));
    assert(sunk_at(pre, post, tp));
    assert forall|i: int|
        pre.row_start(y + 1) <= i < pre.row_start(y + 2) && 0 <= i < pre.n()
            && #[trigger] post.eff_cell(i) != pre.eff_cell(i) implies sunk_into(
        pre.eff_cell(i),
        post.eff_cell(i),
    ) by {
        assert(post.changed.cells@[i] == mid.changed.cells@[i]);
        assert(post.staged.cells@[i] == mid.staged.cells@[i]);
        assert(post.eff_cell(i) == mid.eff_cell(i));
        assert(mid.eff_cell(i) == pre.eff_cell(i));
        // the hypothesis is impossible: nothing below the swept row changed
        assert(false);
    }
}

impl Physics {
    /// A new engine around an existing grid, with the fill capacity chosen
    /// at grid creation and an explicit seed for the tie-break generator.
    pub fn new_seeded(grid: ParticleGrid, max_fill: u8, seed: u64) -> (engine: Physics)
        requires
            grid.wf(),
            forall|i: int|
                0 <= i < grid.cells@.len() ==> particle_valid(
                    #[trigger] grid.cells@[i],
                    max_fill,
                ),
        ensures
            engine.wf(),
            engine.grid == grid,
            engine.max_fill == max_fill,
    {
        let width = grid.width;
        let height = grid.height;
        let engine = Physics {
            rng: rng_from_seed(seed),
            changed: Grid::<bool>::new(width, height),
            staged: Grid::<Particle>::new(width, height),
            grid,
            max_fill,
        };
        engine
    }

    /// A new engine with an entropy-derived seed.
    pub fn new(grid: ParticleGrid, max_fill: u8) -> (engine: Physics)
        requires
            grid.wf(),
            forall|i: int|
                0 <= i < grid.cells@.len() ==> particle_valid(
                    #[trigger] grid.cells@[i],
                    max_fill,
                ),
        ensures
            engine.wf(),
            engine.grid == grid,
            engine.max_fill == max_fill,
    {
        let seed = entropy_seed();
        Physics::new_seeded(grid, max_fill, seed)
    }

    /// Mutable access to the authoritative grid for out-of-tick editing.
    /// A caller that breaks the grid invariant must restore it before the
    /// next tick.
    pub fn get_grid(&mut self) -> (r: &mut ParticleGrid)
        ensures
            *r == old(self).grid,
            final(self).grid == *final(r),
            final(self).changed == old(self).changed,
            final(self).staged == old(self).staged,
            final(self).max_fill == old(self).max_fill,
    {
        &mut self.grid
    }

    /// The effective mid-tick value of an in-bounds cell.
    fn eff_at(&self, x: i32, y: i32) -> (p: Particle)
        requires
            self.dims_ok(),
            self.grid.spec_in_bounds(x as int, y as int),
        ensures
            p == self.eff_cell(self.grid.pos(x as int, y as int)),
    {
        if *self.changed.get(x, y) {
            *self.staged.get(x, y)
        } else {
            *self.grid.get(x, y)
        }
    }

    /// Stages a new value for an in-bounds cell and marks it resolved.
    fn stage(&mut self, x: i32, y: i32, p: Particle)
        requires
            old(self).mid_wf(),
            old(self).grid.spec_in_bounds(x as int, y as int),
            particle_valid(p, old(self).max_fill),
        ensures
            final(self).mid_wf(),
            final(self).grid == old(self).grid,
            final(self).max_fill == old(self).max_fill,
            final(self).changed.width == old(self).changed.width,
            final(self).changed.height == old(self).changed.height,
            final(self).staged.width == old(self).staged.width,
            final(self).staged.height == old(self).staged.height,
            final(self).changed.cells@ == old(self).changed.cells@.update(
                old(self).grid.pos(x as int, y as int),
                true,
            ),
            final(self).staged.cells@ == old(self).staged.cells@.update(
                old(self).grid.pos(x as int, y as int),
                p,
            ),
            final(self).eff() == old(self).eff().update(old(self).grid.pos(x as int, y as int), p),
    {
        proof {
            lemma_pos_bounds(
                self.grid.width as int,
                self.grid.height as int,
                x as int,
                y as int,
            );
        }
        self.changed.set(x, y, true);
        self.staged.set(x, y, p);
        proof {
            let pos = old(self).grid.pos(x as int, y as int);
            assert(self.eff() =~= old(self).eff().update(pos, p));
            assert forall|i: int| 0 <= i < self.n() implies particle_valid(
                #[trigger] self.eff_cell(i),
                self.max_fill,
            ) by {
                if i == pos {
                    assert(self.eff_cell(i) == p);
                } else {
                    assert(self.eff_cell(i) == old(self).eff_cell(i));
                }
            }
            assert forall|i: int|
                0 <= i < self.n() && !self.changed.cells@[i] implies #[trigger] self.staged.cells@[i]
                == Particle::spec_empty() by {
                assert(i != pos);
                assert(self.staged.cells@[i] == old(self).staged.cells@[i]);
            }
        }
    }

    /// Commits row yr: copies each marked cell's staged value into the
    /// authoritative grid and resets its mark and buffer entry. The
    /// effective state of every cell is unchanged.
    fn merge_row(&mut self, yr: i32)
        requires
            old(self).mid_wf(),
            0 <= yr < old(self).grid.height,
        ensures
            final(self).mid_wf(),
            final(self).max_fill == old(self).max_fill,
            final(self).grid.width == old(self).grid.width,
            final(self).grid.height == old(self).grid.height,
            final(self).changed.width == old(self).changed.width,
            final(self).changed.height == old(self).changed.height,
            final(self).staged.width == old(self).staged.width,
            final(self).staged.height == old(self).staged.height,
            final(self).grid.cells@.len() == old(self).grid.cells@.len(),
            final(self).changed.cells@.len() == old(self).changed.cells@.len(),
            final(self).staged.cells@.len() == old(self).staged.cells@.len(),
            final(self).eff() == old(self).eff(),
            forall|i: int|
                old(self).row_start(yr as int) <= i < old(self).row_start(yr as int + 1)
                    ==> !(#[trigger] final(self).changed.cells@[i]),
            forall|i: int|
                0 <= i < old(self).n() && !(old(self).row_start(yr as int) <= i < old(
                    self,
                ).row_start(yr as int + 1)) ==> #[trigger] final(self).changed.cells@[i] == old(
                    self,
                ).changed.cells@[i] && final(self).staged.cells@[i] == old(self).staged.cells@[i]
                    && final(self).grid.cells@[i] == old(self).grid.cells@[i],
    {
        let ghost pre = *self;
        let w = self.grid.width;
        let mut x: i32 = 0;
        while x < w
            invariant
                pre.mid_wf(),
                self.mid_wf(),
                0 <= x <= w,
                w == self.grid.width,
                0 <= yr < self.grid.height,
                self.max_fill == pre.max_fill,
                self.grid.width == pre.grid.width,
                self.grid.height == pre.grid.height,
                self.changed.width == pre.changed.width,
                self.changed.height == pre.changed.height,
                self.staged.width == pre.staged.width,
                self.staged.height == pre.staged.height,
                self.grid.cells@.len() == pre.grid.cells@.len(),
                self.changed.cells@.len() == pre.changed.cells@.len(),
                self.staged.cells@.len() == pre.staged.cells@.len(),
                self.eff() == pre.eff(),
                forall|i: int|
                    pre.row_start(yr as int) <= i < pre.row_start(yr as int) + x
                        ==> !(#[trigger] self.changed.cells@[i]),
                forall|i: int|
                    0 <= i < pre.n() && !(pre.row_start(yr as int) <= i < pre.row_start(
                        yr as int,
                    ) + x) ==> #[trigger] self.changed.cells@[i] == pre.changed.cells@[i]
                        && self.staged.cells@[i] == pre.staged.cells@[i]
                        && self.grid.cells@[i] == pre.grid.cells@[i],
            decreases w - x,
        {
            proof {
                lemma_pos_bounds(
                    self.grid.width as int,
                    self.grid.height as int,
                    x as int,
                    yr as int,
                );
            }
            let ghost before = *self;
            let ghost pos = before.grid.pos(x as int, yr as int);
            if *self.changed.get(x, yr) {
                let p = *self.staged.get(x, yr);
                self.grid.set(x, yr, p);
                self.staged.set(x, yr, Particle::empty());
                self.changed.set(x, yr, false);
                proof {
                    assert forall|i: int| 0 <= i < self.n() implies self.eff_cell(i)
                        == before.eff_cell(i) by {
                        if i == pos {
                            assert(self.eff_cell(i) == self.grid.cells@[pos]);
                        }
                    }
                    assert(self.eff() =~= before.eff());
                    assert forall|i: int| 0 <= i < self.n() implies particle_valid(
                        #[trigger] self.eff_cell(i),
                        self.max_fill,
                    ) by {
                        assert(particle_valid(before.eff_cell(i), before.max_fill));
                    }
                    assert forall|i: int|
                        0 <= i < self.n() && !self.changed.cells@[i] implies #[trigger] self
                        .staged.cells@[i] == Particle::spec_empty() by {
                        if i != pos {
                            assert(self.staged.cells@[i] == before.staged.cells@[i]);
                            assert(self.changed.cells@[i] == before.changed.cells@[i]);
                        }
                    }
                }
            } else {
                proof {
                    assert(self.staged.cells@[pos] == Particle::spec_empty());
                }
            }
            x = x + 1;
        }
        proof {
            assert(pre.row_start(yr as int + 1) == pre.row_start(yr as int) + w) by (
            nonlinear_arith)
                requires
                    pre.row_start(yr as int + 1) == (yr as int + 1) * pre.grid.width,
                    pre.row_start(yr as int) == (yr as int) * pre.grid.width,
                    w == pre.grid.width,
            ;
            assert(self.eff() =~= pre.eff());
        }
    }

    /// Attempts a horizontal flow from the water cell at (x, y) toward dir:
    /// an even split of the pair's fill, the (strictly fuller) source
    /// keeping the odd remainder. Fails, changing nothing, where the target
    /// is a wall, blocked, already resolved, or the split would change
    /// nothing; succeeds exactly on `horiz_ok`.
    pub fn try_flow_horizontal(&mut self, x: i32, y: i32, dir: Bearing) -> (moved: bool)
        requires
            old(self).mid_wf(),
            old(self).grid.spec_in_bounds(x as int, y as int),
            old(self).eff_cell(old(self).grid.pos(x as int, y as int)).p_type
                == ParticleType::Water,
            dir == Bearing::Left || dir == Bearing::Right,
        ensures
            final(self).mid_wf(),
            stage_step(
                *old(self),
                *final(self),
                old(self).row_start(y as int),
                old(self).row_start(y as int + 1),
            ),
            fresh_marks_only_but(*old(self), *final(self), old(self).grid.pos(x as int, y as int)),
            moved == old(self).horiz_ok(x as int, y as int, dir),
            !moved ==> final(self).changed == old(self).changed,
            !moved ==> final(self).staged == old(self).staged,
            moved ==> final(self).changed.cells@[old(self).grid.pos(x as int, y as int)],
            moved ==> final(self).changed.cells@[old(self).grid.pos(
                x as int + dir_dx(dir),
                y as int,
            )],
            moved ==> final(self).eff() == horiz_result(*old(self), x as int, y as int, dir),
    {
        let ghost pre = *self;
        let ghost sp = pre.grid.pos(x as int, y as int);
        proof {
            lemma_pos_bounds(
                pre.grid.width as int,
                pre.grid.height as int,
                x as int,
                y as int,
            );
            lemma_row_start_succ(pre, y as int);
        }
        let dx: i32 = if dir == Bearing::Left {
            -1
        } else {
            1
        };
        let tx = x + dx;
        if !self.grid.in_bounds(tx, y) {
            return false;
        }
        let ghost tp = pre.grid.pos(tx as int, y as int);
        proof {
            lemma_pos_bounds(
                pre.grid.width as int,
                pre.grid.height as int,
                tx as int,
                y as int,
            );
        }
        if *self.changed.get(tx, y) {
            return false;
        }
        let src = self.eff_at(x, y);
        let tgt = self.eff_at(tx, y);
        let eligible = match tgt.p_type {
            ParticleType::Empty => true,
            ParticleType::Water => tgt.fill_ratio < src.fill_ratio,
            _ => false,
        };
        if !eligible {
            return false;
        }
        let s = src.fill_ratio;
        let t = tgt.fill_ratio;
        if (s as u16) < (t as u16) + 2 {
            return false;
        }
        let net: u16 = s as u16 + t as u16;
        let half: u8 = (net / 2) as u8;
        let rest: u8 = (net - net / 2) as u8;
        let tb = if tgt.p_type == ParticleType::Empty {
            dir
        } else {
            tgt.bearing
        };
        let ghost pt = Particle { p_type: ParticleType::Water, fill_ratio: half, bearing: tb };
        let ghost ps = Particle { p_type: ParticleType::Water, fill_ratio: rest, bearing: dir };
        proof {
            assert(t == fill_of(pre.eff()[tp]));
            assert(s == fill_of(pre.eff()[sp]));
            assert(half <= rest && rest <= s - 1);
            assert(particle_valid(pt, pre.max_fill));
            assert(particle_valid(ps, pre.max_fill));
        }
        self.stage(tx, y, Particle { p_type: ParticleType::Water, fill_ratio: half, bearing: tb });
        self.stage(x, y, Particle { p_type: ParticleType::Water, fill_ratio: rest, bearing: dir });
        proof {
            let mid = pre.eff().update(tp, pt);
            assert(self.eff() == mid.update(sp, ps));
            lemma_total_fill_update(pre.eff(), tp, pt);
            lemma_total_fill_update(mid, sp, ps);
            lemma_sand_count_update(pre.eff(), tp, pt);
            lemma_sand_count_update(mid, sp, ps);
            assert(mid[sp] == pre.eff()[sp]);
            assert(total_fill(self.eff()) == total_fill(pre.eff()));
            assert(sand_count(self.eff()) == sand_count(pre.eff()));
            assert forall|k: int| 0 <= k <= pre.n() implies #[trigger] sand_above(self.eff(), k)
                <= sand_above(pre.eff(), k) by {
                lemma_sand_above_update(pre.eff(), tp, pt, k);
                lemma_sand_above_update(mid, sp, ps, k);
                assert(sand_unit(pt) == sand_unit(pre.eff()[tp]));
                assert(sand_unit(ps) == sand_unit(mid[sp]));
            }
            assert forall|i: int|
                0 <= i < pre.n() && i != sp && #[trigger] self.eff_cell(i) != pre.eff_cell(i)
                implies !pre.changed.cells@[i] && self.changed.cells@[i] by {
                assert(self.eff()[i] == self.eff_cell(i));
                assert(pre.eff()[i] == pre.eff_cell(i));
                if i != tp {
                    assert(self.eff()[i] == pre.eff()[i]);
                }
            }
            assert forall|i: int|
                0 <= i < pre.n() && #[trigger] self.eff_cell(i) != pre.eff_cell(i)
                implies pre.eff_cell(i).p_type != ParticleType::Wood && self.eff_cell(i).p_type
                != ParticleType::Wood by {
                assert(self.eff()[i] == self.eff_cell(i));
                assert(pre.eff()[i] == pre.eff_cell(i));
                if i != tp && i != sp {
                    assert(self.eff()[i] == pre.eff()[i]);
                }
            }
        }
        true
    }

    /// Attempts a vertical flow from the water cell at (x, y) into (x, y+1):
    /// gravity pours as much of the pair's fill as fits into the lower cell.
    /// Where the source keeps residual fill, it is assigned a bearing (its
    /// own, or a coin flip if it had none) and the flow cascades into one
    /// horizontal attempt per direction from the source's new state, so a
    /// partly drained cell starts spreading in the same tick. Fails,
    /// changing nothing, where the lower cell is a wall, blocked, already
    /// resolved, or full; succeeds exactly on `down_ok`.
    #[verifier::rlimit(80)]
    pub fn try_flow_down(&mut self, x: i32, y: i32) -> (moved: bool)
        requires
            old(self).mid_wf(),
            old(self).grid.spec_in_bounds(x as int, y as int),
            old(self).eff_cell(old(self).grid.pos(x as int, y as int)).p_type
                == ParticleType::Water,
            !old(self).changed.cells@[old(self).grid.pos(x as int, y as int)],
        ensures
            final(self).mid_wf(),
            stage_step(
                *old(self),
                *final(self),
                old(self).row_start(y as int),
                old(self).row_start(y as int + 2),
            ),
            fresh_marks_only(*old(self), *final(self)),
            lower_row_sinks(
                *old(self),
                *final(self),
                old(self).row_start(y as int + 1),
                old(self).row_start(y as int + 2),
            ),
            moved == old(self).down_ok(x as int, y as int),
            !moved ==> final(self).changed == old(self).changed,
            !moved ==> final(self).staged == old(self).staged,
            moved ==> final(self).changed.cells@[old(self).grid.pos(x as int, y as int)],
            moved ==> final(self).changed.cells@[old(self).grid.pos(x as int, y as int + 1)],
            moved ==> final(self).eff()[old(self).grid.pos(x as int, y as int + 1)]
                == down_tgt_particle(*old(self), x as int, y as int),
            moved && down_residual(*old(self), x as int, y as int) == 0 ==> final(self).eff()
                == old(self).eff().update(
                old(self).grid.pos(x as int, y as int + 1),
                down_tgt_particle(*old(self), x as int, y as int),
            ).update(old(self).grid.pos(x as int, y as int), Particle::spec_empty()),
            moved && down_residual(*old(self), x as int, y as int) > 0 ==> exists|b: Bearing|
                #[trigger] cascade_outcome(*old(self), final(self).eff(), x as int, y as int, b),
            forall|i: int|
                0 <= i < old(self).n() && #[trigger] final(self).eff_cell(i) != old(self).eff_cell(
                    i,
                ) ==> i == old(self).grid.pos(x as int, y as int) || i == old(self).grid.pos(
                    x as int,
                    y as int + 1,
                ) || i == old(self).grid.pos(x as int - 1, y as int) || i == old(self).grid.pos(
                    x as int + 1,
                    y as int,
                ),
            forall|dx: int|
                (dx == -1 || dx == 1) && 0 <= x as int + dx < old(self).grid.width
                    && #[trigger] final(self).eff_cell(old(self).grid.pos(x as int + dx, y as int))
                    != old(self).eff_cell(old(self).grid.pos(x as int + dx, y as int))
                    ==> side_receptive(*old(self), x as int, y as int, dx),
    {
        let ghost pre = *self;
        let ghost sp = pre.grid.pos(x as int, y as int);
        proof {
            lemma_pos_bounds(
                pre.grid.width as int,
                pre.grid.height as int,
                x as int,
                y as int,
            );
            lemma_row_start_succ(pre, y as int);
            lemma_row_start_succ(pre, y as int + 1);
        }
        let h = self.grid.height;
        if y + 1 >= h {
            return false;
        }
        let ghost dp = pre.grid.pos(x as int, y as int + 1);
        proof {
            lemma_pos_bounds(
                pre.grid.width as int,
                pre.grid.height as int,
                x as int,
                y as int + 1,
            );
        }
        if *self.changed.get(x, y + 1) {
            return false;
        }
        let src = self.eff_at(x, y);
        let tgt = self.eff_at(x, y + 1);
        let tgt_is_open = match tgt.p_type {
            ParticleType::Empty => true,
            ParticleType::Water => true,
            _ => false,
        };
        if !tgt_is_open {
            return false;
        }
        let s = src.fill_ratio;
        let t = tgt.fill_ratio;
        let m = self.max_fill;
        if s == 0 || t >= m {
            return false;
        }
        proof {
            assert(s == fill_of(pre.eff()[sp]));
            assert(t == fill_of(pre.eff()[dp]));
        }
        let net: u16 = s as u16 + t as u16;
        let new_t: u8 = if net > m as u16 {
            m
        } else {
            net as u8
        };
        let new_s: u8 = (net - new_t as u16) as u8;
        let ghost pt = down_tgt_particle(pre, x as int, y as int);
        proof {
            assert(new_t as int == down_tgt_fill(pre, x as int, y as int));
            assert(particle_valid(pt, pre.max_fill));
        }
        self.stage(
            x,
            y + 1,
            Particle { p_type: ParticleType::Water, fill_ratio: new_t, bearing: tgt.bearing },
        );
        if new_s == 0 {
            self.stage(x, y, Particle::empty());
            proof {
                let mid = pre.eff().update(dp, pt);
                assert(self.eff() == mid.update(sp, Particle::spec_empty()));
                lemma_total_fill_update(pre.eff(), dp, pt);
                lemma_total_fill_update(mid, sp, Particle::spec_empty());
                lemma_sand_count_update(pre.eff(), dp, pt);
                lemma_sand_count_update(mid, sp, Particle::spec_empty());
                assert(mid[sp] == pre.eff()[sp]);
                assert(total_fill(self.eff()) == total_fill(pre.eff()));
                assert(sand_count(self.eff()) == sand_count(pre.eff()));
                assert forall|i: int|
                    0 <= i < pre.n() && #[trigger] self.eff_cell(i) != pre.eff_cell(i)
                    implies pre.eff_cell(i).p_type != ParticleType::Wood && self.eff_cell(
                    i,
                ).p_type != ParticleType::Wood by {
                    assert(self.eff()[i] == self.eff_cell(i));
                    assert(pre.eff()[i] == pre.eff_cell(i));
                    if i != sp && i != dp {
                        assert(self.eff()[i] == pre.eff()[i]);
                    }
                }
                assert forall|k: int| 0 <= k <= pre.n() implies #[trigger] sand_above(
                    self.eff(),
                    k,
                ) <= sand_above(pre.eff(), k) by {
                    lemma_sand_above_update(pre.eff(), dp, pt, k);
                    lemma_sand_above_update(mid, sp, Particle::spec_empty(), k);
                    assert(sand_unit(pt) == sand_unit(pre.eff()[dp]));
                    assert(sand_unit(Particle::spec_empty()) == sand_unit(mid[sp]));
                }
                assert forall|i: int|
                    0 <= i < pre.n() && #[trigger] self.eff_cell(i) != pre.eff_cell(i)
                    implies !pre.changed.cells@[i] && self.changed.cells@[i] by {
                    assert(self.eff()[i] == self.eff_cell(i));
                    assert(pre.eff()[i] == pre.eff_cell(i));
                    if i != sp && i != dp {
                        assert(self.eff()[i] == pre.eff()[i]);
                    }
                }
                assert forall|i: int|
                    pre.row_start(y as int + 1) <= i < pre.row_start(y as int + 2) && 0 <= i
                        < pre.n() && #[trigger] self.eff_cell(i) != pre.eff_cell(i)
                    implies sunk_into(pre.eff_cell(i), self.eff_cell(i)) by {
                    assert(self.eff()[i] == self.eff_cell(i));
                    assert(pre.eff()[i] == pre.eff_cell(i));
                    if i != dp {
                        assert(i != sp);
                        assert(self.eff()[i] == pre.eff()[i]);
                    } else {
                        assert(self.eff_cell(dp) == pt);
                        assert(fill_of(pre.eff_cell(dp)) == t);
                    }
                }
                assert forall|i: int|
                    0 <= i < pre.n() && #[trigger] self.eff_cell(i) != pre.eff_cell(i)
                    implies i == sp || i == dp || i == pre.grid.pos(x as int - 1, y as int) || i
                    == pre.grid.pos(x as int + 1, y as int) by {
                    assert(self.eff()[i] == self.eff_cell(i));
                    assert(pre.eff()[i] == pre.eff_cell(i));
                    if i != sp && i != dp {
                        assert(self.eff()[i] == pre.eff()[i]);
                    }
                }
                assert forall|dx: int|
                    (dx == -1 || dx == 1) && 0 <= x as int + dx < pre.grid.width
                        && #[trigger] self.eff_cell(pre.grid.pos(x as int + dx, y as int))
                        != pre.eff_cell(pre.grid.pos(x as int + dx, y as int))
                    implies side_receptive(pre, x as int, y as int, dx) by {
                    let tqi = pre.grid.pos(x as int + dx, y as int);
                    lemma_pos_bounds(
                        pre.grid.width as int,
                        pre.grid.height as int,
                        x as int + dx,
                        y as int,
                    );
                    assert(tqi != sp && tqi != dp);
                    assert(self.eff()[tqi] == pre.eff()[tqi]);
                    assert(self.eff()[tqi] == self.eff_cell(tqi));
                    assert(pre.eff()[tqi] == pre.eff_cell(tqi));
                    // no side cell changes when the source drained fully
                    assert(false);
                }
            }
            return true;
        }
        let mut b = src.bearing;
        if b == Bearing::Still {
            let ghost precoin = *self;
            let heads = coin(&mut self.rng);
            proof {
                lemma_rng_irrelevant(precoin, *self);
            }
            b = if heads {
                Bearing::Left
            } else {
                Bearing::Right
            };
        }
        let ghost ps = Particle { p_type: ParticleType::Water, fill_ratio: new_s, bearing: b };
        proof {
            assert(particle_valid(ps, pre.max_fill));
        }
        self.stage(x, y, Particle { p_type: ParticleType::Water, fill_ratio: new_s, bearing: b });
        let ghost mid2 = *self;
        proof {
            let mid = pre.eff().update(dp, pt);
            assert(mid2.eff() == mid.update(sp, ps));
            lemma_total_fill_update(pre.eff(), dp, pt);
            lemma_total_fill_update(mid, sp, ps);
            lemma_sand_count_update(pre.eff(), dp, pt);
            lemma_sand_count_update(mid, sp, ps);
            assert(mid[sp] == pre.eff()[sp]);
            assert(total_fill(mid2.eff()) == total_fill(pre.eff()));
            assert(sand_count(mid2.eff()) == sand_count(pre.eff()));
            assert forall|i: int|
                0 <= i < pre.n() && #[trigger] mid2.eff_cell(i) != pre.eff_cell(i)
                implies pre.eff_cell(i).p_type != ParticleType::Wood && mid2.eff_cell(i).p_type
                != ParticleType::Wood by {
                assert(mid2.eff()[i] == mid2.eff_cell(i));
                assert(pre.eff()[i] == pre.eff_cell(i));
                if i != sp && i != dp {
                    assert(mid2.eff()[i] == pre.eff()[i]);
                }
            }
            assert forall|k: int| 0 <= k <= pre.n() implies #[trigger] sand_above(mid2.eff(), k)
                <= sand_above(pre.eff(), k) by {
                lemma_sand_above_update(pre.eff(), dp, pt, k);
                lemma_sand_above_update(mid, sp, ps, k);
                assert(sand_unit(pt) == sand_unit(pre.eff()[dp]));
                assert(sand_unit(ps) == sand_unit(mid[sp]));
            }
            assert(mid2.eff_cell(sp).p_type == ParticleType::Water);
        }
        let first = self.try_flow_horizontal(x, y, b);
        let ghost after1 = *self;
        let mut second = false;
        if !first {
            second = self.try_flow_horizontal(x, y, b.flip());
        }
        proof {
            assert(stage_step(mid2, *self, pre.row_start(y as int), pre.row_start(y as int + 1)));
            assert forall|k: int| 0 <= k <= pre.n() implies #[trigger] sand_above(self.eff(), k)
                <= sand_above(pre.eff(), k) by {
                assert(sand_above(self.eff(), k) <= sand_above(mid2.eff(), k));
            }
            assert forall|i: int|
                0 <= i < pre.n() && #[trigger] self.eff_cell(i) != pre.eff_cell(i)
                implies pre.eff_cell(i).p_type != ParticleType::Wood && self.eff_cell(i).p_type
                != ParticleType::Wood by {
                if self.eff_cell(i) != mid2.eff_cell(i) {
                    assert(mid2.eff_cell(i).p_type != ParticleType::Wood);
                    assert(self.eff_cell(i).p_type != ParticleType::Wood);
                }
                if mid2.eff_cell(i) != pre.eff_cell(i) {
                    assert(pre.eff_cell(i).p_type != ParticleType::Wood);
                    assert(mid2.eff_cell(i).p_type != ParticleType::Wood);
                }
            }
            assert(self.eff_cell(dp) == mid2.eff_cell(dp));
            assert(self.eff()[dp] == self.eff_cell(dp));
            assert forall|i: int|
                0 <= i < pre.n() && #[trigger] self.eff_cell(i) != pre.eff_cell(i)
                implies !pre.changed.cells@[i] && self.changed.cells@[i] by {
                if i != sp && i != dp {
                    assert(mid2.eff_cell(i) == pre.eff_cell(i));
                    assert(mid2.changed.cells@[i] == pre.changed.cells@[i]);
                    if self.eff_cell(i) != mid2.eff_cell(i) {
                        assert(!mid2.changed.cells@[i] && self.changed.cells@[i]);
                    } else {
                        assert(self.changed.cells@[i] == pre.changed.cells@[i]
                            || self.changed.cells@[i]);
                    }
                } else {
                    assert(mid2.changed.cells@[i]);
                    assert(self.changed.cells@[i]);
                }
            }
            assert forall|i: int|
                pre.row_start(y as int + 1) <= i < pre.row_start(y as int + 2) && 0 <= i < pre.n()
                    && #[trigger] self.eff_cell(i) != pre.eff_cell(i)
                implies sunk_into(pre.eff_cell(i), self.eff_cell(i)) by {
                assert(self.changed.cells@[i] == mid2.changed.cells@[i]);
                assert(self.staged.cells@[i] == mid2.staged.cells@[i]);
                assert(self.eff_cell(i) == mid2.eff_cell(i));
                if i != dp {
                    assert(i != sp);
                    assert(mid2.eff()[i] == pre.eff()[i]);
                    assert(mid2.eff()[i] == mid2.eff_cell(i));
                    assert(pre.eff()[i] == pre.eff_cell(i));
                } else {
                    assert(mid2.eff_cell(dp) == pt);
                    assert(fill_of(pre.eff_cell(dp)) == t);
                }
            }
            assert(down_residual(pre, x as int, y as int) == new_s as int);
            let midc = down_staged(pre, x as int, y as int, b);
            assert(mid2.eff() == midc);
            let wi = pre.grid.width as int;
            let hi = pre.grid.height as int;
            assert forall|d: Bearing| d == Bearing::Left || d == Bearing::Right implies #[trigger] mid2.horiz_ok(
                x as int,
                y as int,
                d,
            ) == cascade_ready(pre, midc, x as int, y as int, d) by {
                let dx = dir_dx(d);
                if 0 <= x as int + dx < wi {
                    let tq = pre.grid.pos(x as int + dx, y as int);
                    lemma_pos_bounds(wi, hi, x as int + dx, y as int);
                    assert(tq != sp);
                    assert(tq < pre.row_start(y as int + 1) <= dp);
                    assert(mid2.changed.cells@[tq] == pre.changed.cells@[tq]);
                }
            }
            if first {
                assert(mid2.horiz_ok(x as int, y as int, b));
                assert(cascade_ready(pre, midc, x as int, y as int, b));
                assert(self.eff() == horiz_result(mid2, x as int, y as int, b));
                assert(self.eff() == horiz_split(midc, wi, x as int, y as int, b));
            } else {
                assert(!cascade_ready(pre, midc, x as int, y as int, b));
                assert(after1.changed == mid2.changed);
                assert(after1.staged == mid2.staged);
                assert(after1.grid == mid2.grid);
                lemma_rng_irrelevant(mid2, after1);
                if second {
                    assert(after1.horiz_ok(x as int, y as int, b.spec_flip()));
                    assert(mid2.horiz_ok(x as int, y as int, b.spec_flip()));
                    assert(cascade_ready(pre, midc, x as int, y as int, b.spec_flip()));
                    assert(self.eff() == horiz_result(after1, x as int, y as int, b.spec_flip()));
                    assert(after1.eff() == midc);
                    assert(self.eff() == horiz_split(midc, wi, x as int, y as int, b.spec_flip()));
                } else {
                    assert(self.changed == after1.changed);
                    assert(self.staged == after1.staged);
                    assert(self.grid == after1.grid);
                    lemma_rng_irrelevant(mid2, *self);
                    assert(self.eff() == midc);
                }
            }
            assert(cascade_outcome(pre, self.eff(), x as int, y as int, b));
            lemma_cascade_window(pre, self.eff(), x as int, y as int, b);
            assert forall|i: int|
                0 <= i < pre.n() && #[trigger] self.eff_cell(i) != pre.eff_cell(i)
                implies i == sp || i == dp || i == pre.grid.pos(x as int - 1, y as int) || i
                == pre.grid.pos(x as int + 1, y as int) by {
                assert(self.eff()[i] == self.eff_cell(i));
                assert(pre.eff()[i] == pre.eff_cell(i));
            }
            assert forall|dx: int|
                (dx == -1 || dx == 1) && 0 <= x as int + dx < pre.grid.width
                    && #[trigger] self.eff_cell(pre.grid.pos(x as int + dx, y as int))
                    != pre.eff_cell(pre.grid.pos(x as int + dx, y as int))
                implies side_receptive(pre, x as int, y as int, dx) by {
                let tqi = pre.grid.pos(x as int + dx, y as int);
                lemma_pos_bounds(
                    pre.grid.width as int,
                    pre.grid.height as int,
                    x as int + dx,
                    y as int,
                );
                assert(self.eff()[tqi] == self.eff_cell(tqi));
                assert(pre.eff()[tqi] == pre.eff_cell(tqi));
            }
        }
        true
    }

    /// The per-cell water state machine: one mandatory vertical attempt,
    /// then up to two horizontal attempts, led by the cell's bearing (or a
    /// coin flip where it has none) and retried in the opposite direction.
    /// Succeeds exactly where some flow from (x, y) is ready and unblocked;
    /// fails, changing nothing, otherwise.
    #[verifier::rlimit(60)]
    pub fn try_move_water(&mut self, x: i32, y: i32) -> (moved: bool)
        requires
            old(self).mid_wf(),
            old(self).grid.spec_in_bounds(x as int, y as int),
            old(self).eff_cell(old(self).grid.pos(x as int, y as int)).p_type
                == ParticleType::Water,
            !old(self).changed.cells@[old(self).grid.pos(x as int, y as int)],
        ensures
            final(self).mid_wf(),
            stage_step(
                *old(self),
                *final(self),
                old(self).row_start(y as int),
                old(self).row_start(y as int + 2),
            ),
            fresh_marks_only(*old(self), *final(self)),
            lower_row_sinks(
                *old(self),
                *final(self),
                old(self).row_start(y as int + 1),
                old(self).row_start(y as int + 2),
            ),
            moved == (old(self).down_ok(x as int, y as int) || old(self).horiz_ok(
                x as int,
                y as int,
                Bearing::Left,
            ) || old(self).horiz_ok(x as int, y as int, Bearing::Right)),
            moved ==> sunk_at(
                *old(self),
                *final(self),
                old(self).grid.pos(x as int, y as int + 1),
            ) || sunk_at(*old(self), *final(self), old(self).grid.pos(x as int - 1, y as int))
                || sunk_at(*old(self), *final(self), old(self).grid.pos(x as int + 1, y as int)),
            moved ==> final(self).changed.cells@[old(self).grid.pos(x as int, y as int)],
            forall|i: int|
                0 <= i < old(self).n() && #[trigger] final(self).eff_cell(i) != old(self).eff_cell(
                    i,
                ) ==> i == old(self).grid.pos(x as int, y as int) || i == old(self).grid.pos(
                    x as int,
                    y as int + 1,
                ) || i == old(self).grid.pos(x as int - 1, y as int) || i == old(self).grid.pos(
                    x as int + 1,
                    y as int,
                ),
            forall|dx: int|
                (dx == -1 || dx == 1) && 0 <= x as int + dx < old(self).grid.width
                    && #[trigger] final(self).eff_cell(old(self).grid.pos(x as int + dx, y as int))
                    != old(self).eff_cell(old(self).grid.pos(x as int + dx, y as int))
                    ==> side_receptive(*old(self), x as int, y as int, dx),
            old(self).down_ok(x as int, y as int) && down_residual(*old(self), x as int, y as int)
                == 0 ==> final(self).eff() == old(self).eff().update(
                old(self).grid.pos(x as int, y as int + 1),
                down_tgt_particle(*old(self), x as int, y as int),
            ).update(old(self).grid.pos(x as int, y as int), Particle::spec_empty()),
            old(self).down_ok(x as int, y as int) && down_residual(*old(self), x as int, y as int)
                > 0 ==> exists|b: Bearing|
                #[trigger] cascade_outcome(*old(self), final(self).eff(), x as int, y as int, b),
            moved && !old(self).down_ok(x as int, y as int) ==> exists|d: Bearing|
                #[trigger] horiz_machine_outcome(
                    *old(self),
                    final(self).eff(),
                    x as int,
                    y as int,
                    d,
                ),
            !moved ==> final(self).changed == old(self).changed,
            !moved ==> final(self).staged == old(self).staged,
    {
        let ghost pre = *self;
        let ghost sp = pre.grid.pos(x as int, y as int);
        proof {
            lemma_pos_bounds(
                pre.grid.width as int,
                pre.grid.height as int,
                x as int,
                y as int,
            );
            lemma_row_start_succ(pre, y as int);
            lemma_row_start_succ(pre, y as int + 1);
        }
        if self.try_flow_down(x, y) {
            proof {
                let dp = pre.grid.pos(x as int, y as int + 1);
                lemma_pos_bounds(
                    pre.grid.width as int,
                    pre.grid.height as int,
                    x as int,
                    y as int + 1,
                );
                assert(pre.down_ok(x as int, y as int));
                assert(particle_valid(pre.eff_cell(sp), pre.max_fill));
                assert(particle_valid(pre.eff_cell(dp), pre.max_fill));
                assert(self.eff()[dp] == down_tgt_particle(pre, x as int, y as int));
                assert(self.eff()[dp] == self.eff_cell(dp));
                assert(pre.eff()[dp] == pre.eff_cell(dp));
                assert(pre.eff()[sp] == pre.eff_cell(sp));
                assert(0 <= down_tgt_fill(pre, x as int, y as int) <= 255);
                assert(fill_of(self.eff_cell(dp)) == down_tgt_fill(pre, x as int, y as int));
                assert(down_tgt_fill(pre, x as int, y as int) > fill_of(pre.eff_cell(dp)));
                assert(sunk_at(pre, *self, dp));
            }
            return true;
        }
        proof {
            lemma_rng_irrelevant(pre, *self);
        }
        let src = self.eff_at(x, y);
        let mut d = src.bearing;
        if d == Bearing::Still {
            let ghost precoin = *self;
            let heads = coin(&mut self.rng);
            proof {
                lemma_rng_irrelevant(precoin, *self);
                lemma_rng_irrelevant(pre, *self);
            }
            d = if heads {
                Bearing::Left
            } else {
                Bearing::Right
            };
        }
        let ghost mid = *self;
        let d2 = d.flip();
        if self.try_flow_horizontal(x, y, d) {
            proof {
                assert(mid.horiz_ok(x as int, y as int, d));
                assert(pre.horiz_ok(x as int, y as int, d));
                assert(stage_step(pre, *self, pre.row_start(y as int), pre.row_start(y as int + 1)));
                assert(stage_step(pre, *self, pre.row_start(y as int), pre.row_start(y as int + 2)));
                assert forall|i: int|
                    0 <= i < pre.n() && #[trigger] self.eff_cell(i) != pre.eff_cell(i)
                    implies !pre.changed.cells@[i] && self.changed.cells@[i] by {
                    assert(mid.eff_cell(i) == pre.eff_cell(i));
                    assert(mid.changed.cells@[i] == pre.changed.cells@[i]);
                    if i == sp {
                        assert(self.changed.cells@[sp]);
                    }
                }
                lemma_horiz_witness(pre, mid, *self, x as int, y as int, d);
                let dxd = dir_dx(d);
                let tq = pre.grid.pos(x as int + dxd, y as int);
                lemma_pos_bounds(
                    pre.grid.width as int,
                    pre.grid.height as int,
                    x as int + dxd,
                    y as int,
                );
                assert(self.eff() == horiz_result(mid, x as int, y as int, d));
                assert(horiz_result(mid, x as int, y as int, d) == horiz_split(
                    pre.eff(),
                    pre.grid.width as int,
                    x as int,
                    y as int,
                    d,
                ));
                assert forall|i: int|
                    0 <= i < pre.n() && #[trigger] self.eff_cell(i) != pre.eff_cell(i)
                    implies i == sp || i == pre.grid.pos(x as int, y as int + 1) || i
                    == pre.grid.pos(x as int - 1, y as int) || i == pre.grid.pos(
                    x as int + 1,
                    y as int,
                ) by {
                    assert(self.eff()[i] == self.eff_cell(i));
                    assert(pre.eff()[i] == pre.eff_cell(i));
                    if i != sp && i != tq {
                        assert(self.eff()[i] == pre.eff()[i]);
                    }
                }
                assert forall|dx: int|
                    (dx == -1 || dx == 1) && 0 <= x as int + dx < pre.grid.width
                        && #[trigger] self.eff_cell(pre.grid.pos(x as int + dx, y as int))
                        != pre.eff_cell(pre.grid.pos(x as int + dx, y as int))
                    implies side_receptive(pre, x as int, y as int, dx) by {
                    let tqi = pre.grid.pos(x as int + dx, y as int);
                    lemma_pos_bounds(
                        pre.grid.width as int,
                        pre.grid.height as int,
                        x as int + dx,
                        y as int,
                    );
                    assert(self.eff()[tqi] == self.eff_cell(tqi));
                    assert(pre.eff()[tqi] == pre.eff_cell(tqi));
                    if tqi != tq {
                        assert(self.eff()[tqi] == pre.eff()[tqi]);
                        assert(false);
                    }
                }
                assert(src == pre.eff_cell(sp));
                assert(pre.eff()[sp] == pre.eff_cell(sp));
                assert(horiz_result(mid, x as int, y as int, d) == horiz_result(
                    pre,
                    x as int,
                    y as int,
                    d,
                ));
                assert(horiz_machine_outcome(pre, self.eff(), x as int, y as int, d));
            }
            return true;
        }
        proof {
            lemma_rng_irrelevant(pre, *self);
        }
        let ghost mid2 = *self;
        let moved2 = self.try_flow_horizontal(x, y, d2);
        proof {
            assert(moved2 == mid2.horiz_ok(x as int, y as int, d2));
            assert(mid2.horiz_ok(x as int, y as int, d2) == pre.horiz_ok(x as int, y as int, d2));
            assert(!pre.down_ok(x as int, y as int));
            assert(!pre.horiz_ok(x as int, y as int, d));
            assert((d == Bearing::Left && d2 == Bearing::Right) || (d == Bearing::Right && d2
                == Bearing::Left));
            assert(stage_step(pre, *self, pre.row_start(y as int), pre.row_start(y as int + 2)));
            assert forall|i: int|
                0 <= i < pre.n() && #[trigger] self.eff_cell(i) != pre.eff_cell(i)
                implies !pre.changed.cells@[i] && self.changed.cells@[i] by {
                assert(mid2.eff_cell(i) == pre.eff_cell(i));
                assert(mid2.changed.cells@[i] == pre.changed.cells@[i]);
                if i == sp {
                    assert(self.changed.cells@[sp]);
                }
            }
            if moved2 {
                lemma_horiz_witness(pre, mid2, *self, x as int, y as int, d2);
                let dxd = dir_dx(d2);
                let tq = pre.grid.pos(x as int + dxd, y as int);
                lemma_pos_bounds(
                    pre.grid.width as int,
                    pre.grid.height as int,
                    x as int + dxd,
                    y as int,
                );
                assert(self.eff() == horiz_result(mid2, x as int, y as int, d2));
                assert(horiz_result(mid2, x as int, y as int, d2) == horiz_split(
                    pre.eff(),
                    pre.grid.width as int,
                    x as int,
                    y as int,
                    d2,
                ));
                assert forall|i: int|
                    0 <= i < pre.n() && #[trigger] self.eff_cell(i) != pre.eff_cell(i)
                    implies i == sp || i == pre.grid.pos(x as int, y as int + 1) || i
                    == pre.grid.pos(x as int - 1, y as int) || i == pre.grid.pos(
                    x as int + 1,
                    y as int,
                ) by {
                    assert(self.eff()[i] == self.eff_cell(i));
                    assert(pre.eff()[i] == pre.eff_cell(i));
                    if i != sp && i != tq {
                        assert(self.eff()[i] == pre.eff()[i]);
                    }
                }
                assert forall|dx: int|
                    (dx == -1 || dx == 1) && 0 <= x as int + dx < pre.grid.width
                        && #[trigger] self.eff_cell(pre.grid.pos(x as int + dx, y as int))
                        != pre.eff_cell(pre.grid.pos(x as int + dx, y as int))
                    implies side_receptive(pre, x as int, y as int, dx) by {
                    let tqi = pre.grid.pos(x as int + dx, y as int);
                    lemma_pos_bounds(
                        pre.grid.width as int,
                        pre.grid.height as int,
                        x as int + dx,
                        y as int,
                    );
                    assert(self.eff()[tqi] == self.eff_cell(tqi));
                    assert(pre.eff()[tqi] == pre.eff_cell(tqi));
                    if tqi != tq {
                        assert(self.eff()[tqi] == pre.eff()[tqi]);
                        assert(false);
                    }
                }
                assert(src == pre.eff_cell(sp));
                assert(pre.eff()[sp] == pre.eff_cell(sp));
                assert(horiz_result(mid2, x as int, y as int, d2) == horiz_result(
                    pre,
                    x as int,
                    y as int,
                    d2,
                ));
                assert(horiz_machine_outcome(pre, self.eff(), x as int, y as int, d));
            } else {
                assert forall|i: int|
                    pre.row_start(y as int + 1) <= i < pre.row_start(y as int + 2) && 0 <= i
                        < pre.n() && #[trigger] self.eff_cell(i) != pre.eff_cell(i)
                    implies sunk_into(pre.eff_cell(i), self.eff_cell(i)) by {
                    assert(self.eff_cell(i) == mid2.eff_cell(i));
                    assert(mid2.eff_cell(i) == pre.eff_cell(i));
                    // the hypothesis is impossible: a failed attempt changed nothing
                    assert(false);
                }
                assert forall|i: int|
                    0 <= i < pre.n() && #[trigger] self.eff_cell(i) != pre.eff_cell(i)
                    implies i == sp || i == pre.grid.pos(x as int, y as int + 1) || i
                    == pre.grid.pos(x as int - 1, y as int) || i == pre.grid.pos(
                    x as int + 1,
                    y as int,
                ) by {
                    assert(self.eff_cell(i) == mid2.eff_cell(i));
                    assert(mid2.eff_cell(i) == pre.eff_cell(i));
                    assert(false);
                }
                assert forall|dx: int|
                    (dx == -1 || dx == 1) && 0 <= x as int + dx < pre.grid.width
                        && #[trigger] self.eff_cell(pre.grid.pos(x as int + dx, y as int))
                        != pre.eff_cell(pre.grid.pos(x as int + dx, y as int))
                    implies side_receptive(pre, x as int, y as int, dx) by {
                    let tqi = pre.grid.pos(x as int + dx, y as int);
                    lemma_pos_bounds(
                        pre.grid.width as int,
                        pre.grid.height as int,
                        x as int + dx,
                        y as int,
                    );
                    assert(self.eff_cell(tqi) == mid2.eff_cell(tqi));
                    assert(mid2.eff_cell(tqi) == pre.eff_cell(tqi));
                    assert(false);
                }
            }
        }
        moved2
    }

    /// Attempts to move the sand grain at (x1, y1) into (x2, y2) one row
    /// below, swapping with the displaced content (empty space or water,
    /// never wood or sand). Succeeds exactly on `displace_ok`; fails,
    /// changing nothing, otherwise.
    pub fn try_displace_sand(&mut self, x1: i32, y1: i32, x2: i32, y2: i32) -> (moved: bool)
        requires
            old(self).mid_wf(),
            old(self).grid.spec_in_bounds(x1 as int, y1 as int),
            old(self).eff_cell(old(self).grid.pos(x1 as int, y1 as int)).p_type
                == ParticleType::Sand,
            !old(self).changed.cells@[old(self).grid.pos(x1 as int, y1 as int)],
            y2 == y1 + 1,
            x1 - 1 <= x2 <= x1 + 1,
        ensures
            final(self).mid_wf(),
            stage_step(
                *old(self),
                *final(self),
                old(self).row_start(y1 as int),
                old(self).row_start(y1 as int + 2),
            ),
            fresh_marks_only(*old(self), *final(self)),
            lower_row_sinks(
                *old(self),
                *final(self),
                old(self).row_start(y1 as int + 1),
                old(self).row_start(y1 as int + 2),
            ),
            moved == old(self).displace_ok(x2 as int, y2 as int),
            moved ==> sunk_at(*old(self), *final(self), old(self).grid.pos(x2 as int, y2 as int)),
            !moved ==> final(self).changed == old(self).changed,
            !moved ==> final(self).staged == old(self).staged,
            moved ==> final(self).changed.cells@[old(self).grid.pos(x1 as int, y1 as int)],
            moved ==> final(self).changed.cells@[old(self).grid.pos(x2 as int, y2 as int)],
            moved ==> final(self).eff() == displace_result(
                *old(self),
                x1 as int,
                y1 as int,
                x2 as int,
                y2 as int,
            ),
    {
        let ghost pre = *self;
        let ghost sp = pre.grid.pos(x1 as int, y1 as int);
        proof {
            lemma_pos_bounds(
                pre.grid.width as int,
                pre.grid.height as int,
                x1 as int,
                y1 as int,
            );
            lemma_row_start_succ(pre, y1 as int);
            lemma_row_start_succ(pre, y1 as int + 1);
        }
        if !self.grid.in_bounds(x2, y2) {
            return false;
        }
        let ghost tp = pre.grid.pos(x2 as int, y2 as int);
        proof {
            lemma_pos_bounds(
                pre.grid.width as int,
                pre.grid.height as int,
                x2 as int,
                y2 as int,
            );
        }
        if *self.changed.get(x2, y2) {
            return false;
        }
        let tgt = self.eff_at(x2, y2);
        let open = match tgt.p_type {
            ParticleType::Empty => true,
            ParticleType::Water => true,
            _ => false,
        };
        if !open {
            return false;
        }
        let src = self.eff_at(x1, y1);
        self.stage(x2, y2, src);
        self.stage(x1, y1, tgt);
        proof {
            let srcp = pre.eff_cell(sp);
            let tgtp = pre.eff_cell(tp);
            let mid = pre.eff().update(tp, srcp);
            assert(sp < pre.row_start(y1 as int + 1) <= tp);
            assert(self.eff() == mid.update(sp, tgtp));
            lemma_total_fill_update(pre.eff(), tp, srcp);
            lemma_total_fill_update(mid, sp, tgtp);
            lemma_sand_count_update(pre.eff(), tp, srcp);
            lemma_sand_count_update(mid, sp, tgtp);
            assert(mid[sp] == pre.eff()[sp]);
            assert(total_fill(self.eff()) == total_fill(pre.eff()));
            assert(sand_count(self.eff()) == sand_count(pre.eff()));
            assert forall|i: int|
                0 <= i < pre.n() && #[trigger] self.eff_cell(i) != pre.eff_cell(i)
                implies pre.eff_cell(i).p_type != ParticleType::Wood && self.eff_cell(i).p_type
                != ParticleType::Wood by {
                assert(self.eff()[i] == self.eff_cell(i));
                assert(pre.eff()[i] == pre.eff_cell(i));
                if i != sp && i != tp {
                    assert(self.eff()[i] == pre.eff()[i]);
                }
            }
            assert forall|k: int| 0 <= k <= pre.n() implies #[trigger] sand_above(self.eff(), k)
                <= sand_above(pre.eff(), k) by {
                lemma_sand_above_update(pre.eff(), tp, srcp, k);
                lemma_sand_above_update(mid, sp, tgtp, k);
                assert(sand_unit(srcp) == 1);
                assert(sand_unit(tgtp) == 0);
                assert(sand_unit(pre.eff()[tp]) == 0);
                assert(sand_unit(mid[sp]) == 1);
            }
            assert forall|i: int|
                0 <= i < pre.n() && #[trigger] self.eff_cell(i) != pre.eff_cell(i)
                implies !pre.changed.cells@[i] && self.changed.cells@[i] by {
                assert(self.eff()[i] == self.eff_cell(i));
                assert(pre.eff()[i] == pre.eff_cell(i));
                if i != sp && i != tp {
                    assert(self.eff()[i] == pre.eff()[i]);
                }
            }
            assert(self.eff()[tp] == srcp);
            assert(self.eff()[tp] == self.eff_cell(tp));
            assert(pre.eff()[tp] == pre.eff_cell(tp));
            assert(sunk_at(pre, *self, tp));
            assert forall|i: int|
                pre.row_start(y1 as int + 1) <= i < pre.row_start(y1 as int + 2) && 0 <= i
                    < pre.n() && #[trigger] self.eff_cell(i) != pre.eff_cell(i)
                implies sunk_into(pre.eff_cell(i), self.eff_cell(i)) by {
                assert(self.eff()[i] == self.eff_cell(i));
                assert(pre.eff()[i] == pre.eff_cell(i));
                if i != tp {
                    assert(i != sp);
                    assert(self.eff()[i] == pre.eff()[i]);
                }
            }
        }
        true
    }

    /// The sand mover: tries straight down, then one random diagonal, then
    /// the other. Succeeds exactly where one of the three lower cells can
    /// be displaced; fails, changing nothing, otherwise.
    pub fn try_move_sand(&mut self, x: i32, y: i32) -> (moved: bool)
        requires
            old(self).mid_wf(),
            old(self).grid.spec_in_bounds(x as int, y as int),
            old(self).eff_cell(old(self).grid.pos(x as int, y as int)).p_type
                == ParticleType::Sand,
            !old(self).changed.cells@[old(self).grid.pos(x as int, y as int)],
        ensures
            final(self).mid_wf(),
            stage_step(
                *old(self),
                *final(self),
                old(self).row_start(y as int),
                old(self).row_start(y as int + 2),
            ),
            fresh_marks_only(*old(self), *final(self)),
            lower_row_sinks(
                *old(self),
                *final(self),
                old(self).row_start(y as int + 1),
                old(self).row_start(y as int + 2),
            ),
            moved == (old(self).displace_ok(x as int, y as int + 1) || old(self).displace_ok(
                x as int - 1,
                y as int + 1,
            ) || old(self).displace_ok(x as int + 1, y as int + 1)),
            moved ==> sunk_at(
                *old(self),
                *final(self),
                old(self).grid.pos(x as int, y as int + 1),
            ) || sunk_at(
                *old(self),
                *final(self),
                old(self).grid.pos(x as int - 1, y as int + 1),
            ) || sunk_at(*old(self), *final(self), old(self).grid.pos(x as int + 1, y as int + 1)),
            moved ==> final(self).changed.cells@[old(self).grid.pos(x as int, y as int)],
            old(self).displace_ok(x as int, y as int + 1) ==> moved && final(self).eff()
                == displace_result(*old(self), x as int, y as int, x as int, y as int + 1),
            moved && !old(self).displace_ok(x as int, y as int + 1) ==> (old(self).displace_ok(
                x as int - 1,
                y as int + 1,
            ) && final(self).eff() == displace_result(
                *old(self),
                x as int,
                y as int,
                x as int - 1,
                y as int + 1,
            )) || (old(self).displace_ok(x as int + 1, y as int + 1) && final(self).eff()
                == displace_result(*old(self), x as int, y as int, x as int + 1, y as int + 1)),
            !moved ==> final(self).changed == old(self).changed,
            !moved ==> final(self).staged == old(self).staged,
    {
        let ghost pre = *self;
        let ghost sp = pre.grid.pos(x as int, y as int);
        proof {
            lemma_pos_bounds(
                pre.grid.width as int,
                pre.grid.height as int,
                x as int,
                y as int,
            );
            lemma_row_start_succ(pre, y as int);
            lemma_row_start_succ(pre, y as int + 1);
        }
        if self.try_displace_sand(x, y, x, y + 1) {
            return true;
        }
        proof {
            lemma_rng_irrelevant(pre, *self);
        }
        let ghost precoin = *self;
        let heads = coin(&mut self.rng);
        proof {
            lemma_rng_irrelevant(precoin, *self);
            lemma_rng_irrelevant(pre, *self);
        }
        let dir: i32 = if heads {
            1
        } else {
            -1
        };
        let ghost mid = *self;
        if self.try_displace_sand(x, y, x + dir, y + 1) {
            proof {
                assert(mid.displace_ok(x as int + dir as int, y as int + 1));
                assert(pre.displace_ok(x as int + dir as int, y as int + 1));
                assert(stage_step(pre, *self, pre.row_start(y as int), pre.row_start(y as int + 2)));
                assert forall|i: int|
                    0 <= i < pre.n() && #[trigger] self.eff_cell(i) != pre.eff_cell(i)
                    implies !pre.changed.cells@[i] && self.changed.cells@[i] by {
                    assert(mid.eff_cell(i) == pre.eff_cell(i));
                    assert(mid.changed.cells@[i] == pre.changed.cells@[i]);
                }
                let tpm = pre.grid.pos(x as int + dir as int, y as int + 1);
                assert(sunk_at(mid, *self, tpm));
                assert(mid.eff_cell(tpm) == pre.eff_cell(tpm));
                assert(sunk_at(pre, *self, tpm));
                assert(mid.eff_cell(sp) == pre.eff_cell(sp));
                assert(displace_result(mid, x as int, y as int, x as int + dir as int, y as int + 1)
                    == displace_result(
                    pre,
                    x as int,
                    y as int,
                    x as int + dir as int,
                    y as int + 1,
                ));
                assert forall|i: int|
                    pre.row_start(y as int + 1) <= i < pre.row_start(y as int + 2) && 0 <= i
                        < pre.n() && #[trigger] self.eff_cell(i) != pre.eff_cell(i)
                    implies sunk_into(pre.eff_cell(i), self.eff_cell(i)) by {
                    assert(mid.eff_cell(i) == pre.eff_cell(i));
                    assert(self.eff_cell(i) != mid.eff_cell(i));
                    assert(sunk_into(mid.eff_cell(i), self.eff_cell(i)));
                }
            }
            return true;
        }
        proof {
            lemma_rng_irrelevant(pre, *self);
        }
        let ghost mid2 = *self;
        let moved2 = self.try_displace_sand(x, y, x - dir, y + 1);
        proof {
            assert(moved2 == mid2.displace_ok(x as int - dir as int, y as int + 1));
            assert(mid2.displace_ok(x as int - dir as int, y as int + 1) == pre.displace_ok(
                x as int - dir as int,
                y as int + 1,
            ));
            assert(!pre.displace_ok(x as int, y as int + 1));
            assert(!pre.displace_ok(x as int + dir as int, y as int + 1));
            assert(stage_step(pre, *self, pre.row_start(y as int), pre.row_start(y as int + 2)));
            assert forall|i: int|
                0 <= i < pre.n() && #[trigger] self.eff_cell(i) != pre.eff_cell(i)
                implies !pre.changed.cells@[i] && self.changed.cells@[i] by {
                assert(mid2.eff_cell(i) == pre.eff_cell(i));
                assert(mid2.changed.cells@[i] == pre.changed.cells@[i]);
            }
            if moved2 {
                let tpm = pre.grid.pos(x as int - dir as int, y as int + 1);
                assert(sunk_at(mid2, *self, tpm));
                assert(mid2.eff_cell(tpm) == pre.eff_cell(tpm));
                assert(sunk_at(pre, *self, tpm));
                assert(mid2.eff_cell(sp) == pre.eff_cell(sp));
                assert(displace_result(
                    mid2,
                    x as int,
                    y as int,
                    x as int - dir as int,
                    y as int + 1,
                ) == displace_result(
                    pre,
                    x as int,
                    y as int,
                    x as int - dir as int,
                    y as int + 1,
                ));
                assert forall|i: int|
                    pre.row_start(y as int + 1) <= i < pre.row_start(y as int + 2) && 0 <= i
                        < pre.n() && #[trigger] self.eff_cell(i) != pre.eff_cell(i)
                    implies sunk_into(pre.eff_cell(i), self.eff_cell(i)) by {
                    assert(mid2.eff_cell(i) == pre.eff_cell(i));
                    assert(self.eff_cell(i) != mid2.eff_cell(i));
                    assert(sunk_into(mid2.eff_cell(i), self.eff_cell(i)));
                }
            } else {
                assert forall|i: int|
                    pre.row_start(y as int + 1) <= i < pre.row_start(y as int + 2) && 0 <= i
                        < pre.n() && #[trigger] self.eff_cell(i) != pre.eff_cell(i)
                    implies sunk_into(pre.eff_cell(i), self.eff_cell(i)) by {
                    assert(self.eff_cell(i) == mid2.eff_cell(i));
                    assert(mid2.eff_cell(i) == pre.eff_cell(i));
                    // the hypothesis is impossible: a failed attempt changed nothing
                    assert(false);
                }
            }
        }
        moved2
    }

    /// Advances the whole grid by one tick: sweeps rows bottom to top, left
    /// to right within a row, dispatching each unresolved occupied cell to
    /// the sand mover or the water engine, and commits the swept row and
    /// the row below it after each row. One tick conserves the total water
    /// fill exactly, conserves the number of sand grains and never lifts
    /// one to a lower index (so never to a higher row), moves and creates
    /// no wood, leaves a settled grid untouched, strictly changes any grid
    /// that is not settled, and — by `one_tick` — performs exactly one
    /// bottom-to-top sweep of the per-cell operations, so the whole
    /// transition is determined by their contracts up to the coin flips.
    pub fn update(&mut self)
        requires
            old(self).wf(),
        ensures
            final(self).wf(),
            final(self).max_fill == old(self).max_fill,
            final(self).grid.width == old(self).grid.width,
            final(self).grid.height == old(self).grid.height,
            total_fill(final(self).grid.cells@) == total_fill(old(self).grid.cells@),
            sand_count(final(self).grid.cells@) == sand_count(old(self).grid.cells@),
            forall|k: int|
                0 <= k <= old(self).n() ==> #[trigger] sand_above(final(self).grid.cells@, k)
                    <= sand_above(old(self).grid.cells@, k),
            forall|i: int|
                0 <= i < old(self).n() && (old(self).grid.cells@[i].p_type == ParticleType::Wood
                    || final(self).grid.cells@[i].p_type == ParticleType::Wood)
                    ==> #[trigger] final(self).grid.cells@[i] == old(self).grid.cells@[i],
            grid_settled(
                old(self).grid.cells@,
                old(self).grid.width as int,
                old(self).grid.height as int,
                old(self).max_fill,
            ) ==> final(self).grid.cells@ == old(self).grid.cells@,
            !grid_settled(
                old(self).grid.cells@,
                old(self).grid.width as int,
                old(self).grid.height as int,
                old(self).max_fill,
            ) ==> final(self).grid.cells@ != old(self).grid.cells@,
            one_tick(*old(self), *final(self)),
    {
        let ghost orig = *self;
        proof {
            assert(orig.eff() =~= orig.grid.cells@);
        }
        let h = self.grid.height;
        let w = self.grid.width;
        let ghost m = orig.max_fill;
        let ghost mut moved_any: bool = false;
        let ghost mut wit: int = 0;
        let mut yi: i32 = h;
        while yi > 0
            invariant
                self.wf(),
                0 <= yi <= h,
                w == self.grid.width,
                h == self.grid.height,
                self.max_fill == orig.max_fill,
                orig.grid.width == w,
                orig.grid.height == h,
                m == orig.max_fill,
                self.grid.cells@.len() == orig.grid.cells@.len(),
                self.n() == orig.n(),
                total_fill(self.grid.cells@) == total_fill(orig.grid.cells@),
                sand_count(self.grid.cells@) == sand_count(orig.grid.cells@),
                forall|k: int|
                    0 <= k <= orig.n() ==> #[trigger] sand_above(self.grid.cells@, k)
                        <= sand_above(orig.grid.cells@, k),
                forall|i: int|
                    0 <= i < orig.n() && #[trigger] self.grid.cells@[i] != orig.grid.cells@[i]
                        ==> orig.grid.cells@[i].p_type != ParticleType::Wood
                        && self.grid.cells@[i].p_type != ParticleType::Wood,
                !moved_any ==> self.grid.cells@ == orig.grid.cells@,
                !moved_any ==> forall|a: int, b: int|
                    0 <= a < w && yi <= b < h ==> #[trigger] cell_settled(
                        orig.grid.cells@,
                        w as int,
                        h as int,
                        m,
                        a,
                        b,
                    ),
                moved_any ==> !grid_settled(orig.grid.cells@, w as int, h as int, m),
                moved_any ==> 0 <= wit < orig.n() && yi * w <= wit && sunk_into(
                    orig.grid.cells@[wit],
                    self.grid.cells@[wit],
                ),
                tick_upto(orig, *self, h as int, yi as int),
            decreases yi,
        {
            yi = yi - 1;
            let y = yi;
            let ghost row0 = *self;
            proof {
                assert(row0.eff() =~= row0.grid.cells@);
                lemma_row_start_succ(row0, y as int);
                lemma_row_start_succ(row0, y as int + 1);
            }
            let mut x: i32 = 0;
            while x < w
                invariant
                    self.mid_wf(),
                    0 <= x <= w,
                    0 <= y < h,
                    w == self.grid.width,
                    h == self.grid.height,
                    w == row0.grid.width,
                    h == row0.grid.height,
                    orig.grid.width == w,
                    orig.grid.height == h,
                    m == orig.max_fill,
                    row0.wf(),
                    row0.max_fill == orig.max_fill,
                    self.max_fill == orig.max_fill,
                    self.grid == row0.grid,
                    row0.eff() == row0.grid.cells@,
                    row0.grid.cells@.len() == orig.grid.cells@.len(),
                    row0.row_start(y as int + 1) == row0.row_start(y as int) + w,
                    row0.row_start(y as int + 2) == row0.row_start(y as int + 1) + w,
                    total_fill(self.eff()) == total_fill(orig.grid.cells@),
                    sand_count(self.eff()) == sand_count(orig.grid.cells@),
                    forall|k: int|
                        0 <= k <= orig.n() ==> #[trigger] sand_above(self.eff(), k) <= sand_above(
                            orig.grid.cells@,
                            k,
                        ),
                    forall|i: int|
                        0 <= i < orig.n() && #[trigger] self.eff()[i] != orig.grid.cells@[i]
                            ==> orig.grid.cells@[i].p_type != ParticleType::Wood
                            && self.eff()[i].p_type != ParticleType::Wood,
                    forall|i: int|
                        0 <= i < self.n() && #[trigger] self.changed.cells@[i] ==> row0.row_start(
                            y as int,
                        ) <= i < row0.row_start(y as int + 2),
                    !moved_any ==> self.changed == row0.changed && self.staged == row0.staged
                        && row0.grid.cells@ == orig.grid.cells@,
                    !moved_any ==> forall|a: int, b: int|
                        0 <= a < w && y < b < h ==> #[trigger] cell_settled(
                            orig.grid.cells@,
                            w as int,
                            h as int,
                            m,
                            a,
                            b,
                        ),
                    !moved_any ==> forall|a: int|
                        0 <= a < x ==> #[trigger] cell_settled(
                            orig.grid.cells@,
                            w as int,
                            h as int,
                            m,
                            a,
                            y as int,
                        ),
                    moved_any ==> !grid_settled(orig.grid.cells@, w as int, h as int, m),
                    moved_any ==> 0 <= wit < orig.n() && row0.row_start(y as int) <= wit
                        && sunk_into(orig.grid.cells@[wit], self.eff_cell(wit)) && (wit
                        < row0.row_start(y as int + 1) ==> self.changed.cells@[wit]),
                    sweep_upto(row0, *self, y as int, x as int),
                decreases w - x,
            {
                let ghost it0 = *self;
                let ghost sp = it0.grid.pos(x as int, y as int);
                proof {
                    lemma_pos_bounds(w as int, h as int, x as int, y as int);
                }
                if !*self.changed.get(x, y) {
                    let kind = self.grid.get(x, y).p_type;
                    proof {
                        assert(it0.eff_cell(sp) == it0.grid.cells@[sp]);
                        if !moved_any {
                            lemma_rng_irrelevant(row0, it0);
                            assert(it0.eff() == orig.grid.cells@);
                        }
                    }
                    let mut did_move = false;
                    match kind {
                        ParticleType::Sand => {
                            did_move = self.try_move_sand(x, y);
                        },
                        ParticleType::Water => {
                            did_move = self.try_move_water(x, y);
                        },
                        ParticleType::Wood => {},
                        ParticleType::Empty => {},
                    }
                    proof {
                        if kind == ParticleType::Sand || kind == ParticleType::Water {
                            assert(stage_step(
                                it0,
                                *self,
                                it0.row_start(y as int),
                                it0.row_start(y as int + 2),
                            ));
                            assert forall|k: int| 0 <= k <= orig.n() implies #[trigger] sand_above(
                                self.eff(),
                                k,
                            ) <= sand_above(orig.grid.cells@, k) by {
                                assert(sand_above(self.eff(), k) <= sand_above(it0.eff(), k));
                            }
                            assert forall|i: int|
                                0 <= i < orig.n() && #[trigger] self.eff()[i]
                                    != orig.grid.cells@[i]
                                implies orig.grid.cells@[i].p_type != ParticleType::Wood
                                && self.eff()[i].p_type != ParticleType::Wood by {
                                assert(self.eff()[i] == self.eff_cell(i));
                                assert(it0.eff()[i] == it0.eff_cell(i));
                                if self.eff_cell(i) != it0.eff_cell(i) {
                                    assert(it0.eff_cell(i).p_type != ParticleType::Wood);
                                    assert(self.eff_cell(i).p_type != ParticleType::Wood);
                                }
                            }
                            assert forall|i: int|
                                0 <= i < self.n() && #[trigger] self.changed.cells@[i]
                                implies row0.row_start(y as int) <= i < row0.row_start(
                                y as int + 2,
                            ) by {
                                if !(it0.row_start(y as int) <= i < it0.row_start(y as int + 2)) {
                                    assert(self.changed.cells@[i] == it0.changed.cells@[i]);
                                }
                            }
                            if moved_any {
                                // The recorded witness survives this operation.
                                if row0.row_start(y as int) <= wit < row0.row_start(y as int + 1) {
                                    assert(it0.changed.cells@[wit]);
                                    if self.eff_cell(wit) != it0.eff_cell(wit) {
                                        assert(!it0.changed.cells@[wit]);
                                    }
                                    assert(self.changed.cells@[wit]);
                                } else if wit < row0.row_start(y as int + 2) {
                                    if self.eff_cell(wit) != it0.eff_cell(wit) {
                                        assert(sunk_into(it0.eff_cell(wit), self.eff_cell(wit)));
                                    }
                                } else {
                                    assert(self.changed.cells@[wit] == it0.changed.cells@[wit]);
                                    assert(self.staged.cells@[wit] == it0.staged.cells@[wit]);
                                    assert(self.eff_cell(wit) == it0.eff_cell(wit));
                                }
                                assert(sunk_into(orig.grid.cells@[wit], self.eff_cell(wit)));
                            } else if did_move {
                                // First committed move of the tick: record where
                                // it sank, and note that the grid was not settled.
                                let c1 = it0.grid.pos(x as int, y as int + 1);
                                let cl = if kind == ParticleType::Water {
                                    it0.grid.pos(x as int - 1, y as int)
                                } else {
                                    it0.grid.pos(x as int - 1, y as int + 1)
                                };
                                let cr = if kind == ParticleType::Water {
                                    it0.grid.pos(x as int + 1, y as int)
                                } else {
                                    it0.grid.pos(x as int + 1, y as int + 1)
                                };
                                let cand = if sunk_at(it0, *self, c1) {
                                    c1
                                } else if sunk_at(it0, *self, cl) {
                                    cl
                                } else {
                                    cr
                                };
                                assert(sunk_at(it0, *self, cand));
                                assert(it0.eff_cell(cand) != self.eff_cell(cand));
                                assert(row0.row_start(y as int) <= cand < row0.row_start(
                                    y as int + 2,
                                )) by {
                                    if cand < row0.row_start(y as int) || cand >= row0.row_start(
                                        y as int + 2,
                                    ) {
                                        assert(self.changed.cells@[cand]
                                            == it0.changed.cells@[cand]);
                                        assert(self.staged.cells@[cand] == it0.staged.cells@[cand]);
                                        assert(self.eff_cell(cand) == it0.eff_cell(cand));
                                    }
                                }
                                assert(it0.eff()[cand] == it0.eff_cell(cand));
                                assert(sunk_into(orig.grid.cells@[cand], self.eff_cell(cand)));
                                wit = cand;
                                moved_any = true;
                                assert(!cell_settled(
                                    orig.grid.cells@,
                                    w as int,
                                    h as int,
                                    m,
                                    x as int,
                                    y as int,
                                ));
                                assert(!grid_settled(orig.grid.cells@, w as int, h as int, m));
                            } else {
                                // Nothing was ready here: the cell is settled in
                                // the starting configuration. The mask cannot be
                                // what blocked anything, because it is still
                                // all-clear.
                                assert(self.changed == it0.changed);
                                assert(self.staged == it0.staged);
                                if y as int + 1 < h as int {
                                    let dp2 = it0.grid.pos(x as int, y as int + 1);
                                    lemma_pos_bounds(w as int, h as int, x as int, y as int + 1);
                                    assert(!row0.changed.cells@[dp2]);
                                    if 0 <= x as int - 1 {
                                        let dl2 = it0.grid.pos(x as int - 1, y as int + 1);
                                        lemma_pos_bounds(
                                            w as int,
                                            h as int,
                                            x as int - 1,
                                            y as int + 1,
                                        );
                                        assert(!row0.changed.cells@[dl2]);
                                    }
                                    if x as int + 1 < w as int {
                                        let dr2 = it0.grid.pos(x as int + 1, y as int + 1);
                                        lemma_pos_bounds(
                                            w as int,
                                            h as int,
                                            x as int + 1,
                                            y as int + 1,
                                        );
                                        assert(!row0.changed.cells@[dr2]);
                                    }
                                }
                                if 0 <= x as int - 1 {
                                    let lp2 = it0.grid.pos(x as int - 1, y as int);
                                    lemma_pos_bounds(w as int, h as int, x as int - 1, y as int);
                                    assert(!row0.changed.cells@[lp2]);
                                }
                                if x as int + 1 < w as int {
                                    let rp2 = it0.grid.pos(x as int + 1, y as int);
                                    lemma_pos_bounds(w as int, h as int, x as int + 1, y as int);
                                    assert(!row0.changed.cells@[rp2]);
                                }
                                assert(cell_settled(
                                    orig.grid.cells@,
                                    w as int,
                                    h as int,
                                    m,
                                    x as int,
                                    y as int,
                                ));
                            }
                        } else {
                            if !moved_any {
                                assert(cell_settled(
                                    orig.grid.cells@,
                                    w as int,
                                    h as int,
                                    m,
                                    x as int,
                                    y as int,
                                ));
                            }
                        }
                        if kind == ParticleType::Sand {
                            assert(sand_rel(it0, *self, x as int, y as int));
                        } else if kind == ParticleType::Water {
                            assert(water_rel(it0, *self, x as int, y as int));
                        }
                        assert(dispatch_rel(it0, *self, (x as int + 1) - 1, y as int));
                        assert(sweep_upto(row0, it0, y as int, (x as int + 1) - 1));
                        assert(sweep_upto(row0, *self, y as int, x as int + 1));
                    }
                } else {
                    proof {
                        if !moved_any {
                            // while nothing has moved the mask is still
                            // all-clear, so no cell can be marked resolved
                            assert(!row0.changed.cells@[sp]);
                            assert(false);
                        }
                        assert(dispatch_rel(it0, *self, (x as int + 1) - 1, y as int));
                        assert(sweep_upto(row0, it0, y as int, (x as int + 1) - 1));
                        assert(sweep_upto(row0, *self, y as int, x as int + 1));
                    }
                }
                x = x + 1;
            }
            let ghost swept = *self;
            self.merge_row(y);
            let ghost merged1 = *self;
            if y + 1 < h {
                self.merge_row(y + 1);
            }
            proof {
                assert(self.eff() == swept.eff());
                assert forall|i: int| 0 <= i < self.n() implies !(
                #[trigger] self.changed.cells@[i]) by {
                    if i < row0.row_start(y as int) || i >= row0.row_start(y as int + 2) {
                        assert(merged1.changed.cells@[i] == swept.changed.cells@[i]);
                        assert(!swept.changed.cells@[i]);
                        if y as int + 1 < h as int {
                            assert(self.changed.cells@[i] == merged1.changed.cells@[i]);
                        }
                    } else if i < row0.row_start(y as int + 1) {
                        assert(!merged1.changed.cells@[i]);
                        if y as int + 1 < h as int {
                            assert(self.changed.cells@[i] == merged1.changed.cells@[i]);
                        }
                    } else {
                        if y as int + 1 < h as int {
                            assert(!self.changed.cells@[i]);
                        } else {
                            assert((w as int) * (h as int) == (h as int) * (w as int)) by (
                            nonlinear_arith);
                            assert(self.n() == row0.row_start(y as int + 1));
                            // with no row below, the window is a single row
                            assert(false);
                        }
                    }
                }
                assert(self.eff() =~= self.grid.cells@);
                assert(total_fill(self.grid.cells@) == total_fill(orig.grid.cells@));
                assert forall|k: int| 0 <= k <= orig.n() implies #[trigger] sand_above(
                    self.grid.cells@,
                    k,
                ) <= sand_above(orig.grid.cells@, k) by {
                    assert(sand_above(swept.eff(), k) <= sand_above(orig.grid.cells@, k));
                }
                if !moved_any {
                    assert(swept.changed == row0.changed);
                    assert(swept.eff() =~= row0.grid.cells@);
                    assert forall|i: int| 0 <= i < self.n() implies self.grid.cells@[i]
                        == orig.grid.cells@[i] by {
                        assert(self.eff()[i] == self.eff_cell(i));
                        assert(swept.eff()[i] == row0.grid.cells@[i]);
                    }
                    assert(self.grid.cells@ =~= orig.grid.cells@);
                } else {
                    assert(sunk_into(orig.grid.cells@[wit], swept.eff_cell(wit)));
                    assert(swept.eff()[wit] == swept.eff_cell(wit));
                    assert(self.eff()[wit] == self.eff_cell(wit));
                    assert(self.eff_cell(wit) == self.grid.cells@[wit]);
                    assert(sunk_into(orig.grid.cells@[wit], self.grid.cells@[wit]));
                }
                assert(merge_rel(swept, merged1, y as int));
                if y as int + 1 < h as int {
                    assert(merge_rel(merged1, *self, y as int + 1));
                } else {
                    assert(same_state(merged1, *self));
                }
                assert(sweep_upto(row0, swept, y as int, row0.grid.width as int));
                assert(row_rel(row0, *self, y as int));
                assert(tick_upto(orig, *self, h as int, y as int));
            }
        }
        proof {
            assert(self.eff() =~= self.grid.cells@);
            assert(one_tick(orig, *self));
            assert forall|i: int|
                0 <= i < orig.n() && (orig.grid.cells@[i].p_type == ParticleType::Wood
                    || self.grid.cells@[i].p_type == ParticleType::Wood)
                implies #[trigger] self.grid.cells@[i] == orig.grid.cells@[i] by {
                if self.grid.cells@[i] != orig.grid.cells@[i] {
                    assert(orig.grid.cells@[i].p_type != ParticleType::Wood);
                    assert(self.grid.cells@[i].p_type != ParticleType::Wood);
                }
            }
            if moved_any {
                assert(self.grid.cells@[wit] != orig.grid.cells@[wit]);
            } else {
                assert forall|a: int, b: int| 0 <= a < w && 0 <= b < h implies #[trigger] cell_settled(
                    orig.grid.cells@,
                    w as int,
                    h as int,
                    m,
                    a,
                    b,
                ) by {}
                assert(grid_settled(orig.grid.cells@, w as int, h as int, m));
            }
        }
    }
}

/// Scenario law, derived from the contract of `update` alone: on a 1 x 2
/// grid holding one full water cell above an empty cell, any tick the
/// contract admits moves the whole fill down — the top cell ends empty
/// and the bottom cell ends full.
pub proof fn lemma_tick_vertical_settle(a: Physics, z: Physics)
    requires
        a.wf(),
        a.max_fill > 0,
        a.grid.width == 1,
        a.grid.height == 2,
        a.grid.cells@[0].p_type == ParticleType::Water,
        a.grid.cells@[0].fill_ratio == a.max_fill,
        a.grid.cells@[1] == Particle::spec_empty(),
        one_tick(a, z),
    ensures
        z.grid.cells@[0] == Particle::spec_empty(),
        z.grid.cells@[1] == (Particle {
            p_type: ParticleType::Water,
            fill_ratio: a.max_fill,
            bearing: Bearing::Still,
        }),
{
    assert(a.n() == 2);
    assert(!a.changed.cells@[0]);
    assert(!a.changed.cells@[1]);
    let m1 = lemma_tick_upto_elim(a, z, a.grid.height as int, 0);
    let m2 = lemma_tick_upto_elim(a, m1, a.grid.height as int, 1);
    assert(same_state(a, m2));
    // the bottom row holds only an empty cell: its sweep and commits
    // change nothing
    let s = lemma_row_rel_elim(m2, m1, 1);
    let u = lemma_sweep_upto_elim(m2, s.0, 1, m2.grid.width as int);
    assert(same_state(m2, u));
    assert(u.grid.pos(0, 1) == 1);
    assert(!u.changed.cells@[u.grid.pos(0, 1)]);
    assert(u.grid.cells@[1].p_type == ParticleType::Empty);
    assert(same_state(u, s.0));
    assert(s.0.row_start(1) == 1 && s.0.row_start(2) == 2);
    assert(s.1.n() == 2 && s.0.n() == 2);
    assert(!s.1.changed.cells@[1]);
    assert(merge_rel(s.0, s.1, 1));
    assert(!s.0.changed.cells@[0]);
    assert(s.0.grid.cells@[0] == a.grid.cells@[0]);
    assert(s.1.changed.cells@[0] == s.0.changed.cells@[0]);
    assert(s.1.grid.cells@[0] == s.0.grid.cells@[0]);
    assert(s.1.eff()[1] == s.1.eff_cell(1));
    assert(s.0.eff()[1] == s.0.eff_cell(1));
    assert(s.1.grid.cells@[1] == a.grid.cells@[1]);
    assert(same_state(s.1, m1));
    // the top row holds the full water cell: gravity takes it all down
    let t = lemma_row_rel_elim(m1, z, 0);
    let v = lemma_sweep_upto_elim(m1, t.0, 0, m1.grid.width as int);
    assert(same_state(m1, v));
    assert(v.n() == 2);
    assert(v.grid.pos(0, 0) == 0 && v.grid.pos(0, 1) == 1);
    assert(!v.changed.cells@[0]);
    assert(v.grid.cells@[0].p_type == ParticleType::Water);
    assert(water_rel(v, t.0, 0, 0));
    assert(v.eff()[0] == v.eff_cell(0) && v.eff_cell(0) == a.grid.cells@[0]);
    assert(v.eff()[1] == v.eff_cell(1) && v.eff_cell(1) == Particle::spec_empty());
    assert(fill_of(v.eff()[0]) == a.max_fill);
    assert(fill_of(v.eff()[1]) == 0);
    assert(down_ready(v.eff(), 1, 2, v.max_fill, 0, 0));
    assert(v.down_ok(0, 0));
    assert(down_tgt_fill(v, 0, 0) == a.max_fill);
    assert(down_residual(v, 0, 0) == 0);
    let dtp = down_tgt_particle(v, 0, 0);
    assert(dtp == (Particle {
        p_type: ParticleType::Water,
        fill_ratio: a.max_fill,
        bearing: Bearing::Still,
    }));
    assert(t.0.eff() == v.eff().update(1, dtp).update(0, Particle::spec_empty()));
    assert(t.0.eff()[1] == dtp && t.0.eff()[0] == Particle::spec_empty());
    // both commits preserve the effective state and clear the marks
    assert(merge_rel(t.0, t.1, 0));
    assert(merge_rel(t.1, z, 1));
    assert(t.0.row_start(0) == 0 && t.0.row_start(1) == 1);
    assert(t.1.row_start(1) == 1 && t.1.row_start(2) == 2);
    assert(z.n() == 2 && t.1.n() == 2 && t.0.n() == 2);
    assert(!t.1.changed.cells@[0]);
    assert(!z.changed.cells@[1]);
    assert(!z.changed.cells@[0]);
    assert(z.eff()[0] == t.0.eff()[0] && z.eff()[1] == t.0.eff()[1]);
    assert(z.eff()[0] == z.eff_cell(0) && z.eff()[1] == z.eff_cell(1));
    assert(z.grid.cells@[0] == z.eff_cell(0));
    assert(z.grid.cells@[1] == z.eff_cell(1));
}

/// Scenario law, derived from the contract of `update` alone: on a 1 x 2
/// grid holding a sand grain above a water cell, any tick the contract
/// admits swaps the two — the grain sinks through the water, which rises
/// unchanged.
pub proof fn lemma_tick_sand_sink(a: Physics, z: Physics)
    requires
        a.wf(),
        a.grid.width == 1,
        a.grid.height == 2,
        a.grid.cells@[0].p_type == ParticleType::Sand,
        a.grid.cells@[1].p_type == ParticleType::Water,
        one_tick(a, z),
    ensures
        z.grid.cells@[0] == a.grid.cells@[1],
        z.grid.cells@[1] == a.grid.cells@[0],
{
    assert(a.n() == 2);
    assert(!a.changed.cells@[0]);
    assert(!a.changed.cells@[1]);
    let m1 = lemma_tick_upto_elim(a, z, a.grid.height as int, 0);
    let m2 = lemma_tick_upto_elim(a, m1, a.grid.height as int, 1);
    assert(same_state(a, m2));
    // the bottom water cell has nowhere to go: walls below and to both
    // sides
    let s = lemma_row_rel_elim(m2, m1, 1);
    let u = lemma_sweep_upto_elim(m2, s.0, 1, m2.grid.width as int);
    assert(same_state(m2, u));
    assert(u.n() == 2);
    assert(u.grid.pos(0, 1) == 1);
    assert(!u.changed.cells@[u.grid.pos(0, 1)]);
    assert(u.grid.cells@[1].p_type == ParticleType::Water);
    assert(water_rel(u, s.0, 0, 1));
    assert(!u.down_ok(0, 1));
    assert(!u.horiz_ok(0, 1, Bearing::Left));
    assert(!u.horiz_ok(0, 1, Bearing::Right));
    assert(s.0.changed == u.changed && s.0.staged == u.staged);
    assert(s.0.grid == u.grid && s.0.max_fill == u.max_fill);
    assert(s.0.row_start(1) == 1 && s.0.row_start(2) == 2);
    assert(s.1.n() == 2 && s.0.n() == 2);
    assert(!s.1.changed.cells@[1]);
    assert(merge_rel(s.0, s.1, 1));
    assert(!s.0.changed.cells@[0]);
    assert(s.0.grid.cells@[0] == a.grid.cells@[0]);
    assert(s.1.changed.cells@[0] == s.0.changed.cells@[0]);
    assert(s.1.grid.cells@[0] == s.0.grid.cells@[0]);
    assert(!s.1.changed.cells@[0] && s.1.grid.cells@[0] == a.grid.cells@[0]);
    assert(s.1.eff()[1] == s.1.eff_cell(1));
    assert(s.0.eff()[1] == s.0.eff_cell(1));
    assert(s.1.grid.cells@[1] == a.grid.cells@[1]);
    assert(same_state(s.1, m1));
    // the top sand grain displaces the water straight below
    let t = lemma_row_rel_elim(m1, z, 0);
    let v = lemma_sweep_upto_elim(m1, t.0, 0, m1.grid.width as int);
    assert(same_state(m1, v));
    assert(v.n() == 2);
    assert(v.grid.pos(0, 0) == 0 && v.grid.pos(0, 1) == 1);
    assert(!v.changed.cells@[0]);
    assert(v.grid.cells@[0].p_type == ParticleType::Sand);
    assert(sand_rel(v, t.0, 0, 0));
    assert(v.eff()[0] == v.eff_cell(0) && v.eff_cell(0) == a.grid.cells@[0]);
    assert(v.eff()[1] == v.eff_cell(1) && v.eff_cell(1) == a.grid.cells@[1]);
    assert(displace_ready(v.eff(), 1, 2, 0, 1));
    assert(v.displace_ok(0, 1));
    assert(t.0.eff() == displace_result(v, 0, 0, 0, 1));
    assert(t.0.eff()[1] == a.grid.cells@[0] && t.0.eff()[0] == a.grid.cells@[1]);
    assert(merge_rel(t.0, t.1, 0));
    assert(merge_rel(t.1, z, 1));
    assert(t.0.row_start(0) == 0 && t.0.row_start(1) == 1);
    assert(t.1.row_start(1) == 1 && t.1.row_start(2) == 2);
    assert(z.n() == 2 && t.1.n() == 2 && t.0.n() == 2);
    assert(!t.1.changed.cells@[0]);
    assert(!z.changed.cells@[1]);
    assert(!z.changed.cells@[0]);
    assert(z.eff()[0] == t.0.eff()[0] && z.eff()[1] == t.0.eff()[1]);
    assert(z.eff()[0] == z.eff_cell(0) && z.eff()[1] == z.eff_cell(1));
    assert(z.grid.cells@[0] == z.eff_cell(0));
    assert(z.grid.cells@[1] == z.eff_cell(1));
}

} // verus!
