use magic_pixel::{Bearing, Grid, Particle, ParticleGrid, ParticleType, Physics};

const MAX_FILL: u8 = 64;

fn water(fill: u8) -> Particle {
    Particle { p_type: ParticleType::Water, fill_ratio: fill, bearing: Bearing::Still }
}

fn sand() -> Particle {
    Particle { p_type: ParticleType::Sand, fill_ratio: MAX_FILL, bearing: Bearing::Still }
}

fn wood() -> Particle {
    Particle { p_type: ParticleType::Wood, fill_ratio: MAX_FILL, bearing: Bearing::Still }
}

fn total_water(grid: &ParticleGrid) -> u64 {
    let mut sum: u64 = 0;
    for p in grid.cells.iter() {
        if p.p_type == ParticleType::Water {
            sum += p.fill_ratio as u64;
        }
    }
    sum
}

fn sand_rows(grid: &ParticleGrid) -> Vec<i32> {
    let mut rows = Vec::new();
    for y in 0..grid.height {
        for x in 0..grid.width {
            if grid.get(x, y).p_type == ParticleType::Sand {
                rows.push(y);
            }
        }
    }
    rows
}

#[test]
fn vertical_settle() {
    // A full water cell above an empty cell: one tick moves all fill down.
    let mut grid = Grid::<Particle>::new(1, 2);
    grid.set(0, 0, water(MAX_FILL));
    let mut engine = Physics::new_seeded(grid, MAX_FILL, 7);
    engine.update();
    assert_eq!(engine.grid.get(0, 0).p_type, ParticleType::Empty);
    assert_eq!(engine.grid.get(0, 0).fill_ratio, 0);
    assert_eq!(engine.grid.get(0, 1).p_type, ParticleType::Water);
    assert_eq!(engine.grid.get(0, 1).fill_ratio, MAX_FILL);
}

#[test]
fn partial_vertical_settle() {
    // The lower cell has room for only part of the upper cell's fill.
    let mut grid = Grid::<Particle>::new(1, 2);
    grid.set(0, 0, water(MAX_FILL));
    grid.set(0, 1, water(MAX_FILL - 10));
    let mut engine = Physics::new_seeded(grid, MAX_FILL, 7);
    engine.update();
    assert_eq!(engine.grid.get(0, 0).p_type, ParticleType::Water);
    assert_eq!(engine.grid.get(0, 0).fill_ratio, MAX_FILL - 10);
    assert_eq!(engine.grid.get(0, 1).p_type, ParticleType::Water);
    assert_eq!(engine.grid.get(0, 1).fill_ratio, MAX_FILL);
}

#[test]
fn sand_sink() {
    // Sand sinks through water, swapping places with it.
    let mut grid = Grid::<Particle>::new(1, 2);
    grid.set(0, 0, sand());
    grid.set(0, 1, water(1));
    let mut engine = Physics::new_seeded(grid, MAX_FILL, 7);
    engine.update();
    assert_eq!(engine.grid.get(0, 0).p_type, ParticleType::Water);
    assert_eq!(engine.grid.get(0, 0).fill_ratio, 1);
    assert_eq!(engine.grid.get(0, 1).p_type, ParticleType::Sand);
}

#[test]
fn horizontal_split() {
    // A single row: water spreads until adjacent cells differ by at most
    // one; the remainder is never lost.
    let mut grid = Grid::<Particle>::new(3, 1);
    grid.set(0, 0, water(MAX_FILL));
    let mut engine = Physics::new_seeded(grid, MAX_FILL, 7);
    for _ in 0..20 {
        engine.update();
    }
    assert_eq!(total_water(&engine.grid), MAX_FILL as u64);
    for x in 0..3 {
        let p = engine.grid.get(x, 0);
        assert_eq!(p.p_type, ParticleType::Water);
        let third = MAX_FILL / 3;
        assert!(p.fill_ratio >= third && p.fill_ratio <= third + 1);
    }
    // Equilibrium: one more tick changes nothing.
    let settled = engine.grid.clone();
    engine.update();
    assert_eq!(settled, engine.grid);
}

#[test]
fn wall_stop() {
    // A lone full cell has no eligible neighbor in any direction.
    let mut grid = Grid::<Particle>::new(1, 1);
    grid.set(0, 0, water(MAX_FILL));
    let mut engine = Physics::new_seeded(grid, MAX_FILL, 7);
    for _ in 0..5 {
        engine.update();
        assert_eq!(engine.grid.get(0, 0).p_type, ParticleType::Water);
        assert_eq!(engine.grid.get(0, 0).fill_ratio, MAX_FILL);
    }
}

#[test]
fn conservation_over_many_ticks() {
    // The total water fill is unchanged by every tick, for a mixed grid.
    let mut grid = Grid::<Particle>::new(6, 6);
    for x in 0..6 {
        grid.set(x, 5, wood());
    }
    grid.set(2, 4, wood());
    grid.set(0, 0, water(MAX_FILL));
    grid.set(1, 0, water(17));
    grid.set(4, 1, water(3));
    grid.set(5, 0, water(MAX_FILL));
    grid.set(3, 0, sand());
    grid.set(2, 2, sand());
    let before = total_water(&grid);
    let mut engine = Physics::new_seeded(grid, MAX_FILL, 42);
    for _ in 0..50 {
        engine.update();
        assert_eq!(total_water(&engine.grid), before);
    }
}

#[test]
fn settled_grid_unchanged() {
    // A grid with no eligible flow anywhere is a fixed point of the tick,
    // bearings included.
    let mut grid = Grid::<Particle>::new(2, 2);
    for x in 0..2 {
        for y in 0..2 {
            grid.set(x, y, water(MAX_FILL));
        }
    }
    grid.set(0, 0, wood());
    let mut engine = Physics::new_seeded(grid, MAX_FILL, 9);
    let before = engine.grid.clone();
    engine.update();
    assert_eq!(before, engine.grid);
}

#[test]
fn sand_never_moves_up() {
    // Across many ticks of a mixed grid, the multiset of sand rows only
    // moves downward: the k lowest grains are never higher than before.
    let mut grid = Grid::<Particle>::new(5, 5);
    grid.set(1, 0, sand());
    grid.set(3, 1, sand());
    grid.set(2, 2, sand());
    grid.set(1, 3, water(MAX_FILL));
    grid.set(2, 4, wood());
    let mut engine = Physics::new_seeded(grid, MAX_FILL, 5);
    let mut rows = sand_rows(&engine.grid);
    rows.sort();
    for _ in 0..30 {
        engine.update();
        let mut after = sand_rows(&engine.grid);
        after.sort();
        assert_eq!(rows.len(), after.len());
        for i in 0..rows.len() {
            assert!(after[i] >= rows[i]);
        }
        rows = after;
    }
}

#[test]
fn sand_takes_diagonal() {
    // Straight down is wood, one diagonal is open, the other is a wall.
    let mut grid = Grid::<Particle>::new(2, 2);
    grid.set(0, 0, sand());
    grid.set(0, 1, wood());
    let mut engine = Physics::new_seeded(grid, MAX_FILL, 11);
    engine.update();
    assert_eq!(engine.grid.get(0, 0).p_type, ParticleType::Empty);
    assert_eq!(engine.grid.get(1, 1).p_type, ParticleType::Sand);
}

#[test]
fn sand_blocked_by_wood_and_sand() {
    // Sand never displaces wood or other sand.
    let mut grid = Grid::<Particle>::new(3, 2);
    grid.set(1, 0, sand());
    grid.set(0, 1, wood());
    grid.set(1, 1, sand());
    grid.set(2, 1, wood());
    let mut engine = Physics::new_seeded(grid, MAX_FILL, 13);
    engine.update();
    assert_eq!(engine.grid.get(1, 0).p_type, ParticleType::Sand);
    assert_eq!(engine.grid.get(1, 1).p_type, ParticleType::Sand);
}

#[test]
fn water_prefers_down_over_sideways() {
    // Gravity wins even when a horizontal target is available.
    let mut grid = Grid::<Particle>::new(2, 2);
    grid.set(0, 0, water(MAX_FILL));
    let mut engine = Physics::new_seeded(grid, MAX_FILL, 17);
    engine.update();
    assert_eq!(engine.grid.get(0, 1).p_type, ParticleType::Water);
    assert_eq!(engine.grid.get(0, 1).fill_ratio, MAX_FILL);
    assert_eq!(engine.grid.get(0, 0).p_type, ParticleType::Empty);
}

#[test]
fn cascade_spreads_residual_in_same_tick() {
    // A vertical settle that leaves residual fill starts spreading
    // sideways within the same tick.
    let mut grid = Grid::<Particle>::new(2, 2);
    grid.set(0, 0, water(MAX_FILL));
    grid.set(0, 1, water(MAX_FILL - 4));
    grid.set(1, 1, wood());
    let mut engine = Physics::new_seeded(grid, MAX_FILL, 19);
    engine.update();
    // Four units fit below; the remaining fill splits toward (1, 0).
    assert_eq!(engine.grid.get(0, 1).fill_ratio, MAX_FILL);
    let left = engine.grid.get(0, 0);
    let right = engine.grid.get(1, 0);
    assert_eq!(left.p_type, ParticleType::Water);
    assert_eq!(right.p_type, ParticleType::Water);
    assert_eq!(left.fill_ratio + right.fill_ratio, MAX_FILL - 4);
    assert_eq!(total_water(&engine.grid), (MAX_FILL as u64) * 2 - 4);
}

#[test]
fn zero_sized_grid_ticks() {
    let grid = Grid::<Particle>::new(0, 0);
    let mut engine = Physics::new_seeded(grid, MAX_FILL, 23);
    engine.update();
    assert_eq!(engine.grid.width, 0);
    assert_eq!(engine.grid.height, 0);
}

#[test]
fn wood_is_immovable() {
    // Wood cells are never dispatched and never displaced: across many
    // ticks of an active grid they stay exactly in place, and no new wood
    // appears.
    let mut grid = Grid::<Particle>::new(5, 5);
    grid.set(1, 2, wood());
    grid.set(3, 3, wood());
    grid.set(0, 4, wood());
    grid.set(1, 0, water(MAX_FILL));
    grid.set(2, 0, sand());
    grid.set(3, 0, water(7));
    let mut engine = Physics::new_seeded(grid, MAX_FILL, 29);
    for _ in 0..30 {
        engine.update();
        let mut wood_cells: Vec<(i32, i32)> = Vec::new();
        for y in 0..5 {
            for x in 0..5 {
                if engine.grid.get(x, y).p_type == ParticleType::Wood {
                    wood_cells.push((x, y));
                }
            }
        }
        assert_eq!(wood_cells, vec![(1, 2), (3, 3), (0, 4)]);
    }
}

#[test]
fn unsettled_grid_changes() {
    // The converse of idempotence: where an eligible flow exists, one tick
    // strictly changes the grid.
    let mut grid = Grid::<Particle>::new(3, 3);
    grid.set(1, 0, water(MAX_FILL));
    let mut engine = Physics::new_seeded(grid, MAX_FILL, 31);
    let before = engine.grid.clone();
    engine.update();
    assert_ne!(before, engine.grid);
}

#[test]
fn capacity_respected_over_ticks() {
    // No cell ever exceeds the configured capacity, and empty cells stay
    // at zero fill.
    let mut grid = Grid::<Particle>::new(4, 4);
    grid.set(0, 0, water(MAX_FILL));
    grid.set(1, 0, water(MAX_FILL));
    grid.set(2, 0, water(MAX_FILL));
    grid.set(1, 2, sand());
    let mut engine = Physics::new_seeded(grid, MAX_FILL, 3);
    for _ in 0..30 {
        engine.update();
        for p in engine.grid.cells.iter() {
            if p.p_type == ParticleType::Water {
                assert!(p.fill_ratio <= MAX_FILL);
            }
            if p.p_type == ParticleType::Empty {
                assert_eq!(p.fill_ratio, 0);
            }
        }
    }
}

#[test]
fn same_seed_same_run() {
    // The tie-break generator is seedable, so runs are reproducible.
    let mut make = || {
        let mut grid = Grid::<Particle>::new(4, 4);
        grid.set(0, 0, water(MAX_FILL));
        grid.set(1, 0, sand());
        grid.set(3, 0, water(33));
        Physics::new_seeded(grid, MAX_FILL, 99)
    };
    let mut a = make();
    let mut b = make();
    for _ in 0..20 {
        a.update();
        b.update();
        assert_eq!(a.grid, b.grid);
    }
}
